# mid

Machine-identifier derivation for Linux and Windows hosts, verified with Verus.

- `src/linux.rs`: merges the lines printed by the Linux machine-id sources
  (lowercased, trimmed, dashes removed, deduplicated, sorted, joined by `|`).
- `src/smbios.rs`: parses the raw SMBIOS firmware table and extracts the system UUID,
  system and baseboard serial numbers and processor ID.
- `src/windows.rs`: the Windows identifier, with the machine-GUID-and-disk fallback when
  the BIOS serial number is a vendor placeholder, asked for step by step (`decide_mid`,
  `next_drive_step`, `finish_mid`); storage-descriptor and UTF-16 helpers.
- `src/diagnostics.rs`: the merged stdout/stderr report of the diagnostic program.
- `src/text.rs`, `src/encoding.rs`: the character-sequence model (trim, split, join,
  code-point order, sorted listings) and UTF-8/UTF-16 decoding.
- `app/`: the system calls (shell command, firmware table, registry, drive queries) that
  feed the library, and a diagnostic program.
