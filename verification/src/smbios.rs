//! Windows: the machine identifier read from the raw SMBIOS firmware table.
//!
//! The table that `GetSystemFirmwareTable('RSMB')` returns starts with an eight-byte header
//! whose bytes 4..8 hold the little-endian length of the structure table that follows. Each
//! structure is a formatted area (type byte, length byte, handle, fields) followed by a set
//! of NUL-terminated strings that ends with an extra NUL.

use vstd::prelude::*;
use vstd::utf8::{decode_utf8, is_ascii_chars, valid_utf8};

use crate::encoding::{string_from_utf8_lossy, utf8_lossy};
use crate::errors::{MIDError, SmbiosFault};
use crate::text::{
    ascii_lowercase,
    chars_of, contents, join_chars, non_empty, join_with, lowercase, opt_text, opt_texts, present_parts,
    present_parts_of, split_bytes, split_on, str_to_lowercase, string_of, texts, trim, trim_chars,
};

verus! {

/// Length of the header in front of the structure table.
pub const RAW_SMBIOS_HEADER_LEN: usize = 8;

/// Structure type of the System Information.
pub const SMBIOS_TYPE_SYSTEM: u8 = 1;

/// Structure type of the Baseboard Information.
pub const SMBIOS_TYPE_BASEBOARD: u8 = 2;

/// Structure type of the Processor Information.
pub const SMBIOS_TYPE_PROCESSOR: u8 = 4;

/// Structure type of the End-of-Table marker.
pub const SMBIOS_TYPE_END_OF_TABLE: u8 = 127;

/// A structure of the table as the identifier reads it.
pub struct RecordModel {
    pub kind: u8,
    pub formatted: Seq<u8>,
    pub strings: Seq<Seq<char>>,
    pub next: int,
}

/// The little-endian number in four bytes.
pub open spec fn le_u32(b0: u8, b1: u8, b2: u8, b3: u8) -> int {
    b0 + b1 * 0x100 + b2 * 0x10000 + b3 * 0x1000000
}

/// The index of the first NUL that a second NUL follows, at or after `from`, with both
/// before `end`.
pub open spec fn double_nul_at(raw: Seq<u8>, from: int, end: int) -> Option<int>
    decreases end - from,
{
    if from + 1 >= end {
        None
    } else if raw[from] == 0 && raw[from + 1] == 0 {
        Some(from)
    } else {
        double_nul_at(raw, from + 1, end)
    }
}

/// The search for the double-NUL terminator from `from` reads only bytes that exist: it
/// finds the terminator, or runs out of table, before it runs out of data.
pub open spec fn scan_in_bounds(raw: Seq<u8>, from: int, end: int) -> bool
    decreases end - from,
{
    if from + 1 >= end {
        true
    } else if from >= raw.len() {
        false
    } else if raw[from] != 0 {
        scan_in_bounds(raw, from + 1, end)
    } else if from + 1 >= raw.len() {
        false
    } else if raw[from + 1] == 0 {
        true
    } else {
        scan_in_bounds(raw, from + 1, end)
    }
}

/// Reading the structure at `offset` reads only bytes that exist.
pub open spec fn structure_in_bounds(raw: Seq<u8>, offset: int, end: int) -> bool {
    ||| end - offset < 4
    ||| {
        &&& offset + 1 < raw.len()
        &&& {
            ||| raw[offset + 1] < 4
            ||| offset + raw[offset + 1] > usize::MAX
            ||| offset + raw[offset + 1] > end
            ||| scan_in_bounds(raw, offset + raw[offset + 1], end)
        }
    }
}

/// Every read stays inside a table that lies inside the data.
pub proof fn lemma_scan_in_bounds(raw: Seq<u8>, from: int, end: int)
    requires
        0 <= from,
        end <= raw.len(),
    ensures
        scan_in_bounds(raw, from, end),
    decreases end - from,
{
    if from + 1 < end {
        lemma_scan_in_bounds(raw, from + 1, end);
    }
}

/// The terminator found lies inside the data.
pub proof fn lemma_scan_found_in_bounds(raw: Seq<u8>, from: int, end: int)
    requires
        0 <= from,
        scan_in_bounds(raw, from, end),
    ensures
        double_nul_at(raw, from, end) matches Some(i) ==> i + 1 < raw.len(),
    decreases end - from,
{
    if from + 1 < end && !(raw[from] == 0 && raw[from + 1] == 0) {
        lemma_scan_found_in_bounds(raw, from + 1, end);
    }
}

/// The text of a string's bytes: their UTF-8 decoding where they are valid UTF-8, else
/// what `String::from_utf8_lossy` makes of them.
pub open spec fn lossy_text(b: Seq<u8>) -> Seq<char> {
    if valid_utf8(b) {
        decode_utf8(b)
    } else {
        utf8_lossy(b)
    }
}

/// The strings of a string set: each NUL-separated piece decoded (invalid UTF-8 replaced)
/// and trimmed; empty ones are left out.
pub open spec fn string_set(raw: Seq<u8>) -> Seq<Seq<char>> {
    non_empty(split_on(raw, 0u8).map_values(|b: Seq<u8>| trim(lossy_text(b))))
}

/// The structure that starts at `offset` in a table that ends at `end`, or why it is refused.
pub open spec fn record_at(raw: Seq<u8>, offset: int, end: int) -> Result<RecordModel, SmbiosFault> {
    if end - offset < 4 {
        Err(SmbiosFault::TruncatedStructureHeader)
    } else {
        let kind = raw[offset];
        let length = raw[offset + 1] as int;
        if length < 4 {
            Err(SmbiosFault::InvalidStructureLength { kind, length: length as usize })
        } else if offset + length > usize::MAX {
            Err(SmbiosFault::StructureLengthOverflow)
        } else if offset + length > end {
            Err(SmbiosFault::StructureExceedsTable { kind })
        } else {
            match double_nul_at(raw, offset + length, end) {
                None => Err(SmbiosFault::UnterminatedStrings),
                Some(strings_end) => Ok(
                    RecordModel {
                        kind,
                        formatted: raw.subrange(offset, offset + length),
                        strings: string_set(raw.subrange(offset + length, strings_end)),
                        next: strings_end + 2,
                    },
                ),
            }
        }
    }
}

/// The structures from `offset` up to `end`, stopping before an End-of-Table marker, or the
/// first reason to refuse one of them.
pub open spec fn records(raw: Seq<u8>, offset: int, end: int) -> Result<
    Seq<RecordModel>,
    SmbiosFault,
>
    decreases end - offset,
{
    if offset >= end {
        Ok(Seq::empty())
    } else {
        match record_at(raw, offset, end) {
            Err(e) => Err(e),
            Ok(r) => if r.kind == SMBIOS_TYPE_END_OF_TABLE || !(offset < r.next <= end) {
                Ok(Seq::empty())
            } else {
                match records(raw, r.next, end) {
                    Ok(rs) => Ok(seq![r] + rs),
                    Err(e) => Err(e),
                }
            },
        }
    }
}

/// The lowercase hexadecimal digit of `n` (below 16).
pub open spec fn hex_digit(n: int) -> char {
    if n < 10 {
        (n + 48) as char
    } else {
        (n + 87) as char
    }
}

/// The two lowercase hexadecimal digits of each byte, in order (`{:02x}` for each).
pub open spec fn hex_of(bytes: Seq<u8>) -> Seq<char>
    decreases bytes.len(),
{
    if bytes.len() == 0 {
        Seq::empty()
    } else {
        hex_of(bytes.drop_last()) + seq![
            hex_digit(bytes.last() as int / 16),
            hex_digit(bytes.last() as int % 16),
        ]
    }
}

/// Every byte of `s` is `v`.
pub open spec fn all_bytes(s: Seq<u8>, v: u8) -> bool {
    forall|i: int| 0 <= i < s.len() ==> s[i] == v
}

/// The system UUID of a System Information area: bytes 8..24, the first three groups
/// little-endian, in the 8-4-4-4-12 form; none where the bytes are missing, all zero or all
/// 0xFF.
pub open spec fn system_uuid(formatted: Seq<u8>) -> Option<Seq<char>> {
    if formatted.len() < 24 {
        None
    } else {
        let u = formatted.subrange(8, 24);
        if all_bytes(u, 0) || all_bytes(u, 0xff) {
            None
        } else {
            Some(
                hex_of(seq![u[3], u[2], u[1], u[0]]) + seq!['-'] + hex_of(seq![u[5], u[4]]) + seq![
                    '-',
                ] + hex_of(seq![u[7], u[6]]) + seq!['-'] + hex_of(u.subrange(8, 10)) + seq!['-']
                    + hex_of(u.subrange(10, 16)),
            )
        }
    }
}

/// The processor ID of a Processor Information area: bytes 8..16 as EDX then EAX, each
/// little-endian and as eight hexadecimal digits, which is the eight bytes in reverse
/// order; none where the bytes are missing, all zero or all 0xFF.
pub open spec fn processor_id(formatted: Seq<u8>) -> Option<Seq<char>> {
    if formatted.len() < 16 {
        None
    } else {
        let p = formatted.subrange(8, 16);
        if all_bytes(p, 0) || all_bytes(p, 0xff) {
            None
        } else {
            Some(hex_of(p.reverse()))
        }
    }
}

/// The string that the byte at `offset` of the formatted area points to (1-based; 0 is
/// none).
pub open spec fn string_field(formatted: Seq<u8>, offset: int, strings: Seq<Seq<char>>) -> Option<
    Seq<char>,
> {
    if offset >= formatted.len() || formatted[offset] == 0 {
        None
    } else if formatted[offset] - 1 < strings.len() {
        Some(strings[formatted[offset] - 1])
    } else {
        None
    }
}

/// The value that `field` gives for the first structure in `rs` that has one.
pub open spec fn first_found(rs: Seq<RecordModel>, field: spec_fn(RecordModel) -> Option<Seq<char>>) -> Option<Seq<char>>
    decreases rs.len(),
{
    if rs.len() == 0 {
        None
    } else {
        match first_found(rs.drop_last(), field) {
            Some(v) => Some(v),
            None => field(rs.last()),
        }
    }
}

/// The system UUID, if the structure is a System Information one.
pub open spec fn uuid_field(r: RecordModel) -> Option<Seq<char>> {
    if r.kind == SMBIOS_TYPE_SYSTEM {
        system_uuid(r.formatted)
    } else {
        None
    }
}

/// The system serial number, if the structure is a System Information one.
pub open spec fn system_serial_field(r: RecordModel) -> Option<Seq<char>> {
    if r.kind == SMBIOS_TYPE_SYSTEM {
        string_field(r.formatted, 7, r.strings)
    } else {
        None
    }
}

/// The baseboard serial number, if the structure is a Baseboard Information one.
pub open spec fn baseboard_serial_field(r: RecordModel) -> Option<Seq<char>> {
    if r.kind == SMBIOS_TYPE_BASEBOARD {
        string_field(r.formatted, 7, r.strings)
    } else {
        None
    }
}

/// The processor ID, if the structure is a Processor Information one.
pub open spec fn processor_id_field(r: RecordModel) -> Option<Seq<char>> {
    if r.kind == SMBIOS_TYPE_PROCESSOR {
        processor_id(r.formatted)
    } else {
        None
    }
}

/// The system UUID of the first System Information structure that has one.
pub open spec fn found_uuid(rs: Seq<RecordModel>) -> Option<Seq<char>> {
    first_found(rs, |r: RecordModel| uuid_field(r))
}

/// The system serial number of the first System Information structure that has one.
pub open spec fn found_system_serial(rs: Seq<RecordModel>) -> Option<Seq<char>> {
    first_found(rs, |r: RecordModel| system_serial_field(r))
}

/// The baseboard serial number of the first Baseboard Information structure that has one.
pub open spec fn found_baseboard_serial(rs: Seq<RecordModel>) -> Option<Seq<char>> {
    first_found(rs, |r: RecordModel| baseboard_serial_field(r))
}

/// The processor ID of the first Processor Information structure that has one.
pub open spec fn found_processor_id(rs: Seq<RecordModel>) -> Option<Seq<char>> {
    first_found(rs, |r: RecordModel| processor_id_field(r))
}

/// The four identifying fields of the structures, each from the first structure giving it.
pub open spec fn mid_fields(rs: Seq<RecordModel>) -> Seq<Option<Seq<char>>> {
    seq![
        found_uuid(rs),
        found_system_serial(rs),
        found_baseboard_serial(rs),
        found_processor_id(rs),
    ]
}

/// `rs` after `done`, or the refusal.
pub open spec fn after_records(done: Seq<RecordModel>, rs: Result<Seq<RecordModel>, SmbiosFault>) -> Result<Seq<RecordModel>, SmbiosFault> {
    match rs {
        Ok(rest) => Ok(done + rest),
        Err(e) => Err(e),
    }
}

/// The identifier that the raw table gives, or why the table is refused: the non-empty
/// fields joined by `|`, lowercased.
pub open spec fn smbios_mid(raw: Seq<u8>) -> Result<Seq<char>, SmbiosFault> {
    match smbios_fields_joined(raw) {
        Ok(j) => Ok(lowercase(j)),
        Err(e) => Err(e),
    }
}

/// The non-empty fields that the raw table gives, joined by `|` before lowercasing, or why
/// the table is refused.
pub open spec fn smbios_fields_joined(raw: Seq<u8>) -> Result<Seq<char>, SmbiosFault> {
    if raw.len() < 8 {
        Err(SmbiosFault::HeaderTooShort)
    } else {
        let table_len = le_u32(raw[4], raw[5], raw[6], raw[7]);
        if 8 + table_len > usize::MAX {
            Err(SmbiosFault::LengthOverflow)
        } else if 8 + table_len > raw.len() {
            Err(
                SmbiosFault::TableExceedsBuffer {
                    table_len: table_len as usize,
                    buffer_len: (raw.len() - 8) as usize,
                },
            )
        } else {
            match records(raw, 8, 8 + table_len) {
                Err(e) => Err(e),
                Ok(rs) => Ok(join_with(present_parts(mid_fields(rs)), '|')),
            }
        }
    }
}

/// Finds the end of a structure's string set: the first NUL at or after `offset` that a
/// second NUL follows inside the table.
pub fn find_strings_end(raw_table: &[u8], offset: usize, table_end: usize) -> (r: Result<
    usize,
    MIDError,
>)
    requires
        scan_in_bounds(raw_table@, offset as int, table_end as int),
    ensures
        match double_nul_at(raw_table@, offset as int, table_end as int) {
            Some(i) => r == Ok::<usize, MIDError>(i as usize),
            None => r == Err::<usize, MIDError>(
                MIDError::InvalidSystemData(SmbiosFault::UnterminatedStrings),
            ),
        },
{
    let mut pos = offset;
    while pos < table_end && table_end - pos > 1
        invariant
            scan_in_bounds(raw_table@, pos as int, table_end as int),
            double_nul_at(raw_table@, pos as int, table_end as int) == double_nul_at(
                raw_table@,
                offset as int,
                table_end as int,
            ),
        decreases table_end - pos,
    {
        if raw_table[pos] == 0 && raw_table[pos + 1] == 0 {
            return Ok(pos);
        }
        pos = pos + 1;
    }
    Err(MIDError::InvalidSystemData(SmbiosFault::UnterminatedStrings))
}


/// The strings of a structure's string set, decoded (invalid UTF-8 replaced) and trimmed,
/// without the empty ones.
pub fn parse_strings(raw_strings: &[u8]) -> (r: Vec<String>)
    ensures
        texts(r@) == string_set(raw_strings@),
{
    let pieces = split_bytes(raw_strings, 0u8);
    let ghost decoded = split_on(raw_strings@, 0u8).map_values(|b: Seq<u8>| trim(lossy_text(b)));
    let mut r: Vec<String> = Vec::new();
    let mut i: usize = 0;
    assert(decoded.take(0) =~= Seq::<Seq<char>>::empty());
    assert(texts(r@) =~= Seq::<Seq<char>>::empty());
    while i < pieces.len()
        invariant
            i <= pieces@.len() == decoded.len(),
            decoded == contents(pieces@).map_values(|b: Seq<u8>| trim(lossy_text(b))),
            texts(r@) == non_empty(decoded.take(i as int)),
        decreases pieces@.len() - i,
    {
        let text = string_from_utf8_lossy(pieces[i].as_slice());
        let chars = chars_of(text.as_str());
        let trimmed = trim_chars(chars.as_slice());
        assert(decoded[i as int] == trimmed@);
        assert(decoded.take(i + 1).drop_last() =~= decoded.take(i as int));
        if trimmed.len() > 0 {
            let ghost before = texts(r@);
            r.push(string_of(trimmed.as_slice()));
            assert(texts(r@) =~= before.push(trimmed@));
        }
        i = i + 1;
    }
    assert(decoded.take(pieces@.len() as int) == decoded);
    r
}

/// The string that the byte at `offset` of the formatted area points to (1-based; 0 is
/// none).
pub fn extract_string_field(formatted: &[u8], offset: usize, strings: &[String]) -> (r: Option<
    String,
>)
    ensures
        opt_text(r) == string_field(formatted@, offset as int, texts(strings@)),
{
    if offset >= formatted.len() {
        return None;
    }
    let string_index = formatted[offset];
    if string_index == 0 {
        return None;
    }
    let k = (string_index - 1) as usize;
    if k < strings.len() {
        Some(strings[k].clone())
    } else {
        None
    }
}

/// The lowercase hexadecimal digit of `n`.
pub fn hex_digit_char(n: u8) -> (c: char)
    requires
        n < 16,
    ensures
        c == hex_digit(n as int),
{
    if n < 10 {
        (n + 48) as char
    } else {
        (n + 87) as char
    }
}

/// Appends the two lowercase hexadecimal digits of `b`.
pub fn push_hex(out: &mut Vec<char>, b: u8)
    ensures
        final(out)@ == old(out)@ + seq![hex_digit(b as int / 16), hex_digit(b as int % 16)],
{
    out.push(hex_digit_char(b / 16));
    out.push(hex_digit_char(b % 16));
}

/// Appends the hexadecimal digits of `bytes`, in order.
pub fn push_hex_all(out: &mut Vec<char>, bytes: &[u8])
    ensures
        final(out)@ == old(out)@ + hex_of(bytes@),
{
    let ghost start = out@;
    let mut i: usize = 0;
    assert(bytes@.take(0) =~= Seq::<u8>::empty());
    assert(out@ =~= start + hex_of(bytes@.take(0)));
    while i < bytes.len()
        invariant
            i <= bytes@.len(),
            out@ == start + hex_of(bytes@.take(i as int)),
        decreases bytes@.len() - i,
    {
        let b = bytes[i];
        push_hex(out, b);
        let ghost t = bytes@.take(i + 1);
        assert(t.drop_last() =~= bytes@.take(i as int));
        assert(t.last() == b);
        assert(hex_of(t) == hex_of(bytes@.take(i as int)) + seq![
            hex_digit(b as int / 16),
            hex_digit(b as int % 16),
        ]);
        assert(out@ =~= start + hex_of(t));
        i = i + 1;
    }
    assert(bytes@.take(bytes@.len() as int) == bytes@);
}

/// Whether every byte of `s` is `v`.
pub fn all_bytes_are(s: &[u8], v: u8) -> (r: bool)
    ensures
        r == all_bytes(s@, v),
{
    let mut i: usize = 0;
    while i < s.len()
        invariant
            i <= s@.len(),
            forall|k: int| 0 <= k < i ==> s@[k] == v,
        decreases s@.len() - i,
    {
        if s[i] != v {
            return false;
        }
        i = i + 1;
    }
    true
}

/// The system UUID of a System Information formatted area.
pub fn extract_system_uuid(formatted: &[u8]) -> (r: Option<String>)
    ensures
        opt_text(r) == system_uuid(formatted@),
{
    if formatted.len() < 24 {
        return None;
    }
    let uuid = &formatted[8..24];
    if all_bytes_are(uuid, 0) || all_bytes_are(uuid, 0xff) {
        return None;
    }
    let mut out: Vec<char> = Vec::new();
    push_hex_all(&mut out, &[uuid[3], uuid[2], uuid[1], uuid[0]]);
    out.push('-');
    push_hex_all(&mut out, &[uuid[5], uuid[4]]);
    out.push('-');
    push_hex_all(&mut out, &[uuid[7], uuid[6]]);
    out.push('-');
    push_hex_all(&mut out, &uuid[8..10]);
    out.push('-');
    push_hex_all(&mut out, &uuid[10..16]);
    let ghost u = uuid@;
    assert(out@ =~= hex_of(seq![u[3], u[2], u[1], u[0]]) + seq!['-'] + hex_of(seq![u[5], u[4]])
        + seq!['-'] + hex_of(seq![u[7], u[6]]) + seq!['-'] + hex_of(u.subrange(8, 10)) + seq![
        '-',
    ] + hex_of(u.subrange(10, 16)));
    Some(string_of(out.as_slice()))
}

/// The processor ID of a Processor Information formatted area.
pub fn extract_processor_id(formatted: &[u8]) -> (r: Option<String>)
    ensures
        opt_text(r) == processor_id(formatted@),
{
    if formatted.len() < 16 {
        return None;
    }
    let p = &formatted[8..16];
    if all_bytes_are(p, 0) || all_bytes_are(p, 0xff) {
        return None;
    }
    let mut out: Vec<char> = Vec::new();
    push_hex_all(&mut out, &[p[7], p[6], p[5], p[4], p[3], p[2], p[1], p[0]]);
    assert(p@.reverse() =~= seq![p@[7], p@[6], p@[5], p@[4], p@[3], p@[2], p@[1], p@[0]]);
    Some(string_of(out.as_slice()))
}


/// The double-NUL terminator lies inside the table, after `from`.
pub proof fn lemma_double_nul_bounds(raw: Seq<u8>, from: int, end: int)
    ensures
        double_nul_at(raw, from, end) matches Some(i) ==> from <= i && i + 1 < end,
    decreases end - from,
{
    if from + 1 < end && !(raw[from] == 0 && raw[from + 1] == 0) {
        lemma_double_nul_bounds(raw, from + 1, end);
    }
}

/// A structure read from the table.
pub struct SmbiosStructure<'a> {
    pub kind: u8,
    pub formatted: &'a [u8],
    pub strings: Vec<String>,
    pub next_offset: usize,
}

/// What a structure read from the table stands for.
pub open spec fn structure_model(s: SmbiosStructure) -> RecordModel {
    RecordModel {
        kind: s.kind,
        formatted: s.formatted@,
        strings: texts(s.strings@),
        next: s.next_offset as int,
    }
}

/// Reads the structure that starts at `offset` in a table that ends at `table_end`.
pub fn parse_structure<'a>(raw_table: &'a [u8], offset: usize, table_end: usize) -> (r: Result<
    SmbiosStructure<'a>,
    MIDError,
>)
    requires
        structure_in_bounds(raw_table@, offset as int, table_end as int),
    ensures
        match record_at(raw_table@, offset as int, table_end as int) {
            Ok(m) => r matches Ok(s) && structure_model(s) == m,
            Err(f) => r matches Err(e) && e == MIDError::InvalidSystemData(f),
        },
{
    if offset > table_end || table_end - offset < 4 {
        return Err(MIDError::InvalidSystemData(SmbiosFault::TruncatedStructureHeader));
    }
    let kind = raw_table[offset];
    let length = raw_table[offset + 1] as usize;
    if length < 4 {
        return Err(MIDError::InvalidSystemData(SmbiosFault::InvalidStructureLength { kind, length }));
    }
    let formatted_end = match offset.checked_add(length) {
        Some(e) => e,
        None => {
            return Err(MIDError::InvalidSystemData(SmbiosFault::StructureLengthOverflow));
        },
    };
    if formatted_end > table_end {
        return Err(MIDError::InvalidSystemData(SmbiosFault::StructureExceedsTable { kind }));
    }
    proof {
        lemma_double_nul_bounds(raw_table@, formatted_end as int, table_end as int);
        lemma_scan_found_in_bounds(raw_table@, formatted_end as int, table_end as int);
    }
    let strings_end = find_strings_end(raw_table, formatted_end, table_end)?;
    let strings = parse_strings(&raw_table[formatted_end..strings_end]);
    Ok(
        SmbiosStructure {
            kind,
            formatted: &raw_table[offset..formatted_end],
            strings,
            next_offset: strings_end + 2,
        },
    )
}

/// The little-endian number in four bytes.
pub fn le_u32_of(b0: u8, b1: u8, b2: u8, b3: u8) -> (r: u32)
    ensures
        r as int == le_u32(b0, b1, b2, b3),
{
    (b0 as u32) + (b1 as u32) * 0x100 + (b2 as u32) * 0x10000 + (b3 as u32) * 0x1000000
}

/// The non-empty fields, in order, joined by `|` and lowercased.
fn join_mid_fields(fields: Vec<Option<String>>) -> (r: String)
    ensures
        r@ == lowercase(join_with(present_parts(opt_texts(fields@)), '|')),
        is_ascii_chars(join_with(present_parts(opt_texts(fields@)), '|')) ==> r@ == ascii_lowercase(
            join_with(present_parts(opt_texts(fields@)), '|'),
        ),
{
    let parts = present_parts_of(&fields);
    let joined = join_chars(&parts, '|');
    let text = string_of(joined.as_slice());
    str_to_lowercase(text.as_str())
}

/// The machine identifier that the raw SMBIOS table gives: the system UUID, system serial
/// number, baseboard serial number and processor ID (each from the first structure that has
/// it, up to the End-of-Table marker), the non-empty ones joined by `|`, lowercased.
pub fn parse_smbios_mid(raw_table: &[u8]) -> (r: Result<String, MIDError>)
    ensures
        match smbios_mid(raw_table@) {
            Ok(m) => r matches Ok(s) && s@ == m,
            Err(f) => r matches Err(e) && e == MIDError::InvalidSystemData(f),
        },
        match smbios_fields_joined(raw_table@) {
            Ok(j) => is_ascii_chars(j) ==> (r matches Ok(s) && s@ == ascii_lowercase(j)),
            Err(_) => true,
        },
{
    if raw_table.len() < RAW_SMBIOS_HEADER_LEN {
        return Err(MIDError::InvalidSystemData(SmbiosFault::HeaderTooShort));
    }
    let table_len = le_u32_of(raw_table[4], raw_table[5], raw_table[6], raw_table[7]) as usize;
    let table_start = RAW_SMBIOS_HEADER_LEN;
    let table_end = match table_start.checked_add(table_len) {
        Some(e) => e,
        None => {
            return Err(MIDError::InvalidSystemData(SmbiosFault::LengthOverflow));
        },
    };
    if table_end > raw_table.len() {
        return Err(
            MIDError::InvalidSystemData(
                SmbiosFault::TableExceedsBuffer {
                    table_len,
                    buffer_len: raw_table.len() - RAW_SMBIOS_HEADER_LEN,
                },
            ),
        );
    }
    let ghost raw = raw_table@;
    let mut system_uuid: Option<String> = None;
    let mut system_serial: Option<String> = None;
    let mut baseboard_serial: Option<String> = None;
    let mut processor_id: Option<String> = None;
    let mut offset = table_start;
    let ghost mut done: Seq<RecordModel> = Seq::empty();
    assert(after_records(done, records(raw, 8, table_end as int)) =~= records(raw, 8, table_end as int)) by {
        if let Ok(rs) = records(raw, 8, table_end as int) {
            assert(done + rs =~= rs);
        }
    }
    while offset < table_end
        invariant
            8 <= offset <= table_end <= raw.len(),
            raw == raw_table@,
            table_end == 8 + le_u32(raw[4], raw[5], raw[6], raw[7]),
            records(raw, 8, table_end as int) == after_records(done, records(raw, offset as int, table_end as int)),
            opt_text(system_uuid) == found_uuid(done),
            opt_text(system_serial) == found_system_serial(done),
            opt_text(baseboard_serial) == found_baseboard_serial(done),
            opt_text(processor_id) == found_processor_id(done),
        decreases table_end - offset,
    {
        proof {
            lemma_scan_in_bounds(raw, offset + raw[offset + 1] as int, table_end as int);
        }
        let structure = parse_structure(raw_table, offset, table_end)?;
        let ghost m = structure_model(structure);
        proof {
            if let Ok(mm) = record_at(raw, offset as int, table_end as int) {
                lemma_double_nul_bounds(raw, offset + raw[offset + 1] as int, table_end as int);
            }
        }
        if structure.kind == SMBIOS_TYPE_END_OF_TABLE {
            let fields = vec![system_uuid, system_serial, baseboard_serial, processor_id];
            assert(opt_texts(fields@) =~= mid_fields(done));
            assert(done + Seq::<RecordModel>::empty() =~= done);
            return Ok(join_mid_fields(fields));
        }
        let ghost next_done = done.push(m);
        assert(next_done.drop_last() =~= done);
        if structure.kind == SMBIOS_TYPE_SYSTEM {
            if system_uuid.is_none() {
                system_uuid = extract_system_uuid(structure.formatted);
            }
            if system_serial.is_none() {
                system_serial = extract_string_field(structure.formatted, 7, structure.strings.as_slice());
            }
        } else if structure.kind == SMBIOS_TYPE_BASEBOARD {
            if baseboard_serial.is_none() {
                baseboard_serial = extract_string_field(structure.formatted, 7, structure.strings.as_slice());
            }
        } else if structure.kind == SMBIOS_TYPE_PROCESSOR {
            if processor_id.is_none() {
                processor_id = extract_processor_id(structure.formatted);
            }
        }
        proof {
            if let Ok(rest) = records(raw, structure.next_offset as int, table_end as int) {
                assert(next_done + rest =~= done + (seq![m] + rest));
            }
            done = next_done;
        }
        offset = structure.next_offset;
    }
    let fields = vec![system_uuid, system_serial, baseboard_serial, processor_id];
    assert(opt_texts(fields@) =~= mid_fields(done));
    assert(done + Seq::<RecordModel>::empty() =~= done);
    Ok(join_mid_fields(fields))
}


/// `r1` and `r2` hold the same bytes at the indices from `a` up to `b`.
pub open spec fn same_bytes(r1: Seq<u8>, r2: Seq<u8>, a: int, b: int) -> bool {
    &&& b <= r1.len()
    &&& b <= r2.len()
    &&& forall|i: int| a <= i < b ==> r1[i] == r2[i]
}

proof fn lemma_double_nul_same(r1: Seq<u8>, r2: Seq<u8>, from: int, end: int)
    requires
        0 <= from,
        same_bytes(r1, r2, from, end),
    ensures
        double_nul_at(r1, from, end) == double_nul_at(r2, from, end),
    decreases end - from,
{
    if from + 1 < end {
        lemma_double_nul_same(r1, r2, from + 1, end);
    }
}

proof fn lemma_record_at_same(r1: Seq<u8>, r2: Seq<u8>, offset: int, end: int)
    requires
        0 <= offset,
        same_bytes(r1, r2, offset, end),
    ensures
        record_at(r1, offset, end) == record_at(r2, offset, end),
{
    if end - offset >= 4 {
        let length = r1[offset + 1] as int;
        assert(r1[offset] == r2[offset] && r1[offset + 1] == r2[offset + 1]);
        if length >= 4 && offset + length <= end {
            lemma_double_nul_same(r1, r2, offset + length, end);
            assert(r1.subrange(offset, offset + length) =~= r2.subrange(offset, offset + length));
            lemma_double_nul_bounds(r1, offset + length, end);
            if let Some(se) = double_nul_at(r1, offset + length, end) {
                assert(r1.subrange(offset + length, se) =~= r2.subrange(offset + length, se));
            }
        }
    }
}

proof fn lemma_records_same(r1: Seq<u8>, r2: Seq<u8>, offset: int, end: int)
    requires
        0 <= offset,
        same_bytes(r1, r2, offset, end),
    ensures
        records(r1, offset, end) == records(r2, offset, end),
    decreases end - offset,
{
    if offset < end {
        lemma_record_at_same(r1, r2, offset, end);
        if let Ok(r) = record_at(r1, offset, end) {
            if r.kind != SMBIOS_TYPE_END_OF_TABLE && offset < r.next <= end {
                lemma_records_same(r1, r2, r.next, end);
            }
        }
    }
}

/// Only the table length in the header and the table it announces make the identifier:
/// the first four header bytes and any bytes after the table never change the result.
pub proof fn law_header_and_trailing_bytes_ignored(raw1: Seq<u8>, raw2: Seq<u8>)
    requires
        raw1.len() >= 8,
        raw2.len() >= 8,
        raw1[4] == raw2[4] && raw1[5] == raw2[5] && raw1[6] == raw2[6] && raw1[7] == raw2[7],
        same_bytes(raw1, raw2, 8, 8 + le_u32(raw1[4], raw1[5], raw1[6], raw1[7])),
    ensures
        smbios_mid(raw1) == smbios_mid(raw2),
{
    let table_len = le_u32(raw1[4], raw1[5], raw1[6], raw1[7]);
    if 8 + table_len <= usize::MAX {
        lemma_records_same(raw1, raw2, 8, 8 + table_len);
    }
}

/// A table whose header announces more bytes than follow it is refused.
pub proof fn law_truncated_table_rejected(raw: Seq<u8>)
    requires
        raw.len() >= 8,
        8 + le_u32(raw[4], raw[5], raw[6], raw[7]) > raw.len(),
    ensures
        smbios_mid(raw) is Err,
{
}


/// The system UUID is read from bytes 8..24 of the System Information area and from nothing
/// else: two areas of at least 24 bytes that agree there give the same UUID, whatever their
/// other bytes and whatever trailing fields (wake-up type, SKU, family) follow.
pub proof fn law_uuid_from_bytes_8_to_24(f: Seq<u8>, g: Seq<u8>)
    requires
        f.len() >= 24,
        g.len() >= 24,
        f.subrange(8, 24) == g.subrange(8, 24),
    ensures
        system_uuid(f) == system_uuid(g),
        system_uuid(f) == system_uuid(f.subrange(0, 24)),
{
    assert(f.subrange(0, 24).subrange(8, 24) =~= f.subrange(8, 24));
}

/// An area too short to hold bytes 8..24 has no UUID.
pub proof fn law_uuid_needs_24_bytes(f: Seq<u8>)
    requires
        f.len() < 24,
    ensures
        system_uuid(f) is None,
{
}

/// The processor ID is read from bytes 8..16 of the Processor Information area and from
/// nothing else: two areas of at least 16 bytes that agree there give the same ID, whatever
/// further fields follow.
pub proof fn law_processor_id_from_bytes_8_to_16(f: Seq<u8>, g: Seq<u8>)
    requires
        f.len() >= 16,
        g.len() >= 16,
        f.subrange(8, 16) == g.subrange(8, 16),
    ensures
        processor_id(f) == processor_id(g),
        processor_id(f) == processor_id(f.subrange(0, 16)),
{
    assert(f.subrange(0, 16).subrange(8, 16) =~= f.subrange(8, 16));
}


/// A string field is found through byte 7 of the formatted area alone: 0 means none, and
/// `k` from 1 up to the number of strings means the `k`-th string; any other bytes of the
/// area never matter.
pub proof fn law_string_field_by_byte_7(f: Seq<u8>, strings: Seq<Seq<char>>)
    requires
        f.len() > 7,
    ensures
        f[7] == 0 ==> string_field(f, 7, strings) is None,
        1 <= f[7] <= strings.len() ==> string_field(f, 7, strings) == Some(strings[f[7] - 1]),
        f[7] > strings.len() ==> string_field(f, 7, strings) is None,
        forall|g: Seq<u8>| g.len() > 7 && g[7] == f[7] ==> #[trigger] string_field(g, 7, strings)
            == string_field(f, 7, strings),
{
}

proof fn lemma_first_found_at(rs: Seq<RecordModel>, field: spec_fn(RecordModel) -> Option<Seq<char>>)
    ensures
        first_found(rs, field) matches Some(v) ==> exists|k: int|
            0 <= k < rs.len() && field(rs[k]) == Some(v) && forall|j: int|
                0 <= j < k ==> (#[trigger] field(rs[j])) is None,
        first_found(rs, field) is None ==> forall|j: int| 0 <= j < rs.len() ==> (#[trigger] field(rs[j])) is None,
    decreases rs.len(),
{
    if rs.len() > 0 {
        let d = rs.drop_last();
        lemma_first_found_at(d, field);
        if let Some(v) = first_found(d, field) {
            let k = choose|k: int|
                0 <= k < d.len() && field(d[k]) == Some(v) && forall|j: int| 0 <= j < k ==> (#[trigger] field(d[j])) is None;
            assert(rs[k] == d[k]);
            assert forall|j: int| 0 <= j < k implies (#[trigger] field(rs[j])) is None by {
                assert(rs[j] == d[j]);
            }
        } else {
            assert forall|j: int| 0 <= j < d.len() implies (#[trigger] field(rs[j])) is None by {
                assert(rs[j] == d[j]);
            }
            if let Some(v) = field(rs.last()) {
                assert(rs[rs.len() - 1] == rs.last());
            }
        }
    }
}

/// Each identifying field comes from the first structure, in table order, that gives it:
/// every structure before that one gives none.
pub proof fn law_fields_from_first_structure(rs: Seq<RecordModel>)
    ensures
        found_uuid(rs) matches Some(v) ==> exists|k: int|
            0 <= k < rs.len() && rs[k].kind == SMBIOS_TYPE_SYSTEM && system_uuid(rs[k].formatted)
                == Some(v) && forall|j: int| 0 <= j < k ==> (#[trigger] uuid_field(rs[j])) is None,
        found_system_serial(rs) matches Some(v) ==> exists|k: int|
            0 <= k < rs.len() && rs[k].kind == SMBIOS_TYPE_SYSTEM && string_field(rs[k].formatted, 7, rs[k].strings)
                == Some(v) && forall|j: int| 0 <= j < k ==> (#[trigger] system_serial_field(rs[j])) is None,
        found_baseboard_serial(rs) matches Some(v) ==> exists|k: int|
            0 <= k < rs.len() && rs[k].kind == SMBIOS_TYPE_BASEBOARD && string_field(rs[k].formatted, 7, rs[k].strings)
                == Some(v) && forall|j: int| 0 <= j < k ==> (#[trigger] baseboard_serial_field(rs[j])) is None,
        found_processor_id(rs) matches Some(v) ==> exists|k: int|
            0 <= k < rs.len() && rs[k].kind == SMBIOS_TYPE_PROCESSOR && processor_id(rs[k].formatted)
                == Some(v) && forall|j: int| 0 <= j < k ==> (#[trigger] processor_id_field(rs[j])) is None,
{
    let f1 = |r: RecordModel| uuid_field(r);
    let f2 = |r: RecordModel| system_serial_field(r);
    let f3 = |r: RecordModel| baseboard_serial_field(r);
    let f4 = |r: RecordModel| processor_id_field(r);
    lemma_first_found_at(rs, f1);
    lemma_first_found_at(rs, f2);
    lemma_first_found_at(rs, f3);
    lemma_first_found_at(rs, f4);
    if let Some(v) = found_uuid(rs) {
        let k = choose|k: int|
            0 <= k < rs.len() && f1(rs[k]) == Some(v) && forall|j: int| 0 <= j < k ==> (#[trigger] f1(rs[j])) is None;
        assert forall|j: int| 0 <= j < k implies (#[trigger] uuid_field(rs[j])) is None by {
            assert(f1(rs[j]) is None);
        }
    }
    if let Some(v) = found_system_serial(rs) {
        let k = choose|k: int|
            0 <= k < rs.len() && f2(rs[k]) == Some(v) && forall|j: int| 0 <= j < k ==> (#[trigger] f2(rs[j])) is None;
        assert forall|j: int| 0 <= j < k implies (#[trigger] system_serial_field(rs[j])) is None by {
            assert(f2(rs[j]) is None);
        }
    }
    if let Some(v) = found_baseboard_serial(rs) {
        let k = choose|k: int|
            0 <= k < rs.len() && f3(rs[k]) == Some(v) && forall|j: int| 0 <= j < k ==> (#[trigger] f3(rs[j])) is None;
        assert forall|j: int| 0 <= j < k implies (#[trigger] baseboard_serial_field(rs[j])) is None by {
            assert(f3(rs[j]) is None);
        }
    }
    if let Some(v) = found_processor_id(rs) {
        let k = choose|k: int|
            0 <= k < rs.len() && f4(rs[k]) == Some(v) && forall|j: int| 0 <= j < k ==> (#[trigger] f4(rs[j])) is None;
        assert forall|j: int| 0 <= j < k implies (#[trigger] processor_id_field(rs[j])) is None by {
            assert(f4(rs[j]) is None);
        }
    }
}

} // verus!
