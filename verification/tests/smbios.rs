use mid::errors::{MIDError, SmbiosFault};
use mid::smbios::{
    parse_smbios_mid, SMBIOS_TYPE_BASEBOARD, SMBIOS_TYPE_END_OF_TABLE, SMBIOS_TYPE_PROCESSOR,
    SMBIOS_TYPE_SYSTEM,
};
use mid::windows::get_mid_result;

fn raw_smbios_table(structures: Vec<Vec<u8>>) -> Vec<u8> {
    let table_data: Vec<u8> = structures.into_iter().flatten().collect();
    let mut raw = vec![0, 3, 8, 0];
    raw.extend_from_slice(&(table_data.len() as u32).to_le_bytes());
    raw.extend_from_slice(&table_data);
    raw
}

fn structure(kind: u8, payload: &[u8], strings: &[&str]) -> Vec<u8> {
    let length = 4 + payload.len();
    let mut bytes = vec![kind, length as u8, 0, 0];
    bytes.extend_from_slice(payload);

    for value in strings {
        bytes.extend_from_slice(value.as_bytes());
        bytes.push(0);
    }

    bytes.push(0);
    if strings.is_empty() {
        bytes.push(0);
    }
    bytes
}

fn full_table(serial: &str) -> Vec<u8> {
    raw_smbios_table(vec![
        structure(
            SMBIOS_TYPE_SYSTEM,
            &[
                1, 2, 3, 4, 0x33, 0x22, 0x11, 0x00, 0x55, 0x44, 0x77, 0x66, 0x88, 0x99, 0xaa,
                0xbb, 0xcc, 0xdd, 0xee, 0xff,
            ],
            &["Acme", "Workstation", "1.0", serial],
        ),
        structure(
            SMBIOS_TYPE_BASEBOARD,
            &[1, 2, 3, 4],
            &[
                "BoardVendor",
                "BoardProduct",
                "BoardVersion",
                "Board-Serial",
            ],
        ),
        structure(
            SMBIOS_TYPE_PROCESSOR,
            &[1, 3, 4, 5, 0xea, 0x06, 0x09, 0x00, 0xff, 0xfb, 0xeb, 0xbf],
            &["CPU0", "GenuineIntel", "Intel"],
        ),
        structure(SMBIOS_TYPE_END_OF_TABLE, &[], &[]),
    ])
}

#[test]
fn parse_smbios_mid_extracts_expected_windows_fields() {
    let table = full_table("System-Serial");

    assert_eq!(
        parse_smbios_mid(&table).unwrap(),
        "00112233-4455-6677-8899-aabbccddeeff|system-serial|board-serial|bfebfbff000906ea"
    );
}

#[test]
fn parse_smbios_mid_skips_missing_and_placeholder_values() {
    let table = raw_smbios_table(vec![
        structure(
            SMBIOS_TYPE_SYSTEM,
            &[0, 0, 0, 0, 0, 0, 0, 0, 0, 0, 0, 0, 0, 0, 0, 0, 0, 0, 0, 0],
            &[],
        ),
        structure(SMBIOS_TYPE_BASEBOARD, &[0, 0, 0, 0], &[]),
        structure(
            SMBIOS_TYPE_PROCESSOR,
            &[0, 0, 0, 0, 0xff, 0xff, 0xff, 0xff, 0xff, 0xff, 0xff, 0xff],
            &[],
        ),
        structure(SMBIOS_TYPE_END_OF_TABLE, &[], &[]),
    ]);

    assert_eq!(parse_smbios_mid(&table).unwrap(), "");
}

#[test]
fn parse_smbios_mid_rejects_truncated_table() {
    let table = [0, 3, 8, 0, 32, 0, 0, 0, SMBIOS_TYPE_SYSTEM, 24, 0, 0];

    assert!(matches!(
        parse_smbios_mid(&table),
        Err(MIDError::InvalidSystemData(_))
    ));
    assert_eq!(
        parse_smbios_mid(&table),
        Err(MIDError::InvalidSystemData(SmbiosFault::TableExceedsBuffer {
            table_len: 32,
            buffer_len: 4
        }))
    );
}

#[test]
fn parse_smbios_mid_names_each_fault() {
    assert_eq!(
        parse_smbios_mid(&[0, 3, 8, 0, 0, 0, 0]),
        Err(MIDError::InvalidSystemData(SmbiosFault::HeaderTooShort))
    );
    assert_eq!(
        parse_smbios_mid(&raw_smbios_table(vec![vec![1, 4, 0]])),
        Err(MIDError::InvalidSystemData(SmbiosFault::TruncatedStructureHeader))
    );
    assert_eq!(
        parse_smbios_mid(&raw_smbios_table(vec![vec![2, 3, 0, 0, 0, 0]])),
        Err(MIDError::InvalidSystemData(SmbiosFault::InvalidStructureLength {
            kind: 2,
            length: 3
        }))
    );
    assert_eq!(
        parse_smbios_mid(&raw_smbios_table(vec![vec![4, 9, 0, 0, 0, 0]])),
        Err(MIDError::InvalidSystemData(SmbiosFault::StructureExceedsTable { kind: 4 }))
    );
    assert_eq!(
        parse_smbios_mid(&raw_smbios_table(vec![vec![1, 4, 0, 0, b'a', 0, b'b']])),
        Err(MIDError::InvalidSystemData(SmbiosFault::UnterminatedStrings))
    );
}

#[test]
fn empty_table_gives_empty_id() {
    assert_eq!(parse_smbios_mid(&raw_smbios_table(vec![])).unwrap(), "");
}

#[test]
fn first_structure_with_a_field_wins() {
    let table = raw_smbios_table(vec![
        structure(SMBIOS_TYPE_BASEBOARD, &[0, 0, 0, 0], &[]),
        structure(SMBIOS_TYPE_BASEBOARD, &[0, 0, 0, 1], &["First"]),
        structure(SMBIOS_TYPE_BASEBOARD, &[0, 0, 0, 1], &["Second"]),
    ]);
    assert_eq!(parse_smbios_mid(&table).unwrap(), "first");
}

#[test]
fn structures_after_the_end_marker_are_ignored() {
    let mut table_data = structure(SMBIOS_TYPE_BASEBOARD, &[0, 0, 0, 1], &["Board"]);
    table_data.extend(structure(SMBIOS_TYPE_END_OF_TABLE, &[], &[]));
    table_data.extend([9, 2, 0, 0]);
    let mut raw = vec![0, 3, 8, 0];
    raw.extend_from_slice(&(table_data.len() as u32).to_le_bytes());
    raw.extend_from_slice(&table_data);
    assert_eq!(parse_smbios_mid(&raw).unwrap(), "board");
}

#[test]
fn blank_and_invalid_strings() {
    let table = raw_smbios_table(vec![structure(
        SMBIOS_TYPE_BASEBOARD,
        &[0, 0, 0, 2],
        &["   ", "Y", "Z"],
    )]);
    // The blank first string is dropped, so index 2 points at "Z".
    assert_eq!(parse_smbios_mid(&table).unwrap(), "z");

    let mut raw_strings = vec![SMBIOS_TYPE_BASEBOARD, 8, 0, 0, 0, 0, 0, 1];
    raw_strings.extend_from_slice(&[b'A', 0xff, b'B', 0, 0]);
    let mut raw = vec![0, 3, 8, 0];
    raw.extend_from_slice(&(raw_strings.len() as u32).to_le_bytes());
    raw.extend_from_slice(&raw_strings);
    assert_eq!(parse_smbios_mid(&raw).unwrap(), "a\u{FFFD}b");
}

#[test]
fn windows_mid_uses_fallback_for_placeholder_serial() {
    let table = full_table("System Serial Number");
    let drives = vec![None, Some("disk-1".to_string())];
    assert_eq!(
        get_mid_result(&table, Some("guid"), &drives).unwrap(),
        "guid|disk-1"
    );
    assert_eq!(
        get_mid_result(&table, None, &[]).unwrap(),
        "00112233-4455-6677-8899-aabbccddeeff|system serial number|board-serial|bfebfbff000906ea"
    );
    let real = full_table("Real");
    assert!(get_mid_result(&real, Some("guid"), &drives)
        .unwrap()
        .contains("|real|"));
}

#[test]
fn windows_mid_refuses_empty_and_invalid_tables() {
    let empty = raw_smbios_table(vec![structure(SMBIOS_TYPE_END_OF_TABLE, &[], &[])]);
    assert_eq!(
        get_mid_result(&empty, Some("guid"), &[]),
        Err(MIDError::ResultMidError)
    );
    assert_eq!(
        get_mid_result(&[1, 2, 3], None, &[]),
        Err(MIDError::InvalidSystemData(SmbiosFault::HeaderTooShort))
    );
}
