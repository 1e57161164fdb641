use mid::windows::{
    drive_serial_from_descriptor, format_machine_guid_disk_mid, get_machine_guid_disk_mid,
    is_external_bus, machine_guid_from_registry_value, normalize_mid_part, read_descriptor_string,
    read_internal_disk_serial, string_from_wide_null, uses_placeholder_bios_serial, wide_null,
};

#[test]
fn detects_placeholder_bios_serial() {
    assert!(uses_placeholder_bios_serial(
        "uuid|System Serial Number|board|processor"
    ));
    assert!(uses_placeholder_bios_serial(
        "uuid| system serial number |board|processor"
    ));
    assert!(!uses_placeholder_bios_serial(
        "uuid|real-serial|board|processor"
    ));
    assert!(!uses_placeholder_bios_serial("uuid"));
}

#[test]
fn placeholder_needs_the_second_field() {
    assert!(uses_placeholder_bios_serial("|SYSTEM SERIAL NUMBER"));
    assert!(!uses_placeholder_bios_serial("System Serial Number|uuid"));
    assert!(!uses_placeholder_bios_serial("uuid|System Serial Numbers"));
}

#[test]
fn formats_machine_guid_disk_mid() {
    assert_eq!(
        format_machine_guid_disk_mid(
            Some("90b53d31-d95d-4e30-956d-50adb4bee030"),
            Some("0000_0000_0000_0000_0026_B778_5710_D8D5")
        ),
        "90b53d31-d95d-4e30-956d-50adb4bee030|0000_0000_0000_0000_0026_b778_5710_d8d5"
    );
}

#[test]
fn uses_partial_machine_guid_disk_mid() {
    assert_eq!(format_machine_guid_disk_mid(Some("guid"), None), "guid");
    assert_eq!(format_machine_guid_disk_mid(None, Some("disk")), "disk");
    assert_eq!(format_machine_guid_disk_mid(None, None), "");
}

#[test]
fn blank_parts_are_left_out() {
    assert_eq!(format_machine_guid_disk_mid(Some("   "), Some(" Disk ")), "disk");
}

#[test]
fn reads_descriptor_string() {
    let mut buffer = vec![0u8; 32];
    buffer[8..19].copy_from_slice(b"DISK-SERIAL");

    assert_eq!(read_descriptor_string(&buffer, 8).unwrap(), "DISK-SERIAL");
    assert!(read_descriptor_string(&buffer, 0).is_none());
    assert!(read_descriptor_string(&buffer, 32).is_none());
}

#[test]
fn descriptor_string_must_be_utf8() {
    let mut buffer = vec![0u8; 16];
    buffer[4] = 0xff;
    buffer[5] = b'a';
    assert!(read_descriptor_string(&buffer, 4).is_none());
    assert_eq!(read_descriptor_string(&buffer, 5).unwrap(), "a");
    assert_eq!(read_descriptor_string(&buffer, 6).unwrap(), "");
}

#[test]
fn normalizes_parts() {
    assert_eq!(normalize_mid_part("  AbC-1 \t"), "abc-1");
}

#[test]
fn wide_strings_round_trip() {
    let units = wide_null("SOFTWARE\\Microsoft");
    assert_eq!(units.last(), Some(&0u16));
    assert_eq!(units.len(), 19);
    assert_eq!(
        string_from_wide_null(&units).unwrap(),
        "SOFTWARE\\Microsoft"
    );
    let emoji = wide_null("a😀");
    assert_eq!(emoji, vec![0x61, 0xD83D, 0xDE00, 0]);
    assert_eq!(string_from_wide_null(&emoji).unwrap(), "a😀");
    assert!(string_from_wide_null(&wide_null("")).is_none());
}

#[test]
fn wide_string_stops_at_nul_and_refuses_lone_surrogates() {
    assert_eq!(string_from_wide_null(&[0x41, 0x42, 0, 0x43]).unwrap(), "AB");
    assert_eq!(string_from_wide_null(&[0x41, 0x42]).unwrap(), "AB");
    assert!(string_from_wide_null(&[0xD800, 0x41, 0]).is_none());
    assert!(string_from_wide_null(&[0, 0x41]).is_none());
}

#[test]
fn machine_guid_is_normalized() {
    let mut value = wide_null(" 90B53D31-D95D ");
    value.resize(128, 0);
    assert_eq!(
        machine_guid_from_registry_value(&value).unwrap(),
        "90b53d31-d95d"
    );
    assert!(machine_guid_from_registry_value(&[0u16; 8]).is_none());
}

#[test]
fn internal_disk_serial_is_the_first_found() {
    let mut drives: Vec<Option<String>> = vec![None; 20];
    assert!(read_internal_disk_serial(&drives).is_none());
    drives[16] = Some("late".to_string());
    assert!(read_internal_disk_serial(&drives).is_none());
    drives[5] = Some("".to_string());
    drives[9] = Some("second".to_string());
    assert_eq!(read_internal_disk_serial(&drives), Some("".to_string()));
    assert_eq!(get_machine_guid_disk_mid(Some("Guid"), &drives), "guid");
    drives[5] = None;
    assert_eq!(get_machine_guid_disk_mid(Some("Guid"), &drives), "guid|second");
}

#[test]
fn external_buses() {
    assert!(is_external_bus(7));
    assert!(is_external_bus(12));
    assert!(is_external_bus(13));
    assert!(is_external_bus(4));
    assert!(!is_external_bus(11));
    assert!(!is_external_bus(17));
    assert!(!is_external_bus(-1));
}

fn descriptor(removable: u8, bus_type: i32, serial_offset: u32, serial: &[u8]) -> Vec<u8> {
    let mut buffer = vec![0u8; 96];
    buffer[10] = removable;
    buffer[24..28].copy_from_slice(&serial_offset.to_le_bytes());
    buffer[28..32].copy_from_slice(&bus_type.to_le_bytes());
    let start = serial_offset as usize;
    buffer[start..start + serial.len()].copy_from_slice(serial);
    buffer
}

#[test]
fn drive_serial_only_for_internal_fixed_drives() {
    let fixed = descriptor(0, 11, 64, b"  WD-ABC123  ");
    assert_eq!(drive_serial_from_descriptor(&fixed).unwrap(), "wd-abc123");
    assert!(drive_serial_from_descriptor(&descriptor(1, 11, 64, b"X")).is_none());
    assert!(drive_serial_from_descriptor(&descriptor(0, 7, 64, b"X")).is_none());
    assert!(drive_serial_from_descriptor(&descriptor(0, 11, 0, b"")).is_none());
    assert!(drive_serial_from_descriptor(&fixed[..39]).is_none());
}
