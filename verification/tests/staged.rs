use mid::diagnostics::merge_process_output;
use mid::errors::{MIDError, SmbiosFault};
use mid::linux::process_output;
use mid::smbios::parse_smbios_mid;
use mid::windows::{
    decide_mid, finish_mid, first_drive_step, next_drive_step, DriveScanStep, MidDecision,
};

fn table_with(uuid: bool, serial: &str) -> Vec<u8> {
    let mut data = vec![1u8, 24, 0, 0, 0, 0, 0, 1];
    for b in 0..16u8 {
        data.push(if uuid { b + 1 } else { 0 });
    }
    data.extend_from_slice(serial.as_bytes());
    data.extend_from_slice(&[0, 0]);
    data.extend_from_slice(&[127, 4, 0, 0, 0, 0]);
    let mut raw = vec![0, 3, 8, 0];
    raw.extend_from_slice(&(data.len() as u32).to_le_bytes());
    raw.extend_from_slice(&data);
    raw
}

const UUID: &str = "04030201-0605-0807-090a-0b0c0d0e0f10";

#[test]
fn drive_steps_stop_at_the_first_answer() {
    let answers = [None, None, Some("disk".to_string()), Some("later".to_string())];
    let mut asked = Vec::new();
    let mut step = first_drive_step();
    let found = loop {
        match step {
            DriveScanStep::Query(index) => {
                asked.push(index);
                let answer = answers.get(index as usize).cloned().flatten();
                step = next_drive_step(index, answer);
            }
            DriveScanStep::Done(serial) => break serial,
        }
    };
    assert_eq!(found, Some("disk".to_string()));
    assert_eq!(asked, vec![0, 1, 2]);
}

#[test]
fn drive_steps_ask_sixteen_drives_at_most() {
    let mut asked = 0;
    let mut step = first_drive_step();
    let found = loop {
        match step {
            DriveScanStep::Query(index) => {
                asked += 1;
                step = next_drive_step(index, None);
            }
            DriveScanStep::Done(serial) => break serial,
        }
    };
    assert_eq!(found, None);
    assert_eq!(asked, 16);
}

#[test]
fn fallback_is_asked_for_only_with_placeholder_serial() {
    match decide_mid(&table_with(true, "System Serial Number")).unwrap() {
        MidDecision::NeedsFallback(combined) => {
            assert_eq!(combined, format!("{UUID}|system serial number"));
            assert_eq!(finish_mid(combined.clone(), Some("G"), None), "g");
            assert_eq!(finish_mid(combined.clone(), None, Some(" ")), combined);
        }
        MidDecision::Final(_) => panic!("placeholder serial not detected"),
    }
    match decide_mid(&table_with(true, "ABC")).unwrap() {
        MidDecision::Final(combined) => assert_eq!(combined, format!("{UUID}|abc")),
        MidDecision::NeedsFallback(_) => panic!("real serial taken for the placeholder"),
    }
    assert!(matches!(
        decide_mid(&table_with(false, "  ")),
        Err(MIDError::ResultMidError)
    ));
    assert!(matches!(
        decide_mid(&[0, 0, 0]),
        Err(MIDError::InvalidSystemData(SmbiosFault::HeaderTooShort))
    ));
}

#[test]
fn header_and_trailing_bytes_do_not_matter() {
    let raw = table_with(false, "Serial");
    let mut other = raw.clone();
    other[0] = 0xaa;
    other[3] = 0x55;
    other.extend_from_slice(&[9, 9, 9, 0, 0, 1]);
    assert_eq!(parse_smbios_mid(&raw), parse_smbios_mid(&other));
    assert_eq!(parse_smbios_mid(&other).unwrap(), "serial");
}

#[test]
fn linux_lines_order_repetition_and_idempotence() {
    let a = "AA-11\nbb";
    let b = "CC\naa11";
    let ab = process_output(&format!("{a}\n{b}"));
    let ba = process_output(&format!("{b}\n{a}"));
    assert_eq!(ab, ba);
    assert_eq!(ab, "aa11|bb|cc");
    assert_eq!(process_output(&format!("{a}\n{a}")), process_output(a));
    assert_eq!(process_output(&ab), ab);
}

#[test]
fn merges_process_output() {
    assert_eq!(merge_process_output("out", "  \n"), "out");
    assert_eq!(
        merge_process_output("out", "oops \n"),
        "out\nPowerShell stderr:\noops"
    );
    assert_eq!(
        merge_process_output("out\n", " oops"),
        "out\nPowerShell stderr:\n oops"
    );
    assert_eq!(merge_process_output("", "x"), "PowerShell stderr:\nx");
}
