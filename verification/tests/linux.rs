use mid::errors::MIDError;
use mid::linux::{get_mid_result, process_output};

#[test]
fn process_output_deduplicates_normalizes_and_sorts_sources() {
    let output = "\
        ABCDEF123\n\
        abcdef123\n\
        550E8400-E29B-41D4-A716-446655440000\n\
        \n\
    ";

    assert_eq!(
        process_output(output),
        "550e8400e29b41d4a716446655440000|abcdef123"
    );
}

#[test]
fn process_output_of_nothing_is_empty() {
    assert_eq!(process_output(""), "");
    assert_eq!(process_output("\n\n   \n"), "");
    assert_eq!(process_output("---\n - \n"), "");
}

#[test]
fn process_output_keeps_inner_space_left_by_dashes() {
    assert_eq!(process_output("a -\nb"), "a |b");
    assert_eq!(process_output("  b  \r\n a\r\n"), "a|b");
}

#[test]
fn process_output_ignores_line_order_and_repetition() {
    let first = process_output("zz\nAA\nmm\nzz\n");
    let second = process_output("mm\naa\nZZ");
    assert_eq!(first, second);
    assert_eq!(first, "aa|mm|zz");
}

#[test]
fn process_output_lowercases_beyond_ascii() {
    assert_eq!(process_output("ÄBC\näbc"), "äbc");
}

#[test]
fn get_mid_result_refuses_empty_output() {
    assert_eq!(get_mid_result(" \n\n"), Err(MIDError::ResultMidError));
}

#[test]
fn get_mid_result_gives_merged_id() {
    assert_eq!(get_mid_result("A-B\nc\n"), Ok("ab|c".to_string()));
}
