//! Windows: the machine identifier from the SMBIOS table, with a fallback made of the
//! registry's machine GUID and the serial number of an internal disk when the BIOS serial
//! number is a vendor placeholder.

use vstd::prelude::*;
use vstd::utf8::{decode_utf8, is_ascii_chars, valid_utf8};

use crate::encoding::{
    encode_utf16_units, lemma_utf16_roundtrip, utf16_encode_char, string_from_utf16, string_from_utf8, utf16_decode, utf16_encode,
};
use crate::errors::MIDError;
use crate::smbios::{le_u32, le_u32_of, parse_smbios_mid, smbios_mid};
use crate::text::{
    ascii_lowercase, lemma_trim_chars,
    chars_of, contents, join_chars, join_with, lowercase, opt_text, opt_texts, present_parts,
    present_parts_of, split_chars, split_on, str_to_lowercase, string_of, trim, trim_chars,
};

verus! {

/// The BIOS serial number that vendors leave in place of a real one.
pub const PLACEHOLDER_BIOS_SERIAL: &'static str = "system serial number";

/// How many physical drives are asked for an internal disk serial number.
pub const MAX_PHYSICAL_DRIVES: u8 = 16;

/// `STORAGE_BUS_TYPE` value of IEEE 1394 buses.
pub const BUS_TYPE_1394: i32 = 4;

/// `STORAGE_BUS_TYPE` value of USB buses.
pub const BUS_TYPE_USB: i32 = 7;

/// `STORAGE_BUS_TYPE` value of SD card buses.
pub const BUS_TYPE_SD: i32 = 12;

/// `STORAGE_BUS_TYPE` value of MMC buses.
pub const BUS_TYPE_MMC: i32 = 13;

/// Size of the fixed part of a `STORAGE_DEVICE_DESCRIPTOR`.
pub const STORAGE_DEVICE_DESCRIPTOR_LEN: usize = 40;

/// A part of an identifier as it is kept: trimmed and lowercased.
pub open spec fn normalized(value: Seq<char>) -> Seq<char> {
    lowercase(trim(value))
}

/// The normalized text of an optional value.
pub open spec fn opt_normalized(value: Option<Seq<char>>) -> Option<Seq<char>> {
    match value {
        Some(v) => Some(normalized(v)),
        None => None,
    }
}

/// A part of an ASCII identifier as it is kept: trimmed and ASCII-lowercased.
pub open spec fn ascii_normalized(value: Seq<char>) -> Seq<char> {
    ascii_lowercase(trim(value))
}

/// The ASCII-normalized text of an optional value.
pub open spec fn opt_ascii_normalized(value: Option<Seq<char>>) -> Option<Seq<char>> {
    match value {
        Some(v) => Some(ascii_normalized(v)),
        None => None,
    }
}

/// An optional text that is absent or ASCII.
pub open spec fn opt_is_ascii(value: Option<Seq<char>>) -> bool {
    match value {
        Some(v) => is_ascii_chars(v),
        None => true,
    }
}

/// The fallback identifier for ASCII parts: the ASCII-normalized machine GUID and disk
/// serial number that are present and not empty, joined by `|`.
pub open spec fn ascii_guid_disk_mid(machine_guid: Option<Seq<char>>, disk_serial: Option<Seq<char>>) -> Seq<char> {
    join_with(
        present_parts(seq![opt_ascii_normalized(machine_guid), opt_ascii_normalized(disk_serial)]),
        '|',
    )
}

/// The text of an optional string slice.
pub open spec fn opt_str_text(value: Option<&str>) -> Option<Seq<char>> {
    match value {
        Some(v) => Some(v@),
        None => None,
    }
}

/// The fallback identifier: the normalized machine GUID and disk serial number that are
/// present and not empty, joined by `|`.
pub open spec fn guid_disk_mid(machine_guid: Option<Seq<char>>, disk_serial: Option<Seq<char>>) -> Seq<char> {
    join_with(present_parts(seq![opt_normalized(machine_guid), opt_normalized(disk_serial)]), '|')
}

/// The ASCII-lowercase code of `c`.
pub open spec fn ascii_lower_code(c: char) -> u32 {
    if 'A' <= c <= 'Z' {
        (c as u32 + 32) as u32
    } else {
        c as u32
    }
}

/// `a` and `b` are equal up to ASCII case, as `str::eq_ignore_ascii_case` decides it
/// (which compares UTF-8 bytes; only ASCII letters change case, and they are whole
/// characters, so comparing characters gives the same answer).
pub open spec fn eq_ignore_ascii_case(a: Seq<char>, b: Seq<char>) -> bool {
    &&& a.len() == b.len()
    &&& forall|i: int| 0 <= i < a.len() ==> ascii_lower_code(a[i]) == ascii_lower_code(b[i])
}

/// The second `|`-separated field of `mid`, trimmed, is the placeholder serial number in
/// any ASCII case.
pub open spec fn uses_placeholder(mid: Seq<char>) -> bool {
    let fields = split_on(mid, '|');
    fields.len() >= 2 && eq_ignore_ascii_case(trim(fields[1]), PLACEHOLDER_BIOS_SERIAL@)
}

/// The elements of `s` before the first `stop`.
pub open spec fn prefix_before<T>(s: Seq<T>, stop: T) -> Seq<T>
    decreases s.len(),
{
    if s.len() == 0 {
        s
    } else if s[0] == stop {
        Seq::empty()
    } else {
        seq![s[0]] + prefix_before(s.drop_first(), stop)
    }
}

/// The NUL-terminated UTF-8 string at `offset` of a storage descriptor; none at offset 0,
/// past the end, or where the bytes are not UTF-8.
pub open spec fn descriptor_string(buffer: Seq<u8>, offset: int) -> Option<Seq<char>> {
    if offset == 0 || offset >= buffer.len() {
        None
    } else {
        let bytes = prefix_before(buffer.skip(offset), 0u8);
        if valid_utf8(bytes) {
            Some(decode_utf8(bytes))
        } else {
            None
        }
    }
}

/// The text of a NUL-terminated UTF-16 buffer; none where it is empty or not UTF-16.
pub open spec fn wide_text(units: Seq<u16>) -> Option<Seq<char>> {
    let p = prefix_before(units, 0u16);
    if p.len() == 0 {
        None
    } else {
        utf16_decode(p)
    }
}

/// The first present value.
pub open spec fn first_present(s: Seq<Option<Seq<char>>>) -> Option<Seq<char>>
    decreases s.len(),
{
    if s.len() == 0 {
        None
    } else {
        match s[0] {
            Some(v) => Some(v),
            None => first_present(s.drop_first()),
        }
    }
}

/// The internal disk serial number: the first one that the first physical drives gave.
pub open spec fn internal_disk_serial(drive_serials: Seq<Option<Seq<char>>>) -> Option<Seq<char>> {
    first_present(drive_serials.take(if drive_serials.len() < 16 { drive_serials.len() as int } else { 16 }))
}

/// The bus types of removable and external storage.
pub open spec fn external_bus(bus_type: i32) -> bool {
    bus_type == BUS_TYPE_USB || bus_type == BUS_TYPE_SD || bus_type == BUS_TYPE_MMC || bus_type
        == BUS_TYPE_1394
}

/// The signed little-endian number in four bytes.
pub open spec fn le_i32(b0: u8, b1: u8, b2: u8, b3: u8) -> int {
    let u = le_u32(b0, b1, b2, b3);
    if u < 0x80000000 {
        u
    } else {
        u - 0x100000000
    }
}

/// The normalized serial number that a `STORAGE_DEVICE_DESCRIPTOR` reports for an internal,
/// fixed drive; none for removable media or a drive on an external bus.
pub open spec fn descriptor_serial(d: Seq<u8>) -> Option<Seq<char>> {
    if d.len() < 40 {
        None
    } else if d[10] != 0 || external_bus(le_i32(d[28], d[29], d[30], d[31]) as i32) {
        None
    } else {
        opt_normalized(descriptor_string(d, le_u32(d[24], d[25], d[26], d[27])))
    }
}

/// The Windows machine identifier: the SMBIOS identifier, refused when empty, and replaced
/// by the machine-GUID-and-disk identifier when its BIOS serial number is the placeholder and
/// that replacement is not empty.
pub open spec fn windows_mid(
    table: Seq<u8>,
    machine_guid: Option<Seq<char>>,
    drive_serials: Seq<Option<Seq<char>>>,
) -> Result<Seq<char>, MIDError> {
    match smbios_mid(table) {
        Err(f) => Err(MIDError::InvalidSystemData(f)),
        Ok(m) => if m.len() == 0 {
            Err(MIDError::ResultMidError)
        } else {
            let replacement = guid_disk_mid(machine_guid, internal_disk_serial(drive_serials));
            if uses_placeholder(m) && replacement.len() > 0 {
                Ok(replacement)
            } else {
                Ok(m)
            }
        },
    }
}

/// The result of an identifier computation, by its text.
pub open spec fn result_text(r: Result<String, MIDError>) -> Result<Seq<char>, MIDError> {
    match r {
        Ok(s) => Ok(s@),
        Err(e) => Err(e),
    }
}

/// `s` before the first `stop`: the elements before `k`, where `k` is the first stop.
pub proof fn lemma_prefix_before_at<T>(s: Seq<T>, stop: T, a: int, k: int)
    requires
        0 <= a <= k <= s.len(),
        forall|j: int| a <= j < k ==> s[j] != stop,
        k == s.len() || s[k] == stop,
    ensures
        prefix_before(s.skip(a), stop) == s.subrange(a, k),
    decreases k - a,
{
    if a == k {
        if k < s.len() {
            assert(s.skip(a)[0] == stop);
        }
        assert(s.subrange(a, k) =~= Seq::<T>::empty());
        if k == s.len() {
            assert(s.skip(a) =~= Seq::<T>::empty());
        }
    } else {
        lemma_prefix_before_at(s, stop, a + 1, k);
        assert(s.skip(a).drop_first() =~= s.skip(a + 1));
        assert(s.subrange(a, k) =~= seq![s[a]] + s.subrange(a + 1, k));
    }
}

/// Trims `value` and lowercases it.
pub fn normalize_mid_part(value: &str) -> (r: String)
    ensures
        r@ == normalized(value@),
        is_ascii_chars(value@) ==> r@ == ascii_normalized(value@),
{
    let chars = chars_of(value);
    let trimmed = trim_chars(chars.as_slice());
    proof {
        lemma_trim_chars(value@);
        if is_ascii_chars(value@) {
            assert forall|i: int| 0 <= i < trimmed@.len() implies '\0' <= #[trigger] trimmed@[i]
                <= '\u{7f}' by {
                assert(trim(value@)[i] == trimmed@[i]);
                assert(trim(value@).contains(trimmed@[i]));
                assert(value@.contains(trimmed@[i]));
                let k = choose|k: int| 0 <= k < value@.len() && value@[k] == trimmed@[i];
                assert('\0' <= value@[k] <= '\u{7f}');
            }
        }
    }
    let text = string_of(trimmed.as_slice());
    str_to_lowercase(text.as_str())
}

/// The fallback identifier from the machine GUID and the internal disk serial number.
pub fn format_machine_guid_disk_mid(machine_guid: Option<&str>, disk_serial: Option<&str>) -> (r: String)
    ensures
        r@ == guid_disk_mid(opt_str_text(machine_guid), opt_str_text(disk_serial)),
        opt_is_ascii(opt_str_text(machine_guid)) && opt_is_ascii(opt_str_text(disk_serial)) ==> r@
            == ascii_guid_disk_mid(opt_str_text(machine_guid), opt_str_text(disk_serial)),
{
    let first = match machine_guid {
        Some(g) => Some(normalize_mid_part(g)),
        None => None,
    };
    let second = match disk_serial {
        Some(d) => Some(normalize_mid_part(d)),
        None => None,
    };
    let items = vec![first, second];
    assert(opt_texts(items@) =~= seq![
        opt_normalized(opt_str_text(machine_guid)),
        opt_normalized(opt_str_text(disk_serial)),
    ]);
    proof {
        if opt_is_ascii(opt_str_text(machine_guid)) && opt_is_ascii(opt_str_text(disk_serial)) {
            assert(opt_texts(items@) =~= seq![
                opt_ascii_normalized(opt_str_text(machine_guid)),
                opt_ascii_normalized(opt_str_text(disk_serial)),
            ]);
        }
    }
    let parts = present_parts_of(&items);
    let joined = join_chars(&parts, '|');
    string_of(joined.as_slice())
}

/// The ASCII-lowercase code of `c`.
pub fn ascii_lower_code_of(c: char) -> (r: u32)
    ensures
        r == ascii_lower_code(c),
{
    if 'A' <= c && c <= 'Z' {
        c as u32 + 32
    } else {
        c as u32
    }
}

/// Whether `a` and `b` are equal up to ASCII case.
pub fn chars_eq_ignore_ascii_case(a: &[char], b: &[char]) -> (r: bool)
    ensures
        r == eq_ignore_ascii_case(a@, b@),
{
    if a.len() != b.len() {
        return false;
    }
    let mut i: usize = 0;
    while i < a.len()
        invariant
            i <= a@.len() == b@.len(),
            forall|k: int| 0 <= k < i ==> ascii_lower_code(a@[k]) == ascii_lower_code(b@[k]),
        decreases a@.len() - i,
    {
        if ascii_lower_code_of(a[i]) != ascii_lower_code_of(b[i]) {
            return false;
        }
        i = i + 1;
    }
    true
}

/// Whether the BIOS serial number (the second `|`-separated field) is the vendor
/// placeholder.
pub fn uses_placeholder_bios_serial(mid: &str) -> (r: bool)
    ensures
        r == uses_placeholder(mid@),
{
    let chars = chars_of(mid);
    let fields = split_chars(chars.as_slice(), '|');
    if fields.len() < 2 {
        return false;
    }
    assert(contents(fields@)[1] == fields@[1]@);
    let serial = trim_chars(fields[1].as_slice());
    let placeholder = chars_of(PLACEHOLDER_BIOS_SERIAL);
    chars_eq_ignore_ascii_case(serial.as_slice(), placeholder.as_slice())
}


/// Reads the NUL-terminated UTF-8 string at `offset` of a storage descriptor.
pub fn read_descriptor_string(buffer: &[u8], offset: u32) -> (r: Option<String>)
    ensures
        opt_text(r) == descriptor_string(buffer@, offset as int),
{
    let offset = offset as usize;
    if offset == 0 || offset >= buffer.len() {
        return None;
    }
    let mut end = offset;
    while end < buffer.len() && buffer[end] != 0
        invariant
            offset <= end <= buffer@.len(),
            forall|j: int| offset <= j < end ==> buffer@[j] != 0u8,
        decreases buffer@.len() - end,
    {
        end = end + 1;
    }
    proof {
        lemma_prefix_before_at(buffer@, 0u8, offset as int, end as int);
    }
    string_from_utf8(&buffer[offset..end])
}

/// The UTF-16 code units of `value` followed by a NUL, as Windows APIs take strings.
pub fn wide_null(value: &str) -> (r: Vec<u16>)
    ensures
        r@ == utf16_encode(value@).push(0u16),
{
    let mut units = encode_utf16_units(value);
    units.push(0);
    units
}

/// The text of a NUL-terminated UTF-16 buffer; none when it is empty or not UTF-16.
pub fn string_from_wide_null(value: &[u16]) -> (r: Option<String>)
    ensures
        opt_text(r) == wide_text(value@),
{
    let mut end: usize = 0;
    while end < value.len() && value[end] != 0
        invariant
            end <= value@.len(),
            forall|j: int| 0 <= j < end ==> value@[j] != 0u16,
        decreases value@.len() - end,
    {
        end = end + 1;
    }
    proof {
        lemma_prefix_before_at(value@, 0u16, 0, end as int);
        assert(value@.skip(0) == value@);
    }
    if end == 0 {
        return None;
    }
    string_from_utf16(&value[0..end])
}

/// The normalized machine GUID from the registry's `MachineGuid` value.
pub fn machine_guid_from_registry_value(value: &[u16]) -> (r: Option<String>)
    ensures
        opt_text(r) == opt_normalized(wide_text(value@)),
{
    match string_from_wide_null(value) {
        Some(v) => Some(normalize_mid_part(v.as_str())),
        None => None,
    }
}

/// The serial number of the first of the first physical drives that gave one.
pub fn read_internal_disk_serial(drive_serials: &[Option<String>]) -> (r: Option<String>)
    ensures
        opt_text(r) == internal_disk_serial(opt_texts(drive_serials@)),
{
    let limit: usize = if drive_serials.len() < MAX_PHYSICAL_DRIVES as usize {
        drive_serials.len()
    } else {
        MAX_PHYSICAL_DRIVES as usize
    };
    let ghost t = opt_texts(drive_serials@).take(limit as int);
    assert(t.skip(0) == t);
    let mut i: usize = 0;
    while i < limit
        invariant
            i <= limit <= drive_serials@.len(),
            limit == if drive_serials@.len() < 16 { drive_serials@.len() as int } else { 16 },
            t == opt_texts(drive_serials@).take(limit as int),
            first_present(t) == first_present(t.skip(i as int)),
        decreases limit - i,
    {
        assert(t.skip(i as int)[0] == opt_text(drive_serials@[i as int]));
        match &drive_serials[i] {
            Some(s) => {
                return Some(s.clone());
            },
            None => {},
        }
        assert(t.skip(i as int).drop_first() =~= t.skip(i + 1));
        i = i + 1;
    }
    assert(t.skip(limit as int) =~= Seq::<Option<Seq<char>>>::empty());
    None
}

/// The fallback identifier from the machine GUID and the serial numbers that the physical
/// drives gave, in drive order.
pub fn get_machine_guid_disk_mid(machine_guid: Option<&str>, drive_serials: &[Option<String>]) -> (r: String)
    ensures
        r@ == guid_disk_mid(opt_str_text(machine_guid), internal_disk_serial(opt_texts(drive_serials@))),
{
    let disk = read_internal_disk_serial(drive_serials);
    let disk_serial = match &disk {
        Some(d) => Some(d.as_str()),
        None => None,
    };
    format_machine_guid_disk_mid(machine_guid, disk_serial)
}

/// Whether a storage bus is one of removable or external devices.
pub fn is_external_bus(bus_type: i32) -> (r: bool)
    ensures
        r == external_bus(bus_type),
{
    bus_type == BUS_TYPE_USB || bus_type == BUS_TYPE_SD || bus_type == BUS_TYPE_MMC || bus_type
        == BUS_TYPE_1394
}

/// The signed little-endian number in four bytes.
pub fn le_i32_of(b0: u8, b1: u8, b2: u8, b3: u8) -> (r: i32)
    ensures
        r as int == le_i32(b0, b1, b2, b3),
{
    let u = le_u32_of(b0, b1, b2, b3);
    if u < 0x80000000 {
        u as i32
    } else {
        -((0xFFFFFFFFu32 - u) as i32) - 1
    }
}

/// The normalized serial number that a `STORAGE_DEVICE_DESCRIPTOR` reports, for an internal
/// fixed drive only.
pub fn drive_serial_from_descriptor(descriptor: &[u8]) -> (r: Option<String>)
    ensures
        opt_text(r) == descriptor_serial(descriptor@),
{
    if descriptor.len() < STORAGE_DEVICE_DESCRIPTOR_LEN {
        return None;
    }
    let removable = descriptor[10] != 0;
    let serial_offset = le_u32_of(descriptor[24], descriptor[25], descriptor[26], descriptor[27]);
    let bus_type = le_i32_of(descriptor[28], descriptor[29], descriptor[30], descriptor[31]);
    if removable || is_external_bus(bus_type) {
        return None;
    }
    match read_descriptor_string(descriptor, serial_offset) {
        Some(v) => Some(normalize_mid_part(v.as_str())),
        None => None,
    }
}

/// What to do next while looking for the internal disk serial number.
pub enum DriveScanStep {
    /// Ask physical drive `index` for its serial number.
    Query(u8),
    /// The search is over, with the serial number found, if any.
    Done(Option<String>),
}

/// The first step of the search: ask drive 0.
pub fn first_drive_step() -> (r: DriveScanStep)
    ensures
        r == DriveScanStep::Query(0),
{
    DriveScanStep::Query(0)
}

/// The step after drive `index` gave `answer`: stop with the first answer there is, ask the
/// next drive while there is one, and stop empty-handed after the last.
pub fn next_drive_step(index: u8, answer: Option<String>) -> (r: DriveScanStep)
    ensures
        match answer {
            Some(s) => r == DriveScanStep::Done(Some(s)),
            None => if index + 1 < MAX_PHYSICAL_DRIVES {
                r == DriveScanStep::Query((index + 1) as u8)
            } else {
                r == DriveScanStep::Done(None)
            },
        },
{
    match answer {
        Some(s) => DriveScanStep::Done(Some(s)),
        None => if index < MAX_PHYSICAL_DRIVES - 1 {
            DriveScanStep::Query(index + 1)
        } else {
            DriveScanStep::Done(None)
        },
    }
}

/// The search driven by the steps from drive `i` on, where drive `j` answers `answers[j]`:
/// the serial number it ends with and how many drives have been asked by then.
pub open spec fn drive_scan(answers: Seq<Option<Seq<char>>>, i: int) -> (Option<Seq<char>>, int)
    decreases 16 - i,
{
    if i >= 16 || i < 0 {
        (None, i)
    } else {
        match answers[i] {
            Some(v) => (Some(v), i + 1),
            None => drive_scan(answers, i + 1),
        }
    }
}

/// The search asks drives 0, 1, ... in order, stops at the first that answers, and asks
/// none after it; it ends with that drive's serial number, which is the internal disk serial
/// number.
pub proof fn law_drive_scan_stops_at_first_answer(answers: Seq<Option<Seq<char>>>)
    requires
        answers.len() >= 16,
    ensures
        drive_scan(answers, 0).0 == internal_disk_serial(answers),
        1 <= drive_scan(answers, 0).1 <= 16,
        forall|j: int| 0 <= j < drive_scan(answers, 0).1 - 1 ==> answers[j] is None,
        drive_scan(answers, 0).0 is Some ==> answers[drive_scan(answers, 0).1 - 1]
            == drive_scan(answers, 0).0,
        drive_scan(answers, 0).0 is None ==> drive_scan(answers, 0).1 == 16,
{
    let t = answers.take(16);
    assert(answers.len() >= 16);
    assert(internal_disk_serial(answers) == first_present(t));
    lemma_drive_scan_from(answers, 0);
    assert(t.skip(0) == t);
}

proof fn lemma_drive_scan_from(answers: Seq<Option<Seq<char>>>, i: int)
    requires
        answers.len() >= 16,
        0 <= i <= 16,
    ensures
        drive_scan(answers, i).0 == first_present(answers.take(16).skip(i)),
        i < 16 ==> i + 1 <= drive_scan(answers, i).1 <= 16,
        forall|j: int| i <= j < drive_scan(answers, i).1 - 1 ==> answers[j] is None,
        drive_scan(answers, i).0 is Some ==> answers[drive_scan(answers, i).1 - 1]
            == drive_scan(answers, i).0,
        drive_scan(answers, i).0 is None ==> drive_scan(answers, i).1 == 16,
    decreases 16 - i,
{
    let t = answers.take(16);
    if i == 16 {
        assert(t.skip(16) =~= Seq::<Option<Seq<char>>>::empty());
    } else {
        assert(t.skip(i)[0] == answers[i]);
        assert(t.skip(i).drop_first() =~= t.skip(i + 1));
        if answers[i] is None {
            lemma_drive_scan_from(answers, i + 1);
        }
    }
}

/// What the Windows identifier comes to once the firmware table has been read.
pub enum MidDecision {
    /// The SMBIOS identifier is the machine identifier.
    Final(String),
    /// The SMBIOS identifier carries the placeholder BIOS serial number: the machine GUID
    /// and the internal disk serial number are to be asked for.
    NeedsFallback(String),
}

/// Reads the SMBIOS identifier from the firmware table and decides whether the fallback
/// sources are needed: only when its BIOS serial number is the placeholder.
pub fn decide_mid(firmware_table: &[u8]) -> (r: Result<MidDecision, MIDError>)
    ensures
        match smbios_mid(firmware_table@) {
            Err(f) => r matches Err(e) && e == MIDError::InvalidSystemData(f),
            Ok(m) => if m.len() == 0 {
                r matches Err(e) && e == MIDError::ResultMidError
            } else if uses_placeholder(m) {
                r matches Ok(MidDecision::NeedsFallback(s)) && s@ == m
            } else {
                r matches Ok(MidDecision::Final(s)) && s@ == m
            },
        },
{
    let combined = parse_smbios_mid(firmware_table)?;
    if combined.as_str().is_empty() {
        return Err(MIDError::ResultMidError);
    }
    if uses_placeholder_bios_serial(combined.as_str()) {
        Ok(MidDecision::NeedsFallback(combined))
    } else {
        Ok(MidDecision::Final(combined))
    }
}

/// The identifier when the BIOS serial number is the placeholder: the machine-GUID-and-disk
/// identifier if it is not empty, else the SMBIOS identifier `combined`.
pub fn finish_mid(combined: String, machine_guid: Option<&str>, disk_serial: Option<&str>) -> (r: String)
    ensures
        r@ == (if guid_disk_mid(opt_str_text(machine_guid), opt_str_text(disk_serial)).len() > 0 {
            guid_disk_mid(opt_str_text(machine_guid), opt_str_text(disk_serial))
        } else {
            combined@
        }),
{
    let replacement = format_machine_guid_disk_mid(machine_guid, disk_serial);
    if !replacement.as_str().is_empty() {
        replacement
    } else {
        combined
    }
}

/// The Windows machine identifier from the raw SMBIOS table, the normalized registry machine
/// GUID and the serial numbers that the physical drives gave (in drive order).
pub fn get_mid_result(
    firmware_table: &[u8],
    machine_guid: Option<&str>,
    drive_serials: &[Option<String>],
) -> (r: Result<String, MIDError>)
    ensures
        result_text(r) == windows_mid(firmware_table@, opt_str_text(machine_guid), opt_texts(drive_serials@)),
{
    match decide_mid(firmware_table)? {
        MidDecision::Final(combined) => Ok(combined),
        MidDecision::NeedsFallback(combined) => {
            let disk = read_internal_disk_serial(drive_serials);
            let disk_serial = match &disk {
                Some(d) => Some(d.as_str()),
                None => None,
            };
            Ok(finish_mid(combined, machine_guid, disk_serial))
        },
    }
}

/// The UTF-16 encoding of a text without NUL characters holds no NUL unit, and is empty
/// only for the empty text.
pub proof fn lemma_utf16_encode_no_nul(s: Seq<char>)
    requires
        !s.contains('\0'),
    ensures
        forall|i: int| 0 <= i < utf16_encode(s).len() ==> utf16_encode(s)[i] != 0u16,
        utf16_encode(s).len() == 0 <==> s.len() == 0,
    decreases s.len(),
{
    if s.len() > 0 {
        let rest = s.drop_first();
        assert(!rest.contains('\0')) by {
            if rest.contains('\0') {
                let k = choose|k: int| 0 <= k < rest.len() && rest[k] == '\0';
                assert(s[k + 1] == '\0');
            }
        }
        lemma_utf16_encode_no_nul(rest);
        let c = s[0];
        assert(c != '\0');
        let u = c as u32;
        assert(u != 0) by {
            vstd::utf8::char_u32_cast(c, u);
            if u == 0 {
                assert((0u32 as char) == '\0');
            }
        }
        let first = utf16_encode_char(c);
        let e = utf16_encode(s);
        assert(e == first + utf16_encode(rest));
        assert forall|i: int| 0 <= i < e.len() implies e[i] != 0u16 by {
            if i < first.len() {
                if u < 0x10000 {
                    assert(first[0] as u32 == u);
                } else {
                    vstd::utf8::char_is_scalar(c);
                    assert(0 <= (u - 0x10000) / 0x400 < 0x400) by (nonlinear_arith)
                        requires
                            0x10000 <= u <= 0x10FFFF,
                    ;
                    assert(0 <= (u - 0x10000) % 0x400 < 0x400) by (nonlinear_arith)
                        requires
                            0x10000 <= u <= 0x10FFFF,
                    ;
                }
            } else {
                assert(e[i] == utf16_encode(rest)[i - first.len()]);
            }
        }
    }
}

/// Reading back a text written as a NUL-terminated UTF-16 buffer gives the text, for every
/// text without NUL characters; the empty text reads back as none.
pub proof fn law_wide_null_roundtrip(s: Seq<char>)
    requires
        !s.contains('\0'),
    ensures
        wide_text(utf16_encode(s).push(0u16)) == (if s.len() == 0 {
            None
        } else {
            Some(s)
        }),
{
    lemma_utf16_encode_no_nul(s);
    let e = utf16_encode(s);
    let w = e.push(0u16);
    lemma_prefix_before_at(w, 0u16, 0, e.len() as int);
    assert(w.skip(0) == w);
    assert(w.subrange(0, e.len() as int) =~= e);
    lemma_utf16_roundtrip(s);
}

/// The Windows identifier is never empty.
pub proof fn law_windows_mid_not_empty(
    table: Seq<u8>,
    machine_guid: Option<Seq<char>>,
    drive_serials: Seq<Option<Seq<char>>>,
)
    ensures
        windows_mid(table, machine_guid, drive_serials) matches Ok(m) ==> m.len() > 0,
{
}

/// When the BIOS serial number is the placeholder and a machine GUID or internal disk serial
/// number is at hand, the identifier is made of those instead.
pub proof fn law_placeholder_serial_replaced(
    table: Seq<u8>,
    machine_guid: Option<Seq<char>>,
    drive_serials: Seq<Option<Seq<char>>>,
)
    requires
        smbios_mid(table) matches Ok(m) && uses_placeholder(m),
        guid_disk_mid(machine_guid, internal_disk_serial(drive_serials)).len() > 0,
    ensures
        windows_mid(table, machine_guid, drive_serials) == Ok::<Seq<char>, MIDError>(
            guid_disk_mid(machine_guid, internal_disk_serial(drive_serials)),
        ),
{
    let m = smbios_mid(table)->Ok_0;
    let fields = split_on(m, '|');
    assert(fields.len() >= 2);
    if m.len() == 0 {
        assert(m =~= Seq::<char>::empty());
        assert(fields =~= seq![Seq::<char>::empty()]);
    }
}


/// When the SMBIOS identifier is not empty and its BIOS serial number is not the
/// placeholder, it is the Windows identifier, whatever the machine GUID and drive serials.
pub proof fn law_real_serial_kept(
    table: Seq<u8>,
    machine_guid: Option<Seq<char>>,
    drive_serials: Seq<Option<Seq<char>>>,
)
    requires
        smbios_mid(table) is Ok,
        smbios_mid(table)->Ok_0.len() > 0,
        !uses_placeholder(smbios_mid(table)->Ok_0),
    ensures
        windows_mid(table, machine_guid, drive_serials) == Ok::<Seq<char>, MIDError>(
            smbios_mid(table)->Ok_0,
        ),
{
}

/// An empty SMBIOS identifier is refused, whatever the fallback sources hold.
pub proof fn law_empty_mid_refused(
    table: Seq<u8>,
    machine_guid: Option<Seq<char>>,
    drive_serials: Seq<Option<Seq<char>>>,
)
    requires
        smbios_mid(table) matches Ok(m) && m.len() == 0,
    ensures
        windows_mid(table, machine_guid, drive_serials) == Err::<Seq<char>, MIDError>(
            MIDError::ResultMidError,
        ),
{
}

/// The placeholder test holds exactly when the trimmed second `|`-separated field is
/// "system serial number" up to ASCII case; any other serial, such as "default string", is
/// a real one.
pub proof fn law_placeholder_is_system_serial_number(mid: Seq<char>)
    ensures
        uses_placeholder(mid) <==> (split_on(mid, '|').len() >= 2 && eq_ignore_ascii_case(
            trim(split_on(mid, '|')[1]),
            "system serial number"@,
        )),
{
    assert(PLACEHOLDER_BIOS_SERIAL@ == "system serial number"@);
}

/// A drive is ruled out only as removable media or by an external bus (USB, SD, MMC, IEEE
/// 1394); any other bus type, such as RAID or NVMe, keeps its normalized serial number.
pub proof fn law_descriptor_serial_rules(d: Seq<u8>)
    requires
        d.len() >= 40,
    ensures
        d[10] != 0 ==> descriptor_serial(d) is None,
        ({
            let bus = le_i32(d[28], d[29], d[30], d[31]);
            &&& (bus == 4 || bus == 7 || bus == 12 || bus == 13) ==> descriptor_serial(d) is None
            &&& (d[10] == 0 && bus != 4 && bus != 7 && bus != 12 && bus != 13) ==> descriptor_serial(
                d,
            ) == opt_normalized(descriptor_string(d, le_u32(d[24], d[25], d[26], d[27])))
        }),
{
    let bus = le_i32(d[28], d[29], d[30], d[31]);
    assert(-0x80000000 <= bus < 0x80000000);
    assert((bus as i32) as int == bus);
}

/// The internal disk serial number is the answer of the first of the first 16 drives that
/// gave one: every drive before it gave none.
pub proof fn law_internal_disk_serial_is_first_answer(drive_serials: Seq<Option<Seq<char>>>)
    ensures
        internal_disk_serial(drive_serials) matches Some(v) ==> exists|k: int|
            0 <= k < 16 && k < drive_serials.len() && drive_serials[k] == Some(v) && forall|j: int|
                0 <= j < k ==> (#[trigger] drive_serials[j]) is None,
        internal_disk_serial(drive_serials) is None ==> forall|j: int|
            0 <= j < 16 && j < drive_serials.len() ==> (#[trigger] drive_serials[j]) is None,
{
    let n = if drive_serials.len() < 16 { drive_serials.len() as int } else { 16 };
    let t = drive_serials.take(n);
    lemma_first_present_at(t, 0);
    assert(t.skip(0) == t);
    assert(internal_disk_serial(drive_serials) == first_present(t));
    if let Some(v) = first_present(t) {
        let k = choose|k: int|
            0 <= k < t.len() && t[k] == Some(v) && forall|j: int| 0 <= j < k ==> (#[trigger] t[j]) is None;
        assert(drive_serials[k] == t[k]);
        assert forall|j: int| 0 <= j < k implies (#[trigger] drive_serials[j]) is None by {
            assert(t[j] == drive_serials[j]);
        }
    } else {
        assert forall|j: int| 0 <= j < 16 && j < drive_serials.len() implies (
        #[trigger] drive_serials[j]) is None by {
            assert(t[j] == drive_serials[j]);
        }
    }
}

proof fn lemma_first_present_at(t: Seq<Option<Seq<char>>>, i: int)
    requires
        0 <= i <= t.len(),
    ensures
        first_present(t.skip(i)) matches Some(v) ==> exists|k: int|
            i <= k < t.len() && t[k] == Some(v) && forall|j: int| i <= j < k ==> (#[trigger] t[j]) is None,
        first_present(t.skip(i)) is None ==> forall|j: int| i <= j < t.len() ==> (#[trigger] t[j]) is None,
    decreases t.len() - i,
{
    if i < t.len() {
        assert(t.skip(i)[0] == t[i]);
        assert(t.skip(i).drop_first() =~= t.skip(i + 1));
        lemma_first_present_at(t, i + 1);
        if t[i] is Some {
            assert(t[i] == Some(t[i]->0));
        }
    } else {
        assert(t.skip(i) =~= Seq::<Option<Seq<char>>>::empty());
    }
}

} // verus!
