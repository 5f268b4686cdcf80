//! Analog Discovery 3 device handling that does not touch the hardware:
//! device records, serial numbers, WaveForms error messages, the checks on
//! an analog configuration and the order of the configuration calls.
use vstd::prelude::*;
use crate::text::{
    append_chars, append_str, ascii_uppercase, chars_of, decimal, push_decimal, string_from,
    string_of, strip_prefix, strip_prefix_str, to_ascii_uppercase, trim, trimmed,
};

verus! {

/// The WaveForms device type of an Analog Discovery 3.
pub const DEVICE_ID_DISCOVERY_3: i32 = 10;

/// The WaveForms instrument state "done".
pub const DWF_STATE_DONE: i8 = 2;

/// The decimating analog input filter.
pub const FILTER_DECIMATE: i32 = 0;

/// No trigger source.
pub const TRIGSRC_NONE: i32 = 0;

/// The analog input detector as trigger source.
pub const TRIGSRC_DETECTOR_ANALOG_IN: i32 = 2;

/// The filter of an analog configuration that names none.
pub fn default_filter() -> (r: i32)
    ensures
        r == FILTER_DECIMATE,
{
    FILTER_DECIMATE
}

/// The trigger source of a trigger configuration that names none.
pub fn default_trigger_source() -> (r: i32)
    ensures
        r == TRIGSRC_DETECTOR_ANALOG_IN,
{
    TRIGSRC_DETECTOR_ANALOG_IN
}

// ---------------------------------------------------------------------------
// Text from the device
// ---------------------------------------------------------------------------

/// `String::from_utf8_lossy` of the given bytes.
pub uninterp spec fn utf8_lossy(bytes: Seq<u8>) -> Seq<char>;

/// Calls `String::from_utf8_lossy`. Its result is named `utf8_lossy` of the
/// bytes and, as its documentation says, is their text when they are valid
/// UTF-8; how invalid sequences are replaced is not stated here.
#[verifier::external_body]
fn from_utf8_lossy(bytes: &[u8]) -> (r: String)
    ensures
        r@ == utf8_lossy(bytes@),
        vstd::utf8::valid_utf8(bytes@) ==> r@ == vstd::utf8::decode_utf8(bytes@),
{
    String::from_utf8_lossy(bytes).into_owned()
}

/// The bytes of a C string buffer before its first NUL (all of them when
/// there is none).
pub open spec fn c_string_bytes(buffer: Seq<u8>) -> Seq<u8>
    decreases buffer.len(),
{
    if buffer.len() == 0 || buffer[0] == 0 {
        Seq::empty()
    } else {
        seq![buffer[0]] + c_string_bytes(buffer.drop_first())
    }
}

/// The text of a C string buffer that the WaveForms runtime filled.
pub fn c_text(buffer: &[u8]) -> (r: String)
    ensures
        r@ == utf8_lossy(c_string_bytes(buffer@)),
{
    let mut bytes: Vec<u8> = Vec::new();
    let mut i: usize = 0;
    assert(buffer@.skip(0) == buffer@);
    while i < buffer.len() && buffer[i] != 0
        invariant
            i <= buffer@.len(),
            c_string_bytes(buffer@) == bytes@ + c_string_bytes(buffer@.skip(i as int)),
            bytes@.len() == i,
        decreases buffer@.len() - i,
    {
        assert(buffer@.skip(i as int).drop_first() =~= buffer@.skip(i + 1));
        assert(buffer@.skip(i as int)[0] == buffer@[i as int]);
        let ghost before = bytes@;
        bytes.push(buffer[i]);
        assert(before + (seq![buffer@[i as int]] + c_string_bytes(buffer@.skip(i + 1)))
            =~= bytes@ + c_string_bytes(buffer@.skip(i + 1)));
        i = i + 1;
    }
    proof {
        if i < buffer@.len() {
            assert(buffer@.skip(i as int)[0] == 0);
        } else {
            assert(buffer@.skip(i as int).len() == 0);
        }
        assert(bytes@ + Seq::<u8>::empty() =~= bytes@);
    }
    from_utf8_lossy(bytes.as_slice())
}

/// A serial number in canonical form: trimmed, upper-case ASCII, without
/// an `SN:` prefix.
pub open spec fn normalize_serial_spec(serial: Seq<char>) -> Seq<char> {
    let n = ascii_uppercase(trim(serial));
    match strip_prefix(n, "SN:"@) {
        Some(rest) => rest,
        None => n,
    }
}

/// Puts a serial number in canonical form.
pub fn normalize_serial(serial: &str) -> (r: String)
    ensures
        r@ == normalize_serial_spec(serial@),
{
    let s = chars_of(serial);
    let t = trimmed(s.as_slice());
    let n = to_ascii_uppercase(t.as_slice());
    match strip_prefix_str(n.as_slice(), "SN:") {
        Some(rest) => string_of(rest.as_slice()),
        None => string_of(n.as_slice()),
    }
}

/// An attached Analog Discovery 3.
#[derive(Debug)]
pub struct Ad3Device {
    pub index: i32,
    pub name: String,
    pub serial: String,
    pub revision: i32,
    pub in_use: bool,
    pub configuration_count: i32,
}

/// Whether an enumerated device is an Analog Discovery 3.
pub fn is_ad3(device_id: i32) -> (r: bool)
    ensures
        r == (device_id == DEVICE_ID_DISCOVERY_3),
{
    device_id == DEVICE_ID_DISCOVERY_3
}

/// The record of an enumerated Analog Discovery 3, from what the runtime
/// reported: its name and serial buffers, revision, whether it is opened
/// elsewhere, and its configuration count.
pub fn ad3_device(
    index: i32,
    name_buffer: &[u8],
    serial_buffer: &[u8],
    revision: i32,
    used: i32,
    configuration_count: i32,
) -> (r: Ad3Device)
    ensures
        r.index == index,
        r.name@ == utf8_lossy(c_string_bytes(name_buffer@)),
        r.serial@ == normalize_serial_spec(utf8_lossy(c_string_bytes(serial_buffer@))),
        r.revision == revision,
        r.in_use == (used != 0),
        r.configuration_count == configuration_count,
{
    let name = c_text(name_buffer);
    let raw_serial = c_text(serial_buffer);
    let serial = normalize_serial(raw_serial.as_str());
    Ad3Device { index, name, serial, revision, in_use: used != 0, configuration_count }
}

/// The message of a failed WaveForms call: the operation, `failed`, and the
/// runtime's last error message when it has one.
pub open spec fn failure_message_spec(operation: Seq<char>, message: Seq<char>) -> Seq<char> {
    if message.len() == 0 {
        operation + " failed"@
    } else {
        operation + " failed: "@ + message
    }
}

pub fn failure_message(operation: &str, message: &str) -> (r: String)
    ensures
        r@ == failure_message_spec(operation@, message@),
{
    let mut out = chars_of(operation);
    let m = chars_of(message);
    if m.len() == 0 {
        append_str(&mut out, " failed");
    } else {
        append_str(&mut out, " failed: ");
        append_chars(&mut out, m.as_slice());
    }
    string_of(out.as_slice())
}

// ---------------------------------------------------------------------------
// Opening and streaming checks
// ---------------------------------------------------------------------------

/// The device to open must still be enumerated.
pub fn check_device_index(index: i32, device_count: i32) -> (r: Result<(), String>)
    ensures
        r is Ok <==> 0 <= index < device_count,
        r matches Err(e) ==> e@ == "AD3 device index "@ + decimal(index as int)
            + " is no longer available"@,
{
    if index < 0 || index >= device_count {
        let mut out: Vec<char> = Vec::new();
        append_str(&mut out, "AD3 device index ");
        push_decimal(&mut out, index as i64);
        append_str(&mut out, " is no longer available");
        return Err(string_of(out.as_slice()));
    }
    Ok(())
}

/// The device to open must be an Analog Discovery 3.
pub fn check_device_type(index: i32, device_id: i32) -> (r: Result<(), String>)
    ensures
        r is Ok <==> device_id == DEVICE_ID_DISCOVERY_3,
        r matches Err(e) ==> e@ == "device index "@ + decimal(index as int) + " is type "@
            + decimal(device_id as int) + ", not Analog Discovery 3"@,
{
    if device_id != DEVICE_ID_DISCOVERY_3 {
        let mut out: Vec<char> = Vec::new();
        append_str(&mut out, "device index ");
        push_decimal(&mut out, index as i64);
        append_str(&mut out, " is type ");
        push_decimal(&mut out, device_id as i64);
        append_str(&mut out, ", not Analog Discovery 3");
        return Err(string_of(out.as_slice()));
    }
    Ok(())
}

/// An opened device must have a handle.
pub fn check_handle(handle: i32) -> (r: Result<(), String>)
    ensures
        r is Ok <==> handle != 0,
        r matches Err(e) ==> e@ == "WaveForms returned an empty AD3 handle"@,
{
    if handle == 0 {
        return Err(string_from("WaveForms returned an empty AD3 handle"));
    }
    Ok(())
}

/// The number of samples that a stream read may deliver.
pub fn check_stream_available(available: i32) -> (r: Result<usize, String>)
    ensures
        r matches Ok(n) ==> 0 <= available <= 2_000_000 && n == available,
        r matches Err(e) ==> !(0 <= available <= 2_000_000) && e@
            == "Invalid streaming sample count returned by AD3"@,
{
    if available < 0 || available > 2_000_000 {
        return Err(string_from("Invalid streaming sample count returned by AD3"));
    }
    Ok(available as usize)
}

/// A continuous stream must not end.
pub fn check_stream_running(state: i8, available: i32) -> (r: Result<(), String>)
    ensures
        r is Ok <==> !(state == DWF_STATE_DONE && available == 0),
        r matches Err(e) ==> e@ == "AD3 unexpectedly ended the continuous stream"@,
{
    if state == DWF_STATE_DONE && available == 0 {
        return Err(string_from("AD3 unexpectedly ended the continuous stream"));
    }
    Ok(())
}

/// A lost or corrupt sample count, never negative.
pub fn sample_count(v: i32) -> (r: i32)
    ensures
        r == (if v < 0 {
            0
        } else {
            v
        }),
{
    if v < 0 {
        0
    } else {
        v
    }
}

} // verus!
