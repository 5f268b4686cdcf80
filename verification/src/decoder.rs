//! Decoder front end: the decoder catalog, decoder IDs, decoder expressions
//! (including the IMU firmware shorthand) and the decoder output limits.
use vstd::prelude::*;
use vstd::string::StringSliceAdditionalSpecFns;
use crate::text::{
    append_str, chars_equal_str, chars_of, copy_range, decimal, find, first_occurrence,
    is_ascii_alphanumeric, is_ascii_alphanumeric_char, is_control, is_control_char,
    is_whitespace, is_whitespace_char, parse_unsigned, parse_unsigned_exec,
    push_unsigned_decimal, split_char, split_on, string_from, string_of, strip_prefix,
    strip_prefix_str, trim, trimmed,
};

verus! {

/// The pseudo-decoder ID of the IMU firmware application protocol.
pub open spec fn imu_firmware_decoder() -> Seq<char> {
    "imu_firmware"@
}

/// The prefix that marks an IMU firmware decoder expression.
pub open spec fn imu_firmware_prefix() -> Seq<char> {
    "imu_firmware:"@
}

/// A `Result` of strings, seen as character sequences.
pub open spec fn text_result(r: Result<String, String>) -> Result<Seq<char>, Seq<char>> {
    match r {
        Ok(s) => Ok(s@),
        Err(e) => Err(e@),
    }
}

// ---------------------------------------------------------------------------
// IMU firmware expressions
// ---------------------------------------------------------------------------

/// The channel and bit rate read so far from the settings of an IMU firmware
/// expression, or the error that stopped the reading.
pub type ImuSettings = Result<(Option<nat>, Option<nat>), Seq<char>>;

/// Reads one `:`-separated setting: `can_rx=<usize>` sets the channel,
/// `nominal_bitrate=<u64>` the bit rate, anything else is ignored; a value
/// that does not parse stops the reading with an error.
pub open spec fn imu_setting_step(acc: ImuSettings, setting: Seq<char>) -> ImuSettings {
    match acc {
        Err(e) => Err(e),
        Ok((channel, bitrate)) => {
            if let Some(value) = strip_prefix(setting, "can_rx="@) {
                match parse_unsigned(value, 10, usize::MAX as nat) {
                    Some(c) => Ok((Some(c), bitrate)),
                    None => Err("IMU firmware channel must be 0 or 1"@),
                }
            } else if let Some(value) = strip_prefix(setting, "nominal_bitrate="@) {
                match parse_unsigned(value, 10, u64::MAX as nat) {
                    Some(b) => Ok((channel, Some(b))),
                    None => Err("IMU firmware bitrate must be a positive integer"@),
                }
            } else {
                Ok((channel, bitrate))
            }
        },
    }
}

/// Reads the settings in order, as `imu_setting_step` says.
pub open spec fn imu_settings_of(settings: Seq<Seq<char>>) -> ImuSettings
    decreases settings.len(),
{
    if settings.len() == 0 {
        Ok((None, None))
    } else {
        imu_setting_step(imu_settings_of(settings.drop_last()), settings.last())
    }
}

pub open spec fn imu_settings(settings: Seq<char>) -> ImuSettings {
    imu_settings_of(split_char(settings, ':'))
}

/// The decoder expression handed to sigrok for a user expression: an
/// `imu_firmware:` expression becomes a CAN decoder expression on the
/// configured channel (0 or 1) and positive bit rate; any other expression is
/// used as it is.
pub open spec fn sigrok_expression_spec(expression: Seq<char>) -> Result<Seq<char>, Seq<char>> {
    match strip_prefix(expression, imu_firmware_prefix()) {
        None => Ok(expression),
        Some(settings) => match imu_settings(settings) {
            Err(e) => Err(e),
            Ok((channel, bitrate)) => match channel {
                None => Err("IMU firmware decoder requires can_rx=<channel>"@),
                Some(c) => if c > 1 {
                    Err("IMU firmware channel must be 0 or 1"@)
                } else {
                    match bitrate {
                        None => Err("IMU firmware decoder requires nominal_bitrate=<bit/s>"@),
                        Some(b) => if b == 0 {
                            Err("IMU firmware bitrate must be a positive integer"@)
                        } else {
                            Ok(
                                "can:can_rx="@ + decimal(c as int) + ":nominal_bitrate="@
                                    + decimal(b as int),
                            )
                        },
                    }
                },
            },
        },
    }
}

proof fn lemma_imu_settings_error_sticks(pieces: Seq<Seq<char>>, i: int, e: Seq<char>)
    requires
        0 <= i <= pieces.len(),
        imu_settings_of(pieces.take(i)) == Err::<(Option<nat>, Option<nat>), Seq<char>>(e),
    ensures
        imu_settings_of(pieces) == Err::<(Option<nat>, Option<nat>), Seq<char>>(e),
    decreases pieces.len() - i,
{
    if i == pieces.len() {
        assert(pieces.take(i) == pieces);
    } else {
        assert(pieces.take(i + 1).drop_last() == pieces.take(i));
        lemma_imu_settings_error_sticks(pieces, i + 1, e);
    }
}

/// The sigrok decoder expression for a user decoder expression.
pub fn sigrok_expression(expression: &str) -> (r: Result<String, String>)
    ensures
        text_result(r) == sigrok_expression_spec(expression@),
{
    let expr = chars_of(expression);
    let settings = match strip_prefix_str(expr.as_slice(), "imu_firmware:") {
        None => {
            return Ok(string_from(expression));
        },
        Some(s) => s,
    };
    let pieces = split_on(settings.as_slice(), ':');
    let ghost pv = split_char(settings@, ':');
    let mut channel: Option<u64> = None;
    let mut bitrate: Option<u64> = None;
    assert(pv.take(0) == Seq::<Seq<char>>::empty());
    for i in 0..pieces.len()
        invariant
            pv == split_char(settings@, ':'),
            strip_prefix(expression@, imu_firmware_prefix()) == Some(settings@),
            pieces@.len() == pv.len(),
            forall|k: int| 0 <= k < pieces@.len() ==> (#[trigger] pieces@[k])@ == pv[k],
            imu_settings_of(pv.take(i as int)) == Ok::<
                (Option<nat>, Option<nat>),
                Seq<char>,
            >(
                (
                    match channel {
                        Some(c) => Some(c as nat),
                        None => None,
                    },
                    match bitrate {
                        Some(b) => Some(b as nat),
                        None => None,
                    },
                ),
            ),
    {
        let piece = &pieces[i];
        let ghost before = imu_settings_of(pv.take(i as int));
        proof {
            assert(pv.take(i + 1).drop_last() == pv.take(i as int));
            assert(pv.take(i + 1).last() == piece@);
        }
        let ghost after = imu_settings_of(pv.take(i + 1));
        assert(after == imu_setting_step(before, piece@));
        match strip_prefix_str(piece.as_slice(), "can_rx=") {
            Some(value) => {
                match parse_unsigned_exec(value.as_slice(), 10, usize::MAX as u64) {
                    Some(c) => {
                        channel = Some(c);
                    },
                    None => {
                        proof {
                            lemma_imu_settings_error_sticks(
                                pv,
                                i + 1,
                                "IMU firmware channel must be 0 or 1"@,
                            );
                        }
                        return Err(string_from("IMU firmware channel must be 0 or 1"));
                    },
                }
            },
            None => {
                match strip_prefix_str(piece.as_slice(), "nominal_bitrate=") {
                    Some(value) => {
                        match parse_unsigned_exec(value.as_slice(), 10, u64::MAX) {
                            Some(b) => {
                                bitrate = Some(b);
                            },
                            None => {
                                proof {
                                    lemma_imu_settings_error_sticks(
                                        pv,
                                        i + 1,
                                        "IMU firmware bitrate must be a positive integer"@,
                                    );
                                }
                                return Err(
                                    string_from("IMU firmware bitrate must be a positive integer"),
                                );
                            },
                        }
                    },
                    None => {},
                }
            },
        }
    }
    assert(pv.take(pieces@.len() as int) == pv);
    let c = match channel {
        None => {
            return Err(string_from("IMU firmware decoder requires can_rx=<channel>"));
        },
        Some(c) => c,
    };
    if c > 1 {
        return Err(string_from("IMU firmware channel must be 0 or 1"));
    }
    let b = match bitrate {
        None => {
            return Err(string_from("IMU firmware decoder requires nominal_bitrate=<bit/s>"));
        },
        Some(b) => b,
    };
    if b == 0 {
        return Err(string_from("IMU firmware bitrate must be a positive integer"));
    }
    let mut out: Vec<char> = Vec::new();
    append_str(&mut out, "can:can_rx=");
    push_unsigned_decimal(&mut out, c);
    append_str(&mut out, ":nominal_bitrate=");
    push_unsigned_decimal(&mut out, b);
    Ok(string_of(out.as_slice()))
}

// ---------------------------------------------------------------------------
// The decoder catalog
// ---------------------------------------------------------------------------

/// A protocol decoder that the decoder backend offers.
#[derive(Debug)]
pub struct DecoderInfo {
    pub id: String,
    pub name: String,
}

impl View for DecoderInfo {
    type V = (Seq<char>, Seq<char>);

    open spec fn view(&self) -> (Seq<char>, Seq<char>) {
        (self.id@, self.name@)
    }
}

/// The heading after which the backend lists its protocol decoders.
pub open spec fn catalog_marker() -> Seq<char> {
    "Supported protocol decoders:"@
}

/// The text between the first heading and the next one (or the end), as
/// `text.split(heading).nth(1)` gives it.
pub open spec fn catalog_section(text: Seq<char>) -> Option<Seq<char>> {
    match first_occurrence(text, catalog_marker()) {
        None => None,
        Some(i) => {
            let rest = text.skip(i + catalog_marker().len());
            match first_occurrence(rest, catalog_marker()) {
                None => Some(rest),
                Some(j) => Some(rest.take(j)),
            }
        },
    }
}

/// The position of the first whitespace character of `s`.
pub open spec fn first_whitespace(s: Seq<char>) -> Option<nat>
    decreases s.len(),
{
    if s.len() == 0 {
        None
    } else if is_whitespace_char(s[0]) {
        Some(0)
    } else {
        match first_whitespace(s.drop_first()) {
            Some(k) => Some(k + 1),
            None => None,
        }
    }
}

/// The catalog entry of one line: the trimmed line split at its first
/// whitespace character into an ID and a (trimmed) name; a line without
/// whitespace gives no entry.
pub open spec fn catalog_line_entry(line: Seq<char>) -> Option<(Seq<char>, Seq<char>)> {
    let l = trim(line);
    match first_whitespace(l) {
        None => None,
        Some(k) => Some((l.take(k as int), trim(l.skip(k + 1 as int)))),
    }
}

/// The entries of the given lines, in order.
pub open spec fn catalog_entries(lines: Seq<Seq<char>>) -> Seq<(Seq<char>, Seq<char>)>
    decreases lines.len(),
{
    if lines.len() == 0 {
        Seq::empty()
    } else {
        let before = catalog_entries(lines.drop_last());
        match catalog_line_entry(lines.last()) {
            Some(e) => before.push(e),
            None => before,
        }
    }
}

/// The decoder catalog in the backend's `--list-supported` output.
///
/// The lines are the `\n`-separated pieces of the section. `str::lines` also
/// drops a `\r` before each `\n` and a final empty piece; both vanish under
/// `trim` and give no entry, so the entries are the same.
pub open spec fn decoder_catalog_spec(text: Seq<char>) -> Result<
    Seq<(Seq<char>, Seq<char>)>,
    Seq<char>,
> {
    match catalog_section(text) {
        None => Err("No decoder catalog returned"@),
        Some(section) => Ok(catalog_entries(split_char(section, '\n'))),
    }
}

fn first_whitespace_exec(s: &[char]) -> (r: Option<usize>)
    ensures
        r matches Some(k) ==> first_whitespace(s@) == Some(k as nat) && k < s@.len(),
        r is None ==> first_whitespace(s@) is None,
{
    let mut i: usize = 0;
    assert(s@.skip(0) == s@);
    while i < s.len()
        invariant
            i <= s@.len(),
            first_whitespace(s@) == (match first_whitespace(s@.skip(i as int)) {
                Some(k) => Some((k + i) as nat),
                None => None,
            }),
        decreases s@.len() - i,
    {
        if is_whitespace(s[i]) {
            assert(s@.skip(i as int)[0] == s@[i as int]);
            return Some(i);
        }
        assert(s@.skip(i as int).drop_first() == s@.skip(i + 1));
        i = i + 1;
    }
    None
}

fn catalog_line(line: &[char]) -> (r: Option<DecoderInfo>)
    ensures
        r matches Some(d) ==> catalog_line_entry(line@) == Some(d@),
        r is None ==> catalog_line_entry(line@) is None,
{
    let l = trimmed(line);
    match first_whitespace_exec(l.as_slice()) {
        None => None,
        Some(k) => {
            let id = copy_range(l.as_slice(), 0, k);
            let rest = copy_range(l.as_slice(), k + 1, l.len());
            assert(id@ == l@.take(k as int));
            assert(rest@ == l@.skip(k + 1));
            let name = trimmed(rest.as_slice());
            Some(DecoderInfo { id: string_of(id.as_slice()), name: string_of(name.as_slice()) })
        },
    }
}

/// The protocol decoders listed in the backend's `--list-supported` output.
pub fn decoder_catalog(output: &str) -> (r: Result<Vec<DecoderInfo>, String>)
    ensures
        match r {
            Ok(v) => decoder_catalog_spec(output@) == Ok::<_, Seq<char>>(
                v@.map_values(|d: DecoderInfo| d@),
            ),
            Err(e) => decoder_catalog_spec(output@) == Err::<Seq<(Seq<char>, Seq<char>)>, _>(
                e@,
            ),
        },
{
    let text = chars_of(output);
    let marker = chars_of("Supported protocol decoders:");
    let i = match find(text.as_slice(), marker.as_slice()) {
        None => {
            return Err(string_from("No decoder catalog returned"));
        },
        Some(i) => i,
    };
    let n = text.len();
    assert(i + marker@.len() <= n);
    let rest = copy_range(text.as_slice(), i + marker.len(), n);
    assert(rest@ == text@.skip(i + marker@.len()));
    let section = match find(rest.as_slice(), marker.as_slice()) {
        None => rest,
        Some(j) => {
            let s = copy_range(rest.as_slice(), 0, j);
            assert(s@ == rest@.take(j as int));
            s
        },
    };
    assert(catalog_section(output@) == Some(section@));
    let lines = split_on(section.as_slice(), '\n');
    let ghost lv = split_char(section@, '\n');
    let mut entries: Vec<DecoderInfo> = Vec::new();
    assert(lv.take(0) == Seq::<Seq<char>>::empty());
    for k in 0..lines.len()
        invariant
            lines@.len() == lv.len(),
            forall|m: int| 0 <= m < lines@.len() ==> (#[trigger] lines@[m])@ == lv[m],
            entries@.map_values(|d: DecoderInfo| d@) == catalog_entries(lv.take(k as int)),
    {
        proof {
            assert(lv.take(k + 1).drop_last() == lv.take(k as int));
            assert(lv.take(k + 1).last() == lines@[k as int]@);
        }
        match catalog_line(lines[k].as_slice()) {
            Some(d) => {
                entries.push(d);
                assert(entries@.map_values(|d: DecoderInfo| d@) =~= catalog_entries(
                    lv.take(k as int),
                ).push(d@));
            },
            None => {},
        }
    }
    assert(lv.take(lines@.len() as int) == lv);
    Ok(entries)
}

// ---------------------------------------------------------------------------
// Decoder IDs and expressions
// ---------------------------------------------------------------------------

/// The description of the IMU firmware pseudo-decoder.
pub open spec fn imu_firmware_description() -> Seq<char> {
    "IMU firmware application protocol\n\n\
     Underlying decoder: Classical CAN\n\
     Nominal bitrate: configured bit rate (default 1,000,000 bit/s)\n\
     0x100: ax, ay, az as signed big-endian i16 in mg\n\
     0x101: gx, gy as signed big-endian i32 in mdps\n\
     0x102: gz as signed big-endian i32 in mdps\n\
     One decoded sample is emitted after all three frames arrive."@
}

/// Where the details of a decoder come from.
#[derive(Debug)]
pub enum DecoderDetails {
    /// The details are known here.
    Known(String),
    /// The backend is to be asked for them.
    Query,
}

/// A decoder ID is non-empty and made of ASCII letters, digits and `_`.
pub open spec fn valid_decoder_id(id: Seq<char>) -> bool {
    id.len() > 0 && forall|i: int|
        0 <= i < id.len() ==> is_ascii_alphanumeric_char(#[trigger] id[i]) || id[i] == '_'
}

/// Checks a decoder ID and says where its details come from.
pub fn decoder_details(id: &str) -> (r: Result<DecoderDetails, String>)
    ensures
        r is Err <==> !valid_decoder_id(id@),
        r matches Err(e) ==> e@ == "Invalid decoder ID"@,
        r matches Ok(DecoderDetails::Known(t)) ==> id@ == imu_firmware_decoder() && t@
            == imu_firmware_description(),
        r matches Ok(DecoderDetails::Query) ==> id@ != imu_firmware_decoder(),
{
    let cs = chars_of(id);
    if cs.len() == 0 {
        return Err(string_from("Invalid decoder ID"));
    }
    for i in 0..cs.len()
        invariant
            cs@ == id@,
            forall|j: int| 0 <= j < i ==> is_ascii_alphanumeric_char(#[trigger] cs@[j]) || cs@[j]
                == '_',
    {
        if !(is_ascii_alphanumeric(cs[i]) || cs[i] == '_') {
            return Err(string_from("Invalid decoder ID"));
        }
    }
    if chars_equal_str(cs.as_slice(), "imu_firmware") {
        Ok(
            DecoderDetails::Known(
                string_from(
                    "IMU firmware application protocol\n\n\
                     Underlying decoder: Classical CAN\n\
                     Nominal bitrate: configured bit rate (default 1,000,000 bit/s)\n\
                     0x100: ax, ay, az as signed big-endian i16 in mg\n\
                     0x101: gx, gy as signed big-endian i32 in mdps\n\
                     0x102: gz as signed big-endian i32 in mdps\n\
                     One decoded sample is emitted after all three frames arrive.",
                ),
            ),
        )
    } else {
        Ok(DecoderDetails::Query)
    }
}

/// A decoder expression is non-empty, at most 4096 bytes long in UTF-8 and
/// free of control characters.
pub open spec fn valid_decoder_expression(expression: &str) -> bool {
    &&& expression@.len() > 0
    &&& expression.len() <= 4096
    &&& forall|i: int| 0 <= i < expression@.len() ==> !is_control_char(#[trigger] expression@[i])
}

/// Checks a decoder expression; the error says what to do.
pub fn check_decoder_expression(expression: &str) -> (r: Result<(), String>)
    ensures
        r is Ok <==> valid_decoder_expression(expression),
        r matches Err(e) ==> e@ == "Enter a valid decoder expression"@,
{
    let cs = chars_of(expression);
    if cs.len() == 0 || expression.len() > 4096 {
        return Err(string_from("Enter a valid decoder expression"));
    }
    for i in 0..cs.len()
        invariant
            cs@ == expression@,
            forall|j: int| 0 <= j < i ==> !is_control_char(#[trigger] cs@[j]),
    {
        if is_control(cs[i]) {
            return Err(string_from("Enter a valid decoder expression"));
        }
    }
    Ok(())
}

/// The decoder output kept for display: its first 64,000 characters, and
/// whether the output is longer than 64,000 bytes.
pub fn limit_decoder_output(full: &str) -> (r: (String, bool))
    ensures
        r.0@ == (if full@.len() <= 64000 {
            full@
        } else {
            full@.take(64000)
        }),
        r.1 == (full.len() > 64000),
{
    let cs = chars_of(full);
    let n = if cs.len() <= 64000 {
        cs.len()
    } else {
        64000
    };
    let kept = copy_range(cs.as_slice(), 0, n);
    assert(cs@.take(cs@.len() as int) == cs@);
    (string_of(kept.as_slice()), full.len() > 64000)
}

} // verus!
