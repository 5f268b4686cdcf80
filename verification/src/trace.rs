//! Decoder annotations from the begin/end events of the decoder's JSON trace.
use vstd::prelude::*;
use crate::annotation::{Annotation, AnnotationView, is_stable_sort_by_start, sort_by_start, views};
use crate::text::{
    append_chars, append_str, ascii_lowercase, chars_equal_str, chars_of, contains_seq, contains_str,
    digits_value, is_ascii_hexdigit, is_ascii_hexdigit_char, parse_unsigned, parse_unsigned_exec,
    string_from, string_of, strip_prefix, strip_prefix_str,
};

verus! {

/// `str::to_lowercase`, the Unicode lowercase mapping of a string.
pub uninterp spec fn unicode_lowercase(s: Seq<char>) -> Seq<char>;

/// Whether every character of `s` is ASCII.
pub open spec fn all_ascii(s: Seq<char>) -> bool {
    forall|i: int| 0 <= i < s.len() ==> (#[trigger] s[i] as u32) < 128
}

/// The lowercase form of a row name: the ASCII lowercase of an ASCII name,
/// otherwise `str::to_lowercase` of it.
pub open spec fn row_lowercase(row: Seq<char>) -> Seq<char> {
    if all_ascii(row) {
        ascii_lowercase(row)
    } else {
        unicode_lowercase(row)
    }
}

/// Calls `str::to_lowercase`. Its result is named `unicode_lowercase` of the
/// argument. Of the mapping (Unicode's lowercase tables) only this is stated:
/// on ASCII text it is the ASCII lowercase, as Unicode maps `A`..`Z` to
/// `a`..`z` and leaves the other ASCII characters as they are.
#[verifier::external_body]
fn to_lowercase(s: &str) -> (r: String)
    ensures
        r@ == unicode_lowercase(s@),
        all_ascii(s@) ==> r@ == ascii_lowercase(s@),
{
    s.to_lowercase()
}

/// One event of the decoder's trace, as plain values: its phase (`ph`), the
/// process (`pid`) and row (`tid`) it belongs to, its name, and its time in
/// seconds as the bits of an `f64` (absent when the event has no numeric
/// `ts`). Missing string fields are empty.
#[derive(Debug)]
pub struct TraceEvent {
    pub phase: String,
    pub pid: String,
    pub row: String,
    pub name: String,
    pub time_bits: Option<u64>,
}

pub struct TraceEventView {
    pub phase: Seq<char>,
    pub pid: Seq<char>,
    pub row: Seq<char>,
    pub name: Seq<char>,
    pub time: Option<u64>,
}

impl View for TraceEvent {
    type V = TraceEventView;

    open spec fn view(&self) -> TraceEventView {
        TraceEventView {
            phase: self.phase@,
            pid: self.pid@,
            row: self.row@,
            name: self.name@,
            time: self.time_bits,
        }
    }
}

/// A stack of open begin events (time, name), newest last.
pub type OpenEvents = Seq<(u64, Seq<char>)>;

/// The open begin events, by key (`pid/row`), in order of first use.
pub type OpenTable = Seq<(Seq<char>, OpenEvents)>;

/// The position of `key` in the table.
pub open spec fn table_index(t: OpenTable, key: Seq<char>) -> Option<nat>
    decreases t.len(),
{
    if t.len() == 0 {
        None
    } else if t[0].0 == key {
        Some(0)
    } else {
        match table_index(t.drop_first(), key) {
            Some(i) => Some(i + 1),
            None => None,
        }
    }
}

/// The open events of `key`.
pub open spec fn open_events(t: OpenTable, key: Seq<char>) -> OpenEvents {
    match table_index(t, key) {
        Some(i) => t[i as int].1,
        None => Seq::empty(),
    }
}

/// The table with the open events of `key` replaced.
pub open spec fn with_open_events(t: OpenTable, key: Seq<char>, events: OpenEvents) -> OpenTable {
    match table_index(t, key) {
        Some(i) => t.update(i as int, (key, events)),
        None => t.push((key, events)),
    }
}

/// A row of bits, by its lowercase name: one that mentions `bits`.
pub open spec fn is_bit_row_lowered(lowered: Seq<char>) -> bool {
    contains_seq(lowered, "bits"@)
}

/// A row that carries data bytes, by its name and its lowercase name: `RX`,
/// `TX`, `MOSI`, `MISO`, or one whose lowercase name mentions `data`.
pub open spec fn is_data_row_lowered(row: Seq<char>, lowered: Seq<char>) -> bool {
    ||| row == "RX"@
    ||| row == "TX"@
    ||| contains_seq(lowered, "data"@)
    ||| row == "MOSI"@
    ||| row == "MISO"@
}

/// A row that carries data bytes.
pub open spec fn is_data_row(row: Seq<char>) -> bool {
    is_data_row_lowered(row, row_lowercase(row))
}

/// Whether a row, given by its lowercase name, is a row of bits.
pub fn is_bit_row(lowered: &str) -> (r: bool)
    ensures
        r == is_bit_row_lowered(lowered@),
{
    let cs = chars_of(lowered);
    contains_str(cs.as_slice(), "bits")
}

/// Whether a row, given by its name and its lowercase name, carries data
/// bytes.
pub fn is_data_row_named(row: &str, lowered: &str) -> (r: bool)
    ensures
        r == is_data_row_lowered(row@, lowered@),
{
    let row_chars = chars_of(row);
    let lower_chars = chars_of(lowered);
    chars_equal_str(row_chars.as_slice(), "RX") || chars_equal_str(row_chars.as_slice(), "TX")
        || contains_str(lower_chars.as_slice(), "data") || chars_equal_str(
        row_chars.as_slice(),
        "MOSI",
    ) || chars_equal_str(row_chars.as_slice(), "MISO")
}

/// The byte value of an annotation of a data row: its text, without a `0x`
/// prefix, when that is one or two hexadecimal digits. (The byte length
/// that the decoder tests is the character count here, since hexadecimal
/// digits are ASCII.)
pub open spec fn annotation_value(row: Seq<char>, text: Seq<char>) -> Option<u32> {
    if is_data_row(row) && is_small_hex(without_hex_prefix(text)) {
        Some(digits_value(without_hex_prefix(text), 16) as u32)
    } else {
        None
    }
}

/// The value of a hexadecimal digit character.
pub open spec fn hex_digit_value(c: char) -> nat {
    if '0' <= c && c <= '9' {
        (c as int - '0' as int) as nat
    } else if 'a' <= c && c <= 'f' {
        (c as int - 'a' as int + 10) as nat
    } else {
        (c as int - 'A' as int + 10) as nat
    }
}

/// Byte values of data rows: an annotation on a row named `RX`, `TX`,
/// `MOSI` or `MISO`, or whose lowercase name mentions `data`, whose text
/// (without a leading `0x`) is one or two hexadecimal digits has that byte
/// as its value; any other annotation has none.
pub proof fn lemma_data_rows_carry_byte_values(row: Seq<char>, text: Seq<char>)
    ensures
        ({
            let data_row = row == "RX"@ || row == "TX"@ || row == "MOSI"@ || row == "MISO"@
                || contains_seq(row_lowercase(row), "data"@);
            let h = if "0x"@.is_prefix_of(text) {
                text.skip("0x"@.len() as int)
            } else {
                text
            };
            &&& (data_row && h.len() == 1 && is_ascii_hexdigit_char(h[0])) ==> annotation_value(
                row,
                text,
            ) == Some(hex_digit_value(h[0]) as u32)
            &&& (data_row && h.len() == 2 && is_ascii_hexdigit_char(h[0]) && is_ascii_hexdigit_char(
                h[1],
            )) ==> annotation_value(row, text) == Some(
                (16 * hex_digit_value(h[0]) + hex_digit_value(h[1])) as u32,
            )
            &&& !data_row ==> annotation_value(row, text) is None
            &&& !(1 <= h.len() <= 2 && forall|i: int|
                0 <= i < h.len() ==> is_ascii_hexdigit_char(#[trigger] h[i])) ==> annotation_value(
                row,
                text,
            ) is None
        }),
{
    let h = without_hex_prefix(text);
    if h.len() == 1 && is_ascii_hexdigit_char(h[0]) {
        assert(h.drop_last() =~= Seq::<char>::empty());
        assert(digits_value(h.drop_last(), 16) == 0);
        assert(h.last() == h[0]);
        assert(crate::text::digit_value(h[0], 16) == Some(hex_digit_value(h[0])));
        assert(digits_value(h, 16) == hex_digit_value(h[0]));
    }
    if h.len() == 2 && is_ascii_hexdigit_char(h[0]) && is_ascii_hexdigit_char(h[1]) {
        let d = h.drop_last();
        assert(d.drop_last() =~= Seq::<char>::empty());
        assert(digits_value(d.drop_last(), 16) == 0);
        assert(d.last() == h[0]);
        assert(h.last() == h[1]);
        assert(crate::text::digit_value(h[0], 16) == Some(hex_digit_value(h[0])));
        assert(crate::text::digit_value(h[1], 16) == Some(hex_digit_value(h[1])));
        assert(digits_value(d, 16) == hex_digit_value(h[0]));
        assert(digits_value(h, 16) == 16 * hex_digit_value(h[0]) + hex_digit_value(h[1]));
    }
}

/// `text` without a leading `0x`.
pub open spec fn without_hex_prefix(text: Seq<char>) -> Seq<char> {
    match strip_prefix(text, "0x"@) {
        Some(h) => h,
        None => text,
    }
}

/// One or two hexadecimal digits.
pub open spec fn is_small_hex(hex: Seq<char>) -> bool {
    &&& hex.len() > 0
    &&& hex.len() <= 2
    &&& forall|i: int| 0 <= i < hex.len() ==> is_ascii_hexdigit_char(#[trigger] hex[i])
}

/// The state after some events: the open begin events and the annotations
/// made so far, or the error that stopped the reading.
pub type TraceState = Result<(OpenTable, Seq<AnnotationView>), Seq<char>>;

/// One event: an event without a time stops the reading; a begin event is
/// pushed on the stack of its key; an end event closes the newest open event
/// of its key into an annotation (dropped for bit rows); other events, and
/// end events with nothing open, change nothing.
pub open spec fn trace_step(acc: TraceState, e: TraceEventView) -> TraceState {
    match acc {
        Err(msg) => Err(msg),
        Ok((table, out)) => match e.time {
            None => Err("Missing annotation time"@),
            Some(ts) => {
                let key = e.pid + "/"@ + e.row;
                let open = open_events(table, key);
                if e.phase == "B"@ {
                    Ok((with_open_events(table, key, open.push((ts, e.name))), out))
                } else if e.phase == "E"@ && open.len() > 0 {
                    let (start, text) = open.last();
                    let table2 = with_open_events(table, key, open.drop_last());
                    if is_bit_row_lowered(row_lowercase(e.row)) {
                        Ok((table2, out))
                    } else {
                        Ok(
                            (
                                table2,
                                out.push(
                                    AnnotationView {
                                        start,
                                        end: ts,
                                        row: e.row,
                                        text,
                                        value: annotation_value(e.row, text),
                                    },
                                ),
                            ),
                        )
                    }
                } else {
                    Ok((table, out))
                }
            },
        },
    }
}

pub open spec fn trace_scan(events: Seq<TraceEventView>) -> TraceState
    decreases events.len(),
{
    if events.len() == 0 {
        Ok((Seq::empty(), Seq::empty()))
    } else {
        trace_step(trace_scan(events.drop_last()), events.last())
    }
}

pub open spec fn event_views(s: Seq<TraceEvent>) -> Seq<TraceEventView> {
    s.map_values(|e: TraceEvent| e@)
}

/// A begin event and the end event of the same process and row make one
/// annotation: from the begin's time to the end's, on that row, with the
/// begin's name as text and the byte value of a data row; on a row of bits
/// they make none.
pub proof fn lemma_begin_end_pair(
    pid: Seq<char>,
    row: Seq<char>,
    name: Seq<char>,
    end_name: Seq<char>,
    start: u64,
    end: u64,
)
    ensures
        ({
            let events = seq![
                TraceEventView { phase: "B"@, pid, row, name, time: Some(start) },
                TraceEventView { phase: "E"@, pid, row, name: end_name, time: Some(end) },
            ];
            match trace_scan(events) {
                Ok((_, out)) => out == (if is_bit_row_lowered(row_lowercase(row)) {
                    Seq::<AnnotationView>::empty()
                } else {
                    seq![
                        AnnotationView {
                            start,
                            end,
                            row,
                            text: name,
                            value: annotation_value(row, name),
                        },
                    ]
                }),
                Err(_) => false,
            }
        }),
{
    reveal_strlit("B");
    reveal_strlit("E");
    let events = seq![
        TraceEventView { phase: "B"@, pid, row, name, time: Some(start) },
        TraceEventView { phase: "E"@, pid, row, name: end_name, time: Some(end) },
    ];
    let key = pid + "/"@ + row;
    assert(events.drop_last().drop_last() =~= Seq::<TraceEventView>::empty());
    let empty: OpenTable = Seq::empty();
    assert(table_index(empty, key) is None);
    let t1 = with_open_events(empty, key, Seq::<(u64, Seq<char>)>::empty().push((start, name)));
    assert(t1 == seq![(key, seq![(start, name)])]);
    assert(table_index(t1, key) == Some(0nat));
    let first = events.drop_last();
    assert(first.drop_last() =~= Seq::<TraceEventView>::empty());
    assert(first.last() == events[0]);
    assert(events.last() == events[1]);
    assert(trace_scan(first.drop_last()) == Ok::<(OpenTable, Seq<AnnotationView>), Seq<char>>(
        (empty, Seq::empty()),
    ));
    assert(open_events(empty, key) =~= Seq::<(u64, Seq<char>)>::empty());
    assert(trace_scan(first) == Ok::<(OpenTable, Seq<AnnotationView>), Seq<char>>(
        (t1, Seq::empty()),
    ));
    assert("E"@[0] != "B"@[0]);
    assert(open_events(t1, key) == seq![(start, name)]);
    assert(Seq::<AnnotationView>::empty().push(
        AnnotationView { start, end, row, text: name, value: annotation_value(row, name) },
    ) =~= seq![AnnotationView { start, end, row, text: name, value: annotation_value(row, name) }]);
}

proof fn lemma_trace_error_sticks(events: Seq<TraceEventView>, i: int, msg: Seq<char>)
    requires
        0 <= i <= events.len(),
        trace_scan(events.take(i)) == Err::<(OpenTable, Seq<AnnotationView>), Seq<char>>(msg),
    ensures
        trace_scan(events) == Err::<(OpenTable, Seq<AnnotationView>), Seq<char>>(msg),
    decreases events.len() - i,
{
    if i == events.len() {
        assert(events.take(i) == events);
    } else {
        assert(events.take(i + 1).drop_last() == events.take(i));
        lemma_trace_error_sticks(events, i + 1, msg);
    }
}

// ---------------------------------------------------------------------------
// Executable pairing
// ---------------------------------------------------------------------------

pub open spec fn open_view(v: Seq<(u64, String)>) -> OpenEvents {
    v.map_values(|p: (u64, String)| (p.0, p.1@))
}

pub open spec fn table_view(t: Seq<(Vec<char>, Vec<(u64, String)>)>) -> OpenTable {
    t.map_values(|e: (Vec<char>, Vec<(u64, String)>)| (e.0@, open_view(e.1@)))
}

proof fn lemma_table_index(t: OpenTable, key: Seq<char>)
    ensures
        table_index(t, key) matches Some(i) ==> i < t.len() && t[i as int].0 == key,
    decreases t.len(),
{
    if t.len() > 0 {
        lemma_table_index(t.drop_first(), key);
    }
}

proof fn lemma_small_hex_value(h: Seq<char>)
    requires
        1 <= h.len() <= 2,
        forall|i: int| 0 <= i < h.len() ==> is_ascii_hexdigit_char(#[trigger] h[i]),
    ensures
        digits_value(h, 16) < 256,
        crate::text::all_digits(h, 16),
{
    assert forall|i: int| 0 <= i < h.len() implies (#[trigger] crate::text::digit_value(
        h[i],
        16,
    )) is Some by {
        assert(is_ascii_hexdigit_char(h[i]));
    }
    let d_last = crate::text::digit_value(h.last(), 16)->0;
    assert(d_last < 16);
    if h.len() == 1 {
        assert(h.drop_last() =~= Seq::<char>::empty());
        assert(digits_value(h.drop_last(), 16) == 0);
    } else {
        let first = h.drop_last();
        assert(first.drop_last() =~= Seq::<char>::empty());
        assert(first.last() == h[0]);
        assert(digits_value(first.drop_last(), 16) == 0);
        let d0 = crate::text::digit_value(h[0], 16)->0;
        assert(d0 < 16);
        assert(digits_value(first, 16) == d0);
        assert(d0 * 16 + d_last < 256) by (nonlinear_arith)
            requires
                d0 < 16,
                d_last < 16,
        ;
    }
}

fn all_hexdigits(h: &[char]) -> (r: bool)
    ensures
        r == forall|i: int| 0 <= i < h@.len() ==> is_ascii_hexdigit_char(#[trigger] h@[i]),
{
    for i in 0..h.len()
        invariant
            forall|j: int| 0 <= j < i ==> is_ascii_hexdigit_char(#[trigger] h@[j]),
    {
        if !is_ascii_hexdigit(h[i]) {
            return false;
        }
    }
    true
}

fn find_key(t: &Vec<(Vec<char>, Vec<(u64, String)>)>, key: &Vec<char>) -> (r: Option<usize>)
    ensures
        r matches Some(i) ==> table_index(table_view(t@), key@) == Some(i as nat) && i < t@.len(),
        r is None ==> table_index(table_view(t@), key@) is None,
{
    let ghost tv = table_view(t@);
    let mut i: usize = 0;
    assert(tv.skip(0) == tv);
    while i < t.len()
        invariant
            tv == table_view(t@),
            i <= t@.len(),
            table_index(tv, key@) == (match table_index(tv.skip(i as int), key@) {
                Some(k) => Some((k + i) as nat),
                None => None,
            }),
        decreases t@.len() - i,
    {
        assert(tv.skip(i as int)[0] == tv[i as int]);
        if crate::text::chars_equal(t[i].0.as_slice(), key.as_slice()) {
            return Some(i);
        }
        assert(tv.skip(i as int).drop_first() == tv.skip(i + 1));
        i = i + 1;
    }
    None
}

fn value_of(row: &str, lowered: &str, text: &[char]) -> (r: Option<u32>)
    requires
        lowered@ == row_lowercase(row@),
    ensures
        r == annotation_value(row@, text@),
{
    let hex = match strip_prefix_str(text, "0x") {
        Some(h) => h,
        None => crate::text::copy_range(text, 0, text.len()),
    };
    assert(text@.subrange(0, text@.len() as int) == text@);
    let data_row = is_data_row_named(row, lowered);
    assert(hex@ == without_hex_prefix(text@));
    if !(data_row && hex.len() > 0 && hex.len() <= 2) {
        return None;
    }
    if !all_hexdigits(hex.as_slice()) {
        return None;
    }
    proof {
        lemma_small_hex_value(hex@);
    }
    match parse_unsigned_exec(hex.as_slice(), 16, 255) {
        Some(v) => Some(v as u32),
        None => None,
    }
}

/// The annotations of a decoder trace: begin and end events paired per
/// process and row, bit rows left out, sorted by start time. An event
/// without a time gives the error.
pub fn pair_trace_events(events: &[TraceEvent]) -> (r: Result<Vec<Annotation>, String>)
    ensures
        match trace_scan(event_views(events@)) {
            Err(msg) => r matches Err(e) && e@ == msg,
            Ok((_, out)) => r matches Ok(v) && is_stable_sort_by_start(views(v@), out),
        },
{
    let ghost evs = event_views(events@);
    let mut table: Vec<(Vec<char>, Vec<(u64, String)>)> = Vec::new();
    let mut out: Vec<Annotation> = Vec::new();
    assert(evs.take(0) =~= Seq::<TraceEventView>::empty());
    assert(table_view(table@) =~= Seq::<(Seq<char>, OpenEvents)>::empty());
    assert(views(out@) =~= Seq::<AnnotationView>::empty());
    for i in 0..events.len()
        invariant
            evs == event_views(events@),
            trace_scan(evs.take(i as int)) == Ok::<(OpenTable, Seq<AnnotationView>), Seq<char>>(
                (table_view(table@), views(out@)),
            ),
    {
        let e = &events[i];
        proof {
            assert(evs.take(i + 1).drop_last() =~= evs.take(i as int));
            assert(evs.take(i + 1).last() == e@);
        }
        let ts = match e.time_bits {
            None => {
                proof {
                    lemma_trace_error_sticks(evs, i + 1, "Missing annotation time"@);
                }
                return Err(string_from("Missing annotation time"));
            },
            Some(t) => t,
        };
        let pid = chars_of(e.pid.as_str());
        let row = chars_of(e.row.as_str());
        let mut key: Vec<char> = Vec::new();
        append_chars(&mut key, pid.as_slice());
        append_str(&mut key, "/");
        append_chars(&mut key, row.as_slice());
        let phase = chars_of(e.phase.as_str());
        let ghost tv = table_view(table@);
        let ghost open = open_events(tv, key@);
        let found = find_key(&table, &key);
        if chars_equal_str(phase.as_slice(), "B") {
            let name = e.name.clone();
            match found {
                Some(k) => {
                    let ghost before = table@;
                    proof {
                        lemma_table_index(tv, key@);
                    }
                    let (kk, mut stack) = table.remove(k);
                    let ghost sv = open_view(stack@);
                    assert(sv == open);
                    stack.push((ts, name));
                    assert(open_view(stack@) =~= open.push((ts, e.name@)));
                    let ghost entry = (kk, stack);
                    table.insert(k, (kk, stack));
                    assert(table@ =~= before.update(k as int, entry));
                    assert(table_view(table@) =~= tv.update(k as int, (key@, open.push(
                        (ts, e.name@),
                    ))));
                },
                None => {
                    let mut stack: Vec<(u64, String)> = Vec::new();
                    stack.push((ts, name));
                    assert(open_view(stack@) =~= Seq::<(u64, Seq<char>)>::empty().push(
                        (ts, e.name@),
                    ));
                    table.push((key, stack));
                    assert(table_view(table@) =~= tv.push((key@, open.push((ts, e.name@)))));
                },
            }
        } else if chars_equal_str(phase.as_slice(), "E") {
            match found {
                None => {},
                Some(k) => {
                    if table[k].1.len() > 0 {
                        let ghost before = table@;
                        proof {
                            lemma_table_index(tv, key@);
                        }
                        let (kk, mut stack) = table.remove(k);
                        assert(open_view(stack@) == open);
                        let (start, text) = stack.pop().unwrap();
                        assert(open_view(stack@) =~= open.drop_last());
                        let ghost entry = (kk, stack);
                        table.insert(k, (kk, stack));
                        assert(table@ =~= before.update(k as int, entry));
                        assert(table_view(table@) =~= tv.update(
                            k as int,
                            (key@, open.drop_last()),
                        ));
                        let lower = to_lowercase(e.row.as_str());
                        if !is_bit_row(lower.as_str()) {
                            let text_chars = chars_of(text.as_str());
                            let value = value_of(e.row.as_str(), lower.as_str(), text_chars.as_slice());
                            let ghost before = out@;
                            out.push(
                                Annotation {
                                    start_bits: start,
                                    end_bits: ts,
                                    row: e.row.clone(),
                                    text,
                                    value,
                                },
                            );
                            assert(views(out@) =~= views(before).push(
                                AnnotationView {
                                    start,
                                    end: ts,
                                    row: e.row@,
                                    text: text_chars@,
                                    value,
                                },
                            ));
                        }
                    }
                },
            }
        }
    }
    assert(evs.take(events@.len() as int) =~= evs);
    Ok(sort_by_start(out))
}

} // verus!
