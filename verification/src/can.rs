//! CAN frames reassembled from the field annotations of a CAN decoder.
use vstd::prelude::*;
use crate::annotation::{Annotation, AnnotationView, views};
use crate::text::{
    ascii_lowercase, chars_of, contains_seq, contains_str, copy_range, first_index_of,
    index_of_char, parse_unsigned, parse_unsigned_exec, strip_prefix, strip_prefix_str,
    to_ascii_lowercase, trim, trimmed,
};

verus! {

/// `Identifier: <n>`, decimal or `0x`/`0X` hexadecimal, read as a `u32`.
pub open spec fn parse_identifier_spec(text: Seq<char>) -> Option<nat> {
    match strip_prefix(text, "Identifier:"@) {
        None => None,
        Some(rest) => {
            let value = trim(rest);
            match strip_prefix(value, "0x"@) {
                Some(digits) => parse_unsigned(digits, 16, u32::MAX as nat),
                None => match strip_prefix(value, "0X"@) {
                    Some(digits) => parse_unsigned(digits, 16, u32::MAX as nat),
                    None => parse_unsigned(value, 10, u32::MAX as nat),
                },
            }
        },
    }
}

/// `Data byte <i>: 0x<hh>`: the byte index (a `usize`) before the first
/// `:`, and the hexadecimal byte value after it.
pub open spec fn parse_data_byte_spec(text: Seq<char>) -> Option<(nat, u8)> {
    match first_index_of(text, ':') {
        None => None,
        Some(c) => {
            let label = text.take(c as int);
            let value = trim(text.skip(c + 1 as int));
            match strip_prefix(label, "Data byte "@) {
                None => None,
                Some(index_text) => match parse_unsigned(index_text, 10, usize::MAX as nat) {
                    None => None,
                    Some(index) => {
                        let digits = match strip_prefix(value, "0x"@) {
                            Some(d) => Some(d),
                            None => strip_prefix(value, "0X"@),
                        };
                        match digits {
                            None => None,
                            Some(d) => match parse_unsigned(d, 16, 255) {
                                None => None,
                                Some(v) => Some((index, v as u8)),
                            },
                        }
                    },
                },
            }
        },
    }
}

/// Reads the identifier of an `Identifier:` annotation.
pub fn parse_identifier(text: &str) -> (r: Option<u32>)
    ensures
        r matches Some(v) ==> parse_identifier_spec(text@) == Some(v as nat),
        r is None ==> parse_identifier_spec(text@) is None,
{
    let cs = chars_of(text);
    identifier_of(cs.as_slice())
}

fn identifier_of(text: &[char]) -> (r: Option<u32>)
    ensures
        r matches Some(v) ==> parse_identifier_spec(text@) == Some(v as nat),
        r is None ==> parse_identifier_spec(text@) is None,
{
    let rest = match strip_prefix_str(text, "Identifier:") {
        None => {
            return None;
        },
        Some(r) => r,
    };
    let value = trimmed(rest.as_slice());
    let parsed = match strip_prefix_str(value.as_slice(), "0x") {
        Some(digits) => parse_unsigned_exec(digits.as_slice(), 16, u32::MAX as u64),
        None => match strip_prefix_str(value.as_slice(), "0X") {
            Some(digits) => parse_unsigned_exec(digits.as_slice(), 16, u32::MAX as u64),
            None => parse_unsigned_exec(value.as_slice(), 10, u32::MAX as u64),
        },
    };
    match parsed {
        Some(v) => Some(v as u32),
        None => None,
    }
}

/// Reads the index and value of a `Data byte` annotation.
pub fn parse_data_byte(text: &str) -> (r: Option<(usize, u8)>)
    ensures
        r matches Some((i, v)) ==> parse_data_byte_spec(text@) == Some((i as nat, v)),
        r is None ==> parse_data_byte_spec(text@) is None,
{
    let cs = chars_of(text);
    data_byte_of(cs.as_slice())
}

fn data_byte_of(text: &[char]) -> (r: Option<(usize, u8)>)
    ensures
        r matches Some((i, v)) ==> parse_data_byte_spec(text@) == Some((i as nat, v)),
        r is None ==> parse_data_byte_spec(text@) is None,
{
    let c = match index_of_char(text, ':') {
        None => {
            return None;
        },
        Some(c) => c,
    };
    let label = copy_range(text, 0, c);
    let n = text.len();
    let after = copy_range(text, c + 1, n);
    assert(label@ == text@.take(c as int));
    assert(after@ == text@.skip(c + 1 as int));
    let value = trimmed(after.as_slice());
    let index_text = match strip_prefix_str(label.as_slice(), "Data byte ") {
        None => {
            return None;
        },
        Some(t) => t,
    };
    let index = match parse_unsigned_exec(index_text.as_slice(), 10, usize::MAX as u64) {
        None => {
            return None;
        },
        Some(i) => i as usize,
    };
    let digits = match strip_prefix_str(value.as_slice(), "0x") {
        Some(d) => d,
        None => match strip_prefix_str(value.as_slice(), "0X") {
            Some(d) => d,
            None => {
                return None;
            },
        },
    };
    match parse_unsigned_exec(digits.as_slice(), 16, 255) {
        None => None,
        Some(v) => Some((index, v as u8)),
    }
}

// ---------------------------------------------------------------------------
// Frames
// ---------------------------------------------------------------------------

/// The plain value of a CAN frame.
pub struct FrameView {
    pub id: nat,
    pub length: Option<nat>,
    pub remote: bool,
    pub start: u64,
    pub end: u64,
    pub data: Seq<Option<u8>>,
}

/// A CAN frame assembled from annotations; the data bytes that were seen.
#[derive(Debug)]
pub struct CanFrame {
    pub id: u32,
    pub length: Option<usize>,
    pub remote: bool,
    pub start_bits: u64,
    pub end_bits: u64,
    pub data: Vec<Option<u8>>,
}

impl View for CanFrame {
    type V = FrameView;

    open spec fn view(&self) -> FrameView {
        FrameView {
            id: self.id as nat,
            length: match self.length {
                Some(l) => Some(l as nat),
                None => None,
            },
            remote: self.remote,
            start: self.start_bits,
            end: self.end_bits,
            data: self.data@,
        }
    }
}

/// The frame that an `Identifier` annotation opens.
pub open spec fn new_frame(id: nat, a: AnnotationView) -> FrameView {
    FrameView {
        id,
        length: None,
        remote: false,
        start: a.start,
        end: a.end,
        data: Seq::new(8, |i: int| None),
    }
}

/// A frame after one more of its annotations: a data length code sets the
/// length, a mention of a remote frame marks it remote, a data byte within
/// the eight fills that byte, and the frame now ends where the annotation
/// ends.
pub open spec fn frame_after(f: FrameView, a: AnnotationView) -> FrameView {
    let length = match strip_prefix(a.text, "Data length code:"@) {
        Some(l) => match parse_unsigned(trim(l), 10, usize::MAX as nat) {
            Some(n) => Some(n),
            None => f.length,
        },
        None => f.length,
    };
    let remote = f.remote || contains_seq(ascii_lowercase(a.text), "remote frame"@);
    let data = match parse_data_byte_spec(a.text) {
        Some((i, v)) => if i < f.data.len() {
            f.data.update(i as int, Some(v))
        } else {
            f.data
        },
        None => f.data,
    };
    FrameView { id: f.id, length, remote, start: f.start, end: a.end, data }
}

/// The frames finished so far and the frame still open, after the given
/// annotations. Annotations before the first identifier belong to no frame.
pub open spec fn can_scan(anns: Seq<AnnotationView>) -> (Seq<FrameView>, Option<FrameView>)
    decreases anns.len(),
{
    if anns.len() == 0 {
        (Seq::empty(), None)
    } else {
        let (frames, current) = can_scan(anns.drop_last());
        let a = anns.last();
        match parse_identifier_spec(a.text) {
            Some(id) => (
                match current {
                    Some(f) => frames.push(f),
                    None => frames,
                },
                Some(new_frame(id, a)),
            ),
            None => (
                frames,
                match current {
                    Some(f) => Some(frame_after(f, a)),
                    None => None,
                },
            ),
        }
    }
}

/// The CAN frames of a sequence of annotations, in order.
pub open spec fn can_frames(anns: Seq<AnnotationView>) -> Seq<FrameView> {
    let (frames, current) = can_scan(anns);
    match current {
        Some(f) => frames.push(f),
        None => frames,
    }
}

/// Whether an annotation's text mentions a remote frame, in any ASCII case.
pub open spec fn mentions_remote_frame(text: Seq<char>) -> bool {
    contains_seq(ascii_lowercase(text), "remote frame"@)
}

/// Whether some annotation mentions a remote frame.
pub open spec fn some_mention_of_remote_frame(anns: Seq<AnnotationView>) -> bool {
    exists|i: int| 0 <= i < anns.len() && mentions_remote_frame(#[trigger] anns[i].text)
}

proof fn lemma_scan_remote_mentioned(anns: Seq<AnnotationView>)
    ensures
        forall|j: int|
            0 <= j < can_scan(anns).0.len() && (#[trigger] can_scan(anns).0[j]).remote
                ==> some_mention_of_remote_frame(anns),
        can_scan(anns).1 matches Some(f) && f.remote ==> some_mention_of_remote_frame(anns),
    decreases anns.len(),
{
    if anns.len() > 0 {
        let init = anns.drop_last();
        let a = anns.last();
        lemma_scan_remote_mentioned(init);
        if some_mention_of_remote_frame(init) {
            let i = choose|i: int| 0 <= i < init.len() && mentions_remote_frame(#[trigger] init[i].text);
            assert(anns[i] == init[i]);
        }
        if mentions_remote_frame(a.text) {
            assert(anns[anns.len() - 1] == a);
        }
        let (fr0, cur0) = can_scan(init);
        match parse_identifier_spec(a.text) {
            Some(id) => {
                assert forall|j: int|
                    0 <= j < can_scan(anns).0.len() && (#[trigger] can_scan(anns).0[j]).remote
                        implies some_mention_of_remote_frame(anns) by {
                    if j < fr0.len() {
                        assert(can_scan(anns).0[j] == fr0[j]);
                    }
                }
            },
            None => {},
        }
    }
}

/// A frame is marked remote only when an annotation mentions a remote frame
/// (in any ASCII case): other text, such as a request field that says
/// `data frame`, leaves the flag clear.
pub proof fn lemma_remote_only_when_mentioned(anns: Seq<AnnotationView>)
    ensures
        forall|j: int|
            0 <= j < can_frames(anns).len() && (#[trigger] can_frames(anns)[j]).remote
                ==> exists|i: int| 0 <= i < anns.len() && mentions_remote_frame(#[trigger] anns[i].text),
{
    lemma_scan_remote_mentioned(anns);
    let (fr, cur) = can_scan(anns);
    assert forall|j: int|
        0 <= j < can_frames(anns).len() && (#[trigger] can_frames(anns)[j]).remote
            implies some_mention_of_remote_frame(anns) by {
        if j < fr.len() {
            assert(can_frames(anns)[j] == fr[j]);
        }
    }
}

/// The identifiers that the annotations name, in order.
pub open spec fn named_identifiers(anns: Seq<AnnotationView>) -> Seq<nat>
    decreases anns.len(),
{
    if anns.len() == 0 {
        Seq::empty()
    } else {
        let before = named_identifiers(anns.drop_last());
        match parse_identifier_spec(anns.last().text) {
            Some(id) => before.push(id),
            None => before,
        }
    }
}

pub open spec fn frame_ids(frames: Seq<FrameView>) -> Seq<nat> {
    frames.map_values(|f: FrameView| f.id)
}

proof fn lemma_scan_ids(anns: Seq<AnnotationView>)
    ensures
        named_identifiers(anns) == match can_scan(anns).1 {
            Some(f) => frame_ids(can_scan(anns).0).push(f.id),
            None => frame_ids(can_scan(anns).0),
        },
        can_scan(anns).1 is None ==> can_scan(anns).0.len() == 0,
    decreases anns.len(),
{
    if anns.len() > 0 {
        lemma_scan_ids(anns.drop_last());
        let (fr0, cur0) = can_scan(anns.drop_last());
        match parse_identifier_spec(anns.last().text) {
            Some(id) => {
                match cur0 {
                    Some(f) => {
                        assert(frame_ids(fr0.push(f)) =~= frame_ids(fr0).push(f.id));
                    },
                    None => {},
                }
            },
            None => {},
        }
    }
}

/// One frame per identifier annotation: the frames are as many as the
/// identifiers named, and each frame has the identifier that opened it, in
/// the same order.
pub proof fn lemma_one_frame_per_identifier(anns: Seq<AnnotationView>)
    ensures
        frame_ids(can_frames(anns)) == named_identifiers(anns),
{
    lemma_scan_ids(anns);
    let (fr, cur) = can_scan(anns);
    match cur {
        Some(f) => {
            assert(frame_ids(fr.push(f)) =~= frame_ids(fr).push(f.id));
        },
        None => {
            assert(frame_ids(fr) =~= Seq::<nat>::empty());
        },
    }
}

pub open spec fn frame_views(s: Seq<CanFrame>) -> Seq<FrameView> {
    s.map_values(|f: CanFrame| f@)
}

fn open_frame(id: u32, a: &Annotation) -> (r: CanFrame)
    ensures
        r@ == new_frame(id as nat, a@),
{
    let mut data: Vec<Option<u8>> = Vec::new();
    for i in 0..8usize
        invariant
            data@ == Seq::new(i as nat, |k: int| None::<u8>),
    {
        data.push(None);
        assert(data@ =~= Seq::new((i + 1) as nat, |k: int| None::<u8>));
    }
    CanFrame {
        id,
        length: None,
        remote: false,
        start_bits: a.start_bits,
        end_bits: a.end_bits,
        data,
    }
}

fn update_frame(f: &mut CanFrame, a: &Annotation)
    ensures
        final(f)@ == frame_after(old(f)@, a@),
{
    let text = chars_of(a.text.as_str());
    match strip_prefix_str(text.as_slice(), "Data length code:") {
        Some(l) => {
            let t = trimmed(l.as_slice());
            match parse_unsigned_exec(t.as_slice(), 10, usize::MAX as u64) {
                Some(n) => {
                    f.length = Some(n as usize);
                },
                None => {},
            }
        },
        None => {},
    }
    let lower = to_ascii_lowercase(text.as_slice());
    if contains_str(lower.as_slice(), "remote frame") {
        f.remote = true;
    }
    match data_byte_of(text.as_slice()) {
        Some((i, v)) => {
            if i < f.data.len() {
                f.data.set(i, Some(v));
            }
        },
        None => {},
    }
    f.end_bits = a.end_bits;
}

/// The CAN frames that the annotations of a CAN decoder describe.
pub fn collect_can_frames(annotations: &[Annotation]) -> (r: Vec<CanFrame>)
    ensures
        frame_views(r@) == can_frames(views(annotations@)),
{
    let ghost anns = views(annotations@);
    let mut frames: Vec<CanFrame> = Vec::new();
    let mut current: Option<CanFrame> = None;
    assert(anns.take(0) =~= Seq::<AnnotationView>::empty());
    for i in 0..annotations.len()
        invariant
            anns == views(annotations@),
            can_scan(anns.take(i as int)) == (
                frame_views(frames@),
                match current {
                    Some(f) => Some(f@),
                    None => None::<FrameView>,
                },
            ),
    {
        let a = &annotations[i];
        proof {
            assert(anns.take(i + 1).drop_last() =~= anns.take(i as int));
            assert(anns.take(i + 1).last() == a@);
        }
        let text = chars_of(a.text.as_str());
        match identifier_of(text.as_slice()) {
            Some(id) => {
                let previous = current;
                match previous {
                    Some(f) => {
                        let ghost before = frames@;
                        let ghost fv = f@;
                        frames.push(f);
                        assert(frame_views(frames@) =~= frame_views(before).push(fv));
                    },
                    None => {},
                }
                current = Some(open_frame(id, a));
            },
            None => {
                match current {
                    Some(ref mut f) => {
                        update_frame(f, a);
                    },
                    None => {},
                }
            },
        }
    }
    assert(anns.take(annotations@.len() as int) =~= anns);
    match current {
        Some(f) => {
            let ghost before = frames@;
            let ghost fv = f@;
            frames.push(f);
            assert(frame_views(frames@) =~= frame_views(before).push(fv));
        },
        None => {},
    }
    frames
}

} // verus!
