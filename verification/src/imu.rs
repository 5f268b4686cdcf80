//! The IMU firmware application protocol on top of CAN: frames `0x100`
//! (acceleration), `0x101` (gyro X/Y) and `0x102` (gyro Z) are reassembled
//! into IMU samples.
use vstd::prelude::*;
use crate::annotation::{
    Annotation, AnnotationView, is_stable_sort_by_start, lemma_sorted_by_start_unique, sort_by_start,
    starts_at, views,
};
use crate::can::{
    CanFrame, FrameView, can_frames, can_scan, collect_can_frames, frame_views, parse_identifier_spec,
};
use crate::text::{
    append_str, ascii_lowercase, chars_of, contains_seq, contains_str, decimal,
    hex_upper_padded, push_decimal, push_hex_upper_padded, string_from, string_of,
    to_ascii_lowercase,
};

verus! {

broadcast use vstd::seq_lib::group_filter_ensures;

/// The payload of a frame when it is a data frame whose data length code is
/// `length` and whose first `length` bytes were all seen.
pub open spec fn payload(f: FrameView, length: nat) -> Option<Seq<u8>> {
    if f.remote || f.length != Some(length) || length > f.data.len() {
        None
    } else if forall|i: int| 0 <= i < length ==> (#[trigger] f.data[i]) is Some {
        Some(Seq::new(length, |i: int| f.data[i]->0))
    } else {
        None
    }
}

/// The payload of a frame of the expected length.
pub fn frame_payload(frame: &CanFrame, length: usize) -> (r: Option<Vec<u8>>)
    ensures
        r matches Some(v) ==> payload(frame@, length as nat) == Some(v@),
        r is None ==> payload(frame@, length as nat) is None,
{
    if frame.remote || frame.length != Some(length) || length > frame.data.len() {
        return None;
    }
    let mut out: Vec<u8> = Vec::new();
    for i in 0..length
        invariant
            length <= frame.data@.len(),
            out@.len() == i,
            forall|j: int| 0 <= j < i ==> (#[trigger] frame.data@[j]) is Some && out@[j]
                == frame.data@[j]->0,
    {
        match frame.data[i] {
            Some(b) => {
                out.push(b);
            },
            None => {
                return None;
            },
        }
    }
    assert(out@ =~= Seq::new(length as nat, |i: int| frame@.data[i]->0));
    Some(out)
}

/// The slot and payload length of an IMU frame identifier.
pub open spec fn imu_slot(id: nat) -> Option<(nat, nat)> {
    if id == 0x100 {
        Some((0, 6))
    } else if id == 0x101 {
        Some((1, 8))
    } else if id == 0x102 {
        Some((2, 4))
    } else {
        None
    }
}

pub open spec fn imu_frame_name(slot: nat) -> Seq<char> {
    if slot == 0 {
        "acceleration"@
    } else if slot == 1 {
        "gyro X/Y"@
    } else {
        "gyro Z"@
    }
}

/// A signed big-endian 16-bit value.
pub open spec fn be_i16(b0: u8, b1: u8) -> int {
    let u = b0 * 256 + b1;
    if u >= 0x8000 {
        u - 0x1_0000
    } else {
        u
    }
}

/// A signed big-endian 32-bit value.
pub open spec fn be_i32(b0: u8, b1: u8, b2: u8, b3: u8) -> int {
    let u = ((b0 * 256 + b1) * 256 + b2) * 256 + b3;
    if u >= 0x8000_0000 {
        u - 0x1_0000_0000
    } else {
        u
    }
}

/// The annotation that flags an IMU frame with a bad payload.
pub open spec fn invalid_frame_warning(f: FrameView, slot: nat, length: nat) -> AnnotationView {
    AnnotationView {
        start: f.start,
        end: f.end,
        row: "Warnings"@,
        text: "Invalid IMU firmware frame 0x"@ + hex_upper_padded(f.id, 3) + ": "@
            + imu_frame_name(slot) + " requires "@ + decimal(length as int) + " data bytes"@,
        value: None,
    }
}

/// The unsigned big-endian value of two bytes.
pub open spec fn be_u16(b0: u8, b1: u8) -> int {
    b0 * 0x100 + b1
}

/// The unsigned big-endian value of four bytes.
pub open spec fn be_u32(b0: u8, b1: u8, b2: u8, b3: u8) -> int {
    b0 * 0x100_0000 + b1 * 0x1_0000 + b2 * 0x100 + b3
}

/// `v` is what two big-endian bytes hold as an `i16`: a value in the range
/// of `i16` equal to their unsigned value modulo 2^16.
pub open spec fn is_i16_of(v: int, b0: u8, b1: u8) -> bool {
    -0x8000 <= v < 0x8000 && (v - be_u16(b0, b1)) % 0x1_0000 == 0
}

/// `v` is what four big-endian bytes hold as an `i32`: a value in the range
/// of `i32` equal to their unsigned value modulo 2^32.
pub open spec fn is_i32_of(v: int, b0: u8, b1: u8, b2: u8, b3: u8) -> bool {
    -0x8000_0000 <= v < 0x8000_0000 && (v - be_u32(b0, b1, b2, b3)) % 0x1_0000_0000 == 0
}

proof fn lemma_i16_reading(v: int, b0: u8, b1: u8)
    requires
        is_i16_of(v, b0, b1),
    ensures
        v == be_i16(b0, b1),
{
    let u = be_u16(b0, b1);
    assert(u == b0 * 256 + b1);
    assert(0 <= u < 0x1_0000);
    let w = be_i16(b0, b1);
    assert(w == u || w == u - 0x1_0000);
    assert(-0x8000 <= w < 0x8000);
    assert(v == w) by (nonlinear_arith)
        requires
            -0x8000 <= v < 0x8000,
            -0x8000 <= w < 0x8000,
            (v - u) % 0x1_0000 == 0,
            w == u || w == u - 0x1_0000,
    ;
}

proof fn lemma_i32_reading(v: int, b0: u8, b1: u8, b2: u8, b3: u8)
    requires
        is_i32_of(v, b0, b1, b2, b3),
    ensures
        v == be_i32(b0, b1, b2, b3),
{
    let u = be_u32(b0, b1, b2, b3);
    assert(u == ((b0 * 256 + b1) * 256 + b2) * 256 + b3);
    assert(0 <= u < 0x1_0000_0000);
    let w = be_i32(b0, b1, b2, b3);
    assert(w == u || w == u - 0x1_0000_0000);
    assert(-0x8000_0000 <= w < 0x8000_0000);
    assert(v == w) by (nonlinear_arith)
        requires
            -0x8000_0000 <= v < 0x8000_0000,
            -0x8000_0000 <= w < 0x8000_0000,
            (v - u) % 0x1_0000_0000 == 0,
            w == u || w == u - 0x1_0000_0000,
    ;
}

/// The values that the IMU decoder prints are the signed readings of their
/// payload bytes: `ax`, `ay`, `az` are the big-endian `i16` values of the
/// acceleration frame's byte pairs, `gx`, `gy` the big-endian `i32` values of
/// the gyro X/Y frame's two byte quadruples, and `gz` that of the gyro Z
/// frame's four bytes; each lies in its type's range, so a byte pattern with
/// the top bit set prints as a negative value.
pub proof fn lemma_imu_texts_print_signed_values(
    n: nat,
    a: Seq<u8>,
    g: Seq<u8>,
    z: Seq<u8>,
    ax: int,
    ay: int,
    az: int,
    gx: int,
    gy: int,
    gz: int,
)
    requires
        a.len() == 6,
        g.len() == 8,
        z.len() == 4,
        is_i16_of(ax, a[0], a[1]),
        is_i16_of(ay, a[2], a[3]),
        is_i16_of(az, a[4], a[5]),
        is_i32_of(gx, g[0], g[1], g[2], g[3]),
        is_i32_of(gy, g[4], g[5], g[6], g[7]),
        is_i32_of(gz, z[0], z[1], z[2], z[3]),
    ensures
        accel_text(n, a) == "IMU #"@ + decimal(n as int) + " \u{b7} ax="@ + decimal(ax)
            + " mg \u{b7} ay="@ + decimal(ay) + " mg \u{b7} az="@ + decimal(az) + " mg"@,
        gyro_xy_text(n, g) == "IMU #"@ + decimal(n as int) + " \u{b7} gx="@ + decimal(gx)
            + " mdps \u{b7} gy="@ + decimal(gy) + " mdps"@,
        gyro_z_text(n, z) == "IMU #"@ + decimal(n as int) + " \u{b7} gz="@ + decimal(gz)
            + " mdps"@,
{
    lemma_i16_reading(ax, a[0], a[1]);
    lemma_i16_reading(ay, a[2], a[3]);
    lemma_i16_reading(az, a[4], a[5]);
    lemma_i32_reading(gx, g[0], g[1], g[2], g[3]);
    lemma_i32_reading(gy, g[4], g[5], g[6], g[7]);
    lemma_i32_reading(gz, z[0], z[1], z[2], z[3]);
}

/// Every byte pattern has its signed reading: the readings above exist.
pub proof fn lemma_signed_readings_exist(b0: u8, b1: u8, b2: u8, b3: u8)
    ensures
        is_i16_of(be_i16(b0, b1), b0, b1),
        is_i32_of(be_i32(b0, b1, b2, b3), b0, b1, b2, b3),
{
    let u16v = be_u16(b0, b1);
    assert(u16v == b0 * 256 + b1);
    let u32v = be_u32(b0, b1, b2, b3);
    assert(u32v == ((b0 * 256 + b1) * 256 + b2) * 256 + b3);
    assert(0 <= u16v < 0x1_0000);
    assert(0 <= u32v < 0x1_0000_0000);
}

/// An annotation of the IMU firmware row.
pub open spec fn semantic(start: u64, end: u64, text: Seq<char>) -> AnnotationView {
    AnnotationView { start, end, row: "IMU firmware"@, text, value: None }
}

pub open spec fn accel_text(n: nat, d: Seq<u8>) -> Seq<char> {
    "IMU #"@ + decimal(n as int) + " \u{b7} ax="@ + decimal(be_i16(d[0], d[1]))
        + " mg \u{b7} ay="@ + decimal(be_i16(d[2], d[3])) + " mg \u{b7} az="@ + decimal(
        be_i16(d[4], d[5]),
    ) + " mg"@
}

pub open spec fn gyro_xy_text(n: nat, d: Seq<u8>) -> Seq<char> {
    "IMU #"@ + decimal(n as int) + " \u{b7} gx="@ + decimal(be_i32(d[0], d[1], d[2], d[3]))
        + " mdps \u{b7} gy="@ + decimal(be_i32(d[4], d[5], d[6], d[7])) + " mdps"@
}

pub open spec fn gyro_z_text(n: nat, d: Seq<u8>) -> Seq<char> {
    "IMU #"@ + decimal(n as int) + " \u{b7} gz="@ + decimal(be_i32(d[0], d[1], d[2], d[3]))
        + " mdps"@
}

/// The frames waiting for the rest of their sample, by slot, and the number
/// of samples emitted so far.
pub struct ImuState {
    pub pending: Seq<Option<FrameView>>,
    pub samples: nat,
}

pub open spec fn no_pending() -> Seq<Option<FrameView>> {
    seq![None, None, None]
}

/// One frame of the reassembly: frames of other identifiers and remote
/// frames are ignored; an IMU frame with a bad payload gives a warning (and
/// an acceleration frame of that kind drops the sample in progress); an
/// acceleration frame starts a new sample; a gyro frame joins a sample that
/// has started; when all three are there the sample is emitted as three
/// annotations.
pub open spec fn imu_step(st: ImuState, f: FrameView) -> (ImuState, Seq<AnnotationView>) {
    match imu_slot(f.id) {
        None => (st, Seq::empty()),
        Some((slot, length)) => if f.remote {
            (st, Seq::empty())
        } else if payload(f, length) is None {
            (
                if slot == 0 {
                    ImuState { pending: no_pending(), samples: st.samples }
                } else {
                    st
                },
                seq![invalid_frame_warning(f, slot, length)],
            )
        } else if slot == 0 {
            (ImuState { pending: seq![Some(f), None, None], samples: st.samples }, Seq::empty())
        } else if st.pending[0] is None {
            (st, Seq::empty())
        } else {
            let p = st.pending.update(slot as int, Some(f));
            if p[0] is None || p[1] is None || p[2] is None {
                (ImuState { pending: p, samples: st.samples }, Seq::empty())
            } else {
                let accel = p[0]->0;
                let gyro_xy = p[1]->0;
                let gyro_z = p[2]->0;
                match (payload(accel, 6), payload(gyro_xy, 8), payload(gyro_z, 4)) {
                    (Some(a), Some(g), Some(z)) => {
                        let n = st.samples + 1;
                        (
                            ImuState { pending: no_pending(), samples: n },
                            seq![
                                semantic(accel.start, accel.end, accel_text(n, a)),
                                semantic(gyro_xy.start, gyro_xy.end, gyro_xy_text(n, g)),
                                semantic(gyro_z.start, gyro_z.end, gyro_z_text(n, z)),
                            ],
                        )
                    },
                    _ => (ImuState { pending: no_pending(), samples: st.samples }, Seq::empty()),
                }
            }
        },
    }
}

/// The reassembly state and the annotations emitted after the given frames.
pub open spec fn imu_scan(frames: Seq<FrameView>) -> (ImuState, Seq<AnnotationView>)
    decreases frames.len(),
{
    if frames.len() == 0 {
        (ImuState { pending: no_pending(), samples: 0 }, Seq::empty())
    } else {
        let (st, out) = imu_scan(frames.drop_last());
        let (st2, more) = imu_step(st, frames.last());
        (st2, out + more)
    }
}

/// An annotation of a warning or error row.
pub open spec fn is_problem_row(row: Seq<char>) -> bool {
    contains_seq(ascii_lowercase(row), "warning"@) || contains_seq(
        ascii_lowercase(row),
        "error"@,
    )
}

pub open spec fn problem_rows() -> spec_fn(AnnotationView) -> bool {
    |a: AnnotationView| is_problem_row(a.row)
}

/// The annotations of the IMU firmware decoder before sorting: the warning
/// and error annotations of the CAN decoder, then the emitted ones.
pub open spec fn imu_annotations(anns: Seq<AnnotationView>) -> Seq<AnnotationView> {
    anns.filter(problem_rows()) + imu_scan(can_frames(anns)).1
}

// ---------------------------------------------------------------------------
// Executable reassembly
// ---------------------------------------------------------------------------

fn be_i16_exec(b0: u8, b1: u8) -> (r: i64)
    ensures
        r as int == be_i16(b0, b1),
{
    let u = (b0 as i64) * 256 + (b1 as i64);
    if u >= 0x8000 {
        u - 0x1_0000
    } else {
        u
    }
}

fn be_i32_exec(b0: u8, b1: u8, b2: u8, b3: u8) -> (r: i64)
    ensures
        r as int == be_i32(b0, b1, b2, b3),
{
    let u = (((b0 as i64) * 256 + (b1 as i64)) * 256 + (b2 as i64)) * 256 + (b3 as i64);
    if u >= 0x8000_0000 {
        u - 0x1_0000_0000
    } else {
        u
    }
}

fn imu_frame_name_exec(slot: usize) -> (r: String)
    ensures
        r@ == imu_frame_name(slot as nat),
{
    if slot == 0 {
        string_from("acceleration")
    } else if slot == 1 {
        string_from("gyro X/Y")
    } else {
        string_from("gyro Z")
    }
}

fn warning_for(frame: &CanFrame, slot: usize, length: usize) -> (r: Annotation)
    ensures
        r@ == invalid_frame_warning(frame@, slot as nat, length as nat),
{
    let mut t: Vec<char> = Vec::new();
    append_str(&mut t, "Invalid IMU firmware frame 0x");
    push_hex_upper_padded(&mut t, frame.id as u64, 3);
    append_str(&mut t, ": ");
    let name = imu_frame_name_exec(slot);
    let name_chars = chars_of(name.as_str());
    crate::text::append_chars(&mut t, name_chars.as_slice());
    append_str(&mut t, " requires ");
    crate::text::push_unsigned_decimal(&mut t, length as u64);
    append_str(&mut t, " data bytes");
    Annotation {
        start_bits: frame.start_bits,
        end_bits: frame.end_bits,
        row: string_from("Warnings"),
        text: string_of(t.as_slice()),
        value: None,
    }
}

fn semantic_annotation(start_bits: u64, end_bits: u64, text: &[char]) -> (r: Annotation)
    ensures
        r@ == semantic(start_bits, end_bits, text@),
{
    Annotation {
        start_bits,
        end_bits,
        row: string_from("IMU firmware"),
        text: string_of(text),
        value: None,
    }
}

fn accel_text_exec(n: u64, d: &Vec<u8>) -> (r: Vec<char>)
    requires
        d@.len() == 6,
    ensures
        r@ == accel_text(n as nat, d@),
{
    let mut t: Vec<char> = Vec::new();
    append_str(&mut t, "IMU #");
    crate::text::push_unsigned_decimal(&mut t, n);
    append_str(&mut t, " \u{b7} ax=");
    push_decimal(&mut t, be_i16_exec(d[0], d[1]));
    append_str(&mut t, " mg \u{b7} ay=");
    push_decimal(&mut t, be_i16_exec(d[2], d[3]));
    append_str(&mut t, " mg \u{b7} az=");
    push_decimal(&mut t, be_i16_exec(d[4], d[5]));
    append_str(&mut t, " mg");
    t
}

fn gyro_xy_text_exec(n: u64, d: &Vec<u8>) -> (r: Vec<char>)
    requires
        d@.len() == 8,
    ensures
        r@ == gyro_xy_text(n as nat, d@),
{
    let mut t: Vec<char> = Vec::new();
    append_str(&mut t, "IMU #");
    crate::text::push_unsigned_decimal(&mut t, n);
    append_str(&mut t, " \u{b7} gx=");
    push_decimal(&mut t, be_i32_exec(d[0], d[1], d[2], d[3]));
    append_str(&mut t, " mdps \u{b7} gy=");
    push_decimal(&mut t, be_i32_exec(d[4], d[5], d[6], d[7]));
    append_str(&mut t, " mdps");
    t
}

fn gyro_z_text_exec(n: u64, d: &Vec<u8>) -> (r: Vec<char>)
    requires
        d@.len() == 4,
    ensures
        r@ == gyro_z_text(n as nat, d@),
{
    let mut t: Vec<char> = Vec::new();
    append_str(&mut t, "IMU #");
    crate::text::push_unsigned_decimal(&mut t, n);
    append_str(&mut t, " \u{b7} gz=");
    push_decimal(&mut t, be_i32_exec(d[0], d[1], d[2], d[3]));
    append_str(&mut t, " mdps");
    t
}

pub open spec fn pending_view(p: Option<CanFrame>) -> Option<FrameView> {
    match p {
        Some(f) => Some(f@),
        None => None,
    }
}

/// The number of slots that hold a frame.
pub open spec fn pending_count(p: Seq<Option<FrameView>>) -> nat {
    (if p[0] is Some { 1nat } else { 0nat }) + (if p[1] is Some { 1nat } else { 0nat }) + (if p[2]
        is Some {
        1nat
    } else {
        0nat
    })
}

/// Each emitted sample used three frames of its own, so three times the
/// number of samples, plus the frames still waiting, is at most the number
/// of frames read.
pub proof fn lemma_imu_scan_samples(frames: Seq<FrameView>)
    ensures
        imu_scan(frames).0.pending.len() == 3,
        3 * imu_scan(frames).0.samples + pending_count(imu_scan(frames).0.pending)
            <= frames.len(),
        imu_scan(frames).0.pending[1] is Some ==> imu_scan(frames).0.pending[0] is Some,
        imu_scan(frames).0.pending[2] is Some ==> imu_scan(frames).0.pending[0] is Some,
    decreases frames.len(),
{
    if frames.len() > 0 {
        lemma_imu_scan_samples(frames.drop_last());
    }
}

/// Whether a frame takes part in the reassembly: a data frame with one of the
/// three IMU identifiers.
pub open spec fn is_imu_data_frame(f: FrameView) -> bool {
    imu_slot(f.id) is Some && !f.remote
}

pub open spec fn imu_data_frames() -> spec_fn(FrameView) -> bool {
    |f: FrameView| is_imu_data_frame(f)
}

/// Frames of other identifiers and remote frames are ignored: the
/// reassembly of all the frames is that of their IMU data frames alone.
pub proof fn lemma_non_imu_frames_ignored(frames: Seq<FrameView>)
    ensures
        imu_scan(frames) == imu_scan(frames.filter(imu_data_frames())),
    decreases frames.len(),
{
    if frames.len() > 0 {
        let init = frames.drop_last();
        let f = frames.last();
        lemma_non_imu_frames_ignored(init);
        assert(frames =~= init.push(f));
        init.lemma_filter_push(f, imu_data_frames());
        let kept = init.filter(imu_data_frames());
        if is_imu_data_frame(f) {
            assert(kept.push(f).drop_last() =~= kept);
            assert(kept.push(f).last() == f);
        } else {
            let (st, out) = imu_scan(init);
            assert(out + Seq::<AnnotationView>::empty() =~= out);
        }
    }
}

/// Annotations that describe only CAN frames of other identifiers: they
/// start with an identifier, none of their identifiers is an IMU one, and
/// none of them is on a warning or error row.
pub open spec fn only_other_frames(b: Seq<AnnotationView>) -> bool {
    &&& b.len() > 0
    &&& parse_identifier_spec(b[0].text) is Some
    &&& forall|i: int|
        0 <= i < b.len() ==> match parse_identifier_spec(#[trigger] b[i].text) {
            Some(id) => imu_slot(id) is None,
            None => true,
        }
    &&& forall|i: int| 0 <= i < b.len() ==> !is_problem_row(#[trigger] b[i].row)
}

/// A frame whose identifier is not an IMU one.
pub open spec fn is_other_frame(f: FrameView) -> bool {
    imu_slot(f.id) is None
}

/// Reading the first `k` annotations of `b` after `a`: the frames of `a`
/// come first, then only frames of other identifiers, and the open frame is
/// one of those.
proof fn lemma_can_scan_other_frames(a: Seq<AnnotationView>, b: Seq<AnnotationView>, k: int)
    requires
        only_other_frames(b),
        1 <= k <= b.len(),
    ensures
        ({
            let (fr, cur) = can_scan(a + b.take(k));
            &&& fr.len() >= can_frames(a).len()
            &&& fr.take(can_frames(a).len() as int) == can_frames(a)
            &&& forall|j: int| can_frames(a).len() <= j < fr.len() ==> is_other_frame(#[trigger] fr[j])
            &&& cur matches Some(f) && is_other_frame(f)
        }),
    decreases k,
{
    let s = a + b.take(k);
    assert(s.drop_last() =~= a + b.take(k - 1));
    assert(s.last() == b[k - 1]);
    let n = can_frames(a).len();
    if k == 1 {
        assert(a + b.take(0) =~= a);
        let id = parse_identifier_spec(b[0].text)->0;
        assert(match parse_identifier_spec(b[0].text) {
            Some(id) => imu_slot(id) is None,
            None => true,
        });
        let (fr, cur) = can_scan(s);
        assert(fr =~= can_frames(a));
        assert(fr.take(n as int) =~= fr);
    } else {
        lemma_can_scan_other_frames(a, b, k - 1);
        let (fr0, cur0) = can_scan(a + b.take(k - 1));
        let (fr, cur) = can_scan(s);
        let x = b[k - 1];
        assert(match parse_identifier_spec(b[k - 1].text) {
            Some(id) => imu_slot(id) is None,
            None => true,
        });
        match parse_identifier_spec(x.text) {
            Some(id) => {
                assert(fr == fr0.push(cur0->0));
                assert(fr.take(n as int) =~= fr0.take(n as int));
                assert forall|j: int| n <= j < fr.len() implies is_other_frame(#[trigger] fr[j]) by {
                    if j < fr0.len() {
                        assert(fr[j] == fr0[j]);
                    }
                }
            },
            None => {
                assert(fr == fr0);
            },
        }
    }
}

/// A filter that keeps nothing of a sequence none of whose elements it
/// keeps.
proof fn lemma_filter_keeps_none<A>(s: Seq<A>, p: spec_fn(A) -> bool)
    requires
        forall|i: int| 0 <= i < s.len() ==> !p(#[trigger] s[i]),
    ensures
        s.filter(p) == Seq::<A>::empty(),
{
    if s.filter(p).len() > 0 {
        let e = s.filter(p)[0];
        s.lemma_filter_pred(p, 0);
        assert(s.filter(p).contains(e));
        s.lemma_filter_contains_rev(p, e);
    }
    assert(s.filter(p) =~= Seq::<A>::empty());
}

/// Non-IMU CAN frames are ignored: annotations that describe only frames of
/// other identifiers, after any annotations, change nothing of what the IMU
/// firmware decoder yields.
pub proof fn lemma_other_frames_ignored(a: Seq<AnnotationView>, b: Seq<AnnotationView>)
    requires
        only_other_frames(b),
    ensures
        imu_annotations(a + b) == imu_annotations(a),
{
    lemma_can_scan_other_frames(a, b, b.len() as int);
    assert(b.take(b.len() as int) =~= b);
    let (fr, cur) = can_scan(a + b);
    let x = can_frames(a);
    let n = x.len();
    let g = fr.skip(n as int).push(cur->0);
    assert(can_frames(a + b) =~= x + g) by {
        assert(fr =~= fr.take(n as int) + fr.skip(n as int));
    }
    assert forall|i: int| 0 <= i < g.len() implies !imu_data_frames()(#[trigger] g[i]) by {
        if i < g.len() - 1 {
            assert(g[i] == fr[n + i]);
        }
    }
    lemma_filter_keeps_none(g, imu_data_frames());
    Seq::filter_distributes_over_add(x, g, imu_data_frames());
    assert(x.filter(imu_data_frames()) + Seq::<FrameView>::empty() =~= x.filter(imu_data_frames()));
    lemma_non_imu_frames_ignored(x + g);
    lemma_non_imu_frames_ignored(x);
    assert forall|i: int| 0 <= i < b.len() implies !problem_rows()(#[trigger] b[i]) by {
        assert(!is_problem_row(b[i].row));
    }
    lemma_filter_keeps_none(b, problem_rows());
    Seq::filter_distributes_over_add(a, b, problem_rows());
    assert(a.filter(problem_rows()) + Seq::<AnnotationView>::empty() =~= a.filter(problem_rows()));
}

/// The same, for the decoder's results: the IMU firmware annotations of `a`
/// followed by such annotations are those of `a` alone.
pub proof fn lemma_decode_ignores_other_frames(
    a: Seq<AnnotationView>,
    b: Seq<AnnotationView>,
    with_others: Seq<AnnotationView>,
    alone: Seq<AnnotationView>,
)
    requires
        only_other_frames(b),
        is_stable_sort_by_start(with_others, imu_annotations(a + b)),
        is_stable_sort_by_start(alone, imu_annotations(a)),
    ensures
        with_others == alone,
{
    lemma_other_frames_ignored(a, b);
    let input = imu_annotations(a);
    assert forall|k: int| #[trigger] with_others.filter(starts_at(k)) == alone.filter(
        starts_at(k),
    ) by {
        assert(with_others.filter(starts_at(k)) == input.filter(starts_at(k)));
        assert(alone.filter(starts_at(k)) == input.filter(starts_at(k)));
    }
    lemma_sorted_by_start_unique(with_others, alone);
}

/// The CAN frames can be no more than the annotations they come from.
pub proof fn lemma_can_scan_len(anns: Seq<AnnotationView>)
    ensures
        crate::can::can_scan(anns).0.len() + (if crate::can::can_scan(anns).1 is Some {
            1int
        } else {
            0int
        }) <= anns.len(),
    decreases anns.len(),
{
    if anns.len() > 0 {
        lemma_can_scan_len(anns.drop_last());
    }
}

/// The executable reassembly state.
pub struct ImuReassembly {
    pub p0: Option<CanFrame>,
    pub p1: Option<CanFrame>,
    pub p2: Option<CanFrame>,
    pub samples: u64,
}

impl View for ImuReassembly {
    type V = ImuState;

    open spec fn view(&self) -> ImuState {
        ImuState {
            pending: seq![pending_view(self.p0), pending_view(self.p1), pending_view(self.p2)],
            samples: self.samples as nat,
        }
    }
}

impl ImuReassembly {
    fn emit(
        &mut self,
        accel: CanFrame,
        gyro_xy: CanFrame,
        gyro_z: CanFrame,
        out: &mut Vec<Annotation>,
    )
        requires
            old(self).samples < u64::MAX,
        ensures
            ({
                let st = ImuState { pending: no_pending(), samples: old(self)@.samples };
                match (payload(accel@, 6), payload(gyro_xy@, 8), payload(gyro_z@, 4)) {
                    (Some(a), Some(g), Some(z)) => {
                        let n = old(self)@.samples + 1;
                        &&& final(self)@ == ImuState { pending: no_pending(), samples: n }
                        &&& views(final(out)@) == views(old(out)@) + seq![
                            semantic(accel@.start, accel@.end, accel_text(n, a)),
                            semantic(gyro_xy@.start, gyro_xy@.end, gyro_xy_text(n, g)),
                            semantic(gyro_z@.start, gyro_z@.end, gyro_z_text(n, z)),
                        ]
                    },
                    _ => final(self)@ == st && views(final(out)@) == views(old(out)@),
                }
            }),
    {
        self.p0 = None;
        self.p1 = None;
        self.p2 = None;
        assert(self@.pending =~= no_pending());
        match (frame_payload(&accel, 6), frame_payload(&gyro_xy, 8), frame_payload(&gyro_z, 4)) {
            (Some(ad), Some(gd), Some(zd)) => {
                self.samples = self.samples + 1;
                let n = self.samples;
                let t0 = accel_text_exec(n, &ad);
                let t1 = gyro_xy_text_exec(n, &gd);
                let t2 = gyro_z_text_exec(n, &zd);
                let ghost before = out@;
                out.push(semantic_annotation(accel.start_bits, accel.end_bits, t0.as_slice()));
                out.push(
                    semantic_annotation(gyro_xy.start_bits, gyro_xy.end_bits, t1.as_slice()),
                );
                out.push(semantic_annotation(gyro_z.start_bits, gyro_z.end_bits, t2.as_slice()));
                assert(views(out@) =~= views(before) + seq![
                    semantic(accel@.start, accel@.end, t0@),
                    semantic(gyro_xy@.start, gyro_xy@.end, t1@),
                    semantic(gyro_z@.start, gyro_z@.end, t2@),
                ]);
            },
            _ => {},
        }
    }

    /// Reads one frame, as `imu_step` says, appending what it emits.
    pub fn step(&mut self, frame: CanFrame, out: &mut Vec<Annotation>)
        requires
            old(self).samples < u64::MAX,
        ensures
            final(self)@ == imu_step(old(self)@, frame@).0,
            views(final(out)@) == views(old(out)@) + imu_step(old(self)@, frame@).1,
    {
        let ghost st = self@;
        let ghost f = frame@;
        let ghost before = out@;
        assert(views(before) + Seq::<AnnotationView>::empty() =~= views(before));
        let slot_info: Option<(usize, usize)> = if frame.id == 0x100 {
            Some((0, 6))
        } else if frame.id == 0x101 {
            Some((1, 8))
        } else if frame.id == 0x102 {
            Some((2, 4))
        } else {
            None
        };
        let (slot, length) = match slot_info {
            None => {
                return;
            },
            Some(x) => x,
        };
        if frame.remote {
            return;
        }
        match frame_payload(&frame, length) {
            None => {
                out.push(warning_for(&frame, slot, length));
                assert(views(out@) =~= views(before).push(
                    invalid_frame_warning(f, slot as nat, length as nat),
                ));
                if slot == 0 {
                    self.p0 = None;
                    self.p1 = None;
                    self.p2 = None;
                    assert(self@.pending =~= no_pending());
                }
                return;
            },
            Some(_) => {},
        }
        if slot == 0 {
            self.p0 = Some(frame);
            self.p1 = None;
            self.p2 = None;
            assert(self@.pending =~= seq![Some(f), None, None]);
            return;
        }
        if self.p0.is_none() {
            return;
        }
        if slot == 1 {
            self.p1 = Some(frame);
        } else {
            self.p2 = Some(frame);
        }
        assert(self@.pending =~= st.pending.update(slot as int, Some(f)));
        if self.p1.is_none() || self.p2.is_none() {
            return;
        }
        let accel = self.p0.take().unwrap();
        let gyro_xy = self.p1.take().unwrap();
        let gyro_z = self.p2.take().unwrap();
        self.emit(accel, gyro_xy, gyro_z, out);
    }
}

/// The IMU firmware annotations: the warnings and errors of the CAN decoder
/// and the reassembled IMU samples, sorted by start time.
pub fn decode_imu_firmware(annotations: &[Annotation]) -> (r: Vec<Annotation>)
    requires
        annotations@.len() <= 3 * (i32::MAX as int),
    ensures
        is_stable_sort_by_start(views(r@), imu_annotations(views(annotations@))),
{
    let ghost anns = views(annotations@);
    let mut decoded: Vec<Annotation> = Vec::new();
    assert(anns.take(0) =~= Seq::<AnnotationView>::empty());
    for i in 0..annotations.len()
        invariant
            anns == views(annotations@),
            views(decoded@) == anns.take(i as int).filter(problem_rows()),
    {
        let a = &annotations[i];
        proof {
            assert(anns.take(i + 1) =~= anns.take(i as int).push(a@));
            anns.take(i as int).lemma_filter_push(a@, problem_rows());
        }
        let row = chars_of(a.row.as_str());
        let lower = to_ascii_lowercase(row.as_slice());
        if contains_str(lower.as_slice(), "warning") || contains_str(lower.as_slice(), "error") {
            let ghost before = decoded@;
            decoded.push(a.duplicate());
            assert(views(decoded@) =~= views(before).push(a@));
        }
    }
    assert(anns.take(annotations@.len() as int) =~= anns);
    let ghost warnings = views(decoded@);
    let frames = collect_can_frames(annotations);
    let ghost fs = frames@;
    let ghost fv = frame_views(frames@);
    proof {
        lemma_can_scan_len(anns);
        assert(fv.len() <= anns.len());
    }
    let mut state = ImuReassembly { p0: None, p1: None, p2: None, samples: 0 };
    proof {
        assert(fv.take(0) =~= Seq::<FrameView>::empty());
        assert(no_pending() =~= seq![None::<FrameView>, None, None]);
    }
    for frame in it: frames.into_iter()
        invariant
            it.seq() == fs,
            fv == frame_views(fs),
            fv.len() <= 3 * (i32::MAX as int),
            imu_scan(fv.take(it.index() as int)).0 == state@,
            views(decoded@) == warnings + imu_scan(fv.take(it.index() as int)).1,
    {
        let ghost done = it.index() as int;
        let ghost f = frame@;
        proof {
            assert(fs[done] == frame);
            assert(fv[done] == f);
            assert(fv.take(done + 1).drop_last() =~= fv.take(done));
            assert(fv.take(done + 1).last() == f);
            lemma_imu_scan_samples(fv.take(done));
        }
        state.step(frame, &mut decoded);
        proof {
            assert(views(decoded@) =~= warnings + imu_scan(fv.take(done + 1)).1);
        }
    }
    proof {
        assert(fv.take(fv.len() as int) =~= fv);
    }
    sort_by_start(decoded)
}

/// The annotations that a decoder expression yields from the decoder's
/// annotations: an IMU firmware expression reassembles IMU samples from
/// them; any other expression keeps them as they are.
pub fn expression_annotations(expression: &str, annotations: Vec<Annotation>) -> (r: Vec<Annotation>)
    requires
        crate::decoder::imu_firmware_prefix().is_prefix_of(expression@) ==> annotations@.len() <= 3
            * (i32::MAX as int),
    ensures
        crate::decoder::imu_firmware_prefix().is_prefix_of(expression@) ==> is_stable_sort_by_start(
            views(r@),
            imu_annotations(views(annotations@)),
        ),
        !crate::decoder::imu_firmware_prefix().is_prefix_of(expression@) ==> r@ == annotations@,
{
    let e = chars_of(expression);
    if crate::text::starts_with_str(e.as_slice(), "imu_firmware:") {
        decode_imu_firmware(annotations.as_slice())
    } else {
        annotations
    }
}

} // verus!
