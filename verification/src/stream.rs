//! The live stream: the rolling two-channel window, the integrity counters,
//! the min/max envelope buckets of a view, and the lifecycle of the stream
//! worker.
use vstd::prelude::*;
use std::collections::VecDeque;
use crate::text::string_from;

verus! {

// ---------------------------------------------------------------------------
// The rolling window
// ---------------------------------------------------------------------------

/// The last `n` items of `s` (all of `s` when it is shorter).
pub open spec fn last_n<T>(s: Seq<T>, n: nat) -> Seq<T> {
    if s.len() <= n {
        s
    } else {
        s.skip(s.len() - n)
    }
}

/// A channel of the window after a chunk: emptied by a corrupt chunk; after a
/// gap (lost samples) only the newest `capacity` samples of the chunk;
/// otherwise the newest `capacity` samples of the window and the chunk.
pub open spec fn window_after<T>(
    window: Seq<T>,
    chunk: Seq<T>,
    capacity: nat,
    lost: bool,
    corrupt: bool,
) -> Seq<T> {
    if corrupt {
        Seq::empty()
    } else if lost {
        last_n(chunk, capacity)
    } else {
        last_n(window + chunk, capacity)
    }
}

/// Appending two chunks one after the other keeps the same samples as
/// appending them at once: the window is always the newest `capacity`
/// samples of the contiguous segment.
pub proof fn lemma_window_appends_compose<T>(window: Seq<T>, a: Seq<T>, b: Seq<T>, capacity: nat)
    ensures
        window_after(window_after(window, a, capacity, false, false), b, capacity, false, false)
            == window_after(window, a + b, capacity, false, false),
{
    let x = window + a;
    let y = x + b;
    assert(window + (a + b) =~= y);
    let kx: int = if x.len() <= capacity {
        0
    } else {
        x.len() - capacity
    };
    let first = last_n(x, capacity);
    assert(first =~= x.skip(kx));
    assert(first + b =~= y.skip(kx));
    let z = first + b;
    assert(last_n(z, capacity) =~= last_n(y, capacity)) by {
        if z.len() <= capacity {
            if y.len() <= capacity {
                assert(kx == 0);
                assert(y.skip(0) =~= y);
            } else {
                assert(kx == y.len() - capacity);
            }
        } else {
            assert(last_n(z, capacity) =~= y.skip(kx + (z.len() - capacity)));
        }
    }
}

/// After a gap nothing from before the gap is kept: the window starts
/// afresh with the chunk; a corrupt chunk leaves the window empty.
pub proof fn lemma_gap_starts_new_segment<T>(window: Seq<T>, chunk: Seq<T>, capacity: nat)
    ensures
        window_after(window, chunk, capacity, true, false) == window_after(
            Seq::<T>::empty(),
            chunk,
            capacity,
            false,
            false,
        ),
        window_after(window, chunk, capacity, true, true).len() == 0,
        window_after(window, chunk, capacity, false, true).len() == 0,
{
    assert(Seq::<T>::empty() + chunk =~= chunk);
}

/// The length of a channel after a chunk: none after a corrupt chunk,
/// otherwise what is kept of the segment, at most `capacity`. So two channels
/// of equal length that take chunks of equal length stay of equal length.
pub proof fn lemma_window_after_len<T>(
    window: Seq<T>,
    chunk: Seq<T>,
    capacity: nat,
    lost: bool,
    corrupt: bool,
)
    ensures
        window_after(window, chunk, capacity, lost, corrupt).len() == (if corrupt {
            0
        } else {
            let n = if lost {
                chunk.len()
            } else {
                window.len() + chunk.len()
            };
            if n <= capacity {
                n
            } else {
                capacity
            }
        }),
{
}

/// Appends a chunk to one channel of the window.
fn append_channel<T: Copy>(target: &mut VecDeque<T>, source: &Vec<T>, capacity: usize)
    requires
        old(target)@.len() + source@.len() <= usize::MAX,
    ensures
        final(target)@ == last_n(old(target)@ + source@, capacity as nat),
{
    let offset = source.len().saturating_sub(capacity);
    let overflow = (target.len() + source.len() - offset).saturating_sub(capacity);
    let drop = if overflow < target.len() {
        overflow
    } else {
        target.len()
    };
    let ghost old_t = target@;
    let mut k: usize = 0;
    while k < drop
        invariant
            k <= drop <= old_t.len(),
            target@ == old_t.skip(k as int),
        decreases drop - k,
    {
        target.pop_front();
        assert(old_t.skip(k as int).drop_first() =~= old_t.skip(k + 1));
        k = k + 1;
    }
    let mut i = offset;
    while i < source.len()
        invariant
            offset <= i <= source@.len(),
            target@ == old_t.skip(drop as int) + source@.subrange(offset as int, i as int),
        decreases source@.len() - i,
    {
        target.push_back(source[i]);
        assert(source@.subrange(offset as int, i + 1) =~= source@.subrange(
            offset as int,
            i as int,
        ).push(source@[i as int]));
        i = i + 1;
    }
    let ghost all = old_t + source@;
    assert(target@ =~= last_n(all, capacity as nat)) by {
        if all.len() <= capacity {
            assert(offset == 0 && drop == 0);
            assert(old_t.skip(0) =~= old_t);
            assert(source@.subrange(0, source@.len() as int) =~= source@);
        } else {
            assert(target@.len() == capacity);
            assert forall|j: int| 0 <= j < capacity implies #[trigger] target@[j] == all.skip(
                all.len() - capacity,
            )[j] by {
                if j < old_t.len() - drop {
                    assert(target@[j] == old_t[drop + j]);
                } else {
                    assert(target@[j] == source@[offset + j - (old_t.len() - drop)]);
                }
            }
        }
    }
}

/// Appends a chunk of both channels to the rolling window of at most
/// `capacity` samples per channel. A chunk after lost samples starts a new
/// contiguous segment; a corrupt chunk empties the window and is not kept.
pub fn append_window<T: Copy>(
    window: &mut [VecDeque<T>; 2],
    channels: &[Vec<T>],
    capacity: usize,
    lost: bool,
    corrupt: bool,
)
    requires
        channels@.len() == 2,
        old(window)[0]@.len() + channels@[0]@.len() <= usize::MAX,
        old(window)[1]@.len() + channels@[1]@.len() <= usize::MAX,
    ensures
        final(window)[0]@ == window_after(
            old(window)[0]@,
            channels@[0]@,
            capacity as nat,
            lost,
            corrupt,
        ),
        final(window)[1]@ == window_after(
            old(window)[1]@,
            channels@[1]@,
            capacity as nat,
            lost,
            corrupt,
        ),
        final(window)[0]@.len() <= capacity,
        final(window)[1]@.len() <= capacity,
{
    if lost || corrupt {
        window[0].clear();
        window[1].clear();
    }
    if corrupt {
        return;
    }
    let ghost w0 = window[0]@;
    let ghost w1 = window[1]@;
    append_channel(&mut window[0], &channels[0], capacity);
    append_channel(&mut window[1], &channels[1], capacity);
    proof {
        if lost {
            assert(w0 + channels@[0]@ =~= channels@[0]@);
            assert(w1 + channels@[1]@ =~= channels@[1]@);
        }
    }
}

// ---------------------------------------------------------------------------
// Stream state
// ---------------------------------------------------------------------------

/// What the stream worker shares with the views: whether it runs, where it
/// logs, the ADC resolution, the integrity counters, the rolling window of
/// both channels and its capacity, the last error, and the number of chunks
/// taken in. (The sample rate, a float, is kept beside it.)
pub struct StreamState<T> {
    pub running: bool,
    pub directory: String,
    pub bits: i32,
    /// Samples on the timeline: received and lost.
    pub total: u64,
    pub received: u64,
    pub lost: u64,
    pub corrupt: u64,
    pub channels: [VecDeque<T>; 2],
    pub capacity: usize,
    pub error: Option<String>,
    pub sequence: u64,
}

/// Where a chunk stands in the logs: the timeline position of its first
/// sample, its sample count, the samples lost and corrupt before it, and its
/// offset in the sample file.
#[derive(Debug)]
pub struct ChunkRecord {
    pub sample_start: u64,
    pub count: usize,
    pub lost_before: i32,
    pub corrupt: i32,
    pub file_sample_offset: u64,
}

impl<T> StreamState<T> {
    /// The timeline counts every received or lost sample; the two channels of
    /// the window are equally long and hold no more samples than the
    /// timeline, whose newest sample is theirs, nor more than the capacity,
    /// which is between 8 and 2,000,000 samples.
    pub open spec fn wf(&self) -> bool {
        &&& self.total == self.received + self.lost
        &&& self.channels[0]@.len() <= self.total
        &&& self.channels[0]@.len() == self.channels[1]@.len()
        &&& self.channels[0]@.len() <= self.capacity
        &&& 8 <= self.capacity <= 2_000_000
    }

    /// From `self` to `next` the counters of the timeline only grow.
    pub open spec fn counters_grow(&self, next: &Self) -> bool {
        &&& self.total <= next.total
        &&& self.received <= next.received
        &&& self.lost <= next.lost
        &&& self.corrupt <= next.corrupt
        &&& self.sequence <= next.sequence
    }

    /// A running stream with nothing received yet.
    pub fn new(directory: String, capacity: usize) -> (r: Self)
        requires
            8 <= capacity <= 2_000_000,
        ensures
            r.wf(),
            r.running,
            r.directory@ == directory@,
            r.bits == 0,
            r.total == 0 && r.received == 0 && r.lost == 0 && r.corrupt == 0,
            r.channels[0]@.len() == 0 && r.channels[1]@.len() == 0,
            r.capacity == capacity,
            r.error is None,
            r.sequence == 0,
    {
        StreamState {
            running: true,
            directory,
            bits: 0,
            total: 0,
            received: 0,
            lost: 0,
            corrupt: 0,
            channels: [VecDeque::new(), VecDeque::new()],
            capacity,
            error: None,
            sequence: 0,
        }
    }

    /// The timeline position of the oldest sample in the window.
    pub fn window_origin(&self) -> (r: u64)
        ensures
            r == (if self.total >= self.channels[0]@.len() {
                self.total - self.channels[0]@.len()
            } else {
                0
            }),
            self.wf() ==> r + self.channels[0]@.len() == self.total,
    {
        self.total.saturating_sub(self.channels[0].len() as u64)
    }

    /// Records what the configured device gives: its ADC resolution and the
    /// window capacity at the applied rate.
    pub fn set_acquisition(&mut self, bits: i32, capacity: usize)
        requires
            old(self).wf(),
            8 <= capacity <= 2_000_000,
            old(self).channels[0]@.len() <= capacity,
        ensures
            final(self).wf(),
            final(self).bits == bits,
            final(self).capacity == capacity,
            final(self).running == old(self).running,
            final(self).directory == old(self).directory,
            final(self).total == old(self).total,
            final(self).received == old(self).received,
            final(self).lost == old(self).lost,
            final(self).corrupt == old(self).corrupt,
            final(self).sequence == old(self).sequence,
            final(self).channels == old(self).channels,
            final(self).error == old(self).error,
            old(self).counters_grow(&*final(self)),
    {
        self.bits = bits;
        self.capacity = capacity;
    }

    /// Marks the worker stopped, with the error that ended it, if any.
    pub fn finish(&mut self, error: Option<String>)
        ensures
            !final(self).running,
            final(self).total == old(self).total,
            final(self).received == old(self).received,
            final(self).lost == old(self).lost,
            final(self).corrupt == old(self).corrupt,
            final(self).sequence == old(self).sequence,
            final(self).channels == old(self).channels,
            final(self).directory == old(self).directory,
            final(self).bits == old(self).bits,
            final(self).capacity == old(self).capacity,
            old(self).wf() ==> final(self).wf(),
            old(self).counters_grow(&*final(self)),
            match error {
                Some(e) => final(self).error == Some(e),
                None => final(self).error == old(self).error,
            },
    {
        self.running = false;
        match error {
            Some(e) => {
                self.error = Some(e);
            },
            None => {},
        }
    }
}

/// The counters of the timeline never decrease: growth from `a` to `b` and
/// from `b` to `c` is growth from `a` to `c`, so any run of the stream's
/// operations, each of which lets them only grow, lets them only grow.
pub proof fn lemma_counters_grow_transitive<T>(a: &StreamState<T>, b: &StreamState<T>, c: &StreamState<T>)
    requires
        a.counters_grow(b),
        b.counters_grow(c),
    ensures
        a.counters_grow(c),
{
}

/// Whether a chunk read from the device is taken in: it has samples, or it
/// reports lost or corrupt ones.
pub fn chunk_has_news(count: usize, samples_lost: i32, samples_corrupt: i32) -> (r: bool)
    ensures
        r == (count > 0 || samples_lost > 0 || samples_corrupt > 0),
{
    count > 0 || samples_lost > 0 || samples_corrupt > 0
}

impl<T: Copy> StreamState<T> {
    /// Takes in one chunk: the lost samples go on the timeline before it,
    /// the chunk after them; the counters grow, the window takes the chunk as
    /// `append_window` says, and the chunk count grows by one.
    pub fn ingest(&mut self, channels: &[Vec<T>], samples_lost: i32, samples_corrupt: i32) -> (r:
        ChunkRecord)
        requires
            old(self).wf(),
            channels@.len() == 2,
            channels@[0]@.len() == channels@[1]@.len(),
            samples_lost >= 0,
            samples_corrupt >= 0,
            old(self).total + samples_lost + channels@[0]@.len() <= u64::MAX,
            old(self).corrupt + samples_corrupt <= u64::MAX,
            old(self).sequence < u64::MAX,
            old(self).channels[0]@.len() + channels@[0]@.len() <= usize::MAX,
            old(self).channels[1]@.len() + channels@[1]@.len() <= usize::MAX,
        ensures
            final(self).wf(),
            old(self).counters_grow(&*final(self)),
            r.sample_start == old(self).total + samples_lost,
            r.count == channels@[0]@.len(),
            r.lost_before == samples_lost,
            r.corrupt == samples_corrupt,
            r.file_sample_offset == old(self).received,
            final(self).total == old(self).total + samples_lost + channels@[0]@.len(),
            final(self).received == old(self).received + channels@[0]@.len(),
            final(self).lost == old(self).lost + samples_lost,
            final(self).corrupt == old(self).corrupt + samples_corrupt,
            final(self).sequence == old(self).sequence + 1,
            final(self).capacity == old(self).capacity,
            final(self).running == old(self).running,
            final(self).bits == old(self).bits,
            final(self).directory == old(self).directory,
            final(self).error == old(self).error,
            final(self).channels[0]@.len() <= final(self).capacity,
            final(self).channels[1]@.len() <= final(self).capacity,
            final(self).channels[0]@ == window_after(
                old(self).channels[0]@,
                channels@[0]@,
                old(self).capacity as nat,
                samples_lost > 0,
                samples_corrupt > 0,
            ),
            final(self).channels[1]@ == window_after(
                old(self).channels[1]@,
                channels@[1]@,
                old(self).capacity as nat,
                samples_lost > 0,
                samples_corrupt > 0,
            ),
    {
        let count = channels[0].len();
        self.total = self.total + samples_lost as u64;
        let record = ChunkRecord {
            sample_start: self.total,
            count,
            lost_before: samples_lost,
            corrupt: samples_corrupt,
            file_sample_offset: self.received,
        };
        self.total = self.total + count as u64;
        self.received = self.received + count as u64;
        self.lost = self.lost + samples_lost as u64;
        self.corrupt = self.corrupt + samples_corrupt as u64;
        let capacity = self.capacity;
        append_window(
            &mut self.channels,
            channels,
            capacity,
            samples_lost > 0,
            samples_corrupt > 0,
        );
        self.sequence = self.sequence + 1;
        proof {
            lemma_window_after_len(
                old(self).channels[0]@,
                channels@[0]@,
                capacity as nat,
                samples_lost > 0,
                samples_corrupt > 0,
            );
            lemma_window_after_len(
                old(self).channels[1]@,
                channels@[1]@,
                capacity as nat,
                samples_lost > 0,
                samples_corrupt > 0,
            );
        }
        record
    }
}

// ---------------------------------------------------------------------------
// Envelope buckets
// ---------------------------------------------------------------------------

/// The number of display buckets actually used for a requested count: at
/// least 64, and never more than the 2,048 that a view may hold.
pub fn clamp_pixels(pixels: usize) -> (r: usize)
    ensures
        r == (if pixels < 64 {
            64
        } else if pixels > 2048 {
            2048
        } else {
            pixels
        }),
{
    if pixels < 64 {
        64
    } else if pixels > 2048 {
        2048
    } else {
        pixels
    }
}

/// `ceil(a / b)`.
pub open spec fn div_ceil(a: nat, b: nat) -> nat {
    ((a + b - 1) / (b as int)) as nat
}

/// The samples of a view and how they are grouped: from `first` to `end`,
/// in buckets of `step` samples (the last one may be shorter).
#[derive(Debug)]
pub struct EnvelopePlan {
    pub first: usize,
    pub end: usize,
    pub step: usize,
    /// The bounds of each bucket.
    pub buckets: Vec<(usize, usize)>,
}

/// The step of a view of `n` samples on `pixels` buckets: `ceil(n / pixels)`,
/// at least one.
pub open spec fn envelope_step(n: nat, pixels: nat) -> nat {
    if div_ceil(n, pixels) >= 1 {
        div_ceil(n, pixels)
    } else {
        1
    }
}

/// The buckets of a view: consecutive chunks of `step` samples from `first`
/// to `end`, the last one possibly shorter.
pub open spec fn envelope_buckets(first: nat, end: nat, step: nat) -> Seq<(usize, usize)> {
    Seq::new(
        div_ceil((end - first) as nat, step),
        |j: int|
            (
                (first + j * step) as usize,
                (if first + (j + 1) * step <= end {
                    first + (j + 1) * step
                } else {
                    end as int
                }) as usize,
            ),
    )
}

proof fn lemma_div_ceil_bounds(n: nat, step: nat)
    requires
        step >= 1,
    ensures
        div_ceil(n, step) * step >= n,
        div_ceil(n, step) * step < n + step,
{
    let q = div_ceil(n, step);
    assert(q * step >= n && q * step < n + step) by (nonlinear_arith)
        requires
            step >= 1,
            q == (n + step - 1) / (step as int),
    ;
}

proof fn lemma_step_bounds_count(n: nat, pixels: nat)
    requires
        pixels >= 1,
    ensures
        div_ceil(n, envelope_step(n, pixels)) <= pixels,
{
    let s = envelope_step(n, pixels);
    let q = div_ceil(n, s);
    lemma_div_ceil_bounds(n, pixels);
    lemma_div_ceil_bounds(n, s);
    if n == 0 {
        assert(q == 0) by (nonlinear_arith)
            requires
                q == (0 + s - 1) / (s as int),
                s >= 1,
        ;
    } else {
        // s = ceil(n / pixels) >= 1, so pixels * s >= n and q = ceil(n / s) <= pixels.
        assert(div_ceil(n, pixels) >= 1) by (nonlinear_arith)
            requires
                n >= 1,
                pixels >= 1,
                div_ceil(n, pixels) * pixels >= n,
        ;
        assert(s * pixels >= n) by (nonlinear_arith)
            requires
                s == div_ceil(n, pixels),
                div_ceil(n, pixels) * pixels >= n,
        ;
        assert(q <= pixels) by (nonlinear_arith)
            requires
                q == (n + s - 1) / (s as int),
                s * pixels >= n,
                s >= 1,
                pixels >= 1,
        ;
    }
}

/// The samples and buckets of an envelope over a window of `len` samples:
/// the view runs from sample `first_raw` to `last_raw` (taken from the time
/// range and rate), cut to the window; an empty or reversed range has no
/// buckets.
pub fn envelope_plan(len: usize, first_raw: usize, last_raw: usize, pixels: usize) -> (r:
    EnvelopePlan)
    requires
        pixels >= 1,
    ensures
        r.first == (if first_raw < len {
            first_raw
        } else {
            len
        }),
        r.end == (if last_raw < len && last_raw > r.first {
            last_raw
        } else if last_raw >= len {
            len
        } else {
            r.first
        }),
        r.first <= r.end <= len,
        r.step == envelope_step((r.end - r.first) as nat, pixels as nat),
        r.buckets@ == envelope_buckets(r.first as nat, r.end as nat, r.step as nat),
        r.buckets@.len() <= pixels,
{
    let first = if first_raw < len {
        first_raw
    } else {
        len
    };
    let last = if last_raw < len {
        last_raw
    } else {
        len
    };
    let end = if last > first {
        last
    } else {
        first
    };
    let n = end - first;
    proof {
        assert(n % pixels != 0 ==> n / pixels < n) by (nonlinear_arith)
            requires
                pixels >= 1,
        ;
    }
    let c = if n % pixels == 0 {
        n / pixels
    } else {
        n / pixels + 1
    };
    proof {
        assert(c == div_ceil(n as nat, pixels as nat)) by (nonlinear_arith)
            requires
                c == (if n % pixels == 0 {
                    (n / pixels) as int
                } else {
                    n / pixels + 1
                }),
                pixels >= 1,
        ;
    }
    let step = if c >= 1 {
        c
    } else {
        1
    };
    let ghost spec_buckets = envelope_buckets(first as nat, end as nat, step as nat);
    proof {
        assert(n % step != 0 ==> n / step < n) by (nonlinear_arith)
            requires
                step >= 1,
        ;
    }
    let count = if n % step == 0 {
        n / step
    } else {
        n / step + 1
    };
    proof {
        assert(count == div_ceil(n as nat, step as nat)) by (nonlinear_arith)
            requires
                count == (if n % step == 0 {
                    (n / step) as int
                } else {
                    n / step + 1
                }),
                step >= 1,
        ;
        lemma_div_ceil_bounds(n as nat, step as nat);
    }
    let mut buckets: Vec<(usize, usize)> = Vec::new();
    let mut start = first;
    assert(first + 0 * step == first);
    assert(spec_buckets.take(0) =~= Seq::<(usize, usize)>::empty());
    for j in 0..count
        invariant
            step >= 1,
            first <= end,
            n == end - first,
            count == div_ceil(n as nat, step as nat),
            count * step >= n,
            count * step < n + step,
            spec_buckets == envelope_buckets(first as nat, end as nat, step as nat),
            j < count ==> start == first + j * step,
            buckets@ == spec_buckets.take(j as int),
    {
        proof {
            assert(j * step < n) by (nonlinear_arith)
                requires
                    j < count,
                    count * step < n + step,
                    step >= 1,
            ;
            assert((j + 1) * step == j * step + step) by (nonlinear_arith);
            if j + 1 < count {
                assert((j + 1) * step < n) by (nonlinear_arith)
                    requires
                        j + 1 < count,
                        count * step < n + step,
                        step >= 1,
                ;
            }
        }
        let stop = if end - start > step {
            start + step
        } else {
            end
        };
        buckets.push((start, stop));
        assert(buckets@ =~= spec_buckets.take(j + 1));
        start = stop;
    }
    assert(buckets@ =~= spec_buckets);
    proof {
        lemma_step_bounds_count(n as nat, pixels as nat);
    }
    EnvelopePlan { first, end, step, buckets }
}

/// The buckets of a view cover its samples exactly, in order and without
/// overlap: the first starts at `first`, each ends where the next starts, the
/// last ends at `end`; none is empty and none holds more than `step`
/// samples. So every sample of the view, a pulse of a single sample too,
/// falls in exactly one bucket.
pub proof fn lemma_envelope_buckets_partition(first: nat, end: nat, step: nat)
    requires
        first <= end <= usize::MAX,
        step >= 1,
    ensures
        envelope_buckets(first, end, step).len() == 0 <==> first == end,
        envelope_buckets(first, end, step).len() > 0 ==> envelope_buckets(first, end, step)[0].0
            == first,
        envelope_buckets(first, end, step).len() > 0 ==> envelope_buckets(first, end, step)[
            envelope_buckets(first, end, step).len() - 1].1 == end,
        forall|j: int|
            0 <= j < envelope_buckets(first, end, step).len() ==> {
                let b = #[trigger] envelope_buckets(first, end, step)[j];
                &&& b.0 < b.1
                &&& b.1 - b.0 <= step
                &&& first <= b.0
                &&& b.1 <= end
            },
        forall|j: int|
            0 <= j < envelope_buckets(first, end, step).len() - 1 ==> (
            #[trigger] envelope_buckets(first, end, step)[j]).1 == envelope_buckets(
                first,
                end,
                step,
            )[j + 1].0,
{
    let n = (end - first) as nat;
    let c = div_ceil(n, step);
    let b = envelope_buckets(first, end, step);
    lemma_div_ceil_bounds(n, step);
    assert(b.len() == c);
    if n == 0 {
        assert(c == 0) by (nonlinear_arith)
            requires
                c == (0 + step - 1) / (step as int),
                step >= 1,
        ;
    } else {
        assert(c >= 1) by (nonlinear_arith)
            requires
                c * step >= n,
                n >= 1,
        ;
    }
    assert forall|j: int| 0 <= j < c implies {
        let x = #[trigger] b[j];
        &&& x.0 < x.1
        &&& x.1 - x.0 <= step
        &&& first <= x.0
        &&& x.1 <= end
    } by {
        assert(j * step < n && (j + 1) * step == j * step + step) by (nonlinear_arith)
            requires
                0 <= j < c,
                c * step < n + step,
                step >= 1,
        ;
    }
    assert forall|j: int| 0 <= j < c - 1 implies (#[trigger] b[j]).1 == b[j + 1].0 by {
        assert((j + 1) * step < n && (j + 1) * step == j * step + step) by (nonlinear_arith)
            requires
                0 <= j,
                j + 1 < c,
                c * step < n + step,
                step >= 1,
        ;
    }
    if c >= 1 {
        assert((c - 1 + 1) * step >= n);
    }
}

/// An envelope never has more buckets than were asked for.
pub proof fn lemma_envelope_bucket_count(first: nat, end: nat, pixels: nat)
    requires
        first <= end,
        pixels >= 1,
    ensures
        envelope_buckets(first, end, envelope_step((end - first) as nat, pixels)).len() <= pixels,
{
    lemma_step_bounds_count((end - first) as nat, pixels);
}

// ---------------------------------------------------------------------------
// The stream worker's lifecycle
// ---------------------------------------------------------------------------

/// The control of a stream: whether it was asked to stop, and the worker
/// that has not been waited for yet.
#[derive(Debug)]
pub struct StreamControl<W> {
    pub stop_requested: bool,
    pub worker: Option<W>,
}

/// Stops the stream, if there is one: asks it to stop and waits for its
/// worker, through `join`, which signals the worker, waits for it, and says
/// whether it ended normally. A worker that panicked gives an error.
pub fn stop_blocking<W, J: FnOnce(W) -> bool>(manager: &mut Option<StreamControl<W>>, join: J) -> (r:
    Result<(), String>)
    requires
        forall|w: W| join.requires((w,)),
    ensures
        match *old(manager) {
            None => r is Ok && *final(manager) is None,
            Some(c) => {
                &&& *final(manager) == Some(StreamControl::<W> { stop_requested: true, worker: None })
                &&& match c.worker {
                    None => r is Ok,
                    Some(w) => {
                        &&& r is Ok ==> join.ensures((w,), true)
                        &&& r matches Err(e) ==> join.ensures((w,), false) && e@
                            == "Stream worker panicked"@
                    },
                }
            },
        },
{
    match manager {
        None => Ok(()),
        Some(control) => {
            control.stop_requested = true;
            match control.worker.take() {
                None => Ok(()),
                Some(worker) => {
                    if join(worker) {
                        Ok(())
                    } else {
                        Err(string_from("Stream worker panicked"))
                    }
                },
            }
        },
    }
}

/// Clears the way for a new stream: refused while the previous worker still
/// runs; otherwise the previous stream, if any, is dropped after its
/// finished worker is joined through `join`.
pub fn admit_start<W, F: Fn(&W) -> bool, J: FnOnce(W) -> bool>(
    manager: &mut Option<StreamControl<W>>,
    is_finished: F,
    join: J,
) -> (r: Result<(), String>)
    requires
        forall|w: &W| is_finished.requires((w,)),
        forall|w: W| join.requires((w,)),
    ensures
        match *old(manager) {
            Some(c) => match c.worker {
                Some(w) => {
                    &&& r is Err ==> is_finished.ensures((&w,), false) && *final(manager) == *old(
                        manager,
                    )
                    &&& r is Ok ==> is_finished.ensures((&w,), true) && *final(manager) is None
                        && exists|ended: bool| join.ensures((w,), ended)
                },
                None => r is Ok && *final(manager) is None,
            },
            None => r is Ok && *final(manager) is None,
        },
        r matches Err(e) ==> e@ == "The stream is already running"@,
{
    let running = match manager {
        Some(control) => match &control.worker {
            Some(w) => !is_finished(w),
            None => false,
        },
        None => false,
    };
    if running {
        return Err(string_from("The stream is already running"));
    }
    match manager.take() {
        Some(mut previous) => {
            match previous.worker.take() {
                Some(worker) => {
                    let ghost w = worker;
                    let ended = join(worker);
                    assert(join.ensures((w,), ended));
                },
                None => {},
            }
        },
        None => {},
    }
    Ok(())
}

/// What the stream worker does with a read from the device.
#[derive(Debug)]
pub enum ChunkAction {
    /// Take the chunk in.
    TakeIn,
    /// Nothing came; wait a little and read again.
    Wait,
    /// Nothing came for too long; the stream ends with this error.
    Stall(String),
}

/// How long the device may deliver nothing before the stream ends: five
/// seconds, in nanoseconds.
pub const STALL_NANOS: u128 = 5_000_000_000;

/// How often the capture files are flushed: every second, in nanoseconds.
pub const FLUSH_NANOS: u128 = 1_000_000_000;

/// Decides what to do with a read of `count` samples that reported the given
/// lost and corrupt counts, `idle_nanos` after the last read that brought
/// news: take it in when it has news; otherwise end the stream when nothing
/// came for more than five seconds, and wait otherwise.
pub fn chunk_action(count: usize, samples_lost: i32, samples_corrupt: i32, idle_nanos: u128) -> (r:
    ChunkAction)
    ensures
        (r is TakeIn) == (count > 0 || samples_lost > 0 || samples_corrupt > 0),
        (r is Wait) == (!(count > 0 || samples_lost > 0 || samples_corrupt > 0) && idle_nanos
            <= STALL_NANOS),
        r matches ChunkAction::Stall(e) ==> !(count > 0 || samples_lost > 0 || samples_corrupt > 0)
            && idle_nanos > STALL_NANOS && e@ == "No samples received from AD3 for 5 seconds"@,
{
    if chunk_has_news(count, samples_lost, samples_corrupt) {
        ChunkAction::TakeIn
    } else if idle_nanos > STALL_NANOS {
        ChunkAction::Stall(string_from("No samples received from AD3 for 5 seconds"))
    } else {
        ChunkAction::Wait
    }
}

/// Whether the capture files are due to be flushed, `since_flush_nanos`
/// after the last flush: when more than a second has passed.
pub fn flush_due(since_flush_nanos: u128) -> (r: bool)
    ensures
        r == (since_flush_nanos > FLUSH_NANOS),
{
    since_flush_nanos > FLUSH_NANOS
}

/// Decoding needs exactly one configuration per channel.
pub fn check_decoder_config_count(count: usize) -> (r: Result<(), String>)
    ensures
        r is Ok <==> count == 2,
        r matches Err(e) ==> e@ == "Two decoder configurations are required"@,
{
    if count != 2 {
        Err(string_from("Two decoder configurations are required"))
    } else {
        Ok(())
    }
}

impl<T> StreamState<T> {
    /// Decoding needs samples in the window.
    pub fn check_decodable(&self) -> (r: Result<(), String>)
        ensures
            r is Ok <==> self.channels[0]@.len() > 0,
            r matches Err(e) ==> e@ == "Waiting for clean analog samples"@,
    {
        if self.channels[0].len() == 0 {
            Err(string_from("Waiting for clean analog samples"))
        } else {
            Ok(())
        }
    }
}

} // verus!
