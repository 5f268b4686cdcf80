//! Decoder annotations and their order in time.
//!
//! An annotation's times are seconds held as the bit patterns of `f64`
//! values (`f64::to_bits`); annotations are ordered by their start as
//! `f64::total_cmp` orders the start values.
use vstd::prelude::*;

verus! {

broadcast use vstd::seq_lib::group_filter_ensures;

/// One decoded annotation.
#[derive(Debug)]
pub struct Annotation {
    /// Start time in seconds, as the bits of an `f64`.
    pub start_bits: u64,
    /// End time in seconds, as the bits of an `f64`.
    pub end_bits: u64,
    pub row: String,
    pub text: String,
    pub value: Option<u32>,
}

/// The plain value of an annotation.
pub struct AnnotationView {
    pub start: u64,
    pub end: u64,
    pub row: Seq<char>,
    pub text: Seq<char>,
    pub value: Option<u32>,
}

impl View for Annotation {
    type V = AnnotationView;

    open spec fn view(&self) -> AnnotationView {
        AnnotationView {
            start: self.start_bits,
            end: self.end_bits,
            row: self.row@,
            text: self.text@,
            value: self.value,
        }
    }
}

impl Annotation {
    /// A copy of this annotation.
    pub fn duplicate(&self) -> (r: Annotation)
        ensures
            r@ == self@,
    {
        Annotation {
            start_bits: self.start_bits,
            end_bits: self.end_bits,
            row: self.row.clone(),
            text: self.text.clone(),
            value: self.value,
        }
    }
}

/// The views of a sequence of annotations.
pub open spec fn views(s: Seq<Annotation>) -> Seq<AnnotationView> {
    s.map_values(|a: Annotation| a@)
}

/// The position of an `f64`, given by its bits, in the order of
/// `f64::total_cmp`: the bits as a signed integer, with all bits but the
/// sign flipped when the sign is set.
pub open spec fn time_order(bits: u64) -> int {
    if bits < 0x8000_0000_0000_0000 {
        bits as int
    } else {
        0x7fff_ffff_ffff_ffff - bits as int
    }
}

/// `time_order` in machine arithmetic.
pub fn time_order_key(bits: u64) -> (r: i64)
    ensures
        r as int == time_order(bits),
{
    if bits < 0x8000_0000_0000_0000 {
        bits as i64
    } else {
        let m = bits - 0x8000_0000_0000_0000;
        -1 - (m as i64)
    }
}

/// Whether an annotation starts at the given position in time order.
pub open spec fn starts_at(k: int) -> spec_fn(AnnotationView) -> bool {
    |a: AnnotationView| time_order(a.start) == k
}

/// The annotations are in time order of their starts.
pub open spec fn sorted_by_start(s: Seq<AnnotationView>) -> bool {
    forall|i: int, j: int|
        0 <= i < j < s.len() ==> time_order(#[trigger] s[i].start) <= time_order(
            #[trigger] s[j].start,
        )
}

/// `out` is `input` sorted by start with a stable sort (`sort_by` with
/// `total_cmp` on the start): in start order, and annotations that start at
/// the same time keep their relative order.
pub open spec fn is_stable_sort_by_start(out: Seq<AnnotationView>, input: Seq<AnnotationView>) -> bool {
    &&& sorted_by_start(out)
    &&& forall|k: int| #[trigger] out.filter(starts_at(k)) == input.filter(starts_at(k))
}

/// An element of a sequence sorted by start starts no later than its last
/// element.
proof fn lemma_sorted_last_is_latest(s: Seq<AnnotationView>, e: AnnotationView)
    requires
        sorted_by_start(s),
        s.contains(e),
    ensures
        time_order(e.start) <= time_order(s.last().start),
{
    let i = choose|i: int| 0 <= i < s.len() && s[i] == e;
    if i < s.len() - 1 {
        assert(time_order(s[i].start) <= time_order(s[s.len() - 1].start));
    }
}

/// The key of the last element of a non-empty sorted sequence occurs in
/// any sequence with the same annotations at each start.
proof fn lemma_last_key_bound(x: Seq<AnnotationView>, y: Seq<AnnotationView>)
    requires
        x.len() > 0,
        sorted_by_start(y),
        forall|k: int| #[trigger] x.filter(starts_at(k)) == y.filter(starts_at(k)),
    ensures
        y.len() > 0,
        time_order(x.last().start) <= time_order(y.last().start),
{
    let k = time_order(x.last().start);
    let p = starts_at(k);
    x.lemma_filter_contains(p, x.len() - 1);
    assert(x.filter(p) == y.filter(p));
    assert(y.filter(p).len() > 0);
    y.lemma_filter_len(p);
    let e = y.filter(p)[0];
    y.lemma_filter_pred(p, 0);
    assert(y.filter(p).contains(e));
    y.lemma_filter_contains_rev(p, e);
    lemma_sorted_last_is_latest(y, e);
}

/// A stable sort by start has one outcome: two sequences sorted by start
/// with the same annotations, in the same order, at each start are equal.
pub proof fn lemma_sorted_by_start_unique(x: Seq<AnnotationView>, y: Seq<AnnotationView>)
    requires
        sorted_by_start(x),
        sorted_by_start(y),
        forall|k: int| #[trigger] x.filter(starts_at(k)) == y.filter(starts_at(k)),
    ensures
        x == y,
    decreases x.len() + y.len(),
{
    if x.len() == 0 && y.len() == 0 {
        assert(x =~= y);
    } else if x.len() == 0 {
        lemma_last_key_bound(y, x);
    } else if y.len() == 0 {
        lemma_last_key_bound(x, y);
    } else {
        lemma_last_key_bound(x, y);
        lemma_last_key_bound(y, x);
        let k = time_order(x.last().start);
        let xs = x.drop_last();
        let ys = y.drop_last();
        assert(x =~= xs.push(x.last()));
        assert(y =~= ys.push(y.last()));
        assert forall|j: int| #[trigger] xs.filter(starts_at(j)) == ys.filter(starts_at(j)) by {
            xs.lemma_filter_push(x.last(), starts_at(j));
            ys.lemma_filter_push(y.last(), starts_at(j));
            assert(x.filter(starts_at(j)) == y.filter(starts_at(j)));
            if j == k {
                let fx = xs.filter(starts_at(j));
                let fy = ys.filter(starts_at(j));
                assert(fx.push(x.last()) == fy.push(y.last()));
                assert(fx =~= fx.push(x.last()).drop_last());
                assert(fy =~= fy.push(y.last()).drop_last());
            }
        }
        assert(x.filter(starts_at(k)) == y.filter(starts_at(k)));
        xs.lemma_filter_push(x.last(), starts_at(k));
        ys.lemma_filter_push(y.last(), starts_at(k));
        assert(x.last() == x.filter(starts_at(k)).last());
        assert(y.last() == y.filter(starts_at(k)).last());
        lemma_sorted_by_start_unique(xs, ys);
    }
}

proof fn lemma_filter_none<A>(s: Seq<A>, p: spec_fn(A) -> bool)
    requires
        forall|i: int| 0 <= i < s.len() ==> !p(#[trigger] s[i]),
    ensures
        s.filter(p) == Seq::<A>::empty(),
    decreases s.len(),
{
    reveal(Seq::filter);
    if s.len() > 0 {
        lemma_filter_none(s.drop_last(), p);
    }
}

/// Merges two sequences sorted by start into one; at equal starts the
/// annotations of `l` come first, so that the merge is stable.
fn merge(l: Vec<Annotation>, r: Vec<Annotation>) -> (out: Vec<Annotation>)
    requires
        sorted_by_start(views(l@)),
        sorted_by_start(views(r@)),
    ensures
        sorted_by_start(views(out@)),
        out@.len() == l@.len() + r@.len(),
        forall|k: int| #[trigger] views(out@).filter(starts_at(k)) == views(l@).filter(starts_at(k))
            + views(r@).filter(starts_at(k)),
{
    let ghost lv = views(l@);
    let ghost rv = views(r@);
    let mut out: Vec<Annotation> = Vec::new();
    let mut i: usize = 0;
    let mut j: usize = 0;
    proof {
        assert forall|k: int| #[trigger] views(out@).filter(starts_at(k)) == lv.take(0).filter(
            starts_at(k),
        ) + rv.take(0).filter(starts_at(k)) by {
            reveal(Seq::filter);
            assert(views(out@) =~= Seq::<AnnotationView>::empty());
            assert(lv.take(0) =~= Seq::<AnnotationView>::empty());
            assert(rv.take(0) =~= Seq::<AnnotationView>::empty());
            assert(Seq::<AnnotationView>::empty() + Seq::<AnnotationView>::empty()
                =~= Seq::<AnnotationView>::empty());
        }
    }
    while i < l.len() || j < r.len()
        invariant
            lv == views(l@),
            rv == views(r@),
            sorted_by_start(lv),
            sorted_by_start(rv),
            i <= lv.len(),
            j <= rv.len(),
            out@.len() == i + j,
            sorted_by_start(views(out@)),
            forall|k: int| #[trigger] views(out@).filter(starts_at(k)) == lv.take(i as int).filter(
                starts_at(k),
            ) + rv.take(j as int).filter(starts_at(k)),
            out@.len() > 0 && i < lv.len() ==> time_order(views(out@).last().start) <= time_order(
                lv[i as int].start,
            ),
            out@.len() > 0 && j < rv.len() ==> time_order(views(out@).last().start) <= time_order(
                rv[j as int].start,
            ),
            i < lv.len() ==> forall|jj: int|
                0 <= jj < j ==> time_order(#[trigger] rv[jj].start) < time_order(lv[i as int].start),
        decreases lv.len() + rv.len() - i - j,
    {
        let ghost ov = views(out@);
        let take_left = j >= r.len() || (i < l.len() && time_order_key(l[i].start_bits)
            <= time_order_key(r[j].start_bits));
        if take_left {
            let x = l[i].duplicate();
            let ghost xv = x@;
            assert(xv == lv[i as int]);
            out.push(x);
            proof {
                assert(views(out@) =~= ov.push(xv));
                assert(lv.take(i + 1) =~= lv.take(i as int).push(xv));
                assert forall|k: int| #[trigger] views(out@).filter(starts_at(k)) == lv.take(
                    i + 1,
                ).filter(starts_at(k)) + rv.take(j as int).filter(starts_at(k)) by {
                    let f = starts_at(k);
                    ov.lemma_filter_push(xv, f);
                    lv.take(i as int).lemma_filter_push(xv, f);
                    if time_order(xv.start) == k {
                        assert forall|jj: int| 0 <= jj < rv.take(j as int).len() implies !f(
                            #[trigger] rv.take(j as int)[jj],
                        ) by {
                            assert(rv.take(j as int)[jj] == rv[jj]);
                        }
                        lemma_filter_none(rv.take(j as int), f);
                        assert((lv.take(i as int).filter(f) + Seq::<AnnotationView>::empty()).push(
                            xv,
                        ) =~= lv.take(i as int).filter(f).push(xv) + Seq::<AnnotationView>::empty());
                    }
                }
                assert forall|a: int, b: int| 0 <= a < b < views(out@).len() implies time_order(
                    #[trigger] views(out@)[a].start,
                ) <= time_order(#[trigger] views(out@)[b].start) by {
                    if b == ov.len() && a < ov.len() - 1 {
                        assert(time_order(ov[a].start) <= time_order(ov[ov.len() - 1].start));
                    }
                }
                if i + 1 < lv.len() {
                    assert(time_order(lv[i as int].start) <= time_order(lv[i + 1].start));
                }
            }
            i = i + 1;
        } else {
            let y = r[j].duplicate();
            let ghost yv = y@;
            assert(yv == rv[j as int]);
            out.push(y);
            proof {
                assert(views(out@) =~= ov.push(yv));
                assert(rv.take(j + 1) =~= rv.take(j as int).push(yv));
                assert forall|k: int| #[trigger] views(out@).filter(starts_at(k)) == lv.take(
                    i as int,
                ).filter(starts_at(k)) + rv.take(j + 1).filter(starts_at(k)) by {
                    let f = starts_at(k);
                    ov.lemma_filter_push(yv, f);
                    rv.take(j as int).lemma_filter_push(yv, f);
                    assert((lv.take(i as int).filter(f) + rv.take(j as int).filter(f)).push(yv)
                        =~= lv.take(i as int).filter(f) + rv.take(j as int).filter(f).push(yv));
                }
                assert forall|a: int, b: int| 0 <= a < b < views(out@).len() implies time_order(
                    #[trigger] views(out@)[a].start,
                ) <= time_order(#[trigger] views(out@)[b].start) by {
                    if b == ov.len() && a < ov.len() - 1 {
                        assert(time_order(ov[a].start) <= time_order(ov[ov.len() - 1].start));
                    }
                }
                if j + 1 < rv.len() {
                    assert(time_order(rv[j as int].start) <= time_order(rv[j + 1].start));
                }
            }
            j = j + 1;
        }
    }
    assert(lv.take(lv.len() as int) =~= lv);
    assert(rv.take(rv.len() as int) =~= rv);
    out
}

/// The annotations `v[lo..hi]`, sorted by start with a stable merge sort.
fn sort_range(v: &Vec<Annotation>, lo: usize, hi: usize) -> (out: Vec<Annotation>)
    requires
        lo <= hi <= v@.len(),
    ensures
        sorted_by_start(views(out@)),
        out@.len() == hi - lo,
        forall|k: int| #[trigger] views(out@).filter(starts_at(k)) == views(v@).subrange(
            lo as int,
            hi as int,
        ).filter(starts_at(k)),
    decreases hi - lo,
{
    let ghost all = views(v@);
    if hi - lo <= 1 {
        let mut out: Vec<Annotation> = Vec::new();
        if hi > lo {
            out.push(v[lo].duplicate());
        }
        proof {
            assert(views(out@) =~= all.subrange(lo as int, hi as int));
        }
        return out;
    }
    let mid = lo + (hi - lo) / 2;
    let a = sort_range(v, lo, mid);
    let b = sort_range(v, mid, hi);
    let out = merge(a, b);
    proof {
        assert forall|k: int| #[trigger] views(out@).filter(starts_at(k)) == all.subrange(
            lo as int,
            hi as int,
        ).filter(starts_at(k)) by {
            assert(all.subrange(lo as int, hi as int) =~= all.subrange(lo as int, mid as int)
                + all.subrange(mid as int, hi as int));
            Seq::filter_distributes_over_add(
                all.subrange(lo as int, mid as int),
                all.subrange(mid as int, hi as int),
                starts_at(k),
            );
        }
    }
    out
}

/// Sorts annotations by start, keeping the order of those that start
/// together.
pub fn sort_by_start(v: Vec<Annotation>) -> (r: Vec<Annotation>)
    ensures
        is_stable_sort_by_start(views(r@), views(v@)),
        r@.len() == v@.len(),
{
    let r = sort_range(&v, 0, v.len());
    assert(views(v@).subrange(0, v@.len() as int) =~= views(v@));
    r
}

} // verus!
