//! The curve: its handles, its sample buffer and the cache between them.
use vstd::prelude::*;

use crate::control::{Continuity, Handle, Validity};
use crate::planar::{interpolate, lerp, Planar};
use std::ops::Range;

verus! {

/// Why an edit or a lookup was refused.
#[derive(Clone, Copy, Debug, PartialEq, Eq, Structural)]
pub enum CurveError {
    /// An index, a range or a time addresses a handle or a segment that does
    /// not exist.
    IndexOutOfRange,
    /// A handle was to be removed from a curve that has none.
    EmptyCollection,
    /// A knot time has no integer part that can address a segment.
    InvalidTime,
}

/// A piecewise cubic Bezier curve controlled by [`Handle`]s, with a cache of
/// `detail` samples for every drawn segment.
///
/// Segment `i` runs from `handles[i]` to `handles[i + 1]`. The cache state of
/// a segment is kept by the index of the handle that starts it: its
/// [`Validity`], and whether it owns a block of `detail` points in the buffer.
/// The blocks stand in the buffer in segment order with no gaps.
pub struct Bezier<P> {
    handles: Vec<Handle<P>>,
    validity: Vec<Validity>,
    stored: Vec<bool>,
    detail: usize,
    points: Vec<P>,
}

/// What a curve holds, as mathematical values.
pub struct CurveView<P> {
    pub handles: Seq<Handle<P>>,
    pub validity: Seq<Validity>,
    pub stored: Seq<bool>,
    pub detail: nat,
    pub points: Seq<P>,
}

impl<P> View for Bezier<P> {
    type V = CurveView<P>;

    closed spec fn view(&self) -> CurveView<P> {
        CurveView {
            handles: self.handles@,
            validity: self.validity@,
            stored: self.stored@,
            detail: self.detail as nat,
            points: self.points@,
        }
    }
}

/// The number of segments between `n` handles.
pub open spec fn part_count(n: int) -> int {
    if n <= 0 { 0 } else { n - 1 }
}

/// Segment `i` is not drawn: its left handle cuts forward or its right handle
/// cuts backward.
pub open spec fn part_empty<P>(hs: Seq<Handle<P>>, i: int) -> bool {
    hs[i].cuts_forward() || hs[i + 1].cuts_backward()
}

/// The number of drawn segments among the first `n`.
pub open spec fn visible_count<P>(hs: Seq<Handle<P>>, n: int) -> nat
    decreases n,
{
    if n <= 0 {
        0
    } else {
        visible_count(hs, n - 1) + if part_empty(hs, n - 1) { 0nat } else { 1nat }
    }
}

/// The number of drawn segments of the whole curve.
pub open spec fn visible_parts<P>(hs: Seq<Handle<P>>) -> nat {
    visible_count(hs, part_count(hs.len() as int))
}

/// The number of `true` flags.
pub open spec fn count_true(s: Seq<bool>) -> nat
    decreases s.len(),
{
    if s.len() == 0 {
        0
    } else {
        count_true(s.drop_last()) + if s.last() { 1nat } else { 0nat }
    }
}

/// What an edit leaves of a segment's validity: a segment never sampled stays
/// so, any other becomes stale.
pub open spec fn staled(v: Validity) -> Validity {
    if v == Validity::Uninitialized { Validity::Uninitialized } else { Validity::Invalidated }
}

/// The `j`-th point of the control polygons of all segments: four per
/// segment, `position` and `after` of its left handle, then `before` and
/// `position` of its right handle.
pub open spec fn control_point<P>(hs: Seq<Handle<P>>, j: int) -> P {
    let i = j / 4;
    if j % 4 == 0 {
        hs[i].position
    } else if j % 4 == 1 {
        hs[i].after
    } else if j % 4 == 2 {
        hs[i + 1].before
    } else {
        hs[i + 1].position
    }
}

/// Sample `k` of `d` of the cubic with control points `p0 .. p3`: its
/// power-basis form `c0 + c1 t + c2 t^2 + c3 t^3` at `t = k / d`, with
/// `c0 = p0`, `c1 = 3 (p1 - p0)`, `c2 = 3 (p0 - 2 p1 + p2)` and
/// `c3 = p3 - p0 + 3 (p1 - p2)`.
pub open spec fn cubic_sample<P: Planar>(p0: P, p1: P, p2: P, p3: P, k: usize, d: usize) -> P {
    let c1 = p1.sub_spec(p0).ratio_spec(3, 1);
    let c2 = p0.sub_spec(p1.ratio_spec(2, 1)).add_spec(p2).ratio_spec(3, 1);
    let c3 = p3.sub_spec(p0).add_spec(p1.sub_spec(p2).ratio_spec(3, 1));
    p0.add_spec(c1.ratio_spec(k, d)).add_spec(c2.ratio_spec(k, d).ratio_spec(k, d)).add_spec(
        c3.ratio_spec(k, d).ratio_spec(k, d).ratio_spec(k, d),
    )
}

/// The `d` samples of the cubic with control points `p0 .. p3`, at
/// `t = k / d` for `k` in `0 .. d`.
pub open spec fn cubic_samples<P: Planar>(p0: P, p1: P, p2: P, p3: P, d: nat) -> Seq<P> {
    Seq::new(d, |k: int| cubic_sample(p0, p1, p2, p3, k as usize, d as usize))
}

/// The `d` samples of segment `i`: those of its control points
/// `handles[i].position`, `handles[i].after`, `handles[i + 1].before` and
/// `handles[i + 1].position`.
pub open spec fn part_samples<P: Planar>(hs: Seq<Handle<P>>, i: int, d: nat) -> Seq<P> {
    cubic_samples(hs[i].position, hs[i].after, hs[i + 1].before, hs[i + 1].position, d)
}

/// The samples of the drawn segments among the first `n`, in order: what a
/// calculation from scratch puts in the buffer.
pub open spec fn scratch_points<P: Planar>(hs: Seq<Handle<P>>, d: nat, n: int) -> Seq<P>
    decreases n,
{
    if n <= 0 {
        Seq::empty()
    } else if part_empty(hs, n - 1) {
        scratch_points(hs, d, n - 1)
    } else {
        scratch_points(hs, d, n - 1) + part_samples(hs, n - 1, d)
    }
}

impl<P: Planar> CurveView<P> {
    /// Every valid segment's block holds that segment's samples.
    pub open spec fn samples_current(&self) -> bool {
        forall|i: int| 0 <= i && i + 1 < self.handles.len() && self.validity[i] == Validity::Valid
            ==> #[trigger] self.block(i) == part_samples(self.handles, i, self.detail)
    }
}

/// `v` with the segment that ends at handle `start` (if any) marked stale.
pub open spec fn stale_before(v: Seq<Validity>, start: int) -> Seq<Validity> {
    if start > 0 { v.update(start - 1, staled(v[start - 1])) } else { v }
}

/// `new` is `old` with segment `k` split in two at parameter `t` by de
/// Casteljau subdivision: the left handle's `after` and the right handle's
/// `before` move onto the first and last interpolations, a new handle with no
/// enforced smoothness stands between them on the split point, and the split
/// segment is resampled on the next calculation.
pub open spec fn knot_inserted<P: Planar>(old: CurveView<P>, new: CurveView<P>, k: int, t: P::Scalar) -> bool {
    let n = old.handles.len() as int;
    let p0 = old.handles[k].position;
    let p1 = old.handles[k].after;
    let p2 = old.handles[k + 1].before;
    let p3 = old.handles[k + 1].position;
    let p01 = lerp(p0, p1, t);
    let p12 = lerp(p1, p2, t);
    let p23 = lerp(p2, p3, t);
    let p012 = lerp(p01, p12, t);
    let p123 = lerp(p12, p23, t);
    &&& 0 <= k < n - 1
    &&& new.handles.len() == n + 1
    &&& forall|j: int| 0 <= j < k ==> new.handles[j] == old.handles[j]
    &&& new.handles[k] == (Handle { after: p01, ..old.handles[k] })
    &&& new.handles[k + 1] == (Handle {
        before: p012,
        position: lerp(p012, p123, t),
        after: p123,
        continuity: Continuity::Broken,
    })
    &&& new.handles[k + 2] == (Handle { before: p23, ..old.handles[k + 1] })
    &&& forall|j: int| k + 2 < j <= n ==> new.handles[j] == old.handles[j - 1]
    &&& new.validity == old.validity.update(k, staled(old.validity[k])).insert(k + 1, Validity::Uninitialized)
    &&& new.stored == old.stored.insert(k + 1, false)
    &&& new.points == old.points
    &&& new.detail == old.detail
}

impl<P> CurveView<P> {
    /// Where the block of the segment that starts at handle `i` begins.
    pub open spec fn offset(&self, i: int) -> int {
        (self.detail * count_true(self.stored.subrange(0, i))) as int
    }

    /// The samples held for the segment that starts at handle `i`.
    pub open spec fn block(&self, i: int) -> Seq<P> {
        self.points.subrange(self.offset(i), self.offset(i) + self.detail)
    }

    /// The buffer holds one block of `detail` points for each stored segment,
    /// and every valid segment is stored.
    pub open spec fn wf(&self) -> bool {
        &&& self.validity.len() == self.handles.len()
        &&& self.stored.len() == self.handles.len()
        &&& self.points.len() == self.detail * count_true(self.stored)
        &&& forall|i: int| 0 <= i < self.handles.len() && self.validity[i] == Validity::Valid
            ==> self.stored[i]
    }

    /// Every drawn segment is valid and stored, and nothing else is stored.
    pub open spec fn settled(&self) -> bool {
        &&& forall|i: int| 0 <= i < part_count(self.handles.len() as int)
            ==> self.stored[i] == !part_empty(self.handles, i)
        &&& forall|i: int| 0 <= i < part_count(self.handles.len() as int)
            && !part_empty(self.handles, i) ==> self.validity[i] == Validity::Valid
        &&& self.handles.len() > 0 ==> !self.stored[self.handles.len() - 1]
    }

}

proof fn lemma_count_concat(a: Seq<bool>, b: Seq<bool>)
    ensures
        count_true(a + b) == count_true(a) + count_true(b),
    decreases b.len(),
{
    if b.len() > 0 {
        assert((a + b).drop_last() =~= a + b.drop_last());
        lemma_count_concat(a, b.drop_last());
    } else {
        assert(a + b =~= a);
    }
}

proof fn lemma_count_split(s: Seq<bool>, i: int)
    requires
        0 <= i <= s.len(),
    ensures
        count_true(s) == count_true(s.subrange(0, i)) + count_true(s.subrange(i, s.len() as int)),
{
    assert(s =~= s.subrange(0, i) + s.subrange(i, s.len() as int));
    lemma_count_concat(s.subrange(0, i), s.subrange(i, s.len() as int));
}

proof fn lemma_count_one(b: bool)
    ensures
        count_true(seq![b]) == if b { 1nat } else { 0nat },
{
    assert(seq![b].drop_last() =~= Seq::<bool>::empty());
    assert(count_true(Seq::<bool>::empty()) == 0);
    assert(seq![b].last() == b);
}

/// The count up to `i + 1` adds the flag at `i`, and no prefix counts more
/// than the whole.
proof fn lemma_count_step(s: Seq<bool>, i: int)
    requires
        0 <= i < s.len(),
    ensures
        count_true(s.subrange(0, i + 1)) == count_true(s.subrange(0, i)) + if s[i] { 1nat } else { 0nat },
        count_true(s.subrange(0, i + 1)) <= count_true(s),
{
    assert(s.subrange(0, i + 1).drop_last() =~= s.subrange(0, i));
    lemma_count_split(s, i + 1);
}


proof fn lemma_count_le(s: Seq<bool>)
    ensures
        count_true(s) <= s.len(),
    decreases s.len(),
{
    if s.len() > 0 {
        lemma_count_le(s.drop_last());
    }
}

/// Setting the flag at `i` changes the count by the flags' difference and
/// leaves the counts of shorter prefixes alone.
proof fn lemma_count_update(s: Seq<bool>, i: int, b: bool)
    requires
        0 <= i < s.len(),
    ensures
        count_true(s.update(i, b)) + (if s[i] { 1int } else { 0int })
            == count_true(s) + (if b { 1int } else { 0int }),
        s.update(i, b).subrange(0, i) == s.subrange(0, i),
{
    let t = s.update(i, b);
    lemma_count_split(s, i);
    lemma_count_split(t, i);
    let ss = s.subrange(i, s.len() as int);
    let ts = t.subrange(i, t.len() as int);
    assert(ss =~= seq![s[i]] + ss.subrange(1, ss.len() as int));
    assert(ts =~= seq![b] + ss.subrange(1, ss.len() as int));
    lemma_count_concat(seq![s[i]], ss.subrange(1, ss.len() as int));
    lemma_count_concat(seq![b], ss.subrange(1, ss.len() as int));
    lemma_count_one(s[i]);
    lemma_count_one(b);
    assert(t.subrange(0, i) =~= s.subrange(0, i));
}

/// Where the flags of the first `m` segments say which are drawn, they count
/// the drawn segments.
proof fn lemma_count_visible<P>(hs: Seq<Handle<P>>, s: Seq<bool>, m: int)
    requires
        0 <= m <= s.len(),
        m + 1 <= hs.len(),
        forall|j: int| 0 <= j < m ==> s[j] == !part_empty(hs, j),
    ensures
        count_true(s.subrange(0, m)) == visible_count(hs, m),
    decreases m,
{
    if m > 0 {
        lemma_count_visible(hs, s, m - 1);
        lemma_count_step(s, m - 1);
    } else {
        assert(s.subrange(0, 0) =~= Seq::<bool>::empty());
    }
}


/// Cutting `s[a..b]` out of the flags removes exactly its count.
proof fn lemma_count_cut(s: Seq<bool>, a: int, b: int)
    requires
        0 <= a <= b <= s.len(),
    ensures
        count_true(s.subrange(0, a) + s.subrange(b, s.len() as int)) + count_true(s.subrange(a, b))
            == count_true(s),
        count_true(s.subrange(0, b)) == count_true(s.subrange(0, a)) + count_true(s.subrange(a, b)),
{
    let l = s.len() as int;
    lemma_count_concat(s.subrange(0, a), s.subrange(b, l));
    lemma_count_split(s, b);
    lemma_count_split(s.subrange(0, b), a);
    assert(s.subrange(0, b).subrange(0, a) =~= s.subrange(0, a));
    assert(s.subrange(0, b).subrange(a, b) =~= s.subrange(a, b));
}

/// Flags that are all `false` count nothing.
proof fn lemma_count_none(s: Seq<bool>)
    requires
        forall|i: int| 0 <= i < s.len() ==> !s[i],
    ensures
        count_true(s) == 0,
    decreases s.len(),
{
    if s.len() > 0 {
        lemma_count_none(s.drop_last());
    }
}

/// Putting flags that are all `false` between `s[..a]` and `s[b..]`.
proof fn lemma_count_splice(s: Seq<bool>, a: int, b: int, mid: Seq<bool>)
    requires
        0 <= a <= b <= s.len(),
        forall|i: int| 0 <= i < mid.len() ==> !mid[i],
    ensures
        count_true(s.subrange(0, a) + mid + s.subrange(b, s.len() as int)) + count_true(s.subrange(a, b))
            == count_true(s),
{
    let l = s.len() as int;
    lemma_count_cut(s, a, b);
    lemma_count_none(mid);
    lemma_count_concat(s.subrange(0, a), mid);
    lemma_count_concat(s.subrange(0, a) + mid, s.subrange(b, l));
    lemma_count_concat(s.subrange(0, a), s.subrange(b, l));
}

/// Two sequences that agree from `x` and `y` on agree from `x + k` and
/// `y + k` on, and on the `k` elements before.
proof fn lemma_suffix_shift<T>(a: Seq<T>, x: int, b: Seq<T>, y: int, k: int)
    requires
        0 <= x,
        0 <= y <= b.len(),
        0 <= k,
        x + k <= a.len(),
        a.subrange(x, a.len() as int) == b.subrange(y, b.len() as int),
    ensures
        a.subrange(x + k, a.len() as int) == b.subrange(y + k, b.len() as int),
        a.subrange(x, x + k) == b.subrange(y, y + k),
{
    let sa = a.subrange(x, a.len() as int);
    let sb = b.subrange(y, b.len() as int);
    assert(sa.len() == sb.len());
    assert(a.subrange(x + k, a.len() as int) =~= sa.subrange(k, sa.len() as int));
    assert(b.subrange(y + k, b.len() as int) =~= sb.subrange(k, sb.len() as int));
    assert(a.subrange(x, x + k) =~= sa.subrange(0, k));
    assert(b.subrange(y, y + k) =~= sb.subrange(0, k));
}

/// In a consistent curve the block of a stored segment ends before the block
/// of any later segment begins.
proof fn lemma_block_before<P>(v: CurveView<P>, j: int, i: int)
    requires
        v.wf(),
        0 <= j < i <= v.handles.len(),
        v.stored[j],
    ensures
        v.offset(j) + v.detail <= v.offset(i),
        v.offset(i) <= v.points.len(),
{
    let s = v.stored;
    let d = v.detail;
    lemma_count_step(s, j);
    lemma_count_cut(s, j + 1, i);
    lemma_count_split(s, i);
    let cj = count_true(s.subrange(0, j));
    let ci = count_true(s.subrange(0, i));
    let t = count_true(s);
    assert(d * (cj + 1) <= d * ci) by (nonlinear_arith) requires cj + 1 <= ci;
    assert(d * (cj + 1) == d * cj + d) by (nonlinear_arith);
    assert(d * ci <= d * t) by (nonlinear_arith) requires ci <= t;
}

proof fn lemma_knot_prefix<P: Planar>(old: CurveView<P>, new: CurveView<P>, k: int, t: P::Scalar, m: int)
    requires
        knot_inserted(old, new, k, t),
        0 <= m <= k,
    ensures
        visible_count(new.handles, m) == visible_count(old.handles, m),
    decreases m,
{
    if m > 0 {
        lemma_knot_prefix(old, new, k, t, m - 1);
        assert(part_empty(new.handles, m - 1) == part_empty(old.handles, m - 1));
    }
}

proof fn lemma_knot_suffix<P: Planar>(old: CurveView<P>, new: CurveView<P>, k: int, t: P::Scalar, m: int)
    requires
        knot_inserted(old, new, k, t),
        !part_empty(old.handles, k),
        k + 1 <= m <= old.handles.len() - 1,
    ensures
        visible_count(new.handles, m + 1) == visible_count(old.handles, m) + 1,
    decreases m,
{
    if m == k + 1 {
        lemma_knot_prefix(old, new, k, t, k);
        assert(!part_empty(new.handles, k));
        assert(!part_empty(new.handles, k + 1));
        assert(visible_count(new.handles, k + 1) == visible_count(new.handles, k) + 1);
        assert(visible_count(new.handles, k + 2) == visible_count(new.handles, k + 1) + 1);
        assert(visible_count(old.handles, k + 1) == visible_count(old.handles, k) + 1);
    } else {
        lemma_knot_suffix(old, new, k, t, m - 1);
        assert(part_empty(new.handles, m) == part_empty(old.handles, m - 1));
        assert(visible_count(new.handles, m + 1) == visible_count(new.handles, m)
            + if part_empty(new.handles, m) { 0nat } else { 1nat });
        assert(visible_count(old.handles, m) == visible_count(old.handles, m - 1)
            + if part_empty(old.handles, m - 1) { 0nat } else { 1nat });
    }
}

/// Splitting a drawn segment by knot insertion replaces it with two drawn
/// segments and leaves every other segment as drawn or undrawn as it was: the
/// curve has exactly one drawn segment more, and so `detail` more samples
/// once calculated.
pub proof fn knot_insert_adds_one_drawn_part<P: Planar>(old: CurveView<P>, new: CurveView<P>, k: int, t: P::Scalar)
    requires
        knot_inserted(old, new, k, t),
        !part_empty(old.handles, k),
    ensures
        visible_parts(new.handles) == visible_parts(old.handles) + 1,
{
    lemma_knot_suffix(old, new, k, t, old.handles.len() - 1);
}

/// Inserting a `false` flag at `k` moves the counts of longer prefixes by
/// one place.
proof fn lemma_count_insert_prefix(s: Seq<bool>, k: int, i: int)
    requires
        0 <= k < i <= s.len() + 1,
    ensures
        count_true(s.insert(k, false).subrange(0, i)) == count_true(s.subrange(0, i - 1)),
{
    let t = s.insert(k, false);
    assert(t.subrange(0, i) =~= s.subrange(0, k) + seq![false] + s.subrange(k, i - 1));
    lemma_count_concat(s.subrange(0, k), seq![false]);
    lemma_count_concat(s.subrange(0, k) + seq![false], s.subrange(k, i - 1));
    lemma_count_one(false);
    assert(s.subrange(0, i - 1) =~= s.subrange(0, k) + s.subrange(k, i - 1));
    lemma_count_concat(s.subrange(0, k), s.subrange(k, i - 1));
}

/// Replacing the handles in `start..end` by `m` unsampled ones, with their
/// blocks cut out of the buffer, keeps the samples of every valid segment
/// current, where the segment that ends at `start` is not valid.
proof fn lemma_splice_samples<P: Planar>(mv: CurveView<P>, nv: CurveView<P>, start: int, end: int, m: int)
    requires
        mv.wf(),
        mv.samples_current(),
        0 <= start <= end <= mv.handles.len(),
        0 <= m,
        start > 0 ==> mv.validity[start - 1] != Validity::Valid,
        nv.handles.len() == mv.handles.len() - (end - start) + m,
        forall|i: int| 0 <= i < start ==> nv.handles[i] == mv.handles[i],
        forall|i: int| start + m <= i < nv.handles.len() ==> nv.handles[i] == mv.handles[i + (end - start) - m],
        nv.validity == mv.validity.subrange(0, start) + Seq::new(m as nat, |j: int| Validity::Uninitialized)
            + mv.validity.subrange(end, mv.validity.len() as int),
        nv.stored == mv.stored.subrange(0, start) + Seq::new(m as nat, |j: int| false)
            + mv.stored.subrange(end, mv.stored.len() as int),
        nv.points == mv.points.subrange(0, mv.offset(start))
            + mv.points.subrange(mv.offset(end), mv.points.len() as int),
        nv.detail == mv.detail,
    ensures
        nv.samples_current(),
{
    let s = mv.stored;
    let d = mv.detail;
    let l = s.len() as int;
    let a = mv.offset(start);
    let b = mv.offset(end);
    let mid = Seq::new(m as nat, |j: int| false);
    let ca = count_true(s.subrange(0, start));
    let cb = count_true(s.subrange(0, end));
    lemma_count_cut(s, start, end);
    lemma_count_split(s, end);
    lemma_count_none(mid);
    assert forall|i: int| 0 <= i && i + 1 < nv.handles.len() && nv.validity[i] == Validity::Valid
        implies #[trigger] nv.block(i) == part_samples(nv.handles, i, nv.detail) by {
        if i < start {
            assert(mv.validity[i] == Validity::Valid);
            assert(nv.stored.subrange(0, i) =~= s.subrange(0, i));
            lemma_block_before(mv, i, start);
            assert(nv.block(i) =~= mv.block(i));
        } else {
            let j = i + (end - start) - m;
            assert(i >= start + m);
            assert(mv.validity[j] == Validity::Valid);
            let ce = count_true(s.subrange(end, j));
            assert(nv.stored.subrange(0, i) =~= s.subrange(0, start) + mid + s.subrange(end, j));
            lemma_count_concat(s.subrange(0, start), mid);
            lemma_count_concat(s.subrange(0, start) + mid, s.subrange(end, j));
            lemma_count_cut(s, end, j);
            assert(d * (ca + ce) == d * ca + d * ce) by (nonlinear_arith);
            assert(d * (cb + ce) == d * cb + d * ce) by (nonlinear_arith);
            lemma_block_before(mv, j, l);
            assert(d * ca <= d * cb) by (nonlinear_arith) requires ca <= cb;
            assert(nv.offset(i) == a + d * ce);
            assert(mv.offset(j) == b + d * ce);
            assert(a <= b);
            assert(s.subrange(0, l) =~= s);
            assert(nv.points.len() == a + (mv.points.len() - b));
            assert forall|t: int| 0 <= t < d implies #[trigger] nv.block(i)[t] == mv.block(j)[t] by {
                assert(nv.points[a + d * ce + t] == mv.points[b + d * ce + t]);
            }
            assert(nv.block(i) =~= mv.block(j));
        }
    }
}

/// In a settled curve whose drawn segments hold their samples, the buffer
/// up to the block of segment `m` is the scratch calculation of the first `m`
/// segments.
proof fn lemma_scratch_prefix<P: Planar>(v: CurveView<P>, m: int)
    requires
        v.wf(),
        v.settled(),
        0 <= m <= part_count(v.handles.len() as int),
        forall|i: int| 0 <= i < part_count(v.handles.len() as int) && !part_empty(v.handles, i)
            ==> #[trigger] v.block(i) == part_samples(v.handles, i, v.detail),
    ensures
        v.offset(m) <= v.points.len(),
        v.points.subrange(0, v.offset(m)) == scratch_points(v.handles, v.detail, m),
    decreases m,
{
    let s = v.stored;
    let d = v.detail;
    if m == 0 {
        assert(s.subrange(0, 0) =~= Seq::<bool>::empty());
        assert(d * 0 == 0) by (nonlinear_arith);
        assert(v.points.subrange(0, 0) =~= Seq::<P>::empty());
    } else {
        lemma_scratch_prefix(v, m - 1);
        lemma_count_step(s, m - 1);
        let c = count_true(s.subrange(0, m - 1));
        assert(d * (c + 1) == d * c + d) by (nonlinear_arith);
        if s[m - 1] {
            lemma_block_before(v, m - 1, m);
            assert(v.points.subrange(0, v.offset(m))
                =~= v.points.subrange(0, v.offset(m - 1)) + v.block(m - 1));
        } else {
            lemma_count_split(s, m);
            lemma_count_le(s.subrange(0, m));
        }
        if !s[m - 1] {
            let t = count_true(s);
            assert(d * c <= d * t) by (nonlinear_arith) requires c <= t;
        }
    }
}

/// Replaces `v[a..b]` by `mid`.
fn replace_range<T>(v: &mut Vec<T>, a: usize, b: usize, mid: Vec<T>)
    requires
        a <= b <= old(v)@.len(),
    ensures
        final(v)@ == old(v)@.subrange(0, a as int) + mid@ + old(v)@.subrange(b as int, old(v)@.len() as int),
{
    let mut tail = v.split_off(b);
    v.truncate(a);
    let mut mid = mid;
    v.append(&mut mid);
    v.append(&mut tail);
}

impl<P: Planar> Bezier<P> {
    /// The curve's state is consistent, and every valid segment's samples
    /// are current.
    pub open spec fn wf(&self) -> bool {
        self@.wf() && self@.samples_current()
    }

    /// An empty curve that samples every drawn segment at `detail` points.
    /// `expected_handle_num` only reserves room.
    pub fn new(detail: usize, expected_handle_num: usize) -> (r: Self)
        ensures
            r.wf(),
            r@.handles.len() == 0,
            r@.points.len() == 0,
            r@.detail == detail,
    {
        let r = Bezier {
            handles: Vec::with_capacity(expected_handle_num),
            validity: Vec::with_capacity(expected_handle_num),
            stored: Vec::with_capacity(expected_handle_num),
            detail,
            points: Vec::new(),
        };
        proof {
            assert(r@.stored.len() == 0);
            assert(count_true(r@.stored) == 0);
            assert(r@.detail * 0 == 0) by (nonlinear_arith);
        }
        r
    }

    /// `detail` samples of segment `i`, at `t = k / detail` for `k` in
    /// `0 .. detail`, from the segment's power-basis coefficients.
    fn sample_part(&self, i: usize) -> (r: Vec<P>)
        requires
            i + 1 < self@.handles.len(),
        ensures
            r@ == part_samples(self@.handles, i as int, self@.detail),
    {
        proof {
            assert(self.handles.len() == self.handles@.len());
        }
        let j = i + 1;
        let p0 = self.handles[i].position;
        let p1 = self.handles[i].after;
        let p2 = self.handles[j].before;
        let p3 = self.handles[j].position;
        let c0 = p0;
        let c1 = p1.difference(&p0).scaled_ratio(3, 1);
        let c2 = p0.difference(&p1.scaled_ratio(2, 1)).sum(&p2).scaled_ratio(3, 1);
        let c3 = p3.difference(&p0).sum(&p1.difference(&p2).scaled_ratio(3, 1));
        let d = self.detail;
        let mut out: Vec<P> = Vec::with_capacity(d);
        let mut k: usize = 0;
        while k < d
            invariant
                k <= d,
                d == self@.detail,
                i + 1 < self@.handles.len(),
                c0 == p0,
                p0 == self@.handles[i as int].position,
                p1 == self@.handles[i as int].after,
                p2 == self@.handles[i as int + 1].before,
                p3 == self@.handles[i as int + 1].position,
                c1 == p1.sub_spec(p0).ratio_spec(3, 1),
                c2 == p0.sub_spec(p1.ratio_spec(2, 1)).add_spec(p2).ratio_spec(3, 1),
                c3 == p3.sub_spec(p0).add_spec(p1.sub_spec(p2).ratio_spec(3, 1)),
                out@.len() == k,
                forall|j: int| 0 <= j < k ==> out@[j] == cubic_sample(p0, p1, p2, p3, j as usize, d),
            decreases d - k,
        {
            let linear = c1.scaled_ratio(k, d);
            let square = c2.scaled_ratio(k, d).scaled_ratio(k, d);
            let cube = c3.scaled_ratio(k, d).scaled_ratio(k, d).scaled_ratio(k, d);
            out.push(c0.sum(&linear).sum(&square).sum(&cube));
            k = k + 1;
        }
        proof {
            assert(out@ =~= part_samples(self@.handles, i as int, self@.detail));
        }
        out
    }

    /// Drops the block of the stored segment that starts at handle `i`, whose
    /// block begins at `offset`.
    fn unstore(&mut self, i: usize, offset: usize)
        requires
            old(self)@.wf(),
            i < old(self)@.handles.len(),
            old(self)@.stored[i as int],
            offset == old(self)@.offset(i as int),
        ensures
            final(self)@.wf(),
            final(self)@.handles == old(self)@.handles,
            final(self)@.detail == old(self)@.detail,
            final(self)@.stored == old(self)@.stored.update(i as int, false),
            final(self)@.validity == old(self)@.validity.update(i as int, staled(old(self)@.validity[i as int])),
            final(self)@.points == old(self)@.points.subrange(0, offset as int)
                + old(self)@.points.subrange(offset + old(self)@.detail, old(self)@.points.len() as int),
    {
        let ghost s = self@.stored;
        let ghost d = self@.detail;
        proof {
            lemma_count_step(s, i as int);
            lemma_count_update(s, i as int, false);
            let c = count_true(s.subrange(0, i as int));
            let t = count_true(s);
            assert(d * (c + 1) <= d * t) by (nonlinear_arith)
                requires c + 1 <= t;
            assert(d * (c + 1) == d * c + d) by (nonlinear_arith);
            assert(d * t - d == d * (t - 1)) by (nonlinear_arith);
        }
        proof {
            assert(self.points.len() == self.points@.len());
        }
        let end = offset + self.detail;
        replace_range(&mut self.points, offset, end, Vec::new());
        self.stored.set(i, false);
        let v = self.validity[i];
        if v == Validity::Valid {
            self.validity.set(i, Validity::Invalidated);
        } else {
            proof {
                assert(self.validity@ =~= self.validity@.update(i as int, staled(v)));
            }
        }
    }

    /// Marks the segment that starts at handle `k` stale, if it was sampled.
    fn invalidate(&mut self, k: usize)
        requires
            old(self).wf(),
            k < old(self)@.handles.len(),
        ensures
            final(self).wf(),
            final(self)@ == (CurveView {
                validity: old(self)@.validity.update(k as int, staled(old(self)@.validity[k as int])),
                ..old(self)@
            }),
    {
        let ghost o = self@;
        if self.validity[k] != Validity::Uninitialized {
            self.validity.set(k, Validity::Invalidated);
        } else {
            proof {
                assert(self.validity@ =~= self.validity@.update(k as int, staled(self.validity@[k as int])));
            }
        }
        proof {
            assert forall|i: int| 0 <= i && i + 1 < self@.handles.len() && self@.validity[i] == Validity::Valid
                implies #[trigger] self@.block(i) == part_samples(self@.handles, i, self@.detail) by {
                assert(o.validity[i] == Validity::Valid);
                assert(o.block(i) == part_samples(o.handles, i, o.detail));
            }
        }
    }

    /// Where the block of the segment that starts at handle `i` begins.
    fn offset_of(&self, i: usize) -> (r: usize)
        requires
            self.wf(),
            i <= self@.handles.len(),
        ensures
            r == self@.offset(i as int),
    {
        let ghost s = self@.stored;
        let ghost d = self@.detail;
        let mut c: usize = 0;
        let mut k: usize = 0;
        while k < i
            invariant
                k <= i <= s.len(),
                s == self@.stored,
                c == count_true(s.subrange(0, k as int)),
            decreases i - k,
        {
            proof {
                lemma_count_step(s, k as int);
                lemma_count_le(s.subrange(0, k as int));
            }
            if self.stored[k] {
                c = c + 1;
            }
            k = k + 1;
        }
        proof {
            lemma_count_split(s, i as int);
            assert(d * c <= d * count_true(s)) by (nonlinear_arith)
                requires c <= count_true(s);
        }
        proof {
            assert(self.points.len() == self.points@.len());
        }
        self.detail * c
    }

    /// The handles of the curve, in order.
    pub fn handles(&self) -> (r: &Vec<Handle<P>>)
        ensures
            r@ == self@.handles,
    {
        &self.handles
    }

    /// The number of samples of every drawn segment.
    pub fn detail(&self) -> (r: usize)
        ensures
            r == self@.detail,
    {
        self.detail
    }

    /// The cache state of the segment that starts at handle `index`.
    pub fn validity(&self, index: usize) -> (r: Result<Validity, CurveError>)
        requires
            self.wf(),
        ensures
            index < self@.handles.len() ==> r == Ok::<Validity, CurveError>(self@.validity[index as int]),
            index >= self@.handles.len() ==> r == Err::<Validity, CurveError>(CurveError::IndexOutOfRange),
    {
        if index < self.validity.len() {
            Ok(self.validity[index])
        } else {
            Err(CurveError::IndexOutOfRange)
        }
    }

    /// The handle at `index`.
    pub fn get_handle(&self, index: usize) -> (r: Result<&Handle<P>, CurveError>)
        ensures
            index < self@.handles.len() ==> r is Ok && *r->Ok_0 == self@.handles[index as int],
            index >= self@.handles.len() ==> r is Err && r->Err_0 == CurveError::IndexOutOfRange,
    {
        if index < self.handles.len() {
            Ok(&self.handles[index])
        } else {
            Err(CurveError::IndexOutOfRange)
        }
    }

    /// The handle at `index`, to change in place. Both segments that use it
    /// are marked stale first.
    pub fn get_handle_mut(&mut self, index: usize) -> (r: Result<&mut Handle<P>, CurveError>)
        requires
            old(self).wf(),
        ensures
            final(self).wf(),
            index >= old(self)@.handles.len() ==> r is Err && r->Err_0 == CurveError::IndexOutOfRange
                && final(self)@ == old(self)@,
            index < old(self)@.handles.len() ==> r is Ok
                && *r->Ok_0 == old(self)@.handles[index as int]
                && final(self)@.handles == old(self)@.handles.update(index as int, *final(r->Ok_0))
                && final(self)@.points == old(self)@.points
                && final(self)@.stored == old(self)@.stored
                && final(self)@.detail == old(self)@.detail
                && final(self)@.validity == stale_before(old(self)@.validity, index as int).update(
                    index as int,
                    staled(old(self)@.validity[index as int]),
                ),
    {
        if index >= self.handles.len() {
            return Err(CurveError::IndexOutOfRange);
        }
        if index > 0 {
            self.invalidate(index - 1);
        }
        self.invalidate(index);
        proof {
            let m = self@;
            assert forall|h: Handle<P>|
                #![trigger m.handles.update(index as int, h)]
                (CurveView { handles: m.handles.update(index as int, h), ..m }).samples_current() by {
                let v = CurveView { handles: m.handles.update(index as int, h), ..m };
                assert forall|i: int| 0 <= i && i + 1 < v.handles.len() && v.validity[i] == Validity::Valid
                    implies #[trigger] v.block(i) == part_samples(v.handles, i, v.detail) by {
                    assert(m.block(i) == part_samples(m.handles, i, m.detail));
                }
            }
        }
        Ok(&mut self.handles[index])
    }

    /// Splits segment `part_index` at `progress` (in `[0, 1]`) by de Casteljau
    /// subdivision, which leaves the traced path as it was.
    pub fn knot_insert_at(&mut self, part_index: usize, progress: P::Scalar) -> (r: Result<(), CurveError>)
        requires
            old(self).wf(),
        ensures
            final(self).wf(),
            part_index + 1 >= old(self)@.handles.len() ==> r == Err::<(), CurveError>(CurveError::IndexOutOfRange)
                && final(self)@ == old(self)@,
            part_index + 1 < old(self)@.handles.len() ==> r is Ok
                && knot_inserted(old(self)@, final(self)@, part_index as int, progress),
    {
        let n = self.handles.len();
        if n < 2 || part_index >= n - 1 {
            return Err(CurveError::IndexOutOfRange);
        }
        let k = part_index;
        let t = progress;
        let p0 = self.handles[k].position;
        let p1 = self.handles[k].after;
        let p2 = self.handles[k + 1].before;
        let p3 = self.handles[k + 1].position;
        let center = interpolate(&p1, &p2, &t);
        let prev_forward = interpolate(&p0, &p1, &t);
        let next_backward = interpolate(&p2, &p3, &t);
        let new_backward = interpolate(&prev_forward, &center, &t);
        let new_forward = interpolate(&center, &next_backward, &t);
        let new_position = interpolate(&new_backward, &new_forward, &t);
        let ghost before = self@;
        self.invalidate(k);
        let ghost m = self@;
        self.handles[k].after = prev_forward;
        self.handles[k + 1].before = next_backward;
        proof {
            assert forall|i: int| 0 <= i && i + 1 < self@.handles.len() && self@.validity[i] == Validity::Valid
                implies #[trigger] self@.block(i) == part_samples(self@.handles, i, self@.detail) by {
                assert(m.block(i) == part_samples(m.handles, i, m.detail));
            }
        }
        let r = self.insert(k + 1, Handle::new(new_backward, new_position, new_forward));
        proof {
            assert(self@.validity =~= before.validity.update(k as int, staled(before.validity[k as int]))
                .insert(k + 1, Validity::Uninitialized));
        }
        r
    }

    /// Inserts a handle without changing the traced path. The integer part
    /// of `time` names the segment and the fractional part is the progress
    /// through it.
    pub fn knot_insert(&mut self, time: P::Scalar) -> (r: Result<(), CurveError>)
        requires
            old(self).wf(),
        ensures
            final(self).wf(),
            match P::whole_part_spec(time) {
                None => r == Err::<(), CurveError>(CurveError::InvalidTime) && final(self)@ == old(self)@,
                Some(k) => if k + 1 < old(self)@.handles.len() {
                    r is Ok && knot_inserted(old(self)@, final(self)@, k as int, P::fractional_part_spec(time))
                } else {
                    r == Err::<(), CurveError>(CurveError::IndexOutOfRange) && final(self)@ == old(self)@
                },
            },
    {
        match P::whole_part(&time) {
            None => Err(CurveError::InvalidTime),
            Some(k) => self.knot_insert_at(k, P::fractional_part(&time)),
        }
    }

    /// The control polygon of every segment in order, four points each.
    pub fn all_part_point(&self) -> (r: Vec<P>)
        ensures
            r@.len() == 4 * part_count(self@.handles.len() as int),
            forall|j: int| 0 <= j < r@.len() ==> r@[j] == control_point(self@.handles, j),
    {
        let n = self.handles.len();
        let parts: usize = if n == 0 { 0 } else { n - 1 };
        let mut out: Vec<P> = Vec::new();
        let mut i: usize = 0;
        while i < parts
            invariant
                n == self@.handles.len(),
                parts == part_count(n as int),
                i <= parts,
                out@.len() == 4 * i,
                forall|j: int| 0 <= j < out@.len() ==> out@[j] == control_point(self@.handles, j),
            decreases parts - i,
        {
            let ghost start = out@.len() as int;
            out.push(self.handles[i].position);
            out.push(self.handles[i].after);
            out.push(self.handles[i + 1].before);
            out.push(self.handles[i + 1].position);
            proof {
                assert forall|j: int| start <= j < start + 4 implies out@[j] == control_point(self@.handles, j) by {
                    assert(j / 4 == i as int) by (nonlinear_arith)
                        requires start == 4 * i, start <= j < start + 4;
                    assert(j % 4 == j - start) by (nonlinear_arith)
                        requires start == 4 * i, start <= j < start + 4;
                }
            }
            i = i + 1;
        }
        out
    }

    /// Appends a handle. The segment that now ends at it is marked stale.
    pub fn push(&mut self, handle: Handle<P>)
        requires
            old(self).wf(),
        ensures
            final(self).wf(),
            final(self)@.handles == old(self)@.handles.push(handle),
            final(self)@.points == old(self)@.points,
            final(self)@.detail == old(self)@.detail,
            final(self)@.stored == old(self)@.stored.push(false),
            old(self)@.handles.len() == 0 ==> final(self)@.validity == old(self)@.validity.push(Validity::Uninitialized),
            old(self)@.handles.len() > 0 ==> final(self)@.validity == old(self)@.validity.update(
                old(self)@.handles.len() - 1,
                staled(old(self)@.validity[old(self)@.handles.len() - 1]),
            ).push(Validity::Uninitialized),
    {
        let n = self.handles.len();
        if n > 0 {
            self.invalidate(n - 1);
        }
        let ghost s = self@.stored;
        let ghost m = self@;
        self.handles.push(handle);
        self.validity.push(Validity::Uninitialized);
        self.stored.push(false);
        proof {
            assert(self@.stored.drop_last() =~= s);
            assert forall|i: int| 0 <= i && i + 1 < self@.handles.len() && self@.validity[i] == Validity::Valid
                implies #[trigger] self@.block(i) == part_samples(self@.handles, i, self@.detail) by {
                assert(m.validity[i] == Validity::Valid);
                assert(self@.stored.subrange(0, i) =~= m.stored.subrange(0, i));
                assert(m.block(i) == part_samples(m.handles, i, m.detail));
            }
        }
    }

    /// Inserts a handle before position `index` (at the end where `index` is
    /// the length). The segment that now ends at it is marked stale.
    pub fn insert(&mut self, index: usize, handle: Handle<P>) -> (r: Result<(), CurveError>)
        requires
            old(self).wf(),
        ensures
            final(self).wf(),
            index > old(self)@.handles.len() ==> r == Err::<(), CurveError>(CurveError::IndexOutOfRange)
                && final(self)@ == old(self)@,
            index <= old(self)@.handles.len() ==> r is Ok && final(self)@ == (CurveView {
                handles: old(self)@.handles.insert(index as int, handle),
                validity: stale_before(old(self)@.validity, index as int).insert(index as int, Validity::Uninitialized),
                stored: old(self)@.stored.insert(index as int, false),
                ..old(self)@
            }),
    {
        if index > self.handles.len() {
            return Err(CurveError::IndexOutOfRange);
        }
        if index > 0 {
            self.invalidate(index - 1);
        }
        let ghost s = self@.stored;
        let ghost m = self@;
        self.handles.insert(index, handle);
        self.validity.insert(index, Validity::Uninitialized);
        self.stored.insert(index, false);
        proof {
            assert forall|i: int| 0 <= i && i + 1 < self@.handles.len() && self@.validity[i] == Validity::Valid
                implies #[trigger] self@.block(i) == part_samples(self@.handles, i, self@.detail) by {
                if i < index {
                    assert(m.validity[i] == Validity::Valid);
                    assert(self@.stored.subrange(0, i) =~= m.stored.subrange(0, i));
                    assert(m.block(i) == part_samples(m.handles, i, m.detail));
                } else {
                    assert(m.validity[i - 1] == Validity::Valid);
                    lemma_count_insert_prefix(s, index as int, i);
                    assert(m.block(i - 1) == part_samples(m.handles, i - 1, m.detail));
                }
            }
            let l = s.len() as int;
            assert(self@.stored =~= s.subrange(0, index as int) + seq![false] + s.subrange(index as int, l));
            lemma_count_splice(s, index as int, index as int, seq![false]);
            assert(s.subrange(index as int, index as int) =~= Seq::<bool>::empty());
            assert(count_true(Seq::<bool>::empty()) == 0);
        }
        Ok(())
    }

    /// Replaces the handles in `range` by `handles`. The segment that ends at
    /// `range.start` is marked stale and the replaced handles' samples leave
    /// the buffer.
    pub fn splice(&mut self, range: Range<usize>, handles: Vec<Handle<P>>) -> (r: Result<(), CurveError>)
        requires
            old(self).wf(),
        ensures
            final(self).wf(),
            !(range.start <= range.end <= old(self)@.handles.len()) ==> r == Err::<(), CurveError>(CurveError::IndexOutOfRange)
                && final(self)@ == old(self)@,
            range.start <= range.end <= old(self)@.handles.len() ==> r is Ok
                && final(self)@.handles == old(self)@.handles.subrange(0, range.start as int) + handles@
                    + old(self)@.handles.subrange(range.end as int, old(self)@.handles.len() as int)
                && final(self)@.points == old(self)@.points.subrange(0, old(self)@.offset(range.start as int))
                    + old(self)@.points.subrange(old(self)@.offset(range.end as int), old(self)@.points.len() as int)
                && final(self)@.detail == old(self)@.detail
                && final(self)@.validity == stale_before(old(self)@.validity, range.start as int).subrange(0, range.start as int)
                    + Seq::new(handles@.len(), |j: int| Validity::Uninitialized)
                    + old(self)@.validity.subrange(range.end as int, old(self)@.validity.len() as int)
                && final(self)@.stored == old(self)@.stored.subrange(0, range.start as int)
                    + Seq::new(handles@.len(), |j: int| false)
                    + old(self)@.stored.subrange(range.end as int, old(self)@.stored.len() as int),
    {
        let start = range.start;
        let end = range.end;
        if !(start <= end && end <= self.handles.len()) {
            return Err(CurveError::IndexOutOfRange);
        }
        if start > 0 {
            self.invalidate(start - 1);
        }
        let ghost s = self@.stored;
        let ghost v = self@.validity;
        let ghost d = self@.detail;
        let ghost mv = self@;
        let a = self.offset_of(start);
        let b = self.offset_of(end);
        proof {
            lemma_count_cut(s, start as int, end as int);
            lemma_count_le(s.subrange(start as int, end as int));
            lemma_count_split(s, end as int);
            let ca = count_true(s.subrange(0, start as int));
            let cb = count_true(s.subrange(0, end as int));
            let ct = count_true(s);
            assert(d * ca <= d * cb) by (nonlinear_arith) requires ca <= cb;
            assert(d * cb <= d * ct) by (nonlinear_arith) requires cb <= ct;
            assert(d * ct - (d * cb - d * ca) == d * (ct - (cb - ca))) by (nonlinear_arith);
        }
        let m = handles.len();
        replace_range(&mut self.points, a, b, Vec::new());
        replace_range(&mut self.handles, start, end, handles);
        replace_range(&mut self.validity, start, end, vec![Validity::Uninitialized; m]);
        replace_range(&mut self.stored, start, end, vec![false; m]);
        proof {
            let l = s.len() as int;
            let mid = self@.stored.subrange(start as int, start + m);
            assert(mid.len() == m);
            assert(self@.stored =~= s.subrange(0, start as int) + mid + s.subrange(end as int, l));
            lemma_count_splice(s, start as int, end as int, mid);
            assert(self@.validity =~= mv.validity.subrange(0, start as int)
                + Seq::new(m as nat, |j: int| Validity::Uninitialized)
                + mv.validity.subrange(end as int, mv.validity.len() as int));
            assert(self@.stored =~= mv.stored.subrange(0, start as int) + Seq::new(m as nat, |j: int| false)
                + mv.stored.subrange(end as int, mv.stored.len() as int));
            lemma_splice_samples(mv, self@, start as int, end as int, m as int);
        }
        Ok(())
    }

    /// Removes the handles in `range`. The segment that ends at `range.start`
    /// is marked stale and the removed handles' samples leave the buffer.
    pub fn drain(&mut self, range: Range<usize>) -> (r: Result<(), CurveError>)
        requires
            old(self).wf(),
        ensures
            final(self).wf(),
            !(range.start <= range.end <= old(self)@.handles.len()) ==> r == Err::<(), CurveError>(CurveError::IndexOutOfRange)
                && final(self)@ == old(self)@,
            range.start <= range.end <= old(self)@.handles.len() ==> r is Ok
                && final(self)@.handles == old(self)@.handles.subrange(0, range.start as int)
                    + old(self)@.handles.subrange(range.end as int, old(self)@.handles.len() as int)
                && final(self)@.points == old(self)@.points.subrange(0, old(self)@.offset(range.start as int))
                    + old(self)@.points.subrange(old(self)@.offset(range.end as int), old(self)@.points.len() as int)
                && final(self)@.detail == old(self)@.detail
                && final(self)@.validity == stale_before(old(self)@.validity, range.start as int).subrange(0, range.start as int)
                    + old(self)@.validity.subrange(range.end as int, old(self)@.validity.len() as int)
                && final(self)@.stored == old(self)@.stored.subrange(0, range.start as int)
                    + old(self)@.stored.subrange(range.end as int, old(self)@.stored.len() as int),
    {
        let start = range.start;
        let end = range.end;
        let r = self.splice(range, Vec::new());
        proof {
            if r is Ok {
                assert(self@.handles =~= old(self)@.handles.subrange(0, start as int)
                    + old(self)@.handles.subrange(end as int, old(self)@.handles.len() as int));
            }
        }
        r
    }

    /// Removes and returns the handle at `index`. The segment that ended at it
    /// is marked stale and its own samples leave the buffer.
    pub fn remove(&mut self, index: usize) -> (r: Result<Handle<P>, CurveError>)
        requires
            old(self).wf(),
        ensures
            final(self).wf(),
            old(self)@.handles.len() == 0 ==> r == Err::<Handle<P>, CurveError>(CurveError::EmptyCollection)
                && final(self)@ == old(self)@,
            old(self)@.handles.len() > 0 && index >= old(self)@.handles.len()
                ==> r == Err::<Handle<P>, CurveError>(CurveError::IndexOutOfRange) && final(self)@ == old(self)@,
            index < old(self)@.handles.len() ==> r == Ok::<Handle<P>, CurveError>(old(self)@.handles[index as int])
                && final(self)@.handles == old(self)@.handles.remove(index as int)
                && final(self)@.points == old(self)@.points.subrange(0, old(self)@.offset(index as int))
                    + old(self)@.points.subrange(old(self)@.offset(index + 1), old(self)@.points.len() as int)
                && final(self)@.detail == old(self)@.detail
                && final(self)@.validity == stale_before(old(self)@.validity, index as int).remove(index as int)
                && final(self)@.stored == old(self)@.stored.remove(index as int),
    {
        if self.handles.len() == 0 {
            return Err(CurveError::EmptyCollection);
        }
        if index >= self.handles.len() {
            return Err(CurveError::IndexOutOfRange);
        }
        let h = self.handles[index];
        let r = self.splice(index..index + 1, Vec::new());
        proof {
            assert(self@.handles =~= old(self)@.handles.remove(index as int));
        }
        Ok(h)
    }

    /// Samples every drawn segment that is not valid and returns the buffer.
    ///
    /// Empty segments contribute no points and give up any block they held;
    /// valid segments are left alone. Afterwards the buffer holds exactly
    /// `detail` points for each drawn segment, and a second call with no edit
    /// in between changes nothing.
    #[verifier::rlimit(60)]
    pub fn calculate(&mut self) -> (r: &Vec<P>)
        requires
            old(self).wf(),
            old(self)@.detail * old(self)@.handles.len() <= usize::MAX,
        ensures
            final(self).wf(),
            final(self)@.handles == old(self)@.handles,
            final(self)@.detail == old(self)@.detail,
            final(self)@.settled(),
            final(self)@.points.len() == final(self)@.detail * visible_parts(final(self)@.handles),
            old(self)@.settled() ==> final(self)@ == old(self)@,
            forall|i: int| 0 <= i < old(self)@.handles.len() ==> final(self)@.validity[i] == Validity::Valid
                || final(self)@.validity[i] == staled(old(self)@.validity[i]),
            forall|i: int| 0 <= i < part_count(old(self)@.handles.len() as int)
                && old(self)@.validity[i] == Validity::Valid && !part_empty(old(self)@.handles, i)
                ==> #[trigger] final(self)@.block(i) == old(self)@.block(i),
            forall|i: int| 0 <= i < part_count(final(self)@.handles.len() as int)
                && !part_empty(final(self)@.handles, i)
                ==> #[trigger] final(self)@.block(i) == part_samples(final(self)@.handles, i, final(self)@.detail),
            final(self)@.points == scratch_points(
                final(self)@.handles,
                final(self)@.detail,
                part_count(final(self)@.handles.len() as int),
            ),
            r@ == final(self)@.points,
    {
        let n = self.handles.len();
        let parts: usize = if n == 0 { 0 } else { n - 1 };
        let mut i: usize = 0;
        let mut offset: usize = 0;
        proof {
            assert(self@.stored.subrange(0, 0) =~= Seq::<bool>::empty());
            assert(self@.detail * 0 == 0) by (nonlinear_arith);
        }
        while i < parts
            invariant
                self@.wf(),
                self@.handles == old(self)@.handles,
                self@.detail == old(self)@.detail,
                self@.detail * n <= usize::MAX,
                n == self@.handles.len(),
                parts == part_count(n as int),
                i <= parts,
                offset == self@.offset(i as int),
                forall|j: int| 0 <= j < i ==> self@.stored[j] == !part_empty(self@.handles, j),
                forall|j: int| 0 <= j < i && !part_empty(self@.handles, j)
                    ==> self@.validity[j] == Validity::Valid,
                old(self)@.wf(),
                old(self)@.samples_current(),
                forall|j: int| i <= j < n ==> self@.stored[j] == old(self)@.stored[j],
                forall|j: int| i <= j < n ==> self@.validity[j] == old(self)@.validity[j],
                forall|j: int| 0 <= j < n ==> self@.validity[j] == Validity::Valid
                    || self@.validity[j] == staled(old(self)@.validity[j]),
                old(self)@.settled() ==> self@ == old(self)@,
                self@.points.subrange(offset as int, self@.points.len() as int)
                    == old(self)@.points.subrange(old(self)@.offset(i as int), old(self)@.points.len() as int),
                forall|j: int| 0 <= j < i && old(self)@.validity[j] == Validity::Valid
                    && !part_empty(old(self)@.handles, j) ==> #[trigger] self@.block(j) == old(self)@.block(j),
                forall|j: int| 0 <= j < i && !part_empty(old(self)@.handles, j)
                    ==> #[trigger] self@.block(j) == part_samples(old(self)@.handles, j, old(self)@.detail),
            decreases parts - i,
        {
            let ghost s0 = self@.stored;
            let ghost before = self@;
            let ghost off0 = offset as int;
            let ghost o = old(self)@;
            proof {
                lemma_count_step(o.stored, i as int);
                let oc = count_true(o.stored.subrange(0, i as int));
                assert(o.detail * (oc + 1) == o.detail * oc + o.detail) by (nonlinear_arith);
                if o.stored[i as int] {
                    lemma_block_before(o, i as int, i as int + 1);
                    lemma_block_before(before, i as int, i as int + 1);
                }
            }
            let ghost d = self@.detail;
            proof {
                lemma_count_step(s0, i as int);
                lemma_count_le(s0.subrange(0, i as int + 1));
                let c = count_true(s0.subrange(0, i as int));
                assert(d * (c + 1) == d * c + d) by (nonlinear_arith);
                assert(d * (c + 1) <= d * n) by (nonlinear_arith)
                    requires c + 1 <= n;
            }
            let empty = self.handles[i].is_cut_forward() || self.handles[i + 1].is_cut_backward();
            if empty {
                if self.stored[i] {
                    self.unstore(i, offset);
                    proof {
                        lemma_count_update(s0, i as int, false);
                        assert(self@.stored.subrange(0, i as int + 1) =~= s0.subrange(0, i as int).push(false));
                        assert(s0.subrange(0, i as int).push(false).drop_last() =~= s0.subrange(0, i as int));
                    }
                } else {
                    proof {
                        assert(self@.stored.subrange(0, i as int + 1).drop_last() =~= s0.subrange(0, i as int));
                    }
                }
            } else if self.validity[i] == Validity::Valid {
                offset = offset + self.detail;
            } else {
                let block = self.sample_part(i);
                let ghost fresh = block@;
                let was_stored = self.stored[i];
                let ghost t = count_true(s0);
                if was_stored {
                    proof {
                        assert(d * (count_true(s0.subrange(0, i as int)) + 1) <= d * t) by (nonlinear_arith)
                            requires count_true(s0.subrange(0, i as int)) + 1 <= t;
                    }
                    replace_range(&mut self.points, offset, offset + self.detail, block);
                } else {
                    proof {
                        lemma_count_update(s0, i as int, true);
                        lemma_count_split(s0, i as int);
                        assert(d * (t + 1) == d * t + d) by (nonlinear_arith);
                        assert(d * count_true(s0.subrange(0, i as int)) <= d * t) by (nonlinear_arith)
                            requires count_true(s0.subrange(0, i as int)) <= t;
                    }
                    replace_range(&mut self.points, offset, offset, block);
                    self.stored.set(i, true);
                }
                self.validity.set(i, Validity::Valid);
                offset = offset + self.detail;
                proof {
                    assert(self@.stored.subrange(0, i as int + 1).drop_last() =~= s0.subrange(0, i as int));
                    assert(self@.stored.subrange(0, i as int + 1).last() == true);
                    assert(self@.stored.subrange(0, i as int) =~= s0.subrange(0, i as int));
                    assert(self@.block(i as int) =~= fresh);
                }
            }
            proof {
                let d = o.detail as int;
                let oo = o.offset(i as int);
                let plen = before.points.len() as int;
                if !empty && before.validity[i as int] == Validity::Valid {
                    lemma_suffix_shift(before.points, off0, o.points, oo, d);
                    assert(o.validity[i as int] == Validity::Valid);
                    assert(o.block(i as int) == part_samples(o.handles, i as int, o.detail));
                    assert(self@.block(i as int) =~= o.block(i as int));
                } else if empty && before.stored[i as int] {
                    lemma_suffix_shift(before.points, off0, o.points, oo, d);
                    assert(self@.points.subrange(off0, self@.points.len() as int)
                        =~= before.points.subrange(off0 + d, plen));
                } else if !empty && before.stored[i as int] {
                    lemma_suffix_shift(before.points, off0, o.points, oo, d);
                    assert(self@.points.subrange(off0 + d, self@.points.len() as int)
                        =~= before.points.subrange(off0 + d, plen));
                } else if !empty {
                    assert(self@.points.subrange(off0 + d, self@.points.len() as int)
                        =~= before.points.subrange(off0, plen));
                }
                assert(self@.points.subrange(0, off0) =~= before.points.subrange(0, off0));
                assert forall|j: int| 0 <= j < i && !part_empty(o.handles, j)
                    implies #[trigger] self@.block(j) == before.block(j) by {
                    assert(self@.stored.subrange(0, j) =~= before.stored.subrange(0, j));
                    lemma_block_before(before, j, i as int);
                    assert(self@.block(j) =~= before.block(j));
                }

            }
            i = i + 1;
        }
        let ghost before = self@;
        let ghost off0 = offset as int;
        if n > 0 && self.stored[n - 1] {
            self.unstore(n - 1, offset);
        }
        proof {
            let o = old(self)@;
            assert forall|j: int| 0 <= j < parts && !part_empty(o.handles, j)
                implies #[trigger] self@.block(j) == before.block(j) by {
                assert(self@.stored.subrange(0, j) =~= before.stored.subrange(0, j));
                lemma_block_before(before, j, n - 1);
                assert(self@.points.subrange(0, off0) =~= before.points.subrange(0, off0));
                assert(self@.block(j) =~= before.block(j));
            }
            assert forall|j: int| 0 <= j && j + 1 < n && self@.validity[j] == Validity::Valid
                implies #[trigger] self@.block(j) == part_samples(self@.handles, j, self@.detail) by {
                assert(self@.stored[j]);
                assert(before.stored[j]);
                assert(!part_empty(o.handles, j));
            }
        }
        proof {
            let hs = self@.handles;
            let s = self@.stored;
            lemma_scratch_prefix(self@, part_count(n as int));
            if n > 0 {
                lemma_count_visible(hs, s, n - 1);
                lemma_count_split(s, n - 1);
                assert(s.subrange(n - 1, n as int) =~= seq![false]);
                lemma_count_one(false);
            } else {
                assert(s =~= Seq::<bool>::empty());
            }
            assert(self@.points.subrange(0, self@.points.len() as int) =~= self@.points);
        }
        &self.points
    }
}

} // verus!
