//! The spatial index: a snapshot of agent positions that answers radius
//! queries.
//!
//! A snapshot keeps its points ordered by their first coordinate. A query
//! finds by bisection the first point that can lie within the radius, and
//! walks on only as far as the last that can.

use vstd::prelude::*;
use vstd::seq_lib::{lemma_multiset_commutative, to_multiset_build};
use crate::fixed::lemma_square_lt;
use crate::vec2::{Vec2, Vector};

verus! {

/// One point of a snapshot: an agent's identity and where it was.
#[derive(Clone, Copy, Debug, PartialEq, Eq, Structural)]
pub struct Entry {
    pub id: usize,
    pub position: Vec2,
}

/// Whether `point` lies within `radius` of `center`, the border included.
pub open spec fn within_radius(point: Vector, center: Vector, radius: nat) -> bool {
    point.minus(center).norm_squared() <= radius * radius
}

/// The entries within `radius` of `center`.
pub open spec fn in_range_of(center: Vector, radius: nat) -> spec_fn(Entry) -> bool {
    |e: Entry| within_radius(e.position@, center, radius)
}

/// Whether the entries stand in the order of their first coordinate.
pub open spec fn sorted_by_x(s: Seq<Entry>) -> bool {
    forall|i: int, j: int| 0 <= i <= j < s.len() ==> s[i].position.x <= s[j].position.x
}

/// A sequence of which no element passes the filter is filtered to nothing.
pub proof fn lemma_filter_none(s: Seq<Entry>, pred: spec_fn(Entry) -> bool)
    requires
        forall|i: int| 0 <= i < s.len() ==> !pred(#[trigger] s[i]),
    ensures
        s.filter(pred) == Seq::<Entry>::empty(),
    decreases s.len(),
{
    reveal(Seq::filter);
    if s.len() > 0 {
        lemma_filter_none(s.drop_last(), pred);
    }
}

/// Elements that do not pass the filter can be cut off the end.
proof fn lemma_filter_cut(s: Seq<Entry>, k: int, pred: spec_fn(Entry) -> bool)
    requires
        0 <= k <= s.len(),
        forall|i: int| k <= i < s.len() ==> !pred(#[trigger] s[i]),
    ensures
        s.filter(pred) == s.take(k).filter(pred),
{
    let head = s.take(k);
    let tail = s.skip(k);
    assert(s =~= head + tail);
    assert forall|i: int| 0 <= i < tail.len() implies !pred(#[trigger] tail[i]) by {
        assert(tail[i] == s[k + i]);
    }
    lemma_filter_none(tail, pred);
    Seq::filter_distributes_over_add(head, tail, pred);
    assert(head.filter(pred) + Seq::<Entry>::empty() =~= head.filter(pred));
}

/// A filtered sequence holds each element that passes as often as the
/// sequence does, and none that does not pass.
pub proof fn lemma_filter_count(s: Seq<Entry>, pred: spec_fn(Entry) -> bool, e: Entry)
    ensures
        s.filter(pred).to_multiset().count(e) == if pred(e) {
            s.to_multiset().count(e)
        } else {
            0
        },
    decreases s.len(),
{
    broadcast use vstd::multiset::group_multiset_axioms;

    if s.len() == 0 {
        reveal(Seq::filter);
        s.to_multiset_ensures();
        assert(s =~= Seq::<Entry>::empty());
        Seq::<Entry>::empty().to_multiset_ensures();
    } else {
        let rest = s.drop_last();
        let last = s.last();
        assert(s =~= rest.push(last));
        lemma_filter_count(rest, pred, e);
        rest.lemma_filter_push(last, pred);
        to_multiset_build(rest, last);
        if pred(last) {
            to_multiset_build(rest.filter(pred), last);
        }
    }
}

/// What a query on a snapshot of `points` answers: each point within the
/// radius as often as `points` holds it, and no other.
pub proof fn lemma_query_answers(
    points: Seq<Entry>,
    snapshot: Seq<Entry>,
    center: Vector,
    radius: nat,
    e: Entry,
)
    requires
        snapshot.to_multiset() == points.to_multiset(),
    ensures
        snapshot.filter(in_range_of(center, radius)).to_multiset().count(e) == if within_radius(
            e.position@,
            center,
            radius,
        ) {
            points.to_multiset().count(e)
        } else {
            0
        },
{
    lemma_filter_count(snapshot, in_range_of(center, radius), e);
}

/// A point whose first coordinate is further than the radius from the
/// center's is not within the radius.
proof fn lemma_far_in_x(point: Vector, center: Vector, radius: nat)
    requires
        point.x - center.x > radius || center.x - point.x > radius,
    ensures
        !within_radius(point, center, radius),
{
    let dx: int = point.x - center.x;
    let dy: int = point.y - center.y;
    let m: int = if dx >= 0 {
        dx
    } else {
        -dx
    };
    lemma_square_lt(radius as int, m);
    assert(m * m == dx * dx) by (nonlinear_arith)
        requires
            m == dx || m == -dx,
    ;
    assert(dy * dy >= 0) by (nonlinear_arith);
}

/// A point whose second coordinate is further than the radius from the
/// center's is not within the radius.
proof fn lemma_far_in_y(point: Vector, center: Vector, radius: nat)
    requires
        point.y - center.y > radius || center.y - point.y > radius,
    ensures
        !within_radius(point, center, radius),
{
    let dx: int = point.x - center.x;
    let dy: int = point.y - center.y;
    let m: int = if dy >= 0 {
        dy
    } else {
        -dy
    };
    lemma_square_lt(radius as int, m);
    assert(m * m == dy * dy) by (nonlinear_arith)
        requires
            m == dy || m == -dy,
    ;
    assert(dx * dx >= 0) by (nonlinear_arith);
}

/// A point within the radius differs from the center by at most the radius
/// in each coordinate.
pub proof fn lemma_within_radius_offset(point: Vector, center: Vector, radius: nat)
    requires
        within_radius(point, center, radius),
    ensures
        point.minus(center).within(radius as int),
{
    if point.x - center.x > radius || center.x - point.x > radius {
        lemma_far_in_x(point, center, radius);
    }
    if point.y - center.y > radius || center.y - point.y > radius {
        lemma_far_in_y(point, center, radius);
    }
}

/// Whether `point` lies within `radius` of `center`, the border included.
pub fn is_within(point: Vec2, center: Vec2, radius: u32) -> (b: bool)
    ensures
        b == within_radius(point@, center@, radius as nat),
{
    let dx: i128 = point.x as i128 - center.x as i128;
    let dy: i128 = point.y as i128 - center.y as i128;
    let r: i128 = radius as i128;
    if dx > r || dx < -r {
        proof {
            lemma_far_in_x(point@, center@, radius as nat);
        }
        return false;
    }
    if dy > r || dy < -r {
        proof {
            lemma_far_in_y(point@, center@, radius as nat);
        }
        return false;
    }
    assert(0 <= dx * dx <= 0x1_0000_0000 * 0x1_0000_0000) by (nonlinear_arith)
        requires
            -0x1_0000_0000 <= dx <= 0x1_0000_0000,
    ;
    assert(0 <= dy * dy <= 0x1_0000_0000 * 0x1_0000_0000) by (nonlinear_arith)
        requires
            -0x1_0000_0000 <= dy <= 0x1_0000_0000,
    ;
    assert(0 <= r * r <= 0x1_0000_0000 * 0x1_0000_0000) by (nonlinear_arith)
        requires
            0 <= r <= 0x1_0000_0000,
    ;
    dx * dx + dy * dy <= r * r
}

/// Two ordered runs merged into one.
fn merge_by_x(left: &Vec<Entry>, right: &Vec<Entry>) -> (out: Vec<Entry>)
    requires
        sorted_by_x(left@),
        sorted_by_x(right@),
    ensures
        sorted_by_x(out@),
        out@.to_multiset() == left@.to_multiset().add(right@.to_multiset()),
{
    broadcast use vstd::multiset::group_multiset_axioms;

    let mut out: Vec<Entry> = Vec::new();
    let mut i: usize = 0;
    let mut j: usize = 0;
    assert(left@.take(0) =~= Seq::<Entry>::empty());
    assert(right@.take(0) =~= Seq::<Entry>::empty());
    assert(out@.to_multiset() =~= left@.take(0).to_multiset().add(right@.take(0).to_multiset()))
        by {
        Seq::<Entry>::empty().to_multiset_ensures();
    }
    while i < left.len() || j < right.len()
        invariant
            i <= left.len(),
            j <= right.len(),
            sorted_by_x(left@),
            sorted_by_x(right@),
            sorted_by_x(out@),
            forall|k: int, m: int|
                0 <= k < out.len() && i <= m < left.len() ==> out[k].position.x
                    <= left[m].position.x,
            forall|k: int, m: int|
                0 <= k < out.len() && j <= m < right.len() ==> out[k].position.x
                    <= right[m].position.x,
            out@.to_multiset() == left@.take(i as int).to_multiset().add(
                right@.take(j as int).to_multiset(),
            ),
        decreases left.len() - i + right.len() - j,
    {
        let take_left: bool = if j >= right.len() {
            true
        } else if i >= left.len() {
            false
        } else {
            left[i].position.x <= right[j].position.x
        };
        let ghost before = out@;
        if take_left {
            let e: Entry = left[i];
            out.push(e);
            proof {
                to_multiset_build(before, e);
                to_multiset_build(left@.take(i as int), e);
                assert(left@.take(i + 1) =~= left@.take(i as int).push(e));
                assert(out@.to_multiset() =~= left@.take(i + 1).to_multiset().add(
                    right@.take(j as int).to_multiset(),
                ));
            }
            i = i + 1;
        } else {
            let e: Entry = right[j];
            out.push(e);
            proof {
                to_multiset_build(before, e);
                to_multiset_build(right@.take(j as int), e);
                assert(right@.take(j + 1) =~= right@.take(j as int).push(e));
                assert(out@.to_multiset() =~= left@.take(i as int).to_multiset().add(
                    right@.take(j + 1).to_multiset(),
                ));
            }
            j = j + 1;
        }
    }
    assert(left@.take(i as int) =~= left@);
    assert(right@.take(j as int) =~= right@);
    out
}

/// The entries of `points` from `lo` up to `hi`, in order.
fn sort_by_x(points: &Vec<Entry>, lo: usize, hi: usize) -> (out: Vec<Entry>)
    requires
        lo <= hi <= points.len(),
    ensures
        sorted_by_x(out@),
        out@.to_multiset() == points@.subrange(lo as int, hi as int).to_multiset(),
    decreases hi - lo,
{
    let ghost part = points@.subrange(lo as int, hi as int);
    if hi - lo == 0 {
        let out: Vec<Entry> = Vec::new();
        assert(out@ =~= part);
        out
    } else if hi - lo == 1 {
        let mut out: Vec<Entry> = Vec::new();
        out.push(points[lo]);
        assert(out@ =~= part);
        out
    } else {
        let mid: usize = lo + (hi - lo) / 2;
        let left: Vec<Entry> = sort_by_x(points, lo, mid);
        let right: Vec<Entry> = sort_by_x(points, mid, hi);
        proof {
            let a = points@.subrange(lo as int, mid as int);
            let b = points@.subrange(mid as int, hi as int);
            assert(part =~= a + b);
            lemma_multiset_commutative(a, b);
        }
        merge_by_x(&left, &right)
    }
}

/// An immutable snapshot of agent positions. Its view is the sequence of its
/// entries in the order in which it keeps them.
pub struct SpatialIndex {
    entries: Vec<Entry>,
}

impl View for SpatialIndex {
    type V = Seq<Entry>;

    closed spec fn view(&self) -> Seq<Entry> {
        self.entries@
    }
}

impl SpatialIndex {
    #[verifier::type_invariant]
    spec fn ordered(&self) -> bool {
        sorted_by_x(self.entries@)
    }

    /// A snapshot of the given points. It holds each of them as often as
    /// `points` does, and nothing else.
    pub fn build(points: &Vec<Entry>) -> (index: SpatialIndex)
        ensures
            index@.to_multiset() == points@.to_multiset(),
    {
        let entries: Vec<Entry> = sort_by_x(points, 0, points.len());
        assert(points@.subrange(0, points.len() as int) =~= points@);
        SpatialIndex { entries }
    }

    /// The number of points in the snapshot.
    pub fn len(&self) -> (n: usize)
        ensures
            n == self@.len(),
    {
        self.entries.len()
    }

    /// The first place from which on every first coordinate is at least
    /// `bound`.
    fn first_at_least(&self, bound: i128) -> (k: usize)
        ensures
            k <= self@.len(),
            forall|i: int| 0 <= i < k ==> (#[trigger] self@[i]).position.x < bound,
            forall|i: int| k <= i < self@.len() ==> (#[trigger] self@[i]).position.x >= bound,
    {
        proof {
            use_type_invariant(self);
        }
        let mut lo: usize = 0;
        let mut hi: usize = self.entries.len();
        while lo < hi
            invariant
                lo <= hi <= self.entries.len(),
                sorted_by_x(self.entries@),
                forall|i: int| 0 <= i < lo ==> (#[trigger] self.entries@[i]).position.x < bound,
                forall|i: int|
                    hi <= i < self.entries.len() ==> (#[trigger] self.entries@[i]).position.x
                        >= bound,
            decreases hi - lo,
        {
            let mid: usize = lo + (hi - lo) / 2;
            if (self.entries[mid].position.x as i128) < bound {
                lo = mid + 1;
            } else {
                hi = mid;
            }
        }
        lo
    }

    /// All points of the snapshot within `radius` of `center`, the border
    /// included, in the snapshot's order. A point at the center itself is
    /// among them.
    pub fn query(&self, center: Vec2, radius: u32) -> (found: Vec<Entry>)
        ensures
            found@ == self@.filter(in_range_of(center@, radius as nat)),
    {
        proof {
            use_type_invariant(self);
        }
        let ghost pred = in_range_of(center@, radius as nat);
        let ghost all = self.entries@;
        let low: i128 = center.x as i128 - radius as i128;
        let high: i128 = center.x as i128 + radius as i128;
        let start: usize = self.first_at_least(low);
        let mut found: Vec<Entry> = Vec::new();
        let mut i: usize = start;
        proof {
            assert forall|k: int| 0 <= k < all.take(start as int).len() implies !pred(
                #[trigger] all.take(start as int)[k],
            ) by {
                lemma_far_in_x(all[k].position@, center@, radius as nat);
            }
            lemma_filter_none(all.take(start as int), pred);
        }
        while i < self.entries.len() && (self.entries[i].position.x as i128) <= high
            invariant
                i <= self.entries.len(),
                all == self.entries@,
                pred == in_range_of(center@, radius as nat),
                found@ == all.take(i as int).filter(pred),
            decreases self.entries.len() - i,
        {
            let e: Entry = self.entries[i];
            proof {
                all.take(i as int).lemma_filter_push(e, pred);
                assert(all.take(i + 1) =~= all.take(i as int).push(e));
            }
            if is_within(e.position, center, radius) {
                found.push(e);
            }
            i = i + 1;
        }
        proof {
            assert forall|k: int| i <= k < all.len() implies !pred(#[trigger] all[k]) by {
                assert(all[i as int].position.x <= all[k].position.x);
                lemma_far_in_x(all[k].position@, center@, radius as nat);
            }
            lemma_filter_cut(all, i as int, pred);
        }
        found
    }
}

} // verus!
