//! Contours: the segments of one cross-section stitched into perimeter loops.
//!
//! Two segment ends are the same corner of a perimeter when they fall in the
//! same cell of a square grid. A walk starts at the first segment not yet used
//! and follows, from the end it has reached, the nearest unused segment end in
//! the same cell, until it is back in the cell it started from or finds
//! nothing to follow. Every step uses up one segment, so the walks end. The
//! ends in a cell are found through an adjacency index.
use vstd::prelude::*;
use crate::geometry::{Edge, Point};
use crate::slicer::adjacency::Adjacency;

verus! {

/// The side of a grid cell: segment ends this close count as one corner.
pub const BUCKET: i64 = 100;

/// The index, along one axis, of the grid cell that holds the coordinate `c`.
pub open spec fn cell(c: int) -> int {
    c / (BUCKET as int)
}

/// Whether `p` and `q` fall in the same grid cell.
pub open spec fn same_bucket(p: Point, q: Point) -> bool {
    cell(p.x as int) == cell(q.x as int) && cell(p.y as int) == cell(q.y as int)
}

/// The square of the distance between `p` and `q`.
pub open spec fn dist2(p: Point, q: Point) -> int {
    (p.x - q.x) * (p.x - q.x) + (p.y - q.y) * (p.y - q.y)
}

/// One step of a walk: a segment, and whether it is walked from its `b` end
/// to its `a` end.
#[derive(Clone, Copy, Debug, PartialEq, Eq, Structural)]
pub struct Link {
    pub segment: usize,
    pub reversed: bool,
}

/// The point at which the step `l` enters its segment.
pub open spec fn link_start(segs: Seq<Edge>, l: Link) -> Point {
    if l.reversed {
        segs[l.segment as int].b
    } else {
        segs[l.segment as int].a
    }
}

/// The point at which the step `l` leaves its segment.
pub open spec fn link_end(segs: Seq<Edge>, l: Link) -> Point {
    if l.reversed {
        segs[l.segment as int].a
    } else {
        segs[l.segment as int].b
    }
}

/// Whether a walk standing at `cur` may take the step `l`: its segment is
/// unused and it starts in the cell of `cur`.
pub open spec fn is_candidate(segs: Seq<Edge>, used: Seq<bool>, cur: Point, l: Link) -> bool {
    &&& l.segment < segs.len()
    &&& !used[l.segment as int]
    &&& same_bucket(link_start(segs, l), cur)
}

/// The better of the best step found so far and the step `l`: `l` only if it
/// starts strictly nearer to `cur`, so that among equals the first found stays.
pub open spec fn prefer(segs: Seq<Edge>, cur: Point, best: Option<Link>, l: Link) -> Option<Link> {
    match best {
        Some(b) => if dist2(cur, link_start(segs, l)) < dist2(cur, link_start(segs, b)) {
            Some(l)
        } else {
            best
        },
        None => Some(l),
    }
}

/// The best step found so far after `l` was looked at.
pub open spec fn consider(
    segs: Seq<Edge>,
    used: Seq<bool>,
    cur: Point,
    best: Option<Link>,
    l: Link,
) -> Option<Link> {
    if is_candidate(segs, used, cur, l) {
        prefer(segs, cur, best, l)
    } else {
        best
    }
}

/// The step a walk standing at `cur` takes next, looking at the first `n`
/// segments in order, each forwards and then reversed: the candidate that
/// starts nearest to `cur`, the first found among equals, or none.
pub open spec fn next_link(segs: Seq<Edge>, used: Seq<bool>, cur: Point, n: int) -> Option<Link>
    decreases n,
{
    if n <= 0 {
        None
    } else {
        let before = next_link(segs, used, cur, n - 1);
        let forwards = Link { segment: (n - 1) as usize, reversed: false };
        let backwards = Link { segment: (n - 1) as usize, reversed: true };
        consider(segs, used, cur, consider(segs, used, cur, before, forwards), backwards)
    }
}

/// How many segments are still unused.
pub open spec fn unused_count(used: Seq<bool>) -> nat
    decreases used.len(),
{
    if used.len() == 0 {
        0
    } else {
        unused_count(used.drop_last()) + if used.last() {
            0nat
        } else {
            1nat
        }
    }
}

/// Using up a segment leaves one fewer unused.
pub proof fn lemma_use_one(used: Seq<bool>, i: int)
    requires
        0 <= i < used.len(),
        !used[i],
    ensures
        unused_count(used.update(i, true)) + 1 == unused_count(used),
    decreases used.len(),
{
    let after = used.update(i, true);
    if i == used.len() - 1 {
        assert(after.drop_last() =~= used.drop_last());
    } else {
        assert(after.drop_last() =~= used.drop_last().update(i, true));
        lemma_use_one(used.drop_last(), i);
    }
}

/// What [`next_link`] finds is a candidate among the segments it looked at,
/// and no candidate among them starts nearer to `cur`; it finds none only if
/// there is no candidate.
pub proof fn lemma_next_link_is_nearest(segs: Seq<Edge>, used: Seq<bool>, cur: Point, n: int)
    requires
        0 <= n <= segs.len(),
    ensures
        match next_link(segs, used, cur, n) {
            Some(l) => {
                &&& is_candidate(segs, used, cur, l)
                &&& l.segment < n
                &&& forall|o: Link|
                    o.segment < n && #[trigger] is_candidate(segs, used, cur, o) ==> dist2(
                        cur,
                        link_start(segs, l),
                    ) <= dist2(cur, link_start(segs, o))
            },
            None => forall|o: Link|
                o.segment < n ==> !#[trigger] is_candidate(segs, used, cur, o),
        },
    decreases n,
{
    if n > 0 {
        lemma_next_link_is_nearest(segs, used, cur, n - 1);
        let forwards = Link { segment: (n - 1) as usize, reversed: false };
        let backwards = Link { segment: (n - 1) as usize, reversed: true };
        assert forall|o: Link| o.segment < n implies o.segment < n - 1 || o == forwards || o
            == backwards by {
            if o.segment == n - 1 {
                if o.reversed {
                    assert(o == backwards);
                } else {
                    assert(o == forwards);
                }
            }
        }
    }
}

/// The steps a walk takes from `cur` on, having started at `origin`: none
/// once it is back in the cell of `origin` or finds nothing to follow.
pub open spec fn walk(segs: Seq<Edge>, used: Seq<bool>, origin: Point, cur: Point) -> Seq<Link>
    decreases unused_count(used),
    when used.len() == segs.len()
{
    if same_bucket(cur, origin) {
        Seq::empty()
    } else {
        match next_link(segs, used, cur, segs.len() as int) {
            Some(l) => {
                proof {
                    lemma_next_link_is_nearest(segs, used, cur, segs.len() as int);
                    lemma_use_one(used, l.segment as int);
                }
                seq![l] + walk(
                    segs,
                    used.update(l.segment as int, true),
                    origin,
                    link_end(segs, l),
                )
            },
            None => Seq::empty(),
        }
    }
}

/// The flags of used segments after the steps `links` were taken.
pub open spec fn marked(used: Seq<bool>, links: Seq<Link>) -> Seq<bool>
    decreases links.len(),
{
    if links.len() == 0 {
        used
    } else {
        marked(used, links.drop_last()).update(links.last().segment as int, true)
    }
}

/// The walks that consume the segments still unused, each starting at the
/// first unused segment at or after `from`, walked forwards.
pub open spec fn contours_from(segs: Seq<Edge>, used: Seq<bool>, from: int) -> Seq<Seq<Link>>
    decreases segs.len() - from,
{
    if from < 0 || from >= segs.len() {
        Seq::empty()
    } else if used[from] {
        contours_from(segs, used, from + 1)
    } else {
        let first = Link { segment: from as usize, reversed: false };
        let begun = used.update(from, true);
        let rest = walk(segs, begun, segs[from].a, segs[from].b);
        seq![seq![first] + rest] + contours_from(segs, marked(begun, rest), from + 1)
    }
}

/// The flags of `n` segments of which none is used.
pub open spec fn none_used(n: nat) -> Seq<bool> {
    Seq::new(n, |i: int| false)
}

/// The walks that stitch `segs` into contours.
pub open spec fn assembled(segs: Seq<Edge>) -> Seq<Seq<Link>> {
    contours_from(segs, none_used(segs.len()), 0)
}

/// Whether the walk `links` ends in the cell it started from.
pub open spec fn is_closed(segs: Seq<Edge>, links: Seq<Link>) -> bool
    recommends
        links.len() > 0,
{
    same_bucket(link_end(segs, links.last()), link_start(segs, links[0]))
}

/// The points of the walk `links`: where each step starts and, unless the
/// walk is closed, where the last step ends.
pub open spec fn outline(segs: Seq<Edge>, links: Seq<Link>) -> Seq<Point>
    recommends
        links.len() > 0,
{
    let starts = Seq::new(links.len(), |i: int| link_start(segs, links[i]));
    if is_closed(segs, links) {
        starts
    } else {
        starts.push(link_end(segs, links.last()))
    }
}

/// One perimeter: its corners in walking order. A closed contour returns from
/// its last point to its first; an open one is a polyline.
#[derive(Clone, Debug, PartialEq, Eq)]
pub struct Contour {
    pub points: Vec<Point>,
    pub closed: bool,
}

impl Contour {
    /// Whether this contour is what the walk `links` over `segs` traces.
    pub open spec fn traces(&self, segs: Seq<Edge>, links: Seq<Link>) -> bool {
        self.points@ == outline(segs, links) && self.closed == is_closed(segs, links)
    }
}

/// The grid cell index of a coordinate.
pub(crate) fn cell_of(c: i64) -> (r: i64)
    ensures
        r == cell(c as int),
{
    let q: i64 = c / BUCKET;
    if c % BUCKET < 0 {
        q - 1
    } else {
        q
    }
}

/// Tests whether two points fall in the same grid cell.
pub fn in_same_bucket(p: &Point, q: &Point) -> (r: bool)
    ensures
        r == same_bucket(*p, *q),
{
    cell_of(p.x) == cell_of(q.x) && cell_of(p.y) == cell_of(q.y)
}

/// The squared distance between two points of one grid cell.
fn near_dist2(p: &Point, q: &Point) -> (d: i64)
    requires
        same_bucket(*p, *q),
    ensures
        d == dist2(*p, *q),
        0 <= d <= 2 * 99 * 99,
{
    let dx: i64 = p.x - q.x;
    let dy: i64 = p.y - q.y;
    assert(-99 <= dx <= 99 && -99 <= dy <= 99);
    assert(0 <= dx * dx <= 99 * 99) by (nonlinear_arith)
        requires
            -99 <= dx <= 99,
    ;
    assert(0 <= dy * dy <= 99 * 99) by (nonlinear_arith)
        requires
            -99 <= dy <= 99,
    ;
    dx * dx + dy * dy
}

/// Looks at one step and keeps the better of it and the best so far.
pub(crate) fn look_at(
    segments: &Vec<Edge>,
    used: &Vec<bool>,
    cur: &Point,
    best: Option<(Link, i64)>,
    l: Link,
) -> (r: Option<(Link, i64)>)
    requires
        used@.len() == segments@.len(),
        l.segment < segments@.len(),
        match best {
            Some((b, d)) => d == dist2(*cur, link_start(segments@, b)),
            None => true,
        },
    ensures
        match r {
            Some((b, d)) => d == dist2(*cur, link_start(segments@, b)),
            None => true,
        },
        link_only(r) == consider(segments@, used@, *cur, link_only(best), l),
{
    if used[l.segment] {
        return best;
    }
    let start = if l.reversed {
        segments[l.segment].b
    } else {
        segments[l.segment].a
    };
    if !in_same_bucket(&start, cur) {
        return best;
    }
    let d = near_dist2(cur, &start);
    match best {
        Some((b, bd)) => if d < bd {
            Some((l, d))
        } else {
            best
        },
        None => Some((l, d)),
    }
}

/// A found step without its distance.
pub open spec fn link_only(found: Option<(Link, i64)>) -> Option<Link> {
    match found {
        Some((l, _)) => Some(l),
        None => None,
    }
}

/// How many ends of the segments `segs` fall in the grid cell of `p`.
pub open spec fn ends_at(segs: Seq<Edge>, p: Point) -> nat
    decreases segs.len(),
{
    if segs.len() == 0 {
        0
    } else {
        ends_at(segs.drop_last(), p) + if same_bucket(segs.last().a, p) {
            1nat
        } else {
            0nat
        } + if same_bucket(segs.last().b, p) {
            1nat
        } else {
            0nat
        }
    }
}

/// Whether every corner of the cross-section joins exactly two segment ends,
/// as it does where a watertight surface is cut.
pub open spec fn is_manifold(segs: Seq<Edge>) -> bool {
    forall|i: int|
        0 <= i < segs.len() ==> ends_at(segs, (#[trigger] segs[i]).a) == 2 && ends_at(
            segs,
            segs[i].b,
        ) == 2
}

/// Tests whether every corner of the cross-section joins exactly two segment
/// ends.
pub fn check_manifold(segments: &Vec<Edge>) -> (r: bool)
    ensures
        r == is_manifold(segments@),
{
    let index = Adjacency::new(segments);
    let n = segments.len();
    let mut i: usize = 0;
    while i < n
        invariant
            n == segments@.len(),
            i <= n,
            index.indexes(segments@),
            forall|k: int|
                0 <= k < i ==> ends_at(segments@, (#[trigger] segments@[k]).a) == 2 && ends_at(
                    segments@,
                    segments@[k].b,
                ) == 2,
        decreases n - i,
    {
        let e = segments[i];
        if !index.joins_two(segments, &e.a) || !index.joins_two(segments, &e.b) {
            return false;
        }
        i += 1;
    }
    true
}

/// Stitches the segments of one cross-section into contours.
///
/// The result holds one contour for each walk of [`assembled`], in order.
pub fn assemble(segments: &Vec<Edge>) -> (contours: Vec<Contour>)
    ensures
        contours@.len() == assembled(segments@).len(),
        forall|i: int|
            0 <= i < contours@.len() ==> (#[trigger] contours@[i]).traces(
                segments@,
                assembled(segments@)[i],
            ),
{
    let index = Adjacency::new(segments);
    let n = segments.len();
    let mut used: Vec<bool> = Vec::new();
    let mut k: usize = 0;
    while k < n
        invariant
            k <= n,
            used@.len() == k,
            forall|i: int| 0 <= i < k ==> !used@[i],
        decreases n - k,
    {
        used.push(false);
        k += 1;
    }
    assert(used@ =~= none_used(n as nat));
    let mut contours: Vec<Contour> = Vec::new();
    let ghost mut done: Seq<Seq<Link>> = Seq::empty();
    let mut from: usize = 0;
    while from < n
        invariant
            n == segments@.len(),
            index.indexes(segments@),
            used@.len() == n,
            from <= n,
            assembled(segments@) == done + contours_from(segments@, used@, from as int),
            contours@.len() == done.len(),
            forall|i: int|
                0 <= i < contours@.len() ==> (#[trigger] contours@[i]).traces(segments@, done[i]),
        decreases n - from,
    {
        if !used[from] {
            let first = Link { segment: from, reversed: false };
            used.set(from, true);
            let ghost begun = used@;
            let origin = segments[from].a;
            let mut cur = segments[from].b;
            let mut points: Vec<Point> = Vec::new();
            points.push(origin);
            let ghost mut walked: Seq<Link> = Seq::empty();
            let mut closed = in_same_bucket(&cur, &origin);
            let mut open_end = false;
            while !closed && !open_end
                invariant
                    n == segments@.len(),
                    index.indexes(segments@),
                    used@.len() == n,
                    from < n,
                    first == (Link { segment: from, reversed: false }),
                    origin == segments@[from as int].a,
                    begun.len() == n,
                    used@ == marked(begun, walked),
                    walk(segments@, begun, origin, segments@[from as int].b) == walked + walk(
                        segments@,
                        used@,
                        origin,
                        cur,
                    ),
                    cur == link_end(segments@, (seq![first] + walked).last()),
                    closed == same_bucket(cur, origin),
                    open_end ==> walk(segments@, used@, origin, cur) == Seq::<Link>::empty(),
                    points@ == Seq::new(
                        walked.len() + 1,
                        |i: int| link_start(segments@, (seq![first] + walked)[i]),
                    ),
                decreases unused_count(used@), if open_end { 0int } else { 1int },
            {
                match index.next_step(segments, &used, &cur) {
                    Some(l) => {
                        proof {
                            lemma_next_link_is_nearest(segments@, used@, cur, n as int);
                            lemma_use_one(used@, l.segment as int);
                            assert(walk(segments@, used@, origin, cur) == seq![l] + walk(
                                segments@,
                                used@.update(l.segment as int, true),
                                origin,
                                link_end(segments@, l),
                            ));
                        }
                        let ghost before = walked;
                        used.set(l.segment, true);
                        let e = segments[l.segment];
                        let start = if l.reversed {
                            e.b
                        } else {
                            e.a
                        };
                        points.push(start);
                        cur = if l.reversed {
                            e.a
                        } else {
                            e.b
                        };
                        proof {
                            walked = walked.push(l);
                            assert(walked.drop_last() =~= before);
                            assert(before + (seq![l] + walk(segments@, used@, origin, cur))
                                =~= walked + walk(segments@, used@, origin, cur));
                            assert(seq![first] + walked =~= (seq![first] + before).push(l));
                            assert(points@ =~= Seq::new(
                                walked.len() + 1,
                                |i: int| link_start(segments@, (seq![first] + walked)[i]),
                            ));
                        }
                        closed = in_same_bucket(&cur, &origin);
                    },
                    None => {
                        open_end = true;
                    },
                }
            }
            proof {
                let links = seq![first] + walked;
                assert(walk(segments@, used@, origin, cur) == Seq::<Link>::empty());
                assert(walked + Seq::<Link>::empty() =~= walked);
                assert(links[0] == first);
                assert(closed == is_closed(segments@, links));
            }
            if !closed {
                points.push(cur);
            }
            proof {
                let links = seq![first] + walked;
                assert(points@ =~= outline(segments@, links));
                let ghost rest = contours_from(segments@, used@, from + 1);
                assert(done + (seq![links] + rest) =~= done.push(links) + rest);
                done = done.push(links);
            }
            contours.push(Contour { points, closed });
        }
        from += 1;
    }
    proof {
        assert(done + Seq::<Seq<Link>>::empty() =~= done);
    }
    contours
}

} // verus!
