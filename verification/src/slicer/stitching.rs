//! What holds of every stitching: the laws of the walks that
//! [`assembled`](crate::slicer::contour::assembled) describes.
use vstd::prelude::*;
use crate::geometry::{Edge, Point};
use crate::slicer::contour::{
    assembled, contours_from, ends_at, is_candidate, is_closed, is_manifold,
    lemma_next_link_is_nearest, lemma_use_one, link_end, link_start, marked, next_link, none_used,
    same_bucket, unused_count, walk, Link,
};

verus! {

/// Whether `links` is a chain over `segs`: it has a first step, which is
/// walked forwards, and every further step starts in the cell where the one
/// before it ends.
pub open spec fn is_chain(segs: Seq<Edge>, links: Seq<Link>) -> bool {
    &&& links.len() > 0
    &&& !links[0].reversed
    &&& forall|k: int|
        0 < k < links.len() ==> same_bucket(
            link_start(segs, #[trigger] links[k]),
            link_end(segs, links[k - 1]),
        )
}

/// Whether the steps `links` each use a segment that `used` leaves unused,
/// and no two of them the same.
pub open spec fn uses_fresh(links: Seq<Link>, used: Seq<bool>) -> bool {
    &&& forall|k: int|
        0 <= k < links.len() ==> (#[trigger] links[k]).segment < used.len()
            && !used[links[k].segment as int]
    &&& forall|k: int, m: int|
        0 <= k < m < links.len() ==> (#[trigger] links[k]).segment != (#[trigger] links[m]).segment
}

/// After the steps `links`, a segment is used if it was used before or one of
/// the steps used it.
pub proof fn lemma_marked(used: Seq<bool>, links: Seq<Link>)
    requires
        forall|k: int| 0 <= k < links.len() ==> (#[trigger] links[k]).segment < used.len(),
    ensures
        marked(used, links).len() == used.len(),
        forall|i: int|
            0 <= i < used.len() ==> (#[trigger] marked(used, links)[i] <==> used[i] || exists|
                k: int,
            |
                0 <= k < links.len() && (#[trigger] links[k]).segment == i),
    decreases links.len(),
{
    if links.len() > 0 {
        let before = links.drop_last();
        lemma_marked(used, before);
        assert forall|i: int| 0 <= i < used.len() implies (#[trigger] marked(used, links)[i]
            <==> used[i] || exists|k: int|
            0 <= k < links.len() && (#[trigger] links[k]).segment == i) by {
            if marked(used, links)[i] {
                if i == links.last().segment {
                    assert(links[links.len() - 1].segment == i);
                } else if !used[i] {
                    let k = choose|k: int|
                        0 <= k < before.len() && (#[trigger] before[k]).segment == i;
                    assert(links[k].segment == i);
                }
            } else {
                assert forall|k: int| 0 <= k < links.len() implies (#[trigger] links[k]).segment
                    != i by {
                    if k < links.len() - 1 {
                        assert(before[k].segment != i);
                    }
                }
            }
        }
    }
}

/// Taking a step and then further steps marks the same segments as taking
/// them all.
proof fn lemma_marked_first(used: Seq<bool>, l: Link, rest: Seq<Link>)
    ensures
        marked(used, seq![l] + rest) == marked(used.update(l.segment as int, true), rest),
    decreases rest.len(),
{
    let all = seq![l] + rest;
    if rest.len() == 0 {
        assert(all.drop_last() =~= Seq::<Link>::empty());
        assert(marked(used, all.drop_last()) == used);
    } else {
        assert(all.drop_last() =~= seq![l] + rest.drop_last());
        assert(all.last() == rest.last());
        lemma_marked_first(used, l, rest.drop_last());
    }
}

/// Where every segment is used, none is unused.
proof fn lemma_all_used(used: Seq<bool>)
    requires
        forall|i: int| 0 <= i < used.len() ==> used[i],
    ensures
        unused_count(used) == 0,
    decreases used.len(),
{
    if used.len() > 0 {
        lemma_all_used(used.drop_last());
    }
}

/// Where no segment is used, all are unused.
proof fn lemma_none_used(n: nat)
    ensures
        unused_count(none_used(n)) == n,
    decreases n,
{
    if n > 0 {
        assert(none_used(n).drop_last() =~= none_used((n - 1) as nat));
        lemma_none_used((n - 1) as nat);
    }
}

/// Where a walk that stood at `cur` stands after the steps `links`.
pub open spec fn walk_end(segs: Seq<Edge>, cur: Point, links: Seq<Link>) -> Point {
    if links.len() == 0 {
        cur
    } else {
        link_end(segs, links.last())
    }
}

/// A walk takes only unused segments, each once; it starts in the cell it
/// stands in, and each of its steps starts in the cell where the one before
/// ends; it leaves as many fewer segments unused as it has steps; and where
/// it ends it is back in the cell of `origin` or finds no step to take.
pub proof fn lemma_walk(segs: Seq<Edge>, used: Seq<bool>, origin: Point, cur: Point)
    requires
        used.len() == segs.len(),
    ensures
        uses_fresh(walk(segs, used, origin, cur), used),
        walk(segs, used, origin, cur).len() > 0 ==> same_bucket(
            link_start(segs, walk(segs, used, origin, cur)[0]),
            cur,
        ),
        forall|k: int|
            0 < k < walk(segs, used, origin, cur).len() ==> same_bucket(
                link_start(segs, #[trigger] walk(segs, used, origin, cur)[k]),
                link_end(segs, walk(segs, used, origin, cur)[k - 1]),
            ),
        unused_count(marked(used, walk(segs, used, origin, cur))) + walk(
            segs,
            used,
            origin,
            cur,
        ).len() == unused_count(used),
        same_bucket(walk_end(segs, cur, walk(segs, used, origin, cur)), origin) || forall|
            o: Link,
        |
            !#[trigger] is_candidate(
                segs,
                marked(used, walk(segs, used, origin, cur)),
                walk_end(segs, cur, walk(segs, used, origin, cur)),
                o,
            ),
    decreases unused_count(used),
{
    let links = walk(segs, used, origin, cur);
    if same_bucket(cur, origin) {
    } else {
        lemma_next_link_is_nearest(segs, used, cur, segs.len() as int);
        match next_link(segs, used, cur, segs.len() as int) {
            Some(l) => {
                lemma_next_link_is_nearest(segs, used, cur, segs.len() as int);
                lemma_use_one(used, l.segment as int);
                let begun = used.update(l.segment as int, true);
                let rest = walk(segs, begun, origin, link_end(segs, l));
                lemma_walk(segs, begun, origin, link_end(segs, l));
                assert(links == seq![l] + rest);
                lemma_marked_first(used, l, rest);
                assert(walk_end(segs, cur, links) == walk_end(segs, link_end(segs, l), rest)) by {
                    if rest.len() > 0 {
                        assert(links.last() == rest.last());
                    }
                }
                assert forall|k: int| 0 <= k < links.len() implies (#[trigger] links[k]).segment
                    < used.len() && !used[links[k].segment as int] by {
                    if k > 0 {
                        assert(links[k] == rest[k - 1]);
                    }
                }
                assert forall|k: int, m: int| 0 <= k < m < links.len() implies (
                #[trigger] links[k]).segment != (#[trigger] links[m]).segment by {
                    assert(links[m] == rest[m - 1]);
                    if k > 0 {
                        assert(links[k] == rest[k - 1]);
                    }
                }
                assert(links[0] == l);
                assert forall|k: int| 0 < k < links.len() implies same_bucket(
                    link_start(segs, #[trigger] links[k]),
                    link_end(segs, links[k - 1]),
                ) by {
                    assert(links[k] == rest[k - 1]);
                    if k > 1 {
                        assert(links[k - 1] == rest[k - 2]);
                    }
                }
            },
            None => {},
        }
    }
}

/// The walks from `from` on are chains that together take exactly the
/// segments still unused, each once.
pub proof fn lemma_contours(segs: Seq<Edge>, used: Seq<bool>, from: int)
    requires
        segs.len() <= usize::MAX,
        used.len() == segs.len(),
        0 <= from <= segs.len(),
        forall|i: int| 0 <= i < from ==> used[i],
    ensures
        uses_fresh(contours_from(segs, used, from).flatten(), used),
        contours_from(segs, used, from).flatten().len() == unused_count(used),
        forall|w: int|
            0 <= w < contours_from(segs, used, from).len() ==> is_chain(
                segs,
                #[trigger] contours_from(segs, used, from)[w],
            ),
    decreases segs.len() - from,
{
    let walks = contours_from(segs, used, from);
    if from >= segs.len() {
        lemma_all_used(used);
    } else if used[from] {
        lemma_contours(segs, used, from + 1);
    } else {
        let first = Link { segment: from as usize, reversed: false };
        let begun = used.update(from, true);
        let rest = walk(segs, begun, segs[from].a, segs[from].b);
        let contour = seq![first] + rest;
        let after = marked(begun, rest);
        let tail = contours_from(segs, after, from + 1);
        lemma_use_one(used, from);
        lemma_walk(segs, begun, segs[from].a, segs[from].b);
        lemma_marked(begun, rest);
        lemma_contours(segs, after, from + 1);
        let flat_tail = tail.flatten();
        let flat = walks.flatten();
        assert(walks == seq![contour] + tail);
        assert(walks.first() == contour);
        assert(walks.drop_first() =~= tail);
        assert(flat == contour + flat_tail);
        assert forall|k: int| 0 <= k < flat.len() implies (#[trigger] flat[k]).segment < used.len()
            && !used[flat[k].segment as int] && (k > 0 ==> flat[k].segment != from) && (k
            >= contour.len() ==> !after[flat[k].segment as int]) by {
            if k == 0 {
            } else if k < contour.len() {
                assert(flat[k] == rest[k - 1]);
            } else {
                assert(flat[k] == flat_tail[k - contour.len()]);
            }
        }
        assert forall|k: int, m: int| 0 <= k < m < flat.len() implies (#[trigger] flat[k]).segment
            != (#[trigger] flat[m]).segment by {
            if m < contour.len() {
                assert(flat[m] == rest[m - 1]);
                if k > 0 {
                    assert(flat[k] == rest[k - 1]);
                }
            } else {
                assert(flat[m] == flat_tail[m - contour.len()]);
                if k == 0 {
                } else if k < contour.len() {
                    assert(flat[k] == rest[k - 1]);
                    assert(rest[k - 1].segment == flat[k].segment);
                    assert(after[flat[k].segment as int]);
                } else {
                    assert(flat[k] == flat_tail[k - contour.len()]);
                }
            }
        }
        assert forall|w: int| 0 <= w < walks.len() implies is_chain(segs, #[trigger] walks[w]) by {
            if w == 0 {
                assert(contour[0] == first);
                assert forall|k: int| 0 < k < contour.len() implies same_bucket(
                    link_start(segs, #[trigger] contour[k]),
                    link_end(segs, contour[k - 1]),
                ) by {
                    assert(contour[k] == rest[k - 1]);
                    if k > 1 {
                        assert(contour[k - 1] == rest[k - 2]);
                    }
                }
            } else {
                assert(walks[w] == tail[w - 1]);
            }
        }
    }
}

/// Whether no step of the walks after walk `w` uses a segment with an end in
/// the cell where walk `w` ends.
pub open spec fn is_stuck(segs: Seq<Edge>, walks: Seq<Seq<Link>>, w: int) -> bool {
    forall|j: int, k: int|
        w < j < walks.len() && 0 <= k < walks[j].len() ==> !same_bucket(
            segs[(#[trigger] walks[j][k]).segment as int].a,
            link_end(segs, walks[w].last()),
        ) && !same_bucket(segs[walks[j][k].segment as int].b, link_end(segs, walks[w].last()))
}

/// Whether walk `w` starts with a lower-numbered segment than any of its
/// further steps and any step of a later walk uses.
pub open spec fn starts_lowest(walks: Seq<Seq<Link>>, w: int) -> bool {
    forall|j: int, k: int|
        w <= j < walks.len() && 0 <= k < walks[j].len() && (j > w || k > 0) ==> walks[w][0].segment
            < (#[trigger] walks[j][k]).segment
}

/// The walks from `from` on use segments numbered `from` or higher that are
/// still unused; each starts at the lowest-numbered segment that it and the
/// walks after it use; and each that is not closed ends where no later walk
/// finds a segment end.
pub proof fn lemma_contours_in_turn(segs: Seq<Edge>, used: Seq<bool>, from: int)
    requires
        segs.len() <= usize::MAX,
        used.len() == segs.len(),
        0 <= from <= segs.len(),
        forall|i: int| 0 <= i < from ==> used[i],
    ensures
        forall|j: int, k: int|
            0 <= j < contours_from(segs, used, from).len() && 0 <= k < contours_from(
                segs,
                used,
                from,
            )[j].len() ==> from <= (#[trigger] contours_from(segs, used, from)[j][k]).segment
                < segs.len() && !used[contours_from(segs, used, from)[j][k].segment as int],
        forall|w: int|
            0 <= w < contours_from(segs, used, from).len() ==> {
                &&& (#[trigger] contours_from(segs, used, from)[w]).len() > 0
                &&& starts_lowest(contours_from(segs, used, from), w)
                &&& is_closed(segs, contours_from(segs, used, from)[w]) || is_stuck(
                    segs,
                    contours_from(segs, used, from),
                    w,
                )
            },
    decreases segs.len() - from,
{
    let walks = contours_from(segs, used, from);
    if from >= segs.len() {
        assert(walks.len() == 0);
    } else if used[from] {
        lemma_contours_in_turn(segs, used, from + 1);
        assert(walks == contours_from(segs, used, from + 1));
    } else {
        let first = Link { segment: from as usize, reversed: false };
        let begun = used.update(from, true);
        let origin = segs[from].a;
        let rest = walk(segs, begun, origin, segs[from].b);
        let contour = seq![first] + rest;
        let after = marked(begun, rest);
        let tail = contours_from(segs, after, from + 1);
        lemma_walk(segs, begun, origin, segs[from].b);
        lemma_marked(begun, rest);
        lemma_contours_in_turn(segs, after, from + 1);
        assert(walks == seq![contour] + tail);
        assert(walks[0] == contour);
        assert(contour[0] == first);
        assert forall|j: int, k: int| 0 <= j < walks.len() && 0 <= k < walks[j].len() implies from
            <= (#[trigger] walks[j][k]).segment < segs.len() && !used[walks[j][k].segment as int]
            && (j > 0 || k > 0 ==> walks[j][k].segment > from) && (j > 0
            ==> !after[walks[j][k].segment as int]) by {
            if j == 0 {
                if k > 0 {
                    assert(contour[k] == rest[k - 1]);
                }
            } else {
                assert(walks[j] == tail[j - 1]);
                assert(from + 1 <= tail[j - 1][k].segment);
            }
        }
        let end = link_end(segs, contour.last());
        assert(end == walk_end(segs, segs[from].b, rest)) by {
            if rest.len() > 0 {
                assert(contour.last() == rest.last());
            }
        }
        assert forall|w: int| 0 <= w < walks.len() implies (#[trigger] walks[w]).len() > 0
            && starts_lowest(walks, w) && (is_closed(segs, walks[w]) || is_stuck(
            segs,
            walks,
            w,
        )) by {
            if w == 0 {
                if !is_closed(segs, contour) {
                    assert forall|j: int, k: int| 0 < j < walks.len() && 0 <= k < walks[j].len()
                        implies !same_bucket(
                        segs[(#[trigger] walks[j][k]).segment as int].a,
                        end,
                    ) && !same_bucket(segs[walks[j][k].segment as int].b, end) by {
                        let l = walks[j][k];
                        assert(!after[l.segment as int]);
                        assert(!is_candidate(
                            segs,
                            after,
                            end,
                            Link { segment: l.segment, reversed: false },
                        ));
                        assert(!is_candidate(
                            segs,
                            after,
                            end,
                            Link { segment: l.segment, reversed: true },
                        ));
                    }
                }
            } else {
                assert(walks[w] == tail[w - 1]);
                assert(starts_lowest(tail, w - 1));
                assert forall|j: int, k: int|
                    w <= j < walks.len() && 0 <= k < walks[j].len() && (j > w || k > 0)
                    implies walks[w][0].segment < (#[trigger] walks[j][k]).segment by {
                    assert(walks[j] == tail[j - 1]);
                    assert(tail[w - 1][0].segment < tail[j - 1][k].segment);
                }
                if !is_closed(segs, walks[w]) {
                    assert(is_stuck(segs, tail, w - 1));
                    assert forall|j: int, k: int| w < j < walks.len() && 0 <= k < walks[j].len()
                        implies !same_bucket(
                        segs[(#[trigger] walks[j][k]).segment as int].a,
                        link_end(segs, walks[w].last()),
                    ) && !same_bucket(
                        segs[walks[j][k].segment as int].b,
                        link_end(segs, walks[w].last()),
                    ) by {
                        assert(walks[j] == tail[j - 1]);
                        let l = tail[j - 1][k];
                        assert(l == walks[j][k]);
                    }
                }
            }
        }
    }
}

/// Every walk of a stitching starts at the lowest-numbered segment that no
/// earlier walk took.
pub proof fn lemma_assembled_walks_start_lowest(segs: Seq<Edge>)
    requires
        segs.len() <= usize::MAX,
    ensures
        forall|w: int|
            0 <= w < assembled(segs).len() ==> (#[trigger] assembled(segs)[w]).len() > 0
                && starts_lowest(assembled(segs), w),
{
    let none = none_used(segs.len());
    lemma_contours_in_turn(segs, none, 0);
}

/// A walk of a stitching that does not close ends where nothing was left to
/// follow: no segment that a later walk takes has an end in that cell.
pub proof fn lemma_assembled_open_walks_are_stuck(segs: Seq<Edge>)
    requires
        segs.len() <= usize::MAX,
    ensures
        forall|w: int|
            0 <= w < assembled(segs).len() ==> is_closed(segs, #[trigger] assembled(segs)[w])
                || is_stuck(segs, assembled(segs), w),
{
    let none = none_used(segs.len());
    lemma_contours_in_turn(segs, none, 0);
}

/// Whether step `k` of the steps `links`, taken from `cur` on with `used`
/// marked, is the step that [`next_link`] finds where the walk then stands
/// among the segments then unused, with the walk not back in the cell of
/// `origin`.
pub open spec fn is_step_of_walk(
    segs: Seq<Edge>,
    used: Seq<bool>,
    origin: Point,
    cur: Point,
    links: Seq<Link>,
    k: int,
) -> bool {
    &&& !same_bucket(walk_end(segs, cur, links.take(k)), origin)
    &&& next_link(
        segs,
        marked(used, links.take(k)),
        walk_end(segs, cur, links.take(k)),
        segs.len() as int,
    ) == Some(links[k])
}

/// Every step of a walk is the step that [`next_link`] finds where the walk
/// then stands, among the segments then unused, and the walk takes it only
/// while it is not back in the cell of `origin`.
pub proof fn lemma_walk_steps(segs: Seq<Edge>, used: Seq<bool>, origin: Point, cur: Point)
    requires
        used.len() == segs.len(),
    ensures
        forall|k: int|
            0 <= k < walk(segs, used, origin, cur).len() ==> #[trigger] is_step_of_walk(
                segs,
                used,
                origin,
                cur,
                walk(segs, used, origin, cur),
                k,
            ),
    decreases unused_count(used),
{
    let links = walk(segs, used, origin, cur);
    if same_bucket(cur, origin) {
        assert(links.len() == 0);
    } else {
        lemma_next_link_is_nearest(segs, used, cur, segs.len() as int);
        match next_link(segs, used, cur, segs.len() as int) {
            Some(l) => {
                lemma_use_one(used, l.segment as int);
                let begun = used.update(l.segment as int, true);
                let rest = walk(segs, begun, origin, link_end(segs, l));
                lemma_walk_steps(segs, begun, origin, link_end(segs, l));
                assert(links == seq![l] + rest);
                assert forall|k: int| 0 <= k < links.len() implies #[trigger] is_step_of_walk(
                    segs,
                    used,
                    origin,
                    cur,
                    links,
                    k,
                ) by {
                    if k == 0 {
                        assert(links.take(0) =~= Seq::<Link>::empty());
                        assert(links[0] == l);
                    } else {
                        let before = rest.take(k - 1);
                        assert(links.take(k) =~= seq![l] + before);
                        assert(links[k] == rest[k - 1]);
                        assert(is_step_of_walk(
                            segs,
                            begun,
                            origin,
                            link_end(segs, l),
                            rest,
                            k - 1,
                        ));
                        lemma_marked_first(used, l, before);
                        assert(walk_end(segs, cur, links.take(k)) == walk_end(
                            segs,
                            link_end(segs, l),
                            before,
                        )) by {
                            if before.len() > 0 {
                                assert(links.take(k).last() == before.last());
                            }
                        }
                    }
                }
            },
            None => {
                assert(links.len() == 0);
            },
        }
    }
}

/// Whether step `m` of walk `j` comes before step `k` of walk `w`.
pub open spec fn comes_before(walks: Seq<Seq<Link>>, j: int, m: int, w: int, k: int) -> bool {
    0 <= j <= w && 0 <= m < walks[j].len() && (j < w || m < k)
}

/// The segments taken before step `k` of walk `w`: those that `used` marks
/// and those that the steps before that step take.
pub open spec fn taken_before(used: Seq<bool>, walks: Seq<Seq<Link>>, w: int, k: int) -> Seq<
    bool,
> {
    Seq::new(
        used.len(),
        |i: int|
            used[i] || exists|j: int, m: int|
                comes_before(walks, j, m, w, k) && (#[trigger] walks[j][m]).segment == i,
    )
}

/// Whether step `k` of walk `w`, which is not its first, is the step that
/// [`next_link`] finds from the end of the step before it among the segments
/// not taken before, with the walk not yet back in the cell it started from.
pub open spec fn is_next_step(
    segs: Seq<Edge>,
    used: Seq<bool>,
    walks: Seq<Seq<Link>>,
    w: int,
    k: int,
) -> bool {
    &&& !same_bucket(link_end(segs, walks[w][k - 1]), link_start(segs, walks[w][0]))
    &&& next_link(
        segs,
        taken_before(used, walks, w, k),
        link_end(segs, walks[w][k - 1]),
        segs.len() as int,
    ) == Some(walks[w][k])
}

/// Before step `k` of the first walk, the segments taken are those marked
/// when the walk began and those of its steps before `k`.
proof fn lemma_taken_in_first_walk(
    used: Seq<bool>,
    walks: Seq<Seq<Link>>,
    from: int,
    rest: Seq<Link>,
    k: int,
)
    requires
        0 <= from < used.len(),
        from <= usize::MAX,
        walks.len() > 0,
        walks[0] == seq![Link { segment: from as usize, reversed: false }] + rest,
        0 < k <= rest.len(),
        forall|m: int| 0 <= m < rest.len() ==> (#[trigger] rest[m]).segment < used.len(),
    ensures
        marked(used.update(from, true), rest.take(k - 1)) == taken_before(used, walks, 0, k),
{
    let begun = used.update(from, true);
    let before = rest.take(k - 1);
    let contour = walks[0];
    assert forall|m: int| 0 <= m < before.len() implies (#[trigger] before[m]).segment
        < begun.len() by {
        assert(before[m] == rest[m]);
    }
    lemma_marked(begun, before);
    let now = marked(begun, before);
    let listed = taken_before(used, walks, 0, k);
    assert forall|i: int| 0 <= i < used.len() implies now[i] == listed[i] by {
        if now[i] && !used[i] {
            if i == from {
                assert(comes_before(walks, 0, 0, 0, k));
                assert(walks[0][0].segment == i);
            } else {
                let m = choose|m: int| 0 <= m < before.len() && (#[trigger] before[m]).segment == i;
                assert(before[m] == rest[m]);
                assert(contour[m + 1] == rest[m]);
                assert(comes_before(walks, 0, m + 1, 0, k));
                assert(walks[0][m + 1].segment == i);
            }
        }
        if listed[i] && !used[i] {
            let (j, m) = choose|j: int, m: int|
                comes_before(walks, j, m, 0, k) && (#[trigger] walks[j][m]).segment == i;
            if m > 0 {
                assert(contour[m] == rest[m - 1]);
                assert(before[m - 1] == rest[m - 1]);
                assert(before[m - 1].segment == i);
            }
        }
    }
    assert(now =~= listed);
}

/// Before a step of a later walk, the segments taken are the same whether
/// the first walk is counted among the walks or among what was marked before.
proof fn lemma_taken_in_later_walk(
    used: Seq<bool>,
    after: Seq<bool>,
    walks: Seq<Seq<Link>>,
    tail: Seq<Seq<Link>>,
    w: int,
    k: int,
)
    requires
        walks.len() > 0,
        walks == seq![walks[0]] + tail,
        0 < w < walks.len(),
        after.len() == used.len(),
        forall|i: int|
            0 <= i < used.len() ==> (#[trigger] after[i] <==> used[i] || exists|m: int|
                0 <= m < walks[0].len() && (#[trigger] walks[0][m]).segment == i),
    ensures
        taken_before(after, tail, w - 1, k) == taken_before(used, walks, w, k),
{
    let shifted = taken_before(after, tail, w - 1, k);
    let listed = taken_before(used, walks, w, k);
    assert forall|i: int| 0 <= i < used.len() implies shifted[i] == listed[i] by {
        if shifted[i] && !used[i] {
            if after[i] {
                let m = choose|m: int|
                    0 <= m < walks[0].len() && (#[trigger] walks[0][m]).segment == i;
                assert(comes_before(walks, 0, m, w, k));
            } else {
                let (j, m) = choose|j: int, m: int|
                    comes_before(tail, j, m, w - 1, k) && (#[trigger] tail[j][m]).segment == i;
                assert(walks[j + 1] == tail[j]);
                assert(comes_before(walks, j + 1, m, w, k));
                assert(walks[j + 1][m].segment == i);
            }
        }
        if listed[i] && !used[i] {
            let (j, m) = choose|j: int, m: int|
                comes_before(walks, j, m, w, k) && (#[trigger] walks[j][m]).segment == i;
            if j == 0 {
                assert(walks[0][m].segment == i);
                assert(after[i]);
            } else {
                assert(walks[j] == tail[j - 1]);
                assert(comes_before(tail, j - 1, m, w - 1, k));
                assert(tail[j - 1][m].segment == i);
            }
        }
    }
    assert(shifted =~= listed);
}

/// After the first walk, a segment is marked if it was marked before or the
/// walk took it.
proof fn lemma_marked_by_first_walk(used: Seq<bool>, from: int, rest: Seq<Link>)
    requires
        0 <= from < used.len(),
        from <= usize::MAX,
        forall|m: int| 0 <= m < rest.len() ==> (#[trigger] rest[m]).segment < used.len(),
    ensures
        ({
            let contour = seq![Link { segment: from as usize, reversed: false }] + rest;
            let after = marked(used.update(from, true), rest);
            &&& after.len() == used.len()
            &&& forall|i: int|
                0 <= i < used.len() ==> (#[trigger] after[i] <==> used[i] || exists|m: int|
                    0 <= m < contour.len() && (#[trigger] contour[m]).segment == i)
        }),
{
    let begun = used.update(from, true);
    let contour = seq![Link { segment: from as usize, reversed: false }] + rest;
    let after = marked(begun, rest);
    lemma_marked(begun, rest);
    assert forall|i: int| 0 <= i < used.len() implies (#[trigger] after[i] <==> used[i]
        || exists|m: int| 0 <= m < contour.len() && (#[trigger] contour[m]).segment == i) by {
        if after[i] && !used[i] {
            if i == from {
                assert(contour[0].segment == i);
            } else {
                let m = choose|m: int| 0 <= m < rest.len() && (#[trigger] rest[m]).segment == i;
                assert(contour[m + 1] == rest[m]);
                assert(contour[m + 1].segment == i);
            }
        }
        if !after[i] {
            assert forall|m: int| 0 <= m < contour.len() implies (#[trigger] contour[m]).segment
                != i by {
                if m > 0 {
                    assert(contour[m] == rest[m - 1]);
                    assert(rest[m - 1].segment != i);
                }
            }
        }
    }
}

/// In the walks from `from` on, every step but the first of a walk is the
/// next step from where the walk then stands.
pub proof fn lemma_contours_steps(segs: Seq<Edge>, used: Seq<bool>, from: int)
    requires
        segs.len() <= usize::MAX,
        used.len() == segs.len(),
        0 <= from <= segs.len(),
        forall|i: int| 0 <= i < from ==> used[i],
    ensures
        forall|w: int, k: int|
            0 <= w < contours_from(segs, used, from).len() && 0 < k < contours_from(
                segs,
                used,
                from,
            )[w].len() ==> #[trigger] is_next_step(
                segs,
                used,
                contours_from(segs, used, from),
                w,
                k,
            ),
    decreases segs.len() - from,
{
    let walks = contours_from(segs, used, from);
    if from >= segs.len() {
        assert(walks.len() == 0);
    } else if used[from] {
        lemma_contours_steps(segs, used, from + 1);
        assert(walks == contours_from(segs, used, from + 1));
    } else {
        let first = Link { segment: from as usize, reversed: false };
        let begun = used.update(from, true);
        let origin = segs[from].a;
        let rest = walk(segs, begun, origin, segs[from].b);
        let contour = seq![first] + rest;
        let after = marked(begun, rest);
        let tail = contours_from(segs, after, from + 1);
        lemma_walk(segs, begun, origin, segs[from].b);
        lemma_walk_steps(segs, begun, origin, segs[from].b);
        lemma_marked_by_first_walk(used, from, rest);
        assert forall|i: int| 0 <= i < from + 1 implies after[i] by {
            if i == from {
                assert(contour[0].segment == from);
            }
        }
        lemma_contours_steps(segs, after, from + 1);
        assert(walks == seq![contour] + tail);
        assert(walks[0] == contour);
        assert(contour[0] == first);
        assert forall|w: int, k: int| 0 <= w < walks.len() && 0 < k < walks[w].len()
            implies #[trigger] is_next_step(segs, used, walks, w, k) by {
            if w == 0 {
                let before = rest.take(k - 1);
                assert(contour[k] == rest[k - 1]);
                assert(is_step_of_walk(segs, begun, origin, segs[from].b, rest, k - 1));
                assert(walk_end(segs, segs[from].b, before) == link_end(segs, contour[k - 1])) by {
                    if k > 1 {
                        assert(before.last() == rest[k - 2]);
                        assert(contour[k - 1] == rest[k - 2]);
                    }
                }
                lemma_taken_in_first_walk(used, walks, from, rest, k);
            } else {
                assert(walks[w] == tail[w - 1]);
                assert(is_next_step(segs, after, tail, w - 1, k));
                lemma_taken_in_later_walk(used, after, walks, tail, w, k);
            }
        }
    }
}

/// In a stitching, every step but the first of a walk is the step that
/// [`next_link`] finds from the end of the step before it, among the segments
/// that no step before it took; and a walk goes on only while it is not back
/// in the cell it started from.
pub proof fn lemma_assembled_steps_are_next(segs: Seq<Edge>)
    requires
        segs.len() <= usize::MAX,
    ensures
        forall|w: int, k: int|
            0 <= w < assembled(segs).len() && 0 < k < assembled(segs)[w].len()
                ==> #[trigger] is_next_step(
                segs,
                none_used(segs.len()),
                assembled(segs),
                w,
                k,
            ),
{
    let none = none_used(segs.len());
    lemma_contours_steps(segs, none, 0);
}

/// Stitching uses every segment exactly once: the steps of all walks are as
/// many as there are segments, and no two of them take the same segment.
pub proof fn lemma_assembled_uses_each_segment_once(segs: Seq<Edge>)
    requires
        segs.len() <= usize::MAX,
    ensures
        assembled(segs).flatten().len() == segs.len(),
        forall|k: int|
            0 <= k < assembled(segs).flatten().len() ==> (#[trigger] assembled(
                segs,
            ).flatten()[k]).segment < segs.len(),
        forall|k: int, m: int|
            0 <= k < m < assembled(segs).flatten().len() ==> (#[trigger] assembled(
                segs,
            ).flatten()[k]).segment != (#[trigger] assembled(segs).flatten()[m]).segment,
{
    let none = none_used(segs.len());
    lemma_none_used(segs.len());
    lemma_contours(segs, none, 0);
}

/// Every walk of a stitching is a chain: it starts with a segment walked
/// forwards, and each step starts in the cell where the one before ends.
pub proof fn lemma_assembled_walks_are_chains(segs: Seq<Edge>)
    requires
        segs.len() <= usize::MAX,
    ensures
        forall|w: int|
            0 <= w < assembled(segs).len() ==> is_chain(segs, #[trigger] assembled(segs)[w]),
{
    let none = none_used(segs.len());
    lemma_contours(segs, none, 0);
}

/// How many ends of `e` fall in the grid cell of `p`.
pub open spec fn hits(e: Edge, p: Point) -> nat {
    (if same_bucket(e.a, p) {
        1nat
    } else {
        0nat
    }) + (if same_bucket(e.b, p) {
        1nat
    } else {
        0nat
    })
}

/// How many ends of the first `m` segments fall in the grid cell of `p`,
/// counting all segments (`only_used` false) or only the used ones.
pub open spec fn ends_upto(
    segs: Seq<Edge>,
    used: Seq<bool>,
    only_used: bool,
    p: Point,
    m: int,
) -> nat
    decreases m,
{
    if m <= 0 {
        0
    } else {
        ends_upto(segs, used, only_used, p, m - 1) + if !only_used || used[m - 1] {
            hits(segs[m - 1], p)
        } else {
            0nat
        }
    }
}

/// Whether an odd number of ends of used segments falls in the cell of `p`.
pub open spec fn odd_at(segs: Seq<Edge>, used: Seq<bool>, p: Point) -> bool {
    ends_upto(segs, used, true, p, segs.len() as int) % 2 == 1
}

/// Whether the used segments pair up their ends in every cell but those of
/// `origin` and `cur`, where one end is left over unless the two are the same
/// cell.
pub open spec fn balanced(segs: Seq<Edge>, used: Seq<bool>, origin: Point, cur: Point) -> bool {
    forall|q: Point| #[trigger]
        odd_at(segs, used, q) == (same_bucket(q, origin) != same_bucket(q, cur))
}

/// The ends of the first `m` segments, counted either way, are the same
/// number.
proof fn lemma_ends_upto(segs: Seq<Edge>, used: Seq<bool>, p: Point, m: int)
    requires
        0 <= m <= segs.len(),
    ensures
        ends_upto(segs, used, false, p, m) == ends_at(segs.take(m), p),
    decreases m,
{
    if m > 0 {
        lemma_ends_upto(segs, used, p, m - 1);
        assert(segs.take(m).drop_last() =~= segs.take(m - 1));
        assert(segs.take(m).last() == segs[m - 1]);
    }
}

/// Using a segment adds its ends to the ends of used segments.
proof fn lemma_ends_of_one_more(segs: Seq<Edge>, used: Seq<bool>, i: int, p: Point, m: int)
    requires
        0 <= i < used.len(),
        !used[i],
        0 <= m <= used.len(),
    ensures
        ends_upto(segs, used.update(i, true), true, p, m) == ends_upto(segs, used, true, p, m)
            + if i < m {
            hits(segs[i], p)
        } else {
            0nat
        },
    decreases m,
{
    if m > 0 {
        lemma_ends_of_one_more(segs, used, i, p, m - 1);
    }
}

/// The used segments have no more ends in a cell than all segments have, and
/// where they have fewer, an unused segment has an end there.
proof fn lemma_room_in_cell(segs: Seq<Edge>, used: Seq<bool>, p: Point, m: int)
    requires
        0 <= m <= segs.len(),
        used.len() == segs.len(),
    ensures
        ends_upto(segs, used, true, p, m) <= ends_upto(segs, used, false, p, m),
        ends_upto(segs, used, true, p, m) < ends_upto(segs, used, false, p, m) ==> exists|
            i: int,
        |
            0 <= i < m && !#[trigger] used[i] && hits(segs[i], p) > 0,
    decreases m,
{
    if m > 0 {
        lemma_room_in_cell(segs, used, p, m - 1);
        if ends_upto(segs, used, true, p, m) < ends_upto(segs, used, false, p, m) {
            if !used[m - 1] && hits(segs[m - 1], p) > 0 {
            } else {
                let i = choose|i: int|
                    0 <= i < m - 1 && !#[trigger] used[i] && hits(segs[i], p) > 0;
                assert(!used[i]);
            }
        }
    }
}

/// Where no segment is used, no end of a used segment falls anywhere.
proof fn lemma_no_ends_used(segs: Seq<Edge>, p: Point, m: int)
    requires
        0 <= m <= segs.len(),
    ensures
        ends_upto(segs, none_used(segs.len()), true, p, m) == 0,
    decreases m,
{
    if m > 0 {
        lemma_no_ends_used(segs, p, m - 1);
    }
}

/// Using the segment of a step moves the left-over end from where the step
/// starts to where it ends.
proof fn lemma_step_keeps_balance(
    segs: Seq<Edge>,
    used: Seq<bool>,
    origin: Point,
    cur: Point,
    l: Link,
)
    requires
        used.len() == segs.len(),
        l.segment < segs.len(),
        !used[l.segment as int],
        same_bucket(link_start(segs, l), cur),
        balanced(segs, used, origin, cur),
    ensures
        balanced(segs, used.update(l.segment as int, true), origin, link_end(segs, l)),
{
    let begun = used.update(l.segment as int, true);
    assert forall|q: Point| #[trigger]
        odd_at(segs, begun, q) == (same_bucket(q, origin) != same_bucket(
            q,
            link_end(segs, l),
        )) by {
        lemma_ends_of_one_more(segs, used, l.segment as int, q, segs.len() as int);
        assert(odd_at(segs, used, q) == (same_bucket(q, origin) != same_bucket(q, cur)));
        assert(same_bucket(link_start(segs, l), q) == same_bucket(q, cur));
        assert(same_bucket(link_end(segs, l), q) == same_bucket(q, link_end(segs, l)));
    }
}

/// In a cross-section whose every corner joins exactly two segment ends, a
/// walk that has one end left over where it started and one where it stands
/// comes back to the cell it started from, and then no end is left over.
pub proof fn lemma_walk_closes(segs: Seq<Edge>, used: Seq<bool>, origin: Point, cur: Point)
    requires
        segs.len() <= usize::MAX,
        used.len() == segs.len(),
        is_manifold(segs),
        ends_at(segs, cur) == 2,
        balanced(segs, used, origin, cur),
    ensures
        same_bucket(walk_end(segs, cur, walk(segs, used, origin, cur)), origin),
        balanced(segs, marked(used, walk(segs, used, origin, cur)), origin, origin),
    decreases unused_count(used),
{
    let links = walk(segs, used, origin, cur);
    let n = segs.len() as int;
    if same_bucket(cur, origin) {
        assert(links.len() == 0);
        assert forall|q: Point| #[trigger]
            odd_at(segs, used, q) == (same_bucket(q, origin) != same_bucket(q, origin)) by {
            assert(odd_at(segs, used, q) == (same_bucket(q, origin) != same_bucket(q, cur)));
        }
    } else {
        // One end in the cell of `cur` belongs to a used segment, so the
        // other belongs to an unused one, which the walk can follow.
        assert(odd_at(segs, used, cur));
        lemma_ends_upto(segs, used, cur, n);
        assert(segs.take(n) =~= segs);
        lemma_room_in_cell(segs, used, cur, n);
        let i = choose|i: int| 0 <= i < n && !#[trigger] used[i] && hits(segs[i], cur) > 0;
        let forwards = Link { segment: i as usize, reversed: false };
        let backwards = Link { segment: i as usize, reversed: true };
        assert(is_candidate(segs, used, cur, forwards) || is_candidate(
            segs,
            used,
            cur,
            backwards,
        ));
        lemma_next_link_is_nearest(segs, used, cur, n);
        let l = next_link(segs, used, cur, n)->Some_0;
        assert(next_link(segs, used, cur, n) is Some);
        lemma_use_one(used, l.segment as int);
        let begun = used.update(l.segment as int, true);
        let rest = walk(segs, begun, origin, link_end(segs, l));
        assert(links == seq![l] + rest);
        lemma_step_keeps_balance(segs, used, origin, cur, l);
        assert(ends_at(segs, segs[l.segment as int].a) == 2 && ends_at(
            segs,
            segs[l.segment as int].b,
        ) == 2);
        lemma_walk_closes(segs, begun, origin, link_end(segs, l));
        lemma_marked_first(used, l, rest);
        assert(walk_end(segs, cur, links) == walk_end(segs, link_end(segs, l), rest)) by {
            if rest.len() > 0 {
                assert(links.last() == rest.last());
            }
        }
    }
}

/// In a cross-section whose every corner joins exactly two segment ends, the
/// walks from `from` on all close, provided the segments used before pair up
/// their ends in every cell.
pub proof fn lemma_contours_close(segs: Seq<Edge>, used: Seq<bool>, from: int)
    requires
        segs.len() <= usize::MAX,
        used.len() == segs.len(),
        0 <= from <= segs.len(),
        is_manifold(segs),
        forall|q: Point| !#[trigger] odd_at(segs, used, q),
    ensures
        forall|w: int|
            0 <= w < contours_from(segs, used, from).len() ==> is_closed(
                segs,
                #[trigger] contours_from(segs, used, from)[w],
            ),
    decreases segs.len() - from,
{
    let walks = contours_from(segs, used, from);
    if from >= segs.len() {
        assert(walks.len() == 0);
    } else if used[from] {
        lemma_contours_close(segs, used, from + 1);
        assert(walks == contours_from(segs, used, from + 1));
    } else {
        let first = Link { segment: from as usize, reversed: false };
        let begun = used.update(from, true);
        let origin = segs[from].a;
        let rest = walk(segs, begun, origin, segs[from].b);
        let contour = seq![first] + rest;
        let after = marked(begun, rest);
        let tail = contours_from(segs, after, from + 1);
        assert forall|q: Point| #[trigger]
            odd_at(segs, begun, q) == (same_bucket(q, origin) != same_bucket(q, segs[from].b)) by {
            lemma_ends_of_one_more(segs, used, from, q, segs.len() as int);
            assert(!odd_at(segs, used, q));
            assert(same_bucket(segs[from].a, q) == same_bucket(q, origin));
            assert(same_bucket(segs[from].b, q) == same_bucket(q, segs[from].b));
        }
        assert(ends_at(segs, segs[from].a) == 2 && ends_at(segs, segs[from].b) == 2);
        lemma_walk_closes(segs, begun, origin, segs[from].b);
        lemma_walk(segs, begun, origin, segs[from].b);
        lemma_marked(begun, rest);
        assert forall|q: Point| !#[trigger] odd_at(segs, after, q) by {
            assert(odd_at(segs, after, q) == (same_bucket(q, origin) != same_bucket(q, origin)));
        }
        lemma_contours_close(segs, after, from + 1);
        assert(walks == seq![contour] + tail);
        assert(walks[0] == contour);
        assert(contour[0] == first);
        assert(link_end(segs, contour.last()) == walk_end(segs, segs[from].b, rest)) by {
            if rest.len() > 0 {
                assert(contour.last() == rest.last());
            }
        }
        assert forall|w: int| 0 <= w < walks.len() implies is_closed(segs, #[trigger] walks[w]) by {
            if w > 0 {
                assert(walks[w] == tail[w - 1]);
            }
        }
    }
}

/// The cut of a watertight surface stitches into closed contours only: where
/// every corner joins exactly two segment ends, every walk closes.
pub proof fn lemma_manifold_walks_close(segs: Seq<Edge>)
    requires
        segs.len() <= usize::MAX,
        is_manifold(segs),
    ensures
        forall|w: int|
            0 <= w < assembled(segs).len() ==> is_closed(segs, #[trigger] assembled(segs)[w]),
{
    assert forall|q: Point| !#[trigger] odd_at(segs, none_used(segs.len()), q) by {
        lemma_no_ends_used(segs, q, segs.len() as int);
    }
    lemma_contours_close(segs, none_used(segs.len()), 0);
}

} // verus!
