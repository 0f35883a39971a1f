//! The adjacency index of a cross-section: for every grid cell, the segment
//! ends that fall in it, chained in the order in which a walk looks at them.
//!
//! A walk that has reached a point asks the index for the ends in that
//! point's cell instead of looking at every segment.
use vstd::prelude::*;
use std::collections::HashMap;
use crate::geometry::{Edge, Point};
use crate::slicer::contour::{
    cell, cell_of, consider, dist2, ends_at, link_only, link_start, look_at, next_link, same_bucket,
    Link,
};

verus! {

broadcast use vstd::std_specs::hash::group_hash_axioms;

/// The place of the step `l` in the order in which steps are looked at:
/// segment by segment, each forwards and then reversed.
pub open spec fn rank(l: Link) -> int {
    2 * l.segment + if l.reversed {
        1int
    } else {
        0int
    }
}

/// The step at place `r` of that order.
pub open spec fn step_at(r: int) -> Link {
    Link { segment: (r / 2) as usize, reversed: r % 2 == 1 }
}

/// One number for the grid cell of `p`: its two cell indices side by side.
pub open spec fn cell_key(p: Point) -> int {
    cell(p.x as int) * 0x1_0000_0000_0000_0000 + cell(p.y as int)
}

/// The key of the cell in which the step at place `r` starts.
pub open spec fn key_at(segs: Seq<Edge>, r: int) -> int {
    cell_key(link_start(segs, step_at(r)))
}

/// Whether no step at a place from `lo` up to `hi` starts in the cell `key`.
pub open spec fn no_key_in(segs: Seq<Edge>, key: int, lo: int, hi: int) -> bool {
    forall|r: int| lo <= r < hi ==> #[trigger] key_at(segs, r) != key
}

/// Two points have the same key exactly when they fall in the same cell.
pub proof fn lemma_cell_key(p: Point, q: Point)
    ensures
        cell_key(p) == cell_key(q) <==> same_bucket(p, q),
{
}

/// A step stands at the place that its rank names.
pub proof fn lemma_step_at_rank(l: Link)
    ensures
        step_at(rank(l)) == l,
{
}

/// The best step among those at the first `m` places.
pub open spec fn best_upto(segs: Seq<Edge>, used: Seq<bool>, cur: Point, m: int) -> Option<Link>
    decreases m,
{
    if m <= 0 {
        None
    } else {
        consider(segs, used, cur, best_upto(segs, used, cur, m - 1), step_at(m - 1))
    }
}

/// Looking at the first `n` segments is looking at the first `2 n` places.
pub proof fn lemma_next_link_by_place(segs: Seq<Edge>, used: Seq<bool>, cur: Point, n: int)
    requires
        0 <= n <= usize::MAX,
    ensures
        next_link(segs, used, cur, n) == best_upto(segs, used, cur, 2 * n),
    decreases n,
{
    if n > 0 {
        lemma_next_link_by_place(segs, used, cur, n - 1);
        assert(step_at(2 * n - 2) == Link { segment: (n - 1) as usize, reversed: false });
        assert(step_at(2 * n - 1) == Link { segment: (n - 1) as usize, reversed: true });
        assert(best_upto(segs, used, cur, 2 * n) == consider(
            segs,
            used,
            cur,
            best_upto(segs, used, cur, 2 * n - 1),
            step_at(2 * n - 1),
        ));
        assert(best_upto(segs, used, cur, 2 * n - 1) == consider(
            segs,
            used,
            cur,
            best_upto(segs, used, cur, 2 * n - 2),
            step_at(2 * n - 2),
        ));
    }
}

/// Places at which no step starts in the cell of `cur` change nothing.
pub proof fn lemma_skip_places(segs: Seq<Edge>, used: Seq<bool>, cur: Point, lo: int, hi: int)
    requires
        0 <= lo <= hi,
        no_key_in(segs, cell_key(cur), lo, hi),
    ensures
        best_upto(segs, used, cur, hi) == best_upto(segs, used, cur, lo),
    decreases hi - lo,
{
    if lo < hi {
        lemma_skip_places(segs, used, cur, lo, hi - 1);
        assert(key_at(segs, hi - 1) != cell_key(cur));
        lemma_cell_key(link_start(segs, step_at(hi - 1)), cur);
    }
}

/// How many of the steps at the first `m` places start in the cell of `p`.
pub open spec fn starts_upto(segs: Seq<Edge>, p: Point, m: int) -> nat
    decreases m,
{
    if m <= 0 {
        0
    } else {
        starts_upto(segs, p, m - 1) + if key_at(segs, m - 1) == cell_key(p) {
            1nat
        } else {
            0nat
        }
    }
}

/// The ends of the first `i` segments are the starts of the steps at the
/// first `2 i` places.
pub proof fn lemma_ends_by_place(segs: Seq<Edge>, p: Point, i: int)
    requires
        0 <= i <= segs.len() <= usize::MAX,
    ensures
        ends_at(segs.take(i), p) == starts_upto(segs, p, 2 * i),
    decreases i,
{
    if i > 0 {
        lemma_ends_by_place(segs, p, i - 1);
        assert(segs.take(i).drop_last() =~= segs.take(i - 1));
        assert(segs.take(i).last() == segs[i - 1]);
        assert(step_at(2 * i - 2) == Link { segment: (i - 1) as usize, reversed: false });
        assert(step_at(2 * i - 1) == Link { segment: (i - 1) as usize, reversed: true });
        lemma_cell_key(segs[i - 1].a, p);
        lemma_cell_key(segs[i - 1].b, p);
        assert(starts_upto(segs, p, 2 * i) == starts_upto(segs, p, 2 * i - 1) + if key_at(
            segs,
            2 * i - 1,
        ) == cell_key(p) {
            1nat
        } else {
            0nat
        });
        assert(starts_upto(segs, p, 2 * i - 1) == starts_upto(segs, p, 2 * i - 2) + if key_at(
            segs,
            2 * i - 2,
        ) == cell_key(p) {
            1nat
        } else {
            0nat
        });
    }
}

/// Places at which no step starts in the cell of `p` add nothing to the
/// count, and other places never lower it.
pub proof fn lemma_starts_between(segs: Seq<Edge>, p: Point, lo: int, hi: int)
    requires
        0 <= lo <= hi,
    ensures
        starts_upto(segs, p, lo) <= starts_upto(segs, p, hi),
        no_key_in(segs, cell_key(p), lo, hi) ==> starts_upto(segs, p, hi) == starts_upto(
            segs,
            p,
            lo,
        ),
    decreases hi - lo,
{
    if lo < hi {
        lemma_starts_between(segs, p, lo, hi - 1);
        if no_key_in(segs, cell_key(p), lo, hi) {
            assert(key_at(segs, hi - 1) != cell_key(p));
            assert(no_key_in(segs, cell_key(p), lo, hi - 1));
        }
    }
}

/// The adjacency index of the segments of one cross-section.
pub struct Adjacency {
    /// For each cell that holds a segment end, the first step that starts in it.
    heads: HashMap<i128, Link>,
    /// For the forward step of each segment, the next step in the same cell.
    after_a: Vec<Option<Link>>,
    /// For the reversed step of each segment, the next step in the same cell.
    after_b: Vec<Option<Link>>,
}

impl Adjacency {
    /// The first step that starts in the cell `key`, if any does.
    pub closed spec fn head(&self, key: int) -> Option<Link> {
        if self.heads@.contains_key(key as i128) {
            Some(self.heads@[key as i128])
        } else {
            None
        }
    }

    /// The next step that starts in the same cell as `l`, if there is one.
    pub closed spec fn after(&self, l: Link) -> Option<Link> {
        if l.reversed {
            self.after_b@[l.segment as int]
        } else {
            self.after_a@[l.segment as int]
        }
    }

    /// Whether the step after `l` is the next one in the cell of `l`.
    pub open spec fn linked(&self, segs: Seq<Edge>, l: Link) -> bool {
        match self.after(l) {
            Some(m) => {
                &&& m.segment < segs.len()
                &&& rank(l) < rank(m)
                &&& key_at(segs, rank(m)) == key_at(segs, rank(l))
                &&& no_key_in(segs, key_at(segs, rank(l)), rank(l) + 1, rank(m))
            },
            None => no_key_in(segs, key_at(segs, rank(l)), rank(l) + 1, 2 * (segs.len() as int)),
        }
    }

    /// Whether the head of the cell `key` is the first step in that cell
    /// among those at place `frontier` or later.
    pub open spec fn headed(&self, segs: Seq<Edge>, key: i128, frontier: int) -> bool {
        match self.head(key as int) {
            Some(l) => {
                &&& l.segment < segs.len()
                &&& frontier <= rank(l)
                &&& key_at(segs, rank(l)) == key
                &&& no_key_in(segs, key as int, frontier, rank(l))
            },
            None => no_key_in(segs, key as int, frontier, 2 * (segs.len() as int)),
        }
    }

    /// Whether the index holds the steps of `segs` at place `frontier` or
    /// later.
    pub closed spec fn covers(&self, segs: Seq<Edge>, frontier: int) -> bool {
        &&& self.after_a@.len() == segs.len()
        &&& self.after_b@.len() == segs.len()
        &&& forall|key: i128| #[trigger] self.headed(segs, key, frontier)
        &&& forall|l: Link|
            l.segment < segs.len() && frontier <= rank(l) ==> #[trigger] self.linked(segs, l)
    }

    /// Whether this is the index of `segs`.
    pub open spec fn indexes(&self, segs: Seq<Edge>) -> bool {
        self.covers(segs, 0)
    }

    /// Enters the step `l` into an index that holds the steps after it.
    fn enter(&mut self, segments: &Vec<Edge>, l: Link)
        requires
            l.segment < segments@.len(),
            old(self).covers(segments@, rank(l) + 1),
        ensures
            final(self).covers(segments@, rank(l)),
    {
        let ghost segs = segments@;
        let e = segments[l.segment];
        let p = if l.reversed {
            e.b
        } else {
            e.a
        };
        let key = key_of(&p);
        let next = self.first_step(&p);
        if l.reversed {
            self.after_b.set(l.segment, next);
        } else {
            self.after_a.set(l.segment, next);
        }
        self.heads.insert(key, l);
        proof {
            lemma_step_at_rank(l);
            assert(key_at(segs, rank(l)) == key);
            assert(old(self).headed(segs, key, rank(l) + 1));
            assert forall|k: i128| #[trigger] self.headed(segs, k, rank(l)) by {
                if k != key {
                    assert(old(self).headed(segs, k, rank(l) + 1));
                    assert(self.head(k as int) == old(self).head(k as int));
                }
            }
            assert forall|m: Link| m.segment < segs.len() && rank(l) <= rank(m)
                implies #[trigger] self.linked(segs, m) by {
                if m == l {
                    assert(self.after(l) == next);
                } else {
                    assert(rank(m) != rank(l));
                    assert(old(self).linked(segs, m));
                    assert(self.after(m) == old(self).after(m));
                }
            }
        }
    }

    /// Builds the index of `segments`.
    pub fn new(segments: &Vec<Edge>) -> (index: Self)
        ensures
            index.indexes(segments@),
    {
        let n = segments.len();
        let mut after_a: Vec<Option<Link>> = Vec::new();
        let mut after_b: Vec<Option<Link>> = Vec::new();
        let mut k: usize = 0;
        while k < n
            invariant
                k <= n,
                after_a@.len() == k,
                after_b@.len() == k,
            decreases n - k,
        {
            after_a.push(None);
            after_b.push(None);
            k += 1;
        }
        let mut index = Adjacency { heads: HashMap::new(), after_a, after_b };
        let mut i: usize = n;
        proof {
            assert forall|key: i128| #[trigger] index.headed(segments@, key, 2 * n) by {}
        }
        while i > 0
            invariant
                n == segments@.len(),
                i <= n,
                index.covers(segments@, 2 * i),
            decreases i,
        {
            i -= 1;
            index.enter(segments, Link { segment: i, reversed: true });
            index.enter(segments, Link { segment: i, reversed: false });
        }
        index
    }

    /// The step after `l` in its cell.
    fn step_after(&self, l: Link) -> (r: Option<Link>)
        requires
            l.segment < self.after_a@.len(),
            l.segment < self.after_b@.len(),
        ensures
            r == self.after(l),
    {
        if l.reversed {
            self.after_b[l.segment]
        } else {
            self.after_a[l.segment]
        }
    }

    /// The first step in the cell of `p`.
    fn first_step(&self, p: &Point) -> (r: Option<Link>)
        ensures
            r == self.head(cell_key(*p)),
    {
        let key = key_of(p);
        match self.heads.get(&key) {
            Some(l) => Some(*l),
            None => None,
        }
    }

    /// Finds the step a walk standing at `cur` takes next.
    pub fn next_step(&self, segments: &Vec<Edge>, used: &Vec<bool>, cur: &Point) -> (r: Option<
        Link,
    >)
        requires
            self.indexes(segments@),
            used@.len() == segments@.len(),
        ensures
            r == next_link(segments@, used@, *cur, segments@.len() as int),
    {
        let ghost segs = segments@;
        let ghost n = segs.len() as int;
        let ghost key = cell_key(*cur);
        let mut at = self.first_step(cur);
        let mut best: Option<(Link, i64)> = None;
        proof {
            assert(self.headed(segs, key as i128, 0));
            match at {
                Some(l) => {
                    lemma_skip_places(segs, used@, *cur, 0, rank(l));
                },
                None => {
                    lemma_skip_places(segs, used@, *cur, 0, 2 * n);
                },
            }
        }
        while at.is_some()
            invariant
                self.indexes(segs),
                segs == segments@,
                n == segs.len(),
                key == cell_key(*cur),
                used@.len() == n,
                match at {
                    Some(l) => {
                        &&& l.segment < n
                        &&& key_at(segs, rank(l)) == key
                        &&& link_only(best) == best_upto(segs, used@, *cur, rank(l))
                    },
                    None => link_only(best) == best_upto(segs, used@, *cur, 2 * n),
                },
                match best {
                    Some((b, d)) => d == dist2(*cur, link_start(segs, b)),
                    None => true,
                },
            decreases
                    match at {
                        Some(l) => 2 * n - rank(l),
                        None => 0,
                    },
        {
            let l = at.unwrap();
            proof {
                lemma_step_at_rank(l);
                assert(self.linked(segs, l));
            }
            best = look_at(segments, used, cur, best, l);
            at = self.step_after(l);
            proof {
                assert(link_only(best) == best_upto(segs, used@, *cur, rank(l) + 1));
                match at {
                    Some(m) => {
                        lemma_skip_places(segs, used@, *cur, rank(l) + 1, rank(m));
                    },
                    None => {
                        lemma_skip_places(segs, used@, *cur, rank(l) + 1, 2 * n);
                    },
                }
            }
        }
        proof {
            assert(n == segments.len() as int);
            lemma_next_link_by_place(segs, used@, *cur, n);
        }
        match best {
            Some((l, _)) => Some(l),
            None => None,
        }
    }
}

impl Adjacency {
    /// Tests whether exactly two segment ends fall in the grid cell of `p`.
    pub fn joins_two(&self, segments: &Vec<Edge>, p: &Point) -> (r: bool)
        requires
            self.indexes(segments@),
        ensures
            r == (ends_at(segments@, *p) == 2),
    {
        let ghost segs = segments@;
        let ghost n = segs.len() as int;
        let ghost key = cell_key(*p);
        proof {
            assert(n == segments.len() as int);
            lemma_ends_by_place(segs, *p, n);
            assert(segs.take(n) =~= segs);
            assert(self.headed(segs, key as i128, 0));
        }
        let first = match self.first_step(p) {
            Some(first) => first,
            None => {
                proof {
                    lemma_starts_between(segs, *p, 0, 2 * n);
                }
                return false;
            },
        };
        proof {
            lemma_step_at_rank(first);
            assert(self.linked(segs, first));
            lemma_starts_between(segs, *p, 0, rank(first));
            assert(starts_upto(segs, *p, rank(first) + 1) == 1);
        }
        let second = match self.step_after(first) {
            Some(second) => second,
            None => {
                proof {
                    lemma_starts_between(segs, *p, rank(first) + 1, 2 * n);
                }
                return false;
            },
        };
        proof {
            lemma_step_at_rank(second);
            assert(self.linked(segs, second));
            lemma_starts_between(segs, *p, rank(first) + 1, rank(second));
            assert(starts_upto(segs, *p, rank(second) + 1) == 2);
        }
        match self.step_after(second) {
            Some(third) => {
                proof {
                    lemma_step_at_rank(third);
                    lemma_starts_between(segs, *p, rank(second) + 1, rank(third));
                    assert(starts_upto(segs, *p, rank(third) + 1) == 3);
                    lemma_starts_between(segs, *p, rank(third) + 1, 2 * n);
                }
                false
            },
            None => {
                proof {
                    lemma_starts_between(segs, *p, rank(second) + 1, 2 * n);
                }
                true
            },
        }
    }
}

/// The key of the grid cell of `p`.
fn key_of(p: &Point) -> (key: i128)
    ensures
        key == cell_key(*p),
{
    let x: i64 = cell_of(p.x);
    let y: i64 = cell_of(p.y);
    (x as i128) * 0x1_0000_0000_0000_0000 + (y as i128)
}

} // verus!
