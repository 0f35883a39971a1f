use slicey::geometry::{Edge, Point};
use slicey::slicer::adjacency::Adjacency;
use slicey::slicer::contour::{assemble, check_manifold, in_same_bucket, Contour, Link, BUCKET};

fn find_next(sides: &Vec<Edge>, used: &Vec<bool>, cur: &Point) -> Option<Link> {
    Adjacency::new(sides).next_step(sides, used, cur)
}

fn joins_two(sides: &Vec<Edge>, at: &Point) -> bool {
    Adjacency::new(sides).joins_two(sides, at)
}

fn p(x: i64, y: i64) -> Point {
    Point { x, y }
}

fn e(ax: i64, ay: i64, bx: i64, by: i64) -> Edge {
    Edge { a: p(ax, ay), b: p(bx, by) }
}

fn square() -> Vec<Edge> {
    vec![
        e(0, 0, 1000, 0),
        e(1000, 0, 1000, 1000),
        e(1000, 1000, 0, 1000),
        e(0, 1000, 0, 0),
    ]
}

fn permutations(n: usize) -> Vec<Vec<usize>> {
    if n == 0 {
        return vec![vec![]];
    }
    let mut all = Vec::new();
    for shorter in permutations(n - 1) {
        for at in 0..n {
            let mut longer = shorter.clone();
            longer.insert(at, n - 1);
            all.push(longer);
        }
    }
    all
}

#[test]
fn square_gives_one_closed_contour_of_four_points() {
    let contours = assemble(&square());
    assert_eq!(
        contours,
        vec![Contour { points: vec![p(0, 0), p(1000, 0), p(1000, 1000), p(0, 1000)], closed: true }]
    );
}

#[test]
fn square_gives_one_closed_contour_in_every_order_of_its_segments() {
    let sides = square();
    let orders = permutations(4);
    assert_eq!(orders.len(), 24);
    for order in orders {
        let shuffled: Vec<Edge> = order.iter().map(|i| sides[*i]).collect();
        let contours = assemble(&shuffled);
        assert_eq!(contours.len(), 1, "order {:?}", order);
        assert!(contours[0].closed, "order {:?}", order);
        assert_eq!(contours[0].points.len(), 4, "order {:?}", order);
        // the walk starts with the first segment given and runs round the square
        assert_eq!(contours[0].points[0], shuffled[0].a);
        assert_eq!(contours[0].points[1], shuffled[0].b);
        let mut corners = contours[0].points.clone();
        corners.sort_by_key(|c| (c.x, c.y));
        assert_eq!(corners, vec![p(0, 0), p(0, 1000), p(1000, 0), p(1000, 1000)]);
    }
}

#[test]
fn square_closes_whichever_way_its_segments_point() {
    for flips in 0..16 {
        let mut sides = square();
        for (i, side) in sides.iter_mut().enumerate() {
            if flips & (1 << i) != 0 {
                *side = Edge { a: side.b, b: side.a };
            }
        }
        let contours = assemble(&sides);
        assert_eq!(contours.len(), 1, "flips {}", flips);
        assert!(contours[0].closed, "flips {}", flips);
        assert_eq!(contours[0].points.len(), 4, "flips {}", flips);
    }
}

#[test]
fn no_segments_give_no_contours() {
    assert_eq!(assemble(&vec![]), vec![]);
}

#[test]
fn ends_in_one_cell_are_one_corner() {
    // Each corner is met a little off, but within the same cell.
    let sides = vec![
        e(0, 0, 1003, 7),
        e(1050, 50, 1099, 1099),
        e(1001, 1002, 60, 1070),
        e(0, 1000, 99, 99),
    ];
    let contours = assemble(&sides);
    assert_eq!(
        contours,
        vec![Contour {
            points: vec![p(0, 0), p(1050, 50), p(1001, 1002), p(0, 1000)],
            closed: true,
        }]
    );
}

#[test]
fn ends_in_neighbouring_cells_are_not_joined() {
    // 99 and 100 are one unit apart but fall in different cells.
    assert_eq!(BUCKET, 100);
    assert!(in_same_bucket(&p(0, 0), &p(99, 99)));
    assert!(!in_same_bucket(&p(99, 0), &p(100, 0)));
    assert!(in_same_bucket(&p(-1, -100), &p(-100, -1)));
    assert!(!in_same_bucket(&p(-1, 0), &p(0, 0)));
    let contours = assemble(&vec![e(0, 0, 599, 0), e(600, 0, 900, 0)]);
    assert_eq!(
        contours,
        vec![
            Contour { points: vec![p(0, 0), p(599, 0)], closed: false },
            Contour { points: vec![p(600, 0), p(900, 0)], closed: false },
        ]
    );
}

#[test]
fn a_chain_with_loose_ends_is_an_open_contour() {
    let contours = assemble(&vec![e(0, 0, 500, 0), e(900, 300, 500, 0), e(900, 300, 900, 900)]);
    assert_eq!(
        contours,
        vec![Contour { points: vec![p(0, 0), p(500, 0), p(900, 300), p(900, 900)], closed: false }]
    );
}

#[test]
fn a_walk_does_not_run_backwards_from_its_start() {
    // The walk starts at the middle segment and only follows its far end.
    let contours = assemble(&vec![e(500, 0, 900, 0), e(0, 0, 500, 0)]);
    assert_eq!(
        contours,
        vec![
            Contour { points: vec![p(500, 0), p(900, 0)], closed: false },
            Contour { points: vec![p(0, 0), p(500, 0)], closed: false },
        ]
    );
}

#[test]
fn two_islands_give_two_contours() {
    let mut sides = Vec::new();
    let near = square();
    let far: Vec<Edge> = square()
        .iter()
        .map(|s| e(s.a.x + 5000, s.a.y + 5000, s.b.x + 5000, s.b.y + 5000))
        .collect();
    // interleave the two squares
    for i in 0..4 {
        sides.push(far[i]);
        sides.push(near[3 - i]);
    }
    let contours = assemble(&sides);
    assert_eq!(
        contours,
        vec![
            Contour {
                points: vec![p(5000, 5000), p(6000, 5000), p(6000, 6000), p(5000, 6000)],
                closed: true,
            },
            Contour { points: vec![p(0, 1000), p(0, 0), p(1000, 0), p(1000, 1000)], closed: true },
        ]
    );
}

#[test]
fn a_segment_within_one_cell_closes_on_itself() {
    let contours = assemble(&vec![e(10, 10, 20, 20)]);
    assert_eq!(contours, vec![Contour { points: vec![p(10, 10)], closed: true }]);
}

#[test]
fn among_several_continuations_the_nearest_is_taken() {
    // Three segments leave the cell where the first one ends at (500, 500).
    let sides = vec![
        e(0, 0, 500, 500),
        e(540, 540, 900, 0),
        e(510, 505, 900, 900),
        e(0, 900, 503, 509),
    ];
    let used = vec![true, false, false, false];
    assert_eq!(
        find_next(&sides, &used, &p(500, 500)),
        Some(Link { segment: 3, reversed: true })
    );
    let contours = assemble(&sides);
    assert_eq!(
        contours[0],
        Contour { points: vec![p(0, 0), p(503, 509), p(0, 900)], closed: false }
    );
    assert_eq!(contours.len(), 3);
}

#[test]
fn among_equally_near_continuations_the_first_found_is_taken() {
    let sides = vec![
        e(0, 0, 500, 500),
        e(900, 0, 503, 504),
        e(504, 503, 900, 900),
        e(497, 496, 0, 900),
    ];
    let used = vec![true, false, false, false];
    // all three start five units away; segment 1 comes first, walked backwards
    assert_eq!(
        find_next(&sides, &used, &p(500, 500)),
        Some(Link { segment: 1, reversed: true })
    );
    let skipped = vec![true, true, false, false];
    assert_eq!(
        find_next(&sides, &skipped, &p(500, 500)),
        Some(Link { segment: 2, reversed: false })
    );
}

#[test]
fn a_segment_is_entered_at_its_nearer_end() {
    let sides = vec![e(0, 0, 500, 500), e(590, 590, 501, 501)];
    let used = vec![true, false];
    assert_eq!(find_next(&sides, &used, &p(500, 500)), Some(Link { segment: 1, reversed: true }));
    let tie = vec![e(0, 0, 500, 500), e(503, 500, 497, 500)];
    assert_eq!(find_next(&tie, &used, &p(500, 500)), Some(Link { segment: 1, reversed: false }));
}

#[test]
fn nothing_follows_where_all_is_used_or_elsewhere() {
    let sides = vec![e(0, 0, 500, 500), e(500, 500, 900, 900)];
    assert_eq!(find_next(&sides, &vec![true, true], &p(500, 500)), None);
    assert_eq!(find_next(&sides, &vec![false, false], &p(300, 300)), None);
    assert_eq!(find_next(&vec![], &vec![], &p(0, 0)), None);
}

#[test]
fn every_segment_is_walked_exactly_once() {
    // a figure of eight, a stray segment and a doubled segment
    let sides = vec![
        e(0, 0, 1000, 0),
        e(1000, 0, 1000, 1000),
        e(1000, 1000, 0, 0),
        e(0, 0, -1000, 0),
        e(-1000, 0, -1000, -1000),
        e(-1000, -1000, 0, 0),
        e(7000, 7000, 8000, 8000),
        e(0, 0, 1000, 0),
    ];
    let contours = assemble(&sides);
    let steps: usize = contours
        .iter()
        .map(|c| if c.closed { c.points.len() } else { c.points.len() - 1 })
        .sum();
    assert_eq!(steps, sides.len());
}

#[test]
fn a_square_is_manifold() {
    assert!(check_manifold(&square()));
    assert!(check_manifold(&vec![]));
    assert!(joins_two(&square(), &p(1000, 1000)));
    assert!(joins_two(&square(), &p(1099, 1001)));
    assert!(!joins_two(&square(), &p(500, 500)));
}

#[test]
fn loose_ends_and_crowded_corners_are_not_manifold() {
    let mut open = square();
    open.pop();
    assert!(!check_manifold(&open));
    assert!(!joins_two(&open, &p(0, 0)));
    let mut crowded = square();
    crowded.push(e(0, 0, 1000, 1000));
    assert!(!check_manifold(&crowded));
    assert!(!joins_two(&crowded, &p(0, 0)));
    assert!(joins_two(&crowded, &p(1000, 0)));
    let mut doubled = square();
    doubled.push(e(0, 0, 1000, 0));
    doubled.push(e(0, 0, 1000, 0));
    assert!(!joins_two(&doubled, &p(0, 0)));
}

#[test]
fn the_index_finds_what_a_scan_of_all_segments_finds() {
    // Segments scattered over few cells, so that cells are crowded.
    let mut sides = Vec::new();
    let mut seed: i64 = 12345;
    let mut next = |modulus: i64| {
        seed = (seed * 1_103_515_245 + 12_345) % 2_147_483_648;
        (seed / 65_536) % modulus
    };
    for _ in 0..60 {
        sides.push(e(next(400) - 200, next(400) - 200, next(400) - 200, next(400) - 200));
    }
    let index = Adjacency::new(&sides);
    for round in 0..40 {
        let used: Vec<bool> = (0..sides.len()).map(|i| (i + round) % 3 == 0).collect();
        let cur = p(next(400) - 200, next(400) - 200);
        // the nearest unused end in the cell, the first found among equals
        let mut expected: Option<(Link, i64)> = None;
        for (i, side) in sides.iter().enumerate() {
            for (reversed, start) in [(false, side.a), (true, side.b)] {
                if used[i] || !in_same_bucket(&start, &cur) {
                    continue;
                }
                let (dx, dy) = (start.x - cur.x, start.y - cur.y);
                let d = dx * dx + dy * dy;
                if expected.map_or(true, |(_, best)| d < best) {
                    expected = Some((Link { segment: i, reversed }, d));
                }
            }
        }
        let found = index.next_step(&sides, &used, &cur);
        assert_eq!(found, expected.map(|(l, _)| l), "round {}", round);
        let ends = sides
            .iter()
            .map(|s| in_same_bucket(&s.a, &cur) as usize + in_same_bucket(&s.b, &cur) as usize)
            .sum::<usize>();
        assert_eq!(index.joins_two(&sides, &cur), ends == 2, "round {}", round);
    }
}

#[test]
fn a_ring_of_many_segments_closes() {
    // The sides of a large ring, given in a scrambled order.
    let count: usize = 5000;
    let corner = |k: usize| {
        let k = (k % count) as i64;
        let quarter = count as i64 / 4;
        let step = 1000;
        if k < quarter {
            p(k * step, 0)
        } else if k < 2 * quarter {
            p(quarter * step, (k - quarter) * step)
        } else if k < 3 * quarter {
            p((3 * quarter - k) * step, quarter * step)
        } else {
            p(0, (4 * quarter - k) * step)
        }
    };
    let mut sides = Vec::new();
    for k in 0..count {
        let at = (k * 2311) % count;
        sides.push(Edge { a: corner(at), b: corner(at + 1) });
    }
    let contours = assemble(&sides);
    assert_eq!(contours.len(), 1);
    assert!(contours[0].closed);
    assert_eq!(contours[0].points.len(), count);
    assert!(check_manifold(&sides));
}
