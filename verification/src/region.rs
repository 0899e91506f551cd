//! The region explorer: counts the connected component of admissible grid
//! cells around a starting point, where a cell is admissible when the digit
//! sums of its coordinates stay within a limit.
//!
//! The mathematical model is path reachability: `region(start, limit)` is
//! the set of points joined to `start` by chains of unit moves through
//! admissible points, and the explorer returns exactly its cardinality.

use vstd::prelude::*;
use vstd::seq_lib::*;
use vstd::set_lib::*;
use crate::digits::{DigitSum, digit_sum_int, digit_sum_nat, abs_nat};
use crate::point::Point;

verus! {

/// Greatest coordinate magnitude a reachable point can have under the
/// digit-sum limits the explorer admits: one step further lies a coordinate
/// of magnitude 1999999999, whose digit sum 82 exceeds every such limit.
pub const COORD_BOUND: i32 = 1999999998;

/// Greatest digit-sum limit the explorer admits. Any larger limit would let
/// the region run against the edge of the representable grid (and make it
/// astronomically large besides).
pub const LIMIT_BOUND: u32 = 81;

/// A point whose digit sum stays within the limit.
pub open spec fn admissible(p: Point, limit: u32) -> bool {
    p.digit_sum_spec() <= limit
}

/// Two grid cells joined by one unit move along an axis.
pub open spec fn adjacent(a: Point, b: Point) -> bool {
    (a.x == b.x && (b.y == a.y + 1 || b.y == a.y - 1)) || (a.y == b.y && (b.x == a.x + 1
        || b.x == a.x - 1))
}

/// A walk through admissible cells, one unit move at a time.
pub open spec fn is_region_path(path: Seq<Point>, limit: u32) -> bool {
    &&& path.len() > 0
    &&& (forall|i: int| 0 <= i < path.len() ==> admissible(#[trigger] path[i], limit))
    &&& (forall|i: int| 0 < i < path.len() ==> adjacent(path[i - 1], #[trigger] path[i]))
}

/// The point q can be reached from start through admissible cells.
pub open spec fn reachable(start: Point, q: Point, limit: u32) -> bool {
    exists|path: Seq<Point>|
        is_region_path(path, limit) && path.first() == start && path.last() == q
}

/// The connected region of admissible cells around start.
pub open spec fn region(start: Point, limit: u32) -> Set<Point> {
    Set::new(|q: Point| reachable(start, q, limit))
}

/// Both coordinates of magnitude at most COORD_BOUND.
pub open spec fn in_coord_box(p: Point) -> bool {
    -COORD_BOUND <= p.x <= COORD_BOUND && -COORD_BOUND <= p.y <= COORD_BOUND
}

/// Both coordinates of magnitude at most COORD_BOUND + 1: where the
/// neighbors of the coordinate box live.
pub open spec fn near_coord_box(p: Point) -> bool {
    -COORD_BOUND - 1 <= p.x <= COORD_BOUND + 1 && -COORD_BOUND - 1 <= p.y <= COORD_BOUND + 1
}

/// How many cells the coordinate box holds: the square of its side.
pub open spec fn grid_cap() -> int {
    3999999997int * 3999999997int
}

/// An admissible point is reachable from itself.
pub proof fn lemma_reachable_self(start: Point, limit: u32)
    requires
        admissible(start, limit),
    ensures
        reachable(start, start, limit),
{
    let path = seq![start];
    assert(is_region_path(path, limit));
    assert(path.first() == start && path.last() == start);
}

/// Reachability extends across one admissible unit move.
pub proof fn lemma_reachable_step(start: Point, p: Point, n: Point, limit: u32)
    requires
        reachable(start, p, limit),
        adjacent(p, n),
        admissible(n, limit),
    ensures
        reachable(start, n, limit),
{
    let path = choose|path: Seq<Point>|
        is_region_path(path, limit) && path.first() == start && path.last() == p;
    let path2 = path.push(n);
    assert(is_region_path(path2, limit)) by {
        assert(forall|i: int| 0 <= i < path.len() ==> path2[i] == path[i]);
        assert(path2[path.len() as int] == n);
        assert(adjacent(path2[path.len() - 1], path2[path.len() as int]));
    }
    assert(path2.first() == start && path2.last() == n);
}

/// A sequence of integers that changes by at most one per step takes every
/// value that lies between its endpoints.
proof fn lemma_unit_steps_hit(s: Seq<int>, c: int)
    requires
        s.len() > 0,
        forall|i: int| #![trigger s[i]] 0 < i < s.len() ==> -1 <= s[i] - s[i - 1] <= 1,
        (s.first() <= c <= s.last()) || (s.last() <= c <= s.first()),
    ensures
        exists|i: int| 0 <= i < s.len() && s[i] == c,
    decreases s.len(),
{
    if s.first() == c {
        assert(s[0] == c);
    } else {
        assert(s.len() > 1);
        let t = s.subrange(1, s.len() as int);
        assert forall|i: int| #![trigger t[i]] 0 < i < t.len() implies -1 <= t[i] - t[i - 1]
            <= 1 by {
            assert(t[i] == s[i + 1]);
            assert(t[i - 1] == s[i]);
        }
        assert(t.first() == s[1] && t.last() == s.last());
        assert(-1 <= s[1] - s[0] <= 1);
        assert((t.first() <= c <= t.last()) || (t.last() <= c <= t.first()));
        lemma_unit_steps_hit(t, c);
        let i = choose|i: int| 0 <= i < t.len() && t[i] == c;
        assert(t[i] == s[i + 1]);
        assert(s[i + 1] == c);
    }
}

/// The digit sum of the wall coordinate just outside the coordinate box.
proof fn lemma_wall_digit_sum()
    ensures
        digit_sum_nat(1999999999nat) == 82,
{
    reveal_with_fuel(digit_sum_nat, 12);
}

/// No admissible path reaches across the vertical wall at x == c, for c of
/// magnitude 1999999999: the wall never lies between its endpoints.
proof fn lemma_region_path_avoids_x_wall(path: Seq<Point>, limit: u32, c: int)
    requires
        is_region_path(path, limit),
        limit <= LIMIT_BOUND,
        c == 1999999999 || c == -1999999999,
    ensures
        !(path.first().x <= c <= path.last().x),
        !(path.last().x <= c <= path.first().x),
{
    if (path.first().x <= c <= path.last().x) || (path.last().x <= c <= path.first().x) {
        lemma_wall_digit_sum();
        let s = path.map_values(|p: Point| p.x as int);
        assert forall|i: int| #![trigger s[i]] 0 < i < s.len() implies -1 <= s[i] - s[i - 1]
            <= 1 by {
            assert(s[i] == path[i].x as int);
            assert(s[i - 1] == path[i - 1].x as int);
            assert(adjacent(path[i - 1], path[i]));
        }
        assert(s[0] == path[0].x as int);
        assert(s[s.len() - 1] == path[path.len() - 1].x as int);
        lemma_unit_steps_hit(s, c);
        let i = choose|i: int| 0 <= i < s.len() && s[i] == c;
        assert(path[i].x as int == c);
        assert(abs_nat(c) == 1999999999nat);
        assert(digit_sum_int(path[i].x as int) == 82);
        assert(admissible(path[i], limit));
        assert(false);
    }
}

/// No admissible path reaches across the horizontal wall at y == c, for c
/// of magnitude 1999999999: the wall never lies between its endpoints.
proof fn lemma_region_path_avoids_y_wall(path: Seq<Point>, limit: u32, c: int)
    requires
        is_region_path(path, limit),
        limit <= LIMIT_BOUND,
        c == 1999999999 || c == -1999999999,
    ensures
        !(path.first().y <= c <= path.last().y),
        !(path.last().y <= c <= path.first().y),
{
    if (path.first().y <= c <= path.last().y) || (path.last().y <= c <= path.first().y) {
        lemma_wall_digit_sum();
        let s = path.map_values(|p: Point| p.y as int);
        assert forall|i: int| #![trigger s[i]] 0 < i < s.len() implies -1 <= s[i] - s[i - 1]
            <= 1 by {
            assert(s[i] == path[i].y as int);
            assert(s[i - 1] == path[i - 1].y as int);
            assert(adjacent(path[i - 1], path[i]));
        }
        assert(s[0] == path[0].y as int);
        assert(s[s.len() - 1] == path[path.len() - 1].y as int);
        lemma_unit_steps_hit(s, c);
        let i = choose|i: int| 0 <= i < s.len() && s[i] == c;
        assert(path[i].y as int == c);
        assert(abs_nat(c) == 1999999999nat);
        assert(digit_sum_int(path[i].y as int) == 82);
        assert(admissible(path[i], limit));
        assert(false);
    }
}

/// Every reachable point stays inside the coordinate box: leaving it would
/// take a path through a coordinate of digit sum 82, which no admitted
/// limit allows.
pub proof fn lemma_reachable_in_box(start: Point, q: Point, limit: u32)
    requires
        in_coord_box(start),
        limit <= LIMIT_BOUND,
        reachable(start, q, limit),
    ensures
        in_coord_box(q),
{
    let path = choose|path: Seq<Point>|
        is_region_path(path, limit) && path.first() == start && path.last() == q;
    if q.x > COORD_BOUND {
        lemma_region_path_avoids_x_wall(path, limit, 1999999999);
    }
    if q.x < -COORD_BOUND {
        lemma_region_path_avoids_x_wall(path, limit, -1999999999);
    }
    if q.y > COORD_BOUND {
        lemma_region_path_avoids_y_wall(path, limit, 1999999999);
    }
    if q.y < -COORD_BOUND {
        lemma_region_path_avoids_y_wall(path, limit, -1999999999);
    }
}

/// Everything reachable lies in any set of points that contains the start
/// of the path and is closed under admissible unit moves.
proof fn lemma_path_end_in_closed(s: Seq<Point>, limit: u32, path: Seq<Point>)
    requires
        is_region_path(path, limit),
        s.contains(path.first()),
        forall|p: Point, n: Point|
            s.contains(p) && #[trigger] adjacent(p, n) && admissible(n, limit) ==> s.contains(n),
    ensures
        s.contains(path.last()),
    decreases path.len(),
{
    if path.len() > 1 {
        let pre = path.subrange(0, path.len() - 1);
        assert(forall|i: int| 0 <= i < pre.len() ==> pre[i] == path[i]);
        assert(is_region_path(pre, limit)) by {
            assert forall|i: int| 0 < i < pre.len() implies adjacent(
                pre[i - 1],
                #[trigger] pre[i],
            ) by {
                assert(adjacent(path[i - 1], path[i]));
            }
        }
        assert(pre.first() == path.first());
        lemma_path_end_in_closed(s, limit, pre);
        assert(s.contains(path[path.len() - 2]));
        assert(adjacent(path[path.len() - 2], path.last()));
        assert(admissible(path.last(), limit));
    }
}

/// Where in the coordinate box a point lives, counted row by row.
spec fn encode(p: Point) -> int {
    (p.x + 1999999998) * 3999999997 + (p.y + 1999999998)
}

/// Distinct points inside the coordinate box are at most as many as the box
/// has cells.
proof fn lemma_distinct_box_len(s: Seq<Point>)
    requires
        s.no_duplicates(),
        forall|i: int| 0 <= i < s.len() ==> in_coord_box(#[trigger] s[i]),
    ensures
        s.len() <= grid_cap(),
{
    let f = |p: Point| encode(p);
    let es = s.map_values(f);
    assert(forall|i: int| 0 <= i < es.len() ==> es[i] == encode(s[i]));
    assert forall|i: int, j: int|
        0 <= i < es.len() && 0 <= j < es.len() && i != j implies es[i] != es[j] by {
        let a = s[i];
        let b = s[j];
        assert(a != b);
        assert(encode(a) - encode(b) == (a.x - b.x) * 3999999997 + (a.y - b.y));
        if a.x == b.x {
            assert(a.y != b.y);
        } else {
            assert(-3999999997 < a.y - b.y < 3999999997);
        }
    }
    assert(es.no_duplicates());
    es.unique_seq_to_set();
    assert forall|e: int| es.to_set().contains(e) implies set_int_range(0, grid_cap()).contains(
        e,
    ) by {
        let i = choose|i: int| 0 <= i < es.len() && es[i] == e;
        let p = s[i];
        assert(0 <= p.x + 1999999998 <= 3999999996);
        assert(0 <= p.y + 1999999998 <= 3999999996);
        assert(0 <= encode(p) < grid_cap());
    }
    lemma_int_range(0, grid_cap());
    lemma_len_subset(es.to_set(), set_int_range(0, grid_cap()));
}

/// The point of the coordinate box living at a given row-by-row position.
spec fn decode(k: int) -> Point {
    Point {
        x: (k / 3999999997 - 1999999998) as i32,
        y: (k % 3999999997 - 1999999998) as i32,
    }
}

/// The coordinate box holds finitely many points.
proof fn lemma_box_finite()
    ensures
        Set::new(|p: Point| in_coord_box(p)).finite(),
{
    let boxset = Set::new(|p: Point| in_coord_box(p));
    let range = set_int_range(0, grid_cap());
    lemma_int_range(0, grid_cap());
    let image = range.map(|k: int| decode(k));
    range.lemma_map_finite(|k: int| decode(k));
    assert forall|p: Point| boxset.contains(p) implies image.contains(p) by {
        let k = encode(p);
        assert(0 <= p.x + 1999999998 <= 3999999996);
        assert(0 <= p.y + 1999999998 <= 3999999996);
        assert(0 <= k < grid_cap());
        vstd::arithmetic::div_mod::lemma_fundamental_div_mod_converse(
            k,
            3999999997,
            p.x + 1999999998,
            p.y + 1999999998,
        );
        assert(k / 3999999997 == p.x + 1999999998);
        assert(k % 3999999997 == p.y + 1999999998);
        assert(decode(k) == p);
        assert(range.contains(k));
    }
    lemma_set_subset_finite(image, boxset);
}

/// Every region under an admitted limit is a finite set of points.
pub proof fn lemma_region_finite(start: Point, limit: u32)
    requires
        in_coord_box(start),
        limit <= LIMIT_BOUND,
    ensures
        region(start, limit).finite(),
{
    let boxset = Set::new(|p: Point| in_coord_box(p));
    lemma_box_finite();
    assert forall|q: Point| region(start, limit).contains(q) implies boxset.contains(q) by {
        lemma_reachable_in_box(start, q, limit);
    }
    lemma_set_subset_finite(boxset, region(start, limit));
}

/// An admissible start belongs to its own region, so the count of the
/// region counts it, exactly once as it counts every member of a set; a
/// start out of the limit has an empty region.
pub proof fn lemma_region_contains_start(start: Point, limit: u32)
    ensures
        admissible(start, limit) ==> region(start, limit).contains(start),
        !admissible(start, limit) ==> region(start, limit) =~= Set::<Point>::empty(),
{
    if admissible(start, limit) {
        lemma_reachable_self(start, limit);
    } else {
        assert forall|q: Point| !region(start, limit).contains(q) by {
            if reachable(start, q, limit) {
                let path = choose|path: Seq<Point>|
                    is_region_path(path, limit) && path.first() == start && path.last() == q;
                assert(path[0] == start);
                assert(admissible(path[0], limit));
            }
        }
    }
}

/// Raising the limit never shrinks the region: every point reachable under
/// the lower limit is reachable under the higher one, so the count never
/// goes down.
pub proof fn lemma_region_monotonic(start: Point, low: u32, high: u32)
    requires
        low <= high,
        high <= LIMIT_BOUND,
        in_coord_box(start),
    ensures
        region(start, low).subset_of(region(start, high)),
        region(start, low).len() <= region(start, high).len(),
{
    assert forall|q: Point| region(start, low).contains(q) implies region(start, high).contains(
        q,
    ) by {
        let path = choose|path: Seq<Point>|
            is_region_path(path, low) && path.first() == start && path.last() == q;
        assert(is_region_path(path, high)) by {
            assert(forall|i: int|
                0 <= i < path.len() ==> admissible(#[trigger] path[i], low));
            assert(forall|i: int|
                0 <= i < path.len() ==> admissible(#[trigger] path[i], high));
        }
    }
    lemma_region_finite(start, high);
    lemma_len_subset(region(start, low), region(start, high));
}

/// Whether the list of visited points already holds p.
fn vec_contains(v: &Vec<Point>, p: &Point) -> (b: bool)
    ensures
        b == v@.contains(*p),
{
    let mut i: usize = 0;
    while i < v.len()
        invariant
            i <= v@.len(),
            forall|j: int| 0 <= j < i ==> v@[j] != *p,
        decreases v@.len() - i,
    {
        if v[i] == *p {
            assert(v@[i as int] == *p);
            return true;
        }
        i = i + 1;
    }
    assert(!v@.contains(*p));
    false
}

/// Counts the points of the connected admissible region around the start:
/// exactly the cardinality of `region(start_from, dig_sum_limit)`.
///
/// The count is zero exactly when the start itself is out of the limit;
/// otherwise the start is counted (once, as every point is), so the count
/// is at least one.
#[verifier::rlimit(100)]
pub fn calc_points_impl(start_from: Point, dig_sum_limit: u32) -> (count: usize)
    requires
        in_coord_box(start_from),
        dig_sum_limit <= LIMIT_BOUND,
    ensures
        region(start_from, dig_sum_limit).finite(),
        count == region(start_from, dig_sum_limit).len(),
        count == 0 <==> !admissible(start_from, dig_sum_limit),
{
    let mut visited: Vec<Point> = Vec::new();
    let mut stack: Vec<Point> = Vec::new();
    stack.push(start_from);
    proof {
        if admissible(start_from, dig_sum_limit) {
            lemma_reachable_self(start_from, dig_sum_limit);
        }
        assert(stack@[0] == start_from);
    }
    while stack.len() > 0
        invariant
            in_coord_box(start_from),
            dig_sum_limit <= LIMIT_BOUND,
            visited@.no_duplicates(),
            forall|i: int|
                0 <= i < visited@.len() ==> admissible(#[trigger] visited@[i], dig_sum_limit)
                    && reachable(start_from, visited@[i], dig_sum_limit) && in_coord_box(
                    visited@[i],
                ),
            visited@.len() <= grid_cap(),
            forall|i: int|
                0 <= i < stack@.len() ==> near_coord_box(#[trigger] stack@[i]) && (admissible(
                    stack@[i],
                    dig_sum_limit,
                ) ==> reachable(start_from, stack@[i], dig_sum_limit)),
            forall|a: Point, n: Point|
                visited@.contains(a) && #[trigger] adjacent(a, n) && admissible(n, dig_sum_limit)
                    ==> visited@.contains(n) || stack@.contains(n),
            admissible(start_from, dig_sum_limit) ==> visited@.contains(start_from)
                || stack@.contains(start_from),
        decreases grid_cap() - visited@.len(), stack@.len(),
    {
        let ghost s0 = stack@;
        let ghost v0 = visited@;
        let ghost m = s0.len() - 1;
        let mut p = stack.pop().unwrap();
        proof {
            assert(s0[m] == p);
            assert(near_coord_box(p));
        }
        let ds = p.digit_sum();
        if ds <= dig_sum_limit && !vec_contains(&visited, &p) {
            proof {
                assert(admissible(p, dig_sum_limit));
                assert(reachable(start_from, p, dig_sum_limit));
                lemma_reachable_in_box(start_from, p, dig_sum_limit);
            }
            visited.push(p);
            let n1 = p.inc(0, 1);
            let n2 = p.inc(1, 0);
            let n3 = p.inc(0, -1);
            let n4 = p.inc(-1, 0);
            stack.push(n1);
            stack.push(n2);
            stack.push(n3);
            stack.push(n4);
            proof {
                assert(visited@ == v0.push(p));
                assert(visited@.no_duplicates()) by {
                    assert forall|i: int, j: int|
                        0 <= i < visited@.len() && 0 <= j < visited@.len() && i
                            != j implies visited@[i] != visited@[j] by {
                        if i < v0.len() && j < v0.len() {
                            assert(v0[i] != v0[j]);
                        } else if i < v0.len() {
                            assert(visited@[j] == p);
                            if v0[i] == p {
                                assert(v0.contains(p));
                            }
                        } else {
                            assert(visited@[i] == p);
                            if v0[j] == p {
                                assert(v0.contains(p));
                            }
                        }
                    }
                }
                lemma_distinct_box_len(visited@);
                assert(stack@.len() == m + 4);
                assert(stack@[m] == n1);
                assert(stack@[m + 1] == n2);
                assert(stack@[m + 2] == n3);
                assert(stack@[m + 3] == n4);
                assert(adjacent(p, n1) && adjacent(p, n2) && adjacent(p, n3) && adjacent(p, n4));
                if admissible(n1, dig_sum_limit) {
                    lemma_reachable_step(start_from, p, n1, dig_sum_limit);
                }
                if admissible(n2, dig_sum_limit) {
                    lemma_reachable_step(start_from, p, n2, dig_sum_limit);
                }
                if admissible(n3, dig_sum_limit) {
                    lemma_reachable_step(start_from, p, n3, dig_sum_limit);
                }
                if admissible(n4, dig_sum_limit) {
                    lemma_reachable_step(start_from, p, n4, dig_sum_limit);
                }
                assert forall|i: int|
                    0 <= i < stack@.len() implies near_coord_box(#[trigger] stack@[i]) && (
                admissible(stack@[i], dig_sum_limit) ==> reachable(
                    start_from,
                    stack@[i],
                    dig_sum_limit,
                )) by {
                    if i < m {
                        assert(stack@[i] == s0[i]);
                    }
                }
                assert forall|a: Point, n: Point|
                    visited@.contains(a) && #[trigger] adjacent(a, n) && admissible(
                        n,
                        dig_sum_limit,
                    ) implies visited@.contains(n) || stack@.contains(n) by {
                    if v0.contains(a) {
                        assert(v0.contains(n) || s0.contains(n));
                        if v0.contains(n) {
                            let k = choose|k: int| 0 <= k < v0.len() && v0[k] == n;
                            assert(visited@[k] == n);
                        } else {
                            let k = choose|k: int| 0 <= k < s0.len() && s0[k] == n;
                            if k < m {
                                assert(stack@[k] == n);
                            } else {
                                assert(n == p);
                                assert(visited@[v0.len() as int] == p);
                            }
                        }
                    } else {
                        let k = choose|k: int| 0 <= k < visited@.len() && visited@[k] == a;
                        assert(a == p);
                        if n.x == p.x && n.y == p.y + 1 {
                            assert(n == n1);
                        } else if n.y == p.y && n.x == p.x + 1 {
                            assert(n == n2);
                        } else if n.x == p.x && n.y == p.y - 1 {
                            assert(n == n3);
                        } else {
                            assert(n.y == p.y && n.x == p.x - 1);
                            assert(n == n4);
                        }
                    }
                }
                assert(admissible(start_from, dig_sum_limit) ==> visited@.contains(start_from)
                    || stack@.contains(start_from)) by {
                    if admissible(start_from, dig_sum_limit) {
                        if v0.contains(start_from) {
                            let k = choose|k: int| 0 <= k < v0.len() && v0[k] == start_from;
                            assert(visited@[k] == start_from);
                        } else {
                            let k = choose|k: int| 0 <= k < s0.len() && s0[k] == start_from;
                            if k < m {
                                assert(stack@[k] == start_from);
                            } else {
                                assert(visited@[v0.len() as int] == p);
                            }
                        }
                    }
                }
            }
        } else {
            proof {
                assert(stack@ == s0.subrange(0, m));
                assert(!admissible(p, dig_sum_limit) || visited@.contains(p));
                assert forall|i: int|
                    0 <= i < stack@.len() implies near_coord_box(#[trigger] stack@[i]) && (
                admissible(stack@[i], dig_sum_limit) ==> reachable(
                    start_from,
                    stack@[i],
                    dig_sum_limit,
                )) by {
                    assert(stack@[i] == s0[i]);
                }
                assert forall|a: Point, n: Point|
                    visited@.contains(a) && #[trigger] adjacent(a, n) && admissible(
                        n,
                        dig_sum_limit,
                    ) implies visited@.contains(n) || stack@.contains(n) by {
                    assert(v0.contains(n) || s0.contains(n));
                    if !v0.contains(n) {
                        let k = choose|k: int| 0 <= k < s0.len() && s0[k] == n;
                        if k < m {
                            assert(stack@[k] == n);
                        } else {
                            assert(n == p);
                            assert(visited@.contains(p));
                        }
                    }
                }
                assert(admissible(start_from, dig_sum_limit) ==> visited@.contains(start_from)
                    || stack@.contains(start_from)) by {
                    if admissible(start_from, dig_sum_limit) && !visited@.contains(start_from) {
                        let k = choose|k: int| 0 <= k < s0.len() && s0[k] == start_from;
                        if k < m {
                            assert(stack@[k] == start_from);
                        } else {
                            assert(p == start_from);
                            assert(visited@.contains(p));
                        }
                    }
                }
            }
        }
    }
    proof {
        broadcast use vstd::seq_lib::seq_to_set_is_finite;

        let r = region(start_from, dig_sum_limit);
        let vs = visited@.to_set();
        assert forall|q: Point| vs.contains(q) implies r.contains(q) by {
            let k = choose|k: int| 0 <= k < visited@.len() && visited@[k] == q;
            assert(reachable(start_from, q, dig_sum_limit));
        }
        assert forall|q: Point| r.contains(q) implies vs.contains(q) by {
            assert(reachable(start_from, q, dig_sum_limit));
            let path = choose|path: Seq<Point>|
                is_region_path(path, dig_sum_limit) && path.first() == start_from && path.last()
                    == q;
            assert(path[0] == start_from);
            assert(admissible(path[0], dig_sum_limit));
            assert(visited@.contains(start_from));
            assert forall|a: Point, n: Point|
                visited@.contains(a) && #[trigger] adjacent(a, n) && admissible(
                    n,
                    dig_sum_limit,
                ) implies visited@.contains(n) by {
                assert(!stack@.contains(n));
            }
            lemma_path_end_in_closed(visited@, dig_sum_limit, path);
        }
        assert(vs =~= r);
        visited@.unique_seq_to_set();
        if !admissible(start_from, dig_sum_limit) {
            assert forall|q: Point| !r.contains(q) by {
                if reachable(start_from, q, dig_sum_limit) {
                    let path = choose|path: Seq<Point>|
                        is_region_path(path, dig_sum_limit) && path.first() == start_from
                            && path.last() == q;
                    assert(path[0] == start_from);
                    assert(admissible(path[0], dig_sum_limit));
                }
            }
            assert(r =~= Set::<Point>::empty());
        } else {
            assert(visited@.contains(start_from));
            assert(visited@.len() > 0);
        }
    }
    visited.len()
}

} // verus!
