//! Shortcuts through walls, judged on the cost map of a maze.
//!
//! A cheat is the ordered pair of the cell where a walker leaves the
//! regular route and the cell where the walker is back on it. Between the
//! two the walker moves straight through whatever is there, one cell per
//! step, so that the cheat costs the Manhattan distance of the two cells.

use crate::costs::CostMap;
use crate::costs::MAX_COST;
use crate::maze::MAX_CELLS;
use crate::util::point::abs;
use crate::util::point::manhattan;
use crate::util::point::Point;
use vstd::prelude::*;

verus! {

/// What the cheat from `p` to `q` saves: the cost of reaching `q` without
/// it, less the cost of reaching `p`, less the steps of the cheat itself.
/// Negative where the cheat is a detour.
pub open spec fn saving(costs: Map<Point, nat>, p: Point, q: Point) -> int {
    costs[q] - costs[p] - manhattan(p, q)
}

/// Whether the pair `(p, q)` counts as a cheat: both cells can be reached
/// without cheating, they are at most `max_steps` steps apart, and what
/// the cheat saves is neither negative nor below `min_saving`.
pub open spec fn is_cheat(
    costs: Map<Point, nat>,
    max_steps: nat,
    min_saving: nat,
    p: Point,
    q: Point,
) -> bool {
    &&& costs.contains_key(p)
    &&& costs.contains_key(q)
    &&& manhattan(p, q) <= max_steps
    &&& saving(costs, p, q) >= 0
    &&& saving(costs, p, q) >= min_saving
}

/// All cheats of a cost map.
pub open spec fn cheats(costs: Map<Point, nat>, max_steps: nat, min_saving: nat) -> Set<
    (Point, Point),
> {
    Set::new(|c: (Point, Point)| is_cheat(costs, max_steps, min_saving, c.0, c.1))
}

/// What a cheat saves, where it saves anything: the difference of the two
/// costs less the steps, and nothing (`None`) where that is negative.
pub fn saving_of(cost_p: u64, cost_q: u64, steps: u32) -> (r: Option<u64>)
    ensures
        match r {
            Some(v) => v == cost_q - cost_p - steps,
            None => cost_q - cost_p - steps < 0,
        },
{
    match cost_q.checked_sub(cost_p) {
        Some(gain) => gain.checked_sub(steps as u64),
        None => None,
    }
}

/// Whether the pair `c` was looked at before the search for exits of the
/// cell `(x, y)` came to the offset `(dx, dy)`.
pub open spec fn seen(c: (Point, Point), y: int, x: int, dx: int, dy: int) -> bool {
    let p = c.0;
    let q = c.1;
    p.y < y || (p.y == y && (p.x < x || (p.x == x && (q.x - p.x < dx || (q.x - p.x == dx && q.y
        - p.y < dy)))))
}

/// Counts the cheats of a cost map: the ordered pairs of cells with a cost
/// that are at most `max_steps` steps apart and save at least `min_saving`.
/// A pair and its reverse never both count, unless the two cells are one.
pub fn count_cheats(cost_map: &CostMap, max_steps: u8, min_saving: u32) -> (count: u64)
    requires
        cost_map.wf(),
    ensures
        cheats(cost_map@, max_steps as nat, min_saving as nat).finite(),
        count == cheats(cost_map@, max_steps as nat, min_saving as nat).len(),
{
    let ghost costs = cost_map@;
    let ghost all = cheats(costs, max_steps as nat, min_saving as nat);
    let k: i128 = max_steps as i128;
    let h: usize = cost_map.height();
    let mut count: u64 = 0;
    let ghost mut acc: Set<(Point, Point)> = Set::empty();
    let mut y: usize = 0;
    proof {
        cost_map.lemma_limits();
    }
    while y < h
        invariant
            cost_map.wf(),
            costs == cost_map@,
            all == cheats(costs, max_steps as nat, min_saving as nat),
            k == max_steps,
            y <= h <= MAX_CELLS,
            forall|p: Point| #[trigger] costs.contains_key(p) ==> p.y < h,
            forall|p: Point| #[trigger]
                costs.contains_key(p) ==> 0 <= p.x < MAX_CELLS && 0 <= p.y < MAX_CELLS && costs[p]
                    <= MAX_COST,
            acc.finite(),
            count == acc.len(),
            count <= y * 261_121_000_000int,
            forall|c: (Point, Point)|
                #[trigger] acc.contains(c) <==> (all.contains(c) && seen(c, y as int, 0, -256, 0)),
        decreases h - y,
    {
        let w: usize = cost_map.row_len(y);
        let mut x: usize = 0;
        while x < w
            invariant
                cost_map.wf(),
                costs == cost_map@,
                all == cheats(costs, max_steps as nat, min_saving as nat),
                k == max_steps,
                y < h <= MAX_CELLS,
                x <= w <= MAX_CELLS,
                forall|p: Point| #[trigger] costs.contains_key(p) && p.y == y ==> p.x < w,
                forall|p: Point| #[trigger]
                    costs.contains_key(p) ==> 0 <= p.x < MAX_CELLS && 0 <= p.y < MAX_CELLS
                        && costs[p] <= MAX_COST,
                acc.finite(),
                count == acc.len(),
                count <= y * 261_121_000_000int + x * 261_121,
                forall|c: (Point, Point)|
                    #[trigger] acc.contains(c) <==> (all.contains(c) && seen(
                        c,
                        y as int,
                        x as int,
                        -256,
                        0,
                    )),
            decreases w - x,
        {
            let p = Point { x: x as i128, y: y as i128 };
            match cost_map.get(&p) {
                None => {
                    proof {
                        assert forall|c: (Point, Point)|
                            #[trigger] acc.contains(c) <==> (all.contains(c) && seen(
                                c,
                                y as int,
                                x + 1,
                                -256,
                                0,
                            )) by {
                            if all.contains(c) {
                                lemma_cheat_offsets(costs, max_steps as nat, min_saving as nat, c);
                                assert(c.0 != p);
                                assert(seen(c, y as int, x + 1, -256, 0) == seen(
                                    c,
                                    y as int,
                                    x as int,
                                    -256,
                                    0,
                                ));
                            }
                        }
                    }
                },
                Some(cost_p) => {
                    let mut dx: i128 = -k;
                    proof {
                        assert forall|c: (Point, Point)|
                            #[trigger] acc.contains(c) <==> (all.contains(c) && seen(
                                c,
                                y as int,
                                x as int,
                                dx as int,
                                -256,
                            )) by {
                            if all.contains(c) {
                                lemma_cheat_offsets(costs, max_steps as nat, min_saving as nat, c);
                                assert(seen(c, y as int, x as int, dx as int, -256) == seen(
                                    c,
                                    y as int,
                                    x as int,
                                    -256,
                                    0,
                                ));
                            }
                        }
                    }
                    while dx <= k
                        invariant
                            costs == cost_map@,
                            all == cheats(costs, max_steps as nat, min_saving as nat),
                            k == max_steps,
                            y < MAX_CELLS,
                            x < MAX_CELLS,
                            p == (Point { x: x as i128, y: y as i128 }),
                            costs.contains_pair(p, cost_p as nat),
                            -k <= dx <= k + 1,
                            forall|p: Point| #[trigger]
                                costs.contains_key(p) ==> 0 <= p.x < MAX_CELLS && 0 <= p.y
                                    < MAX_CELLS && costs[p] <= MAX_COST,
                            acc.finite(),
                            count == acc.len(),
                            count <= y * 261_121_000_000int + x * 261_121 + (dx + k) * 511,
                            forall|c: (Point, Point)|
                                #[trigger] acc.contains(c) <==> (all.contains(c) && seen(
                                    c,
                                    y as int,
                                    x as int,
                                    dx as int,
                                    -256,
                                )),
                        decreases k - dx + 1,
                    {
                        let reach: i128 = if dx < 0 {
                            k + dx
                        } else {
                            k - dx
                        };
                        let mut dy: i128 = -reach;
                        proof {
                            assert forall|c: (Point, Point)|
                                #[trigger] acc.contains(c) <==> (all.contains(c) && seen(
                                    c,
                                    y as int,
                                    x as int,
                                    dx as int,
                                    dy as int,
                                )) by {
                                if all.contains(c) {
                                    lemma_cheat_offsets(
                                        costs,
                                        max_steps as nat,
                                        min_saving as nat,
                                        c,
                                    );
                                    assert(seen(c, y as int, x as int, dx as int, dy as int)
                                        == seen(c, y as int, x as int, dx as int, -256));
                                }
                            }
                        }
                        while dy <= reach
                            invariant
                                costs == cost_map@,
                                all == cheats(costs, max_steps as nat, min_saving as nat),
                                k == max_steps,
                                y < MAX_CELLS,
                                x < MAX_CELLS,
                                p == (Point { x: x as i128, y: y as i128 }),
                                costs.contains_pair(p, cost_p as nat),
                                -k <= dx <= k,
                                reach == k - abs(dx as int),
                                -reach <= dy <= reach + 1,
                                forall|p: Point| #[trigger]
                                    costs.contains_key(p) ==> 0 <= p.x < MAX_CELLS && 0 <= p.y
                                        < MAX_CELLS && costs[p] <= MAX_COST,
                                acc.finite(),
                                count == acc.len(),
                                count <= y * 261_121_000_000int + x * 261_121 + (dx + k) * 511
                                    + (dy + reach),
                                forall|c: (Point, Point)|
                                    #[trigger] acc.contains(c) <==> (all.contains(c) && seen(
                                        c,
                                        y as int,
                                        x as int,
                                        dx as int,
                                        dy as int,
                                    )),
                            decreases reach - dy + 1,
                        {
                            let q = Point { x: p.x + dx, y: p.y + dy };
                            let steps: u32 = ((if dx < 0 {
                                -dx
                            } else {
                                dx
                            }) + (if dy < 0 {
                                -dy
                            } else {
                                dy
                            })) as u32;
                            let hit: bool = match cost_map.get(&q) {
                                Some(cost_q) => match saving_of(cost_p, cost_q, steps) {
                                    Some(v) => v >= min_saving as u64,
                                    None => false,
                                },
                                None => false,
                            };
                            proof {
                                assert(steps == manhattan(p, q));
                                assert(hit == is_cheat(
                                    costs,
                                    max_steps as nat,
                                    min_saving as nat,
                                    p,
                                    q,
                                ));
                                assert(hit == all.contains((p, q)));
                                let ghost grown = if hit {
                                    acc.insert((p, q))
                                } else {
                                    acc
                                };
                                assert(!acc.contains((p, q))) by {
                                    assert(!seen((p, q), y as int, x as int, dx as int, dy as int));
                                }
                                assert forall|c: (Point, Point)|
                                    #[trigger] grown.contains(c) <==> (all.contains(c) && seen(
                                        c,
                                        y as int,
                                        x as int,
                                        dx as int,
                                        dy + 1,
                                    )) by {
                                    assert(c == (c.0, c.1));
                                    assert(seen(c, y as int, x as int, dx as int, dy + 1) == (seen(
                                        c,
                                        y as int,
                                        x as int,
                                        dx as int,
                                        dy as int,
                                    ) || c == (p, q)));
                                }
                                acc = grown;
                            }
                            if hit {
                                count = count + 1;
                            }
                            dy = dy + 1;
                        }
                        proof {
                            assert forall|c: (Point, Point)|
                                #[trigger] acc.contains(c) <==> (all.contains(c) && seen(
                                    c,
                                    y as int,
                                    x as int,
                                    dx + 1,
                                    -256,
                                )) by {
                                if all.contains(c) {
                                    lemma_cheat_offsets(
                                        costs,
                                        max_steps as nat,
                                        min_saving as nat,
                                        c,
                                    );
                                    assert(seen(c, y as int, x as int, dx + 1, -256) == seen(
                                        c,
                                        y as int,
                                        x as int,
                                        dx as int,
                                        dy as int,
                                    ));
                                }
                            }
                        }
                        dx = dx + 1;
                    }
                    proof {
                        assert forall|c: (Point, Point)|
                            #[trigger] acc.contains(c) <==> (all.contains(c) && seen(
                                c,
                                y as int,
                                x + 1,
                                -256,
                                0,
                            )) by {
                            if all.contains(c) {
                                lemma_cheat_offsets(costs, max_steps as nat, min_saving as nat, c);
                                assert(seen(c, y as int, x + 1, -256, 0) == seen(
                                    c,
                                    y as int,
                                    x as int,
                                    dx as int,
                                    -256,
                                ));
                            }
                        }
                    }
                },
            }
            x = x + 1;
        }
        proof {
            assert forall|c: (Point, Point)|
                #[trigger] acc.contains(c) <==> (all.contains(c) && seen(c, y + 1, 0, -256, 0)) by {
                if all.contains(c) {
                    lemma_cheat_offsets(costs, max_steps as nat, min_saving as nat, c);
                    assert(seen(c, y + 1, 0, -256, 0) == seen(c, y as int, x as int, -256, 0));
                }
            }
        }
        y = y + 1;
    }
    proof {
        assert forall|c: (Point, Point)| acc.contains(c) <==> all.contains(c) by {
            if all.contains(c) {
                lemma_cheat_offsets(costs, max_steps as nat, min_saving as nat, c);
                assert(seen(c, y as int, 0, -256, 0));
            }
        }
        assert(acc =~= all);
    }
    count
}

/// What being a cheat says of the two cells of a pair.
pub proof fn lemma_cheat_offsets(
    costs: Map<Point, nat>,
    max_steps: nat,
    min_saving: nat,
    c: (Point, Point),
)
    requires
        cheats(costs, max_steps, min_saving).contains(c),
    ensures
        costs.contains_key(c.0),
        costs.contains_key(c.1),
        abs(c.1.x - c.0.x) + abs(c.1.y - c.0.y) <= max_steps,
{
    assert(is_cheat(costs, max_steps, min_saving, c.0, c.1));
}

/// No cheat counts in both directions: of two different cells, at most one
/// ordered pair saves anything.
pub proof fn law_cheat_one_way(
    costs: Map<Point, nat>,
    max_steps: nat,
    min_saving: nat,
    p: Point,
    q: Point,
)
    requires
        is_cheat(costs, max_steps, min_saving, p, q),
        is_cheat(costs, max_steps, min_saving, q, p),
    ensures
        p == q,
{
    assert(manhattan(p, q) == manhattan(q, p));
}

/// No cheat with a negative saving is ever counted: every counted pair saves
/// at least `min_saving`, and never less than nothing.
pub proof fn law_counted_cheats_save(
    costs: Map<Point, nat>,
    max_steps: nat,
    min_saving: nat,
    p: Point,
    q: Point,
)
    requires
        cheats(costs, max_steps, min_saving).contains((p, q)),
    ensures
        saving(costs, p, q) >= 0,
        saving(costs, p, q) >= min_saving,
        costs[q] >= costs[p] + manhattan(p, q),
{
}

} // verus!
