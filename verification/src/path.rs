//! The connectivity analyzer and the frontier search engine.
//!
//! The analyzer floods outward from the first open cell (in scan order) of a
//! grid through 4-adjacency, restricted to cells the body does not occupy,
//! and compares the count of reachable open cells against the count of cells
//! the body leaves open. The search engine expands body states in greedy
//! best-first order, keyed by the squared distance of each candidate head to
//! the target, until a state's head occupies the target cell.

use vstd::prelude::*;
use vstd::set_lib::lemma_len_subset;

use crate::grid::{adjacent, Grid, GridPosition};
use crate::scores::{bumped, Scores};
use crate::snek::Snek;

verus! {

/// True iff `c` is inside the grid and not occupied by the body: a cell the
/// agent could still enter.
pub open spec fn open_cell(g: Grid, body: Seq<GridPosition>, c: GridPosition) -> bool {
    &&& g.spec_in_range(c)
    &&& !body.contains(c)
}

/// The scan order of the open-cell seed: column by column, then row by row.
pub open spec fn scan_lt(a: GridPosition, b: GridPosition) -> bool {
    ||| a.x < b.x
    ||| (a.x == b.x && a.y < b.y)
}

/// True iff `c` is the open cell that comes first in scan order.
pub open spec fn is_first_open(g: Grid, body: Seq<GridPosition>, c: GridPosition) -> bool {
    &&& open_cell(g, body, c)
    &&& forall|d: GridPosition| open_cell(g, body, d) && d != c ==> scan_lt(c, d)
}

/// A walk through open cells: non-empty, every cell open, consecutive cells
/// 4-adjacent.
pub open spec fn open_walk(g: Grid, body: Seq<GridPosition>, p: Seq<GridPosition>) -> bool {
    &&& p.len() >= 1
    &&& forall|i: int| 0 <= i < p.len() ==> open_cell(g, body, #[trigger] p[i])
    &&& forall|i: int| 0 <= i < p.len() - 1 ==> adjacent(#[trigger] p[i], p[i + 1])
}

/// True iff some walk through open cells leads from `from` to `to`.
pub open spec fn reaches(
    g: Grid,
    body: Seq<GridPosition>,
    from: GridPosition,
    to: GridPosition,
) -> bool {
    exists|p: Seq<GridPosition>| open_walk(g, body, p) && p[0] == from && p.last() == to
}

/// The open cells reachable from `from`.
pub open spec fn reach_set(g: Grid, body: Seq<GridPosition>, from: GridPosition) -> Set<
    GridPosition,
> {
    Set::new(|c: GridPosition| reaches(g, body, from, c))
}

/// The in-range cells of a `w` by `h` grid.
pub open spec fn rect(w: int, h: int) -> Set<GridPosition> {
    Set::new(|c: GridPosition| 0 <= c.x < w && 0 <= c.y < h)
}

/// The cells of row `y` whose column is below `k`.
pub open spec fn row_upto(k: int, y: int) -> Set<GridPosition> {
    Set::new(|c: GridPosition| 0 <= c.x < k && c.y == y)
}

proof fn lemma_disjoint_union_len<A>(a: Set<A>, b: Set<A>)
    requires
        a.finite(),
        b.finite(),
        a.disjoint(b),
    ensures
        (a + b).finite(),
        (a + b).len() == a.len() + b.len(),
    decreases b.len(),
{
    if b.len() == 0 {
        assert(a + b =~= a);
    } else {
        assert(exists|x: A| b.contains(x)) by {
            if !(exists|x: A| b.contains(x)) {
                assert(b =~= Set::empty());
            }
        }
        let x = choose|x: A| b.contains(x);
        lemma_disjoint_union_len(a, b.remove(x));
        assert(a + b =~= (a + b.remove(x)).insert(x));
        assert(!(a + b.remove(x)).contains(x));
    }
}

proof fn lemma_row_upto_card(k: int, y: int)
    requires
        0 <= k <= i32::MAX,
        i32::MIN <= y <= i32::MAX,
    ensures
        row_upto(k, y).finite(),
        row_upto(k, y).len() == k,
    decreases k,
{
    if k == 0 {
        assert(row_upto(0, y) =~= Set::empty());
    } else {
        lemma_row_upto_card(k - 1, y);
        let c = GridPosition { x: (k - 1) as i32, y: y as i32 };
        assert(row_upto(k, y) =~= row_upto(k - 1, y).insert(c));
        assert(!row_upto(k - 1, y).contains(c));
    }
}

/// The cell count of a `w` by `h` grid is `w * h`.
pub proof fn lemma_rect_card(w: int, h: int)
    requires
        0 <= w <= i32::MAX,
        0 <= h <= i32::MAX,
    ensures
        rect(w, h).finite(),
        rect(w, h).len() == w * h,
    decreases h,
{
    if h == 0 {
        assert(rect(w, 0) =~= Set::empty());
    } else {
        lemma_rect_card(w, h - 1);
        lemma_row_upto_card(w, h - 1);
        assert(rect(w, h) =~= rect(w, h - 1) + row_upto(w, h - 1));
        assert(rect(w, h - 1).disjoint(row_upto(w, h - 1)));
        lemma_disjoint_union_len(rect(w, h - 1), row_upto(w, h - 1));
        assert(w * (h - 1) + w == w * h) by (nonlinear_arith);
    }
}

/// The first open cell in scan order. The search for it cannot fail unless
/// the body occupies every cell of the grid, which the caller rules out.
pub fn find_not_occupied(snek: &Snek, grid: &Grid) -> (r: GridPosition)
    requires
        grid.wf(),
        exists|c: GridPosition| open_cell(*grid, snek@, c),
    ensures
        is_first_open(*grid, snek@, r),
{
    let mut i: i32 = 0;
    while i < grid.size_x
        invariant
            0 <= i <= grid.size_x,
            grid.wf(),
            forall|c: GridPosition|
                grid.spec_in_range(c) && c.x < i ==> snek@.contains(c),
        decreases grid.size_x - i,
    {
        let mut j: i32 = 0;
        while j < grid.size_y
            invariant
                0 <= i < grid.size_x,
                0 <= j <= grid.size_y,
                grid.wf(),
                forall|c: GridPosition|
                    grid.spec_in_range(c) && c.x < i ==> snek@.contains(c),
                forall|c: GridPosition|
                    grid.spec_in_range(c) && c.x == i && c.y < j ==> snek@.contains(c),
            decreases grid.size_y - j,
        {
            let p = GridPosition { x: i, y: j };
            if !snek.is_occupied(&p) {
                proof {
                    assert forall|d: GridPosition| open_cell(*grid, snek@, d) && d != p implies
                        scan_lt(p, d) by {
                        if !scan_lt(p, d) {
                            assert(d.x < i || (d.x == i && d.y < j));
                        }
                    }
                }
                return p;
            }
            j = j + 1;
        }
        i = i + 1;
    }
    proof {
        let c = choose|c: GridPosition| open_cell(*grid, snek@, c);
        assert(snek@.contains(c));
        assert(false);
    }
    vstd::pervasive::unreached()
}

/// The row-major position of a cell in the flood fill's bitmap.
pub open spec fn spec_cell_index(g: Grid, c: GridPosition) -> int {
    c.x * g.size_y + c.y
}

fn cell_index(grid: &Grid, c: GridPosition) -> (r: usize)
    requires
        grid.wf(),
        grid.spec_in_range(c),
    ensures
        r == spec_cell_index(*grid, c),
        r < grid.size_x * grid.size_y,
{
    proof {
        assert(0 <= c.x * grid.size_y + c.y < grid.size_x * grid.size_y) by (nonlinear_arith)
            requires
                0 <= c.x < grid.size_x,
                0 <= c.y < grid.size_y,
        ;
    }
    (c.x as usize) * (grid.size_y as usize) + (c.y as usize)
}

proof fn lemma_cell_index_injective(g: Grid, a: GridPosition, b: GridPosition)
    requires
        g.wf(),
        g.spec_in_range(a),
        g.spec_in_range(b),
        spec_cell_index(g, a) == spec_cell_index(g, b),
    ensures
        a == b,
{
    assert(a.x == b.x && a.y == b.y) by (nonlinear_arith)
        requires
            0 <= a.x < g.size_x,
            0 <= a.y < g.size_y,
            0 <= b.x < g.size_x,
            0 <= b.y < g.size_y,
            a.x * g.size_y + a.y == b.x * g.size_y + b.y,
    ;
}

/// Every in-range cell adjacent to `pos` appears among the neighbours the
/// topology yields for `pos`.
pub proof fn lemma_neighbours_complete(g: Grid, pos: GridPosition, n: GridPosition)
    requires
        g.wf(),
        g.spec_in_range(pos),
        g.spec_in_range(n),
        adjacent(pos, n),
    ensures
        g.spec_neighbours(pos).contains(n),
{
    let s = g.spec_neighbours(pos);
    let up = GridPosition { x: pos.x, y: (pos.y - 1) as i32 };
    let down = GridPosition { x: pos.x, y: (pos.y + 1) as i32 };
    let left = GridPosition { x: (pos.x - 1) as i32, y: pos.y };
    let c1: Seq<GridPosition> = if g.spec_in_range(up) { seq![up] } else { Seq::empty() };
    let c2: Seq<GridPosition> = if g.spec_in_range(down) { seq![down] } else { Seq::empty() };
    let c3: Seq<GridPosition> = if g.spec_in_range(left) { seq![left] } else { Seq::empty() };
    if n == up {
        assert(s[0] == n);
    } else if n == down {
        assert(s[c1.len() as int] == n);
    } else if n == left {
        assert(s[c1.len() + c2.len() as int] == n);
    } else {
        assert(n == GridPosition { x: (pos.x + 1) as i32, y: pos.y });
        assert(s[c1.len() + c2.len() + c3.len() as int] == n);
    }
}

/// Extending a walk by one adjacent open cell keeps the target reachable.
pub proof fn lemma_reach_step(
    g: Grid,
    body: Seq<GridPosition>,
    start: GridPosition,
    c: GridPosition,
    n: GridPosition,
)
    requires
        reaches(g, body, start, c),
        open_cell(g, body, n),
        adjacent(c, n),
    ensures
        reaches(g, body, start, n),
{
    let p = choose|p: Seq<GridPosition>| open_walk(g, body, p) && p[0] == start && p.last() == c;
    let q = p.push(n);
    assert(open_walk(g, body, q)) by {
        assert(forall|i: int| 0 <= i < p.len() ==> q[i] == #[trigger] p[i]);
        assert(q[q.len() - 1] == n);
        assert(adjacent(q[p.len() - 1], q[p.len() as int]));
    }
    assert(q[0] == start && q.last() == n);
}

/// The neighbour relation the flood fill maintains: every open neighbour of
/// a visited cell that is no longer pending has been visited too.
pub open spec fn bfs_closed(
    g: Grid,
    body: Seq<GridPosition>,
    vs: Set<GridPosition>,
    pending: Seq<GridPosition>,
) -> bool {
    forall|c: GridPosition, n: GridPosition|
        #![trigger vs.contains(c), adjacent(c, n)]
        vs.contains(c) && !pending.contains(c) && open_cell(g, body, n) && adjacent(c, n)
            ==> vs.contains(n)
}

/// A set of visited cells that is closed under the neighbour relation and
/// holds the seed holds every cell the seed reaches.
proof fn lemma_walk_in_closed(
    g: Grid,
    body: Seq<GridPosition>,
    vs: Set<GridPosition>,
    p: Seq<GridPosition>,
)
    requires
        bfs_closed(g, body, vs, Seq::empty()),
        open_walk(g, body, p),
        vs.contains(p[0]),
    ensures
        vs.contains(p.last()),
    decreases p.len(),
{
    if p.len() > 1 {
        let q = p.drop_last();
        assert(open_walk(g, body, q)) by {
            assert(forall|i: int| 0 <= i < q.len() ==> q[i] == #[trigger] p[i]);
        }
        lemma_walk_in_closed(g, body, vs, q);
        assert(vs.contains(p[p.len() - 2]));
        assert(adjacent(p[p.len() - 2], p[p.len() - 1]));
        assert(open_cell(g, body, p[p.len() - 1]));
    }
}

/// Closedness survives a pending set that holds at least the same cells.
proof fn lemma_closed_pending_grow(
    g: Grid,
    body: Seq<GridPosition>,
    vs: Set<GridPosition>,
    p1: Seq<GridPosition>,
    p2: Seq<GridPosition>,
)
    requires
        bfs_closed(g, body, vs, p1),
        forall|c: GridPosition| p1.contains(c) ==> p2.contains(c),
    ensures
        bfs_closed(g, body, vs, p2),
{
    assert forall|c: GridPosition, n: GridPosition|
        #![trigger vs.contains(c), adjacent(c, n)]
        vs.contains(c) && !p2.contains(c) && open_cell(g, body, n) && adjacent(c, n) implies
        vs.contains(n) by {
        assert(!p1.contains(c));
    }
}

/// True iff the body, if adopted, seals the agent off from part of the open
/// space: the cells reachable from the first open cell number strictly fewer
/// than all the cells the body leaves open.
#[verifier::loop_isolation(false)]
pub fn is_blocking(snek: &Snek, grid: &Grid) -> (r: bool)
    requires
        grid.wf(),
        exists|c: GridPosition| open_cell(*grid, snek@, c),
    ensures
        forall|s: GridPosition|
            is_first_open(*grid, snek@, s) ==> r == (reach_set(*grid, snek@, s).len()
                < grid.size_x * grid.size_y - snek@.len()),
{
    let ghost g = *grid;
    let ghost body = snek@;
    let start = find_not_occupied(snek, grid);
    let w: i32 = grid.size_x;
    let h: i32 = grid.size_y;
    let area: usize = (w as usize) * (h as usize);
    let mut visited: Vec<bool> = Vec::new();
    let mut k: usize = 0;
    while k < area
        invariant
            k <= area,
            visited@.len() == k,
            forall|j: int| 0 <= j < k ==> !visited@[j],
        decreases area - k,
    {
        visited.push(false);
        k = k + 1;
    }
    let sid = cell_index(grid, start);
    visited[sid] = true;
    let mut queue: Vec<GridPosition> = Vec::new();
    queue.push(start);
    let mut count: usize = 1;
    let ghost mut vs: Set<GridPosition> = Set::empty().insert(start);
    proof {
        assert(reaches(g, body, start, start)) by {
            let p: Seq<GridPosition> = seq![start];
            assert(open_walk(g, body, p) && p[0] == start && p.last() == start);
        }
        assert forall|c: GridPosition| g.spec_in_range(c) implies (visited@[spec_cell_index(
            g,
            c,
        )] <==> vs.contains(c)) by {
            assert(0 <= spec_cell_index(g, c) < area) by (nonlinear_arith)
                requires
                    0 <= c.x < g.size_x,
                    0 <= c.y < g.size_y,
                    area == g.size_x * g.size_y,
            ;
            if c != start && spec_cell_index(g, c) == spec_cell_index(g, start) {
                lemma_cell_index_injective(g, c, start);
            }
        }
        assert(vs.len() == 1);
        assert(queue@.contains(start)) by {
            assert(queue@[0] == start);
        }
        lemma_rect_card(w as int, h as int);
        assert(vs <= rect(w as int, h as int));
        lemma_len_subset(vs, rect(w as int, h as int));
    }
    while queue.len() > 0
        invariant
            visited@.len() == area,
            vs.finite(),
            vs.contains(start),
            count == vs.len(),
            count <= area,
            forall|c: GridPosition| #[trigger]
                vs.contains(c) ==> open_cell(g, body, c) && reaches(g, body, start, c),
            forall|c: GridPosition| #![trigger spec_cell_index(g, c)]
                g.spec_in_range(c) ==> (visited@[spec_cell_index(g, c)] <==> vs.contains(c)),
            forall|i: int| 0 <= i < queue@.len() ==> vs.contains(#[trigger] queue@[i]),
            bfs_closed(g, body, vs, queue@),
        decreases area - count, queue@.len(),
    {
        let ghost qpre = queue@;
        let current = queue.remove(0);
        proof {
            assert(vs.contains(current));
            assert forall|c: GridPosition| qpre.contains(c) implies queue@.push(
                current,
            ).contains(c) by {
                let i = choose|i: int| 0 <= i < qpre.len() && qpre[i] == c;
                if i == 0 {
                    assert(queue@.push(current)[queue@.len() as int] == c);
                } else {
                    assert(queue@.push(current)[i - 1] == c);
                }
            }
            lemma_closed_pending_grow(g, body, vs, qpre, queue@.push(current));
        }
        let nbrs = grid.for_each_neighbour(current);
        let ghost q1 = queue@;
        let ghost count0 = count;
        let mut t: usize = 0;
        while t < nbrs.len()
            invariant
                t <= nbrs@.len(),
                nbrs@ == g.spec_neighbours(current),
                visited@.len() == area,
                vs.finite(),
                vs.contains(start),
                vs.contains(current),
                count == vs.len(),
                count <= area,
                count - count0 == queue@.len() - q1.len(),
                count >= count0,
                forall|c: GridPosition| #[trigger]
                    vs.contains(c) ==> open_cell(g, body, c) && reaches(g, body, start, c),
                forall|c: GridPosition| #![trigger spec_cell_index(g, c)]
                    g.spec_in_range(c) ==> (visited@[spec_cell_index(g, c)] <==> vs.contains(
                        c,
                    )),
                forall|i: int| 0 <= i < queue@.len() ==> vs.contains(#[trigger] queue@[i]),
                forall|j: int|
                    0 <= j < t && open_cell(g, body, #[trigger] nbrs@[j]) ==> vs.contains(
                        nbrs@[j],
                    ),
                bfs_closed(g, body, vs, queue@.push(current)),
            decreases nbrs@.len() - t,
        {
            let n = nbrs[t];
            proof {
                crate::grid::lemma_neighbours_valid(g, current);
            }
            let nid = cell_index(grid, n);
            if !visited[nid] {
                if !snek.is_occupied(&n) {
                    visited[nid] = true;
                    let ghost qold = queue@;
                    queue.push(n);
                    proof {
                        assert(!vs.contains(n));
                        lemma_reach_step(g, body, start, current, n);
                        let ghost vsold = vs;
                        vs = vs.insert(n);
                        lemma_rect_card(w as int, h as int);
                        assert(vs <= rect(w as int, h as int));
                        lemma_len_subset(vs, rect(w as int, h as int));
                        assert forall|c: GridPosition| g.spec_in_range(c) implies (visited@[
                            spec_cell_index(g, c)] <==> vs.contains(c)) by {
                            assert(0 <= spec_cell_index(g, c) < area) by (nonlinear_arith)
                                requires
                                    0 <= c.x < g.size_x,
                                    0 <= c.y < g.size_y,
                                    area == g.size_x * g.size_y,
                            ;
                            if c != n && spec_cell_index(g, c) == spec_cell_index(g, n) {
                                lemma_cell_index_injective(g, c, n);
                            }
                        }
                        assert forall|c: GridPosition| qold.push(current).contains(c) implies
                            queue@.push(current).contains(c) by {
                            let i = choose|i: int|
                                0 <= i < qold.push(current).len() && qold.push(current)[i] == c;
                            if i < qold.len() {
                                assert(queue@.push(current)[i] == c);
                            } else {
                                assert(queue@.push(current).last() == current);
                            }
                        }
                        lemma_closed_pending_grow(g, body, vsold, qold.push(current), queue@.push(
                            current,
                        ));
                        assert forall|c: GridPosition, n2: GridPosition|
                            #![trigger vs.contains(c), adjacent(c, n2)]
                            vs.contains(c) && !queue@.push(current).contains(c) && open_cell(
                                g,
                                body,
                                n2,
                            ) && adjacent(c, n2) implies vs.contains(n2) by {
                            if c == n {
                                assert(queue@[queue@.len() - 1] == n);
                                assert(queue@.push(current)[queue@.len() - 1] == n);
                                assert(queue@.push(current).contains(c));
                            } else {
                                assert(vsold.contains(c));
                            }
                        }
                    }
                    count = count + 1;
                }
            }
            t = t + 1;
        }
        proof {
            assert forall|c: GridPosition, n: GridPosition|
                #![trigger vs.contains(c), adjacent(c, n)]
                vs.contains(c) && !queue@.contains(c) && open_cell(g, body, n) && adjacent(
                    c,
                    n,
                ) implies vs.contains(n) by {
                if c == current {
                    lemma_neighbours_complete(g, current, n);
                    let j = choose|j: int| 0 <= j < nbrs@.len() && nbrs@[j] == n;
                } else {
                    assert(!queue@.push(current).contains(c)) by {
                        if queue@.push(current).contains(c) {
                            let i = choose|i: int|
                                0 <= i < queue@.push(current).len() && queue@.push(current)[i]
                                    == c;
                            assert(queue@.contains(queue@[i]));
                        }
                    }
                }
            }
        }
    }
    proof {
        assert forall|c: GridPosition| reaches(g, body, start, c) implies vs.contains(c) by {
            let p = choose|p: Seq<GridPosition>|
                open_walk(g, body, p) && p[0] == start && p.last() == c;
            lemma_walk_in_closed(g, body, vs, p);
        }
        assert(vs =~= reach_set(g, body, start));
        assert forall|s: GridPosition| is_first_open(g, body, s) implies s == start by {
            if s != start {
                assert(scan_lt(s, start) && scan_lt(start, s));
            }
        }
    }
    (count as u128) + (snek.body.len() as u128) < (area as u128)
}


/// The squared Euclidean distance between two cells.
pub open spec fn spec_dist(a: GridPosition, b: GridPosition) -> int {
    (a.x - b.x) * (a.x - b.x) + (a.y - b.y) * (a.y - b.y)
}

/// The squared Euclidean distance between two cells: the greedy priority of
/// the frontier search.
pub fn distance_sqared(a: GridPosition, b: GridPosition) -> (r: i64)
    requires
        0 <= a.x,
        0 <= a.y,
        0 <= b.x,
        0 <= b.y,
    ensures
        r == spec_dist(a, b),
        r >= 0,
{
    let dx: i64 = a.x as i64 - b.x as i64;
    let dy: i64 = a.y as i64 - b.y as i64;
    proof {
        assert(0 <= dx * dx <= 0x7fffffffi64 * 0x7fffffffi64 && 0 <= dy * dy <= 0x7fffffffi64
            * 0x7fffffffi64) by (nonlinear_arith)
            requires
                -0x7fffffffi64 <= dx <= 0x7fffffffi64,
                -0x7fffffffi64 <= dy <= 0x7fffffffi64,
        ;
    }
    dx * dx + dy * dy
}

/// True iff every in-range neighbour of the body's head is occupied: the
/// agent has no legal move at all.
pub open spec fn trapped(g: Grid, body: Seq<GridPosition>) -> bool {
    forall|n: GridPosition| #[trigger] g.spec_neighbours(body[0]).contains(n) ==> body.contains(n)
}

/// True iff the head has at least one unoccupied in-range neighbour: a cheap
/// necessary-but-not-sufficient liveness probe.
pub fn can_move(snek: &Snek, grid: &Grid) -> (r: bool)
    requires
        grid.wf(),
        snek@.len() >= 1,
        grid.spec_in_range(snek@[0]),
    ensures
        r == exists|n: GridPosition|
            #[trigger] grid.spec_neighbours(snek@[0]).contains(n) && !snek@.contains(n),
        r == !trapped(*grid, snek@),
{
    let head = snek.get_head();
    let nbrs = grid.for_each_neighbour(head);
    let mut can = false;
    let mut t: usize = 0;
    while t < nbrs.len()
        invariant
            t <= nbrs@.len(),
            nbrs@ == grid.spec_neighbours(snek@[0]),
            can == exists|k: int| 0 <= k < t && !snek@.contains(#[trigger] nbrs@[k]),
        decreases nbrs@.len() - t,
    {
        if !snek.is_occupied(&nbrs[t]) {
            can = true;
        }
        t = t + 1;
    }
    proof {
        if can {
            let k = choose|k: int| 0 <= k < nbrs@.len() && !snek@.contains(#[trigger] nbrs@[k]);
            assert(nbrs@.contains(nbrs@[k]));
        } else {
            assert forall|n: GridPosition|
                #[trigger] grid.spec_neighbours(snek@[0]).contains(n) implies snek@.contains(
                n,
            ) by {
                let k = choose|k: int| 0 <= k < nbrs@.len() && nbrs@[k] == n;
            }
        }
    }
    can
}

/// A persistent, structurally shared sequence of body states, newest first.
/// It holds an rpds list, so extending a frontier path is O(1) and candidate
/// paths share their common tails instead of copying them.
#[verifier::external_body]
pub struct PathList {
    inner: rpds::List<Snek>,
}

/// The body states a persistent path list holds, newest first.
pub uninterp spec fn path_states(l: PathList) -> Seq<Snek>;

impl PathList {
    /// Relies on rpds::List::new: the fresh list is empty.
    #[verifier::external_body]
    pub fn new() -> (r: PathList)
        ensures
            path_states(r) == Seq::<Snek>::empty(),
    {
        PathList { inner: rpds::List::new() }
    }

    /// Relies on rpds::List::push_front: the new list holds `s` before the
    /// previous contents, which are shared, not copied.
    #[verifier::external_body]
    pub fn push_front(&self, s: Snek) -> (r: PathList)
        ensures
            path_states(r) == seq![s] + path_states(*self),
    {
        PathList { inner: self.inner.push_front(s) }
    }

    /// Relies on rpds::List::first, which hands back the newest element, and
    /// on the derived clone of the body, which copies its cells.
    #[verifier::external_body]
    pub fn first(&self) -> (r: Option<Snek>)
        ensures
            match r {
                Some(s) => path_states(*self).len() > 0 && s == path_states(*self)[0],
                None => path_states(*self).len() == 0,
            },
    {
        self.inner.first().cloned()
    }

    /// Relies on rpds::List::drop_first: the list without its newest state.
    #[verifier::external_body]
    pub fn drop_first(&self) -> (r: Option<PathList>)
        ensures
            match r {
                Some(t) => path_states(*self).len() > 0 && path_states(t) == path_states(
                    *self,
                ).drop_first(),
                None => path_states(*self).len() == 0,
            },
    {
        match self.inner.drop_first() {
            Some(l) => Some(PathList { inner: l }),
            None => None,
        }
    }

    /// Relies on rpds::List::reverse: the same states in the opposite order.
    #[verifier::external_body]
    pub fn reverse(&self) -> (r: PathList)
        ensures
            path_states(r) == path_states(*self).reverse(),
    {
        PathList { inner: self.inner.reverse() }
    }

    /// Relies on rpds::List::len: how many states the path holds.
    #[verifier::external_body]
    pub fn len(&self) -> (r: usize)
        ensures
            r == path_states(*self).len(),
    {
        self.inner.len()
    }
}

/// One frontier entry: a candidate path, keyed by the greedy priority and an
/// insertion stamp that breaks ties deterministically.
struct PathElement {
    priority: i64,
    stamp: u64,
    path: PathList,
}

/// The frontier's order: by priority, then by insertion stamp.
spec fn lex_le(a: PathElement, b: PathElement) -> bool {
    ||| a.priority < b.priority
    ||| (a.priority == b.priority && a.stamp <= b.stamp)
}

/// One legal move: `next` came out of `prev` by advancing onto, or growing
/// onto, an in-range unoccupied neighbour of `prev`'s head; the move grows
/// the body exactly when it lands on the target.
pub open spec fn legal_step(g: Grid, food: GridPosition, prev: Snek, next: Snek) -> bool {
    &&& prev@.len() >= 1
    &&& next@.len() >= 1
    &&& g.spec_in_range(next@[0])
    &&& adjacent(prev@[0], next@[0])
    &&& !prev@.contains(next@[0])
    &&& (next@[0] == food ==> next@ == seq![next@[0]] + prev@)
    &&& (next@[0] != food ==> next@ == seq![next@[0]] + prev@.drop_last())
}

/// A frontier path, newest state first: well-formed states, each one a legal
/// move out of the one behind it, rooted in the seed state.
pub open spec fn chain_ok(g: Grid, food: GridPosition, seed: Snek, s: Seq<Snek>) -> bool {
    &&& s.len() >= 1
    &&& s.last() == seed
    &&& forall|i: int| 0 <= i < s.len() ==> (#[trigger] s[i]).wf()
    &&& forall|i: int| 0 <= i < s.len() ==> (#[trigger] s[i])@.len() >= 1
    &&& forall|i: int| 0 <= i < s.len() ==> g.spec_in_range((#[trigger] s[i])@[0])
    &&& forall|i: int| 0 <= i < s.len() - 1 ==> legal_step(g, food, s[i + 1], #[trigger] s[i])
}

/// What the search promises of a returned path, oldest state first: it
/// starts at the seed, every consecutive pair is a legal move, and the last
/// state's head occupies the target.
pub open spec fn valid_route(g: Grid, food: GridPosition, seed: Snek, s: Seq<Snek>) -> bool {
    &&& s.len() >= 1
    &&& s[0] == seed
    &&& forall|i: int| 0 <= i < s.len() ==> (#[trigger] s[i]).wf() && s[i]@.len() >= 1
    &&& forall|i: int| 0 <= i < s.len() - 1 ==> legal_step(g, food, #[trigger] s[i], s[i + 1])
    &&& s.last()@.len() >= 1
    &&& s.last()@[0] == food
}

/// The head cell of a frontier entry's newest state.
spec fn entry_head(e: PathElement) -> GridPosition {
    path_states(e.path)[0]@[0]
}

/// A well-formed frontier entry.
spec fn entry_ok(g: Grid, food: GridPosition, seed: Snek, e: PathElement) -> bool {
    &&& chain_ok(g, food, seed, path_states(e.path))
    &&& e.priority >= 0
    &&& (e.stamp != 0 ==> e.priority == spec_dist(food, entry_head(e)))
}

/// An entry whose priority has hit zero: its head is already on the target.
spec fn zero_entry(food: GridPosition, e: PathElement) -> bool {
    &&& e.priority == 0
    &&& path_states(e.path).len() >= 1
    &&& path_states(e.path)[0]@.len() >= 1
    &&& entry_head(e) == food
}

proof fn lemma_dist_zero(a: GridPosition, b: GridPosition)
    requires
        spec_dist(a, b) == 0,
    ensures
        a == b,
{
    assert(a.x == b.x && a.y == b.y) by (nonlinear_arith)
        requires
            (a.x - b.x) * (a.x - b.x) + (a.y - b.y) * (a.y - b.y) == 0,
    ;
}

/// Reversing a frontier chain yields a valid route when the chain's newest
/// head is on the target.
proof fn lemma_chain_reverse(g: Grid, food: GridPosition, seed: Snek, s: Seq<Snek>)
    requires
        chain_ok(g, food, seed, s),
        s[0]@[0] == food,
    ensures
        valid_route(g, food, seed, s.reverse()),
{
    let rv = s.reverse();
    assert(rv[0] == s[s.len() - 1]);
    assert(rv.last() == s[0]);
    assert forall|i: int| 0 <= i < rv.len() implies (#[trigger] rv[i]).wf() && rv[i]@.len()
        >= 1 by {
        assert(rv[i] == s[s.len() - 1 - i]);
    }
    assert forall|i: int| 0 <= i < rv.len() - 1 implies legal_step(
        g,
        food,
        #[trigger] rv[i],
        rv[i + 1],
    ) by {
        assert(rv[i] == s[s.len() - 1 - i]);
        assert(rv[i + 1] == s[s.len() - 2 - i]);
        assert(legal_step(g, food, s[s.len() - 2 - i + 1], s[s.len() - 2 - i]));
    }
}

/// Removes and returns the frontier entry that is first in the order:
/// smallest priority, oldest stamp among equals.
#[verifier::loop_isolation(false)]
fn pop_min(q: &mut Vec<PathElement>) -> (r: PathElement)
    requires
        old(q)@.len() >= 1,
    ensures
        exists|i: int|
            0 <= i < old(q)@.len() && r == old(q)@[i] && final(q)@ == old(q)@.remove(i),
        forall|j: int| 0 <= j < final(q)@.len() ==> lex_le(r, #[trigger] final(q)@[j]),
{
    let mut best: usize = 0;
    let mut i: usize = 1;
    while i < q.len()
        invariant
            best < i,
            i <= q@.len(),
            forall|j: int| 0 <= j < i ==> lex_le(q@[best as int], #[trigger] q@[j]),
        decreases q@.len() - i,
    {
        if q[i].priority < q[best].priority || (q[i].priority == q[best].priority && q[i].stamp
            < q[best].stamp) {
            best = i;
        }
        i = i + 1;
    }
    let ghost q0 = q@;
    let ghost b = best as int;
    let r = q.remove(best);
    proof {
        assert(r == q0[b] && q@ == q0.remove(b));
        assert forall|j: int| 0 <= j < q@.len() implies lex_le(r, #[trigger] q@[j]) by {
            if j < b {
                assert(q@[j] == q0[j]);
            } else {
                assert(q@[j] == q0[j + 1]);
            }
        }
    }
    r
}

/// The hard ceiling on how many states one invocation may expand: the search
/// has no global closed set, so without a budget a mazy grid could make it
/// re-explore states without bound.
pub const MAX_EXPANSIONS: u64 = 1000000;

/// Greedy best-first search from `snek` to `food`: expands the frontier
/// entry whose head lies closest to the target (by squared distance, ties
/// broken by age), generating one successor state per unoccupied in-range
/// neighbour of the head, until a popped state's head is the target.
///
/// On success the route comes back oldest state first, together with the
/// per-cell expansion counters. `None` means the frontier emptied, or the
/// expansion budget ran out, without reaching the target. A target on a cell
/// adjacent to the seed's head is always reached, and a head with every
/// neighbour occupied never is.
#[verifier::loop_isolation(false)]
#[verifier::rlimit(100)]
pub fn find_path(snek: Snek, grid: &Grid, food: GridPosition) -> (r: Option<
    (PathList, Scores),
>)
    requires
        grid.wf(),
        snek.wf(),
        snek@.len() >= 1,
        grid.spec_in_range(snek@[0]),
        grid.spec_in_range(food),
        !snek@.contains(food),
    ensures
        match r {
            Some(pr) => valid_route(*grid, food, snek, path_states(pr.0)) && pr.1.wf(),
            None => true,
        },
        adjacent(snek@[0], food) ==> r.is_some(),
        adjacent(snek@[0], food) ==> match r {
            Some(pr) => pr.1@ == Map::<GridPosition, i32>::empty().insert(snek@[0], 1i32),
            None => true,
        },
        trapped(*grid, snek@) ==> r.is_none(),
{
    let ghost g = *grid;
    let mut queue_v: Vec<PathElement> = Vec::new();
    let list = PathList::new();
    let mut scores = Scores::new();
    let seed_path = list.push_front(snek);
    proof {
        assert(path_states(seed_path) =~= seq![snek]);
    }
    queue_v.push(PathElement { priority: 0, stamp: 0, path: seed_path });
    let mut next_stamp: u64 = 1;
    let mut expansions: u64 = 0;
    while queue_v.len() > 0 && expansions < MAX_EXPANSIONS
        invariant
            forall|i: int|
                0 <= i < queue_v@.len() ==> entry_ok(g, food, snek, #[trigger] queue_v@[i]),
            scores.wf(),
            next_stamp >= 1,
            expansions <= MAX_EXPANSIONS,
            expansions == 0 ==> queue_v@.len() == 1 && queue_v@[0].stamp == 0,
            forall|i: int|
                0 <= i < queue_v@.len() && (#[trigger] queue_v@[i]).stamp == 0
                    ==> path_states(queue_v@[i].path) == seq![snek],
            expansions >= 1 ==> forall|i: int|
                0 <= i < queue_v@.len() ==> (#[trigger] queue_v@[i]).stamp != 0,
            adjacent(snek@[0], food) ==> expansions <= 1,
            adjacent(snek@[0], food) && expansions == 1 ==> exists|i: int|
                0 <= i < queue_v@.len() && zero_entry(food, #[trigger] queue_v@[i]),
            adjacent(snek@[0], food) && expansions == 0 ==> scores@ == Map::<
                GridPosition,
                i32,
            >::empty(),
            adjacent(snek@[0], food) && expansions == 1 ==> scores@ == Map::<
                GridPosition,
                i32,
            >::empty().insert(snek@[0], 1i32),
            trapped(g, snek@) ==> (expansions == 0 && queue_v@.len() == 1) || queue_v@.len()
                == 0,
        decreases MAX_EXPANSIONS - expansions,
    {
        let ghost q_pre = queue_v@;
        let el = pop_min(&mut queue_v);
        let ghost iw = choose|i: int|
            0 <= i < q_pre.len() && el == q_pre[i] && queue_v@ == q_pre.remove(i);
        proof {
            assert(entry_ok(g, food, snek, el));
            assert forall|j: int| 0 <= j < queue_v@.len() implies entry_ok(
                g,
                food,
                snek,
                #[trigger] queue_v@[j],
            ) && (expansions >= 1 ==> queue_v@[j].stamp != 0) && (queue_v@[j].stamp == 0
                ==> path_states(queue_v@[j].path) == seq![snek]) by {
                if j < iw {
                    assert(queue_v@[j] == q_pre[j]);
                } else {
                    assert(queue_v@[j] == q_pre[j + 1]);
                }
            }
        }
        let current_opt = el.path.first();
        let current = match current_opt {
            Some(s) => s,
            None => {
                proof {
                    assert(false);
                }
                vstd::pervasive::unreached()
            },
        };
        let head = current.get_head();
        if head.x == food.x && head.y == food.y {
            proof {
                lemma_chain_reverse(g, food, snek, path_states(el.path));
                if adjacent(snek@[0], food) && expansions == 0 {
                    assert(el == q_pre[0] && el.stamp == 0);
                    assert(path_states(el.path) == seq![snek]);
                    assert(current == snek);
                    assert(snek@.contains(head)) by {
                        assert(snek@[0] == head);
                    }
                    assert(false);
                }
                if trapped(g, snek@) {
                    assert(expansions == 0 && q_pre.len() == 1);
                    assert(el == q_pre[0] && el.stamp == 0);
                    assert(path_states(el.path) == seq![snek]);
                    assert(current == snek);
                    assert(snek@.contains(head)) by {
                        assert(snek@[0] == head);
                    }
                    assert(false);
                }
            }
            let rev = el.path.reverse();
            return Some((rev, scores));
        }
        proof {
            if adjacent(snek@[0], food) && expansions == 1 {
                let iz = choose|i: int| 0 <= i < q_pre.len() && zero_entry(food, q_pre[i]);
                if iz == iw {
                    assert(el.priority == 0);
                } else {
                    let jz: int = if iz < iw {
                        iz
                    } else {
                        iz - 1
                    };
                    assert(queue_v@ == q_pre.subrange(0, iw) + q_pre.subrange(
                        iw + 1,
                        q_pre.len() as int,
                    ));
                    if iz < iw {
                        assert(queue_v@[jz] == q_pre.subrange(0, iw)[jz]);
                    } else {
                        assert(queue_v@[jz] == q_pre.subrange(iw + 1, q_pre.len() as int)[jz
                            - iw]);
                    }
                    assert(queue_v@[jz] == q_pre[iz]);
                    assert(lex_le(el, queue_v@[jz]));
                }
                assert(el.priority == 0);
                assert(el.stamp != 0);
                assert(spec_dist(food, entry_head(el)) == 0);
                lemma_dist_zero(food, entry_head(el));
                assert(false);
            }
        }
        proof {
            if adjacent(snek@[0], food) && expansions == 0 {
                assert(el == q_pre[0] && el.stamp == 0);
                assert(path_states(el.path) == seq![snek]);
                assert(current == snek);
                assert(head == snek@[0]);
                assert(bumped(Map::<GridPosition, i32>::empty(), head) == 1i32);
            }
        }
        scores.bump(head);
        expansions = expansions + 1;
        let nbrs = grid.for_each_neighbour(head);
        proof {
            if adjacent(snek@[0], food) && el.stamp == 0 {
                assert(path_states(el.path) == seq![snek]);
                assert(current == snek);
                lemma_neighbours_complete(g, head, food);
                let j = choose|j: int| 0 <= j < nbrs@.len() && nbrs@[j] == food;
                assert(0 <= j < nbrs@.len() && nbrs@[j] == food);
            }
        }
        let mut t: usize = 0;
        while t < nbrs.len()
            invariant
                t <= nbrs@.len(),
                nbrs@ == g.spec_neighbours(head),
                head == current@[0],
                current.wf(),
                current@.len() >= 1,
                chain_ok(g, food, snek, path_states(el.path)),
                current == path_states(el.path)[0],
                next_stamp >= 1,
                forall|i: int|
                    0 <= i < queue_v@.len() ==> entry_ok(g, food, snek, #[trigger] queue_v@[i]),
                forall|i: int|
                    0 <= i < queue_v@.len() ==> (#[trigger] queue_v@[i]).stamp != 0,
                adjacent(snek@[0], food) && el.stamp == 0 ==> ((exists|i: int|
                    0 <= i < queue_v@.len() && zero_entry(food, #[trigger] queue_v@[i])) || (
                exists|j: int| t <= j < nbrs@.len() && nbrs@[j] == food)),
                trapped(g, snek@) ==> queue_v@.len() == 0,
            decreases nbrs@.len() - t,
        {
            let ghost qs = queue_v@;
            let n = nbrs[t];
            proof {
                crate::grid::lemma_neighbours_valid(g, head);
                assert(nbrs@.contains(nbrs@[t as int]));
            }
            if !current.is_occupied(&n) {
                let next_snek = if n.x == food.x && n.y == food.y {
                    current.eat(n)
                } else {
                    current.go(&n)
                };
                let nh = next_snek.get_head();
                let pr = distance_sqared(food, nh);
                let new_path = el.path.push_front(next_snek);
                queue_v.push(PathElement { priority: pr, stamp: next_stamp, path: new_path });
                next_stamp = if next_stamp < u64::MAX {
                    next_stamp + 1
                } else {
                    next_stamp
                };
                proof {
                    if trapped(g, snek@) {
                        assert(el.stamp == 0);
                        assert(path_states(el.path) == seq![snek]);
                        assert(snek@.contains(n));
                        assert(false);
                    }
                    let ns = path_states(new_path);
                    let os = path_states(el.path);
                    assert(ns == seq![next_snek] + os);
                    assert(ns.last() == os.last()) by {
                        assert(ns[ns.len() - 1] == os[os.len() - 1]);
                    }
                    assert forall|i: int| 0 <= i < ns.len() implies (#[trigger] ns[i]).wf()
                        && ns[i]@.len() >= 1 && g.spec_in_range(ns[i]@[0]) by {
                        if i >= 1 {
                            assert(ns[i] == os[i - 1]);
                        }
                    }
                    assert(legal_step(g, food, current, next_snek));
                    assert forall|i: int| 0 <= i < ns.len() - 1 implies legal_step(
                        g,
                        food,
                        ns[i + 1],
                        #[trigger] ns[i],
                    ) by {
                        if i >= 1 {
                            assert(ns[i] == os[i - 1] && ns[i + 1] == os[i]);
                            assert(legal_step(g, food, os[i - 1 + 1], os[i - 1]));
                        }
                    }
                    assert(chain_ok(g, food, snek, ns));
                    if n == food {
                        assert(spec_dist(food, nh) == 0) by (nonlinear_arith)
                            requires
                                nh == food,
                        ;
                        assert(zero_entry(food, queue_v@[queue_v@.len() - 1]));
                    }
                }
            } else {
                proof {
                    if adjacent(snek@[0], food) && el.stamp == 0 && n == food {
                        assert(path_states(el.path) == seq![snek]);
                        assert(current == snek);
                        assert(false);
                    }
                }
            }
            proof {
                assert(qs.len() <= queue_v@.len());
                assert(forall|i: int| 0 <= i < qs.len() ==> queue_v@[i] == #[trigger] qs[i]);
                if adjacent(snek@[0], food) && el.stamp == 0 {
                    if exists|i: int| 0 <= i < qs.len() && zero_entry(food, #[trigger] qs[i]) {
                        let i = choose|i: int|
                            0 <= i < qs.len() && zero_entry(food, #[trigger] qs[i]);
                        assert(zero_entry(food, queue_v@[i]));
                    } else {
                        let j0 = choose|j: int|
                            t <= j < nbrs@.len() && #[trigger] nbrs@[j] == food;
                        if j0 == t {
                            assert(n == food);
                            assert(exists|i: int|
                                0 <= i < queue_v@.len() && zero_entry(
                                    food,
                                    #[trigger] queue_v@[i],
                                ));
                        } else {
                            assert(t + 1 <= j0 < nbrs@.len() && nbrs@[j0] == food);
                        }
                    }
                }
            }
            t = t + 1;
        }
        proof {
            if adjacent(snek@[0], food) {
                assert(el.stamp == 0);
                assert(exists|i: int|
                    0 <= i < queue_v@.len() && zero_entry(food, #[trigger] queue_v@[i]));
            }
        }
    }
    proof {
        if adjacent(snek@[0], food) {
            if expansions == 0 {
                assert(queue_v@.len() == 1);
            } else {
                assert(expansions == 1);
                let iz = choose|i: int|
                    0 <= i < queue_v@.len() && zero_entry(food, #[trigger] queue_v@[i]);
                assert(queue_v@.len() > 0);
            }
            assert(false);
        }
    }
    None
}



/// Every cell of a well-formed grid can be reached from the origin when no
/// body is in the way.
proof fn lemma_empty_reaches(g: Grid, c: GridPosition)
    requires
        g.wf(),
        g.spec_in_range(c),
    ensures
        reaches(g, Seq::empty(), GridPosition { x: 0, y: 0 }, c),
    decreases c.x + c.y,
{
    let origin = GridPosition { x: 0, y: 0 };
    if c == origin {
        let p: Seq<GridPosition> = seq![c];
        assert(open_walk(g, Seq::empty(), p) && p[0] == origin && p.last() == c);
    } else if c.y > 0 {
        let prev = GridPosition { x: c.x, y: (c.y - 1) as i32 };
        lemma_empty_reaches(g, prev);
        lemma_reach_step(g, Seq::empty(), origin, prev, c);
    } else {
        let prev = GridPosition { x: (c.x - 1) as i32, y: c.y };
        lemma_empty_reaches(g, prev);
        lemma_reach_step(g, Seq::empty(), origin, prev, c);
    }
}

/// Connectivity, the open half: an empty body blocks nothing. Every cell of
/// a well-formed grid is reachable from the first open cell, so the
/// reachable count equals the full cell count and is never below it.
pub proof fn lemma_empty_body_not_blocking(g: Grid)
    requires
        g.wf(),
    ensures
        exists|c: GridPosition| open_cell(g, Seq::<GridPosition>::empty(), c),
        is_first_open(g, Seq::<GridPosition>::empty(), GridPosition { x: 0, y: 0 }),
        forall|s: GridPosition|
            is_first_open(g, Seq::<GridPosition>::empty(), s) ==> reach_set(
                g,
                Seq::<GridPosition>::empty(),
                s,
            ).len() == g.size_x * g.size_y,
{
    let body = Seq::<GridPosition>::empty();
    let origin = GridPosition { x: 0, y: 0 };
    assert(open_cell(g, body, origin));
    assert forall|d: GridPosition| open_cell(g, body, d) && d != origin implies scan_lt(
        origin,
        d,
    ) by {}
    assert forall|s: GridPosition| is_first_open(g, body, s) implies reach_set(
        g,
        body,
        s,
    ).len() == g.size_x * g.size_y by {
        assert(s == origin) by {
            if s != origin {
                assert(scan_lt(s, origin));
            }
        }
        assert forall|c: GridPosition| rect(g.size_x as int, g.size_y as int).contains(
            c,
        ) implies reach_set(g, body, origin).contains(c) by {
            lemma_empty_reaches(g, c);
        }
        assert forall|c: GridPosition| reach_set(g, body, origin).contains(c) implies rect(
            g.size_x as int,
            g.size_y as int,
        ).contains(c) by {
            let p = choose|p: Seq<GridPosition>|
                open_walk(g, body, p) && p[0] == origin && p.last() == c;
            assert(open_cell(g, body, p[p.len() - 1]));
        }
        assert(reach_set(g, body, origin) =~= rect(g.size_x as int, g.size_y as int));
        lemma_rect_card(g.size_x as int, g.size_y as int);
    }
}

/// A walk that starts below an occupied row ends below it.
proof fn lemma_walk_below_row(g: Grid, body: Seq<GridPosition>, r: int, p: Seq<GridPosition>)
    requires
        g.wf(),
        forall|c: GridPosition| body.contains(c) <==> (0 <= c.x < g.size_x && c.y == r),
        open_walk(g, body, p),
        p[0].y < r,
    ensures
        p.last().y < r,
    decreases p.len(),
{
    if p.len() > 1 {
        let q = p.drop_last();
        assert(open_walk(g, body, q)) by {
            assert(forall|i: int| 0 <= i < q.len() ==> q[i] == #[trigger] p[i]);
        }
        lemma_walk_below_row(g, body, r, q);
        let last = p[p.len() - 1];
        assert(q.last() == p[p.len() - 2]);
        assert(adjacent(p[p.len() - 2], last));
        assert(open_cell(g, body, last));
        if last.y == r {
            assert(body.contains(last));
            assert(false);
        }
    }
}

/// Connectivity, the blocking half: a body that fills one whole row strictly
/// between two non-empty parts of the grid seals the first open cell's side
/// off, so the reachable count falls short of the open-cell count.
pub proof fn lemma_full_row_blocking(g: Grid, body: Seq<GridPosition>, r: int)
    requires
        g.wf(),
        0 < r < g.size_y - 1,
        body.no_duplicates(),
        forall|c: GridPosition| body.contains(c) <==> (0 <= c.x < g.size_x && c.y == r),
    ensures
        exists|c: GridPosition| open_cell(g, body, c),
        is_first_open(g, body, GridPosition { x: 0, y: 0 }),
        forall|s: GridPosition|
            is_first_open(g, body, s) ==> reach_set(g, body, s).len() < g.size_x * g.size_y
                - body.len(),
{
    let w = g.size_x as int;
    let h = g.size_y as int;
    let origin = GridPosition { x: 0, y: 0 };
    assert(open_cell(g, body, origin)) by {
        if body.contains(origin) {
            assert(origin.y == r);
        }
    }
    assert forall|d: GridPosition| open_cell(g, body, d) && d != origin implies scan_lt(
        origin,
        d,
    ) by {}
    assert(body.len() == w) by {
        assert(body.to_set() =~= row_upto(w, r));
        body.unique_seq_to_set();
        lemma_row_upto_card(w, r);
    }
    assert forall|s: GridPosition| is_first_open(g, body, s) implies reach_set(
        g,
        body,
        s,
    ).len() < g.size_x * g.size_y - body.len() by {
        assert(s == origin) by {
            if s != origin {
                assert(scan_lt(s, origin));
            }
        }
        assert forall|c: GridPosition| reach_set(g, body, origin).contains(c) implies rect(
            w,
            r,
        ).contains(c) by {
            let p = choose|p: Seq<GridPosition>|
                open_walk(g, body, p) && p[0] == origin && p.last() == c;
            lemma_walk_below_row(g, body, r, p);
            assert(p[p.len() - 1].y < r);
            assert(open_cell(g, body, p[p.len() - 1]));
        }
        lemma_rect_card(w, r);
        lemma_len_subset(reach_set(g, body, origin), rect(w, r));
        assert(w * r < w * h - w) by (nonlinear_arith)
            requires
                1 <= w,
                0 < r < h - 1,
        ;
    }
}


} // verus!
