//! The two search strategies over a parsed maze — an unguided stack-based
//! search and a heuristic best-first search — together with the
//! predecessor-map bookkeeping they share and the route reconstruction
//! that turns a predecessor map into a forward route.

use vstd::prelude::*;
use rustc_hash::{FxHashMap, FxHashSet};
use crate::coord::{Coord, adjacent};
use crate::maze::{Maze, MazeError};
use crate::tables::{map_insert, map_get, map_len, set_insert, set_contains, set_len};
use crate::frontier::Frontier;

verus! {

/// A forward route through the maze: non-empty, from `start` to `end`
/// inclusive, every cell traversable, every consecutive pair one cardinal
/// step apart.
pub open spec fn valid_route(m: Maze, start: Coord, end: Coord, r: Seq<Coord>) -> bool {
    &&& r.len() >= 1
    &&& r[0] == start
    &&& r[r.len() - 1] == end
    &&& forall|i: int| 0 <= i < r.len() ==> m.is_open(#[trigger] r[i])
    &&& forall|i: int| #![trigger r[i], r[i + 1]] 0 <= i < r.len() - 1 ==> adjacent(r[i], r[i + 1])
}

/// Some route connects `start` to `end`.
pub open spec fn connected(m: Maze, start: Coord, end: Coord) -> bool {
    exists|r: Seq<Coord>| valid_route(m, start, end, r)
}

/// The flat index of an in-bounds position, as a key.
pub open spec fn idx_of(m: Maze, c: Coord) -> usize {
    m.spec_idx(c) as usize
}

/// The cells reachable from `start`: traversable cells some valid route
/// from `start` ends at.
pub open spec fn reachable_cells(m: Maze, start: Coord) -> Set<usize> {
    Set::new(
        |k: usize|
            (k as int) < m.grid().len() && m.is_open(m.coord_at(k as int)) && connected(
                m,
                start,
                m.coord_at(k as int),
            ),
    )
}

/// Finitely many cells are reachable: they are among the traversable ones.
pub proof fn lemma_reachable_cells_finite(m: Maze, start: Coord)
    requires
        m.wf(),
    ensures
        reachable_cells(m, start).finite(),
        reachable_cells(m, start).len() <= m.open_cells().len(),
{
    m.lemma_open_cells_finite();
    assert(reachable_cells(m, start).subset_of(m.open_cells()));
    vstd::set_lib::lemma_set_subset_finite(m.open_cells(), reachable_cells(m, start));
    vstd::set_lib::lemma_len_subset(reachable_cells(m, start), m.open_cells());
}

/// Reachability extends across one traversable cardinal step.
proof fn lemma_connected_step(m: Maze, start: Coord, a: Coord, b: Coord)
    requires
        m.wf(),
        connected(m, start, a),
        adjacent(a, b),
        m.is_open(b),
    ensures
        connected(m, start, b),
{
    let qc = choose|q: Seq<Coord>| valid_route(m, start, a, q);
    let qn = qc.push(b);
    assert(qn[0] == qc[0]);
    assert(qn[qn.len() - 1] == b);
    assert forall|ii: int| 0 <= ii < qn.len() implies m.is_open(#[trigger] qn[ii]) by {
        if ii < qc.len() {
            assert(qn[ii] == qc[ii]);
        } else {
            assert(qn[ii] == b);
        }
    }
    assert forall|ii: int|
        #![trigger qn[ii], qn[ii + 1]]
        0 <= ii < qn.len() - 1 implies adjacent(qn[ii], qn[ii + 1]) by {
        if ii < qc.len() - 1 {
            assert(qn[ii] == qc[ii] && qn[ii + 1] == qc[ii + 1]);
            assert(adjacent(qc[ii], qc[ii + 1]));
        } else {
            assert(qn[ii] == qc[qc.len() - 1]);
            assert(qc[qc.len() - 1] == a);
            assert(qn[ii + 1] == b);
        }
    }
    assert(valid_route(m, start, b, qn));
}

/// A well-founded predecessor map: every predecessor is itself an entry of
/// strictly smaller rank, so the backward walk from any entry reaches an
/// entry with no predecessor in finitely many steps.
pub open spec fn pred_wf(pm: Map<usize, Option<usize>>, rank: Map<usize, nat>) -> bool {
    forall|k: usize|
        pm.contains_key(k) ==> ((#[trigger] pm[k]) matches Some(j) ==> pm.contains_key(j)
            && rank.contains_key(j) && rank.contains_key(k) && rank[j] < rank[k])
}

/// A set of `usize` keys all below `bound` has at most `bound` elements.
pub proof fn lemma_usize_set_card(d: Set<usize>, bound: nat)
    requires
        d.finite(),
        forall|k: usize| d.contains(k) ==> (k as nat) < bound,
    ensures
        d.len() <= bound,
    decreases bound,
{
    if bound == 0 {
        if d.len() > 0 {
            let x = d.choose();
            assert(d.contains(x));
        }
        assert(d =~= Set::empty());
    } else {
        let top = (bound - 1) as usize;
        let d2 = d.remove(top);
        assert forall|k: usize| d2.contains(k) implies (k as nat) < (bound - 1) as nat by {
            assert(d.contains(k));
        }
        lemma_usize_set_card(d2, (bound - 1) as nat);
    }
}

/// Walks the predecessor relation backward from `end` and returns the
/// forward route of flat cell indices, from the root entry (the one with
/// no predecessor) to `end` inclusive. An `end` that never acquired an
/// entry is exactly the "no route" condition, reported as an error and
/// never as a truncated route. Shared by both search strategies.
pub fn reconstruct_route(end: usize, from: &FxHashMap<usize, Option<usize>>) -> (r: Result<
    Vec<usize>,
    MazeError,
>)
    requires
        exists|rank: Map<usize, nat>| pred_wf(from@, rank),
    ensures
        r is Ok <==> from@.contains_key(end),
        r matches Err(e) ==> e == MazeError::Unreachable,
        r matches Ok(route) ==> {
            &&& route@.len() >= 1
            &&& route@[route@.len() - 1] == end
            &&& from@.contains_key(route@[0]) && from@[route@[0]] is None
            &&& forall|i: int| 0 <= i < route@.len() ==> from@.contains_key(#[trigger] route@[i])
            &&& forall|i: int|
                #![trigger route@[i], route@[i + 1]]
                0 <= i < route@.len() - 1 ==> from@[route@[i + 1]] == Some(route@[i])
            &&& forall|i: int, j: int| 0 <= i < j < route@.len() ==> route@[i] != route@[j]
        },
{
    let ghost rank = choose|rk: Map<usize, nat>| pred_wf(from@, rk);
    match map_get(from, end) {
        None => {
            return Err(MazeError::Unreachable);
        },
        Some(_) => {},
    }
    let mut back: Vec<usize> = Vec::new();
    let mut cur: Option<usize> = Some(end);
    while cur.is_some()
        invariant
            pred_wf(from@, rank),
            cur matches Some(nd) ==> from@.contains_key(nd),
            back@.len() == 0 ==> cur == Some(end),
            back@.len() > 0 ==> back@[0] == end && cur == from@[back@[back@.len() - 1]],
            forall|i: int| 0 <= i < back@.len() ==> from@.contains_key(#[trigger] back@[i]),
            forall|i: int|
                0 <= i < back@.len() - 1 ==> from@[#[trigger] back@[i]] == Some(back@[i + 1]),
            forall|i: int, j: int| 0 <= i < j < back@.len() ==> rank[back@[i]] > rank[back@[j]],
            cur matches Some(nd) ==> (back@.len() > 0 ==> rank[nd] < rank[back@[back@.len() - 1]]),
        decreases (match cur {
            Some(nd) => rank[nd] + 1,
            None => 0,
        }),
    {
        let node = cur.unwrap();
        back.push(node);
        cur = map_get(from, node).unwrap();
        proof {
            assert(from@.contains_key(node));
            if cur is Some {
                assert(from@[node] == cur);
                assert(rank[cur.unwrap()] < rank[node]);
            }
        }
    }
    let n = back.len();
    let mut route: Vec<usize> = Vec::new();
    let mut i: usize = 0;
    while i < n
        invariant
            n == back@.len(),
            i <= n,
            route@.len() == i,
            forall|j: int| 0 <= j < i ==> #[trigger] route@[j] == back@[n - 1 - j],
        decreases n - i,
    {
        route.push(back[n - 1 - i]);
        i = i + 1;
    }
    proof {
        assert(back@.len() > 0);
        assert(route@[route@.len() - 1] == back@[0]);
        assert(route@[0] == back@[n - 1]);
        assert(from@[back@[n - 1]] is None);
        assert forall|j: int| 0 <= j < route@.len() - 1 implies from@[#[trigger] route@[j + 1]]
            == Some(route@[j]) by {
            assert(route@[j + 1] == back@[n - 2 - j]);
            assert(route@[j] == back@[n - 1 - j]);
            assert(from@[back@[n - 2 - j]] == Some(back@[n - 1 - j]));
        }
        assert forall|i: int, j: int| 0 <= i < j < route@.len() implies route@[i] != route@[j] by {
            assert(route@[i] == back@[n - 1 - i]);
            assert(route@[j] == back@[n - 1 - j]);
            assert(rank[back@[n - 1 - j]] > rank[back@[n - 1 - i]]);
        }
    }
    Ok(route)
}

/// The facts both searches maintain of their predecessor map: every entry
/// is a traversable cell; the start is an entry, has no predecessor, and is
/// the only entry without one; every other entry's predecessor is an entry
/// one cardinal step away.
pub open spec fn pred_inv(m: Maze, start_i: usize, pm: Map<usize, Option<usize>>) -> bool {
    &&& pm.dom().finite()
    &&& pm.contains_key(start_i) && pm[start_i] is None
    &&& forall|k: usize|
        #[trigger] pm.contains_key(k) ==> (k as int) < m.grid().len() && m.is_open(
            m.coord_at(k as int),
        )
    &&& forall|k: usize| #[trigger] pm.contains_key(k) && pm[k] is None ==> k == start_i
    &&& forall|k: usize|
        pm.contains_key(k) ==> ((#[trigger] pm[k]) matches Some(j) ==> pm.contains_key(j)
            && adjacent(m.coord_at(j as int), m.coord_at(k as int)))
}

/// An element of a sequence survives dropping the last entry, unless it is
/// that entry.
proof fn lemma_drop_last_keeps(prev: Seq<usize>, t: usize)
    requires
        prev.len() > 0,
        prev.contains(t),
    ensures
        prev.drop_last().contains(t) || t == prev.last(),
{
    let i = choose|i: int| 0 <= i < prev.len() && prev[i] == t;
    if i < prev.len() - 1 {
        assert(prev.drop_last()[i] == t);
    }
}

/// An element of a sequence survives pushing another.
proof fn lemma_push_keeps(prev: Seq<usize>, x: usize, t: usize)
    requires
        prev.contains(t),
    ensures
        prev.push(x).contains(t),
{
    let i = choose|i: int| 0 <= i < prev.len() && prev[i] == t;
    assert(prev.push(x)[i] == t);
}

/// A set of cells that contains the start of a route and is closed under
/// taking traversable cardinal steps contains the route's end.
proof fn lemma_closed_reaches(m: Maze, visited: Set<usize>, start: Coord, end: Coord, r: Seq<Coord>)
    requires
        m.wf(),
        valid_route(m, start, end, r),
        visited.contains(idx_of(m, start)),
        forall|k: usize, c: Coord|
            #![trigger visited.contains(k), adjacent(m.coord_at(k as int), c)]
            visited.contains(k) && m.is_open(c) && adjacent(m.coord_at(k as int), c)
                ==> visited.contains(idx_of(m, c)),
    ensures
        visited.contains(idx_of(m, end)),
    decreases r.len(),
{
    assert(m.is_open(r[0]));
    if r.len() == 1 {
        assert(end == start);
    } else {
        let next = r[1];
        m.lemma_idx_in_range(start);
        m.lemma_idx_coord_at(start);
        assert(m.data.len() == m.grid().len());
        assert(idx_of(m, start) as int == m.spec_idx(start));
        let i0: int = 0;
        assert(adjacent(r[i0], r[i0 + 1]));
        assert(adjacent(m.coord_at(idx_of(m, start) as int), next));
        assert(m.is_open(next));
        assert(visited.contains(idx_of(m, next)));
        let r2 = r.subrange(1, r.len() as int);
        assert(r2[0] == next);
        assert(r2[r2.len() - 1] == end);
        assert forall|i: int| 0 <= i < r2.len() implies m.is_open(#[trigger] r2[i]) by {
            assert(r2[i] == r[i + 1]);
        }
        assert forall|i: int| 0 <= i < r2.len() - 1 implies adjacent(#[trigger] r2[i], r2[i + 1]) by {
            assert(r2[i] == r[i + 1] && r2[i + 1] == r[i + 2]);
        }
        lemma_closed_reaches(m, visited, next, end, r2);
    }
}

/// Converts a reconstructed chain of flat indices into coordinates; the
/// predecessor-map facts make the result a valid route.
#[verifier::rlimit(100)]
fn route_coords(
    maze: &Maze,
    start: Coord,
    end: Coord,
    route: &Vec<usize>,
    Ghost(pm): Ghost<Map<usize, Option<usize>>>,
) -> (r: Vec<Coord>)
    requires
        maze.wf(),
        maze.is_open(start),
        maze.is_open(end),
        pred_inv(*maze, idx_of(*maze, start), pm),
        route@.len() >= 1,
        route@[route@.len() - 1] == idx_of(*maze, end),
        pm.contains_key(route@[0]) && pm[route@[0]] is None,
        forall|i: int| 0 <= i < route@.len() ==> pm.contains_key(#[trigger] route@[i]),
        forall|i: int|
            #![trigger route@[i], route@[i + 1]]
            0 <= i < route@.len() - 1 ==> pm[route@[i + 1]] == Some(route@[i]),
        forall|i: int, j: int| 0 <= i < j < route@.len() ==> route@[i] != route@[j],
    ensures
        valid_route(*maze, start, end, r@),
        r@.len() == route@.len(),
        forall|i: int, j: int| 0 <= i < j < r@.len() ==> r@[i] != r@[j],
        start == end ==> r@ =~= seq![start],
{
    proof {
        maze.lemma_idx_in_range(start);
        maze.lemma_idx_coord_at(start);
        maze.lemma_idx_in_range(end);
        maze.lemma_idx_coord_at(end);
        assert(maze.data.len() == maze.grid().len());
        assert(idx_of(*maze, start) as int == maze.spec_idx(start));
        assert(idx_of(*maze, end) as int == maze.spec_idx(end));
    }
    let n = route.len();
    let mut coords: Vec<Coord> = Vec::new();
    let mut i: usize = 0;
    while i < n
        invariant
            maze.wf(),
            n == route@.len(),
            i <= n,
            coords@.len() == i,
            forall|j: int| 0 <= j < route@.len() ==> pm.contains_key(#[trigger] route@[j]),
            forall|k: usize|
                #[trigger] pm.contains_key(k) ==> (k as int) < maze.grid().len() && maze.is_open(
                    maze.coord_at(k as int),
                ),
            forall|j: int| 0 <= j < i ==> #[trigger] coords@[j] == maze.coord_at(route@[j] as int),
        decreases n - i,
    {
        let k = route[i];
        let c = maze.coord_of(k);
        coords.push(c);
        i = i + 1;
    }
    proof {
        lemma_coords_valid(*maze, start, end, route@, pm, coords@);
        assert forall|i: int, j: int| 0 <= i < j < coords@.len() implies coords@[i] != coords@[j] by {
            assert(pm.contains_key(route@[i]));
            assert(pm.contains_key(route@[j]));
            maze.lemma_coord_at_idx(route@[i] as int);
            maze.lemma_coord_at_idx(route@[j] as int);
            assert(coords@[i] == maze.coord_at(route@[i] as int));
            assert(coords@[j] == maze.coord_at(route@[j] as int));
            if coords@[i] == coords@[j] {
                assert(maze.spec_idx(coords@[i]) == route@[i] as int);
                assert(maze.spec_idx(coords@[j]) == route@[j] as int);
                assert(route@[i] != route@[j]);
                assert(false);
            }
        }
    }
    coords
}

/// Consecutive cells of a decoded predecessor chain are one cardinal step
/// apart, because each predecessor edge is.
#[verifier::rlimit(100)]
proof fn lemma_chain_adjacent(
    m: Maze,
    route: Seq<usize>,
    pm: Map<usize, Option<usize>>,
    coords: Seq<Coord>,
)
    requires
        coords.len() == route.len(),
        forall|k: usize|
            pm.contains_key(k) ==> ((#[trigger] pm[k]) matches Some(j) ==> adjacent(
                m.coord_at(j as int),
                m.coord_at(k as int),
            )),
        forall|i: int| 0 <= i < route.len() ==> pm.contains_key(#[trigger] route[i]),
        forall|i: int|
            #![trigger route[i], route[i + 1]]
            0 <= i < route.len() - 1 ==> pm[route[i + 1]] == Some(route[i]),
        forall|j: int| 0 <= j < coords.len() ==> #[trigger] coords[j] == m.coord_at(route[j] as int),
    ensures
        forall|j: int|
            #![trigger coords[j], coords[j + 1]]
            0 <= j < coords.len() - 1 ==> adjacent(coords[j], coords[j + 1]),
{
    assert forall|j: int|
        #![trigger coords[j], coords[j + 1]]
        0 <= j < coords.len() - 1 implies adjacent(coords[j], coords[j + 1]) by {
        assert(pm[route[j + 1]] == Some(route[j]));
        assert(pm.contains_key(route[j + 1]));
        assert(coords[j] == m.coord_at(route[j] as int));
        assert(coords[j + 1] == m.coord_at(route[j + 1] as int));
    }
}

/// A reconstructed predecessor chain, decoded cell by cell, is a valid
/// route; when start and end coincide it is the one-cell route.
#[verifier::rlimit(100)]
proof fn lemma_coords_valid(
    m: Maze,
    start: Coord,
    end: Coord,
    route: Seq<usize>,
    pm: Map<usize, Option<usize>>,
    coords: Seq<Coord>,
)
    requires
        m.wf(),
        m.is_open(start),
        m.is_open(end),
        pred_inv(m, idx_of(m, start), pm),
        route.len() >= 1,
        coords.len() == route.len(),
        route[route.len() - 1] == idx_of(m, end),
        pm.contains_key(route[0]) && pm[route[0]] is None,
        forall|i: int| 0 <= i < route.len() ==> pm.contains_key(#[trigger] route[i]),
        forall|i: int|
            #![trigger route[i], route[i + 1]]
            0 <= i < route.len() - 1 ==> pm[route[i + 1]] == Some(route[i]),
        forall|j: int| 0 <= j < coords.len() ==> #[trigger] coords[j] == m.coord_at(route[j] as int),
    ensures
        valid_route(m, start, end, coords),
        start == end ==> coords =~= seq![start],
{
    m.lemma_idx_in_range(start);
    m.lemma_idx_coord_at(start);
    m.lemma_idx_in_range(end);
    m.lemma_idx_coord_at(end);
    assert(m.data.len() == m.grid().len());
    assert(idx_of(m, start) as int == m.spec_idx(start));
    assert(idx_of(m, end) as int == m.spec_idx(end));
    assert(route[0] == idx_of(m, start));
    assert(coords[0] == start);
    assert(coords[coords.len() - 1] == end);
    assert forall|j: int| 0 <= j < coords.len() implies m.is_open(#[trigger] coords[j]) by {
        assert(coords[j] == m.coord_at(route[j] as int));
        assert(pm.contains_key(route[j]));
    }
    lemma_chain_adjacent(m, route, pm, coords);
    if start == end && route.len() >= 2 {
        let k = route.len() - 2;
        assert(pm[route[k + 1]] == Some(route[k]));
        assert(route[k + 1] == idx_of(m, end));
        assert(pm[idx_of(m, end)] is None);
        assert(false);
    }
    if start == end {
        assert(coords =~= seq![start]);
    }
}

/// The unguided depth-first search: explores via an explicit stack until
/// the target is found or every reachable cell has been visited, recording
/// first-discovery predecessors, then reconstructs the route. Succeeds
/// exactly when some route connects `start` to `end` — the route returned
/// is valid but not necessarily shortest — and otherwise reports
/// `Unreachable`. The second result is the number of cells visited. The
/// fixed West-North-South-East neighbour order and first-discovery-wins
/// predecessors make the result reproducible from call to call; that
/// determinism is a property of the implementation, while the contract
/// pins the route only up to validity.
#[verifier::rlimit(100)]
pub fn dfs(maze: &Maze, start: Coord, end: Coord) -> (r: Result<(Vec<Coord>, usize), MazeError>)
    requires
        maze.wf(),
        maze.is_open(start),
        maze.is_open(end),
    ensures
        r is Ok <==> connected(*maze, start, end),
        r matches Err(e) ==> e == MazeError::Unreachable,
        r matches Ok(p) ==> valid_route(*maze, start, end, p.0@) && 1 <= p.1 <= reachable_cells(
            *maze,
            start,
        ).len() && p.1 <= maze.open_cells().len(),
        r matches Ok(p) ==> (forall|i: int, j: int|
            0 <= i < j < p.0@.len() ==> p.0@[i] != p.0@[j]),
        start == end ==> (r matches Ok(p) && p.0@ =~= seq![start] && p.1 == 1),
{
    let start_i = maze.idx(start);
    let end_i = maze.idx(end);
    proof {
        maze.lemma_idx_coord_at(start);
        maze.lemma_idx_coord_at(end);
    }
    let mut from: FxHashMap<usize, Option<usize>> = FxHashMap::default();
    let mut visited: FxHashSet<usize> = FxHashSet::default();
    let mut stack: Vec<usize> = Vec::new();
    stack.push(start_i);
    map_insert(&mut from, start_i, None);
    proof {
        assert(stack@[0] == start_i);
        assert(stack@.contains(start_i));
        assert(seq![start][0] == start);
        assert(valid_route(*maze, start, start, seq![start]));
        assert(connected(*maze, start, start));
    }
    let ghost mut rank: Map<usize, nat> = Map::empty().insert(start_i, 0nat);
    let ghost mut tick: nat = 1;
    let mut found = false;
    while !found && stack.len() > 0
        invariant
            maze.wf(),
            maze.is_open(start),
            maze.is_open(end),
            start_i == idx_of(*maze, start),
            end_i == idx_of(*maze, end),
            maze.coord_at(start_i as int) == start,
            maze.coord_at(end_i as int) == end,
            start_i == end_i && !found ==> from@.dom() =~= Set::<usize>::empty().insert(start_i)
                && visited@ =~= Set::<usize>::empty(),
            start_i == end_i && found ==> visited@ =~= Set::<usize>::empty().insert(end_i),
            pred_inv(*maze, start_i, from@),
            pred_wf(from@, rank),
            forall|k: usize|
                #[trigger] from@.contains_key(k) ==> rank.contains_key(k) && rank[k] < tick,
            forall|k: usize|
                #[trigger] from@.contains_key(k) ==> connected(
                    *maze,
                    start,
                    maze.coord_at(k as int),
                ),
            visited@.finite(),
            forall|k: usize| #[trigger] visited@.contains(k) ==> from@.contains_key(k),
            forall|i: int| 0 <= i < stack@.len() ==> from@.contains_key(#[trigger] stack@[i]),
            forall|k: usize|
                #[trigger] from@.contains_key(k) ==> visited@.contains(k) || stack@.contains(k),
            !found ==> !visited@.contains(end_i),
            found ==> visited@.contains(end_i),
            visited@.len() <= maze.grid().len(),
            !found ==> (forall|k: usize, c: Coord|
                #![trigger visited@.contains(k), adjacent(maze.coord_at(k as int), c)]
                visited@.contains(k) && maze.is_open(c) && adjacent(maze.coord_at(k as int), c)
                    ==> visited@.contains(idx_of(*maze, c)) || stack@.contains(idx_of(*maze, c))),
        decreases (if found {
            0int
        } else {
            1int
        }), maze.grid().len() - visited@.len(), stack@.len(),
    {
        let ghost prev_stack = stack@;
        let ghost prev_visited = visited@;
        let current = stack.pop().unwrap();
        // A popped cell that is already visited has had all its neighbours
        // visited or stacked when it was first expanded, so expanding it
        // again could change nothing; the check makes that a loop-measure
        // fact rather than an emergent one.
        let already = set_contains(&visited, current);
        set_insert(&mut visited, current);
        proof {
            if prev_visited.contains(current) {
                assert(visited@ =~= prev_visited);
            }
            lemma_usize_set_card(visited@, maze.grid().len() as nat);
            assert forall|k: usize| #[trigger] from@.contains_key(k) implies visited@.contains(k)
                || stack@.contains(k) by {
                if prev_stack.contains(k) {
                    lemma_drop_last_keeps(prev_stack, k);
                }
            }
        }
        if current == end_i {
            found = true;
            proof {
                if start_i == end_i {
                    assert(visited@ =~= Set::<usize>::empty().insert(end_i));
                }
            }
        } else if already {
            proof {
                if start_i == end_i {
                    assert(from@.dom().contains(current));
                    assert(false);
                }
            }
            proof {
                assert forall|k: usize, c: Coord|
                    #![trigger visited@.contains(k), adjacent(maze.coord_at(k as int), c)]
                    visited@.contains(k) && maze.is_open(c) && adjacent(
                        maze.coord_at(k as int),
                        c,
                    ) implies visited@.contains(idx_of(*maze, c)) || stack@.contains(
                    idx_of(*maze, c),
                ) by {
                    let t = idx_of(*maze, c);
                    if prev_stack.contains(t) {
                        lemma_drop_last_keeps(prev_stack, t);
                    }
                }
            }
        } else {
            proof {
                assert forall|k: usize, c: Coord|
                    #![trigger visited@.contains(k), adjacent(maze.coord_at(k as int), c)]
                    visited@.contains(k) && k != current && maze.is_open(c) && adjacent(
                        maze.coord_at(k as int),
                        c,
                    ) implies visited@.contains(idx_of(*maze, c)) || stack@.contains(
                    idx_of(*maze, c),
                ) by {
                    let t = idx_of(*maze, c);
                    assert(prev_visited.contains(k));
                    if prev_stack.contains(t) {
                        lemma_drop_last_keeps(prev_stack, t);
                    }
                }
            }
            let cur_coord = maze.coord_of(current);
            let nbrs = maze.neighbours(cur_coord);
            proof {
                maze.lemma_neighbours_sound(cur_coord);
            }
            let mut ni: usize = 0;
            while ni < nbrs.len()
                invariant
                    maze.wf(),
                    maze.is_open(start),
                    maze.is_open(end),
                    start_i == idx_of(*maze, start),
                    end_i == idx_of(*maze, end),
                    maze.coord_at(start_i as int) == start,
                    maze.coord_at(end_i as int) == end,
                    pred_inv(*maze, start_i, from@),
                    pred_wf(from@, rank),
                    forall|k: usize|
                        #[trigger] from@.contains_key(k) ==> rank.contains_key(k) && rank[k]
                            < tick,
                    forall|k: usize|
                        #[trigger] from@.contains_key(k) ==> connected(
                            *maze,
                            start,
                            maze.coord_at(k as int),
                        ),
                    visited@.finite(),
                    forall|k: usize| #[trigger] visited@.contains(k) ==> from@.contains_key(k),
                    forall|i: int|
                        0 <= i < stack@.len() ==> from@.contains_key(#[trigger] stack@[i]),
                    forall|k: usize|
                        #[trigger] from@.contains_key(k) ==> visited@.contains(k)
                            || stack@.contains(k),
                    current != end_i,
                    !visited@.contains(end_i),
                    visited@.contains(current),
                    from@.contains_key(current),
                    visited@.len() <= maze.grid().len(),
                    cur_coord == maze.coord_at(current as int),
                    nbrs@ == maze.neighbour_seq(cur_coord),
                    ni <= nbrs@.len(),
                    forall|j: int|
                        0 <= j < ni ==> visited@.contains(
                            idx_of(*maze, #[trigger] nbrs@[j]),
                        ) || stack@.contains(idx_of(*maze, nbrs@[j])),
                    forall|k: usize, c: Coord|
                        #![trigger visited@.contains(k), adjacent(maze.coord_at(k as int), c)]
                        visited@.contains(k) && k != current && maze.is_open(c) && adjacent(
                            maze.coord_at(k as int),
                            c,
                        ) ==> visited@.contains(idx_of(*maze, c)) || stack@.contains(
                            idx_of(*maze, c),
                        ),
                decreases nbrs@.len() - ni,
            {
                let nb = nbrs[ni];
                proof {
                    assert(adjacent(cur_coord, nb) && maze.is_open(nb));
                    maze.lemma_idx_in_range(nb);
                    maze.lemma_idx_coord_at(nb);
                }
                let nb_i = maze.idx(nb);
                let ghost mid_stack = stack@;
                if !set_contains(&visited, nb_i) {
                    stack.push(nb_i);
                    proof {
                        assert forall|i: int|
                            0 <= i < stack@.len() implies from@.contains_key(
                            #[trigger] stack@[i],
                        ) || stack@[i] == nb_i by {
                            if i < mid_stack.len() {
                                assert(stack@[i] == mid_stack[i]);
                            }
                        }
                    }
                    match map_get(&from, nb_i) {
                        None => {
                            map_insert(&mut from, nb_i, Some(current));
                            proof {
                                rank = rank.insert(nb_i, tick);
                                tick = tick + 1;
                                lemma_connected_step(*maze, start, cur_coord, nb);
                                assert forall|k: usize| #[trigger] from@.contains_key(k) implies
                                    connected(*maze, start, maze.coord_at(k as int)) by {
                                    if k == nb_i {
                                        assert(maze.coord_at(nb_i as int) == nb);
                                    }
                                }
                            }
                        },
                        Some(_) => {},
                    }
                    proof {
                        assert forall|k: usize, c: Coord|
                            #![trigger visited@.contains(k), adjacent(maze.coord_at(k as int), c)]
                            visited@.contains(k) && k != current && maze.is_open(c) && adjacent(
                                maze.coord_at(k as int),
                                c,
                            ) implies visited@.contains(idx_of(*maze, c)) || stack@.contains(
                            idx_of(*maze, c),
                        ) by {
                            let t = idx_of(*maze, c);
                            if mid_stack.contains(t) {
                                lemma_push_keeps(mid_stack, nb_i, t);
                            }
                        }
                        assert forall|k: usize| #[trigger] from@.contains_key(k) implies visited@
                            .contains(k) || stack@.contains(k) by {
                            if k == nb_i {
                                assert(stack@[stack@.len() - 1] == nb_i);
                            } else if mid_stack.contains(k) {
                                lemma_push_keeps(mid_stack, nb_i, k);
                            }
                        }
                        assert forall|j: int|
                            0 <= j < ni + 1 implies visited@.contains(
                            idx_of(*maze, #[trigger] nbrs@[j]),
                        ) || stack@.contains(idx_of(*maze, nbrs@[j])) by {
                            if j < ni {
                                let t = idx_of(*maze, nbrs@[j]);
                                if mid_stack.contains(t) {
                                    lemma_push_keeps(mid_stack, nb_i, t);
                                }
                            } else {
                                assert(stack@[stack@.len() - 1] == nb_i);
                            }
                        }
                    }
                }
                ni = ni + 1;
            }
            proof {
                assert forall|k: usize, c: Coord|
                    #![trigger visited@.contains(k), adjacent(maze.coord_at(k as int), c)]
                    visited@.contains(k) && maze.is_open(c) && adjacent(
                        maze.coord_at(k as int),
                        c,
                    ) implies visited@.contains(idx_of(*maze, c)) || stack@.contains(
                    idx_of(*maze, c),
                ) by {
                    if k == current {
                        maze.lemma_neighbours_complete(cur_coord, c);
                        let j = choose|j: int|
                            0 <= j < nbrs@.len() && maze.neighbour_seq(cur_coord)[j] == c;
                        assert(visited@.contains(idx_of(*maze, nbrs@[j])) || stack@.contains(
                            idx_of(*maze, nbrs@[j]),
                        ));
                    }
                }
            }
        }
    }
    let explored = set_len(&visited);
    proof {
        assert(visited@.contains(if found {
            end_i
        } else {
            start_i
        }));
        if visited@.len() == 0 {
            visited@.lemma_len0_is_empty();
        }
        maze.lemma_open_cells_finite();
        assert(visited@.subset_of(maze.open_cells()));
        vstd::set_lib::lemma_len_subset(visited@, maze.open_cells());
        lemma_reachable_cells_finite(*maze, start);
        assert(visited@.subset_of(reachable_cells(*maze, start)));
        vstd::set_lib::lemma_len_subset(visited@, reachable_cells(*maze, start));
        if start_i == end_i && found {
            assert(visited@.len() == 1);
        }
    }
    if !found {
        proof {
            assert(stack@.len() == 0);
            assert(!from@.contains_key(end_i));
            if connected(*maze, start, end) {
                let rt = choose|rt: Seq<Coord>| valid_route(*maze, start, end, rt);
                assert(visited@.contains(start_i));
                lemma_closed_reaches(*maze, visited@, start, end, rt);
                assert(false);
            }
        }
        return Err(MazeError::Unreachable);
    }
    let route_idx = match reconstruct_route(end_i, &from) {
        Ok(v) => v,
        Err(_) => {
            proof {
                assert(false);
            }
            return Err(MazeError::Unreachable);
        },
    };
    let coords = route_coords(maze, start, end, &route_idx, Ghost(from@));
    Ok((coords, explored))
}

/// From a route cell whose cost entry is no worse than its position,
/// either the frontier holds some later route cell whose cost entry is no
/// worse than its position, or every cell from here to the route's last
/// is already expanded. Walks over expanded cells using the fact that an
/// expanded cell's traversable neighbours all have cost entries at most
/// one higher.
proof fn lemma_walk_to_frontier(
    m: Maze,
    closed: Set<usize>,
    qdom: Set<usize>,
    g: Map<usize, usize>,
    r: Seq<Coord>,
    j: int,
)
    requires
        m.wf(),
        r.len() >= 1,
        forall|i: int| 0 <= i < r.len() ==> m.is_open(#[trigger] r[i]),
        forall|i: int|
            #![trigger r[i], r[i + 1]]
            0 <= i < r.len() - 1 ==> adjacent(r[i], r[i + 1]),
        forall|k: usize| #[trigger] g.contains_key(k) ==> closed.contains(k) || qdom.contains(k),
        forall|z: usize, c: Coord|
            #![trigger closed.contains(z), adjacent(m.coord_at(z as int), c)]
            closed.contains(z) && m.is_open(c) && adjacent(m.coord_at(z as int), c)
                ==> g.contains_key(idx_of(m, c)) && g.contains_key(z) && g[idx_of(m, c)] <= g[z]
                + 1,
        !closed.contains(idx_of(m, r[r.len() - 1])),
        0 <= j < r.len(),
        g.contains_key(idx_of(m, r[j])),
        g[idx_of(m, r[j])] <= j,
    ensures
        exists|i: int|
            0 <= i < r.len() && qdom.contains(#[trigger] idx_of(m, r[i])) && g.contains_key(
                idx_of(m, r[i]),
            ) && g[idx_of(m, r[i])] <= i,
    decreases r.len() - j,
{
    let kj = idx_of(m, r[j]);
    if qdom.contains(kj) {
        assert(qdom.contains(idx_of(m, r[j])) && g.contains_key(idx_of(m, r[j])) && g[idx_of(
            m,
            r[j],
        )] <= j);
    } else {
        assert(closed.contains(kj));
        assert(j < r.len() - 1) by {
            if j == r.len() - 1 {
                assert(false);
            }
        }
        m.lemma_idx_in_range(r[j]);
        m.lemma_idx_coord_at(r[j]);
        assert(m.data.len() == m.grid().len());
        assert(kj as int == m.spec_idx(r[j]));
        assert(adjacent(r[j], r[j + 1]));
        assert(adjacent(m.coord_at(kj as int), r[j + 1]));
        assert(m.is_open(r[j + 1]));
        assert(g.contains_key(idx_of(m, r[j + 1])) && g[idx_of(m, r[j + 1])] <= g[kj] + 1);
        lemma_walk_to_frontier(m, closed, qdom, g, r, j + 1);
    }
}

/// Along a reconstructed chain the cost entries grow by at least one per
/// step, so a chain that starts at cost zero is no longer than the final
/// cost plus one.
proof fn lemma_chain_cost(
    pm: Map<usize, Option<usize>>,
    g: Map<usize, usize>,
    route: Seq<usize>,
    i: int,
)
    requires
        route.len() >= 1,
        g.contains_key(route[0]) && g[route[0]] == 0,
        forall|i2: int| 0 <= i2 < route.len() ==> pm.contains_key(#[trigger] route[i2]),
        forall|i2: int|
            #![trigger route[i2], route[i2 + 1]]
            0 <= i2 < route.len() - 1 ==> pm[route[i2 + 1]] == Some(route[i2]),
        forall|k: usize|
            pm.contains_key(k) ==> ((#[trigger] pm[k]) matches Some(j) ==> g.contains_key(j)
                && g.contains_key(k) && g[j] < g[k]),
        0 <= i < route.len(),
    ensures
        g.contains_key(route[i]),
        g[route[i]] >= i,
    decreases i,
{
    if i > 0 {
        lemma_chain_cost(pm, g, route, i - 1);
        let i2 = i - 1;
        assert(pm[route[i2 + 1]] == Some(route[i2]));
        assert(pm.contains_key(route[i]));
    }
}

/// The Manhattan distance between two positions.
pub open spec fn h_est(a: Coord, b: Coord) -> int {
    (if a.x >= b.x {
        a.x - b.x
    } else {
        b.x - a.x
    }) + (if a.y >= b.y {
        a.y - b.y
    } else {
        b.y - a.y
    })
}

/// The Manhattan estimate is consistent: one cardinal step changes it by
/// at most one.
proof fn lemma_h_step(a: Coord, b: Coord, e: Coord)
    requires
        adjacent(a, b),
    ensures
        h_est(a, e) <= h_est(b, e) + 1,
{
}

/// Telescoped consistency: along a route, the estimate at an earlier cell
/// exceeds the estimate at a later one by at most the steps between them.
proof fn lemma_h_telescope(e: Coord, r: Seq<Coord>, a: int, b: int)
    requires
        0 <= a <= b < r.len(),
        forall|i: int|
            #![trigger r[i], r[i + 1]]
            0 <= i < r.len() - 1 ==> adjacent(r[i], r[i + 1]),
    ensures
        h_est(r[a], e) <= (b - a) + h_est(r[b], e),
    decreases b - a,
{
    if a < b {
        assert(adjacent(r[a], r[a + 1]));
        lemma_h_step(r[a], r[a + 1], e);
        lemma_h_telescope(e, r, a + 1, b);
    }
}

/// When the frontier pops a not-yet-expanded cell, that cell's cost entry
/// is optimal: no route from the start reaches it in fewer steps. This is
/// the heart of the best-first search's optimality: walking any rival
/// route from the start, the first cell not yet expanded sits on the
/// frontier with a cost entry no worse than its position on that route,
/// and a minimal popped estimate together with the consistent Manhattan
/// heuristic turns that into a bound on the popped cell's cost.
proof fn lemma_pop_optimal(
    m: Maze,
    start: Coord,
    end: Coord,
    closed: Set<usize>,
    oldq: Map<usize, u128>,
    g: Map<usize, usize>,
    current: usize,
    prio: u128,
)
    requires
        m.wf(),
        m.is_open(start),
        g.contains_key(idx_of(m, start)) && g[idx_of(m, start)] == 0,
        forall|k: usize|
            #[trigger] g.contains_key(k) ==> (k as int) < m.grid().len() && m.is_open(
                m.coord_at(k as int),
            ),
        forall|k: usize| #[trigger] g.contains_key(k) ==> closed.contains(k) || oldq.contains_key(k),
        forall|z: usize, c: Coord|
            #![trigger closed.contains(z), adjacent(m.coord_at(z as int), c)]
            closed.contains(z) && m.is_open(c) && adjacent(m.coord_at(z as int), c)
                ==> g.contains_key(idx_of(m, c)) && g.contains_key(z) && g[idx_of(m, c)] <= g[z]
                + 1,
        forall|y: usize|
            #[trigger] oldq.contains_key(y) ==> g.contains_key(y) && oldq[y] as int == g[y] + h_est(
                m.coord_at(y as int),
                end,
            ),
        oldq.contains_key(current),
        oldq[current] == prio,
        forall|j: usize| #[trigger] oldq.contains_key(j) ==> prio <= oldq[j],
        !closed.contains(current),
    ensures
        g.contains_key(current),
        forall|q: Seq<Coord>|
            valid_route(m, start, m.coord_at(current as int), q) ==> g[current] <= q.len() - 1,
{
    let cc = m.coord_at(current as int);
    assert(g.contains_key(current));
    m.lemma_coord_at_idx(current as int);
    assert forall|q: Seq<Coord>| valid_route(m, start, cc, q) implies g[current] <= q.len()
        - 1 by {
        m.lemma_idx_in_range(start);
        m.lemma_idx_coord_at(start);
        assert(m.data.len() == m.grid().len());
        let si = idx_of(m, start);
        assert(q[0] == start);
        assert(idx_of(m, q[0]) == si);
        assert(idx_of(m, q[q.len() - 1]) == current);
        assert(!closed.contains(idx_of(m, q[q.len() - 1])));
        assert forall|k: usize| #[trigger] g.contains_key(k) implies closed.contains(k)
            || oldq.dom().contains(k) by {}
        lemma_walk_to_frontier(m, closed, oldq.dom(), g, q, 0);
        let i = choose|i: int|
            0 <= i < q.len() && oldq.dom().contains(idx_of(m, q[i])) && g.contains_key(
                idx_of(m, q[i]),
            ) && g[idx_of(m, q[i])] <= i;
        let yi = idx_of(m, q[i]);
        assert(oldq.contains_key(yi));
        assert(prio <= oldq[yi]);
        assert(oldq[yi] as int == g[yi] + h_est(m.coord_at(yi as int), end));
        assert(m.is_open(q[i]));
        m.lemma_idx_in_range(q[i]);
        m.lemma_idx_coord_at(q[i]);
        assert(yi as int == m.spec_idx(q[i]));
        assert(m.coord_at(yi as int) == q[i]);
        assert(prio as int == g[current] + h_est(cc, end));
        lemma_h_telescope(end, q, i, q.len() - 1);
        assert(h_est(q[i], end) <= (q.len() - 1 - i) + h_est(cc, end));
        assert(g[current] + h_est(cc, end) <= g[yi] + h_est(q[i], end));
        assert(g[yi] <= i);
    }
}

/// The Manhattan distance between two positions: the heuristic estimate of
/// remaining cost under unit-cost 4-directional movement, admissible and
/// consistent, which is what guarantees the best-first search's optimality.
pub fn manhattan(maze: &Maze, a: Coord, b: Coord) -> (r: usize)
    requires
        maze.wf(),
        maze.in_bounds(a),
        maze.in_bounds(b),
    ensures
        r == h_est(a, b),
{
    proof {
        assert(maze.data.len() == maze.grid().len());
        assert((maze.width - 1) + (maze.height - 1) <= maze.width * maze.height - 1)
            by (nonlinear_arith)
            requires
                maze.width >= 1,
                maze.height >= 1,
        ;
    }
    let dx = if a.x >= b.x {
        a.x - b.x
    } else {
        b.x - a.x
    };
    let dy = if a.y >= b.y {
        a.y - b.y
    } else {
        b.y - a.y
    };
    dx + dy
}

/// The heuristic search's route is never longer than the unguided
/// search's on the same inputs: the heuristic search's length is minimal
/// over all valid routes, and the unguided search returns one of those.
pub proof fn lemma_heuristic_no_longer(
    m: Maze,
    start: Coord,
    end: Coord,
    astar_route: Seq<Coord>,
    dfs_route: Seq<Coord>,
)
    requires
        valid_route(m, start, end, dfs_route),
        forall|q: Seq<Coord>| valid_route(m, start, end, q) ==> astar_route.len() <= q.len(),
    ensures
        astar_route.len() <= dfs_route.len(),
{
}

/// The heuristic best-first search: explores via a priority frontier
/// ordered by the cost so far plus the consistent Manhattan estimate to
/// the target, keeping for each discovered cell its best known cost and
/// predecessor, then reconstructs the route. Succeeds exactly when some
/// route connects `start` to `end` — returning a minimum-length route:
/// no valid route is shorter — and otherwise reports `Unreachable`. The
/// second result is the number of distinct cells that ever received a
/// predecessor entry. Frontier ties are broken by the heap's layout,
/// which the fixed hasher makes reproducible from call to call; that
/// determinism is a property of the implementation, not of this contract,
/// since the queue's trusted contract honestly leaves ties open.
#[verifier::rlimit(100)]
pub fn a_star(maze: &Maze, start: Coord, end: Coord) -> (r: Result<(Vec<Coord>, usize), MazeError>)
    requires
        maze.wf(),
        maze.is_open(start),
        maze.is_open(end),
    ensures
        r is Ok <==> connected(*maze, start, end),
        r matches Err(e) ==> e == MazeError::Unreachable,
        r matches Ok(p) ==> valid_route(*maze, start, end, p.0@) && 1 <= p.1 <= reachable_cells(
            *maze,
            start,
        ).len() && p.1 <= maze.open_cells().len(),
        r matches Ok(p) ==> (forall|i: int, j: int|
            0 <= i < j < p.0@.len() ==> p.0@[i] != p.0@[j]),
        r matches Ok(p) ==> (forall|q: Seq<Coord>|
            valid_route(*maze, start, end, q) ==> p.0@.len() <= q.len()),
        start == end ==> (r matches Ok(p) && p.0@ =~= seq![start] && p.1 == 1),
{
    let start_i = maze.idx(start);
    let end_i = maze.idx(end);
    proof {
        maze.lemma_idx_coord_at(start);
        maze.lemma_idx_coord_at(end);
        assert(maze.data.len() == maze.grid().len());
    }
    let mut g_map: FxHashMap<usize, usize> = FxHashMap::default();
    let mut from: FxHashMap<usize, Option<usize>> = FxHashMap::default();
    let mut closed: FxHashSet<usize> = FxHashSet::default();
    let mut queue = Frontier::new();
    map_insert(&mut g_map, start_i, 0);
    map_insert(&mut from, start_i, None);
    let h0 = manhattan(maze, start, end);
    queue.push_improve(start_i, h0 as u128);
    proof {
        assert(seq![start][0] == start);
        assert(valid_route(*maze, start, start, seq![start]));
        assert(maze.coord_at(start_i as int) == start);
        assert forall|k: usize| #[trigger] g_map@.contains_key(k) implies exists|q: Seq<Coord>|
            valid_route(*maze, start, maze.coord_at(k as int), q) && q.len() == g_map@[k] + 1 by {
            assert(valid_route(*maze, start, maze.coord_at(start_i as int), seq![start])
                && seq![start].len() == g_map@[start_i] + 1);
        }
    }
    let mut found = false;
    while !found && !queue.is_empty()
        invariant
            maze.wf(),
            maze.is_open(start),
            maze.is_open(end),
            start_i == idx_of(*maze, start),
            end_i == idx_of(*maze, end),
            maze.coord_at(start_i as int) == start,
            maze.coord_at(end_i as int) == end,
            start_i == end_i ==> from@.dom() =~= Set::<usize>::empty().insert(start_i),
            pred_inv(*maze, start_i, from@),
            queue@.dom().finite(),
            g_map@.dom().finite(),
            forall|k: usize| from@.contains_key(k) == #[trigger] g_map@.contains_key(k),
            g_map@.contains_key(start_i) && g_map@[start_i] == 0,
            forall|k: usize|
                from@.contains_key(k) ==> ((#[trigger] from@[k]) matches Some(j)
                    ==> g_map@.contains_key(j) && g_map@.contains_key(k) && g_map@[j] < g_map@[k]),
            forall|k: usize| #[trigger] g_map@.contains_key(k) ==> g_map@[k] < g_map@.dom().len(),
            forall|k: usize| #[trigger] queue@.contains_key(k) ==> from@.contains_key(k),
            forall|k: usize|
                #[trigger] from@.contains_key(k) ==> closed@.contains(k) || queue@.contains_key(k)
                    || (found && k == end_i),
            forall|k: usize| #[trigger] closed@.contains(k) ==> from@.contains_key(k),
            closed@.finite(),
            closed@.len() <= maze.grid().len(),
            !closed@.contains(end_i),
            forall|k: usize, c: Coord|
                #![trigger closed@.contains(k), adjacent(maze.coord_at(k as int), c)]
                closed@.contains(k) && maze.is_open(c) && adjacent(maze.coord_at(k as int), c)
                    ==> from@.contains_key(idx_of(*maze, c)) && g_map@.contains_key(k)
                    && g_map@.contains_key(idx_of(*maze, c)) && g_map@[idx_of(*maze, c)]
                    <= g_map@[k] + 1,
            forall|y: usize|
                #[trigger] queue@.contains_key(y) ==> g_map@.contains_key(y) && queue@[y] as int
                    == g_map@[y] + h_est(maze.coord_at(y as int), end),
            forall|k: usize|
                #[trigger] g_map@.contains_key(k) ==> exists|q: Seq<Coord>|
                    valid_route(*maze, start, maze.coord_at(k as int), q) && q.len() == g_map@[k]
                        + 1,
            forall|z: usize, q: Seq<Coord>|
                #![trigger closed@.contains(z), valid_route(*maze, start, maze.coord_at(z as int), q)]
                closed@.contains(z) && valid_route(*maze, start, maze.coord_at(z as int), q)
                    ==> g_map@.contains_key(z) && g_map@[z] <= q.len() - 1,
            found ==> from@.contains_key(end_i),
            found ==> g_map@.contains_key(end_i) && (forall|q: Seq<Coord>|
                valid_route(*maze, start, end, q) ==> g_map@[end_i] <= q.len() - 1),
        decreases (if found {
            0int
        } else {
            1int
        }), maze.grid().len() - closed@.len(), queue@.dom().len(),
    {
        let ghost oldq = queue@;
        let popped = queue.pop().unwrap();
        let current = popped.0;
        proof {
            assert(from@.contains_key(current));
            assert forall|k: usize| #[trigger] g_map@.contains_key(k) implies (k as int)
                < maze.grid().len() && maze.is_open(maze.coord_at(k as int)) by {
                assert(from@.contains_key(k));
            }
            assert forall|k: usize| #[trigger] g_map@.contains_key(k) implies closed@.contains(k)
                || oldq.contains_key(k) by {
                assert(from@.contains_key(k));
            }
        }
        if current == end_i {
            found = true;
            proof {
                lemma_pop_optimal(*maze, start, end, closed@, oldq, g_map@, current, popped.1);
                assert(maze.coord_at(current as int) == end);
            }
        } else {
            proof {
                if start_i == end_i {
                    assert(from@.dom().contains(current));
                    assert(false);
                }
            }
            // A cell already expanded never improves again under the
            // consistent Manhattan estimate, so re-expanding it could push
            // nothing new; skipping it keeps the loop measure decreasing.
            let already = set_contains(&closed, current);
            if !already {
                let cur_coord = maze.coord_of(current);
                let nbrs = maze.neighbours(cur_coord);
                proof {
                    maze.lemma_neighbours_sound(cur_coord);
                }
                let g_cur = match map_get(&g_map, current) {
                    Some(v) => v,
                    None => {
                        proof {
                            assert(false);
                        }
                        0
                    },
                };
                proof {
                    lemma_pop_optimal(*maze, start, end, closed@, oldq, g_map@, current, popped.1);
                }
                let mut ni: usize = 0;
                while ni < nbrs.len()
                    invariant
                        maze.wf(),
                        maze.is_open(start),
                        maze.is_open(end),
                        start_i == idx_of(*maze, start),
                        end_i == idx_of(*maze, end),
                        maze.coord_at(start_i as int) == start,
                        maze.coord_at(end_i as int) == end,
                        pred_inv(*maze, start_i, from@),
                        queue@.dom().finite(),
                        g_map@.dom().finite(),
                        forall|k: usize| from@.contains_key(k) == #[trigger] g_map@.contains_key(k),
                        g_map@.contains_key(start_i) && g_map@[start_i] == 0,
                        forall|k: usize|
                            from@.contains_key(k) ==> ((#[trigger] from@[k]) matches Some(j)
                                ==> g_map@.contains_key(j) && g_map@.contains_key(k) && g_map@[j]
                                < g_map@[k]),
                        forall|k: usize|
                            #[trigger] g_map@.contains_key(k) ==> g_map@[k] < g_map@.dom().len(),
                        forall|k: usize| #[trigger] queue@.contains_key(k) ==> from@.contains_key(k),
                        forall|k: usize|
                            #[trigger] from@.contains_key(k) ==> closed@.contains(k)
                                || queue@.contains_key(k) || k == current,
                        forall|k: usize| #[trigger] closed@.contains(k) ==> from@.contains_key(k),
                        closed@.finite(),
                        closed@.len() <= maze.grid().len(),
                        !closed@.contains(end_i),
                        !closed@.contains(current),
                        current != end_i,
                        from@.contains_key(current),
                        g_map@.contains_key(current) && g_map@[current] == g_cur,
                        cur_coord == maze.coord_at(current as int),
                        nbrs@ == maze.neighbour_seq(cur_coord),
                        ni <= nbrs@.len(),
                        forall|j: int|
                            0 <= j < ni ==> from@.contains_key(
                                idx_of(*maze, #[trigger] nbrs@[j]),
                            ) && g_map@.contains_key(idx_of(*maze, nbrs@[j])) && g_map@[idx_of(
                                *maze,
                                nbrs@[j],
                            )] <= g_cur + 1,
                        forall|k: usize, c: Coord|
                            #![trigger closed@.contains(k), adjacent(maze.coord_at(k as int), c)]
                            closed@.contains(k) && maze.is_open(c) && adjacent(
                                maze.coord_at(k as int),
                                c,
                            ) ==> from@.contains_key(idx_of(*maze, c)) && g_map@.contains_key(k)
                                && g_map@.contains_key(idx_of(*maze, c)) && g_map@[idx_of(
                                *maze,
                                c,
                            )] <= g_map@[k] + 1,
                        forall|y: usize|
                            #[trigger] queue@.contains_key(y) ==> g_map@.contains_key(y)
                                && queue@[y] as int == g_map@[y] + h_est(
                                maze.coord_at(y as int),
                                end,
                            ),
                        forall|k: usize|
                            #[trigger] g_map@.contains_key(k) ==> exists|q: Seq<Coord>|
                                valid_route(*maze, start, maze.coord_at(k as int), q) && q.len()
                                    == g_map@[k] + 1,
                        forall|z: usize, q: Seq<Coord>|
                            #![trigger closed@.contains(z), valid_route(*maze, start, maze.coord_at(z as int), q)]
                            closed@.contains(z) && valid_route(
                                *maze,
                                start,
                                maze.coord_at(z as int),
                                q,
                            ) ==> g_map@.contains_key(z) && g_map@[z] <= q.len() - 1,
                        forall|q: Seq<Coord>|
                            valid_route(*maze, start, cur_coord, q) ==> g_cur <= q.len() - 1,
                    decreases nbrs@.len() - ni,
                {
                    let nb = nbrs[ni];
                    proof {
                        assert(adjacent(cur_coord, nb) && maze.is_open(nb));
                        maze.lemma_idx_in_range(nb);
                        maze.lemma_idx_coord_at(nb);
                        assert(maze.data.len() == maze.grid().len());
                        lemma_usize_set_card(g_map@.dom(), maze.grid().len() as nat);
                    }
                    let nb_i = maze.idx(nb);
                    let tentative = g_cur + 1;
                    let better = match map_get(&g_map, nb_i) {
                        None => true,
                        Some(gn) => tentative < gn,
                    };
                    if better {
                        let ghost pre_q = queue@;
                        let ghost old_g = g_map@;
                        let ghost qc = choose|qq: Seq<Coord>|
                            valid_route(*maze, start, maze.coord_at(current as int), qq)
                                && qq.len() == g_map@[current] + 1;
                        let ghost qn = qc.push(nb);
                        proof {
                            assert(nb_i != start_i);
                            assert(nb_i != current);
                            assert(qn.len() == g_cur + 2);
                            assert(qn[0] == qc[0]);
                            assert(qn[qn.len() - 1] == nb);
                            assert forall|ii: int| 0 <= ii < qn.len() implies maze.is_open(
                                #[trigger] qn[ii],
                            ) by {
                                if ii < qc.len() {
                                    assert(qn[ii] == qc[ii]);
                                } else {
                                    assert(qn[ii] == nb);
                                }
                            }
                            assert forall|ii: int|
                                #![trigger qn[ii], qn[ii + 1]]
                                0 <= ii < qn.len() - 1 implies adjacent(qn[ii], qn[ii + 1]) by {
                                if ii < qc.len() - 1 {
                                    assert(qn[ii] == qc[ii] && qn[ii + 1] == qc[ii + 1]);
                                    assert(adjacent(qc[ii], qc[ii + 1]));
                                } else {
                                    assert(qn[ii] == qc[qc.len() - 1]);
                                    assert(qc[qc.len() - 1] == cur_coord);
                                    assert(qn[ii + 1] == nb);
                                }
                            }
                            assert(valid_route(*maze, start, nb, qn));
                            assert(maze.coord_at(nb_i as int) == nb);
                            if closed@.contains(nb_i) {
                                assert(valid_route(*maze, start, maze.coord_at(nb_i as int), qn));
                                assert(g_map@[nb_i] <= qn.len() - 1);
                                assert(false);
                            }
                            assert(!closed@.contains(nb_i));
                        }
                        map_insert(&mut from, nb_i, Some(current));
                        map_insert(&mut g_map, nb_i, tentative);
                        let h_nb = manhattan(maze, nb, end);
                        let f_nb = (tentative as u128) + (h_nb as u128);
                        queue.push_improve(nb_i, f_nb);
                        proof {
                            if pre_q.contains_key(nb_i) {
                                assert(pre_q[nb_i] as int == old_g[nb_i] + h_est(nb, end));
                                assert(!(pre_q[nb_i] <= f_nb));
                            }
                            assert(queue@ == pre_q.insert(nb_i, f_nb));
                            assert(queue@.contains_key(nb_i));
                            assert(queue@[nb_i] == f_nb);
                            assert forall|y: usize| #[trigger] queue@.contains_key(y) implies g_map@
                                .contains_key(y) && queue@[y] as int == g_map@[y] + h_est(
                                maze.coord_at(y as int),
                                end,
                            ) by {
                                if y == nb_i {
                                    assert(queue@[nb_i] as int == tentative + h_est(nb, end));
                                } else {
                                    assert(pre_q.contains_key(y));
                                    assert(queue@[y] == pre_q[y]);
                                    assert(old_g.contains_key(y));
                                    assert(g_map@[y] == old_g[y]);
                                }
                            }
                            assert forall|k: usize| #[trigger] g_map@.contains_key(k) implies exists|
                                qq: Seq<Coord>,
                            |
                                valid_route(*maze, start, maze.coord_at(k as int), qq) && qq.len()
                                    == g_map@[k] + 1 by {
                                if k == nb_i {
                                    assert(valid_route(
                                        *maze,
                                        start,
                                        maze.coord_at(nb_i as int),
                                        qn,
                                    ) && qn.len() == g_map@[nb_i] + 1);
                                } else {
                                    assert(old_g.contains_key(k));
                                    assert(g_map@[k] == old_g[k]);
                                }
                            }
                            assert forall|z: usize, c: Coord|
                                #![trigger closed@.contains(z), adjacent(maze.coord_at(z as int), c)]
                                closed@.contains(z) && maze.is_open(c) && adjacent(
                                    maze.coord_at(z as int),
                                    c,
                                ) implies from@.contains_key(idx_of(*maze, c))
                                && g_map@.contains_key(z) && g_map@.contains_key(
                                idx_of(*maze, c),
                            ) && g_map@[idx_of(*maze, c)] <= g_map@[z] + 1 by {
                                assert(z != nb_i);
                                assert(g_map@[z] == old_g[z]);
                                let t = idx_of(*maze, c);
                                if t == nb_i {
                                    assert(old_g[t] <= old_g[z] + 1);
                                    assert(g_map@[t] == tentative);
                                    assert(tentative < old_g[t]);
                                } else {
                                    assert(g_map@[t] == old_g[t]);
                                }
                            }
                            assert forall|z: usize, q: Seq<Coord>|
                                #![trigger closed@.contains(z), valid_route(*maze, start, maze.coord_at(z as int), q)]
                                closed@.contains(z) && valid_route(
                                    *maze,
                                    start,
                                    maze.coord_at(z as int),
                                    q,
                                ) implies g_map@.contains_key(z) && g_map@[z] <= q.len() - 1 by {
                                assert(z != nb_i);
                                assert(g_map@[z] == old_g[z]);
                            }
                            assert forall|j: int| 0 <= j < ni + 1 implies from@.contains_key(
                                idx_of(*maze, #[trigger] nbrs@[j]),
                            ) && g_map@.contains_key(idx_of(*maze, nbrs@[j])) && g_map@[idx_of(
                                *maze,
                                nbrs@[j],
                            )] <= g_cur + 1 by {
                                let t = idx_of(*maze, nbrs@[j]);
                                if j < ni {
                                    if t == nb_i {
                                        assert(g_map@[t] == tentative);
                                    } else {
                                        assert(g_map@[t] == old_g[t]);
                                    }
                                } else {
                                    assert(nbrs@[j] == nb);
                                    assert(t == nb_i);
                                    assert(g_map@[t] == tentative);
                                }
                            }
                        }
                    } else {
                        proof {
                            assert(g_map@.contains_key(nb_i));
                            assert forall|j: int| 0 <= j < ni + 1 implies from@.contains_key(
                                idx_of(*maze, #[trigger] nbrs@[j]),
                            ) && g_map@.contains_key(idx_of(*maze, nbrs@[j])) && g_map@[idx_of(
                                *maze,
                                nbrs@[j],
                            )] <= g_cur + 1 by {
                                if j == ni {
                                    assert(nbrs@[j] == nb);
                                    assert(g_map@[nb_i] <= tentative);
                                }
                            }
                        }
                    }
                    ni = ni + 1;
                }
                set_insert(&mut closed, current);
                proof {
                    lemma_usize_set_card(closed@, maze.grid().len() as nat);
                    assert forall|k: usize, c: Coord|
                        #![trigger closed@.contains(k), adjacent(maze.coord_at(k as int), c)]
                        closed@.contains(k) && maze.is_open(c) && adjacent(
                            maze.coord_at(k as int),
                            c,
                        ) implies from@.contains_key(idx_of(*maze, c)) && g_map@.contains_key(k)
                        && g_map@.contains_key(idx_of(*maze, c)) && g_map@[idx_of(*maze, c)]
                        <= g_map@[k] + 1 by {
                        if k == current {
                            maze.lemma_neighbours_complete(cur_coord, c);
                            let j = choose|j: int|
                                0 <= j < nbrs@.len() && maze.neighbour_seq(cur_coord)[j] == c;
                            assert(from@.contains_key(idx_of(*maze, nbrs@[j])));
                            assert(g_map@[idx_of(*maze, nbrs@[j])] <= g_cur + 1);
                        }
                    }
                    assert forall|z: usize, q: Seq<Coord>|
                        #![trigger closed@.contains(z), valid_route(*maze, start, maze.coord_at(z as int), q)]
                        closed@.contains(z) && valid_route(
                            *maze,
                            start,
                            maze.coord_at(z as int),
                            q,
                        ) implies g_map@.contains_key(z) && g_map@[z] <= q.len() - 1 by {
                        if z == current {
                            assert(valid_route(*maze, start, cur_coord, q));
                            assert(g_cur <= q.len() - 1);
                        }
                    }
                }
            }
        }
    }
    let explored = map_len(&from);
    proof {
        assert(from@.dom().contains(start_i));
        if from@.len() == 0 {
            from@.dom().lemma_len0_is_empty();
        }
        maze.lemma_open_cells_finite();
        assert forall|k: usize| from@.dom().contains(k) implies maze.open_cells().contains(k) by {
            assert(from@.contains_key(k));
        }
        vstd::set_lib::lemma_len_subset(from@.dom(), maze.open_cells());
        lemma_reachable_cells_finite(*maze, start);
        assert forall|k: usize| from@.dom().contains(k) implies reachable_cells(
            *maze,
            start,
        ).contains(k) by {
            assert(from@.contains_key(k));
            assert(g_map@.contains_key(k));
            let q = choose|q: Seq<Coord>|
                valid_route(*maze, start, maze.coord_at(k as int), q) && q.len() == g_map@[k] + 1;
            assert(valid_route(*maze, start, maze.coord_at(k as int), q));
            assert(connected(*maze, start, maze.coord_at(k as int)));
        }
        vstd::set_lib::lemma_len_subset(from@.dom(), reachable_cells(*maze, start));
        if start_i == end_i {
            assert(from@.dom() =~= Set::<usize>::empty().insert(start_i));
            assert(from@.len() == 1);
        }
    }
    if !found {
        proof {
            assert(!from@.contains_key(end_i));
            if connected(*maze, start, end) {
                let rt = choose|rt: Seq<Coord>| valid_route(*maze, start, end, rt);
                assert(closed@.contains(start_i));
                assert forall|k: usize, c: Coord|
                    #![trigger closed@.contains(k), adjacent(maze.coord_at(k as int), c)]
                    closed@.contains(k) && maze.is_open(c) && adjacent(
                        maze.coord_at(k as int),
                        c,
                    ) implies closed@.contains(idx_of(*maze, c)) by {
                    assert(from@.contains_key(idx_of(*maze, c)));
                }
                lemma_closed_reaches(*maze, closed@, start, end, rt);
                assert(false);
            }
        }
        return Err(MazeError::Unreachable);
    }
    proof {
        let rank = Map::new(
            |k: usize| g_map@.contains_key(k),
            |k: usize| g_map@[k] as nat,
        );
        assert forall|k: usize| from@.contains_key(k) implies ((#[trigger] from@[k]) matches Some(
            j,
        ) ==> from@.contains_key(j) && rank.contains_key(j) && rank.contains_key(k) && rank[j]
            < rank[k]) by {}
        assert(pred_wf(from@, rank));
    }
    let route_idx = match reconstruct_route(end_i, &from) {
        Ok(v) => v,
        Err(_) => {
            proof {
                assert(false);
            }
            return Err(MazeError::Unreachable);
        },
    };
    let coords = route_coords(maze, start, end, &route_idx, Ghost(from@));
    proof {
        assert(route_idx@[0] == start_i);
        lemma_chain_cost(from@, g_map@, route_idx@, route_idx@.len() - 1);
        assert(route_idx@[route_idx@.len() - 1] == end_i);
        assert forall|q: Seq<Coord>| valid_route(*maze, start, end, q) implies coords@.len()
            <= q.len() by {
            assert(g_map@[end_i] <= q.len() - 1);
            assert(g_map@[route_idx@[route_idx@.len() - 1]] >= route_idx@.len() - 1);
        }
    }
    Ok((coords, explored))
}

} // verus!
