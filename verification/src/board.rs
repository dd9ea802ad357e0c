//! How the board's passages are kept in the graph: one node per cell,
//! numbered row by row, and one edge per open passage.

use crate::graph::{
    add_edge, add_node, contains_edge, empty_graph, find_edge, graph_edges, graph_nodes, has_path, is_distance,
    is_walk, joins, linked, neighbors, node_weight, reachable, remove_edge, shortest_distances,
    swap_removed, walk_between,
};
use crate::notation::{on_board, Coord, Orientation, MAX_SIZE};
use crate::position::{adjacent, lemma_path_cells_on_board, wall_cuts, wall_edges, Position, UNREACHABLE};
use petgraph::graph::UnGraph;
use vstd::prelude::*;

verus! {

/// The graph node that stands for a cell: cells are numbered row by row.
pub closed spec fn node_of(size: nat, cell: Coord) -> usize {
    (cell.0 * size + cell.1) as usize
}

/// The graph's nodes are the board's cells, numbered row by row.
pub closed spec fn nodes_are_cells(size: nat, nodes: Seq<Coord>) -> bool {
    &&& nodes.len() == size * size
    &&& forall|k: int| 0 <= k < nodes.len() ==> on_board(size, #[trigger] nodes[k]) && node_of(size, nodes[k]) == k
    &&& forall|c: Coord|
        on_board(size, c) ==> (#[trigger] node_of(size, c)) < nodes.len() && nodes[node_of(size, c) as int] == c
}

/// Every edge joins two nodes, and no two edges join the same pair.
pub closed spec fn edges_are_simple(count: nat, edges: Seq<(usize, usize)>) -> bool {
    &&& edges.len() <= 2 * count
    &&& forall|k: int| 0 <= k < edges.len() ==> (#[trigger] edges[k]).0 < count && edges[k].1 < count
    &&& forall|i: int, j: int| 0 <= i < j < edges.len() ==> !joins(#[trigger] edges[i], (#[trigger] edges[j]).0,
        edges[j].1)
}

/// The node of a cell on the board is the cell's number when the cells are
/// counted row by row, and the board has at most 81 cells.
pub(crate) proof fn lemma_node_of(size: nat, cell: Coord)
    requires
        size <= MAX_SIZE,
        on_board(size, cell),
    ensures
        node_of(size, cell) == cell.0 * size + cell.1,
        node_of(size, cell) < size * size,
        size * size <= 81,
{
    assert(cell.0 * size + cell.1 < size * size && size * size <= 81 && cell.0 * size >= 0) by (nonlinear_arith)
        requires
            size <= 9,
            cell.0 < size,
            cell.1 < size,
    ;
}

/// The graph node that stands for a cell.
pub(crate) fn node_index(size: usize, cell: Coord) -> (node: usize)
    requires
        size <= MAX_SIZE,
        on_board(size as nat, cell),
    ensures
        node == node_of(size as nat, cell),
        node < size * size,
        node <= 80,
{
    proof {
        lemma_node_of(size as nat, cell);
    }
    cell.0 * size + cell.1
}

/// With one more edge, two nodes are linked if they were before or if the new
/// edge joins them.
pub(crate) proof fn lemma_linked_push(edges: Seq<(usize, usize)>, e: (usize, usize), a: usize, b: usize)
    ensures
        linked(edges.push(e), a, b) <==> (linked(edges, a, b) || joins(e, a, b)),
{
    let after = edges.push(e);
    if linked(edges, a, b) {
        let k = choose|k: int| 0 <= k < edges.len() && joins(#[trigger] edges[k], a, b);
        assert(after[k] == edges[k]);
    }
    if joins(e, a, b) {
        assert(after[edges.len() as int] == e);
    }
    if linked(after, a, b) {
        let k = choose|k: int| 0 <= k < after.len() && joins(#[trigger] after[k], a, b);
        if k < edges.len() {
            assert(after[k] == edges[k]);
        }
    }
}

/// The passages of a board without walls: an edge between every two cells
/// that lie side by side or one above the other.
pub(crate) fn grid_graph(size: usize) -> (g: UnGraph<(usize, usize), ()>)
    requires
        size <= MAX_SIZE,
    ensures
        nodes_are_cells(size as nat, graph_nodes(g)),
        edges_are_simple(graph_nodes(g).len(), graph_edges(g)),
        forall|a: Coord, b: Coord|
            on_board(size as nat, a) && on_board(size as nat, b) ==> (#[trigger] linked(
                graph_edges(g),
                node_of(size as nat, a),
                node_of(size as nat, b),
            ) <==> adjacent(a, b)),
{
    let mut g = empty_graph();
    let mut row: usize = 0;
    while row < size
        invariant
            row <= size <= MAX_SIZE,
            graph_edges(g).len() == 0,
            graph_nodes(g).len() == row * size,
            forall|k: int|
                0 <= k < graph_nodes(g).len() ==> on_board(size as nat, #[trigger] graph_nodes(g)[k]) && node_of(
                    size as nat,
                    graph_nodes(g)[k],
                ) == k,
            forall|c: Coord|
                on_board(size as nat, c) && c.0 < row ==> (#[trigger] node_of(size as nat, c)) < graph_nodes(g).len()
                    && graph_nodes(g)[node_of(size as nat, c) as int] == c,
        decreases size - row,
    {
        let mut col: usize = 0;
        while col < size
            invariant
                row < size <= MAX_SIZE,
                col <= size,
                graph_edges(g).len() == 0,
                graph_nodes(g).len() == row * size + col,
                forall|k: int|
                    0 <= k < graph_nodes(g).len() ==> on_board(size as nat, #[trigger] graph_nodes(g)[k]) && node_of(
                        size as nat,
                        graph_nodes(g)[k],
                    ) == k,
                forall|c: Coord|
                    on_board(size as nat, c) && (c.0 < row || (c.0 == row && c.1 < col)) ==> (#[trigger] node_of(
                        size as nat,
                        c,
                    )) < graph_nodes(g).len() && graph_nodes(g)[node_of(size as nat, c) as int] == c,
            decreases size - col,
        {
            proof {
                lemma_node_of(size as nat, (row, col));
            }
            let ghost before = graph_nodes(g);
            add_node(&mut g, (row, col));
            assert forall|c: Coord|
                on_board(size as nat, c) && (c.0 < row || (c.0 == row && c.1 < col + 1)) implies (#[trigger] node_of(
                size as nat,
                c,
            )) < graph_nodes(g).len() && graph_nodes(g)[node_of(size as nat, c) as int] == c by {
                if c.0 == row && c.1 == col {
                } else {
                    assert(before[node_of(size as nat, c) as int] == c);
                }
            }
            col = col + 1;
        }
        assert((row + 1) * size == row * size + size) by (nonlinear_arith);
        row = row + 1;
    }
    let ghost nodes = graph_nodes(g);
    let ghost n = size as nat;
    assert(nodes_are_cells(n, nodes));
    proof {
        assert(size * size <= 81) by (nonlinear_arith)
            requires
                size <= 9,
        ;
    }
    let mut row: usize = 0;
    while row < size
        invariant
            row <= size <= MAX_SIZE,
            n == size,
            graph_nodes(g) == nodes,
            nodes_are_cells(n, nodes),
            nodes.len() <= 81,
            graph_edges(g).len() <= 2 * (row * size),
            forall|k: int|
                0 <= k < graph_edges(g).len() ==> {
                    let e = #[trigger] graph_edges(g)[k];
                    &&& e.0 < e.1 < nodes.len()
                    &&& nodes[e.0 as int].0 < row
                    &&& (nodes[e.1 as int] == (nodes[e.0 as int].0, (nodes[e.0 as int].1 + 1) as usize) || nodes[e.1
                        as int]
                        == ((nodes[e.0 as int].0 + 1) as usize, nodes[e.0 as int].1))
                },
            forall|i: int, j: int|
                0 <= i < j < graph_edges(g).len() ==> #[trigger] graph_edges(g)[i] != #[trigger] graph_edges(g)[j],
            forall|a: Coord|
                on_board(n, a) && a.0 < row ==> {
                    &&& a.1 + 1 < size ==> linked(
                        graph_edges(g),
                        #[trigger] node_of(n, a),
                        node_of(n, (a.0, (a.1 + 1) as usize)),
                    )
                    &&& a.0 + 1 < size ==> linked(graph_edges(g), node_of(n, a), node_of(n, ((a.0 + 1) as usize, a.1)))
                },
        decreases size - row,
    {
        let mut col: usize = 0;
        while col < size
            invariant
                row < size <= MAX_SIZE,
                col <= size,
                n == size,
                graph_nodes(g) == nodes,
                nodes_are_cells(n, nodes),
                nodes.len() <= 81,
                graph_edges(g).len() <= 2 * (row * size + col),
                forall|k: int|
                    0 <= k < graph_edges(g).len() ==> {
                        let e = #[trigger] graph_edges(g)[k];
                        &&& e.0 < e.1 < nodes.len()
                        &&& (nodes[e.0 as int].0 < row || (nodes[e.0 as int].0 == row && nodes[e.0 as int].1 < col))
                        &&& (nodes[e.1 as int] == (nodes[e.0 as int].0, (nodes[e.0 as int].1 + 1) as usize)
                            || nodes[e.1 as int] == ((nodes[e.0 as int].0 + 1) as usize, nodes[e.0 as int].1))
                    },
                forall|i: int, j: int|
                    0 <= i < j < graph_edges(g).len() ==> #[trigger] graph_edges(g)[i] != #[trigger] graph_edges(g)[j],
                forall|a: Coord|
                    on_board(n, a) && (a.0 < row || (a.0 == row && a.1 < col)) ==> {
                        &&& a.1 + 1 < size ==> linked(
                            graph_edges(g),
                            #[trigger] node_of(n, a),
                            node_of(n, (a.0, (a.1 + 1) as usize)),
                        )
                        &&& a.0 + 1 < size ==> linked(
                            graph_edges(g),
                            node_of(n, a),
                            node_of(n, ((a.0 + 1) as usize, a.1)),
                        )
                    },
            decreases size - col,
        {
            let here = node_index(size, (row, col));
            let ghost start = graph_edges(g);
            assert(nodes[here as int] == (row, col));
            assert(row * size + col + 1 <= 81 && 2 * (row * size + col) + 2 <= 162) by (nonlinear_arith)
                requires
                    row < size,
                    col < size,
                    size <= 9,
            ;
            if col + 1 < size {
                let right = node_index(size, (row, col + 1));
                proof {
                    lemma_node_of(n, (row, col));
                    lemma_node_of(n, (row, (col + 1) as usize));
                    assert(nodes[right as int] == (row, (col + 1) as usize));
                }
                add_edge(&mut g, here, right);
            }
            let ghost middle = graph_edges(g);
            if row + 1 < size {
                let down = node_index(size, (row + 1, col));
                proof {
                    lemma_node_of(n, (row, col));
                    lemma_node_of(n, ((row + 1) as usize, col));
                    assert((row + 1) * size == row * size + size) by (nonlinear_arith);
                    assert(nodes[down as int] == ((row + 1) as usize, col));
                }
                add_edge(&mut g, here, down);
            }
            let ghost done = graph_edges(g);
            proof {
                assert forall|i: int, j: int| 0 <= i < j < done.len() implies #[trigger] done[i] != #[trigger]
                    done[j] by {
                    if j < start.len() {
                        assert(done[i] == start[i] && done[j] == start[j]);
                    } else if i < start.len() {
                        assert(done[i] == start[i]);
                        assert(nodes[start[i].0 as int] != (row, col));
                        assert(done[j].0 == here);
                    } else {
                    }
                }
                assert forall|a: Coord|
                    on_board(n, a) && (a.0 < row || (a.0 == row && a.1 < col + 1)) implies {
                    &&& a.1 + 1 < size ==> linked(done, #[trigger] node_of(n, a), node_of(n, (a.0, (a.1 + 1) as usize)))
                    &&& a.0 + 1 < size ==> linked(done, node_of(n, a), node_of(n, ((a.0 + 1) as usize, a.1)))
                } by {
                    let x = node_of(n, a);
                    let r = node_of(n, (a.0, (a.1 + 1) as usize));
                    let d = node_of(n, ((a.0 + 1) as usize, a.1));
                    if col + 1 < size {
                        lemma_linked_push(start, middle[start.len() as int], x, r);
                        lemma_linked_push(start, middle[start.len() as int], x, d);
                    }
                    if row + 1 < size {
                        lemma_linked_push(middle, done[middle.len() as int], x, r);
                        lemma_linked_push(middle, done[middle.len() as int], x, d);
                    }
                }
            }
            col = col + 1;
        }
        assert((row + 1) * size == row * size + size) by (nonlinear_arith);
        row = row + 1;
    }
    proof {
        let edges = graph_edges(g);
        assert(size * size == nodes.len());
        assert forall|i: int, j: int| 0 <= i < j < edges.len() implies !joins(
            #[trigger] edges[i],
            (#[trigger] edges[j]).0,
            edges[j].1,
        ) by {
            assert(edges[i] != edges[j]);
        }
        assert forall|a: Coord, b: Coord| on_board(n, a) && on_board(n, b) implies (#[trigger] linked(
            edges,
            node_of(n, a),
            node_of(n, b),
        ) <==> adjacent(a, b)) by {
            let x = node_of(n, a);
            let y = node_of(n, b);
            assert(nodes[x as int] == a && nodes[y as int] == b);
            if linked(edges, x, y) {
                let k = choose|k: int| 0 <= k < edges.len() && joins(#[trigger] edges[k], x, y);
                assert(adjacent(a, b));
            }
            if adjacent(a, b) {
                if a.0 == b.0 && a.1 + 1 == b.1 {
                    assert(linked(edges, node_of(n, a), node_of(n, (a.0, (a.1 + 1) as usize))));
                } else if a.0 == b.0 && b.1 + 1 == a.1 {
                    assert(linked(edges, node_of(n, b), node_of(n, (b.0, (b.1 + 1) as usize))));
                    let k = choose|k: int| 0 <= k < edges.len() && joins(#[trigger] edges[k], y, x);
                    assert(joins(edges[k], x, y));
                } else if a.1 == b.1 && a.0 + 1 == b.0 {
                    assert(linked(edges, node_of(n, a), node_of(n, ((a.0 + 1) as usize, a.1))));
                } else {
                    assert(linked(edges, node_of(n, b), node_of(n, ((b.0 + 1) as usize, b.1))));
                    let k = choose|k: int| 0 <= k < edges.len() && joins(#[trigger] edges[k], y, x);
                    assert(joins(edges[k], x, y));
                }
            }
        }
    }
    g
}


/// The graph `g` holds exactly the open passages of `pos`.
pub closed spec fn passages_of(g: UnGraph<(usize, usize), ()>, pos: Position) -> bool {
    &&& pos.size <= MAX_SIZE
    &&& nodes_are_cells(pos.size, graph_nodes(g))
    &&& edges_are_simple(graph_nodes(g).len(), graph_edges(g))
    &&& forall|a: Coord, b: Coord|
        on_board(pos.size, a) && on_board(pos.size, b) ==> (#[trigger] linked(
            graph_edges(g),
            node_of(pos.size, a),
            node_of(pos.size, b),
        ) <==> pos.open(a, b))
}

/// Whether a graph holds the passages of a position depends only on the
/// board's size and walls.
pub(crate) proof fn lemma_passages_same_walls(g: UnGraph<(usize, usize), ()>, p: Position, q: Position)
    requires
        passages_of(g, p),
        p.size == q.size,
        p.hwalls == q.hwalls,
        p.vwalls == q.vwalls,
    ensures
        passages_of(g, q),
{
    assert forall|a: Coord, b: Coord| on_board(q.size, a) && on_board(q.size, b) implies (#[trigger] linked(
        graph_edges(g),
        node_of(q.size, a),
        node_of(q.size, b),
    ) <==> q.open(a, b)) by {
        assert(p.blocked(a, b) == q.blocked(a, b));
    }
}

/// A graph with the same nodes and edges holds the same passages.
pub(crate) proof fn lemma_passages_same_graph(
    g: UnGraph<(usize, usize), ()>,
    h: UnGraph<(usize, usize), ()>,
    pos: Position,
)
    requires
        graph_nodes(g) == graph_nodes(h),
        graph_edges(g) == graph_edges(h),
    ensures
        passages_of(g, pos) == passages_of(h, pos),
{
}

/// The passages of a board without walls.
pub(crate) fn fresh_passages(size: usize, Ghost(pos): Ghost<Position>) -> (g: UnGraph<(usize, usize), ()>)
    requires
        size <= MAX_SIZE,
        pos.size == size,
        pos.hwalls.len() == 0,
        pos.vwalls.len() == 0,
    ensures
        passages_of(g, pos),
{
    let g = grid_graph(size);
    proof {
        assert forall|a: Coord, b: Coord| on_board(pos.size, a) && on_board(pos.size, b) implies (#[trigger] linked(
            graph_edges(g),
            node_of(pos.size, a),
            node_of(pos.size, b),
        ) <==> pos.open(a, b)) by {
            assert(!pos.blocked(a, b));
        }
    }
    g
}

/// Taking an edge out unlinks the two nodes it joined and no others, and
/// leaves the edges simple.
proof fn lemma_swap_removed(count: nat, edges: Seq<(usize, usize)>, k: int)
    requires
        edges_are_simple(count, edges),
        0 <= k < edges.len(),
    ensures
        edges_are_simple(count, swap_removed(edges, k)),
        forall|x: usize, y: usize|
            linked(swap_removed(edges, k), x, y) <==> (linked(edges, x, y) && !joins(edges[k], x, y)),
{
    let after = swap_removed(edges, k);
    let last = edges.len() - 1;
    assert forall|i: int| 0 <= i < after.len() implies after[i] == (if i == k {
        edges[last]
    } else {
        edges[i]
    }) by {}
    assert forall|i: int, j: int| 0 <= i < j < after.len() implies !joins(
        #[trigger] after[i],
        (#[trigger] after[j]).0,
        after[j].1,
    ) by {
        let oi = if i == k { last } else { i };
        let oj = if j == k { last } else { j };
        assert(after[i] == edges[oi] && after[j] == edges[oj]);
        if oi < oj {
            assert(!joins(edges[oi], edges[oj].0, edges[oj].1));
        } else {
            assert(!joins(edges[oj], edges[oi].0, edges[oi].1));
        }
    }
    assert forall|x: usize, y: usize| linked(after, x, y) <==> (linked(edges, x, y) && !joins(edges[k], x, y)) by {
        if linked(after, x, y) {
            let i = choose|i: int| 0 <= i < after.len() && joins(#[trigger] after[i], x, y);
            let oi = if i == k { last } else { i };
            assert(after[i] == edges[oi]);
            assert(joins(edges[oi], x, y));
            if oi < k {
                assert(!joins(edges[oi], edges[k].0, edges[k].1));
            } else {
                assert(!joins(edges[k], edges[oi].0, edges[oi].1));
            }
        }
        if linked(edges, x, y) && !joins(edges[k], x, y) {
            let i = choose|i: int| 0 <= i < edges.len() && joins(#[trigger] edges[i], x, y);
            if i == last {
                assert(after[k] == edges[last]);
            } else {
                assert(after[i] == edges[i]);
            }
        }
    }
}

/// Takes the passage between two neighbouring cells out of the graph, when
/// it is there.
fn sever(g: &mut UnGraph<(usize, usize), ()>, size: usize, a: Coord, b: Coord)
    requires
        size <= MAX_SIZE,
        on_board(size as nat, a),
        on_board(size as nat, b),
        nodes_are_cells(size as nat, graph_nodes(*old(g))),
        edges_are_simple(graph_nodes(*old(g)).len(), graph_edges(*old(g))),
    ensures
        graph_nodes(*final(g)) == graph_nodes(*old(g)),
        edges_are_simple(graph_nodes(*final(g)).len(), graph_edges(*final(g))),
        forall|x: usize, y: usize|
            linked(graph_edges(*final(g)), x, y) <==> (linked(graph_edges(*old(g)), x, y) && !joins(
                (node_of(size as nat, a), node_of(size as nat, b)),
                x,
                y,
            )),
{
    let from = node_index(size, a);
    let to = node_index(size, b);
    proof {
        lemma_node_of(size as nat, a);
        lemma_node_of(size as nat, b);
    }
    let ghost edges = graph_edges(*g);
    match find_edge(g, from, to) {
        Some(k) => {
            proof {
                lemma_swap_removed(graph_nodes(*g).len(), edges, k as int);
            }
            remove_edge(g, k);
            assert forall|x: usize, y: usize|
                linked(graph_edges(*g), x, y) <==> (linked(edges, x, y) && !joins((from, to), x, y)) by {
                assert(joins(edges[k as int], x, y) == joins((from, to), x, y));
            }
        },
        None => {
            assert forall|x: usize, y: usize|
                linked(edges, x, y) <==> (linked(edges, x, y) && !joins((from, to), x, y)) by {
                if linked(edges, x, y) && joins((from, to), x, y) {
                    let i = choose|i: int| 0 <= i < edges.len() && joins(#[trigger] edges[i], x, y);
                    assert(joins(edges[i], from, to));
                }
            }
        },
    }
}

/// The passages that a wall severs.
pub(crate) fn severed_by(size: usize, anchor: Coord, orientation: Orientation) -> (edges: Vec<(Coord, Coord)>)
    requires
        size <= MAX_SIZE,
        on_board(size as nat, anchor),
    ensures
        edges@ == wall_edges(size as nat, anchor, orientation),
        forall|i: int|
            0 <= i < edges.len() ==> on_board(size as nat, (#[trigger] edges[i]).0) && on_board(size as nat, edges[i].1)
                && adjacent(edges[i].0, edges[i].1),
{
    let (r, c) = anchor;
    let mut edges: Vec<(Coord, Coord)> = Vec::new();
    match orientation {
        Orientation::Horizontal => {
            if r > 0 {
                edges.push((anchor, (r - 1, c)));
                if c + 1 < size {
                    edges.push(((r, c + 1), (r - 1, c + 1)));
                }
            }
        },
        Orientation::Vertical => {
            if c + 1 < size {
                edges.push((anchor, (r, c + 1)));
                if r > 0 {
                    edges.push(((r - 1, c), (r - 1, c + 1)));
                }
            }
        },
    }
    assert(edges@ =~= wall_edges(size as nat, anchor, orientation));
    edges
}

/// With one more wall, a passage is blocked if it was before or if the new
/// wall cuts it.
proof fn lemma_with_wall_blocked(pos: Position, anchor: Coord, orientation: Orientation, a: Coord, b: Coord)
    ensures
        pos.with_wall(anchor, orientation).blocked(a, b) <==> (pos.blocked(a, b) || wall_cuts(
            pos.size,
            anchor,
            orientation,
            a,
            b,
        )),
{
    let after = pos.with_wall(anchor, orientation);
    let h = Orientation::Horizontal;
    let v = Orientation::Vertical;
    if pos.blocked(a, b) {
        if exists|i: int| 0 <= i < pos.hwalls.len() && wall_cuts(pos.size, #[trigger] pos.hwalls[i], h, a, b) {
            let i = choose|i: int| 0 <= i < pos.hwalls.len() && wall_cuts(pos.size, #[trigger] pos.hwalls[i], h, a, b);
            assert(after.hwalls[i] == pos.hwalls[i]);
        } else {
            let i = choose|i: int| 0 <= i < pos.vwalls.len() && wall_cuts(pos.size, #[trigger] pos.vwalls[i], v, a, b);
            assert(after.vwalls[i] == pos.vwalls[i]);
        }
    }
    if wall_cuts(pos.size, anchor, orientation, a, b) {
        match orientation {
            Orientation::Horizontal => {
                assert(after.hwalls[pos.hwalls.len() as int] == anchor);
            },
            Orientation::Vertical => {
                assert(after.vwalls[pos.vwalls.len() as int] == anchor);
            },
        }
    }
    if after.blocked(a, b) {
        if exists|i: int| 0 <= i < after.hwalls.len() && wall_cuts(pos.size, #[trigger] after.hwalls[i], h, a, b) {
            let i = choose|i: int|
                0 <= i < after.hwalls.len() && wall_cuts(pos.size, #[trigger] after.hwalls[i], h, a, b);
            if i < pos.hwalls.len() {
                assert(after.hwalls[i] == pos.hwalls[i]);
            }
        } else {
            let i = choose|i: int|
                0 <= i < after.vwalls.len() && wall_cuts(pos.size, #[trigger] after.vwalls[i], v, a, b);
            if i < pos.vwalls.len() {
                assert(after.vwalls[i] == pos.vwalls[i]);
            }
        }
    }
}

/// A wall closes the passages it severs and leaves the others as they were.
pub proof fn lemma_with_wall_open(pos: Position, anchor: Coord, orientation: Orientation, a: Coord, b: Coord)
    ensures
        pos.with_wall(anchor, orientation).open(a, b) <==> (pos.open(a, b) && !wall_cuts(
            pos.size,
            anchor,
            orientation,
            a,
            b,
        )),
{
    lemma_with_wall_blocked(pos, anchor, orientation, a, b);
}

/// One of the first `upto` passages of `cells` runs between the nodes `x`
/// and `y`.
spec fn cut_among(n: nat, cells: Seq<(Coord, Coord)>, upto: int, x: usize, y: usize) -> bool {
    exists|j: int| 0 <= j < upto && joins((node_of(n, (#[trigger] cells[j]).0), node_of(n, cells[j].1)), x, y)
}

/// One more passage is cut: that between the next pair of cells.
proof fn lemma_cut_among_step(n: nat, cells: Seq<(Coord, Coord)>, upto: int, x: usize, y: usize)
    requires
        0 <= upto < cells.len(),
    ensures
        cut_among(n, cells, upto + 1, x, y) <==> (cut_among(n, cells, upto, x, y) || joins(
            (node_of(n, cells[upto].0), node_of(n, cells[upto].1)),
            x,
            y,
        )),
{
    if cut_among(n, cells, upto + 1, x, y) {
        let j = choose|j: int|
            0 <= j < upto + 1 && joins((node_of(n, (#[trigger] cells[j]).0), node_of(n, cells[j].1)), x, y);
        if j < upto {
            assert(cut_among(n, cells, upto, x, y));
        }
    }
    if cut_among(n, cells, upto, x, y) {
        let j = choose|j: int| 0 <= j < upto && joins((node_of(n, (#[trigger] cells[j]).0), node_of(n, cells[j].1)),
            x, y);
        assert(0 <= j < upto + 1);
    }
    if joins((node_of(n, cells[upto].0), node_of(n, cells[upto].1)), x, y) {
        assert(joins((node_of(n, (#[trigger] cells[upto]).0), node_of(n, cells[upto].1)), x, y));
    }
}

/// Takes the passages that a wall severs out of the graph.
pub(crate) fn cut_wall(
    g: &mut UnGraph<(usize, usize), ()>,
    size: usize,
    anchor: Coord,
    orientation: Orientation,
    Ghost(pos): Ghost<Position>,
)
    requires
        size == pos.size,
        on_board(size as nat, anchor),
        passages_of(*old(g), pos),
    ensures
        passages_of(*final(g), pos.with_wall(anchor, orientation)),
{
    let edges = severed_by(size, anchor, orientation);
    let ghost n = size as nat;
    let ghost start = graph_edges(*g);
    let mut i: usize = 0;
    while i < edges.len()
        invariant
            i <= edges.len(),
            n == size,
            size <= MAX_SIZE,
            edges@ == wall_edges(n, anchor, orientation),
            forall|j: int|
                0 <= j < edges.len() ==> on_board(n, (#[trigger] edges[j]).0) && on_board(n, edges[j].1),
            nodes_are_cells(n, graph_nodes(*g)),
            edges_are_simple(graph_nodes(*g).len(), graph_edges(*g)),
            forall|x: usize, y: usize|
                #[trigger] linked(graph_edges(*g), x, y) <==> (linked(start, x, y) && !cut_among(
                    n,
                    edges@,
                    i as int,
                    x,
                    y,
                )),
        decreases edges.len() - i,
    {
        let (a, b) = edges[i];
        let ghost before = graph_edges(*g);
        sever(g, size, a, b);
        proof {
            assert forall|x: usize, y: usize|
                #[trigger] linked(graph_edges(*g), x, y) <==> (linked(start, x, y) && !cut_among(
                    n,
                    edges@,
                    i + 1,
                    x,
                    y,
                )) by {
                lemma_cut_among_step(n, edges@, i as int, x, y);
                assert(linked(before, x, y) <==> (linked(start, x, y) && !cut_among(n, edges@, i as int, x, y)));
            }
        }
        i = i + 1;
    }
    proof {
        let after = pos.with_wall(anchor, orientation);
        let nodes = graph_nodes(*g);
        assert forall|a: Coord, b: Coord| on_board(n, a) && on_board(n, b) implies (#[trigger] linked(
            graph_edges(*g),
            node_of(n, a),
            node_of(n, b),
        ) <==> after.open(a, b)) by {
            let x = node_of(n, a);
            let y = node_of(n, b);
            lemma_with_wall_open(pos, anchor, orientation, a, b);
            assert(linked(start, x, y) <==> pos.open(a, b));
            assert(nodes[x as int] == a && nodes[y as int] == b);
            if wall_cuts(n, anchor, orientation, a, b) {
                let j = choose|j: int| 0 <= j < edges.len() && (#[trigger] edges[j] == (a, b) || edges[j] == (b, a));
                assert(joins((node_of(n, edges[j].0), node_of(n, edges[j].1)), x, y));
            }
            if cut_among(n, edges@, edges.len() as int, x, y) {
                let j = choose|j: int|
                    0 <= j < edges.len() && joins((node_of(n, (#[trigger] edges@[j]).0), node_of(n, edges@[j].1)), x,
                        y);
                let p = edges[j].0;
                let q = edges[j].1;
                assert(nodes[node_of(n, p) as int] == p && nodes[node_of(n, q) as int] == q);
                assert(edges[j] == (a, b) || edges[j] == (b, a));
            }
        }
    }
}


/// The graph nodes along a path of cells.
spec fn walk_of(n: nat, path: Seq<Coord>) -> Seq<usize> {
    Seq::new(path.len(), |i: int| node_of(n, path[i]))
}

/// The cells along a walk through the graph.
spec fn path_of(nodes: Seq<Coord>, walk: Seq<usize>) -> Seq<Coord> {
    Seq::new(walk.len(), |i: int| nodes[walk[i] as int])
}

/// A path of cells is a walk through the nodes that stand for them.
proof fn lemma_path_to_walk(g: UnGraph<(usize, usize), ()>, pos: Position, path: Seq<Coord>)
    requires
        passages_of(g, pos),
        pos.is_path(path),
    ensures
        is_walk(graph_edges(g), walk_of(pos.size, path)),
        walk_of(pos.size, path).len() == path.len(),
        walk_of(pos.size, path)[0] == node_of(pos.size, path[0]),
        walk_of(pos.size, path)[path.len() - 1] == node_of(pos.size, path[path.len() - 1]),
{
    let walk = walk_of(pos.size, path);
    assert forall|i: int| 0 <= i < walk.len() - 1 implies linked(graph_edges(g), #[trigger] walk[i], walk[i + 1]) by {
        assert(pos.open(path[i], path[i + 1]));
        assert(linked(graph_edges(g), node_of(pos.size, path[i]), node_of(pos.size, path[i + 1])));
    }
}

/// A walk that starts at a node never leaves the nodes.
proof fn lemma_walk_in_range(count: nat, edges: Seq<(usize, usize)>, walk: Seq<usize>, i: int)
    requires
        edges_are_simple(count, edges),
        is_walk(edges, walk),
        walk[0] < count,
        0 <= i < walk.len(),
    ensures
        walk[i] < count,
    decreases i,
{
    if i > 0 {
        lemma_walk_in_range(count, edges, walk, i - 1);
        assert(linked(edges, walk[i - 1], walk[i - 1 + 1]));
        let k = choose|k: int| 0 <= k < edges.len() && joins(#[trigger] edges[k], walk[i - 1], walk[i]);
        assert(edges[k].0 < count && edges[k].1 < count);
    }
}

/// A walk that starts at the node of a cell is a path of cells.
proof fn lemma_walk_to_path(g: UnGraph<(usize, usize), ()>, pos: Position, walk: Seq<usize>, from: Coord)
    requires
        passages_of(g, pos),
        is_walk(graph_edges(g), walk),
        on_board(pos.size, from),
        walk[0] == node_of(pos.size, from),
    ensures
        pos.is_path(path_of(graph_nodes(g), walk)),
        path_of(graph_nodes(g), walk).len() == walk.len(),
        path_of(graph_nodes(g), walk)[0] == from,
        forall|i: int|
            0 <= i < walk.len() ==> (#[trigger] walk[i]) < graph_nodes(g).len() && node_of(
                pos.size,
                path_of(graph_nodes(g), walk)[i],
            ) == walk[i],
{
    let nodes = graph_nodes(g);
    let edges = graph_edges(g);
    let path = path_of(nodes, walk);
    assert(nodes[node_of(pos.size, from) as int] == from);
    assert forall|i: int| 0 <= i < walk.len() implies (#[trigger] walk[i]) < nodes.len() && node_of(
        pos.size,
        path[i],
    ) == walk[i] && on_board(pos.size, path[i]) by {
        lemma_walk_in_range(nodes.len(), edges, walk, i);
        assert(on_board(pos.size, nodes[walk[i] as int]));
    }
    assert forall|i: int| 0 <= i < path.len() - 1 implies pos.open(#[trigger] path[i], path[i + 1]) by {
        assert(linked(edges, walk[i], walk[i + 1]));
        assert(walk[i + 1] < nodes.len());
        assert(linked(edges, node_of(pos.size, path[i]), node_of(pos.size, path[i + 1])));
    }
}

/// A pawn can walk from `a` to `b` exactly when the graph has a walk between
/// their nodes.
proof fn lemma_connected(g: UnGraph<(usize, usize), ()>, pos: Position, a: Coord, b: Coord)
    requires
        passages_of(g, pos),
        on_board(pos.size, a),
        on_board(pos.size, b),
    ensures
        pos.connected(a, b) <==> reachable(graph_edges(g), node_of(pos.size, a), node_of(pos.size, b)),
{
    let n = pos.size;
    if pos.connected(a, b) {
        let path = choose|path: Seq<Coord>| pos.path_between(path, a, b);
        lemma_path_to_walk(g, pos, path);
        assert(walk_between(graph_edges(g), walk_of(n, path), node_of(n, a), node_of(n, b)));
    }
    if reachable(graph_edges(g), node_of(n, a), node_of(n, b)) {
        let walk = choose|walk: Seq<usize>| walk_between(graph_edges(g), walk, node_of(n, a), node_of(n, b));
        lemma_walk_to_path(g, pos, walk, a);
        let path = path_of(graph_nodes(g), walk);
        assert(walk[walk.len() - 1] < graph_nodes(g).len());
        assert(graph_nodes(g)[node_of(n, b) as int] == b);
        assert(pos.path_between(path, a, b));
    }
}

/// A path to a row ends in a cell of that row.
proof fn lemma_row_cell(pos: Position, path: Seq<Coord>, from: Coord, row: nat)
    requires
        pos.path_to_row(path, from, row),
    ensures
        on_board(pos.size, path[path.len() - 1]),
        path[path.len() - 1].0 == row,
        pos.path_between(path, from, path[path.len() - 1]),
{
    lemma_path_cells_on_board(pos, path, path.len() - 1);
}

/// Whether the passage between two cells is open.
pub(crate) fn is_open(
    g: &UnGraph<(usize, usize), ()>,
    size: usize,
    a: Coord,
    b: Coord,
    Ghost(pos): Ghost<Position>,
) -> (open: bool)
    requires
        passages_of(*g, pos),
        pos.size == size,
        on_board(size as nat, a),
        on_board(size as nat, b),
    ensures
        open == pos.open(a, b),
{
    let from = node_index(size, a);
    let to = node_index(size, b);
    proof {
        lemma_node_of(size as nat, a);
        lemma_node_of(size as nat, b);
    }
    contains_edge(g, from, to)
}

/// The cells to which `cell` has an open passage.
pub(crate) fn open_neighbours(
    g: &UnGraph<(usize, usize), ()>,
    size: usize,
    cell: Coord,
    Ghost(pos): Ghost<Position>,
) -> (cells: Vec<Coord>)
    requires
        passages_of(*g, pos),
        pos.size == size,
        on_board(size as nat, cell),
    ensures
        forall|c: Coord| cells@.contains(c) <==> pos.open(cell, c),
{
    let here = node_index(size, cell);
    proof {
        lemma_node_of(size as nat, cell);
    }
    let ghost n = size as nat;
    let ghost nodes = graph_nodes(*g);
    let ghost edges = graph_edges(*g);
    let around = neighbors(g, here);
    let mut cells: Vec<Coord> = Vec::new();
    let mut i: usize = 0;
    assert(nodes.len() <= 81);
    while i < around.len()
        invariant
            i <= around.len(),
            nodes.len() <= 81,
            n == size,
            pos.size == size,
            nodes == graph_nodes(*g),
            edges == graph_edges(*g),
            passages_of(*g, pos),
            here == node_of(n, cell),
            on_board(n, cell),
            forall|b: usize| around@.contains(b) <==> linked(edges, here, b),
            cells.len() == i,
            forall|j: int| 0 <= j < i ==> (#[trigger] around[j]) < nodes.len() && cells[j] == nodes[around[j] as int],
        decreases around.len() - i,
    {
        let node = around[i];
        proof {
            assert(around@.contains(node));
            let k = choose|k: int| 0 <= k < edges.len() && joins(#[trigger] edges[k], here, node);
            assert(edges[k].0 < nodes.len() && edges[k].1 < nodes.len());
        }
        let c = node_weight(g, node);
        cells.push(c);
        i = i + 1;
    }
    proof {
        assert forall|c: Coord| cells@.contains(c) <==> pos.open(cell, c) by {
            if cells@.contains(c) {
                let j = choose|j: int| 0 <= j < cells.len() && cells[j] == c;
                assert(around@.contains(around[j]));
                assert(on_board(n, nodes[around[j] as int]));
                assert(linked(edges, node_of(n, cell), node_of(n, c)));
            }
            if pos.open(cell, c) {
                assert(linked(edges, node_of(n, cell), node_of(n, c)));
                assert(around@.contains(node_of(n, c)));
                let j = choose|j: int| 0 <= j < around.len() && around[j] == node_of(n, c);
                assert(cells[j] == nodes[around[j] as int]);
                assert(cells[j] == c);
            }
        }
    }
    cells
}

/// Whether a pawn on `from` can walk to `to`.
pub(crate) fn cell_reachable(
    g: &UnGraph<(usize, usize), ()>,
    size: usize,
    from: Coord,
    to: Coord,
    Ghost(pos): Ghost<Position>,
) -> (found: bool)
    requires
        passages_of(*g, pos),
        pos.size == size,
        on_board(size as nat, from),
        on_board(size as nat, to),
    ensures
        found == pos.connected(from, to),
{
    let a = node_index(size, from);
    let b = node_index(size, to);
    proof {
        lemma_node_of(size as nat, from);
        lemma_node_of(size as nat, to);
        lemma_connected(*g, pos, from, to);
    }
    has_path(g, a, b)
}

/// Whether a pawn on `from` can walk to some cell of row `row`.
pub(crate) fn row_reachable(
    g: &UnGraph<(usize, usize), ()>,
    size: usize,
    from: Coord,
    row: usize,
    Ghost(pos): Ghost<Position>,
) -> (found: bool)
    requires
        passages_of(*g, pos),
        pos.size == size,
        on_board(size as nat, from),
        row < size,
    ensures
        found == pos.reaches_row(from, row as nat),
{
    let mut col: usize = 0;
    while col < size
        invariant
            col <= size,
            row < size,
            pos.size == size,
            passages_of(*g, pos),
            on_board(size as nat, from),
            forall|c: usize| c < col ==> !#[trigger] pos.connected(from, (row, c)),
        decreases size - col,
    {
        if cell_reachable(g, size, from, (row, col), Ghost(pos)) {
            proof {
                let path = choose|path: Seq<Coord>| pos.path_between(path, from, (row, col));
                assert(pos.path_to_row(path, from, row as nat));
            }
            return true;
        }
        col = col + 1;
    }
    proof {
        if pos.reaches_row(from, row as nat) {
            let path = choose|path: Seq<Coord>| pos.path_to_row(path, from, row as nat);
            lemma_row_cell(pos, path, from, row as nat);
            let last = path[path.len() - 1];
            assert(last == (row, last.1));
            assert(pos.connected(from, (row, last.1)));
        }
    }
    false
}

/// The length of a shortest way from `from` to row `row`, or `UNREACHABLE`
/// when there is none.
pub(crate) fn row_distance(
    g: &UnGraph<(usize, usize), ()>,
    size: usize,
    from: Coord,
    row: usize,
    Ghost(pos): Ghost<Position>,
) -> (steps: usize)
    requires
        passages_of(*g, pos),
        pos.size == size,
        on_board(size as nat, from),
        row < size,
    ensures
        pos.reaches_row(from, row as nat) ==> pos.is_row_distance(from, row as nat, steps as nat),
        !pos.reaches_row(from, row as nat) ==> steps == UNREACHABLE,
{
    broadcast use vstd::std_specs::hash::group_hash_axioms;

    let start = node_index(size, from);
    proof {
        lemma_node_of(size as nat, from);
    }
    let ghost n = size as nat;
    let ghost edges = graph_edges(*g);
    let distances = shortest_distances(g, start);
    let mut best: Option<usize> = None;
    let mut col: usize = 0;
    while col < size
        invariant
            col <= size,
            row < size,
            n == size,
            pos.size == size,
            size <= MAX_SIZE,
            best is None ==> forall|c: usize| c < col ==> !distances@.contains_key(#[trigger] node_of(n, (row, c))),
            best is Some ==> exists|c: usize|
                c < col && distances@.contains_key(#[trigger] node_of(n, (row, c))) && distances@[node_of(n, (row, c))]
                    == best->0,
            best is Some ==> forall|c: usize|
                c < col && distances@.contains_key(#[trigger] node_of(n, (row, c))) ==> distances@[node_of(
                    n,
                    (row, c),
                )] >= best->0,
        decreases size - col,
    {
        let node = node_index(size, (row, col));
        match distances.get(&node) {
            Some(d) => {
                let closer = match best {
                    Some(b) => *d < b,
                    None => true,
                };
                if closer {
                    best = Some(*d);
                }
            },
            None => {},
        }
        col = col + 1;
    }
    proof {
        assert forall|c: usize| c < size implies (distances@.contains_key(#[trigger] node_of(n, (row, c)))
            <==> pos.connected(from, (row, c))) by {
            lemma_connected(*g, pos, from, (row, c));
        }
        if pos.reaches_row(from, row as nat) {
            let path = choose|path: Seq<Coord>| pos.path_to_row(path, from, row as nat);
            lemma_row_cell(pos, path, from, row as nat);
            let last = path[path.len() - 1];
            assert(last == (row, last.1));
            assert(pos.connected(from, (row, last.1)));
            assert(distances@.contains_key(node_of(n, (row, last.1))));
            assert(best is Some);
        }
        if best is Some {
            let d = best->0;
            let c = choose|c: usize|
                c < size && distances@.contains_key(#[trigger] node_of(n, (row, c))) && distances@[node_of(n, (row, c))]
                    == d;
            let target = node_of(n, (row, c));
            assert(is_distance(edges, start, target, d as nat));
            let walk = choose|walk: Seq<usize>| walk_between(edges, walk, start, target) && walk.len() == d + 1;
            lemma_walk_to_path(*g, pos, walk, from);
            lemma_node_of(n, (row, c));
            let path = path_of(graph_nodes(*g), walk);
            assert(graph_nodes(*g)[target as int] == (row, c));
            assert(pos.path_to_row(path, from, row as nat) && path.len() == d + 1);
            assert forall|other: Seq<Coord>| pos.path_to_row(other, from, row as nat) implies other.len() >= d + 1 by {
                lemma_row_cell(pos, other, from, row as nat);
                let last = other[other.len() - 1];
                assert(last == (row, last.1));
                lemma_path_to_walk(*g, pos, other);
                let w = walk_of(n, other);
                let t = node_of(n, (row, last.1));
                assert(walk_between(edges, w, start, t));
                assert(distances@.contains_key(t));
                assert(is_distance(edges, start, t, distances@[t] as nat));
            }
        } else {
            assert(!pos.reaches_row(from, row as nat));
        }
    }
    match best {
        Some(d) => d,
        None => UNREACHABLE,
    }
}

} // verus!
