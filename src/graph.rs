use crate::cell::Cell;
use vstd::prelude::*;

verus! {

/// A vertex of the maze graph, as `(row, column)` in vertex coordinates.
/// Vertex `(r, c)` is drawn at cell `(2 * r, 2 * c)` of the grid.
pub type Vtx = (usize, usize);

/// A directed edge `(from, to)` between two vertices.
pub type Edge = (Vtx, Vtx);

pub open spec fn in_grid(hh: int, hw: int, v: Vtx) -> bool {
    v.0 < hh && v.1 < hw
}

/// The two vertices differ by one in exactly one coordinate.
pub open spec fn adjacent(a: Vtx, b: Vtx) -> bool {
    (a.0 == b.0 && (a.1 + 1 == b.1 || b.1 + 1 == a.1)) || (a.1 == b.1 && (a.0 + 1 == b.0 || b.0
        + 1 == a.0))
}

pub open spec fn valid_edge(hh: int, hw: int, e: Edge) -> bool {
    in_grid(hh, hw, e.0) && in_grid(hh, hw, e.1) && adjacent(e.0, e.1)
}

/// Which of the four neighbours of `e.0` the edge leads to: up, down, left, right.
pub open spec fn dir(e: Edge) -> int {
    if e.1.0 + 1 == e.0.0 {
        0
    } else if e.0.0 + 1 == e.1.0 {
        1
    } else if e.1.1 + 1 == e.0.1 {
        2
    } else {
        3
    }
}

/// The set of all vertices of a `hh` by `hw` vertex grid.
pub open spec fn vertices(hh: int, hw: int) -> Set<Vtx> {
    Set::new(|v: Vtx| in_grid(hh, hw, v))
}

/// Two adjacent vertices are linked when the grid cell between them is passable.
pub open spec fn linked(g: Seq<Vec<Cell>>, a: Vtx, b: Vtx) -> bool {
    adjacent(a, b) && g[a.0 + b.0]@[a.1 + b.1] != Cell::Wall
}

pub open spec fn link_at(g: Seq<Vec<Cell>>, p: Seq<Vtx>, i: int) -> bool {
    linked(g, p[i], p[i + 1])
}

/// `p` is a walk through the grid that only crosses passable cells.
pub open spec fn is_path(g: Seq<Vec<Cell>>, hh: int, hw: int, p: Seq<Vtx>) -> bool {
    &&& p.len() > 0
    &&& forall|i: int| 0 <= i < p.len() ==> in_grid(hh, hw, #[trigger] p[i])
    &&& forall|i: int| 0 <= i < p.len() - 1 ==> #[trigger] link_at(g, p, i)
}

/// Some walk through passable cells leads from `a` to `b`.
pub open spec fn joined(g: Seq<Vec<Cell>>, hh: int, hw: int, a: Vtx, b: Vtx) -> bool {
    exists|p: Seq<Vtx>| #[trigger] is_path(g, hh, hw, p) && p[0] == a && p.last() == b
}

/// Every cell that is passable in `g1` is passable in `g2`.
pub open spec fn opens_up(g1: Seq<Vec<Cell>>, g2: Seq<Vec<Cell>>) -> bool {
    &&& g1.len() == g2.len()
    &&& forall|i: int| 0 <= i < g1.len() ==> (#[trigger] g1[i])@.len() == g2[i]@.len()
    &&& forall|i: int, j: int|
        0 <= i < g1.len() && 0 <= j < g1[i]@.len() && g1[i]@[j] != Cell::Wall ==> #[trigger] g2[i]@[j]
            != Cell::Wall
}

pub proof fn lemma_joined_refl(g: Seq<Vec<Cell>>, hh: int, hw: int, a: Vtx)
    requires
        in_grid(hh, hw, a),
    ensures
        joined(g, hh, hw, a, a),
{
    let p = seq![a];
    assert(is_path(g, hh, hw, p));
}

pub proof fn lemma_joined_extend(g: Seq<Vec<Cell>>, hh: int, hw: int, a: Vtx, b: Vtx, c: Vtx)
    requires
        joined(g, hh, hw, a, b),
        in_grid(hh, hw, c),
        linked(g, b, c),
    ensures
        joined(g, hh, hw, a, c),
{
    let p = choose|p: Seq<Vtx>| #[trigger] is_path(g, hh, hw, p) && p[0] == a && p.last() == b;
    let q = p.push(c);
    assert forall|i: int| 0 <= i < q.len() - 1 implies #[trigger] link_at(g, q, i) by {
        if i < p.len() - 1 {
            assert(link_at(g, p, i));
        }
    }
    assert forall|i: int| 0 <= i < q.len() implies in_grid(hh, hw, #[trigger] q[i]) by {
        if i < p.len() {
            assert(in_grid(hh, hw, p[i]));
        }
    }
    assert(is_path(g, hh, hw, q));
}

pub proof fn lemma_joined_sym(g: Seq<Vec<Cell>>, hh: int, hw: int, a: Vtx, b: Vtx)
    requires
        joined(g, hh, hw, a, b),
    ensures
        joined(g, hh, hw, b, a),
{
    let p = choose|p: Seq<Vtx>| #[trigger] is_path(g, hh, hw, p) && p[0] == a && p.last() == b;
    let n = p.len() as int;
    let q = Seq::new(n as nat, |i: int| p[n - 1 - i]);
    assert forall|i: int| 0 <= i < q.len() - 1 implies #[trigger] link_at(g, q, i) by {
        assert(link_at(g, p, n - 2 - i));
        assert(q[i] == p[n - 1 - i]);
        assert(q[i + 1] == p[n - 2 - i]);
    }
    assert forall|i: int| 0 <= i < q.len() implies in_grid(hh, hw, #[trigger] q[i]) by {
        assert(in_grid(hh, hw, p[n - 1 - i]));
    }
    assert(is_path(g, hh, hw, q));
}

pub proof fn lemma_joined_trans(g: Seq<Vec<Cell>>, hh: int, hw: int, a: Vtx, b: Vtx, c: Vtx)
    requires
        joined(g, hh, hw, a, b),
        joined(g, hh, hw, b, c),
    ensures
        joined(g, hh, hw, a, c),
{
    let p = choose|p: Seq<Vtx>| #[trigger] is_path(g, hh, hw, p) && p[0] == a && p.last() == b;
    let q = choose|q: Seq<Vtx>| #[trigger] is_path(g, hh, hw, q) && q[0] == b && q.last() == c;
    let n = p.len() as int;
    let r = p + q.subrange(1, q.len() as int);
    assert forall|i: int| 0 <= i < r.len() - 1 implies #[trigger] link_at(g, r, i) by {
        if i < n - 1 {
            assert(link_at(g, p, i));
        } else {
            assert(link_at(g, q, i - n + 1));
        }
    }
    assert forall|i: int| 0 <= i < r.len() implies in_grid(hh, hw, #[trigger] r[i]) by {
        if i < n {
            assert(in_grid(hh, hw, p[i]));
        } else {
            assert(in_grid(hh, hw, q[i - n + 1]));
        }
    }
    assert(is_path(g, hh, hw, r));
}

/// Opening more cells keeps every walk.
pub proof fn lemma_joined_grow(
    g1: Seq<Vec<Cell>>,
    g2: Seq<Vec<Cell>>,
    hh: int,
    hw: int,
    a: Vtx,
    b: Vtx,
)
    requires
        joined(g1, hh, hw, a, b),
        opens_up(g1, g2),
        g1.len() == 2 * hh - 1,
        forall|i: int| 0 <= i < g1.len() ==> (#[trigger] g1[i])@.len() == 2 * hw - 1,
    ensures
        joined(g2, hh, hw, a, b),
{
    let p = choose|p: Seq<Vtx>| #[trigger] is_path(g1, hh, hw, p) && p[0] == a && p.last() == b;
    assert forall|i: int| 0 <= i < p.len() - 1 implies #[trigger] link_at(g2, p, i) by {
        assert(link_at(g1, p, i));
        assert(in_grid(hh, hw, p[i]));
        assert(in_grid(hh, hw, p[i + 1]));
        let x = p[i].0 + p[i + 1].0;
        let y = p[i].1 + p[i + 1].1;
        assert(g1[x]@.len() == 2 * hw - 1);
        assert(g2[x]@[y] != Cell::Wall);
    }
    assert(is_path(g2, hh, hw, p));
}

/// A property of vertices that passes along every grid adjacency and holds at
/// the corner `(0, 0)` holds everywhere.
pub proof fn lemma_spreads(hh: int, hw: int, prop: spec_fn(Vtx) -> bool, v: Vtx)
    requires
        in_grid(hh, hw, v),
        prop((0, 0)),
        forall|a: Vtx, b: Vtx|
            in_grid(hh, hw, a) && in_grid(hh, hw, b) && #[trigger] adjacent(a, b) && prop(a)
                ==> prop(b),
    ensures
        prop(v),
    decreases v.0 + v.1,
{
    if v.0 > 0 {
        let u: Vtx = ((v.0 - 1) as usize, v.1);
        lemma_spreads(hh, hw, prop, u);
        assert(adjacent(u, v));
    } else if v.1 > 0 {
        let u: Vtx = (v.0, (v.1 - 1) as usize);
        lemma_spreads(hh, hw, prop, u);
        assert(adjacent(u, v));
    }
}

proof fn lemma_row_finite(r: usize, hw: int)
    ensures
        Set::new(|v: Vtx| v.0 == r && v.1 < hw).finite(),
    decreases hw,
{
    let s = Set::new(|v: Vtx| v.0 == r && v.1 < hw);
    if hw <= 0 {
        assert(s =~= Set::empty());
    } else {
        lemma_row_finite(r, hw - 1);
        let t = Set::new(|v: Vtx| v.0 == r && v.1 < hw - 1);
        assert(s =~= t.insert((r, (hw - 1) as usize)));
    }
}

pub proof fn lemma_vertices_finite(hh: int, hw: int)
    ensures
        vertices(hh, hw).finite(),
    decreases hh,
{
    if hh <= 0 {
        assert(vertices(hh, hw) =~= Set::empty());
    } else {
        lemma_vertices_finite(hh - 1, hw);
        lemma_row_finite((hh - 1) as usize, hw);
        let row = Set::new(|v: Vtx| v.0 == (hh - 1) as usize && v.1 < hw);
        assert(vertices(hh, hw) =~= vertices(hh - 1, hw).union(row));
    }
}

/// Step `i` of the walk `p` is open and does not pass through the cell `cut`.
pub open spec fn link_avoids(g: Seq<Vec<Cell>>, p: Seq<Vtx>, i: int, cut: (int, int)) -> bool {
    link_at(g, p, i) && (p[i].0 + p[i + 1].0, p[i].1 + p[i + 1].1) != cut
}

/// `p` is a walk through open cells that never passes through `cut`.
pub open spec fn is_path_avoiding(
    g: Seq<Vec<Cell>>,
    hh: int,
    hw: int,
    p: Seq<Vtx>,
    cut: (int, int),
) -> bool {
    &&& p.len() > 0
    &&& forall|i: int| 0 <= i < p.len() ==> in_grid(hh, hw, #[trigger] p[i])
    &&& forall|i: int| 0 <= i < p.len() - 1 ==> #[trigger] link_avoids(g, p, i, cut)
}

/// Some walk from `a` to `b` through open cells avoids the cell `cut`.
pub open spec fn joined_avoiding(
    g: Seq<Vec<Cell>>,
    hh: int,
    hw: int,
    a: Vtx,
    b: Vtx,
    cut: (int, int),
) -> bool {
    exists|p: Seq<Vtx>| #[trigger]
        is_path_avoiding(g, hh, hw, p, cut) && p[0] == a && p.last() == b
}

/// No open link other than the one through `cut` leads out of `s`.
pub open spec fn closed_except(
    g: Seq<Vec<Cell>>,
    hh: int,
    hw: int,
    s: Set<Vtx>,
    cut: (int, int),
) -> bool {
    forall|x: Vtx, y: Vtx|
        in_grid(hh, hw, x) && in_grid(hh, hw, y) && #[trigger] linked(g, x, y) && (x.0 + y.0, x.1
            + y.1) != cut && s.contains(x) ==> s.contains(y)
}

proof fn lemma_walk_stays(
    g: Seq<Vec<Cell>>,
    hh: int,
    hw: int,
    s: Set<Vtx>,
    cut: (int, int),
    p: Seq<Vtx>,
    i: int,
)
    requires
        closed_except(g, hh, hw, s, cut),
        is_path_avoiding(g, hh, hw, p, cut),
        s.contains(p[0]),
        0 <= i < p.len(),
    ensures
        s.contains(p[i]),
    decreases i,
{
    if i > 0 {
        lemma_walk_stays(g, hh, hw, s, cut, p, i - 1);
        assert(link_avoids(g, p, i - 1, cut));
        assert(in_grid(hh, hw, p[i - 1]));
        assert(in_grid(hh, hw, p[i]));
    }
}

/// A set that no walk avoiding `cut` can leave separates its members from
/// the vertices outside it.
pub proof fn lemma_separated(
    g: Seq<Vec<Cell>>,
    hh: int,
    hw: int,
    s: Set<Vtx>,
    cut: (int, int),
    a: Vtx,
    b: Vtx,
)
    requires
        closed_except(g, hh, hw, s, cut),
        s.contains(a),
        !s.contains(b),
    ensures
        !joined_avoiding(g, hh, hw, a, b, cut),
{
    if joined_avoiding(g, hh, hw, a, b, cut) {
        let p = choose|p: Seq<Vtx>| #[trigger]
            is_path_avoiding(g, hh, hw, p, cut) && p[0] == a && p.last() == b;
        lemma_walk_stays(g, hh, hw, s, cut, p, p.len() - 1);
    }
}

} // verus!
