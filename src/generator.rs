use crate::cell::Cell;
use crate::graph::{
    adjacent, closed_except, in_grid, joined, joined_avoiding, lemma_joined_extend,
    lemma_joined_grow, lemma_joined_refl, lemma_joined_sym, lemma_joined_trans, lemma_separated,
    lemma_spreads, lemma_vertices_finite, linked, opens_up, valid_edge, vertices, Edge, Vtx,
};
use crate::maze::{edge_cell, ends, Maze, MazeError};
use crate::vec_set::VecSet;
use vstd::prelude::*;
use vstd::set_lib::lemma_len_subset;

verus! {

/// What the generator knows of a vertex: unseen, or seen from the start
/// (`Some(true)`) or from the goal (`Some(false)`).
spec fn color(s: Seq<Vec<Option<bool>>>, v: Vtx) -> Option<bool> {
    s[v.0 as int]@[v.1 as int]
}

/// The vertex that the tree of a color grows from.
spec fn root(b: bool, hh: int, hw: int) -> Vtx {
    if b {
        (0usize, 0usize)
    } else {
        ((hh - 1) as usize, (hw - 1) as usize)
    }
}

/// The tag of a grid cell before the cursor and goal are placed, given the
/// open passages.
spec fn shape(passages: Set<(int, int)>, i: int, j: int) -> Cell {
    if i % 2 == 0 && j % 2 == 0 {
        Cell::Empty
    } else if passages.contains((i, j)) {
        Cell::Empty
    } else {
        Cell::Wall
    }
}

/// The cell between two adjacent vertices.
spec fn mid(u: Vtx, w: Vtx) -> (int, int) {
    (u.0 + w.0, u.1 + w.1)
}


/// An open passage joins two seen vertices, of one color until the trees
/// have met.
spec fn passage_ok(s: Seq<Vec<Option<bool>>>, crossed: bool, h: int, w: int, p: (int, int)) -> bool {
    &&& 0 <= p.0 < h
    &&& 0 <= p.1 < w
    &&& edge_cell(p.0, p.1)
    &&& in_grid((h + 1) / 2, (w + 1) / 2, ends(p).0)
    &&& in_grid((h + 1) / 2, (w + 1) / 2, ends(p).1)
    &&& color(s, ends(p).0) is Some
    &&& color(s, ends(p).1) is Some
    &&& !crossed ==> color(s, ends(p).0) == color(s, ends(p).1)
}

/// The seen vertices of one color.
spec fn tree(s: Seq<Vec<Option<bool>>>, hh: int, hw: int, c: bool) -> Set<Vtx> {
    Set::new(|v: Vtx| in_grid(hh, hw, v) && color(s, v) == Some(c))
}

/// `side` holds seen vertices (of the color of `p` until the trees meet),
/// exactly one of the two ends of the passage `p`, and no open link other
/// than `p` leads out of it: `p` is the only way between its two ends.
spec fn side_ok(
    g: Seq<Vec<Cell>>,
    hh: int,
    hw: int,
    s: Seq<Vec<Option<bool>>>,
    crossed: bool,
    side: Set<Vtx>,
    p: (int, int),
) -> bool {
    &&& forall|v: Vtx| #[trigger]
        side.contains(v) ==> in_grid(hh, hw, v) && color(s, v) is Some && (!crossed ==> color(s, v)
            == color(s, ends(p).0))
    &&& side.contains(ends(p).0) != side.contains(ends(p).1)
    &&& closed_except(g, hh, hw, side, p)
}

/// Every open link joins two seen vertices, of one color until the trees meet.
spec fn links_colored(
    g: Seq<Vec<Cell>>,
    s: Seq<Vec<Option<bool>>>,
    hh: int,
    hw: int,
    crossed: bool,
) -> bool {
    forall|x: Vtx, y: Vtx|
        in_grid(hh, hw, x) && in_grid(hh, hw, y) && #[trigger] linked(g, x, y) ==> color(s, x) is Some
            && color(s, y) is Some && (!crossed ==> color(s, x) == color(s, y))
}

/// `g1` has the links of `g0` and the one between `u` and `w`.
spec fn opened_one(g0: Seq<Vec<Cell>>, g1: Seq<Vec<Cell>>, hh: int, hw: int, u: Vtx, w: Vtx) -> bool {
    forall|x: Vtx, y: Vtx|
        in_grid(hh, hw, x) && in_grid(hh, hw, y) ==> (#[trigger] linked(g1, x, y) <==> (linked(
            g0,
            x,
            y,
        ) || (x == u && y == w) || (x == w && y == u)))
}

/// Opening the way to an unseen vertex `w` keeps `p` a bridge once `w`
/// joins the side that `u` is on.
proof fn lemma_side_after_new_vertex(
    g0: Seq<Vec<Cell>>,
    g1: Seq<Vec<Cell>>,
    s0: Seq<Vec<Option<bool>>>,
    s1: Seq<Vec<Option<bool>>>,
    crossed: bool,
    hh: int,
    hw: int,
    u: Vtx,
    w: Vtx,
    side: Set<Vtx>,
    p: (int, int),
)
    requires
        links_colored(g0, s0, hh, hw, crossed),
        opened_one(g0, g1, hh, hw, u, w),
        valid_edge(hh, hw, (u, w)),
        color(s0, u) is Some,
        color(s0, w) is None,
        forall|v: Vtx|
            in_grid(hh, hw, v) ==> #[trigger] color(s1, v) == if v == w {
                color(s0, u)
            } else {
                color(s0, v)
            },
        side_ok(g0, hh, hw, s0, crossed, side, p),
        in_grid(hh, hw, ends(p).0),
        in_grid(hh, hw, ends(p).1),
        color(s0, ends(p).0) is Some,
        color(s0, ends(p).1) is Some,
        p != mid(u, w),
    ensures
        side_ok(
            g1,
            hh,
            hw,
            s1,
            crossed,
            if side.contains(u) {
                side.insert(w)
            } else {
                side
            },
            p,
        ),
{
    let s2 = if side.contains(u) {
        side.insert(w)
    } else {
        side
    };
    assert(color(s1, ends(p).0) == color(s0, ends(p).0));
    assert forall|v: Vtx| #[trigger]
        s2.contains(v) implies in_grid(hh, hw, v) && color(s1, v) is Some && (!crossed ==> color(
            s1,
            v,
        ) == color(s1, ends(p).0)) by {
        if v == w {
            assert(side.contains(u));
        } else {
            assert(side.contains(v));
        }
    }
    assert forall|x: Vtx, y: Vtx|
        in_grid(hh, hw, x) && in_grid(hh, hw, y) && #[trigger] linked(g1, x, y) && (x.0 + y.0, x.1
            + y.1) != p && s2.contains(x) implies s2.contains(y) by {
        if (x == u && y == w) || (x == w && y == u) {
            if x == w {
                assert(side.contains(u));
            }
        } else {
            assert(linked(g0, x, y));
            if x != w {
                assert(side.contains(x));
                assert(side.contains(y));
            }
        }
    }
}

/// Opening the seam between the two trees keeps `p` a bridge once the side
/// that holds one end of the seam takes in the whole tree at the other end.
proof fn lemma_side_after_seam(
    g0: Seq<Vec<Cell>>,
    g1: Seq<Vec<Cell>>,
    s: Seq<Vec<Option<bool>>>,
    hh: int,
    hw: int,
    u: Vtx,
    w: Vtx,
    side: Set<Vtx>,
    p: (int, int),
)
    requires
        links_colored(g0, s, hh, hw, false),
        opened_one(g0, g1, hh, hw, u, w),
        valid_edge(hh, hw, (u, w)),
        color(s, u) is Some,
        color(s, w) is Some,
        color(s, u) != color(s, w),
        side_ok(g0, hh, hw, s, false, side, p),
        color(s, ends(p).0) is Some,
        color(s, ends(p).0) == color(s, ends(p).1),
        p != mid(u, w),
    ensures
        side_ok(
            g1,
            hh,
            hw,
            s,
            true,
            if side.contains(u) {
                side.union(tree(s, hh, hw, color(s, w).unwrap()))
            } else if side.contains(w) {
                side.union(tree(s, hh, hw, color(s, u).unwrap()))
            } else {
                side
            },
            p,
        ),
{
    let tu = tree(s, hh, hw, color(s, u).unwrap());
    let tw = tree(s, hh, hw, color(s, w).unwrap());
    let s2 = if side.contains(u) {
        side.union(tw)
    } else if side.contains(w) {
        side.union(tu)
    } else {
        side
    };
    assert(s2.contains(ends(p).0) != s2.contains(ends(p).1)) by {
        if side.contains(u) {
            assert(!tw.contains(ends(p).0));
            assert(!tw.contains(ends(p).1));
        } else if side.contains(w) {
            assert(!tu.contains(ends(p).0));
            assert(!tu.contains(ends(p).1));
        }
    }
    assert forall|x: Vtx, y: Vtx|
        in_grid(hh, hw, x) && in_grid(hh, hw, y) && #[trigger] linked(g1, x, y) && (x.0 + y.0, x.1
            + y.1) != p && s2.contains(x) implies s2.contains(y) by {
        if (x == u && y == w) || (x == w && y == u) {
            if side.contains(u) {
                assert(tw.contains(w));
            } else if side.contains(w) {
                assert(tu.contains(u));
            }
        } else {
            assert(linked(g0, x, y));
            if side.contains(x) {
                assert(side.contains(y));
            } else {
                assert(color(s, x) == color(s, y));
            }
        }
    }
}

/// A newly opened passage is a bridge: to a new vertex, which has no other
/// link, or across the seam, between two trees that were apart.
proof fn lemma_side_of_new_passage(
    g0: Seq<Vec<Cell>>,
    g1: Seq<Vec<Cell>>,
    s0: Seq<Vec<Option<bool>>>,
    s1: Seq<Vec<Option<bool>>>,
    crossed0: bool,
    crossed1: bool,
    hh: int,
    hw: int,
    u: Vtx,
    w: Vtx,
)
    requires
        links_colored(g0, s0, hh, hw, crossed0),
        opened_one(g0, g1, hh, hw, u, w),
        valid_edge(hh, hw, (u, w)),
        color(s0, u) is Some,
        color(s1, u) == color(s0, u),
        color(s1, w) is Some,
        color(s0, w) is None ==> color(s1, w) == color(s0, u) && crossed1 == crossed0,
        color(s0, w) is Some ==> color(s1, w) == color(s0, w) && color(s0, w) != color(s0, u)
            && !crossed0 && crossed1,
        forall|v: Vtx| in_grid(hh, hw, v) && v != w ==> #[trigger] color(s1, v) == color(s0, v),
    ensures
        side_ok(
            g1,
            hh,
            hw,
            s1,
            crossed1,
            if color(s0, w) is None {
                Set::empty().insert(w)
            } else {
                tree(s0, hh, hw, color(s0, u).unwrap())
            },
            mid(u, w),
        ),
{
    lemma_ends_mid(u, w);
    let p = mid(u, w);
    let side = if color(s0, w) is None {
        Set::empty().insert(w)
    } else {
        tree(s0, hh, hw, color(s0, u).unwrap())
    };
    assert forall|v: Vtx| #[trigger]
        side.contains(v) implies in_grid(hh, hw, v) && color(s1, v) is Some && (!crossed1 ==> color(
            s1,
            v,
        ) == color(s1, ends(p).0)) by {}
    assert forall|x: Vtx, y: Vtx|
        in_grid(hh, hw, x) && in_grid(hh, hw, y) && #[trigger] linked(g1, x, y) && (x.0 + y.0, x.1
            + y.1) != p && side.contains(x) implies side.contains(y) by {
        if (x == u && y == w) || (x == w && y == u) {
        } else {
            assert(linked(g0, x, y));
        }
    }
}

spec fn out_edges(hh: int, hw: int, v: Vtx) -> Set<Edge> {
    Set::new(|e: Edge| e.0 == v && valid_edge(hh, hw, e))
}

proof fn lemma_ends_mid(u: Vtx, w: Vtx)
    requires
        adjacent(u, w),
    ensures
        edge_cell(mid(u, w).0, mid(u, w).1),
        ends(mid(u, w)) == (u, w) || ends(mid(u, w)) == (w, u),
{
}

/// Adds the edges from `v` to each of its neighbours.
fn push_neighbors(frontier: &mut VecSet, v: Vtx, hh: usize, hw: usize)
    requires
        old(frontier).wf(),
        old(frontier).dims() == (hh as int, hw as int),
        in_grid(hh as int, hw as int, v),
    ensures
        final(frontier).wf(),
        final(frontier).dims() == old(frontier).dims(),
        final(frontier).view() == old(frontier).view().union(out_edges(hh as int, hw as int, v)),
        final(frontier).len() <= old(frontier).len() + 4,
{
    let ghost s0 = frontier.view();
    let ghost mut added = Set::<Edge>::empty();
    if v.0 > 0 {
        frontier.insert((v, (v.0 - 1, v.1)));
        proof {
            added = added.insert((v, ((v.0 - 1) as usize, v.1)));
        }
    }
    if v.0 + 1 < hh {
        frontier.insert((v, (v.0 + 1, v.1)));
        proof {
            added = added.insert((v, ((v.0 + 1) as usize, v.1)));
        }
    }
    if v.1 > 0 {
        frontier.insert((v, (v.0, v.1 - 1)));
        proof {
            added = added.insert((v, (v.0, (v.1 - 1) as usize)));
        }
    }
    if v.1 + 1 < hw {
        frontier.insert((v, (v.0, v.1 + 1)));
        proof {
            added = added.insert((v, (v.0, (v.1 + 1) as usize)));
        }
    }
    assert(added =~= out_edges(hh as int, hw as int, v));
    assert(frontier.view() =~= s0.union(out_edges(hh as int, hw as int, v)));
}

/// The grid with every vertex cell open and every other cell a wall.
fn blank_grid(height: usize, width: usize) -> (g: Vec<Vec<Cell>>)
    ensures
        g@.len() == height,
        forall|i: int| 0 <= i < height ==> (#[trigger] g@[i])@.len() == width,
        forall|i: int, j: int|
            0 <= i < height && 0 <= j < width ==> #[trigger] g@[i]@[j] == shape(Set::empty(), i, j),
{
    let mut g: Vec<Vec<Cell>> = Vec::new();
    let mut i: usize = 0;
    while i < height
        invariant
            i <= height,
            g@.len() == i,
            forall|a: int| 0 <= a < i ==> (#[trigger] g@[a])@.len() == width,
            forall|a: int, b: int|
                0 <= a < i && 0 <= b < width ==> #[trigger] g@[a]@[b] == shape(Set::empty(), a, b),
        decreases height - i,
    {
        let mut row: Vec<Cell> = Vec::new();
        let mut j: usize = 0;
        while j < width
            invariant
                i < height,
                j <= width,
                row@.len() == j,
                forall|b: int| 0 <= b < j ==> #[trigger] row@[b] == shape(Set::empty(), i as int, b),
            decreases width - j,
        {
            if i % 2 == 0 && j % 2 == 0 {
                row.push(Cell::Empty);
            } else {
                row.push(Cell::Wall);
            }
            j = j + 1;
        }
        g.push(row);
        i = i + 1;
    }
    g
}

impl Maze {
    /// Builds a maze with `half_height` by `half_width` vertex cells, or
    /// reports `InvalidDimension` when either of them is zero.
    pub fn generate(half_width: usize, half_height: usize) -> (r: Result<Maze, MazeError>)
        requires
            half_width <= usize::MAX / 2 + 1,
            half_height <= usize::MAX / 2 + 1,
        ensures
            (half_width == 0 || half_height == 0) <==> r == Err::<Maze, MazeError>(
                MazeError::InvalidDimension,
            ),
            r is Ok ==> r->Ok_0.generated(half_height as int, half_width as int),
    {
        if half_width == 0 || half_height == 0 {
            Err(MazeError::InvalidDimension)
        } else {
            Ok(Maze::generate_random(half_width, half_height))
        }
    }

    /// Builds a maze with `half_height` by `half_width` vertex cells.
    ///
    /// Two trees grow at once, one from the start vertex `(0, 0)` and one from
    /// the goal vertex in the opposite corner, each by an edge picked at
    /// random from the frontier of candidate edges. The first edge that would
    /// join the two trees is opened, and every later edge that leads to a
    /// vertex already seen is dropped, so the passages end up as one spanning
    /// tree whose start-to-goal path runs through that seam.
    pub fn generate_random(half_width: usize, half_height: usize) -> (m: Maze)
        requires
            1 <= half_width <= usize::MAX / 2 + 1,
            1 <= half_height <= usize::MAX / 2 + 1,
        ensures
            m.generated(half_height as int, half_width as int),
    {
        let hw = half_width;
        let hh = half_height;
        let width = (hw - 1) * 2 + 1;
        let height = (hh - 1) * 2 + 1;
        let mut grid = blank_grid(height, width);
        let ghost verts = vertices(hh as int, hw as int);
        proof {
            lemma_vertices_finite(hh as int, hw as int);
        }
        if hh == 1 && hw == 1 {
            // The one vertex is both start and goal: the maze starts solved.
            grid[0][0] = Cell::Cursor;
            let m = Maze { grid, height, width, cursor: (0, 0), goal: (0, 0) };
            proof {
                assert(m.passages() =~= Set::empty());
                assert(verts =~= Set::empty().insert((0usize, 0usize)));
                assert forall|a: Vtx, b: Vtx|
                    in_grid(1, 1, a) && in_grid(1, 1, b) implies #[trigger] joined(
                    m.grid@,
                    1,
                    1,
                    a,
                    b,
                ) by {
                    lemma_joined_refl(m.grid@, 1, 1, a);
                }
            }
            return m;
        }
        let mut seen: Vec<Vec<Option<bool>>> = vec![vec![None; hw]; hh];
        let mut frontier = VecSet::new(hh, hw);
        let start: Vtx = (0, 0);
        let goal: Vtx = (hh - 1, hw - 1);
        seen[0][0] = Some(true);
        seen[hh - 1][hw - 1] = Some(false);
        push_neighbors(&mut frontier, start, hh, hw);
        push_neighbors(&mut frontier, goal, hh, hw);
        let mut crossed = false;
        let ghost mut passages = Set::<(int, int)>::empty();
        let ghost mut seen_set = Set::<Vtx>::empty().insert(start).insert(goal);
        let ghost mut sides = Map::<(int, int), Set<Vtx>>::empty();
        proof {
            assert forall|x: Vtx, y: Vtx|
                in_grid(hh as int, hw as int, x) && in_grid(hh as int, hw as int, y) && #[trigger] linked(
                    grid@,
                    x,
                    y,
                ) implies false by {
                lemma_ends_mid(x, y);
                assert(grid@[x.0 + y.0]@[x.1 + y.1] == shape(Set::empty(), x.0 + y.0, x.1 + y.1));
            }
            assert forall|v: Vtx| #[trigger]
                seen_set.contains(v) <==> (in_grid(hh as int, hw as int, v) && color(seen@, v) is Some) by {}
            lemma_joined_refl(grid@, hh as int, hw as int, start);
            lemma_joined_refl(grid@, hh as int, hw as int, goal);
            lemma_len_subset(seen_set, verts);
        }
        while !frontier.is_empty()
            invariant
                hh == half_height,
                hw == half_width,
                hh >= 1,
                hw >= 1,
                hh > 1 || hw > 1,
                height == 2 * hh - 1,
                width == 2 * hw - 1,
                start == (0usize, 0usize),
                goal == ((hh - 1) as usize, (hw - 1) as usize),
                verts == vertices(hh as int, hw as int),
                verts.finite(),
                grid@.len() == height,
                forall|i: int| 0 <= i < height ==> (#[trigger] grid@[i])@.len() == width,
                seen@.len() == hh,
                forall|i: int| 0 <= i < hh ==> (#[trigger] seen@[i])@.len() == hw,
                frontier.wf(),
                frontier.dims() == (hh as int, hw as int),
                forall|i: int, j: int|
                    0 <= i < height && 0 <= j < width ==> #[trigger] grid@[i]@[j] == shape(
                        passages,
                        i,
                        j,
                    ),
                forall|p: (int, int)| #[trigger]
                    passages.contains(p) ==> passage_ok(
                        seen@,
                        crossed,
                        height as int,
                        width as int,
                        p,
                    ),
                passages.finite(),
                seen_set.finite(),
                forall|v: Vtx| #[trigger]
                    seen_set.contains(v) <==> (in_grid(hh as int, hw as int, v) && color(seen@, v) is Some),
                passages.len() + 2 == seen_set.len() + (if crossed {
                    1int
                } else {
                    0int
                }),
                seen_set.len() <= verts.len(),
                color(seen@, start) == Some(true),
                color(seen@, goal) == Some(false),
                forall|v: Vtx|
                    in_grid(hh as int, hw as int, v) && #[trigger] color(seen@, v) is Some ==> joined(
                        grid@,
                        hh as int,
                        hw as int,
                        root(color(seen@, v).unwrap(), hh as int, hw as int),
                        v,
                    ),
                crossed ==> joined(grid@, hh as int, hw as int, start, goal),
                links_colored(grid@, seen@, hh as int, hw as int, crossed),
                forall|p: (int, int)| #[trigger]
                    passages.contains(p) ==> sides.contains_key(p) && side_ok(
                        grid@,
                        hh as int,
                        hw as int,
                        seen@,
                        crossed,
                        sides[p],
                        p,
                    ),
                forall|e: Edge| #[trigger]
                    frontier.view().contains(e) ==> color(seen@, e.0) is Some,
                forall|v: Vtx, w: Vtx|
                    in_grid(hh as int, hw as int, v) && in_grid(hh as int, hw as int, w)
                        && #[trigger] adjacent(v, w) && color(seen@, v) is Some
                        ==> frontier.view().contains((v, w)) || (color(seen@, w) is Some && (crossed
                        || color(seen@, w) == color(seen@, v))),
            decreases 5 * (verts.len() - seen_set.len() + (if crossed {
                0int
            } else {
                1int
            })) + frontier.len(),
        {
            let ghost f0 = frontier.view();
            proof {
                frontier.lemma_members_valid();
            }
            let e = frontier.remove_random();
            let (u, w) = e;
            assert(valid_edge(hh as int, hw as int, e));
            let cu: bool = match seen[u.0][u.1] {
                Some(x) => x,
                None => true,
            };
            let cw = seen[w.0][w.1];
            let realize: bool = match cw {
                None => true,
                Some(x) => !crossed && x != cu,
            };
            if realize {
                let ghost g0 = grid@;
                let ghost s0 = seen@;
                let ghost pass0 = passages;
                let ghost c0 = crossed;
                let ghost ss0 = seen_set;
                let ghost sides0 = sides;
                let mr = u.0 + w.0;
                let mc = u.1 + w.1;
                proof {
                    lemma_ends_mid(u, w);
                    assert(!pass0.contains(mid(u, w)));
                }
                grid[mr][mc] = Cell::Empty;
                push_neighbors(&mut frontier, w, hh, hw);
                match cw {
                    None => {
                        seen[w.0][w.1] = Some(cu);
                        proof {
                            seen_set = seen_set.insert(w);
                        }
                    },
                    Some(_) => {
                        crossed = true;
                    },
                }
                proof {
                    passages = passages.insert(mid(u, w));
                    assert forall|i: int| 0 <= i < height implies (#[trigger] grid@[i])@.len()
                        == width by {
                        assert(g0[i]@.len() == width);
                    }
                    assert forall|i: int| 0 <= i < hh implies (#[trigger] seen@[i])@.len() == hw by {
                        assert(s0[i]@.len() == hw);
                    }
                    // Seen vertices stay seen, with their colors.
                    assert forall|v: Vtx|
                        in_grid(hh as int, hw as int, v) && #[trigger] color(s0, v) is Some implies color(
                            seen@,
                            v,
                        ) == color(s0, v) by {}
                    assert forall|i: int, j: int|
                        0 <= i < height && 0 <= j < width implies #[trigger] grid@[i]@[j] == shape(
                        passages,
                        i,
                        j,
                    ) by {
                        assert(g0[i]@[j] == shape(pass0, i, j));
                    }
                    assert(opens_up(g0, grid@)) by {
                        assert forall|i: int, j: int|
                            0 <= i < g0.len() && 0 <= j < g0[i]@.len() && g0[i]@[j]
                                != Cell::Wall implies #[trigger] grid@[i]@[j] != Cell::Wall by {
                            assert(g0[i]@[j] == shape(pass0, i, j));
                            assert(g0[i]@.len() == width);
                        }
                    }
                    assert(linked(grid@, u, w));
                    assert forall|p: (int, int)| #[trigger]
                        passages.contains(p) implies passage_ok(
                        seen@,
                        crossed,
                        height as int,
                        width as int,
                        p,
                    ) by {
                        if p != mid(u, w) {
                            assert(passage_ok(s0, c0, height as int, width as int, p));
                        }
                    }
                    assert forall|v: Vtx| #[trigger]
                        seen_set.contains(v) <==> (in_grid(hh as int, hw as int, v) && color(
                            seen@,
                            v,
                        ) is Some) by {
                        assert(ss0.contains(v) <==> (in_grid(hh as int, hw as int, v) && color(
                            s0,
                            v,
                        ) is Some));
                    }
                    lemma_len_subset(seen_set, verts);
                    assert forall|v: Vtx|
                        in_grid(hh as int, hw as int, v) && #[trigger] color(seen@, v) is Some implies joined(
                        grid@,
                        hh as int,
                        hw as int,
                        root(color(seen@, v).unwrap(), hh as int, hw as int),
                        v,
                    ) by {
                        if v == w && cw is None {
                            assert(joined(g0, hh as int, hw as int, root(cu, hh as int, hw as int), u));
                            lemma_joined_grow(
                                g0,
                                grid@,
                                hh as int,
                                hw as int,
                                root(cu, hh as int, hw as int),
                                u,
                            );
                            lemma_joined_extend(
                                grid@,
                                hh as int,
                                hw as int,
                                root(cu, hh as int, hw as int),
                                u,
                                w,
                            );
                        } else {
                            assert(color(s0, v) is Some);
                            lemma_joined_grow(
                                g0,
                                grid@,
                                hh as int,
                                hw as int,
                                root(color(seen@, v).unwrap(), hh as int, hw as int),
                                v,
                            );
                        }
                    }
                    if c0 {
                        lemma_joined_grow(g0, grid@, hh as int, hw as int, start, goal);
                    } else if crossed {
                        let cwv = cw.unwrap();
                        let ru = root(cu, hh as int, hw as int);
                        let rw = root(cwv, hh as int, hw as int);
                        assert(joined(grid@, hh as int, hw as int, ru, u));
                        assert(joined(grid@, hh as int, hw as int, rw, w));
                        lemma_joined_extend(grid@, hh as int, hw as int, ru, u, w);
                        lemma_joined_sym(grid@, hh as int, hw as int, ru, w);
                        lemma_joined_trans(grid@, hh as int, hw as int, rw, w, ru);
                        if cu {
                            lemma_joined_sym(grid@, hh as int, hw as int, rw, ru);
                        }
                    }
                    assert forall|v: Vtx, x: Vtx|
                        in_grid(hh as int, hw as int, v) && in_grid(hh as int, hw as int, x)
                            && #[trigger] adjacent(v, x) && color(seen@, v) is Some implies frontier.view().contains(
                        (v, x),
                    ) || (color(seen@, x) is Some && (crossed || color(seen@, x) == color(seen@, v))) by {
                        if v == w {
                            assert(out_edges(hh as int, hw as int, w).contains((v, x)));
                        } else if (v, x) != e {
                            assert(color(s0, v) is Some);
                            assert(f0.contains((v, x)) || (color(s0, x) is Some && (c0 || color(s0, x)
                                == color(s0, v))));
                        }
                    }
                    assert forall|f: Edge| #[trigger]
                        frontier.view().contains(f) implies color(seen@, f.0) is Some by {
                        if f.0 != w {
                            assert(f0.contains(f));
                            assert(valid_edge(hh as int, hw as int, f));
                        }
                    }
                    let hhi = hh as int;
                    let hwi = hw as int;
                    assert(opened_one(g0, grid@, hhi, hwi, u, w)) by {
                        assert forall|x: Vtx, y: Vtx|
                            in_grid(hhi, hwi, x) && in_grid(hhi, hwi, y) implies (#[trigger] linked(
                            grid@,
                            x,
                            y,
                        ) <==> (linked(g0, x, y) || (x == u && y == w) || (x == w && y == u))) by {
                            if adjacent(x, y) {
                                lemma_ends_mid(x, y);
                                assert(g0[x.0 + y.0]@.len() == width);
                            }
                        }
                    }
                    assert forall|v: Vtx|
                        in_grid(hhi, hwi, v) && v != w implies #[trigger] color(seen@, v) == color(
                        s0,
                        v,
                    ) by {}
                    assert(links_colored(grid@, seen@, hhi, hwi, crossed)) by {
                        assert forall|x: Vtx, y: Vtx|
                            in_grid(hhi, hwi, x) && in_grid(hhi, hwi, y) && #[trigger] linked(
                                grid@,
                                x,
                                y,
                            ) implies color(seen@, x) is Some && color(seen@, y) is Some && (!crossed
                            ==> color(seen@, x) == color(seen@, y)) by {
                            if !((x == u && y == w) || (x == w && y == u)) {
                                assert(linked(g0, x, y));
                            }
                        }
                    }
                    let pm = mid(u, w);
                    lemma_side_of_new_passage(g0, grid@, s0, seen@, c0, crossed, hhi, hwi, u, w);
                    if cw is None {
                        sides = Map::new(
                            |p: (int, int)| passages.contains(p),
                            |p: (int, int)|
                                if p == pm {
                                    Set::empty().insert(w)
                                } else if sides0[p].contains(u) {
                                    sides0[p].insert(w)
                                } else {
                                    sides0[p]
                                },
                        );
                        assert forall|v: Vtx|
                            in_grid(hhi, hwi, v) implies #[trigger] color(seen@, v) == if v == w {
                            color(s0, u)
                        } else {
                            color(s0, v)
                        } by {}
                        assert forall|p: (int, int)| #[trigger]
                            passages.contains(p) implies sides.contains_key(p) && side_ok(
                            grid@,
                            hhi,
                            hwi,
                            seen@,
                            crossed,
                            sides[p],
                            p,
                        ) by {
                            if p != pm {
                                assert(pass0.contains(p));
                                assert(passage_ok(s0, c0, height as int, width as int, p));
                                lemma_side_after_new_vertex(
                                    g0,
                                    grid@,
                                    s0,
                                    seen@,
                                    crossed,
                                    hhi,
                                    hwi,
                                    u,
                                    w,
                                    sides0[p],
                                    p,
                                );
                            }
                        }
                    } else {
                        let tu = tree(s0, hhi, hwi, cu);
                        let tw = tree(s0, hhi, hwi, cw.unwrap());
                        sides = Map::new(
                            |p: (int, int)| passages.contains(p),
                            |p: (int, int)|
                                if p == pm {
                                    tu
                                } else if sides0[p].contains(u) {
                                    sides0[p].union(tw)
                                } else if sides0[p].contains(w) {
                                    sides0[p].union(tu)
                                } else {
                                    sides0[p]
                                },
                        );
                        assert forall|p: (int, int)| #[trigger]
                            passages.contains(p) implies sides.contains_key(p) && side_ok(
                            grid@,
                            hhi,
                            hwi,
                            seen@,
                            crossed,
                            sides[p],
                            p,
                        ) by {
                            if p != pm {
                                assert(pass0.contains(p));
                                assert(passage_ok(s0, c0, height as int, width as int, p));
                                lemma_side_after_seam(g0, grid@, s0, hhi, hwi, u, w, sides0[p], p);
                            }
                        }
                    }
                }
            } else {
                proof {
                    assert forall|v: Vtx, x: Vtx|
                        in_grid(hh as int, hw as int, v) && in_grid(hh as int, hw as int, x)
                            && #[trigger] adjacent(v, x) && color(seen@, v) is Some implies frontier.view().contains(
                        (v, x),
                    ) || (color(seen@, x) is Some && (crossed || color(seen@, x) == color(seen@, v))) by {
                        if (v, x) != e {
                            assert(f0.contains((v, x)) || (color(seen@, x) is Some && (crossed || color(
                                seen@,
                                x,
                            ) == color(seen@, v))));
                        }
                    }
                    assert forall|f: Edge| #[trigger]
                        frontier.view().contains(f) implies color(seen@, f.0) is Some by {
                        assert(f0.contains(f));
                    }
                }
            }
        }
        proof {
            frontier.lemma_members_valid();
            let hhi = hh as int;
            let hwi = hw as int;
            let is_seen = |v: Vtx| color(seen@, v) is Some;
            assert forall|a: Vtx, b: Vtx|
                in_grid(hhi, hwi, a) && in_grid(hhi, hwi, b) && #[trigger] adjacent(a, b) && is_seen(
                    a,
                ) implies is_seen(b) by {
                assert(!frontier.view().contains((a, b)));
            }
            assert forall|v: Vtx| in_grid(hhi, hwi, v) implies #[trigger] color(seen@, v) is Some by {
                lemma_spreads(hhi, hwi, is_seen, v);
            }
            if !crossed {
                let from_start = |v: Vtx| color(seen@, v) == Some(true);
                assert forall|a: Vtx, b: Vtx|
                    in_grid(hhi, hwi, a) && in_grid(hhi, hwi, b) && #[trigger] adjacent(a, b)
                        && from_start(a) implies from_start(b) by {
                    assert(!frontier.view().contains((a, b)));
                }
                lemma_spreads(hhi, hwi, from_start, goal);
            }
            assert(seen_set =~= verts);
        }
        let ghost g0 = grid@;
        grid[0][0] = Cell::Cursor;
        grid[height - 1][width - 1] = Cell::Goal;
        let m = Maze { grid, height, width, cursor: (0, 0), goal: (height - 1, width - 1) };
        proof {
            let hhi = hh as int;
            let hwi = hw as int;
            assert forall|i: int| 0 <= i < height implies (#[trigger] m.grid@[i])@.len() == width by {
                assert(g0[i]@.len() == width);
            }
            assert forall|i: int, j: int|
                0 <= i < height && 0 <= j < width && (i != 0 || j != 0) && (i != height - 1 || j
                    != width - 1) implies #[trigger] m.at(i, j) == g0[i]@[j] by {}
            assert(opens_up(g0, m.grid@)) by {
                assert forall|i: int, j: int|
                    0 <= i < g0.len() && 0 <= j < g0[i]@.len() && g0[i]@[j]
                        != Cell::Wall implies #[trigger] m.grid@[i]@[j] != Cell::Wall by {
                    assert(g0[i]@.len() == width);
                }
            }
            assert forall|a: Vtx, b: Vtx|
                in_grid(hhi, hwi, a) && in_grid(hhi, hwi, b) implies #[trigger] joined(
                m.grid@,
                hhi,
                hwi,
                a,
                b,
            ) by {
                let ca = color(seen@, a).unwrap();
                let cb = color(seen@, b).unwrap();
                assert(color(seen@, a) is Some);
                assert(color(seen@, b) is Some);
                assert(joined(g0, hhi, hwi, root(ca, hhi, hwi), a));
                assert(joined(g0, hhi, hwi, root(cb, hhi, hwi), b));
                lemma_joined_sym(g0, hhi, hwi, root(ca, hhi, hwi), a);
                if ca != cb {
                    if !ca {
                        lemma_joined_sym(g0, hhi, hwi, start, goal);
                        lemma_joined_trans(g0, hhi, hwi, a, goal, start);
                    } else {
                        lemma_joined_trans(g0, hhi, hwi, a, start, goal);
                    }
                }
                lemma_joined_trans(g0, hhi, hwi, a, root(cb, hhi, hwi), b);
                lemma_joined_grow(g0, m.grid@, hhi, hwi, a, b);
            }
            assert forall|p: (int, int)| #[trigger] m.passages().contains(p) <==> passages.contains(p) by {
                if 0 <= p.0 < height && 0 <= p.1 < width {
                    assert(g0[p.0]@[p.1] == shape(passages, p.0, p.1));
                }
                if passages.contains(p) {
                    assert(passage_ok(seen@, crossed, height as int, width as int, p));
                }
            }
            assert(m.passages() =~= passages);
            assert forall|x: Vtx, y: Vtx|
                in_grid(hhi, hwi, x) && in_grid(hhi, hwi, y) implies #[trigger] linked(m.grid@, x, y)
                == linked(g0, x, y) by {
                if adjacent(x, y) {
                    lemma_ends_mid(x, y);
                    assert(m.at(x.0 + y.0, x.1 + y.1) == g0[x.0 + y.0]@[x.1 + y.1]);
                }
            }
            assert forall|p: (int, int)| #[trigger]
                m.passages().contains(p) implies !joined_avoiding(
                m.grid@,
                hhi,
                hwi,
                ends(p).0,
                ends(p).1,
                p,
            ) by {
                assert(passages.contains(p));
                let side = sides[p];
                assert(side_ok(g0, hhi, hwi, seen@, crossed, side, p));
                let sd = if side.contains(ends(p).0) {
                    side
                } else {
                    Set::new(|v: Vtx| !side.contains(v))
                };
                assert forall|x: Vtx, y: Vtx|
                    in_grid(hhi, hwi, x) && in_grid(hhi, hwi, y) && #[trigger] linked(m.grid@, x, y)
                        && (x.0 + y.0, x.1 + y.1) != p && sd.contains(x) implies sd.contains(y) by {
                    assert(linked(g0, x, y));
                    assert(linked(g0, y, x));
                    assert(closed_except(g0, hhi, hwi, side, p));
                }
                lemma_separated(m.grid@, hhi, hwi, sd, p, ends(p).0, ends(p).1);
            }
        }
        m
    }
}

} // verus!
