use crate::graph::{adjacent, dir, in_grid, valid_edge, Edge};
use rand::Rng;
use vstd::prelude::*;

verus! {

/// Relies on rand's `thread_rng().gen_range(low, high)`, which returns a value
/// in `low..high` and panics only when `low >= high`.
#[verifier::external_body]
fn random_below(n: usize) -> (r: usize)
    requires
        0 < n,
    ensures
        r < n,
{
    rand::thread_rng().gen_range(0, n)
}

/// An unordered collection of grid edges without repeats, with constant-time
/// insertion and removal of an element picked at random.
///
/// The edges sit in a vector, so that a random index picks one, and removal
/// swaps the last one into the hole. A table with one flag per vertex and
/// direction records which edges are held, so that no edge is held twice.
pub struct VecSet {
    present: Vec<Vec<Vec<bool>>>,
    vec: Vec<Edge>,
    hh: usize,
    hw: usize,
}

/// The direction index of an edge between adjacent vertices.
pub fn dir_of(e: Edge) -> (d: usize)
    requires
        adjacent(e.0, e.1),
    ensures
        d == dir(e),
        d < 4,
{
    if e.1.0 < e.0.0 {
        0
    } else if e.1.0 > e.0.0 {
        1
    } else if e.1.1 < e.0.1 {
        2
    } else {
        3
    }
}

impl VecSet {
    pub closed spec fn view(&self) -> Set<Edge> {
        self.vec@.to_set()
    }

    pub closed spec fn len(&self) -> nat {
        self.vec@.len()
    }

    /// The vertex grid that the edges belong to, as (rows, columns).
    pub closed spec fn dims(&self) -> (int, int) {
        (self.hh as int, self.hw as int)
    }

    spec fn slot(&self, e: Edge) -> bool {
        self.present@[e.0.0 as int]@[e.0.1 as int]@[dir(e)]
    }

    pub closed spec fn wf(&self) -> bool {
        &&& self.present@.len() == self.hh
        &&& forall|r: int| 0 <= r < self.hh ==> (#[trigger] self.present@[r])@.len() == self.hw
        &&& forall|r: int, c: int|
            0 <= r < self.hh && 0 <= c < self.hw ==> (#[trigger] self.present@[r]@[c])@.len() == 4
        &&& self.vec@.no_duplicates()
        &&& forall|i: int|
            0 <= i < self.vec@.len() ==> valid_edge(self.hh as int, self.hw as int, #[trigger] self.vec@[i])
        &&& forall|e: Edge|
            valid_edge(self.hh as int, self.hw as int, e) ==> (#[trigger] self.slot(e)
                <==> self.vec@.contains(e))
    }

    pub proof fn lemma_members_valid(&self)
        requires
            self.wf(),
        ensures
            forall|e: Edge| #[trigger]
                self.view().contains(e) ==> valid_edge(self.dims().0, self.dims().1, e),
            self.len() == 0 <==> self.view() == Set::<Edge>::empty(),
    {
        assert forall|e: Edge| #[trigger] self.view().contains(e) implies valid_edge(
            self.dims().0,
            self.dims().1,
            e,
        ) by {
            let i = choose|i: int| 0 <= i < self.vec@.len() && self.vec@[i] == e;
            assert(valid_edge(self.hh as int, self.hw as int, self.vec@[i]));
        }
        if self.len() != 0 {
            assert(self.view().contains(self.vec@[0]));
        } else {
            assert(self.view() =~= Set::<Edge>::empty());
        }
    }

    pub fn new(hh: usize, hw: usize) -> (s: VecSet)
        ensures
            s.wf(),
            s.dims() == (hh as int, hw as int),
            s.view() == Set::<Edge>::empty(),
            s.len() == 0,
    {
        let s = VecSet { present: vec![vec![vec![false; 4]; hw]; hh], vec: Vec::new(), hh, hw };
        assert(s.view() =~= Set::<Edge>::empty());
        s
    }

    /// Adds `e`; an edge already held is not added twice.
    pub fn insert(&mut self, e: Edge)
        requires
            old(self).wf(),
            valid_edge(old(self).dims().0, old(self).dims().1, e),
        ensures
            final(self).wf(),
            final(self).dims() == old(self).dims(),
            final(self).view() == old(self).view().insert(e),
            final(self).len() <= old(self).len() + 1,
    {
        let d = dir_of(e);
        let r = e.0.0;
        let c = e.0.1;
        assert(self.slot(e) == self.present@[r as int]@[c as int]@[d as int]);
        if !self.present[r][c][d] {
            let ghost old_self = *self;
            self.present[r][c][d] = true;
            self.vec.push(e);
            assert forall|f: Edge| valid_edge(self.hh as int, self.hw as int, f) implies (
            #[trigger] self.slot(f) <==> self.vec@.contains(f)) by {
                assert(old_self.slot(f) <==> old_self.vec@.contains(f));
                if f == e {
                    assert(self.vec@[self.vec@.len() - 1] == e);
                } else {
                    if self.vec@.contains(f) {
                        let i = choose|i: int| 0 <= i < self.vec@.len() && self.vec@[i] == f;
                        assert(old_self.vec@[i] == f);
                    }
                    if old_self.vec@.contains(f) {
                        let i = choose|i: int| 0 <= i < old_self.vec@.len() && old_self.vec@[i] == f;
                        assert(self.vec@[i] == f);
                    }
                }
            }
            assert forall|x: Edge| #[trigger]
                self.vec@.contains(x) <==> (old_self.vec@.contains(x) || x == e) by {
                if self.vec@.contains(x) && x != e {
                    let i = choose|i: int| 0 <= i < self.vec@.len() && self.vec@[i] == x;
                    assert(old_self.vec@[i] == x);
                }
                if old_self.vec@.contains(x) {
                    let i = choose|i: int| 0 <= i < old_self.vec@.len() && old_self.vec@[i] == x;
                    assert(self.vec@[i] == x);
                }
                if x == e {
                    assert(self.vec@[self.vec@.len() - 1] == e);
                }
            }
            assert(self.view() =~= old_self.view().insert(e));
        } else {
            assert(self.vec@.contains(e));
            assert(self.view().contains(e));
            assert(self.view() =~= self.view().insert(e));
        }
    }

    /// Takes out and returns an element picked at random.
    pub fn remove_random(&mut self) -> (e: Edge)
        requires
            old(self).wf(),
            old(self).len() > 0,
        ensures
            final(self).wf(),
            final(self).dims() == old(self).dims(),
            old(self).view().contains(e),
            final(self).view() == old(self).view().remove(e),
            final(self).len() == old(self).len() - 1,
    {
        let ghost old_self = *self;
        let n = self.vec.len();
        let i = random_below(n);
        let e = self.vec.swap_remove(i);
        assert(valid_edge(self.hh as int, self.hw as int, old_self.vec@[i as int]));
        let d = dir_of(e);
        self.present[e.0.0][e.0.1][d] = false;
        let ghost ov = old_self.vec@;
        let ghost nv = self.vec@;
        // Where each element of the new vector came from in the old one.
        let ghost src = |j: int| if j == i { n - 1 } else { j };
        assert forall|j: int| 0 <= j < nv.len() implies #[trigger] nv[j] == ov[src(j)] && src(j)
            != i && 0 <= src(j) < n by {}
        assert forall|x: Edge| #[trigger] nv.contains(x) <==> (ov.contains(x) && x != e) by {
            if nv.contains(x) {
                let j = choose|j: int| 0 <= j < nv.len() && nv[j] == x;
                assert(nv[j] == ov[src(j)]);
            }
            if ov.contains(x) && x != e {
                let k = choose|k: int| 0 <= k < ov.len() && ov[k] == x;
                if k < n - 1 {
                    assert(nv[k] == x);
                } else {
                    assert(nv[i as int] == x);
                }
            }
        }
        assert(nv.no_duplicates()) by {
            assert forall|j1: int, j2: int|
                0 <= j1 < nv.len() && 0 <= j2 < nv.len() && j1 != j2 implies nv[j1] != nv[j2] by {
                assert(nv[j1] == ov[src(j1)]);
                assert(nv[j2] == ov[src(j2)]);
            }
        }
        assert forall|j: int| 0 <= j < nv.len() implies valid_edge(
            self.hh as int,
            self.hw as int,
            #[trigger] nv[j],
        ) by {
            assert(nv[j] == ov[src(j)]);
            assert(valid_edge(self.hh as int, self.hw as int, ov[src(j)]));
        }
        assert forall|f: Edge| valid_edge(self.hh as int, self.hw as int, f) implies (
        #[trigger] self.slot(f) <==> self.vec@.contains(f)) by {
            assert(old_self.slot(f) <==> old_self.vec@.contains(f));
            assert(nv.contains(f) <==> (ov.contains(f) && f != e));
        }
        assert(ov.contains(e)) by {
            assert(ov[i as int] == e);
        }
        assert(self.view() =~= old_self.view().remove(e));
        e
    }

    pub fn is_empty(&self) -> (b: bool)
        requires
            self.wf(),
        ensures
            b == (self.len() == 0),
    {
        self.vec.len() == 0
    }
}

} // verus!
