//! A directed graph over interned nodes whose reachability relation is kept
//! transitively closed on every edge insertion.
use vstd::prelude::*;
use vstd::std_specs::cmp::PartialEqSpec;

verus! {

/// The executable equality of `T` decides spec equality: what `==` returns
/// is exactly whether the two values are equal.
pub open spec fn eq_decides<T: PartialEq>() -> bool {
    &&& T::obeys_eq_spec()
    &&& forall|x: T, y: T| #[trigger] x.eq_spec(&y) <==> x == y
}

/// Nodes interned by value, and the closed reachability relation over them:
/// `reach[i][j]` holds when node `j` is reachable from node `i`. Row `i` is
/// the out-set of node `i`; column `j` is its in-set.
pub struct ReachabilityGraph<T> {
    nodes: Vec<T>,
    reach: Vec<Vec<bool>>,
}

impl<T: PartialEq> ReachabilityGraph<T> {
    pub closed spec fn nodes_view(&self) -> Seq<T> {
        self.nodes@
    }

    /// Does index `i` reach index `j`?
    spec fn reach_idx(&self, i: int, j: int) -> bool {
        self.reach@[i]@[j]
    }

    /// The graph's invariant: a square relation over distinct nodes that is
    /// reflexive and transitively closed.
    pub closed spec fn wf(&self) -> bool {
        let n = self.nodes@.len() as int;
        &&& self.reach@.len() == n
        &&& forall|i: int| 0 <= i < n ==> (#[trigger] self.reach@[i])@.len() == n
        &&& forall|i: int| 0 <= i < n ==> #[trigger] self.reach_idx(i, i)
        &&& forall|i: int, j: int, k: int|
            0 <= i < n && 0 <= j < n && 0 <= k < n && #[trigger] self.reach_idx(i, j)
                && #[trigger] self.reach_idx(j, k) ==> self.reach_idx(i, k)
        &&& forall|i: int, j: int|
            0 <= i < j < n ==> (#[trigger] self.nodes@[i]) != (#[trigger] self.nodes@[j])
    }

    /// Is the value one of the graph's nodes?
    pub open spec fn interned(&self, x: T) -> bool {
        exists|i: int| 0 <= i < self.nodes_view().len() && self.nodes_view()[i] == x
    }

    /// Does the graph show `y` reachable from `x`? Every interned node
    /// reaches itself.
    pub closed spec fn reaches(&self, x: T, y: T) -> bool {
        exists|i: int, j: int|
            0 <= i < self.nodes_view().len() && 0 <= j < self.nodes_view().len()
                && self.nodes_view()[i] == x && self.nodes_view()[j] == y && #[trigger] self
                .reach_idx(i, j)
    }

    /// Every value the graph shows reachable from `node` appears in the
    /// list.
    pub open spec fn covers_reachable(&self, node: T, v: Seq<&T>) -> bool {
        forall|y: T|
            self.reaches(node, y) ==> exists|k: int| 0 <= k < v.len() && *(#[trigger] v[k]) == y
    }

    /// An empty graph.
    pub fn new() -> (r: Self)
        ensures
            r.wf(),
            r.nodes_view() == Seq::<T>::empty(),
            forall|x: T, y: T| !r.reaches(x, y),
    {
        let r = ReachabilityGraph { nodes: Vec::new(), reach: Vec::new() };
        proof {
            assert(forall|x: T, y: T| !r.reaches(x, y));
        }
        r
    }

    /// The index of an interned value.
    fn find_node(&self, node: &T) -> (r: Option<usize>)
        requires
            self.wf(),
            eq_decides::<T>(),
        ensures
            match r {
                Some(i) => 0 <= i < self.nodes_view().len() && self.nodes_view()[i as int]
                    == *node,
                None => !self.interned(*node),
            },
    {
        let mut i: usize = 0;
        while i < self.nodes.len()
            invariant
                self.wf(),
                eq_decides::<T>(),
                i <= self.nodes@.len(),
                forall|k: int| 0 <= k < i ==> self.nodes@[k] != *node,
            decreases self.nodes@.len() - i,
        {
            if self.nodes[i] == *node {
                return Some(i);
            }
            i = i + 1;
        }
        None
    }

    /// Interns a fresh node, reaching itself and nothing else.
    fn add_node(&mut self, node: T) -> (r: usize)
        requires
            old(self).wf(),
            eq_decides::<T>(),
            !old(self).interned(node),
        ensures
            final(self).wf(),
            final(self).nodes_view() == old(self).nodes_view().push(node),
            r == old(self).nodes_view().len(),
            forall|x: T, y: T|
                #[trigger] final(self).reaches(x, y) <==> old(self).reaches(x, y) || (x == node
                    && y == node),
    {
        let node_idx = self.nodes.len();
        let ghost n0 = self.nodes@.len() as int;
        self.nodes.push(node);
        let mut i: usize = 0;
        while i < node_idx
            invariant
                i <= node_idx,
                node_idx + 1 == self.nodes@.len(),
                self.nodes@ == old(self).nodes@.push(node),
                node_idx == old(self).nodes@.len(),
                self.reach@.len() == node_idx,
                forall|k: int|
                    0 <= k < node_idx ==> (#[trigger] self.reach@[k])@.len() == (if k < i {
                        node_idx + 1
                    } else {
                        node_idx as int
                    }),
                forall|k: int, j: int|
                    0 <= k < node_idx && 0 <= j < node_idx ==> (#[trigger] self.reach@[k]@[j])
                        == old(self).reach@[k]@[j],
                forall|k: int| 0 <= k < i ==> !(#[trigger] self.reach@[k]@[node_idx as int]),
            decreases node_idx - i,
        {
            self.reach[i].push(false);
            i = i + 1;
        }
        let mut new_row: Vec<bool> = Vec::new();
        let mut j: usize = 0;
        while j < node_idx
            invariant
                j <= node_idx,
                new_row@.len() == j,
                forall|k: int| 0 <= k < j ==> !(#[trigger] new_row@[k]),
            decreases node_idx - j,
        {
            new_row.push(false);
            j = j + 1;
        }
        new_row.push(true);
        self.reach.push(new_row);
        proof {
            let n = self.nodes@.len() as int;
            assert(n == n0 + 1);
            assert forall|i2: int| 0 <= i2 < n0 implies self.nodes@[i2] != node by {
                if self.nodes@[i2] == node {
                    assert(old(self).nodes_view()[i2] == node);
                    assert(old(self).interned(node));
                    assert(false);
                }
            }
            assert forall|i2: int, j2: int|
                0 <= i2 < n && 0 <= j2 < n implies (#[trigger] self.reach_idx(i2, j2) <==> (i2
                < n0 && j2 < n0 && old(self).reach_idx(i2, j2)) || (i2 == n0 && j2 == n0)) by {
                if i2 < n0 && j2 < n0 {
                } else if i2 == n0 {
                    assert(self.reach@[i2]@[j2] == (j2 == n0));
                } else {
                    assert(!self.reach@[i2]@[j2]);
                }
            }
            assert(final (self).wf());
            assert forall|x: T, y: T|
                #[trigger] self.reaches(x, y) <==> old(self).reaches(x, y) || (x == node && y
                    == node) by {
                if self.reaches(x, y) {
                    let (i2, j2): (int, int) = choose|i2: int, j2: int|
                        0 <= i2 < self.nodes@.len() && 0 <= j2 < self.nodes@.len()
                            && self.nodes@[i2] == x && self.nodes@[j2] == y && #[trigger] self
                            .reach_idx(i2, j2);
                    if i2 < n0 && j2 < n0 {
                        assert(old(self).reaches(x, y));
                    } else {
                        assert(x == node && y == node);
                    }
                }
                if old(self).reaches(x, y) {
                    let (i2, j2): (int, int) = choose|i2: int, j2: int|
                        0 <= i2 < old(self).nodes@.len() && 0 <= j2 < old(self).nodes@.len()
                            && old(self).nodes@[i2] == x && old(self).nodes@[j2] == y
                            && #[trigger] old(self).reach_idx(i2, j2);
                    assert(self.reach_idx(i2, j2));
                    assert(self.reaches(x, y));
                }
                if x == node && y == node {
                    assert(self.reach_idx(n0, n0));
                    assert(self.reaches(x, y));
                }
            }
        }
        node_idx
    }

    fn get_node_idx_or_add(&mut self, node: T) -> (r: usize)
        requires
            old(self).wf(),
            eq_decides::<T>(),
        ensures
            final(self).wf(),
            0 <= r < final(self).nodes_view().len(),
            final(self).nodes_view()[r as int] == node,
            final(self).interned(node),
            old(self).interned(node) ==> final(self).nodes_view() == old(self).nodes_view(),
            !old(self).interned(node) ==> final(self).nodes_view() == old(self).nodes_view().push(
                node,
            ),
            forall|x: T| #[trigger] final(self).interned(x) <==> old(self).interned(x) || x
                == node,
            forall|x: T, y: T|
                #[trigger] final(self).reaches(x, y) <==> old(self).reaches(x, y) || (!old(
                    self,
                ).interned(node) && x == node && y == node),
    {
        let found = self.find_node(&node);
        let r = match found {
            Some(i) => i,
            None => self.add_node(node),
        };
        proof {
            assert(self.nodes_view()[r as int] == node);
            assert forall|x: T|
                #[trigger] self.interned(x) <==> old(self).interned(x) || x == node by {
                if self.interned(x) {
                    let i = choose|i: int|
                        0 <= i < self.nodes@.len() && #[trigger] self.nodes@[i] == x;
                    if i < old(self).nodes@.len() {
                        assert(old(self).interned(x));
                    } else {
                        assert(x == node);
                    }
                }
                if old(self).interned(x) {
                    let i = choose|i: int|
                        0 <= i < old(self).nodes@.len() && #[trigger] old(self).nodes@[i] == x;
                    assert(self.nodes@[i] == x);
                }
            }
        }
        r
    }

    /// Records that `b` is reachable from `a` and closes the relation: after
    /// the call, everything that reached `a` reaches everything `b` reached.
    pub fn set_reachable(&mut self, a: T, b: T)
        requires
            old(self).wf(),
            eq_decides::<T>(),
            a != b,
        ensures
            final(self).wf(),
            final(self).interned(a),
            final(self).interned(b),
            forall|x: T|
                #[trigger] final(self).interned(x) <==> old(self).interned(x) || x == a || x == b,
            forall|x: T, y: T|
                #[trigger] final(self).reaches(x, y) <==> old(self).reaches(x, y) || (x == y && (x
                    == a || x == b)) || ((x == a || old(self).reaches(x, a)) && (y == b || old(
                    self,
                ).reaches(b, y))),
    {
        let ghost g0 = *old(self);
        let ia = self.get_node_idx_or_add(a);
        let ghost g1 = *self;
        let ib = self.get_node_idx_or_add(b);
        let ghost g2 = *self;
        let n = self.nodes.len();
        proof {
            assert(g2.nodes_view()[ia as int] == a);
            assert(g2.nodes_view()[ib as int] == b);
            assert(ia != ib);
            assert(g2.wf());
        }
        // Row `ib` is what `b` reaches; read it before any update.
        let to_row = copy_flags(&self.reach[ib]);
        let mut i: usize = 0;
        while i < n
            invariant
                n == self.nodes@.len(),
                ia < n,
                ib < n,
                self.nodes@ == g2.nodes@,
                g2.wf(),
                to_row@ == g2.reach@[ib as int]@,
                to_row@.len() == n,
                i <= n,
                self.reach@.len() == n,
                forall|k: int| 0 <= k < n ==> (#[trigger] self.reach@[k])@.len() == n,
                forall|k: int, j: int|
                    0 <= k < n && 0 <= j < n && k >= i ==> (#[trigger] self.reach@[k]@[j])
                        == g2.reach@[k]@[j],
                forall|k: int, j: int|
                    0 <= k < i && 0 <= j < n ==> ((#[trigger] self.reach@[k]@[j]) <==> (
                    g2.reach_idx(k, j) || (g2.reach_idx(k, ia as int) && g2.reach_idx(
                        ib as int,
                        j,
                    )))),
            decreases n - i,
        {
            let from_i = self.reach[i][ia];
            proof {
                assert(from_i == g2.reach_idx(i as int, ia as int));
            }
            if from_i {
                let mut j: usize = 0;
                while j < n
                    invariant
                        n == self.nodes@.len(),
                        self.nodes@ == g2.nodes@,
                        i < n,
                        ia < n,
                        ib < n,
                        g2.wf(),
                        to_row@ == g2.reach@[ib as int]@,
                        to_row@.len() == n,
                        j <= n,
                        self.reach@.len() == n,
                        forall|k: int| 0 <= k < n ==> (#[trigger] self.reach@[k])@.len() == n,
                        g2.reach_idx(i as int, ia as int),
                        forall|k: int, j2: int|
                            0 <= k < n && 0 <= j2 < n && k > i ==> (#[trigger] self.reach@[k]@[j2])
                                == g2.reach@[k]@[j2],
                        forall|k: int, j2: int|
                            0 <= k < i && 0 <= j2 < n ==> ((#[trigger] self.reach@[k]@[j2]) <==> (
                            g2.reach_idx(k, j2) || (g2.reach_idx(k, ia as int) && g2.reach_idx(
                                ib as int,
                                j2,
                            )))),
                        forall|j2: int|
                            0 <= j2 < n && j2 >= j ==> (#[trigger] self.reach@[i as int]@[j2])
                                == g2.reach@[i as int]@[j2],
                        forall|j2: int|
                            0 <= j2 < j ==> ((#[trigger] self.reach@[i as int]@[j2]) <==> (
                            g2.reach_idx(i as int, j2) || g2.reach_idx(ib as int, j2))),
                    decreases n - j,
                {
                    if to_row[j] {
                        self.reach[i][j] = true;
                    }
                    j = j + 1;
                }
            }
            i = i + 1;
        }
        proof {
            let n_int = n as int;
            // The closed relation after the pass, index by index.
            assert forall|i2: int, j2: int|
                0 <= i2 < n_int && 0 <= j2 < n_int implies (#[trigger] self.reach_idx(i2, j2)
                <==> (g2.reach_idx(i2, j2) || (g2.reach_idx(i2, ia as int) && g2.reach_idx(
                    ib as int,
                    j2,
                )))) by {}
            // It is transitive.
            assert forall|i2: int, j2: int, k2: int|
                0 <= i2 < n_int && 0 <= j2 < n_int && 0 <= k2 < n_int && #[trigger] self.reach_idx(
                    i2,
                    j2,
                ) && #[trigger] self.reach_idx(j2, k2) implies self.reach_idx(i2, k2) by {
                if g2.reach_idx(i2, j2) && g2.reach_idx(j2, k2) {
                } else if g2.reach_idx(i2, j2) {
                    assert(g2.reach_idx(j2, ia as int) && g2.reach_idx(ib as int, k2));
                    assert(g2.reach_idx(i2, ia as int));
                } else if g2.reach_idx(j2, k2) {
                    assert(g2.reach_idx(i2, ia as int) && g2.reach_idx(ib as int, j2));
                    assert(g2.reach_idx(ib as int, k2));
                }
            }
            assert(final (self).wf());
            // The relation over values, against the graph as it was handed in.
            assert forall|x: T, y: T|
                #[trigger] self.reaches(x, y) <==> g2.reaches(x, y) || ((x == a || g2.reaches(
                    x,
                    a,
                )) && (y == b || g2.reaches(b, y))) by {
                if self.reaches(x, y) {
                    let (i2, j2): (int, int) = choose|i2: int, j2: int|
                        0 <= i2 < self.nodes@.len() && 0 <= j2 < self.nodes@.len()
                            && self.nodes@[i2] == x && self.nodes@[j2] == y && #[trigger] self
                            .reach_idx(i2, j2);
                    if g2.reach_idx(i2, j2) {
                        assert(g2.reaches(x, y));
                    } else {
                        assert(g2.reach_idx(i2, ia as int) && g2.reach_idx(ib as int, j2));
                        if i2 != ia {
                            assert(g2.reaches(x, a));
                        }
                        if j2 != ib {
                            assert(g2.reaches(b, y));
                        }
                    }
                }
                if g2.reaches(x, y) {
                    let (i2, j2): (int, int) = choose|i2: int, j2: int|
                        0 <= i2 < g2.nodes@.len() && 0 <= j2 < g2.nodes@.len() && g2.nodes@[i2]
                            == x && g2.nodes@[j2] == y && #[trigger] g2.reach_idx(i2, j2);
                    assert(self.reach_idx(i2, j2));
                    assert(self.reaches(x, y));
                }
                if (x == a || g2.reaches(x, a)) && (y == b || g2.reaches(b, y)) {
                    let i2: int = if x == a {
                        ia as int
                    } else {
                        let (i3, j3): (int, int) = choose|i3: int, j3: int|
                            0 <= i3 < g2.nodes@.len() && 0 <= j3 < g2.nodes@.len()
                                && g2.nodes@[i3] == x && g2.nodes@[j3] == a && #[trigger] g2
                                .reach_idx(i3, j3);
                        assert(j3 == ia as int);
                        i3
                    };
                    let j2: int = if y == b {
                        ib as int
                    } else {
                        let (i3, j3): (int, int) = choose|i3: int, j3: int|
                            0 <= i3 < g2.nodes@.len() && 0 <= j3 < g2.nodes@.len()
                                && g2.nodes@[i3] == b && g2.nodes@[j3] == y && #[trigger] g2
                                .reach_idx(i3, j3);
                        assert(i3 == ib as int);
                        j3
                    };
                    assert(g2.reach_idx(i2, ia as int));
                    assert(g2.reach_idx(ib as int, j2));
                    assert(self.reach_idx(i2, j2));
                    assert(self.nodes@[i2] == x && self.nodes@[j2] == y);
                    assert(self.reaches(x, y));
                }
            }
            // Fold in the two interning steps.
            assert forall|x: T, y: T|
                #[trigger] self.reaches(x, y) <==> g0.reaches(x, y) || (x == y && (x == a || x
                    == b)) || ((x == a || g0.reaches(x, a)) && (y == b || g0.reaches(b, y))) by {
                assert(g1.reaches(x, y) <==> g0.reaches(x, y) || (!g0.interned(a) && x == a && y
                    == a));
                assert(g2.reaches(x, y) <==> g1.reaches(x, y) || (!g1.interned(b) && x == b && y
                    == b));
                assert(g2.reaches(x, a) <==> g0.reaches(x, a) || (!g0.interned(a) && x == a));
                assert(g2.reaches(b, y) <==> g0.reaches(b, y) || (!g1.interned(b) && y == b));
                if x == y && x == a && g0.interned(a) {
                    let i = choose|i: int|
                        0 <= i < g0.nodes_view().len() && g0.nodes_view()[i] == x;
                    assert(g0.reach_idx(i, i));
                    assert(g0.reaches(x, y));
                }
                if x == y && x == b && g1.interned(b) {
                    assert(g0.interned(b));
                    let i = choose|i: int|
                        0 <= i < g0.nodes_view().len() && g0.nodes_view()[i] == x;
                    assert(g0.reach_idx(i, i));
                    assert(g0.reaches(x, y));
                }
            }
            // Interning facts.
            assert(self.nodes@ == g2.nodes@);
            assert(self.nodes_view()[ia as int] == a);
            assert(self.nodes_view()[ib as int] == b);
            assert(self.interned(a));
            assert(self.interned(b));
            assert forall|x: T|
                #[trigger] self.interned(x) <==> g0.interned(x) || x == a || x == b by {
                assert(self.interned(x) <==> g2.interned(x));
                assert(g2.interned(x) <==> g1.interned(x) || x == b);
                assert(g1.interned(x) <==> g0.interned(x) || x == a);
            }
        }
    }

    /// The interned nodes, pairwise distinct, in interning order.
    pub fn nodes(&self) -> (r: &Vec<T>)
        requires
            self.wf(),
        ensures
            r@ == self.nodes_view(),
            forall|i: int, j: int| 0 <= i < j < r@.len() ==> r@[i] != r@[j],
            forall|i: int| 0 <= i < r@.len() ==> self.interned(#[trigger] r@[i]),
    {
        proof {
            assert forall|i: int| 0 <= i < self.nodes@.len() implies self.interned(
                #[trigger] self.nodes@[i],
            ) by {
                assert(self.nodes_view()[i] == self.nodes@[i]);
            }
        }
        &self.nodes
    }

    /// Is `b` known reachable from `a`? False when either is not interned.
    pub fn is_reachable(&self, a: &T, b: &T) -> (r: bool)
        requires
            self.wf(),
            eq_decides::<T>(),
        ensures
            r == self.reaches(*a, *b),
    {
        let ia = match self.find_node(a) {
            Some(i) => i,
            None => {
                return false;
            },
        };
        let ib = match self.find_node(b) {
            Some(i) => i,
            None => {
                return false;
            },
        };
        let r = self.reach[ia][ib];
        proof {
            if r {
                assert(self.reach_idx(ia as int, ib as int));
            } else if self.reaches(*a, *b) {
                let (i, j): (int, int) = choose|i: int, j: int|
                    0 <= i < self.nodes@.len() && 0 <= j < self.nodes@.len() && self.nodes@[i]
                        == *a && self.nodes@[j] == *b && #[trigger] self.reach_idx(i, j);
                assert(i == ia as int && j == ib as int);
                assert(false);
            }
        }
        r
    }

    /// Everything reachable from the node, the node itself included; `None`
    /// when the node is not interned.
    #[verifier::rlimit(100)]
    pub fn get_reachable(&self, node: &T) -> (r: Option<Vec<&T>>)
        requires
            self.wf(),
            eq_decides::<T>(),
        ensures
            (r is Some) == self.interned(*node),
            r matches Some(v) ==> forall|k: int|
                0 <= k < v@.len() ==> self.reaches(*node, *(#[trigger] v@[k])),
            r matches Some(v) ==> self.covers_reachable(*node, v@),
            r matches Some(v) ==> forall|k1: int, k2: int|
                0 <= k1 < k2 < v@.len() ==> *(#[trigger] v@[k1]) != *(#[trigger] v@[k2]),
    {
        let idx = match self.find_node(node) {
            Some(i) => i,
            None => {
                return None;
            },
        };
        proof {
            assert(self.nodes_view()[idx as int] == *node);
            assert(self.interned(*node));
        }
        let n = self.nodes.len();
        let mut v: Vec<&T> = Vec::new();
        let ghost mut idxs: Seq<int> = Seq::empty();
        let mut j: usize = 0;
        while j < n
            invariant
                self.wf(),
                eq_decides::<T>(),
                n == self.nodes@.len(),
                idx < n,
                self.nodes@[idx as int] == *node,
                j <= n,
                idxs.len() == v@.len(),
                forall|k: int|
                    0 <= k < v@.len() ==> 0 <= #[trigger] idxs[k] < j && self.reach_idx(
                        idx as int,
                        idxs[k],
                    ) && *(v@[k]) == self.nodes@[idxs[k]],
                forall|k1: int, k2: int|
                    #![trigger idxs[k1], idxs[k2]]
                    0 <= k1 < k2 < idxs.len() ==> idxs[k1] < idxs[k2],
                forall|j2: int|
                    0 <= j2 < j && self.reach_idx(idx as int, j2) ==> exists|k: int|
                        0 <= k < idxs.len() && #[trigger] idxs[k] == j2,
            decreases n - j,
        {
            if self.reach[idx][j] {
                v.push(&self.nodes[j]);
                proof {
                    let idxs0 = idxs;
                    idxs = idxs.push(j as int);
                    assert(idxs[idxs.len() - 1] == j as int);
                    assert(*(v@[v@.len() - 1]) == self.nodes@[j as int]);
                    assert(forall|k: int| 0 <= k < idxs0.len() ==> idxs[k] == #[trigger] idxs0[k]);
                    assert forall|j2: int|
                        0 <= j2 < j + 1 && self.reach_idx(idx as int, j2) implies exists|k: int|
                        0 <= k < idxs.len() && #[trigger] idxs[k] == j2 by {
                        if j2 == j {
                            assert(idxs[idxs.len() - 1] == j2);
                        } else {
                            let k = choose|k: int|
                                0 <= k < idxs0.len() && #[trigger] idxs0[k] == j2;
                            assert(idxs[k] == j2);
                        }
                    }
                }
            } else {
                proof {
                    assert forall|j2: int|
                        0 <= j2 < j + 1 && self.reach_idx(idx as int, j2) implies exists|k: int|
                        0 <= k < idxs.len() && #[trigger] idxs[k] == j2 by {
                        assert(j2 != j);
                    }
                }
            }
            j = j + 1;
        }
        proof {
            assert forall|k: int| 0 <= k < v@.len() implies self.reaches(
                *node,
                *(#[trigger] v@[k]),
            ) by {
                assert(self.reach_idx(idx as int, idxs[k]));
                assert(self.nodes_view()[idxs[k]] == *(v@[k]));
                assert(self.nodes_view()[idx as int] == *node);
                assert(self.reaches(*node, *(v@[k])));
            }
            assert forall|y: T| self.reaches(*node, y) implies exists|k: int|
                0 <= k < v@.len() && *(#[trigger] v@[k]) == y by {
                assert(self.reaches(*node, y));
                let (i, j2): (int, int) = choose|i: int, j2: int|
                    0 <= i < self.nodes@.len() && 0 <= j2 < self.nodes@.len() && self.nodes@[i]
                        == *node && self.nodes@[j2] == y && #[trigger] self.reach_idx(i, j2);
                assert(i == idx as int);
                let k = choose|k: int| 0 <= k < idxs.len() && #[trigger] idxs[k] == j2;
                assert(*(v@[k]) == y);
            }
            assert forall|k1: int, k2: int| 0 <= k1 < k2 < v@.len() implies *(#[trigger] v@[k1])
                != *(#[trigger] v@[k2]) by {
                assert(idxs[k1] < idxs[k2]);
                assert(self.nodes@[idxs[k1]] != self.nodes@[idxs[k2]]);
                assert(*(v@[k1]) == self.nodes@[idxs[k1]]);
                assert(*(v@[k2]) == self.nodes@[idxs[k2]]);
            }
            assert(self.covers_reachable(*node, v@));
        }
        Some(v)
    }

    /// The strongly connected components: groups of mutually reachable
    /// nodes, each interned node in exactly one group, groups ordered by
    /// their first node, nodes in interning order within each group.
    #[verifier::rlimit(100)]
    pub fn strongly_connected_components(&self) -> (r: Vec<Vec<&T>>)
        requires
            self.wf(),
            eq_decides::<T>(),
        ensures
            forall|c: int, k1: int, k2: int|
                0 <= c < r@.len() && 0 <= k1 < r@[c]@.len() && 0 <= k2 < r@[c]@.len()
                    ==> self.reaches(*(#[trigger] r@[c]@[k1]), *(#[trigger] r@[c]@[k2])),
            forall|c: int| 0 <= c < r@.len() ==> (#[trigger] r@[c])@.len() >= 1,
            forall|x: T|
                self.interned(x) ==> exists|c: int, k: int|
                    0 <= c < r@.len() && 0 <= k < r@[c]@.len() && *(#[trigger] r@[c]@[k]) == x,
            forall|c1: int, k1: int, c2: int, k2: int|
                #![trigger r@[c1]@[k1], r@[c2]@[k2]]
                0 <= c1 < r@.len() && 0 <= k1 < r@[c1]@.len() && 0 <= c2 < r@.len() && 0 <= k2
                    < r@[c2]@.len() && (c1, k1) != (c2, k2) ==> *(r@[c1]@[k1]) != *(r@[c2]@[k2]),
            forall|c: int, k: int, x: T|
                #![trigger self.reaches(*(r@[c]@[k]), x)]
                0 <= c < r@.len() && 0 <= k < r@[c]@.len() && self.reaches(*(r@[c]@[k]), x)
                    && self.reaches(x, *(r@[c]@[k])) ==> exists|k2: int|
                    0 <= k2 < r@[c]@.len() && *(r@[c]@[k2]) == x,
    {
        let n = self.nodes.len();
        let mut visited: Vec<bool> = Vec::new();
        let mut i: usize = 0;
        while i < n
            invariant
                i <= n,
                visited@.len() == i,
                forall|k: int| 0 <= k < i ==> !(#[trigger] visited@[k]),
            decreases n - i,
        {
            visited.push(false);
            i = i + 1;
        }
        let mut result: Vec<Vec<&T>> = Vec::new();
        // For each emitted component, the indices of its nodes and its
        // representative; completeness of every component is kept against
        // its representative.
        let ghost mut all_qs: Seq<Seq<int>> = Seq::empty();
        let ghost mut reps: Seq<int> = Seq::empty();
        let mut a: usize = 0;
        while a < n
            invariant
                self.wf(),
                eq_decides::<T>(),
                n == self.nodes@.len(),
                a <= n,
                visited@.len() == n,
                result@.len() == all_qs.len(),
                reps.len() == all_qs.len(),
                forall|c: int| 0 <= c < reps.len() ==> 0 <= #[trigger] reps[c] < n,
                forall|c: int|
                    0 <= c < all_qs.len() ==> 1 <= (#[trigger] all_qs[c]).len() == result@[c]@.len(),
                forall|c: int, k: int|
                    #![trigger all_qs[c][k]]
                    0 <= c < all_qs.len() && 0 <= k < all_qs[c].len() ==> 0 <= all_qs[c][k] < n
                        && *(result@[c]@[k]) == self.nodes@[all_qs[c][k]] && self.reach_idx(
                        reps[c],
                        all_qs[c][k],
                    ) && self.reach_idx(all_qs[c][k], reps[c]),
                forall|c: int, k1: int, k2: int|
                    #![trigger all_qs[c][k1], all_qs[c][k2]]
                    0 <= c < all_qs.len() && 0 <= k1 < k2 < all_qs[c].len() ==> all_qs[c][k1]
                        < all_qs[c][k2],
                forall|c: int, q: int|
                    0 <= c < all_qs.len() && 0 <= q < n && self.reach_idx(reps[c], q)
                        && self.reach_idx(q, reps[c]) ==> #[trigger] all_qs[c].contains(q),
                forall|c1: int, k1: int, c2: int, k2: int|
                    #![trigger all_qs[c1][k1], all_qs[c2][k2]]
                    0 <= c1 < c2 < all_qs.len() && 0 <= k1 < all_qs[c1].len() && 0 <= k2
                        < all_qs[c2].len() ==> all_qs[c1][k1] != all_qs[c2][k2],
                forall|q: int|
                    0 <= q < n ==> ((#[trigger] visited@[q]) <==> exists|c: int|
                        0 <= c < all_qs.len() && (#[trigger] all_qs[c]).contains(q)),
                forall|q: int| 0 <= q < a ==> #[trigger] visited@[q],
            decreases n - a,
        {
            if !visited[a] {
                proof {
                    assert(forall|c: int|
                        0 <= c < all_qs.len() ==> !(#[trigger] all_qs[c]).contains(a as int));
                }
                let mut scc: Vec<&T> = Vec::new();
                let ghost mut qs: Seq<int> = Seq::empty();
                let mut b: usize = 0;
                while b < n
                    invariant
                        self.wf(),
                        eq_decides::<T>(),
                        n == self.nodes@.len(),
                        a < n,
                        b <= n,
                        visited@.len() == n,
                        result@.len() == all_qs.len(),
                        reps.len() == all_qs.len(),
                        forall|c: int| 0 <= c < reps.len() ==> 0 <= #[trigger] reps[c] < n,
                        forall|c: int|
                            0 <= c < all_qs.len() ==> 1 <= (#[trigger] all_qs[c]).len()
                                == result@[c]@.len(),
                        forall|c: int, k: int|
                            #![trigger all_qs[c][k]]
                            0 <= c < all_qs.len() && 0 <= k < all_qs[c].len() ==> 0 <= all_qs[c][k]
                                < n && *(result@[c]@[k]) == self.nodes@[all_qs[c][k]]
                                && self.reach_idx(reps[c], all_qs[c][k]) && self.reach_idx(
                                all_qs[c][k],
                                reps[c],
                            ),
                        forall|c: int, k1: int, k2: int|
                            #![trigger all_qs[c][k1], all_qs[c][k2]]
                            0 <= c < all_qs.len() && 0 <= k1 < k2 < all_qs[c].len()
                                ==> all_qs[c][k1] < all_qs[c][k2],
                        forall|c: int, q: int|
                            0 <= c < all_qs.len() && 0 <= q < n && self.reach_idx(reps[c], q)
                                && self.reach_idx(q, reps[c]) ==> #[trigger] all_qs[c].contains(
                                q,
                            ),
                        forall|c1: int, k1: int, c2: int, k2: int|
                            #![trigger all_qs[c1][k1], all_qs[c2][k2]]
                            0 <= c1 < c2 < all_qs.len() && 0 <= k1 < all_qs[c1].len() && 0 <= k2
                                < all_qs[c2].len() ==> all_qs[c1][k1] != all_qs[c2][k2],
                        forall|c: int|
                            0 <= c < all_qs.len() ==> !(#[trigger] all_qs[c]).contains(a as int),
                        qs.len() == scc@.len(),
                        forall|k: int|
                            0 <= k < scc@.len() ==> 0 <= #[trigger] qs[k] < b && self.reach_idx(
                                a as int,
                                qs[k],
                            ) && self.reach_idx(qs[k], a as int) && *(scc@[k])
                                == self.nodes@[qs[k]],
                        forall|k1: int, k2: int|
                            #![trigger qs[k1], qs[k2]]
                            0 <= k1 < k2 < qs.len() ==> qs[k1] < qs[k2],
                        forall|q: int|
                            0 <= q < b && self.reach_idx(a as int, q) && self.reach_idx(
                                q,
                                a as int,
                            ) ==> qs.contains(q),
                        forall|q: int|
                            0 <= q < n ==> ((#[trigger] visited@[q]) <==> (exists|c: int|
                                0 <= c < all_qs.len() && (#[trigger] all_qs[c]).contains(q))
                                || qs.contains(q)),
                        forall|q: int| 0 <= q < a ==> #[trigger] visited@[q],
                    decreases n - b,
                {
                    if self.reach[a][b] && self.reach[b][a] {
                        scc.push(&self.nodes[b]);
                        visited[b] = true;
                        proof {
                            let qs0 = qs;
                            qs = qs.push(b as int);
                            assert(qs[qs.len() - 1] == b as int);
                            assert(*(scc@[scc@.len() - 1]) == self.nodes@[b as int]);
                            assert(forall|k: int|
                                0 <= k < qs0.len() ==> qs[k] == #[trigger] qs0[k]);
                            assert forall|q: int|
                                0 <= q < b + 1 && self.reach_idx(a as int, q) && self.reach_idx(
                                    q,
                                    a as int,
                                ) implies qs.contains(q) by {
                                if q == b {
                                    assert(qs[qs.len() - 1] == q);
                                } else {
                                    assert(qs0.contains(q));
                                    let k = choose|k: int| 0 <= k < qs0.len() && qs0[k] == q;
                                    assert(qs0[k] == q);
                                    assert(qs[k] == q);
                                    assert(qs.contains(q));
                                }
                            }
                            assert forall|q: int|
                                0 <= q < n implies ((#[trigger] visited@[q]) <==> (exists|c: int|
                                0 <= c < all_qs.len() && (#[trigger] all_qs[c]).contains(q))
                                || qs.contains(q)) by {
                                if q == b as int {
                                    assert(qs.contains(q)) by {
                                        assert(qs[qs.len() - 1] == q);
                                    }
                                } else {
                                    if qs.contains(q) {
                                        let k = choose|k: int|
                                            0 <= k < qs.len() && #[trigger] qs[k] == q;
                                        assert(k < qs0.len());
                                        assert(qs0[k] == q);
                                        assert(qs0.contains(q));
                                    }
                                    if qs0.contains(q) {
                                        let k = choose|k: int|
                                            0 <= k < qs0.len() && #[trigger] qs0[k] == q;
                                        assert(qs[k] == q);
                                        assert(qs.contains(q));
                                    }
                                }
                            }
                        }
                    } else {
                        proof {
                            assert forall|q: int|
                                0 <= q < b + 1 && self.reach_idx(a as int, q) && self.reach_idx(
                                    q,
                                    a as int,
                                ) implies qs.contains(q) by {
                                assert(q != b);
                            }
                        }
                    }
                    b = b + 1;
                }
                proof {
                    // `a` itself is in the component.
                    assert(self.reach_idx(a as int, a as int));
                    assert(qs.contains(a as int));
                    assert(scc@.len() >= 1);
                }
                result.push(scc);
                proof {
                    let all_qs0 = all_qs;
                    let reps0 = reps;
                    let c_new = all_qs.len() as int;
                    all_qs = all_qs.push(qs);
                    reps = reps.push(a as int);
                    assert(all_qs[c_new] == qs);
                    assert(reps[c_new] == a as int);
                    assert(forall|c: int| 0 <= c < c_new ==> all_qs[c] == #[trigger] all_qs0[c]);
                    assert(forall|c: int| 0 <= c < c_new ==> reps[c] == #[trigger] reps0[c]);
                    // The new component is disjoint from every earlier one:
                    // a member shared with component `c` would put `a`
                    // itself into `c`, but `a` was unvisited.
                    assert forall|c1: int, k1: int, k2: int|
                        #![trigger all_qs[c1][k1], qs[k2]]
                        0 <= c1 < c_new && 0 <= k1 < all_qs[c1].len() && 0 <= k2
                            < qs.len() implies all_qs[c1][k1] != qs[k2] by {
                        if all_qs[c1][k1] == qs[k2] {
                            let q = qs[k2];
                            assert(self.reach_idx(a as int, q) && self.reach_idx(q, a as int));
                            assert(self.reach_idx(reps[c1], q) && self.reach_idx(q, reps[c1]));
                            assert(self.reach_idx(reps[c1], a as int));
                            assert(self.reach_idx(a as int, reps[c1]));
                            assert(all_qs[c1].contains(a as int));
                            assert(false);
                        }
                    }
                    assert forall|q: int|
                        0 <= q < n implies ((#[trigger] visited@[q]) <==> exists|c: int|
                        0 <= c < all_qs.len() && (#[trigger] all_qs[c]).contains(q)) by {
                        if visited@[q] {
                            if qs.contains(q) {
                                assert(all_qs[c_new].contains(q));
                            } else {
                                let c = choose|c: int|
                                    0 <= c < all_qs0.len() && (#[trigger] all_qs0[c]).contains(q);
                                assert(all_qs[c].contains(q));
                            }
                        } else {
                            if exists|c: int|
                                0 <= c < all_qs.len() && (#[trigger] all_qs[c]).contains(q) {
                                let c = choose|c: int|
                                    0 <= c < all_qs.len() && (#[trigger] all_qs[c]).contains(q);
                                if c < c_new {
                                    assert(all_qs0[c].contains(q));
                                } else {
                                    assert(qs.contains(q));
                                }
                                assert(false);
                            }
                        }
                    }
                }
                proof {
                    assert(visited@[a as int]) by {
                        assert(qs.contains(a as int));
                    }
                }
            }
            a = a + 1;
        }
        proof {
            assert forall|c: int| 0 <= c < result@.len() implies (#[trigger] result@[c])@.len()
                >= 1 by {
                assert(all_qs[c].len() >= 1);
            }
            assert forall|x: T| self.interned(x) implies exists|c: int, k: int|
                0 <= c < result@.len() && 0 <= k < result@[c]@.len() && *(#[trigger] result@[c]@[k])
                    == x by {
                let q = choose|q: int| 0 <= q < self.nodes@.len() && self.nodes@[q] == x;
                assert(self.nodes_view()[q] == x);
                assert(visited@[q]);
                let c = choose|c: int|
                    0 <= c < all_qs.len() && (#[trigger] all_qs[c]).contains(q);
                let k = choose|k: int| 0 <= k < all_qs[c].len() && #[trigger] all_qs[c][k] == q;
                assert(*(result@[c]@[k]) == self.nodes@[q]);
            }
            assert forall|c: int, k1: int, k2: int|
                0 <= c < result@.len() && 0 <= k1 < result@[c]@.len() && 0 <= k2
                    < result@[c]@.len() implies self.reaches(
                *(#[trigger] result@[c]@[k1]),
                *(#[trigger] result@[c]@[k2]),
            ) by {
                let q1 = all_qs[c][k1];
                let q2 = all_qs[c][k2];
                assert(self.reach_idx(q1, reps[c]) && self.reach_idx(reps[c], q2));
                assert(self.reach_idx(q1, q2));
                assert(self.nodes_view()[q1] == *(result@[c]@[k1]));
                assert(self.nodes_view()[q2] == *(result@[c]@[k2]));
                assert(self.reaches(*(result@[c]@[k1]), *(result@[c]@[k2])));
            }
            assert forall|c: int, k: int, x: T|
                #![trigger self.reaches(*(result@[c]@[k]), x)]
                0 <= c < result@.len() && 0 <= k < result@[c]@.len() && self.reaches(
                    *(result@[c]@[k]),
                    x,
                ) && self.reaches(x, *(result@[c]@[k])) implies exists|k2: int|
                0 <= k2 < result@[c]@.len() && *(result@[c]@[k2]) == x by {
                let q = all_qs[c][k];
                // The member's index and the candidate's index are mutually
                // reachable, hence so are the representative and the
                // candidate, which therefore belongs to the component.
                let (i, j): (int, int) = choose|i: int, j: int|
                    0 <= i < self.nodes@.len() && 0 <= j < self.nodes@.len() && self.nodes@[i]
                        == *(result@[c]@[k]) && self.nodes@[j] == x && #[trigger] self.reach_idx(
                        i,
                        j,
                    );
                assert(self.nodes@[q] == *(result@[c]@[k]));
                assert(i == q);
                let (i2, j2): (int, int) = choose|i2: int, j2: int|
                    0 <= i2 < self.nodes@.len() && 0 <= j2 < self.nodes@.len() && self.nodes@[i2]
                        == x && self.nodes@[j2] == *(result@[c]@[k]) && #[trigger] self.reach_idx(
                        i2,
                        j2,
                    );
                assert(i2 == j && j2 == q);
                assert(self.reach_idx(q, j) && self.reach_idx(j, q));
                assert(self.reach_idx(reps[c], q) && self.reach_idx(q, reps[c]));
                assert(self.reach_idx(reps[c], j) && self.reach_idx(j, reps[c]));
                assert(all_qs[c].contains(j));
                let k2 = choose|k2: int| 0 <= k2 < all_qs[c].len() && #[trigger] all_qs[c][k2] == j;
                assert(*(result@[c]@[k2]) == self.nodes@[j]);
            }
            assert forall|c1: int, k1: int, c2: int, k2: int|
                #![trigger result@[c1]@[k1], result@[c2]@[k2]]
                0 <= c1 < result@.len() && 0 <= k1 < result@[c1]@.len() && 0 <= c2 < result@.len()
                    && 0 <= k2 < result@[c2]@.len() && (c1, k1) != (c2, k2) implies *(
            result@[c1]@[k1]) != *(result@[c2]@[k2]) by {
                if c1 == c2 {
                    assert(all_qs[c1][k1] != all_qs[c1][k2]);
                    assert(self.nodes@[all_qs[c1][k1]] != self.nodes@[all_qs[c2][k2]]);
                } else {
                    assert(all_qs[c1][k1] != all_qs[c2][k2]);
                    assert(self.nodes@[all_qs[c1][k1]] != self.nodes@[all_qs[c2][k2]]);
                }
            }
        }
        result
    }
}

/// Exported basics of the closed relation: every interned node reaches
/// itself, and reachability holds between interned nodes only.
pub proof fn lemma_reaches_basics<T: PartialEq>(g: &ReachabilityGraph<T>)
    requires
        g.wf(),
    ensures
        forall|x: T| #[trigger] g.interned(x) ==> g.reaches(x, x),
        forall|x: T, y: T| #[trigger] g.reaches(x, y) ==> g.interned(x) && g.interned(y),
{
    assert forall|x: T| #[trigger] g.interned(x) implies g.reaches(x, x) by {
        let i = choose|i: int| 0 <= i < g.nodes_view().len() && g.nodes_view()[i] == x;
        assert(g.reach_idx(i, i));
        assert(g.reaches(x, x));
    }
    assert forall|x: T, y: T| #[trigger] g.reaches(x, y) implies g.interned(x) && g.interned(
        y,
    ) by {
        let (i, j): (int, int) = choose|i: int, j: int|
            0 <= i < g.nodes_view().len() && 0 <= j < g.nodes_view().len() && g.nodes_view()[i]
                == x && g.nodes_view()[j] == y && #[trigger] g.reach_idx(i, j);
        assert(g.nodes_view()[i] == x);
        assert(g.nodes_view()[j] == y);
    }
}

/// A copy of a row of flags.
fn copy_flags(v: &Vec<bool>) -> (r: Vec<bool>)
    ensures
        r@ == v@,
{
    let mut r: Vec<bool> = Vec::new();
    let mut i: usize = 0;
    while i < v.len()
        invariant
            i <= v@.len(),
            r@ == v@.take(i as int),
        decreases v@.len() - i,
    {
        r.push(v[i]);
        proof {
            assert(r@ =~= v@.take(i + 1));
        }
        i = i + 1;
    }
    proof {
        assert(v@.take(v@.len() as int) =~= v@);
    }
    r
}

} // verus!
