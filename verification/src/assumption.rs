//! A hypothesised value for one cell: the currency of deduction, used both
//! for speculation and to record forced moves.
use crate::common::CellValue;
use crate::field::Field;
use crate::line::LineType;
use crate::reachability_graph::{eq_decides, ReachabilityGraph};
use vstd::prelude::*;
use vstd::std_specs::cmp::PartialEqSpec;

verus! {

/// One cell set to one known value.
#[derive(Clone, Copy, Debug, Eq, Hash)]
pub struct Assumption {
    pub coords: (usize, usize),
    pub val: CellValue,
}

impl PartialEq for Assumption {
    fn eq(&self, other: &Self) -> (r: bool) {
        self.coords.0 == other.coords.0 && self.coords.1 == other.coords.1 && self.val == other.val
    }
}

impl vstd::std_specs::cmp::PartialEqSpecImpl for Assumption {
    open spec fn obeys_eq_spec() -> bool {
        true
    }

    open spec fn eq_spec(&self, other: &Assumption) -> bool {
        self.coords == other.coords && self.val == other.val
    }
}

impl Assumption {
    pub open spec fn invert_spec(self) -> Assumption {
        Assumption { coords: self.coords, val: self.val.invert_spec() }
    }

    /// A known value for an assumption: never the undecided cell.
    pub open spec fn known(self) -> bool {
        self.val != CellValue::Unknown
    }

    /// The same cell, the opposite known value.
    pub fn invert(&self) -> (r: Self)
        requires
            self.known(),
        ensures
            r == self.invert_spec(),
    {
        Assumption { coords: self.coords, val: self.val.invert() }
    }

    /// Writes the assumed value into the field.
    pub fn apply(&self, field: &mut Field)
        requires
            old(field).wf(),
            old(field).in_bounds(self.coords),
        ensures
            final(field).wf(),
            final(field).nrows() == old(field).nrows(),
            final(field).ncols() == old(field).ncols(),
            final(field)@ == old(field)@.update(
                self.coords.0 as int,
                old(field)@[self.coords.0 as int].update(self.coords.1 as int, self.val),
            ),
    {
        field.set(self.coords, self.val);
    }

    /// Withdraws the assumption, leaving the cell undecided again.
    pub fn unapply(&self, field: &mut Field)
        requires
            old(field).wf(),
            old(field).in_bounds(self.coords),
        ensures
            final(field).wf(),
            final(field).nrows() == old(field).nrows(),
            final(field).ncols() == old(field).ncols(),
            final(field)@ == old(field)@.update(
                self.coords.0 as int,
                old(field)@[self.coords.0 as int].update(
                    self.coords.1 as int,
                    CellValue::Unknown,
                ),
            ),
    {
        field.set(self.coords, CellValue::Unknown);
    }

    pub open spec fn line_idx_spec(self, line_type: LineType) -> usize {
        match line_type {
            LineType::Row => self.coords.0,
            LineType::Col => self.coords.1,
        }
    }

    /// The index of the line of the given kind that this assumption lies on.
    pub fn line_idx(&self, line_type: LineType) -> (r: usize)
        ensures
            r == self.line_idx_spec(line_type),
    {
        match line_type {
            LineType::Row => self.coords.0,
            LineType::Col => self.coords.1,
        }
    }
}

/// The hand-written equality of assumptions decides spec equality.
pub proof fn lemma_assumption_eq_decides()
    ensures
        eq_decides::<Assumption>(),
{
    assert forall|x: Assumption, y: Assumption| #[trigger] x.eq_spec(&y) <==> x == y by {
        if x.eq_spec(&y) {
            assert(x.coords == y.coords && x.val == y.val);
            assert(x == y);
        }
    }
}

/// An assumption that transitively implies both values at some cell: taking
/// it leads to a contradiction, so its inverse is forced.
pub open spec fn assumption_impossible(
    graph: &ReachabilityGraph<Assumption>,
    node: Assumption,
) -> bool {
    exists|y: Assumption, z: Assumption|
        #[trigger] graph.reaches(node, y) && #[trigger] graph.reaches(node, z) && y.coords
            == z.coords && y != z
}

/// The impossible assumptions among the graph's first `upto` nodes, in
/// interning order.
pub open spec fn impossible_upto(
    graph: &ReachabilityGraph<Assumption>,
    upto: int,
) -> Seq<Assumption>
    decreases upto,
{
    if upto <= 0 {
        Seq::empty()
    } else {
        impossible_upto(graph, upto - 1) + if assumption_impossible(
            graph,
            graph.nodes_view()[upto - 1],
        ) {
            seq![graph.nodes_view()[upto - 1]]
        } else {
            Seq::empty()
        }
    }
}

impl ReachabilityGraph<Assumption> {
    /// Does this assumption reach two conflicting assumptions on one cell?
    /// Looking up a node that was never interned is a caller error.
    pub fn is_impossible(&self, node: &Assumption) -> (r: bool)
        requires
            self.wf(),
            self.interned(*node),
        ensures
            r == assumption_impossible(self, *node),
    {
        proof {
            lemma_assumption_eq_decides();
        }
        let reachable = match self.get_reachable(node) {
            Some(v) => v,
            None => {
                proof {
                    assert(false);
                }
                return false;
            },
        };
        let len = reachable.len();
        let mut k1: usize = 0;
        while k1 < len
            invariant
                self.wf(),
                len == reachable@.len(),
                k1 <= len,
                forall|k: int|
                    0 <= k < len ==> self.reaches(*node, *(#[trigger] reachable@[k])),
                forall|y: Assumption|
                    self.reaches(*node, y) ==> exists|k: int|
                        0 <= k < len && *(#[trigger] reachable@[k]) == y,
                forall|i: int, j: int|
                    0 <= i < j < len ==> *(#[trigger] reachable@[i]) != *(
                    #[trigger] reachable@[j]),
                forall|i: int, j: int|
                    #![trigger reachable@[i], reachable@[j]]
                    0 <= i < j < len && i < k1 ==> (reachable@[i]).coords != (
                    reachable@[j]).coords,
            decreases len - k1,
        {
            let mut k2: usize = k1 + 1;
            while k2 < len
                invariant
                    self.wf(),
                    len == reachable@.len(),
                    k1 < len,
                    k1 < k2 <= len,
                    forall|k: int|
                        0 <= k < len ==> self.reaches(*node, *(#[trigger] reachable@[k])),
                    forall|i: int, j: int|
                        0 <= i < j < len ==> *(#[trigger] reachable@[i]) != *(
                        #[trigger] reachable@[j]),
                    forall|j: int|
                        #![trigger reachable@[j]]
                        k1 < j < k2 ==> (reachable@[k1 as int]).coords != (reachable@[j]).coords,
                decreases len - k2,
            {
                let a = reachable[k1];
                let b = reachable[k2];
                if a.coords.0 == b.coords.0 && a.coords.1 == b.coords.1 {
                    proof {
                        assert(*reachable@[k1 as int] != *reachable@[k2 as int]);
                        assert(self.reaches(*node, *reachable@[k1 as int]));
                        assert(self.reaches(*node, *reachable@[k2 as int]));
                        assert(assumption_impossible(self, *node));
                    }
                    return true;
                }
                k2 = k2 + 1;
            }
            k1 = k1 + 1;
        }
        proof {
            if assumption_impossible(self, *node) {
                let (y, z): (Assumption, Assumption) = choose|y: Assumption, z: Assumption|
                    #[trigger] self.reaches(*node, y) && #[trigger] self.reaches(*node, z)
                        && y.coords == z.coords && y != z;
                let i = choose|k: int| 0 <= k < len && *(#[trigger] reachable@[k]) == y;
                let j = choose|k: int| 0 <= k < len && *(#[trigger] reachable@[k]) == z;
                assert(i != j);
                assert(false);
            }
        }
        false
    }

    /// Every interned assumption that is impossible, each exactly once.
    pub fn get_impossible(&self) -> (r: Vec<Assumption>)
        requires
            self.wf(),
        ensures
            r@ == impossible_upto(self, self.nodes_view().len() as int),
            forall|k: int|
                0 <= k < r@.len() ==> self.interned(#[trigger] r@[k]) && assumption_impossible(
                    self,
                    r@[k],
                ),
            forall|x: Assumption|
                self.interned(x) && assumption_impossible(self, x) ==> r@.contains(x),
            forall|i: int, j: int|
                #![trigger r@[i], r@[j]]
                0 <= i < j < r@.len() ==> r@[i] != r@[j],
    {
        let nodes = self.nodes();
        let mut r: Vec<Assumption> = Vec::new();
        let mut i: usize = 0;
        while i < nodes.len()
            invariant
                self.wf(),
                nodes@ == self.nodes_view(),
                forall|i2: int, j2: int| 0 <= i2 < j2 < nodes@.len() ==> nodes@[i2] != nodes@[j2],
                forall|i2: int| 0 <= i2 < nodes@.len() ==> self.interned(#[trigger] nodes@[i2]),
                i <= nodes@.len(),
                forall|k: int|
                    0 <= k < r@.len() ==> self.interned(#[trigger] r@[k])
                        && assumption_impossible(self, r@[k]),
                forall|i2: int|
                    0 <= i2 < i && assumption_impossible(self, #[trigger] nodes@[i2])
                        ==> r@.contains(nodes@[i2]),
                forall|k: int|
                    0 <= k < r@.len() ==> exists|i2: int|
                        0 <= i2 < i && #[trigger] r@[k] == nodes@[i2],
                forall|i2: int, j2: int|
                    #![trigger r@[i2], r@[j2]]
                    0 <= i2 < j2 < r@.len() ==> r@[i2] != r@[j2],
                r@ == impossible_upto(self, i as int),
            decreases nodes@.len() - i,
        {
            if self.is_impossible(&nodes[i]) {
                proof {
                    assert(impossible_upto(self, i + 1) =~= impossible_upto(self, i as int)
                        + seq![self.nodes_view()[i as int]]);
                    assert forall|k: int| 0 <= k < r@.len() implies #[trigger] r@[k]
                        != nodes@[i as int] by {
                        let i2 = choose|i2: int| 0 <= i2 < i && #[trigger] r@[k] == nodes@[i2];
                        assert(nodes@[i2] != nodes@[i as int]);
                    }
                }
                let ghost r0 = r@;
                r.push(nodes[i]);
                proof {
                    assert(r@[r@.len() - 1] == nodes@[i as int]);
                    assert(forall|k: int| 0 <= k < r0.len() ==> r@[k] == #[trigger] r0[k]);
                    assert forall|i2: int|
                        0 <= i2 < i + 1 && assumption_impossible(
                            self,
                            #[trigger] nodes@[i2],
                        ) implies r@.contains(nodes@[i2]) by {
                        if i2 == i {
                            assert(r@[r@.len() - 1] == nodes@[i2]);
                        } else {
                            assert(r0.contains(nodes@[i2]));
                            let k = choose|k: int| 0 <= k < r0.len() && r0[k] == nodes@[i2];
                            assert(r@[k] == nodes@[i2]);
                        }
                    }
                }
            } else {
                proof {
                    assert forall|i2: int|
                        0 <= i2 < i + 1 && assumption_impossible(
                            self,
                            #[trigger] nodes@[i2],
                        ) implies r@.contains(nodes@[i2]) by {
                        assert(i2 != i);
                    }
                    assert(impossible_upto(self, i + 1) =~= impossible_upto(self, i as int));
                }
            }
            i = i + 1;
        }
        proof {
            assert forall|x: Assumption|
                self.interned(x) && assumption_impossible(self, x) implies r@.contains(x) by {
                let i2 = choose|i2: int|
                    0 <= i2 < self.nodes_view().len() && self.nodes_view()[i2] == x;
                assert(nodes@[i2] == x);
            }
        }
        r
    }
}

} // verus!
