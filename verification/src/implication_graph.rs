use vstd::prelude::*;
use std::collections::HashSet;
use vstd::std_specs::iter::IteratorSpec;
use crate::util::{lit2idx, lit_abs, var_of};
use crate::sat_solver::Clause3;

verus! {

broadcast use vstd::std_specs::hash::group_hash_axioms;

/// `g1` is `g0` with the variable of `literal` given a new node with parent entries `p` and
/// no children, in the last free slot or a new one: the index table grows to cover the
/// variable and no other variable's slot changes.
pub open spec fn node_placed(g0: ImplicationGraph, g1: ImplicationGraph, literal: i32, p: (i32, i32)) -> bool {
    let x = var_of(literal) - 1;
    let k = g1.slot_of(x);
    &&& g1.room() == (if var_of(literal) > g0.room() { var_of(literal) } else { g0.room() as int })
    &&& k == (if g0.free_slots().len() == 0 { g0.node_count() + 1 } else { g0.free_slots().last() as nat })
    &&& g1.free_slots() == (if g0.free_slots().len() == 0 { g0.free_slots() } else { g0.free_slots().drop_last() })
    &&& g1.node_count() == (if g0.free_slots().len() == 0 { g0.node_count() + 1 } else { g0.node_count() })
    &&& forall|v: int| v != x ==> #[trigger] g1.slot_of(v) == g0.slot_of(v)
    &&& g1.slot_parents(k as int) == p
    &&& g1.slot_children(k as int) == Set::<i32>::empty()
}

/// `g1` is `g0` after recording `literal` as a decision: a new node with parents `(-1, -1)`,
/// and every other slot as it was.
pub open spec fn root_added(g0: ImplicationGraph, g1: ImplicationGraph, literal: i32) -> bool {
    let k = g1.slot_of(var_of(literal) - 1) as int;
    &&& node_placed(g0, g1, literal, (-1i32, -1i32))
    &&& forall|j: int| 1 <= j <= g0.node_count() && j != k ==> #[trigger] g1.slot_parents(j) == g0.slot_parents(j)
        && g1.slot_children(j) == g0.slot_children(j)
}

/// `g1` is `g0` with the node of the variable of `literal` removed: its slot goes to the end
/// of the free list, its index entry becomes `0`, and the other entries, the room and the
/// node count stay.
pub open spec fn node_removed(g0: ImplicationGraph, g1: ImplicationGraph, literal: i32) -> bool {
    let x = var_of(literal) - 1;
    &&& g1.slot_of(x) == 0
    &&& g1.free_slots() == g0.free_slots().push(g0.slot_of(x) as usize)
    &&& g1.node_count() == g0.node_count()
    &&& g1.room() == g0.room()
    &&& forall|v: int| v != x ==> #[trigger] g1.slot_of(v) == g0.slot_of(v)
}

/// Recording a decision for a variable that has no node, in a reused free slot, and then
/// removing that node, gives back the index table, the free list and the node count.
pub proof fn lemma_root_then_remove(g0: ImplicationGraph, g1: ImplicationGraph, g2: ImplicationGraph, literal: i32)
    requires
        root_added(g0, g1, literal),
        node_removed(g1, g2, literal),
        literal != 0,
        var_of(literal) <= g0.room(),
        g0.slot_of(var_of(literal) - 1) == 0,
        g0.free_slots().len() > 0,
    ensures
        g2.free_slots() == g0.free_slots(),
        g2.node_count() == g0.node_count(),
        g2.room() == g0.room(),
        forall|v: int| #[trigger] g2.slot_of(v) == g0.slot_of(v),
{
    let f = g0.free_slots();
    assert(g1.slot_of(var_of(literal) - 1) == f.last() as nat);
    assert(f.drop_last().push(f.last()) =~= f);
    assert forall|v: int| #[trigger] g2.slot_of(v) == g0.slot_of(v) by {
        if v != var_of(literal) - 1 {
            assert(g1.slot_of(v) == g0.slot_of(v));
        }
    }
}

/// The slot that parent entry `p` named in `g`, or `0` for an unused entry.
pub open spec fn parent_slot(g: ImplicationGraph, p: i32) -> int {
    if p != 0 { g.slot_of(pvar(p)) as int } else { 0 }
}

/// `g1` is `g0` after recording `literal` as implied with parent entries `p0`, `p1`: a new
/// node with those parents, the literal's variable number added to the child set of the
/// node each nonzero entry named before, and every other slot as it was.
pub open spec fn child_added(g0: ImplicationGraph, g1: ImplicationGraph, literal: i32, p0: i32, p1: i32) -> bool {
    let k = g1.slot_of(var_of(literal) - 1) as int;
    &&& node_placed(g0, g1, literal, (p0, p1))
    &&& forall|j: int| 1 <= j <= g0.node_count() && j != k ==> #[trigger] g1.slot_parents(j) == g0.slot_parents(j)
        && g1.slot_children(j) == (if (p0 != 0 && j == parent_slot(g0, p0)) || (p1 != 0 && j == parent_slot(g0, p1)) {
            g0.slot_children(j).insert(var_of(literal) as i32) } else { g0.slot_children(j) })
}

/// The index of the variable that a (nonzero) literal or parent entry names.
pub open spec fn pvar(p: i32) -> int {
    var_of(p) - 1
}

/// The variable indices of a set of variable numbers.
pub open spec fn removed_indices(s: Set<i32>) -> Set<int> {
    Set::new(|v: int| 0 <= v < i32::MAX && s.contains((v + 1) as i32))
}

/// The elements of a set, each once, in the set's iteration order.
fn set_to_vec(s: &HashSet<i32>) -> (v: Vec<i32>)
    ensures
        v@.to_set() == s@,
        v@.no_duplicates(),
{
    let mut v: Vec<i32> = Vec::new();
    let ghost keys = vstd::std_specs::hash::spec_hash_keys_iter(s).remaining().unref();
    for x in it: s.iter()
        invariant
            it.seq().unref() == keys,
            keys.to_set() == s@,
            keys.no_duplicates(),
            v@ == keys.take(it.index() as int),
    {
        v.push(*x);
        assert(keys.take(it.index() as int + 1) =~= keys.take(it.index() as int).push(keys[it.index() as int]));
    }
    assert(v@ =~= keys);
    v
}

/// A node of the graph: the variables that implied it (`[-1, -1]` for a decision,
/// `0` for an unused slot) and the variables whose value it helped imply.
struct Node {
    parents: [i32; 2],
    children: HashSet<i32>,
}

/// The implication graph of a solver: one node per assigned variable, linking each
/// implied variable to the variables of the clause that implied it.
pub struct ImplicationGraph {
    nodes: Vec<Node>,
    idx2node: Vec<usize>,
    free: Vec<usize>,
    rank: Ghost<Map<int, nat>>,
    clock: Ghost<nat>,
}

impl View for ImplicationGraph {
    /// Each variable index that has a node, mapped to the node's two parent entries.
    type V = Map<int, (i32, i32)>;

    closed spec fn view(&self) -> Map<int, (i32, i32)> {
        Map::new(|v: int| self.live(v), |v: int| self.parents_of(v))
    }
}

impl ImplicationGraph {
    /// Variable index `v` has a node.
    pub closed spec fn live(&self, v: int) -> bool {
        0 <= v < self.idx2node@.len() && self.idx2node@[v] > 0
    }

    closed spec fn node(&self, v: int) -> Node {
        self.nodes@[self.idx2node@[v] - 1]
    }

    closed spec fn parents_of(&self, v: int) -> (i32, i32) {
        (self.node(v).parents[0], self.node(v).parents[1])
    }

    closed spec fn children_of(&self, v: int) -> Set<i32> {
        self.node(v).children@
    }

    /// The order in which the nodes were created: every parent is older than its child.
    pub closed spec fn rank_of(&self, v: int) -> nat {
        self.rank@[v]
    }

    /// The node of `x` is a decision.
    pub open spec fn is_root(&self, x: int) -> bool {
        self@[x].0 == -1
    }

    /// The node of `x` was implied by a clause with no other literal.
    pub open spec fn is_unit(&self, x: int) -> bool {
        self@[x].0 == 0 && self@[x].1 == 0
    }

    /// `v` is a parent of the node of `x`.
    pub open spec fn is_parent(&self, v: int, x: int) -> bool {
        let (p0, p1) = self@[x];
        p0 != -1 && ((p0 != 0 && pvar(p0) == v) || (p1 != 0 && pvar(p1) == v))
    }

    /// The variables from which the node of `x` was implied, directly or through other
    /// implied nodes; decisions end the chain.
    pub open spec fn ancestors(&self, x: int) -> Set<int>
        decreases self.rank_of(x),
    {
        if !self@.dom().contains(x) || self.is_root(x) {
            Set::empty()
        } else {
            let (p0, p1) = self@[x];
            let a0 = if p0 != 0 && self.rank_of(pvar(p0)) < self.rank_of(x) {
                self.ancestors(pvar(p0)).insert(pvar(p0))
            } else {
                Set::empty()
            };
            let a1 = if p1 != 0 && self.rank_of(pvar(p1)) < self.rank_of(x) {
                self.ancestors(pvar(p1)).insert(pvar(p1))
            } else {
                Set::empty()
            };
            a0 + a1
        }
    }

    /// The variables reached from literal `l`: its own variable and all its ancestors.
    pub open spec fn reach(&self, l: i32) -> Set<int> {
        if l == 0 || !self@.dom().contains(pvar(l)) {
            Set::empty()
        } else {
            self.ancestors(pvar(l)).insert(pvar(l))
        }
    }

    /// The variable numbers whose nodes descend from the node of `s`.
    pub open spec fn descendants(&self, s: int) -> Set<i32> {
        Set::new(|c: i32| c > 0 && self@.dom().contains(c - 1) && self.ancestors(c - 1).contains(s))
    }

    /// The decisions among the variables of `vs`, as variable numbers.
    pub open spec fn roots_in(&self, vs: Set<int>) -> Set<i32> {
        Set::new(|r: i32| r > 0 && vs.contains(r - 1) && self.is_root(r - 1))
    }

    /// The variables that fall with the variables of `vs`: the unit-implied ones among them,
    /// and every descendant of a decision or unit-implied variable among them.
    pub open spec fn implied_in(&self, vs: Set<int>) -> Set<i32> {
        Set::new(|c: i32| c > 0 && self@.dom().contains(c - 1) && (
            (vs.contains(c - 1) && self.is_unit(c - 1))
            || exists|s: int| vs.contains(s) && (self.is_root(s) || self.is_unit(s))
                && #[trigger] self.ancestors(c - 1).contains(s)))
    }

    /// The variables reached from the literals of a clause.
    pub open spec fn cone(&self, lits: Seq<i32>) -> Set<int> {
        self.reach(lits[0]) + self.reach(lits[1]) + self.reach(lits[2])
    }

    /// The decisions behind a falsified clause.
    pub open spec fn conflict_roots(&self, lits: Seq<i32>) -> Set<i32> {
        self.roots_in(self.cone(lits))
    }

    /// The variables whose values fall with the decisions behind a falsified clause.
    pub open spec fn conflict_implied(&self, lits: Seq<i32>) -> Set<i32> {
        self.implied_in(self.cone(lits))
    }

    /// One step of the ancestor relation, with the parents of a live non-root node.
    proof fn lemma_anc_unfold(&self, x: int)
        requires
            self.wf(),
            self.live(x),
            !self.is_root(x),
        ensures
            ({
                let (p0, p1) = self@[x];
                &&& p0 != 0 ==> self.live(pvar(p0)) && self.rank_of(pvar(p0)) < self.rank_of(x)
                &&& p1 != 0 ==> self.live(pvar(p1)) && self.rank_of(pvar(p1)) < self.rank_of(x)
                &&& self.ancestors(x) == (if p0 != 0 { self.ancestors(pvar(p0)).insert(pvar(p0)) } else { Set::empty() })
                    + (if p1 != 0 { self.ancestors(pvar(p1)).insert(pvar(p1)) } else { Set::empty() })
            }),
    {
        assert(self@.dom().contains(x));
    }

    /// The parents of an implied node have nodes of their own, are older, and are among
    /// its ancestors together with all of their own ancestors.
    pub proof fn lemma_parents(&self, x: int)
        requires
            self.wf(),
            self@.dom().contains(x),
            !self.is_root(x),
        ensures
            ({
                let (p0, p1) = self@[x];
                &&& p0 != 0 ==> p0 != i32::MIN && self@.dom().contains(pvar(p0))
                    && self.rank_of(pvar(p0)) < self.rank_of(x) && self.ancestors(x).contains(pvar(p0))
                    && self.ancestors(pvar(p0)).subset_of(self.ancestors(x))
                &&& p1 != 0 ==> p1 != i32::MIN && self@.dom().contains(pvar(p1))
                    && self.rank_of(pvar(p1)) < self.rank_of(x) && self.ancestors(x).contains(pvar(p1))
                    && self.ancestors(pvar(p1)).subset_of(self.ancestors(x))
            }),
    {
        self.lemma_anc_unfold(x);
        assert(self.live(x));
    }

    /// Variable indices with nodes lie within `i32`.
    pub proof fn lemma_dom_bounded(&self)
        requires
            self.wf(),
        ensures
            forall|v: int| #[trigger] self@.dom().contains(v) ==> 0 <= v < i32::MAX,
    {
        assert forall|v: int| #[trigger] self@.dom().contains(v) implies 0 <= v < i32::MAX by {
            assert(self.live(v));
        }
    }

    /// Every ancestor of a node has a node of its own.
    pub proof fn lemma_ancestors_in_dom(&self, x: int)
        requires
            self.wf(),
            self@.dom().contains(x),
        ensures
            forall|a: int| #[trigger] self.ancestors(x).contains(a) ==> self@.dom().contains(a),
    {
        self.lemma_anc_live(x);
    }

    /// Every ancestor is live and older.
    proof fn lemma_anc_live(&self, x: int)
        requires
            self.wf(),
            self.live(x),
        ensures
            forall|a: int| #[trigger] self.ancestors(x).contains(a) ==> self.live(a) && self.rank_of(a) < self.rank_of(x),
        decreases self.rank_of(x),
    {
        if !self.is_root(x) {
            self.lemma_anc_unfold(x);
            let (p0, p1) = self@[x];
            if p0 != 0 {
                self.lemma_anc_live(pvar(p0));
            }
            if p1 != 0 {
                self.lemma_anc_live(pvar(p1));
            }
        } else {
            assert(self@.dom().contains(x));
        }
    }

    /// The ancestors of an ancestor are ancestors.
    proof fn lemma_anc_trans(&self, a: int, b: int)
        requires
            self.wf(),
            self.live(b),
            self.ancestors(b).contains(a),
        ensures
            self.ancestors(a).subset_of(self.ancestors(b)),
        decreases self.rank_of(b),
    {
        assert(self@.dom().contains(b));
        assert(!self.is_root(b));
        self.lemma_anc_unfold(b);
        let (p0, p1) = self@[b];
        if p0 != 0 && (a == pvar(p0) || self.ancestors(pvar(p0)).contains(a)) {
            if a != pvar(p0) {
                self.lemma_anc_trans(a, pvar(p0));
            }
        } else {
            assert(p1 != 0);
            if a != pvar(p1) {
                self.lemma_anc_trans(a, pvar(p1));
            }
        }
    }

    /// A parent is an ancestor.
    proof fn lemma_parent_anc(&self, v: int, x: int)
        requires
            self.wf(),
            self.live(x),
            self.is_parent(v, x),
        ensures
            self.ancestors(x).contains(v),
            self.live(v),
    {
        assert(self@.dom().contains(x));
        self.lemma_anc_unfold(x);
    }

    /// Each descendant of `x` is a child of `x` or descends from one.
    proof fn lemma_desc_via_child(&self, x: int, y: int)
        requires
            self.wf(),
            self.live(y),
            self.ancestors(y).contains(x),
        ensures
            exists|c: i32| #[trigger] self.children_of(x).contains(c) && (c - 1 == y || self.ancestors(y).contains(c - 1)),
        decreases self.rank_of(y),
    {
        self.lemma_anc_live(y);
        assert(self.live(x));
        assert(self@.dom().contains(y));
        assert(!self.is_root(y));
        self.lemma_anc_unfold(y);
        let (p0, p1) = self@[y];
        let s = Set::new(|c: i32| c > 0 && self.live(c - 1) && self.is_parent(x, c - 1));
        assert(self.children_of(x) == s);
        if (p0 != 0 && pvar(p0) == x) || (p1 != 0 && pvar(p1) == x) {
            let c = (y + 1) as i32;
            assert(s.contains(c));
        } else {
            let q = if p0 != 0 && self.ancestors(pvar(p0)).contains(x) { pvar(p0) } else { pvar(p1) };
            assert(self.ancestors(q).contains(x));
            assert(self.ancestors(y).contains(q));
            self.lemma_desc_via_child(x, q);
            let c = choose|c: i32| #[trigger] self.children_of(x).contains(c) && (c - 1 == q || self.ancestors(q).contains(c - 1));
            if c - 1 != q {
                self.lemma_anc_trans(q, y);
            }
            assert(self.children_of(x).contains(c) && (c - 1 == y || self.ancestors(y).contains(c - 1)));
        }
    }

    /// The descendants of `x` are its children and their descendants.
    proof fn lemma_desc_split(&self, x: int)
        requires
            self.wf(),
            self.live(x),
        ensures
            self.descendants(x) == Set::new(|y: i32| exists|c: i32| #[trigger] self.children_of(x).contains(c)
                && (y == c || self.descendants(c - 1).contains(y))),
    {
        let rhs = Set::new(|y: i32| exists|c: i32| #[trigger] self.children_of(x).contains(c)
            && (y == c || self.descendants(c - 1).contains(y)));
        let s = Set::new(|c: i32| c > 0 && self.live(c - 1) && self.is_parent(x, c - 1));
        assert(self.children_of(x) == s);
        assert forall|y: i32| #[trigger] self.descendants(x).contains(y) <==> rhs.contains(y) by {
            if self.descendants(x).contains(y) {
                assert(self@.dom().contains(y - 1));
                self.lemma_desc_via_child(x, y - 1);
                let c = choose|c: i32| #[trigger] self.children_of(x).contains(c) && (c - 1 == y - 1 || self.ancestors(y - 1).contains(c - 1));
                if c - 1 != y - 1 {
                    assert(self.descendants(c - 1).contains(y));
                }
                assert(rhs.contains(y));
            }
            if rhs.contains(y) {
                let c = choose|c: i32| #[trigger] self.children_of(x).contains(c)
                    && (y == c || self.descendants(c - 1).contains(y));
                assert(s.contains(c));
                self.lemma_parent_anc(x, c - 1);
                if y != c {
                    assert(self@.dom().contains(y - 1));
                    self.lemma_anc_trans(c - 1, y - 1);
                }
            }
        }
        assert(self.descendants(x) =~= rhs);
    }

    closed spec fn parent_ok(&self, v: int, p: i32) -> bool {
        p == 0 || (p != i32::MIN && self.live(pvar(p)) && self.rank_of(pvar(p)) < self.rank_of(v))
    }

    /// Index structure: node ids in range, one node per variable, a free list of unused ids.
    closed spec fn wf_struct(&self) -> bool {
        &&& forall|v: int| 0 <= v < self.idx2node@.len() ==> #[trigger] self.idx2node@[v] <= self.nodes@.len()
        &&& forall|v: int, w: int| #[trigger] self.live(v) && #[trigger] self.live(w) && v != w
            ==> self.idx2node@[v] != self.idx2node@[w]
        &&& forall|i: int| 0 <= i < self.free@.len() ==> 1 <= #[trigger] self.free@[i] <= self.nodes@.len()
        &&& forall|i: int, v: int| 0 <= i < self.free@.len() && #[trigger] self.live(v)
            ==> #[trigger] self.free@[i] != self.idx2node@[v]
        &&& self.free@.no_duplicates()
        &&& forall|v: int| #[trigger] self.live(v) ==> v < i32::MAX
        &&& forall|v: int| #[trigger] self.live(v) ==> {
            let (p0, p1) = self.parents_of(v);
            &&& (p0 != 0 ==> p0 != i32::MIN && pvar(p0) < self.idx2node@.len())
            &&& (p1 != 0 ==> p1 != i32::MIN && pvar(p1) < self.idx2node@.len())
        }
    }

    /// The graph invariant: the structure is sound, parents are live and older than
    /// their children, and each node's child set lists exactly its children.
    pub closed spec fn wf(&self) -> bool {
        &&& self.wf_struct()
        &&& forall|v: int| #[trigger] self.live(v) ==> self.rank@.dom().contains(v) && self.rank@[v] < self.clock@
        &&& forall|v: int| #[trigger] self.live(v) ==> {
            let (p0, p1) = self.parents_of(v);
            ||| p0 == -1 && p1 == -1
            ||| p0 != -1 && self.parent_ok(v, p0) && self.parent_ok(v, p1)
        }
        &&& forall|v: int| #[trigger] self.live(v) ==> self.children_of(v) == Set::new(
            |c: i32| c > 0 && self.live(c - 1) && self.is_parent(v, c - 1))
    }

    /// How many variable indices the graph's index table covers; it grows on demand.
    pub closed spec fn room(&self) -> nat {
        self.idx2node@.len()
    }

    /// The node slot (counted from 1) of variable index `v`, or `0` where it has no node.
    pub closed spec fn slot_of(&self, v: int) -> nat {
        if 0 <= v < self.idx2node@.len() { self.idx2node@[v] as nat } else { 0 }
    }

    /// The slots of removed nodes, kept for reuse; the last is reused first.
    pub closed spec fn free_slots(&self) -> Seq<usize> {
        self.free@
    }

    /// How many node slots the graph has allocated.
    pub closed spec fn node_count(&self) -> nat {
        self.nodes@.len()
    }

    /// The parent entries of the node in slot `k` (counted from 1).
    pub closed spec fn slot_parents(&self, k: int) -> (i32, i32) {
        (self.nodes@[k - 1].parents[0], self.nodes@[k - 1].parents[1])
    }

    /// The child set of the node in slot `k` (counted from 1).
    pub closed spec fn slot_children(&self, k: int) -> Set<i32> {
        self.nodes@[k - 1].children@
    }

    /// Creates an empty graph, with room for `vsize` variables.
    pub fn new(vsize: usize) -> (g: ImplicationGraph)
        ensures
            g.wf(),
            g@ == Map::<int, (i32, i32)>::empty(),
            g.room() == vsize,
            g.node_count() == 0,
            g.free_slots() == Seq::<usize>::empty(),
            forall|v: int| #[trigger] g.slot_of(v) == 0,
    {
        let g = ImplicationGraph {
            nodes: Vec::new(),
            idx2node: vec![0; vsize],
            free: Vec::new(),
            rank: Ghost(Map::empty()),
            clock: Ghost(0),
        };
        assert(g@ =~= Map::<int, (i32, i32)>::empty());
        g
    }

    /// Makes room for variable index `idx`.
    fn extend(&mut self, idx: usize)
        requires
            old(self).wf(),
            idx < usize::MAX,
        ensures
            final(self).wf(),
            final(self)@ == old(self)@,
            final(self).rank == old(self).rank,
            final(self).clock == old(self).clock,
            idx < final(self).idx2node@.len(),
            final(self).idx2node@.len() == (if idx < old(self).idx2node@.len() { old(self).idx2node@.len() as int } else { idx + 1 }),
            forall|v: int| 0 <= v < old(self).idx2node@.len() ==> #[trigger] final(self).idx2node@[v] == old(self).idx2node@[v],
            forall|v: int| old(self).idx2node@.len() <= v < final(self).idx2node@.len() ==> #[trigger] final(self).idx2node@[v] == 0,
            forall|v: int| #[trigger] final(self).live(v) ==> final(self).node(v) == old(self).node(v),
            final(self).nodes@ == old(self).nodes@,
            final(self).free@ == old(self).free@,
    {
        if self.idx2node.len() > idx {
            return;
        }
        let ghost g0 = *self;
        while self.idx2node.len() <= idx
            invariant
                idx < usize::MAX,
                self.nodes@ == g0.nodes@,
                self.free@ == g0.free@,
                self.rank == g0.rank,
                self.clock == g0.clock,
                self.idx2node@.len() >= g0.idx2node@.len(),
                self.idx2node@.len() <= idx + 1,
                forall|v: int| 0 <= v < g0.idx2node@.len() ==> #[trigger] self.idx2node@[v] == g0.idx2node@[v],
                forall|v: int| g0.idx2node@.len() <= v < self.idx2node@.len() ==> #[trigger] self.idx2node@[v] == 0,
            decreases idx + 1 - self.idx2node@.len(),
        {
            self.idx2node.push(0);
        }
        assert forall|v: int| #[trigger] self.live(v) <==> g0.live(v) by {}
        assert forall|v: int| #[trigger] self.live(v) implies self.node(v) == g0.node(v) by {}
        assert forall|v: int| #[trigger] self.live(v) implies self.children_of(v) == Set::new(
            |c: i32| c > 0 && self.live(c - 1) && self.is_parent(v, c - 1)) by {
            {
                assert(self.children_of(v) =~= Set::new(
                    |c: i32| c > 0 && self.live(c - 1) && self.is_parent(v, c - 1)));
            }
        }
        assert(self@ =~= g0@);
    }

    /// Takes an unused node id, from the free list or by growing the node table,
    /// and stores a fresh node with the given parents and no children under it.
    fn new_node(&mut self, parents: [i32; 2]) -> (idx: usize)
        requires
            old(self).wf_struct(),
        ensures
            1 <= idx <= final(self).nodes@.len(),
            final(self).nodes@.len() >= old(self).nodes@.len(),
            final(self).nodes@[idx - 1].parents == parents,
            old(self).free@.len() == 0 ==> idx == old(self).nodes@.len() + 1 && final(self).nodes@.len() == idx
                && final(self).free@ == old(self).free@,
            old(self).free@.len() > 0 ==> idx == old(self).free@.last() && final(self).free@ == old(self).free@.drop_last()
                && final(self).nodes@.len() == old(self).nodes@.len(),
            final(self).nodes@[idx - 1].children@ == Set::<i32>::empty(),
            forall|j: int| 0 <= j < old(self).nodes@.len() && j != idx - 1
                ==> #[trigger] final(self).nodes@[j] == old(self).nodes@[j],
            final(self).idx2node@ == old(self).idx2node@,
            final(self).rank == old(self).rank,
            final(self).clock == old(self).clock,
            forall|v: int| #[trigger] old(self).live(v) ==> old(self).idx2node@[v] != idx,
            forall|i: int| 0 <= i < final(self).free@.len() ==> 1 <= #[trigger] final(self).free@[i] <= final(self).nodes@.len(),
            forall|i: int| 0 <= i < final(self).free@.len() ==> #[trigger] final(self).free@[i] != idx,
            forall|i: int| 0 <= i < final(self).free@.len() ==> old(self).free@.contains(#[trigger] final(self).free@[i]),
            final(self).free@.no_duplicates(),
    {
        let idx: usize;
        if self.free.len() == 0 {
            self.nodes.push(Node { parents: parents, children: HashSet::new() });
            idx = self.nodes.len();
        } else {
            let ghost f0 = self.free@;
            let a = self.free.pop();
            idx = a.unwrap();
            assert(f0.last() == idx);
            assert forall|i: int| 0 <= i < self.free@.len() implies #[trigger] self.free@[i] != idx by {
                assert(self.free@[i] == f0[i]);
            }
            assert forall|i: int| 0 <= i < self.free@.len() implies old(self).free@.contains(#[trigger] self.free@[i]) by {
                assert(self.free@[i] == f0[i]);
            }
            assert forall|v: int| #[trigger] old(self).live(v) implies old(self).idx2node@[v] != idx by {
                assert(f0[f0.len() - 1] == idx);
            }
            self.nodes[idx - 1] = Node { parents: parents, children: HashSet::new() };
        }
        idx
    }

    /// Records `literal` as a decision: its variable gets a node with no parents, in the last
    /// free slot or a new one. A variable that has a node already is pointed at the new node;
    /// the old node is left behind, and the graph stays well formed only where the variable
    /// had none.
    pub fn add_root(&mut self, literal: i32)
        requires
            old(self).wf(),
            literal != 0,
            literal != i32::MIN,
        ensures
            !old(self)@.dom().contains(var_of(literal) - 1) ==> final(self).wf(),
            final(self)@ == old(self)@.insert(var_of(literal) - 1, (-1i32, -1i32)),
            root_added(*old(self), *final(self), literal),
    {
        let ghost x = var_of(literal) - 1;
        self.extend(lit2idx(literal));
        let ghost g1 = *self;
        let idx = self.new_node([-1, -1]);
        self.idx2node.set(lit2idx(literal), idx);
        self.rank = Ghost(self.rank@.insert(x, self.clock@));
        self.clock = Ghost(self.clock@ + 1);
        proof {
            if !g1.live(x) {
                self.lemma_after_insert(g1, x, -1i32, -1i32);
            } else {
                self.lemma_view_replaced(g1, x);
            }
        }
    }

    /// Pointing variable index `x` at a fresh slot, the other live variables keeping theirs
    /// and their nodes' parents, gives the view with `x` mapped to the new node's parents.
    proof fn lemma_view_replaced(&self, g: ImplicationGraph, x: int)
        requires
            0 <= x < g.idx2node@.len(),
            self.idx2node@.len() == g.idx2node@.len(),
            forall|v: int| 0 <= v < g.idx2node@.len() && v != x ==> #[trigger] self.idx2node@[v] == g.idx2node@[v],
            self.idx2node@[x] >= 1,
            forall|v: int| #[trigger] g.live(v) && v != x ==> self.node(v).parents == g.node(v).parents,
        ensures
            self@ == g@.insert(x, (self.node(x).parents[0], self.node(x).parents[1])),
    {
        assert forall|v: int| #[trigger] self.live(v) <==> (g.live(v) || v == x) by {}
        assert(self@ =~= g@.insert(x, (self.node(x).parents[0], self.node(x).parents[1])));
    }

    /// `p0`, `p1` may be the parents of a new node for `x` in `g`.
    closed spec fn fresh_parents_ok(g: ImplicationGraph, p0: i32, p1: i32) -> bool {
        ||| p0 == -1 && p1 == -1
        ||| p0 != -1
            && (p0 == 0 || (p0 != i32::MIN && g.live(pvar(p0))))
            && (p1 == 0 || (p1 != i32::MIN && g.live(pvar(p1))))
    }

    /// Adding a node for `x` with parents `(p0, p1)` to the well-formed graph `g` keeps
    /// the invariant, provided the result is laid out as described.
    proof fn lemma_after_insert(&self, g: ImplicationGraph, x: int, p0: i32, p1: i32)
        requires
            g.wf(),
            0 <= x < g.idx2node@.len(),
            x + 1 <= i32::MAX,
            !g.live(x),
            Self::fresh_parents_ok(g, p0, p1),
            self.idx2node@.len() == g.idx2node@.len(),
            forall|v: int| 0 <= v < g.idx2node@.len() && v != x ==> #[trigger] self.idx2node@[v] == g.idx2node@[v],
            self.idx2node@[x] >= 1,
            self.idx2node@[x] <= self.nodes@.len(),
            self.nodes@.len() >= g.nodes@.len(),
            forall|v: int| #[trigger] g.live(v) ==> g.idx2node@[v] != self.idx2node@[x],
            forall|i: int| 0 <= i < self.free@.len() ==> 1 <= #[trigger] self.free@[i] <= self.nodes@.len(),
            forall|i: int| 0 <= i < self.free@.len() ==> #[trigger] self.free@[i] != self.idx2node@[x],
            forall|i: int| 0 <= i < self.free@.len() ==> g.free@.contains(#[trigger] self.free@[i]),
            self.free@.no_duplicates(),
            self.node(x).parents[0] == p0,
            self.node(x).parents[1] == p1,
            self.children_of(x) == Set::<i32>::empty(),
            forall|v: int| #[trigger] g.live(v) ==> self.node(v).parents == g.node(v).parents,
            forall|v: int| #[trigger] g.live(v) ==> self.children_of(v) == (
                if p0 != -1 && ((p0 != 0 && pvar(p0) == v) || (p1 != 0 && pvar(p1) == v)) {
                    g.children_of(v).insert((x + 1) as i32)
                } else {
                    g.children_of(v)
                }),
            self.rank@ == g.rank@.insert(x, g.clock@),
            self.clock@ == g.clock@ + 1,
        ensures
            self.wf(),
            self@ == g@.insert(x, (p0, p1)),
    {
        assert forall|v: int| #[trigger] self.live(v) <==> (g.live(v) || v == x) by {}
        assert forall|v: int| #[trigger] g.live(v) implies self.parents_of(v) == g.parents_of(v) by {}
        assert(self.parents_of(x) == (p0, p1));
        assert(self@ =~= g@.insert(x, (p0, p1)));
        // structure
        assert forall|v: int, w: int| #[trigger] self.live(v) && #[trigger] self.live(w) && v != w
            implies self.idx2node@[v] != self.idx2node@[w] by {
            if v != x && w != x {
                assert(g.live(v) && g.live(w));
            }
        }
        assert forall|i: int, v: int| 0 <= i < self.free@.len() && #[trigger] self.live(v)
            implies #[trigger] self.free@[i] != self.idx2node@[v] by {
            if v != x {
                assert(g.live(v));
                let k = choose|k: int| 0 <= k < g.free@.len() && g.free@[k] == self.free@[i];
                assert(g.free@[k] != g.idx2node@[v]);
            }
        }
        assert forall|v: int| #[trigger] self.live(v) implies {
            let (q0, q1) = self.parents_of(v);
            &&& (q0 != 0 ==> q0 != i32::MIN && pvar(q0) < self.idx2node@.len())
            &&& (q1 != 0 ==> q1 != i32::MIN && pvar(q1) < self.idx2node@.len())
        } by {
            if v != x {
                assert(g.live(v));
            }
        }
        assert forall|v: int| 0 <= v < self.idx2node@.len() implies #[trigger] self.idx2node@[v] <= self.nodes@.len() by {
            if v != x {
                assert(g.idx2node@[v] <= g.nodes@.len());
            }
        }
        assert(self.wf_struct());
        // ranks and parents
        assert forall|v: int| #[trigger] self.live(v) implies self.rank@.dom().contains(v) && self.rank@[v] < self.clock@ by {
            if v != x {
                assert(g.live(v));
            }
        }
        assert forall|v: int| #[trigger] self.live(v) implies {
            let (q0, q1) = self.parents_of(v);
            ||| q0 == -1 && q1 == -1
            ||| q0 != -1 && self.parent_ok(v, q0) && self.parent_ok(v, q1)
        } by {
            if v != x {
                assert(g.live(v));
                let (q0, q1) = g.parents_of(v);
                if q0 != 0 && q0 != -1 {
                    assert(g.live(pvar(q0)));
                    assert(pvar(q0) != x);
                }
                if q1 != 0 && q0 != -1 {
                    assert(g.live(pvar(q1)));
                    assert(pvar(q1) != x);
                }
            } else {
                if p0 != -1 {
                    if p0 != 0 {
                        assert(g.live(pvar(p0)));
                    }
                    if p1 != 0 {
                        assert(g.live(pvar(p1)));
                    }
                }
            }
        }
        // children
        assert forall|v: int| #[trigger] self.live(v) implies self.children_of(v) == Set::new(
            |c: i32| c > 0 && self.live(c - 1) && self.is_parent(v, c - 1)) by {
            let s = Set::new(|c: i32| c > 0 && self.live(c - 1) && self.is_parent(v, c - 1));
            if v == x {
                assert forall|c: i32| !(#[trigger] s.contains(c)) by {
                    if c > 0 && self.live(c - 1) && self.is_parent(v, c - 1) {
                        assert(c - 1 != x);
                        assert(g.live(c - 1));
                        let (q0, q1) = g.parents_of(c - 1);
                        if q0 != 0 && pvar(q0) == x {
                            assert(g.live(pvar(q0)));
                        }
                        if q1 != 0 && pvar(q1) == x {
                            assert(g.live(pvar(q1)));
                        }
                    }
                }
                assert(self.children_of(v) =~= s);
            } else {
                assert(g.live(v));
                let gs = Set::new(|c: i32| c > 0 && g.live(c - 1) && g.is_parent(v, c - 1));
                assert(g.children_of(v) == gs);
                assert forall|c: i32| #[trigger] s.contains(c) <==> (gs.contains(c) || (c == x + 1 && p0 != -1
                    && ((p0 != 0 && pvar(p0) == v) || (p1 != 0 && pvar(p1) == v)))) by {
                    if c > 0 && c - 1 != x && g.live(c - 1) {
                        assert(self@[c - 1] == g@[c - 1]);
                    }
                    if c == x + 1 {
                        assert(self@[c - 1] == (p0, p1));
                    }
                }
                assert(self.children_of(v) =~= s);
            }
        }
    }

    /// Records that `literal` was implied by a clause whose other variables are the
    /// (nonzero) entries of `clause`: its variable gets a node with those parents, and
    /// it becomes a child of each of them. A variable that has a node already is pointed at
    /// the new node; the graph stays well formed only where it had none and the first parent
    /// entry is not `-1`, the mark of a decision.
    pub fn add_child(&mut self, literal: i32, clause: [i32; 2])
        requires
            old(self).wf(),
            literal != 0,
            literal != i32::MIN,
            forall|k: int| 0 <= k < 2 ==> #[trigger] clause[k] == 0 || (clause[k] != i32::MIN
                && old(self)@.dom().contains(pvar(clause[k]))),
        ensures
            !old(self)@.dom().contains(var_of(literal) - 1) && clause[0] != -1 ==> final(self).wf(),
            final(self)@ == old(self)@.insert(var_of(literal) - 1, (clause[0], clause[1])),
            child_added(*old(self), *final(self), literal, clause[0], clause[1]),
    {
        let ghost x = var_of(literal) - 1;
        let ghost p0 = clause[0];
        let ghost p1 = clause[1];
        assert(clause[0] == 0 || old(self).live(pvar(clause[0])));
        assert(clause[1] == 0 || old(self).live(pvar(clause[1])));
        self.extend(lit2idx(literal));
        let ghost g1 = *self;
        let idx = self.new_node(clause);
        let ghost g2 = *self;
        let ghost q0: int = if p0 != 0 { g1.idx2node@[pvar(p0)] as int } else { 0 };
        let ghost q1: int = if p1 != 0 { g1.idx2node@[pvar(p1)] as int } else { 0 };
        let ghost lv = (x + 1) as i32;
        let c0 = clause[0];
        if c0 != 0 {
            let j = self.idx2node[lit2idx(c0)] - 1;
            self.nodes[j].children.insert(lit_abs(literal));
        }
        let ghost g3 = *self;
        let c1 = clause[1];
        if c1 != 0 {
            let j = self.idx2node[lit2idx(c1)] - 1;
            self.nodes[j].children.insert(lit_abs(literal));
        }
        let ghost g4 = *self;
        self.idx2node.set(lit2idx(literal), idx);
        self.rank = Ghost(self.rank@.insert(x, self.clock@));
        self.clock = Ghost(self.clock@ + 1);
        proof {
            if p0 != 0 {
                assert(g1.live(pvar(p0)));
                assert(g1.idx2node@[pvar(p0)] != idx);
            }
            if p1 != 0 {
                assert(g1.live(pvar(p1)));
                assert(g1.idx2node@[pvar(p1)] != idx);
            }
            assert forall|k: int| 0 <= k < self.nodes@.len() implies #[trigger] self.nodes@[k].parents == g2.nodes@[k].parents
                && self.nodes@[k].children@ == (if (p0 != 0 && k == q0 - 1) || (p1 != 0 && k == q1 - 1) {
                    g2.nodes@[k].children@.insert(lv) } else { g2.nodes@[k].children@ }) by {
                assert(g3.nodes@[k].parents == g2.nodes@[k].parents);
                if p0 != 0 && k == q0 - 1 && p1 != 0 && k == q1 - 1 {
                    assert(self.nodes@[k].children@ =~= g2.nodes@[k].children@.insert(lv));
                }
            }
            assert(self.nodes@[idx - 1].children@ == Set::<i32>::empty());
            assert forall|v: int| 0 <= v < self.idx2node@.len() && v != x implies #[trigger] self.idx2node@[v] == g1.idx2node@[v] by {}
            let g0 = *old(self);
            if p0 != 0 {
                assert(g0.live(pvar(p0)));
                assert(parent_slot(g0, p0) == q0);
            }
            if p1 != 0 {
                assert(g0.live(pvar(p1)));
                assert(parent_slot(g0, p1) == q1);
            }
            assert(lv == var_of(literal) as i32);
            assert forall|j: int| 1 <= j <= g0.node_count() && j != idx implies #[trigger] self.slot_parents(j) == g0.slot_parents(j)
                && self.slot_children(j) == (if (p0 != 0 && j == parent_slot(g0, p0)) || (p1 != 0 && j == parent_slot(g0, p1)) {
                    g0.slot_children(j).insert(var_of(literal) as i32) } else { g0.slot_children(j) }) by {
                assert(g2.nodes@[j - 1] == g0.nodes@[j - 1]);
            }
            if g1.live(x) || p0 == -1 {
                assert forall|v: int| #[trigger] g1.live(v) && v != x implies self.node(v).parents == g1.node(v).parents by {
                    assert(g1.idx2node@[v] != idx);
                    assert(g2.nodes@[g1.idx2node@[v] - 1] == g1.nodes@[g1.idx2node@[v] - 1]);
                }
                self.lemma_view_replaced(g1, x);
            } else {
                assert forall|v: int| #[trigger] g1.live(v) implies self.node(v).parents == g1.node(v).parents
                    && self.children_of(v) == (
                    if p0 != -1 && ((p0 != 0 && pvar(p0) == v) || (p1 != 0 && pvar(p1) == v)) {
                        g1.children_of(v).insert((x + 1) as i32)
                    } else {
                        g1.children_of(v)
                    }) by {
                    assert(v != x);
                    assert(g1.idx2node@[v] != idx);
                    let k = g1.idx2node@[v] - 1;
                    assert(g2.nodes@[k] == g1.nodes@[k]);
                    if p0 != 0 && pvar(p0) != v {
                        assert(g1.idx2node@[pvar(p0)] != g1.idx2node@[v]);
                    }
                    if p1 != 0 && pvar(p1) != v {
                        assert(g1.idx2node@[pvar(p1)] != g1.idx2node@[v]);
                    }
                }
                assert(self.node(x).parents == g2.nodes@[idx - 1].parents);
                assert(self.children_of(x) == Set::<i32>::empty());
                self.lemma_after_insert(g1, x, p0, p1);
            }
        }
    }

    /// The children among the first `n` of `keys`, with their descendants.
    spec fn prefix_desc(&self, keys: Seq<i32>, n: int) -> Set<i32> {
        Set::new(|y: i32| exists|j: int| 0 <= j < n
            && (y == #[trigger] keys[j] || self.descendants(keys[j] - 1).contains(y)))
    }

    proof fn lemma_prefix_desc_step(&self, keys: Seq<i32>, n: int)
        requires
            0 <= n < keys.len(),
        ensures
            self.prefix_desc(keys, n + 1) == self.prefix_desc(keys, n).insert(keys[n])
                + self.descendants(keys[n] - 1),
    {
        assert forall|y: i32| #[trigger] self.prefix_desc(keys, n + 1).contains(y)
            <==> (self.prefix_desc(keys, n).contains(y) || y == keys[n]
                || self.descendants(keys[n] - 1).contains(y)) by {
            if self.prefix_desc(keys, n + 1).contains(y) {
                let j = choose|j: int| 0 <= j < n + 1
                    && (y == #[trigger] keys[j] || self.descendants(keys[j] - 1).contains(y));
                if j < n {
                    assert(self.prefix_desc(keys, n).contains(y));
                }
            }
            if self.prefix_desc(keys, n).contains(y) {
                let j = choose|j: int| 0 <= j < n
                    && (y == #[trigger] keys[j] || self.descendants(keys[j] - 1).contains(y));
                assert(0 <= j < n + 1);
            }
        }
        assert(self.prefix_desc(keys, n + 1) =~= self.prefix_desc(keys, n).insert(keys[n])
            + self.descendants(keys[n] - 1));
    }

    proof fn lemma_in_union(&self, a: Set<int>, b: Set<int>)
        ensures
            self.roots_in(a + b) == self.roots_in(a) + self.roots_in(b),
            self.implied_in(a + b) == self.implied_in(a) + self.implied_in(b),
    {
        assert(self.roots_in(a + b) =~= self.roots_in(a) + self.roots_in(b));
        assert forall|c: i32| #[trigger] self.implied_in(a + b).contains(c)
            <==> self.implied_in(a).contains(c) || self.implied_in(b).contains(c) by {
            if self.implied_in(a + b).contains(c) && !((a + b).contains(c - 1) && self.is_unit(c - 1)) {
                let s = choose|s: int| (a + b).contains(s) && (self.is_root(s) || self.is_unit(s))
                    && #[trigger] self.ancestors(c - 1).contains(s);
                if a.contains(s) {
                    assert(self.implied_in(a).contains(c));
                } else {
                    assert(self.implied_in(b).contains(c));
                }
            }
            if self.implied_in(a).contains(c) && !(a.contains(c - 1) && self.is_unit(c - 1)) {
                let s = choose|s: int| a.contains(s) && (self.is_root(s) || self.is_unit(s))
                    && #[trigger] self.ancestors(c - 1).contains(s);
                assert((a + b).contains(s));
            }
            if self.implied_in(b).contains(c) && !(b.contains(c - 1) && self.is_unit(c - 1)) {
                let s = choose|s: int| b.contains(s) && (self.is_root(s) || self.is_unit(s))
                    && #[trigger] self.ancestors(c - 1).contains(s);
                assert((a + b).contains(s));
            }
        }
        assert(self.implied_in(a + b) =~= self.implied_in(a) + self.implied_in(b));
    }

    proof fn lemma_in_single(&self, x: int)
        requires
            self.wf(),
            self.live(x),
        ensures
            self.roots_in(set![x]) == (if self.is_root(x) { set![(x + 1) as i32] } else { Set::<i32>::empty() }),
            self.implied_in(set![x]) == (if self.is_root(x) {
                self.descendants(x)
            } else if self.is_unit(x) {
                self.descendants(x).insert((x + 1) as i32)
            } else {
                Set::<i32>::empty()
            }),
    {
        assert(self.roots_in(set![x]) =~= (if self.is_root(x) { set![(x + 1) as i32] } else { Set::<i32>::empty() }));
        let rhs = if self.is_root(x) {
                self.descendants(x)
            } else if self.is_unit(x) {
                self.descendants(x).insert((x + 1) as i32)
            } else {
                Set::<i32>::empty()
            };
        assert forall|c: i32| #[trigger] self.implied_in(set![x]).contains(c) <==> rhs.contains(c) by {
            if self.implied_in(set![x]).contains(c) && !(set![x].contains(c - 1) && self.is_unit(c - 1)) {
                let s = choose|s: int| set![x].contains(s) && (self.is_root(s) || self.is_unit(s))
                    && #[trigger] self.ancestors(c - 1).contains(s);
                assert(s == x);
            }
            if rhs.contains(c) && c != x + 1 {
                assert(self.ancestors(c - 1).contains(x));
                assert(set![x].contains(x));
            }
            if rhs.contains(c) && c == x + 1 {
                if self.is_root(x) {
                    assert(self.ancestors(x).contains(x));
                    self.lemma_anc_live(x);
                }
            }
        }
        assert(self.implied_in(set![x]) =~= rhs);
    }

    /// The node of a live literal's variable.
    fn get_node(&self, literal: i32) -> (n: &Node)
        requires
            self.wf(),
            literal != 0,
            literal != i32::MIN,
            self.live(pvar(literal)),
        ensures
            *n == self.node(pvar(literal)),
    {
        &self.nodes[self.idx2node[lit2idx(literal)] - 1]
    }

    /// Adds the variable numbers of all descendants of the variable of `literal` to `children`.
    fn insert_children(&self, children: &mut HashSet<i32>, literal: i32)
        requires
            self.wf(),
            literal != 0,
            literal != i32::MIN,
            self.live(pvar(literal)),
        ensures
            final(children)@ == old(children)@ + self.descendants(pvar(literal)),
        decreases self.clock@ - self.rank_of(pvar(literal)),
    {
        let ghost x = pvar(literal);
        let kids = &self.nodes[self.idx2node[lit2idx(literal)] - 1].children;
        assert(kids@ == self.children_of(x));
        let ghost s = Set::new(|c: i32| c > 0 && self.live(c - 1) && self.is_parent(x, c - 1));
        assert(kids@ == s);
        let ghost keys = vstd::std_specs::hash::spec_hash_keys_iter(kids).remaining().unref();
        let ghost start = children@;
        for i in it: kids.iter()
            invariant
                self.wf(),
                literal != 0,
                literal != i32::MIN,
                x == pvar(literal),
                self.live(x),
                kids@ == s,
                s == Set::new(|c: i32| c > 0 && self.live(c - 1) && self.is_parent(x, c - 1)),
                it.seq().unref() == keys,
                keys.to_set() == kids@,
                children@ == start + self.prefix_desc(keys, it.index() as int),
        {
            let c = *i;
            let ghost j0 = it.index() as int;
            assert(keys[j0] == c);
            assert(keys.to_set().contains(c));
            assert(s.contains(c));
            proof {
                self.lemma_parent_anc(x, c - 1);
                self.lemma_anc_live(c - 1);
            }
            children.insert(lit_abs(c));
            self.insert_children(children, lit_abs(c));
            proof { self.lemma_prefix_desc_step(keys, j0); }
            assert(children@ =~= start + self.prefix_desc(keys, j0 + 1));
        }
        proof {
            self.lemma_desc_split(x);
            assert forall|y: i32| #[trigger] self.prefix_desc(keys, keys.len() as int).contains(y)
                <==> self.descendants(x).contains(y) by {
                if self.prefix_desc(keys, keys.len() as int).contains(y) {
                    let j = choose|j: int| 0 <= j < keys.len()
                        && (y == #[trigger] keys[j] || self.descendants(keys[j] - 1).contains(y));
                    assert(keys.to_set().contains(keys[j]));
                    assert(self.children_of(x).contains(keys[j]));
                }
                if self.descendants(x).contains(y) {
                    let c = choose|c: i32| #[trigger] self.children_of(x).contains(c)
                        && (y == c || self.descendants(c - 1).contains(y));
                    assert(keys.to_set().contains(c));
                    let j = choose|j: int| 0 <= j < keys.len() && keys[j] == c;
                    assert(y == keys[j] || self.descendants(keys[j] - 1).contains(y));
                }
            }
            assert(children@ =~= start + self.descendants(x));
        }
    }

    /// Walks back from the variable of `literal` through its ancestors, collecting the
    /// decisions met in `roots` and the variables that fall with them in `children`.
    fn add_node_conflict(&self, roots: &mut HashSet<i32>, children: &mut HashSet<i32>, literal: i32)
        requires
            self.wf(),
            literal != i32::MIN,
            literal == 0 || self.live(pvar(literal)),
        ensures
            final(roots)@ == old(roots)@ + self.roots_in(self.reach(literal)),
            final(children)@ == old(children)@ + self.implied_in(self.reach(literal)),
        decreases (if literal == 0 { 0 } else { self.rank_of(pvar(literal)) + 1 }),
    {
        if literal == 0 {
            assert(self.roots_in(Set::empty()) =~= Set::<i32>::empty());
            assert(self.implied_in(Set::empty()) =~= Set::<i32>::empty());
            assert(roots@ =~= old(roots)@ + self.roots_in(self.reach(literal)));
            assert(children@ =~= old(children)@ + self.implied_in(self.reach(literal)));
            return;
        }
        let ghost x = pvar(literal);
        assert(self@.dom().contains(x));
        let p1;
        let p2;
        {
            let help = self.get_node(literal);
            p1 = help.parents[0];
            p2 = help.parents[1];
        }
        assert(self@[x] == (p1, p2));
        proof {
            self.lemma_in_single(x);
            self.lemma_anc_live(x);
        }
        if p1 == -1 {
            assert(self.reach(literal) =~= set![x]);
            roots.insert(lit_abs(literal));
            self.insert_children(children, lit_abs(literal));
            assert(roots@ =~= old(roots)@ + self.roots_in(self.reach(literal)));
            assert(children@ =~= old(children)@ + self.implied_in(self.reach(literal)));
        } else {
            proof { self.lemma_anc_unfold(x); }
            if p1 == 0 && p2 == 0 {
                children.insert(lit_abs(literal));
                self.insert_children(children, lit_abs(literal));
            }
            let ghost r1 = roots@;
            let ghost c1 = children@;
            self.add_node_conflict(roots, children, p1);
            self.add_node_conflict(roots, children, p2);
            proof {
                assert(self.reach(literal) =~= set![x] + self.reach(p1) + self.reach(p2));
                self.lemma_in_union(set![x] + self.reach(p1), self.reach(p2));
                self.lemma_in_union(set![x], self.reach(p1));
                assert(roots@ =~= old(roots)@ + self.roots_in(self.reach(literal)));
                assert(children@ =~= old(children)@ + self.implied_in(self.reach(literal)));
            }
        }
    }

    /// The node of `x` names `v` as a parent entry (a decision's `-1` entries name index `0`).
    closed spec fn looks_up(g: ImplicationGraph, x: int, v: int) -> bool {
        let (q0, q1) = g.parents_of(x);
        (q0 != 0 && pvar(q0) == v) || (q1 != 0 && pvar(q1) == v)
    }

    /// Frees the node of variable `literal` and removes the variable from the child sets
    /// of the nodes its parent entries name.
    fn rm_node(&mut self, literal: i32)
        requires
            old(self).wf_struct(),
            literal > 0,
            old(self).live(literal - 1),
        ensures
            final(self).wf_struct(),
            final(self).nodes@.len() == old(self).nodes@.len(),
            final(self).idx2node@ == old(self).idx2node@.update(literal - 1, 0usize),
            final(self).free@ == old(self).free@.push(old(self).idx2node@[literal - 1]),
            node_removed(*old(self), *final(self), literal),
            ({
                let pp = old(self).nodes@[old(self).idx2node@[literal - 1] - 1].parents;
                let s0: int = if pp[0] != 0 { old(self).idx2node@[var_of(pp[0]) - 1] as int } else { 0 };
                let s1: int = if pp[1] != 0 { old(self).idx2node@[var_of(pp[1]) - 1] as int } else { 0 };
                forall|k: int| 0 <= k < old(self).nodes@.len() ==> #[trigger] final(self).nodes@[k].parents == old(self).nodes@[k].parents
                    && final(self).nodes@[k].children@ == (if (s0 > 0 && k == s0 - 1) || (s1 > 0 && k == s1 - 1) {
                        old(self).nodes@[k].children@.remove(literal) } else { old(self).nodes@[k].children@ })
            }),
            final(self).rank == old(self).rank,
            final(self).clock == old(self).clock,
            forall|v: int| #[trigger] final(self).live(v) ==> final(self).node(v).parents == old(self).node(v).parents
                && final(self).children_of(v) == (if Self::looks_up(*old(self), literal - 1, v) {
                    old(self).children_of(v).remove(literal)
                } else {
                    old(self).children_of(v)
                }),
    {
        let ghost x = literal - 1;
        let ghost g0 = *self;
        let a = self.idx2node[lit2idx(literal)];
        let node = &self.nodes[a - 1];
        let mut p1: usize = 0;
        let mut p2: usize = 0;
        if node.parents[0] != 0 {
            p1 = self.idx2node[lit2idx(node.parents[0])];
        }
        if node.parents[1] != 0 {
            p2 = self.idx2node[lit2idx(node.parents[1])];
        }
        if p1 > 0 {
            let n = &mut self.nodes[p1 - 1];
            n.children.remove(&literal);
        }
        let ghost g1 = *self;
        if p2 > 0 {
            let n = &mut self.nodes[p2 - 1];
            n.children.remove(&literal);
        }
        let ghost g2 = *self;
        self.free.push(a);
        self.idx2node.set(lit2idx(literal), 0);
        proof {
            let (q0, q1) = g0.parents_of(x);
            assert forall|k: int| 0 <= k < g0.nodes@.len() implies #[trigger] self.nodes@[k].parents == g0.nodes@[k].parents
                && self.nodes@[k].children@ == (if (p1 > 0 && k == p1 - 1) || (p2 > 0 && k == p2 - 1) {
                    g0.nodes@[k].children@.remove(literal) } else { g0.nodes@[k].children@ }) by {
                assert(g1.nodes@[k].parents == g0.nodes@[k].parents);
                if p1 > 0 && k == p1 - 1 && p2 > 0 && k == p2 - 1 {
                    assert(self.nodes@[k].children@ =~= g0.nodes@[k].children@.remove(literal));
                }
            }
            assert forall|v: int| #[trigger] self.live(v) implies self.node(v).parents == g0.node(v).parents
                && self.children_of(v) == (if Self::looks_up(g0, x, v) {
                    g0.children_of(v).remove(literal)
                } else {
                    g0.children_of(v)
                }) by {
                assert(g0.live(v));
                assert(v != x);
                let id = g0.idx2node@[v];
                if q0 != 0 && pvar(q0) != v && p1 > 0 {
                    assert(g0.live(pvar(q0)));
                    assert(p1 != id);
                }
                if q1 != 0 && pvar(q1) != v && p2 > 0 {
                    assert(g0.live(pvar(q1)));
                    assert(p2 != id);
                }
                if q0 != 0 && pvar(q0) == v && q1 != 0 && pvar(q1) == v {
                    assert(g2.children_of(v) =~= g0.children_of(v).remove(literal));
                }
            }
            assert forall|i: int, v: int| 0 <= i < self.free@.len() && #[trigger] self.live(v)
                implies #[trigger] self.free@[i] != self.idx2node@[v] by {
                assert(g0.live(v));
                if i < g0.free@.len() {
                    assert(self.free@[i] == g0.free@[i]);
                } else {
                    assert(v != x);
                }
            }
            assert forall|i: int, j: int| 0 <= i < j < self.free@.len() implies self.free@[i] != self.free@[j] by {
                if j == g0.free@.len() {
                    assert(g0.free@[i] != g0.idx2node@[x]);
                }
            }
            assert forall|v: int, w: int| #[trigger] self.live(v) && #[trigger] self.live(w) && v != w
                implies self.idx2node@[v] != self.idx2node@[w] by {
                assert(g0.live(v) && g0.live(w));
            }
            assert forall|v: int| #[trigger] self.live(v) implies {
                let (p0, p1) = self.parents_of(v);
                &&& (p0 != 0 ==> p0 != i32::MIN && pvar(p0) < self.idx2node@.len())
                &&& (p1 != 0 ==> p1 != i32::MIN && pvar(p1) < self.idx2node@.len())
            } by {
                assert(g0.live(v));
            }
            assert forall|v: int| #[trigger] self.live(v) implies v < i32::MAX by {
                assert(g0.live(v));
            }
        }
    }

    /// The graph is `g0` with the variables numbered in `d` removed.
    closed spec fn removed_from(&self, g0: ImplicationGraph, d: Set<i32>) -> bool {
        &&& self.wf_struct()
        &&& self.idx2node@.len() == g0.idx2node@.len()
        &&& self.nodes@.len() == g0.nodes@.len()
        &&& self.rank == g0.rank
        &&& self.clock == g0.clock
        &&& forall|v: int| #[trigger] self.live(v) <==> (g0.live(v) && !d.contains((v + 1) as i32))
        &&& forall|v: int| #[trigger] self.live(v) ==> self.idx2node@[v] == g0.idx2node@[v]
            && self.node(v).parents == g0.node(v).parents
            && self.children_of(v) == g0.children_of(v).difference(d)
    }

    /// Removes the nodes of the variables numbered in `vs`.
    fn rm_nodes(&mut self, vs: &Vec<i32>, Ghost(g0): Ghost<ImplicationGraph>, Ghost(d): Ghost<Set<i32>>)
        requires
            g0.wf(),
            old(self).removed_from(g0, d),
            vs@.no_duplicates(),
            forall|i: int| 0 <= i < vs@.len() ==> #[trigger] vs@[i] > 0 && g0.live(vs@[i] - 1) && !d.contains(vs@[i]),
        ensures
            final(self).removed_from(g0, d + vs@.to_set()),
            final(self).free@ == old(self).free@ + vs@.map_values(|l: i32| g0.idx2node@[l - 1]),
    {
        let mut i: usize = 0;
        let ghost f0 = self.free@;
        assert(d + vs@.take(0).to_set() =~= d);
        while i < vs.len()
            invariant
                g0.wf(),
                i <= vs@.len(),
                vs@.no_duplicates(),
                forall|k: int| 0 <= k < vs@.len() ==> #[trigger] vs@[k] > 0 && g0.live(vs@[k] - 1) && !d.contains(vs@[k]),
                self.removed_from(g0, d + vs@.take(i as int).to_set()),
                self.free@ == f0 + vs@.take(i as int).map_values(|l: i32| g0.idx2node@[l - 1]),
            decreases vs@.len() - i,
        {
            let l = vs[i];
            let ghost dd = d + vs@.take(i as int).to_set();
            let ghost cur = *self;
            assert(!vs@.take(i as int).to_set().contains(l)) by {
                if vs@.take(i as int).to_set().contains(l) {
                    let k = choose|k: int| 0 <= k < i && vs@.take(i as int)[k] == l;
                    assert(vs@[k] == vs@[i as int]);
                }
            }
            assert((l - 1 + 1) as i32 == l);
            assert(self.live(l - 1));
            self.rm_node(l);
            assert(vs@.take(i + 1).map_values(|l: i32| g0.idx2node@[l - 1])
                =~= vs@.take(i as int).map_values(|l: i32| g0.idx2node@[l - 1]).push(g0.idx2node@[l - 1]));
            let ghost nd = d + vs@.take(i + 1).to_set();
            assert(vs@.take(i + 1) == vs@.take(i as int).push(l));
            assert(vs@.take(i + 1).to_set() =~= vs@.take(i as int).to_set().insert(l)) by {
                vs@.take(i as int).lemma_push_to_set_commute(l);
            }
            assert(nd =~= dd.insert(l));
            proof {
                assert forall|v: int| #[trigger] self.live(v) <==> (g0.live(v) && !nd.contains((v + 1) as i32)) by {
                    if v == l - 1 {
                        assert(!self.live(v));
                    } else if 0 <= v < cur.idx2node@.len() {
                        assert(self.live(v) == cur.live(v));
                    }
                }
                assert forall|v: int| #[trigger] self.live(v) implies self.idx2node@[v] == g0.idx2node@[v]
                    && self.node(v).parents == g0.node(v).parents
                    && self.children_of(v) == g0.children_of(v).difference(nd) by {
                    assert(cur.live(v));
                    assert(g0.live(v));
                    let gs = Set::new(|c: i32| c > 0 && g0.live(c - 1) && g0.is_parent(v, c - 1));
                    assert(g0.children_of(v) == gs);
                    if !Self::looks_up(cur, l - 1, v) {
                        assert(cur.parents_of(l - 1) == g0.parents_of(l - 1));
                        assert(g0@[l - 1] == g0.parents_of(l - 1));
                        assert(!gs.contains(l));
                    }
                    assert(self.children_of(v) =~= g0.children_of(v).difference(nd));
                }
            }
            i = i + 1;
        }
        assert(vs@.take(vs@.len() as int) == vs@);
    }

    proof fn lemma_reach_live(&self, l: i32)
        requires
            self.wf(),
        ensures
            forall|x: int| #[trigger] self.reach(l).contains(x) ==> self.live(x),
    {
        if l != 0 && self@.dom().contains(pvar(l)) {
            self.lemma_anc_live(pvar(l));
        }
    }

    /// The variables removed with a conflict are live, the decisions among them are not
    /// implied, and everything that descends from a removed variable is removed too.
    proof fn lemma_conflict_closed(&self, lits: Seq<i32>)
        requires
            self.wf(),
        ensures
            forall|r: i32| #[trigger] self.conflict_roots(lits).contains(r) ==> r > 0 && self.live(r - 1) && self.is_root(r - 1),
            forall|c: i32| #[trigger] self.conflict_implied(lits).contains(c) ==> c > 0 && self.live(c - 1),
            forall|r: i32| #[trigger] self.conflict_roots(lits).contains(r) ==> !self.conflict_implied(lits).contains(r),
            forall|c: int, p: int| #![trigger self.is_parent(p, c), self.live(c)]
                self.live(c) && self.is_parent(p, c)
                && (self.conflict_roots(lits) + self.conflict_implied(lits)).contains((p + 1) as i32)
                ==> (self.conflict_roots(lits) + self.conflict_implied(lits)).contains((c + 1) as i32),
    {
        let cone = self.cone(lits);
        self.lemma_reach_live(lits[0]);
        self.lemma_reach_live(lits[1]);
        self.lemma_reach_live(lits[2]);
        assert forall|r: i32| #[trigger] self.conflict_roots(lits).contains(r) implies !self.conflict_implied(lits).contains(r) by {
            assert(self.is_root(r - 1));
            if self.conflict_implied(lits).contains(r) {
                assert(!self.is_unit(r - 1));
                let s = choose|s: int| cone.contains(s) && (self.is_root(s) || self.is_unit(s))
                    && #[trigger] self.ancestors(r - 1).contains(s);
                assert(self@.dom().contains(r - 1));
            }
        }
        assert forall|c: int, p: int| #![trigger self.is_parent(p, c), self.live(c)]
            self.live(c) && self.is_parent(p, c)
            && (self.conflict_roots(lits) + self.conflict_implied(lits)).contains((p + 1) as i32)
            implies (self.conflict_roots(lits) + self.conflict_implied(lits)).contains((c + 1) as i32) by {
            self.lemma_parent_anc(p, c);
            assert(c < i32::MAX);
            assert(p < i32::MAX);
            assert(((c + 1) as i32) - 1 == c);
            assert(((p + 1) as i32) - 1 == p);
            if self.conflict_roots(lits).contains((p + 1) as i32) {
                assert(cone.contains(p) && self.is_root(p));
                assert(self.ancestors(c).contains(p));
                assert(self.conflict_implied(lits).contains((c + 1) as i32));
            } else {
                if cone.contains(p) && self.is_unit(p) {
                    assert(self.ancestors(c).contains(p));
                    assert(self.conflict_implied(lits).contains((c + 1) as i32));
                } else {
                    let s = choose|s: int| cone.contains(s) && (self.is_root(s) || self.is_unit(s))
                        && #[trigger] self.ancestors(p).contains(s);
                    self.lemma_anc_trans(p, c);
                    assert(self.ancestors(c).contains(s));
                    assert(self.conflict_implied(lits).contains((c + 1) as i32));
                }
            }
        }
    }

    /// Removing a set of variables that is closed under descendants keeps the invariant.
    proof fn lemma_removed_wf(&self, g0: ImplicationGraph, r: Set<i32>)
        requires
            g0.wf(),
            self.removed_from(g0, r),
            forall|c: int, p: int| #![trigger g0.is_parent(p, c), g0.live(c)]
                g0.live(c) && g0.is_parent(p, c) && r.contains((p + 1) as i32) ==> r.contains((c + 1) as i32),
        ensures
            self.wf(),
            self@ == g0@.remove_keys(removed_indices(r)),
    {
        assert forall|v: int| #[trigger] self.live(v) implies self.parents_of(v) == g0.parents_of(v) by {}
        assert forall|v: int| #[trigger] self.live(v) <==> (g0.live(v) && !removed_indices(r).contains(v)) by {
            if g0.live(v) {
                assert(v < i32::MAX);
            }
        }
        assert(self@ =~= g0@.remove_keys(removed_indices(r)));
        assert forall|v: int| #[trigger] self.live(v) implies self.rank@.dom().contains(v) && self.rank@[v] < self.clock@ by {
            assert(g0.live(v));
        }
        assert forall|v: int| #[trigger] self.live(v) implies {
            let (p0, p1) = self.parents_of(v);
            ||| p0 == -1 && p1 == -1
            ||| p0 != -1 && self.parent_ok(v, p0) && self.parent_ok(v, p1)
        } by {
            assert(g0.live(v));
            let (p0, p1) = g0.parents_of(v);
            assert(g0@[v] == (p0, p1));
            if p0 != -1 {
                if p0 != 0 {
                    assert(g0.is_parent(pvar(p0), v));
                    assert(g0.live(pvar(p0)));
                    assert(pvar(p0) < i32::MAX);
                    if r.contains((pvar(p0) + 1) as i32) {
                        assert(r.contains((v + 1) as i32));
                    }
                    assert(self.live(pvar(p0)));
                }
                if p1 != 0 {
                    assert(g0.is_parent(pvar(p1), v));
                    assert(g0.live(pvar(p1)));
                    assert(pvar(p1) < i32::MAX);
                    if r.contains((pvar(p1) + 1) as i32) {
                        assert(r.contains((v + 1) as i32));
                    }
                    assert(self.live(pvar(p1)));
                }
            }
        }
        assert forall|v: int| #[trigger] self.live(v) implies self.children_of(v) == Set::new(
            |c: i32| c > 0 && self.live(c - 1) && self.is_parent(v, c - 1)) by {
            assert(g0.live(v));
            let gs = Set::new(|c: i32| c > 0 && g0.live(c - 1) && g0.is_parent(v, c - 1));
            assert(g0.children_of(v) == gs);
            assert forall|c: i32| #[trigger] gs.difference(r).contains(c) <==> (c > 0 && self.live(c - 1) && self.is_parent(v, c - 1)) by {
                if c > 0 && g0.live(c - 1) {
                    assert(c - 1 < i32::MAX);
                    assert(((c - 1) + 1) as i32 == c);
                }
                if c > 0 && self.live(c - 1) {
                    assert(((c - 1) + 1) as i32 == c);
                    assert(self@[c - 1] == g0@[c - 1]);
                }
            }
            assert(self.children_of(v) =~= Set::new(|c: i32| c > 0 && self.live(c - 1) && self.is_parent(v, c - 1)));
        }
    }

    /// The number of decisions behind a falsified clause, leaving the graph as it is.
    pub fn conflict_size(&self, clause: &Clause3) -> (n: usize)
        requires
            self.wf(),
            forall|k: int| 0 <= k < 3 ==> #[trigger] clause.literals[k] != i32::MIN
                && (clause.literals[k] == 0 || self@.dom().contains(pvar(clause.literals[k]))),
        ensures
            self.conflict_roots(clause.literals@).finite(),
            n == self.conflict_roots(clause.literals@).len(),
    {
        let ghost lits = clause.literals@;
        let mut roots: HashSet<i32> = HashSet::new();
        let mut children: HashSet<i32> = HashSet::new();
        assert(clause.literals[0] == lits[0] && clause.literals[1] == lits[1] && clause.literals[2] == lits[2]);
        let l0 = lit_abs(clause.literals[0]);
        self.add_node_conflict(&mut roots, &mut children, l0);
        let l1 = lit_abs(clause.literals[1]);
        self.add_node_conflict(&mut roots, &mut children, l1);
        let l2 = lit_abs(clause.literals[2]);
        self.add_node_conflict(&mut roots, &mut children, l2);
        proof {
            assert(self.reach(l0) == self.reach(lits[0]));
            assert(self.reach(l1) == self.reach(lits[1]));
            assert(self.reach(l2) == self.reach(lits[2]));
            self.lemma_in_union(self.reach(lits[0]), self.reach(lits[1]));
            self.lemma_in_union(self.reach(lits[0]) + self.reach(lits[1]), self.reach(lits[2]));
            assert(roots@ =~= self.conflict_roots(lits));
        }
        let rs = set_to_vec(&roots);
        proof {
            broadcast use vstd::seq_lib::seq_to_set_is_finite;
            rs@.unique_seq_to_set();
        }
        rs.len()
    }

    /// Undoes the decisions behind a falsified clause: returns those decisions (as variable
    /// numbers) and the variables whose values fell with them, and removes all their nodes.
    pub fn get_conflict(&mut self, clause: &Clause3) -> (res: (Vec<i32>, Vec<i32>))
        requires
            old(self).wf(),
            forall|k: int| 0 <= k < 3 ==> #[trigger] clause.literals[k] != i32::MIN
                && (clause.literals[k] == 0 || old(self)@.dom().contains(pvar(clause.literals[k]))),
        ensures
            final(self).wf(),
            res.0@.to_set() == old(self).conflict_roots(clause.literals@),
            res.1@.to_set() == old(self).conflict_implied(clause.literals@),
            res.0@.no_duplicates(),
            res.1@.no_duplicates(),
            forall|i: int| 0 <= i < res.0@.len() ==> #[trigger] res.0@[i] > 0
                && old(self)@.dom().contains(res.0@[i] - 1) && old(self).is_root(res.0@[i] - 1),
            forall|i: int| 0 <= i < res.1@.len() ==> #[trigger] res.1@[i] > 0
                && old(self)@.dom().contains(res.1@[i] - 1),
            forall|i: int, j: int| 0 <= i < res.0@.len() && 0 <= j < res.1@.len() ==> res.0@[i] != res.1@[j],
            final(self)@ == old(self)@.remove_keys(removed_indices(res.0@.to_set() + res.1@.to_set())),
            final(self).free_slots() == old(self).free_slots()
                + res.0@.map_values(|l: i32| old(self).slot_of(l - 1) as usize)
                + res.1@.map_values(|l: i32| old(self).slot_of(l - 1) as usize),
            final(self).node_count() == old(self).node_count(),
            final(self).room() == old(self).room(),
            forall|v: int| #[trigger] final(self).slot_of(v)
                == (if removed_indices(res.0@.to_set() + res.1@.to_set()).contains(v) { 0 } else { old(self).slot_of(v) }),
    {
        let ghost g0 = *self;
        let ghost lits = clause.literals@;
        let mut roots: HashSet<i32> = HashSet::new();
        let mut children: HashSet<i32> = HashSet::new();
        assert(clause.literals[0] == lits[0] && clause.literals[1] == lits[1] && clause.literals[2] == lits[2]);
        let l0 = lit_abs(clause.literals[0]);
        self.add_node_conflict(&mut roots, &mut children, l0);
        let l1 = lit_abs(clause.literals[1]);
        self.add_node_conflict(&mut roots, &mut children, l1);
        let l2 = lit_abs(clause.literals[2]);
        self.add_node_conflict(&mut roots, &mut children, l2);
        proof {
            assert(self.reach(l0) == self.reach(lits[0]));
            assert(self.reach(l1) == self.reach(lits[1]));
            assert(self.reach(l2) == self.reach(lits[2]));
            self.lemma_in_union(self.reach(lits[0]), self.reach(lits[1]));
            self.lemma_in_union(self.reach(lits[0]) + self.reach(lits[1]), self.reach(lits[2]));
            assert(roots@ =~= self.conflict_roots(lits));
            assert(children@ =~= self.conflict_implied(lits));
            self.lemma_conflict_closed(lits);
        }
        let rs = set_to_vec(&roots);
        let cs = set_to_vec(&children);
        proof {
            assert forall|i: int| 0 <= i < rs@.len() implies #[trigger] rs@[i] > 0 && g0.live(rs@[i] - 1)
                && !Set::<i32>::empty().contains(rs@[i]) by {
                assert(rs@.to_set().contains(rs@[i]));
            }
            assert forall|i: int| 0 <= i < cs@.len() implies #[trigger] cs@[i] > 0 && g0.live(cs@[i] - 1)
                && !(Set::<i32>::empty() + rs@.to_set()).contains(cs@[i]) by {
                assert(cs@.to_set().contains(cs@[i]));
                if rs@.to_set().contains(cs@[i]) {
                    assert(g0.conflict_roots(lits).contains(cs@[i]));
                }
            }
            assert forall|v: int| #[trigger] self.live(v) implies self.children_of(v).difference(Set::<i32>::empty()) == self.children_of(v) by {
                assert(self.children_of(v).difference(Set::<i32>::empty()) =~= self.children_of(v));
            }
            assert(self.removed_from(g0, Set::<i32>::empty()));
        }
        self.rm_nodes(&rs, Ghost(g0), Ghost(Set::<i32>::empty()));
        self.rm_nodes(&cs, Ghost(g0), Ghost(Set::<i32>::empty() + rs@.to_set()));
        proof {
            let r = rs@.to_set() + cs@.to_set();
            assert(Set::<i32>::empty() + rs@.to_set() + cs@.to_set() =~= r);
            assert(r == g0.conflict_roots(lits) + g0.conflict_implied(lits));
            self.lemma_removed_wf(g0, r);
            assert forall|i: int| 0 <= i < rs@.len() implies #[trigger] rs@[i] > 0
                && g0@.dom().contains(rs@[i] - 1) && g0.is_root(rs@[i] - 1) by {
                assert(rs@.to_set().contains(rs@[i]));
            }
            assert forall|i: int| 0 <= i < cs@.len() implies #[trigger] cs@[i] > 0
                && g0@.dom().contains(cs@[i] - 1) by {
                assert(cs@.to_set().contains(cs@[i]));
            }
            assert forall|i: int, j: int| 0 <= i < rs@.len() && 0 <= j < cs@.len() implies rs@[i] != cs@[j] by {
                assert(rs@.to_set().contains(rs@[i]));
                assert(cs@.to_set().contains(cs@[j]));
            }
            assert(rs@.map_values(|l: i32| g0.idx2node@[l - 1]) =~= rs@.map_values(|l: i32| g0.slot_of(l - 1) as usize)) by {
                assert forall|i: int| 0 <= i < rs@.len() implies g0.idx2node@[rs@[i] - 1] == g0.slot_of(rs@[i] - 1) as usize by {
                    assert(rs@.to_set().contains(rs@[i]));
                }
            }
            assert(cs@.map_values(|l: i32| g0.idx2node@[l - 1]) =~= cs@.map_values(|l: i32| g0.slot_of(l - 1) as usize)) by {
                assert forall|i: int| 0 <= i < cs@.len() implies g0.idx2node@[cs@[i] - 1] == g0.slot_of(cs@[i] - 1) as usize by {
                    assert(cs@.to_set().contains(cs@[i]));
                }
            }
            assert forall|v: int| #[trigger] self.slot_of(v)
                == (if removed_indices(r).contains(v) { 0 } else { g0.slot_of(v) }) by {
                if 0 <= v < self.idx2node@.len() {
                    if self.live(v) {
                    } else if g0.live(v) {
                        assert(v < i32::MAX);
                    }
                }
            }
        }
        (rs, cs)
    }
}

} // verus!
