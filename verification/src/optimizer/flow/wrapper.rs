use crate::optimizer::flow::mcmf::{
    excess, pair_capacity, pair_flow, same_network, saturated, total_cost, Edge, MinCostFlow,
};
use crate::optimizer::flow::mincost::priced;
use crate::optimizer::flow::search::calm;
use crate::time::Time;
use std::collections::HashMap;
use vstd::prelude::*;

verus! {

broadcast use vstd::std_specs::hash::group_hash_axioms;

/// Where a node stands in the network: at a fixed id, or under a key of two
/// numbers that gets an id when it is first used.
pub enum Place {
    Fixed(usize),
    Keyed(usize, usize),
}

/// The table from keys to node ids.
pub type NodeIds = Map<(usize, usize), usize>;

/// The id that `p` stands for, given the table and the number of nodes: a
/// key that is not in the table yet gets the next free id.
pub open spec fn lookup(ids: NodeIds, order: int, p: Place) -> int {
    match p {
        Place::Fixed(x) => x as int,
        Place::Keyed(a, b) => if ids.contains_key((a, b)) {
            ids[(a, b)] as int
        } else {
            order
        },
    }
}

/// The table after `p` was resolved.
pub open spec fn ids_after(ids: NodeIds, order: int, p: Place) -> NodeIds {
    match p {
        Place::Fixed(x) => ids,
        Place::Keyed(a, b) => if ids.contains_key((a, b)) {
            ids
        } else {
            ids.insert((a, b), order as usize)
        },
    }
}

/// The number of nodes after `p` was resolved.
pub open spec fn order_after(ids: NodeIds, order: int, p: Place) -> int {
    match p {
        Place::Fixed(x) => order,
        Place::Keyed(a, b) => if ids.contains_key((a, b)) {
            order
        } else {
            order + 1
        },
    }
}

/// The number under which the key `(a, b)` is kept.
pub open spec fn encode(a: usize, b: usize) -> u128 {
    (a as u128 * 0x1_0000_0000_0000_0000 + b as u128) as u128
}

/// A flow network whose nodes, other than source and sink, are found by key.
pub struct FlowWrapper {
    inner: MinCostFlow,
    node_map: HashMap<u128, usize>,
}

/// Something that names a node of a `FlowWrapper`.
pub trait IntoNode: Sized {
    /// The place this value names.
    spec fn place(&self) -> Place;

    /// Whether the value can be turned into a key.
    spec fn admissible(&self) -> bool;

    /// The id of the node, which is created when its key is new.
    fn into_node(self, w: &mut FlowWrapper) -> (id: usize)
        requires
            self.admissible(),
            old(w).wf(),
            old(w).graph().order() < usize::MAX,
            self.place() matches Place::Fixed(x) ==> x < old(w).graph().order(),
        ensures
            final(w).wf(),
            id == lookup(old(w).ids(), old(w).graph().order(), self.place()),
            final(w).ids() == ids_after(old(w).ids(), old(w).graph().order(), self.place()),
            final(w).graph().order() == order_after(old(w).ids(), old(w).graph().order(), self.place()),
            final(w).graph().arcs() == old(w).graph().arcs(),
            final(w).graph().flow_added() == old(w).graph().flow_added(),
            final(w).graph().cost_added() == old(w).graph().cost_added(),
    ;
}

/// The kinds of node of the time-expanded network.
pub enum FlowNode {
    /// The bus that carries the energy of one timestep.
    Wire(Time),
    /// The accumulator of a variable load, by the load's id.
    Action(usize),
    /// A battery at the start of a timestep, by the battery's id.
    Battery(usize, Time),
    Source,
    Sink,
    /// Import from the grid.
    Network,
    /// Local generation.
    Generator,
}

/// The place of each kind of node. Kinds with a key use disjoint ranges of
/// the key's first number, so no two nodes share a key.
pub open spec fn place_of(node: FlowNode) -> Place {
    match node {
        FlowNode::Wire(t) => Place::Keyed(0, t.minutes as usize),
        FlowNode::Network => Place::Keyed(1, 0),
        FlowNode::Generator => Place::Keyed(2, 0),
        FlowNode::Action(id) => Place::Keyed(3, id),
        FlowNode::Battery(id, t) => Place::Keyed((id + 4) as usize, t.minutes as usize),
        FlowNode::Source => Place::Fixed(0),
        FlowNode::Sink => Place::Fixed(1),
    }
}

/// Whether the key of the node fits the machine word.
pub open spec fn node_admissible(node: FlowNode) -> bool {
    match node {
        FlowNode::Battery(id, t) => id + 4 <= usize::MAX,
        _ => true,
    }
}

/// Different nodes stand at different places.
pub proof fn lemma_place_injective(a: FlowNode, b: FlowNode)
    requires
        node_admissible(a),
        node_admissible(b),
        place_of(a) == place_of(b),
    ensures
        a == b,
{
}

impl IntoNode for FlowNode {
    open spec fn place(&self) -> Place {
        place_of(*self)
    }

    open spec fn admissible(&self) -> bool {
        node_admissible(*self)
    }

    fn into_node(self, w: &mut FlowWrapper) -> (id: usize) {
        match self {
            FlowNode::Wire(t) => w.node((0, t.to_timestep() as usize)),
            FlowNode::Network => w.node((1, 0)),
            FlowNode::Generator => w.node((2, 0)),
            FlowNode::Action(id) => w.node((3, id)),
            FlowNode::Battery(id, t) => w.node((id + 4, t.to_timestep() as usize)),
            FlowNode::Source => w.source(),
            FlowNode::Sink => w.sink(),
        }
    }
}

fn key_code(key: (usize, usize)) -> (code: u128)
    ensures
        code == encode(key.0, key.1),
{
    key.0 as u128 * 0x1_0000_0000_0000_0000 + key.1 as u128
}

/// Different keys are kept under different numbers.
pub proof fn lemma_encode_injective(a: (usize, usize), b: (usize, usize))
    requires
        encode(a.0, a.1) == encode(b.0, b.1),
    ensures
        a == b,
{
}

impl FlowWrapper {
    /// The network under the table.
    pub closed spec fn graph(&self) -> MinCostFlow {
        self.inner
    }

    /// The network under the table.
    pub fn inner(&self) -> (g: &MinCostFlow)
        ensures
            *g == self.graph(),
    {
        &self.inner
    }

    /// The table from keys to node ids.
    pub closed spec fn ids(&self) -> NodeIds {
        Map::new(
            |k: (usize, usize)| self.node_map@.contains_key(encode(k.0, k.1)),
            |k: (usize, usize)| self.node_map@[encode(k.0, k.1)],
        )
    }

    /// The table holds no key that does not come from a pair of numbers.
    pub closed spec fn table_wf(&self) -> bool {
        forall|c: u128| #[trigger]
            self.node_map@.contains_key(c) ==> exists|k: (usize, usize)| #[trigger]
                encode(k.0, k.1) == c
    }

    /// The network is well formed, and the table maps different keys to
    /// different nodes, none of them source or sink.
    pub open spec fn wf(&self) -> bool {
        &&& self.graph().wf()
        &&& self.table_wf()
        &&& forall|k: (usize, usize)| #[trigger]
            self.ids().contains_key(k) ==> 2 <= self.ids()[k] < self.graph().order()
        &&& forall|j: (usize, usize), k: (usize, usize)|
            #![trigger self.ids()[j], self.ids()[k]]
            self.ids().contains_key(j) && self.ids().contains_key(k) && j != k ==> self.ids()[j]
                != self.ids()[k]
    }

    /// A network of source and sink alone, with an empty table.
    pub fn new() -> (w: Self)
        ensures
            w.wf(),
            w.ids() == NodeIds::empty(),
            w.graph().order() == 2,
            w.graph().arcs() == Seq::<Edge>::empty(),
            w.graph().flow_added() == 0,
            w.graph().cost_added() == 0,
    {
        let w = FlowWrapper { inner: MinCostFlow::new(), node_map: HashMap::new() };
        assert(w.ids() =~= NodeIds::empty());
        w
    }

    /// The source node.
    pub fn source(&self) -> (s: usize)
        requires
            self.graph().wf(),
        ensures
            s == 0,
    {
        self.inner.get_source()
    }

    /// The sink node.
    pub fn sink(&self) -> (t: usize)
        requires
            self.graph().wf(),
        ensures
            t == 1,
    {
        self.inner.get_sink()
    }

    /// The node kept under `key`, created when the key is new.
    pub fn node(&mut self, key: (usize, usize)) -> (id: usize)
        requires
            old(self).wf(),
            old(self).graph().order() < usize::MAX,
        ensures
            final(self).wf(),
            id == lookup(old(self).ids(), old(self).graph().order(), Place::Keyed(key.0, key.1)),
            final(self).ids() == ids_after(
                old(self).ids(),
                old(self).graph().order(),
                Place::Keyed(key.0, key.1),
            ),
            final(self).graph().order() == order_after(
                old(self).ids(),
                old(self).graph().order(),
                Place::Keyed(key.0, key.1),
            ),
            final(self).graph().arcs() == old(self).graph().arcs(),
            final(self).graph().flow_added() == old(self).graph().flow_added(),
            final(self).graph().cost_added() == old(self).graph().cost_added(),
    {
        let code = key_code(key);
        let ghost ids0 = self.ids();
        match self.node_map.get(&code) {
            Some(id) => {
                let id = *id;
                assert(ids0.contains_key(key));
                id
            },
            None => {
                assert(!ids0.contains_key(key));
                let id = self.inner.new_node();
                self.node_map.insert(code, id);
                proof {
                    assert forall|k: (usize, usize)|
                        self.ids().contains_key(k) <==> ids0.insert(key, id).contains_key(k) by {
                        if encode(k.0, k.1) == code {
                            lemma_encode_injective(k, key);
                        }
                    }
                    assert forall|k: (usize, usize)| self.ids().contains_key(k) implies self.ids()[k]
                        == ids0.insert(key, id)[k] by {
                        if encode(k.0, k.1) == code {
                            lemma_encode_injective(k, key);
                        }
                    }
                    assert(self.ids() =~= ids0.insert(key, id));
                    old(self).inner.lemma_wf();
                    assert forall|k: (usize, usize)| #[trigger]
                        self.ids().contains_key(k) implies 2 <= self.ids()[k] < self.inner.order() by {
                        if k != key {
                            assert(ids0.contains_key(k));
                        }
                    }
                    assert forall|c: u128| #[trigger] self.node_map@.contains_key(c) implies exists|
                        k: (usize, usize),
                    | #[trigger] encode(k.0, k.1) == c by {
                        if c == code {
                            assert(encode(key.0, key.1) == c);
                        } else {
                            assert(old(self).node_map@.contains_key(c));
                        }
                    }
                    assert forall|j: (usize, usize), k: (usize, usize)|
                        #![trigger self.ids()[j], self.ids()[k]]
                        self.ids().contains_key(j) && self.ids().contains_key(k) && j != k
                            implies self.ids()[j] != self.ids()[k] by {
                        if j != key && k != key {
                            assert(ids0.contains_key(j) && ids0.contains_key(k));
                            assert(ids0[j] != ids0[k]);
                        } else if j == key {
                            assert(ids0.contains_key(k));
                        } else {
                            assert(ids0.contains_key(j));
                        }
                    }
                }
                id
            },
        }
    }

    /// Appends the pair from `u` to `v` with capacity `cap` and unit cost
    /// `cost`, creating the nodes that are new, `u` first. Returns the handle
    /// of the pair.
    pub fn add_edge<U: IntoNode, V: IntoNode>(&mut self, u: U, v: V, cap: i64, cost: i64) -> (handle:
        usize)
        requires
            old(self).wf(),
            u.admissible(),
            v.admissible(),
            u.place() matches Place::Fixed(x) ==> x < 2,
            v.place() matches Place::Fixed(x) ==> x < 2,
            old(self).graph().order() + 2 <= usize::MAX,
            old(self).graph().arcs().len() + 2 < usize::MAX,
            cap >= 0,
            cost > i64::MIN,
        ensures
            final(self).wf(),
            handle == old(self).graph().arcs().len(),
            ({
                let ids0 = old(self).ids();
                let n0 = old(self).graph().order();
                let ids1 = ids_after(ids0, n0, u.place());
                let n1 = order_after(ids0, n0, u.place());
                &&& final(self).ids() == ids_after(ids1, n1, v.place())
                &&& final(self).graph().order() == order_after(ids1, n1, v.place())
                &&& final(self).graph().arcs() == old(self).graph().arcs().push(
                    Edge { to: lookup(ids1, n1, v.place()) as usize, f: cap, cost: cost },
                ).push(Edge { to: lookup(ids0, n0, u.place()) as usize, f: 0, cost: (-cost) as i64 })
            }),
            final(self).graph().flow_added() == old(self).graph().flow_added(),
            final(self).graph().cost_added() == old(self).graph().cost_added(),
    {
        proof {
            old(self).graph().lemma_wf();
        }
        let u_id = u.into_node(self);
        let v_id = v.into_node(self);
        let ghost mid = *self;
        let h = self.inner.add_edge(u_id, v_id, cap, cost);
        assert(self.ids() == mid.ids());
        h
    }

    /// Appends a node without a key.
    pub fn new_node(&mut self) -> (id: usize)
        requires
            old(self).wf(),
            old(self).graph().order() < usize::MAX,
        ensures
            final(self).wf(),
            id == old(self).graph().order(),
            final(self).graph().order() == old(self).graph().order() + 1,
            final(self).graph().arcs() == old(self).graph().arcs(),
            final(self).ids() == old(self).ids(),
    {
        let id = self.inner.new_node();
        assert(self.ids() == old(self).ids());
        id
    }

    /// Solves the network from scratch; see `MinCostFlow::mincostflow`.
    pub fn mincostflow(&mut self) -> (r: (i64, i64))
        requires
            old(self).wf(),
        ensures
            final(self).wf(),
            final(self).ids() == old(self).ids(),
            final(self).graph().order() == old(self).graph().order(),
            same_network(old(self).graph().arcs(), final(self).graph().arcs()),
            r.0 == total_cost(final(self).graph().arcs()) - total_cost(old(self).graph().arcs()),
            r.1 == excess(final(self).graph().arcs(), 1) - excess(old(self).graph().arcs(), 1),
            r.1 >= 0,
            final(self).graph().is_converged() ==> saturated(final(self).graph().arcs()),
            priced(old(self).graph().arcs(), old(self).graph().order()) ==> {
                &&& !final(self).graph().has_cancelled()
                &&& final(self).graph().is_converged() ==> priced(
                    final(self).graph().arcs(),
                    final(self).graph().order(),
                )
                &&& r.1 == 0 ==> r.0 == 0 && final(self).graph().arcs() == old(self).graph().arcs()
                &&& saturated(old(self).graph().arcs()) ==> r.1 == 0
            },
            calm(old(self).graph().arcs(), old(self).graph().order(), 0, 0) ==> {
                &&& final(self).graph().is_converged()
                &&& saturated(final(self).graph().arcs())
                &&& priced(final(self).graph().arcs(), final(self).graph().order())
            },
    {
        let r = self.inner.mincostflow();
        assert(self.ids() == old(self).ids());
        r
    }

    /// Used capacity of the pair with handle `handle`.
    pub fn get_flow(&self, handle: usize) -> (used: i64)
        requires
            self.graph().wf(),
            handle < self.graph().arcs().len(),
            handle % 2 == 0,
        ensures
            used == pair_flow(self.graph().arcs(), handle as int / 2),
            0 <= used <= pair_capacity(self.graph().arcs(), handle as int / 2),
    {
        self.inner.flow(handle)
    }
}

impl Clone for FlowWrapper {
    /// A deep copy with the same table.
    fn clone(&self) -> (r: Self)
        ensures
            r.ids() == self.ids(),
            r.graph().arcs() == self.graph().arcs(),
            r.graph().order() == self.graph().order(),
            r.graph().flow_added() == self.graph().flow_added(),
            r.graph().cost_added() == self.graph().cost_added(),
            r.graph().is_converged() == self.graph().is_converged(),
            self.wf() ==> r.wf(),
    {
        let r = FlowWrapper { inner: self.inner.clone(), node_map: self.node_map.clone() };
        assert(r.ids() =~= self.ids());
        r
    }
}

impl Default for FlowWrapper {
    fn default() -> (w: Self)
        ensures
            w.wf(),
            w.ids() == NodeIds::empty(),
            w.graph().order() == 2,
            w.graph().arcs() == Seq::<Edge>::empty(),
    {
        FlowWrapper::new()
    }
}

} // verus!
