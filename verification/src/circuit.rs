//! The wiring graph and its access operations.
//!
//! A [`Circuit`] is an index-addressed arena: nodes are input terminals,
//! output terminals and truth-table devices, and edges carry the source
//! and destination port indices of a wire. The graph may be cyclic;
//! feedback is what gives latches and oscillators their behaviour.

use vstd::multiset::Multiset;
use vstd::prelude::*;

use crate::lookup_table::LookupTable;
use crate::lookup_table::LutModel;
use crate::names::find_name;
use crate::names::str_eq;
use crate::Error;

verus! {

/// The mathematical content of a terminal.
#[verifier::ext_equal]
pub ghost struct InOutModel {
    /// The terminal's name.
    pub name: Seq<char>,
    /// The latched value.
    pub value: bool,
}

/// A named single-bit terminal with a latched value.
#[derive(Debug, PartialEq)]
pub struct InOut {
    name: String,
    value: bool,
}

impl View for InOut {
    type V = InOutModel;

    closed spec fn view(&self) -> InOutModel {
        InOutModel { name: self.name@, value: self.value }
    }
}

impl Clone for InOut {
    /// A copy carries the same name and latched value.
    fn clone(&self) -> (r: Self)
        ensures
            r@ == self@,
    {
        InOut { name: self.name.clone(), value: self.value }
    }
}

impl InOut {
    /// A terminal with the given name, latched false.
    pub fn new(name: &str) -> (r: Self)
        ensures
            r@ == (InOutModel { name: name@, value: false }),
    {
        InOut { name: name.to_owned(), value: false }
    }

    /// The terminal's name.
    pub fn name(&self) -> (r: String)
        ensures
            r@ == self@.name,
    {
        self.name.clone()
    }

    /// The latched value.
    pub fn value(&self) -> (r: bool)
        ensures
            r == self@.value,
    {
        self.value
    }

    /// Latches a value.
    pub fn set(&mut self, value: bool)
        ensures
            final(self)@ == (InOutModel { name: old(self)@.name, value }),
    {
        self.value = value;
    }
}

/// The payload of a wire: the source port index on the source node, the
/// destination port index on the destination node, and a weight that is
/// reserved for future use and never read by propagation or reduction.
#[derive(Debug, Clone, Copy, PartialEq, Eq, Structural)]
pub struct Connection {
    /// Reserved for future use; never read by propagation or reduction.
    pub weight: usize,
    /// The source port index on the source node.
    pub from: usize,
    /// The destination port index on the destination node.
    pub to: usize,
}

impl Connection {
    /// A wire payload from a source port to a destination port.
    pub fn new(from: usize, to: usize, weight: usize) -> (r: Self)
        ensures
            r == (Connection { weight, from, to }),
    {
        Connection { weight, from, to }
    }

    /// The reserved weight.
    pub fn weight(&self) -> (r: usize)
        ensures
            r == self.weight,
    {
        self.weight
    }

    /// The destination port index.
    pub fn to(&self) -> (r: usize)
        ensures
            r == self.to,
    {
        self.to
    }

    /// The source port index.
    pub fn from(&self) -> (r: usize)
        ensures
            r == self.from,
    {
        self.from
    }

}

/// One stored edge: source node, destination node, and the wire payload.
#[derive(Debug, Clone, Copy, PartialEq, Eq, Structural)]
pub struct Edge {
    /// The source node id.
    pub src: usize,
    /// The destination node id.
    pub dst: usize,
    /// The wire payload.
    pub conn: Connection,
}

/// The mathematical content of one node.
#[verifier::ext_equal]
pub ghost enum NodeModel {
    /// A truth-table device.
    Lut(LutModel),
    /// An input terminal.
    In(InOutModel),
    /// An output terminal.
    Out(InOutModel),
}

/// One node of the wiring graph.
#[derive(Debug, PartialEq)]
pub enum Node {
    /// A truth-table device.
    Lut(LookupTable),
    /// An input terminal.
    In(InOut),
    /// An output terminal.
    Out(InOut),
}

impl View for Node {
    type V = NodeModel;

    open spec fn view(&self) -> NodeModel {
        match self {
            Node::Lut(lut) => NodeModel::Lut(lut@),
            Node::In(io) => NodeModel::In(io@),
            Node::Out(io) => NodeModel::Out(io@),
        }
    }
}

impl Clone for Node {
    /// A copy carries the same device or terminal state.
    fn clone(&self) -> (r: Self)
        ensures
            r@ == self@,
    {
        match self {
            Node::Lut(lut) => Node::Lut(lut.clone()),
            Node::In(io) => Node::In(io.clone()),
            Node::Out(io) => Node::Out(io.clone()),
        }
    }
}

/// How many input ports a node offers.
pub open spec fn in_arity(n: NodeModel) -> nat {
    match n {
        NodeModel::Lut(l) => l.in_names.len(),
        NodeModel::In(_) => 0,
        NodeModel::Out(_) => 1,
    }
}

/// How many output ports a node offers.
pub open spec fn out_arity(n: NodeModel) -> nat {
    match n {
        NodeModel::Lut(l) => l.out_names.len(),
        NodeModel::In(_) => 1,
        NodeModel::Out(_) => 0,
    }
}

/// The node's name.
pub open spec fn node_name(n: NodeModel) -> Seq<char> {
    match n {
        NodeModel::Lut(l) => l.name,
        NodeModel::In(io) => io.name,
        NodeModel::Out(io) => io.name,
    }
}

/// The latched bit of a terminal. Only meaningful on terminals.
pub open spec fn terminal_value(n: NodeModel) -> bool {
    match n {
        NodeModel::Lut(_) => false,
        NodeModel::In(io) => io.value,
        NodeModel::Out(io) => io.value,
    }
}

/// A node is internally consistent: a device keeps its shape invariant.
pub open spec fn node_wf(n: NodeModel) -> bool {
    match n {
        NodeModel::Lut(l) => l.wf(),
        NodeModel::In(_) => true,
        NodeModel::Out(_) => true,
    }
}

/// Two nodes agree on everything but latched state: same kind, same
/// names, same table, same port counts.
pub open spec fn node_same_shape(a: NodeModel, b: NodeModel) -> bool {
    match (a, b) {
        (NodeModel::Lut(x), NodeModel::Lut(y)) => {
            &&& x.table == y.table
            &&& x.in_names == y.in_names
            &&& x.out_names == y.out_names
            &&& x.name == y.name
            &&& x.in_values.len() == y.in_values.len()
        },
        (NodeModel::In(x), NodeModel::In(y)) => x.name == y.name,
        (NodeModel::Out(x), NodeModel::Out(y)) => x.name == y.name,
        _ => false,
    }
}

/// Two node lists agree pointwise on everything but latched state.
pub open spec fn same_shape(a: Seq<NodeModel>, b: Seq<NodeModel>) -> bool {
    &&& a.len() == b.len()
    &&& forall|i: int| 0 <= i < a.len() ==> node_same_shape(a[i], #[trigger] b[i])
}

/// Nodes of the same shape expose the same terminal names.
pub proof fn lemma_same_shape_names(c1: CircuitModel, c2: CircuitModel)
    requires
        c1.wf(),
        same_shape(c1.nodes, c2.nodes),
        c2.inputs == c1.inputs,
        c2.outputs == c1.outputs,
    ensures
        c2.in_names_seq() == c1.in_names_seq(),
        c2.out_names_seq() == c1.out_names_seq(),
{
    assert forall|i: int| 0 <= i < c1.inputs.len() implies c2.in_names_seq()[i]
        == c1.in_names_seq()[i] by {
        assert(node_same_shape(c1.nodes[c1.inputs[i] as int], c2.nodes[c1.inputs[i] as int]));
    }
    assert forall|i: int| 0 <= i < c1.outputs.len() implies c2.out_names_seq()[i]
        == c1.out_names_seq()[i] by {
        assert(node_same_shape(c1.nodes[c1.outputs[i] as int], c2.nodes[c1.outputs[i] as int]));
    }
    assert(c2.in_names_seq() =~= c1.in_names_seq());
    assert(c2.out_names_seq() =~= c1.out_names_seq());
}

/// An edge's endpoints exist and its port indices are valid for their
/// arities.
pub open spec fn edge_wf(e: Edge, nodes: Seq<NodeModel>) -> bool {
    &&& e.src < nodes.len()
    &&& e.dst < nodes.len()
    &&& e.conn.from < out_arity(nodes[e.src as int])
    &&& e.conn.to < in_arity(nodes[e.dst as int])
}

/// Why a proposed wire is accepted or rejected.
///
/// A wire into an input terminal, out of an output terminal, or into an
/// output terminal's nonexistent second port points against the flow of
/// the circuit and is [`Error::WrongDirection`]; an unknown node id or
/// port index is [`Error::PortNotFound`].
pub open spec fn edge_check(nodes: Seq<NodeModel>, e: Edge) -> Result<(), Error> {
    if e.src >= nodes.len() || e.dst >= nodes.len() {
        Err(Error::PortNotFound)
    } else if nodes[e.dst as int] is In || nodes[e.src as int] is Out {
        Err(Error::WrongDirection)
    } else if nodes[e.dst as int] is Out && e.conn.to != 0 {
        Err(Error::WrongDirection)
    } else if e.conn.from >= out_arity(nodes[e.src as int]) || e.conn.to >= in_arity(
        nodes[e.dst as int],
    ) {
        Err(Error::PortNotFound)
    } else {
        Ok(())
    }
}

/// The view of a node list.
pub open spec fn nodes_view(s: Seq<Node>) -> Seq<NodeModel> {
    s.map_values(|n: Node| n@)
}

/// The mathematical content of a circuit.
#[verifier::ext_equal]
pub ghost struct CircuitModel {
    /// The circuit's name.
    pub name: Seq<char>,
    /// The nodes, by id.
    pub nodes: Seq<NodeModel>,
    /// The edges, in insertion order.
    pub edges: Seq<Edge>,
    /// The input terminal ids, in declaration order.
    pub inputs: Seq<usize>,
    /// The output terminal ids, in declaration order.
    pub outputs: Seq<usize>,
}

impl CircuitModel {
    /// The structural invariant: every edge is valid for its endpoints,
    /// the registered terminals are of the right kind, and every device
    /// keeps its shape invariant.
    pub open spec fn wf(self) -> bool {
        &&& forall|i: int| 0 <= i < self.edges.len() ==> edge_wf(#[trigger] self.edges[i], self.nodes)
        &&& forall|i: int|
            0 <= i < self.inputs.len() ==> (#[trigger] self.inputs[i]) < self.nodes.len()
                && self.nodes[self.inputs[i] as int] is In
        &&& forall|i: int|
            0 <= i < self.outputs.len() ==> (#[trigger] self.outputs[i]) < self.nodes.len()
                && self.nodes[self.outputs[i] as int] is Out
        &&& forall|i: int| 0 <= i < self.nodes.len() ==> node_wf(#[trigger] self.nodes[i])
    }

    /// The names of the input terminals, in declaration order.
    pub open spec fn in_names_seq(self) -> Seq<Seq<char>> {
        Seq::new(self.inputs.len(), |i: int| node_name(self.nodes[self.inputs[i] as int]))
    }

    /// The names of the output terminals, in declaration order.
    pub open spec fn out_names_seq(self) -> Seq<Seq<char>> {
        Seq::new(self.outputs.len(), |i: int| node_name(self.nodes[self.outputs[i] as int]))
    }
}

/// The values a node drives on its output ports during a pass: an input
/// terminal its latched bit, a device the outputs of its latched inputs,
/// an output terminal nothing.
pub open spec fn node_out_vals(n: NodeModel) -> Seq<bool> {
    match n {
        NodeModel::Lut(l) => l.out_seq(),
        NodeModel::In(io) => seq![io.value],
        NodeModel::Out(_) => Seq::empty(),
    }
}

/// A value arriving on one input port of a node: a device latches it on
/// that port, an output terminal stores it. Input terminals take no wires.
pub open spec fn apply_port(n: NodeModel, port: int, value: bool) -> NodeModel {
    match n {
        NodeModel::Lut(l) => NodeModel::Lut(
            (LutModel { in_values: l.in_values.update(port, value), ..l }),
        ),
        NodeModel::Out(io) => NodeModel::Out((InOutModel { name: io.name, value })),
        NodeModel::In(io) => NodeModel::In(io),
    }
}

/// Walks the remaining edge list and applies every edge leaving `id`: the
/// source's value at the edge's source port is latched at the edge's
/// destination port, and the destination is enqueued unless this pass has
/// already visited it.
pub open spec fn propagate(
    nodes: Seq<NodeModel>,
    es: Seq<Edge>,
    id: usize,
    vals: Seq<bool>,
    queue: Seq<usize>,
    visited: Set<int>,
) -> (Seq<NodeModel>, Seq<usize>)
    decreases es.len(),
{
    if es.len() == 0 {
        (nodes, queue)
    } else {
        let e = es.first();
        let rest = es.drop_first();
        if e.src != id || e.dst >= nodes.len() {
            propagate(nodes, rest, id, vals, queue, visited)
        } else {
            let queue2 = if visited.contains(e.dst as int) {
                queue
            } else {
                queue.push(e.dst)
            };
            let nodes2 = nodes.update(
                e.dst as int,
                apply_port(nodes[e.dst as int], e.conn.to as int, vals[e.conn.from as int]),
            );
            propagate(nodes2, rest, id, vals, queue2, visited)
        }
    }
}

/// Propagation never changes the number of nodes.
pub proof fn lemma_propagate_len(
    nodes: Seq<NodeModel>,
    es: Seq<Edge>,
    id: usize,
    vals: Seq<bool>,
    queue: Seq<usize>,
    visited: Set<int>,
)
    ensures
        propagate(nodes, es, id, vals, queue, visited).0.len() == nodes.len(),
    decreases es.len(),
{
    if es.len() > 0 {
        let e = es.first();
        let rest = es.drop_first();
        if e.src != id || e.dst >= nodes.len() {
            lemma_propagate_len(nodes, rest, id, vals, queue, visited);
        } else {
            let queue2 = if visited.contains(e.dst as int) {
                queue
            } else {
                queue.push(e.dst)
            };
            let nodes2 = nodes.update(
                e.dst as int,
                apply_port(nodes[e.dst as int], e.conn.to as int, vals[e.conn.from as int]),
            );
            lemma_propagate_len(nodes2, rest, id, vals, queue2, visited);
        }
    }
}

/// The canonical order on wire payloads: by source port, then
/// destination port, then weight.
pub open spec fn conn_le(a: Connection, b: Connection) -> bool {
    ||| a.from < b.from
    ||| (a.from == b.from && a.to < b.to)
    ||| (a.from == b.from && a.to == b.to && a.weight <= b.weight)
}

/// Whether a payload list is sorted in the canonical order.
pub open spec fn conns_sorted(s: Seq<Connection>) -> bool {
    forall|x: int, y: int| 0 <= x < y < s.len() ==> conn_le(#[trigger] s[x], #[trigger] s[y])
}

/// The payloads of an edge list, in order.
pub open spec fn conns_of(edges: Seq<Edge>) -> Seq<Connection> {
    edges.map_values(|e: Edge| e.conn)
}

/// Compares two wire payloads in the canonical order.
fn conn_le_exec(a: &Connection, b: &Connection) -> (r: bool)
    ensures
        r == conn_le(*a, *b),
{
    if a.from != b.from {
        a.from < b.from
    } else if a.to != b.to {
        a.to < b.to
    } else {
        a.weight <= b.weight
    }
}

/// The set of node ids a visited-flag vector marks.
pub open spec fn vis_set(v: Seq<bool>) -> Set<int> {
    Set::new(|i: int| 0 <= i < v.len() && v[i])
}

/// One full propagation pass over the worklist: dequeue a node, mark it
/// visited, and hand its output values to its successors; a node already
/// visited this pass is skipped, so each node is processed at most once.
pub open spec fn run(
    nodes: Seq<NodeModel>,
    edges: Seq<Edge>,
    queue: Seq<usize>,
    visited: Set<int>,
) -> Seq<NodeModel>
    decreases
            nodes.len() - visited.intersect(
                vstd::set_lib::set_int_range(0, nodes.len() as int),
            ).len(),
            queue.len(),
        via run_decreases
{
    if queue.len() == 0 {
        nodes
    } else {
        let id = queue.first();
        let rest = queue.drop_first();
        if visited.contains(id as int) || id >= nodes.len() {
            run(nodes, edges, rest, visited)
        } else {
            let visited2 = visited.insert(id as int);
            if nodes[id as int] is Out {
                run(nodes, edges, rest, visited2)
            } else {
                let vals = node_out_vals(nodes[id as int]);
                let step = propagate(nodes, edges, id, vals, rest, visited2);
                run(step.0, edges, step.1, visited2)
            }
        }
    }
}

#[via_fn]
proof fn run_decreases(
    nodes: Seq<NodeModel>,
    edges: Seq<Edge>,
    queue: Seq<usize>,
    visited: Set<int>,
) {
    vstd::set_lib::lemma_int_range(0, nodes.len() as int);
    let range = vstd::set_lib::set_int_range(0, nodes.len() as int);
    vstd::set_lib::lemma_len_subset(visited.intersect(range), range);
    if queue.len() != 0 {
        let id = queue.first();
        if !(visited.contains(id as int) || id >= nodes.len()) {
            let visited2 = visited.insert(id as int);
            assert(visited2.intersect(range) =~= visited.intersect(range).insert(id as int));
            vstd::set_lib::lemma_len_subset(visited2.intersect(range), range);
            if !(nodes[id as int] is Out) {
                let vals = node_out_vals(nodes[id as int]);
                let step = propagate(nodes, edges, id, vals, queue.drop_first(), visited2);
                lemma_propagate_len(nodes, edges, id, vals, queue.drop_first(), visited2);
            }
        }
    }
}

/// One synchronous propagation pass: the worklist is seeded with every
/// input terminal in declaration order, and the nodes settle to `run`'s
/// result. Only node state changes; wiring and port maps are untouched.
pub open spec fn tick_spec(c: CircuitModel) -> CircuitModel {
    CircuitModel { nodes: run(c.nodes, c.edges, c.inputs, Set::empty()), ..c }
}

/// What latching a named input does to a circuit: the first input
/// terminal carrying the name takes the value; an unknown name changes
/// nothing.
pub open spec fn set_spec(c: CircuitModel, name: Seq<char>, value: bool) -> CircuitModel {
    match find_name(c.in_names_seq(), name) {
        Some(i) => CircuitModel {
            nodes: c.nodes.update(
                c.inputs[i] as int,
                NodeModel::In((InOutModel { name, value })),
            ),
            ..c
        },
        None => c,
    }
}

/// What reading a named output yields: the latched bit of the first
/// output terminal carrying the name, or [`Error::PortNotFound`].
pub open spec fn get_spec(c: CircuitModel, name: Seq<char>) -> Result<bool, Error> {
    match find_name(c.out_names_seq(), name) {
        Some(i) => Ok(terminal_value(c.nodes[c.outputs[i] as int])),
        None => Err(Error::PortNotFound),
    }
}

/// One step of a driving sequence: latch a named input, or run one
/// propagation pass.
pub ghost enum ReplayOp {
    /// Latch `value` on the input terminal named `name`.
    Latch { name: Seq<char>, value: bool },
    /// Run one synchronous propagation pass.
    Tick,
}

/// What one driving step does to a circuit.
pub open spec fn replay_step(c: CircuitModel, op: ReplayOp) -> CircuitModel {
    match op {
        ReplayOp::Latch { name, value } => set_spec(c, name, value),
        ReplayOp::Tick => tick_spec(c),
    }
}

/// The circuit a driving sequence leaves behind.
pub open spec fn replay(c: CircuitModel, ops: Seq<ReplayOp>) -> CircuitModel
    decreases ops.len(),
{
    if ops.len() == 0 {
        c
    } else {
        replay(replay_step(c, ops.first()), ops.drop_first())
    }
}

/// Determinism: [`Circuit::set`], [`Circuit::tick`] and [`Circuit::get`]
/// each ensure a result that is a function of the previous state alone
/// ([`set_spec`], [`tick_spec`], [`get_spec`]), so replaying an identical
/// `set`/`tick` sequence on two equal circuits — in particular on a
/// freshly compiled copy of the same definition — always leaves equal
/// states and reads back identical `get` results.
pub proof fn lemma_replay_deterministic(
    c1: CircuitModel,
    c2: CircuitModel,
    ops: Seq<ReplayOp>,
    name: Seq<char>,
)
    requires
        c1 == c2,
    ensures
        replay(c1, ops) == replay(c2, ops),
        get_spec(replay(c1, ops), name) == get_spec(replay(c2, ops), name),
{
}

/// A compiled circuit: a name, the wiring graph, and the ids of its
/// input and output terminals in declaration order.
#[derive(Debug)]
pub struct Circuit {
    name: String,
    nodes: Vec<Node>,
    edges: Vec<Edge>,
    inputs: Vec<usize>,
    outputs: Vec<usize>,
}

impl View for Circuit {
    type V = CircuitModel;

    closed spec fn view(&self) -> CircuitModel {
        CircuitModel {
            name: self.name@,
            nodes: nodes_view(self.nodes@),
            edges: self.edges@,
            inputs: self.inputs@,
            outputs: self.outputs@,
        }
    }
}

/// Whether a node id is in a registered id list.
fn contains_id(v: &Vec<usize>, id: usize) -> (r: bool)
    ensures
        r == v@.contains(id),
{
    let mut i: usize = 0;
    while i < v.len()
        invariant
            0 <= i <= v@.len(),
            forall|j: int| 0 <= j < i ==> v@[j] != id,
        decreases v@.len() - i,
    {
        if v[i] == id {
            return true;
        }
        i = i + 1;
    }
    false
}

impl Circuit {
    /// An empty circuit with the given name.
    pub fn blank(name: String) -> (r: Self)
        ensures
            r@ == (CircuitModel {
                name: name@,
                nodes: Seq::empty(),
                edges: Seq::empty(),
                inputs: Seq::empty(),
                outputs: Seq::empty(),
            }),
            r@.wf(),
    {
        let r = Circuit {
            name,
            nodes: Vec::new(),
            edges: Vec::new(),
            inputs: Vec::new(),
            outputs: Vec::new(),
        };
        proof {
            assert(r@ =~= (CircuitModel {
                name: r.name@,
                nodes: Seq::empty(),
                edges: Seq::empty(),
                inputs: Seq::empty(),
                outputs: Seq::empty(),
            }));
        }
        r
    }

    /// The circuit's name.
    pub fn name(&self) -> (r: String)
        ensures
            r@ == self@.name,
    {
        self.name.clone()
    }

    /// Adds a node and returns its id. An input or output terminal is
    /// also registered, at the end of the declaration order.
    pub fn add_node(&mut self, node: Node) -> (r: Result<usize, Error>)
        requires
            old(self)@.wf(),
            node_wf(node@),
        ensures
            final(self)@.wf(),
            r == Ok::<usize, Error>(old(self)@.nodes.len() as usize),
            final(self)@.name == old(self)@.name,
            final(self)@.nodes == old(self)@.nodes.push(node@),
            final(self)@.edges == old(self)@.edges,
            final(self)@.inputs == (if node@ is In {
                old(self)@.inputs.push(old(self)@.nodes.len() as usize)
            } else {
                old(self)@.inputs
            }),
            final(self)@.outputs == (if node@ is Out {
                old(self)@.outputs.push(old(self)@.nodes.len() as usize)
            } else {
                old(self)@.outputs
            }),
    {
        let id = self.nodes.len();
        let ghost is_in = node@ is In;
        let ghost is_out = node@ is Out;
        match &node {
            Node::In(_) => self.inputs.push(id),
            Node::Out(_) => self.outputs.push(id),
            Node::Lut(_) => (),
        }
        self.nodes.push(node);
        proof {
            assert(self@.nodes =~= old(self)@.nodes.push(self.nodes@[id as int]@));
            assert(self@.wf()) by {
                assert(forall|i: int|
                    0 <= i < self@.edges.len() ==> edge_wf(#[trigger] self@.edges[i], self@.nodes))
                    by {
                    assert(forall|e: Edge, i: int|
                        0 <= i < old(self)@.edges.len() && e == old(self)@.edges[i] && edge_wf(
                            e,
                            old(self)@.nodes,
                        ) ==> edge_wf(e, self@.nodes));
                };
            };
        }
        Ok(id)
    }

    /// Adds a wire between two nodes, checking its direction and port
    /// indices as [`edge_check`] describes.
    pub fn add_connection(&mut self, from: usize, to: usize, edge: Connection) -> (r: Result<
        (),
        Error,
    >)
        requires
            old(self)@.wf(),
        ensures
            final(self)@.wf(),
            r == edge_check(old(self)@.nodes, (Edge { src: from, dst: to, conn: edge })),
            r is Ok ==> final(self)@ == (CircuitModel {
                edges: old(self)@.edges.push((Edge { src: from, dst: to, conn: edge })),
                ..old(self)@
            }),
            r is Err ==> final(self)@ == old(self)@,
    {
        let ghost e = Edge { src: from, dst: to, conn: edge };
        if from >= self.nodes.len() || to >= self.nodes.len() {
            return Err(Error::PortNotFound);
        }
        let src_is_out = match &self.nodes[from] {
            Node::Out(_) => true,
            _ => false,
        };
        let dst_is_in = match &self.nodes[to] {
            Node::In(_) => true,
            _ => false,
        };
        proof {
            assert(self@.nodes[from as int] == self.nodes@[from as int]@);
            assert(self@.nodes[to as int] == self.nodes@[to as int]@);
        }
        if dst_is_in || src_is_out {
            return Err(Error::WrongDirection);
        }
        let dst_is_out = match &self.nodes[to] {
            Node::Out(_) => true,
            _ => false,
        };
        if dst_is_out && edge.to() != 0 {
            return Err(Error::WrongDirection);
        }
        let src_arity: usize = match &self.nodes[from] {
            Node::Lut(lut) => lut.out_count(),
            Node::In(_) => 1,
            Node::Out(_) => 0,
        };
        let dst_arity: usize = match &self.nodes[to] {
            Node::Lut(lut) => lut.in_count(),
            Node::In(_) => 0,
            Node::Out(_) => 1,
        };
        proof {
            assert(src_arity == out_arity(self@.nodes[from as int]));
            assert(dst_arity == in_arity(self@.nodes[to as int]));
        }
        if edge.from() >= src_arity || edge.to() >= dst_arity {
            return Err(Error::PortNotFound);
        }
        self.edges.push(Edge { src: from, dst: to, conn: edge });
        proof {
            assert(edge_check(old(self)@.nodes, e) is Ok);
            assert(self@ =~= (CircuitModel { edges: old(self)@.edges.push(e), ..old(self)@ }));
            assert(self@.wf()) by {
                assert(forall|i: int|
                    0 <= i < old(self)@.edges.len() ==> self@.edges[i] == old(self)@.edges[i]);
                assert(edge_wf(e, self@.nodes));
            };
        }
        Ok(())
    }

    /// Reads the latched bit of the output terminal with the given id.
    ///
    /// Succeeds exactly when the id is a registered output terminal;
    /// anything else is [`Error::WrongDirection`], since only output
    /// terminals can be read.
    pub fn get_id(&self, node_id: usize) -> (r: Result<bool, Error>)
        requires
            self@.wf(),
        ensures
            self@.outputs.contains(node_id) ==> r == Ok::<bool, Error>(
                terminal_value(self@.nodes[node_id as int]),
            ),
            !self@.outputs.contains(node_id) ==> r == Err::<bool, Error>(Error::WrongDirection),
    {
        if !contains_id(&self.outputs, node_id) {
            return Err(Error::WrongDirection);
        }
        proof {
            let i = choose|i: int| 0 <= i < self@.outputs.len() && self@.outputs[i] == node_id;
            assert(self@.nodes[node_id as int] is Out);
            assert(self@.nodes[node_id as int] == self.nodes@[node_id as int]@);
        }
        match &self.nodes[node_id] {
            Node::Out(io) => Ok(io.value()),
            _ => unreached(),
        }
    }

    /// Latches a bit on the input terminal with the given id.
    ///
    /// Succeeds exactly when the id is a registered input terminal;
    /// anything else is [`Error::WrongDirection`], since only input
    /// terminals can be written.
    pub fn set_id(&mut self, node_id: usize, value: bool) -> (r: Result<(), Error>)
        requires
            old(self)@.wf(),
        ensures
            final(self)@.wf(),
            old(self)@.inputs.contains(node_id) ==> r == Ok::<(), Error>(()) && final(self)@
                == (CircuitModel {
                nodes: old(self)@.nodes.update(
                    node_id as int,
                    NodeModel::In(
                        (InOutModel {
                            name: node_name(old(self)@.nodes[node_id as int]),
                            value,
                        }),
                    ),
                ),
                ..old(self)@
            }),
            !old(self)@.inputs.contains(node_id) ==> r == Err::<(), Error>(Error::WrongDirection)
                && final(self)@ == old(self)@,
    {
        if !contains_id(&self.inputs, node_id) {
            return Err(Error::WrongDirection);
        }
        proof {
            let i = choose|i: int| 0 <= i < self@.inputs.len() && self@.inputs[i] == node_id;
            assert(self@.nodes[node_id as int] is In);
            assert(self@.nodes[node_id as int] == self.nodes@[node_id as int]@);
        }
        let node = &mut self.nodes[node_id];
        match node {
            Node::In(io) => io.set(value),
            _ => unreached(),
        }
        proof {
            assert(self@.nodes =~= old(self)@.nodes.update(
                node_id as int,
                NodeModel::In(
                    (InOutModel { name: node_name(old(self)@.nodes[node_id as int]), value }),
                ),
            ));
            assert(self@ =~= (CircuitModel { nodes: self@.nodes, ..old(self)@ }));
            assert(self@.wf()) by {
                assert(forall|i: int|
                    0 <= i < self@.edges.len() ==> edge_wf(#[trigger] self@.edges[i], self@.nodes))
                    by {
                    assert(forall|i: int|
                        0 <= i < self@.nodes.len() ==> in_arity(#[trigger] self@.nodes[i])
                            == in_arity(old(self)@.nodes[i]) && out_arity(self@.nodes[i])
                            == out_arity(old(self)@.nodes[i]));
                };
            };
        }
        Ok(())
    }

    /// Reads the output terminal with the given name.
    ///
    /// Succeeds exactly when some output terminal carries the name (the
    /// first such, in declaration order); an unknown name is
    /// [`Error::PortNotFound`].
    pub fn get(&self, name: &str) -> (r: Result<bool, Error>)
        requires
            self@.wf(),
        ensures
            r == get_spec(self@, name@),
            match find_name(self@.out_names_seq(), name@) {
                Some(i) => r == Ok::<bool, Error>(
                    terminal_value(self@.nodes[self@.outputs[i] as int]),
                ),
                None => r == Err::<bool, Error>(Error::PortNotFound),
            },
    {
        let mut i: usize = 0;
        while i < self.outputs.len()
            invariant
                0 <= i <= self@.outputs.len(),
                self@.wf(),
                forall|j: int| 0 <= j < i ==> self@.out_names_seq()[j] != name@,
            decreases self@.outputs.len() - i,
        {
            let id = self.outputs[i];
            proof {
                assert(self@.nodes[id as int] == self.nodes@[id as int]@);
            }
            match &self.nodes[id] {
                Node::Out(io) => {
                    proof {
                        assert(self@.out_names_seq()[i as int] == io@.name);
                    }
                    if str_eq(name, &io.name) {
                        proof {
                            crate::names::lemma_find_name(self@.out_names_seq(), name@);
                            assert(terminal_value(self@.nodes[id as int]) == io@.value);
                        }
                        return Ok(io.value);
                    }
                },
                _ => unreached(),
            }
            i = i + 1;
        }
        proof {
            crate::names::lemma_find_name(self@.out_names_seq(), name@);
        }
        Err(Error::PortNotFound)
    }

    /// Latches a bit on the input terminal with the given name.
    ///
    /// Succeeds exactly when some input terminal carries the name (the
    /// first such, in declaration order); an unknown name is
    /// [`Error::PortNotFound`].
    pub fn set(&mut self, name: &str, value: bool) -> (r: Result<(), Error>)
        requires
            old(self)@.wf(),
        ensures
            final(self)@.wf(),
            final(self)@ == set_spec(old(self)@, name@, value),
            same_shape(old(self)@.nodes, final(self)@.nodes),
            match find_name(old(self)@.in_names_seq(), name@) {
                Some(i) => r == Ok::<(), Error>(()) && final(self)@ == (CircuitModel {
                    nodes: old(self)@.nodes.update(
                        old(self)@.inputs[i] as int,
                        NodeModel::In((InOutModel { name: name@, value })),
                    ),
                    ..old(self)@
                }),
                None => r == Err::<(), Error>(Error::PortNotFound) && final(self)@ == old(self)@,
            },
    {
        let mut i: usize = 0;
        while i < self.inputs.len()
            invariant
                0 <= i <= self@.inputs.len(),
                self@.wf(),
                self@ == old(self)@,
                forall|j: int| 0 <= j < i ==> self@.in_names_seq()[j] != name@,
            decreases self@.inputs.len() - i,
        {
            let id = self.inputs[i];
            proof {
                assert(self@.nodes[id as int] == self.nodes@[id as int]@);
                assert(self@.in_names_seq()[i as int] == node_name(self@.nodes[id as int]));
            }
            let found = match &self.nodes[id] {
                Node::In(io) => str_eq(name, &io.name),
                _ => unreached(),
            };
            if found {
                proof {
                    assert(self@.in_names_seq()[i as int] == name@);
                    crate::names::lemma_find_name(self@.in_names_seq(), name@);
                }
                let node = &mut self.nodes[id];
                match node {
                    Node::In(io) => io.set(value),
                    _ => unreached(),
                }
                proof {
                    assert(self@.nodes =~= old(self)@.nodes.update(
                        old(self)@.inputs[i as int] as int,
                        NodeModel::In((InOutModel { name: name@, value })),
                    ));
                    assert(self@ =~= (CircuitModel { nodes: self@.nodes, ..old(self)@ }));
                    assert(self@.wf()) by {
                        assert(forall|j: int|
                            0 <= j < self@.edges.len() ==> edge_wf(
                                #[trigger] self@.edges[j],
                                self@.nodes,
                            )) by {
                            assert(forall|j: int|
                                0 <= j < self@.nodes.len() ==> in_arity(#[trigger] self@.nodes[j])
                                    == in_arity(old(self)@.nodes[j]) && out_arity(self@.nodes[j])
                                    == out_arity(old(self)@.nodes[j]));
                        };
                    };
                }
                return Ok(());
            }
            i = i + 1;
        }
        proof {
            crate::names::lemma_find_name(self@.in_names_seq(), name@);
        }
        Err(Error::PortNotFound)
    }

    /// The canonical edge sequence: every wire payload, sorted by source
    /// port, destination port and weight. Two circuits wired the same way
    /// yield the same list whatever order their edges were added in, so
    /// this is what structural comparisons go by.
    pub fn edge_list(&self) -> (r: Vec<Connection>)
        ensures
            conns_sorted(r@),
            r@.to_multiset() == conns_of(self@.edges).to_multiset(),
    {
        broadcast use vstd::seq_lib::group_to_multiset_ensures;

        let mut r: Vec<Connection> = Vec::new();
        let mut i: usize = 0;
        proof {
            assert(conns_of(self@.edges.take(0)) =~= Seq::<Connection>::empty());
            assert(r@ =~= Seq::<Connection>::empty());
        }
        while i < self.edges.len()
            invariant
                0 <= i <= self@.edges.len(),
                conns_sorted(r@),
                r@.to_multiset() == conns_of(self@.edges.take(i as int)).to_multiset(),
            decreases self@.edges.len() - i,
        {
            broadcast use vstd::seq_lib::group_to_multiset_ensures;

            let c = self.edges[i].conn;
            let mut p: usize = 0;
            while p < r.len() && conn_le_exec(&r[p], &c)
                invariant
                    0 <= p <= r@.len(),
                    forall|j: int| 0 <= j < p ==> conn_le(#[trigger] r@[j], c),
                decreases r@.len() - p,
            {
                p = p + 1;
            }
            let ghost r0 = r@;
            r.insert(p, c);
            proof {
                assert(conns_sorted(r@)) by {
                    assert forall|x: int, y: int|
                        0 <= x < y < r@.len() implies conn_le(r@[x], r@[y]) by {
                        if y <= p {
                            assert(r@[x] == r0[x]);
                        } else if x >= p + 1 {
                            assert(r@[x] == r0[x - 1] && r@[y] == r0[y - 1]);
                        } else if x < p && y == p {
                        } else if x == p {
                            assert(r@[y] == r0[y - 1]);
                            assert(conn_le(c, r0[p as int]));
                        } else {
                            assert(r@[x] == r0[x]);
                            assert(r@[y] == r0[y - 1]);
                            assert(conn_le(r0[x], c));
                            assert(conn_le(c, r0[p as int]) || p == r0.len());
                        }
                    }
                };
                assert(r@ =~= r0.take(p as int) + seq![c] + r0.skip(p as int));
                vstd::seq_lib::lemma_multiset_commutative(r0.take(p as int) + seq![c], r0.skip(p as int));
                vstd::seq_lib::lemma_multiset_commutative(r0.take(p as int), seq![c]);
                vstd::seq_lib::lemma_multiset_commutative(r0.take(p as int), r0.skip(p as int));
                assert(r0.take(p as int) + r0.skip(p as int) =~= r0);
                assert(seq![c] =~= Seq::<Connection>::empty().push(c));
                assert(Seq::<Connection>::empty().to_multiset() =~= Multiset::<Connection>::empty());
                assert(r@.to_multiset() =~= r0.to_multiset().insert(c));
                assert(conns_of(self@.edges.take(i + 1)) =~= conns_of(
                    self@.edges.take(i as int),
                ).push(c));
            }
            i = i + 1;
        }
        proof {
            assert(self@.edges.take(self@.edges.len() as int) =~= self@.edges);
        }
        r
    }

    /// Performs exactly one synchronous propagation pass.
    ///
    /// The worklist is seeded with every input terminal in declaration
    /// order; each dequeued node is processed at most once per pass, so a
    /// node on a feedback cycle only observes the values its upstream
    /// neighbours held before the pass reached them. On a well-formed
    /// circuit a pass always succeeds.
    #[verifier::loop_isolation(false)]
    pub fn tick(&mut self) -> (r: Result<(), Error>)
        requires
            old(self)@.wf(),
        ensures
            final(self)@.wf(),
            r == Ok::<(), Error>(()),
            final(self)@ == tick_spec(old(self)@),
            same_shape(old(self)@.nodes, final(self)@.nodes),
    {
        let ghost goal = run(old(self)@.nodes, old(self)@.edges, old(self)@.inputs, Set::empty());
        let n = self.nodes.len();
        let mut queue: Vec<usize> = Vec::new();
        let mut qi: usize = 0;
        while qi < self.inputs.len()
            invariant
                0 <= qi <= self@.inputs.len(),
                queue@ == self@.inputs.take(qi as int),
            decreases self@.inputs.len() - qi,
        {
            queue.push(self.inputs[qi]);
            proof {
                assert(queue@ =~= self@.inputs.take(qi + 1));
            }
            qi = qi + 1;
        }
        proof {
            assert(queue@ =~= self@.inputs);
        }
        let mut visited: Vec<bool> = vec![false; n];
        let mut head: usize = 0;
        proof {
            assert(vis_set(visited@) =~= Set::<int>::empty());
            assert(queue@.skip(0) =~= queue@);
        }
        while head < queue.len()
            invariant
                self@.wf(),
                self@.name == old(self)@.name,
                self@.edges == old(self)@.edges,
                self@.inputs == old(self)@.inputs,
                self@.outputs == old(self)@.outputs,
                self@.nodes.len() == old(self)@.nodes.len(),
                same_shape(old(self)@.nodes, self@.nodes),
                n == self@.nodes.len(),
                visited@.len() == n,
                0 <= head <= queue@.len(),
                forall|j: int| 0 <= j < queue@.len() ==> (#[trigger] queue@[j]) < n,
                run(self@.nodes, self@.edges, queue@.skip(head as int), vis_set(visited@))
                    == goal,
            decreases
                    self@.nodes.len() - vis_set(visited@).intersect(
                        vstd::set_lib::set_int_range(0, self@.nodes.len() as int),
                    ).len(),
                    queue@.len() - head,
        {
            proof {
                vstd::set_lib::lemma_int_range(0, n as int);
                vstd::set_lib::lemma_len_subset(
                    vis_set(visited@).intersect(vstd::set_lib::set_int_range(0, n as int)),
                    vstd::set_lib::set_int_range(0, n as int),
                );
            }
            let ghost suffix_pre = queue@.skip(head as int);
            let ghost vis_pre = vis_set(visited@);
            let id = queue[head];
            head = head + 1;
            proof {
                assert(suffix_pre.first() == id);
                assert(suffix_pre.drop_first() =~= queue@.skip(head as int));
            }
            if visited[id] {
                proof {
                    assert(vis_pre.contains(id as int));
                }
                continue ;
            }
            visited.set(id, true);
            let ghost vis2 = vis_set(visited@);
            proof {
                let range = vstd::set_lib::set_int_range(0, n as int);
                assert(vis2 =~= vis_pre.insert(id as int));
                assert(vis2.intersect(range) =~= vis_pre.intersect(range).insert(id as int));
                vstd::set_lib::lemma_len_subset(vis_pre.intersect(range), range);
                vstd::set_lib::lemma_len_subset(vis2.intersect(range), range);
                assert(!vis_pre.intersect(range).contains(id as int));
                vstd::set::axiom_set_insert_len(vis_pre.intersect(range), id as int);
                assert(vis2.intersect(range).len() == vis_pre.intersect(range).len() + 1);
            }
            let is_out = match &self.nodes[id] {
                Node::Out(_) => true,
                _ => false,
            };
            proof {
                assert(self@.nodes[id as int] == self.nodes@[id as int]@);
            }
            if is_out {
                continue ;
            }
            let vals: Vec<bool> = match &self.nodes[id] {
                Node::In(io) => {
                    let mut v: Vec<bool> = Vec::new();
                    v.push(io.value());
                    proof {
                        assert(v@ =~= node_out_vals(self@.nodes[id as int]));
                    }
                    v
                },
                Node::Lut(lut) => lut.outputs(),
                Node::Out(_) => unreached(),
            };
            proof {
                assert(vals@ == node_out_vals(self@.nodes[id as int]));
            }
            let ghost target = propagate(
                self@.nodes,
                self@.edges,
                id,
                vals@,
                queue@.skip(head as int),
                vis2,
            );
            let mut e: usize = 0;
            proof {
                assert(self@.edges.skip(0) =~= self@.edges);
            }
            while e < self.edges.len()
                invariant
                    0 <= e <= self@.edges.len(),
                    self@.wf(),
                    self@.name == old(self)@.name,
                    self@.edges == old(self)@.edges,
                    self@.inputs == old(self)@.inputs,
                    self@.outputs == old(self)@.outputs,
                    self@.nodes.len() == old(self)@.nodes.len(),
                    same_shape(old(self)@.nodes, self@.nodes),
                    vals@.len() == out_arity(self@.nodes[id as int]),
                    0 <= head <= queue@.len(),
                    forall|j: int| 0 <= j < queue@.len() ==> (#[trigger] queue@[j]) < n,
                    propagate(
                        self@.nodes,
                        self@.edges.skip(e as int),
                        id,
                        vals@,
                        queue@.skip(head as int),
                        vis2,
                    ) == target,
                decreases self@.edges.len() - e,
            {
                let ghost nodes_pre = self@.nodes;
                let ghost suffix_e = queue@.skip(head as int);
                let edge = self.edges[e];
                proof {
                    assert(self@.edges.skip(e as int).first() == edge);
                    assert(self@.edges.skip(e as int).drop_first() =~= self@.edges.skip(e + 1));
                    assert(edge_wf(edge, self@.nodes));
                }
                if edge.src == id {
                    if !visited[edge.dst] {
                        queue.push(edge.dst);
                        proof {
                            assert(queue@.skip(head as int) =~= suffix_e.push(edge.dst));
                        }
                    }
                    let val = vals[edge.conn.from];
                    let node = &mut self.nodes[edge.dst];
                    match node {
                        Node::Lut(lut) => {
                            proof {
                                assert(node_wf(nodes_pre[edge.dst as int]));
                            }
                            match lut.set_id(edge.conn.to, val) {
                                Ok(()) => (),
                                Err(_) => unreached(),
                            }
                        },
                        Node::Out(io) => io.set(val),
                        Node::In(_) => unreached(),
                    }
                    proof {
                        assert(self@.nodes =~= nodes_pre.update(
                            edge.dst as int,
                            apply_port(
                                nodes_pre[edge.dst as int],
                                edge.conn.to as int,
                                vals@[edge.conn.from as int],
                            ),
                        ));
                        assert(self@.wf()) by {
                            assert(forall|j: int|
                                0 <= j < self@.nodes.len() ==> in_arity(#[trigger] self@.nodes[j])
                                    == in_arity(nodes_pre[j]) && out_arity(self@.nodes[j])
                                    == out_arity(nodes_pre[j]) && node_wf(self@.nodes[j])
                                    && node_same_shape(nodes_pre[j], self@.nodes[j]));
                            assert(forall|j: int|
                                0 <= j < self@.edges.len() ==> edge_wf(
                                    #[trigger] self@.edges[j],
                                    self@.nodes,
                                ));
                        };
                        assert(vals@.len() == out_arity(self@.nodes[id as int]));
                    }
                } else {
                    proof {
                        assert(propagate(
                            self@.nodes,
                            self@.edges.skip(e as int),
                            id,
                            vals@,
                            queue@.skip(head as int),
                            vis2,
                        ) == propagate(
                            self@.nodes,
                            self@.edges.skip(e + 1),
                            id,
                            vals@,
                            queue@.skip(head as int),
                            vis2,
                        ));
                    }
                }
                e = e + 1;
            }
            proof {
                assert(self@.edges.skip(self@.edges.len() as int) =~= Seq::<Edge>::empty());
                assert(self@.nodes == target.0);
                assert(queue@.skip(head as int) =~= target.1);
            }
        }
        proof {
            assert(queue@.skip(head as int) =~= Seq::<usize>::empty());
            assert(self@.nodes == goal);
            assert(self@ =~= tick_spec(old(self)@));
        }
        Ok(())
    }

    /// The number of nodes in the wiring graph.
    pub(crate) fn nodes_len(&self) -> (r: usize)
        ensures
            r == self@.nodes.len(),
    {
        self.nodes.len()
    }

    /// The number of edges in the wiring graph.
    pub(crate) fn edges_len(&self) -> (r: usize)
        ensures
            r == self@.edges.len(),
    {
        self.edges.len()
    }

    /// The stored edge at the given position.
    pub(crate) fn edge_at(&self, i: usize) -> (r: Edge)
        requires
            i < self@.edges.len(),
        ensures
            r == self@.edges[i as int],
    {
        self.edges[i]
    }

    /// The input terminal names, in declaration order.
    pub fn in_names(&self) -> (r: Vec<String>)
        requires
            self@.wf(),
        ensures
            r.deep_view() == self@.in_names_seq(),
    {
        let mut r: Vec<String> = Vec::new();
        let mut i: usize = 0;
        while i < self.inputs.len()
            invariant
                0 <= i <= self@.inputs.len(),
                self@.wf(),
                r@.len() == i,
                forall|j: int| 0 <= j < i ==> (#[trigger] r@[j])@ == self@.in_names_seq()[j],
            decreases self@.inputs.len() - i,
        {
            let id = self.inputs[i];
            proof {
                assert(self@.nodes[id as int] == self.nodes@[id as int]@);
            }
            let name = match &self.nodes[id] {
                Node::In(io) => io.name(),
                _ => unreached(),
            };
            r.push(name);
            i = i + 1;
        }
        proof {
            assert(r.deep_view() =~~= self@.in_names_seq());
        }
        r
    }

    /// The output terminal names, in declaration order.
    pub fn out_names(&self) -> (r: Vec<String>)
        requires
            self@.wf(),
        ensures
            r.deep_view() == self@.out_names_seq(),
    {
        let mut r: Vec<String> = Vec::new();
        let mut i: usize = 0;
        while i < self.outputs.len()
            invariant
                0 <= i <= self@.outputs.len(),
                self@.wf(),
                r@.len() == i,
                forall|j: int| 0 <= j < i ==> (#[trigger] r@[j])@ == self@.out_names_seq()[j],
            decreases self@.outputs.len() - i,
        {
            let id = self.outputs[i];
            proof {
                assert(self@.nodes[id as int] == self.nodes@[id as int]@);
            }
            let name = match &self.nodes[id] {
                Node::Out(io) => io.name(),
                _ => unreached(),
            };
            r.push(name);
            i = i + 1;
        }
        proof {
            assert(r.deep_view() =~~= self@.out_names_seq());
        }
        r
    }
}

} // verus!
