//! The definition-to-circuit compiler.
//!
//! A chip definition plus a library of named truth-table devices
//! elaborates into a flat wiring graph: one input terminal per declared
//! chip input, one output terminal per declared chip output, one device
//! node per part instance, and one wire from every net producer to every
//! consumer registered under that net's name. Compilation is
//! all-or-nothing: any error aborts the build.

use vstd::prelude::*;

use crate::chip_def::ChipDef;
use crate::chip_def::ChipDefModel;
use crate::chip_def::Component;
use crate::chip_def::ComponentModel;
use crate::circuit::Circuit;
use crate::circuit::Connection;
use crate::circuit::Edge;
use crate::circuit::InOut;
use crate::circuit::InOutModel;
use crate::circuit::Node;
use crate::circuit::NodeModel;
use crate::lookup_table::LookupTable;
use crate::lookup_table::LutModel;
use crate::names::find_name;
use crate::names::lemma_find_name;
use crate::names::str_eq;
use crate::Error;

verus! {

/// The names of the devices in a library, in order.
pub open spec fn lut_names(lib: Seq<LutModel>) -> Seq<Seq<char>> {
    lib.map_values(|l: LutModel| l.name)
}

/// The library device a part refers to, or an empty placeholder when the
/// name is absent.
pub open spec fn device_of(lib: Seq<LutModel>, name: Seq<char>) -> LutModel {
    match find_name(lut_names(lib), name) {
        Some(d) => lib[d],
        None => LutModel {
            table: Seq::empty(),
            in_values: Seq::empty(),
            in_names: Seq::empty(),
            out_names: Seq::empty(),
            name: Seq::empty(),
        },
    }
}

/// How one part instance fares in the wiring pass: its device must exist
/// ([`Error::UnknownDevice`]), its declared input count must match the
/// device's arity ([`Error::ArityMismatch`]), and every local input port
/// must be a device input port ([`Error::PortNotFound`]). Entries other
/// than part instances take no wires and always pass.
pub open spec fn part_inputs_check(p: ComponentModel, lib: Seq<LutModel>) -> Result<(), Error> {
    match p {
        ComponentModel::Def { inputs, name, .. } => {
            match find_name(lut_names(lib), name) {
                None => Err(Error::UnknownDevice),
                Some(d) => {
                    if inputs.len() != lib[d].in_names.len() {
                        Err(Error::ArityMismatch)
                    } else if forall|q: int|
                        0 <= q < inputs.len() ==> find_name(
                            lib[d].in_names,
                            (#[trigger] inputs[q]).0,
                        ) is Some {
                        Ok(())
                    } else {
                        Err(Error::PortNotFound)
                    }
                },
            }
        },
        _ => Ok(()),
    }
}

/// The first input-side failure among the parts from position `pi` on.
pub open spec fn inputs_pass(parts: Seq<ComponentModel>, lib: Seq<LutModel>, pi: nat) -> Result<
    (),
    Error,
>
    decreases parts.len() - pi,
{
    if pi >= parts.len() {
        Ok(())
    } else {
        match part_inputs_check(parts[pi as int], lib) {
            Err(e) => Err(e),
            Ok(()) => inputs_pass(parts, lib, (pi + 1) as nat),
        }
    }
}

/// Whether every local output port of a part resolves on its device.
pub open spec fn part_outputs_ok(p: ComponentModel, lib: Seq<LutModel>) -> bool {
    match p {
        ComponentModel::Def { outputs, name, .. } => forall|q: int|
            0 <= q < outputs.len() ==> find_name(
                device_of(lib, name).out_names,
                (#[trigger] outputs[q]).0,
            ) is Some,
        _ => true,
    }
}

/// Whether the output side of every part resolves.
pub open spec fn outputs_pass(parts: Seq<ComponentModel>, lib: Seq<LutModel>) -> bool {
    forall|pi: int| 0 <= pi < parts.len() ==> part_outputs_ok(#[trigger] parts[pi], lib)
}

/// When compilation succeeds: every part's device, arity and port names
/// resolve.
pub open spec fn compile_ok(def: ChipDefModel, lib: Seq<LutModel>) -> bool {
    inputs_pass(def.parts, lib, 0) is Ok && outputs_pass(def.parts, lib)
}

/// What compilation reports: the first input-side failure in part order,
/// else [`Error::PortNotFound`] for an unresolved output port, else
/// success.
pub open spec fn compile_err(def: ChipDefModel, lib: Seq<LutModel>) -> Result<(), Error> {
    match inputs_pass(def.parts, lib, 0) {
        Err(e) => Err(e),
        Ok(()) => if outputs_pass(def.parts, lib) {
            Ok(())
        } else {
            Err(Error::PortNotFound)
        },
    }
}

/// The device nodes the part list contributes, in order, one per part
/// instance, each holding its library device's current state.
pub open spec fn lut_nodes(parts: Seq<ComponentModel>, lib: Seq<LutModel>, pi: nat) -> Seq<
    NodeModel,
>
    decreases parts.len() - pi,
{
    if pi >= parts.len() {
        Seq::empty()
    } else {
        match parts[pi as int] {
            ComponentModel::Def { name, .. } => seq![
                NodeModel::Lut(device_of(lib, name)),
            ] + lut_nodes(parts, lib, (pi + 1) as nat),
            _ => lut_nodes(parts, lib, (pi + 1) as nat),
        }
    }
}

/// The node list of a compiled circuit: input terminals, then output
/// terminals, then one device node per part instance, all latched false
/// except for whatever the library devices held.
pub open spec fn compile_nodes(def: ChipDefModel, lib: Seq<LutModel>) -> Seq<NodeModel> {
    Seq::new(def.inputs.len(), |i: int| NodeModel::In((InOutModel { name: def.inputs[i], value: false })))
        + Seq::new(
        def.outputs.len(),
        |i: int| NodeModel::Out((InOutModel { name: def.outputs[i], value: false })),
    ) + lut_nodes(def.parts, lib, 0)
}


/// The position of a name in a list, defaulting to the first port when
/// absent; the default is never reached on a definition that passed its
/// checks.
pub open spec fn find_pos(names: Seq<Seq<char>>, name: Seq<char>) -> int {
    match find_name(names, name) {
        Some(i) => i,
        None => 0,
    }
}

/// The declared chip outputs that consume a net, in declaration order:
/// output terminal `oi` consumes its own name on its only port.
pub open spec fn seed_consumers(outs: Seq<Seq<char>>, n_in: int, oi: int, net: Seq<char>) -> Seq<
    (int, int),
>
    decreases outs.len() - oi,
{
    if oi < 0 || oi >= outs.len() {
        Seq::empty()
    } else {
        (if outs[oi] == net {
            seq![(n_in + oi, 0int)]
        } else {
            Seq::empty()
        }) + seed_consumers(outs, n_in, oi + 1, net)
    }
}

/// The input pins of one part that consume a net, in declaration order.
pub open spec fn pin_consumers(
    pairs: Seq<(Seq<char>, Seq<char>)>,
    dev_ins: Seq<Seq<char>>,
    id: int,
    qi: int,
    net: Seq<char>,
) -> Seq<(int, int)>
    decreases pairs.len() - qi,
{
    if qi < 0 || qi >= pairs.len() {
        Seq::empty()
    } else {
        (if pairs[qi].1 == net {
            seq![(id, find_pos(dev_ins, pairs[qi].0))]
        } else {
            Seq::empty()
        }) + pin_consumers(pairs, dev_ins, id, qi + 1, net)
    }
}

/// The part input pins that consume a net, across the parts from `pi` on,
/// with `id` the node id of part `pi`.
pub open spec fn part_consumers(
    parts: Seq<ComponentModel>,
    lib: Seq<LutModel>,
    pi: int,
    id: int,
    net: Seq<char>,
) -> Seq<(int, int)>
    decreases parts.len() - pi,
{
    if pi < 0 || pi >= parts.len() {
        Seq::empty()
    } else {
        match parts[pi] {
            ComponentModel::Def { inputs, name, .. } => pin_consumers(
                inputs,
                device_of(lib, name).in_names,
                id,
                0,
                net,
            ) + part_consumers(parts, lib, pi + 1, id + 1, net),
            _ => part_consumers(parts, lib, pi + 1, id, net),
        }
    }
}

/// Everyone who consumes a net: the declared chip outputs carrying its
/// name, then every part input pin wired to it, in declaration order.
pub open spec fn net_consumers(
    outs: Seq<Seq<char>>,
    parts: Seq<ComponentModel>,
    lib: Seq<LutModel>,
    n_in: int,
    n_out: int,
    net: Seq<char>,
) -> Seq<(int, int)> {
    seed_consumers(outs, n_in, 0, net) + part_consumers(parts, lib, 0, n_in + n_out, net)
}

/// One wire per consumer, from a fixed producer port.
pub open spec fn conn_edges(src: int, from_port: int, cs: Seq<(int, int)>) -> Seq<Edge> {
    cs.map_values(
        |c: (int, int)| Edge {
            src: src as usize,
            dst: c.0 as usize,
            conn: (Connection { weight: 1, from: from_port as usize, to: c.1 as usize }),
        },
    )
}

/// The wires of one part's output pins, from `qi` on.
pub open spec fn pin_out_edges(
    outs: Seq<Seq<char>>,
    parts: Seq<ComponentModel>,
    lib: Seq<LutModel>,
    n_in: int,
    n_out: int,
    pairs: Seq<(Seq<char>, Seq<char>)>,
    dev_outs: Seq<Seq<char>>,
    id: int,
    qi: int,
) -> Seq<Edge>
    decreases pairs.len() - qi,
{
    if qi < 0 || qi >= pairs.len() {
        Seq::empty()
    } else {
        conn_edges(
            id,
            find_pos(dev_outs, pairs[qi].0),
            net_consumers(outs, parts, lib, n_in, n_out, pairs[qi].1),
        ) + pin_out_edges(outs, parts, lib, n_in, n_out, pairs, dev_outs, id, qi + 1)
    }
}

/// The wires of every part's output pins, across the parts from `pi` on.
pub open spec fn parts_out_edges(
    outs: Seq<Seq<char>>,
    parts: Seq<ComponentModel>,
    lib: Seq<LutModel>,
    n_in: int,
    n_out: int,
    pi: int,
    id: int,
) -> Seq<Edge>
    decreases parts.len() - pi,
{
    if pi < 0 || pi >= parts.len() {
        Seq::empty()
    } else {
        match parts[pi] {
            ComponentModel::Def { outputs, name, .. } => pin_out_edges(
                outs,
                parts,
                lib,
                n_in,
                n_out,
                outputs,
                device_of(lib, name).out_names,
                id,
                0,
            ) + parts_out_edges(outs, parts, lib, n_in, n_out, pi + 1, id + 1),
            _ => parts_out_edges(outs, parts, lib, n_in, n_out, pi + 1, id),
        }
    }
}

/// The wires from the declared chip inputs, from `ii` on: each input
/// terminal feeds every consumer registered under its own name.
pub open spec fn input_edges(
    ins: Seq<Seq<char>>,
    outs: Seq<Seq<char>>,
    parts: Seq<ComponentModel>,
    lib: Seq<LutModel>,
    n_out: int,
    ii: int,
) -> Seq<Edge>
    decreases ins.len() - ii,
{
    if ii < 0 || ii >= ins.len() {
        Seq::empty()
    } else {
        conn_edges(ii, 0, net_consumers(outs, parts, lib, ins.len() as int, n_out, ins[ii]))
            + input_edges(ins, outs, parts, lib, n_out, ii + 1)
    }
}

/// The full edge list of a compiled circuit, in insertion order: the
/// wires of every part's output pins, then the wires from every declared
/// chip input.
pub open spec fn compile_edges(def: ChipDefModel, lib: Seq<LutModel>) -> Seq<Edge> {
    parts_out_edges(
        def.outputs,
        def.parts,
        lib,
        def.inputs.len() as int,
        def.outputs.len() as int,
        0,
        def.inputs.len() + def.outputs.len() as int,
    ) + input_edges(
        def.inputs,
        def.outputs,
        def.parts,
        lib,
        def.outputs.len() as int,
        0,
    )
}


/// A clean first pass clears every individual part.
proof fn lemma_inputs_pass_from(
    parts: Seq<ComponentModel>,
    lib: Seq<LutModel>,
    start: nat,
    pi: nat,
)
    requires
        inputs_pass(parts, lib, start) is Ok,
        start <= pi < parts.len(),
    ensures
        part_inputs_check(parts[pi as int], lib) is Ok,
    decreases pi - start,
{
    if start < pi {
        lemma_inputs_pass_from(parts, lib, (start + 1) as nat, pi);
    }
}

/// Finds the first library device with the given name.
fn find_device(lut_map: &Vec<LookupTable>, name: &str) -> (r: Option<usize>)
    ensures
        match find_name(lut_names(lut_map.deep_view()), name@) {
            None => r is None,
            Some(d) => 0 <= d <= usize::MAX && r == Some(d as usize),
        },
{
    let ghost names = lut_names(lut_map.deep_view());
    let mut i: usize = 0;
    while i < lut_map.len()
        invariant
            0 <= i <= lut_map@.len(),
            names == lut_names(lut_map.deep_view()),
            names.len() == lut_map@.len(),
            forall|j: int| 0 <= j < i ==> names[j] != name@,
        decreases lut_map@.len() - i,
    {
        let lut_name = lut_map[i].name();
        proof {
            assert(names[i as int] == lut_map@[i as int]@.name);
        }
        if str_eq(name, &lut_name) {
            proof {
                lemma_find_name(names, name@);
            }
            return Some(i);
        }
        i = i + 1;
    }
    proof {
        lemma_find_name(names, name@);
    }
    None
}

impl Circuit {
    /// Compiles a chip definition against a library of truth-table
    /// devices into a flat wiring graph.
    ///
    /// Succeeds exactly when every part instance's device, arity and
    /// port names resolve, as [`compile_err`] describes; the built
    /// circuit's nodes are the declared input terminals, the declared
    /// output terminals and one device node per part instance, in that
    /// order, and every wire it holds is valid for its endpoints.
    #[verifier::loop_isolation(false)]
    #[verifier::rlimit(100)]
    pub fn new(chip_def: ChipDef, lut_map: Vec<LookupTable>) -> (r: Result<Self, Error>)
        requires
            forall|i: int| 0 <= i < lut_map@.len() ==> (#[trigger] lut_map@[i])@.wf(),
        ensures
            r is Ok <==> compile_ok(chip_def@, lut_map.deep_view()),
            (r matches Err(e) ==> Err::<(), Error>(e) == compile_err(
                chip_def@,
                lut_map.deep_view(),
            )),
            (r matches Ok(c) ==> {
                &&& c@.wf()
                &&& c@.name == chip_def@.name
                &&& c@.nodes == compile_nodes(chip_def@, lut_map.deep_view())
                &&& c@.edges == compile_edges(chip_def@, lut_map.deep_view())
                &&& c@.inputs == Seq::new(chip_def@.inputs.len(), |i: int| i as usize)
                &&& c@.outputs == Seq::new(
                    chip_def@.outputs.len(),
                    |i: int| (chip_def@.inputs.len() + i) as usize,
                )
            }),
    {
        let ghost lib = lut_map.deep_view();
        let ghost def = chip_def@;
        let parts: Vec<Component> = chip_def.parts();
        proof {
            assert(forall|i: int|
                0 <= i < lib.len() ==> (#[trigger] lut_names(lib)[i]) == lib[i].name);
        }
        // First pass: resolve every part's device, arity and input ports.
        let mut pi: usize = 0;
        while pi < parts.len()
            invariant
                0 <= pi <= parts@.len(),
                inputs_pass(def.parts, lib, 0) == inputs_pass(def.parts, lib, pi as nat),
            decreases parts@.len() - pi,
        {
            proof {
                assert(parts@[pi as int]@ == def.parts[pi as int]);
            }
            match &parts[pi] {
                Component::Def { inputs, name, .. } => {
                    match find_device(&lut_map, name.as_str()) {
                        None => {
                            proof {
                                assert(part_inputs_check(def.parts[pi as int], lib) == Err::<
                                    (),
                                    Error,
                                >(Error::UnknownDevice));
                            }
                            return Err(Error::UnknownDevice);
                        },
                        Some(d) => {
                            proof {
                                lemma_find_name(lut_names(lib), def.parts[pi as int].name());
                            }
                            if inputs.len() != lut_map[d].in_count() {
                                return Err(Error::ArityMismatch);
                            }
                            let mut q: usize = 0;
                            while q < inputs.len()
                                invariant
                                    0 <= q <= inputs@.len(),
                                    forall|j: int|
                                        0 <= j < q ==> find_name(
                                            lib[d as int].in_names,
                                            crate::names::pairs_view(inputs@)[j].0,
                                        ) is Some,
                                decreases inputs@.len() - q,
                            {
                                proof {
                                    assert(crate::names::pairs_view(inputs@)[q as int].0
                                        == inputs@[q as int].0@);
                                }
                                match lut_map[d].in_map(inputs[q].0.clone()) {
                                    Some(_) => (),
                                    None => {
                                        proof {
                                            assert(part_inputs_check(def.parts[pi as int], lib)
                                                == Err::<(), Error>(Error::PortNotFound));
                                        }
                                        return Err(Error::PortNotFound);
                                    },
                                }
                                q = q + 1;
                            }
                            proof {
                                assert(part_inputs_check(def.parts[pi as int], lib) == Ok::<
                                    (),
                                    Error,
                                >(()));
                            }
                        },
                    }
                },
                _ => {
                    proof {
                        assert(part_inputs_check(def.parts[pi as int], lib) == Ok::<(), Error>(
                            (),
                        ));
                    }
                },
            }
            pi = pi + 1;
        }
        proof {
            assert(inputs_pass(def.parts, lib, 0) is Ok);
        }
        // Second pass: resolve every part's output ports.
        let mut po: usize = 0;
        while po < parts.len()
            invariant
                0 <= po <= parts@.len(),
                forall|j: int| 0 <= j < po ==> part_outputs_ok(#[trigger] def.parts[j], lib),
            decreases parts@.len() - po,
        {
            proof {
                assert(parts@[po as int]@ == def.parts[po as int]);
            }
            match &parts[po] {
                Component::Def { outputs, name, .. } => {
                    match find_device(&lut_map, name.as_str()) {
                        None => {
                            proof {
                                assert(part_inputs_check(def.parts[po as int], lib) == Err::<
                                    (),
                                    Error,
                                >(Error::UnknownDevice));
                                lemma_inputs_pass_from(def.parts, lib, 0, po as nat);
                                assert(false);
                            }
                            return Err(Error::UnknownDevice);
                        },
                        Some(d) => {
                            proof {
                                lemma_find_name(lut_names(lib), def.parts[po as int].name());
                                assert(device_of(lib, def.parts[po as int].name()) == lib[d as int]);
                            }
                            let mut q: usize = 0;
                            while q < outputs.len()
                                invariant
                                    0 <= q <= outputs@.len(),
                                    forall|j: int|
                                        0 <= j < q ==> find_name(
                                            lib[d as int].out_names,
                                            crate::names::pairs_view(outputs@)[j].0,
                                        ) is Some,
                                decreases outputs@.len() - q,
                            {
                                proof {
                                    assert(crate::names::pairs_view(outputs@)[q as int].0
                                        == outputs@[q as int].0@);
                                }
                                match lut_map[d].out_map(outputs[q].0.clone()) {
                                    Some(_) => (),
                                    None => {
                                        proof {
                                            assert(!part_outputs_ok(def.parts[po as int], lib));
                                            assert(!outputs_pass(def.parts, lib));
                                        }
                                        return Err(Error::PortNotFound);
                                    },
                                }
                                q = q + 1;
                            }
                            proof {
                                assert(part_outputs_ok(def.parts[po as int], lib));
                            }
                        },
                    }
                },
                _ => (),
            }
            po = po + 1;
        }
        proof {
            assert(outputs_pass(def.parts, lib));
        }
        // Build: terminals first, then one device node per part instance.
        let n_in = chip_def.inputs().len();
        let n_out = chip_def.outputs().len();
        let in_list = chip_def.inputs();
        let out_list = chip_def.outputs();
        let mut c = Circuit::blank(chip_def.name());
        let mut ii: usize = 0;
        while ii < in_list.len()
            invariant
                0 <= ii <= in_list@.len(),
                c@.wf(),
                c@.name == def.name,
                c@.edges == Seq::<crate::circuit::Edge>::empty(),
                c@.nodes =~= Seq::new(
                    ii as nat,
                    |i: int| NodeModel::In((InOutModel { name: def.inputs[i], value: false })),
                ),
                c@.inputs =~= Seq::new(ii as nat, |i: int| i as usize),
                c@.outputs == Seq::<usize>::empty(),
            decreases in_list@.len() - ii,
        {
            match c.add_node(Node::In(InOut::new(in_list[ii].as_str()))) {
                Ok(_) => (),
                Err(_) => unreached(),
            }
            proof {
                assert(c@.nodes =~= Seq::new(
                    (ii + 1) as nat,
                    |i: int| NodeModel::In((InOutModel { name: def.inputs[i], value: false })),
                ));
                assert(c@.inputs =~= Seq::new((ii + 1) as nat, |i: int| i as usize));
            }
            ii = ii + 1;
        }
        let mut oo: usize = 0;
        while oo < out_list.len()
            invariant
                0 <= oo <= out_list@.len(),
                c@.wf(),
                c@.name == def.name,
                c@.edges == Seq::<crate::circuit::Edge>::empty(),
                c@.nodes =~= Seq::new(
                    def.inputs.len(),
                    |i: int| NodeModel::In((InOutModel { name: def.inputs[i], value: false })),
                ) + Seq::new(
                    oo as nat,
                    |i: int| NodeModel::Out((InOutModel { name: def.outputs[i], value: false })),
                ),
                c@.inputs =~= Seq::new(def.inputs.len(), |i: int| i as usize),
                c@.outputs =~= Seq::new(oo as nat, |i: int| (def.inputs.len() + i) as usize),
            decreases out_list@.len() - oo,
        {
            match c.add_node(Node::Out(InOut::new(out_list[oo].as_str()))) {
                Ok(_) => (),
                Err(_) => unreached(),
            }
            proof {
                assert(c@.nodes =~= Seq::new(
                    def.inputs.len(),
                    |i: int| NodeModel::In((InOutModel { name: def.inputs[i], value: false })),
                ) + Seq::new(
                    (oo + 1) as nat,
                    |i: int| NodeModel::Out((InOutModel { name: def.outputs[i], value: false })),
                ));
                assert(c@.outputs =~= Seq::new(
                    (oo + 1) as nat,
                    |i: int| (def.inputs.len() + i) as usize,
                ));
            }
            oo = oo + 1;
        }
        let ghost base_nodes = c@.nodes;
        let ghost full_inputs = c@.inputs;
        let ghost full_outputs = c@.outputs;
        let mut pn: usize = 0;
        while pn < parts.len()
            invariant
                0 <= pn <= parts@.len(),
                c@.wf(),
                c@.name == def.name,
                c@.edges == Seq::<crate::circuit::Edge>::empty(),
                c@.inputs == full_inputs,
                c@.outputs == full_outputs,
                base_nodes + lut_nodes(def.parts, lib, 0) =~= c@.nodes + lut_nodes(
                    def.parts,
                    lib,
                    pn as nat,
                ),
                c@.nodes.len() >= base_nodes.len(),
                forall|i: int| 0 <= i < base_nodes.len() ==> c@.nodes[i] == base_nodes[i],
            decreases parts@.len() - pn,
        {
            proof {
                assert(parts@[pn as int]@ == def.parts[pn as int]);
            }
            match &parts[pn] {
                Component::Def { name, .. } => {
                    let d = match find_device(&lut_map, name.as_str()) {
                        Some(d) => d,
                        None => {
                            proof {
                                lemma_inputs_pass_from(def.parts, lib, 0, pn as nat);
                            }
                            unreached()
                        },
                    };
                    proof {
                        lemma_find_name(lut_names(lib), def.parts[pn as int].name());
                        assert(device_of(lib, def.parts[pn as int].name()) == lib[d as int]);
                        assert(lut_map@[d as int]@.wf());
                    }
                    let ghost pre_nodes = c@.nodes;
                    match c.add_node(Node::Lut(lut_map[d].clone())) {
                        Ok(_) => (),
                        Err(_) => unreached(),
                    }
                    proof {
                        assert(lut_nodes(def.parts, lib, pn as nat) =~= seq![
                            NodeModel::Lut(device_of(lib, def.parts[pn as int].name())),
                        ] + lut_nodes(def.parts, lib, (pn + 1) as nat));
                        assert(base_nodes + lut_nodes(def.parts, lib, 0) =~= c@.nodes
                            + lut_nodes(def.parts, lib, (pn + 1) as nat));
                    }
                },
                _ => {
                    proof {
                        assert(lut_nodes(def.parts, lib, pn as nat) == lut_nodes(
                            def.parts,
                            lib,
                            (pn + 1) as nat,
                        ));
                    }
                },
            }
            pn = pn + 1;
        }
        proof {
            assert(lut_nodes(def.parts, lib, parts@.len() as nat) =~= Seq::<NodeModel>::empty());
            assert(c@.nodes =~= compile_nodes(def, lib));
        }
        // Wire every part output, then every chip input, to every
        // consumer registered under the net's name.
        let total = c.wire(&parts, &lut_map, &in_list, &out_list, n_in, n_out);
        match total {
            Ok(()) => (),
            Err(_) => unreached(),
        }
        proof {
            assert(c@.edges =~= compile_edges(def, lib));
        }
        Ok(c)
    }
}


impl Circuit {
    /// Wires one producer port to every consumer registered under a net
    /// name: each declared chip output carrying the name, and each part
    /// input pin wired to the name, in declaration order.
    #[verifier::loop_isolation(false)]
    #[verifier::rlimit(100)]
    fn connect_consumers(
        &mut self,
        parts: &Vec<Component>,
        lut_map: &Vec<LookupTable>,
        out_list: &Vec<String>,
        n_in: usize,
        n_out: usize,
        src_id: usize,
        src_port: usize,
        net: &String,
    ) -> (r: Result<(), Error>)
        requires
            old(self)@.wf(),
            n_out == out_list@.len(),
            inputs_pass(crate::chip_def::comps_view(parts@), lut_map.deep_view(), 0) is Ok,
            forall|i: int| 0 <= i < lut_map@.len() ==> (#[trigger] lut_map@[i])@.wf(),
            old(self)@.nodes.len() == n_in + n_out + lut_nodes(
                crate::chip_def::comps_view(parts@),
                lut_map.deep_view(),
                0,
            ).len(),
            forall|i: int|
                0 <= i < n_out ==> (#[trigger] old(self)@.nodes[n_in + i]) matches
                    NodeModel::Out(_),
            forall|i: int|
                0 <= i < lut_nodes(
                    crate::chip_def::comps_view(parts@),
                    lut_map.deep_view(),
                    0,
                ).len() ==> (#[trigger] old(self)@.nodes[n_in + n_out + i]) == lut_nodes(
                    crate::chip_def::comps_view(parts@),
                    lut_map.deep_view(),
                    0,
                )[i],
            src_id < old(self)@.nodes.len(),
            !(old(self)@.nodes[src_id as int] is Out),
            src_port < crate::circuit::out_arity(old(self)@.nodes[src_id as int]),
        ensures
            r == Ok::<(), Error>(()),
            final(self)@.wf(),
            final(self)@.name == old(self)@.name,
            final(self)@.nodes == old(self)@.nodes,
            final(self)@.inputs == old(self)@.inputs,
            final(self)@.outputs == old(self)@.outputs,
            final(self)@.edges == old(self)@.edges + conn_edges(
                src_id as int,
                src_port as int,
                net_consumers(
                    out_list.deep_view(),
                    crate::chip_def::comps_view(parts@),
                    lut_map.deep_view(),
                    n_in as int,
                    n_out as int,
                    net@,
                ),
            ),
    {
        let ghost dparts = crate::chip_def::comps_view(parts@);
        let ghost lib = lut_map.deep_view();
        let ghost luts = lut_nodes(dparts, lib, 0);
        let ghost outs = out_list.deep_view();
        let ghost base = n_in + n_out as int;
        let ghost target = old(self)@.edges + conn_edges(
            src_id as int,
            src_port as int,
            net_consumers(outs, dparts, lib, n_in as int, n_out as int, net@),
        );
        let total = self.nodes_len();
        proof {
            assert(total == n_in + n_out + luts.len());
            assert(conn_edges(
                src_id as int,
                src_port as int,
                seed_consumers(outs, n_in as int, 0, net@) + part_consumers(
                    dparts,
                    lib,
                    0,
                    base,
                    net@,
                ),
            ) =~= conn_edges(src_id as int, src_port as int, seed_consumers(outs, n_in as int, 0, net@))
                + conn_edges(src_id as int, src_port as int, part_consumers(dparts, lib, 0, base, net@)));
        }
        // Declared chip outputs carrying the net name.
        let mut oi: usize = 0;
        while oi < out_list.len()
            invariant
                0 <= oi <= n_out,
                self@.wf(),
                self@.name == old(self)@.name,
                self@.nodes == old(self)@.nodes,
                self@.inputs == old(self)@.inputs,
                self@.outputs == old(self)@.outputs,
                target =~= self@.edges + conn_edges(
                    src_id as int,
                    src_port as int,
                    seed_consumers(outs, n_in as int, oi as int, net@),
                ) + conn_edges(
                    src_id as int,
                    src_port as int,
                    part_consumers(dparts, lib, 0, base, net@),
                ),
            decreases out_list@.len() - oi,
        {
            proof {
                assert(outs[oi as int] == out_list@[oi as int]@);
            }
            if str_eq(net.as_str(), &out_list[oi]) {
                let dst = n_in + oi;
                proof {
                    assert(self@.nodes[dst as int] matches NodeModel::Out(_));
                    assert(crate::circuit::edge_check(
                        self@.nodes,
                        (crate::circuit::Edge {
                            src: src_id,
                            dst,
                            conn: (Connection { weight: 1, from: src_port, to: 0 }),
                        }),
                    ) is Ok);
                }
                match self.add_connection(src_id, dst, Connection::new(src_port, 0, 1)) {
                    Ok(()) => (),
                    Err(_) => unreached(),
                }
                proof {
                    assert(seed_consumers(outs, n_in as int, oi as int, net@) =~= seq![
                        ((n_in + oi) as int, 0int),
                    ] + seed_consumers(outs, n_in as int, oi + 1, net@));
                    assert(conn_edges(
                        src_id as int,
                        src_port as int,
                        seed_consumers(outs, n_in as int, oi as int, net@),
                    ) =~= seq![
                        (crate::circuit::Edge {
                            src: src_id,
                            dst: (n_in + oi) as usize,
                            conn: (Connection { weight: 1, from: src_port, to: 0 }),
                        }),
                    ] + conn_edges(
                        src_id as int,
                        src_port as int,
                        seed_consumers(outs, n_in as int, oi + 1, net@),
                    ));
                }
            } else {
                proof {
                    assert(seed_consumers(outs, n_in as int, oi as int, net@)
                        == seed_consumers(outs, n_in as int, oi + 1, net@));
                }
            }
            oi = oi + 1;
        }
        proof {
            assert(seed_consumers(outs, n_in as int, n_out as int, net@) =~= Seq::<(
                int,
                int,
            )>::empty());
            assert(conn_edges(src_id as int, src_port as int, Seq::<(int, int)>::empty())
                =~= Seq::<crate::circuit::Edge>::empty());
        }
        // Part input pins wired to the net name.
        let mut p2: usize = 0;
        let mut d2: usize = 0;
        while p2 < parts.len()
            invariant
                0 <= p2 <= parts@.len(),
                0 <= d2 <= luts.len(),
                self@.wf(),
                self@.name == old(self)@.name,
                self@.nodes == old(self)@.nodes,
                self@.inputs == old(self)@.inputs,
                self@.outputs == old(self)@.outputs,
                lut_nodes(dparts, lib, p2 as nat) =~= luts.skip(d2 as int),
                target =~= self@.edges + conn_edges(
                    src_id as int,
                    src_port as int,
                    part_consumers(dparts, lib, p2 as int, base + d2, net@),
                ),
            decreases parts@.len() - p2,
        {
            proof {
                assert(parts@[p2 as int]@ == dparts[p2 as int]);
            }
            match &parts[p2] {
                Component::Def { inputs, name, .. } => {
                    proof {
                        lemma_inputs_pass_from(dparts, lib, 0, p2 as nat);
                        lemma_find_name(lut_names(lib), dparts[p2 as int].name());
                        assert(lut_nodes(dparts, lib, p2 as nat) =~= seq![
                            NodeModel::Lut(device_of(lib, dparts[p2 as int].name())),
                        ] + lut_nodes(dparts, lib, (p2 + 1) as nat));
                        assert(d2 < luts.len());
                        assert(luts.skip(d2 as int)[0] == luts[d2 as int]);
                        assert(luts[d2 as int] == NodeModel::Lut(
                            device_of(lib, dparts[p2 as int].name()),
                        ));
                        assert(luts.skip(d2 as int).drop_first() =~= luts.skip(d2 + 1));
                    }
                    let d = match find_device(&lut_map, name.as_str()) {
                        Some(d) => d,
                        None => unreached(),
                    };
                    let dst = n_in + n_out + d2;
                    let ghost pinsv = crate::names::pairs_view(inputs@);
                    let ghost devins = lib[d as int].in_names;
                    proof {
                        assert(part_consumers(dparts, lib, p2 as int, base + d2, net@)
                            =~= pin_consumers(pinsv, devins, base + d2, 0, net@)
                            + part_consumers(dparts, lib, p2 + 1, base + d2 + 1, net@));
                        assert(conn_edges(
                            src_id as int,
                            src_port as int,
                            pin_consumers(pinsv, devins, base + d2, 0, net@) + part_consumers(
                                dparts,
                                lib,
                                p2 + 1,
                                base + d2 + 1,
                                net@,
                            ),
                        ) =~= conn_edges(
                            src_id as int,
                            src_port as int,
                            pin_consumers(pinsv, devins, base + d2, 0, net@),
                        ) + conn_edges(
                            src_id as int,
                            src_port as int,
                            part_consumers(dparts, lib, p2 + 1, base + d2 + 1, net@),
                        ));
                    }
                    let mut q: usize = 0;
                    while q < inputs.len()
                        invariant
                            0 <= q <= inputs@.len(),
                            self@.wf(),
                            self@.name == old(self)@.name,
                            self@.nodes == old(self)@.nodes,
                            self@.inputs == old(self)@.inputs,
                            self@.outputs == old(self)@.outputs,
                            target =~= self@.edges + conn_edges(
                                src_id as int,
                                src_port as int,
                                pin_consumers(pinsv, devins, base + d2, q as int, net@),
                            ) + conn_edges(
                                src_id as int,
                                src_port as int,
                                part_consumers(dparts, lib, p2 + 1, base + d2 + 1, net@),
                            ),
                        decreases inputs@.len() - q,
                    {
                        proof {
                            assert(crate::names::pairs_view(inputs@)[q as int]
                                == (inputs@[q as int].0@, inputs@[q as int].1@));
                        }
                        if str_eq(net.as_str(), &inputs[q].1) {
                            let to_port = match lut_map[d].in_map(inputs[q].0.clone()) {
                                Some(t) => t,
                                None => unreached(),
                            };
                            proof {
                                lemma_find_name(
                                    lib[d as int].in_names,
                                    inputs@[q as int].0@,
                                );
                                assert(self@.nodes[dst as int] == NodeModel::Lut(lib[d as int]));
                                assert(to_port < crate::circuit::in_arity(
                                    self@.nodes[dst as int],
                                ));
                                assert(crate::circuit::edge_check(
                                    self@.nodes,
                                    (crate::circuit::Edge {
                                        src: src_id,
                                        dst,
                                        conn: (Connection {
                                            weight: 1,
                                            from: src_port,
                                            to: to_port,
                                        }),
                                    }),
                                ) is Ok);
                            }
                            match self.add_connection(
                                src_id,
                                dst,
                                Connection::new(src_port, to_port, 1),
                            ) {
                                Ok(()) => (),
                                Err(_) => unreached(),
                            }
                            proof {
                                assert(find_pos(devins, pinsv[q as int].0) == to_port);
                                assert(pin_consumers(pinsv, devins, base + d2, q as int, net@)
                                    =~= seq![(base + d2, to_port as int)] + pin_consumers(
                                    pinsv,
                                    devins,
                                    base + d2,
                                    q + 1,
                                    net@,
                                ));
                                assert(conn_edges(
                                    src_id as int,
                                    src_port as int,
                                    pin_consumers(pinsv, devins, base + d2, q as int, net@),
                                ) =~= seq![
                                    (crate::circuit::Edge {
                                        src: src_id,
                                        dst,
                                        conn: (Connection {
                                            weight: 1,
                                            from: src_port,
                                            to: to_port,
                                        }),
                                    }),
                                ] + conn_edges(
                                    src_id as int,
                                    src_port as int,
                                    pin_consumers(pinsv, devins, base + d2, q + 1, net@),
                                ));
                            }
                        } else {
                            proof {
                                assert(pin_consumers(pinsv, devins, base + d2, q as int, net@)
                                    == pin_consumers(pinsv, devins, base + d2, q + 1, net@));
                            }
                        }
                        q = q + 1;
                    }
                    proof {
                        assert(pin_consumers(pinsv, devins, base + d2, inputs@.len() as int, net@)
                            =~= Seq::<(int, int)>::empty());
                        assert(conn_edges(
                            src_id as int,
                            src_port as int,
                            Seq::<(int, int)>::empty(),
                        ) =~= Seq::<crate::circuit::Edge>::empty());
                    }
                    d2 = d2 + 1;
                },
                _ => {
                    proof {
                        assert(lut_nodes(dparts, lib, p2 as nat) == lut_nodes(
                            dparts,
                            lib,
                            (p2 + 1) as nat,
                        ));
                        assert(part_consumers(dparts, lib, p2 as int, base + d2, net@)
                            == part_consumers(dparts, lib, p2 + 1, base + d2, net@));
                    }
                },
            }
            p2 = p2 + 1;
        }
        proof {
            assert(part_consumers(dparts, lib, parts@.len() as int, base + d2, net@) =~= Seq::<(
                int,
                int,
            )>::empty());
            assert(conn_edges(src_id as int, src_port as int, Seq::<(int, int)>::empty())
                =~= Seq::<crate::circuit::Edge>::empty());
        }
        Ok(())
    }

    /// Wires the whole circuit: every part instance's output pins, then
    /// every declared chip input, each to all consumers of its net.
    #[verifier::loop_isolation(false)]
    #[verifier::rlimit(100)]
    fn wire(
        &mut self,
        parts: &Vec<Component>,
        lut_map: &Vec<LookupTable>,
        in_list: &Vec<String>,
        out_list: &Vec<String>,
        n_in: usize,
        n_out: usize,
    ) -> (r: Result<(), Error>)
        requires
            old(self)@.wf(),
            n_in == in_list@.len(),
            n_out == out_list@.len(),
            inputs_pass(crate::chip_def::comps_view(parts@), lut_map.deep_view(), 0) is Ok,
            outputs_pass(crate::chip_def::comps_view(parts@), lut_map.deep_view()),
            forall|i: int| 0 <= i < lut_map@.len() ==> (#[trigger] lut_map@[i])@.wf(),
            old(self)@.nodes.len() == n_in + n_out + lut_nodes(
                crate::chip_def::comps_view(parts@),
                lut_map.deep_view(),
                0,
            ).len(),
            forall|i: int|
                0 <= i < n_in ==> (#[trigger] old(self)@.nodes[i]) matches NodeModel::In(_),
            forall|i: int|
                0 <= i < n_out ==> (#[trigger] old(self)@.nodes[n_in + i]) matches
                    NodeModel::Out(_),
            forall|i: int|
                0 <= i < lut_nodes(
                    crate::chip_def::comps_view(parts@),
                    lut_map.deep_view(),
                    0,
                ).len() ==> (#[trigger] old(self)@.nodes[n_in + n_out + i]) == lut_nodes(
                    crate::chip_def::comps_view(parts@),
                    lut_map.deep_view(),
                    0,
                )[i],
        ensures
            r == Ok::<(), Error>(()),
            final(self)@.wf(),
            final(self)@.name == old(self)@.name,
            final(self)@.nodes == old(self)@.nodes,
            final(self)@.inputs == old(self)@.inputs,
            final(self)@.outputs == old(self)@.outputs,
            final(self)@.edges == old(self)@.edges + parts_out_edges(
                out_list.deep_view(),
                crate::chip_def::comps_view(parts@),
                lut_map.deep_view(),
                n_in as int,
                n_out as int,
                0,
                n_in + n_out as int,
            ) + input_edges(
                in_list.deep_view(),
                out_list.deep_view(),
                crate::chip_def::comps_view(parts@),
                lut_map.deep_view(),
                n_out as int,
                0,
            ),
    {
        let ghost dparts = crate::chip_def::comps_view(parts@);
        let ghost lib = lut_map.deep_view();
        let ghost luts = lut_nodes(dparts, lib, 0);
        let ghost ins = in_list.deep_view();
        let ghost outs = out_list.deep_view();
        let ghost base = n_in + n_out as int;
        let ghost target = old(self)@.edges + parts_out_edges(
            outs,
            dparts,
            lib,
            n_in as int,
            n_out as int,
            0,
            base,
        ) + input_edges(ins, outs, dparts, lib, n_out as int, 0);
        let total = self.nodes_len();
        proof {
            assert(total == n_in + n_out + luts.len());
        }
        let mut p: usize = 0;
        let mut d: usize = 0;
        while p < parts.len()
            invariant
                0 <= p <= parts@.len(),
                0 <= d <= luts.len(),
                self@.wf(),
                self@.name == old(self)@.name,
                self@.nodes == old(self)@.nodes,
                self@.inputs == old(self)@.inputs,
                self@.outputs == old(self)@.outputs,
                lut_nodes(dparts, lib, p as nat) =~= luts.skip(d as int),
                target =~= self@.edges + parts_out_edges(
                    outs,
                    dparts,
                    lib,
                    n_in as int,
                    n_out as int,
                    p as int,
                    base + d,
                ) + input_edges(ins, outs, dparts, lib, n_out as int, 0),
            decreases parts@.len() - p,
        {
            proof {
                assert(parts@[p as int]@ == dparts[p as int]);
            }
            match &parts[p] {
                Component::Def { outputs, name, .. } => {
                    proof {
                        lemma_inputs_pass_from(dparts, lib, 0, p as nat);
                        lemma_find_name(lut_names(lib), dparts[p as int].name());
                        assert(lut_nodes(dparts, lib, p as nat) =~= seq![
                            NodeModel::Lut(device_of(lib, dparts[p as int].name())),
                        ] + lut_nodes(dparts, lib, (p + 1) as nat));
                        assert(d < luts.len());
                        assert(luts.skip(d as int)[0] == luts[d as int]);
                        assert(luts[d as int] == NodeModel::Lut(
                            device_of(lib, dparts[p as int].name()),
                        ));
                        assert(luts.skip(d as int).drop_first() =~= luts.skip(d + 1));
                    }
                    let dev = match find_device(&lut_map, name.as_str()) {
                        Some(dev) => dev,
                        None => unreached(),
                    };
                    let src_id = n_in + n_out + d;
                    let ghost poutsv = crate::names::pairs_view(outputs@);
                    let ghost devouts = lib[dev as int].out_names;
                    proof {
                        assert(parts_out_edges(outs, dparts, lib, n_in as int, n_out as int, p as int, base + d)
                            =~= pin_out_edges(outs, dparts, lib, n_in as int, n_out as int, poutsv, devouts, base + d, 0)
                            + parts_out_edges(outs, dparts, lib, n_in as int, n_out as int, p + 1, base + d + 1));
                    }
                    let mut q: usize = 0;
                    while q < outputs.len()
                        invariant
                            0 <= q <= outputs@.len(),
                            self@.wf(),
                            self@.name == old(self)@.name,
                            self@.nodes == old(self)@.nodes,
                            self@.inputs == old(self)@.inputs,
                            self@.outputs == old(self)@.outputs,
                            target =~= self@.edges + pin_out_edges(
                                outs,
                                dparts,
                                lib,
                                n_in as int,
                                n_out as int,
                                poutsv,
                                devouts,
                                base + d,
                                q as int,
                            ) + parts_out_edges(
                                outs,
                                dparts,
                                lib,
                                n_in as int,
                                n_out as int,
                                p + 1,
                                base + d + 1,
                            ) + input_edges(ins, outs, dparts, lib, n_out as int, 0),
                        decreases outputs@.len() - q,
                    {
                        proof {
                            assert(crate::names::pairs_view(outputs@)[q as int]
                                == (outputs@[q as int].0@, outputs@[q as int].1@));
                            assert(part_outputs_ok(dparts[p as int], lib));
                        }
                        let src_port = match lut_map[dev].out_map(outputs[q].0.clone()) {
                            Some(t) => t,
                            None => unreached(),
                        };
                        proof {
                            lemma_find_name(lib[dev as int].out_names, outputs@[q as int].0@);
                            assert(self@.nodes[src_id as int] == NodeModel::Lut(lib[dev as int]));
                            assert(src_port < crate::circuit::out_arity(
                                self@.nodes[src_id as int],
                            ));
                        }
                        match self.connect_consumers(
                            parts,
                            lut_map,
                            out_list,
                            n_in,
                            n_out,
                            src_id,
                            src_port,
                            &outputs[q].1,
                        ) {
                            Ok(()) => (),
                            Err(_) => unreached(),
                        }
                        proof {
                            assert(find_pos(devouts, poutsv[q as int].0) == src_port);
                            assert(pin_out_edges(
                                outs,
                                dparts,
                                lib,
                                n_in as int,
                                n_out as int,
                                poutsv,
                                devouts,
                                base + d,
                                q as int,
                            ) =~= conn_edges(
                                src_id as int,
                                src_port as int,
                                net_consumers(outs, dparts, lib, n_in as int, n_out as int, poutsv[q as int].1),
                            ) + pin_out_edges(
                                outs,
                                dparts,
                                lib,
                                n_in as int,
                                n_out as int,
                                poutsv,
                                devouts,
                                base + d,
                                q + 1,
                            ));
                            assert(poutsv[q as int].1 == outputs@[q as int].1@);
                        }
                        q = q + 1;
                    }
                    proof {
                        assert(pin_out_edges(
                            outs,
                            dparts,
                            lib,
                            n_in as int,
                            n_out as int,
                            poutsv,
                            devouts,
                            base + d,
                            outputs@.len() as int,
                        ) =~= Seq::<crate::circuit::Edge>::empty());
                    }
                    d = d + 1;
                },
                _ => {
                    proof {
                        assert(lut_nodes(dparts, lib, p as nat) == lut_nodes(
                            dparts,
                            lib,
                            (p + 1) as nat,
                        ));
                        assert(parts_out_edges(outs, dparts, lib, n_in as int, n_out as int, p as int, base + d)
                            == parts_out_edges(outs, dparts, lib, n_in as int, n_out as int, p + 1, base + d));
                    }
                },
            }
            p = p + 1;
        }
        proof {
            assert(parts_out_edges(
                outs,
                dparts,
                lib,
                n_in as int,
                n_out as int,
                parts@.len() as int,
                base + d,
            ) =~= Seq::<crate::circuit::Edge>::empty());
        }
        // Chip inputs feed the consumers registered under their own names.
        let mut i: usize = 0;
        while i < in_list.len()
            invariant
                0 <= i <= in_list@.len(),
                self@.wf(),
                self@.name == old(self)@.name,
                self@.nodes == old(self)@.nodes,
                self@.inputs == old(self)@.inputs,
                self@.outputs == old(self)@.outputs,
                target =~= self@.edges + input_edges(ins, outs, dparts, lib, n_out as int, i as int),
            decreases in_list@.len() - i,
        {
            proof {
                assert(self@.nodes[i as int] matches NodeModel::In(_));
            }
            match self.connect_consumers(
                parts,
                lut_map,
                out_list,
                n_in,
                n_out,
                i,
                0,
                &in_list[i],
            ) {
                Ok(()) => (),
                Err(_) => unreached(),
            }
            proof {
                assert(ins[i as int] == in_list@[i as int]@);
                assert(input_edges(ins, outs, dparts, lib, n_out as int, i as int) =~= conn_edges(
                    i as int,
                    0,
                    net_consumers(outs, dparts, lib, ins.len() as int, n_out as int, ins[i as int]),
                ) + input_edges(ins, outs, dparts, lib, n_out as int, i + 1));
                assert(ins.len() == n_in);
            }
            i = i + 1;
        }
        proof {
            assert(input_edges(ins, outs, dparts, lib, n_out as int, in_list@.len() as int)
                =~= Seq::<crate::circuit::Edge>::empty());
        }
        Ok(())
    }
}

} // verus!
