//! Declarative chip definitions.
//!
//! A [`ChipDef`] names a chip, its ordered input and output ports, and the
//! part instances it is built from. Each part names a referenced device
//! and wires its local ports to named internal nets; ports sharing a net
//! name are connected. A definition has no behaviour of its own: it is
//! solely the compiler's input.

use vstd::prelude::*;

use crate::names::clone_strings;
use crate::names::own_pairs;
use crate::names::own_strings;
use crate::names::pairs_view;
use crate::names::str_pairs_view;

verus! {

/// The mathematical content of one part or wiring entry.
#[verifier::ext_equal]
pub ghost enum ComponentModel {
    /// A bare renaming entry.
    VarMap { var_map: Seq<(Seq<char>, Seq<char>)>, name: Seq<char> },
    /// An entry that only lists port names.
    IO { inputs: Seq<Seq<char>>, outputs: Seq<Seq<char>>, name: Seq<char> },
    /// A part instance: (local port, net) pairs for inputs and outputs,
    /// and the name of the referenced device.
    Def {
        inputs: Seq<(Seq<char>, Seq<char>)>,
        outputs: Seq<(Seq<char>, Seq<char>)>,
        name: Seq<char>,
    },
}

impl ComponentModel {
    /// The referenced device name.
    pub open spec fn name(self) -> Seq<char> {
        match self {
            ComponentModel::VarMap { name, .. } => name,
            ComponentModel::IO { name, .. } => name,
            ComponentModel::Def { name, .. } => name,
        }
    }
}

/// One entry of a chip definition's part list.
#[derive(Debug, PartialEq)]
pub enum Component {
    /// A bare renaming entry.
    VarMap { var_map: Vec<(String, String)>, name: String },
    /// An entry that only lists port names.
    IO { inputs: Vec<String>, outputs: Vec<String>, name: String },
    /// A part instance wiring a named device's ports to nets.
    Def {
        inputs: Vec<(String, String)>,
        outputs: Vec<(String, String)>,
        name: String,
    },
}

impl View for Component {
    type V = ComponentModel;

    open spec fn view(&self) -> ComponentModel {
        match self {
            Component::VarMap { var_map, name } => ComponentModel::VarMap {
                var_map: pairs_view(var_map@),
                name: name@,
            },
            Component::IO { inputs, outputs, name } => ComponentModel::IO {
                inputs: inputs.deep_view(),
                outputs: outputs.deep_view(),
                name: name@,
            },
            Component::Def { inputs, outputs, name } => ComponentModel::Def {
                inputs: pairs_view(inputs@),
                outputs: pairs_view(outputs@),
                name: name@,
            },
        }
    }
}

impl Clone for Component {
    /// A copy carries the same ports, nets and device name.
    fn clone(&self) -> (r: Self)
        ensures
            r@ == self@,
    {
        match self {
            Component::VarMap { var_map, name } => Component::VarMap {
                var_map: clone_pairs_local(var_map),
                name: name.clone(),
            },
            Component::IO { inputs, outputs, name } => Component::IO {
                inputs: clone_strings(inputs),
                outputs: clone_strings(outputs),
                name: name.clone(),
            },
            Component::Def { inputs, outputs, name } => Component::Def {
                inputs: clone_pairs_local(inputs),
                outputs: clone_pairs_local(outputs),
                name: name.clone(),
            },
        }
    }
}

/// Copies a part's wiring pairs.
fn clone_pairs_local(v: &Vec<(String, String)>) -> (r: Vec<(String, String)>)
    ensures
        pairs_view(r@) == pairs_view(v@),
{
    crate::names::clone_pairs(v)
}

impl Component {
    /// The referenced device name.
    pub fn name(&self) -> (r: String)
        ensures
            r@ == self@.name(),
    {
        match self {
            Component::VarMap { name, .. } => name.clone(),
            Component::IO { name, .. } => name.clone(),
            Component::Def { name, .. } => name.clone(),
        }
    }
}

/// The view of a part list.
pub open spec fn comps_view(s: Seq<Component>) -> Seq<ComponentModel> {
    s.map_values(|c: Component| c@)
}

/// The mathematical content of a chip definition.
#[verifier::ext_equal]
pub ghost struct ChipDefModel {
    /// The chip's name.
    pub name: Seq<char>,
    /// Declared chip inputs, in order.
    pub inputs: Seq<Seq<char>>,
    /// Declared chip outputs, in order.
    pub outputs: Seq<Seq<char>>,
    /// The part instances, in order.
    pub parts: Seq<ComponentModel>,
}

/// A chip definition: a name, ordered ports, and a list of part instances.
#[derive(Debug, PartialEq)]
pub struct ChipDef {
    name: String,
    inputs: Vec<String>,
    outputs: Vec<String>,
    parts: Vec<Component>,
}

impl View for ChipDef {
    type V = ChipDefModel;

    closed spec fn view(&self) -> ChipDefModel {
        ChipDefModel {
            name: self.name@,
            inputs: self.inputs.deep_view(),
            outputs: self.outputs.deep_view(),
            parts: comps_view(self.parts@),
        }
    }
}

impl ChipDef {
    /// Builds a definition from borrowed names; every part becomes a
    /// [`Component::Def`] instance.
    pub fn new(
        name: &str,
        inputs: Vec<&str>,
        outputs: Vec<&str>,
        parts: Vec<(Vec<(&str, &str)>, Vec<(&str, &str)>, &str)>,
    ) -> (r: Self)
        ensures
            r@.name == name@,
            r@.inputs == inputs.deep_view(),
            r@.outputs == outputs.deep_view(),
            r@.parts.len() == parts@.len(),
            forall|i: int|
                0 <= i < parts@.len() ==> r@.parts[i] == (ComponentModel::Def {
                    inputs: str_pairs_view(parts@[i].0@),
                    outputs: str_pairs_view(parts@[i].1@),
                    name: parts@[i].2@,
                }),
    {
        let mut own_parts: Vec<Component> = Vec::new();
        let mut i: usize = 0;
        while i < parts.len()
            invariant
                0 <= i <= parts@.len(),
                own_parts@.len() == i,
                forall|j: int|
                    0 <= j < i ==> (#[trigger] own_parts@[j])@ == (ComponentModel::Def {
                        inputs: str_pairs_view(parts@[j].0@),
                        outputs: str_pairs_view(parts@[j].1@),
                        name: parts@[j].2@,
                    }),
            decreases parts@.len() - i,
        {
            let part = Component::Def {
                inputs: own_pairs(&parts[i].0),
                outputs: own_pairs(&parts[i].1),
                name: parts[i].2.to_owned(),
            };
            own_parts.push(part);
            i = i + 1;
        }
        ChipDef {
            name: name.to_owned(),
            inputs: own_strings(&inputs),
            outputs: own_strings(&outputs),
            parts: own_parts,
        }
    }

    /// Builds a definition from owned values.
    pub fn new_string(
        name: String,
        inputs: Vec<String>,
        outputs: Vec<String>,
        parts: Vec<Component>,
    ) -> (r: Self)
        ensures
            r@ == (ChipDefModel {
                name: name@,
                inputs: inputs.deep_view(),
                outputs: outputs.deep_view(),
                parts: comps_view(parts@),
            }),
    {
        ChipDef { name, inputs, outputs, parts }
    }

    /// The chip's name.
    pub fn name(&self) -> (r: String)
        ensures
            r@ == self@.name,
    {
        self.name.clone()
    }

    /// The declared chip inputs, in order.
    pub fn inputs(&self) -> (r: Vec<String>)
        ensures
            r.deep_view() == self@.inputs,
    {
        clone_strings(&self.inputs)
    }

    /// The declared chip outputs, in order.
    pub fn outputs(&self) -> (r: Vec<String>)
        ensures
            r.deep_view() == self@.outputs,
    {
        clone_strings(&self.outputs)
    }

    /// The part instances, in order.
    pub fn parts(&self) -> (r: Vec<Component>)
        ensures
            comps_view(r@) == self@.parts,
    {
        let mut r: Vec<Component> = Vec::new();
        let mut i: usize = 0;
        while i < self.parts.len()
            invariant
                0 <= i <= self.parts@.len(),
                r@.len() == i,
                forall|j: int| 0 <= j < i ==> (#[trigger] r@[j])@ == self.parts@[j]@,
            decreases self.parts@.len() - i,
        {
            r.push(self.parts[i].clone());
            i = i + 1;
        }
        proof {
            assert(comps_view(r@) =~= comps_view(self.parts@));
        }
        r
    }
}

} // verus!
