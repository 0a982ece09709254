//! A single-output truth-table gate.
//!
//! A [`Gate`] is the smallest primitive device: named inputs, one output,
//! and a flat truth table of `2^k` bits. Unlike [`crate::LookupTable`], a
//! gate reads its latched inputs with the first-declared input least
//! significant, so the table is addressed by the reversed bit vector.

use vstd::prelude::*;

use crate::bits::bits_index;
use crate::bits::bools_to_index;
use crate::bits::lemma_bits_index_bound;
use crate::bits::pow2;
use crate::bits::pow2_checked;
use crate::names::own_strings;
use crate::names::str_eq;

verus! {

/// The mathematical content of a gate.
#[verifier::ext_equal]
pub ghost struct GateModel {
    /// Declared input port names, least significant first.
    pub input_names: Seq<Seq<char>>,
    /// The latched input bits, in declared input order.
    pub input_values: Seq<bool>,
    /// The truth table, one bit per input combination.
    pub truth_table: Seq<bool>,
    /// The name of the output net this gate drives.
    pub output: Seq<char>,
    /// Its own name.
    pub name: Seq<char>,
}

impl GateModel {
    /// The shape invariant: `2^k` table bits and one latched bit per input.
    pub open spec fn wf(self) -> bool {
        &&& self.truth_table.len() == pow2(self.input_names.len())
        &&& self.input_values.len() == self.input_names.len()
    }

    /// The bit currently yielded: the table entry addressed by the
    /// latched bits, last-declared input most significant.
    pub open spec fn out_val(self) -> bool {
        self.truth_table[bits_index(self.input_values.reverse()) as int]
    }
}

/// A combinational gate with one output, given by an explicit truth table.
#[derive(Debug)]
pub struct Gate {
    input_names: Vec<String>,
    input_values: Vec<bool>,
    truth_table: Vec<bool>,
    output: String,
    name: String,
}

impl View for Gate {
    type V = GateModel;

    closed spec fn view(&self) -> GateModel {
        GateModel {
            input_names: self.input_names.deep_view(),
            input_values: self.input_values@,
            truth_table: self.truth_table@,
            output: self.output@,
            name: self.name@,
        }
    }
}

impl Gate {
    /// Builds a gate from its input names, output net and truth table.
    ///
    /// Succeeds exactly when the table holds `2^k` bits for `k` inputs,
    /// with all latched inputs false; any other size is rejected.
    pub fn new(inputs: Vec<&str>, output: &str, truth_table: Vec<bool>, name: &str) -> (r: Result<
        Self,
        String,
    >)
        ensures
            r is Ok <==> truth_table@.len() == pow2(inputs@.len()),
            (r matches Ok(g) ==> g@ == (GateModel {
                input_names: inputs.deep_view(),
                input_values: Seq::new(inputs@.len(), |_i: int| false),
                truth_table: truth_table@,
                output: output@,
                name: name@,
            })),
    {
        let tt_len: usize = truth_table.len();
        let size_ok = match pow2_checked(inputs.len()) {
            Some(p) => tt_len == p,
            None => false,
        };
        if !size_ok {
            return Err("wrong truth table size".to_owned());
        }
        let mut latches: Vec<bool> = Vec::new();
        let mut j: usize = 0;
        while j < inputs.len()
            invariant
                0 <= j <= inputs@.len(),
                latches@ == Seq::new(j as nat, |_i: int| false),
            decreases inputs@.len() - j,
        {
            latches.push(false);
            proof {
                assert(latches@ =~= Seq::new((j + 1) as nat, |_i: int| false));
            }
            j = j + 1;
        }
        Ok(
            Gate {
                input_names: own_strings(&inputs),
                input_values: latches,
                truth_table,
                output: output.to_owned(),
                name: name.to_owned(),
            },
        )
    }

    /// The bit currently yielded for the latched inputs.
    pub fn eval(&self) -> (r: bool)
        requires
            self@.wf(),
        ensures
            r == self@.out_val(),
    {
        let mut reversed: Vec<bool> = Vec::new();
        let mut i: usize = self.input_values.len();
        while i > 0
            invariant
                0 <= i <= self.input_values@.len(),
                reversed@.len() == self.input_values@.len() - i,
                forall|j: int|
                    0 <= j < reversed@.len() ==> reversed@[j] == self.input_values@[
                        self.input_values@.len() - 1 - j],
            decreases i,
        {
            i = i - 1;
            reversed.push(self.input_values[i]);
        }
        let tt_len: usize = self.truth_table.len();
        proof {
            assert(reversed@ =~= self.input_values@.reverse());
            assert(tt_len == pow2(self@.input_names.len()));
            lemma_bits_index_bound(reversed@);
        }
        let index = bools_to_index(&reversed);
        self.truth_table[index]
    }

    /// Its own name.
    pub fn get_name(&self) -> (r: String)
        ensures
            r@ == self@.name,
    {
        self.name.clone()
    }

    /// The name of the output net this gate drives.
    pub fn get_output(&self) -> (r: String)
        ensures
            r@ == self@.output,
    {
        self.output.clone()
    }

    /// Latches a value on every input port bearing the given name.
    ///
    /// Succeeds exactly when at least one input port carries the name; an
    /// unknown name is rejected and changes nothing.
    pub fn set_input(&mut self, input: &str, value: bool) -> (r: Result<(), String>)
        requires
            old(self)@.wf(),
        ensures
            final(self)@.wf(),
            final(self)@ == (GateModel {
                input_values: Seq::new(
                    old(self)@.input_values.len(),
                    |i: int|
                        if old(self)@.input_names[i] == input@ {
                            value
                        } else {
                            old(self)@.input_values[i]
                        },
                ),
                ..old(self)@
            }),
            r is Ok <==> (exists|i: int|
                0 <= i < old(self)@.input_names.len() && old(self)@.input_names[i] == input@),
    {
        let ghost target = Seq::new(
            old(self)@.input_values.len(),
            |i: int|
                if old(self)@.input_names[i] == input@ {
                    value
                } else {
                    old(self)@.input_values[i]
                },
        );
        let mut found = false;
        let mut i: usize = 0;
        while i < self.input_names.len()
            invariant
                0 <= i <= self.input_names@.len(),
                target == (Seq::new(
                    old(self)@.input_values.len(),
                    |m: int|
                        if old(self)@.input_names[m] == input@ {
                            value
                        } else {
                            old(self)@.input_values[m]
                        },
                )),
                self@.input_names == old(self)@.input_names,
                self@.truth_table == old(self)@.truth_table,
                self@.output == old(self)@.output,
                self@.name == old(self)@.name,
                self@.input_values.len() == old(self)@.input_values.len(),
                old(self)@.wf(),
                forall|j: int| 0 <= j < i ==> self@.input_values[j] == target[j],
                forall|j: int|
                    i <= j < self@.input_values.len() ==> self@.input_values[j] == old(
                        self,
                    )@.input_values[j],
                found <==> (exists|j: int|
                    0 <= j < i && old(self)@.input_names[j] == input@),
            decreases self.input_names@.len() - i,
        {
            proof {
                assert(self@.input_names[i as int] == self.input_names@[i as int]@);
            }
            if str_eq(input, &self.input_names[i]) {
                found = true;
                self.input_values.set(i, value);
            }
            i = i + 1;
        }
        proof {
            assert(self@.input_values =~= target);
            assert(self@ =~= (GateModel { input_values: target, ..old(self)@ }));
        }
        if !found {
            return Err("input not found".to_owned());
        }
        Ok(())
    }
}

} // verus!
