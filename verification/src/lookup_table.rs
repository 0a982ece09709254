//! The truth-table primitive device.
//!
//! A [`LookupTable`] holds one table row per output port, each row exactly
//! `2^k` bits long for `k` input ports, together with a latched input-bit
//! vector. Reading an output packs the latched bits into a row index
//! (declared order, first input most significant) and returns the indexed
//! bit of the corresponding row.

use vstd::prelude::*;

use crate::bits::bits_index;
use crate::bits::clone_bools;
use crate::bits::bools_to_index;
use crate::bits::lemma_bits_index_bound;
use crate::bits::pow2;
use crate::bits::pow2_checked;
use crate::names::clone_strings;
use crate::names::find;
use crate::names::find_name;
use crate::names::lemma_find_name;
use crate::names::own_strings;
use crate::Error;

verus! {

/// The mathematical content of a truth-table device.
#[verifier::ext_equal]
pub ghost struct LutModel {
    /// One row per output port, in declared output order.
    pub table: Seq<Seq<bool>>,
    /// The latched input bits, in declared input order.
    pub in_values: Seq<bool>,
    /// Declared input port names, most significant first.
    pub in_names: Seq<Seq<char>>,
    /// Declared output port names.
    pub out_names: Seq<Seq<char>>,
    /// The device's name.
    pub name: Seq<char>,
}

impl LutModel {
    /// The shape invariant: one row per output, each row of length `2^k`,
    /// and one latched bit per input.
    pub open spec fn wf(self) -> bool {
        &&& self.table.len() == self.out_names.len()
        &&& forall|i: int|
            0 <= i < self.table.len() ==> (#[trigger] self.table[i]).len() == pow2(
                self.in_names.len(),
            )
        &&& self.in_values.len() == self.in_names.len()
    }

    /// The row index currently addressed by the latched input bits.
    pub open spec fn row_index(self) -> nat {
        bits_index(self.in_values)
    }

    /// The bit output port `i` currently yields.
    pub open spec fn out_val(self, i: int) -> bool {
        self.table[i][self.row_index() as int]
    }

    /// All output bits, in declared output order.
    pub open spec fn out_seq(self) -> Seq<bool> {
        Seq::new(self.table.len(), |i: int| self.out_val(i))
    }
}

/// The view of a row list: each row as a sequence of bits.
pub open spec fn rows_view(rows: Seq<Vec<bool>>) -> Seq<Seq<bool>> {
    rows.map_values(|r: Vec<bool>| r@)
}

/// Holds when `table` has `m` rows, each exactly `2^k` entries long.
pub open spec fn table_shape_ok(table: Seq<Seq<bool>>, k: nat, m: nat) -> bool {
    &&& table.len() == m
    &&& forall|i: int| 0 <= i < table.len() ==> (#[trigger] table[i]).len() == pow2(k)
}

/// A combinational primitive device given by an explicit truth table.
#[derive(Debug, PartialEq)]
pub struct LookupTable {
    table: Vec<Vec<bool>>,
    in_values: Vec<bool>,
    in_names: Vec<String>,
    out_names: Vec<String>,
    name: String,
}

impl View for LookupTable {
    type V = LutModel;

    closed spec fn view(&self) -> LutModel {
        LutModel {
            table: rows_view(self.table@),
            in_values: self.in_values@,
            in_names: self.in_names.deep_view(),
            out_names: self.out_names.deep_view(),
            name: self.name@,
        }
    }
}

impl DeepView for LookupTable {
    type V = LutModel;

    open spec fn deep_view(&self) -> LutModel {
        self.view()
    }
}

impl Clone for LookupTable {
    /// A copy carries the same table, latches and names.
    fn clone(&self) -> (r: Self)
        ensures
            r@ == self@,
    {
        let mut table: Vec<Vec<bool>> = Vec::new();
        let mut i: usize = 0;
        while i < self.table.len()
            invariant
                0 <= i <= self.table@.len(),
                table@.len() == i,
                forall|j: int| 0 <= j < i ==> (#[trigger] table@[j])@ == self.table@[j]@,
            decreases self.table@.len() - i,
        {
            let row = clone_bools(&self.table[i]);
            proof {
                assert(row@ == self.table@[i as int]@);
            }
            table.push(row);
            i = i + 1;
        }
        let r = LookupTable {
            table,
            in_values: clone_bools(&self.in_values),
            in_names: clone_strings(&self.in_names),
            out_names: clone_strings(&self.out_names),
            name: self.name.clone(),
        };
        proof {
            assert(rows_view(r.table@) =~= rows_view(self.table@));
            assert(r@ =~= self@);
        }
        r
    }
}

impl LookupTable {
    /// Builds a device from a table and its port names.
    ///
    /// For any `k, m >= 0`, a table of `m` rows each `2^k` long constructs
    /// successfully with all latched inputs false; any other shape is
    /// rejected with [`Error::ShapeMismatch`].
    pub fn new(table: Vec<Vec<bool>>, in_names: Vec<&str>, out_names: Vec<&str>, name: &str) -> (r:
        Result<Self, Error>)
        ensures
            r is Ok <==> table_shape_ok(rows_view(table@), in_names@.len(), out_names@.len()),
            (r matches Ok(lut) ==> lut@ == (LutModel {
                table: rows_view(table@),
                in_values: Seq::new(in_names@.len(), |_i: int| false),
                in_names: in_names.deep_view(),
                out_names: out_names.deep_view(),
                name: name@,
            })),
            (r matches Err(e) ==> e == Error::ShapeMismatch),
    {
        if table.len() != out_names.len() {
            return Err(Error::ShapeMismatch);
        }
        let expected = pow2_checked(in_names.len());
        let mut i: usize = 0;
        while i < table.len()
            invariant
                0 <= i <= table@.len(),
                forall|j: int|
                    0 <= j < i ==> (#[trigger] rows_view(table@)[j]).len() == pow2(in_names@.len()),
                match expected {
                    Some(p) => p == pow2(in_names@.len()),
                    None => pow2(in_names@.len()) > usize::MAX,
                },
            decreases table@.len() - i,
        {
            let row_len: usize = table[i].len();
            let row_ok = match expected {
                Some(p) => row_len == p,
                None => false,
            };
            if !row_ok {
                proof {
                    assert(rows_view(table@)[i as int].len() == row_len);
                }
                return Err(Error::ShapeMismatch);
            }
            i = i + 1;
        }
        let mut latches: Vec<bool> = Vec::new();
        let mut j: usize = 0;
        while j < in_names.len()
            invariant
                0 <= j <= in_names@.len(),
                latches@ == Seq::new(j as nat, |_i: int| false),
            decreases in_names@.len() - j,
        {
            latches.push(false);
            proof {
                assert(latches@ =~= Seq::new((j + 1) as nat, |_i: int| false));
            }
            j = j + 1;
        }
        let r = LookupTable {
            table,
            in_values: latches,
            in_names: own_strings(&in_names),
            out_names: own_strings(&out_names),
            name: name.to_owned(),
        };
        Ok(r)
    }

    /// The number of input ports.
    pub fn in_count(&self) -> (r: usize)
        ensures
            r == self@.in_names.len(),
    {
        self.in_names.len()
    }

    /// The number of output ports.
    pub fn out_count(&self) -> (r: usize)
        ensures
            r == self@.out_names.len(),
    {
        self.out_names.len()
    }

    /// A copy of the table rows.
    pub fn get_table(&self) -> (r: Vec<Vec<bool>>)
        ensures
            rows_view(r@) == self@.table,
    {
        let mut r: Vec<Vec<bool>> = Vec::new();
        let mut i: usize = 0;
        while i < self.table.len()
            invariant
                0 <= i <= self.table@.len(),
                r@.len() == i,
                forall|j: int| 0 <= j < i ==> (#[trigger] r@[j])@ == self.table@[j]@,
            decreases self.table@.len() - i,
        {
            let row = clone_bools(&self.table[i]);
            proof {
                assert(row@ == self.table@[i as int]@);
            }
            r.push(row);
            i = i + 1;
        }
        proof {
            assert(rows_view(r@) =~= rows_view(self.table@));
        }
        r
    }

    /// Resolves an input port name to its position in declared order.
    pub fn in_map(&self, name: String) -> (r: Option<usize>)
        ensures
            match find_name(self@.in_names, name@) {
                None => r is None,
                Some(i) => 0 <= i <= usize::MAX && r == Some(i as usize),
            },
    {
        find(&self.in_names, name.as_str())
    }

    /// Resolves an output port name to its position in declared order.
    pub fn out_map(&self, name: String) -> (r: Option<usize>)
        ensures
            match find_name(self@.out_names, name@) {
                None => r is None,
                Some(i) => 0 <= i <= usize::MAX && r == Some(i as usize),
            },
    {
        find(&self.out_names, name.as_str())
    }

    /// The bits every output port currently yields, in declared order.
    pub fn outputs(&self) -> (r: Vec<bool>)
        requires
            self@.wf(),
        ensures
            r@ == self@.out_seq(),
    {
        let mut r: Vec<bool> = Vec::new();
        if self.table.len() == 0 {
            proof {
                assert(r@ =~= self@.out_seq());
            }
            return r;
        }
        let row_len: usize = self.table[0].len();
        proof {
            assert(row_len == self@.table[0].len());
            assert(pow2(self@.in_names.len()) <= usize::MAX);
            lemma_bits_index_bound(self.in_values@);
        }
        let index = bools_to_index(&self.in_values);
        let mut i: usize = 0;
        while i < self.table.len()
            invariant
                0 <= i <= self.table@.len(),
                self@.wf(),
                index == self@.row_index(),
                index < pow2(self@.in_names.len()),
                r@ == self@.out_seq().take(i as int),
            decreases self.table@.len() - i,
        {
            proof {
                assert(self@.table[i as int].len() == pow2(self@.in_names.len()));
                assert(self@.table[i as int] == self.table@[i as int]@);
            }
            r.push(self.table[i][index]);
            proof {
                assert(r@ =~= self@.out_seq().take(i + 1));
            }
            i = i + 1;
        }
        proof {
            assert(self@.out_seq().take(self.table@.len() as int) =~= self@.out_seq());
        }
        r
    }

    /// The device's name.
    pub fn name(&self) -> (r: String)
        ensures
            r@ == self@.name,
    {
        self.name.clone()
    }

    /// Latches one input bit, addressed by port name.
    ///
    /// Succeeds exactly when the name is a declared input port; an unknown
    /// name is rejected with [`Error::PortNotFound`] and changes nothing.
    pub fn set(&mut self, in_name: &str, value: bool) -> (r: Result<(), Error>)
        requires
            old(self)@.wf(),
        ensures
            final(self)@.wf(),
            match find_name(old(self)@.in_names, in_name@) {
                Some(i) => r == Ok::<(), Error>(()) && final(self)@ == (LutModel {
                    in_values: old(self)@.in_values.update(i, value),
                    ..old(self)@
                }),
                None => r == Err::<(), Error>(Error::PortNotFound) && final(self)@ == old(self)@,
            },
    {
        match find(&self.in_names, in_name) {
            Some(i) => {
                proof {
                    lemma_find_name(self@.in_names, in_name@);
                }
                self.in_values.set(i, value);
                proof {
                    assert(self@ =~= (LutModel {
                        in_values: old(self)@.in_values.update(i as int, value),
                        ..old(self)@
                    }));
                }
                Ok(())
            },
            None => Err(Error::PortNotFound),
        }
    }

    /// Reads one output bit, addressed by port name.
    ///
    /// Succeeds exactly when the name is a declared output port; an unknown
    /// name is rejected with [`Error::PortNotFound`]. The device itself is
    /// left unchanged.
    pub fn get(&mut self, out_name: &str) -> (r: Result<bool, Error>)
        requires
            old(self)@.wf(),
        ensures
            final(self)@ == old(self)@,
            match find_name(old(self)@.out_names, out_name@) {
                Some(i) => r == Ok::<bool, Error>(old(self)@.out_val(i)),
                None => r == Err::<bool, Error>(Error::PortNotFound),
            },
    {
        let found = find(&self.out_names, out_name);
        proof {
            lemma_find_name(self@.out_names, out_name@);
        }
        match found {
            Some(i) => {
                let row_len: usize = self.table[i].len();
                proof {
                    assert(row_len == self@.table[i as int].len());
                    lemma_bits_index_bound(self.in_values@);
                }
                let index = bools_to_index(&self.in_values);
                let out = self.table[i][index];
                proof {
                    assert(self@.table[i as int] == self.table@[i as int]@);
                    assert(out == self@.out_val(i as int));
                }
                Ok(out)
            },
            None => Err(Error::PortNotFound),
        }
    }

    /// Latches one input bit, addressed by position.
    ///
    /// Succeeds exactly when the index is within the declared input count;
    /// anything else is rejected with [`Error::PortNotFound`] and changes
    /// nothing.
    pub fn set_id(&mut self, in_id: usize, value: bool) -> (r: Result<(), Error>)
        requires
            old(self)@.wf(),
        ensures
            final(self)@.wf(),
            in_id < old(self)@.in_names.len() ==> r == Ok::<(), Error>(()) && final(self)@
                == (LutModel {
                in_values: old(self)@.in_values.update(in_id as int, value),
                ..old(self)@
            }),
            in_id >= old(self)@.in_names.len() ==> r == Err::<(), Error>(Error::PortNotFound)
                && final(self)@ == old(self)@,
    {
        if in_id < self.in_values.len() {
            self.in_values.set(in_id, value);
            proof {
                assert(self@ =~= (LutModel {
                    in_values: old(self)@.in_values.update(in_id as int, value),
                    ..old(self)@
                }));
            }
            Ok(())
        } else {
            Err(Error::PortNotFound)
        }
    }

    /// Reads one output bit, addressed by position.
    ///
    /// Succeeds exactly when the index is within the declared output count;
    /// anything else is rejected with [`Error::PortNotFound`]. The device
    /// itself is left unchanged.
    pub fn get_id(&mut self, out_id: usize) -> (r: Result<bool, Error>)
        requires
            old(self)@.wf(),
        ensures
            final(self)@ == old(self)@,
            out_id < old(self)@.out_names.len() ==> r == Ok::<bool, Error>(
                old(self)@.out_val(out_id as int),
            ),
            out_id >= old(self)@.out_names.len() ==> r == Err::<bool, Error>(Error::PortNotFound),
    {
        if out_id < self.table.len() {
            let row_len: usize = self.table[out_id].len();
            proof {
                assert(row_len == self@.table[out_id as int].len());
                lemma_bits_index_bound(self.in_values@);
            }
            let index = bools_to_index(&self.in_values);
            Ok(self.table[out_id][index])
        } else {
            Err(Error::PortNotFound)
        }
    }
}

} // verus!
