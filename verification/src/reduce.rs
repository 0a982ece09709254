//! Combinational reduction: collapsing a feedback-free circuit back into
//! a single truth table.
//!
//! A circuit can be reduced only when its wiring graph is acyclic. Here
//! acyclicity is witnessed by a rank assignment that strictly increases
//! along every edge; a feedback cycle makes such an assignment impossible.

use vstd::prelude::*;

use crate::bits::bits_index;
use crate::bits::bits_of;
use crate::bits::lemma_bits_index_bound;
use crate::bits::lemma_bits_index_of;
use crate::bits::pow2;
use crate::circuit::get_spec;
use crate::circuit::set_spec;
use crate::circuit::tick_spec;
use crate::circuit::Circuit;
use crate::circuit::CircuitModel;
use crate::circuit::Edge;
use crate::lookup_table::LutModel;
use crate::Error;

verus! {

/// An edge climbs strictly in the given rank assignment.
pub open spec fn edge_ranked(rank: Seq<int>, e: Edge) -> bool {
    &&& e.src < rank.len()
    &&& e.dst < rank.len()
    &&& rank[e.src as int] < rank[e.dst as int]
}

/// A graph of `n` nodes is acyclic when some rank assignment climbs
/// strictly along every edge.
pub open spec fn acyclic(edges: Seq<Edge>, n: nat) -> bool {
    exists|rank: Seq<int>|
        rank.len() == n && (forall|k: int| 0 <= k < edges.len() ==> edge_ranked(rank, #[trigger] edges[k]))
}

/// Whether some edge runs from `a` to `b`.
pub open spec fn has_edge(edges: Seq<Edge>, a: usize, b: usize) -> bool {
    exists|k: int| 0 <= k < edges.len() && edges[k].src == a && (#[trigger] edges[k]).dst == b
}

/// A feedback cycle: consecutive nodes are joined by edges, and an edge
/// closes the loop from the last node back to the first.
pub open spec fn is_cycle(path: Seq<usize>, edges: Seq<Edge>) -> bool {
    &&& path.len() > 0
    &&& forall|i: int| 0 <= i < path.len() - 1 ==> has_edge(edges, #[trigger] path[i], path[i + 1])
    &&& has_edge(edges, path.last(), path.first())
}

/// Along a chain of edges, ranks climb by at least one per step.
proof fn lemma_rank_climbs(rank: Seq<int>, edges: Seq<Edge>, path: Seq<usize>, i: int)
    requires
        forall|k: int| 0 <= k < edges.len() ==> edge_ranked(rank, #[trigger] edges[k]),
        forall|j: int| 0 <= j < path.len() - 1 ==> has_edge(edges, #[trigger] path[j], path[j + 1]),
        0 <= i < path.len(),
        path.len() > 0,
        path[0] < rank.len(),
    ensures
        path[i] < rank.len(),
        rank[path[i] as int] >= rank[path[0] as int] + i,
    decreases i,
{
    if i > 0 {
        lemma_rank_climbs(rank, edges, path, i - 1);
        let k = choose|k: int|
            0 <= k < edges.len() && edges[k].src == path[i - 1] && (#[trigger] edges[k]).dst
                == path[i];
        assert(edge_ranked(rank, edges[k]));
    }
}

/// A circuit that contains a feedback cycle is not acyclic: no rank
/// assignment can climb strictly all the way around a loop.
pub proof fn lemma_cycle_not_acyclic(edges: Seq<Edge>, n: nat, path: Seq<usize>)
    requires
        is_cycle(path, edges),
        forall|k: int| 0 <= k < edges.len() ==> (#[trigger] edges[k]).src < n && edges[k].dst < n,
    ensures
        !acyclic(edges, n),
{
    if acyclic(edges, n) {
        let rank = choose|rank: Seq<int>|
            rank.len() == n && (forall|k: int|
                0 <= k < edges.len() ==> edge_ranked(rank, #[trigger] edges[k]));
        let kc = choose|k: int|
            0 <= k < edges.len() && edges[k].src == path.last() && (#[trigger] edges[k]).dst
                == path.first();
        assert(edge_ranked(rank, edges[kc]));
        lemma_rank_climbs(rank, edges, path, path.len() - 1);
        assert(rank[path.last() as int] >= rank[path.first() as int] + path.len() - 1);
        assert(rank[path.last() as int] < rank[path.first() as int]);
        assert(false);
    }
}

/// When every unprocessed node keeps an unprocessed predecessor, no rank
/// assignment climbs along every edge: following ever-smaller predecessor
/// ranks would descend forever among finitely many nodes.
proof fn lemma_stalled_descent(
    processed: Seq<bool>,
    edges: Seq<Edge>,
    rank: Seq<int>,
    n: nat,
    v: usize,
)
    requires
        processed.len() == n,
        rank.len() == n,
        forall|w: usize|
            w < n && !processed[w as int] ==> exists|k: int|
                0 <= k < edges.len() && (#[trigger] edges[k]).dst == w && !processed[edges[k].src as int],
        v < n,
        !processed[v as int],
    ensures
        exists|k: int| 0 <= k < edges.len() && !edge_ranked(rank, #[trigger] edges[k]),
    decreases Set::new(|w: int| 0 <= w < n && rank[w] < rank[v as int]).len(),
{
    let below = Set::new(|w: int| 0 <= w < n && rank[w] < rank[v as int]);
    let k = choose|k: int|
        0 <= k < edges.len() && (#[trigger] edges[k]).dst == v && !processed[edges[k].src as int];
    if !edge_ranked(rank, edges[k]) {
        assert(exists|kk: int|
            0 <= kk < edges.len() && !edge_ranked(rank, #[trigger] edges[kk]));
    } else {
        let u = edges[k].src;
        let below_u = Set::new(|w: int| 0 <= w < n && rank[w] < rank[u as int]);
        vstd::set_lib::lemma_int_range(0, n as int);
        vstd::set_lib::lemma_len_subset(below, vstd::set_lib::set_int_range(0, n as int));
        vstd::set_lib::lemma_len_subset(below_u, below.remove(u as int));
        vstd::set_lib::lemma_len_subset(below.remove(u as int), below);
        assert(below.contains(u as int));
        vstd::set::axiom_set_remove_len(below, u as int);
        lemma_stalled_descent(processed, edges, rank, n, u);
    }
}

/// Latching a whole test vector: each bit, in order, to the matching
/// declared input name.
pub open spec fn drive(c: CircuitModel, names: Seq<Seq<char>>, bits: Seq<bool>) -> CircuitModel
    decreases names.len(),
{
    if names.len() == 0 {
        c
    } else {
        drive(set_spec(c, names.first(), bits.first()), names.drop_first(), bits.drop_first())
    }
}

/// Driving one more name latches it on the state the earlier names left.
pub proof fn lemma_drive_push(
    c: CircuitModel,
    names: Seq<Seq<char>>,
    bits: Seq<bool>,
    nm: Seq<char>,
    b: bool,
)
    requires
        names.len() == bits.len(),
    ensures
        drive(c, names.push(nm), bits.push(b)) == set_spec(drive(c, names, bits), nm, b),
    decreases names.len(),
{
    if names.len() == 0 {
        assert(names.push(nm).drop_first() =~= names);
        assert(bits.push(b).drop_first() =~= bits);
        assert(names.push(nm).first() == nm);
        assert(drive(c, names.push(nm), bits.push(b)) == drive(
            set_spec(c, nm, b),
            names,
            bits,
        ));
        assert(drive(c, names, bits) == c);
    } else {
        assert(names.push(nm).drop_first() =~= names.drop_first().push(nm));
        assert(bits.push(b).drop_first() =~= bits.drop_first().push(b));
        assert(names.push(nm).first() == names.first());
        assert(bits.push(b).first() == bits.first());
        lemma_drive_push(
            set_spec(c, names.first(), bits.first()),
            names.drop_first(),
            bits.drop_first(),
            nm,
            b,
        );
        assert(drive(c, names.push(nm), bits.push(b)) == drive(
            set_spec(c, names.first(), bits.first()),
            names.drop_first().push(nm),
            bits.drop_first().push(b),
        ));
        assert(drive(c, names, bits) == drive(
            set_spec(c, names.first(), bits.first()),
            names.drop_first(),
            bits.drop_first(),
        ));
    }
}

/// One enumeration step: latch a test vector, then run one pass.
pub open spec fn reduce_step(
    c: CircuitModel,
    names: Seq<Seq<char>>,
    bits: Seq<bool>,
) -> CircuitModel {
    tick_spec(drive(c, names, bits))
}

/// The circuit after the first `j` combinations of the enumeration,
/// counting in binary from all-false.
pub open spec fn reduce_state(c: CircuitModel, j: nat) -> CircuitModel
    decreases j,
{
    if j == 0 {
        c
    } else {
        reduce_step(
            reduce_state(c, (j - 1) as nat),
            c.in_names_seq(),
            bits_of((j - 1) as nat, c.inputs.len()),
        )
    }
}

/// What it means for a truth table to be the reduction of a circuit: the
/// ports carry over in order, the latches start false, and the bit for
/// output `i` at row index `j` is exactly what the circuit's output read
/// after the enumeration latched combination `j` and ran one pass.
pub open spec fn reduces_to(c: CircuitModel, lut: LutModel) -> bool {
    &&& lut.in_names == c.in_names_seq()
    &&& lut.out_names == c.out_names_seq()
    &&& lut.name == c.name
    &&& lut.in_values == Seq::new(c.inputs.len(), |_i: int| false)
    &&& lut.table.len() == c.outputs.len()
    &&& forall|i: int|
        0 <= i < lut.table.len() ==> (#[trigger] lut.table[i]).len() == pow2(c.inputs.len())
    &&& forall|i: int, j: int|
        0 <= i < lut.table.len() && 0 <= j < pow2(c.inputs.len()) ==> Ok::<bool, Error>(
            #[trigger] lut.table[i][j],
        ) == get_spec(reduce_state(c, (j + 1) as nat), c.out_names_seq()[i])
}

/// Combinational closure: evaluating the reduced table at any input
/// combination reproduces, bit for bit, the output the circuit itself
/// gave when the enumeration latched that combination and ran one pass.
pub proof fn lemma_reduction_matches_circuit(
    c: CircuitModel,
    lut: LutModel,
    v: Seq<bool>,
    i: int,
)
    requires
        reduces_to(c, lut),
        v.len() == c.inputs.len(),
        0 <= i < lut.table.len(),
    ensures
        Ok::<bool, Error>((LutModel { in_values: v, ..lut }).out_val(i)) == get_spec(
            reduce_state(c, bits_index(v) + 1),
            c.out_names_seq()[i],
        ),
{
    lemma_bits_index_bound(v);
}

/// Cyclic rejection: a circuit that contains a feedback cycle is not
/// acyclic, so by [`Circuit::to_lut`]'s contract its reduction yields no
/// table rather than one that silently ignores the cycle.
pub proof fn lemma_feedback_not_reducible(c: CircuitModel, path: Seq<usize>)
    requires
        c.wf(),
        is_cycle(path, c.edges),
    ensures
        !acyclic(c.edges, c.nodes.len()),
{
    assert forall|k: int| 0 <= k < c.edges.len() implies (#[trigger] c.edges[k]).src
        < c.nodes.len() && c.edges[k].dst < c.nodes.len() by {
        assert(crate::circuit::edge_wf(c.edges[k], c.nodes));
    }
    lemma_cycle_not_acyclic(c.edges, c.nodes.len(), path);
}

/// A stalled pass refutes acyclicity: fewer nodes are processed than
/// exist, and every unprocessed node keeps an unprocessed predecessor.
#[verifier::rlimit(100)]
proof fn lemma_stall_not_acyclic(processed: Seq<bool>, edges: Seq<Edge>, n: nat, count: nat)
    requires
        n <= usize::MAX,
        processed.len() == n,
        crate::circuit::vis_set(processed).len() == count,
        count < n,
        forall|w: usize|
            w < n && !processed[w as int] ==> exists|k: int|
                0 <= k < edges.len() && (#[trigger] edges[k]).dst == w && !processed[edges[k].src as int],
    ensures
        !acyclic(edges, n),
{
    vstd::set_lib::lemma_int_range(0, n as int);
    if forall|w: int| 0 <= w < n ==> processed[w] {
        assert(crate::circuit::vis_set(processed) =~= vstd::set_lib::set_int_range(0, n as int));
        assert(false);
    }
    let w0 = choose|w: int| 0 <= w < n && !processed[w];
    if acyclic(edges, n) {
        let rankw = choose|rankw: Seq<int>|
            rankw.len() == n && (forall|k: int|
                0 <= k < edges.len() ==> edge_ranked(rankw, #[trigger] edges[k]));
        lemma_stalled_descent(processed, edges, rankw, n, w0 as usize);
        assert(false);
    }
}

/// Marking one more node processed raises the processed count by one.
proof fn lemma_vis_insert(v: Seq<bool>, i: int, n: nat)
    requires
        v.len() == n,
        0 <= i < n,
        !v[i],
    ensures
        crate::circuit::vis_set(v.update(i, true)).len() == crate::circuit::vis_set(v).len() + 1,
{
    vstd::set_lib::lemma_int_range(0, n as int);
    assert(crate::circuit::vis_set(v.update(i, true)) =~= crate::circuit::vis_set(v).insert(i));
    vstd::set_lib::lemma_len_subset(
        crate::circuit::vis_set(v),
        vstd::set_lib::set_int_range(0, n as int),
    );
    vstd::set::axiom_set_insert_len(crate::circuit::vis_set(v), i);
}

/// A full processed count marks every node.
proof fn lemma_vis_full(v: Seq<bool>, n: nat)
    requires
        v.len() == n,
        crate::circuit::vis_set(v).len() == n,
    ensures
        forall|w: int| 0 <= w < n ==> v[w],
{
    vstd::set_lib::lemma_int_range(0, n as int);
    assert forall|w: int| 0 <= w < n implies v[w] by {
        if !v[w] {
            vstd::set_lib::lemma_len_subset(
                crate::circuit::vis_set(v),
                vstd::set_lib::set_int_range(0, n as int).remove(w),
            );
            vstd::set::axiom_set_remove_len(vstd::set_lib::set_int_range(0, n as int), w);
        }
    }
}

impl Circuit {
    /// Finds an unprocessed node whose predecessors have all been
    /// processed, or reports that none is left.
    fn find_ready(&self, processed: &Vec<bool>) -> (r: usize)
        requires
            self@.wf(),
            processed@.len() == self@.nodes.len(),
        ensures
            r < self@.nodes.len() ==> !processed@[r as int] && (forall|k: int|
                0 <= k < self@.edges.len() && (#[trigger] self@.edges[k]).dst == r
                    ==> processed@[self@.edges[k].src as int]),
            r >= self@.nodes.len() ==> (forall|w: usize|
                w < self@.nodes.len() && !processed@[w as int] ==> exists|k: int|
                    0 <= k < self@.edges.len() && (#[trigger] self@.edges[k]).dst == w
                        && !processed@[self@.edges[k].src as int]),
    {
        let n = self.nodes_len();
        let mut v: usize = 0;
        while v < n
            invariant
                0 <= v <= n,
                n == self@.nodes.len(),
                self@.wf(),
                processed@.len() == n,
                forall|w: usize|
                    w < v && !processed@[w as int] ==> exists|k: int|
                        0 <= k < self@.edges.len() && (#[trigger] self@.edges[k]).dst == w
                            && !processed@[self@.edges[k].src as int],
            decreases n - v,
        {
            if !processed[v] {
                let mut ok = true;
                let mut e: usize = 0;
                while e < self.edges_len() && ok
                    invariant
                        0 <= e <= self@.edges.len(),
                        n == self@.nodes.len(),
                        self@.wf(),
                        processed@.len() == n,
                        v < n,
                        ok ==> forall|k: int|
                            0 <= k < e && (#[trigger] self@.edges[k]).dst == v
                                ==> processed@[self@.edges[k].src as int],
                        !ok ==> exists|k: int|
                            0 <= k < self@.edges.len() && (#[trigger] self@.edges[k]).dst == v
                                && !processed@[self@.edges[k].src as int],
                    decreases self@.edges.len() - e,
                {
                    let edge = self.edge_at(e);
                    if edge.dst == v && !processed[edge.src] {
                        ok = false;
                    }
                    e = e + 1;
                }
                if ok {
                    return v;
                }
            }
            v = v + 1;
        }
        n
    }

    /// Collapses a feedback-free circuit into a single truth table.
    ///
    /// A cyclic circuit legitimately cannot be reduced and yields
    /// `Ok(None)`; reduction itself never fails. On an acyclic circuit
    /// the enumeration starts from the all-false test vector, latches
    /// each combination on the declared inputs, runs one pass, and
    /// records every declared output, advancing the vector as a binary
    /// counter until it wraps.
    #[verifier::loop_isolation(false)]
    pub fn to_lut(self) -> (r: Result<Option<crate::lookup_table::LookupTable>, Error>)
        requires
            self@.wf(),
        ensures
            r is Ok,
            r == Ok::<Option<crate::lookup_table::LookupTable>, Error>(None) <==> !acyclic(
                self@.edges,
                self@.nodes.len(),
            ),
            (r matches Ok(Some(lut)) ==> reduces_to(self@, lut@)),
    {
        let ghost c0 = self@;
        let mut this = self;
        if !this.is_dag() {
            return Ok(None);
        }
        let in_names = this.in_names();
        let out_names = this.out_names();
        let k = in_names.len();
        let m = out_names.len();
        let mut bits: Vec<bool> = vec![false; k];
        let mut table: Vec<Vec<bool>> = Vec::new();
        let mut ti: usize = 0;
        while ti < m
            invariant
                0 <= ti <= m,
                table@.len() == ti,
                forall|ii: int| 0 <= ii < ti ==> (#[trigger] table@[ii])@.len() == 0,
            decreases m - ti,
        {
            table.push(Vec::new());
            ti = ti + 1;
        }
        let ghost mut j: nat = 0;
        proof {
            crate::bits::lemma_bits_index_zero(bits@);
            crate::bits::lemma_pow2_pos(k as nat);
            assert(this@ == reduce_state(c0, 0));
            assert(k == in_names.deep_view().len() == c0.in_names_seq().len());
            assert(m == out_names.deep_view().len() == c0.out_names_seq().len());
        }
        #[verifier::loop_isolation(true)]
        loop
            invariant_except_break
                bits@.len() == k,
                j == bits_index(bits@),
                j < pow2(k as nat),
                this@ == reduce_state(c0, j),
                forall|ii: int| 0 <= ii < m ==> (#[trigger] table@[ii])@.len() == j,
                forall|ii: int, jj: int|
                    0 <= ii < m && 0 <= jj < j ==> Ok::<bool, Error>(#[trigger] table@[ii]@[jj])
                        == get_spec(reduce_state(c0, (jj + 1) as nat), c0.out_names_seq()[ii]),
            invariant
                c0.wf(),
                this@.wf(),
                crate::circuit::same_shape(c0.nodes, this@.nodes),
                this@.edges == c0.edges,
                this@.inputs == c0.inputs,
                this@.outputs == c0.outputs,
                this@.name == c0.name,
                k == c0.inputs.len(),
                m == c0.outputs.len(),
                k == in_names@.len(),
                m == out_names@.len(),
                in_names.deep_view() == c0.in_names_seq(),
                out_names.deep_view() == c0.out_names_seq(),
                table@.len() == m,
            ensures
                table@.len() == m,
                forall|ii: int| 0 <= ii < m ==> (#[trigger] table@[ii])@.len() == pow2(k as nat),
                forall|ii: int, jj: int|
                    0 <= ii < m && 0 <= jj < pow2(k as nat) ==> Ok::<bool, Error>(
                        #[trigger] table@[ii]@[jj],
                    ) == get_spec(reduce_state(c0, (jj + 1) as nat), c0.out_names_seq()[ii]),
            decreases pow2(k as nat) - j,
        {
            let ghost st_j = this@;
            let mut i: usize = 0;
            while i < k
                invariant
                    0 <= i <= k,
                    this@.wf(),
                    crate::circuit::same_shape(c0.nodes, this@.nodes),
                    this@.edges == c0.edges,
                    this@.inputs == c0.inputs,
                    this@.outputs == c0.outputs,
                    this@.name == c0.name,
                    this@ == drive(st_j, c0.in_names_seq().take(i as int), bits@.take(i as int)),
                decreases k - i,
            {
                let ghost pre = this@;
                proof {
                    crate::circuit::lemma_same_shape_names(c0, pre);
                    assert(in_names.deep_view()[i as int] == c0.in_names_seq()[i as int]);
                    crate::names::lemma_find_name(
                        pre.in_names_seq(),
                        c0.in_names_seq()[i as int],
                    );
                }
                match this.set(in_names[i].as_str(), bits[i]) {
                    Ok(()) => (),
                    Err(_) => unreached(),
                }
                proof {
                    lemma_drive_push(
                        st_j,
                        c0.in_names_seq().take(i as int),
                        bits@.take(i as int),
                        c0.in_names_seq()[i as int],
                        bits@[i as int],
                    );
                    assert(c0.in_names_seq().take(i + 1) =~= c0.in_names_seq().take(
                        i as int,
                    ).push(c0.in_names_seq()[i as int]));
                    assert(bits@.take(i + 1) =~= bits@.take(i as int).push(bits@[i as int]));
                }
                i = i + 1;
            }
            proof {
                assert(c0.in_names_seq().take(k as int) =~= c0.in_names_seq());
                assert(bits@.take(k as int) =~= bits@);
            }
            match this.tick() {
                Ok(()) => (),
                Err(_) => unreached(),
            }
            proof {
                lemma_bits_index_of(bits@);
                assert(bits_of(j, k as nat) == bits@);
                assert(this@ == reduce_state(c0, (j + 1) as nat));
            }
            let mut oi: usize = 0;
            while oi < m
                invariant
                    0 <= oi <= m,
                    this@.wf(),
                    crate::circuit::same_shape(c0.nodes, this@.nodes),
                    this@.edges == c0.edges,
                    this@.inputs == c0.inputs,
                    this@.outputs == c0.outputs,
                    this@.name == c0.name,
                    this@ == reduce_state(c0, (j + 1) as nat),
                    table@.len() == m,
                    forall|ii: int| 0 <= ii < oi ==> (#[trigger] table@[ii])@.len() == j + 1,
                    forall|ii: int| oi <= ii < m ==> (#[trigger] table@[ii])@.len() == j,
                    forall|ii: int, jj: int|
                        0 <= ii < m && 0 <= jj < j ==> Ok::<bool, Error>(
                            #[trigger] table@[ii]@[jj],
                        ) == get_spec(reduce_state(c0, (jj + 1) as nat), c0.out_names_seq()[ii]),
                    forall|ii: int|
                        0 <= ii < oi ==> Ok::<bool, Error>((#[trigger] table@[ii])@[j as int])
                            == get_spec(reduce_state(c0, (j + 1) as nat), c0.out_names_seq()[ii]),
                decreases m - oi,
            {
                proof {
                    crate::circuit::lemma_same_shape_names(c0, this@);
                    assert(out_names.deep_view()[oi as int] == c0.out_names_seq()[oi as int]);
                    crate::names::lemma_find_name(
                        this@.out_names_seq(),
                        c0.out_names_seq()[oi as int],
                    );
                }
                let bit = match this.get(out_names[oi].as_str()) {
                    Ok(b) => b,
                    Err(_) => unreached(),
                };
                let row = &mut table[oi];
                row.push(bit);
                oi = oi + 1;
            }
            let more = crate::bits::advance_combination(&mut bits);
            if !more {
                proof {
                    assert(j + 1 == pow2(k as nat));
                }
                break ;
            }
            proof {
                j = j + 1;
            }
        }
        let mut in_refs: Vec<&str> = Vec::new();
        let mut ri: usize = 0;
        while ri < k
            invariant
                0 <= ri <= k,
                in_refs@.len() == ri,
                forall|ii: int| 0 <= ii < ri ==> (#[trigger] in_refs@[ii])@ == in_names.deep_view()[ii],
            decreases k - ri,
        {
            in_refs.push(in_names[ri].as_str());
            ri = ri + 1;
        }
        let mut out_refs: Vec<&str> = Vec::new();
        let mut ro: usize = 0;
        while ro < m
            invariant
                0 <= ro <= m,
                out_refs@.len() == ro,
                forall|ii: int|
                    0 <= ii < ro ==> (#[trigger] out_refs@[ii])@ == out_names.deep_view()[ii],
            decreases m - ro,
        {
            out_refs.push(out_names[ro].as_str());
            ro = ro + 1;
        }
        let chip_name = this.name();
        proof {
            assert(crate::lookup_table::table_shape_ok(
                crate::lookup_table::rows_view(table@),
                in_refs@.len() as nat,
                out_refs@.len() as nat,
            )) by {
                assert(forall|ii: int|
                    0 <= ii < m ==> (#[trigger] crate::lookup_table::rows_view(table@)[ii]).len()
                        == pow2(k as nat));
            };
        }
        let lut = match crate::lookup_table::LookupTable::new(
            table,
            in_refs,
            out_refs,
            chip_name.as_str(),
        ) {
            Ok(l) => l,
            Err(_) => unreached(),
        };
        proof {
            assert(lut@.in_names =~~= c0.in_names_seq());
            assert(lut@.out_names =~~= c0.out_names_seq());
            assert(lut@.in_values =~= Seq::new(c0.inputs.len(), |_i: int| false));
            assert forall|ii: int, jj: int|
                0 <= ii < lut@.table.len() && 0 <= jj < pow2(c0.inputs.len()) implies Ok::<
                bool,
                Error,
            >(#[trigger] lut@.table[ii][jj]) == get_spec(
                reduce_state(c0, (jj + 1) as nat),
                c0.out_names_seq()[ii],
            ) by {
                assert(lut@.table[ii] == crate::lookup_table::rows_view(table@)[ii]);
            }
            assert(reduces_to(c0, lut@));
        }
        Ok(Some(lut))
    }

    /// Whether the wiring graph is acyclic, decided by repeatedly
    /// processing a node whose predecessors have all been processed.
    pub fn is_dag(&self) -> (r: bool)
        requires
            self@.wf(),
        ensures
            r == acyclic(self@.edges, self@.nodes.len()),
    {
        let n = self.nodes_len();
        let mut processed: Vec<bool> = vec![false; n];
        let ghost mut rank: Seq<int> = Seq::new(n as nat, |_i: int| 0);
        let mut count: usize = 0;
        proof {
            assert(crate::circuit::vis_set(processed@) =~= Set::<int>::empty());
        }
        while count < n
            invariant
                self@.wf(),
                n == self@.nodes.len(),
                processed@.len() == n,
                rank.len() == n,
                0 <= count <= n,
                forall|w: int| 0 <= w < n && processed@[w] ==> 0 <= rank[w] < count,
                forall|k: int|
                    0 <= k < self@.edges.len() && processed@[(#[trigger] self@.edges[k]).dst as int]
                        ==> processed@[self@.edges[k].src as int] && rank[self@.edges[k].src as int]
                        < rank[self@.edges[k].dst as int],
                count == crate::circuit::vis_set(processed@).len(),
            decreases n - count,
        {
            let candidate = self.find_ready(&processed);
            if candidate >= n {
                proof {
                    lemma_stall_not_acyclic(processed@, self@.edges, n as nat, count as nat);
                }
                return false;
            }
            let ghost processed0 = processed@;
            let ghost rank0 = rank;
            let ghost count0 = count;
            proof {
                lemma_vis_insert(processed@, candidate as int, n as nat);
            }
            processed.set(candidate, true);
            proof {
                rank = rank.update(candidate as int, count as int);
            }
            count = count + 1;
            proof {
                assert forall|k: int|
                    0 <= k < self@.edges.len() && processed@[(#[trigger] self@.edges[k]).dst as int]
                        implies processed@[self@.edges[k].src as int]
                        && rank[self@.edges[k].src as int] < rank[self@.edges[k].dst as int] by {
                    let e = self@.edges[k];
                    assert(crate::circuit::edge_wf(e, self@.nodes));
                    if e.dst == candidate {
                        assert(processed0[e.src as int]);
                        assert(e.src != candidate);
                        assert(rank[e.src as int] == rank0[e.src as int] < count0);
                    } else {
                        assert(processed0[e.dst as int]);
                        assert(processed0[e.src as int]);
                        assert(e.src != candidate && e.dst != candidate);
                    }
                }
            }
        }
        proof {
            lemma_vis_full(processed@, n as nat);
            assert forall|k: int|
                0 <= k < self@.edges.len() implies edge_ranked(rank, #[trigger] self@.edges[k]) by {
                assert(crate::circuit::edge_wf(self@.edges[k], self@.nodes));
                assert(processed@[self@.edges[k].dst as int]);
            }
            assert(acyclic(self@.edges, self@.nodes.len()));
        }
        true
    }
}

} // verus!
