//! The dataflow layer: reaching definitions over the CFG, computed by a
//! worklist fixed point, and the abstract interface a dataflow problem
//! presents.

use vstd::prelude::*;

use std::collections::HashSet;
use std::hash::Hash;

use petgraph::graph::DiGraph;

use crate::cfg::BasicBlock;
use crate::graph::{graph_edges, graph_nodes, graph_wf};
use crate::types::{dest_of, Instruction, InstrV};
use crate::lvn::{defines, get_dest};

verus! {

/// The identity of one assignment: a variable, the block that assigns it,
/// and the position of the assignment inside that block.
#[derive(Clone, Debug, Eq, Hash, PartialEq)]
pub struct Definition {
    pub var: String,
    pub block: String,
    pub instr_index: usize,
}

/// Spec-level mirror of a `Definition`.
pub struct DefV {
    pub var: Seq<char>,
    pub block: Seq<char>,
    pub instr_index: usize,
}

impl View for Definition {
    type V = DefV;

    open spec fn view(&self) -> DefV {
        DefV { var: self.var@, block: self.block@, instr_index: self.instr_index }
    }
}

impl DeepView for Definition {
    type V = DefV;

    open spec fn deep_view(&self) -> DefV {
        self.view()
    }
}

/// `d` is in GEN of the block `(bname, instrs)`: the definition stands in
/// the block and no later instruction of the block redefines its variable.
pub open spec fn is_gen(bname: Seq<char>, instrs: Seq<InstrV>, d: DefV) -> bool {
    &&& d.block == bname
    &&& 0 <= d.instr_index < instrs.len()
    &&& defines(instrs[d.instr_index as int], d.var)
    &&& forall|j: int| d.instr_index < j < instrs.len() ==> !defines(#[trigger] instrs[j], d.var)
}

/// `d` is in KILL of the block: the definition stands in the block and a
/// later instruction of the same block redefines its variable.
pub open spec fn is_kill(bname: Seq<char>, instrs: Seq<InstrV>, d: DefV) -> bool {
    &&& d.block == bname
    &&& 0 <= d.instr_index < instrs.len()
    &&& defines(instrs[d.instr_index as int], d.var)
    &&& exists|j: int| d.instr_index < j < instrs.len() && defines(#[trigger] instrs[j], d.var)
}

/// Whether some instruction after position `i` defines `d`.
fn defined_later(block: &Vec<Instruction>, i: usize, d: &String) -> (r: bool)
    requires
        i < block.len(),
    ensures
        r == exists|j: int|
            i < j < block.deep_view().len() && defines(#[trigger] block.deep_view()[j], d@),
{
    let ghost bv = block.deep_view();
    let n = block.len();
    let mut k: usize = i + 1;
    while k < n
        invariant
            i < k <= n,
            n == block.len(),
            bv == block.deep_view(),
            forall|j: int| i < j < k ==> !defines(#[trigger] bv[j], d@),
        decreases n - k,
    {
        let hit = match get_dest(&block[k]) {
            Some(d2) => *d2 == *d,
            None => false,
        };
        if hit {
            proof {
                assert(defines(bv[k as int], d@));
            }
            return true;
        }
        k += 1;
    }
    false
}

/// Membership of a value in a pushed sequence.
proof fn lemma_push_contains<A>(s: Seq<A>, x: A, y: A)
    ensures
        s.push(x).contains(y) <==> (s.contains(y) || y == x),
{
    if s.contains(y) {
        let i = choose|i: int| 0 <= i < s.len() && s[i] == y;
        assert(s.push(x)[i] == y);
    }
    assert(s.push(x)[s.len() as int] == x);
    if s.push(x).contains(y) {
        let i = choose|i: int| 0 <= i < s.push(x).len() && s.push(x)[i] == y;
        if i < s.len() {
            assert(s[i] == y);
        }
    }
}

/// GEN and KILL of one block: GEN holds each variable's most recent in-block
/// definition, KILL every definition later overwritten within the block.
pub fn gen_and_kill(block: &BasicBlock) -> (r: (Vec<Definition>, Vec<Definition>))
    ensures
        forall|d: DefV| r.0.deep_view().contains(d) <==> is_gen(
            block@.name,
            block@.instructions,
            d,
        ),
        forall|d: DefV| r.1.deep_view().contains(d) <==> is_kill(
            block@.name,
            block@.instructions,
            d,
        ),
{
    let ghost bv = block@.instructions;
    let ghost bname = block@.name;
    let mut gens: Vec<Definition> = Vec::new();
    let mut kills: Vec<Definition> = Vec::new();
    let n = block.instructions.len();
    let mut i: usize = 0;
    while i < n
        invariant
            i <= n,
            n == block.instructions.len(),
            bv == block@.instructions,
            bname == block@.name,
            forall|d: DefV| gens.deep_view().contains(d) <==> (is_gen(bname, bv, d)
                && d.instr_index < i),
            forall|d: DefV| kills.deep_view().contains(d) <==> (is_kill(bname, bv, d)
                && d.instr_index < i),
        decreases n - i,
    {
        let ghost old_gens = gens.deep_view();
        let ghost old_kills = kills.deep_view();
        let instr = &block.instructions[i];
        proof {
            assert(instr@ == bv[i as int]);
        }
        match get_dest(instr) {
            Some(dest) => {
                let def = Definition {
                    var: dest.clone(),
                    block: block.name.clone(),
                    instr_index: i,
                };
                let ghost dv = def@;
                if defined_later(&block.instructions, i, dest) {
                    kills.push(def);
                    proof {
                        assert(kills.deep_view() =~= old_kills.push(dv));
                        lemma_push_contains(old_kills, dv, dv);
                        assert(is_kill(bname, bv, dv));
                        assert forall|d: DefV| kills.deep_view().contains(d) implies (is_kill(
                            bname,
                            bv,
                            d,
                        ) && d.instr_index < i + 1) by {
                            lemma_push_contains(old_kills, dv, d);
                        }
                        assert forall|d: DefV| is_kill(bname, bv, d) && d.instr_index < i + 1
                            implies kills.deep_view().contains(d) by {
                            lemma_push_contains(old_kills, dv, d);
                            if d.instr_index == i {
                                assert(d == dv);
                            }
                        }
                        assert forall|d: DefV| gens.deep_view().contains(d) <==> (is_gen(
                            bname,
                            bv,
                            d,
                        ) && d.instr_index < i + 1) by {
                            if is_gen(bname, bv, d) && d.instr_index == i {
                                assert(false);
                            }
                        }
                    }
                } else {
                    gens.push(def);
                    proof {
                        assert(gens.deep_view() =~= old_gens.push(dv));
                        assert(is_gen(bname, bv, dv));
                        assert forall|d: DefV| gens.deep_view().contains(d) implies (is_gen(
                            bname,
                            bv,
                            d,
                        ) && d.instr_index < i + 1) by {
                            lemma_push_contains(old_gens, dv, d);
                        }
                        assert forall|d: DefV| is_gen(bname, bv, d) && d.instr_index < i + 1
                            implies gens.deep_view().contains(d) by {
                            lemma_push_contains(old_gens, dv, d);
                            if d.instr_index == i {
                                assert(d == dv);
                            }
                        }
                        assert forall|d: DefV| kills.deep_view().contains(d) <==> (is_kill(
                            bname,
                            bv,
                            d,
                        ) && d.instr_index < i + 1) by {
                            if is_kill(bname, bv, d) && d.instr_index == i {
                                assert(false);
                            }
                        }
                    }
                }
            },
            None => {
                proof {
                    assert forall|d: DefV| gens.deep_view().contains(d) <==> (is_gen(bname, bv, d)
                        && d.instr_index < i + 1) by {
                        if is_gen(bname, bv, d) && d.instr_index == i {
                            assert(defines(bv[i as int], d.var));
                        }
                    }
                    assert forall|d: DefV| kills.deep_view().contains(d) <==> (is_kill(
                        bname,
                        bv,
                        d,
                    ) && d.instr_index < i + 1) by {
                        if is_kill(bname, bv, d) && d.instr_index == i {
                            assert(defines(bv[i as int], d.var));
                        }
                    }
                }
            },
        }
        i += 1;
    }
    (gens, kills)
}


/// `d` is the definition made at position `ii` of block `bb`.
pub open spec fn def_value_at(g: DiGraph<BasicBlock, ()>, bb: int, ii: int, d: DefV) -> bool {
    &&& d.block == graph_nodes(g)[bb]@.name
    &&& d.instr_index == ii
    &&& dest_of(graph_nodes(g)[bb]@.instructions[ii]) == Some(d.var)
}

/// GEN of CFG node `b`, as a predicate on definition values.
pub open spec fn node_gen(g: DiGraph<BasicBlock, ()>, b: int, d: DefV) -> bool {
    is_gen(graph_nodes(g)[b]@.name, graph_nodes(g)[b]@.instructions, d)
}

/// KILL of CFG node `b`, as a predicate on definition values.
pub open spec fn node_kill(g: DiGraph<BasicBlock, ()>, b: int, d: DefV) -> bool {
    is_kill(graph_nodes(g)[b]@.name, graph_nodes(g)[b]@.instructions, d)
}

/// Whether the CFG has an edge from `p` to `b`.
pub open spec fn is_pred(g: DiGraph<BasicBlock, ()>, p: usize, b: usize) -> bool {
    graph_edges(g).contains((p, b))
}

/// Bit `k` of the merge of the predecessors' OUT rows of node `b`.
pub open spec fn merge_bit(
    g: DiGraph<BasicBlock, ()>,
    outs: Seq<Seq<bool>>,
    b: usize,
    k: int,
) -> bool {
    exists|p: usize| #[trigger] is_pred(g, p, b) && p < outs.len() && outs[p as int][k]
}

/// Whether `instr` is exactly the definition `d` makes.
fn exec_is_gen(bb: &BasicBlock, d: &Definition) -> (r: bool)
    ensures
        r == is_gen(bb@.name, bb@.instructions, d@),
{
    if d.instr_index >= bb.instructions.len() {
        return false;
    }
    if !(d.block == bb.name) {
        return false;
    }
    let defines_here = match get_dest(&bb.instructions[d.instr_index]) {
        Some(x) => *x == d.var,
        None => false,
    };
    if !defines_here {
        return false;
    }
    !defined_later(&bb.instructions, d.instr_index, &d.var)
}

fn exec_is_kill(bb: &BasicBlock, d: &Definition) -> (r: bool)
    ensures
        r == is_kill(bb@.name, bb@.instructions, d@),
{
    if d.instr_index >= bb.instructions.len() {
        return false;
    }
    if !(d.block == bb.name) {
        return false;
    }
    let defines_here = match get_dest(&bb.instructions[d.instr_index]) {
        Some(x) => *x == d.var,
        None => false,
    };
    if !defines_here {
        return false;
    }
    defined_later(&bb.instructions, d.instr_index, &d.var)
}

/// A structural copy of one definition, equal to the original.
fn copy_def(d: &Definition) -> (r: Definition)
    ensures
        r == *d,
{
    Definition { var: d.var.clone(), block: d.block.clone(), instr_index: d.instr_index }
}

/// The definitions whose bit is set, as values.
fn defs_from_bits(defs: &Vec<Definition>, bits: &Vec<bool>) -> (r: Vec<Definition>)
    requires
        bits@.len() == defs@.len(),
    ensures
        forall|d: DefV| r.deep_view().contains(d) <==> exists|k: int|
            0 <= k < defs@.len() && #[trigger] defs.deep_view()[k] == d && bits@[k],
{
    let m = defs.len();
    let mut r: Vec<Definition> = Vec::new();
    let mut k: usize = 0;
    while k < m
        invariant
            k <= m,
            m == defs.len(),
            bits@.len() == m,
            forall|d: DefV| r.deep_view().contains(d) <==> exists|j: int|
                0 <= j < k && #[trigger] defs.deep_view()[j] == d && bits@[j],
        decreases m - k,
    {
        let ghost old_r = r.deep_view();
        if bits[k] {
            r.push(copy_def(&defs[k]));
            proof {
                let dv = defs.deep_view()[k as int];
                assert(r.deep_view() =~= old_r.push(dv));
                assert forall|d: DefV| r.deep_view().contains(d) implies exists|j: int|
                    0 <= j < k + 1 && #[trigger] defs.deep_view()[j] == d && bits@[j] by {
                    lemma_push_contains(old_r, dv, d);
                    if d == dv {
                        assert(defs.deep_view()[k as int] == d && bits@[k as int]);
                    }
                }
                assert forall|d: DefV| #![trigger r.deep_view().contains(d)]
                    (exists|j: int| 0 <= j < k + 1 && #[trigger] defs.deep_view()[j] == d
                        && bits@[j]) implies r.deep_view().contains(d) by {
                    let j = choose|j: int|
                        0 <= j < k + 1 && #[trigger] defs.deep_view()[j] == d && bits@[j];
                    lemma_push_contains(old_r, dv, d);
                }
            }
        } else {
            proof {
                assert forall|d: DefV| #![trigger r.deep_view().contains(d)]
                    (exists|j: int| 0 <= j < k + 1 && #[trigger] defs.deep_view()[j] == d
                        && bits@[j]) implies r.deep_view().contains(d) by {
                    let j = choose|j: int|
                        0 <= j < k + 1 && #[trigger] defs.deep_view()[j] == d && bits@[j];
                    assert(j < k);
                }
            }
        }
        k += 1;
    }
    r
}

/// Per-node IN and OUT sets of reaching definitions.
pub struct ReachingDefintions {
    pub in_sets: Vec<Vec<Definition>>,
    pub out_sets: Vec<Vec<Definition>>,
}


/// The merge row of node `b`: bit `k` is set iff some predecessor's OUT row
/// has bit `k` set.
fn compute_merge(
    outs: &Vec<Vec<bool>>,
    preds: &Vec<usize>,
    m: usize,
    Ghost(g): Ghost<DiGraph<BasicBlock, ()>>,
    Ghost(b): Ghost<usize>,
) -> (r: Vec<bool>)
    requires
        forall|j: int| 0 <= j < preds@.len() ==> #[trigger] preds@[j] < outs@.len(),
        forall|p: usize| #[trigger] preds@.contains(p) <==> is_pred(g, p, b),
        forall|bb: int| 0 <= bb < outs@.len() ==> #[trigger] outs.deep_view()[bb].len() == m,
    ensures
        r@.len() == m,
        forall|k: int| 0 <= k < m ==> r@[k] == merge_bit(g, outs.deep_view(), b, k),
{
    broadcast use crate::sets::lemma_bool_row_view;

    let mut r: Vec<bool> = Vec::new();
    let mut k: usize = 0;
    while k < m
        invariant
            k <= m,
            r@.len() == k,
            forall|j: int| 0 <= j < preds@.len() ==> #[trigger] preds@[j] < outs@.len(),
            forall|p: usize| #[trigger] preds@.contains(p) <==> is_pred(g, p, b),
            forall|bb: int| 0 <= bb < outs@.len() ==> #[trigger] outs.deep_view()[bb].len() == m,
            forall|j: int| 0 <= j < k ==> r@[j] == merge_bit(g, outs.deep_view(), b, j),
        decreases m - k,
    {
        let np = preds.len();
        let mut t: usize = 0;
        let mut found = false;
        while t < np
            invariant
                t <= np,
                np == preds@.len(),
                k < m,
                forall|j: int| 0 <= j < preds@.len() ==> #[trigger] preds@[j] < outs@.len(),
                forall|p: usize| #[trigger] preds@.contains(p) <==> is_pred(g, p, b),
                forall|bb: int| 0 <= bb < outs@.len() ==> #[trigger] outs.deep_view()[bb].len()
                    == m,
                found ==> merge_bit(g, outs.deep_view(), b, k as int),
                !found ==> forall|j: int|
                    0 <= j < t ==> !outs.deep_view()[#[trigger] preds@[j] as int][k as int],
            decreases np - t,
        {
            let p = preds[t];
            proof {
                assert(outs.deep_view()[p as int].len() == m);
                assert(outs.deep_view()[p as int] == outs@[p as int]@);
            }
            if outs[p][k] {
                proof {
                    assert(preds@.contains(p)) by {
                        assert(preds@[t as int] == p);
                    }
                    assert(is_pred(g, p, b) && p < outs.deep_view().len()
                        && outs.deep_view()[p as int][k as int]);
                }
                found = true;
            }
            t += 1;
        }
        if !found {
            proof {
                assert forall|p: usize|
                    !(#[trigger] is_pred(g, p, b) && p < outs.deep_view().len()
                        && outs.deep_view()[p as int][k as int]) by {
                    if is_pred(g, p, b) {
                        assert(preds@.contains(p));
                        let j = choose|j: int| 0 <= j < preds@.len() && preds@[j] == p;
                        assert(!outs.deep_view()[preds@[j] as int][k as int]);
                    }
                }
            }
        }
        r.push(found);
        k += 1;
    }
    r
}

/// The transfer of one node: OUT = GEN or (IN minus KILL), bit by bit.
fn compute_transfer(gen_r: &Vec<bool>, kill_r: &Vec<bool>, in_r: &Vec<bool>, m: usize) -> (r: Vec<
    bool,
>)
    requires
        gen_r@.len() == m,
        kill_r@.len() == m,
        in_r@.len() == m,
    ensures
        r@.len() == m,
        forall|k: int| 0 <= k < m ==> r@[k] == (gen_r@[k] || (in_r@[k] && !kill_r@[k])),
{
    let mut r: Vec<bool> = Vec::new();
    let mut k: usize = 0;
    while k < m
        invariant
            k <= m,
            r@.len() == k,
            gen_r@.len() == m,
            kill_r@.len() == m,
            in_r@.len() == m,
            forall|j: int| 0 <= j < k ==> r@[j] == (gen_r@[j] || (in_r@[j] && !kill_r@[j])),
        decreases m - k,
    {
        r.push(gen_r[k] || (in_r[k] && !kill_r[k]));
        k += 1;
    }
    r
}


/// Reaching definitions over the CFG, by the worklist fixed point: OUT[b]
/// starts at GEN[b], the worklist starts with every node, and popping a node
/// recomputes IN as the union of its predecessors' OUT sets and OUT through
/// the transfer function, re-enqueueing successors when OUT changed. The
/// recorded sets form a fixed point of the dataflow equations: every node's
/// OUT is exactly GEN plus (IN minus KILL), and every node's IN is exactly
/// the union of its predecessors' OUT sets.
pub fn reaching_definitions(cfg: &DiGraph<BasicBlock, ()>) -> (r: ReachingDefintions)
    requires
        graph_wf(*cfg),
    ensures
        r.in_sets@.len() == graph_nodes(*cfg).len(),
        r.out_sets@.len() == graph_nodes(*cfg).len(),
        forall|b: int, d: DefV|
            0 <= b < graph_nodes(*cfg).len() ==> ((#[trigger] r.out_sets.deep_view()[b].contains(
                d,
            )) <==> (node_gen(*cfg, b, d) || (r.in_sets.deep_view()[b].contains(d) && !node_kill(
                *cfg,
                b,
                d,
            )))),
        forall|b: int, d: DefV|
            0 <= b < graph_nodes(*cfg).len() ==> ((#[trigger] r.in_sets.deep_view()[b].contains(d))
                <==> exists|p: usize|
                #[trigger] is_pred(*cfg, p, b as usize) && p < graph_nodes(*cfg).len()
                    && r.out_sets.deep_view()[p as int].contains(d)),
{
    broadcast use crate::sets::lemma_bool_row_view;

    let ghost g = *cfg;
    let n = crate::graph::graph_node_count(cfg);

    let mut nodesv: Vec<BasicBlock> = Vec::new();
    let mut b: usize = 0;
    while b < n
        invariant
            b <= n,
            n == graph_nodes(g).len(),
            g == *cfg,
            nodesv@.len() == b,
            forall|j: int| 0 <= j < b ==> #[trigger] nodesv@[j] == graph_nodes(g)[j],
        decreases n - b,
    {
        nodesv.push(crate::graph::graph_node(cfg, b));
        b += 1;
    }

    let mut defs: Vec<Definition> = Vec::new();
    let mut b: usize = 0;
    while b < n
        invariant
            b <= n,
            n == graph_nodes(g).len(),
            g == *cfg,
            nodesv@.len() == n,
            forall|j: int| 0 <= j < n ==> #[trigger] nodesv@[j] == graph_nodes(g)[j],
            forall|bb: int, ii: int, d: DefV|
                0 <= bb < b && 0 <= ii < graph_nodes(g)[bb]@.instructions.len()
                    && #[trigger] def_value_at(g, bb, ii, d) ==> defs.deep_view().contains(d),
        decreases n - b,
    {
        let node = &nodesv[b];
        let len_i = node.instructions.len();
        proof {
            assert(node@ == graph_nodes(g)[b as int]@);
        }
        let mut ii: usize = 0;
        while ii < len_i
            invariant
                ii <= len_i,
                b < n,
                n == graph_nodes(g).len(),
                g == *cfg,
                nodesv@.len() == n,
                forall|j: int| 0 <= j < n ==> #[trigger] nodesv@[j] == graph_nodes(g)[j],
                node == &nodesv@[b as int],
                node@ == graph_nodes(g)[b as int]@,
                len_i == graph_nodes(g)[b as int]@.instructions.len(),
                forall|bb: int, jj: int, d: DefV|
                    0 <= bb < b && 0 <= jj < graph_nodes(g)[bb]@.instructions.len()
                        && #[trigger] def_value_at(g, bb, jj, d) ==> defs.deep_view().contains(d),
                forall|jj: int, d: DefV|
                    0 <= jj < ii && #[trigger] def_value_at(g, b as int, jj, d)
                        ==> defs.deep_view().contains(d),
            decreases len_i - ii,
        {
            let ghost old_defs = defs.deep_view();
            match get_dest(&node.instructions[ii]) {
                Some(dx) => {
                    let nd = Definition {
                        var: dx.clone(),
                        block: node.name.clone(),
                        instr_index: ii,
                    };
                    let ghost dv = nd@;
                    defs.push(nd);
                    proof {
                        assert(defs.deep_view() =~= old_defs.push(dv));
                        assert(def_value_at(g, b as int, ii as int, dv));
                        assert forall|jj: int, d: DefV|
                            0 <= jj < ii + 1 && #[trigger] def_value_at(g, b as int, jj, d)
                            implies defs.deep_view().contains(d) by {
                            lemma_push_contains(old_defs, dv, d);
                            if jj == ii {
                                assert(d == dv);
                            }
                        }
                        assert forall|bb: int, jj: int, d: DefV|
                            0 <= bb < b && 0 <= jj < graph_nodes(g)[bb]@.instructions.len()
                                && #[trigger] def_value_at(g, bb, jj, d)
                            implies defs.deep_view().contains(d) by {
                            lemma_push_contains(old_defs, dv, d);
                        }
                    }
                },
                None => {
                    proof {
                        assert forall|jj: int, d: DefV|
                            0 <= jj < ii + 1 && #[trigger] def_value_at(g, b as int, jj, d)
                            implies defs.deep_view().contains(d) by {
                            if jj == ii {
                                assert(dest_of(graph_nodes(g)[b as int]@.instructions[ii as int])
                                    is None);
                            }
                        }
                    }
                },
            }
            ii += 1;
        }
        b += 1;
    }
    let m = defs.len();

    let mut gen_bits: Vec<Vec<bool>> = Vec::new();
    let mut kill_bits: Vec<Vec<bool>> = Vec::new();
    let mut b: usize = 0;
    while b < n
        invariant
            b <= n,
            n == graph_nodes(g).len(),
            g == *cfg,
            m == defs@.len(),
            nodesv@.len() == n,
            forall|j: int| 0 <= j < n ==> #[trigger] nodesv@[j] == graph_nodes(g)[j],
            gen_bits@.len() == b,
            kill_bits@.len() == b,
            forall|bb: int| 0 <= bb < b ==> #[trigger] gen_bits.deep_view()[bb].len() == m,
            forall|bb: int| 0 <= bb < b ==> #[trigger] kill_bits.deep_view()[bb].len() == m,
            forall|bb: int, k: int|
                0 <= bb < b && 0 <= k < m ==> #[trigger] gen_bits.deep_view()[bb][k] == node_gen(
                    g,
                    bb,
                    defs.deep_view()[k],
                ),
            forall|bb: int, k: int|
                0 <= bb < b && 0 <= k < m ==> #[trigger] kill_bits.deep_view()[bb][k] == node_kill(
                    g,
                    bb,
                    defs.deep_view()[k],
                ),
        decreases n - b,
    {
        let ghost old_gb = gen_bits.deep_view();
        let ghost old_kb = kill_bits.deep_view();
        let node = &nodesv[b];
        proof {
            assert(node@ == graph_nodes(g)[b as int]@);
        }
        let mut grow: Vec<bool> = Vec::new();
        let mut krow: Vec<bool> = Vec::new();
        let mut k: usize = 0;
        while k < m
            invariant
                k <= m,
                m == defs@.len(),
                node@ == graph_nodes(g)[b as int]@,
                node == &nodesv@[b as int],
                b < n,
                nodesv@.len() == n,
                grow@.len() == k,
                krow@.len() == k,
                forall|j: int|
                    0 <= j < k ==> #[trigger] grow@[j] == node_gen(g, b as int, defs.deep_view()[j]),
                forall|j: int|
                    0 <= j < k ==> #[trigger] krow@[j] == node_kill(
                        g,
                        b as int,
                        defs.deep_view()[j],
                    ),
            decreases m - k,
        {
            grow.push(exec_is_gen(node, &defs[k]));
            krow.push(exec_is_kill(node, &defs[k]));
            k += 1;
        }
        gen_bits.push(grow);
        kill_bits.push(krow);
        proof {
            assert(gen_bits.deep_view() =~~= old_gb.push(gen_bits@[b as int].deep_view()));
            assert(kill_bits.deep_view() =~~= old_kb.push(kill_bits@[b as int].deep_view()));
        }
        b += 1;
    }

    let mut out_bits: Vec<Vec<bool>> = Vec::new();
    let mut in_bits: Vec<Vec<bool>> = Vec::new();
    let mut worklist: Vec<usize> = Vec::new();
    let mut b: usize = 0;
    while b < n
        invariant
            b <= n,
            n == graph_nodes(g).len(),
            m == defs@.len(),
            gen_bits@.len() == n,
            out_bits@.len() == b,
            in_bits@.len() == b,
            worklist@.len() == b,
            forall|bb: int| 0 <= bb < n ==> #[trigger] gen_bits.deep_view()[bb].len() == m,
            forall|bb: int|
                0 <= bb < b ==> #[trigger] out_bits.deep_view()[bb] == gen_bits.deep_view()[bb],
            forall|bb: int| 0 <= bb < b ==> #[trigger] in_bits.deep_view()[bb].len() == m,
            forall|bb: int, k: int|
                0 <= bb < b && 0 <= k < m ==> !(#[trigger] in_bits.deep_view()[bb][k]),
            forall|j: int| 0 <= j < b ==> #[trigger] worklist@[j] == j as usize,
        decreases n - b,
    {
        let ghost old_ob = out_bits.deep_view();
        let ghost old_ib = in_bits.deep_view();
        out_bits.push(crate::sets::copy_bools(&gen_bits[b]));
        in_bits.push(crate::sets::false_row(m));
        worklist.push(b);
        proof {
            assert(out_bits.deep_view() =~~= old_ob.push(out_bits@[b as int].deep_view()));
            assert(in_bits.deep_view() =~~= old_ib.push(in_bits@[b as int].deep_view()));
            assert(out_bits@[b as int]@ == gen_bits@[b as int]@);
            assert(out_bits.deep_view()[b as int] == gen_bits.deep_view()[b as int]);
        }
        b += 1;
    }

    proof {
        assert forall|bb: int| 0 <= bb < n implies #[trigger] worklist@.contains(bb as usize) by {
            assert(worklist@[bb] == bb as usize);
        }
    }

    while worklist.len() > 0
        invariant
            g == *cfg,
            graph_wf(g),
            n == graph_nodes(g).len(),
            m == defs@.len(),
            nodesv@.len() == n,
            forall|j: int| 0 <= j < n ==> #[trigger] nodesv@[j] == graph_nodes(g)[j],
            gen_bits@.len() == n,
            kill_bits@.len() == n,
            out_bits@.len() == n,
            in_bits@.len() == n,
            forall|bb: int| 0 <= bb < n ==> #[trigger] gen_bits.deep_view()[bb].len() == m,
            forall|bb: int| 0 <= bb < n ==> #[trigger] kill_bits.deep_view()[bb].len() == m,
            forall|bb: int| 0 <= bb < n ==> #[trigger] out_bits.deep_view()[bb].len() == m,
            forall|bb: int| 0 <= bb < n ==> #[trigger] in_bits.deep_view()[bb].len() == m,
            forall|bb: int, k: int|
                0 <= bb < n && 0 <= k < m ==> #[trigger] gen_bits.deep_view()[bb][k] == node_gen(
                    g,
                    bb,
                    defs.deep_view()[k],
                ),
            forall|bb: int, k: int|
                0 <= bb < n && 0 <= k < m ==> #[trigger] kill_bits.deep_view()[bb][k] == node_kill(
                    g,
                    bb,
                    defs.deep_view()[k],
                ),
            forall|j: int| 0 <= j < worklist@.len() ==> #[trigger] worklist@[j] < n,
            forall|j1: int, j2: int|
                0 <= j1 < j2 < worklist@.len() ==> #[trigger] worklist@[j1]
                    != #[trigger] worklist@[j2],
            forall|bb: int, k: int|
                0 <= bb < n && 0 <= k < m ==> #[trigger] out_bits.deep_view()[bb][k] == (
                gen_bits.deep_view()[bb][k] || (in_bits.deep_view()[bb][k]
                    && !kill_bits.deep_view()[bb][k])),
            forall|bb: int, k: int|
                0 <= bb < n && 0 <= k < m && #[trigger] out_bits.deep_view()[bb][k] ==> (
                gen_bits.deep_view()[bb][k] || (merge_bit(g, out_bits.deep_view(), bb as usize, k)
                    && !kill_bits.deep_view()[bb][k])),
            forall|bb: int, k: int|
                0 <= bb < n && !worklist@.contains(bb as usize) && 0 <= k < m
                    ==> #[trigger] in_bits.deep_view()[bb][k] == merge_bit(
                    g,
                    out_bits.deep_view(),
                    bb as usize,
                    k,
                ),
        decreases crate::sets::total_missing(out_bits.deep_view()), worklist@.len(),
    {
        let ghost old_outs = out_bits.deep_view();
        let ghost old_ins = in_bits.deep_view();
        let ghost old_wl = worklist@;
        let b = worklist.pop().unwrap();
        proof {
            assert(old_wl[old_wl.len() - 1] == b);
            assert(b < n);
            assert(!worklist@.contains(b)) by {
                if worklist@.contains(b) {
                    let j = choose|j: int| 0 <= j < worklist@.len() && worklist@[j] == b;
                    assert(old_wl[j] == b);
                }
            }
            assert forall|c: usize| c != b && old_wl.contains(c) implies worklist@.contains(
                c,
            ) by {
                let j = choose|j: int| 0 <= j < old_wl.len() && old_wl[j] == c;
                assert(worklist@[j] == c);
            }
            assert forall|c: usize| worklist@.contains(c) implies old_wl.contains(c) by {
                let j = choose|j: int| 0 <= j < worklist@.len() && worklist@[j] == c;
                assert(old_wl[j] == c);
            }
        }
        let preds = crate::graph::graph_preds(cfg, b);
        proof {
            assert forall|j: int| 0 <= j < preds@.len() implies #[trigger] preds@[j]
                < out_bits@.len() by {
                assert(preds@.contains(preds@[j]));
                assert(graph_edges(g).contains((preds@[j], b)));
                let e = choose|e: int|
                    0 <= e < graph_edges(g).len() && graph_edges(g)[e] == (preds@[j], b);
            }
        }
        let new_in = compute_merge(&out_bits, &preds, m, Ghost(g), Ghost(b));
        proof {
            assert(gen_bits.deep_view()[b as int] == gen_bits@[b as int]@);
            assert(kill_bits.deep_view()[b as int] == kill_bits@[b as int]@);
            assert(out_bits.deep_view()[b as int] == out_bits@[b as int]@);
            assert(in_bits.deep_view()[b as int] == in_bits@[b as int]@);
        }
        let new_out = compute_transfer(&gen_bits[b], &kill_bits[b], &new_in, m);
        let changed = !crate::sets::bools_eq(&new_out, &out_bits[b]);
        let ghost niv = new_in@;
        let ghost nov = new_out@;
        in_bits.set(b, new_in);
        out_bits.set(b, new_out);
        proof {
            assert(out_bits.deep_view() =~~= old_outs.update(b as int, nov));
            assert(in_bits.deep_view() =~~= old_ins.update(b as int, niv));
            crate::sets::lemma_total_missing_nonneg(old_outs);
            crate::sets::lemma_total_missing_nonneg(out_bits.deep_view());
            // the new OUT row only grows
            assert forall|k: int| 0 <= k < m && old_outs[b as int][k] implies nov[k] by {
                assert(merge_bit(g, old_outs, b, k) ==> niv[k]);
            }
            if changed {
                assert(exists|w: int| 0 <= w < m && nov[w] != old_outs[b as int][w]) by {
                    if forall|w: int| 0 <= w < m ==> nov[w] == old_outs[b as int][w] {
                        assert(nov =~= old_outs[b as int]);
                    }
                }
                let w = choose|w: int| 0 <= w < m && nov[w] != old_outs[b as int][w];
                crate::sets::lemma_count_true_lt(old_outs[b as int], nov, w);
                crate::sets::lemma_total_missing_update(old_outs, b as int, nov);
            } else {
                assert(out_bits.deep_view() =~~= old_outs);
            }
        }
        if changed {
            let succs = crate::graph::graph_succs(cfg, b);
            let ns = succs.len();
            let mut t: usize = 0;
            proof {
                assert forall|bb: int, k: int|
                    0 <= bb < n && !worklist@.contains(bb as usize) && !succs@.skip(
                        0,
                    ).contains(bb as usize) && 0 <= k < m implies #[trigger] in_bits.deep_view()[bb][k]
                        == merge_bit(g, out_bits.deep_view(), bb as usize, k) by {
                    assert(succs@.skip(0) =~= succs@);
                    assert(!succs@.contains(bb as usize));
                    let kk = k;
                    assert(merge_bit(g, out_bits.deep_view(), bb as usize, kk) == merge_bit(
                        g,
                        old_outs,
                        bb as usize,
                        kk,
                    )) by {
                        if merge_bit(g, out_bits.deep_view(), bb as usize, kk) {
                            let p = choose|p: usize|
                                #[trigger] is_pred(g, p, bb as usize) && p
                                    < out_bits.deep_view().len()
                                    && out_bits.deep_view()[p as int][kk];
                            if p == b {
                                assert(graph_edges(g).contains((b, bb as usize)));
                                assert(succs@.contains(bb as usize));
                            } else {
                                assert(old_outs[p as int] == out_bits.deep_view()[p as int]);
                                assert(is_pred(g, p, bb as usize) && p < old_outs.len()
                                    && old_outs[p as int][kk]);
                            }
                        }
                        if merge_bit(g, old_outs, bb as usize, kk) {
                            let p = choose|p: usize|
                                #[trigger] is_pred(g, p, bb as usize) && p < old_outs.len()
                                    && old_outs[p as int][kk];
                            if p == b {
                                assert(graph_edges(g).contains((b, bb as usize)));
                                assert(succs@.contains(bb as usize));
                            } else {
                                assert(is_pred(g, p, bb as usize) && p
                                    < out_bits.deep_view().len()
                                    && out_bits.deep_view()[p as int][kk]);
                            }
                        }
                    }
                    if bb as usize == b {
                        assert(in_bits.deep_view()[bb] == niv);
                    } else {
                        assert(!old_wl.contains(bb as usize));
                        assert(in_bits.deep_view()[bb] == old_ins[bb]);
                    }
                }
            }
            while t < ns
                invariant
                    t <= ns,
                    ns == succs@.len(),
                    g == *cfg,
                    graph_wf(g),
                    n == graph_nodes(g).len(),
                    m == defs@.len(),
                    b < n,
                    out_bits@.len() == n,
                    in_bits@.len() == n,
                    forall|u: usize| #[trigger] succs@.contains(u) <==> graph_edges(g).contains(
                        (b, u),
                    ),
                    forall|bb: int| 0 <= bb < n ==> #[trigger] out_bits.deep_view()[bb].len() == m,
                    forall|bb: int| 0 <= bb < n ==> #[trigger] in_bits.deep_view()[bb].len() == m,
                    forall|j: int| 0 <= j < worklist@.len() ==> #[trigger] worklist@[j] < n,
                    forall|j1: int, j2: int|
                        0 <= j1 < j2 < worklist@.len() ==> #[trigger] worklist@[j1]
                            != #[trigger] worklist@[j2],
                    forall|bb: int, k: int|
                        0 <= bb < n && !worklist@.contains(bb as usize) && !succs@.skip(
                            t as int,
                        ).contains(bb as usize) && 0 <= k < m ==> #[trigger] in_bits.deep_view()[bb][k]
                            == merge_bit(g, out_bits.deep_view(), bb as usize, k),
                decreases ns - t,
            {
                let ghost wl_before = worklist@;
                let sc = succs[t];
                proof {
                    assert(succs@.contains(sc));
                    assert(graph_edges(g).contains((b, sc)));
                    let e = choose|e: int|
                        0 <= e < graph_edges(g).len() && graph_edges(g)[e] == (b, sc);
                    assert(sc < n);
                }
                if !crate::sets::usize_vec_contains(&worklist, sc) {
                    worklist.push(sc);
                    proof {
                        assert forall|c: usize| #[trigger] worklist@.contains(c) implies (
                        wl_before.contains(c) || c == sc) by {
                            let j = choose|j: int|
                                0 <= j < worklist@.len() && worklist@[j] == c;
                            if j < wl_before.len() {
                                assert(wl_before[j] == c);
                            }
                        }
                        assert forall|c: usize| wl_before.contains(c) implies
                            #[trigger] worklist@.contains(c) by {
                            let j = choose|j: int|
                                0 <= j < wl_before.len() && wl_before[j] == c;
                            assert(worklist@[j] == c);
                        }
                        assert(worklist@.contains(sc)) by {
                            assert(worklist@[worklist@.len() - 1] == sc);
                        }
                    }
                }
                proof {
                    assert(succs@.skip(t as int).first() == succs@[t as int]);
                    assert(succs@.skip(t as int).drop_first() =~= succs@.skip(t as int + 1));
                    assert(worklist@.contains(sc) || wl_before.contains(sc));
                    assert forall|bb: int, k: int|
                        0 <= bb < n && !worklist@.contains(bb as usize) && !succs@.skip(
                            t as int + 1,
                        ).contains(bb as usize) && 0 <= k < m implies
                        #[trigger] in_bits.deep_view()[bb][k] == merge_bit(
                            g,
                            out_bits.deep_view(),
                            bb as usize,
                            k,
                        ) by {
                        if bb as usize != sc {
                            assert(!succs@.skip(t as int).contains(bb as usize)) by {
                                if succs@.skip(t as int).contains(bb as usize) {
                                    let j = choose|j: int|
                                        0 <= j < succs@.skip(t as int).len() && succs@.skip(
                                            t as int,
                                        )[j] == bb as usize;
                                    if j == 0 {
                                        assert(succs@[t as int] == bb as usize);
                                    } else {
                                        assert(succs@.skip(t as int + 1)[j - 1] == bb as usize);
                                    }
                                }
                            }
                        } else {
                            assert(worklist@.contains(sc));
                        }
                    }
                }
                t += 1;
            }
            proof {
                assert forall|bb: int, k: int|
                    0 <= bb < n && !worklist@.contains(bb as usize) && 0 <= k < m implies
                    #[trigger] in_bits.deep_view()[bb][k] == merge_bit(
                        g,
                        out_bits.deep_view(),
                        bb as usize,
                        k,
                    ) by {
                    assert(!succs@.skip(ns as int).contains(bb as usize));
                }
            }
        } else {
            proof {
                assert forall|bb: int, k: int|
                    0 <= bb < n && !worklist@.contains(bb as usize) && 0 <= k < m implies
                    #[trigger] in_bits.deep_view()[bb][k] == merge_bit(
                        g,
                        out_bits.deep_view(),
                        bb as usize,
                        k,
                    ) by {
                    assert(out_bits.deep_view() == old_outs);
                    if bb as usize == b {
                        assert(in_bits.deep_view()[bb] == niv);
                    } else {
                        assert(!old_wl.contains(bb as usize));
                        assert(in_bits.deep_view()[bb] == old_ins[bb]);
                    }
                }
            }
        }
        proof {
            // re-establish transfer and growth for the updated node
            assert(in_bits.deep_view()[b as int] == niv);
            assert(out_bits.deep_view()[b as int] == nov);
        }
    }

    // convert the bit rows back to definition sets
    let mut in_sets: Vec<Vec<Definition>> = Vec::new();
    let mut out_sets: Vec<Vec<Definition>> = Vec::new();
    let mut b: usize = 0;
    while b < n
        invariant
            b <= n,
            n == graph_nodes(g).len(),
            m == defs@.len(),
            in_bits@.len() == n,
            out_bits@.len() == n,
            forall|bb: int| 0 <= bb < n ==> #[trigger] out_bits.deep_view()[bb].len() == m,
            forall|bb: int| 0 <= bb < n ==> #[trigger] in_bits.deep_view()[bb].len() == m,
            in_sets@.len() == b,
            out_sets@.len() == b,
            forall|bb: int, d: DefV|
                0 <= bb < b ==> ((#[trigger] in_sets.deep_view()[bb].contains(d)) <==> exists|
                    k: int,
                |
                    0 <= k < m && #[trigger] defs.deep_view()[k] == d && in_bits.deep_view()[bb][k]),
            forall|bb: int, d: DefV|
                0 <= bb < b ==> ((#[trigger] out_sets.deep_view()[bb].contains(d)) <==> exists|
                    k: int,
                |
                    0 <= k < m && #[trigger] defs.deep_view()[k] == d && out_bits.deep_view()[bb][k]),
        decreases n - b,
    {
        let ghost old_is = in_sets.deep_view();
        let ghost old_os = out_sets.deep_view();
        proof {
            assert(in_bits.deep_view()[b as int] == in_bits@[b as int]@);
            assert(out_bits.deep_view()[b as int] == out_bits@[b as int]@);
        }
        in_sets.push(defs_from_bits(&defs, &in_bits[b]));
        out_sets.push(defs_from_bits(&defs, &out_bits[b]));
        proof {
            assert(in_sets.deep_view() =~~= old_is.push(in_sets@[b as int].deep_view()));
            assert(out_sets.deep_view() =~~= old_os.push(out_sets@[b as int].deep_view()));
        }
        b += 1;
    }

    let result = ReachingDefintions { in_sets, out_sets };
    proof {
        assert forall|bb: int, d: DefV|
            0 <= bb < n implies ((#[trigger] result.out_sets.deep_view()[bb].contains(d)) <==> (
        node_gen(g, bb, d) || (result.in_sets.deep_view()[bb].contains(d) && !node_kill(
            g,
            bb,
            d,
        )))) by {
            if result.out_sets.deep_view()[bb].contains(d) {
                let k = choose|k: int|
                    0 <= k < m && #[trigger] defs.deep_view()[k] == d
                        && out_bits.deep_view()[bb][k];
                if gen_bits.deep_view()[bb][k] {
                    assert(node_gen(g, bb, d));
                } else {
                    assert(in_bits.deep_view()[bb][k] && !kill_bits.deep_view()[bb][k]);
                }
            }
            if node_gen(g, bb, d) {
                assert(def_value_at(g, bb, d.instr_index as int, d));
                assert(defs.deep_view().contains(d));
                let k = choose|k: int|
                    0 <= k < defs.deep_view().len() && defs.deep_view()[k] == d;
                assert(gen_bits.deep_view()[bb][k]);
                assert(out_bits.deep_view()[bb][k]);
                assert(defs.deep_view()[k] == d && out_bits.deep_view()[bb][k]);
            }
            if result.in_sets.deep_view()[bb].contains(d) && !node_kill(g, bb, d) {
                let k = choose|k: int|
                    0 <= k < m && #[trigger] defs.deep_view()[k] == d && in_bits.deep_view()[bb][k];
                assert(!kill_bits.deep_view()[bb][k]);
                assert(out_bits.deep_view()[bb][k]);
            }
        }
        assert forall|bb: int, d: DefV|
            0 <= bb < n implies ((#[trigger] result.in_sets.deep_view()[bb].contains(d)) <==>
        exists|p: usize|
            #[trigger] is_pred(g, p, bb as usize) && p < n
                && result.out_sets.deep_view()[p as int].contains(d)) by {
            assert(!worklist@.contains(bb as usize));
            if result.in_sets.deep_view()[bb].contains(d) {
                let k = choose|k: int|
                    0 <= k < m && #[trigger] defs.deep_view()[k] == d && in_bits.deep_view()[bb][k];
                assert(merge_bit(g, out_bits.deep_view(), bb as usize, k));
                let p = choose|p: usize|
                    #[trigger] is_pred(g, p, bb as usize) && p < out_bits.deep_view().len()
                        && out_bits.deep_view()[p as int][k];
                assert(result.out_sets.deep_view()[p as int].contains(d)) by {
                    assert(defs.deep_view()[k] == d && out_bits.deep_view()[p as int][k]);
                }
            }
            if exists|p: usize|
                #[trigger] is_pred(g, p, bb as usize) && p < n
                    && result.out_sets.deep_view()[p as int].contains(d) {
                let p = choose|p: usize|
                    #[trigger] is_pred(g, p, bb as usize) && p < n
                        && result.out_sets.deep_view()[p as int].contains(d);
                let k = choose|k: int|
                    0 <= k < m && #[trigger] defs.deep_view()[k] == d
                        && out_bits.deep_view()[p as int][k];
                assert(merge_bit(g, out_bits.deep_view(), bb as usize, k)) by {
                    assert(is_pred(g, p, bb as usize) && p < out_bits.deep_view().len()
                        && out_bits.deep_view()[p as int][k]);
                }
                assert(in_bits.deep_view()[bb][k]);
            }
        }
    }
    result
}

/// Direction of a dataflow problem.
pub enum GDirection {
    Forward,
    Backward,
}

/// The shape of a dataflow problem for this CFG, for callers to instantiate:
/// a domain, a direction, a bottom element, a merge over neighbouring sets
/// and a per-block transfer function.
pub trait AbstractDataflow {
    type Domain: Clone + PartialEq + Eq + Hash;

    fn direction() -> GDirection;

    /// Bottom element - the initial/empty value.
    fn bottom() -> HashSet<Self::Domain>;

    /// Combine predecessor or successor sets, depending on direction.
    fn merge(in_sets: Vec<HashSet<Self::Domain>>) -> HashSet<Self::Domain>;

    /// Move one set through a block, as GEN/KILL do for reaching definitions.
    fn transfer(block: &BasicBlock, in_set: HashSet<Self::Domain>) -> HashSet<Self::Domain>;
}

} // verus!
