//! Basic-block segmentation and control-flow-graph construction: a function's
//! instruction sequence is split into maximal terminator-delimited blocks,
//! the blocks are named, and a directed petgraph graph is built whose edges
//! follow each block's terminator.

use vstd::prelude::*;
use vstd::string::StringExecFns;

use petgraph::graph::DiGraph;

use crate::graph::{
    graph_add_edge, graph_add_node, graph_edges, graph_nodes, graph_wf, new_digraph,
};
use crate::types::{is_terminator_spec, Function, Instruction, InstrV};

verus! {

/// The decimal digit character for `n`.
pub open spec fn dec_digit(n: int) -> char {
    if n == 0 {
        '0'
    } else if n == 1 {
        '1'
    } else if n == 2 {
        '2'
    } else if n == 3 {
        '3'
    } else if n == 4 {
        '4'
    } else if n == 5 {
        '5'
    } else if n == 6 {
        '6'
    } else if n == 7 {
        '7'
    } else if n == 8 {
        '8'
    } else {
        '9'
    }
}

/// The decimal rendering of a non-negative number.
pub open spec fn dec_str(n: int) -> Seq<char>
    decreases n,
{
    if n < 10 {
        seq![dec_digit(n)]
    } else {
        dec_str(n / 10).push(dec_digit(n % 10))
    }
}

/// The positional fallback name of block `i`.
pub open spec fn positional_name(i: int) -> Seq<char> {
    seq!['b', 'l', 'o', 'c', 'k'] + dec_str(i)
}

/// Append one decimal digit to `s`.
fn append_digit(s: &mut String, d: usize)
    requires
        d < 10,
    ensures
        final(s)@ == old(s)@ + seq![dec_digit(d as int)],
{
    if d == 0 {
        s.append("0");
        proof {
            reveal_strlit("0");
            assert(old(s)@ + "0"@ =~= old(s)@ + seq![dec_digit(0)]);
        }
    } else if d == 1 {
        s.append("1");
        proof {
            reveal_strlit("1");
            assert(old(s)@ + "1"@ =~= old(s)@ + seq![dec_digit(1)]);
        }
    } else if d == 2 {
        s.append("2");
        proof {
            reveal_strlit("2");
            assert(old(s)@ + "2"@ =~= old(s)@ + seq![dec_digit(2)]);
        }
    } else if d == 3 {
        s.append("3");
        proof {
            reveal_strlit("3");
            assert(old(s)@ + "3"@ =~= old(s)@ + seq![dec_digit(3)]);
        }
    } else if d == 4 {
        s.append("4");
        proof {
            reveal_strlit("4");
            assert(old(s)@ + "4"@ =~= old(s)@ + seq![dec_digit(4)]);
        }
    } else if d == 5 {
        s.append("5");
        proof {
            reveal_strlit("5");
            assert(old(s)@ + "5"@ =~= old(s)@ + seq![dec_digit(5)]);
        }
    } else if d == 6 {
        s.append("6");
        proof {
            reveal_strlit("6");
            assert(old(s)@ + "6"@ =~= old(s)@ + seq![dec_digit(6)]);
        }
    } else if d == 7 {
        s.append("7");
        proof {
            reveal_strlit("7");
            assert(old(s)@ + "7"@ =~= old(s)@ + seq![dec_digit(7)]);
        }
    } else if d == 8 {
        s.append("8");
        proof {
            reveal_strlit("8");
            assert(old(s)@ + "8"@ =~= old(s)@ + seq![dec_digit(8)]);
        }
    } else {
        s.append("9");
        proof {
            reveal_strlit("9");
            assert(old(s)@ + "9"@ =~= old(s)@ + seq![dec_digit(9)]);
        }
    }
}

/// Append the decimal rendering of `n` to `s`.
fn append_dec(s: &mut String, n: usize)
    ensures
        final(s)@ == old(s)@ + dec_str(n as int),
    decreases n,
{
    if n < 10 {
        append_digit(s, n);
    } else {
        append_dec(s, n / 10);
        append_digit(s, n % 10);
        proof {
            assert(old(s)@ + dec_str(n as int / 10) + seq![dec_digit(n as int % 10)] =~= old(s)@
                + dec_str(n as int));
        }
    }
}

/// The positional name `block{i}`.
fn block_label(i: usize) -> (r: String)
    ensures
        r@ == positional_name(i as int),
{
    let mut s = String::new();
    s.append("block");
    proof {
        reveal_strlit("block");
        assert(Seq::<char>::empty() + "block"@ =~= "block"@);
    }
    append_dec(&mut s, i);
    proof {
        reveal_strlit("block");
        assert("block"@ =~= seq!['b', 'l', 'o', 'c', 'k']);
        assert(s@ =~= positional_name(i as int));
    }
    s
}

/// Whether an instruction ends a basic block.
pub fn is_terminator(i: &Instruction) -> (r: bool)
    ensures
        r == is_terminator_spec(i@),
{
    matches!(i, Instruction::Br { .. } | Instruction::Jmp { .. } | Instruction::Ret { .. })
}

/// Concatenation of a sequence of blocks back into one instruction sequence.
pub open spec fn flat(bs: Seq<Seq<InstrV>>) -> Seq<InstrV>
    decreases bs.len(),
{
    if bs.len() == 0 {
        seq![]
    } else {
        flat(bs.drop_last()) + bs.last()
    }
}

proof fn lemma_flat_push(bs: Seq<Seq<InstrV>>, b: Seq<InstrV>)
    ensures
        flat(bs.push(b)) == flat(bs) + b,
{
    assert(bs.push(b).drop_last() =~= bs);
    assert(bs.push(b).last() == b);
}

/// Split a function's instruction sequence into maximal basic blocks: a
/// terminator closes the current block, and any non-empty remainder becomes
/// a final block. The four clauses pin the partition uniquely: the blocks
/// concatenate back to the input, every block is non-empty, no block holds a
/// terminator before its last instruction, and every block but the last ends
/// with a terminator.
pub fn build_blocks(f: &Function) -> (r: Vec<Vec<Instruction>>)
    ensures
        flat(r.deep_view()) == f.instr.deep_view(),
        forall|b: int| 0 <= b < r.deep_view().len() ==> #[trigger] r.deep_view()[b].len() > 0,
        forall|b: int, j: int|
            0 <= b < r.deep_view().len() && 0 <= j < #[trigger] r.deep_view()[b].len() - 1
                ==> !is_terminator_spec(#[trigger] r.deep_view()[b][j]),
        forall|b: int|
            0 <= b < r.deep_view().len() - 1 ==> is_terminator_spec(
                #[trigger] r.deep_view()[b].last(),
            ),
{
    let ghost fv = f.instr.deep_view();
    let mut blocks: Vec<Vec<Instruction>> = Vec::new();
    let mut current: Vec<Instruction> = Vec::new();
    let n = f.instr.len();
    let mut i: usize = 0;
    proof {
        assert(flat(blocks.deep_view()) + current.deep_view() =~= fv.subrange(0, 0));
    }
    while i < n
        invariant
            i <= n,
            n == f.instr.len(),
            fv == f.instr.deep_view(),
            flat(blocks.deep_view()) + current.deep_view() == fv.subrange(0, i as int),
            forall|b: int|
                0 <= b < blocks.deep_view().len() ==> #[trigger] blocks.deep_view()[b].len() > 0,
            forall|b: int, j: int|
                0 <= b < blocks.deep_view().len() && 0 <= j < #[trigger] blocks.deep_view()[b].len()
                    - 1 ==> !is_terminator_spec(#[trigger] blocks.deep_view()[b][j]),
            forall|b: int|
                0 <= b < blocks.deep_view().len() ==> is_terminator_spec(
                    #[trigger] blocks.deep_view()[b].last(),
                ),
            forall|j: int|
                0 <= j < current.deep_view().len() ==> !is_terminator_spec(
                    #[trigger] current.deep_view()[j],
                ),
        decreases n - i,
    {
        let ghost old_blocks = blocks.deep_view();
        let ghost old_current = current.deep_view();
        let instru = &f.instr[i];
        proof {
            assert(instru@ == fv[i as int]);
        }
        current.push(crate::lvn::copy_instr(instru));
        proof {
            assert(current.deep_view() =~= old_current.push(fv[i as int]));
        }
        if is_terminator(instru) {
            blocks.push(current);
            current = Vec::new();
            proof {
                let b_new = old_current.push(fv[i as int]);
                assert(blocks.deep_view() =~~= old_blocks.push(b_new));
                lemma_flat_push(old_blocks, b_new);
                assert(flat(blocks.deep_view()) == flat(old_blocks) + b_new);
                assert(current.deep_view() =~= Seq::<InstrV>::empty());
                assert(flat(old_blocks) + old_current == fv.subrange(0, i as int));
                assert(flat(old_blocks) + b_new =~= (flat(old_blocks) + old_current).push(
                    fv[i as int],
                ));
                assert(fv.subrange(0, i as int).push(fv[i as int]) =~= fv.subrange(
                    0,
                    i as int + 1,
                ));
                assert((flat(old_blocks) + b_new) + current.deep_view() =~= flat(old_blocks)
                    + b_new);
            }
        } else {
            proof {
                assert(flat(blocks.deep_view()) + old_current == fv.subrange(0, i as int));
                assert(flat(blocks.deep_view()) + old_current.push(fv[i as int]) =~= (flat(
                    blocks.deep_view(),
                ) + old_current).push(fv[i as int]));
                assert(fv.subrange(0, i as int).push(fv[i as int]) =~= fv.subrange(
                    0,
                    i as int + 1,
                ));
            }
        }
        i += 1;
    }
    proof {
        assert(fv.subrange(0, n as int) =~= fv);
    }
    if current.len() > 0 {
        let ghost old_blocks = blocks.deep_view();
        let ghost old_current = current.deep_view();
        blocks.push(current);
        proof {
            assert(blocks.deep_view() =~= old_blocks.push(old_current));
            lemma_flat_push(old_blocks, old_current);
        }
    }
    blocks
}


/// One CFG node: a named basic block.
#[derive(Clone, Debug)]
pub struct BasicBlock {
    pub name: String,
    pub instructions: Vec<Instruction>,
}

/// Spec-level mirror of a basic block.
pub struct BasicBlockV {
    pub name: Seq<char>,
    pub instructions: Seq<InstrV>,
}

impl View for BasicBlock {
    type V = BasicBlockV;

    open spec fn view(&self) -> BasicBlockV {
        BasicBlockV { name: self.name@, instructions: self.instructions.deep_view() }
    }
}

impl DeepView for BasicBlock {
    type V = BasicBlockV;

    open spec fn deep_view(&self) -> BasicBlockV {
        self.view()
    }
}


/// The name of block `i`: block 0 is always `block0`; any other block takes
/// the label of its first instruction if that is a `Label`, else the
/// positional fallback.
pub open spec fn spec_block_name(i: int, b: Seq<InstrV>) -> Seq<char> {
    if i == 0 {
        positional_name(0)
    } else {
        match b[0] {
            InstrV::Label { label } => label,
            _ => positional_name(i),
        }
    }
}

/// The block index a name resolves to among the first `n` blocks; a later
/// block with the same name shadows an earlier one.
pub open spec fn resolve_upto(bs: Seq<Seq<InstrV>>, n: int, name: Seq<char>) -> Option<usize>
    decreases n,
{
    if n <= 0 {
        None
    } else if spec_block_name(n - 1, bs[n - 1]) == name {
        Some((n - 1) as usize)
    } else {
        resolve_upto(bs, n - 1, name)
    }
}

/// The block index a name resolves to, if any.
pub open spec fn resolve_name(bs: Seq<Seq<InstrV>>, name: Seq<char>) -> Option<usize> {
    resolve_upto(bs, bs.len() as int, name)
}

/// The successor names block `i` asks for: `Jmp` one, `Br` then/else in that
/// order, `Ret` none, anything else the positional name of the next block.
pub open spec fn succ_names(bs: Seq<Seq<InstrV>>, i: int) -> Seq<Seq<char>> {
    match bs[i].last() {
        InstrV::Jmp { label } => seq![label],
        InstrV::Br { then_label, else_label, .. } => seq![then_label, else_label],
        InstrV::Ret { .. } => seq![],
        _ => if i + 1 < bs.len() {
            seq![positional_name(i + 1)]
        } else {
            seq![]
        },
    }
}

/// The edges block `from` contributes: each requested name that resolves
/// becomes one edge, in order; an unresolvable name is silently dropped.
pub open spec fn resolve_targets(
    bs: Seq<Seq<InstrV>>,
    from: usize,
    names: Seq<Seq<char>>,
) -> Seq<(usize, usize)>
    decreases names.len(),
{
    if names.len() == 0 {
        seq![]
    } else {
        let rest = resolve_targets(bs, from, names.drop_first());
        match resolve_name(bs, names.first()) {
            Some(t) => seq![(from, t)] + rest,
            None => rest,
        }
    }
}

/// The edges contributed by the first `n` blocks, in insertion order.
pub open spec fn cfg_edges_upto(bs: Seq<Seq<InstrV>>, n: int) -> Seq<(usize, usize)>
    decreases n,
{
    if n <= 0 {
        seq![]
    } else {
        cfg_edges_upto(bs, n - 1) + resolve_targets(bs, (n - 1) as usize, succ_names(bs, n - 1))
    }
}

/// Every edge of the CFG built over `bs`.
pub open spec fn cfg_edges_spec(bs: Seq<Seq<InstrV>>) -> Seq<(usize, usize)> {
    cfg_edges_upto(bs, bs.len() as int)
}

proof fn lemma_resolve_bound(bs: Seq<Seq<InstrV>>, n: int, name: Seq<char>)
    requires
        0 <= n,
    ensures
        resolve_upto(bs, n, name) matches Some(j) ==> j < n,
    decreases n,
{
    if n > 0 {
        lemma_resolve_bound(bs, n - 1, name);
    }
}

/// The name table built block by block answers exactly as name resolution
/// over the blocks does.
proof fn lemma_names_assoc(
    bs: Seq<Seq<InstrV>>,
    names: Seq<(Seq<char>, usize)>,
    name: Seq<char>,
)
    requires
        forall|j: int|
            0 <= j < names.len() ==> #[trigger] names[j] == (spec_block_name(j, bs[j]), j as usize),
    ensures
        crate::lvn::assoc(names, name) == resolve_upto(bs, names.len() as int, name),
    decreases names.len(),
{
    if names.len() > 0 {
        let m = names.drop_last();
        assert(forall|j: int|
            0 <= j < m.len() ==> #[trigger] m[j] == (spec_block_name(j, bs[j]), j as usize));
        lemma_names_assoc(bs, m, name);
    }
}

/// The name of block `i`, read from its first instruction.
pub fn get_block_name(i: usize, block: &Vec<Instruction>) -> (r: String)
    requires
        i == 0 || block.len() > 0,
    ensures
        r@ == spec_block_name(i as int, block.deep_view()),
{
    if i == 0 {
        block_label(0)
    } else {
        match &block[0] {
            Instruction::Label { label } => label.clone(),
            _ => block_label(i),
        }
    }
}

/// Build the CFG for a block sequence: one node per block, named as
/// `spec_block_name` says, and one edge per resolvable successor name, in
/// order. Edges whose target name resolves to no block are dropped silently.
pub fn build_cfg(blocks: &Vec<Vec<Instruction>>) -> (g: DiGraph<BasicBlock, ()>)
    requires
        forall|b: int|
            0 <= b < blocks.deep_view().len() ==> #[trigger] blocks.deep_view()[b].len() > 0,
        blocks@.len() < 0x4000_0000,
    ensures
        graph_nodes(g).len() == blocks.deep_view().len(),
        forall|i: int|
            0 <= i < blocks.deep_view().len() ==> (#[trigger] graph_nodes(g)[i])@.name
                == spec_block_name(i, blocks.deep_view()[i]) && graph_nodes(g)[i]@.instructions
                == blocks.deep_view()[i],
        graph_edges(g) == cfg_edges_spec(blocks.deep_view()),
        graph_wf(g),
{
    let ghost bs = blocks.deep_view();
    let mut graph = new_digraph();
    let mut names: Vec<(String, usize)> = Vec::new();
    let nb = blocks.len();
    let mut i: usize = 0;
    proof {
        assert(bs.len() == blocks@.len());
    }
    while i < nb
        invariant
            i <= nb,
            nb == blocks.len(),
            nb < 0x4000_0000,
            bs == blocks.deep_view(),
            forall|b: int| 0 <= b < bs.len() ==> #[trigger] bs[b].len() > 0,
            graph_nodes(graph).len() == i,
            graph_edges(graph).len() == 0,
            forall|j: int|
                0 <= j < i ==> (#[trigger] graph_nodes(graph)[j])@.name == spec_block_name(
                    j,
                    bs[j],
                ) && graph_nodes(graph)[j]@.instructions == bs[j],
            names@.len() == i,
            forall|j: int|
                0 <= j < i ==> #[trigger] names.deep_view()[j] == (
                    spec_block_name(j, bs[j]),
                    j as usize,
                ),
        decreases nb - i,
    {
        let ghost old_names = names.deep_view();
        proof {
            assert(bs[i as int].len() > 0);
            assert(blocks@[i as int].deep_view() == bs[i as int]);
        }
        let name = get_block_name(i, &blocks[i]);
        let bb = BasicBlock {
            name: name.clone(),
            instructions: crate::lvn::copy_block(&blocks[i]),
        };
        let node = graph_add_node(&mut graph, bb);
        names.push((name, node));
        proof {
            assert(names.deep_view() =~= old_names.push((spec_block_name(i as int, bs[i as int]),
                i as usize)));
        }
        i += 1;
    }
    let mut i: usize = 0;
    proof {
        assert(cfg_edges_upto(bs, 0) =~= Seq::<(usize, usize)>::empty());
    }
    while i < nb
        invariant
            i <= nb,
            nb == blocks.len(),
            nb < 0x4000_0000,
            bs == blocks.deep_view(),
            forall|b: int| 0 <= b < bs.len() ==> #[trigger] bs[b].len() > 0,
            graph_nodes(graph).len() == nb,
            forall|j: int|
                0 <= j < nb ==> (#[trigger] graph_nodes(graph)[j])@.name == spec_block_name(
                    j,
                    bs[j],
                ) && graph_nodes(graph)[j]@.instructions == bs[j],
            names@.len() == nb,
            forall|j: int|
                0 <= j < nb ==> #[trigger] names.deep_view()[j] == (
                    spec_block_name(j, bs[j]),
                    j as usize,
                ),
            graph_edges(graph) == cfg_edges_upto(bs, i as int),
            graph_edges(graph).len() <= 2 * i,
            graph_wf(graph),
        decreases nb - i,
    {
        let block = &blocks[i];
        proof {
            assert(block.deep_view() == bs[i as int]);
        }
        let last = &block[block.len() - 1];
        proof {
            assert(last@ == bs[i as int].last());
        }
        let successors: Vec<String> = match last {
            Instruction::Jmp { label } => vec![label.clone()],
            Instruction::Br { then_label, else_label, .. } => vec![
                then_label.clone(),
                else_label.clone(),
            ],
            Instruction::Ret { .. } => vec![],
            _ => if i + 1 < nb {
                vec![block_label(i + 1)]
            } else {
                vec![]
            },
        };
        proof {
            assert(successors.deep_view() =~= succ_names(bs, i as int));
        }
        let ns = successors.len();
        let mut j: usize = 0;
        proof {
            assert(succ_names(bs, i as int).len() <= 2);
            assert(successors.deep_view().skip(0) =~= successors.deep_view());
        }
        while j < ns
            invariant
                j <= ns,
                ns == successors.len(),
                ns <= 2,
                i < nb,
                nb == blocks.len(),
                nb < 0x4000_0000,
                bs == blocks.deep_view(),
                successors.deep_view() == succ_names(bs, i as int),
                graph_nodes(graph).len() == nb,
                forall|jj: int|
                    0 <= jj < nb ==> (#[trigger] graph_nodes(graph)[jj])@.name == spec_block_name(
                        jj,
                        bs[jj],
                    ) && graph_nodes(graph)[jj]@.instructions == bs[jj],
                names@.len() == nb,
                forall|jj: int|
                    0 <= jj < nb ==> #[trigger] names.deep_view()[jj] == (
                        spec_block_name(jj, bs[jj]),
                        jj as usize,
                    ),
                cfg_edges_upto(bs, i as int + 1) == graph_edges(graph) + resolve_targets(
                    bs,
                    i,
                    successors.deep_view().skip(j as int),
                ),
                graph_edges(graph).len() <= 2 * i + j,
                graph_wf(graph),
            decreases ns - j,
        {
            let ghost snames = successors.deep_view();
            let ghost rem = snames.skip(j as int);
            proof {
                assert(rem.first() == snames[j as int]);
                assert(rem.drop_first() =~= snames.skip(j as int + 1));
                lemma_names_assoc(bs, names.deep_view(), snames[j as int]);
                lemma_resolve_bound(bs, nb as int, snames[j as int]);
            }
            let succ = &successors[j];
            proof {
                assert(succ@ == snames[j as int]);
            }
            match crate::lvn::lookup_var(&names, succ) {
                Some(to) => {
                    let ghost old_edges = graph_edges(graph);
                    graph_add_edge(&mut graph, i, to);
                    proof {
                        assert(resolve_targets(bs, i, rem) == seq![(i, to)] + resolve_targets(
                            bs,
                            i,
                            snames.skip(j as int + 1),
                        ));
                        assert(old_edges + resolve_targets(bs, i, rem) =~= (old_edges.push(
                            (i, to),
                        )) + resolve_targets(bs, i, snames.skip(j as int + 1)));
                    }
                },
                None => {
                    proof {
                        assert(resolve_targets(bs, i, rem) == resolve_targets(
                            bs,
                            i,
                            snames.skip(j as int + 1),
                        ));
                    }
                },
            }
            j += 1;
        }
        proof {
            assert(successors.deep_view().skip(ns as int) =~= Seq::<Seq<char>>::empty());
            assert(resolve_targets(bs, i, Seq::<Seq<char>>::empty()) =~= Seq::<
                (usize, usize),
            >::empty());
            assert(graph_edges(graph) + Seq::<(usize, usize)>::empty() =~= graph_edges(graph));
        }
        i += 1;
    }
    graph
}

} // verus!
