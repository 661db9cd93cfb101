use petgraph::Direction;

use ir_opt::cfg::{build_blocks, build_cfg};
use ir_opt::dataflow::{gen_and_kill, reaching_definitions, Definition};
use ir_opt::global::{build_dominator_tree, find_dominance_frontier, find_dominators};
use ir_opt::lvn::{
    constant_fold, dce_combined, dead_elimination_redefined, dead_elimination_unused,
    final_local_opt, lvn,
};
use ir_opt::types::{Function, Instruction, Literal, Types};

fn diamond() -> Function {
    Function {
        name: "Main".to_string(),
        instr: vec![
            // ---- block0 ----
            Instruction::Const {
                dest: "v0".to_string(),
                typ: Types::Bool,
                values: Literal::Bool(true),
            },
            Instruction::Br {
                cond: "v0".to_string(),
                then_label: "then_blk".to_string(),
                else_label: "else_blk".to_string(),
            },
            // ---- then_blk (block1) ----
            Instruction::Label { label: "then_blk".to_string() },
            Instruction::Const {
                dest: "v1".to_string(),
                typ: Types::Int,
                values: Literal::Int(10),
            },
            Instruction::Jmp { label: "merge_blk".to_string() },
            // ---- else_blk (block2) ----
            Instruction::Label { label: "else_blk".to_string() },
            Instruction::Const {
                dest: "v2".to_string(),
                typ: Types::Int,
                values: Literal::Int(20),
            },
            Instruction::Jmp { label: "merge_blk".to_string() },
            // ---- merge_blk (block3) ----
            Instruction::Label { label: "merge_blk".to_string() },
            Instruction::Ret { value: Some("v1".to_string()) },
        ],
    }
}

fn print_block(label: &str, block: &Vec<Instruction>) {
    println!("--- {} ---", label);
    for instr in block {
        println!("{:?}", instr);
    }
    println!("-------------------\n");
}

#[test]
fn test_cfg_graph() {
    let f = diamond();
    let blocks = build_blocks(&f);
    let cfg = build_cfg(&blocks);

    println!("--- CFG NODES ---");
    for node_idx in cfg.node_indices() {
        let block = &cfg[node_idx];
        println!("Node: {} (name: {})", node_idx.index(), block.name);
    }

    println!("\n--- SUCCESSORS ---");
    for node_idx in cfg.node_indices() {
        let block = &cfg[node_idx];
        let succ_names: Vec<String> =
            cfg.neighbors(node_idx).map(|succ_idx| cfg[succ_idx].name.clone()).collect();
        println!("{} -> {:?}", block.name, succ_names);
    }

    println!("\n--- PREDECESSORS ---");
    for node_idx in cfg.node_indices() {
        let block = &cfg[node_idx];
        let pred_names: Vec<String> = cfg
            .neighbors_directed(node_idx, Direction::Incoming)
            .map(|pred_idx| cfg[pred_idx].name.clone())
            .collect();
        println!("{} <- {:?}", block.name, pred_names);
    }

    assert_eq!(cfg.node_count(), 4);
    assert_eq!(cfg.edge_count(), 4);
}

#[test]
fn test_reaching_definitions() {
    let f = diamond();
    let blocks = build_blocks(&f);
    let cfg = build_cfg(&blocks);
    let rd = reaching_definitions(&cfg);

    println!("--- REACHING DEFINITIONS ANALYSIS ---\n");
    for node_idx in cfg.node_indices() {
        let block = &cfg[node_idx];
        println!("Block: {}", block.name);
        println!("  IN:");
        let in_set = &rd.in_sets[node_idx.index()];
        if in_set.is_empty() {
            println!("    {{}}");
        } else {
            for def in in_set {
                println!("    ({}, {}, instr {})", def.var, def.block, def.instr_index);
            }
        }
        println!("  OUT:");
        let out_set = &rd.out_sets[node_idx.index()];
        if out_set.is_empty() {
            println!("    {{}}");
        } else {
            for def in out_set {
                println!("    ({}, {}, instr {})", def.var, def.block, def.instr_index);
            }
        }
        println!();
    }
}

#[test]
fn test_dominators() {
    let f = diamond();
    let blocks = build_blocks(&f);
    let cfg = build_cfg(&blocks);
    let dom = find_dominators(&cfg);

    println!("--- DOMINATORS ---\n");
    for node_idx in cfg.node_indices() {
        let block = &cfg[node_idx];
        println!("Block: {}", block.name);
        println!("  Dominated by:");
        let mut dom_names: Vec<String> = dom[node_idx.index()]
            .iter()
            .enumerate()
            .filter(|(_, bit)| **bit)
            .map(|(d, _)| cfg[petgraph::graph::NodeIndex::new(d)].name.clone())
            .collect();
        dom_names.sort();
        for name in dom_names {
            println!("    {}", name);
        }
        println!();
    }
}

#[test]
fn test_dominator_tree() {
    let f = diamond();
    let blocks = build_blocks(&f);
    let cfg = build_cfg(&blocks);
    let dom = find_dominators(&cfg);
    let idom = build_dominator_tree(&dom);

    println!("--- DOMINATOR TREE ---\n");
    for node_idx in cfg.node_indices() {
        let block = &cfg[node_idx];
        match idom[node_idx.index()] {
            Some(parent_idx) => {
                let parent = &cfg[petgraph::graph::NodeIndex::new(parent_idx)];
                println!("{} -> {}", parent.name, block.name);
            },
            None => {
                println!("{} (entry)", block.name);
            },
        }
    }
}

#[test]
fn test_dominance_frontier() {
    let f = diamond();
    let blocks = build_blocks(&f);
    let cfg = build_cfg(&blocks);
    let dom = find_dominators(&cfg);
    let idom = build_dominator_tree(&dom);
    let df = find_dominance_frontier(&cfg, &dom, &idom);

    println!("--- DOMINANCE FRONTIER ---\n");
    for node_idx in cfg.node_indices() {
        let block = &cfg[node_idx];
        println!("DF({}): ", block.name);
        let frontier: Vec<String> = df[node_idx.index()]
            .iter()
            .enumerate()
            .filter(|(_, bit)| **bit)
            .map(|(d, _)| cfg[petgraph::graph::NodeIndex::new(d)].name.clone())
            .collect();
        if frontier.is_empty() {
            println!("  {{}}");
        } else {
            let mut names = frontier.clone();
            names.sort();
            for name in names {
                println!("  {}", name);
            }
        }
        println!();
    }
}

#[test]
fn test_cse_and_copyprop() {
    let block = vec![
        Instruction::Const { dest: "a".into(), typ: Types::Int, values: Literal::Int(1) },
        Instruction::Const { dest: "b".into(), typ: Types::Int, values: Literal::Int(2) },
        Instruction::Add { dest: "sum1".into(), op1: "a".into(), op2: "b".into() },
        Instruction::Add { dest: "sum2".into(), op1: "a".into(), op2: "b".into() },
        Instruction::Mul { dest: "prod".into(), op1: "sum1".into(), op2: "sum2".into() },
        Instruction::Print { value: "prod".into() },
    ];

    print_block("Original block", &block);

    let lvn_block = lvn(&block);
    let dce_elim = dead_elimination_unused(&lvn_block);
    print_block("After LVN (CSE + copy propagation) + dead code elim simple", &dce_elim);
}

#[test]
fn test_copy_propagation_only() {
    let block = vec![
        Instruction::Const { dest: "a".into(), typ: Types::Int, values: Literal::Int(10) },
        Instruction::Id { dest: "b".into(), src: "a".into() },
        Instruction::Id { dest: "c".into(), src: "b".into() },
        Instruction::Id { dest: "d".into(), src: "c".into() },
        Instruction::Print { value: "d".into() },
    ];

    print_block("Original block", &block);

    let lvn_block = lvn(&block);
    print_block("After LVN(For copy prop) + constant folding", &lvn_block);
}

#[test]
fn test_constant_folding() {
    let block = vec![
        Instruction::Const { dest: "a".into(), typ: Types::Int, values: Literal::Int(4) },
        Instruction::Const { dest: "b".into(), typ: Types::Int, values: Literal::Int(2) },
        Instruction::Add { dest: "sum1".into(), op1: "a".into(), op2: "b".into() },
        Instruction::Add { dest: "sum2".into(), op1: "b".into(), op2: "a".into() },
        Instruction::Mul { dest: "prod1".into(), op1: "sum1".into(), op2: "sum2".into() },
        Instruction::Const { dest: "sum1".into(), typ: Types::Int, values: Literal::Int(0) },
        Instruction::Const { dest: "sum2".into(), typ: Types::Int, values: Literal::Int(0) },
        Instruction::Add { dest: "sum3".into(), op1: "a".into(), op2: "b".into() },
        Instruction::Mul { dest: "prod2".into(), op1: "sum3".into(), op2: "sum3".into() },
        Instruction::Print { value: "prod2".into() },
    ];

    print_block("Orginal Block is :", &block);
    let lvn_block = lvn(&block);
    let fold_block = constant_fold(&lvn_block);
    let dce_block = dead_elimination_unused(&fold_block);
    let redefined_block = dead_elimination_redefined(&dce_block);
    let final_block = dead_elimination_unused(&redefined_block);
    print_block("After LVN + constantFolding + copy prop + cse + dce + redefined", &final_block);

    print_block("Using Final optimization function", &final_local_opt(&block));
}

#[test]
fn run_dead_code_elimination_only() {
    let block = vec![
        Instruction::Const { dest: "a".into(), typ: Types::Int, values: Literal::Int(5) },
        Instruction::Const { dest: "b".into(), typ: Types::Int, values: Literal::Int(10) },
        Instruction::Const { dest: "b".into(), typ: Types::Int, values: Literal::Int(6) },
        Instruction::Add { dest: "c".into(), op1: "a".into(), op2: "b".into() },
        Instruction::Const { dest: "a".into(), typ: Types::Int, values: Literal::Int(7) },
        Instruction::Mul { dest: "d".into(), op1: "c".into(), op2: "a".into() },
        Instruction::Const { dest: "e".into(), typ: Types::Int, values: Literal::Int(100) },
        Instruction::Print { value: "d".into() },
    ];

    print_block("Original Block", &block);

    let pass1 = dead_elimination_unused(&block);
    print_block("After dead_elimination_unused", &pass1);

    let pass2 = dead_elimination_redefined(&pass1);
    print_block("After dead_elimination_redefined", &pass2);
}

#[test]
fn run_only_redefined() {
    let block = vec![
        Instruction::Const { dest: "a".into(), typ: Types::Int, values: Literal::Int(5) },
        Instruction::Const { dest: "a".into(), typ: Types::Int, values: Literal::Int(10) },
        Instruction::Const { dest: "a".into(), typ: Types::Int, values: Literal::Int(50) },
        Instruction::Print { value: "a".into() },
    ];

    print_block("Original Block", &block);

    let pass1 = dead_elimination_redefined(&block);
    print_block("After dead_elimination_refined", &pass1);
}

#[test]
fn test_dead_elimination_iterative_comprehensive() {
    let block = vec![
        Instruction::Const { dest: "a".into(), typ: Types::Int, values: Literal::Int(5) },
        Instruction::Const { dest: "b".into(), typ: Types::Int, values: Literal::Int(10) },
        Instruction::Const { dest: "b".into(), typ: Types::Int, values: Literal::Int(6) },
        Instruction::Add { dest: "c".into(), op1: "a".into(), op2: "b".into() },
        Instruction::Const { dest: "a".into(), typ: Types::Int, values: Literal::Int(7) },
        Instruction::Mul { dest: "d".into(), op1: "c".into(), op2: "a".into() },
        Instruction::Const { dest: "e".into(), typ: Types::Int, values: Literal::Int(100) },
        Instruction::Const { dest: "f".into(), typ: Types::Int, values: Literal::Int(50) },
        Instruction::Const { dest: "f".into(), typ: Types::Int, values: Literal::Int(75) },
        Instruction::Print { value: "d".into() },
    ];

    print_block("Original Block", &block);

    let final_block = dead_elimination_unused(&block);
    print_block("After iterative DCE (combined)", &final_block);
}

#[test]
fn dominators_diamond_values() {
    let f = diamond();
    let blocks = build_blocks(&f);
    let cfg = build_cfg(&blocks);
    let dom = find_dominators(&cfg);
    // every node is in its own set, and the entry's set is exactly the entry
    assert_eq!(dom.len(), 4);
    for v in 0..4 {
        assert!(dom[v][v]);
    }
    assert_eq!(dom[0], vec![true, false, false, false]);
    assert_eq!(dom[1], vec![true, true, false, false]);
    assert_eq!(dom[2], vec![true, false, true, false]);
    assert_eq!(dom[3], vec![true, false, false, true]);
}

#[test]
fn dominator_tree_diamond_values() {
    let f = diamond();
    let blocks = build_blocks(&f);
    let cfg = build_cfg(&blocks);
    let dom = find_dominators(&cfg);
    let idom = build_dominator_tree(&dom);
    assert_eq!(idom, vec![None, Some(0), Some(0), Some(0)]);
}

#[test]
fn dominance_frontier_diamond_values() {
    let f = diamond();
    let blocks = build_blocks(&f);
    let cfg = build_cfg(&blocks);
    assert_eq!(cfg.node_count(), 4);
    assert_eq!(cfg.edge_count(), 4);
    let dom = find_dominators(&cfg);
    let idom = build_dominator_tree(&dom);
    let df = find_dominance_frontier(&cfg, &dom, &idom);
    // each arm's frontier is the merge block; the merge block's is empty
    assert_eq!(df[1], vec![false, false, false, true]);
    assert_eq!(df[2], vec![false, false, false, true]);
    assert_eq!(df[3], vec![false, false, false, false]);
    assert_eq!(df[0], vec![false, false, false, false]);
}

#[test]
fn dominators_shrink_when_edges_are_added() {
    // a straight chain entry -> b1 -> b2
    let chain = Function {
        name: "Chain".to_string(),
        instr: vec![
            Instruction::Jmp { label: "b1".to_string() },
            Instruction::Label { label: "b1".to_string() },
            Instruction::Jmp { label: "b2".to_string() },
            Instruction::Label { label: "b2".to_string() },
            Instruction::Ret { value: None },
        ],
    };
    // the same three blocks with one more edge: entry also branches to b2
    let branched = Function {
        name: "Branched".to_string(),
        instr: vec![
            Instruction::Br {
                cond: "c".to_string(),
                then_label: "b1".to_string(),
                else_label: "b2".to_string(),
            },
            Instruction::Label { label: "b1".to_string() },
            Instruction::Jmp { label: "b2".to_string() },
            Instruction::Label { label: "b2".to_string() },
            Instruction::Ret { value: None },
        ],
    };
    let cfg1 = build_cfg(&build_blocks(&chain));
    let cfg2 = build_cfg(&build_blocks(&branched));
    assert_eq!(cfg1.node_count(), 3);
    assert_eq!(cfg2.node_count(), 3);
    assert_eq!(cfg1.edge_count(), 2);
    assert_eq!(cfg2.edge_count(), 3);
    let dom1 = find_dominators(&cfg1);
    let dom2 = find_dominators(&cfg2);
    // no dominator set grew: dom2[v] is a subset of dom1[v] for every node
    for v in 0..3 {
        for w in 0..3 {
            if dom2[v][w] {
                assert!(dom1[v][w]);
            }
        }
    }
    // and b2's set strictly shrank: b1 no longer dominates it
    assert!(dom1[2][1]);
    assert!(!dom2[2][1]);
}

#[test]
fn reaching_definitions_transfer_equation() {
    let f = diamond();
    let blocks = build_blocks(&f);
    let cfg = build_cfg(&blocks);
    let rd = reaching_definitions(&cfg);
    // OUT(b) == GEN(b) union (IN(b) minus KILL(b)) for every node
    for idx in cfg.node_indices() {
        let b = idx.index();
        let (gens, kills) = gen_and_kill(&cfg[idx]);
        let mut expected: Vec<Definition> = gens.clone();
        for d in &rd.in_sets[b] {
            if !kills.contains(d) && !expected.contains(d) {
                expected.push(d.clone());
            }
        }
        for d in &expected {
            assert!(rd.out_sets[b].contains(d));
        }
        for d in &rd.out_sets[b] {
            assert!(expected.contains(d));
        }
    }
    // the merge block sees the definitions of both arms and of the entry
    let merge_in = &rd.in_sets[3];
    assert!(merge_in.contains(&Definition {
        var: "v1".to_string(),
        block: "then_blk".to_string(),
        instr_index: 1,
    }));
    assert!(merge_in.contains(&Definition {
        var: "v2".to_string(),
        block: "else_blk".to_string(),
        instr_index: 1,
    }));
    assert!(merge_in.contains(&Definition {
        var: "v0".to_string(),
        block: "block0".to_string(),
        instr_index: 0,
    }));
    assert_eq!(merge_in.len(), 3);
}

#[test]
fn dce_removes_unread_and_overwritten() {
    let block = vec![
        Instruction::Const { dest: "a".into(), typ: Types::Int, values: Literal::Int(5) },
        Instruction::Const { dest: "b".into(), typ: Types::Int, values: Literal::Int(10) },
        Instruction::Const { dest: "b".into(), typ: Types::Int, values: Literal::Int(6) },
        Instruction::Add { dest: "c".into(), op1: "a".into(), op2: "b".into() },
        Instruction::Const { dest: "a".into(), typ: Types::Int, values: Literal::Int(7) },
        Instruction::Mul { dest: "d".into(), op1: "c".into(), op2: "a".into() },
        Instruction::Const { dest: "e".into(), typ: Types::Int, values: Literal::Int(100) },
        Instruction::Print { value: "d".into() },
    ];
    let reduced = dead_elimination_redefined(&dead_elimination_unused(&block));
    let expected = vec![
        Instruction::Const { dest: "a".into(), typ: Types::Int, values: Literal::Int(5) },
        Instruction::Const { dest: "b".into(), typ: Types::Int, values: Literal::Int(6) },
        Instruction::Add { dest: "c".into(), op1: "a".into(), op2: "b".into() },
        Instruction::Const { dest: "a".into(), typ: Types::Int, values: Literal::Int(7) },
        Instruction::Mul { dest: "d".into(), op1: "c".into(), op2: "a".into() },
        Instruction::Print { value: "d".into() },
    ];
    assert_eq!(reduced, expected);
    assert_eq!(dce_combined(&block), expected);
}

#[test]
fn fold_and_cse_commutative_operands() {
    let block = vec![
        Instruction::Const { dest: "a".into(), typ: Types::Int, values: Literal::Int(4) },
        Instruction::Const { dest: "b".into(), typ: Types::Int, values: Literal::Int(2) },
        Instruction::Add { dest: "s1".into(), op1: "a".into(), op2: "b".into() },
        Instruction::Add { dest: "s2".into(), op1: "b".into(), op2: "a".into() },
        Instruction::Mul { dest: "p".into(), op1: "s1".into(), op2: "s2".into() },
        Instruction::Print { value: "p".into() },
    ];
    let numbered = lvn(&block);
    // the commuted sum collapses to a copy of the first
    assert_eq!(numbered[3], Instruction::Id { dest: "s2".into(), src: "s1".into() });
    let folded = constant_fold(&numbered);
    assert_eq!(
        folded[2],
        Instruction::Const { dest: "s1".into(), typ: Types::Int, values: Literal::Int(6) }
    );
    assert_eq!(
        folded[4],
        Instruction::Const { dest: "p".into(), typ: Types::Int, values: Literal::Int(36) }
    );
}

#[test]
fn lvn_is_idempotent_on_samples() {
    let samples = vec![
        vec![
            Instruction::Const { dest: "a".into(), typ: Types::Int, values: Literal::Int(4) },
            Instruction::Const { dest: "b".into(), typ: Types::Int, values: Literal::Int(2) },
            Instruction::Add { dest: "s1".into(), op1: "a".into(), op2: "b".into() },
            Instruction::Add { dest: "s2".into(), op1: "b".into(), op2: "a".into() },
            Instruction::Mul { dest: "p".into(), op1: "s1".into(), op2: "s2".into() },
            Instruction::Print { value: "p".into() },
        ],
        vec![
            Instruction::Const { dest: "a".into(), typ: Types::Int, values: Literal::Int(10) },
            Instruction::Id { dest: "b".into(), src: "a".into() },
            Instruction::Id { dest: "c".into(), src: "b".into() },
            Instruction::Print { value: "c".into() },
        ],
        vec![
            Instruction::Add { dest: "x".into(), op1: "u".into(), op2: "w".into() },
            Instruction::Eq { dest: "y".into(), op1: "x".into(), op2: "x".into() },
            Instruction::Ret { value: Some("y".into()) },
        ],
    ];
    for block in samples {
        let once = lvn(&block);
        let twice = lvn(&once);
        assert_eq!(once, twice);
    }
}

#[test]
fn segmentation_edges() {
    // an empty function yields zero blocks
    let empty = Function { name: "Empty".to_string(), instr: vec![] };
    assert_eq!(build_blocks(&empty).len(), 0);
    // a label does not split a block by itself
    let labelled = Function {
        name: "Labelled".to_string(),
        instr: vec![
            Instruction::Const { dest: "a".into(), typ: Types::Int, values: Literal::Int(1) },
            Instruction::Label { label: "inner".to_string() },
            Instruction::Const { dest: "b".into(), typ: Types::Int, values: Literal::Int(2) },
            Instruction::Ret { value: None },
        ],
    };
    let blocks = build_blocks(&labelled);
    assert_eq!(blocks.len(), 1);
    assert_eq!(blocks[0].len(), 4);
    // a trailing remainder without a terminator still becomes a block
    let trailing = Function {
        name: "Trailing".to_string(),
        instr: vec![
            Instruction::Jmp { label: "next".to_string() },
            Instruction::Const { dest: "a".into(), typ: Types::Int, values: Literal::Int(1) },
        ],
    };
    let blocks = build_blocks(&trailing);
    assert_eq!(blocks.len(), 2);
    assert_eq!(blocks[1].len(), 1);
}

#[test]
fn cfg_drops_unresolvable_edges_and_falls_through() {
    // a jump to a label that no block carries produces no edge
    let f = Function {
        name: "Dangling".to_string(),
        instr: vec![
            Instruction::Jmp { label: "nowhere".to_string() },
            Instruction::Const { dest: "x".into(), typ: Types::Int, values: Literal::Int(1) },
            Instruction::Ret { value: None },
        ],
    };
    let cfg = build_cfg(&build_blocks(&f));
    assert_eq!(cfg.node_count(), 2);
    assert_eq!(cfg.edge_count(), 0);
    // a block ending without a terminator falls through to the next
    // positional name
    let blocks = vec![
        vec![Instruction::Const { dest: "a".into(), typ: Types::Int, values: Literal::Int(1) }],
        vec![Instruction::Ret { value: None }],
    ];
    let cfg = build_cfg(&blocks);
    assert_eq!(cfg.node_count(), 2);
    assert_eq!(cfg.edge_count(), 1);
}

#[test]
fn eq_keys_are_not_commutative() {
    let block = vec![
        Instruction::Const { dest: "a".into(), typ: Types::Int, values: Literal::Int(1) },
        Instruction::Const { dest: "b".into(), typ: Types::Int, values: Literal::Int(2) },
        Instruction::Eq { dest: "x".into(), op1: "a".into(), op2: "b".into() },
        Instruction::Eq { dest: "y".into(), op1: "b".into(), op2: "a".into() },
        Instruction::Print { value: "x".into() },
        Instruction::Print { value: "y".into() },
    ];
    let numbered = lvn(&block);
    // the reversed comparison keeps its own key and is not rewritten to a copy
    assert_eq!(numbered[3], Instruction::Eq { dest: "y".into(), op1: "b".into(), op2: "a".into() });
}

#[test]
fn gen_and_kill_of_one_block() {
    let f = Function {
        name: "G".to_string(),
        instr: vec![
            Instruction::Const { dest: "a".into(), typ: Types::Int, values: Literal::Int(1) },
            Instruction::Const { dest: "a".into(), typ: Types::Int, values: Literal::Int(2) },
            Instruction::Print { value: "a".into() },
        ],
    };
    let cfg = build_cfg(&build_blocks(&f));
    let (gens, kills) = gen_and_kill(&cfg[petgraph::graph::NodeIndex::new(0)]);
    assert_eq!(gens.len(), 1);
    assert!(gens.contains(&Definition {
        var: "a".to_string(),
        block: "block0".to_string(),
        instr_index: 1,
    }));
    assert_eq!(kills.len(), 1);
    assert!(kills.contains(&Definition {
        var: "a".to_string(),
        block: "block0".to_string(),
        instr_index: 0,
    }));
}

#[test]
fn folding_skips_overflowing_sums() {
    let big = i64::MAX;
    let block = vec![
        Instruction::Const { dest: "a".into(), typ: Types::Int, values: Literal::Int(big) },
        Instruction::Const { dest: "b".into(), typ: Types::Int, values: Literal::Int(1) },
        Instruction::Add { dest: "s".into(), op1: "a".into(), op2: "b".into() },
        Instruction::Print { value: "s".into() },
    ];
    let folded = constant_fold(&block);
    // the sum does not fit an i64, so the addition is kept as it stands
    assert_eq!(folded[2], Instruction::Add { dest: "s".into(), op1: "a".into(), op2: "b".into() });
}

#[test]
fn final_local_opt_reaches_a_fixed_point() {
    let block = vec![
        Instruction::Const { dest: "a".into(), typ: Types::Int, values: Literal::Int(4) },
        Instruction::Const { dest: "b".into(), typ: Types::Int, values: Literal::Int(2) },
        Instruction::Add { dest: "s1".into(), op1: "a".into(), op2: "b".into() },
        Instruction::Add { dest: "s2".into(), op1: "b".into(), op2: "a".into() },
        Instruction::Mul { dest: "p".into(), op1: "s1".into(), op2: "s2".into() },
        Instruction::Print { value: "p".into() },
    ];
    let out = final_local_opt(&block);
    // another round of the two dead-code passes changes nothing
    let again = dead_elimination_redefined(&dead_elimination_unused(&out));
    assert_eq!(out, again);
    // the printed value was folded all the way to a constant
    assert!(out.contains(&Instruction::Const {
        dest: "p".into(),
        typ: Types::Int,
        values: Literal::Int(36),
    }));
}
