//! Local, per-block optimization: value numbering (common-subexpression
//! elimination and copy propagation), constant folding, and two dead-code
//! elimination passes driven to a local fixed point.

use vstd::prelude::*;

use crate::types::{dest_of, uses_of, Instruction, InstrV, Literal, Types};

verus! {

/// Canonical key of an expression, built over its operands' value numbers.
/// `Add`/`Mul` keys carry their two numbers sorted, so commuted operands
/// collide.
#[derive(Clone, Copy, Debug, Eq, Hash, PartialEq, Structural)]
pub enum ExprKey {
    Const(Literal),
    Id(usize),
    Add(usize, usize),
    Mul(usize, usize),
    Eq(usize, usize),
    Move(usize),
}

impl View for ExprKey {
    type V = ExprKey;

    open spec fn view(&self) -> ExprKey {
        *self
    }
}

impl DeepView for ExprKey {
    type V = ExprKey;

    open spec fn deep_view(&self) -> ExprKey {
        *self
    }
}

/// Lookup in an association sequence where the latest binding of a key wins,
/// mirroring insertion into a map.
pub open spec fn assoc<K, V>(m: Seq<(K, V)>, k: K) -> Option<V>
    decreases m.len(),
{
    if m.len() == 0 {
        None
    } else if m.last().0 == k {
        Some(m.last().1)
    } else {
        assoc(m.drop_last(), k)
    }
}

/// The destination name an instruction assigns, if it assigns one.
pub fn get_dest(instr: &Instruction) -> (r: Option<&String>)
    ensures
        match r {
            Some(d) => dest_of(instr@) == Some(d@),
            None => dest_of(instr@) is None,
        },
{
    match instr {
        Instruction::Id { dest, .. } => Some(dest),
        Instruction::Const { dest, .. } => Some(dest),
        Instruction::Add { dest, .. } => Some(dest),
        Instruction::Mul { dest, .. } => Some(dest),
        Instruction::Eq { dest, .. } => Some(dest),
        Instruction::Move { dest, .. } => Some(dest),
        _ => None,
    }
}

/// The names an instruction reads as operands, in field order.
pub fn get_used_var(instr: &Instruction) -> (r: Vec<String>)
    ensures
        r.deep_view() == uses_of(instr@),
{
    let r = match instr {
        Instruction::Add { op1, op2, .. } => vec![op1.clone(), op2.clone()],
        Instruction::Const { .. } => vec![],
        Instruction::Eq { op1, op2, .. } => vec![op1.clone(), op2.clone()],
        Instruction::Mul { op1, op2, .. } => vec![op1.clone(), op2.clone()],
        Instruction::Move { src, .. } => vec![src.clone()],
        Instruction::Id { src, .. } => vec![src.clone()],
        Instruction::Print { value } => vec![value.clone()],
        Instruction::Ret { value } => match value {
            Some(v) => vec![v.clone()],
            None => vec![],
        },
        Instruction::Br { cond, .. } => vec![cond.clone()],
        _ => vec![],
    };
    proof {
        assert(r.deep_view() =~= uses_of(instr@));
    }
    r
}

/// A structural copy of one instruction, equal to the original.
pub fn copy_instr(instr: &Instruction) -> (r: Instruction)
    ensures
        r == *instr,
{
    match instr {
        Instruction::Const { dest, typ, values } => Instruction::Const {
            dest: dest.clone(),
            typ: *typ,
            values: *values,
        },
        Instruction::Add { dest, op1, op2 } => Instruction::Add {
            dest: dest.clone(),
            op1: op1.clone(),
            op2: op2.clone(),
        },
        Instruction::Mul { dest, op1, op2 } => Instruction::Mul {
            dest: dest.clone(),
            op1: op1.clone(),
            op2: op2.clone(),
        },
        Instruction::Eq { dest, op1, op2 } => Instruction::Eq {
            dest: dest.clone(),
            op1: op1.clone(),
            op2: op2.clone(),
        },
        Instruction::Jmp { label } => Instruction::Jmp { label: label.clone() },
        Instruction::Move { dest, src } => Instruction::Move {
            dest: dest.clone(),
            src: src.clone(),
        },
        Instruction::Id { dest, src } => Instruction::Id {
            dest: dest.clone(),
            src: src.clone(),
        },
        Instruction::Label { label } => Instruction::Label { label: label.clone() },
        Instruction::Br { cond, then_label, else_label } => Instruction::Br {
            cond: cond.clone(),
            then_label: then_label.clone(),
            else_label: else_label.clone(),
        },
        Instruction::Ret { value } => Instruction::Ret {
            value: match value {
                Some(v) => Some(v.clone()),
                None => None,
            },
        },
        Instruction::Print { value } => Instruction::Print { value: value.clone() },
    }
}

/// Structural equality of two instructions, decided over their views.
pub fn instr_eq(a: &Instruction, b: &Instruction) -> (r: bool)
    ensures
        r == (a@ == b@),
{
    match a {
        Instruction::Const { dest: d1, typ: t1, values: v1 } => match b {
            Instruction::Const { dest: d2, typ: t2, values: v2 } => *d1 == *d2 && *t1 == *t2
                && *v1 == *v2,
            _ => false,
        },
        Instruction::Add { dest: d1, op1: a1, op2: b1 } => match b {
            Instruction::Add { dest: d2, op1: a2, op2: b2 } => *d1 == *d2 && *a1 == *a2 && *b1 == *b2,
            _ => false,
        },
        Instruction::Mul { dest: d1, op1: a1, op2: b1 } => match b {
            Instruction::Mul { dest: d2, op1: a2, op2: b2 } => *d1 == *d2 && *a1 == *a2 && *b1 == *b2,
            _ => false,
        },
        Instruction::Eq { dest: d1, op1: a1, op2: b1 } => match b {
            Instruction::Eq { dest: d2, op1: a2, op2: b2 } => *d1 == *d2 && *a1 == *a2 && *b1 == *b2,
            _ => false,
        },
        Instruction::Jmp { label: l1 } => match b {
            Instruction::Jmp { label: l2 } => *l1 == *l2,
            _ => false,
        },
        Instruction::Move { dest: d1, src: s1 } => match b {
            Instruction::Move { dest: d2, src: s2 } => *d1 == *d2 && *s1 == *s2,
            _ => false,
        },
        Instruction::Id { dest: d1, src: s1 } => match b {
            Instruction::Id { dest: d2, src: s2 } => *d1 == *d2 && *s1 == *s2,
            _ => false,
        },
        Instruction::Label { label: l1 } => match b {
            Instruction::Label { label: l2 } => *l1 == *l2,
            _ => false,
        },
        Instruction::Br { cond: c1, then_label: t1, else_label: e1 } => match b {
            Instruction::Br { cond: c2, then_label: t2, else_label: e2 } => *c1 == *c2 && *t1 == *t2
                && *e1 == *e2,
            _ => false,
        },
        Instruction::Ret { value: v1 } => match b {
            Instruction::Ret { value: v2 } => match (v1, v2) {
                (Some(x), Some(y)) => *x == *y,
                (None, None) => true,
                _ => false,
            },
            _ => false,
        },
        Instruction::Print { value: v1 } => match b {
            Instruction::Print { value: v2 } => *v1 == *v2,
            _ => false,
        },
    }
}

/// Structural equality of two instruction sequences, decided over their views.
pub fn block_eq(a: &Vec<Instruction>, b: &Vec<Instruction>) -> (r: bool)
    ensures
        r == (a.deep_view() == b.deep_view()),
{
    if a.len() != b.len() {
        proof {
            assert(a.deep_view().len() == a@.len());
            assert(b.deep_view().len() == b@.len());
        }
        return false;
    }
    let n = a.len();
    let mut i: usize = 0;
    while i < n
        invariant
            0 <= i <= n,
            n == a.len() == b.len(),
            forall|j: int| 0 <= j < i ==> a.deep_view()[j] == b.deep_view()[j],
        decreases n - i,
    {
        if !instr_eq(&a[i], &b[i]) {
            assert(a.deep_view()[i as int] != b.deep_view()[i as int]);
            return false;
        }
        i += 1;
    }
    proof {
        assert(a.deep_view() =~= b.deep_view());
    }
    true
}


/// One scan step of an association lookup, phrased over a prefix.
proof fn lemma_assoc_step<K, V>(m: Seq<(K, V)>, i: int, k: K)
    requires
        0 <= i < m.len(),
    ensures
        assoc(m.subrange(0, i + 1), k) == (if m[i].0 == k {
            Some(m[i].1)
        } else {
            assoc(m.subrange(0, i), k)
        }),
{
    assert(m.subrange(0, i + 1).last() == m[i]);
    assert(m.subrange(0, i + 1).drop_last() =~= m.subrange(0, i));
}

proof fn lemma_assoc_whole<K, V>(m: Seq<(K, V)>)
    ensures
        forall|k: K| assoc(m.subrange(0, m.len() as int), k) == #[trigger] assoc(m, k),
{
    assert(m.subrange(0, m.len() as int) =~= m);
}

/// The latest value number bound to a variable name.
pub(crate) fn lookup_var(m: &Vec<(String, usize)>, k: &String) -> (r: Option<usize>)
    ensures
        r == assoc(m.deep_view(), k@),
{
    let mut i: usize = m.len();
    proof {
        lemma_assoc_whole(m.deep_view());
    }
    while i > 0
        invariant
            i <= m.len(),
            assoc(m.deep_view(), k@) == assoc(m.deep_view().subrange(0, i as int), k@),
        decreases i,
    {
        i = i - 1;
        proof {
            lemma_assoc_step(m.deep_view(), i as int, k@);
        }
        if m[i].0 == *k {
            return Some(m[i].1);
        }
    }
    None
}

/// The latest literal bound to a variable name.
fn lookup_lit(m: &Vec<(String, Literal)>, k: &String) -> (r: Option<Literal>)
    ensures
        r == assoc(m.deep_view(), k@),
{
    let mut i: usize = m.len();
    proof {
        lemma_assoc_whole(m.deep_view());
    }
    while i > 0
        invariant
            i <= m.len(),
            assoc(m.deep_view(), k@) == assoc(m.deep_view().subrange(0, i as int), k@),
        decreases i,
    {
        i = i - 1;
        proof {
            lemma_assoc_step(m.deep_view(), i as int, k@);
        }
        if m[i].0 == *k {
            return Some(m[i].1);
        }
    }
    None
}

/// The value number minted for an expression key.
fn lookup_key(m: &Vec<(ExprKey, usize)>, k: ExprKey) -> (r: Option<usize>)
    ensures
        r == assoc(m.deep_view(), k),
{
    let mut i: usize = m.len();
    proof {
        lemma_assoc_whole(m.deep_view());
    }
    while i > 0
        invariant
            i <= m.len(),
            assoc(m.deep_view(), k) == assoc(m.deep_view().subrange(0, i as int), k),
        decreases i,
    {
        i = i - 1;
        proof {
            lemma_assoc_step(m.deep_view(), i as int, k);
        }
        if m[i].0 == k {
            return Some(m[i].1);
        }
    }
    None
}

/// The canonical variable holding a value number.
fn lookup_canon(m: &Vec<(usize, String)>, k: usize) -> (r: Option<String>)
    ensures
        r.deep_view() == assoc(m.deep_view(), k),
{
    let mut i: usize = m.len();
    proof {
        lemma_assoc_whole(m.deep_view());
    }
    while i > 0
        invariant
            i <= m.len(),
            assoc(m.deep_view(), k) == assoc(m.deep_view().subrange(0, i as int), k),
        decreases i,
    {
        i = i - 1;
        proof {
            lemma_assoc_step(m.deep_view(), i as int, k);
        }
        if m[i].0 == k {
            return Some(m[i].1.clone());
        }
    }
    None
}

/// The instruction that minted a value number.
fn lookup_instr(m: &Vec<(usize, Instruction)>, k: usize) -> (r: Option<Instruction>)
    ensures
        r.deep_view() == assoc(m.deep_view(), k),
{
    let mut i: usize = m.len();
    proof {
        lemma_assoc_whole(m.deep_view());
    }
    while i > 0
        invariant
            i <= m.len(),
            assoc(m.deep_view(), k) == assoc(m.deep_view().subrange(0, i as int), k),
        decreases i,
    {
        i = i - 1;
        proof {
            lemma_assoc_step(m.deep_view(), i as int, k);
        }
        if m[i].0 == k {
            return Some(copy_instr(&m[i].1));
        }
    }
    None
}

/// The expression key under which a value number was minted.
fn lookup_expr(m: &Vec<(usize, ExprKey)>, k: usize) -> (r: Option<ExprKey>)
    ensures
        r == assoc(m.deep_view(), k),
{
    let mut i: usize = m.len();
    proof {
        lemma_assoc_whole(m.deep_view());
    }
    while i > 0
        invariant
            i <= m.len(),
            assoc(m.deep_view(), k) == assoc(m.deep_view().subrange(0, i as int), k),
        decreases i,
    {
        i = i - 1;
        proof {
            lemma_assoc_step(m.deep_view(), i as int, k);
        }
        if m[i].0 == k {
            return Some(m[i].1);
        }
    }
    None
}


/// The canonical name for `x`: the canonical variable of `x`'s value number,
/// if both are known.
pub open spec fn canon_of(
    x: Seq<char>,
    var2num: Seq<(Seq<char>, usize)>,
    canon_var: Seq<(usize, Seq<char>)>,
) -> Option<Seq<char>> {
    match assoc(var2num, x) {
        Some(n) => assoc(canon_var, n),
        None => None,
    }
}

/// `x` rewritten to its canonical name, or kept when none is known.
pub open spec fn canon_name(
    x: Seq<char>,
    var2num: Seq<(Seq<char>, usize)>,
    canon_var: Seq<(usize, Seq<char>)>,
) -> Seq<char> {
    match canon_of(x, var2num, canon_var) {
        Some(c) => c,
        None => x,
    }
}

/// An instruction with each operand rewritten to its canonical name;
/// destinations and control instructions are untouched.
pub open spec fn canon_instr(
    i: InstrV,
    var2num: Seq<(Seq<char>, usize)>,
    canon_var: Seq<(usize, Seq<char>)>,
) -> InstrV {
    match i {
        InstrV::Add { dest, op1, op2 } => InstrV::Add {
            dest,
            op1: canon_name(op1, var2num, canon_var),
            op2: canon_name(op2, var2num, canon_var),
        },
        InstrV::Mul { dest, op1, op2 } => InstrV::Mul {
            dest,
            op1: canon_name(op1, var2num, canon_var),
            op2: canon_name(op2, var2num, canon_var),
        },
        InstrV::Eq { dest, op1, op2 } => InstrV::Eq {
            dest,
            op1: canon_name(op1, var2num, canon_var),
            op2: canon_name(op2, var2num, canon_var),
        },
        InstrV::Move { dest, src } => InstrV::Move {
            dest,
            src: canon_name(src, var2num, canon_var),
        },
        InstrV::Id { dest, src } => InstrV::Id {
            dest,
            src: canon_name(src, var2num, canon_var),
        },
        InstrV::Print { value } => InstrV::Print {
            value: canon_name(value, var2num, canon_var),
        },
        _ => i,
    }
}

/// The canonical variable for `var`, if its value number has one.
pub fn get_canonical(
    var: &String,
    var2num: &Vec<(String, usize)>,
    canon_var: &Vec<(usize, String)>,
) -> (r: Option<String>)
    ensures
        r.deep_view() == canon_of(var@, var2num.deep_view(), canon_var.deep_view()),
{
    match lookup_var(var2num, var) {
        Some(n) => lookup_canon(canon_var, n),
        None => None,
    }
}

/// Rewrite each operand of `instr` to its canonical name, leaving
/// destinations and control flow unchanged.
pub fn canonicalize_operands(
    instr: &Instruction,
    var2num: &Vec<(String, usize)>,
    canon_var: &Vec<(usize, String)>,
) -> (r: Instruction)
    ensures
        r@ == canon_instr(instr@, var2num.deep_view(), canon_var.deep_view()),
{
    match instr {
        Instruction::Add { dest, op1, op2 } => {
            let canon_op1 = match get_canonical(op1, var2num, canon_var) {
                Some(c) => c,
                None => op1.clone(),
            };
            let canon_op2 = match get_canonical(op2, var2num, canon_var) {
                Some(c) => c,
                None => op2.clone(),
            };
            Instruction::Add { dest: dest.clone(), op1: canon_op1, op2: canon_op2 }
        },
        Instruction::Mul { dest, op1, op2 } => {
            let canon_op1 = match get_canonical(op1, var2num, canon_var) {
                Some(c) => c,
                None => op1.clone(),
            };
            let canon_op2 = match get_canonical(op2, var2num, canon_var) {
                Some(c) => c,
                None => op2.clone(),
            };
            Instruction::Mul { dest: dest.clone(), op1: canon_op1, op2: canon_op2 }
        },
        Instruction::Eq { dest, op1, op2 } => {
            let canon_op1 = match get_canonical(op1, var2num, canon_var) {
                Some(c) => c,
                None => op1.clone(),
            };
            let canon_op2 = match get_canonical(op2, var2num, canon_var) {
                Some(c) => c,
                None => op2.clone(),
            };
            Instruction::Eq { dest: dest.clone(), op1: canon_op1, op2: canon_op2 }
        },
        Instruction::Move { dest, src } => {
            let canon_src = match get_canonical(src, var2num, canon_var) {
                Some(c) => c,
                None => src.clone(),
            };
            Instruction::Move { dest: dest.clone(), src: canon_src }
        },
        Instruction::Id { dest, src } => {
            let canon_src = match get_canonical(src, var2num, canon_var) {
                Some(c) => c,
                None => src.clone(),
            };
            Instruction::Id { dest: dest.clone(), src: canon_src }
        },
        Instruction::Print { value } => {
            let canon_value = match get_canonical(value, var2num, canon_var) {
                Some(c) => c,
                None => value.clone(),
            };
            Instruction::Print { value: canon_value }
        },
        other => copy_instr(other),
    }
}

/// The expression key of a copy: the key its source's number was minted
/// under (transitive propagation), or the bare number.
pub open spec fn copy_key(
    src: Seq<char>,
    var2num: Seq<(Seq<char>, usize)>,
    expr_for_num: Seq<(usize, ExprKey)>,
) -> Option<ExprKey> {
    match assoc(var2num, src) {
        Some(idx) => match assoc(expr_for_num, idx) {
            Some(k) => Some(k),
            None => Some(ExprKey::Id(idx)),
        },
        None => None,
    }
}

/// The expression key an instruction hashes to, if its operands all carry
/// value numbers. `Add`/`Mul` sort their operand numbers so commuted
/// operands share one key.
pub open spec fn key_of(
    i: InstrV,
    var2num: Seq<(Seq<char>, usize)>,
    expr_for_num: Seq<(usize, ExprKey)>,
) -> Option<ExprKey> {
    match i {
        InstrV::Const { values, .. } => Some(ExprKey::Const(values)),
        InstrV::Id { src, .. } => copy_key(src, var2num, expr_for_num),
        InstrV::Move { src, .. } => copy_key(src, var2num, expr_for_num),
        InstrV::Add { op1, op2, .. } => match (assoc(var2num, op1), assoc(var2num, op2)) {
            (Some(i1), Some(i2)) => if i1 <= i2 {
                Some(ExprKey::Add(i1, i2))
            } else {
                Some(ExprKey::Add(i2, i1))
            },
            _ => None,
        },
        InstrV::Mul { op1, op2, .. } => match (assoc(var2num, op1), assoc(var2num, op2)) {
            (Some(i1), Some(i2)) => if i1 <= i2 {
                Some(ExprKey::Mul(i1, i2))
            } else {
                Some(ExprKey::Mul(i2, i1))
            },
            _ => None,
        },
        InstrV::Eq { op1, op2, .. } => match (assoc(var2num, op1), assoc(var2num, op2)) {
            (Some(i1), Some(i2)) => Some(ExprKey::Eq(i1, i2)),
            _ => None,
        },
        InstrV::Print { value } => match assoc(var2num, value) {
            Some(idx) => Some(ExprKey::Id(idx)),
            None => None,
        },
        _ => None,
    }
}

/// The expression key of `instr` under the current numbering, if any.
pub fn get_var(
    instr: &Instruction,
    var2num: &Vec<(String, usize)>,
    expr_for_num: &Vec<(usize, ExprKey)>,
) -> (r: Option<ExprKey>)
    ensures
        r == key_of(instr@, var2num.deep_view(), expr_for_num.deep_view()),
{
    match instr {
        Instruction::Const { values, .. } => Some(ExprKey::Const(*values)),
        Instruction::Id { src, .. } => match lookup_var(var2num, src) {
            Some(idx) => match lookup_expr(expr_for_num, idx) {
                Some(k) => Some(k),
                None => Some(ExprKey::Id(idx)),
            },
            None => None,
        },
        Instruction::Move { src, .. } => match lookup_var(var2num, src) {
            Some(idx) => match lookup_expr(expr_for_num, idx) {
                Some(k) => Some(k),
                None => Some(ExprKey::Id(idx)),
            },
            None => None,
        },
        Instruction::Add { op1, op2, .. } => match (lookup_var(var2num, op1), lookup_var(
            var2num,
            op2,
        )) {
            (Some(i1), Some(i2)) => if i1 <= i2 {
                Some(ExprKey::Add(i1, i2))
            } else {
                Some(ExprKey::Add(i2, i1))
            },
            _ => None,
        },
        Instruction::Mul { op1, op2, .. } => match (lookup_var(var2num, op1), lookup_var(
            var2num,
            op2,
        )) {
            (Some(i1), Some(i2)) => if i1 <= i2 {
                Some(ExprKey::Mul(i1, i2))
            } else {
                Some(ExprKey::Mul(i2, i1))
            },
            _ => None,
        },
        Instruction::Eq { op1, op2, .. } => match (lookup_var(var2num, op1), lookup_var(
            var2num,
            op2,
        )) {
            (Some(i1), Some(i2)) => Some(ExprKey::Eq(i1, i2)),
            _ => None,
        },
        Instruction::Print { value } => match lookup_var(var2num, value) {
            Some(idx) => Some(ExprKey::Id(idx)),
            None => None,
        },
        _ => None,
    }
}


/// The value-numbering tables: variable to number, expression key to number,
/// number to canonical variable, number to minting instruction, and number to
/// minting key.
pub struct LvnState {
    pub var2num: Seq<(Seq<char>, usize)>,
    pub table: Seq<(ExprKey, usize)>,
    pub canon_var: Seq<(usize, Seq<char>)>,
    pub num2instr: Seq<(usize, InstrV)>,
    pub expr_for_num: Seq<(usize, ExprKey)>,
}

pub open spec fn lvn_init() -> LvnState {
    LvnState {
        var2num: seq![],
        table: seq![],
        canon_var: seq![],
        num2instr: seq![],
        expr_for_num: seq![],
    }
}

/// One value-numbering step: a keyed instruction whose key is already in the
/// table is rewritten as a replayed constant or a copy from the canonical
/// variable; a new key is minted and the instruction is emitted with
/// canonical operands; a keyless instruction passes through canonicalized.
pub open spec fn lvn_step(st: LvnState, i: InstrV) -> (LvnState, InstrV) {
    match key_of(i, st.var2num, st.expr_for_num) {
        None => (st, canon_instr(i, st.var2num, st.canon_var)),
        Some(key) => match assoc(st.table, key) {
            Some(num) => match dest_of(i) {
                Some(d) => {
                    let out = match assoc(st.num2instr, num) {
                        Some(InstrV::Const { typ, values, .. }) => InstrV::Const {
                            dest: d,
                            typ,
                            values,
                        },
                        _ => match assoc(st.canon_var, num) {
                            Some(c) => InstrV::Id { dest: d, src: c },
                            None => canon_instr(i, st.var2num, st.canon_var),
                        },
                    };
                    let st1 = LvnState { var2num: st.var2num.push((d, num)), ..st };
                    (st1, out)
                },
                None => (st, canon_instr(i, st.var2num, st.canon_var)),
            },
            None => {
                let idx = (st.table.len() + 1) as usize;
                let v2n1 = match dest_of(i) {
                    Some(d) => st.var2num.push((d, idx)),
                    None => st.var2num,
                };
                let canon1 = match dest_of(i) {
                    Some(d) => st.canon_var.push((idx, d)),
                    None => st.canon_var,
                };
                let st1 = LvnState {
                    var2num: v2n1,
                    table: st.table.push((key, idx)),
                    canon_var: canon1,
                    num2instr: st.num2instr.push((idx, i)),
                    expr_for_num: st.expr_for_num.push((idx, key)),
                };
                (st1, canon_instr(i, v2n1, canon1))
            },
        },
    }
}

/// Value numbering of the first `n` instructions of `s`.
pub open spec fn lvn_run(s: Seq<InstrV>, n: int) -> (LvnState, Seq<InstrV>)
    decreases n,
{
    if n <= 0 {
        (lvn_init(), seq![])
    } else {
        let prev = lvn_run(s, n - 1);
        let step = lvn_step(prev.0, s[n - 1]);
        (step.0, prev.1.push(step.1))
    }
}

/// The value-numbered form of a whole block.
pub open spec fn lvn_spec(s: Seq<InstrV>) -> Seq<InstrV> {
    lvn_run(s, s.len() as int).1
}

/// Local value numbering over one block: common-subexpression elimination
/// and copy propagation, keyed by operand value numbers.
pub fn lvn(block: &Vec<Instruction>) -> (r: Vec<Instruction>)
    ensures
        r.deep_view() == lvn_spec(block.deep_view()),
{
    let ghost bv = block.deep_view();
    let mut var2num: Vec<(String, usize)> = Vec::new();
    let mut table: Vec<(ExprKey, usize)> = Vec::new();
    let mut canon_var: Vec<(usize, String)> = Vec::new();
    let mut num2instr: Vec<(usize, Instruction)> = Vec::new();
    let mut expr_for_num: Vec<(usize, ExprKey)> = Vec::new();
    let mut new_block: Vec<Instruction> = Vec::new();
    let n = block.len();
    let mut i: usize = 0;
    proof {
        assert(var2num.deep_view() =~= lvn_run(bv, 0).0.var2num);
        assert(table.deep_view() =~= lvn_run(bv, 0).0.table);
        assert(canon_var.deep_view() =~= lvn_run(bv, 0).0.canon_var);
        assert(num2instr.deep_view() =~= lvn_run(bv, 0).0.num2instr);
        assert(expr_for_num.deep_view() =~= lvn_run(bv, 0).0.expr_for_num);
        assert(new_block.deep_view() =~= lvn_run(bv, 0).1);
    }
    while i < n
        invariant
            i <= n,
            n == block.len(),
            bv == block.deep_view(),
            table@.len() <= i,
            var2num.deep_view() == lvn_run(bv, i as int).0.var2num,
            table.deep_view() == lvn_run(bv, i as int).0.table,
            canon_var.deep_view() == lvn_run(bv, i as int).0.canon_var,
            num2instr.deep_view() == lvn_run(bv, i as int).0.num2instr,
            expr_for_num.deep_view() == lvn_run(bv, i as int).0.expr_for_num,
            new_block.deep_view() == lvn_run(bv, i as int).1,
        decreases n - i,
    {
        let ghost st = lvn_run(bv, i as int).0;
        let ghost stepped = lvn_step(st, bv[i as int]);
        let instr = &block[i];
        proof {
            assert(instr@ == bv[i as int]);
            assert(table.deep_view().len() == table@.len());
        }
        match get_var(instr, &var2num, &expr_for_num) {
            Some(expr_key) => {
                match lookup_key(&table, expr_key) {
                    Some(num) => {
                        match get_dest(instr) {
                            Some(dest) => {
                                let out = match lookup_instr(&num2instr, num) {
                                    Some(Instruction::Const { typ, values, .. }) => {
                                        Instruction::Const { dest: dest.clone(), typ, values }
                                    },
                                    _ => match lookup_canon(&canon_var, num) {
                                        Some(canon) => Instruction::Id {
                                            dest: dest.clone(),
                                            src: canon,
                                        },
                                        None => canonicalize_operands(instr, &var2num, &canon_var),
                                    },
                                };
                                let dest_key = dest.clone();
                                var2num.push((dest_key, num));
                                new_block.push(out);
                                proof {
                                    assert(var2num.deep_view() =~= stepped.0.var2num);
                                    assert(new_block.deep_view() =~= lvn_run(bv, i as int).1.push(
                                        stepped.1,
                                    ));
                                }
                            },
                            None => {
                                let ci = canonicalize_operands(instr, &var2num, &canon_var);
                                new_block.push(ci);
                                proof {
                                    assert(new_block.deep_view() =~= lvn_run(bv, i as int).1.push(
                                        stepped.1,
                                    ));
                                }
                            },
                        }
                    },
                    None => {
                        let idx = table.len() + 1;
                        table.push((expr_key, idx));
                        expr_for_num.push((idx, expr_key));
                        num2instr.push((idx, copy_instr(instr)));
                        match get_dest(instr) {
                            Some(dest) => {
                                let dest_key = dest.clone();
                                let dest_canon = dest.clone();
                                var2num.push((dest_key, idx));
                                canon_var.push((idx, dest_canon));
                            },
                            None => {},
                        }
                        let ci = canonicalize_operands(instr, &var2num, &canon_var);
                        new_block.push(ci);
                        proof {
                            assert(table.deep_view() =~= stepped.0.table);
                            assert(expr_for_num.deep_view() =~= stepped.0.expr_for_num);
                            assert(num2instr.deep_view() =~= stepped.0.num2instr);
                            assert(var2num.deep_view() =~= stepped.0.var2num);
                            assert(canon_var.deep_view() =~= stepped.0.canon_var);
                            assert(new_block.deep_view() =~= lvn_run(bv, i as int).1.push(
                                stepped.1,
                            ));
                        }
                    },
                }
            },
            None => {
                let ci = canonicalize_operands(instr, &var2num, &canon_var);
                new_block.push(ci);
                proof {
                    assert(new_block.deep_view() =~= lvn_run(bv, i as int).1.push(stepped.1));
                }
            },
        }
        i += 1;
        proof {
            assert(lvn_run(bv, i as int).0 == stepped.0);
            assert(lvn_run(bv, i as int).1 == lvn_run(bv, i as int - 1).1.push(stepped.1));
        }
    }
    proof {
        assert(i == n);
        assert(bv.len() == n);
    }
    new_block
}


/// One constant-folding step over the running variable-to-literal map:
/// constants are recorded; an `Add`/`Mul` whose operands are both known
/// integers (and whose exact result fits `i64`) becomes a recorded constant;
/// everything else passes through.
pub open spec fn fold_step(env: Seq<(Seq<char>, Literal)>, i: InstrV) -> (
    Seq<(Seq<char>, Literal)>,
    InstrV,
) {
    match i {
        InstrV::Const { dest, typ, values } => (env.push((dest, values)), i),
        InstrV::Add { dest, op1, op2 } => match (assoc(env, op1), assoc(env, op2)) {
            (Some(Literal::Int(v1)), Some(Literal::Int(v2))) => if v1 + v2 > i64::MAX || v1 + v2
                < i64::MIN {
                (env, i)
            } else {
                let lit = Literal::Int((v1 + v2) as i64);
                (env.push((dest, lit)), InstrV::Const { dest, typ: Types::Int, values: lit })
            },
            _ => (env, i),
        },
        InstrV::Mul { dest, op1, op2 } => match (assoc(env, op1), assoc(env, op2)) {
            (Some(Literal::Int(v1)), Some(Literal::Int(v2))) => if v1 * v2 > i64::MAX || v1 * v2
                < i64::MIN {
                (env, i)
            } else {
                let lit = Literal::Int((v1 * v2) as i64);
                (env.push((dest, lit)), InstrV::Const { dest, typ: Types::Int, values: lit })
            },
            _ => (env, i),
        },
        _ => (env, i),
    }
}

/// Constant folding of the first `n` instructions of `s`.
pub open spec fn fold_run(s: Seq<InstrV>, n: int) -> (Seq<(Seq<char>, Literal)>, Seq<InstrV>)
    decreases n,
{
    if n <= 0 {
        (seq![], seq![])
    } else {
        let prev = fold_run(s, n - 1);
        let step = fold_step(prev.0, s[n - 1]);
        (step.0, prev.1.push(step.1))
    }
}

/// The constant-folded form of a whole block.
pub open spec fn fold_spec(s: Seq<InstrV>) -> Seq<InstrV> {
    fold_run(s, s.len() as int).1
}

/// A single forward constant-folding pass over a variable-to-literal map fed
/// by `Const` instructions. An `Add`/`Mul` of two known integer literals is
/// replaced by the `Const` holding the sum/product when it fits `i64`, and
/// recorded in turn; all other instructions pass through unchanged.
pub fn constant_fold(block: &Vec<Instruction>) -> (r: Vec<Instruction>)
    ensures
        r.deep_view() == fold_spec(block.deep_view()),
{
    let ghost bv = block.deep_view();
    let mut const_values: Vec<(String, Literal)> = Vec::new();
    let mut new_block: Vec<Instruction> = Vec::new();
    let n = block.len();
    let mut i: usize = 0;
    proof {
        assert(const_values.deep_view() =~= fold_run(bv, 0).0);
        assert(new_block.deep_view() =~= fold_run(bv, 0).1);
    }
    while i < n
        invariant
            i <= n,
            n == block.len(),
            bv == block.deep_view(),
            const_values.deep_view() == fold_run(bv, i as int).0,
            new_block.deep_view() == fold_run(bv, i as int).1,
        decreases n - i,
    {
        let ghost env = fold_run(bv, i as int).0;
        let ghost stepped = fold_step(env, bv[i as int]);
        let instr = &block[i];
        proof {
            assert(instr@ == bv[i as int]);
        }
        match instr {
            Instruction::Const { dest, values, .. } => {
                const_values.push((dest.clone(), *values));
                new_block.push(copy_instr(instr));
                proof {
                    assert(const_values.deep_view() =~= stepped.0);
                }
            },
            Instruction::Add { dest, op1, op2 } => {
                let folded = match (lookup_lit(&const_values, op1), lookup_lit(
                    &const_values,
                    op2,
                )) {
                    (Some(Literal::Int(v1)), Some(Literal::Int(v2))) => match v1.checked_add(v2) {
                        Some(sum) => Some(Literal::Int(sum)),
                        None => None,
                    },
                    _ => None,
                };
                match folded {
                    Some(lit) => {
                        const_values.push((dest.clone(), lit));
                        new_block.push(
                            Instruction::Const { dest: dest.clone(), typ: Types::Int, values: lit },
                        );
                        proof {
                            assert(const_values.deep_view() =~= stepped.0);
                        }
                    },
                    None => {
                        new_block.push(copy_instr(instr));
                    },
                }
            },
            Instruction::Mul { dest, op1, op2 } => {
                let folded = match (lookup_lit(&const_values, op1), lookup_lit(
                    &const_values,
                    op2,
                )) {
                    (Some(Literal::Int(v1)), Some(Literal::Int(v2))) => match v1.checked_mul(v2) {
                        Some(prod) => Some(Literal::Int(prod)),
                        None => None,
                    },
                    _ => None,
                };
                match folded {
                    Some(lit) => {
                        const_values.push((dest.clone(), lit));
                        new_block.push(
                            Instruction::Const { dest: dest.clone(), typ: Types::Int, values: lit },
                        );
                        proof {
                            assert(const_values.deep_view() =~= stepped.0);
                        }
                    },
                    None => {
                        new_block.push(copy_instr(instr));
                    },
                }
            },
            _ => {
                new_block.push(copy_instr(instr));
            },
        }
        i += 1;
        proof {
            assert(new_block.deep_view() =~= fold_run(bv, i as int).1);
        }
    }
    new_block
}


/// Whether instruction `i` reads the name `x`.
pub open spec fn uses_name(i: InstrV, x: Seq<char>) -> bool {
    uses_of(i).contains(x)
}

/// Whether instruction `i` assigns the name `d`.
pub open spec fn defines(i: InstrV, d: Seq<char>) -> bool {
    dest_of(i) == Some(d)
}

/// Whether any instruction of the block reads the name `x`.
pub open spec fn used_anywhere(b: Seq<InstrV>, x: Seq<char>) -> bool {
    exists|k: int| 0 <= k < b.len() && uses_name(#[trigger] b[k], x)
}

/// The unused-result pass keeps an instruction iff it has no destination or
/// its destination is read somewhere in the block.
pub open spec fn unused_kept(b: Seq<InstrV>, i: InstrV) -> bool {
    match dest_of(i) {
        Some(d) => used_anywhere(b, d),
        None => true,
    }
}

/// The unused-result pass applied to the first `n` instructions.
pub open spec fn dce_unused_upto(b: Seq<InstrV>, n: int) -> Seq<InstrV>
    decreases n,
{
    if n <= 0 {
        seq![]
    } else {
        let pre = dce_unused_upto(b, n - 1);
        if unused_kept(b, b[n - 1]) {
            pre.push(b[n - 1])
        } else {
            pre
        }
    }
}

/// The block after the unused-result dead-code pass.
pub open spec fn dce_unused_spec(b: Seq<InstrV>) -> Seq<InstrV> {
    dce_unused_upto(b, b.len() as int)
}

/// Whether `instr` reads the name `x`.
fn uses_in(instr: &Instruction, x: &String) -> (r: bool)
    ensures
        r == uses_name(instr@, x@),
{
    let used = get_used_var(instr);
    let m = used.len();
    let mut k: usize = 0;
    while k < m
        invariant
            k <= m,
            m == used.len(),
            used.deep_view() == uses_of(instr@),
            forall|j: int| 0 <= j < k ==> used.deep_view()[j] != x@,
        decreases m - k,
    {
        if used[k] == *x {
            proof {
                assert(used.deep_view()[k as int] == x@);
            }
            return true;
        }
        k += 1;
    }
    proof {
        assert(!uses_of(instr@).contains(x@));
    }
    false
}

/// Whether any instruction of the block reads the name `x`.
fn used_in_block(block: &Vec<Instruction>, x: &String) -> (r: bool)
    ensures
        r == used_anywhere(block.deep_view(), x@),
{
    let ghost bv = block.deep_view();
    let n = block.len();
    let mut k: usize = 0;
    while k < n
        invariant
            k <= n,
            n == block.len(),
            bv == block.deep_view(),
            forall|j: int| 0 <= j < k ==> !uses_name(bv[j], x@),
        decreases n - k,
    {
        if uses_in(&block[k], x) {
            proof {
                assert(uses_name(bv[k as int], x@));
            }
            return true;
        }
        k += 1;
    }
    false
}

/// Dead-code elimination, unused-result pass: drop every instruction whose
/// destination is never read anywhere in the block; destination-less
/// instructions are always kept.
pub fn dead_elimination_unused(block: &Vec<Instruction>) -> (r: Vec<Instruction>)
    ensures
        r.deep_view() == dce_unused_spec(block.deep_view()),
{
    let ghost bv = block.deep_view();
    let mut new_block: Vec<Instruction> = Vec::new();
    let n = block.len();
    let mut i: usize = 0;
    proof {
        assert(new_block.deep_view() =~= dce_unused_upto(bv, 0));
    }
    while i < n
        invariant
            i <= n,
            n == block.len(),
            bv == block.deep_view(),
            new_block.deep_view() == dce_unused_upto(bv, i as int),
        decreases n - i,
    {
        let instr = &block[i];
        proof {
            assert(instr@ == bv[i as int]);
        }
        let keep = match get_dest(instr) {
            Some(dest) => used_in_block(block, dest),
            None => true,
        };
        if keep {
            new_block.push(copy_instr(instr));
            proof {
                assert(new_block.deep_view() =~= dce_unused_upto(bv, i as int).push(
                    bv[i as int],
                ));
            }
        }
        i += 1;
    }
    new_block
}


/// The redefinition pass keeps the definition at index `i` iff its value can
/// still be observed: some later instruction reads the destination before any
/// intervening redefinition, or no later instruction redefines it (it is
/// live at block end). Destination-less instructions are always kept.
pub open spec fn redef_kept(b: Seq<InstrV>, i: int) -> bool {
    match dest_of(b[i]) {
        None => true,
        Some(d) => (exists|k: int|
            i < k < b.len() && uses_name(#[trigger] b[k], d) && (forall|j: int|
                i < j < k ==> !defines(#[trigger] b[j], d))) || (forall|k: int|
            i < k < b.len() ==> !defines(#[trigger] b[k], d)),
    }
}

/// The redefinition pass applied to the first `n` instructions.
pub open spec fn dce_redef_upto(b: Seq<InstrV>, n: int) -> Seq<InstrV>
    decreases n,
{
    if n <= 0 {
        seq![]
    } else {
        let pre = dce_redef_upto(b, n - 1);
        if redef_kept(b, n - 1) {
            pre.push(b[n - 1])
        } else {
            pre
        }
    }
}

/// The block after the redefinition dead-code pass.
pub open spec fn dce_redef_spec(b: Seq<InstrV>) -> Seq<InstrV> {
    dce_redef_upto(b, b.len() as int)
}

/// Whether the definition at index `i` is still observable later in the
/// block: read before any redefinition, or never redefined.
fn def_observable(block: &Vec<Instruction>, i: usize, d: &String) -> (r: bool)
    requires
        i < block.len(),
        defines(block.deep_view()[i as int], d@),
    ensures
        r == redef_kept(block.deep_view(), i as int),
{
    let ghost bv = block.deep_view();
    let n = block.len();
    let mut k: usize = i + 1;
    while k < n
        invariant
            i < k <= n,
            n == block.len(),
            bv == block.deep_view(),
            defines(bv[i as int], d@),
            forall|j: int| i < j < k ==> !uses_name(#[trigger] bv[j], d@) && !defines(bv[j], d@),
        decreases n - k,
    {
        if uses_in(&block[k], d) {
            proof {
                let ki = k as int;
                let ii = i as int;
                assert(uses_name(bv[ki], d@));
                assert(forall|j: int| ii < j < ki ==> !defines(#[trigger] bv[j], d@));
                assert(ii < ki < bv.len() && uses_name(bv[ki], d@) && (forall|j: int|
                    ii < j < ki ==> !defines(#[trigger] bv[j], d@)));
                assert(redef_kept(bv, ii));
            }
            return true;
        }
        let redefined = match get_dest(&block[k]) {
            Some(d2) => *d2 == *d,
            None => false,
        };
        if redefined {
            proof {
                let ki = k as int;
                let ii = i as int;
                assert(defines(bv[ki], d@));
                assert forall|k2: int|
                    ii < k2 < bv.len() && uses_name(#[trigger] bv[k2], d@) implies !(forall|j: int|
                    ii < j < k2 ==> !defines(#[trigger] bv[j], d@)) by {
                    if k2 <= ki {
                        assert(!uses_name(bv[k2], d@));
                    } else {
                        assert(ii < ki < k2 && defines(bv[ki], d@));
                    }
                }
                assert(!(forall|k2: int| ii < k2 < bv.len() ==> !defines(
                    #[trigger] bv[k2],
                    d@,
                )));
                assert(!redef_kept(bv, ii));
            }
            return false;
        }
        k += 1;
    }
    proof {
        assert(redef_kept(bv, i as int));
    }
    true
}

/// Dead-code elimination, redefinition pass: a definition whose value is
/// overwritten before any read, and which does not survive to block end, is
/// dropped.
pub fn dead_elimination_redefined(block: &Vec<Instruction>) -> (r: Vec<Instruction>)
    ensures
        r.deep_view() == dce_redef_spec(block.deep_view()),
{
    let ghost bv = block.deep_view();
    let mut new_block: Vec<Instruction> = Vec::new();
    let n = block.len();
    let mut i: usize = 0;
    proof {
        assert(new_block.deep_view() =~= dce_redef_upto(bv, 0));
    }
    while i < n
        invariant
            i <= n,
            n == block.len(),
            bv == block.deep_view(),
            new_block.deep_view() == dce_redef_upto(bv, i as int),
        decreases n - i,
    {
        let instr = &block[i];
        proof {
            assert(instr@ == bv[i as int]);
        }
        let keep = match get_dest(instr) {
            Some(dest) => def_observable(block, i, dest),
            None => true,
        };
        if keep {
            new_block.push(copy_instr(instr));
            proof {
                assert(new_block.deep_view() =~= dce_redef_upto(bv, i as int).push(bv[i as int]));
            }
        }
        i += 1;
    }
    new_block
}

/// One round of the two dead-code passes: unused-result, then redefinition.
pub fn dce_combined(block: &Vec<Instruction>) -> (r: Vec<Instruction>)
    ensures
        r.deep_view() == dce_redef_spec(dce_unused_spec(block.deep_view())),
{
    let pass1 = dead_elimination_unused(block);
    dead_elimination_redefined(&pass1)
}


/// One combined dead-code round: the unused-result pass then the
/// redefinition pass.
pub open spec fn dce_round(s: Seq<InstrV>) -> Seq<InstrV> {
    dce_redef_spec(dce_unused_spec(s))
}

/// Combined rounds iterated to a fixed point, bounded by `fuel`.
pub open spec fn dce_rounds(s: Seq<InstrV>, fuel: nat) -> Seq<InstrV>
    decreases fuel,
{
    if fuel == 0 {
        s
    } else {
        let t = dce_round(s);
        if t == s {
            s
        } else {
            dce_rounds(t, (fuel - 1) as nat)
        }
    }
}

/// The full local pipeline: value numbering once, folding once, then
/// dead-code rounds to a fixed point (one instruction is removed per
/// non-final round, so `len + 1` rounds always reach it).
pub open spec fn final_opt_spec(b: Seq<InstrV>) -> Seq<InstrV> {
    let start = fold_spec(lvn_spec(b));
    dce_rounds(start, (start.len() + 1) as nat)
}

proof fn lemma_dce_unused_upto_len(b: Seq<InstrV>, n: int)
    requires
        0 <= n,
    ensures
        dce_unused_upto(b, n).len() <= n,
    decreases n,
{
    if n > 0 {
        lemma_dce_unused_upto_len(b, n - 1);
    }
}

proof fn lemma_dce_redef_upto_len(b: Seq<InstrV>, n: int)
    requires
        0 <= n,
    ensures
        dce_redef_upto(b, n).len() <= n,
    decreases n,
{
    if n > 0 {
        lemma_dce_redef_upto_len(b, n - 1);
    }
}

/// A filtering pass that drops nothing returns the block itself.
proof fn lemma_dce_unused_upto_full(b: Seq<InstrV>, n: int)
    requires
        0 <= n <= b.len(),
        dce_unused_upto(b, n).len() == n,
    ensures
        dce_unused_upto(b, n) == b.subrange(0, n),
    decreases n,
{
    if n == 0 {
        assert(dce_unused_upto(b, 0) =~= b.subrange(0, 0));
    } else {
        lemma_dce_unused_upto_len(b, n - 1);
        lemma_dce_unused_upto_full(b, n - 1);
        assert(dce_unused_upto(b, n - 1).push(b[n - 1]) =~= b.subrange(0, n));
    }
}

proof fn lemma_dce_redef_upto_full(b: Seq<InstrV>, n: int)
    requires
        0 <= n <= b.len(),
        dce_redef_upto(b, n).len() == n,
    ensures
        dce_redef_upto(b, n) == b.subrange(0, n),
    decreases n,
{
    if n == 0 {
        assert(dce_redef_upto(b, 0) =~= b.subrange(0, 0));
    } else {
        lemma_dce_redef_upto_len(b, n - 1);
        lemma_dce_redef_upto_full(b, n - 1);
        assert(dce_redef_upto(b, n - 1).push(b[n - 1]) =~= b.subrange(0, n));
    }
}

/// A non-trivial dead-code round removes at least one instruction.
proof fn lemma_round_shrinks(s: Seq<InstrV>)
    requires
        dce_round(s) != s,
    ensures
        dce_round(s).len() < s.len(),
{
    let u = dce_unused_spec(s);
    let r = dce_redef_spec(u);
    lemma_dce_unused_upto_len(s, s.len() as int);
    lemma_dce_redef_upto_len(u, u.len() as int);
    if r.len() == s.len() {
        lemma_dce_unused_upto_full(s, s.len() as int);
        assert(s.subrange(0, s.len() as int) =~= s);
        lemma_dce_redef_upto_full(u, u.len() as int);
        assert(u.subrange(0, u.len() as int) =~= u);
        assert(false);
    }
}

proof fn lemma_dce_rounds_fixed(s: Seq<InstrV>, fuel: nat)
    requires
        fuel >= s.len() + 1,
    ensures
        dce_round(dce_rounds(s, fuel)) == dce_rounds(s, fuel),
    decreases fuel,
{
    let t = dce_round(s);
    if t != s {
        lemma_round_shrinks(s);
        lemma_dce_rounds_fixed(t, (fuel - 1) as nat);
    }
}

/// The combined local pipeline stabilizes: one more round of the two
/// dead-code passes on its result changes nothing.
pub proof fn lemma_final_opt_stable(b: Seq<InstrV>)
    ensures
        dce_round(final_opt_spec(b)) == final_opt_spec(b),
{
    let start = fold_spec(lvn_spec(b));
    lemma_dce_rounds_fixed(start, (start.len() + 1) as nat);
}

/// The combined local pipeline: value-number once, fold once, then
/// alternate the two dead-code passes until the block stabilizes.
pub fn final_local_opt(block: &Vec<Instruction>) -> (r: Vec<Instruction>)
    ensures
        r.deep_view() == final_opt_spec(block.deep_view()),
{
    let ghost bv = block.deep_view();
    let lvn_block = lvn(block);
    let mut current = constant_fold(&lvn_block);
    let ghost start = fold_spec(lvn_spec(bv));
    let ghost fuel = (start.len() + 1) as nat;
    let ghost mut used: nat = 0;
    loop
        invariant
            bv == block.deep_view(),
            start == fold_spec(lvn_spec(bv)),
            fuel == (start.len() + 1) as nat,
            used <= fuel,
            fuel - used >= current.deep_view().len() + 1,
            dce_rounds(start, fuel) == dce_rounds(current.deep_view(), (fuel - used) as nat),
        decreases fuel - used,
    {
        let pass1 = dead_elimination_unused(&current);
        let next = dead_elimination_redefined(&pass1);
        proof {
            assert(next.deep_view() == dce_round(current.deep_view()));
        }
        if block_eq(&next, &current) {
            proof {
                assert(dce_rounds(current.deep_view(), (fuel - used) as nat)
                    == current.deep_view());
            }
            return next;
        }
        proof {
            lemma_round_shrinks(current.deep_view());
            used = used + 1;
        }
        current = next;
    }
}


/// A structural copy of a block, equal to the original element for element.
pub(crate) fn copy_block(b: &Vec<Instruction>) -> (r: Vec<Instruction>)
    ensures
        r@ == b@,
{
    let mut r: Vec<Instruction> = Vec::new();
    let n = b.len();
    let mut i: usize = 0;
    while i < n
        invariant
            i <= n,
            n == b.len(),
            r@ =~= b@.subrange(0, i as int),
        decreases n - i,
    {
        r.push(copy_instr(&b[i]));
        proof {
            assert(r@ =~= b@.subrange(0, i as int + 1));
        }
        i += 1;
    }
    proof {
        assert(b@.subrange(0, n as int) =~= b@);
    }
    r
}

} // verus!
