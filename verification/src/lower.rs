//! Lowering: the depth-first walk that turns an expression tree into a
//! linear instruction sequence for a code-generation backend.
//!
//! The backend capability is modelled by [`Emitter`]: six primitive
//! emission operations (constant-load, negate, add, subtract, multiply,
//! divide), each appending one instruction and returning a handle — the
//! instruction's index — that stands for its not-yet-materialized result.
//! The walker visits the tree post-order, left operand before right, so
//! emitted instruction order follows evaluation order of the operands,
//! and every operand handle points at an earlier instruction.

use crate::parser::{is_literal, parser, spec_parse, wf_expr, Expr, ExprModel, ParseError};
use vstd::prelude::*;

verus! {

/// One emitted instruction. A constant-load carries the literal's exact
/// text for the backend to convert; the other instructions name their
/// operands by handle.
#[derive(Debug, Clone, PartialEq)]
pub enum Instr {
    Const(String),
    Neg(usize),
    Add(usize, usize),
    Sub(usize, usize),
    Mul(usize, usize),
    Div(usize, usize),
}

/// The mathematical model of an instruction.
pub enum InstrModel {
    Const(Seq<char>),
    Neg(nat),
    Add(nat, nat),
    Sub(nat, nat),
    Mul(nat, nat),
    Div(nat, nat),
}

impl View for Instr {
    type V = InstrModel;

    open spec fn view(&self) -> InstrModel {
        match self {
            Instr::Const(lit) => InstrModel::Const(lit@),
            Instr::Neg(x) => InstrModel::Neg(*x as nat),
            Instr::Add(x, y) => InstrModel::Add(*x as nat, *y as nat),
            Instr::Sub(x, y) => InstrModel::Sub(*x as nat, *y as nat),
            Instr::Mul(x, y) => InstrModel::Mul(*x as nat, *y as nat),
            Instr::Div(x, y) => InstrModel::Div(*x as nat, *y as nat),
        }
    }
}

/// The instruction buffer a lowering session appends to. Its view is the
/// sequence of instruction models emitted so far.
pub struct Emitter {
    pub instrs: Vec<Instr>,
}

impl View for Emitter {
    type V = Seq<InstrModel>;

    open spec fn view(&self) -> Seq<InstrModel> {
        self.instrs@.map_values(|ins: Instr| ins@)
    }
}

impl Emitter {
    /// A fresh session with nothing emitted.
    pub fn new() -> (r: Emitter)
        ensures
            r@ == Seq::<InstrModel>::empty(),
    {
        let e = Emitter { instrs: Vec::new() };
        proof {
            assert(e@ =~= Seq::<InstrModel>::empty());
        }
        e
    }

    /// Emit a constant-load of the given literal text.
    pub fn emit_const(&mut self, lit: String) -> (h: usize)
        ensures
            final(self)@ == old(self)@.push(InstrModel::Const(lit@)),
            h == old(self)@.len(),
    {
        let h = self.instrs.len();
        self.instrs.push(Instr::Const(lit));
        proof {
            assert(self@ =~= old(self)@.push(InstrModel::Const(lit@)));
        }
        h
    }

    /// Emit a negation of the value at handle `x`.
    pub fn emit_neg(&mut self, x: usize) -> (h: usize)
        requires
            x < old(self)@.len(),
        ensures
            final(self)@ == old(self)@.push(InstrModel::Neg(x as nat)),
            h == old(self)@.len(),
    {
        let h = self.instrs.len();
        self.instrs.push(Instr::Neg(x));
        proof {
            assert(self@ =~= old(self)@.push(InstrModel::Neg(x as nat)));
        }
        h
    }

    /// Emit an addition of the values at handles `x` and `y`.
    pub fn emit_add(&mut self, x: usize, y: usize) -> (h: usize)
        requires
            x < old(self)@.len(),
            y < old(self)@.len(),
        ensures
            final(self)@ == old(self)@.push(InstrModel::Add(x as nat, y as nat)),
            h == old(self)@.len(),
    {
        let h = self.instrs.len();
        self.instrs.push(Instr::Add(x, y));
        proof {
            assert(self@ =~= old(self)@.push(InstrModel::Add(x as nat, y as nat)));
        }
        h
    }

    /// Emit a subtraction of the value at handle `y` from the one at `x`.
    pub fn emit_sub(&mut self, x: usize, y: usize) -> (h: usize)
        requires
            x < old(self)@.len(),
            y < old(self)@.len(),
        ensures
            final(self)@ == old(self)@.push(InstrModel::Sub(x as nat, y as nat)),
            h == old(self)@.len(),
    {
        let h = self.instrs.len();
        self.instrs.push(Instr::Sub(x, y));
        proof {
            assert(self@ =~= old(self)@.push(InstrModel::Sub(x as nat, y as nat)));
        }
        h
    }

    /// Emit a multiplication of the values at handles `x` and `y`.
    pub fn emit_mul(&mut self, x: usize, y: usize) -> (h: usize)
        requires
            x < old(self)@.len(),
            y < old(self)@.len(),
        ensures
            final(self)@ == old(self)@.push(InstrModel::Mul(x as nat, y as nat)),
            h == old(self)@.len(),
    {
        let h = self.instrs.len();
        self.instrs.push(Instr::Mul(x, y));
        proof {
            assert(self@ =~= old(self)@.push(InstrModel::Mul(x as nat, y as nat)));
        }
        h
    }

    /// Emit a division of the value at handle `x` by the one at `y`.
    /// Division is the backend's floating division, total over handles:
    /// division by zero is for the backend an ordinary result, never an
    /// error here.
    pub fn emit_div(&mut self, x: usize, y: usize) -> (h: usize)
        requires
            x < old(self)@.len(),
            y < old(self)@.len(),
        ensures
            final(self)@ == old(self)@.push(InstrModel::Div(x as nat, y as nat)),
            h == old(self)@.len(),
    {
        let h = self.instrs.len();
        self.instrs.push(Instr::Div(x, y));
        proof {
            assert(self@ =~= old(self)@.push(InstrModel::Div(x as nat, y as nat)));
        }
        h
    }
}

/// The number of nodes of a tree: exactly the number of instructions its
/// lowering emits, since each node is visited once.
pub open spec fn size(e: ExprModel) -> nat
    decreases e,
{
    match e {
        ExprModel::Num(_) => 1,
        ExprModel::Neg(e1) => 1 + size(*e1),
        ExprModel::Add(l, r) => 1 + size(*l) + size(*r),
        ExprModel::Sub(l, r) => 1 + size(*l) + size(*r),
        ExprModel::Mul(l, r) => 1 + size(*l) + size(*r),
        ExprModel::Div(l, r) => 1 + size(*l) + size(*r),
    }
}

/// The instructions that lowering `e` emits into a buffer that already
/// holds `base` instructions: the post-order linearization of the tree,
/// left subtree before right subtree before the node's own instruction,
/// with operand handles pointing at each subtree's last instruction.
pub open spec fn lower_spec(e: ExprModel, base: nat) -> Seq<InstrModel>
    decreases e,
{
    match e {
        ExprModel::Num(lit) => seq![InstrModel::Const(lit)],
        ExprModel::Neg(e1) => {
            let s1 = lower_spec(*e1, base);
            s1.push(InstrModel::Neg((base + s1.len() - 1) as nat))
        },
        ExprModel::Add(l, r) => {
            let sl = lower_spec(*l, base);
            let sr = lower_spec(*r, base + sl.len());
            sl + sr + seq![
                InstrModel::Add(
                    (base + sl.len() - 1) as nat,
                    (base + sl.len() + sr.len() - 1) as nat,
                ),
            ]
        },
        ExprModel::Sub(l, r) => {
            let sl = lower_spec(*l, base);
            let sr = lower_spec(*r, base + sl.len());
            sl + sr + seq![
                InstrModel::Sub(
                    (base + sl.len() - 1) as nat,
                    (base + sl.len() + sr.len() - 1) as nat,
                ),
            ]
        },
        ExprModel::Mul(l, r) => {
            let sl = lower_spec(*l, base);
            let sr = lower_spec(*r, base + sl.len());
            sl + sr + seq![
                InstrModel::Mul(
                    (base + sl.len() - 1) as nat,
                    (base + sl.len() + sr.len() - 1) as nat,
                ),
            ]
        },
        ExprModel::Div(l, r) => {
            let sl = lower_spec(*l, base);
            let sr = lower_spec(*r, base + sl.len());
            sl + sr + seq![
                InstrModel::Div(
                    (base + sl.len() - 1) as nat,
                    (base + sl.len() + sr.len() - 1) as nat,
                ),
            ]
        },
    }
}

/// Lowering emits one instruction per node.
pub proof fn lemma_lower_spec_len(e: ExprModel, base: nat)
    ensures
        lower_spec(e, base).len() == size(e),
    decreases e,
{
    match e {
        ExprModel::Num(_) => {},
        ExprModel::Neg(e1) => {
            lemma_lower_spec_len(*e1, base);
        },
        ExprModel::Add(l, r) => {
            lemma_lower_spec_len(*l, base);
            lemma_lower_spec_len(*r, base + lower_spec(*l, base).len());
        },
        ExprModel::Sub(l, r) => {
            lemma_lower_spec_len(*l, base);
            lemma_lower_spec_len(*r, base + lower_spec(*l, base).len());
        },
        ExprModel::Mul(l, r) => {
            lemma_lower_spec_len(*l, base);
            lemma_lower_spec_len(*r, base + lower_spec(*l, base).len());
        },
        ExprModel::Div(l, r) => {
            lemma_lower_spec_len(*l, base);
            lemma_lower_spec_len(*r, base + lower_spec(*l, base).len());
        },
    }
}

/// What must hold of the instruction standing at position `h` for a
/// backend to assemble it in one forward pass: a constant-load carries a
/// well-formed literal, and every operand handle points strictly earlier.
pub open spec fn instr_wf(ins: InstrModel, h: nat) -> bool {
    match ins {
        InstrModel::Const(lit) => is_literal(lit),
        InstrModel::Neg(x) => x < h,
        InstrModel::Add(x, y) => x < h && y < h,
        InstrModel::Sub(x, y) => x < h && y < h,
        InstrModel::Mul(x, y) => x < h && y < h,
        InstrModel::Div(x, y) => x < h && y < h,
    }
}

/// Every instruction of the sequence is well formed at its own position.
pub open spec fn wf_code(code: Seq<InstrModel>) -> bool {
    forall|j: int| 0 <= j < code.len() ==> instr_wf(#[trigger] code[j], j as nat)
}

/// Lowering a tree whose literals are well formed emits instructions that
/// are each well formed at their absolute position.
pub proof fn lemma_lower_wf(e: ExprModel, base: nat)
    requires
        wf_expr(e),
    ensures
        forall|j: int|
            0 <= j < lower_spec(e, base).len() ==> instr_wf(
                #[trigger] lower_spec(e, base)[j],
                (base + j) as nat,
            ),
    decreases e, 1int,
{
    let s = lower_spec(e, base);
    match e {
        ExprModel::Num(_) => {},
        ExprModel::Neg(e1) => {
            let s1 = lower_spec(*e1, base);
            lemma_lower_spec_len(*e1, base);
            lemma_lower_wf(*e1, base);
            assert forall|j: int| 0 <= j < s.len() implies instr_wf(s[j], (base + j) as nat) by {
                if j < s1.len() {
                    assert(s[j] == s1[j]);
                } else {
                    assert(s[j] == InstrModel::Neg((base + s1.len() - 1) as nat));
                }
            }
        },
        ExprModel::Add(l, r) => {
            lemma_lower_wf(*l, base);
            lemma_lower_wf(*r, base + lower_spec(*l, base).len());
            lemma_lower_wf_binary(e, *l, *r, base);
        },
        ExprModel::Sub(l, r) => {
            lemma_lower_wf(*l, base);
            lemma_lower_wf(*r, base + lower_spec(*l, base).len());
            lemma_lower_wf_binary(e, *l, *r, base);
        },
        ExprModel::Mul(l, r) => {
            lemma_lower_wf(*l, base);
            lemma_lower_wf(*r, base + lower_spec(*l, base).len());
            lemma_lower_wf_binary(e, *l, *r, base);
        },
        ExprModel::Div(l, r) => {
            lemma_lower_wf(*l, base);
            lemma_lower_wf(*r, base + lower_spec(*l, base).len());
            lemma_lower_wf_binary(e, *l, *r, base);
        },
    }
}

/// The binary-node case of `lemma_lower_wf`, shared by its four shapes;
/// the facts about the two subtrees' lowerings come in as hypotheses.
proof fn lemma_lower_wf_binary(e: ExprModel, l: ExprModel, r: ExprModel, base: nat)
    requires
        e == ExprModel::Add(Box::new(l), Box::new(r)) || e == ExprModel::Sub(
            Box::new(l),
            Box::new(r),
        ) || e == ExprModel::Mul(Box::new(l), Box::new(r)) || e == ExprModel::Div(
            Box::new(l),
            Box::new(r),
        ),
        forall|j: int|
            0 <= j < lower_spec(l, base).len() ==> instr_wf(
                #[trigger] lower_spec(l, base)[j],
                (base + j) as nat,
            ),
        forall|j: int|
            0 <= j < lower_spec(r, base + lower_spec(l, base).len()).len() ==> instr_wf(
                #[trigger] lower_spec(r, base + lower_spec(l, base).len())[j],
                (base + lower_spec(l, base).len() + j) as nat,
            ),
    ensures
        forall|j: int|
            0 <= j < lower_spec(e, base).len() ==> instr_wf(
                #[trigger] lower_spec(e, base)[j],
                (base + j) as nat,
            ),
{
    let s = lower_spec(e, base);
    let sl = lower_spec(l, base);
    let sr = lower_spec(r, base + sl.len());
    lemma_lower_spec_len(l, base);
    lemma_lower_spec_len(r, base + sl.len());
    assert forall|j: int| 0 <= j < s.len() implies instr_wf(s[j], (base + j) as nat) by {
        if j < sl.len() {
            assert(s[j] == sl[j]);
        } else if j < sl.len() + sr.len() {
            assert(s[j] == sr[j - sl.len()]);
            assert(instr_wf(
                lower_spec(r, base + sl.len())[j - sl.len()],
                ((base + sl.len()) + (j - sl.len())) as nat,
            ));
        } else {
            assert(s[j] == s[s.len() - 1]);
        }
    }
}

/// Lower a tree into the emitter: the post-order walk. Exactly the
/// instructions of `lower_spec` are appended, nothing else changes, and
/// the returned handle is the last instruction — the tree's result.
/// The walk never fails on any tree.
pub fn build_from_ast(expr: &Expr, bcx: &mut Emitter) -> (h: usize)
    ensures
        final(bcx)@ == old(bcx)@ + lower_spec(expr@, old(bcx)@.len()),
        h + 1 == final(bcx)@.len(),
    decreases expr,
{
    proof {
        lemma_lower_spec_len(expr@, old(bcx)@.len());
    }
    match expr {
        Expr::Num(num) => {
            let h = bcx.emit_const(num.clone());
            proof {
                assert(bcx@ =~= old(bcx)@ + lower_spec(expr@, old(bcx)@.len()));
            }
            h
        },
        Expr::Neg(e) => {
            let v = build_from_ast(e, bcx);
            let h = bcx.emit_neg(v);
            proof {
                assert(bcx@ =~= old(bcx)@ + lower_spec(expr@, old(bcx)@.len()));
            }
            h
        },
        Expr::Add(e1, e2) => {
            let v1 = build_from_ast(e1, bcx);
            let v2 = build_from_ast(e2, bcx);
            let h = bcx.emit_add(v1, v2);
            proof {
                assert(bcx@ =~= old(bcx)@ + lower_spec(expr@, old(bcx)@.len()));
            }
            h
        },
        Expr::Sub(e1, e2) => {
            let v1 = build_from_ast(e1, bcx);
            let v2 = build_from_ast(e2, bcx);
            let h = bcx.emit_sub(v1, v2);
            proof {
                assert(bcx@ =~= old(bcx)@ + lower_spec(expr@, old(bcx)@.len()));
            }
            h
        },
        Expr::Mul(e1, e2) => {
            let v1 = build_from_ast(e1, bcx);
            let v2 = build_from_ast(e2, bcx);
            let h = bcx.emit_mul(v1, v2);
            proof {
                assert(bcx@ =~= old(bcx)@ + lower_spec(expr@, old(bcx)@.len()));
            }
            h
        },
        Expr::Div(e1, e2) => {
            let v1 = build_from_ast(e1, bcx);
            let v2 = build_from_ast(e2, bcx);
            let h = bcx.emit_div(v1, v2);
            proof {
                assert(bcx@ =~= old(bcx)@ + lower_spec(expr@, old(bcx)@.len()));
            }
            h
        },
    }
}

/// Read a tree back out of an instruction sequence, starting from the
/// handle `h`: the inverse of lowering. `None` where the instructions do
/// not describe a tree (an operand handle that does not point strictly
/// earlier, or a handle out of range).
pub open spec fn denote(code: Seq<InstrModel>, h: nat) -> Option<ExprModel>
    decreases h,
{
    if h < code.len() {
        match code[h as int] {
            InstrModel::Const(lit) => Some(ExprModel::Num(lit)),
            InstrModel::Neg(x) => if x < h {
                match denote(code, x) {
                    Some(e) => Some(ExprModel::Neg(Box::new(e))),
                    None => None,
                }
            } else {
                None
            },
            InstrModel::Add(x, y) => if x < h && y < h {
                match (denote(code, x), denote(code, y)) {
                    (Some(a), Some(b)) => Some(ExprModel::Add(Box::new(a), Box::new(b))),
                    _ => None,
                }
            } else {
                None
            },
            InstrModel::Sub(x, y) => if x < h && y < h {
                match (denote(code, x), denote(code, y)) {
                    (Some(a), Some(b)) => Some(ExprModel::Sub(Box::new(a), Box::new(b))),
                    _ => None,
                }
            } else {
                None
            },
            InstrModel::Mul(x, y) => if x < h && y < h {
                match (denote(code, x), denote(code, y)) {
                    (Some(a), Some(b)) => Some(ExprModel::Mul(Box::new(a), Box::new(b))),
                    _ => None,
                }
            } else {
                None
            },
            InstrModel::Div(x, y) => if x < h && y < h {
                match (denote(code, x), denote(code, y)) {
                    (Some(a), Some(b)) => Some(ExprModel::Div(Box::new(a), Box::new(b))),
                    _ => None,
                }
            } else {
                None
            },
        }
    } else {
        None
    }
}

/// Inside any code sequence that holds the lowering of `e` at positions
/// `base` onward, reading back from the lowering's last instruction
/// reconstructs `e` itself.
pub proof fn lemma_denote_lower(e: ExprModel, code: Seq<InstrModel>, base: nat)
    requires
        base + lower_spec(e, base).len() <= code.len(),
        code.subrange(base as int, (base + lower_spec(e, base).len()) as int) == lower_spec(
            e,
            base,
        ),
    ensures
        denote(code, (base + lower_spec(e, base).len() - 1) as nat) == Some(e),
    decreases e,
{
    lemma_lower_spec_len(e, base);
    let s = lower_spec(e, base);
    let h = (base + s.len() - 1) as nat;
    assert forall|t: int| 0 <= t < s.len() implies code[base + t] == s[t] by {
        assert(code.subrange(base as int, (base + s.len()) as int)[t] == code[base + t]);
    }
    match e {
        ExprModel::Num(lit) => {
            assert(code[h as int] == s[0]);
        },
        ExprModel::Neg(e1) => {
            let s1 = lower_spec(*e1, base);
            lemma_lower_spec_len(*e1, base);
            assert(code.subrange(base as int, (base + s1.len()) as int) =~= s1);
            lemma_denote_lower(*e1, code, base);
            assert(code[h as int] == s[s.len() - 1]);
        },
        ExprModel::Add(l, r) => {
            let sl = lower_spec(*l, base);
            let sr = lower_spec(*r, base + sl.len());
            lemma_lower_spec_len(*l, base);
            lemma_lower_spec_len(*r, base + sl.len());
            assert(code.subrange(base as int, (base + sl.len()) as int) =~= sl);
            assert forall|u: int| 0 <= u < sr.len() implies code[base + sl.len() + u] == sr[u] by {
                assert(code[base + (sl.len() + u)] == s[sl.len() + u]);
                assert(s[sl.len() + u] == sr[u]);
            }
            assert(code.subrange((base + sl.len()) as int, (base + sl.len() + sr.len()) as int)
                =~= sr);
            lemma_denote_lower(*l, code, base);
            lemma_denote_lower(*r, code, base + sl.len());
            assert(code[h as int] == s[s.len() - 1]);
        },
        ExprModel::Sub(l, r) => {
            let sl = lower_spec(*l, base);
            let sr = lower_spec(*r, base + sl.len());
            lemma_lower_spec_len(*l, base);
            lemma_lower_spec_len(*r, base + sl.len());
            assert(code.subrange(base as int, (base + sl.len()) as int) =~= sl);
            assert forall|u: int| 0 <= u < sr.len() implies code[base + sl.len() + u] == sr[u] by {
                assert(code[base + (sl.len() + u)] == s[sl.len() + u]);
                assert(s[sl.len() + u] == sr[u]);
            }
            assert(code.subrange((base + sl.len()) as int, (base + sl.len() + sr.len()) as int)
                =~= sr);
            lemma_denote_lower(*l, code, base);
            lemma_denote_lower(*r, code, base + sl.len());
            assert(code[h as int] == s[s.len() - 1]);
        },
        ExprModel::Mul(l, r) => {
            let sl = lower_spec(*l, base);
            let sr = lower_spec(*r, base + sl.len());
            lemma_lower_spec_len(*l, base);
            lemma_lower_spec_len(*r, base + sl.len());
            assert(code.subrange(base as int, (base + sl.len()) as int) =~= sl);
            assert forall|u: int| 0 <= u < sr.len() implies code[base + sl.len() + u] == sr[u] by {
                assert(code[base + (sl.len() + u)] == s[sl.len() + u]);
                assert(s[sl.len() + u] == sr[u]);
            }
            assert(code.subrange((base + sl.len()) as int, (base + sl.len() + sr.len()) as int)
                =~= sr);
            lemma_denote_lower(*l, code, base);
            lemma_denote_lower(*r, code, base + sl.len());
            assert(code[h as int] == s[s.len() - 1]);
        },
        ExprModel::Div(l, r) => {
            let sl = lower_spec(*l, base);
            let sr = lower_spec(*r, base + sl.len());
            lemma_lower_spec_len(*l, base);
            lemma_lower_spec_len(*r, base + sl.len());
            assert(code.subrange(base as int, (base + sl.len()) as int) =~= sl);
            assert forall|u: int| 0 <= u < sr.len() implies code[base + sl.len() + u] == sr[u] by {
                assert(code[base + (sl.len() + u)] == s[sl.len() + u]);
                assert(s[sl.len() + u] == sr[u]);
            }
            assert(code.subrange((base + sl.len()) as int, (base + sl.len() + sr.len()) as int)
                =~= sr);
            lemma_denote_lower(*l, code, base);
            lemma_denote_lower(*r, code, base + sl.len());
            assert(code[h as int] == s[s.len() - 1]);
        },
    }
}

/// Lowering preserves the tree exactly: a fresh session emits one
/// instruction per node, and reading the instructions back from the
/// session's result handle reconstructs the tree that was lowered. Two
/// distinct trees therefore never lower to the same instructions.
pub proof fn lemma_lower_round_trip(e: ExprModel)
    ensures
        lower_spec(e, 0).len() == size(e),
        denote(lower_spec(e, 0), (lower_spec(e, 0).len() - 1) as nat) == Some(e),
{
    lemma_lower_spec_len(e, 0);
    let code = lower_spec(e, 0);
    assert(code.subrange(0, code.len() as int) =~= code);
    lemma_denote_lower(e, code, 0);
}

/// Lowering the same tree twice is idempotent: by `build_from_ast`'s
/// contract, a session that starts from a fresh emitter leaves exactly
/// `lower_spec(e, 0)` in its buffer, so two independent sessions over the
/// same tree hold identical instructions with identical result handles,
/// and a backend given either emits the same routine.
pub proof fn lemma_lower_sessions_agree(e: ExprModel, s1: Seq<InstrModel>, s2: Seq<InstrModel>)
    requires
        s1 == lower_spec(e, 0),
        s2 == lower_spec(e, 0),
    ensures
        s1 == s2,
        s1.len() == size(e),
{
    lemma_lower_spec_len(e, 0);
}

/// The body of a compiled single-result function: the instructions to
/// assemble, and the handle of the instruction whose value the function
/// returns.
pub struct Program {
    pub instrs: Vec<Instr>,
    pub result: usize,
}

impl View for Program {
    type V = Seq<InstrModel>;

    open spec fn view(&self) -> Seq<InstrModel> {
        self.instrs@.map_values(|ins: Instr| ins@)
    }
}

/// Build the body of a zero-argument, single-result function from an
/// expression text: parse it, then lower the tree in a fresh emitter
/// session and bind the whole expression's handle as the result. Succeeds
/// exactly when the text parses, and then the instructions are exactly the
/// lowering of the parsed tree, the result its last instruction.
pub fn build_function(calc: &str) -> (r: Result<Program, ParseError>)
    ensures
        match r {
            Ok(p) => {
                &&& spec_parse(calc@) matches Some(e) && p@ == lower_spec(e, 0)
                &&& p@.len() >= 1
                &&& p.result + 1 == p@.len()
                &&& wf_code(p@)
            },
            Err(pe) => spec_parse(calc@) is None && pe.pos <= calc@.len(),
        },
{
    match parser(calc) {
        Ok(expr) => {
            let mut bcx = Emitter::new();
            let h = build_from_ast(&expr, &mut bcx);
            proof {
                assert(bcx@ =~= lower_spec(expr@, 0));
                lemma_lower_wf(expr@, 0);
            }
            Ok(Program { instrs: bcx.instrs, result: h })
        },
        Err(pe) => Err(pe),
    }
}

} // verus!
