use vstd::prelude::*;

use crate::chunk::Value;
use crate::frontend::Local;
use crate::compiler::{binary_ops, is_binary_operator};
use crate::grammar::{
    decl_code, decl_clean, decls_clean, decls_code, expr_clean, expr_code, pops, readable, resolve_slot, stmt_clean,
    stmt_code, Decl, Expr, Stmt,
};
use crate::opcode::OpCode;
use crate::token::TokenKind;

verus! {

/// A value as the code computes it: `nil`, a boolean, a number (by the bit pattern of its
/// `f64` value) or a string.
pub enum Val {
    Nil,
    Bool(bool),
    Number(u64),
    Text(String),
}

/// The operations of the language on values that this model leaves open: the arithmetic,
/// the comparisons, equality and negation. The laws below hold whatever they compute.
pub enum Arith {
    Sum,
    Difference,
    Product,
    Quotient,
    Below,
    Above,
    Same,
    Opposite,
}

/// `nil` and `false` are false; every other value is true.
pub open spec fn falsey(v: Val) -> bool {
    v is Nil || v == Val::Bool(false)
}

/// The value a constant stands for.
pub open spec fn constant_value(c: Value) -> Val {
    match c {
        Value::Number(v) => Val::Number(v),
        Value::Str(s) => Val::Text(s),
    }
}

/// The name a constant holds, for the instructions that reach a global by its name.
pub open spec fn constant_name(c: Value) -> String {
    match c {
        Value::Str(s) => s,
        Value::Number(_) => vstd::pervasive::arbitrary(),
    }
}

/// Replaces the two values on top of the stack `st` by the result of `op` on them, the
/// deeper one first.
pub open spec fn apply_top(st: Seq<Val>, op: Arith, f: spec_fn(Arith, Val, Val) -> Val) -> Seq<Val> {
    st.subrange(0, st.len() - 2).push(f(op, st[st.len() - 2], st.last()))
}

/// What one instruction at index `pc` does to the stack `st`, the globals `g` and the
/// values printed so far `out`, the constants being `consts`: the index of the
/// instruction run next, and the new stack, globals and output. The locals are the bottom
/// of the stack, slot `i` at index `i`.
pub open spec fn step(
    op: OpCode,
    pc: int,
    st: Seq<Val>,
    g: Map<String, Val>,
    out: Seq<Val>,
    consts: Seq<Value>,
    f: spec_fn(Arith, Val, Val) -> Val,
) -> (int, Seq<Val>, Map<String, Val>, Seq<Val>) {
    match op {
        OpCode::OpConstant(k) => (pc + 1, st.push(constant_value(consts[k as int])), g, out),
        OpCode::OpNil => (pc + 1, st.push(Val::Nil), g, out),
        OpCode::OpTrue => (pc + 1, st.push(Val::Bool(true)), g, out),
        OpCode::OpFalse => (pc + 1, st.push(Val::Bool(false)), g, out),
        OpCode::OpPop => (pc + 1, st.drop_last(), g, out),
        OpCode::OpGetLocal(s) => (pc + 1, st.push(st[s as int]), g, out),
        OpCode::OpSetLocal(s) => (pc + 1, st.update(s as int, st.last()), g, out),
        OpCode::OpGetGlobal(k) => (pc + 1, st.push(g[constant_name(consts[k as int])]), g, out),
        OpCode::OpDefineGlobal(k) => (pc + 1, st.drop_last(), g.insert(constant_name(consts[k as int]), st.last()), out),
        OpCode::OpSetGlobal(k) => (pc + 1, st, g.insert(constant_name(consts[k as int]), st.last()), out),
        OpCode::OpEqual => (pc + 1, apply_top(st, Arith::Same, f), g, out),
        OpCode::OpGreater => (pc + 1, apply_top(st, Arith::Above, f), g, out),
        OpCode::OpLess => (pc + 1, apply_top(st, Arith::Below, f), g, out),
        OpCode::OpAdd => (pc + 1, apply_top(st, Arith::Sum, f), g, out),
        OpCode::OpSubtract => (pc + 1, apply_top(st, Arith::Difference, f), g, out),
        OpCode::OpMultiply => (pc + 1, apply_top(st, Arith::Product, f), g, out),
        OpCode::OpDivide => (pc + 1, apply_top(st, Arith::Quotient, f), g, out),
        OpCode::OpNot => (pc + 1, st.drop_last().push(Val::Bool(falsey(st.last()))), g, out),
        OpCode::OpNegate => (pc + 1, st.drop_last().push(f(Arith::Opposite, st.last(), Val::Nil)), g, out),
        OpCode::OpPrint => (pc + 1, st.drop_last(), g, out.push(st.last())),
        OpCode::OpJump(Some(o)) => (pc + 1 + o, st, g, out),
        OpCode::OpJumpIfFalse(Some(o)) => (if falsey(st.last()) { pc + 1 + o } else { pc + 1 }, st, g, out),
        OpCode::OpLoop(o) => (pc + 1 - o, st, g, out),
        _ => (-1, st, g, out),
    }
}

/// Running `code` from the instruction at `pc` while the code goes forward: the index it
/// stops at (past the end, or where a jump leads back) and the stack, globals and output
/// then.
pub open spec fn run(
    code: Seq<OpCode>,
    consts: Seq<Value>,
    pc: int,
    st: Seq<Val>,
    g: Map<String, Val>,
    out: Seq<Val>,
    f: spec_fn(Arith, Val, Val) -> Val,
) -> (int, Seq<Val>, Map<String, Val>, Seq<Val>)
    decreases code.len() - pc,
{
    if 0 <= pc < code.len() {
        let (npc, st2, g2, out2) = step(code[pc], pc, st, g, out, consts, f);
        if pc < npc <= code.len() {
            run(code, consts, npc, st2, g2, out2, f)
        } else {
            (npc, st2, g2, out2)
        }
    } else {
        (pc, st, g, out)
    }
}

/// What the binary operator `op` gives on `a` and `b`: `!=`, `>=` and `<=` are the
/// negations of `==`, `<` and `>`.
pub open spec fn binary_value(op: TokenKind, a: Val, b: Val, f: spec_fn(Arith, Val, Val) -> Val) -> Val {
    if op == TokenKind::Plus {
        f(Arith::Sum, a, b)
    } else if op == TokenKind::Minus {
        f(Arith::Difference, a, b)
    } else if op == TokenKind::Star {
        f(Arith::Product, a, b)
    } else if op == TokenKind::Slash {
        f(Arith::Quotient, a, b)
    } else if op == TokenKind::EqualEqual {
        f(Arith::Same, a, b)
    } else if op == TokenKind::BangEqual {
        Val::Bool(falsey(f(Arith::Same, a, b)))
    } else if op == TokenKind::Greater {
        f(Arith::Above, a, b)
    } else if op == TokenKind::GreaterEqual {
        Val::Bool(falsey(f(Arith::Below, a, b)))
    } else if op == TokenKind::Less {
        f(Arith::Below, a, b)
    } else {
        Val::Bool(falsey(f(Arith::Above, a, b)))
    }
}

/// What evaluating `e` gives, the locals `ls` having their values at the bottom of the
/// stack `st` and the globals being `g`: its value, and the stack and globals after its
/// assignments. Operands are evaluated left to right; `and` and `or` evaluate their right
/// operand only when the left one does not decide.
pub open spec fn eval(
    e: Expr,
    ls: Seq<Local>,
    st: Seq<Val>,
    g: Map<String, Val>,
    f: spec_fn(Arith, Val, Val) -> Val,
) -> (Val, Seq<Val>, Map<String, Val>)
    decreases e,
{
    match e {
        Expr::Missing => (Val::Nil, st, g),
        Expr::Number(v) => (Val::Number(v), st, g),
        Expr::Str(s) => (Val::Text(s), st, g),
        Expr::Literal(k) => (
            if k == TokenKind::True {
                Val::Bool(true)
            } else if k == TokenKind::False {
                Val::Bool(false)
            } else {
                Val::Nil
            },
            st,
            g,
        ),
        Expr::Variable(name) => (
            match resolve_slot(ls, name@) {
                Some(i) => st[i as int],
                None => g[name],
            },
            st,
            g,
        ),
        Expr::Assign(name, value) => {
            let (v, st1, g1) = eval(*value, ls, st, g, f);
            match resolve_slot(ls, name@) {
                Some(i) => (v, st1.update(i as int, v), g1),
                None => (v, st1, g1.insert(name, v)),
            }
        },
        Expr::Group(inner) => eval(*inner, ls, st, g, f),
        Expr::Unary(op, operand) => {
            let (v, st1, g1) = eval(*operand, ls, st, g, f);
            (
                if op == TokenKind::Minus {
                    f(Arith::Opposite, v, Val::Nil)
                } else {
                    Val::Bool(falsey(v))
                },
                st1,
                g1,
            )
        },
        Expr::Binary(left, op, right) => {
            let (a, st1, g1) = eval(*left, ls, st, g, f);
            let (b, st2, g2) = eval(*right, ls, st1, g1, f);
            (binary_value(op, a, b, f), st2, g2)
        },
        Expr::And(left, right) => {
            let (a, st1, g1) = eval(*left, ls, st, g, f);
            if falsey(a) {
                (a, st1, g1)
            } else {
                eval(*right, ls, st1, g1, f)
            }
        },
        Expr::Or(left, right) => {
            let (a, st1, g1) = eval(*left, ls, st, g, f);
            if falsey(a) {
                eval(*right, ls, st1, g1, f)
            } else {
                (a, st1, g1)
            }
        },
    }
}

/// No part of `e` is missing, and its binary operations are by binary operators, as in
/// every expression read from tokens.
pub open spec fn complete(e: Expr) -> bool
    decreases e,
{
    match e {
        Expr::Missing => false,
        Expr::Assign(_, v) => complete(*v),
        Expr::Group(a) => complete(*a),
        Expr::Unary(_, a) => complete(*a),
        Expr::Binary(l, op, r) => is_binary_operator(op) && complete(*l) && complete(*r),
        Expr::And(l, r) => complete(*l) && complete(*r),
        Expr::Or(l, r) => complete(*l) && complete(*r),
        _ => true,
    }
}

/// The proof that running an instruction that goes forward within the code is running
/// the rest from where it leads.
proof fn lemma_run_step(
    code: Seq<OpCode>,
    consts: Seq<Value>,
    pc: int,
    st: Seq<Val>,
    g: Map<String, Val>,
    out: Seq<Val>,
    f: spec_fn(Arith, Val, Val) -> Val,
)
    requires
        0 <= pc < code.len(),
        pc < step(code[pc], pc, st, g, out, consts, f).0 <= code.len(),
    ensures
        run(code, consts, pc, st, g, out, f) == run(
            code,
            consts,
            step(code[pc], pc, st, g, out, consts, f).0,
            step(code[pc], pc, st, g, out, consts, f).1,
            step(code[pc], pc, st, g, out, consts, f).2,
            step(code[pc], pc, st, g, out, consts, f).3,
            f,
        ),
{
}

/// The proof that the slot a name resolves to is one of the locals.
proof fn lemma_slot_in_range(ls: Seq<Local>, name: Seq<char>)
    ensures
        resolve_slot(ls, name) matches Some(i) ==> i < ls.len(),
    decreases ls.len(),
{
    if ls.len() > 0 && ls.last().name@ != name {
        lemma_slot_in_range(ls.drop_last(), name);
    }
}

/// The proof that evaluating an expression keeps the height of the stack.
proof fn lemma_eval_height(e: Expr, ls: Seq<Local>, st: Seq<Val>, g: Map<String, Val>, f: spec_fn(Arith, Val, Val) -> Val)
    requires
        ls.len() <= st.len(),
    ensures
        eval(e, ls, st, g, f).1.len() == st.len(),
    decreases e,
{
    match e {
        Expr::Assign(name, v) => {
            lemma_eval_height(*v, ls, st, g, f);
            lemma_slot_in_range(ls, name@);
        },
        Expr::Group(a) => lemma_eval_height(*a, ls, st, g, f),
        Expr::Unary(_, a) => lemma_eval_height(*a, ls, st, g, f),
        Expr::Binary(l, _, r) => {
            lemma_eval_height(*l, ls, st, g, f);
            let (a, st1, g1) = eval(*l, ls, st, g, f);
            lemma_eval_height(*r, ls, st1, g1, f);
        },
        Expr::And(l, r) => {
            lemma_eval_height(*l, ls, st, g, f);
            let (a, st1, g1) = eval(*l, ls, st, g, f);
            lemma_eval_height(*r, ls, st1, g1, f);
        },
        Expr::Or(l, r) => {
            lemma_eval_height(*l, ls, st, g, f);
            let (a, st1, g1) = eval(*l, ls, st, g, f);
            lemma_eval_height(*r, ls, st1, g1, f);
        },
        _ => {},
    }
}

/// `c` stands in `s` from index `p` on.
pub open spec fn placed<A>(s: Seq<A>, p: int, c: Seq<A>) -> bool {
    0 <= p && p + c.len() <= s.len() && s.subrange(p, p + c.len()) == c
}

/// The proof that a part of a placed sequence stands where it is in it.
proof fn lemma_placed_part<A>(s: Seq<A>, p: int, c: Seq<A>, o: int, l: int)
    requires
        placed(s, p, c),
        0 <= o,
        0 <= l,
        o + l <= c.len(),
    ensures
        placed(s, p + o, c.subrange(o, o + l)),
        forall|k: int| 0 <= k < l ==> #[trigger] s[p + o + k] == c[o + k],
{
    assert(s.subrange(p + o, p + o + l) =~= c.subrange(o, o + l)) by {
        assert forall|k: int| 0 <= k < l implies #[trigger] s.subrange(p + o, p + o + l)[k] == c.subrange(o, o + l)[k] by {
            assert(s.subrange(p, p + c.len())[o + k] == c[o + k]);
        }
    }
    assert forall|k: int| 0 <= k < l implies #[trigger] s[p + o + k] == c[o + k] by {
        assert(s.subrange(p, p + c.len())[o + k] == c[o + k]);
    }
}

/// The proof that an element of a placed sequence stands where it is in it.
proof fn lemma_placed_at<A>(s: Seq<A>, p: int, c: Seq<A>, k: int)
    requires
        placed(s, p, c),
        0 <= k < c.len(),
    ensures
        s[p + k] == c[k],
{
    assert(s.subrange(p, p + c.len())[k] == c[k]);
}

/// The proof that values on the stack above the locals are left alone by evaluating.
proof fn lemma_eval_above(e: Expr, ls: Seq<Local>, st: Seq<Val>, x: Val, g: Map<String, Val>, f: spec_fn(Arith, Val, Val) -> Val)
    requires
        ls.len() <= st.len(),
    ensures
        eval(e, ls, st.push(x), g, f) == (eval(e, ls, st, g, f).0, eval(e, ls, st, g, f).1.push(x), eval(e, ls, st, g, f).2),
    decreases e,
{
    lemma_eval_height(e, ls, st, g, f);
    match e {
        Expr::Variable(name) => {
            lemma_slot_in_range(ls, name@);
        },
        Expr::Assign(name, v) => {
            lemma_eval_above(*v, ls, st, x, g, f);
            lemma_eval_height(*v, ls, st, g, f);
            lemma_slot_in_range(ls, name@);
            let (a, st1, g1) = eval(*v, ls, st, g, f);
            if let Some(i) = resolve_slot(ls, name@) {
                assert(st1.push(x).update(i as int, a) =~= st1.update(i as int, a).push(x));
            }
        },
        Expr::Group(a) => lemma_eval_above(*a, ls, st, x, g, f),
        Expr::Unary(_, a) => lemma_eval_above(*a, ls, st, x, g, f),
        Expr::Binary(l, _, r) => {
            lemma_eval_above(*l, ls, st, x, g, f);
            lemma_eval_height(*l, ls, st, g, f);
            let (a, st1, g1) = eval(*l, ls, st, g, f);
            lemma_eval_above(*r, ls, st1, x, g1, f);
        },
        Expr::And(l, r) => {
            lemma_eval_above(*l, ls, st, x, g, f);
            lemma_eval_height(*l, ls, st, g, f);
            let (a, st1, g1) = eval(*l, ls, st, g, f);
            lemma_eval_above(*r, ls, st1, x, g1, f);
        },
        Expr::Or(l, r) => {
            lemma_eval_above(*l, ls, st, x, g, f);
            lemma_eval_height(*l, ls, st, g, f);
            let (a, st1, g1) = eval(*l, ls, st, g, f);
            lemma_eval_above(*r, ls, st1, x, g1, f);
        },
        _ => {},
    }
}

/// The proof that a complete expression compiles to some code.
proof fn lemma_code_nonempty(e: Expr, n: nat, ls: Seq<Local>)
    requires
        complete(e),
    ensures
        expr_code(e, n, ls).0.len() > 0,
    decreases e,
{
    match e {
        Expr::Group(a) => lemma_code_nonempty(*a, n, ls),
        Expr::Binary(l, _, r) => lemma_code_nonempty(*l, n, ls),
        Expr::And(l, r) => lemma_code_nonempty(*l, n, ls),
        Expr::Or(l, r) => lemma_code_nonempty(*l, n, ls),
        _ => {},
    }
}

/// The code an expression compiles to computes it: run from where it stands in any code,
/// its constants standing where it numbers them and the values of the locals at the bottom
/// of the stack, it leaves the stack and the globals as evaluating the expression does,
/// with the expression's value pushed, prints nothing, and goes on after its last
/// instruction. This holds
/// whatever the arithmetic, the comparisons and equality compute; so each operator compiles
/// to the operation it means, on its operands in order, `-` and `!` to negation and not,
/// and `and` and `or` skip their right operand exactly when the left one decides.
pub proof fn law_code_computes(
    e: Expr,
    n: nat,
    ls: Seq<Local>,
    code: Seq<OpCode>,
    consts: Seq<Value>,
    p: int,
    st: Seq<Val>,
    g: Map<String, Val>,
    out: Seq<Val>,
    f: spec_fn(Arith, Val, Val) -> Val,
)
    requires
        complete(e),
        ls.len() <= st.len(),
        placed(code, p, expr_code(e, n, ls).0),
        placed(consts, n as int, expr_code(e, n, ls).1),
        code.len() <= usize::MAX,
        consts.len() <= usize::MAX,
    ensures
        ({
            let (v, st2, g2) = eval(e, ls, st, g, f);
            run(code, consts, p, st, g, out, f) == run(code, consts, p + expr_code(e, n, ls).0.len(), st2.push(v), g2, out, f)
        }),
    decreases e, 1nat,
{
    let (c, k) = expr_code(e, n, ls);
    lemma_code_nonempty(e, n, ls);
    lemma_placed_part(code, p, c, 0, c.len() as int);
    lemma_placed_part(consts, n as int, k, 0, k.len() as int);
    lemma_eval_height(e, ls, st, g, f);
    match e {
        Expr::Variable(name) => {
            lemma_slot_in_range(ls, name@);
            lemma_placed_at(code, p, c, 0);
            if resolve_slot(ls, name@) is None {
                lemma_placed_at(consts, n as int, k, 0);
            }
            lemma_run_step(code, consts, p, st, g, out, f);
        },
        Expr::Assign(name, value) => {
            let (cv, kv) = expr_code(*value, n, ls);
            lemma_placed_part(code, p, c, 0, cv.len() as int);
            lemma_placed_part(consts, n as int, k, 0, kv.len() as int);
            assert(c.subrange(0, cv.len() as int) =~= cv);
            assert(k.subrange(0, kv.len() as int) =~= kv);
            law_code_computes(*value, n, ls, code, consts, p, st, g, out, f);
            lemma_eval_height(*value, ls, st, g, f);
            lemma_slot_in_range(ls, name@);
            let (v, st1, g1) = eval(*value, ls, st, g, f);
            let q = p + cv.len();
            lemma_placed_at(code, p, c, cv.len() as int);
            lemma_run_step(code, consts, q, st1.push(v), g1, out, f);
            if let Some(i) = resolve_slot(ls, name@) {
                assert(st1.push(v).update(i as int, v) =~= st1.update(i as int, v).push(v));
            }
        },
        Expr::Group(inner) => {
            law_code_computes(*inner, n, ls, code, consts, p, st, g, out, f);
        },
        Expr::Unary(op, operand) => {
            let (co, ko) = expr_code(*operand, n, ls);
            lemma_placed_part(code, p, c, 0, co.len() as int);
            assert(c.subrange(0, co.len() as int) =~= co);
            law_code_computes(*operand, n, ls, code, consts, p, st, g, out, f);
            let (v, st1, g1) = eval(*operand, ls, st, g, f);
            let q = p + co.len();
            lemma_placed_at(code, p, c, co.len() as int);
            lemma_run_step(code, consts, q, st1.push(v), g1, out, f);
            assert(st1.push(v).drop_last() =~= st1);
        },
        Expr::Binary(..) => lemma_binary_computes(e, n, ls, code, consts, p, st, g, out, f),
        Expr::And(..) => lemma_and_computes(e, n, ls, code, consts, p, st, g, out, f),
        Expr::Or(..) => lemma_or_computes(e, n, ls, code, consts, p, st, g, out, f),
        _ => {
            lemma_placed_at(code, p, c, 0);
            if e is Number || e is Str {
                lemma_placed_at(consts, n as int, k, 0);
            }
            lemma_run_step(code, consts, p, st, g, out, f);
        },
    }
}

/// The proof of `law_code_computes` for a binary operation.
#[verifier::spinoff_prover]
#[verifier::rlimit(50)]
proof fn lemma_binary_computes(
    e: Expr,
    n: nat,
    ls: Seq<Local>,
    code: Seq<OpCode>,
    consts: Seq<Value>,
    p: int,
    st: Seq<Val>,
    g: Map<String, Val>,
    out: Seq<Val>,
    f: spec_fn(Arith, Val, Val) -> Val,
)
    requires
        e is Binary,
        complete(e),
        ls.len() <= st.len(),
        placed(code, p, expr_code(e, n, ls).0),
        placed(consts, n as int, expr_code(e, n, ls).1),
        code.len() <= usize::MAX,
        consts.len() <= usize::MAX,
    ensures
        ({
            let (v, st2, g2) = eval(e, ls, st, g, f);
            run(code, consts, p, st, g, out, f) == run(code, consts, p + expr_code(e, n, ls).0.len(), st2.push(v), g2, out, f)
        }),
    decreases e, 0nat,
{
    let (c, k) = expr_code(e, n, ls);
    lemma_eval_height(e, ls, st, g, f);
    match e {
        Expr::Binary(left, op, right) => {

            let (cl, kl) = expr_code(*left, n, ls);
            let (cr, kr) = expr_code(*right, n + kl.len(), ls);
            lemma_placed_part(code, p, c, 0, cl.len() as int);
            lemma_placed_part(code, p, c, cl.len() as int, cr.len() as int);
            lemma_placed_part(consts, n as int, k, 0, kl.len() as int);
            lemma_placed_part(consts, n as int, k, kl.len() as int, kr.len() as int);
            assert(c.subrange(0, cl.len() as int) =~= cl);
            assert(c.subrange(cl.len() as int, (cl.len() + cr.len()) as int) =~= cr);
            assert(k.subrange(0, kl.len() as int) =~= kl);
            assert(k.subrange(kl.len() as int, (kl.len() + kr.len()) as int) =~= kr);
            law_code_computes(*left, n, ls, code, consts, p, st, g, out, f);
            lemma_eval_height(*left, ls, st, g, f);
            let (a, st1, g1) = eval(*left, ls, st, g, f);
            law_code_computes(*right, n + kl.len(), ls, code, consts, p + cl.len(), st1.push(a), g1, out, f);
            lemma_eval_above(*right, ls, st1, a, g1, f);
            lemma_eval_height(*right, ls, st1, g1, f);
            let (b, st2, g2) = eval(*right, ls, st1, g1, f);
            let q = p + cl.len() + cr.len();
            let top = st2.push(a).push(b);
            lemma_placed_at(code, p, c, (cl.len() + cr.len()) as int);
            assert(c[(cl.len() + cr.len()) as int] == binary_ops(op)[0]);
            lemma_run_step(code, consts, q, top, g2, out, f);
            assert(top.subrange(0, top.len() - 2) =~= st2);
            if binary_ops(op).len() == 2 {
                let mid = step(code[q], q, top, g2, out, consts, f).1;
                lemma_placed_at(code, p, c, cl.len() + cr.len() + 1int);
                assert(c[cl.len() + cr.len() + 1int] == binary_ops(op)[1]);
                lemma_run_step(code, consts, q + 1, mid, g2, out, f);
                assert(mid.drop_last() =~= st2);
            }
        },
        _ => {},
    }
}

/// The proof of `law_code_computes` for a `and`.
#[verifier::spinoff_prover]
#[verifier::rlimit(50)]
proof fn lemma_and_computes(
    e: Expr,
    n: nat,
    ls: Seq<Local>,
    code: Seq<OpCode>,
    consts: Seq<Value>,
    p: int,
    st: Seq<Val>,
    g: Map<String, Val>,
    out: Seq<Val>,
    f: spec_fn(Arith, Val, Val) -> Val,
)
    requires
        e is And,
        complete(e),
        ls.len() <= st.len(),
        placed(code, p, expr_code(e, n, ls).0),
        placed(consts, n as int, expr_code(e, n, ls).1),
        code.len() <= usize::MAX,
        consts.len() <= usize::MAX,
    ensures
        ({
            let (v, st2, g2) = eval(e, ls, st, g, f);
            run(code, consts, p, st, g, out, f) == run(code, consts, p + expr_code(e, n, ls).0.len(), st2.push(v), g2, out, f)
        }),
    decreases e, 0nat,
{
    let (c, k) = expr_code(e, n, ls);
    lemma_eval_height(e, ls, st, g, f);
    match e {
        Expr::And(left, right) => {
            let (cl, kl) = expr_code(*left, n, ls);
            let (cr, kr) = expr_code(*right, n + kl.len(), ls);
            lemma_placed_part(code, p, c, 0, cl.len() as int);
            lemma_placed_part(code, p, c, cl.len() + 2int, cr.len() as int);
            lemma_placed_part(consts, n as int, k, 0, kl.len() as int);
            lemma_placed_part(consts, n as int, k, kl.len() as int, kr.len() as int);
            assert(c.subrange(0, cl.len() as int) =~= cl);
            assert(c.subrange(cl.len() + 2int, cl.len() + 2int + cr.len()) =~= cr);
            assert(k.subrange(0, kl.len() as int) =~= kl);
            assert(k.subrange(kl.len() as int, (kl.len() + kr.len()) as int) =~= kr);
            law_code_computes(*left, n, ls, code, consts, p, st, g, out, f);
            lemma_eval_height(*left, ls, st, g, f);
            let (a, st1, g1) = eval(*left, ls, st, g, f);
            let q = p + cl.len();
            lemma_placed_at(code, p, c, cl.len() as int);
            lemma_placed_at(code, p, c, cl.len() + 1int);
            assert((cr.len() + 1) as usize == cr.len() + 1);
            assert(c[cl.len() as int] == OpCode::OpJumpIfFalse(Some((cr.len() + 1) as usize)));
            assert(c[cl.len() + 1int] == OpCode::OpPop);
            lemma_run_step(code, consts, q, st1.push(a), g1, out, f);
            if !falsey(a) {
                lemma_run_step(code, consts, q + 1, st1.push(a), g1, out, f);
                assert(st1.push(a).drop_last() =~= st1);
                law_code_computes(*right, n + kl.len(), ls, code, consts, q + 2, st1, g1, out, f);
            }
        },
        _ => {},
    }
}

/// The proof of `law_code_computes` for a `or`.
#[verifier::spinoff_prover]
#[verifier::rlimit(50)]
proof fn lemma_or_computes(
    e: Expr,
    n: nat,
    ls: Seq<Local>,
    code: Seq<OpCode>,
    consts: Seq<Value>,
    p: int,
    st: Seq<Val>,
    g: Map<String, Val>,
    out: Seq<Val>,
    f: spec_fn(Arith, Val, Val) -> Val,
)
    requires
        e is Or,
        complete(e),
        ls.len() <= st.len(),
        placed(code, p, expr_code(e, n, ls).0),
        placed(consts, n as int, expr_code(e, n, ls).1),
        code.len() <= usize::MAX,
        consts.len() <= usize::MAX,
    ensures
        ({
            let (v, st2, g2) = eval(e, ls, st, g, f);
            run(code, consts, p, st, g, out, f) == run(code, consts, p + expr_code(e, n, ls).0.len(), st2.push(v), g2, out, f)
        }),
    decreases e, 0nat,
{
    let (c, k) = expr_code(e, n, ls);
    lemma_eval_height(e, ls, st, g, f);
    match e {
        Expr::Or(left, right) => {
            let (cl, kl) = expr_code(*left, n, ls);
            let (cr, kr) = expr_code(*right, n + kl.len(), ls);
            lemma_placed_part(code, p, c, 0, cl.len() as int);
            lemma_placed_part(code, p, c, cl.len() + 3int, cr.len() as int);
            lemma_placed_part(consts, n as int, k, 0, kl.len() as int);
            lemma_placed_part(consts, n as int, k, kl.len() as int, kr.len() as int);
            assert(c.subrange(0, cl.len() as int) =~= cl);
            assert(c.subrange(cl.len() + 3int, cl.len() + 3int + cr.len()) =~= cr);
            assert(k.subrange(0, kl.len() as int) =~= kl);
            assert(k.subrange(kl.len() as int, (kl.len() + kr.len()) as int) =~= kr);
            law_code_computes(*left, n, ls, code, consts, p, st, g, out, f);
            lemma_eval_height(*left, ls, st, g, f);
            let (a, st1, g1) = eval(*left, ls, st, g, f);
            let q = p + cl.len();
            lemma_placed_at(code, p, c, cl.len() as int);
            lemma_placed_at(code, p, c, cl.len() + 1int);
            lemma_placed_at(code, p, c, cl.len() + 2int);
            assert(c[cl.len() as int] == OpCode::OpJumpIfFalse(Some(1)));
            assert((cr.len() + 1) as usize == cr.len() + 1);
            assert(c[cl.len() + 1int] == OpCode::OpJump(Some((cr.len() + 1) as usize)));
            assert(c[cl.len() + 2int] == OpCode::OpPop);
            lemma_run_step(code, consts, q, st1.push(a), g1, out, f);
            if falsey(a) {
                lemma_run_step(code, consts, q + 2, st1.push(a), g1, out, f);
                assert(st1.push(a).drop_last() =~= st1);
                law_code_computes(*right, n + kl.len(), ls, code, consts, q + 3, st1, g1, out, f);
            } else {
                lemma_run_step(code, consts, q + 1, st1.push(a), g1, out, f);
            }
        },
        _ => {},
    }
}

/// The locals after the declaration `d` in a scope at depth `depth`: a variable declared
/// in a block is added, initialized.
pub open spec fn decl_locals(d: Decl, ls: Seq<Local>, depth: usize) -> Seq<Local> {
    match d {
        Decl::Var(name, _) => if depth == 0 {
            ls
        } else {
            ls.push(Local { name: name, depth: depth, initialized: true })
        },
        Decl::Statement(_) => ls,
    }
}

/// The locals after the declarations `ds`.
pub open spec fn decls_locals(ds: Seq<Decl>, ls: Seq<Local>, depth: usize) -> Seq<Local>
    decreases ds.len(),
{
    if ds.len() == 0 {
        ls
    } else {
        decl_locals(ds.last(), decls_locals(ds.drop_last(), ls, depth), depth)
    }
}

/// No `while` or `for` is in `s`, and none of its expressions is missing a part.
pub open spec fn straight_stmt(s: Stmt) -> bool
    decreases s,
{
    match s {
        Stmt::Print(e) => complete(e),
        Stmt::Expression(e) => complete(e),
        Stmt::If(c, t, o) => complete(c) && straight_stmt(*t) && match o {
            Some(x) => straight_stmt(*x),
            None => true,
        },
        Stmt::Block(ds) => straight_decls(ds),
        _ => false,
    }
}

/// No `while` or `for` is in `d`, and none of its expressions is missing a part.
pub open spec fn straight_decl(d: Decl) -> bool
    decreases d,
{
    match d {
        Decl::Var(_, init) => match init {
            Some(e) => complete(e),
            None => true,
        },
        Decl::Statement(s) => straight_stmt(s),
    }
}

/// No `while` or `for` is in `ds`, and none of their expressions is missing a part.
pub open spec fn straight_decls(ds: Seq<Decl>) -> bool
    decreases ds,
{
    forall|i: int| 0 <= i < ds.len() ==> straight_decl(#[trigger] ds[i])
}

/// What running the statement `s` does to the stack `st` (the values of the locals `ls`),
/// the globals `g` and the output `out`: `print` outputs the value of its expression; an
/// `if` runs its then-branch when the condition is true, its else-branch, if any, when it
/// is false; a block runs its declarations in a scope of its own, whose locals are gone at
/// its end. Loops are left to `law_while_iterates`.
pub open spec fn exec_stmt(
    s: Stmt,
    ls: Seq<Local>,
    depth: usize,
    st: Seq<Val>,
    g: Map<String, Val>,
    out: Seq<Val>,
    f: spec_fn(Arith, Val, Val) -> Val,
) -> (Seq<Val>, Map<String, Val>, Seq<Val>)
    decreases s,
{
    match s {
        Stmt::Print(e) => {
            let (v, st1, g1) = eval(e, ls, st, g, f);
            (st1, g1, out.push(v))
        },
        Stmt::Expression(e) => {
            let (v, st1, g1) = eval(e, ls, st, g, f);
            (st1, g1, out)
        },
        Stmt::If(c, t, o) => {
            let (v, st1, g1) = eval(c, ls, st, g, f);
            if !falsey(v) {
                exec_stmt(*t, ls, depth, st1, g1, out, f)
            } else {
                match o {
                    Some(x) => exec_stmt(*x, ls, depth, st1, g1, out, f),
                    None => (st1, g1, out),
                }
            }
        },
        Stmt::Block(ds) => {
            let (st2, g2, out2) = exec_decls(ds, ls, (depth + 1) as usize, st, g, out, f);
            (st2.subrange(0, st.len() as int), g2, out2)
        },
        _ => (st, g, out),
    }
}

/// What running the declaration `d` does: a variable gets the value of its initializer,
/// `nil` without one, as a global at the top level and as a new local in a block.
pub open spec fn exec_decl(
    d: Decl,
    ls: Seq<Local>,
    depth: usize,
    st: Seq<Val>,
    g: Map<String, Val>,
    out: Seq<Val>,
    f: spec_fn(Arith, Val, Val) -> Val,
) -> (Seq<Val>, Map<String, Val>, Seq<Val>)
    decreases d,
{
    match d {
        Decl::Var(name, init) => {
            let (v, st1, g1) = match init {
                Some(e) => eval(e, ls, st, g, f),
                None => (Val::Nil, st, g),
            };
            if depth == 0 {
                (st1, g1.insert(name, v), out)
            } else {
                (st1.push(v), g1, out)
            }
        },
        Decl::Statement(s) => exec_stmt(s, ls, depth, st, g, out, f),
    }
}

/// What running the declarations `ds` one after the other does.
pub open spec fn exec_decls(
    ds: Seq<Decl>,
    ls: Seq<Local>,
    depth: usize,
    st: Seq<Val>,
    g: Map<String, Val>,
    out: Seq<Val>,
    f: spec_fn(Arith, Val, Val) -> Val,
) -> (Seq<Val>, Map<String, Val>, Seq<Val>)
    decreases ds,
{
    if ds.len() == 0 {
        (st, g, out)
    } else {
        let (st1, g1, out1) = exec_decls(ds.drop_last(), ls, depth, st, g, out, f);
        exec_decl(ds.last(), decls_locals(ds.drop_last(), ls, depth), depth, st1, g1, out1, f)
    }
}

/// The proof that the locals a declaration leaves are those of its code.
proof fn lemma_decls_locals_eq(ds: Seq<Decl>, n: nat, ls: Seq<Local>, depth: usize)
    ensures
        decls_code(ds, n, ls, depth).2 == decls_locals(ds, ls, depth),
    decreases ds.len(),
{
    if ds.len() > 0 {
        lemma_decls_locals_eq(ds.drop_last(), n, ls, depth);
        let (c1, k1, l1) = decls_code(ds.drop_last(), n, ls, depth);
        match ds.last() {
            Decl::Var(_, _) => {},
            Decl::Statement(_) => {},
        }
        assert(decl_code(ds.last(), n + k1.len(), l1, depth).2 == decl_locals(ds.last(), l1, depth));
    }
}

/// The proof that a name that may be read with a variable just declared and not yet
/// initialized is not that variable, and resolves as without it.
proof fn lemma_declared_slot(ls: Seq<Local>, name: String, depth: usize, x: Seq<char>)
    requires
        ls.len() < usize::MAX,
        readable(ls.push(Local { name: name, depth: depth, initialized: false }), x),
    ensures
        resolve_slot(ls.push(Local { name: name, depth: depth, initialized: false }), x) == resolve_slot(ls, x),
{
    let declared = ls.push(Local { name: name, depth: depth, initialized: false });
    assert(declared.drop_last() =~= ls);
    assert(declared.last() == declared[ls.len() as int]);
}

/// The proof that an initializer that reads no variable being declared compiles and
/// evaluates as without that variable.
proof fn lemma_clean_declared(
    e: Expr,
    n: nat,
    ls: Seq<Local>,
    name: String,
    depth: usize,
    st: Seq<Val>,
    g: Map<String, Val>,
    f: spec_fn(Arith, Val, Val) -> Val,
)
    requires
        ls.len() < usize::MAX,
        expr_clean(e, ls.push(Local { name: name, depth: depth, initialized: false })),
    ensures
        expr_code(e, n, ls.push(Local { name: name, depth: depth, initialized: false })) == expr_code(e, n, ls),
        eval(e, ls.push(Local { name: name, depth: depth, initialized: false }), st, g, f) == eval(e, ls, st, g, f),
    decreases e,
{
    let declared = ls.push(Local { name: name, depth: depth, initialized: false });
    match e {
        Expr::Variable(x) => lemma_declared_slot(ls, name, depth, x@),
        Expr::Assign(x, v) => {
            lemma_declared_slot(ls, name, depth, x@);
            lemma_clean_declared(*v, n, ls, name, depth, st, g, f);
        },
        Expr::Group(a) => lemma_clean_declared(*a, n, ls, name, depth, st, g, f),
        Expr::Unary(_, a) => lemma_clean_declared(*a, n, ls, name, depth, st, g, f),
        Expr::Binary(l, _, r) => {
            lemma_clean_declared(*l, n, ls, name, depth, st, g, f);
            let kl = expr_code(*l, n, ls).1;
            let (a, st1, g1) = eval(*l, ls, st, g, f);
            lemma_clean_declared(*r, n + kl.len(), ls, name, depth, st1, g1, f);
        },
        Expr::And(l, r) => {
            lemma_clean_declared(*l, n, ls, name, depth, st, g, f);
            let kl = expr_code(*l, n, ls).1;
            let (a, st1, g1) = eval(*l, ls, st, g, f);
            lemma_clean_declared(*r, n + kl.len(), ls, name, depth, st1, g1, f);
        },
        Expr::Or(l, r) => {
            lemma_clean_declared(*l, n, ls, name, depth, st, g, f);
            let kl = expr_code(*l, n, ls).1;
            let (a, st1, g1) = eval(*l, ls, st, g, f);
            lemma_clean_declared(*r, n + kl.len(), ls, name, depth, st1, g1, f);
        },
        _ => {},
    }
}

/// The proof that running pop instructions takes values off the stack.
proof fn lemma_run_pops(
    code: Seq<OpCode>,
    consts: Seq<Value>,
    p: int,
    k: nat,
    st: Seq<Val>,
    g: Map<String, Val>,
    out: Seq<Val>,
    f: spec_fn(Arith, Val, Val) -> Val,
)
    requires
        placed(code, p, pops(k)),
        k <= st.len(),
    ensures
        run(code, consts, p, st, g, out, f) == run(code, consts, p + k, st.subrange(0, st.len() - k), g, out, f),
    decreases k,
{
    if k == 0 {
        assert(st.subrange(0, st.len() as int) =~= st);
    } else {
        lemma_placed_at(code, p, pops(k), 0);
        lemma_run_step(code, consts, p, st, g, out, f);
        lemma_placed_part(code, p, pops(k), 1, k - 1);
        assert(pops(k).subrange(1, k as int) =~= pops((k - 1) as nat));
        lemma_run_pops(code, consts, p + 1, (k - 1) as nat, st.drop_last(), g, out, f);
        assert(st.drop_last().subrange(0, st.drop_last().len() - (k - 1)) =~= st.subrange(0, st.len() - k));
    }
}

/// The proof that a statement leaves the stack as high as it found it, and a declaration
/// adds a value exactly where it adds a local.
proof fn lemma_stmt_height(s: Stmt, ls: Seq<Local>, depth: usize, st: Seq<Val>, g: Map<String, Val>, out: Seq<Val>, f: spec_fn(Arith, Val, Val) -> Val)
    requires
        st.len() == ls.len(),
        straight_stmt(s),
    ensures
        exec_stmt(s, ls, depth, st, g, out, f).0.len() == st.len(),
    decreases s,
{
    match s {
        Stmt::Print(e) => lemma_eval_height(e, ls, st, g, f),
        Stmt::Expression(e) => lemma_eval_height(e, ls, st, g, f),
        Stmt::If(c, t, o) => {
            lemma_eval_height(c, ls, st, g, f);
            let (v, st1, g1) = eval(c, ls, st, g, f);
            lemma_stmt_height(*t, ls, depth, st1, g1, out, f);
            if let Some(x) = o {
                lemma_stmt_height(*x, ls, depth, st1, g1, out, f);
            }
        },
        Stmt::Block(ds) => {
            lemma_decls_height(ds, ls, (depth + 1) as usize, st, g, out, f);
            let l2 = decls_locals(ds, ls, (depth + 1) as usize);
            lemma_decls_grow(ds, ls, (depth + 1) as usize);
        },
        _ => {},
    }
}

proof fn lemma_decl_height(d: Decl, ls: Seq<Local>, depth: usize, st: Seq<Val>, g: Map<String, Val>, out: Seq<Val>, f: spec_fn(Arith, Val, Val) -> Val)
    requires
        st.len() == ls.len(),
        straight_decl(d),
    ensures
        exec_decl(d, ls, depth, st, g, out, f).0.len() == decl_locals(d, ls, depth).len(),
    decreases d,
{
    match d {
        Decl::Var(_, init) => {
            if let Some(e) = init {
                lemma_eval_height(e, ls, st, g, f);
            }
        },
        Decl::Statement(s) => lemma_stmt_height(s, ls, depth, st, g, out, f),
    }
}

proof fn lemma_decls_height(ds: Seq<Decl>, ls: Seq<Local>, depth: usize, st: Seq<Val>, g: Map<String, Val>, out: Seq<Val>, f: spec_fn(Arith, Val, Val) -> Val)
    requires
        st.len() == ls.len(),
        straight_decls(ds),
    ensures
        exec_decls(ds, ls, depth, st, g, out, f).0.len() == decls_locals(ds, ls, depth).len(),
    decreases ds,
{
    if ds.len() > 0 {
        assert(straight_decls(ds.drop_last())) by {
            assert forall|i: int| 0 <= i < ds.drop_last().len() implies straight_decl(#[trigger] ds.drop_last()[i]) by {
                assert(ds.drop_last()[i] == ds[i]);
            }
        }
        assert(straight_decl(ds[ds.len() - 1]));
        lemma_decls_height(ds.drop_last(), ls, depth, st, g, out, f);
        let (st1, g1, out1) = exec_decls(ds.drop_last(), ls, depth, st, g, out, f);
        lemma_decl_height(ds.last(), decls_locals(ds.drop_last(), ls, depth), depth, st1, g1, out1, f);
    }
}

/// The proof that declarations only add locals.
proof fn lemma_decls_grow(ds: Seq<Decl>, ls: Seq<Local>, depth: usize)
    ensures
        ls.len() <= decls_locals(ds, ls, depth).len(),
    decreases ds.len(),
{
    if ds.len() > 0 {
        lemma_decls_grow(ds.drop_last(), ls, depth);
    }
}

/// The code a statement without loops compiles to does what the statement does: run from
/// where it stands in any code, its constants standing where it numbers them and the
/// values of the locals making up the stack, it leaves the stack, the globals and the
/// output as running the statement does, and goes on after its last instruction. This
/// holds whatever the arithmetic, the comparisons and equality compute; so `print` outputs
/// the value of its expression, an `if` runs exactly the branch its condition picks, a
/// variable gets the value of its initializer, and a block's locals are gone at its end.
#[verifier::spinoff_prover]
#[verifier::rlimit(100)]
pub proof fn law_stmt_computes(
    s: Stmt,
    n: nat,
    ls: Seq<Local>,
    depth: usize,
    code: Seq<OpCode>,
    consts: Seq<Value>,
    p: int,
    st: Seq<Val>,
    g: Map<String, Val>,
    out: Seq<Val>,
    f: spec_fn(Arith, Val, Val) -> Val,
)
    requires
        straight_stmt(s),
        stmt_clean(s, n, ls, depth),
        st.len() == ls.len(),
        placed(code, p, stmt_code(s, n, ls, depth).0),
        placed(consts, n as int, stmt_code(s, n, ls, depth).1),
        code.len() <= usize::MAX,
        consts.len() <= usize::MAX,
    ensures
        ({
            let (st2, g2, out2) = exec_stmt(s, ls, depth, st, g, out, f);
            run(code, consts, p, st, g, out, f) == run(code, consts, p + stmt_code(s, n, ls, depth).0.len(), st2, g2, out2, f)
        }),
    decreases s, 1nat,
{
    let (c, k) = stmt_code(s, n, ls, depth);
    match s {
        Stmt::Print(e) => {
            let (ce, ke) = expr_code(e, n, ls);
            lemma_placed_part(code, p, c, 0, ce.len() as int);
            assert(c.subrange(0, ce.len() as int) =~= ce);
            law_code_computes(e, n, ls, code, consts, p, st, g, out, f);
            let (v, st1, g1) = eval(e, ls, st, g, f);
            lemma_placed_at(code, p, c, ce.len() as int);
            lemma_run_step(code, consts, p + ce.len(), st1.push(v), g1, out, f);
            assert(st1.push(v).drop_last() =~= st1);
        },
        Stmt::Expression(e) => {
            let (ce, ke) = expr_code(e, n, ls);
            lemma_placed_part(code, p, c, 0, ce.len() as int);
            assert(c.subrange(0, ce.len() as int) =~= ce);
            law_code_computes(e, n, ls, code, consts, p, st, g, out, f);
            let (v, st1, g1) = eval(e, ls, st, g, f);
            lemma_placed_at(code, p, c, ce.len() as int);
            lemma_run_step(code, consts, p + ce.len(), st1.push(v), g1, out, f);
            assert(st1.push(v).drop_last() =~= st1);
        },
        Stmt::If(..) => lemma_if_computes(s, n, ls, depth, code, consts, p, st, g, out, f),
        Stmt::Block(..) => lemma_block_computes(s, n, ls, depth, code, consts, p, st, g, out, f),
        _ => {},
    }
}

/// The proof of `law_stmt_computes` for an `if`.
#[verifier::spinoff_prover]
#[verifier::rlimit(100)]
proof fn lemma_if_computes(
    s: Stmt,
    n: nat,
    ls: Seq<Local>,
    depth: usize,
    code: Seq<OpCode>,
    consts: Seq<Value>,
    p: int,
    st: Seq<Val>,
    g: Map<String, Val>,
    out: Seq<Val>,
    f: spec_fn(Arith, Val, Val) -> Val,
)
    requires
        s is If,
        straight_stmt(s),
        stmt_clean(s, n, ls, depth),
        st.len() == ls.len(),
        placed(code, p, stmt_code(s, n, ls, depth).0),
        placed(consts, n as int, stmt_code(s, n, ls, depth).1),
        code.len() <= usize::MAX,
        consts.len() <= usize::MAX,
    ensures
        ({
            let (st2, g2, out2) = exec_stmt(s, ls, depth, st, g, out, f);
            run(code, consts, p, st, g, out, f) == run(code, consts, p + stmt_code(s, n, ls, depth).0.len(), st2, g2, out2, f)
        }),
    decreases s, 0nat,
{
    let (c, k) = stmt_code(s, n, ls, depth);
    match s {
        Stmt::If(cond, t, o) => {
            let (cc, kc) = expr_code(cond, n, ls);
            let (ct, kt) = stmt_code(*t, n + kc.len(), ls, depth);
            let (ce, ke) = match o {
                Some(x) => stmt_code(*x, n + kc.len() + kt.len(), ls, depth),
                None => (Seq::empty(), Seq::empty()),
            };
            let a = cc.len() as int;
            let b = ct.len() as int;
            lemma_placed_part(code, p, c, 0, a);
            lemma_placed_part(code, p, c, a + 2, b);
            lemma_placed_part(code, p, c, a + b + 4, ce.len() as int);
            lemma_placed_part(consts, n as int, k, 0, kc.len() as int);
            lemma_placed_part(consts, n as int, k, kc.len() as int, kt.len() as int);
            lemma_placed_part(consts, n as int, k, (kc.len() + kt.len()) as int, ke.len() as int);
            assert(c.subrange(0, a) =~= cc);
            assert(c.subrange(a + 2, a + 2 + b) =~= ct);
            assert(c.subrange(a + b + 4, a + b + 4 + ce.len()) =~= ce);
            assert(k.subrange(0, kc.len() as int) =~= kc);
            assert(k.subrange(kc.len() as int, (kc.len() + kt.len()) as int) =~= kt);
            assert(k.subrange((kc.len() + kt.len()) as int, (kc.len() + kt.len() + ke.len()) as int) =~= ke);
            law_code_computes(cond, n, ls, code, consts, p, st, g, out, f);
            lemma_eval_height(cond, ls, st, g, f);
            let (v, st1, g1) = eval(cond, ls, st, g, f);
            let q = p + a;
            lemma_placed_at(code, p, c, a);
            lemma_placed_at(code, p, c, a + 1);
            lemma_placed_at(code, p, c, a + 2 + b);
            lemma_placed_at(code, p, c, a + 3 + b);
            assert((ct.len() + 2) as usize == ct.len() + 2);
            assert((ce.len() + 1) as usize == ce.len() + 1);
            assert(c[a] == OpCode::OpJumpIfFalse(Some((ct.len() + 2) as usize)));
            assert(c[a + 1] == OpCode::OpPop);
            assert(c[a + 2 + b] == OpCode::OpJump(Some((ce.len() + 1) as usize)));
            assert(c[a + 3 + b] == OpCode::OpPop);
            lemma_run_step(code, consts, q, st1.push(v), g1, out, f);
            assert(st1.push(v).drop_last() =~= st1);
            if !falsey(v) {
                lemma_run_step(code, consts, q + 1, st1.push(v), g1, out, f);
                law_stmt_computes(*t, n + kc.len(), ls, depth, code, consts, q + 2, st1, g1, out, f);
                let (st2, g2, out2) = exec_stmt(*t, ls, depth, st1, g1, out, f);
                lemma_run_step(code, consts, q + 2 + b, st2, g2, out2, f);
            } else {
                lemma_run_step(code, consts, q + 3 + b, st1.push(v), g1, out, f);
                if let Some(x) = o {
                    law_stmt_computes(*x, n + kc.len() + kt.len(), ls, depth, code, consts, q + 4 + b, st1, g1, out, f);
                }
            }
        },
        _ => {},
    }
}

/// The proof of `law_stmt_computes` for a block.
#[verifier::spinoff_prover]
#[verifier::rlimit(100)]
proof fn lemma_block_computes(
    s: Stmt,
    n: nat,
    ls: Seq<Local>,
    depth: usize,
    code: Seq<OpCode>,
    consts: Seq<Value>,
    p: int,
    st: Seq<Val>,
    g: Map<String, Val>,
    out: Seq<Val>,
    f: spec_fn(Arith, Val, Val) -> Val,
)
    requires
        s is Block,
        straight_stmt(s),
        stmt_clean(s, n, ls, depth),
        st.len() == ls.len(),
        placed(code, p, stmt_code(s, n, ls, depth).0),
        placed(consts, n as int, stmt_code(s, n, ls, depth).1),
        code.len() <= usize::MAX,
        consts.len() <= usize::MAX,
    ensures
        ({
            let (st2, g2, out2) = exec_stmt(s, ls, depth, st, g, out, f);
            run(code, consts, p, st, g, out, f) == run(code, consts, p + stmt_code(s, n, ls, depth).0.len(), st2, g2, out2, f)
        }),
    decreases s, 0nat,
{
    let (c, k) = stmt_code(s, n, ls, depth);
    match s {
        Stmt::Block(ds) => {
            let inner = (depth + 1) as usize;
            let (cd, kd, l2) = decls_code(ds, n, ls, inner);
            lemma_decls_locals_eq(ds, n, ls, inner);
            lemma_decls_grow(ds, ls, inner);
            let m = (l2.len() - ls.len()) as nat;
            lemma_placed_part(code, p, c, 0, cd.len() as int);
            lemma_placed_part(code, p, c, cd.len() as int, m as int);
            assert(c.subrange(0, cd.len() as int) =~= cd);
            assert(c.subrange(cd.len() as int, (cd.len() + m) as int) =~= pops(m));
            law_decls_computes(ds, n, ls, inner, code, consts, p, st, g, out, f);
            lemma_decls_height(ds, ls, inner, st, g, out, f);
            let (st2, g2, out2) = exec_decls(ds, ls, inner, st, g, out, f);
            lemma_run_pops(code, consts, p + cd.len(), m, st2, g2, out2, f);
        },
        _ => {},
    }
}

/// The code a declaration without loops compiles to does what the declaration does.
#[verifier::spinoff_prover]
#[verifier::rlimit(100)]
pub proof fn law_decl_computes(
    d: Decl,
    n: nat,
    ls: Seq<Local>,
    depth: usize,
    code: Seq<OpCode>,
    consts: Seq<Value>,
    p: int,
    st: Seq<Val>,
    g: Map<String, Val>,
    out: Seq<Val>,
    f: spec_fn(Arith, Val, Val) -> Val,
)
    requires
        straight_decl(d),
        decl_clean(d, n, ls, depth),
        st.len() == ls.len(),
        placed(code, p, decl_code(d, n, ls, depth).0),
        placed(consts, n as int, decl_code(d, n, ls, depth).1),
        code.len() <= usize::MAX,
        consts.len() <= usize::MAX,
    ensures
        ({
            let (st2, g2, out2) = exec_decl(d, ls, depth, st, g, out, f);
            run(code, consts, p, st, g, out, f) == run(code, consts, p + decl_code(d, n, ls, depth).0.len(), st2, g2, out2, f)
        }),
    decreases d, 1nat,
{
    let (c, k, l) = decl_code(d, n, ls, depth);
    match d {
        Decl::Var(name, init) => {
            if depth == 0 {
                let (ci, ki) = match init {
                    Some(e) => expr_code(e, n + 1, ls),
                    None => (seq![OpCode::OpNil], Seq::empty()),
                };
                lemma_placed_part(code, p, c, 0, ci.len() as int);
                lemma_placed_part(consts, n as int, k, 1, ki.len() as int);
                assert(c.subrange(0, ci.len() as int) =~= ci);
                assert(k.subrange(1, (1 + ki.len()) as int) =~= ki);
                lemma_placed_at(consts, n as int, k, 0);
                lemma_placed_at(code, p, c, ci.len() as int);
                let (v, st1, g1) = match init {
                    Some(e) => eval(e, ls, st, g, f),
                    None => (Val::Nil, st, g),
                };
                match init {
                    Some(e) => law_code_computes(e, n + 1, ls, code, consts, p, st, g, out, f),
                    None => {
                        lemma_placed_at(code, p, c, 0);
                        lemma_run_step(code, consts, p, st, g, out, f);
                    },
                }
                lemma_run_step(code, consts, p + ci.len(), st1.push(v), g1, out, f);
                assert(st1.push(v).drop_last() =~= st1);
            } else {
                let declared = ls.push(Local { name: name, depth: depth, initialized: false });
                match init {
                    Some(e) => {
                        lemma_clean_declared(e, n, ls, name, depth, st, g, f);
                        law_code_computes(e, n, ls, code, consts, p, st, g, out, f);
                    },
                    None => {
                        lemma_placed_at(code, p, c, 0);
                        lemma_run_step(code, consts, p, st, g, out, f);
                    },
                }
            }
        },
        Decl::Statement(x) => law_stmt_computes(x, n, ls, depth, code, consts, p, st, g, out, f),
    }
}

/// The code of declarations without loops does what they do, one after the other.
#[verifier::spinoff_prover]
#[verifier::rlimit(100)]
pub proof fn law_decls_computes(
    ds: Seq<Decl>,
    n: nat,
    ls: Seq<Local>,
    depth: usize,
    code: Seq<OpCode>,
    consts: Seq<Value>,
    p: int,
    st: Seq<Val>,
    g: Map<String, Val>,
    out: Seq<Val>,
    f: spec_fn(Arith, Val, Val) -> Val,
)
    requires
        straight_decls(ds),
        decls_clean(ds, n, ls, depth),
        st.len() == ls.len(),
        placed(code, p, decls_code(ds, n, ls, depth).0),
        placed(consts, n as int, decls_code(ds, n, ls, depth).1),
        code.len() <= usize::MAX,
        consts.len() <= usize::MAX,
    ensures
        ({
            let (st2, g2, out2) = exec_decls(ds, ls, depth, st, g, out, f);
            run(code, consts, p, st, g, out, f) == run(code, consts, p + decls_code(ds, n, ls, depth).0.len(), st2, g2, out2, f)
        }),
    decreases ds, 1nat,
{
    if ds.len() > 0 {
        let (c, k, l) = decls_code(ds, n, ls, depth);
        let (c1, k1, l1) = decls_code(ds.drop_last(), n, ls, depth);
        let (c2, k2, l2) = decl_code(ds.last(), n + k1.len(), l1, depth);
        lemma_placed_part(code, p, c, 0, c1.len() as int);
        lemma_placed_part(code, p, c, c1.len() as int, c2.len() as int);
        lemma_placed_part(consts, n as int, k, 0, k1.len() as int);
        lemma_placed_part(consts, n as int, k, k1.len() as int, k2.len() as int);
        assert(c.subrange(0, c1.len() as int) =~= c1);
        assert(c.subrange(c1.len() as int, (c1.len() + c2.len()) as int) =~= c2);
        assert(k.subrange(0, k1.len() as int) =~= k1);
        assert(k.subrange(k1.len() as int, (k1.len() + k2.len()) as int) =~= k2);
        assert(straight_decls(ds.drop_last())) by {
            assert forall|i: int| 0 <= i < ds.drop_last().len() implies straight_decl(#[trigger] ds.drop_last()[i]) by {
                assert(ds.drop_last()[i] == ds[i]);
            }
        }
        assert(straight_decl(ds[ds.len() - 1]));
        law_decls_computes(ds.drop_last(), n, ls, depth, code, consts, p, st, g, out, f);
        lemma_decls_locals_eq(ds.drop_last(), n, ls, depth);
        lemma_decls_height(ds.drop_last(), ls, depth, st, g, out, f);
        let (st1, g1, out1) = exec_decls(ds.drop_last(), ls, depth, st, g, out, f);
        law_decl_computes(ds.last(), n + k1.len(), l1, depth, code, consts, p + c1.len(), st1, g1, out1, f);
    }
}

/// A `while` loop runs its body exactly while its condition is true, checking it before
/// each pass: run from where its code stands, when the condition is false the code goes on
/// after the loop with the condition's effects done; when it is true, the body runs once
/// and the code comes back to the start of the loop, where the next pass begins.
#[verifier::spinoff_prover]
#[verifier::rlimit(100)]
pub proof fn law_while_iterates(
    s: Stmt,
    n: nat,
    ls: Seq<Local>,
    depth: usize,
    code: Seq<OpCode>,
    consts: Seq<Value>,
    p: int,
    st: Seq<Val>,
    g: Map<String, Val>,
    out: Seq<Val>,
    f: spec_fn(Arith, Val, Val) -> Val,
)
    requires
        s is While,
        complete(s->While_0),
        straight_stmt(*s->While_1),
        stmt_clean(s, n, ls, depth),
        st.len() == ls.len(),
        placed(code, p, stmt_code(s, n, ls, depth).0),
        placed(consts, n as int, stmt_code(s, n, ls, depth).1),
        code.len() <= usize::MAX,
        consts.len() <= usize::MAX,
    ensures
        ({
            let (v, st1, g1) = eval(s->While_0, ls, st, g, f);
            let (st2, g2, out2) = exec_stmt(*s->While_1, ls, depth, st1, g1, out, f);
            &&& falsey(v) ==> run(code, consts, p, st, g, out, f) == run(
                code,
                consts,
                p + stmt_code(s, n, ls, depth).0.len(),
                st1,
                g1,
                out,
                f,
            )
            &&& !falsey(v) ==> run(code, consts, p, st, g, out, f) == (p, st2, g2, out2)
        }),
{
    let (c, k) = stmt_code(s, n, ls, depth);
    match s {
        Stmt::While(cond, body) => {
            let (cc, kc) = expr_code(cond, n, ls);
            let (cb, kb) = stmt_code(*body, n + kc.len(), ls, depth);
            let a = cc.len() as int;
            let b = cb.len() as int;
            lemma_placed_part(code, p, c, 0, a);
            lemma_placed_part(code, p, c, a + 2, b);
            lemma_placed_part(consts, n as int, k, 0, kc.len() as int);
            lemma_placed_part(consts, n as int, k, kc.len() as int, kb.len() as int);
            assert(c.subrange(0, a) =~= cc);
            assert(c.subrange(a + 2, a + 2 + b) =~= cb);
            assert(k.subrange(0, kc.len() as int) =~= kc);
            assert(k.subrange(kc.len() as int, (kc.len() + kb.len()) as int) =~= kb);
            law_code_computes(cond, n, ls, code, consts, p, st, g, out, f);
            lemma_eval_height(cond, ls, st, g, f);
            let (v, st1, g1) = eval(cond, ls, st, g, f);
            let q = p + a;
            lemma_placed_at(code, p, c, a);
            lemma_placed_at(code, p, c, a + 1);
            lemma_placed_at(code, p, c, a + 2 + b);
            lemma_placed_at(code, p, c, a + 3 + b);
            assert((cb.len() + 2) as usize == cb.len() + 2);
            assert((cc.len() + cb.len() + 3) as usize == cc.len() + cb.len() + 3);
            assert(c[a] == OpCode::OpJumpIfFalse(Some((cb.len() + 2) as usize)));
            assert(c[a + 1] == OpCode::OpPop);
            assert(c[a + 2 + b] == OpCode::OpLoop((cc.len() + cb.len() + 3) as usize));
            assert(c[a + 3 + b] == OpCode::OpPop);
            assert(st1.push(v).drop_last() =~= st1);
            if falsey(v) {
                lemma_run_step(code, consts, q, st1.push(v), g1, out, f);
                lemma_run_step(code, consts, q + 3 + b, st1.push(v), g1, out, f);
            } else {
                lemma_run_step(code, consts, q, st1.push(v), g1, out, f);
                lemma_run_step(code, consts, q + 1, st1.push(v), g1, out, f);
                law_stmt_computes(*body, n + kc.len(), ls, depth, code, consts, q + 2, st1, g1, out, f);
            }
        },
        _ => {},
    }
}

/// Where the parts of a `for` statement's code start, from the start of its code: the
/// condition (the start of each pass) and the increment; and the locals in the loop, those
/// of its scope after the initializer.
pub open spec fn for_layout(s: Stmt, n: nat, ls: Seq<Local>, depth: usize) -> (int, int, Seq<Local>) {
    let inner = (depth + 1) as usize;
    let (ci, ki, l1) = match s->For_0 {
        Some(d) => decl_code(*d, n, ls, inner),
        None => (Seq::empty(), Seq::empty(), ls),
    };
    let cond_len: int = match s->For_1 {
        Some(c) => expr_code(c, n + ki.len(), l1).0.len() + 2int,
        None => 0,
    };
    (ci.len() as int, ci.len() + cond_len + 1, l1)
}

/// A `for` statement runs its initializer once, in a scope of its own, before the first
/// pass.
#[verifier::spinoff_prover]
#[verifier::rlimit(100)]
pub proof fn law_for_enters(
    s: Stmt,
    n: nat,
    ls: Seq<Local>,
    depth: usize,
    code: Seq<OpCode>,
    consts: Seq<Value>,
    p: int,
    st: Seq<Val>,
    g: Map<String, Val>,
    out: Seq<Val>,
    f: spec_fn(Arith, Val, Val) -> Val,
)
    requires
        s is For,
        match s->For_0 {
            Some(d) => straight_decl(*d),
            None => true,
        },
        match s->For_1 {
            Some(c) => complete(c),
            None => true,
        },
        match s->For_2 {
            Some(c) => complete(c),
            None => true,
        },
        straight_stmt(*s->For_3),
        stmt_clean(s, n, ls, depth),
        st.len() == ls.len(),
        placed(code, p, stmt_code(s, n, ls, depth).0),
        placed(consts, n as int, stmt_code(s, n, ls, depth).1),
        code.len() <= usize::MAX,
        consts.len() <= usize::MAX,
    ensures
        ({
            let (st0, g0, out0) = match s->For_0 {
                Some(d) => exec_decl(*d, ls, (depth + 1) as usize, st, g, out, f),
                None => (st, g, out),
            };
            run(code, consts, p, st, g, out, f) == run(code, consts, p + for_layout(s, n, ls, depth).0, st0, g0, out0, f)
        }),
{
    let inner = (depth + 1) as usize;
    match s->For_0 {
        Some(d) => {
            let (ci, ki, l1) = decl_code(*d, n, ls, inner);
            let c = stmt_code(s, n, ls, depth).0;
            let k = stmt_code(s, n, ls, depth).1;
            lemma_placed_part(code, p, c, 0, ci.len() as int);
            lemma_placed_part(consts, n as int, k, 0, ki.len() as int);
            assert(c.subrange(0, ci.len() as int) =~= ci);
            assert(k.subrange(0, ki.len() as int) =~= ki);
            law_decl_computes(*d, n, ls, inner, code, consts, p, st, g, out, f);
        },
        None => {},
    }
}

/// Each pass of a `for` statement checks its condition first (a missing condition is
/// true): when it is false the loop ends, the locals of its scope gone; when it is true the
/// body runs, and the code goes back to the increment, or to the condition when there is
/// no increment.
#[verifier::spinoff_prover]
#[verifier::rlimit(100)]
pub proof fn law_for_checks(
    s: Stmt,
    n: nat,
    ls: Seq<Local>,
    depth: usize,
    code: Seq<OpCode>,
    consts: Seq<Value>,
    p: int,
    st: Seq<Val>,
    g: Map<String, Val>,
    out: Seq<Val>,
    f: spec_fn(Arith, Val, Val) -> Val,
)
    requires
        s is For,
        match s->For_0 {
            Some(d) => straight_decl(*d),
            None => true,
        },
        match s->For_1 {
            Some(c) => complete(c),
            None => true,
        },
        match s->For_2 {
            Some(c) => complete(c),
            None => true,
        },
        straight_stmt(*s->For_3),
        stmt_clean(s, n, ls, depth),
        placed(code, p, stmt_code(s, n, ls, depth).0),
        placed(consts, n as int, stmt_code(s, n, ls, depth).1),
        code.len() <= usize::MAX,
        consts.len() <= usize::MAX,
        st.len() == for_layout(s, n, ls, depth).2.len(),
    ensures
        ({
            let (cs, is, l1) = for_layout(s, n, ls, depth);
            let inner = (depth + 1) as usize;
            let (v, st1, g1) = match s->For_1 {
                Some(c) => eval(c, l1, st, g, f),
                None => (Val::Bool(true), st, g),
            };
            let (st2, g2, out2) = exec_stmt(*s->For_3, l1, inner, st1, g1, out, f);
            &&& falsey(v) ==> run(code, consts, p + cs, st, g, out, f) == run(
                code,
                consts,
                p + stmt_code(s, n, ls, depth).0.len(),
                st1.subrange(0, ls.len() as int),
                g1,
                out,
                f,
            )
            &&& !falsey(v) ==> run(code, consts, p + cs, st, g, out, f) == (
                if s->For_2 is Some {
                    p + is
                } else {
                    p + cs
                },
                st2,
                g2,
                out2,
            )
        }),
{
    let (cs, is, l1) = for_layout(s, n, ls, depth);
    let (v, st1, g1) = match s->For_1 {
        Some(c) => eval(c, l1, st, g, f),
        None => (Val::Bool(true), st, g),
    };
    if falsey(v) {
        lemma_for_exit(s, n, ls, depth, code, consts, p, st, g, out, f);
    } else {
        lemma_for_pass(s, n, ls, depth, code, consts, p, st, g, out, f);
    }
}

// The proof of `law_for_checks` when the condition is false.
#[verifier::spinoff_prover]
#[verifier::rlimit(100)]
proof fn lemma_for_exit(
    s: Stmt,
    n: nat,
    ls: Seq<Local>,
    depth: usize,
    code: Seq<OpCode>,
    consts: Seq<Value>,
    p: int,
    st: Seq<Val>,
    g: Map<String, Val>,
    out: Seq<Val>,
    f: spec_fn(Arith, Val, Val) -> Val,
)
    requires
        s is For,
        match s->For_0 {
            Some(d) => straight_decl(*d),
            None => true,
        },
        match s->For_1 {
            Some(c) => complete(c),
            None => true,
        },
        match s->For_2 {
            Some(c) => complete(c),
            None => true,
        },
        straight_stmt(*s->For_3),
        stmt_clean(s, n, ls, depth),
        placed(code, p, stmt_code(s, n, ls, depth).0),
        placed(consts, n as int, stmt_code(s, n, ls, depth).1),
        code.len() <= usize::MAX,
        consts.len() <= usize::MAX,
        st.len() == for_layout(s, n, ls, depth).2.len(),
        falsey(match s->For_1 {
            Some(c) => eval(c, for_layout(s, n, ls, depth).2, st, g, f),
            None => (Val::Bool(true), st, g),
        }.0),
    ensures
        ({
            let (cs, is, l1) = for_layout(s, n, ls, depth);
            let inner = (depth + 1) as usize;
            let (v, st1, g1) = match s->For_1 {
                Some(c) => eval(c, l1, st, g, f),
                None => (Val::Bool(true), st, g),
            };
            let (st2, g2, out2) = exec_stmt(*s->For_3, l1, inner, st1, g1, out, f);
            &&& falsey(v) ==> run(code, consts, p + cs, st, g, out, f) == run(
                code,
                consts,
                p + stmt_code(s, n, ls, depth).0.len(),
                st1.subrange(0, ls.len() as int),
                g1,
                out,
                f,
            )
        }),
{
    let inner = (depth + 1) as usize;
    let (ci, ki, l1) = match s->For_0 {
        Some(d) => decl_code(*d, n, ls, inner),
        None => (Seq::empty(), Seq::empty(), ls),
    };
    let n1 = n + ki.len();
    let (cc, kc) = match s->For_1 {
        Some(c) => expr_code(c, n1, l1),
        None => (Seq::empty(), Seq::empty()),
    };
    let n2 = n1 + kc.len();
    let (cn, kn) = match s->For_2 {
        Some(c) => expr_code(c, n2, l1),
        None => (Seq::empty(), Seq::empty()),
    };
    let (cb, kb) = stmt_code(*s->For_3, n2 + kn.len(), l1, inner);
    let m = (l1.len() - ls.len()) as nat;
    let c = stmt_code(s, n, ls, depth).0;
    let k = stmt_code(s, n, ls, depth).1;
    assert(c == for_assembly(ci, cc, cn, cb, m, s->For_1 is Some, s->For_2 is Some));
    assert(k == ki + kc + kn + kb);
    lemma_for_pieces(ci, cc, cn, cb, m, s->For_1 is Some, s->For_2 is Some);
    let a = cc.len() as int;
    let cond_len: int = if s->For_1 is Some { a + 2 } else { 0 };
    let incr_len: int = if s->For_2 is Some { cn.len() + 3int } else { 0 };
    let cs = ci.len() as int;
    let bs = cs + cond_len + incr_len;
    match s->For_0 {
        Some(d) => lemma_decl_grows(*d, n, ls, inner),
        None => {},
    }
    let cd = s->For_1->0;
    lemma_placed_part(code, p, c, cs, a);
    lemma_placed_part(consts, n as int, k, n1 - n, kc.len() as int);
    assert(k.subrange(n1 - n, n1 - n + kc.len()) =~= kc);
    law_code_computes(cd, n1, l1, code, consts, p + cs, st, g, out, f);
    lemma_eval_height(cd, l1, st, g, f);
    let (v, st1, g1) = eval(cd, l1, st, g, f);
    let q = p + cs + a;
    lemma_placed_at(code, p, c, cs + a);
    let off: int = cb.len() + 2 + incr_len;
    assert(off as usize == off);
    lemma_run_step(code, consts, q, st1.push(v), g1, out, f);
    lemma_placed_at(code, p, c, bs + cb.len() + 1);
    lemma_run_step(code, consts, p + bs + cb.len() + 1, st1.push(v), g1, out, f);
    assert(st1.push(v).drop_last() =~= st1);
    let e0 = bs + cb.len() + 2;
    lemma_placed_part(code, p, c, e0, m as int);
    lemma_run_pops(code, consts, p + e0, m, st1, g1, out, f);
}

/// Where the body of a `for` statement's code starts, from the start of its code.
pub open spec fn for_body_start(s: Stmt, n: nat, ls: Seq<Local>, depth: usize) -> int {
    let (cs, is, l1) = for_layout(s, n, ls, depth);
    let inner = (depth + 1) as usize;
    let ki = match s->For_0 {
        Some(d) => decl_code(*d, n, ls, inner).1,
        None => Seq::empty(),
    };
    let kc = match s->For_1 {
        Some(c) => expr_code(c, n + ki.len(), l1).1,
        None => Seq::empty(),
    };
    let incr_len: int = match s->For_2 {
        Some(c) => expr_code(c, n + ki.len() + kc.len(), l1).0.len() + 3int,
        None => 0,
    };
    is - 1 + incr_len
}

/// The proof of `law_for_checks` when the condition is true.
#[verifier::spinoff_prover]
#[verifier::rlimit(100)]
proof fn lemma_for_pass(
    s: Stmt,
    n: nat,
    ls: Seq<Local>,
    depth: usize,
    code: Seq<OpCode>,
    consts: Seq<Value>,
    p: int,
    st: Seq<Val>,
    g: Map<String, Val>,
    out: Seq<Val>,
    f: spec_fn(Arith, Val, Val) -> Val,
)
    requires
        s is For,
        match s->For_0 {
            Some(d) => straight_decl(*d),
            None => true,
        },
        match s->For_1 {
            Some(c) => complete(c),
            None => true,
        },
        match s->For_2 {
            Some(c) => complete(c),
            None => true,
        },
        straight_stmt(*s->For_3),
        stmt_clean(s, n, ls, depth),
        placed(code, p, stmt_code(s, n, ls, depth).0),
        placed(consts, n as int, stmt_code(s, n, ls, depth).1),
        code.len() <= usize::MAX,
        consts.len() <= usize::MAX,
        st.len() == for_layout(s, n, ls, depth).2.len(),
        !falsey(match s->For_1 {
            Some(c) => eval(c, for_layout(s, n, ls, depth).2, st, g, f),
            None => (Val::Bool(true), st, g),
        }.0),
    ensures
        ({
            let (cs, is, l1) = for_layout(s, n, ls, depth);
            let inner = (depth + 1) as usize;
            let (v, st1, g1) = match s->For_1 {
                Some(c) => eval(c, l1, st, g, f),
                None => (Val::Bool(true), st, g),
            };
            let (st2, g2, out2) = exec_stmt(*s->For_3, l1, inner, st1, g1, out, f);
            &&& !falsey(v) ==> run(code, consts, p + cs, st, g, out, f) == (
                if s->For_2 is Some {
                    p + is
                } else {
                    p + cs
                },
                st2,
                g2,
                out2,
            )
        }),
{
    let (cs, is, l1) = for_layout(s, n, ls, depth);
    let (v, st1, g1) = match s->For_1 {
        Some(c) => eval(c, l1, st, g, f),
        None => (Val::Bool(true), st, g),
    };
    lemma_for_to_body(s, n, ls, depth, code, consts, p, st, g, out, f);
    match s->For_1 {
        Some(c) => lemma_eval_height(c, l1, st, g, f),
        None => {},
    }
    lemma_for_body_back(s, n, ls, depth, code, consts, p, st1, g1, out, f);
}

/// The parts of a `for` statement's code and constants: the initializer's, the condition's,
/// the increment's and the body's, with the locals in the loop.
pub open spec fn for_parts(s: Stmt, n: nat, ls: Seq<Local>, depth: usize) -> (
    Seq<OpCode>,
    Seq<Value>,
    Seq<Local>,
    Seq<OpCode>,
    Seq<Value>,
    Seq<OpCode>,
    Seq<Value>,
    Seq<OpCode>,
    Seq<Value>,
) {
    let inner = (depth + 1) as usize;
    let (ci, ki, l1) = match s->For_0 {
        Some(d) => decl_code(*d, n, ls, inner),
        None => (Seq::empty(), Seq::empty(), ls),
    };
    let n1 = n + ki.len();
    let (cc, kc) = match s->For_1 {
        Some(c) => expr_code(c, n1, l1),
        None => (Seq::empty(), Seq::empty()),
    };
    let n2 = n1 + kc.len();
    let (cn, kn) = match s->For_2 {
        Some(c) => expr_code(c, n2, l1),
        None => (Seq::empty(), Seq::empty()),
    };
    let (cb, kb) = stmt_code(*s->For_3, n2 + kn.len(), l1, inner);
    (ci, ki, l1, cc, kc, cn, kn, cb, kb)
}

/// The proof that the code of a `for` statement is its parts assembled.
#[verifier::spinoff_prover]
#[verifier::rlimit(100)]
proof fn lemma_for_code(s: Stmt, n: nat, ls: Seq<Local>, depth: usize)
    requires
        s is For,
    ensures
        ({
            let (ci, ki, l1, cc, kc, cn, kn, cb, kb) = for_parts(s, n, ls, depth);
            &&& stmt_code(s, n, ls, depth).0 == for_assembly(
                ci,
                cc,
                cn,
                cb,
                (l1.len() - ls.len()) as nat,
                s->For_1 is Some,
                s->For_2 is Some,
            )
            &&& stmt_code(s, n, ls, depth).1 == ki + kc + kn + kb
            &&& ls.len() <= l1.len()
            &&& stmt_clean(s, n, ls, depth) ==> stmt_clean(
                *s->For_3,
                n + ki.len() + kc.len() + kn.len(),
                l1,
                (depth + 1) as usize,
            )
        }),
{
    let inner = (depth + 1) as usize;
    match s->For_0 {
        Some(d) => lemma_decl_grows(*d, n, ls, inner),
        None => {},
    }
}

/// The proof that a true condition of a `for`, or a missing one, leads past the increment
/// to the body, the condition's value dropped.
#[verifier::spinoff_prover]
proof fn lemma_for_enter_body(
    code: Seq<OpCode>,
    consts: Seq<Value>,
    p: int,
    ci: Seq<OpCode>,
    cc: Seq<OpCode>,
    cn: Seq<OpCode>,
    cb: Seq<OpCode>,
    m: nat,
    hc: bool,
    hi: bool,
    st: Seq<Val>,
    v: Val,
    g: Map<String, Val>,
    out: Seq<Val>,
    f: spec_fn(Arith, Val, Val) -> Val,
)
    requires
        placed(code, p, for_assembly(ci, cc, cn, cb, m, hc, hi)),
        code.len() <= usize::MAX,
        hc ==> !falsey(v),
    ensures
        ({
            let cond_len: int = if hc { cc.len() + 2int } else { 0 };
            let incr_len: int = if hi { cn.len() + 3int } else { 0 };
            let cs = ci.len() as int;
            let bs = cs + cond_len + incr_len;
            &&& hc ==> run(code, consts, p + cs + cc.len(), st.push(v), g, out, f) == run(
                code,
                consts,
                p + bs,
                st,
                g,
                out,
                f,
            )
            &&& !hc ==> run(code, consts, p + cs, st, g, out, f) == run(code, consts, p + bs, st, g, out, f)
        }),
{
    let c = for_assembly(ci, cc, cn, cb, m, hc, hi);
    lemma_for_pieces(ci, cc, cn, cb, m, hc, hi);
    let a = cc.len() as int;
    let cond_len: int = if hc { a + 2 } else { 0 };
    let incr_len: int = if hi { cn.len() + 3int } else { 0 };
    let cs = ci.len() as int;
    if hi {
        lemma_placed_at(code, p, c, cs + cond_len);
        assert((cn.len() + 2) as usize == cn.len() + 2);
        lemma_run_step(code, consts, p + cs + cond_len, st, g, out, f);
    }
    if hc {
        lemma_placed_at(code, p, c, cs + a);
        lemma_placed_at(code, p, c, cs + a + 1);
        let off: int = cb.len() + 2 + incr_len;
        assert(off as usize == off);
        lemma_run_step(code, consts, p + cs + a, st.push(v), g, out, f);
        lemma_run_step(code, consts, p + cs + a + 1, st.push(v), g, out, f);
        assert(st.push(v).drop_last() =~= st);
    }
}

/// The proof that the loop back at the end of a `for` body goes to the increment, or to the
/// condition when there is no increment.
#[verifier::spinoff_prover]
proof fn lemma_for_loop_back(
    code: Seq<OpCode>,
    consts: Seq<Value>,
    p: int,
    ci: Seq<OpCode>,
    cc: Seq<OpCode>,
    cn: Seq<OpCode>,
    cb: Seq<OpCode>,
    m: nat,
    hc: bool,
    hi: bool,
    st: Seq<Val>,
    g: Map<String, Val>,
    out: Seq<Val>,
    f: spec_fn(Arith, Val, Val) -> Val,
)
    requires
        placed(code, p, for_assembly(ci, cc, cn, cb, m, hc, hi)),
        code.len() <= usize::MAX,
    ensures
        ({
            let cond_len: int = if hc { cc.len() + 2int } else { 0 };
            let incr_len: int = if hi { cn.len() + 3int } else { 0 };
            let cs = ci.len() as int;
            let bs = cs + cond_len + incr_len;
            run(code, consts, p + bs + cb.len(), st, g, out, f) == (
                if hi {
                    p + cs + cond_len + 1
                } else {
                    p + cs
                },
                st,
                g,
                out,
            )
        }),
{
    let c = for_assembly(ci, cc, cn, cb, m, hc, hi);
    lemma_for_pieces(ci, cc, cn, cb, m, hc, hi);
    let cond_len: int = if hc { cc.len() + 2int } else { 0 };
    let incr_len: int = if hi { cn.len() + 3int } else { 0 };
    let cs = ci.len() as int;
    let bs = cs + cond_len + incr_len;
    let back: int = if hi { incr_len + cb.len() } else { cond_len + cb.len() + 1 };
    assert(back as usize == back);
    lemma_placed_at(code, p, c, bs + cb.len());
}

/// The proof that a true condition of a `for` leads to its body.
#[verifier::spinoff_prover]
#[verifier::rlimit(100)]
proof fn lemma_for_to_body(
    s: Stmt,
    n: nat,
    ls: Seq<Local>,
    depth: usize,
    code: Seq<OpCode>,
    consts: Seq<Value>,
    p: int,
    st: Seq<Val>,
    g: Map<String, Val>,
    out: Seq<Val>,
    f: spec_fn(Arith, Val, Val) -> Val,
)
    requires
        s is For,
        match s->For_0 {
            Some(d) => straight_decl(*d),
            None => true,
        },
        match s->For_1 {
            Some(c) => complete(c),
            None => true,
        },
        match s->For_2 {
            Some(c) => complete(c),
            None => true,
        },
        straight_stmt(*s->For_3),
        stmt_clean(s, n, ls, depth),
        placed(code, p, stmt_code(s, n, ls, depth).0),
        placed(consts, n as int, stmt_code(s, n, ls, depth).1),
        code.len() <= usize::MAX,
        consts.len() <= usize::MAX,
        st.len() == for_layout(s, n, ls, depth).2.len(),
        !falsey(match s->For_1 {
            Some(c) => eval(c, for_layout(s, n, ls, depth).2, st, g, f),
            None => (Val::Bool(true), st, g),
        }.0),
    ensures
        ({
            let (cs, is, l1) = for_layout(s, n, ls, depth);
            let inner = (depth + 1) as usize;
            let (v, st1, g1) = match s->For_1 {
                Some(c) => eval(c, l1, st, g, f),
                None => (Val::Bool(true), st, g),
            };
            let bs = for_body_start(s, n, ls, depth);
            run(code, consts, p + cs, st, g, out, f) == run(code, consts, p + bs, st1, g1, out, f)
        }),
{
    let inner = (depth + 1) as usize;
    let (ci, ki, l1) = match s->For_0 {
        Some(d) => decl_code(*d, n, ls, inner),
        None => (Seq::empty(), Seq::empty(), ls),
    };
    let n1 = n + ki.len();
    let (cc, kc) = match s->For_1 {
        Some(c) => expr_code(c, n1, l1),
        None => (Seq::empty(), Seq::empty()),
    };
    let n2 = n1 + kc.len();
    let (cn, kn) = match s->For_2 {
        Some(c) => expr_code(c, n2, l1),
        None => (Seq::empty(), Seq::empty()),
    };
    let (cb, kb) = stmt_code(*s->For_3, n2 + kn.len(), l1, inner);
    let m = (l1.len() - ls.len()) as nat;
    let hc = s->For_1 is Some;
    let hi = s->For_2 is Some;
    lemma_for_code(s, n, ls, depth);
    let c = stmt_code(s, n, ls, depth).0;
    let k = stmt_code(s, n, ls, depth).1;
    lemma_for_pieces(ci, cc, cn, cb, m, hc, hi);
    let a = cc.len() as int;
    let cond_len: int = if hc { a + 2 } else { 0 };
    let incr_len: int = if hi { cn.len() + 3int } else { 0 };
    let cs = ci.len() as int;
    let bs = cs + cond_len + incr_len;
    if hc {
        let cd = s->For_1->0;
        lemma_placed_part(code, p, c, cs, a);
        lemma_placed_part(consts, n as int, k, n1 - n, kc.len() as int);
        assert(k.subrange(n1 - n, n1 - n + kc.len()) =~= kc);
        law_code_computes(cd, n1, l1, code, consts, p + cs, st, g, out, f);
        lemma_eval_height(cd, l1, st, g, f);
        let (v, st1, g1) = eval(cd, l1, st, g, f);
        lemma_for_enter_body(code, consts, p, ci, cc, cn, cb, m, hc, hi, st1, v, g1, out, f);
    } else {
        lemma_for_enter_body(code, consts, p, ci, cc, cn, cb, m, hc, hi, st, Val::Bool(true), g, out, f);
    }
}

/// The proof that the body of a `for` runs and goes back to the increment or condition.
#[verifier::spinoff_prover]
#[verifier::rlimit(100)]
proof fn lemma_for_body_back(
    s: Stmt,
    n: nat,
    ls: Seq<Local>,
    depth: usize,
    code: Seq<OpCode>,
    consts: Seq<Value>,
    p: int,
    st: Seq<Val>,
    g: Map<String, Val>,
    out: Seq<Val>,
    f: spec_fn(Arith, Val, Val) -> Val,
)
    requires
        s is For,
        match s->For_0 {
            Some(d) => straight_decl(*d),
            None => true,
        },
        match s->For_1 {
            Some(c) => complete(c),
            None => true,
        },
        match s->For_2 {
            Some(c) => complete(c),
            None => true,
        },
        straight_stmt(*s->For_3),
        stmt_clean(s, n, ls, depth),
        placed(code, p, stmt_code(s, n, ls, depth).0),
        placed(consts, n as int, stmt_code(s, n, ls, depth).1),
        code.len() <= usize::MAX,
        consts.len() <= usize::MAX,
        st.len() == for_layout(s, n, ls, depth).2.len(),
    ensures
        ({
            let (cs, is, l1) = for_layout(s, n, ls, depth);
            let inner = (depth + 1) as usize;
            let (st2, g2, out2) = exec_stmt(*s->For_3, l1, inner, st, g, out, f);
            let bs = for_body_start(s, n, ls, depth);
            run(code, consts, p + bs, st, g, out, f) == (
                if s->For_2 is Some {
                    p + is
                } else {
                    p + cs
                },
                st2,
                g2,
                out2,
            )
        }),
{
    let inner = (depth + 1) as usize;
    let (ci, ki, l1, cc, kc, cn, kn, cb, kb) = for_parts(s, n, ls, depth);
    let m = (l1.len() - ls.len()) as nat;
    let nb = n + ki.len() + kc.len() + kn.len();
    lemma_for_code(s, n, ls, depth);
    let k = stmt_code(s, n, ls, depth).1;
    lemma_placed_part(consts, n as int, k, nb - n, kb.len() as int);
    assert(k.subrange(nb - n, nb - n + kb.len()) =~= kb);
    lemma_for_body_run(
        code,
        consts,
        p,
        ci,
        cc,
        cn,
        *s->For_3,
        nb,
        l1,
        inner,
        m,
        s->For_1 is Some,
        s->For_2 is Some,
        st,
        g,
        out,
        f,
    );
}

/// The proof that the body of a `for`, its code placed among the loop's parts, runs and
/// goes back to the increment or condition.
#[verifier::spinoff_prover]
#[verifier::rlimit(50)]
proof fn lemma_for_body_run(
    code: Seq<OpCode>,
    consts: Seq<Value>,
    p: int,
    ci: Seq<OpCode>,
    cc: Seq<OpCode>,
    cn: Seq<OpCode>,
    body: Stmt,
    nb: nat,
    l1: Seq<Local>,
    inner: usize,
    m: nat,
    hc: bool,
    hi: bool,
    st: Seq<Val>,
    g: Map<String, Val>,
    out: Seq<Val>,
    f: spec_fn(Arith, Val, Val) -> Val,
)
    requires
        placed(code, p, for_assembly(ci, cc, cn, stmt_code(body, nb, l1, inner).0, m, hc, hi)),
        placed(consts, nb as int, stmt_code(body, nb, l1, inner).1),
        straight_stmt(body),
        stmt_clean(body, nb, l1, inner),
        st.len() == l1.len(),
        code.len() <= usize::MAX,
        consts.len() <= usize::MAX,
    ensures
        ({
            let cb = stmt_code(body, nb, l1, inner).0;
            let cond_len: int = if hc { cc.len() + 2int } else { 0 };
            let incr_len: int = if hi { cn.len() + 3int } else { 0 };
            let cs = ci.len() as int;
            let (st2, g2, out2) = exec_stmt(body, l1, inner, st, g, out, f);
            run(code, consts, p + cs + cond_len + incr_len, st, g, out, f) == (
                if hi {
                    p + cs + cond_len + 1
                } else {
                    p + cs
                },
                st2,
                g2,
                out2,
            )
        }),
{
    let cb = stmt_code(body, nb, l1, inner).0;
    let c = for_assembly(ci, cc, cn, cb, m, hc, hi);
    lemma_for_pieces(ci, cc, cn, cb, m, hc, hi);
    let cond_len: int = if hc { cc.len() + 2int } else { 0 };
    let incr_len: int = if hi { cn.len() + 3int } else { 0 };
    let bs = ci.len() + cond_len + incr_len;
    lemma_placed_part(code, p, c, bs, cb.len() as int);
    law_stmt_computes(body, nb, l1, inner, code, consts, p + bs, st, g, out, f);
    let (st2, g2, out2) = exec_stmt(body, l1, inner, st, g, out, f);
    lemma_for_loop_back(code, consts, p, ci, cc, cn, cb, m, hc, hi, st2, g2, out2, f);
}

/// The increment of a `for` statement runs after each pass, its value dropped, and the
/// code goes back to the condition.
#[verifier::spinoff_prover]
#[verifier::rlimit(100)]
pub proof fn law_for_increments(
    s: Stmt,
    n: nat,
    ls: Seq<Local>,
    depth: usize,
    code: Seq<OpCode>,
    consts: Seq<Value>,
    p: int,
    st: Seq<Val>,
    g: Map<String, Val>,
    out: Seq<Val>,
    f: spec_fn(Arith, Val, Val) -> Val,
)
    requires
        s is For,
        match s->For_0 {
            Some(d) => straight_decl(*d),
            None => true,
        },
        match s->For_1 {
            Some(c) => complete(c),
            None => true,
        },
        match s->For_2 {
            Some(c) => complete(c),
            None => true,
        },
        straight_stmt(*s->For_3),
        stmt_clean(s, n, ls, depth),
        placed(code, p, stmt_code(s, n, ls, depth).0),
        placed(consts, n as int, stmt_code(s, n, ls, depth).1),
        code.len() <= usize::MAX,
        consts.len() <= usize::MAX,
        s->For_2 is Some,
        st.len() == for_layout(s, n, ls, depth).2.len(),
    ensures
        ({
            let (cs, is, l1) = for_layout(s, n, ls, depth);
            let (v, st1, g1) = eval(s->For_2->0, l1, st, g, f);
            run(code, consts, p + is, st, g, out, f) == (p + cs, st1, g1, out)
        }),
{
    let inner = (depth + 1) as usize;
    let (ci, ki, l1) = match s->For_0 {
        Some(d) => decl_code(*d, n, ls, inner),
        None => (Seq::empty(), Seq::empty(), ls),
    };
    let n1 = n + ki.len();
    let (cc, kc) = match s->For_1 {
        Some(c) => expr_code(c, n1, l1),
        None => (Seq::empty(), Seq::empty()),
    };
    let n2 = n1 + kc.len();
    let (cn, kn) = match s->For_2 {
        Some(c) => expr_code(c, n2, l1),
        None => (Seq::empty(), Seq::empty()),
    };
    let (cb, kb) = stmt_code(*s->For_3, n2 + kn.len(), l1, inner);
    let c = stmt_code(s, n, ls, depth).0;
    let k = stmt_code(s, n, ls, depth).1;
    let a = cc.len() as int;
    let cond_len: int = if s->For_1 is Some { a + 2 } else { 0 };
    let incr_len: int = if s->For_2 is Some { cn.len() + 3int } else { 0 };
    let cs = ci.len() as int;
    let bs = cs + cond_len + incr_len;
    let m = (l1.len() - ls.len()) as nat;

    let is = cs + cond_len + 1;
    let cd = s->For_2->0;
    lemma_placed_part(code, p, c, is, cn.len() as int);
    lemma_placed_part(consts, n as int, k, n2 - n, kn.len() as int);
    assert(c.subrange(is, is + cn.len()) =~= cn);
    assert(k.subrange(n2 - n, n2 - n + kn.len()) =~= kn);
    law_code_computes(cd, n2, l1, code, consts, p + is, st, g, out, f);
    lemma_eval_height(cd, l1, st, g, f);
    let (v, st1, g1) = eval(cd, l1, st, g, f);
    lemma_placed_at(code, p, c, is + cn.len());
    lemma_placed_at(code, p, c, is + cn.len() + 1);
    assert((cond_len + cn.len() + 3) as usize == cond_len + cn.len() + 3);
    assert(c[is + cn.len()] == OpCode::OpPop);
    assert(c[is + cn.len() + 1] == OpCode::OpLoop((cond_len + cn.len() + 3) as usize));
    lemma_run_step(code, consts, p + is + cn.len(), st1.push(v), g1, out, f);
    assert(st1.push(v).drop_last() =~= st1);
}

/// The code of a `for` statement assembled from the code of its parts: the initializer,
/// the condition and its exit jump, the increment jumped over on the way in, the body, the
/// loop back, the exit pop, and the pops of the loop's scope.
pub open spec fn for_assembly(
    ci: Seq<OpCode>,
    cc: Seq<OpCode>,
    cn: Seq<OpCode>,
    cb: Seq<OpCode>,
    m: nat,
    has_cond: bool,
    has_incr: bool,
) -> Seq<OpCode> {
    let cond_part: Seq<OpCode> = if has_cond {
        cc + seq![OpCode::OpJumpIfFalse(Some((cb.len() + 2 + if has_incr { cn.len() + 3 } else { 0 }) as usize)), OpCode::OpPop]
    } else {
        Seq::empty()
    };
    let incr_part: Seq<OpCode> = if has_incr {
        seq![OpCode::OpJump(Some((cn.len() + 2) as usize))] + cn + seq![
            OpCode::OpPop,
            OpCode::OpLoop((cond_part.len() + cn.len() + 3) as usize),
        ]
    } else {
        Seq::empty()
    };
    let back: nat = if has_incr { incr_part.len() + cb.len() } else { cond_part.len() + cb.len() + 1 };
    let exit_part: Seq<OpCode> = if has_cond { seq![OpCode::OpPop] } else { Seq::empty() };
    ci + cond_part + incr_part + cb + seq![OpCode::OpLoop(back as usize)] + exit_part + pops(m)
}

/// The proof of where the parts of a `for` statement's code stand in it.
#[verifier::spinoff_prover]
proof fn lemma_for_pieces(
    ci: Seq<OpCode>,
    cc: Seq<OpCode>,
    cn: Seq<OpCode>,
    cb: Seq<OpCode>,
    m: nat,
    has_cond: bool,
    has_incr: bool,
)
    ensures
        ({
            let c = for_assembly(ci, cc, cn, cb, m, has_cond, has_incr);
            let a = cc.len() as int;
            let cond_len: int = if has_cond { a + 2 } else { 0 };
            let incr_len: int = if has_incr { cn.len() + 3int } else { 0 };
            let cs = ci.len() as int;
            let bs = cs + cond_len + incr_len;
            let back: int = if has_incr { incr_len + cb.len() } else { cond_len + cb.len() + 1 };
            let is = cs + cond_len + 1;
            let e0 = bs + cb.len() + 1 + (if has_cond { 1int } else { 0int });
            &&& c.len() == e0 + m
            &&& c.subrange(bs, bs + cb.len()) == cb
            &&& c[bs + cb.len()] == OpCode::OpLoop(back as usize)
            &&& c.subrange(e0, e0 + m) == pops(m)
            &&& has_cond ==> {
                &&& c.subrange(cs, cs + a) == cc
                &&& c[cs + a] == OpCode::OpJumpIfFalse(Some((cb.len() + 2 + incr_len) as usize))
                &&& c[cs + a + 1] == OpCode::OpPop
                &&& c[bs + cb.len() + 1] == OpCode::OpPop
            }
            &&& has_incr ==> {
                &&& c[cs + cond_len] == OpCode::OpJump(Some((cn.len() + 2) as usize))
                &&& c.subrange(is, is + cn.len()) == cn
                &&& c[is + cn.len()] == OpCode::OpPop
                &&& c[is + cn.len() + 1] == OpCode::OpLoop((cond_len + cn.len() + 3) as usize)
            }
        }),
{
    let c = for_assembly(ci, cc, cn, cb, m, has_cond, has_incr);
    let a = cc.len() as int;
    let cond_len: int = if has_cond { a + 2 } else { 0 };
    let incr_len: int = if has_incr { cn.len() + 3int } else { 0 };
    let cs = ci.len() as int;
    let bs = cs + cond_len + incr_len;
    let is = cs + cond_len + 1;
    let e0 = bs + cb.len() + 1 + (if has_cond { 1int } else { 0int });
    assert(c.subrange(bs, bs + cb.len()) =~= cb);
    assert(c.subrange(e0, e0 + m) =~= pops(m));
    if has_cond {
        assert(c.subrange(cs, cs + a) =~= cc);
    }
    if has_incr {
        assert(c.subrange(is, is + cn.len()) =~= cn);
    }
}

/// The proof that a declaration only adds locals.
proof fn lemma_decl_grows(d: Decl, n: nat, ls: Seq<Local>, depth: usize)
    ensures
        ls.len() <= decl_code(d, n, ls, depth).2.len(),
{
}

} // verus!
