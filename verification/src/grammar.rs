use vstd::prelude::*;

use crate::chunk::Value;
use crate::compiler::{binary_ops, identifier_name, infix_precedence, is_binary_operator, kind_of};
use crate::frontend::{doubly_declared, resolves_to, Local, LOCALS_COUNT};
use crate::opcode::OpCode;
use crate::precedence::Precedence;
use crate::token::{Token, TokenKind, TokenType};

verus! {

/// The syntax of an expression, as the compiler reads it.
pub enum Expr {
    /// What the compiler reads when an expression is asked for at an `EOF`: nothing.
    Missing,
    /// A number literal, by the bit pattern of its value.
    Number(u64),
    /// A string literal.
    Str(String),
    /// `true`, `false` or `nil`, by its token kind.
    Literal(TokenKind),
    /// The value of a variable.
    Variable(String),
    /// An assignment to a variable.
    Assign(String, Box<Expr>),
    /// A parenthesized expression.
    Group(Box<Expr>),
    /// `-` or `!` applied to an operand, by the operator's token kind.
    Unary(TokenKind, Box<Expr>),
    /// A binary operation, by the operator's token kind.
    Binary(Box<Expr>, TokenKind, Box<Expr>),
    /// `and`.
    And(Box<Expr>, Box<Expr>),
    /// `or`.
    Or(Box<Expr>, Box<Expr>),
}

/// The value a number token carries.
pub open spec fn number_value(t: Token) -> u64 {
    match t.token_type {
        TokenType::Number(v) => v,
        _ => 0,
    }
}

/// The text a string token carries.
pub open spec fn string_text(t: Token) -> String {
    match t.token_type {
        TokenType::StringLiteral(s) => s,
        _ => vstd::pervasive::arbitrary(),
    }
}

/// The index of the token in view after the one at `i` is consumed, when no error token
/// follows: the next one, or `i` itself at the end.
pub open spec fn next_index(t: Seq<Token>, i: int) -> int {
    if i + 1 < t.len() {
        i + 1
    } else {
        i
    }
}

/// `e` is what the prefix rule of the token at `i` reads, the token at `j` being in view
/// after it. `can_assign` says whether an assignment may be read.
pub open spec fn prefix_parses(t: Seq<Token>, i: int, j: int, can_assign: bool, e: Expr) -> bool
    decreases e, 0nat,
{
    &&& 0 <= i < t.len()
    &&& match e {
        Expr::Number(v) => kind_of(t, i) == TokenKind::Number && number_value(t[i]) == v && j == i + 1,
        Expr::Str(s) => kind_of(t, i) == TokenKind::StringLiteral && string_text(t[i]) == s && j == i + 1,
        Expr::Literal(k) => {
            &&& k == TokenKind::True || k == TokenKind::False || k == TokenKind::Nil
            &&& kind_of(t, i) == k
            &&& j == i + 1
        },
        Expr::Variable(name) => {
            &&& kind_of(t, i) == TokenKind::Identifier
            &&& identifier_name(t[i]) == name
            &&& !(can_assign && kind_of(t, i + 1) == TokenKind::Equal)
            &&& j == i + 1
        },
        Expr::Assign(name, value) => {
            &&& kind_of(t, i) == TokenKind::Identifier
            &&& identifier_name(t[i]) == name
            &&& can_assign
            &&& kind_of(t, i + 1) == TokenKind::Equal
            &&& expr_parses(t, i + 2, j, Precedence::PrecAssign, *value)
        },
        Expr::Group(inner) => {
            &&& kind_of(t, i) == TokenKind::LeftParen
            &&& expr_parses(t, i + 1, j - 1, Precedence::PrecAssign, *inner)
            &&& kind_of(t, j - 1) == TokenKind::RightParen
        },
        Expr::Unary(op, operand) => {
            &&& op == TokenKind::Minus || op == TokenKind::Bang
            &&& kind_of(t, i) == op
            &&& expr_parses(t, i + 1, j, Precedence::PrecUnary, *operand)
        },
        _ => false,
    }
}

/// `e` is read from index `i` up to the token in view at `j`: the expression its prefix
/// rule reads, followed by infix operators, each binding at least as tightly as `p`, with
/// their right operands. After an operation no `=` follows where assignment may be read.
pub open spec fn infix_parses(t: Seq<Token>, i: int, j: int, p: Precedence, can_assign: bool, e: Expr) -> bool
    decreases e, 1nat,
{
    ||| prefix_parses(t, i, j, can_assign, e)
    ||| match e {
        Expr::Binary(left, op, right) => exists|m: int|
            #![trigger kind_of(t, m)]
            {
                &&& infix_parses(t, i, m, p, can_assign, *left)
                &&& kind_of(t, m) == op
                &&& is_binary_operator(op)
                &&& infix_precedence(op).spec_level() >= p.spec_level()
                &&& expr_parses(t, m + 1, j, infix_precedence(op).spec_next(), *right)
                &&& !(can_assign && kind_of(t, j) == TokenKind::Equal)
            },
        Expr::And(left, right) => exists|m: int|
            #![trigger kind_of(t, m)]
            {
                &&& infix_parses(t, i, m, p, can_assign, *left)
                &&& kind_of(t, m) == TokenKind::And
                &&& Precedence::PrecAnd.spec_level() >= p.spec_level()
                &&& expr_parses(t, m + 1, j, Precedence::PrecAnd, *right)
                &&& !(can_assign && kind_of(t, j) == TokenKind::Equal)
            },
        Expr::Or(left, right) => exists|m: int|
            #![trigger kind_of(t, m)]
            {
                &&& infix_parses(t, i, m, p, can_assign, *left)
                &&& kind_of(t, m) == TokenKind::Or
                &&& Precedence::PrecOr.spec_level() >= p.spec_level()
                &&& expr_parses(t, m + 1, j, Precedence::PrecOr, *right)
                &&& !(can_assign && kind_of(t, j) == TokenKind::Equal)
            },
        _ => false,
    }
}

/// `e` is the expression read at precedence `p` from index `i`, the token at `j` being in
/// view after it: nothing at an `EOF`; otherwise the prefix expression and the infix
/// operations, up to a token that binds looser than `p`.
pub open spec fn expr_parses(t: Seq<Token>, i: int, j: int, p: Precedence, e: Expr) -> bool
    decreases e, 2nat,
{
    if e is Missing {
        &&& 0 <= i < t.len()
        &&& kind_of(t, i) == TokenKind::EOF
        &&& j == next_index(t, i)
    } else {
        &&& infix_parses(t, i, j, p, p.spec_level() <= 1, e)
        &&& 0 <= j < t.len()
        &&& infix_precedence(kind_of(t, j)).spec_level() < p.spec_level()
    }
}

/// The slot of the innermost local named `name`, if there is one.
pub open spec fn resolve_slot(ls: Seq<Local>, name: Seq<char>) -> Option<usize>
    decreases ls.len(),
{
    if ls.len() == 0 {
        None
    } else if ls.last().name@ == name {
        Some((ls.len() - 1) as usize)
    } else {
        resolve_slot(ls.drop_last(), name)
    }
}

/// No token is an error token.
pub open spec fn no_error_tokens(t: Seq<Token>) -> bool {
    forall|k: int| 0 <= k < t.len() ==> #[trigger] kind_of(t, k) != TokenKind::Error
}

/// The variable named `name` may be read with the locals `ls`: it is a global, or its
/// innermost local is initialized.
pub open spec fn readable(ls: Seq<Local>, name: Seq<char>) -> bool {
    match resolve_slot(ls, name) {
        Some(i) => ls[i as int].initialized,
        None => true,
    }
}

/// Every variable `e` reads or assigns may be read with the locals `ls`.
pub open spec fn expr_clean(e: Expr, ls: Seq<Local>) -> bool
    decreases e,
{
    match e {
        Expr::Variable(name) => readable(ls, name@),
        Expr::Assign(name, value) => readable(ls, name@) && expr_clean(*value, ls),
        Expr::Group(inner) => expr_clean(*inner, ls),
        Expr::Unary(_, operand) => expr_clean(*operand, ls),
        Expr::Binary(left, _, right) => expr_clean(*left, ls) && expr_clean(*right, ls),
        Expr::And(left, right) => expr_clean(*left, ls) && expr_clean(*right, ls),
        Expr::Or(left, right) => expr_clean(*left, ls) && expr_clean(*right, ls),
        _ => true,
    }
}

/// `part` is `e` or, down the left operands of `e`'s operations, one of them.
pub open spec fn left_spine(e: Expr, part: Expr) -> bool
    decreases e,
{
    e == part || match e {
        Expr::Binary(left, _, _) => left_spine(*left, part),
        Expr::And(left, _) => left_spine(*left, part),
        Expr::Or(left, _) => left_spine(*left, part),
        _ => false,
    }
}

/// The proof that a prefix expression read from a given index ends at one place.
pub proof fn lemma_prefix_end(t: Seq<Token>, i: int, j1: int, j2: int, can_assign: bool, e: Expr)
    requires
        prefix_parses(t, i, j1, can_assign, e),
        prefix_parses(t, i, j2, can_assign, e),
    ensures
        j1 == j2,
    decreases e, 0nat,
{
    match e {
        Expr::Assign(_, value) => lemma_expr_end(t, i + 2, j1, j2, Precedence::PrecAssign, *value),
        Expr::Group(inner) => lemma_expr_end(t, i + 1, j1 - 1, j2 - 1, Precedence::PrecAssign, *inner),
        Expr::Unary(_, operand) => lemma_expr_end(t, i + 1, j1, j2, Precedence::PrecUnary, *operand),
        _ => {},
    }
}

/// `e`, an operation, is read from `i` up to `j` with its operator at `m`: the left operand
/// before it, the right one after it at the operator's own precedence.
pub open spec fn operation_at(t: Seq<Token>, i: int, m: int, j: int, p: Precedence, can_assign: bool, e: Expr) -> bool {
    match e {
        Expr::Binary(left, op, right) => {
            &&& infix_parses(t, i, m, p, can_assign, *left)
            &&& kind_of(t, m) == op
            &&& is_binary_operator(op)
            &&& infix_precedence(op).spec_level() >= p.spec_level()
            &&& expr_parses(t, m + 1, j, infix_precedence(op).spec_next(), *right)
            &&& !(can_assign && kind_of(t, j) == TokenKind::Equal)
        },
        Expr::And(left, right) => {
            &&& infix_parses(t, i, m, p, can_assign, *left)
            &&& kind_of(t, m) == TokenKind::And
            &&& Precedence::PrecAnd.spec_level() >= p.spec_level()
            &&& expr_parses(t, m + 1, j, Precedence::PrecAnd, *right)
            &&& !(can_assign && kind_of(t, j) == TokenKind::Equal)
        },
        Expr::Or(left, right) => {
            &&& infix_parses(t, i, m, p, can_assign, *left)
            &&& kind_of(t, m) == TokenKind::Or
            &&& Precedence::PrecOr.spec_level() >= p.spec_level()
            &&& expr_parses(t, m + 1, j, Precedence::PrecOr, *right)
            &&& !(can_assign && kind_of(t, j) == TokenKind::Equal)
        },
        _ => false,
    }
}

/// The proof that an operation read with its infix operations, and not as a prefix
/// expression, has its operator somewhere.
pub proof fn lemma_operation_split(t: Seq<Token>, i: int, j: int, p: Precedence, can_assign: bool, e: Expr) -> (m: int)
    requires
        infix_parses(t, i, j, p, can_assign, e),
        !prefix_parses(t, i, j, can_assign, e),
    ensures
        operation_at(t, i, m, j, p, can_assign, e),
{
    match e {
        Expr::Binary(left, op, right) => choose|m: int|
            #![trigger kind_of(t, m)]
            {
                &&& infix_parses(t, i, m, p, can_assign, *left)
                &&& kind_of(t, m) == op
                &&& is_binary_operator(op)
                &&& infix_precedence(op).spec_level() >= p.spec_level()
                &&& expr_parses(t, m + 1, j, infix_precedence(op).spec_next(), *right)
                &&& !(can_assign && kind_of(t, j) == TokenKind::Equal)
            },
        Expr::And(left, right) => choose|m: int|
            #![trigger kind_of(t, m)]
            {
                &&& infix_parses(t, i, m, p, can_assign, *left)
                &&& kind_of(t, m) == TokenKind::And
                &&& Precedence::PrecAnd.spec_level() >= p.spec_level()
                &&& expr_parses(t, m + 1, j, Precedence::PrecAnd, *right)
                &&& !(can_assign && kind_of(t, j) == TokenKind::Equal)
            },
        Expr::Or(left, right) => choose|m: int|
            #![trigger kind_of(t, m)]
            {
                &&& infix_parses(t, i, m, p, can_assign, *left)
                &&& kind_of(t, m) == TokenKind::Or
                &&& Precedence::PrecOr.spec_level() >= p.spec_level()
                &&& expr_parses(t, m + 1, j, Precedence::PrecOr, *right)
                &&& !(can_assign && kind_of(t, j) == TokenKind::Equal)
            },
        _ => 0,
    }
}

/// The proof that an expression read with its infix operations from a given index ends at
/// one place.
pub proof fn lemma_infix_end(t: Seq<Token>, i: int, j1: int, j2: int, p: Precedence, can_assign: bool, e: Expr)
    requires
        infix_parses(t, i, j1, p, can_assign, e),
        infix_parses(t, i, j2, p, can_assign, e),
    ensures
        j1 == j2,
    decreases e, 1nat,
{
    match e {
        Expr::Binary(left, op, right) => {
            assert(!prefix_parses(t, i, j1, can_assign, e));
            assert(!prefix_parses(t, i, j2, can_assign, e));
            let m1 = lemma_operation_split(t, i, j1, p, can_assign, e);
            let m2 = lemma_operation_split(t, i, j2, p, can_assign, e);
            lemma_infix_end(t, i, m1, m2, p, can_assign, *left);
            lemma_expr_end(t, m1 + 1, j1, j2, infix_precedence(op).spec_next(), *right);
        },
        Expr::And(left, right) => {
            assert(!prefix_parses(t, i, j1, can_assign, e));
            assert(!prefix_parses(t, i, j2, can_assign, e));
            let m1 = lemma_operation_split(t, i, j1, p, can_assign, e);
            let m2 = lemma_operation_split(t, i, j2, p, can_assign, e);
            lemma_infix_end(t, i, m1, m2, p, can_assign, *left);
            lemma_expr_end(t, m1 + 1, j1, j2, Precedence::PrecAnd, *right);
        },
        Expr::Or(left, right) => {
            assert(!prefix_parses(t, i, j1, can_assign, e));
            assert(!prefix_parses(t, i, j2, can_assign, e));
            let m1 = lemma_operation_split(t, i, j1, p, can_assign, e);
            let m2 = lemma_operation_split(t, i, j2, p, can_assign, e);
            lemma_infix_end(t, i, m1, m2, p, can_assign, *left);
            lemma_expr_end(t, m1 + 1, j1, j2, Precedence::PrecOr, *right);
        },
        _ => lemma_prefix_end(t, i, j1, j2, can_assign, e),
    }
}

/// The proof that an expression read at a precedence from a given index ends at one place.
pub proof fn lemma_expr_end(t: Seq<Token>, i: int, j1: int, j2: int, p: Precedence, e: Expr)
    requires
        expr_parses(t, i, j1, p, e),
        expr_parses(t, i, j2, p, e),
    ensures
        j1 == j2,
    decreases e, 2nat,
{
    if !(e is Missing) {
        lemma_infix_end(t, i, j1, j2, p, p.spec_level() <= 1, e);
    }
}

/// The proof that an expression read with its infix operations starts with the expression
/// the prefix rule of its first token reads.
pub proof fn lemma_first_operand(t: Seq<Token>, i: int, j: int, p: Precedence, can_assign: bool, e: Expr, ls: Seq<Local>) -> (r: (Expr, int))
    requires
        infix_parses(t, i, j, p, can_assign, e),
    ensures
        prefix_parses(t, i, r.1, can_assign, r.0),
        left_spine(e, r.0),
        expr_clean(e, ls) ==> expr_clean(r.0, ls),
    decreases e,
{
    if prefix_parses(t, i, j, can_assign, e) {
        (e, j)
    } else {
        match e {
            Expr::Binary(left, op, right) => {
                let m = lemma_operation_split(t, i, j, p, can_assign, e);
                lemma_first_operand(t, i, m, p, can_assign, *left, ls)
            },
            Expr::And(left, right) => {
                let m = lemma_operation_split(t, i, j, p, can_assign, e);
                lemma_first_operand(t, i, m, p, can_assign, *left, ls)
            },
            Expr::Or(left, right) => {
                let m = lemma_operation_split(t, i, j, p, can_assign, e);
                lemma_first_operand(t, i, m, p, can_assign, *left, ls)
            },
            _ => (e, j),
        }
    }
}

/// The proof that, when `part` is read from `i` up to `m` on the left of `e`, the next
/// operation of `e` on it is the operator at `m` with a right operand read after it.
pub proof fn lemma_next_operation(
    t: Seq<Token>,
    i: int,
    j: int,
    m: int,
    p: Precedence,
    can_assign: bool,
    e: Expr,
    part: Expr,
    ls: Seq<Local>,
) -> (r: (TokenKind, Expr, int))
    requires
        infix_parses(t, i, j, p, can_assign, e),
        left_spine(e, part),
        e != part,
        infix_parses(t, i, m, p, can_assign, part),
    ensures
        kind_of(t, m) == r.0,
        is_binary_operator(r.0) || r.0 == TokenKind::And || r.0 == TokenKind::Or,
        infix_precedence(r.0).spec_level() >= p.spec_level(),
        expr_parses(t, m + 1, r.2, right_precedence(r.0), r.1),
        !(can_assign && kind_of(t, r.2) == TokenKind::Equal),
        left_spine(e, infix_expr(part, r.0, r.1)),
        infix_parses(t, i, r.2, p, can_assign, infix_expr(part, r.0, r.1)),
        expr_clean(e, ls) ==> expr_clean(r.1, ls),
    decreases e,
{
    match e {
        Expr::Binary(left, op, right) => {
            assert(!prefix_parses(t, i, j, can_assign, e));
            let m1 = lemma_operation_split(t, i, j, p, can_assign, e);
            if *left == part {
                lemma_infix_end(t, i, m1, m, p, can_assign, part);
                assert(infix_expr(part, op, *right) == e);
                (op, *right, j)
            } else {
                lemma_next_operation(t, i, m1, m, p, can_assign, *left, part, ls)
            }
        },
        Expr::And(left, right) => {
            assert(!prefix_parses(t, i, j, can_assign, e));
            let m1 = lemma_operation_split(t, i, j, p, can_assign, e);
            if *left == part {
                lemma_infix_end(t, i, m1, m, p, can_assign, part);
                assert(infix_expr(part, TokenKind::And, *right) == e);
                (TokenKind::And, *right, j)
            } else {
                lemma_next_operation(t, i, m1, m, p, can_assign, *left, part, ls)
            }
        },
        Expr::Or(left, right) => {
            assert(!prefix_parses(t, i, j, can_assign, e));
            let m1 = lemma_operation_split(t, i, j, p, can_assign, e);
            if *left == part {
                lemma_infix_end(t, i, m1, m, p, can_assign, part);
                assert(infix_expr(part, TokenKind::Or, *right) == e);
                (TokenKind::Or, *right, j)
            } else {
                lemma_next_operation(t, i, m1, m, p, can_assign, *left, part, ls)
            }
        },
        _ => {
            assert(false);
            (TokenKind::EOF, e, j)
        },
    }
}

/// The number of operations down the left operands of `e`.
pub open spec fn spine_len(e: Expr) -> nat
    decreases e,
{
    match e {
        Expr::Binary(left, _, _) => 1 + spine_len(*left),
        Expr::And(left, _) => 1 + spine_len(*left),
        Expr::Or(left, _) => 1 + spine_len(*left),
        _ => 0,
    }
}

/// The proof that a part down the left operands of `e` has no more operations than `e`.
proof fn lemma_spine_len(e: Expr, part: Expr)
    requires
        left_spine(e, part),
    ensures
        spine_len(part) <= spine_len(e),
    decreases e,
{
    if e != part {
        match e {
            Expr::Binary(left, _, _) => lemma_spine_len(*left, part),
            Expr::And(left, _) => lemma_spine_len(*left, part),
            Expr::Or(left, _) => lemma_spine_len(*left, part),
            _ => {},
        }
    }
}

/// The proof that a prefix expression is read from a token of the stream and ends after it.
proof fn lemma_prefix_after(t: Seq<Token>, i: int, j: int, can_assign: bool, e: Expr)
    requires
        prefix_parses(t, i, j, can_assign, e),
    ensures
        0 <= i < t.len(),
        i < j,
    decreases e, 0nat,
{
    match e {
        Expr::Assign(_, v) => lemma_expr_after(t, i + 2, j, Precedence::PrecAssign, *v),
        Expr::Group(a) => lemma_expr_after(t, i + 1, j - 1, Precedence::PrecAssign, *a),
        Expr::Unary(_, a) => lemma_expr_after(t, i + 1, j, Precedence::PrecUnary, *a),
        _ => {},
    }
}

/// The proof that an expression read with its infix operations is read from a token of
/// the stream and ends after it.
proof fn lemma_infix_after(t: Seq<Token>, i: int, j: int, p: Precedence, can_assign: bool, e: Expr)
    requires
        infix_parses(t, i, j, p, can_assign, e),
    ensures
        0 <= i < t.len(),
        i < j,
    decreases e, 1nat,
{
    if prefix_parses(t, i, j, can_assign, e) {
        lemma_prefix_after(t, i, j, can_assign, e);
    } else {
        let m = lemma_operation_split(t, i, j, p, can_assign, e);
        match e {
            Expr::Binary(left, op, right) => {
                lemma_infix_after(t, i, m, p, can_assign, *left);
                lemma_expr_after(t, m + 1, j, infix_precedence(op).spec_next(), *right);
            },
            Expr::And(left, right) => {
                lemma_infix_after(t, i, m, p, can_assign, *left);
                lemma_expr_after(t, m + 1, j, Precedence::PrecAnd, *right);
            },
            Expr::Or(left, right) => {
                lemma_infix_after(t, i, m, p, can_assign, *left);
                lemma_expr_after(t, m + 1, j, Precedence::PrecOr, *right);
            },
            _ => {},
        }
    }
}

/// The proof that an expression is read from a token of the stream and does not end
/// before it.
proof fn lemma_expr_after(t: Seq<Token>, i: int, j: int, p: Precedence, e: Expr)
    requires
        expr_parses(t, i, j, p, e),
    ensures
        0 <= i < t.len(),
        i <= j,
    decreases e, 2nat,
{
    if !(e is Missing) {
        lemma_infix_after(t, i, j, p, p.spec_level() <= 1, e);
    }
}

/// The proof that the prefix rule of a token reads one expression only.
pub proof fn lemma_prefix_unique(t: Seq<Token>, i: int, j1: int, j2: int, can_assign: bool, e1: Expr, e2: Expr)
    requires
        prefix_parses(t, i, j1, can_assign, e1),
        prefix_parses(t, i, j2, can_assign, e2),
    ensures
        e1 == e2,
        j1 == j2,
    decreases t.len() - i, 0nat, 0nat,
{
    match (e1, e2) {
        (Expr::Assign(_, a), Expr::Assign(_, b)) => {
            lemma_expr_after(t, i + 2, j1, Precedence::PrecAssign, *a);
            lemma_expr_unique(t, i + 2, j1, j2, Precedence::PrecAssign, *a, *b);
        },
        (Expr::Group(a), Expr::Group(b)) => lemma_expr_unique(t, i + 1, j1 - 1, j2 - 1, Precedence::PrecAssign, *a, *b),
        (Expr::Unary(_, a), Expr::Unary(_, b)) => lemma_expr_unique(t, i + 1, j1, j2, Precedence::PrecUnary, *a, *b),
        _ => {},
    }
}

/// The proof that two readings of an expression at precedence `p` from `i`, which agree on
/// a part down their left operands, agree on the rest.
proof fn lemma_chain_unique(
    t: Seq<Token>,
    i: int,
    p: Precedence,
    can_assign: bool,
    e1: Expr,
    j1: int,
    e2: Expr,
    j2: int,
    part: Expr,
    m: int,
)
    requires
        0 <= i < t.len(),
        infix_parses(t, i, j1, p, can_assign, e1),
        infix_parses(t, i, j2, p, can_assign, e2),
        infix_precedence(kind_of(t, j1)).spec_level() < p.spec_level(),
        infix_precedence(kind_of(t, j2)).spec_level() < p.spec_level(),
        left_spine(e1, part),
        left_spine(e2, part),
        infix_parses(t, i, m, p, can_assign, part),
    ensures
        e1 == e2,
        j1 == j2,
    decreases t.len() - i, 1nat, spine_len(e1) - spine_len(part),
{
    lemma_spine_len(e1, part);
    if part == e1 {
        lemma_infix_end(t, i, m, j1, p, can_assign, e1);
        if part != e2 {
            lemma_next_operation(t, i, j2, m, p, can_assign, e2, part, Seq::empty());
        }
        lemma_infix_end(t, i, m, j2, p, can_assign, e2);
    } else if part == e2 {
        lemma_infix_end(t, i, m, j2, p, can_assign, e2);
        lemma_next_operation(t, i, j1, m, p, can_assign, e1, part, Seq::empty());
    } else {
        let r1 = lemma_next_operation(t, i, j1, m, p, can_assign, e1, part, Seq::empty());
        let r2 = lemma_next_operation(t, i, j2, m, p, can_assign, e2, part, Seq::empty());
        lemma_infix_after(t, i, m, p, can_assign, part);
        lemma_expr_after(t, m + 1, r1.2, right_precedence(r1.0), r1.1);
        lemma_expr_unique(t, m + 1, r1.2, r2.2, right_precedence(r1.0), r1.1, r2.1);
        let next = infix_expr(part, r1.0, r1.1);
        assert(spine_len(next) == spine_len(part) + 1);
        lemma_spine_len(e1, next);
        lemma_chain_unique(t, i, p, can_assign, e1, j1, e2, j2, next, r1.2);
    }
}

/// The proof that the tokens from `i` read as one expression only at a given precedence:
/// the grammar of expressions is unambiguous.
pub proof fn lemma_expr_unique(t: Seq<Token>, i: int, j1: int, j2: int, p: Precedence, e1: Expr, e2: Expr)
    requires
        expr_parses(t, i, j1, p, e1),
        expr_parses(t, i, j2, p, e2),
    ensures
        e1 == e2,
        j1 == j2,
    decreases t.len() - i, 2nat, 0nat,
{
    let can_assign = p.spec_level() <= 1;
    if !(e1 is Missing) {
        let f1 = lemma_first_operand(t, i, j1, p, can_assign, e1, Seq::empty());
        assert(kind_of(t, i) != TokenKind::EOF);
    }
    if !(e2 is Missing) {
        let f2 = lemma_first_operand(t, i, j2, p, can_assign, e2, Seq::empty());
        assert(kind_of(t, i) != TokenKind::EOF);
    }
    if !(e1 is Missing) && !(e2 is Missing) {
        let f1 = lemma_first_operand(t, i, j1, p, can_assign, e1, Seq::empty());
        let f2 = lemma_first_operand(t, i, j2, p, can_assign, e2, Seq::empty());
        lemma_prefix_unique(t, i, f1.1, f2.1, can_assign, f1.0, f2.0);
        assert(infix_parses(t, i, f1.1, p, can_assign, f1.0));
        lemma_chain_unique(t, i, p, can_assign, e1, j1, e2, j2, f1.0, f1.1);
    }
}

/// The instructions and the new constants that `e` compiles to, its constants being
/// numbered from `n` and its variables resolved among the locals `ls`.
pub open spec fn expr_code(e: Expr, n: nat, ls: Seq<Local>) -> (Seq<OpCode>, Seq<Value>)
    decreases e,
{
    match e {
        Expr::Missing => (Seq::empty(), Seq::empty()),
        Expr::Number(v) => (seq![OpCode::OpConstant(n as usize)], seq![Value::Number(v)]),
        Expr::Str(s) => (seq![OpCode::OpConstant(n as usize)], seq![Value::Str(s)]),
        Expr::Literal(k) => (
            seq![
                if k == TokenKind::True {
                    OpCode::OpTrue
                } else if k == TokenKind::False {
                    OpCode::OpFalse
                } else {
                    OpCode::OpNil
                },
            ],
            Seq::empty(),
        ),
        Expr::Variable(name) => match resolve_slot(ls, name@) {
            Some(slot) => (seq![OpCode::OpGetLocal(slot)], Seq::empty()),
            None => (seq![OpCode::OpGetGlobal(n as usize)], seq![Value::Str(name)]),
        },
        Expr::Assign(name, value) => {
            let (c, k) = expr_code(*value, n, ls);
            match resolve_slot(ls, name@) {
                Some(slot) => (c.push(OpCode::OpSetLocal(slot)), k),
                None => (c.push(OpCode::OpSetGlobal((n + k.len()) as usize)), k.push(Value::Str(name))),
            }
        },
        Expr::Group(inner) => expr_code(*inner, n, ls),
        Expr::Unary(op, operand) => {
            let (c, k) = expr_code(*operand, n, ls);
            (c.push(if op == TokenKind::Minus { OpCode::OpNegate } else { OpCode::OpNot }), k)
        },
        Expr::Binary(left, op, right) => {
            let (cl, kl) = expr_code(*left, n, ls);
            let (cr, kr) = expr_code(*right, n + kl.len(), ls);
            (cl + cr + binary_ops(op), kl + kr)
        },
        Expr::And(left, right) => {
            let (cl, kl) = expr_code(*left, n, ls);
            let (cr, kr) = expr_code(*right, n + kl.len(), ls);
            (cl + seq![OpCode::OpJumpIfFalse(Some((cr.len() + 1) as usize)), OpCode::OpPop] + cr, kl + kr)
        },
        Expr::Or(left, right) => {
            let (cl, kl) = expr_code(*left, n, ls);
            let (cr, kr) = expr_code(*right, n + kl.len(), ls);
            (
                cl + seq![
                    OpCode::OpJumpIfFalse(Some(1)),
                    OpCode::OpJump(Some((cr.len() + 1) as usize)),
                    OpCode::OpPop,
                ] + cr,
                kl + kr,
            )
        },
    }
}

/// The precedence at which the right operand of the infix operator `op` is read: one
/// level tighter than the operator for the binary ones, and the operator's own for `and`
/// and `or`.
pub open spec fn right_precedence(op: TokenKind) -> Precedence {
    if op == TokenKind::And {
        Precedence::PrecAnd
    } else if op == TokenKind::Or {
        Precedence::PrecOr
    } else {
        infix_precedence(op).spec_next()
    }
}

/// The operation of the infix operator `op` on `left` and `right`.
pub open spec fn infix_expr(left: Expr, op: TokenKind, right: Expr) -> Expr {
    if op == TokenKind::And {
        Expr::And(Box::new(left), Box::new(right))
    } else if op == TokenKind::Or {
        Expr::Or(Box::new(left), Box::new(right))
    } else {
        Expr::Binary(Box::new(left), op, Box::new(right))
    }
}

/// What the infix operator `op` compiles to after its left operand: its right operand
/// `right` and the operation, its constants numbered from `n`.
pub open spec fn infix_tail(op: TokenKind, right: Expr, n: nat, ls: Seq<Local>) -> (Seq<OpCode>, Seq<Value>) {
    let (cr, kr) = expr_code(right, n, ls);
    if op == TokenKind::And {
        (seq![OpCode::OpJumpIfFalse(Some((cr.len() + 1) as usize)), OpCode::OpPop] + cr, kr)
    } else if op == TokenKind::Or {
        (seq![OpCode::OpJumpIfFalse(Some(1)), OpCode::OpJump(Some((cr.len() + 1) as usize)), OpCode::OpPop] + cr, kr)
    } else {
        (cr + binary_ops(op), kr)
    }
}

/// The proof that an infix operation compiles to its left operand followed by its tail.
pub proof fn lemma_infix_code(left: Expr, op: TokenKind, right: Expr, n: nat, ls: Seq<Local>)
    ensures
        ({
            let (cl, kl) = expr_code(left, n, ls);
            let (ct, kt) = infix_tail(op, right, n + kl.len(), ls);
            expr_code(infix_expr(left, op, right), n, ls) == (cl + ct, kl + kt)
        }),
{
    let (cl, kl) = expr_code(left, n, ls);
    let (cr, kr) = expr_code(right, n + kl.len(), ls);
    let e = infix_expr(left, op, right);
    if op == TokenKind::And {
        assert(cl + seq![OpCode::OpJumpIfFalse(Some((cr.len() + 1) as usize)), OpCode::OpPop] + cr =~= cl + (seq![
            OpCode::OpJumpIfFalse(Some((cr.len() + 1) as usize)),
            OpCode::OpPop,
        ] + cr));
    } else if op == TokenKind::Or {
        assert(cl + seq![
            OpCode::OpJumpIfFalse(Some(1)),
            OpCode::OpJump(Some((cr.len() + 1) as usize)),
            OpCode::OpPop,
        ] + cr =~= cl + (seq![
            OpCode::OpJumpIfFalse(Some(1)),
            OpCode::OpJump(Some((cr.len() + 1) as usize)),
            OpCode::OpPop,
        ] + cr));
    } else {
        assert(cl + cr + binary_ops(op) =~= cl + (cr + binary_ops(op)));
    }
}

/// The syntax of a statement.
pub enum Stmt {
    Print(Expr),
    Expression(Expr),
    /// The condition, the then-branch and the else-branch if there is one.
    If(Expr, Box<Stmt>, Option<Box<Stmt>>),
    /// The condition and the body.
    While(Expr, Box<Stmt>),
    /// The initializer, the condition, the increment (each if there is one) and the body.
    For(Option<Box<Decl>>, Option<Expr>, Option<Expr>, Box<Stmt>),
    Block(Seq<Decl>),
}

/// The syntax of a declaration.
pub enum Decl {
    /// A variable declaration: the name and the initial value if there is one.
    Var(String, Option<Expr>),
    Statement(Stmt),
}

/// The keywords with which `statement` recognizes a statement other than an expression
/// statement.
pub open spec fn starts_keyword_statement(k: TokenKind) -> bool {
    k == TokenKind::Print || k == TokenKind::For || k == TokenKind::If || k == TokenKind::While || k
        == TokenKind::LeftBrace
}

/// `e` followed by `;` is read from index `i`, the token at `j` being in view after it.
pub open spec fn expr_statement_parses(t: Seq<Token>, i: int, j: int, e: Expr) -> bool {
    exists|m: int|
        #![trigger kind_of(t, m)]
        expr_parses(t, i, m, Precedence::PrecAssign, e) && kind_of(t, m) == TokenKind::Semicolon && j == m + 1
}

/// `s` is the statement read from index `i`, the token at `j` being in view after it.
pub open spec fn stmt_parses(t: Seq<Token>, i: int, j: int, s: Stmt) -> bool
    decreases s,
{
    match s {
        Stmt::Print(e) => kind_of(t, i) == TokenKind::Print && expr_statement_parses(t, i + 1, j, e),
        Stmt::Expression(e) => !starts_keyword_statement(kind_of(t, i)) && expr_statement_parses(t, i, j, e),
        Stmt::If(cond, then_branch, else_branch) => {
            &&& kind_of(t, i) == TokenKind::If
            &&& kind_of(t, i + 1) == TokenKind::LeftParen
            &&& exists|m: int, k: int|
                #![trigger kind_of(t, m), kind_of(t, k)]
                {
                    &&& expr_parses(t, i + 2, m, Precedence::PrecAssign, cond)
                    &&& kind_of(t, m) == TokenKind::RightParen
                    &&& stmt_parses(t, m + 1, k, *then_branch)
                    &&& match else_branch {
                        Some(other) => kind_of(t, k) == TokenKind::Else && stmt_parses(t, k + 1, j, *other),
                        None => kind_of(t, k) != TokenKind::Else && j == k,
                    }
                }
        },
        Stmt::While(cond, body) => {
            &&& kind_of(t, i) == TokenKind::While
            &&& kind_of(t, i + 1) == TokenKind::LeftParen
            &&& exists|m: int|
                #![trigger kind_of(t, m)]
                {
                    &&& expr_parses(t, i + 2, m, Precedence::PrecAssign, cond)
                    &&& kind_of(t, m) == TokenKind::RightParen
                    &&& stmt_parses(t, m + 1, j, *body)
                }
        },
        Stmt::For(init, cond, incr, body) => {
            &&& kind_of(t, i) == TokenKind::For
            &&& kind_of(t, i + 1) == TokenKind::LeftParen
            &&& exists|k1: int, k2: int, k3: int|
                #![trigger kind_of(t, k1), kind_of(t, k2), kind_of(t, k3)]
                {
                    &&& for_init_parses(t, i + 2, k1, init)
                    &&& for_cond_parses(t, k1, k2, cond)
                    &&& for_incr_parses(t, k2, k3, incr)
                    &&& stmt_parses(t, k3, j, *body)
                }
        },
        Stmt::Block(decls) => {
            &&& kind_of(t, i) == TokenKind::LeftBrace
            &&& exists|m: int|
                #![trigger kind_of(t, m)]
                decls_parse(t, i + 1, m, decls, true) && kind_of(t, m) == TokenKind::RightBrace && j == m + 1
        },
    }
}

/// The initializer clause of a `for`, read from index `i` right after the `(`, the token
/// at `j` being in view after it: nothing but a `;`, a variable declaration, or an
/// expression statement.
pub open spec fn for_init_parses(t: Seq<Token>, i: int, j: int, init: Option<Box<Decl>>) -> bool
    decreases init,
{
    match init {
        None => kind_of(t, i) == TokenKind::Semicolon && j == i + 1,
        Some(d) => match *d {
            Decl::Var(_, _) => decl_parses(t, i, j, *d),
            Decl::Statement(Stmt::Expression(e)) => {
                &&& kind_of(t, i) != TokenKind::Semicolon
                &&& kind_of(t, i) != TokenKind::Var
                &&& expr_statement_parses(t, i, j, e)
            },
            _ => false,
        },
    }
}

/// The condition clause of a `for`, read from index `i`, the token at `j` being in view
/// after its `;`.
pub open spec fn for_cond_parses(t: Seq<Token>, i: int, j: int, cond: Option<Expr>) -> bool {
    match cond {
        None => kind_of(t, i) == TokenKind::Semicolon && j == i + 1,
        Some(c) => kind_of(t, i) != TokenKind::Semicolon && expr_statement_parses(t, i, j, c),
    }
}

/// The increment clause of a `for`, read from index `i`, the token at `j` being in view
/// after its `)`.
pub open spec fn for_incr_parses(t: Seq<Token>, i: int, j: int, incr: Option<Expr>) -> bool {
    match incr {
        None => kind_of(t, i) == TokenKind::RightParen && j == i + 1,
        Some(c) => {
            &&& kind_of(t, i) != TokenKind::RightParen
            &&& exists|m: int|
                #![trigger kind_of(t, m)]
                expr_parses(t, i, m, Precedence::PrecAssign, c) && kind_of(t, m) == TokenKind::RightParen && j == m
                    + 1
        },
    }
}

/// The proof that a `for` statement is read from its clauses and its body.
pub proof fn lemma_for_parses(
    t: Seq<Token>,
    i: int,
    k1: int,
    k2: int,
    k3: int,
    j: int,
    init: Option<Box<Decl>>,
    cond: Option<Expr>,
    incr: Option<Expr>,
    body: Stmt,
)
    requires
        kind_of(t, i) == TokenKind::For,
        kind_of(t, i + 1) == TokenKind::LeftParen,
        for_init_parses(t, i + 2, k1, init),
        for_cond_parses(t, k1, k2, cond),
        for_incr_parses(t, k2, k3, incr),
        stmt_parses(t, k3, j, body),
    ensures
        stmt_parses(t, i, j, Stmt::For(init, cond, incr, Box::new(body))),
{
    let s = Stmt::For(init, cond, incr, Box::new(body));
    assert(kind_of(t, k1) == kind_of(t, k1) && kind_of(t, k2) == kind_of(t, k2) && kind_of(t, k3) == kind_of(t, k3));
    assert(stmt_parses(t, i, j, s));
}

/// `d` is the declaration read from index `i`, the token at `j` being in view after it.
pub open spec fn decl_parses(t: Seq<Token>, i: int, j: int, d: Decl) -> bool
    decreases d,
{
    match d {
        Decl::Var(name, init) => {
            &&& kind_of(t, i) == TokenKind::Var
            &&& kind_of(t, i + 1) == TokenKind::Identifier
            &&& identifier_name(t[i + 1]) == name
            &&& exists|m: int|
                #![trigger kind_of(t, m)]
                {
                    &&& match init {
                        Some(e) => kind_of(t, i + 2) == TokenKind::Equal && expr_parses(
                            t,
                            i + 3,
                            m,
                            Precedence::PrecAssign,
                            e,
                        ),
                        None => kind_of(t, i + 2) != TokenKind::Equal && m == i + 2,
                    }
                    &&& kind_of(t, m) == TokenKind::Semicolon
                    &&& j == m + 1
                }
        },
        Decl::Statement(s) => kind_of(t, i) != TokenKind::Var && stmt_parses(t, i, j, s),
    }
}

/// The declarations `ds` are read one after the other from index `i`, the token at `j`
/// being in view after them; none starts at an `EOF`, nor, in a block, at a `}`.
pub open spec fn decls_parse(t: Seq<Token>, i: int, j: int, ds: Seq<Decl>, in_block: bool) -> bool
    decreases ds,
{
    if ds.len() == 0 {
        j == i
    } else {
        exists|m: int|
            #![trigger kind_of(t, m)]
            {
                &&& decls_parse(t, i, m, ds.drop_last(), in_block)
                &&& kind_of(t, m) != TokenKind::EOF
                &&& !(in_block && kind_of(t, m) == TokenKind::RightBrace)
                &&& decl_parses(t, m, j, ds.last())
            }
    }
}

/// `ds` is the program read from index `i`: declarations up to an `EOF`.
pub open spec fn program_parses(t: Seq<Token>, i: int, ds: Seq<Decl>) -> bool {
    exists|m: int| #![trigger kind_of(t, m)] decls_parse(t, i, m, ds, false) && kind_of(t, m) == TokenKind::EOF
}

/// `n` pop instructions.
pub open spec fn pops(n: nat) -> Seq<OpCode> {
    Seq::new(n, |i: int| OpCode::OpPop)
}

/// The instructions, the new constants and the locals after the declaration `d`, compiled
/// in a scope at depth `depth` with the locals `ls`, its constants numbered from `n`.
pub open spec fn decl_code(d: Decl, n: nat, ls: Seq<Local>, depth: usize) -> (Seq<OpCode>, Seq<Value>, Seq<Local>)
    decreases d,
{
    match d {
        Decl::Var(name, init) => if depth == 0 {
            let (ci, ki) = match init {
                Some(e) => expr_code(e, n + 1, ls),
                None => (seq![OpCode::OpNil], Seq::empty()),
            };
            (ci.push(OpCode::OpDefineGlobal(n as usize)), seq![Value::Str(name)] + ki, ls)
        } else {
            let declared = ls.push(Local { name: name, depth: depth, initialized: false });
            let (ci, ki) = match init {
                Some(e) => expr_code(e, n, declared),
                None => (seq![OpCode::OpNil], Seq::empty()),
            };
            (ci, ki, ls.push(Local { name: name, depth: depth, initialized: true }))
        },
        Decl::Statement(s) => {
            let (c, k) = stmt_code(s, n, ls, depth);
            (c, k, ls)
        },
    }
}

/// The instructions and the new constants of the declarations `ds`, compiled one after the
/// other, and the locals after them.
pub open spec fn decls_code(ds: Seq<Decl>, n: nat, ls: Seq<Local>, depth: usize) -> (Seq<OpCode>, Seq<Value>, Seq<Local>)
    decreases ds,
{
    if ds.len() == 0 {
        (Seq::empty(), Seq::empty(), ls)
    } else {
        let (c1, k1, l1) = decls_code(ds.drop_last(), n, ls, depth);
        let (c2, k2, l2) = decl_code(ds.last(), n + k1.len(), l1, depth);
        (c1 + c2, k1 + k2, l2)
    }
}

/// The instructions and the new constants of the statement `s`, compiled in a scope at
/// depth `depth` with the locals `ls`, its constants numbered from `n`.
pub open spec fn stmt_code(s: Stmt, n: nat, ls: Seq<Local>, depth: usize) -> (Seq<OpCode>, Seq<Value>)
    decreases s,
{
    match s {
        Stmt::Print(e) => {
            let (c, k) = expr_code(e, n, ls);
            (c.push(OpCode::OpPrint), k)
        },
        Stmt::Expression(e) => {
            let (c, k) = expr_code(e, n, ls);
            (c.push(OpCode::OpPop), k)
        },
        Stmt::If(cond, then_branch, else_branch) => {
            let (cc, kc) = expr_code(cond, n, ls);
            let (ct, kt) = stmt_code(*then_branch, n + kc.len(), ls, depth);
            let (ce, ke) = match else_branch {
                Some(other) => stmt_code(*other, n + kc.len() + kt.len(), ls, depth),
                None => (Seq::empty(), Seq::empty()),
            };
            (
                cc + seq![OpCode::OpJumpIfFalse(Some((ct.len() + 2) as usize)), OpCode::OpPop] + ct + seq![
                    OpCode::OpJump(Some((ce.len() + 1) as usize)),
                    OpCode::OpPop,
                ] + ce,
                kc + kt + ke,
            )
        },
        Stmt::While(cond, body) => {
            let (cc, kc) = expr_code(cond, n, ls);
            let (cb, kb) = stmt_code(*body, n + kc.len(), ls, depth);
            (
                cc + seq![OpCode::OpJumpIfFalse(Some((cb.len() + 2) as usize)), OpCode::OpPop] + cb + seq![
                    OpCode::OpLoop((cc.len() + cb.len() + 3) as usize),
                    OpCode::OpPop,
                ],
                kc + kb,
            )
        },
        Stmt::For(init, cond, incr, body) => {
            let inner = (depth + 1) as usize;
            let (ci, ki, l1) = match init {
                Some(d) => decl_code(*d, n, ls, inner),
                None => (Seq::empty(), Seq::empty(), ls),
            };
            let n1 = n + ki.len();
            let (cc, kc) = match cond {
                Some(c) => expr_code(c, n1, l1),
                None => (Seq::empty(), Seq::empty()),
            };
            let n2 = n1 + kc.len();
            let (cn, kn) = match incr {
                Some(c) => expr_code(c, n2, l1),
                None => (Seq::empty(), Seq::empty()),
            };
            let (cb, kb) = stmt_code(*body, n2 + kn.len(), l1, inner);
            let cond_part: Seq<OpCode> = match cond {
                Some(_) => cc + seq![OpCode::OpJumpIfFalse(Some((cb.len() + 2 + if incr is Some { cn.len() + 3 } else { 0 }) as usize)), OpCode::OpPop],
                None => Seq::empty(),
            };
            let incr_part: Seq<OpCode> = match incr {
                Some(_) => seq![OpCode::OpJump(Some((cn.len() + 2) as usize))] + cn + seq![
                    OpCode::OpPop,
                    OpCode::OpLoop((cond_part.len() + cn.len() + 3) as usize),
                ],
                None => Seq::empty(),
            };
            let back: nat = match incr {
                Some(_) => incr_part.len() + cb.len(),
                None => cond_part.len() + cb.len() + 1,
            };
            let exit_part: Seq<OpCode> = match cond {
                Some(_) => seq![OpCode::OpPop],
                None => Seq::empty(),
            };
            (
                ci + cond_part + incr_part + cb + seq![OpCode::OpLoop(back as usize)] + exit_part + pops(
                    (l1.len() - ls.len()) as nat,
                ),
                ki + kc + kn + kb,
            )
        },
        Stmt::Block(decls) => {
            let (cd, kd, l2) = decls_code(decls, n, ls, (depth + 1) as usize);
            (cd + pops((l2.len() - ls.len()) as nat), kd)
        },
    }
}

/// The declaration `d`, compiled with its constants numbered from `n`, the locals `ls` and
/// the scope depth `depth`, raises no error: a local is declared once in its scope and
/// within the limit of locals, and every variable read may be read.
pub open spec fn decl_clean(d: Decl, n: nat, ls: Seq<Local>, depth: usize) -> bool
    decreases d,
{
    match d {
        Decl::Var(name, init) => if depth == 0 {
            match init {
                Some(e) => expr_clean(e, ls),
                None => true,
            }
        } else {
            &&& !doubly_declared(ls, name@, depth as nat)
            &&& ls.len() < LOCALS_COUNT
            &&& match init {
                Some(e) => expr_clean(e, ls.push(Local { name: name, depth: depth, initialized: false })),
                None => true,
            }
        },
        Decl::Statement(s) => stmt_clean(s, n, ls, depth),
    }
}

/// The declarations `ds`, compiled one after the other, raise no error.
pub open spec fn decls_clean(ds: Seq<Decl>, n: nat, ls: Seq<Local>, depth: usize) -> bool
    decreases ds,
{
    if ds.len() == 0 {
        true
    } else {
        let (c1, k1, l1) = decls_code(ds.drop_last(), n, ls, depth);
        decls_clean(ds.drop_last(), n, ls, depth) && decl_clean(ds.last(), n + k1.len(), l1, depth)
    }
}

/// The statement `s` raises no error when compiled: its declarations and variables are
/// clean, and every loop jumps back less than `u16::MAX` instructions.
pub open spec fn stmt_clean(s: Stmt, n: nat, ls: Seq<Local>, depth: usize) -> bool
    decreases s,
{
    match s {
        Stmt::Print(e) => expr_clean(e, ls),
        Stmt::Expression(e) => expr_clean(e, ls),
        Stmt::If(cond, then_branch, else_branch) => {
            let (cc, kc) = expr_code(cond, n, ls);
            let (ct, kt) = stmt_code(*then_branch, n + kc.len(), ls, depth);
            &&& expr_clean(cond, ls)
            &&& stmt_clean(*then_branch, n + kc.len(), ls, depth)
            &&& match else_branch {
                Some(other) => stmt_clean(*other, n + kc.len() + kt.len(), ls, depth),
                None => true,
            }
        },
        Stmt::While(cond, body) => {
            let (cc, kc) = expr_code(cond, n, ls);
            let (cb, kb) = stmt_code(*body, n + kc.len(), ls, depth);
            &&& expr_clean(cond, ls)
            &&& stmt_clean(*body, n + kc.len(), ls, depth)
            &&& cc.len() + cb.len() + 3 <= u16::MAX
        },
        Stmt::For(init, cond, incr, body) => {
            let inner = (depth + 1) as usize;
            let (ci, ki, l1) = match init {
                Some(d) => decl_code(*d, n, ls, inner),
                None => (Seq::empty(), Seq::empty(), ls),
            };
            let n1 = n + ki.len();
            let (cc, kc) = match cond {
                Some(c) => expr_code(c, n1, l1),
                None => (Seq::empty(), Seq::empty()),
            };
            let n2 = n1 + kc.len();
            let (cn, kn) = match incr {
                Some(c) => expr_code(c, n2, l1),
                None => (Seq::empty(), Seq::empty()),
            };
            let (cb, kb) = stmt_code(*body, n2 + kn.len(), l1, inner);
            let cond_len: int = if cond is Some { cc.len() + 2int } else { 0int };
            &&& match init {
                Some(d) => decl_clean(*d, n, ls, inner),
                None => true,
            }
            &&& match cond {
                Some(c) => expr_clean(c, l1),
                None => true,
            }
            &&& match incr {
                Some(c) => expr_clean(c, l1) && cond_len + cn.len() + 3 <= u16::MAX && cn.len() + 3 + cb.len()
                    <= u16::MAX,
                None => cond_len + cb.len() + 1 <= u16::MAX,
            }
            &&& stmt_clean(*body, n2 + kn.len(), l1, inner)
        },
        Stmt::Block(decls) => decls_clean(decls, n, ls, (depth + 1) as usize),
    }
}

/// The declarations `ds` are read front to back from index `i`, the token at `j` being in
/// view after them; none starts at an `EOF`, nor, in a block, at a `}`.
pub open spec fn decls_follow(t: Seq<Token>, i: int, j: int, ds: Seq<Decl>, in_block: bool) -> bool
    decreases ds.len(),
{
    if ds.len() == 0 {
        j == i
    } else {
        exists|m: int|
            #![trigger decl_parses(t, i, m, ds[0])]
            {
                &&& kind_of(t, i) != TokenKind::EOF
                &&& !(in_block && kind_of(t, i) == TokenKind::RightBrace)
                &&& decl_parses(t, i, m, ds[0])
                &&& decls_follow(t, m, j, ds.skip(1), in_block)
            }
    }
}

/// The proof that declarations read front to back can take one more at their end.
pub proof fn lemma_follow_push(t: Seq<Token>, i: int, m: int, j: int, xs: Seq<Decl>, d: Decl, in_block: bool)
    requires
        decls_follow(t, i, m, xs, in_block),
        kind_of(t, m) != TokenKind::EOF,
        !(in_block && kind_of(t, m) == TokenKind::RightBrace),
        decl_parses(t, m, j, d),
    ensures
        decls_follow(t, i, j, xs.push(d), in_block),
    decreases xs.len(),
{
    if xs.len() == 0 {
        assert(xs.push(d)[0] == d);
        assert(xs.push(d).skip(1) =~= Seq::<Decl>::empty());
        assert(decls_follow(t, j, j, Seq::<Decl>::empty(), in_block));
    } else {
        let m1 = choose|m1: int|
            #![trigger decl_parses(t, i, m1, xs[0])]
            {
                &&& kind_of(t, i) != TokenKind::EOF
                &&& !(in_block && kind_of(t, i) == TokenKind::RightBrace)
                &&& decl_parses(t, i, m1, xs[0])
                &&& decls_follow(t, m1, m, xs.skip(1), in_block)
            };
        lemma_follow_push(t, m1, m, j, xs.skip(1), d, in_block);
        assert(xs.push(d).skip(1) =~= xs.skip(1).push(d));
        assert(xs.push(d)[0] == xs[0]);
    }
}

/// The proof that declarations read one after the other are read front to back.
pub proof fn lemma_follow(t: Seq<Token>, i: int, j: int, ds: Seq<Decl>, in_block: bool)
    requires
        decls_parse(t, i, j, ds, in_block),
    ensures
        decls_follow(t, i, j, ds, in_block),
    decreases ds.len(),
{
    if ds.len() > 0 {
        let m = choose|m: int|
            #![trigger kind_of(t, m)]
            {
                &&& decls_parse(t, i, m, ds.drop_last(), in_block)
                &&& kind_of(t, m) != TokenKind::EOF
                &&& !(in_block && kind_of(t, m) == TokenKind::RightBrace)
                &&& decl_parses(t, m, j, ds.last())
            };
        lemma_follow(t, i, m, ds.drop_last(), in_block);
        lemma_follow_push(t, i, m, j, ds.drop_last(), ds.last(), in_block);
        assert(ds.drop_last().push(ds.last()) =~= ds);
    }
}

/// The proof that in clean declarations each one is clean where it is compiled.
pub proof fn lemma_decls_clean_at(ds: Seq<Decl>, n: nat, ls: Seq<Local>, depth: usize, k: int)
    requires
        decls_clean(ds, n, ls, depth),
        0 <= k < ds.len(),
    ensures
        ({
            let (c1, k1, l1) = decls_code(ds.take(k), n, ls, depth);
            decl_clean(ds[k], n + k1.len(), l1, depth)
        }),
    decreases ds.len(),
{
    if k == ds.len() - 1 {
        assert(ds.take(k) =~= ds.drop_last());
    } else {
        lemma_decls_clean_at(ds.drop_last(), n, ls, depth, k);
        assert(ds.drop_last().take(k) =~= ds.take(k));
    }
}

/// The proof that a declaration keeps the locals it is given and adds at most one, in the
/// scope it is compiled in.
pub proof fn lemma_decl_locals(d: Decl, n: nat, ls: Seq<Local>, depth: usize)
    ensures
        ({
            let l2 = decl_code(d, n, ls, depth).2;
            &&& ls.len() <= l2.len() <= ls.len() + 1
            &&& l2.subrange(0, ls.len() as int) == ls
            &&& forall|i: int| ls.len() <= i < l2.len() ==> #[trigger] l2[i].depth == depth
        }),
{
    let l2 = decl_code(d, n, ls, depth).2;
    assert(l2.subrange(0, ls.len() as int) =~= ls);
}

/// The proof that declarations keep the locals they are given and add more only in the
/// scope they are compiled in.
pub proof fn lemma_decls_locals(ds: Seq<Decl>, n: nat, ls: Seq<Local>, depth: usize)
    ensures
        ({
            let l2 = decls_code(ds, n, ls, depth).2;
            &&& ls.len() <= l2.len()
            &&& l2.subrange(0, ls.len() as int) == ls
            &&& forall|i: int| ls.len() <= i < l2.len() ==> #[trigger] l2[i].depth == depth
        }),
    decreases ds.len(),
{
    if ds.len() > 0 {
        lemma_decls_locals(ds.drop_last(), n, ls, depth);
        let (c1, k1, l1) = decls_code(ds.drop_last(), n, ls, depth);
        lemma_decl_locals(ds.last(), n + k1.len(), l1, depth);
        let l2 = decls_code(ds, n, ls, depth).2;
        assert(l2.subrange(0, l1.len() as int) == l1);
        assert(l2.subrange(0, ls.len() as int) =~= l1.subrange(0, ls.len() as int));
        assert forall|i: int| ls.len() <= i < l2.len() implies #[trigger] l2[i].depth == depth by {
            if i < l1.len() {
                assert(l2.subrange(0, l1.len() as int)[i] == l2[i]);
                assert(l1[i].depth == depth);
            }
        }
    }
}

/// The proof that resolving a name finds the slot `resolve_slot` gives.
pub proof fn lemma_resolve_slot(ls: Seq<Local>, name: Seq<char>, r: (bool, Option<usize>))
    requires
        resolves_to(ls, name, r),
    ensures
        r.1 == resolve_slot(ls, name),
    decreases ls.len(),
{
    if ls.len() > 0 {
        let last = (ls.len() - 1) as int;
        if ls[last].name@ == name {
            match r.1 {
                Some(i) => {
                    if i < last {
                        assert(ls[last].name@ != name);
                    }
                },
                None => {
                    assert(ls[last].name@ != name);
                },
            }
        } else {
            let d = ls.drop_last();
            match r.1 {
                Some(i) => {
                    assert(i != last);
                    assert(forall|j: int| i < j < d.len() ==> #[trigger] d[j] == ls[j]);
                    assert(resolves_to(d, name, r));
                },
                None => {
                    assert(forall|j: int| 0 <= j < d.len() ==> #[trigger] d[j] == ls[j]);
                    assert(resolves_to(d, name, r));
                },
            }
            lemma_resolve_slot(d, name, r);
        }
    }
}

/// The proof that `e` followed by `;` is read one way only from `i`.
proof fn lemma_expr_statement_unique(t: Seq<Token>, i: int, j1: int, j2: int, e1: Expr, e2: Expr)
    requires
        expr_statement_parses(t, i, j1, e1),
        expr_statement_parses(t, i, j2, e2),
    ensures
        e1 == e2,
        j1 == j2,
{
    let m1 = choose|m: int|
        #![trigger kind_of(t, m)]
        expr_parses(t, i, m, Precedence::PrecAssign, e1) && kind_of(t, m) == TokenKind::Semicolon && j1 == m + 1;
    let m2 = choose|m: int|
        #![trigger kind_of(t, m)]
        expr_parses(t, i, m, Precedence::PrecAssign, e2) && kind_of(t, m) == TokenKind::Semicolon && j2 == m + 1;
    lemma_expr_unique(t, i, m1, m2, Precedence::PrecAssign, e1, e2);
}

/// The proof that the condition clause of a `for` is read one way only.
proof fn lemma_for_cond_unique(t: Seq<Token>, i: int, j1: int, j2: int, c1: Option<Expr>, c2: Option<Expr>)
    requires
        for_cond_parses(t, i, j1, c1),
        for_cond_parses(t, i, j2, c2),
    ensures
        c1 == c2,
        j1 == j2,
{
    if c1 is Some && c2 is Some {
        lemma_expr_statement_unique(t, i, j1, j2, c1->0, c2->0);
    }
}

/// The proof that the increment clause of a `for` is read one way only.
proof fn lemma_for_incr_unique(t: Seq<Token>, i: int, j1: int, j2: int, c1: Option<Expr>, c2: Option<Expr>)
    requires
        for_incr_parses(t, i, j1, c1),
        for_incr_parses(t, i, j2, c2),
    ensures
        c1 == c2,
        j1 == j2,
{
    if c1 is Some && c2 is Some {
        let a = c1->0;
        let b = c2->0;
        let m1 = choose|m: int|
            #![trigger kind_of(t, m)]
            expr_parses(t, i, m, Precedence::PrecAssign, a) && kind_of(t, m) == TokenKind::RightParen && j1 == m + 1;
        let m2 = choose|m: int|
            #![trigger kind_of(t, m)]
            expr_parses(t, i, m, Precedence::PrecAssign, b) && kind_of(t, m) == TokenKind::RightParen && j2 == m + 1;
        lemma_expr_unique(t, i, m1, m2, Precedence::PrecAssign, a, b);
    }
}

/// The proof that the initializer clause of a `for` is read one way only.
proof fn lemma_for_init_unique(
    t: Seq<Token>,
    i: int,
    j1: int,
    j2: int,
    a: Option<Box<Decl>>,
    b: Option<Box<Decl>>,
)
    requires
        for_init_parses(t, i, j1, a),
        for_init_parses(t, i, j2, b),
    ensures
        a == b,
        j1 == j2,
    decreases a, 3nat,
{
    if a is Some && b is Some {
        let da = *a->0;
        let db = *b->0;
        if da is Var && db is Var {
            lemma_decl_unique(t, i, j1, j2, da, db);
        } else if !(da is Var) && !(db is Var) {
            lemma_expr_statement_unique(t, i, j1, j2, da->Statement_0->Expression_0, db->Statement_0->Expression_0);
        }
    }
}

/// The proof that the tokens from `i` read as one statement only.
pub proof fn lemma_stmt_unique(t: Seq<Token>, i: int, j1: int, j2: int, s1: Stmt, s2: Stmt)
    requires
        stmt_parses(t, i, j1, s1),
        stmt_parses(t, i, j2, s2),
    ensures
        s1 == s2,
        j1 == j2,
    decreases s1, 1nat,
{
    match (s1, s2) {
        (Stmt::Print(a), Stmt::Print(b)) => lemma_expr_statement_unique(t, i + 1, j1, j2, a, b),
        (Stmt::Expression(a), Stmt::Expression(b)) => lemma_expr_statement_unique(t, i, j1, j2, a, b),
        (Stmt::If(..), Stmt::If(..)) => lemma_if_unique(t, i, j1, j2, s1, s2),
        (Stmt::While(..), Stmt::While(..)) => lemma_while_unique(t, i, j1, j2, s1, s2),
        (Stmt::For(..), Stmt::For(..)) => lemma_for_unique(t, i, j1, j2, s1, s2),
        (Stmt::Block(..), Stmt::Block(..)) => lemma_block_unique(t, i, j1, j2, s1, s2),
        _ => {},
    }
}

/// The proof that an `if` statement is read one way only.
proof fn lemma_if_unique(t: Seq<Token>, i: int, j1: int, j2: int, s1: Stmt, s2: Stmt)
    requires
        stmt_parses(t, i, j1, s1),
        stmt_parses(t, i, j2, s2),
        s1 is If,
        s2 is If,
    ensures
        s1 == s2,
        j1 == j2,
    decreases s1, 0nat,
{
    match (s1, s2) {
        (Stmt::If(c1, then1, else1), Stmt::If(c2, then2, else2)) => {
            let (m1, k1) = choose|m: int, k: int|
                #![trigger kind_of(t, m), kind_of(t, k)]
                {
                    &&& expr_parses(t, i + 2, m, Precedence::PrecAssign, c1)
                    &&& kind_of(t, m) == TokenKind::RightParen
                    &&& stmt_parses(t, m + 1, k, *then1)
                    &&& match else1 {
                        Some(other) => kind_of(t, k) == TokenKind::Else && stmt_parses(t, k + 1, j1, *other),
                        None => kind_of(t, k) != TokenKind::Else && j1 == k,
                    }
                };
            let (m2, k2) = choose|m: int, k: int|
                #![trigger kind_of(t, m), kind_of(t, k)]
                {
                    &&& expr_parses(t, i + 2, m, Precedence::PrecAssign, c2)
                    &&& kind_of(t, m) == TokenKind::RightParen
                    &&& stmt_parses(t, m + 1, k, *then2)
                    &&& match else2 {
                        Some(other) => kind_of(t, k) == TokenKind::Else && stmt_parses(t, k + 1, j2, *other),
                        None => kind_of(t, k) != TokenKind::Else && j2 == k,
                    }
                };
            lemma_expr_unique(t, i + 2, m1, m2, Precedence::PrecAssign, c1, c2);
            lemma_stmt_unique(t, m1 + 1, k1, k2, *then1, *then2);
            if else1 is Some && else2 is Some {
                lemma_stmt_unique(t, k1 + 1, j1, j2, *else1->0, *else2->0);
            }
        },
        _ => {},
    }
}

/// The proof that a `while` statement is read one way only.
proof fn lemma_while_unique(t: Seq<Token>, i: int, j1: int, j2: int, s1: Stmt, s2: Stmt)
    requires
        stmt_parses(t, i, j1, s1),
        stmt_parses(t, i, j2, s2),
        s1 is While,
        s2 is While,
    ensures
        s1 == s2,
        j1 == j2,
    decreases s1, 0nat,
{
    match (s1, s2) {
        (Stmt::While(c1, body1), Stmt::While(c2, body2)) => {
            let m1 = choose|m: int|
                #![trigger kind_of(t, m)]
                {
                    &&& expr_parses(t, i + 2, m, Precedence::PrecAssign, c1)
                    &&& kind_of(t, m) == TokenKind::RightParen
                    &&& stmt_parses(t, m + 1, j1, *body1)
                };
            let m2 = choose|m: int|
                #![trigger kind_of(t, m)]
                {
                    &&& expr_parses(t, i + 2, m, Precedence::PrecAssign, c2)
                    &&& kind_of(t, m) == TokenKind::RightParen
                    &&& stmt_parses(t, m + 1, j2, *body2)
                };
            lemma_expr_unique(t, i + 2, m1, m2, Precedence::PrecAssign, c1, c2);
            lemma_stmt_unique(t, m1 + 1, j1, j2, *body1, *body2);
        },
        _ => {},
    }
}

/// The proof that a `for` statement splits into its clauses and its body.
proof fn lemma_for_clauses(t: Seq<Token>, i: int, j: int, s: Stmt) -> (r: (int, int, int))
    requires
        stmt_parses(t, i, j, s),
        s is For,
    ensures
        match s {
            Stmt::For(init, cond, incr, body) => {
                &&& for_init_parses(t, i + 2, r.0, init)
                &&& for_cond_parses(t, r.0, r.1, cond)
                &&& for_incr_parses(t, r.1, r.2, incr)
                &&& stmt_parses(t, r.2, j, *body)
            },
            _ => true,
        },
{
    match s {
        Stmt::For(init, cond, incr, body) => {
            // the indexes where the clauses end are in view as tokens
            assert forall|k1: int, k2: int, k3: int|
                #![trigger for_cond_parses(t, k1, k2, cond), for_incr_parses(t, k2, k3, incr)]
                for_cond_parses(t, k1, k2, cond) && for_incr_parses(t, k2, k3, incr) implies kind_of(t, k1)
                    == t[k1].spec_kind() && kind_of(t, k2) == t[k2].spec_kind() && kind_of(t, k3)
                    == t[k3].spec_kind() by {}
            let (k1, k2, k3) = choose|k1: int, k2: int, k3: int|
                #![trigger kind_of(t, k1), kind_of(t, k2), kind_of(t, k3)]
                {
                    &&& for_init_parses(t, i + 2, k1, init)
                    &&& for_cond_parses(t, k1, k2, cond)
                    &&& for_incr_parses(t, k2, k3, incr)
                    &&& stmt_parses(t, k3, j, *body)
                };
            (k1, k2, k3)
        },
        _ => (0, 0, 0),
    }
}

/// The proof that a `for` statement is read one way only.
proof fn lemma_for_unique(t: Seq<Token>, i: int, j1: int, j2: int, s1: Stmt, s2: Stmt)
    requires
        stmt_parses(t, i, j1, s1),
        stmt_parses(t, i, j2, s2),
        s1 is For,
        s2 is For,
    ensures
        s1 == s2,
        j1 == j2,
    decreases s1, 0nat,
{
    match (s1, s2) {
        (Stmt::For(init1, cond1, incr1, body1), Stmt::For(init2, cond2, incr2, body2)) => {
            let a = lemma_for_clauses(t, i, j1, s1);
            let b = lemma_for_clauses(t, i, j2, s2);
            lemma_for_init_unique(t, i + 2, a.0, b.0, init1, init2);
            lemma_for_cond_unique(t, a.0, a.1, b.1, cond1, cond2);
            lemma_for_incr_unique(t, a.1, a.2, b.2, incr1, incr2);
            lemma_stmt_unique(t, a.2, j1, j2, *body1, *body2);
        },
        _ => {},
    }
}

/// The proof that a block is read one way only.
proof fn lemma_block_unique(t: Seq<Token>, i: int, j1: int, j2: int, s1: Stmt, s2: Stmt)
    requires
        stmt_parses(t, i, j1, s1),
        stmt_parses(t, i, j2, s2),
        s1 is Block,
        s2 is Block,
    ensures
        s1 == s2,
        j1 == j2,
    decreases s1, 0nat,
{
    match (s1, s2) {
        (Stmt::Block(ds1), Stmt::Block(ds2)) => {
            let m1 = choose|m: int|
                #![trigger kind_of(t, m)]
                decls_parse(t, i + 1, m, ds1, true) && kind_of(t, m) == TokenKind::RightBrace && j1 == m + 1;
            let m2 = choose|m: int|
                #![trigger kind_of(t, m)]
                decls_parse(t, i + 1, m, ds2, true) && kind_of(t, m) == TokenKind::RightBrace && j2 == m + 1;
            lemma_follow(t, i + 1, m1, ds1, true);
            lemma_follow(t, i + 1, m2, ds2, true);
            lemma_follow_unique(t, i + 1, m1, m2, ds1, ds2, true);
        },
        _ => {},
    }
}

/// The proof that the tokens from `i` read as one declaration only.
pub proof fn lemma_decl_unique(t: Seq<Token>, i: int, j1: int, j2: int, d1: Decl, d2: Decl)
    requires
        decl_parses(t, i, j1, d1),
        decl_parses(t, i, j2, d2),
    ensures
        d1 == d2,
        j1 == j2,
    decreases d1, 2nat,
{
    match (d1, d2) {
        (Decl::Var(n1, init1), Decl::Var(n2, init2)) => {
            let m1 = choose|m: int|
                #![trigger kind_of(t, m)]
                {
                    &&& match init1 {
                        Some(e) => kind_of(t, i + 2) == TokenKind::Equal && expr_parses(t, i + 3, m, Precedence::PrecAssign, e),
                        None => kind_of(t, i + 2) != TokenKind::Equal && m == i + 2,
                    }
                    &&& kind_of(t, m) == TokenKind::Semicolon
                    &&& j1 == m + 1
                };
            let m2 = choose|m: int|
                #![trigger kind_of(t, m)]
                {
                    &&& match init2 {
                        Some(e) => kind_of(t, i + 2) == TokenKind::Equal && expr_parses(t, i + 3, m, Precedence::PrecAssign, e),
                        None => kind_of(t, i + 2) != TokenKind::Equal && m == i + 2,
                    }
                    &&& kind_of(t, m) == TokenKind::Semicolon
                    &&& j2 == m + 1
                };
            if init1 is Some && init2 is Some {
                lemma_expr_unique(t, i + 3, m1, m2, Precedence::PrecAssign, init1->0, init2->0);
            }
        },
        (Decl::Statement(a), Decl::Statement(b)) => lemma_stmt_unique(t, i, j1, j2, a, b),
        _ => {},
    }
}

/// The proof that declarations read front to back from `i` up to where a `}` (in a block)
/// or an `EOF` ends them are read one way only.
pub proof fn lemma_follow_unique(t: Seq<Token>, i: int, j1: int, j2: int, ds1: Seq<Decl>, ds2: Seq<Decl>, in_block: bool)
    requires
        decls_follow(t, i, j1, ds1, in_block),
        decls_follow(t, i, j2, ds2, in_block),
        kind_of(t, j1) == TokenKind::EOF || (in_block && kind_of(t, j1) == TokenKind::RightBrace),
        kind_of(t, j2) == TokenKind::EOF || (in_block && kind_of(t, j2) == TokenKind::RightBrace),
    ensures
        ds1 == ds2,
        j1 == j2,
    decreases ds1, 3nat,
{
    if ds1.len() > 0 && ds2.len() > 0 {
        let m1 = choose|m: int|
            #![trigger decl_parses(t, i, m, ds1[0])]
            {
                &&& kind_of(t, i) != TokenKind::EOF
                &&& !(in_block && kind_of(t, i) == TokenKind::RightBrace)
                &&& decl_parses(t, i, m, ds1[0])
                &&& decls_follow(t, m, j1, ds1.skip(1), in_block)
            };
        let m2 = choose|m: int|
            #![trigger decl_parses(t, i, m, ds2[0])]
            {
                &&& kind_of(t, i) != TokenKind::EOF
                &&& !(in_block && kind_of(t, i) == TokenKind::RightBrace)
                &&& decl_parses(t, i, m, ds2[0])
                &&& decls_follow(t, m, j2, ds2.skip(1), in_block)
            };
        lemma_decl_unique(t, i, m1, m2, ds1[0], ds2[0]);
        assert(decreases_to!(ds1 => ds1.skip(1)));
        lemma_follow_unique(t, m1, j1, j2, ds1.skip(1), ds2.skip(1), in_block);
        assert(ds1 =~= seq![ds1[0]] + ds1.skip(1));
        assert(ds2 =~= seq![ds2[0]] + ds2.skip(1));
    }
}

/// The proof that the tokens read as one program only: the grammar is unambiguous.
pub proof fn lemma_program_unique(t: Seq<Token>, i: int, ds1: Seq<Decl>, ds2: Seq<Decl>)
    requires
        program_parses(t, i, ds1),
        program_parses(t, i, ds2),
    ensures
        ds1 == ds2,
{
    let m1 = choose|m: int| #![trigger kind_of(t, m)] decls_parse(t, i, m, ds1, false) && kind_of(t, m) == TokenKind::EOF;
    let m2 = choose|m: int| #![trigger kind_of(t, m)] decls_parse(t, i, m, ds2, false) && kind_of(t, m) == TokenKind::EOF;
    lemma_follow(t, i, m1, ds1, false);
    lemma_follow(t, i, m2, ds2, false);
    lemma_follow_unique(t, i, m1, m2, ds1, ds2, false);
}

/// How tightly a binary operator binds, by the usual convention: `*` and `/` tightest, then
/// `+` and `-`, then the comparisons, then `==` and `!=`.
pub open spec fn binding_rank(k: TokenKind) -> int {
    if k == TokenKind::Star || k == TokenKind::Slash {
        4
    } else if k == TokenKind::Plus || k == TokenKind::Minus {
        3
    } else if k == TokenKind::Greater || k == TokenKind::GreaterEqual || k == TokenKind::Less || k
        == TokenKind::LessEqual {
        2
    } else {
        1
    }
}

/// `e` is an operation written without parentheses around it: a binary operation, `and`,
/// `or`, or an assignment.
pub open spec fn is_operation(e: Expr) -> bool {
    e is Binary || e is And || e is Or || e is Assign
}

/// Every operation in `e` holds its operands as the binding of the operators says: an
/// operand of a binary operation is no `and`, `or` or assignment; its left operand binds
/// at least as tightly as it (operators of one rank group to the left), its right operand
/// strictly more tightly; an operand of `and` is no `or`, and no operand of `and` or `or`
/// is an assignment; and the operand of `-` or `!` is no operation at all.
pub open spec fn nested_by_binding(e: Expr) -> bool
    decreases e,
{
    match e {
        Expr::Binary(l, op, r) => {
            &&& !(*l is And || *l is Or || *l is Assign)
            &&& (*l is Binary ==> binding_rank((*l)->Binary_1) >= binding_rank(op))
            &&& !(*r is And || *r is Or || *r is Assign)
            &&& (*r is Binary ==> binding_rank((*r)->Binary_1) > binding_rank(op))
            &&& nested_by_binding(*l)
            &&& nested_by_binding(*r)
        },
        Expr::Unary(_, a) => !is_operation(*a) && nested_by_binding(*a),
        Expr::Group(a) => nested_by_binding(*a),
        Expr::Assign(_, v) => nested_by_binding(*v),
        Expr::And(l, r) => {
            &&& !(*l is Or || *l is Assign)
            &&& !(*r is Or || *r is Assign)
            &&& nested_by_binding(*l)
            &&& nested_by_binding(*r)
        },
        Expr::Or(l, r) => !(*l is Assign) && !(*r is Assign) && nested_by_binding(*l) && nested_by_binding(*r),
        _ => true,
    }
}

/// No `EOF` comes before the last token.
pub open spec fn eof_only_at_end(t: Seq<Token>) -> bool {
    forall|k: int| 0 <= k < t.len() - 1 ==> #[trigger] kind_of(t, k) != TokenKind::EOF
}

/// The proof that the precedence of a binary operator follows its binding rank.
proof fn lemma_rank_level(op: TokenKind)
    requires
        is_binary_operator(op),
    ensures
        infix_precedence(op).spec_level() == binding_rank(op) + 3,
        infix_precedence(op).spec_next().spec_level() == binding_rank(op) + 4,
{
}

/// The proof that the token after an expression binds more loosely than the precedence it
/// was read at.
proof fn lemma_expr_stop(t: Seq<Token>, i: int, j: int, q: Precedence, e: Expr)
    requires
        expr_parses(t, i, j, q, e),
        eof_only_at_end(t),
        q.spec_level() >= 1,
    ensures
        infix_precedence(kind_of(t, j)).spec_level() < q.spec_level(),
{
    if e is Missing {
        assert(i == t.len() - 1);
    }
}

/// What an expression read at precedence `q` can be at its top: an operation binding at
/// least as tightly as `q`, and an assignment only where `q` admits one.
proof fn lemma_top_binds(t: Seq<Token>, i: int, j: int, q: Precedence, e: Expr)
    requires
        expr_parses(t, i, j, q, e),
    ensures
        e is Binary ==> is_binary_operator(e->Binary_1) && infix_precedence(e->Binary_1).spec_level() >= q.spec_level(),
        e is And ==> Precedence::PrecAnd.spec_level() >= q.spec_level(),
        e is Or ==> Precedence::PrecOr.spec_level() >= q.spec_level(),
        e is Assign ==> q.spec_level() <= 1,
{
    if !(e is Missing) && (e is Binary || e is And || e is Or) {
        let m = lemma_operation_split(t, i, j, q, q.spec_level() <= 1, e);
    }
    if e is Assign {
        assert(prefix_parses(t, i, j, q.spec_level() <= 1, e));
    }
}

/// What the token after an operation read with its infix operations can be: one binding
/// more loosely than the operation's right operand was read at.
proof fn lemma_left_binds(t: Seq<Token>, i: int, m: int, p: Precedence, can_assign: bool, l: Expr)
    requires
        infix_parses(t, i, m, p, can_assign, l),
        eof_only_at_end(t),
    ensures
        l is Binary ==> is_binary_operator(l->Binary_1) && infix_precedence(kind_of(t, m)).spec_level()
            <= infix_precedence(l->Binary_1).spec_level(),
        l is And ==> infix_precedence(kind_of(t, m)).spec_level() < Precedence::PrecAnd.spec_level(),
        l is Or ==> infix_precedence(kind_of(t, m)).spec_level() < Precedence::PrecOr.spec_level(),
        l is Assign ==> infix_precedence(kind_of(t, m)).spec_level() < 1,
{
    match l {
        Expr::Binary(_, op, r) => {
            let mm = lemma_operation_split(t, i, m, p, can_assign, l);
            lemma_rank_level(op);
            lemma_expr_stop(t, mm + 1, m, infix_precedence(op).spec_next(), *r);
        },
        Expr::And(_, r) => {
            let mm = lemma_operation_split(t, i, m, p, can_assign, l);
            lemma_expr_stop(t, mm + 1, m, Precedence::PrecAnd, *r);
        },
        Expr::Or(_, r) => {
            let mm = lemma_operation_split(t, i, m, p, can_assign, l);
            lemma_expr_stop(t, mm + 1, m, Precedence::PrecOr, *r);
        },
        Expr::Assign(_, v) => {
            assert(prefix_parses(t, i, m, can_assign, l));
            lemma_expr_stop(t, i + 2, m, Precedence::PrecAssign, *v);
        },
        _ => {},
    }
}

proof fn lemma_prefix_nested(t: Seq<Token>, i: int, j: int, can_assign: bool, e: Expr)
    requires
        prefix_parses(t, i, j, can_assign, e),
        eof_only_at_end(t),
    ensures
        nested_by_binding(e),
    decreases e, 0nat,
{
    match e {
        Expr::Assign(_, v) => lemma_expr_nested(t, i + 2, j, Precedence::PrecAssign, *v),
        Expr::Group(a) => lemma_expr_nested(t, i + 1, j - 1, Precedence::PrecAssign, *a),
        Expr::Unary(_, a) => {
            lemma_expr_nested(t, i + 1, j, Precedence::PrecUnary, *a);
            lemma_top_binds(t, i + 1, j, Precedence::PrecUnary, *a);
            if *a is Binary {
                lemma_rank_level((*a)->Binary_1);
            }
        },
        _ => {},
    }
}

proof fn lemma_infix_nested(t: Seq<Token>, i: int, j: int, p: Precedence, can_assign: bool, e: Expr)
    requires
        infix_parses(t, i, j, p, can_assign, e),
        eof_only_at_end(t),
        p.spec_level() >= 1,
    ensures
        nested_by_binding(e),
    decreases e, 1nat,
{
    if prefix_parses(t, i, j, can_assign, e) {
        lemma_prefix_nested(t, i, j, can_assign, e);
    } else {
        let m = lemma_operation_split(t, i, j, p, can_assign, e);
        match e {
            Expr::Binary(l, op, r) => {
                let q = infix_precedence(op).spec_next();
                lemma_rank_level(op);
                lemma_infix_nested(t, i, m, p, can_assign, *l);
                lemma_expr_nested(t, m + 1, j, q, *r);
                lemma_left_binds(t, i, m, p, can_assign, *l);
                lemma_top_binds(t, m + 1, j, q, *r);
                if *l is Binary {
                    lemma_rank_level((*l)->Binary_1);
                }
                if *r is Binary {
                    lemma_rank_level((*r)->Binary_1);
                }
            },
            Expr::And(l, r) => {
                lemma_infix_nested(t, i, m, p, can_assign, *l);
                lemma_expr_nested(t, m + 1, j, Precedence::PrecAnd, *r);
                lemma_left_binds(t, i, m, p, can_assign, *l);
                lemma_top_binds(t, m + 1, j, Precedence::PrecAnd, *r);
            },
            Expr::Or(l, r) => {
                lemma_infix_nested(t, i, m, p, can_assign, *l);
                lemma_expr_nested(t, m + 1, j, Precedence::PrecOr, *r);
                lemma_left_binds(t, i, m, p, can_assign, *l);
                lemma_top_binds(t, m + 1, j, Precedence::PrecOr, *r);
            },
            _ => {},
        }
    }
}

proof fn lemma_expr_nested(t: Seq<Token>, i: int, j: int, q: Precedence, e: Expr)
    requires
        expr_parses(t, i, j, q, e),
        eof_only_at_end(t),
        q.spec_level() >= 1,
    ensures
        nested_by_binding(e),
    decreases e, 2nat,
{
    if !(e is Missing) {
        lemma_infix_nested(t, i, j, q, q.spec_level() <= 1, e);
    }
}

/// Operators bind by their rank, and operators of one rank group to the left: in every
/// expression read from tokens that end at their only `EOF`, `*` and `/` hold their
/// operands before `+` and `-` do, these before the comparisons, and these before `==`
/// and `!=`; so `a + b / c` is `a + (b / c)`, `a - b - c` is `(a - b) - c`, and `-a + b`
/// is `(-a) + b`.
pub proof fn law_operators_nest_by_binding(t: Seq<Token>, i: int, j: int, p: Precedence, e: Expr)
    requires
        expr_parses(t, i, j, p, e),
        eof_only_at_end(t),
        p.spec_level() >= 1,
    ensures
        nested_by_binding(e),
{
    lemma_expr_nested(t, i, j, p, e);
}

/// Whatever reads as a whole expression, as an expression statement reads it, reads
/// between parentheses as a group of it: comparisons, equalities, `and`, `or` and
/// assignments included.
pub proof fn law_group_holds_any_expression(t: Seq<Token>, i: int, m: int, can_assign: bool, e: Expr)
    requires
        0 <= i,
        kind_of(t, i) == TokenKind::LeftParen,
        expr_parses(t, i + 1, m, Precedence::PrecAssign, e),
        kind_of(t, m) == TokenKind::RightParen,
    ensures
        prefix_parses(t, i, m + 1, can_assign, Expr::Group(Box::new(e))),
{
    lemma_expr_after(t, i + 1, m, Precedence::PrecAssign, e);
}

/// A name resolves to the innermost local that has it, the last one declared, and to no
/// local when none has it.
pub proof fn law_innermost_local(ls: Seq<Local>, name: Seq<char>)
    requires
        ls.len() <= usize::MAX,
    ensures
        match resolve_slot(ls, name) {
            Some(i) => {
                &&& i < ls.len()
                &&& ls[i as int].name@ == name
                &&& forall|k: int| i < k < ls.len() ==> #[trigger] ls[k].name@ != name
            },
            None => forall|k: int| 0 <= k < ls.len() ==> #[trigger] ls[k].name@ != name,
        },
    decreases ls.len(),
{
    if ls.len() > 0 {
        let last = ls.len() - 1;
        assert(ls.last() == ls[last]);
        if ls.last().name@ != name {
            let d = ls.drop_last();
            law_innermost_local(d, name);
            assert forall|k: int| 0 <= k < d.len() implies #[trigger] d[k] == ls[k] by {}
            match resolve_slot(d, name) {
                Some(i) => {
                    assert(ls[i as int] == d[i as int]);
                    assert forall|k: int| i < k < ls.len() implies #[trigger] ls[k].name@ != name by {
                        if k < last {
                            assert(ls[k] == d[k]);
                        }
                    }
                },
                None => {
                    assert forall|k: int| 0 <= k < ls.len() implies #[trigger] ls[k].name@ != name by {
                        if k < last {
                            assert(ls[k] == d[k]);
                        }
                    }
                },
            }
        }
    }
}

} // verus!
