use vstd::prelude::*;

use crate::chunk::{Chunk, Value};
use crate::frontend::{doubly_declared, resolves_to, Local, Locals, LOCALS_COUNT};
use crate::grammar::{
    for_cond_parses, for_incr_parses, for_init_parses, lemma_for_parses, expr_clean, readable,
    no_error_tokens, left_spine, lemma_first_operand, lemma_next_operation, lemma_infix_end,
    decl_clean, decls_clean, stmt_clean, decls_follow, lemma_follow, lemma_decls_clean_at,
    decl_code, decl_parses, decls_code, decls_parse, expr_code, expr_parses, expr_statement_parses, lemma_program_unique,
    infix_expr, infix_parses, infix_tail, lemma_decl_locals, lemma_decls_locals, lemma_infix_code,
    lemma_resolve_slot, next_index, pops, prefix_parses, program_parses, right_precedence, stmt_code,
    stmt_parses, Decl, Expr, Stmt,
};
use crate::opcode::{OpCode, VariableOp};
use crate::precedence::Precedence;
use crate::token::{Token, TokenKind, TokenType};

verus! {

/// A diagnostic: where in the source it was raised, and what it says.
#[derive(Clone, Debug)]
pub struct CompileError {
    pub line: usize,
    pub column: usize,
    pub message: String,
}

/// A single-pass compiler from tokens to bytecode: a Pratt parser for expressions and a
/// recursive-descent parser for declarations and statements, writing into its chunk.
pub struct Compiler {
    chunk: Chunk,
    tokens: Vec<Token>,
    /// Index of the next token to read.
    pos: usize,
    previous: Option<usize>,
    current: Option<usize>,
    pub had_error: bool,
    pub panic_mode: bool,
    locals: Locals,
    scope_depth: usize,
    errors: Vec<CompileError>,
    /// Length of the chunk's code when the compiler was made: what follows is ours.
    start: Ghost<nat>,
}

/// The parse functions of the rule table.
#[derive(Clone, Copy, PartialEq, Eq, Structural)]
pub enum ParseFn {
    Grouping,
    Unary,
    Binary,
    Number,
    StringLiteral,
    Literal,
    Variable,
    And,
    Or,
}

/// How a token kind parses: its binding power as an infix operator, and the functions
/// that parse an expression starting with it or continuing with it.
#[derive(Clone, Copy, PartialEq, Eq, Structural)]
pub struct ParseRule {
    pub precedence: Precedence,
    pub infix_fn: Option<ParseFn>,
    pub prefix_fn: Option<ParseFn>,
}

/// The rule table. It lists the kinds that take part in expressions; every other kind
/// (`=`, `,`, `.`, braces, keywords that start statements, error tokens) gets the empty
/// rule: no parse function, and `PrecNone`, so that an expression ends before it.
pub open spec fn rule_of(kind: TokenKind) -> ParseRule {
    match kind {
        TokenKind::And => ParseRule {
            precedence: Precedence::PrecAnd,
            infix_fn: Some(ParseFn::And),
            prefix_fn: None,
        },
        TokenKind::Or => ParseRule {
            precedence: Precedence::PrecOr,
            infix_fn: Some(ParseFn::Or),
            prefix_fn: None,
        },
        TokenKind::Plus => ParseRule {
            precedence: Precedence::PrecTerm,
            infix_fn: Some(ParseFn::Binary),
            prefix_fn: None,
        },
        TokenKind::Minus => ParseRule {
            precedence: Precedence::PrecTerm,
            infix_fn: Some(ParseFn::Binary),
            prefix_fn: Some(ParseFn::Unary),
        },
        TokenKind::Star | TokenKind::Slash => ParseRule {
            precedence: Precedence::PrecFactor,
            infix_fn: Some(ParseFn::Binary),
            prefix_fn: None,
        },
        TokenKind::Number => ParseRule {
            precedence: Precedence::PrecNone,
            infix_fn: None,
            prefix_fn: Some(ParseFn::Number),
        },
        TokenKind::True | TokenKind::False | TokenKind::Nil => ParseRule {
            precedence: Precedence::PrecNone,
            infix_fn: None,
            prefix_fn: Some(ParseFn::Literal),
        },
        TokenKind::Bang => ParseRule {
            precedence: Precedence::PrecNone,
            infix_fn: None,
            prefix_fn: Some(ParseFn::Unary),
        },
        TokenKind::BangEqual | TokenKind::EqualEqual => ParseRule {
            precedence: Precedence::PrecEquality,
            infix_fn: Some(ParseFn::Binary),
            prefix_fn: None,
        },
        TokenKind::Greater | TokenKind::GreaterEqual | TokenKind::Less | TokenKind::LessEqual =>
            ParseRule {
            precedence: Precedence::PrecComparison,
            infix_fn: Some(ParseFn::Binary),
            prefix_fn: None,
        },
        TokenKind::LeftParen => ParseRule {
            precedence: Precedence::PrecNone,
            infix_fn: None,
            prefix_fn: Some(ParseFn::Grouping),
        },
        TokenKind::Identifier => ParseRule {
            precedence: Precedence::PrecNone,
            infix_fn: None,
            prefix_fn: Some(ParseFn::Variable),
        },
        TokenKind::StringLiteral => ParseRule {
            precedence: Precedence::PrecNone,
            infix_fn: None,
            prefix_fn: Some(ParseFn::StringLiteral),
        },
        _ => ParseRule { precedence: Precedence::PrecNone, infix_fn: None, prefix_fn: None },
    }
}

/// How tightly a token kind binds as an infix operator (`PrecNone` when it is none).
pub open spec fn infix_precedence(kind: TokenKind) -> Precedence {
    rule_of(kind).precedence
}

/// Whether a token kind has an infix parse function.
pub open spec fn has_infix(kind: TokenKind) -> bool {
    rule_of(kind).infix_fn is Some
}

/// Whether a token kind has a prefix parse function, that is, can start an expression.
pub open spec fn has_prefix(kind: TokenKind) -> bool {
    rule_of(kind).prefix_fn is Some
}

/// A token kind continues an expression (binds tighter than `PrecNone`) exactly when it
/// has an infix parse function; the binary operators, `and` and `or` are these kinds, and
/// `EOF` is none of them and starts no expression. So the parser's loop over infix
/// operators only goes on over tokens it can parse, and never past the end of the tokens.
pub proof fn law_infix_operators(kind: TokenKind)
    ensures
        has_infix(kind) <==> infix_precedence(kind).spec_level() > 0,
        has_infix(kind) <==> (is_binary_operator(kind) || kind == TokenKind::And || kind == TokenKind::Or),
        !has_infix(TokenKind::EOF),
        !has_prefix(TokenKind::EOF),
        is_binary_operator(kind) ==> infix_precedence(kind).spec_level() < 10,
{
}

/// The token kinds that a binary operator can have.
pub open spec fn is_binary_operator(kind: TokenKind) -> bool {
    kind == TokenKind::Plus || kind == TokenKind::Minus || kind == TokenKind::Star || kind
        == TokenKind::Slash || kind == TokenKind::BangEqual || kind == TokenKind::EqualEqual
        || kind == TokenKind::Greater || kind == TokenKind::GreaterEqual || kind
        == TokenKind::Less || kind == TokenKind::LessEqual
}

/// All the tokens strictly between indexes `i` and `j` are error tokens.
pub open spec fn errors_between(t: Seq<Token>, i: int, j: int) -> bool {
    forall|k: int| i < k < j ==> #[trigger] kind_of(t, k) == TokenKind::Error
}

/// Every `var` is followed, error tokens aside, by an identifier.
#[verifier::opaque]
pub open spec fn var_names_follow(t: Seq<Token>) -> bool {
    forall|i: int, j: int|
        #[trigger] errors_between(t, i, j) && 0 <= i < j < t.len() && kind_of(t, i) == TokenKind::Var
            && kind_of(t, j) != TokenKind::Error ==> kind_of(t, j) == TokenKind::Identifier
}

/// The kind of the token at index `i`.
pub open spec fn kind_of(t: Seq<Token>, i: int) -> TokenKind {
    t[i].spec_kind()
}

/// The tokens a compiler can work on: a non-empty stream that ends with `EOF`, in which
/// every `var` is followed by the name it declares.
pub open spec fn valid_tokens(t: Seq<Token>) -> bool {
    &&& t.len() > 0
    &&& t.last().spec_kind() == TokenKind::EOF
    &&& var_names_follow(t)
}

/// Among the tokens before index `i`, the last one that is no error token is a `var`.
spec fn var_open(t: Seq<Token>, i: int) -> bool {
    exists|p: int| #![trigger errors_between(t, p, i)] 0 <= p < i && kind_of(t, p) == TokenKind::Var && errors_between(t, p, i)
}

/// Every `var` before index `i` is followed, error tokens aside, by a name before `i`, or
/// by error tokens only up to `i`.
spec fn names_follow_before(t: Seq<Token>, i: int) -> bool {
    forall|p: int, j: int|
        #[trigger] errors_between(t, p, j) && 0 <= p < j < i && kind_of(t, p) == TokenKind::Var
            && kind_of(t, j) != TokenKind::Error ==> kind_of(t, j) == TokenKind::Identifier
}

/// Whether a compiler can work on `tokens`: they end with an `EOF`, and every `var` is
/// followed, error tokens aside, by the name it declares.
pub fn tokens_are_compilable(tokens: &Vec<Token>) -> (b: bool)
    ensures
        b == valid_tokens(tokens@),
{
    let n = tokens.len();
    if n == 0 {
        return false;
    }
    if tokens[n - 1].kind() != TokenKind::EOF {
        return false;
    }
    let ghost t = tokens@;
    let mut pending = false;
    let mut i: usize = 0;
    while i < n
        invariant
            t == tokens@,
            n == t.len(),
            i <= n,
            pending <==> var_open(t, i as int),
            names_follow_before(t, i as int),
        decreases n - i,
    {
        let k = tokens[i].kind();
        let ghost ii = i as int;
        if k != TokenKind::Error {
            if pending && k != TokenKind::Identifier {
                proof {
                    let p = choose|p: int| #![trigger errors_between(t, p, ii)] 0 <= p < ii && kind_of(t, p) == TokenKind::Var && errors_between(t, p, ii);
                    reveal(var_names_follow);
                    assert(errors_between(t, p, ii));
                }
                return false;
            }
            pending = k == TokenKind::Var;
            proof {
                if pending {
                    assert(errors_between(t, ii, ii + 1));
                }
                if var_open(t, ii + 1) {
                    let p = choose|p: int| #![trigger errors_between(t, p, ii + 1)] 0 <= p < ii + 1 && kind_of(t, p) == TokenKind::Var && errors_between(t, p, ii + 1);
                    if p < ii {
                        assert(kind_of(t, ii) == TokenKind::Error);
                    }
                }
                assert forall|p: int, j: int|
                    #[trigger] errors_between(t, p, j) && 0 <= p < j < ii + 1 && kind_of(t, p) == TokenKind::Var
                        && kind_of(t, j) != TokenKind::Error implies kind_of(t, j) == TokenKind::Identifier by {
                    if j == ii {
                        assert(var_open(t, ii));
                    }
                }
            }
        } else {
            proof {
                if var_open(t, ii) {
                    let p = choose|p: int| #![trigger errors_between(t, p, ii)] 0 <= p < ii && kind_of(t, p) == TokenKind::Var && errors_between(t, p, ii);
                    assert(errors_between(t, p, ii + 1));
                }
                if var_open(t, ii + 1) {
                    let p = choose|p: int| #![trigger errors_between(t, p, ii + 1)] 0 <= p < ii + 1 && kind_of(t, p) == TokenKind::Var && errors_between(t, p, ii + 1);
                    assert(p != ii);
                    assert(errors_between(t, p, ii));
                }
            }
        }
        i = i + 1;
    }
    proof {
        reveal(var_names_follow);
        assert(t.last() == t[n - 1]);
    }
    true
}

/// The instructions that a binary operator of kind `kind` is compiled to, after its operands.
pub open spec fn binary_ops(kind: TokenKind) -> Seq<OpCode> {
    match kind {
        TokenKind::Plus => seq![OpCode::OpAdd],
        TokenKind::Minus => seq![OpCode::OpSubtract],
        TokenKind::Star => seq![OpCode::OpMultiply],
        TokenKind::Slash => seq![OpCode::OpDivide],
        TokenKind::BangEqual => seq![OpCode::OpEqual, OpCode::OpNot],
        TokenKind::EqualEqual => seq![OpCode::OpEqual],
        TokenKind::Greater => seq![OpCode::OpGreater],
        TokenKind::GreaterEqual => seq![OpCode::OpLess, OpCode::OpNot],
        TokenKind::Less => seq![OpCode::OpLess],
        TokenKind::LessEqual => seq![OpCode::OpGreater, OpCode::OpNot],
        _ => Seq::empty(),
    }
}

/// The keywords that start a declaration or a statement.
pub open spec fn is_statement_start(k: TokenKind) -> bool {
    k == TokenKind::Class || k == TokenKind::Fun || k == TokenKind::Var || k == TokenKind::For || k
        == TokenKind::If || k == TokenKind::While || k == TokenKind::Print || k == TokenKind::Return
}

/// The name an identifier token carries.
pub open spec fn identifier_name(t: Token) -> String {
    match t.token_type {
        TokenType::Identifier(s) => s,
        _ => vstd::pervasive::arbitrary(),
    }
}

/// A jump whose distance is not patched in yet.
pub open spec fn is_open_jump(op: OpCode) -> bool {
    op == OpCode::OpJump(None) || op == OpCode::OpJumpIfFalse(None)
}

/// No unpatched jump in `code[from..]`.
#[verifier::opaque]
pub open spec fn jumps_patched(code: Seq<OpCode>, from: int) -> bool {
    forall|i: int| from <= i < code.len() ==> !is_open_jump(#[trigger] code[i])
}

/// The operand of the instruction `op` at index `i` of a code of length `len` is sound:
/// constant indexes are in the pool of `n_constants`, local slots are below the limit,
/// forward jumps land inside the code, and loops land at or after `start`.
pub open spec fn operand_ok(op: OpCode, i: int, len: int, n_constants: int, start: int) -> bool {
    match op {
        OpCode::OpConstant(k) => k < n_constants,
        OpCode::OpGetGlobal(k) => k < n_constants,
        OpCode::OpSetGlobal(k) => k < n_constants,
        OpCode::OpDefineGlobal(k) => k < n_constants,
        OpCode::OpGetLocal(k) => k < LOCALS_COUNT,
        OpCode::OpSetLocal(k) => k < LOCALS_COUNT,
        OpCode::OpJump(Some(d)) => i + 1 + d <= len,
        OpCode::OpJumpIfFalse(Some(d)) => i + 1 + d <= len,
        OpCode::OpLoop(o) => 1 <= o && start <= i + 1 - o,
        _ => true,
    }
}

/// Every instruction of `code[start..]` has a sound operand.
#[verifier::opaque]
pub open spec fn code_ok(code: Seq<OpCode>, n_constants: int, start: int) -> bool {
    forall|i: int|
        start <= i < code.len() ==> operand_ok(#[trigger] code[i], i, code.len() as int, n_constants, start)
}

/// In a finished code, from `start` on: every forward jump lands on an instruction of the
/// code, and every loop goes back at least one instruction.
pub open spec fn jumps_land_inside(code: Seq<OpCode>, start: int) -> bool {
    forall|i: int|
        start <= i < code.len() ==> match #[trigger] code[i] {
            OpCode::OpJump(Some(d)) => i + 1 + d < code.len(),
            OpCode::OpJumpIfFalse(Some(d)) => i + 1 + d < code.len(),
            OpCode::OpLoop(o) => 1 <= o,
            _ => true,
        }
}

/// The proof that a sound code followed by a return has its jumps land inside it.
proof fn lemma_code_finished(code: Seq<OpCode>, n: int, start: int)
    requires
        0 <= start,
        code_ok(code, n, start),
    ensures
        jumps_land_inside(code.push(OpCode::OpReturn(0)), start),
{
    reveal(code_ok);
    let c2 = code.push(OpCode::OpReturn(0));
    assert forall|i: int| start <= i < c2.len() implies match #[trigger] c2[i] {
        OpCode::OpJump(Some(d)) => i + 1 + d < c2.len(),
        OpCode::OpJumpIfFalse(Some(d)) => i + 1 + d < c2.len(),
        OpCode::OpLoop(o) => 1 <= o,
        _ => true,
    } by {
        if i < code.len() {
            assert(c2[i] == code[i]);
            assert(operand_ok(code[i], i, code.len() as int, n, start));
        }
    }
}

/// At most `LOCALS_COUNT` locals, each in a scope between 1 and `depth`, innermost last.
#[verifier::opaque]
pub open spec fn locals_ok(ls: Seq<Local>, depth: nat) -> bool {
    &&& ls.len() <= LOCALS_COUNT
    &&& forall|i: int| 0 <= i < ls.len() ==> 1 <= #[trigger] ls[i].depth <= depth
    &&& forall|i: int, j: int| 0 <= i < j < ls.len() ==> #[trigger] ls[i].depth <= #[trigger] ls[j].depth
}

/// `new` extends `old`: the code, lines and constants of `old` are kept as they were.
pub open spec fn chunk_grows(old: Chunk, new: Chunk) -> bool {
    &&& old.code@.len() <= new.code@.len()
    &&& new.code@.subrange(0, old.code@.len() as int) == old.code@
    &&& old.lines@.len() <= new.lines@.len()
    &&& new.lines@.subrange(0, old.lines@.len() as int) == old.lines@
    &&& old.constants@.len() <= new.constants@.len()
    &&& new.constants@.subrange(0, old.constants@.len() as int) == old.constants@
}

/// The diagnostic `e` points at `t` and says `msg`.
pub open spec fn reports(e: CompileError, t: Token, msg: Seq<char>) -> bool {
    e.line == t.line && e.column == t.column && e.message@ == msg
}

/// The messages the compiler reports of its own; an error token is reported with its text.
pub open spec fn compiler_message(m: Seq<char>) -> bool {
    ||| m == "Already a variable with this name in scope."@
    ||| m == "Can't read local variable in its own initializer."@
    ||| m == "Expect '(' after 'for'."@
    ||| m == "Expect '(' after 'if'."@
    ||| m == "Expect '(' after 'while'."@
    ||| m == "Expect ')' after condition."@
    ||| m == "Expect ')' after expression."@
    ||| m == "Expect ')' after for clauses."@
    ||| m == "Expect ';' after loop condition."@
    ||| m == "Expect ';' after variable declaration."@
    ||| m == "Expect '}' after block."@
    ||| m == "Expect variable name."@
    ||| m == "Expected ';' after expression statement."@
    ||| m == "Expected ';' after value."@
    ||| m == "Invalid assignment target."@
    ||| m == "Loop body too large"@
    ||| m == "No infix function parsed."@
    ||| m == "Too many local variables in function."@
    ||| exists|p: Precedence| m == "No prefix function parsed for precedence "@ + #[trigger] p.spec_name() + "."@
}

/// `msg` may be reported at the token at `k`: it is one of the compiler's messages, or the
/// text of that token when it is an error token.
pub open spec fn reportable(t: Seq<Token>, k: int, msg: Seq<char>) -> bool {
    compiler_message(msg) || (kind_of(t, k) == TokenKind::Error && msg == error_text(t[k]))
}

/// The diagnostic `e` points at a token of `t` with a message that may be reported there.
pub open spec fn known_diagnostic(e: CompileError, t: Seq<Token>) -> bool {
    exists|k: int| 0 <= k < t.len() && #[trigger] reports(e, t[k], e.message@) && reportable(t, k, e.message@)
}

/// Every diagnostic of `es` points at a token of `t` with a message that may be reported
/// there.
#[verifier::opaque]
pub open spec fn diagnostics_known(es: Seq<CompileError>, t: Seq<Token>) -> bool {
    forall|i: int| 0 <= i < es.len() ==> known_diagnostic(#[trigger] es[i], t)
}

/// The proof that a diagnostic reported at a token with a message that may be reported
/// there keeps the diagnostics known.
proof fn lemma_known_push(es: Seq<CompileError>, t: Seq<Token>, e: CompileError, k: int)
    requires
        diagnostics_known(es, t),
        0 <= k < t.len(),
        reports(e, t[k], e.message@),
        reportable(t, k, e.message@),
    ensures
        diagnostics_known(es.push(e), t),
{
    reveal(diagnostics_known);
    assert forall|i: int| 0 <= i < es.push(e).len() implies known_diagnostic(#[trigger] es.push(e)[i], t) by {
        if i < es.len() {
            assert(es.push(e)[i] == es[i]);
        }
    }
}

/// What an error token says.
pub open spec fn error_text(t: Token) -> Seq<char> {
    match t.token_type {
        TokenType::Error(m) => m@,
        _ => Seq::empty(),
    }
}

/// The proof that pushing an instruction with a sound operand keeps the code sound.
proof fn lemma_code_ok_push(code: Seq<OpCode>, n: int, n2: int, start: int, op: OpCode)
    requires
        code_ok(code, n, start),
        n <= n2,
        operand_ok(op, code.len() as int, (code.len() + 1) as int, n2, start),
        0 <= start,
    ensures
        code_ok(code.push(op), n2, start),
{
    reveal(code_ok);
    let c2 = code.push(op);
    assert forall|i: int| start <= i < c2.len() implies operand_ok(#[trigger] c2[i], i, c2.len() as int, n2, start) by {
        if i < code.len() {
            assert(c2[i] == code[i]);
            assert(operand_ok(code[i], i, code.len() as int, n, start));
        }
    }
}

/// The proof that a bigger constant pool keeps the code sound.
proof fn lemma_code_ok_constants(code: Seq<OpCode>, n: int, n2: int, start: int)
    requires
        code_ok(code, n, start),
        n <= n2,
        0 <= start,
    ensures
        code_ok(code, n2, start),
{
    reveal(code_ok);
    assert forall|i: int| start <= i < code.len() implies operand_ok(#[trigger] code[i], i, code.len() as int, n2, start) by {
        assert(operand_ok(code[i], i, code.len() as int, n, start));
    }
}

/// The proof that patching a jump at `offset` to land at the end keeps the code sound.
proof fn lemma_code_ok_patch(code: Seq<OpCode>, n: int, start: int, offset: int, op: OpCode)
    requires
        code_ok(code, n, start),
        0 <= start <= offset < code.len(),
        op == OpCode::OpJump(Some((code.len() - offset - 1) as usize)) || op == OpCode::OpJumpIfFalse(
            Some((code.len() - offset - 1) as usize),
        ),
    ensures
        code_ok(code.update(offset, op), n, start),
{
    reveal(code_ok);
    let c2 = code.update(offset, op);
    assert forall|i: int| start <= i < c2.len() implies operand_ok(#[trigger] c2[i], i, c2.len() as int, n, start) by {
        if i != offset {
            assert(c2[i] == code[i]);
            assert(operand_ok(code[i], i, code.len() as int, n, start));
        }
    }
}

/// No unpatched jump in `code[from..]` but maybe at indexes `x` and `y`.
pub open spec fn patched_but(code: Seq<OpCode>, from: int, x: int, y: int) -> bool {
    forall|i: int| from <= i < code.len() && i != x && i != y ==> !is_open_jump(#[trigger] code[i])
}

/// The proof that `patched_but` with no exception is `jumps_patched`.
proof fn lemma_patched_but_none(code: Seq<OpCode>, from: int)
    requires
        0 <= from,
    ensures
        patched_but(code, from, -1, -1) <==> jumps_patched(code, from),
{
    reveal(jumps_patched);
}

/// The proof that extending a code with patched instructions keeps its exceptions.
proof fn lemma_patched_but_extend(c1: Seq<OpCode>, c2: Seq<OpCode>, from: int, x: int, y: int)
    requires
        0 <= from <= c1.len() <= c2.len(),
        patched_but(c1, from, x, y),
        c2.subrange(0, c1.len() as int) == c1,
        jumps_patched(c2, c1.len() as int),
    ensures
        patched_but(c2, from, x, y),
{
    reveal(jumps_patched);
    assert forall|i: int| from <= i < c2.len() && i != x && i != y implies !is_open_jump(#[trigger] c2[i]) by {
        if i < c1.len() {
            assert(c2.subrange(0, c1.len() as int)[i] == c2[i]);
            assert(!is_open_jump(c1[i]));
        }
    }
}

/// The proof that pushing an instruction keeps the exceptions, provided an unpatched
/// jump is pushed only where an exception is.
proof fn lemma_patched_but_push(c: Seq<OpCode>, from: int, x: int, y: int, op: OpCode)
    requires
        0 <= from <= c.len(),
        patched_but(c, from, x, y),
        !is_open_jump(op) || x == c.len() || y == c.len(),
    ensures
        patched_but(c.push(op), from, x, y),
{
    assert forall|i: int| from <= i < c.push(op).len() && i != x && i != y implies !is_open_jump(#[trigger] c.push(op)[i]) by {
        if i < c.len() {
            assert(c.push(op)[i] == c[i]);
        }
    }
}

/// The proof that patching the jump at an exception removes that exception.
proof fn lemma_patched_but_patch(c: Seq<OpCode>, from: int, x: int, y: int, off: int, op: OpCode, x2: int, y2: int)
    requires
        0 <= from,
        0 <= off < c.len(),
        patched_but(c, from, x, y),
        !is_open_jump(op),
        x == x2 || x == off,
        y == y2 || y == off,
    ensures
        patched_but(c.update(off, op), from, x2, y2),
{
    let c2 = c.update(off, op);
    assert forall|i: int| from <= i < c2.len() && i != x2 && i != y2 implies !is_open_jump(#[trigger] c2[i]) by {
        if i != off {
            assert(c2[i] == c[i]);
        }
    }
}

/// The proof that a code with no unpatched jump, extended by instructions with one
/// unpatched jump at most, has that one at most.
proof fn lemma_patched_but_join(c1: Seq<OpCode>, c2: Seq<OpCode>, from: int, x: int)
    requires
        0 <= from <= c1.len() <= c2.len(),
        jumps_patched(c1, from),
        c2.subrange(0, c1.len() as int) == c1,
        patched_but(c2, c1.len() as int, x, -1),
    ensures
        patched_but(c2, from, x, -1),
{
    reveal(jumps_patched);
    assert forall|i: int| from <= i < c2.len() && i != x && i != -1 implies !is_open_jump(#[trigger] c2[i]) by {
        if i < c1.len() {
            assert(c2.subrange(0, c1.len() as int)[i] == c2[i]);
            assert(!is_open_jump(c1[i]));
        }
    }
}

/// The proof that the code of a `for` is laid out as its parts: patching the exit jump
/// right after the condition, then the exit pop and the pops of the scope.
proof fn lemma_for_layout(
    p: Seq<OpCode>,
    ci: Seq<OpCode>,
    cc: Seq<OpCode>,
    incr_part: Seq<OpCode>,
    cb: Seq<OpCode>,
    back: OpCode,
    exit: OpCode,
    tail: Seq<OpCode>,
)
    ensures
        ((p + ci + (cc + seq![OpCode::OpJumpIfFalse(None), OpCode::OpPop]) + incr_part + cb).push(back).update(
            (p.len() + ci.len() + cc.len()) as int,
            exit,
        ).push(OpCode::OpPop) + tail) =~= p + (ci + (cc + seq![exit, OpCode::OpPop]) + incr_part + cb + seq![back]
            + seq![OpCode::OpPop] + tail),
        ((p + ci + Seq::<OpCode>::empty() + incr_part + cb).push(back) + tail) =~= p + (ci + Seq::<OpCode>::empty()
            + incr_part + cb + seq![back] + Seq::<OpCode>::empty() + tail),
{
    let a = (p + ci + (cc + seq![OpCode::OpJumpIfFalse(None), OpCode::OpPop]) + incr_part + cb).push(back);
    let b = p + ci + (cc + seq![exit, OpCode::OpPop]) + incr_part + cb + seq![back];
    assert(a.update((p.len() + ci.len() + cc.len()) as int, exit) =~= b);
}

/// The proof that a `for` statement whose parts are clean, and whose loops jump back at
/// most `u16::MAX` instructions, is clean; `len1`, `len6` and `len14` are the lengths of
/// the code after its initializer, after its condition and after its body.
proof fn lemma_for_clean(
    n: nat,
    ls: Seq<Local>,
    depth: usize,
    init: Option<Box<Decl>>,
    cond: Option<Expr>,
    incr: Option<Expr>,
    body: Stmt,
    l1: Seq<Local>,
    len1: int,
    len6: int,
    len14: int,
)
    requires
        depth < usize::MAX,
        ({
            let inner = (depth + 1) as usize;
            let (ci, ki, l) = match init {
                Some(d) => decl_code(*d, n, ls, inner),
                None => (Seq::empty(), Seq::empty(), ls),
            };
            let n1 = n + ki.len();
            let (cc, kc) = match cond {
                Some(c) => expr_code(c, n1, l1),
                None => (Seq::empty(), Seq::empty()),
            };
            let n2 = n1 + kc.len();
            let (cn, kn) = match incr {
                Some(c) => expr_code(c, n2, l1),
                None => (Seq::empty(), Seq::empty()),
            };
            let (cb, kb) = stmt_code(body, n2 + kn.len(), l1, inner);
            &&& l1 == l
            &&& len6 - len1 == if cond is Some { cc.len() + 2int } else { 0int }
            &&& len14 - len6 == (if incr is Some { cn.len() + 3int } else { 0int }) + cb.len()
            &&& match init {
                Some(d) => decl_clean(*d, n, ls, inner),
                None => true,
            }
            &&& match cond {
                Some(c) => expr_clean(c, l1),
                None => true,
            }
            &&& match incr {
                Some(c) => expr_clean(c, l1) && len6 - len1 + cn.len() + 3 <= u16::MAX,
                None => true,
            }
            &&& stmt_clean(body, n2 + kn.len(), l1, inner)
            &&& len14 - (if incr is Some { len6 + 1 } else { len1 }) + 1 <= u16::MAX
        }),
    ensures
        stmt_clean(Stmt::For(init, cond, incr, Box::new(body)), n, ls, depth),
{
}

/// The proof that the code and the constants a `for` statement writes, part after part,
/// are those of the statement.
#[verifier::spinoff_prover]
#[verifier::rlimit(60)]
proof fn lemma_for_code(
    p: Seq<OpCode>,
    k0: Seq<Value>,
    ls: Seq<Local>,
    depth: usize,
    init: Option<Box<Decl>>,
    cond: Option<Expr>,
    incr: Option<Expr>,
    body: Stmt,
    c1: Seq<OpCode>,
    c6: Seq<OpCode>,
    c13: Seq<OpCode>,
    c14: Seq<OpCode>,
    c18: Seq<OpCode>,
    cf: Seq<OpCode>,
    q1: Seq<Value>,
    q6: Seq<Value>,
    q13: Seq<Value>,
    q14: Seq<Value>,
    l1: Seq<Local>,
    x: int,
)
    requires
        depth < usize::MAX,
        ({
            let (ci, ki, l) = match init {
                Some(d) => decl_code(*d, k0.len(), ls, (depth + 1) as usize),
                None => (Seq::empty(), Seq::empty(), ls),
            };
            c1 == p + ci && q1 == k0 + ki && l1 == l
        }),
        ls.len() <= l1.len(),
        ({
            let (cc, kc) = match cond {
                Some(c) => expr_code(c, q1.len(), l1),
                None => (Seq::empty(), Seq::empty()),
            };
            &&& c6 == c1 + if cond is Some {
                cc + seq![OpCode::OpJumpIfFalse(None), OpCode::OpPop]
            } else {
                Seq::empty()
            }
            &&& q6 == q1 + kc
            &&& cond is Some ==> x == c1.len() + cc.len()
        }),
        ({
            let (cn, kn) = match incr {
                Some(c) => expr_code(c, q6.len(), l1),
                None => (Seq::empty(), Seq::empty()),
            };
            &&& c13 == c6 + if incr is Some {
                seq![OpCode::OpJump(Some((cn.len() + 2) as usize))] + cn + seq![
                    OpCode::OpPop,
                    OpCode::OpLoop((c6.len() - c1.len() + cn.len() + 3) as usize),
                ]
            } else {
                Seq::empty()
            }
            &&& q13 == q6 + kn
        }),
        ({
            let (cb, kb) = stmt_code(body, q13.len(), l1, (depth + 1) as usize);
            c14 == c13 + cb && q14 == q13 + kb
        }),
        ({
            let back_start: int = if incr is Some { c6.len() + 1int } else { c1.len() as int };
            let c15 = c14.push(OpCode::OpLoop((c14.len() - back_start + 1) as usize));
            c18 == if cond is Some {
                c15.update(x, OpCode::OpJumpIfFalse(Some((c15.len() - x - 1) as usize))).push(OpCode::OpPop)
            } else {
                c15
            }
        }),
        cf == c18 + pops((l1.len() - ls.len()) as nat),
    ensures
        ({
            let (c, k) = stmt_code(Stmt::For(init, cond, incr, Box::new(body)), k0.len(), ls, depth);
            cf == p + c && q14 == k0 + k
        }),
{
    let inner = (depth + 1) as usize;
    let n = k0.len();
    let (ci, ki, l) = match init {
        Some(d) => decl_code(*d, n, ls, inner),
        None => (Seq::empty(), Seq::empty(), ls),
    };
    let n1 = n + ki.len();
    let (cc, kc) = match cond {
        Some(c) => expr_code(c, n1, l1),
        None => (Seq::empty(), Seq::empty()),
    };
    let n2 = n1 + kc.len();
    let (cn, kn) = match incr {
        Some(c) => expr_code(c, n2, l1),
        None => (Seq::empty(), Seq::empty()),
    };
    let (cb, kb) = stmt_code(body, n2 + kn.len(), l1, inner);
    let incr_part: Seq<OpCode> = match incr {
        Some(_) => seq![OpCode::OpJump(Some((cn.len() + 2) as usize))] + cn + seq![
            OpCode::OpPop,
            OpCode::OpLoop((c6.len() - c1.len() + cn.len() + 3) as usize),
        ],
        None => Seq::empty(),
    };
    let back_start: int = if incr is Some { c6.len() + 1int } else { c1.len() as int };
    let back = OpCode::OpLoop((c14.len() - back_start + 1) as usize);
    let tail = pops((l1.len() - ls.len()) as nat);
    if cond is Some {
        let c15 = c14.push(back);
        let exit = OpCode::OpJumpIfFalse(Some((c15.len() - x - 1) as usize));
        assert(c14 =~= p + ci + (cc + seq![OpCode::OpJumpIfFalse(None), OpCode::OpPop]) + incr_part + cb);
        lemma_for_layout(p, ci, cc, incr_part, cb, back, exit, tail);
    } else {
        assert(c14 =~= p + ci + Seq::<OpCode>::empty() + incr_part + cb);
        lemma_for_layout(p, ci, cc, incr_part, cb, back, back, tail);
    }
    assert(q14 =~= k0 + (ki + kc + kn + kb));
}

/// The proof that a `for` statement whose parts are clean, and whose jumps fit in their
/// operands, is clean.
proof fn lemma_for_code_clean(
    p: Seq<OpCode>,
    k0: Seq<Value>,
    ls: Seq<Local>,
    depth: usize,
    init: Option<Box<Decl>>,
    cond: Option<Expr>,
    incr: Option<Expr>,
    body: Stmt,
    c1: Seq<OpCode>,
    c6: Seq<OpCode>,
    c13: Seq<OpCode>,
    c14: Seq<OpCode>,
    q1: Seq<Value>,
    q6: Seq<Value>,
    q13: Seq<Value>,
    q14: Seq<Value>,
    l1: Seq<Local>,
    x: int,
)
    requires
        depth < usize::MAX,
        ({
            let (ci, ki, l) = match init {
                Some(d) => decl_code(*d, k0.len(), ls, (depth + 1) as usize),
                None => (Seq::empty(), Seq::empty(), ls),
            };
            c1 == p + ci && q1 == k0 + ki && l1 == l
        }),
        ls.len() <= l1.len(),
        ({
            let (cc, kc) = match cond {
                Some(c) => expr_code(c, q1.len(), l1),
                None => (Seq::empty(), Seq::empty()),
            };
            &&& c6 == c1 + if cond is Some {
                cc + seq![OpCode::OpJumpIfFalse(None), OpCode::OpPop]
            } else {
                Seq::empty()
            }
            &&& q6 == q1 + kc
            &&& cond is Some ==> x == c1.len() + cc.len()
        }),
        ({
            let (cn, kn) = match incr {
                Some(c) => expr_code(c, q6.len(), l1),
                None => (Seq::empty(), Seq::empty()),
            };
            &&& c13 == c6 + if incr is Some {
                seq![OpCode::OpJump(Some((cn.len() + 2) as usize))] + cn + seq![
                    OpCode::OpPop,
                    OpCode::OpLoop((c6.len() - c1.len() + cn.len() + 3) as usize),
                ]
            } else {
                Seq::empty()
            }
            &&& q13 == q6 + kn
        }),
        ({
            let (cb, kb) = stmt_code(body, q13.len(), l1, (depth + 1) as usize);
            c14 == c13 + cb && q14 == q13 + kb
        }),
        ({
            &&& match init {
                Some(d) => decl_clean(*d, k0.len(), ls, (depth + 1) as usize),
                None => true,
            }
            &&& match cond {
                Some(c) => expr_clean(c, l1),
                None => true,
            }
            &&& match incr {
                Some(c) => expr_clean(c, l1) && c6.len() - c1.len() + expr_code(c, q6.len(), l1).0.len() + 3
                    <= u16::MAX,
                None => true,
            }
            &&& stmt_clean(body, q13.len(), l1, (depth + 1) as usize)
            &&& c14.len() - (if incr is Some { c6.len() + 1int } else { c1.len() as int }) + 1 <= u16::MAX
        }),
    ensures
        stmt_clean(Stmt::For(init, cond, incr, Box::new(body)), k0.len(), ls, depth),
{
    lemma_for_clean(k0.len(), ls, depth, init, cond, incr, body, l1, c1.len() as int, c6.len() as int, c14.len() as int);
}

/// The proof that a code extended by patched instructions has no unpatched jump where
/// it had none.
proof fn lemma_patched_extend(c1: Seq<OpCode>, c2: Seq<OpCode>, a: int)
    requires
        0 <= a <= c1.len() <= c2.len(),
        jumps_patched(c1, a),
        c2.subrange(0, c1.len() as int) == c1,
        jumps_patched(c2, c1.len() as int),
    ensures
        jumps_patched(c2, a),
{
    reveal(jumps_patched);
    assert forall|i: int| a <= i < c2.len() implies !is_open_jump(#[trigger] c2[i]) by {
        if i < c1.len() {
            assert(c2.subrange(0, c1.len() as int)[i] == c2[i]);
            assert(!is_open_jump(c1[i]));
        }
    }
}

/// The proof that an empty stretch of code has no unpatched jump, and that pushing an
/// instruction that is no unpatched jump keeps it so.
proof fn lemma_patched_push(c: Seq<OpCode>, a: int, op: OpCode)
    requires
        0 <= a <= c.len(),
        jumps_patched(c, a),
        !is_open_jump(op),
    ensures
        jumps_patched(c.push(op), a),
        jumps_patched(c, c.len() as int),
        jumps_patched(c.push(op), c.len() as int),
{
    reveal(jumps_patched);
    assert forall|i: int| a <= i < c.push(op).len() implies !is_open_jump(#[trigger] c.push(op)[i]) by {
        if i < c.len() {
            assert(c.push(op)[i] == c[i]);
        }
    }
}

/// The proof that no stretch of code is empty of patched jumps but the empty one.
proof fn lemma_patched_empty(c: Seq<OpCode>)
    ensures
        jumps_patched(c, c.len() as int),
{
    reveal(jumps_patched);
}

/// The proof that a prefix expression starts with a token that has a prefix rule.
proof fn lemma_prefix_rule(t: Seq<Token>, i: int, j: int, can_assign: bool, e: Expr)
    requires
        prefix_parses(t, i, j, can_assign, e),
    ensures
        rule_of(kind_of(t, i)).prefix_fn is Some,
        kind_of(t, i) != TokenKind::EOF,
{
}

/// The proof that the first token after a `var` that is no error token is its name.
proof fn lemma_name_follows(t: Seq<Token>, p: int, c: int)
    requires
        var_names_follow(t),
        0 <= p < c < t.len(),
        kind_of(t, p) == TokenKind::Var,
        kind_of(t, c) != TokenKind::Error,
        forall|k: int| p < k < c ==> #[trigger] kind_of(t, k) == TokenKind::Error,
    ensures
        kind_of(t, c) == TokenKind::Identifier,
{
    reveal(var_names_follow);
    assert(errors_between(t, p, c));
}

/// The proof that a name resolves to one result only, and that a local slot is below the
/// number of locals.
proof fn lemma_resolves_unique(ls: Seq<Local>, name: Seq<char>, r: (bool, Option<usize>))
    requires
        resolves_to(ls, name, r),
    ensures
        forall|r2: (bool, Option<usize>)| #[trigger] resolves_to(ls, name, r2) ==> r2 == r,
        r.1 is Some ==> r.1->0 < ls.len(),
{
    assert forall|r2: (bool, Option<usize>)| #[trigger] resolves_to(ls, name, r2) implies r2 == r by {
        match (r.1, r2.1) {
            (Some(i), Some(j)) => {
                if i < j {
                    assert(ls[j as int].name@ == name);
                } else if j < i {
                    assert(ls[i as int].name@ == name);
                }
            },
            (Some(i), None) => {
                assert(ls[i as int].name@ == name);
            },
            (None, Some(j)) => {
                assert(ls[j as int].name@ == name);
            },
            (None, None) => {},
        }
    }
}

impl Compiler {
    /// The chunk being written.
    pub closed spec fn chunk_view(&self) -> Chunk {
        self.chunk
    }

    /// The tokens being compiled.
    pub closed spec fn token_seq(&self) -> Seq<Token> {
        self.tokens@
    }

    /// The diagnostics reported so far.
    pub closed spec fn error_seq(&self) -> Seq<CompileError> {
        self.errors@
    }

    /// The locals in scope.
    pub closed spec fn local_seq(&self) -> Seq<Local> {
        self.locals@
    }

    /// The depth of the current scope (0 for globals).
    pub closed spec fn depth(&self) -> nat {
        self.scope_depth as nat
    }

    /// Whether an error has been reported.
    pub closed spec fn error_flag(&self) -> bool {
        self.had_error
    }

    /// Whether the compiler is recovering from an error and keeps further ones silent.
    pub closed spec fn panicking(&self) -> bool {
        self.panic_mode
    }

    /// The index of the next token to read.
    pub closed spec fn position(&self) -> nat {
        self.pos as nat
    }

    /// The index of the token consumed last.
    pub closed spec fn previous_index(&self) -> Option<usize> {
        self.previous
    }

    /// The index of the token being looked at.
    pub closed spec fn current_index(&self) -> Option<usize> {
        self.current
    }

    /// Where the code written by this compiler starts in its chunk.
    pub closed spec fn code_start(&self) -> nat {
        self.start@
    }

    /// The tokens left to read.
    closed spec fn remaining(&self) -> nat {
        (self.tokens@.len() - self.pos) as nat
    }

    /// The line of the token consumed last.
    closed spec fn prev_line(&self) -> usize {
        self.tokens@[self.previous->0 as int].line
    }

    /// The compiler's state is consistent: the token cursor, the error flags, the chunk
    /// and the locals.
    pub closed spec fn inv(&self) -> bool {
        &&& valid_tokens(self.tokens@)
        &&& self.pos <= self.tokens@.len()
        &&& match self.current {
            None => self.pos == 0 && self.previous is None,
            Some(c) => c + 1 == self.pos && kind_of(self.tokens@, c as int) != TokenKind::Error,
        }
        &&& match self.previous {
            None => true,
            Some(p) => {
                &&& self.current is Some
                &&& p <= self.current->0
                &&& kind_of(self.tokens@, p as int) != TokenKind::Error
                &&& (p == self.current->0 ==> p + 1 == self.tokens@.len())
                &&& forall|k: int| p < k < self.current->0 ==> #[trigger] kind_of(self.tokens@, k) == TokenKind::Error
            },
        }
        &&& (self.panic_mode ==> self.had_error)
        &&& (self.had_error <==> self.errors@.len() > 0)
        &&& diagnostics_known(self.errors@, self.tokens@)
        &&& self.chunk.wf()
        &&& self.start@ <= self.chunk.code@.len()
        &&& code_ok(self.chunk.code@, self.chunk.constants@.len() as int, self.start@ as int)
        &&& locals_ok(self.locals@, self.scope_depth as nat)
        &&& self.scope_depth <= self.pos
    }

    /// `new` is `self` after some work: same tokens, cursor not moved back, chunk and
    /// diagnostics extended, error flag not cleared, same scope.
    closed spec fn frame(&self, new: Self) -> bool {
        &&& new.tokens@ == self.tokens@
        &&& new.start == self.start
        &&& self.pos <= new.pos
        &&& chunk_grows(self.chunk, new.chunk)
        &&& self.errors@.len() <= new.errors@.len()
        &&& new.errors@.subrange(0, self.errors@.len() as int) == self.errors@
        &&& (self.had_error ==> new.had_error)
        &&& (new.panic_mode ==> self.panic_mode || self.errors@.len() < new.errors@.len())
    }

    /// No error was reported from `self` to `new`, and `self` was not panicking: the
    /// tokens read in between were read as the grammar has them.
    closed spec fn quiet(&self, new: Self) -> bool {
        &&& !self.panic_mode
        &&& new.errors@.len() == self.errors@.len()
    }

    /// Compiling from `self` may run without error: the compiler is not recovering from an
    /// error, and no token is an error token.
    closed spec fn clean_start(&self) -> bool {
        &&& !self.panic_mode
        &&& no_error_tokens(self.tokens@)
    }

    /// From `self` to `new` no error was reported, and the token at `j` is in view.
    closed spec fn ran_clean(&self, new: Self, j: int) -> bool {
        &&& self.quiet(new)
        &&& new.current is Some
        &&& new.current->0 == j
    }

    /// Every clean statement read from the current token of `self` is compiled from
    /// `self` to `new` without error, up to its end, and is `s`.
    #[verifier::opaque]
    closed spec fn stmt_owed(&self, new: Self, s: Stmt) -> bool {
        forall|j: int, x: Stmt|
            #[trigger] stmt_parses(self.tokens@, self.current->0 as int, j, x) && self.clean_start() && stmt_clean(
                x,
                self.chunk.constants@.len(),
                self.locals@,
                self.scope_depth,
            ) ==> self.ran_clean(new, j) && s == x
    }

    /// Every clean initializer clause of a `for` read from the current token of `self` is
    /// compiled from `self` to `new` without error, up to its end, and is `init`.
    #[verifier::opaque]
    closed spec fn init_owed(&self, new: Self, init: Option<Box<Decl>>) -> bool {
        forall|k1: int, y: Option<Box<Decl>>|
            #[trigger] for_init_parses(self.tokens@, self.current->0 as int, k1, y) && self.clean_start() && match y {
                Some(d) => decl_clean(*d, self.chunk.constants@.len(), self.locals@, self.scope_depth),
                None => true,
            } ==> self.ran_clean(new, k1) && init == y
    }

    /// Every clean condition clause of a `for` read from the current token of `self` is
    /// compiled from `self` to `new` without error, up to its end, and is `cond`.
    #[verifier::opaque]
    closed spec fn cond_owed(&self, new: Self, cond: Option<Expr>) -> bool {
        forall|k2: int, y: Option<Expr>|
            #[trigger] for_cond_parses(self.tokens@, self.current->0 as int, k2, y) && self.clean_start() && match y {
                Some(c) => expr_clean(c, self.locals@),
                None => true,
            } ==> self.ran_clean(new, k2) && cond == y
    }

    /// Every clean increment clause of a `for` read from the current token of `self`, whose
    /// loop back to `loop_start` is not too long, is compiled from `self` to `new` without
    /// error, up to its end, and is `incr`.
    #[verifier::opaque]
    closed spec fn incr_owed(&self, new: Self, loop_start: int, incr: Option<Expr>) -> bool {
        forall|k3: int, y: Option<Expr>|
            #[trigger] for_incr_parses(self.tokens@, self.current->0 as int, k3, y) && self.clean_start() && match y {
                Some(c) => expr_clean(c, self.locals@) && self.chunk.code@.len() - loop_start + expr_code(
                    c,
                    self.chunk.constants@.len(),
                    self.locals@,
                ).0.len() + 3 <= u16::MAX,
                None => true,
            } ==> self.ran_clean(new, k3) && incr == y
    }

    /// `new` follows from `self` by compiling: the frame is kept, every jump written since
    /// is patched, and the state is consistent with a token consumed and one in view.
    closed spec fn step(&self, new: Self) -> bool {
        &&& self.grows(new)
        &&& jumps_patched(new.chunk.code@, self.chunk.code@.len() as int)
    }

    /// `new` follows from `self` by compiling, maybe with jumps still to be patched.
    closed spec fn grows(&self, new: Self) -> bool {
        &&& self.frame(new)
        &&& new.inv()
        &&& new.current is Some
        &&& new.previous is Some
    }

    /// `new` differs from `self` at most in its chunk.
    closed spec fn same_but_chunk(&self, new: Self) -> bool {
        &&& new.tokens@ == self.tokens@
        &&& new.start == self.start
        &&& new.pos == self.pos
        &&& new.previous == self.previous
        &&& new.current == self.current
        &&& new.had_error == self.had_error
        &&& new.panic_mode == self.panic_mode
        &&& new.locals@ == self.locals@
        &&& new.scope_depth == self.scope_depth
        &&& new.errors@ == self.errors@
    }

    /// `new` differs from `self` at most in its diagnostics and error flags.
    closed spec fn same_but_errors(&self, new: Self) -> bool {
        &&& new.tokens@ == self.tokens@
        &&& new.start == self.start
        &&& new.pos == self.pos
        &&& new.previous == self.previous
        &&& new.current == self.current
        &&& new.chunk == self.chunk
        &&& new.locals@ == self.locals@
        &&& new.scope_depth == self.scope_depth
    }

    /// `m` parts the locals of `self`: those before it belong to enclosing scopes, those
    /// from it on to the current one.
    closed spec fn scope_split(&self, m: int) -> bool {
        &&& 0 <= m <= self.locals@.len()
        &&& forall|i: int| 0 <= i < m ==> #[trigger] self.locals@[i].depth < self.scope_depth
        &&& forall|i: int| m <= i < self.locals@.len() ==> #[trigger] self.locals@[i].depth == self.scope_depth
    }

    /// From `self` to `new`, in the same scope, the locals of the enclosing scopes are kept
    /// and those after them belong to the current scope. Only when the enclosing locals take
    /// every slot may the last of them be marked as one of the current scope: a declaration
    /// refused for want of room marks the last local as initialized in its scope.
    closed spec fn keeps_outer(&self, new: Self) -> bool {
        &&& new.scope_depth == self.scope_depth
        &&& forall|m: int| #[trigger] self.scope_split(m) ==> {
            let k = if m < LOCALS_COUNT { m } else { m - 1 };
            &&& k <= new.locals@.len()
            &&& new.locals@.subrange(0, k) == self.locals@.subrange(0, k)
            &&& forall|i: int|
                k <= i < new.locals@.len() ==> #[trigger] new.locals@[i].depth == self.scope_depth || (i < m
                    && new.locals@[i] == self.locals@[i])
        }
    }

    /// From `self` to `new` the scope and its locals are the same; only when every slot was
    /// taken may the last local be gone, marked by a declaration refused in an inner scope
    /// as a local of that scope, and removed with it.
    closed spec fn keeps_locals(&self, new: Self) -> bool {
        &&& new.scope_depth == self.scope_depth
        &&& {
            ||| new.locals@ == self.locals@
            ||| self.locals@.len() == LOCALS_COUNT && new.locals@ == self.locals@.drop_last()
        }
    }

    /// The proof that the locals of enclosing scopes are kept where the locals are.
    proof fn lemma_keeps_outer_same(a: Self, b: Self)
        requires
            b.locals@ == a.locals@,
            b.scope_depth == a.scope_depth,
        ensures
            a.keeps_outer(b),
    {
        assert forall|m: int| #[trigger] a.scope_split(m) implies {
            let k = if m < LOCALS_COUNT { m } else { m - 1 };
            &&& k <= b.locals@.len()
            &&& b.locals@.subrange(0, k) == a.locals@.subrange(0, k)
            &&& forall|i: int|
                k <= i < b.locals@.len() ==> #[trigger] b.locals@[i].depth == a.scope_depth || (i < m
                    && b.locals@[i] == a.locals@[i])
        } by {
            let k = if m < LOCALS_COUNT { m } else { m - 1 };
            assert forall|i: int| k <= i < b.locals@.len() implies #[trigger] b.locals@[i].depth == a.scope_depth || (i
                < m && b.locals@[i] == a.locals@[i]) by {
                if i >= m {
                    assert(a.locals@[i].depth == a.scope_depth);
                }
            }
        }
    }

    /// The proof that keeping the locals of enclosing scopes composes.
    proof fn lemma_keeps_outer_trans(a: Self, b: Self, c: Self)
        requires
            a.inv(),
            b.inv(),
            a.keeps_outer(b),
            b.keeps_outer(c),
        ensures
            a.keeps_outer(c),
    {
        reveal(locals_ok);
        let d = a.scope_depth;
        assert forall|m: int| #[trigger] a.scope_split(m) implies {
            let k = if m < LOCALS_COUNT { m } else { m - 1 };
            &&& k <= c.locals@.len()
            &&& c.locals@.subrange(0, k) == a.locals@.subrange(0, k)
            &&& forall|i: int|
                k <= i < c.locals@.len() ==> #[trigger] c.locals@[i].depth == d || (i < m && c.locals@[i]
                    == a.locals@[i])
        } by {
            let k = if m < LOCALS_COUNT { m } else { m - 1 };
            assert(k <= b.locals@.len());
            assert(b.locals@.subrange(0, k) == a.locals@.subrange(0, k));
            assert forall|i: int| 0 <= i < k implies #[trigger] b.locals@[i] == a.locals@[i] by {
                assert(b.locals@.subrange(0, k)[i] == a.locals@.subrange(0, k)[i]);
            }
            if k < m && k < b.locals@.len() && b.locals@[k] == a.locals@[k] {
                // all the slots were taken, and the last enclosing local is still there
                assert(b.locals@.len() == m);
                assert(b.locals@ =~= a.locals@);
                assert(b.scope_split(m));
            } else {
                assert(b.scope_split(k));
                let k2 = if k < LOCALS_COUNT { k } else { k - 1 };
                assert(k2 == k);
                assert(c.locals@.subrange(0, k) =~= a.locals@.subrange(0, k)) by {
                    assert forall|i: int| 0 <= i < k implies #[trigger] c.locals@.subrange(0, k)[i] == a.locals@.subrange(
                        0,
                        k,
                    )[i] by {
                        assert(c.locals@.subrange(0, k)[i] == b.locals@.subrange(0, k)[i]);
                    }
                }
            }
        }
    }

    /// The proof that keeping the locals keeps those of the enclosing scopes.
    proof fn lemma_keeps_locals_outer(a: Self, b: Self)
        requires
            a.inv(),
            a.keeps_locals(b),
        ensures
            a.keeps_outer(b),
    {
        reveal(locals_ok);
        if b.locals@ == a.locals@ {
            Self::lemma_keeps_outer_same(a, b);
        } else {
            assert forall|m: int| #[trigger] a.scope_split(m) implies {
                let k = if m < LOCALS_COUNT { m } else { m - 1 };
                &&& k <= b.locals@.len()
                &&& b.locals@.subrange(0, k) == a.locals@.subrange(0, k)
                &&& forall|i: int|
                    k <= i < b.locals@.len() ==> #[trigger] b.locals@[i].depth == a.scope_depth || (i < m
                        && b.locals@[i] == a.locals@[i])
            } by {
                let k = if m < LOCALS_COUNT { m } else { m - 1 };
                assert(b.locals@.subrange(0, k) =~= a.locals@.subrange(0, k));
                assert forall|i: int| k <= i < b.locals@.len() implies #[trigger] b.locals@[i].depth == a.scope_depth
                    || (i < m && b.locals@[i] == a.locals@[i]) by {
                    assert(b.locals@[i] == a.locals@[i]);
                    if i >= m {
                        assert(a.locals@[i].depth == a.scope_depth);
                    }
                }
            }
        }
    }

    /// The proof that keeping the locals composes.
    proof fn lemma_keeps_locals_trans(a: Self, b: Self, c: Self)
        requires
            a.keeps_locals(b),
            b.keeps_locals(c),
        ensures
            a.keeps_locals(c),
    {
        if b.locals@ != a.locals@ {
            assert(b.locals@.len() == LOCALS_COUNT - 1);
        }
    }

    /// The proof that declaring a variable in a scope, and marking the last local as
    /// initialized there, keeps the locals of the enclosing scopes.
    proof fn lemma_declared_keeps(s0: Self, s1: Self, f: Self, name: String)
        requires
            s0.inv(),
            s0.scope_depth > 0,
            f.scope_depth == s0.scope_depth,
            if doubly_declared(s0.locals@, name@, s0.scope_depth as nat) || s0.locals@.len() == LOCALS_COUNT {
                s1.locals@ == s0.locals@
            } else {
                s1.locals@ == s0.locals@.push(Local { name: name, depth: s0.scope_depth, initialized: false })
            },
            f.locals@ == if s1.locals@.len() == 0 {
                s1.locals@
            } else {
                s1.locals@.update(
                    s1.locals@.len() - 1,
                    Local { name: s1.locals@.last().name, depth: s0.scope_depth, initialized: true },
                )
            },
        ensures
            s0.keeps_outer(f),
    {
        reveal(locals_ok);
        let ls = s0.locals@;
        let d = s0.scope_depth;
        let refused = doubly_declared(ls, name@, d as nat) || ls.len() == LOCALS_COUNT;
        assert forall|m: int| #[trigger] s0.scope_split(m) implies {
            let k = if m < LOCALS_COUNT { m } else { m - 1 };
            &&& k <= f.locals@.len()
            &&& f.locals@.subrange(0, k) == ls.subrange(0, k)
            &&& forall|i: int|
                k <= i < f.locals@.len() ==> #[trigger] f.locals@[i].depth == d || (i < m && f.locals@[i] == ls[i])
        } by {
            let k = if m < LOCALS_COUNT { m } else { m - 1 };
            if refused && ls.len() > 0 {
                let last = ls.len() - 1;
                if doubly_declared(ls, name@, d as nat) {
                    let j = choose|j: int|
                        0 <= j < ls.len() && #[trigger] ls[j].name@ == name@ && (forall|q: int|
                            j <= q < ls.len() ==> #[trigger] ls[q].depth >= d);
                    assert(ls[last].depth >= d);
                    assert(last >= m);
                }
                assert(last >= k);
                assert(f.locals@.subrange(0, k) =~= ls.subrange(0, k));
                assert forall|i: int| k <= i < f.locals@.len() implies #[trigger] f.locals@[i].depth == d || (i < m
                    && f.locals@[i] == ls[i]) by {
                    if i != last && i >= m {
                        assert(ls[i].depth == d);
                    }
                }
            } else if refused {
                assert(f.locals@ =~= ls);
            } else {
                assert(f.locals@.subrange(0, k) =~= ls.subrange(0, k));
                assert forall|i: int| k <= i < f.locals@.len() implies #[trigger] f.locals@[i].depth == d || (i < m
                    && f.locals@[i] == ls[i]) by {
                    if i < ls.len() {
                        assert(f.locals@[i] == ls[i]);
                        assert(ls[i].depth == d);
                    }
                }
            }
        }
    }

    /// The proof that a scope opened on `s`, whose body kept the locals of the enclosing
    /// scopes, gives back the locals of `s` when it is closed, but for the last one when
    /// every slot was taken.
    proof fn lemma_scope_closes(s: Self, s2: Self, s3: Self, s4: Self)
        requires
            s.inv(),
            s3.inv(),
            s2.locals@ == s.locals@,
            s2.scope_depth == s.scope_depth + 1,
            s2.keeps_outer(s3),
            s4.scope_depth == s3.scope_depth - 1,
            s4.locals@.len() <= s3.locals@.len(),
            s4.locals@ == s3.locals@.subrange(0, s4.locals@.len() as int),
            forall|i: int|
                s4.locals@.len() <= i < s3.locals@.len() ==> #[trigger] s3.locals@[i].depth == s3.scope_depth,
            forall|i: int| 0 <= i < s4.locals@.len() ==> #[trigger] s4.locals@[i].depth < s3.scope_depth,
        ensures
            s.keeps_locals(s4),
    {
        reveal(locals_ok);
        let ls = s.locals@;
        let m = ls.len() as int;
        assert(s2.scope_split(m));
        let k = if m < LOCALS_COUNT { m } else { m - 1 };
        assert forall|i: int| 0 <= i < k implies #[trigger] s3.locals@[i] == ls[i] by {
            assert(s3.locals@.subrange(0, k)[i] == ls.subrange(0, k)[i]);
        }
        let n4 = s4.locals@.len() as int;
        if n4 < k {
            assert(s3.locals@[n4] == ls[n4]);
            assert(s3.locals@[n4].depth == s3.scope_depth);
        }
        if n4 > k {
            assert(s4.locals@[k] == s3.locals@[k]);
            assert(s4.locals@[k].depth < s3.scope_depth);
            assert(s3.locals@[k] == ls[k]);
            assert(s4.locals@ =~= ls);
        } else {
            assert(n4 == k);
            if m < LOCALS_COUNT {
                assert(s4.locals@ =~= ls);
            } else {
                assert(s4.locals@ =~= ls.drop_last());
            }
        }
    }

    /// `new` is `self` after reporting `msg` at the token at index `at`: nothing happens
    /// while panicking; otherwise the compiler starts panicking, the error flag is set
    /// and the diagnostic is added.
    closed spec fn reported(&self, new: Self, at: int, msg: Seq<char>) -> bool {
        if self.panic_mode {
            &&& new.errors@ == self.errors@
            &&& new.panic_mode == self.panic_mode
            &&& new.had_error == self.had_error
        } else {
            &&& new.panic_mode
            &&& new.had_error
            &&& new.errors@.len() == self.errors@.len() + 1
            &&& new.errors@.subrange(0, self.errors@.len() as int) == self.errors@
            &&& reports(new.errors@.last(), self.tokens@[at], msg)
        }
    }

    /// While `self` is panicking nothing is reported on the way to `new`: it still panics,
    /// with the same diagnostics and error flag.
    closed spec fn silent(&self, new: Self) -> bool {
        self.panic_mode ==> {
            &&& new.panic_mode
            &&& new.errors@ == self.errors@
            &&& new.had_error == self.had_error
        }
    }

    /// `new` is `self` after one `advance`: the current token becomes the previous one,
    /// and the next token that is no error token becomes current; the first error token
    /// skipped on the way is reported. At the end of the tokens nothing moves.
    closed spec fn advanced(&self, new: Self) -> bool {
        &&& self.same_but_cursor(new)
        &&& new.previous == self.current
        &&& if self.pos == self.tokens@.len() {
            &&& new.pos == self.pos
            &&& new.current == self.current
            &&& new.errors@ == self.errors@
            &&& new.panic_mode == self.panic_mode
            &&& new.had_error == self.had_error
        } else {
            &&& self.pos < new.pos <= self.tokens@.len()
            &&& new.current == Some((new.pos - 1) as usize)
            &&& kind_of(self.tokens@, new.pos - 1) != TokenKind::Error
            &&& forall|k: int| self.pos <= k < new.pos - 1 ==> #[trigger] kind_of(self.tokens@, k) == TokenKind::Error
            &&& if new.pos - 1 > self.pos {
                self.reported(new, self.pos as int, error_text(self.tokens@[self.pos as int]))
            } else {
                &&& new.errors@ == self.errors@
                &&& new.panic_mode == self.panic_mode
                &&& new.had_error == self.had_error
            }
        }
    }

    /// `new` differs from `self` at most in its token cursor and diagnostics.
    closed spec fn same_but_cursor(&self, new: Self) -> bool {
        &&& new.tokens@ == self.tokens@
        &&& new.start == self.start
        &&& new.chunk == self.chunk
        &&& new.locals@ == self.locals@
        &&& new.scope_depth == self.scope_depth
    }

    /// The proof that compiling steps compose.
    proof fn lemma_grows_trans(a: Self, b: Self, c: Self)
        requires
            a.grows(b),
            b.grows(c),
        ensures
            a.grows(c),
    {
        Self::lemma_frame_trans(a, b, c);
    }

    /// The proof that frames compose.
    proof fn lemma_frame_trans(a: Self, b: Self, c: Self)
        requires
            a.frame(b),
            b.frame(c),
        ensures
            a.frame(c),
    {
        let al = a.chunk.code@.len() as int;
        let bl = b.chunk.code@.len() as int;
        assert(c.chunk.code@.subrange(0, al) =~= a.chunk.code@) by {
            assert forall|i: int| 0 <= i < al implies c.chunk.code@.subrange(0, al)[i] == a.chunk.code@[i] by {
                assert(c.chunk.code@.subrange(0, bl)[i] == b.chunk.code@[i]);
                assert(b.chunk.code@.subrange(0, al)[i] == a.chunk.code@[i]);
            }
        }
        let all = a.chunk.lines@.len() as int;
        let bll = b.chunk.lines@.len() as int;
        assert(c.chunk.lines@.subrange(0, all) =~= a.chunk.lines@) by {
            assert forall|i: int| 0 <= i < all implies c.chunk.lines@.subrange(0, all)[i] == a.chunk.lines@[i] by {
                assert(c.chunk.lines@.subrange(0, bll)[i] == b.chunk.lines@[i]);
                assert(b.chunk.lines@.subrange(0, all)[i] == a.chunk.lines@[i]);
            }
        }
        let acl = a.chunk.constants@.len() as int;
        let bcl = b.chunk.constants@.len() as int;
        assert(c.chunk.constants@.subrange(0, acl) =~= a.chunk.constants@) by {
            assert forall|i: int| 0 <= i < acl implies c.chunk.constants@.subrange(0, acl)[i] == a.chunk.constants@[i] by {
                assert(c.chunk.constants@.subrange(0, bcl)[i] == b.chunk.constants@[i]);
                assert(b.chunk.constants@.subrange(0, acl)[i] == a.chunk.constants@[i]);
            }
        }
        let ael = a.errors@.len() as int;
        let bel = b.errors@.len() as int;
        assert(c.errors@.subrange(0, ael) =~= a.errors@) by {
            assert forall|i: int| 0 <= i < ael implies c.errors@.subrange(0, ael)[i] == a.errors@[i] by {
                assert(c.errors@.subrange(0, bel)[i] == b.errors@[i]);
                assert(b.errors@.subrange(0, ael)[i] == a.errors@[i]);
            }
        }
    }

    /// The proof that compiling steps with all their jumps patched compose.
    proof fn lemma_step_trans(a: Self, b: Self, c: Self)
        requires
            a.step(b),
            b.step(c),
        ensures
            a.step(c),
    {
        Self::lemma_grows_trans(a, b, c);
        lemma_patched_extend(b.chunk.code@, c.chunk.code@, a.chunk.code@.len() as int);
    }

    /// The proof that patching a jump written after `a` keeps `c` a growth of `a`.
    proof fn lemma_grows_patch(a: Self, b: Self, c: Self, off: int)
        requires
            a.grows(b),
            b.same_but_chunk(c),
            c.chunk.lines@ == b.chunk.lines@,
            c.chunk.constants@ == b.chunk.constants@,
            a.chunk.code@.len() <= off < b.chunk.code@.len(),
            c.chunk.code@ == b.chunk.code@.update(off, c.chunk.code@[off]),
            c.inv(),
        ensures
            a.grows(c),
    {
        let al = a.chunk.code@.len() as int;
        assert(c.chunk.code@.subrange(0, al) =~= a.chunk.code@) by {
            assert forall|i: int| 0 <= i < al implies c.chunk.code@.subrange(0, al)[i] == a.chunk.code@[i] by {
                assert(b.chunk.code@.subrange(0, al)[i] == a.chunk.code@[i]);
            }
        }
    }

    /// The proof that a consistent state with a token consumed and one in view is a step
    /// from itself.
    proof fn lemma_step_refl(a: Self)
        requires
            a.inv(),
            a.current is Some,
            a.previous is Some,
        ensures
            a.step(a),
    {
        lemma_patched_empty(a.chunk.code@);
        assert(a.chunk.code@.subrange(0, a.chunk.code@.len() as int) =~= a.chunk.code@);
        assert(a.chunk.lines@.subrange(0, a.chunk.lines@.len() as int) =~= a.chunk.lines@);
        assert(a.chunk.constants@.subrange(0, a.chunk.constants@.len() as int) =~= a.chunk.constants@);
        assert(a.errors@.subrange(0, a.errors@.len() as int) =~= a.errors@);
    }

    /// The proof that a change of the diagnostics alone, or of the cursor and the
    /// diagnostics, in which nothing is forgotten, is a step.
    proof fn lemma_step_no_code(a: Self, b: Self)
        requires
            a.same_but_cursor(b),
            a.pos <= b.pos,
            a.errors@.len() <= b.errors@.len(),
            b.errors@ == a.errors@ || b.errors@.subrange(0, a.errors@.len() as int) == a.errors@,
            a.had_error ==> b.had_error,
            b.panic_mode ==> a.panic_mode || a.errors@.len() < b.errors@.len(),
            b.inv(),
            b.current is Some,
            b.previous is Some,
        ensures
            a.step(b),
    {
        assert(b.errors@.subrange(0, a.errors@.len() as int) =~= a.errors@);
        lemma_patched_empty(a.chunk.code@);
        assert(a.chunk.code@.subrange(0, a.chunk.code@.len() as int) =~= a.chunk.code@);
        assert(a.chunk.lines@.subrange(0, a.chunk.lines@.len() as int) =~= a.chunk.lines@);
        assert(a.chunk.constants@.subrange(0, a.chunk.constants@.len() as int) =~= a.chunk.constants@);
    }

    /// The proof that writing instructions, and maybe adding constants or changing the
    /// locals and the scope, is a growth.
    proof fn lemma_grows_emit(a: Self, b: Self)
        requires
            b.tokens@ == a.tokens@,
            b.start == a.start,
            b.pos == a.pos,
            b.had_error == a.had_error,
            b.panic_mode == a.panic_mode,
            b.errors@ == a.errors@,
            b.chunk == a.chunk || chunk_grows(a.chunk, b.chunk),
            b.inv(),
            b.current is Some,
            b.previous is Some,
        ensures
            a.grows(b),
    {
        assert(a.errors@.subrange(0, a.errors@.len() as int) =~= a.errors@);
        if b.chunk == a.chunk {
            assert(a.chunk.code@.subrange(0, a.chunk.code@.len() as int) =~= a.chunk.code@);
            assert(a.chunk.lines@.subrange(0, a.chunk.lines@.len() as int) =~= a.chunk.lines@);
            assert(a.chunk.constants@.subrange(0, a.chunk.constants@.len() as int) =~= a.chunk.constants@);
        }
    }

    /// The proof that writing instructions with no unpatched jump among them, and maybe
    /// adding constants, is a step.
    proof fn lemma_step_emit(a: Self, b: Self)
        requires
            b.tokens@ == a.tokens@,
            b.start == a.start,
            b.pos == a.pos,
            b.previous == a.previous,
            b.current == a.current,
            b.had_error == a.had_error,
            b.panic_mode == a.panic_mode,
            b.errors@ == a.errors@,
            b.chunk == a.chunk || chunk_grows(a.chunk, b.chunk),
            b.chunk == a.chunk || jumps_patched(b.chunk.code@, a.chunk.code@.len() as int),
            b.inv(),
            a.current is Some,
            a.previous is Some,
        ensures
            a.step(b),
    {
        assert(a.errors@.subrange(0, a.errors@.len() as int) =~= a.errors@);
        if b.chunk == a.chunk {
            lemma_patched_empty(a.chunk.code@);
            assert(a.chunk.code@.subrange(0, a.chunk.code@.len() as int) =~= a.chunk.code@);
            assert(a.chunk.lines@.subrange(0, a.chunk.lines@.len() as int) =~= a.chunk.lines@);
            assert(a.chunk.constants@.subrange(0, a.chunk.constants@.len() as int) =~= a.chunk.constants@);
        }
    }

    /// The proof that right after a `var` the token in view is an identifier.
    proof fn lemma_var_then_name(a: Self)
        requires
            a.inv(),
            a.previous is Some,
            kind_of(a.tokens@, a.previous->0 as int) == TokenKind::Var,
        ensures
            kind_of(a.tokens@, a.current->0 as int) == TokenKind::Identifier,
    {
        let t = a.tokens@;
        let p = a.previous->0 as int;
        let c = a.current->0 as int;
        assert(p < c);
        lemma_name_follows(t, p, c);
    }

    /// The proof that loading a new constant is a step.
    proof fn lemma_constant_step(a: Self, b: Self, v: Value, line: usize)
        requires
            a.inv(),
            a.current is Some,
            a.previous is Some,
            a.same_but_chunk(b),
            b.chunk.constants@ == a.chunk.constants@.push(v),
            b.chunk.code@ == a.chunk.code@.push(OpCode::OpConstant(a.chunk.constants@.len() as usize)),
            b.chunk.lines@ == a.chunk.lines@.push(line),
            b.inv(),
        ensures
            a.step(b),
    {
        assert(b.chunk.constants@.subrange(0, a.chunk.constants@.len() as int) =~= a.chunk.constants@);
        assert(b.chunk.lines@.subrange(0, a.chunk.lines@.len() as int) =~= a.chunk.lines@);
        lemma_patched_empty(a.chunk.code@);
        lemma_patched_push(a.chunk.code@, a.chunk.code@.len() as int, OpCode::OpConstant(a.chunk.constants@.len() as usize));
        assert(b.chunk.code@.subrange(0, a.chunk.code@.len() as int) =~= a.chunk.code@);
        Self::lemma_step_emit(a, b);
    }

    /// The code ends, past index `from`, with the access to the variable `name`: through
    /// its local slot, or, for a global, through its name added last to the constants and
    /// recorded at source line `line`; a write when an assignment was read, a read otherwise.
    closed spec fn variable_access(&self, from: nat, name: String, assign: bool, slot: Option<usize>, line: usize) -> bool {
        let code = self.chunk.code@;
        let last = code.last();
        &&& code.len() > from
        &&& match slot {
            Some(i) => last == if assign {
                OpCode::OpSetLocal(i)
            } else {
                OpCode::OpGetLocal(i)
            },
            None => {
                let consts = self.chunk.constants@;
                let k = (consts.len() - 1) as usize;
                &&& self.chunk.lines@.last() == line
                &&& consts.len() > 0
                &&& consts.last() == Value::Str(name)
                &&& last == if assign {
                    OpCode::OpSetGlobal(k)
                } else {
                    OpCode::OpGetGlobal(k)
                }
            },
        }
    }

    /// The proof that writing a loop instruction is a growth.
    proof fn lemma_emit_loop_grows(a: Self, b: Self)
        requires
            a.inv(),
            a.current is Some,
            a.previous is Some,
            b.tokens@ == a.tokens@,
            b.start == a.start,
            b.pos == a.pos,
            b.previous == a.previous,
            b.current == a.current,
            chunk_grows(a.chunk, b.chunk),
            b.errors@ == a.errors@ || (b.errors@.len() == a.errors@.len() + 1 && b.errors@.subrange(
                0,
                a.errors@.len() as int,
            ) == a.errors@),
            a.had_error ==> b.had_error,
            b.panic_mode ==> a.panic_mode || a.errors@.len() < b.errors@.len(),
            b.inv(),
        ensures
            a.grows(b),
    {
        assert(b.errors@.subrange(0, a.errors@.len() as int) =~= a.errors@);
    }

    /// `new` is `self` with the instructions `ck.0` written and the constants `ck.1` added.
    closed spec fn emitted(&self, new: Self, ck: (Seq<OpCode>, Seq<Value>)) -> bool {
        &&& new.chunk.code@ == self.chunk.code@ + ck.0
        &&& new.chunk.constants@ == self.chunk.constants@ + ck.1
    }

    /// `new` is `self` with the expression `e` compiled.
    closed spec fn expr_emitted(&self, new: Self, e: Expr) -> bool {
        self.emitted(new, expr_code(e, self.chunk.constants@.len(), self.locals@))
    }

    /// The proof that a stretch with no error splits into stretches with no error.
    proof fn lemma_quiet_split(a: Self, b: Self, c: Self)
        requires
            a.frame(b),
            b.frame(c),
            a.quiet(c),
        ensures
            a.quiet(b),
            b.quiet(c),
    {
    }

    /// The proof that a move to the next token with no error reported lands on the token
    /// right after the current one (or stays at the end).
    proof fn lemma_quiet_advance(a: Self, b: Self)
        requires
            a.inv(),
            a.current is Some,
            a.advanced(b),
            a.quiet(b),
        ensures
            b.previous == a.current,
            b.current is Some,
            b.current->0 as int == next_index(a.tokens@, a.current->0 as int),
            b.chunk == a.chunk,
            b.locals@ == a.locals@,
    {
    }

    /// The proof that on a clean start a move to the next token reports nothing and lands
    /// on the token right after the current one (or stays at the end).
    proof fn lemma_clean_advance(a: Self, b: Self)
        requires
            a.inv(),
            a.current is Some,
            a.advanced(b),
            a.clean_start(),
        ensures
            a.quiet(b),
            b.clean_start(),
            b.previous == a.current,
            b.current is Some,
            b.current->0 as int == next_index(a.tokens@, a.current->0 as int),
            b.chunk == a.chunk,
            b.locals@ == a.locals@,
            b.tokens@ == a.tokens@,
    {
        if a.pos < a.tokens@.len() && b.pos - 1 > a.pos {
            assert(kind_of(a.tokens@, a.pos as int) == TokenKind::Error);
        }
        Self::lemma_quiet_advance(a, b);
    }

    /// The proof that compiling nothing emits the empty code.
    proof fn lemma_emitted_nothing(a: Self, b: Self)
        requires
            b.chunk == a.chunk,
        ensures
            a.expr_emitted(b, Expr::Missing),
    {
        assert(a.chunk.code@ + Seq::<OpCode>::empty() =~= a.chunk.code@);
        assert(a.chunk.constants@ + Seq::<Value>::empty() =~= a.chunk.constants@);
    }

    /// The proof that what a literal's function writes is that literal's code.
    proof fn lemma_emitted_one(a: Self, b: Self, e: Expr)
        requires
            e is Number || e is Str || e is Literal,
            b.locals@ == a.locals@,
            e is Number ==> b.chunk.code@ == a.chunk.code@.push(OpCode::OpConstant(a.chunk.constants@.len() as usize))
                && b.chunk.constants@ == a.chunk.constants@.push(Value::Number(e->Number_0)),
            e is Str ==> b.chunk.code@ == a.chunk.code@.push(OpCode::OpConstant(a.chunk.constants@.len() as usize))
                && b.chunk.constants@ == a.chunk.constants@.push(Value::Str(e->Str_0)),
            e is Literal ==> b.chunk.constants@ == a.chunk.constants@ && b.chunk.code@ == a.chunk.code@.push(
                if e->Literal_0 == TokenKind::True {
                    OpCode::OpTrue
                } else if e->Literal_0 == TokenKind::False {
                    OpCode::OpFalse
                } else {
                    OpCode::OpNil
                },
            ),
        ensures
            a.expr_emitted(b, e),
    {
        let (c, k) = expr_code(e, a.chunk.constants@.len(), a.locals@);
        assert(b.chunk.code@ =~= a.chunk.code@ + c);
        assert(b.chunk.constants@ =~= a.chunk.constants@ + k);
    }

    /// The proof that an expression compiled after some code is appended to it.
    proof fn lemma_expr_emitted_trans(a: Self, b: Self, c: Self, e: Expr)
        requires
            a.emitted(b, (Seq::empty(), Seq::empty())) || a == b,
            b.expr_emitted(c, e),
            b.locals@ == a.locals@,
        ensures
            a.expr_emitted(c, e),
    {
        assert(a.chunk.code@ + Seq::<OpCode>::empty() =~= a.chunk.code@);
        assert(a.chunk.constants@ + Seq::<Value>::empty() =~= a.chunk.constants@);
    }

    /// The proof that one round of the infix loop extends the expression read so far.
    proof fn lemma_infix_step(
        s0: Self,
        s2: Self,
        s3: Self,
        s4: Self,
        left: Expr,
        op: TokenKind,
        right: Expr,
        p: Precedence,
        can_assign: bool,
    )
        requires
            s2.inv(),
            s2.current is Some,
            kind_of(s2.tokens@, s2.current->0 as int) == op,
            infix_precedence(op).spec_level() >= p.spec_level(),
            p.spec_level() >= 1,
            s3.previous == s2.current,
            s3.current->0 as int == next_index(s2.tokens@, s2.current->0 as int),
            s3.tokens@ == s2.tokens@,
            s3.chunk == s2.chunk,
            s3.locals@ == s2.locals@,
            s2.tokens@ == s0.tokens@,
            s2.locals@ == s0.locals@,
            infix_parses(s0.tokens@, s0.current->0 as int, s2.current->0 as int, p, can_assign, left),
            !(left is Missing),
            s0.expr_emitted(s2, left),
            expr_parses(s0.tokens@, s3.current->0 as int, s4.current->0 as int, right_precedence(op), right),
            s3.emitted(s4, infix_tail(op, right, s3.chunk.constants@.len(), s3.locals@)),
            !(can_assign && kind_of(s0.tokens@, s4.current->0 as int) == TokenKind::Equal),
        ensures
            infix_parses(
                s0.tokens@,
                s0.current->0 as int,
                s4.current->0 as int,
                p,
                can_assign,
                infix_expr(left, op, right),
            ),
            !(infix_expr(left, op, right) is Missing),
            s0.expr_emitted(s4, infix_expr(left, op, right)),
    {
        let t = s0.tokens@;
        let m = s2.current->0 as int;
        assert(t.last() == t[t.len() - 1]);
        law_infix_operators(op);
        assert(s3.current->0 as int == m + 1);
        let e = infix_expr(left, op, right);
        assert(kind_of(t, m) == op);
        assert(infix_parses(t, s0.current->0 as int, s4.current->0 as int, p, can_assign, e));
        let n = s0.chunk.constants@.len();
        lemma_infix_code(left, op, right, n, s0.locals@);
        let (cl, kl) = expr_code(left, n, s0.locals@);
        let (ct, kt) = infix_tail(op, right, n + kl.len(), s0.locals@);
        assert(s4.chunk.code@ =~= s0.chunk.code@ + (cl + ct));
        assert(s4.chunk.constants@ =~= s0.chunk.constants@ + (kl + kt));
    }

    /// `new` is `self` with the statement `s` compiled.
    closed spec fn stmt_emitted(&self, new: Self, s: Stmt) -> bool {
        &&& self.emitted(new, stmt_code(s, self.chunk.constants@.len(), self.locals@, self.scope_depth))
        &&& new.locals@ == self.locals@
    }

    /// `new` is `self` with the declaration `d` compiled.
    closed spec fn decl_emitted(&self, new: Self, d: Decl) -> bool {
        let (c, k, l) = decl_code(d, self.chunk.constants@.len(), self.locals@, self.scope_depth);
        &&& self.emitted(new, (c, k))
        &&& new.locals@ == l
    }

    /// The proof that a stretch with no error splits at any point where the diagnostics
    /// have not grown past its end.
    proof fn lemma_quiet_at(a: Self, b: Self, c: Self)
        requires
            a.frame(b),
            b.errors@.len() <= c.errors@.len(),
            a.quiet(c),
        ensures
            a.quiet(b),
            b.quiet(c),
    {
    }

    /// The proof that a `consume` with no error consumed the token of the kind asked for
    /// and moved on to the next one.
    proof fn lemma_quiet_consume(a: Self, b: Self, kind: TokenKind, msg: Seq<char>)
        requires
            a.inv(),
            a.current is Some,
            kind != TokenKind::EOF,
            kind_of(a.tokens@, a.current->0 as int) == kind ==> a.advanced(b),
            kind_of(a.tokens@, a.current->0 as int) != kind ==> {
                &&& a.same_but_errors(b)
                &&& a.reported(b, a.current->0 as int, msg)
            },
            a.quiet(b),
        ensures
            kind_of(a.tokens@, a.current->0 as int) == kind,
            b.previous == a.current,
            b.current is Some,
            b.current->0 == a.current->0 + 1,
            b.chunk == a.chunk,
            b.locals@ == a.locals@,
            b.tokens@ == a.tokens@,
    {
        assert(a.tokens@.last() == a.tokens@[a.tokens@.len() - 1]);
    }

    /// The proof that a `match_token` with no error either consumed the token of the kind
    /// asked for and moved on to the next one, or changed nothing.
    proof fn lemma_quiet_match(a: Self, b: Self, kind: TokenKind, matched: bool)
        requires
            a.inv(),
            a.current is Some,
            kind != TokenKind::EOF,
            matched == (kind_of(a.tokens@, a.current->0 as int) == kind),
            matched ==> a.advanced(b),
            !matched ==> b == a,
            a.quiet(b),
        ensures
            matched ==> b.previous == a.current && b.current is Some && b.current->0 == a.current->0 + 1,
            b.chunk == a.chunk,
            b.locals@ == a.locals@,
    {
        assert(a.tokens@.last() == a.tokens@[a.tokens@.len() - 1]);
    }

    /// The proof that leaving a scope after compiling its declarations removes exactly the
    /// locals they added, writing a pop for each.
    proof fn lemma_scope_exit(s2: Self, s3: Self, s4: Self, ls: Seq<Local>)
        requires
            s2.inv(),
            s2.locals@ == ls,
            s2.scope_depth > 0,
            forall|i: int| 0 <= i < ls.len() ==> #[trigger] ls[i].depth < s2.scope_depth,
            s3.scope_depth == s2.scope_depth,
            ls.len() <= s3.locals@.len(),
            s3.locals@.subrange(0, ls.len() as int) == ls,
            forall|i: int| ls.len() <= i < s3.locals@.len() ==> #[trigger] s3.locals@[i].depth == s2.scope_depth,
            s4.scope_depth == s3.scope_depth - 1,
            s4.locals@.len() <= s3.locals@.len(),
            s4.locals@ == s3.locals@.subrange(0, s4.locals@.len() as int),
            forall|i: int|
                s4.locals@.len() <= i < s3.locals@.len() ==> #[trigger] s3.locals@[i].depth == s3.scope_depth,
            forall|i: int| 0 <= i < s4.locals@.len() ==> #[trigger] s4.locals@[i].depth < s3.scope_depth,
        ensures
            s4.locals@ == ls,
    {
        if s4.locals@.len() < ls.len() {
            let r = s4.locals@.len() as int;
            assert(s3.locals@.subrange(0, ls.len() as int)[r] == s3.locals@[r]);
            assert(ls[r].depth < s2.scope_depth);
            assert(s3.locals@[r].depth == s3.scope_depth);
            assert(false);
        } else if s4.locals@.len() > ls.len() {
            let r = ls.len() as int;
            assert(s4.locals@[r] == s3.locals@.subrange(0, s4.locals@.len() as int)[r]);
            assert(s4.locals@[r].depth < s3.scope_depth);
            assert(s3.locals@[r].depth == s2.scope_depth);
            assert(false);
        } else {
            assert(s4.locals@ == s3.locals@.subrange(0, ls.len() as int));
        }
    }

    /// A compiler for `tokens` that writes into `chunk`.
    pub fn new(chunk: Chunk, tokens: Vec<Token>) -> (c: Compiler)
        ensures
            c.chunk_view() == chunk,
            c.token_seq() == tokens@,
            c.error_seq() == Seq::<CompileError>::empty(),
            c.local_seq() == Seq::<Local>::empty(),
            c.depth() == 0,
            c.position() == 0,
            c.previous_index() is None,
            c.current_index() is None,
            !c.error_flag(),
            !c.panicking(),
            c.code_start() == chunk.code@.len(),
            valid_tokens(tokens@) && chunk.wf() ==> c.inv(),
    {
        let ghost start = chunk.code@.len();
        proof {
            reveal(code_ok);
            reveal(locals_ok);
            reveal(diagnostics_known);
        }
        Compiler {
            chunk,
            tokens,
            pos: 0,
            previous: None,
            current: None,
            had_error: false,
            panic_mode: false,
            locals: Locals::new(),
            scope_depth: 0,
            errors: Vec::new(),
            start: Ghost(start),
        }
    }

    /// The chunk being written.
    pub fn chunk(&self) -> (c: &Chunk)
        ensures
            *c == self.chunk_view(),
    {
        &self.chunk
    }

    /// The diagnostics reported so far, in the order they were raised.
    pub fn errors(&self) -> (e: &Vec<CompileError>)
        ensures
            e@ == self.error_seq(),
    {
        &self.errors
    }

    /// The chunk, once compiling is done.
    pub fn into_chunk(self) -> (c: Chunk)
        ensures
            c == self.chunk_view(),
    {
        self.chunk
    }

    /// The rule of a token kind: the table of `rule_of`. A kind the table does not list
    /// (`=`, braces, keywords, error tokens) gets the empty rule rather than stopping the
    /// compiler: an expression then ends before that token, and whatever reads on reports
    /// what it expected there.
    fn get_rule(kind: TokenKind) -> (r: ParseRule)
        ensures
            r == rule_of(kind),
    {
        match kind {
            TokenKind::And => ParseRule {
                precedence: Precedence::PrecAnd,
                infix_fn: Some(ParseFn::And),
                prefix_fn: None,
            },
            TokenKind::Or => ParseRule {
                precedence: Precedence::PrecOr,
                infix_fn: Some(ParseFn::Or),
                prefix_fn: None,
            },
            TokenKind::Plus => ParseRule {
                precedence: Precedence::PrecTerm,
                infix_fn: Some(ParseFn::Binary),
                prefix_fn: None,
            },
            TokenKind::Minus => ParseRule {
                precedence: Precedence::PrecTerm,
                infix_fn: Some(ParseFn::Binary),
                prefix_fn: Some(ParseFn::Unary),
            },
            TokenKind::Star | TokenKind::Slash => ParseRule {
                precedence: Precedence::PrecFactor,
                infix_fn: Some(ParseFn::Binary),
                prefix_fn: None,
            },
            TokenKind::Number => ParseRule {
                precedence: Precedence::PrecNone,
                infix_fn: None,
                prefix_fn: Some(ParseFn::Number),
            },
            TokenKind::True | TokenKind::False | TokenKind::Nil => ParseRule {
                precedence: Precedence::PrecNone,
                infix_fn: None,
                prefix_fn: Some(ParseFn::Literal),
            },
            TokenKind::Bang => ParseRule {
                precedence: Precedence::PrecNone,
                infix_fn: None,
                prefix_fn: Some(ParseFn::Unary),
            },
            TokenKind::BangEqual | TokenKind::EqualEqual => ParseRule {
                precedence: Precedence::PrecEquality,
                infix_fn: Some(ParseFn::Binary),
                prefix_fn: None,
            },
            TokenKind::Greater | TokenKind::GreaterEqual | TokenKind::Less
            | TokenKind::LessEqual => ParseRule {
                precedence: Precedence::PrecComparison,
                infix_fn: Some(ParseFn::Binary),
                prefix_fn: None,
            },
            TokenKind::LeftParen => ParseRule {
                precedence: Precedence::PrecNone,
                infix_fn: None,
                prefix_fn: Some(ParseFn::Grouping),
            },
            TokenKind::Identifier => ParseRule {
                precedence: Precedence::PrecNone,
                infix_fn: None,
                prefix_fn: Some(ParseFn::Variable),
            },
            TokenKind::StringLiteral => ParseRule {
                precedence: Precedence::PrecNone,
                infix_fn: None,
                prefix_fn: Some(ParseFn::StringLiteral),
            },
            _ => ParseRule { precedence: Precedence::PrecNone, infix_fn: None, prefix_fn: None },
        }
    }

    /// Reports `message` at the token at index `at`, unless the compiler is already
    /// panicking.
    fn error_at(&mut self, at: usize, message: &str)
        requires
            at < old(self).tokens@.len(),
            reportable(old(self).tokens@, at as int, message@),
        ensures
            old(self).same_but_errors(*final(self)),
            old(self).reported(*final(self), at as int, message@),
            old(self).inv() ==> final(self).inv(),
    {
        if self.panic_mode {
            return;
        }
        self.panic_mode = true;
        let line = self.tokens[at].line;
        let column = self.tokens[at].column;
        let text = message.to_owned();
        let ghost old_errors = self.errors@;
        self.errors.push(CompileError { line, column, message: text });
        self.had_error = true;
        assert(self.errors@.subrange(0, old_errors.len() as int) =~= old_errors);
        proof {
            if old(self).inv() {
                lemma_known_push(old_errors, self.tokens@, self.errors@.last(), at as int);
            }
        }
    }

    /// Reports `message` at the current token.
    fn error_at_current_token(&mut self, message: &str)
        requires
            old(self).current is Some,
            old(self).current->0 < old(self).tokens@.len(),
            reportable(old(self).tokens@, old(self).current->0 as int, message@),
        ensures
            old(self).same_but_errors(*final(self)),
            old(self).reported(*final(self), old(self).current->0 as int, message@),
            old(self).inv() ==> final(self).inv(),
    {
        let at = match self.current {
            Some(c) => c,
            None => 0,
        };
        self.error_at(at, message);
    }

    /// Reports `message` at the token consumed last.
    fn error(&mut self, message: &str)
        requires
            old(self).inv(),
            old(self).previous is Some,
            compiler_message(message@),
        ensures
            old(self).silent(*final(self)),
            old(self).same_but_errors(*final(self)),
            old(self).reported(*final(self), old(self).previous->0 as int, message@),
            final(self).inv(),
            old(self).step(*final(self)),
    {
        let at = match self.previous {
            Some(p) => p,
            None => 0,
        };
        let ghost before = *self;
        self.error_at(at, message);
        proof {
            Self::lemma_step_no_code(before, *self);
        }
    }

    /// Whether the current token is of kind `kind`.
    fn check_token(&self, kind: TokenKind) -> (b: bool)
        requires
            self.current is Some,
            self.current->0 < self.tokens@.len(),
        ensures
            b == (kind_of(self.tokens@, self.current->0 as int) == kind),
    {
        match self.current {
            Some(c) => self.tokens[c].kind() == kind,
            None => false,
        }
    }

    /// Consumes the current token if it is of kind `kind`, and says whether it did.
    fn match_token(&mut self, kind: TokenKind) -> (b: bool)
        requires
            old(self).inv(),
            old(self).current is Some,
        ensures
            old(self).silent(*final(self)),
            b == (kind_of(old(self).tokens@, old(self).current->0 as int) == kind),
            b ==> old(self).advanced(*final(self)),
            b ==> old(self).step(*final(self)),
            !b ==> *final(self) == *old(self),
            final(self).inv(),
            final(self).current is Some,
    {
        if !self.check_token(kind) {
            return false;
        }
        self.advance();
        true
    }

    /// Consumes the current token if it is of kind `kind`; otherwise reports `message` at
    /// it.
    fn consume(&mut self, kind: TokenKind, message: &str)
        requires
            old(self).inv(),
            old(self).current is Some,
            compiler_message(message@),
        ensures
            old(self).silent(*final(self)),
            kind_of(old(self).tokens@, old(self).current->0 as int) == kind ==> old(self).advanced(*final(self)),
            kind_of(old(self).tokens@, old(self).current->0 as int) != kind ==> {
                &&& old(self).same_but_errors(*final(self))
                &&& old(self).reported(*final(self), old(self).current->0 as int, message@)
            },
            kind_of(old(self).tokens@, old(self).current->0 as int) == kind ==> old(self).step(*final(self)),
            old(self).previous is Some ==> old(self).step(*final(self)),
            final(self).inv(),
            final(self).current is Some,
    {
        if self.check_token(kind) {
            self.advance();
            return;
        }
        let ghost before = *self;
        self.error_at_current_token(message);
        proof {
            if before.previous is Some {
                Self::lemma_step_no_code(before, *self);
            }
        }
    }

    /// Appends `byte`, with the line of the token consumed last.
    fn emit_byte(&mut self, byte: OpCode)
        requires
            old(self).inv(),
            old(self).previous is Some,
            operand_ok(
                byte,
                old(self).chunk.code@.len() as int,
                (old(self).chunk.code@.len() + 1) as int,
                old(self).chunk.constants@.len() as int,
                old(self).start@ as int,
            ),
        ensures
            old(self).same_but_chunk(*final(self)),
            final(self).chunk.code@ == old(self).chunk.code@.push(byte),
            final(self).chunk.lines@ == old(self).chunk.lines@.push(old(self).prev_line()),
            final(self).chunk.constants@ == old(self).chunk.constants@,
            final(self).inv(),
            chunk_grows(old(self).chunk, final(self).chunk),
            !is_open_jump(byte) && old(self).current is Some ==> old(self).step(*final(self)),
    {
        let line = match self.previous {
            Some(p) => self.tokens[p].line,
            None => 0,
        };
        proof {
            lemma_code_ok_push(
                self.chunk.code@,
                self.chunk.constants@.len() as int,
                self.chunk.constants@.len() as int,
                self.start@ as int,
                byte,
            );
        }
        let ghost before = *self;
        self.chunk.write_chunk(byte, line);
        proof {
            assert(self.chunk.code@.subrange(0, before.chunk.code@.len() as int) =~= before.chunk.code@);
            assert(self.chunk.lines@.subrange(0, before.chunk.lines@.len() as int) =~= before.chunk.lines@);
            assert(self.chunk.constants@.subrange(0, before.chunk.constants@.len() as int) =~= before.chunk.constants@);
            if !is_open_jump(byte) && before.current is Some {
                lemma_patched_empty(before.chunk.code@);
                lemma_patched_push(before.chunk.code@, before.chunk.code@.len() as int, byte);
                Self::lemma_step_emit(before, *self);
            }
        }
    }

    /// Appends `byte1` and then `byte2`.
    fn emit_bytes(&mut self, byte1: OpCode, byte2: OpCode)
        requires
            old(self).inv(),
            old(self).previous is Some,
            operand_ok(
                byte1,
                old(self).chunk.code@.len() as int,
                (old(self).chunk.code@.len() + 1) as int,
                old(self).chunk.constants@.len() as int,
                old(self).start@ as int,
            ),
            operand_ok(
                byte2,
                (old(self).chunk.code@.len() + 1) as int,
                (old(self).chunk.code@.len() + 2) as int,
                old(self).chunk.constants@.len() as int,
                old(self).start@ as int,
            ),
        ensures
            old(self).same_but_chunk(*final(self)),
            final(self).chunk.code@ == old(self).chunk.code@.push(byte1).push(byte2),
            final(self).chunk.lines@ == old(self).chunk.lines@.push(old(self).prev_line()).push(
                old(self).prev_line(),
            ),
            final(self).chunk.constants@ == old(self).chunk.constants@,
            final(self).inv(),
    {
        self.emit_byte(byte1);
        self.emit_byte(byte2);
    }

    /// Appends the jump `instruction`, still to be patched, and returns its index.
    fn emit_jump(&mut self, instruction: OpCode) -> (offset: usize)
        requires
            old(self).inv(),
            old(self).previous is Some,
            operand_ok(
                instruction,
                old(self).chunk.code@.len() as int,
                (old(self).chunk.code@.len() + 1) as int,
                old(self).chunk.constants@.len() as int,
                old(self).start@ as int,
            ),
        ensures
            offset == old(self).chunk.code@.len(),
            chunk_grows(old(self).chunk, final(self).chunk),
            old(self).same_but_chunk(*final(self)),
            final(self).chunk.code@ == old(self).chunk.code@.push(instruction),
            final(self).chunk.lines@ == old(self).chunk.lines@.push(old(self).prev_line()),
            final(self).chunk.constants@ == old(self).chunk.constants@,
            final(self).inv(),
    {
        self.emit_byte(instruction);
        self.chunk.count() - 1
    }

    /// Patches the jump at `offset` so that it lands right after the last instruction;
    /// `opcode` says which kind of jump it is.
    fn patch_jump(&mut self, offset: usize, opcode: OpCode)
        requires
            old(self).inv(),
            old(self).start@ <= offset < old(self).chunk.code@.len(),
        ensures
            old(self).same_but_chunk(*final(self)),
            final(self).chunk.code@ == match opcode {
                OpCode::OpJumpIfFalse(_) => old(self).chunk.code@.update(
                    offset as int,
                    OpCode::OpJumpIfFalse(Some((old(self).chunk.code@.len() - offset - 1) as usize)),
                ),
                OpCode::OpJump(_) => old(self).chunk.code@.update(
                    offset as int,
                    OpCode::OpJump(Some((old(self).chunk.code@.len() - offset - 1) as usize)),
                ),
                _ => old(self).chunk.code@,
            },
            final(self).chunk.lines@ == old(self).chunk.lines@,
            final(self).chunk.constants@ == old(self).chunk.constants@,
            final(self).inv(),
    {
        let jump = self.chunk.count() - offset - 1;
        match opcode {
            OpCode::OpJumpIfFalse(_) => {
                proof {
                    lemma_code_ok_patch(
                        self.chunk.code@,
                        self.chunk.constants@.len() as int,
                        self.start@ as int,
                        offset as int,
                        OpCode::OpJumpIfFalse(Some(jump)),
                    );
                }
                self.chunk.code.set(offset, OpCode::OpJumpIfFalse(Some(jump)));
            },
            OpCode::OpJump(_) => {
                proof {
                    lemma_code_ok_patch(
                        self.chunk.code@,
                        self.chunk.constants@.len() as int,
                        self.start@ as int,
                        offset as int,
                        OpCode::OpJump(Some(jump)),
                    );
                }
                self.chunk.code.set(offset, OpCode::OpJump(Some(jump)));
            },
            _ => {},
        }
    }

    /// Appends a loop instruction that jumps back to `loop_start`; reports a loop body too
    /// large for a 16-bit distance.
    fn emit_loop(&mut self, loop_start: usize)
        requires
            old(self).inv(),
            old(self).previous is Some,
            old(self).start@ <= loop_start <= old(self).chunk.code@.len(),
        ensures
            final(self).tokens@ == old(self).tokens@,
            final(self).start == old(self).start,
            final(self).pos == old(self).pos,
            final(self).previous == old(self).previous,
            final(self).current == old(self).current,
            final(self).locals@ == old(self).locals@,
            final(self).scope_depth == old(self).scope_depth,
            final(self).chunk.code@ == old(self).chunk.code@.push(
                OpCode::OpLoop((old(self).chunk.code@.len() - loop_start + 1) as usize),
            ),
            final(self).chunk.lines@ == old(self).chunk.lines@.push(old(self).prev_line()),
            final(self).chunk.constants@ == old(self).chunk.constants@,
            chunk_grows(old(self).chunk, final(self).chunk),
            old(self).chunk.code@.len() - loop_start + 1 > u16::MAX ==> old(self).reported(
                *final(self),
                old(self).previous->0 as int,
                "Loop body too large"@,
            ),
            old(self).chunk.code@.len() - loop_start + 1 <= u16::MAX ==> {
                &&& final(self).errors@ == old(self).errors@
                &&& final(self).panic_mode == old(self).panic_mode
                &&& final(self).had_error == old(self).had_error
            },
            final(self).inv(),
    {
        let count = self.chunk.count();
        let offset = (count - loop_start).saturating_add(1);
        if offset > u16::MAX as usize {
            self.error("Loop body too large");
        }
        self.emit_byte(OpCode::OpLoop(offset));
        assert(self.chunk.code@.len() <= usize::MAX) by {
            broadcast use vstd::std_specs::vec::axiom_spec_len;
            assert(self.chunk.code.len() == self.chunk.code@.len());
        }
    }

    /// Appends the final return.
    fn emit_return(&mut self)
        requires
            old(self).inv(),
            old(self).previous is Some,
        ensures
            old(self).same_but_chunk(*final(self)),
            final(self).chunk.code@ == old(self).chunk.code@.push(OpCode::OpReturn(0)),
            final(self).chunk.lines@ == old(self).chunk.lines@.push(old(self).prev_line()),
            final(self).chunk.constants@ == old(self).chunk.constants@,
            final(self).inv(),
    {
        self.emit_byte(OpCode::OpReturn(0));
    }

    /// Finishes the code.
    fn end_compiler(&mut self)
        requires
            old(self).inv(),
            old(self).previous is Some,
        ensures
            old(self).same_but_chunk(*final(self)),
            final(self).chunk.code@ == old(self).chunk.code@.push(OpCode::OpReturn(0)),
            final(self).chunk.lines@ == old(self).chunk.lines@.push(old(self).prev_line()),
            final(self).chunk.constants@ == old(self).chunk.constants@,
            final(self).inv(),
    {
        self.emit_return();
    }

    /// Adds `value` to the constants and appends the instruction that loads it, with the
    /// source line `line`.
    fn emit_constant(&mut self, value: Value, line: usize)
        requires
            old(self).inv(),
        ensures
            old(self).same_but_chunk(*final(self)),
            final(self).chunk.constants@ == old(self).chunk.constants@.push(value),
            final(self).chunk.code@ == old(self).chunk.code@.push(
                OpCode::OpConstant(old(self).chunk.constants@.len() as usize),
            ),
            final(self).chunk.lines@ == old(self).chunk.lines@.push(line),
            final(self).inv(),
    {
        proof {
            lemma_code_ok_push(
                self.chunk.code@,
                self.chunk.constants@.len() as int,
                (self.chunk.constants@.len() + 1) as int,
                self.start@ as int,
                OpCode::OpConstant(self.chunk.constants@.len() as usize),
            );
        }
        self.chunk.add_constant(value, line);
    }

    /// Adds the name of a global variable to the constants, appends the read or the
    /// assignment that `variable_op` asks for, and returns the name's index.
    fn emit_identifier_constant(&mut self, name: &String, line: usize, variable_op: VariableOp) -> (index: usize)
        requires
            old(self).inv(),
        ensures
            index == old(self).chunk.constants@.len(),
            old(self).same_but_chunk(*final(self)),
            final(self).chunk.constants@ == old(self).chunk.constants@.push(Value::Str(*name)),
            match variable_op {
                VariableOp::Define => {
                    &&& final(self).chunk.code@ == old(self).chunk.code@
                    &&& final(self).chunk.lines@ == old(self).chunk.lines@
                },
                VariableOp::GetGlobal => {
                    &&& final(self).chunk.code@ == old(self).chunk.code@.push(OpCode::OpGetGlobal(index))
                    &&& final(self).chunk.lines@ == old(self).chunk.lines@.push(line)
                },
                VariableOp::SetGlobal => {
                    &&& final(self).chunk.code@ == old(self).chunk.code@.push(OpCode::OpSetGlobal(index))
                    &&& final(self).chunk.lines@ == old(self).chunk.lines@.push(line)
                },
            },
            final(self).inv(),
            chunk_grows(old(self).chunk, final(self).chunk),
            jumps_patched(final(self).chunk.code@, old(self).chunk.code@.len() as int),
    {
        let ghost n = self.chunk.constants@.len() as int;
        proof {
            lemma_code_ok_constants(self.chunk.code@, n, n + 1, self.start@ as int);
            lemma_code_ok_push(self.chunk.code@, n, n + 1, self.start@ as int, OpCode::OpGetGlobal(n as usize));
            lemma_code_ok_push(self.chunk.code@, n, n + 1, self.start@ as int, OpCode::OpSetGlobal(n as usize));
        }
        let ghost before = self.chunk;
        let index = self.chunk.add_identifier_constant(name, line, variable_op);
        proof {
            assert(self.chunk.code@.subrange(0, before.code@.len() as int) =~= before.code@);
            assert(self.chunk.lines@.subrange(0, before.lines@.len() as int) =~= before.lines@);
            assert(self.chunk.constants@.subrange(0, before.constants@.len() as int) =~= before.constants@);
            lemma_patched_empty(before.code@);
            lemma_patched_push(before.code@, before.code@.len() as int, OpCode::OpGetGlobal(index));
            lemma_patched_push(before.code@, before.code@.len() as int, OpCode::OpSetGlobal(index));
        }
        index
    }

    /// Enters a block scope.
    fn begin_scope(&mut self)
        requires
            old(self).inv(),
            old(self).scope_depth < old(self).pos,
        ensures
            final(self).scope_depth == old(self).scope_depth + 1,
            *final(self) == (Compiler { scope_depth: final(self).scope_depth, ..*old(self) }),
            final(self).inv(),
    {
        proof {
            reveal(locals_ok);
        }
        self.scope_depth = self.scope_depth + 1;
    }

    /// Leaves a block scope: its locals are removed, each with a pop instruction.
    fn end_scope(&mut self)
        requires
            old(self).inv(),
            old(self).previous is Some,
            old(self).scope_depth > 0,
        ensures
            final(self).scope_depth == old(self).scope_depth - 1,
            final(self).tokens@ == old(self).tokens@,
            final(self).start == old(self).start,
            final(self).pos == old(self).pos,
            final(self).previous == old(self).previous,
            final(self).current == old(self).current,
            final(self).had_error == old(self).had_error,
            final(self).panic_mode == old(self).panic_mode,
            final(self).errors@ == old(self).errors@,
            final(self).locals@.len() <= old(self).locals@.len(),
            final(self).locals@ == old(self).locals@.subrange(0, final(self).locals@.len() as int),
            forall|i: int|
                final(self).locals@.len() <= i < old(self).locals@.len() ==> #[trigger] old(self).locals@[i].depth
                    == old(self).scope_depth,
            forall|i: int| 0 <= i < final(self).locals@.len() ==> #[trigger] final(self).locals@[i].depth < old(self).scope_depth,
            final(self).chunk.code@ == old(self).chunk.code@ + Seq::new(
                (old(self).locals@.len() - final(self).locals@.len()) as nat,
                |i: int| OpCode::OpPop,
            ),
            final(self).chunk.constants@ == old(self).chunk.constants@,
            chunk_grows(old(self).chunk, final(self).chunk),
            jumps_patched(final(self).chunk.code@, old(self).chunk.code@.len() as int),
            final(self).inv(),
    {
        self.scope_depth = self.scope_depth - 1;
        let ghost ls = self.locals@;
        let num_removed = self.locals.remove_locals(self.scope_depth);
        proof {
            reveal(locals_ok);
            let d = self.scope_depth;
            assert forall|i: int| 0 <= i < self.locals@.len() implies #[trigger] self.locals@[i].depth <= d by {
                assert(ls[i].depth <= ls[self.locals@.len() - 1].depth);
            }
            assert forall|i: int| ls.len() - num_removed <= i < ls.len() implies #[trigger] ls[i].depth == d + 1 by {
                assert(ls[i].depth > d);
            }
            assert(locals_ok(self.locals@, self.scope_depth as nat));
        }
        let ghost code0 = self.chunk.code@;
        let ghost lines0 = self.chunk.lines@;
        let mut i: usize = 0;
        while i < num_removed
            invariant
                i <= num_removed,
                num_removed <= ls.len(),
                self.inv(),
                self.previous is Some,
                self.tokens@ == old(self).tokens@,
                self.start == old(self).start,
                self.pos == old(self).pos,
                self.previous == old(self).previous,
                self.current == old(self).current,
                self.had_error == old(self).had_error,
                self.panic_mode == old(self).panic_mode,
                self.errors@ == old(self).errors@,
                self.scope_depth == old(self).scope_depth - 1,
                self.locals@ == ls.subrange(0, ls.len() - num_removed),
                self.chunk.code@ == code0 + Seq::new(i as nat, |k: int| OpCode::OpPop),
                self.chunk.lines@.len() == lines0.len() + i,
                self.chunk.lines@.subrange(0, lines0.len() as int) == lines0,
                self.chunk.constants@ == old(self).chunk.constants@,
                code0 == old(self).chunk.code@,
                lines0 == old(self).chunk.lines@,
            decreases num_removed - i,
        {
            let ghost before = self.chunk;
            self.emit_byte(OpCode::OpPop);
            assert(self.chunk.code@ =~= code0 + Seq::new((i + 1) as nat, |k: int| OpCode::OpPop));
            assert(self.chunk.lines@.subrange(0, lines0.len() as int) =~= lines0) by {
                assert(before.lines@.subrange(0, lines0.len() as int) == lines0);
            }
            i = i + 1;
        }
        assert(self.chunk.code@.subrange(0, code0.len() as int) =~= code0);
        assert(self.chunk.constants@.subrange(0, self.chunk.constants@.len() as int) =~= self.chunk.constants@);
        proof {
            reveal(jumps_patched);
            assert forall|k: int| code0.len() <= k < self.chunk.code@.len() implies !is_open_jump(#[trigger] self.chunk.code@[k]) by {
                assert(self.chunk.code@[k] == Seq::new(num_removed as nat, |j: int| OpCode::OpPop)[k - code0.len()]);
            }
        }
    }

    /// The compiler may resume after an error here: at the end of the tokens, after a
    /// semicolon, or before a keyword that starts a declaration or statement.
    closed spec fn at_sync_point(&self) -> bool {
        let k = kind_of(self.tokens@, self.current->0 as int);
        ||| k == TokenKind::EOF
        ||| kind_of(self.tokens@, self.previous->0 as int) == TokenKind::Semicolon
        ||| is_statement_start(k)
    }

    /// The state is consistent but for the panic flag, which may be set without an error
    /// reported: what `synchronize` accepts, since it clears that flag first.
    closed spec fn sync_ready(&self) -> bool {
        (Compiler { panic_mode: false, ..*self }).inv()
    }

    /// Leaves panic mode and skips tokens until a point where compiling may resume.
    fn synchronize(&mut self)
        requires
            old(self).sync_ready(),
            old(self).current is Some,
            old(self).previous is Some,
        ensures
            old(self).step(*final(self)),
            old(self).same_but_cursor(*final(self)),
            final(self).at_sync_point(),
            final(self).panic_mode ==> final(self).errors@.len() > old(self).errors@.len(),
            old(self).at_sync_point() ==> {
                &&& final(self).pos == old(self).pos
                &&& final(self).previous == old(self).previous
                &&& final(self).current == old(self).current
                &&& final(self).errors@ == old(self).errors@
                &&& !final(self).panic_mode
            },
            old(self).skipped_to(*final(self)),
            forall|k: int|
                old(self).current->0 <= k < final(self).current->0 && #[trigger] kind_of(old(self).tokens@, k)
                    != TokenKind::Error ==> {
                    let kk = kind_of(old(self).tokens@, k);
                    &&& kk != TokenKind::Var && kk != TokenKind::Class && kk != TokenKind::Fun
                    &&& kk != TokenKind::For && kk != TokenKind::If && kk != TokenKind::While
                    &&& kk != TokenKind::Print && kk != TokenKind::Return && kk != TokenKind::EOF
                },
            ({
                let kk = kind_of(old(self).tokens@, old(self).current->0 as int);
                kk == TokenKind::Var || kk == TokenKind::Class || kk == TokenKind::Fun || kk == TokenKind::For
                    || kk == TokenKind::If || kk == TokenKind::While || kk == TokenKind::Print || kk
                    == TokenKind::Return || kk == TokenKind::EOF
            }) ==> final(self).pos == old(self).pos && final(self).current == old(self).current,
            kind_of(old(self).tokens@, old(self).previous->0 as int) == TokenKind::Semicolon ==> final(self).pos
                == old(self).pos && final(self).current == old(self).current,
            forall|k: int, q: int|
                old(self).current->0 <= k < q < final(self).current->0 && #[trigger] kind_of(old(self).tokens@, k)
                    == TokenKind::Semicolon ==> #[trigger] kind_of(old(self).tokens@, q) == TokenKind::Error,
            ({
                let kk = kind_of(final(self).tokens@, final(self).current->0 as int);
                ||| kind_of(final(self).tokens@, final(self).previous->0 as int) == TokenKind::Semicolon
                ||| kk == TokenKind::Var || kk == TokenKind::Class || kk == TokenKind::Fun || kk == TokenKind::For
                ||| kk == TokenKind::If || kk == TokenKind::While || kk == TokenKind::Print
                ||| kk == TokenKind::Return || kk == TokenKind::EOF
            }),
            (forall|k: int|
                old(self).current->0 < k <= final(self).current->0 ==> #[trigger] kind_of(old(self).tokens@, k)
                    != TokenKind::Error) ==> {
                &&& !final(self).panic_mode
                &&& final(self).errors@ == old(self).errors@
                &&& final(self).had_error == old(self).had_error
            },
    {
        let ghost old_self = *self;
        self.panic_mode = false;
        proof {
            assert(*self == Compiler { panic_mode: false, ..old_self });
            Self::lemma_step_no_code(old_self, *self);
        }
        loop
            invariant_except_break
                old_self == *old(self),
                old_self.sync_ready(),
                old_self.current is Some,
                old_self.at_sync_point() ==> self.pos == old_self.pos,
                self.inv(),
                self.current is Some,
                self.previous is Some,
                old_self.step(*self),
                old_self.same_but_cursor(*self),
                self.panic_mode ==> self.errors@.len() > old_self.errors@.len(),
                self.pos == old_self.pos ==> {
                    &&& self.previous == old_self.previous
                    &&& self.current == old_self.current
                    &&& self.errors@ == old_self.errors@
                    &&& !self.panic_mode
                },
                old_self.skipped_to(*self),
                (forall|k: int|
                    old_self.current->0 < k <= self.current->0 ==> #[trigger] kind_of(old_self.tokens@, k)
                        != TokenKind::Error) ==> {
                    &&& !self.panic_mode
                    &&& self.errors@ == old_self.errors@
                    &&& self.had_error == old_self.had_error
                },
            ensures
                old_self.skipped_to(*self),
                (forall|k: int|
                    old_self.current->0 < k <= self.current->0 ==> #[trigger] kind_of(old_self.tokens@, k)
                        != TokenKind::Error) ==> {
                    &&& !self.panic_mode
                    &&& self.errors@ == old_self.errors@
                    &&& self.had_error == old_self.had_error
                },
                self.inv(),
                self.current is Some,
                self.previous is Some,
                old_self.step(*self),
                old_self.same_but_cursor(*self),
                self.panic_mode ==> self.errors@.len() > old_self.errors@.len(),
                self.at_sync_point(),
                old_self.at_sync_point() ==> {
                    &&& self.pos == old_self.pos
                    &&& self.previous == old_self.previous
                    &&& self.current == old_self.current
                    &&& self.errors@ == old_self.errors@
                    &&& !self.panic_mode
                },
            decreases self.tokens@.len() - self.pos,
        {
            if self.check_token(TokenKind::EOF) {
                break;
            }
            let p = match self.previous {
                Some(p) => p,
                None => 0,
            };
            if self.tokens[p].kind() == TokenKind::Semicolon {
                break;
            }
            let c = match self.current {
                Some(c) => c,
                None => 0,
            };
            match self.tokens[c].kind() {
                TokenKind::Class | TokenKind::Fun | TokenKind::Var | TokenKind::For | TokenKind::If
                | TokenKind::While | TokenKind::Print | TokenKind::Return => {
                    break;
                },
                _ => {},
            }
            let ghost before = *self;
            self.advance();
            proof {
                Self::lemma_step_trans(old_self, before, *self);
                let t = old_self.tokens@;
                let cb = before.current->0 as int;
                let pb = before.previous->0 as int;
                let cn = self.current->0 as int;
                assert(t.last() == t[t.len() - 1]);
                assert forall|k: int|
                    old_self.current->0 <= k < cn && #[trigger] kind_of(t, k) != TokenKind::Error implies {
                        &&& kind_of(t, k) != TokenKind::EOF
                        &&& !is_statement_start(kind_of(t, k))
                        &&& (kind_of(t, k) == TokenKind::Semicolon ==> errors_between(t, k, cn))
                    } by {
                    if k < cb {
                        if kind_of(t, k) == TokenKind::Semicolon {
                            assert(errors_between(t, k, cb));
                            if k < pb {
                                assert(kind_of(t, pb) == TokenKind::Error);
                            } else if k > pb {
                                assert(kind_of(t, k) == TokenKind::Error);
                            }
                        }
                    } else if k > cb {
                        assert(kind_of(t, k) == TokenKind::Error);
                    }
                }
                if forall|k: int| old_self.current->0 < k <= cn ==> #[trigger] kind_of(t, k) != TokenKind::Error {
                    assert(old_self.current->0 <= cb);
                    if cn - 1 > cb {
                        assert(kind_of(t, cb + 1) == TokenKind::Error);
                        assert(kind_of(t, cb + 1) != TokenKind::Error);
                    }
                }
            }
        }
    }

    /// From `self` to `new` the cursor skipped no point where compiling may resume: every
    /// token passed over is no `EOF` and starts no statement, and after a `;` passed over
    /// only error tokens come before the new current token.
    closed spec fn skipped_to(&self, new: Self) -> bool {
        forall|k: int|
            self.current->0 <= k < new.current->0 && #[trigger] kind_of(self.tokens@, k) != TokenKind::Error
                ==> {
                &&& kind_of(self.tokens@, k) != TokenKind::EOF
                &&& !is_statement_start(kind_of(self.tokens@, k))
                &&& (kind_of(self.tokens@, k) == TokenKind::Semicolon ==> errors_between(
                    self.tokens@,
                    k,
                    new.current->0 as int,
                ))
            }
    }

    /// Declares the variable named by the token consumed last as a local of the current
    /// scope; globals need no declaration. A name already declared in this scope, or one
    /// local too many, is reported.
    fn declare_variable(&mut self)
        requires
            old(self).inv(),
            old(self).current is Some,
            old(self).previous is Some,
            kind_of(old(self).tokens@, old(self).previous->0 as int) == TokenKind::Identifier,
        ensures
            ({
                let name = identifier_name(old(self).tokens@[old(self).previous->0 as int]);
                let at = old(self).previous->0 as int;
                if old(self).scope_depth == 0 {
                    *final(self) == *old(self)
                } else if doubly_declared(old(self).locals@, name@, old(self).scope_depth as nat) {
                    &&& old(self).same_but_errors(*final(self))
                    &&& old(self).reported(*final(self), at, "Already a variable with this name in scope."@)
                } else if old(self).locals@.len() == LOCALS_COUNT {
                    &&& old(self).same_but_errors(*final(self))
                    &&& old(self).reported(*final(self), at, "Too many local variables in function."@)
                } else {
                    &&& final(self).locals@ == old(self).locals@.push(
                        Local { name: name, depth: old(self).scope_depth, initialized: false },
                    )
                    &&& *final(self) == (Compiler { locals: final(self).locals, ..*old(self) })
                }
            }),
            old(self).step(*final(self)),
    {
        if self.scope_depth == 0 {
            proof {
                Self::lemma_step_refl(*self);
            }
            return;
        }
        let p = match self.previous {
            Some(p) => p,
            None => 0,
        };
        let name = match &self.tokens[p].token_type {
            TokenType::Identifier(id) => id.clone(),
            _ => String::new(),
        };
        let is_doubly_declared = self.locals.local_is_doubly_declared(&name, self.scope_depth);
        if is_doubly_declared {
            self.error("Already a variable with this name in scope.");
            return;
        }
        assert(name == identifier_name(self.tokens@[p as int]));
        let ghost before = *self;
        self.add_local(&name);
        assert(before == *old(self));
    }

    /// Adds a local named `name` to the current scope, or reports that there are too many.
    fn add_local(&mut self, name: &String)
        requires
            old(self).inv(),
            old(self).current is Some,
            old(self).previous is Some,
            old(self).scope_depth > 0,
        ensures
            old(self).locals@.len() == LOCALS_COUNT ==> {
                &&& old(self).same_but_errors(*final(self))
                &&& old(self).reported(*final(self), old(self).previous->0 as int, "Too many local variables in function."@)
            },
            old(self).locals@.len() != LOCALS_COUNT ==> {
                &&& final(self).locals@ == old(self).locals@.push(
                    Local { name: *name, depth: old(self).scope_depth, initialized: false },
                )
                &&& *final(self) == (Compiler { locals: final(self).locals, ..*old(self) })
            },
            old(self).step(*final(self)),
    {
        let locals_count = self.locals.size();
        if locals_count == LOCALS_COUNT {
            self.error("Too many local variables in function.");
            return;
        }
        let ghost before = *self;
        proof {
            reveal(locals_ok);
        }
        self.locals.add_local(name, self.scope_depth);
        proof {
            reveal(locals_ok);
            let ls = self.locals@;
            assert forall|i: int, j: int| 0 <= i < j < ls.len() implies #[trigger] ls[i].depth <= #[trigger] ls[j].depth by {
                if j < ls.len() - 1 {
                    assert(ls[i] == before.locals@[i]);
                    assert(ls[j] == before.locals@[j]);
                }
            }
            assert(locals_ok(self.locals@, self.scope_depth as nat));
            Self::lemma_step_emit(before, *self);
        }
    }

    /// Makes the variable just declared usable: a local is marked initialized, a global
    /// gets its definition written, `index` being its name in the constants.
    fn define_variable(&mut self, index: usize)
        requires
            old(self).inv(),
            old(self).current is Some,
            old(self).previous is Some,
            old(self).scope_depth == 0 ==> index < old(self).chunk.constants@.len(),
        ensures
            old(self).scope_depth > 0 ==> {
                &&& final(self).locals@ == if old(self).locals@.len() == 0 {
                    old(self).locals@
                } else {
                    old(self).locals@.update(
                        old(self).locals@.len() - 1,
                        Local { name: old(self).locals@.last().name, depth: old(self).scope_depth, initialized: true },
                    )
                }
                &&& *final(self) == (Compiler { locals: final(self).locals, ..*old(self) })
            },
            old(self).scope_depth == 0 ==> {
                &&& old(self).same_but_chunk(*final(self))
                &&& final(self).chunk.code@ == old(self).chunk.code@.push(OpCode::OpDefineGlobal(index))
                &&& final(self).chunk.lines@ == old(self).chunk.lines@.push(old(self).prev_line())
                &&& final(self).chunk.constants@ == old(self).chunk.constants@
            },
            old(self).step(*final(self)),
    {
        let scope_depth = self.scope_depth;
        if scope_depth > 0 {
            let ghost before = *self;
            self.locals.initialize_variable(scope_depth);
            proof {
                reveal(locals_ok);
                let ls = self.locals@;
                let n = ls.len() as int;
                assert forall|i: int, j: int| 0 <= i < j < ls.len() implies #[trigger] ls[i].depth <= #[trigger] ls[j].depth by {
                    if j < n - 1 {
                        assert(ls[i] == before.locals@[i]);
                        assert(ls[j] == before.locals@[j]);
                    } else {
                        assert(ls[i] == before.locals@[i]);
                    }
                }
                assert forall|i: int| 0 <= i < ls.len() implies 1 <= #[trigger] ls[i].depth <= scope_depth by {
                    if i < n - 1 {
                        assert(ls[i] == before.locals@[i]);
                    }
                }
                assert(locals_ok(self.locals@, self.scope_depth as nat));
                Self::lemma_step_emit(before, *self);
            }
            return;
        }
        self.emit_byte(OpCode::OpDefineGlobal(index));
    }

    /// Consumes the name of a variable being declared and declares it; for a global,
    /// adds the name to the constants and returns its index (0 for a local).
    fn parse_variable(&mut self, message: &str) -> (index: usize)
        requires
            old(self).inv(),
            compiler_message(message@),
            old(self).current is Some,
            old(self).previous is Some,
            kind_of(old(self).tokens@, old(self).previous->0 as int) == TokenKind::Var,
        ensures
            old(self).step(*final(self)),
            old(self).pos < final(self).pos,
            final(self).scope_depth == old(self).scope_depth,
            final(self).locals@.len() <= old(self).locals@.len() + 1,
            final(self).previous == old(self).current,
            kind_of(final(self).tokens@, final(self).previous->0 as int) == TokenKind::Identifier,
            old(self).quiet(*final(self)) ==> final(self).current->0 == old(self).current->0 + 1,
            old(self).scope_depth == 0 ==> final(self).chunk.constants@ == old(self).chunk.constants@.push(
                Value::Str(identifier_name(old(self).tokens@[old(self).current->0 as int])),
            ),
            old(self).scope_depth > 0 && old(self).quiet(*final(self)) ==> {
                &&& final(self).locals@ == old(self).locals@.push(
                    Local {
                        name: identifier_name(old(self).tokens@[old(self).current->0 as int]),
                        depth: old(self).scope_depth,
                        initialized: false,
                    },
                )
                &&& final(self).chunk == old(self).chunk
            },
            old(self).scope_depth == 0 ==> {
                &&& index == old(self).chunk.constants@.len()
                &&& index < final(self).chunk.constants@.len()
                &&& final(self).chunk.constants@[index as int] == Value::Str(
                    identifier_name(final(self).tokens@[final(self).previous->0 as int]),
                )
                &&& final(self).chunk.code@ == old(self).chunk.code@
                &&& final(self).locals@ == old(self).locals@
            },
            old(self).scope_depth > 0 ==> index == 0,
            kind_of(old(self).tokens@, old(self).current->0 + 1) != TokenKind::Error ==> final(self).current->0
                == old(self).current->0 + 1,
            old(self).scope_depth > 0 ==> {
                let name = identifier_name(final(self).tokens@[final(self).previous->0 as int]);
                &&& final(self).chunk == old(self).chunk
                &&& if doubly_declared(old(self).locals@, name@, old(self).scope_depth as nat) || old(self).locals@.len()
                    == LOCALS_COUNT {
                    &&& final(self).locals@ == old(self).locals@
                    &&& final(self).had_error
                } else {
                    final(self).locals@ == old(self).locals@.push(
                        Local { name: name, depth: old(self).scope_depth, initialized: false },
                    )
                }
            },
            old(self).clean_start() ==> {
                let name = identifier_name(old(self).tokens@[old(self).current->0 as int]);
                let depth = old(self).scope_depth;
                if depth == 0 {
                    old(self).quiet(*final(self))
                } else if doubly_declared(old(self).locals@, name@, depth as nat) {
                    &&& final(self).errors@.len() == old(self).errors@.len() + 1
                    &&& reports(
                        final(self).errors@.last(),
                        old(self).tokens@[old(self).current->0 as int],
                        "Already a variable with this name in scope."@,
                    )
                } else if old(self).locals@.len() == LOCALS_COUNT {
                    &&& final(self).errors@.len() == old(self).errors@.len() + 1
                    &&& reports(
                        final(self).errors@.last(),
                        old(self).tokens@[old(self).current->0 as int],
                        "Too many local variables in function."@,
                    )
                } else {
                    old(self).quiet(*final(self))
                }
            },
            old(self).scope_depth > 0 && old(self).quiet(*final(self)) ==> {
                let name = identifier_name(old(self).tokens@[old(self).current->0 as int]);
                &&& !doubly_declared(old(self).locals@, name@, old(self).scope_depth as nat)
                &&& old(self).locals@.len() < LOCALS_COUNT
            },
    {
        proof {
            Self::lemma_var_then_name(*self);
        }
        let ghost s0 = *self;
        self.consume(TokenKind::Identifier, message);
        let ghost s1 = *self;
        let p = match self.previous {
            Some(p) => p,
            None => 0,
        };
        let line = self.tokens[p].line;
        let name = match &self.tokens[p].token_type {
            TokenType::Identifier(id) => id.clone(),
            _ => String::new(),
        };
        self.declare_variable();
        proof {
            Self::lemma_step_trans(s0, s1, *self);
            if s0.quiet(*self) {
                Self::lemma_quiet_split(s0, s1, *self);
                Self::lemma_quiet_advance(s0, s1);
                assert(s0.tokens@.last() == s0.tokens@[s0.tokens@.len() - 1]);
            }
            if s0.clean_start() {
                Self::lemma_clean_advance(s0, s1);
            }
            Self::lemma_var_then_name(s0);
            if s0.quiet(*self) {
                assert(s1.previous == s0.current);
                assert(!s1.panic_mode);
                reveal(locals_ok);
            }
            if s1.pos - 1 > s0.pos {
                assert(kind_of(s0.tokens@, s0.pos as int) == TokenKind::Error);
            }
        }
        if self.scope_depth > 0 {
            return 0;
        }
        let ghost s2 = *self;
        let index = self.emit_identifier_constant(&name, line, VariableOp::Define);
        proof {
            Self::lemma_step_emit(s2, *self);
            Self::lemma_step_trans(s0, s2, *self);
            if s0.quiet(*self) {
                Self::lemma_quiet_split(s0, s2, *self);
            }
        }
        index
    }

    /// Compiles an expression.
    fn expression(&mut self) -> (e: Ghost<Expr>)
        requires
            old(self).inv(),
            old(self).current is Some,
        ensures
            old(self).silent(*final(self)),
            old(self).step(*final(self)),
            final(self).locals@ == old(self).locals@,
            final(self).scope_depth == old(self).scope_depth,
            old(self).pos < old(self).tokens@.len() ==> old(self).pos < final(self).pos,
            old(self).quiet(*final(self)) ==> {
                &&& expr_parses(
                    old(self).tokens@,
                    old(self).current->0 as int,
                    final(self).current->0 as int,
                    Precedence::PrecAssign,
                    e@,
                )
                &&& old(self).expr_emitted(*final(self), e@)
            },
            forall|j: int, x: Expr|
                #[trigger] expr_parses(old(self).tokens@, old(self).current->0 as int, j, Precedence::PrecAssign, x)
                    && old(self).clean_start() && expr_clean(x, old(self).locals@) ==> old(self).ran_clean(
                    *final(self),
                    j,
                ) && e@ == x,
            old(self).quiet(*final(self)) ==> expr_clean(e@, old(self).locals@),
        decreases old(self).remaining(), 2nat,
    {
        self.parse(Precedence::PrecAssign)
    }

    /// Compiles an expression whose operators bind at least as tightly as `precedence`:
    /// the token read first is parsed by its prefix function, then as long as the token in
    /// view binds at least as tightly, it is parsed by its infix function.
    fn parse(&mut self, precedence: Precedence) -> (e: Ghost<Expr>)
        requires
            old(self).inv(),
            old(self).current is Some,
            precedence.spec_level() >= 1,
        ensures
            old(self).silent(*final(self)),
            old(self).step(*final(self)),
            final(self).locals@ == old(self).locals@,
            final(self).scope_depth == old(self).scope_depth,
            old(self).pos < old(self).tokens@.len() ==> old(self).pos < final(self).pos,
            old(self).quiet(*final(self)) ==> {
                &&& expr_parses(
                    old(self).tokens@,
                    old(self).current->0 as int,
                    final(self).current->0 as int,
                    precedence,
                    e@,
                )
                &&& old(self).expr_emitted(*final(self), e@)
            },
            rule_of(kind_of(old(self).tokens@, old(self).current->0 as int)).prefix_fn is None ==> {
                &&& final(self).previous == old(self).current
                &&& final(self).chunk == old(self).chunk
                &&& e@ == Expr::Missing
                &&& kind_of(old(self).tokens@, old(self).current->0 as int) != TokenKind::EOF ==> final(self).had_error
                &&& kind_of(old(self).tokens@, old(self).current->0 as int) != TokenKind::EOF ==> exists|mid: Compiler|
                    #[trigger] old(self).advanced(mid) && mid.reported(
                        *final(self),
                        mid.previous->0 as int,
                        "No prefix function parsed for precedence "@ + precedence.spec_name() + "."@,
                    )
                &&& kind_of(old(self).tokens@, old(self).current->0 as int) == TokenKind::EOF ==> old(self).advanced(
                    *final(self),
                )
            },
            forall|j: int, x: Expr|
                #[trigger] expr_parses(old(self).tokens@, old(self).current->0 as int, j, precedence, x)
                    && old(self).clean_start() && expr_clean(x, old(self).locals@) ==> old(self).ran_clean(
                    *final(self),
                    j,
                ) && e@ == x,
            old(self).quiet(*final(self)) ==> expr_clean(e@, old(self).locals@),
        decreases old(self).remaining(), 1nat,
    {
        let ghost s0 = *self;
        let ghost c0 = s0.current->0 as int;
        let ghost t = s0.tokens@;
        let ghost ls = s0.locals@;
        self.advance();
        let ghost s1 = *self;
        proof {
            if s0.clean_start() {
                Self::lemma_clean_advance(s0, s1);
            }
            assert(t.last() == t[t.len() - 1]);
        }
        let p = match self.previous {
            Some(p) => p,
            None => 0,
        };
        let prev_kind = self.tokens[p].kind();
        let rule = Self::get_rule(prev_kind);
        let can_assign = precedence.le(&Precedence::PrecAssign);
        let mut left: Ghost<Expr> = Ghost(Expr::Missing);
        match rule.prefix_fn {
            Some(prefix_fn) => {
                proof {
                    assert(s0.tokens@.last() == s0.tokens@[s0.tokens@.len() - 1]);
                    assert(s0.pos < s1.pos);
                }
                left = self.apply_prefix(prefix_fn, can_assign);
                proof {
                    Self::lemma_step_trans(s0, s1, *self);
                    if s0.quiet(*self) {
                        Self::lemma_quiet_split(s0, s1, *self);
                        Self::lemma_quiet_advance(s0, s1);
                        Self::lemma_expr_emitted_trans(s0, s1, *self, left@);
                    }
                    assert forall|j: int, x: Expr|
                        #[trigger] expr_parses(t, c0, j, precedence, x) && s0.clean_start() && expr_clean(x, ls) implies s0.quiet(*self) && left_spine(x, left@) && infix_parses(
                        t,
                        c0,
                        self.current->0 as int,
                        precedence,
                        can_assign,
                        left@,
                    ) by {
                        if !(x is Missing) {
                            let r = lemma_first_operand(t, c0, j, precedence, can_assign, x, ls);
                            lemma_prefix_rule(t, c0, r.1, can_assign, r.0);
                            assert(prefix_parses(s1.tokens@, s1.previous->0 as int, r.1, can_assign, r.0));
                        }
                    }
                }
            },
            None => {
                if prev_kind == TokenKind::EOF {
                    proof {
                        if s0.quiet(*self) {
                            Self::lemma_quiet_advance(s0, s1);
                            Self::lemma_emitted_nothing(s0, *self);
                        }
                        assert forall|j: int, x: Expr|
                            #[trigger] expr_parses(t, c0, j, precedence, x) && s0.clean_start() && expr_clean(x, ls) implies s0.ran_clean(*self, j) && left@ == x by {
                            if !(x is Missing) {
                                let r = lemma_first_operand(t, c0, j, precedence, can_assign, x, ls);
                                lemma_prefix_rule(t, c0, r.1, can_assign, r.0);
                            }
                        }
                    }
                    return left;
                }
                let mut message = "No prefix function parsed for precedence ".to_owned();
                message.append(precedence.name());
                message.append(".");
                self.error(message.as_str());
                proof {
                    assert(s0.advanced(s1));
                    Self::lemma_step_trans(s0, s1, *self);
                    assert forall|j: int, x: Expr|
                        #[trigger] expr_parses(t, c0, j, precedence, x) && s0.clean_start() && expr_clean(x, ls) implies s0.ran_clean(*self, j) && left@ == x by {
                        if !(x is Missing) {
                            let r = lemma_first_operand(t, c0, j, precedence, can_assign, x, ls);
                            lemma_prefix_rule(t, c0, r.1, can_assign, r.0);
                        }
                    }
                }
                return left;
            },
        }
        loop
            invariant_except_break
                s0 == *old(self),
                t == s0.tokens@,
                c0 == s0.current->0 as int,
                can_assign == (precedence.spec_level() <= 1),
                self.inv(),
                self.current is Some,
                self.previous is Some,
                s0.step(*self),
                s0.silent(*self),
                self.locals@ == s0.locals@,
                self.scope_depth == s0.scope_depth,
                s0.pos < self.pos,
                precedence.spec_level() >= 1,
                ls == s0.locals@,
                forall|j: int, x: Expr|
                    #[trigger] expr_parses(t, c0, j, precedence, x) && s0.clean_start() && expr_clean(x, ls) ==> s0.quiet(*self) && left_spine(x, left@) && infix_parses(
                        t,
                        c0,
                        self.current->0 as int,
                        precedence,
                        can_assign,
                        left@,
                    ),
                s0.quiet(*self) ==> {
                    &&& infix_parses(t, c0, self.current->0 as int, precedence, can_assign, left@)
                    &&& !(left@ is Missing)
                    &&& s0.expr_emitted(*self, left@)
                    &&& expr_clean(left@, ls)
                },
            ensures
                self.inv(),
                self.current is Some,
                self.previous is Some,
                s0.step(*self),
                s0.silent(*self),
                self.locals@ == s0.locals@,
                self.scope_depth == s0.scope_depth,
                s0.pos < self.pos,
                s0.quiet(*self) ==> {
                    &&& infix_parses(t, c0, self.current->0 as int, precedence, can_assign, left@)
                    &&& !(left@ is Missing)
                    &&& s0.expr_emitted(*self, left@)
                    &&& expr_clean(left@, ls)
                },
                infix_precedence(kind_of(t, self.current->0 as int)).spec_level() < precedence.spec_level(),
                ls == s0.locals@,
                forall|j: int, x: Expr|
                    #[trigger] expr_parses(t, c0, j, precedence, x) && s0.clean_start() && expr_clean(x, ls) ==> s0.quiet(*self) && left_spine(x, left@) && infix_parses(
                        t,
                        c0,
                        self.current->0 as int,
                        precedence,
                        can_assign,
                        left@,
                    ),
            decreases self.tokens@.len() - self.pos,
        {
            let c = match self.current {
                Some(c) => c,
                None => 0,
            };
            let operator_kind = self.tokens[c].kind();
            let current_rule = Self::get_rule(operator_kind);
            if !precedence.le(&current_rule.precedence) {
                break;
            }
            let ghost s2 = *self;
            proof {
                assert(s2.tokens@.last() == s2.tokens@[s2.tokens@.len() - 1]);
            }
            self.advance();
            let ghost s3 = *self;
            proof {
                Self::lemma_step_trans(s0, s2, s3);
            }
            let p = match self.previous {
                Some(p) => p,
                None => 0,
            };
            let prev_kind = self.tokens[p].kind();
            let rule = Self::get_rule(prev_kind);
            match rule.infix_fn {
                Some(infix_fn) => {
                    let ghost prev_left = left@;
                    let right = self.apply_infix(infix_fn, can_assign);
                    let ghost s4 = *self;
                    proof {
                        Self::lemma_step_trans(s0, s3, s4);
                    }
                    let ghost new_left = infix_expr(left@, operator_kind, right@);
                    if can_assign && self.match_token(TokenKind::Equal) {
                        let ghost s5 = *self;
                        self.error("Invalid assignment target.");
                        proof {
                            Self::lemma_step_trans(s0, s4, s5);
                            Self::lemma_step_trans(s0, s5, *self);
                        }
                    } else {
                        proof {
                            if s0.quiet(*self) {
                                Self::lemma_quiet_split(s0, s2, *self);
                                Self::lemma_quiet_split(s2, s3, *self);
                                Self::lemma_quiet_advance(s2, s3);
                                Self::lemma_infix_step(s0, s2, s3, *self, left@, operator_kind, right@, precedence, can_assign);
                            }
                        }
                    }
                    left = Ghost(new_left);
                    proof {
                        assert forall|j: int, x: Expr|
                            #[trigger] expr_parses(t, c0, j, precedence, x) && s0.clean_start() && expr_clean(x, ls) implies s0.quiet(*self) && left_spine(x, left@) && infix_parses(
                            t,
                            c0,
                            self.current->0 as int,
                            precedence,
                            can_assign,
                            left@,
                        ) by {
                            let m = s2.current->0 as int;
                            if x == prev_left {
                                lemma_infix_end(t, c0, j, m, precedence, can_assign, x);
                                assert(false);
                            }
                            let r = lemma_next_operation(t, c0, j, m, precedence, can_assign, x, prev_left, ls);
                            Self::lemma_clean_advance(s2, s3);
                            assert(expr_parses(
                                s3.tokens@,
                                s3.current->0 as int,
                                r.2,
                                right_precedence(kind_of(s3.tokens@, s3.previous->0 as int)),
                                r.1,
                            ));
                        }
                    }
                },
                None => {
                    proof {
                        law_infix_operators(operator_kind);
                        assert(false);
                    }
                    if prev_kind == TokenKind::EOF {
                        return left;
                    }
                    self.error("No infix function parsed.");
                    proof {
                        Self::lemma_step_trans(s0, s3, *self);
                    }
                    return left;
                },
            }
        }
        proof {
            assert forall|j: int, x: Expr|
                #[trigger] expr_parses(t, c0, j, precedence, x) && s0.clean_start() && expr_clean(x, ls) implies s0.ran_clean(*self, j) && left@ == x by {
                let m = self.current->0 as int;
                if x != left@ {
                    let r = lemma_next_operation(t, c0, j, m, precedence, can_assign, x, left@, ls);
                } else {
                    lemma_infix_end(t, c0, j, m, precedence, can_assign, x);
                }
            }
        }
        left
    }

    /// Runs the prefix parse function `f` for the token consumed last.
    fn apply_prefix(&mut self, f: ParseFn, can_assign: bool) -> (e: Ghost<Expr>)
        requires
            old(self).inv(),
            old(self).current is Some,
            old(self).previous is Some,
            rule_of(kind_of(old(self).tokens@, old(self).previous->0 as int)).prefix_fn == Some(f),
        ensures
            old(self).silent(*final(self)),
            old(self).step(*final(self)),
            final(self).locals@ == old(self).locals@,
            final(self).scope_depth == old(self).scope_depth,
            old(self).quiet(*final(self)) && old(self).current->0 == old(self).previous->0 + 1 ==> {
                &&& prefix_parses(
                    old(self).tokens@,
                    old(self).previous->0 as int,
                    final(self).current->0 as int,
                    can_assign,
                    e@,
                )
                &&& old(self).expr_emitted(*final(self), e@)
            },
            forall|j: int, x: Expr|
                #[trigger] prefix_parses(old(self).tokens@, old(self).previous->0 as int, j, can_assign, x)
                    && old(self).clean_start() && expr_clean(x, old(self).locals@) && old(self).current->0
                    == old(self).previous->0 + 1 ==> old(self).ran_clean(*final(self), j) && e@ == x,
            old(self).quiet(*final(self)) ==> expr_clean(e@, old(self).locals@),
        decreases old(self).remaining(), 4nat,
    {
        let p = match self.previous {
            Some(p) => p,
            None => 0,
        };
        let line = self.tokens[p].line;
        let ghost s0 = *self;
        match f {
            ParseFn::Grouping => self.grouping(can_assign),
            ParseFn::Unary => self.unary(can_assign),
            ParseFn::Number => {
                let num = match &self.tokens[p].token_type {
                    TokenType::Number(n) => *n,
                    _ => 0,
                };
                self.number(num, line, can_assign);
                proof {
                    Self::lemma_emitted_one(s0, *self, Expr::Number(num));
                assert forall|j: int, x: Expr|
                    #[trigger] prefix_parses(s0.tokens@, p as int, j, can_assign, x) && s0.clean_start() && expr_clean(
                        x,
                        s0.locals@,
                    ) && s0.current->0 == p + 1 implies s0.ran_clean(*self, j) && Expr::Number(num) == x by {}
                }
                Ghost(Expr::Number(num))
            },
            ParseFn::StringLiteral => {
                let text = match &self.tokens[p].token_type {
                    TokenType::StringLiteral(t) => t.clone(),
                    _ => String::new(),
                };
                self.string(&text, line, can_assign);
                proof {
                    Self::lemma_emitted_one(s0, *self, Expr::Str(text));
                assert forall|j: int, x: Expr|
                    #[trigger] prefix_parses(s0.tokens@, p as int, j, can_assign, x) && s0.clean_start() && expr_clean(
                        x,
                        s0.locals@,
                    ) && s0.current->0 == p + 1 implies s0.ran_clean(*self, j) && Expr::Str(text) == x by {}
                }
                Ghost(Expr::Str(text))
            },
            ParseFn::Literal => {
                let ghost k = kind_of(self.tokens@, p as int);
                self.literal(can_assign);
                proof {
                    Self::lemma_emitted_one(s0, *self, Expr::Literal(k));
                assert forall|j: int, x: Expr|
                    #[trigger] prefix_parses(s0.tokens@, p as int, j, can_assign, x) && s0.clean_start() && expr_clean(
                        x,
                        s0.locals@,
                    ) && s0.current->0 == p + 1 implies s0.ran_clean(*self, j) && Expr::Literal(k) == x by {}
                }
                Ghost(Expr::Literal(k))
            },
            ParseFn::Variable => {
                let name = match &self.tokens[p].token_type {
                    TokenType::Identifier(id) => id.clone(),
                    _ => String::new(),
                };
                proof {
                    assert(identifier_name(s0.tokens@[p as int]) == name);
                }
                self.variable(&name, line, can_assign)
            },
            _ => {
                proof {
                    Self::lemma_step_refl(*self);
                }
                Ghost(Expr::Missing)
            },
        }
    }

    /// Runs the infix parse function `f` for the operator consumed last, its left operand
    /// being compiled, and gives its right operand.
    fn apply_infix(&mut self, f: ParseFn, can_assign: bool) -> (right: Ghost<Expr>)
        requires
            old(self).inv(),
            old(self).current is Some,
            old(self).previous is Some,
            rule_of(kind_of(old(self).tokens@, old(self).previous->0 as int)).infix_fn == Some(f),
        ensures
            old(self).silent(*final(self)),
            old(self).step(*final(self)),
            final(self).locals@ == old(self).locals@,
            final(self).scope_depth == old(self).scope_depth,
            old(self).quiet(*final(self)) ==> {
                let op = kind_of(old(self).tokens@, old(self).previous->0 as int);
                &&& expr_parses(
                    old(self).tokens@,
                    old(self).current->0 as int,
                    final(self).current->0 as int,
                    right_precedence(op),
                    right@,
                )
                &&& old(self).emitted(
                    *final(self),
                    infix_tail(op, right@, old(self).chunk.constants@.len(), old(self).locals@),
                )
            },
            forall|j: int, x: Expr|
                #[trigger] expr_parses(
                    old(self).tokens@,
                    old(self).current->0 as int,
                    j,
                    right_precedence(kind_of(old(self).tokens@, old(self).previous->0 as int)),
                    x,
                ) && old(self).clean_start() && expr_clean(x, old(self).locals@) ==> old(self).ran_clean(
                    *final(self),
                    j,
                ) && right@ == x,
            old(self).quiet(*final(self)) ==> expr_clean(right@, old(self).locals@),
        decreases old(self).remaining(), 4nat,
    {
        match f {
            ParseFn::Binary => self.binary(can_assign),
            ParseFn::And => self.and_(can_assign),
            ParseFn::Or => self.or(can_assign),
            _ => {
                proof {
                    Self::lemma_step_refl(*self);
                }
                Ghost(Expr::Missing)
            },
        }
    }

    /// Compiles a parenthesized expression, the `(` being consumed.
    fn grouping(&mut self, _can_assign: bool) -> (e: Ghost<Expr>)
        requires
            old(self).inv(),
            old(self).current is Some,
            old(self).previous is Some,
            kind_of(old(self).tokens@, old(self).previous->0 as int) == TokenKind::LeftParen,
        ensures
            old(self).silent(*final(self)),
            old(self).step(*final(self)),
            final(self).locals@ == old(self).locals@,
            final(self).scope_depth == old(self).scope_depth,
            old(self).quiet(*final(self)) && old(self).current->0 == old(self).previous->0 + 1 ==> {
                &&& prefix_parses(
                    old(self).tokens@,
                    old(self).previous->0 as int,
                    final(self).current->0 as int,
                    _can_assign,
                    e@,
                )
                &&& old(self).expr_emitted(*final(self), e@)
            },
            forall|j: int, x: Expr|
                #[trigger] prefix_parses(old(self).tokens@, old(self).previous->0 as int, j, _can_assign, x)
                    && old(self).clean_start() && expr_clean(x, old(self).locals@) && old(self).current->0
                    == old(self).previous->0 + 1 ==> old(self).ran_clean(*final(self), j) && e@ == x,
            old(self).quiet(*final(self)) ==> expr_clean(e@, old(self).locals@),
        decreases old(self).remaining(), 3nat,
    {
        let ghost s0 = *self;
        let inner = self.expression();
        let ghost s1 = *self;
        self.consume(TokenKind::RightParen, "Expect ')' after expression.");
        proof {
            Self::lemma_step_trans(s0, s1, *self);
            assert forall|j: int, x: Expr|
                #[trigger] prefix_parses(s0.tokens@, s0.previous->0 as int, j, _can_assign, x)
                    && s0.clean_start() && expr_clean(x, s0.locals@) && s0.current->0 == s0.previous->0 + 1
                    implies s0.ran_clean(*self, j) && Expr::Group(Box::new(inner@)) == x by {
                let inner_x = x->Group_0;
                assert(expr_parses(s0.tokens@, s0.current->0 as int, j - 1, Precedence::PrecAssign, *inner_x));
                assert(s1.tokens@.last() == s1.tokens@[s1.tokens@.len() - 1]);
                Self::lemma_clean_advance(s1, *self);
            }
            if s0.quiet(*self) {
                Self::lemma_quiet_split(s0, s1, *self);
                Self::lemma_quiet_advance(s1, *self);
                assert(s1.tokens@.last() == s1.tokens@[s1.tokens@.len() - 1]);
                Self::lemma_expr_emitted_trans(s0, s0, s1, inner@);
                assert(self.chunk == s1.chunk);
            }
        }
        Ghost(Expr::Group(Box::new(inner@)))
    }

    /// Compiles a number literal: its constant is loaded.
    fn number(&mut self, num: u64, line: usize, _can_assign: bool)
        requires
            old(self).inv(),
            old(self).current is Some,
            old(self).previous is Some,
        ensures
            old(self).silent(*final(self)),
            old(self).same_but_chunk(*final(self)),
            final(self).chunk.constants@ == old(self).chunk.constants@.push(Value::Number(num)),
            final(self).chunk.code@ == old(self).chunk.code@.push(
                OpCode::OpConstant(old(self).chunk.constants@.len() as usize),
            ),
            final(self).chunk.lines@ == old(self).chunk.lines@.push(line),
            old(self).step(*final(self)),
    {
        let ghost s0 = *self;
        self.emit_constant(Value::Number(num), line);
        proof {
            Self::lemma_constant_step(s0, *self, Value::Number(num), line);
        }
    }

    /// Compiles a string literal: a copy of its text becomes a constant, which is loaded.
    fn string(&mut self, text: &String, line: usize, _can_assign: bool)
        requires
            old(self).inv(),
            old(self).current is Some,
            old(self).previous is Some,
        ensures
            old(self).silent(*final(self)),
            old(self).same_but_chunk(*final(self)),
            final(self).chunk.constants@ == old(self).chunk.constants@.push(Value::Str(*text)),
            final(self).chunk.code@ == old(self).chunk.code@.push(
                OpCode::OpConstant(old(self).chunk.constants@.len() as usize),
            ),
            final(self).chunk.lines@ == old(self).chunk.lines@.push(line),
            old(self).step(*final(self)),
    {
        let ghost s0 = *self;
        let value = Value::Str(text.clone());
        self.emit_constant(value, line);
        proof {
            Self::lemma_constant_step(s0, *self, Value::Str(*text), line);
        }
    }

    /// Compiles `true`, `false` or `nil`, the token consumed last; after any other token
    /// it writes nothing.
    fn literal(&mut self, _can_assign: bool)
        requires
            old(self).inv(),
            old(self).current is Some,
            old(self).previous is Some,
        ensures
            old(self).silent(*final(self)),
            ({
                let k = kind_of(old(self).tokens@, old(self).previous->0 as int);
                if k == TokenKind::True || k == TokenKind::False || k == TokenKind::Nil {
                    &&& old(self).same_but_chunk(*final(self))
                    &&& final(self).chunk.code@ == old(self).chunk.code@.push(
                        if k == TokenKind::True {
                            OpCode::OpTrue
                        } else if k == TokenKind::False {
                            OpCode::OpFalse
                        } else {
                            OpCode::OpNil
                        },
                    )
                    &&& final(self).chunk.lines@ == old(self).chunk.lines@.push(old(self).prev_line())
                    &&& final(self).chunk.constants@ == old(self).chunk.constants@
                } else {
                    *final(self) == *old(self)
                }
            }),
            old(self).step(*final(self)),
    {
        let p = match self.previous {
            Some(p) => p,
            None => 0,
        };
        match self.tokens[p].kind() {
            TokenKind::True => self.emit_byte(OpCode::OpTrue),
            TokenKind::False => self.emit_byte(OpCode::OpFalse),
            TokenKind::Nil => self.emit_byte(OpCode::OpNil),
            _ => {
                proof {
                    Self::lemma_step_refl(*self);
                }
            },
        }
    }

    /// Compiles a prefix `-` or `!`, the operator being consumed: the operand, then the
    /// negation.
    fn unary(&mut self, _can_assign: bool) -> (e: Ghost<Expr>)
        requires
            old(self).inv(),
            old(self).current is Some,
            old(self).previous is Some,
            kind_of(old(self).tokens@, old(self).previous->0 as int) == TokenKind::Minus || kind_of(
                old(self).tokens@,
                old(self).previous->0 as int,
            ) == TokenKind::Bang,
        ensures
            old(self).silent(*final(self)),
            old(self).step(*final(self)),
            final(self).locals@ == old(self).locals@,
            final(self).scope_depth == old(self).scope_depth,
            final(self).chunk.code@.last() == if kind_of(old(self).tokens@, old(self).previous->0 as int)
                == TokenKind::Minus {
                OpCode::OpNegate
            } else {
                OpCode::OpNot
            },
            old(self).quiet(*final(self)) && old(self).current->0 == old(self).previous->0 + 1 ==> {
                &&& prefix_parses(
                    old(self).tokens@,
                    old(self).previous->0 as int,
                    final(self).current->0 as int,
                    _can_assign,
                    e@,
                )
                &&& old(self).expr_emitted(*final(self), e@)
            },
            forall|j: int, x: Expr|
                #[trigger] prefix_parses(old(self).tokens@, old(self).previous->0 as int, j, _can_assign, x)
                    && old(self).clean_start() && expr_clean(x, old(self).locals@) && old(self).current->0
                    == old(self).previous->0 + 1 ==> old(self).ran_clean(*final(self), j) && e@ == x,
            old(self).quiet(*final(self)) ==> expr_clean(e@, old(self).locals@),
        decreases old(self).remaining(), 3nat,
    {
        let p = match self.previous {
            Some(p) => p,
            None => 0,
        };
        let operator_kind = self.tokens[p].kind();
        let ghost s0 = *self;
        let operand = self.parse(Precedence::PrecUnary);
        let ghost s1 = *self;
        match operator_kind {
            TokenKind::Minus => self.emit_byte(OpCode::OpNegate),
            _ => self.emit_byte(OpCode::OpNot),
        }
        let ghost e = Expr::Unary(operator_kind, Box::new(operand@));
        proof {
            Self::lemma_step_trans(s0, s1, *self);
            assert forall|j: int, x: Expr|
                #[trigger] prefix_parses(s0.tokens@, s0.previous->0 as int, j, _can_assign, x)
                    && s0.clean_start() && expr_clean(x, s0.locals@) && s0.current->0 == s0.previous->0 + 1
                    implies s0.ran_clean(*self, j) && e == x by {
                let operand_x = x->Unary_1;
                assert(expr_parses(s0.tokens@, s0.current->0 as int, j, Precedence::PrecUnary, *operand_x));
            }
            if s0.quiet(*self) {
                Self::lemma_quiet_split(s0, s1, *self);
                let (c, k) = expr_code(operand@, s0.chunk.constants@.len(), s0.locals@);
                assert(self.chunk.code@ =~= s0.chunk.code@ + c.push(self.chunk.code@.last()));
                assert(self.chunk.constants@ =~= s0.chunk.constants@ + k);
            }
        }
        Ghost(e)
    }

    /// Compiles a binary operator, the operator being consumed and its left operand
    /// compiled: the right operand, which binds one level tighter, then the operation.
    /// Gives the right operand.
    fn binary(&mut self, _can_assign: bool) -> (right: Ghost<Expr>)
        requires
            old(self).inv(),
            old(self).current is Some,
            old(self).previous is Some,
            is_binary_operator(kind_of(old(self).tokens@, old(self).previous->0 as int)),
        ensures
            old(self).silent(*final(self)),
            old(self).step(*final(self)),
            final(self).locals@ == old(self).locals@,
            final(self).scope_depth == old(self).scope_depth,
            ({
                let ops = binary_ops(kind_of(old(self).tokens@, old(self).previous->0 as int));
                let code = final(self).chunk.code@;
                &&& code.len() >= old(self).chunk.code@.len() + ops.len()
                &&& code.subrange(code.len() - ops.len(), code.len() as int) == ops
            }),
            old(self).quiet(*final(self)) ==> {
                let op = kind_of(old(self).tokens@, old(self).previous->0 as int);
                &&& expr_parses(
                    old(self).tokens@,
                    old(self).current->0 as int,
                    final(self).current->0 as int,
                    right_precedence(op),
                    right@,
                )
                &&& old(self).emitted(
                    *final(self),
                    infix_tail(op, right@, old(self).chunk.constants@.len(), old(self).locals@),
                )
            },
            forall|j: int, x: Expr|
                #[trigger] expr_parses(
                    old(self).tokens@,
                    old(self).current->0 as int,
                    j,
                    right_precedence(kind_of(old(self).tokens@, old(self).previous->0 as int)),
                    x,
                ) && old(self).clean_start() && expr_clean(x, old(self).locals@) ==> old(self).ran_clean(
                    *final(self),
                    j,
                ) && right@ == x,
            old(self).quiet(*final(self)) ==> expr_clean(right@, old(self).locals@),
        decreases old(self).remaining(), 3nat,
    {
        let p = match self.previous {
            Some(p) => p,
            None => 0,
        };
        let operator_kind = self.tokens[p].kind();
        let rule = Self::get_rule(operator_kind);
        let ghost s0 = *self;
        let right = self.parse(rule.precedence.get_next());
        let ghost s1 = *self;
        match operator_kind {
            TokenKind::Plus => self.emit_byte(OpCode::OpAdd),
            TokenKind::Minus => self.emit_byte(OpCode::OpSubtract),
            TokenKind::Star => self.emit_byte(OpCode::OpMultiply),
            TokenKind::Slash => self.emit_byte(OpCode::OpDivide),
            TokenKind::BangEqual => self.emit_bytes(OpCode::OpEqual, OpCode::OpNot),
            TokenKind::EqualEqual => self.emit_byte(OpCode::OpEqual),
            TokenKind::Greater => self.emit_byte(OpCode::OpGreater),
            TokenKind::GreaterEqual => self.emit_bytes(OpCode::OpLess, OpCode::OpNot),
            TokenKind::Less => self.emit_byte(OpCode::OpLess),
            _ => self.emit_bytes(OpCode::OpGreater, OpCode::OpNot),
        }
        proof {
            let c1 = s1.chunk.code@;
            let c = self.chunk.code@;
            let ops = binary_ops(operator_kind);
            assert(c =~= c1 + ops);
            if ops.len() == 2 {
                lemma_patched_empty(c1);
                lemma_patched_push(c1, c1.len() as int, ops[0]);
                lemma_patched_push(c1.push(ops[0]), c1.len() as int, ops[1]);
                assert(c =~= c1.push(ops[0]).push(ops[1]));
                assert(self.chunk.code@.subrange(0, c1.len() as int) =~= c1);
                assert(self.chunk.lines@.subrange(0, s1.chunk.lines@.len() as int) =~= s1.chunk.lines@);
                assert(self.chunk.constants@.subrange(0, s1.chunk.constants@.len() as int) =~= s1.chunk.constants@);
                Self::lemma_step_emit(s1, *self);
            }
            Self::lemma_step_trans(s0, s1, *self);
            assert(c.subrange(c.len() - ops.len(), c.len() as int) =~= ops);
            assert forall|j: int, x: Expr|
                #[trigger] expr_parses(s0.tokens@, s0.current->0 as int, j, right_precedence(operator_kind), x)
                    && s0.clean_start() && expr_clean(x, s0.locals@) implies s0.ran_clean(*self, j) && right@ == x by {
                assert(expr_parses(s0.tokens@, s0.current->0 as int, j, rule.precedence.spec_next(), x));
            }
            if s0.quiet(*self) {
                Self::lemma_quiet_split(s0, s1, *self);
                let (cr, kr) = expr_code(right@, s0.chunk.constants@.len(), s0.locals@);
                assert(c =~= s0.chunk.code@ + (cr + ops));
                assert(self.chunk.constants@ =~= s0.chunk.constants@ + kr);
            }
        }
        right
    }

    /// Compiles a use of the variable `name`, or an assignment to it where assignment is
    /// allowed and `=` follows: a local by its slot, a global by its name.
    fn variable(&mut self, name: &String, line: usize, can_assign: bool) -> (e: Ghost<Expr>)
        requires
            old(self).inv(),
            old(self).current is Some,
            old(self).previous is Some,
        ensures
            old(self).silent(*final(self)),
            old(self).step(*final(self)),
            final(self).locals@ == old(self).locals@,
            final(self).scope_depth == old(self).scope_depth,
            forall|r: (bool, Option<usize>)|
                #[trigger] resolves_to(old(self).locals@, name@, r) ==> final(self).variable_access(
                    old(self).chunk.code@.len(),
                    *name,
                    can_assign && kind_of(old(self).tokens@, old(self).current->0 as int) == TokenKind::Equal,
                    r.1,
                    line,
                ),
            !readable(old(self).locals@, name@) ==> old(self).reported(
                *final(self),
                old(self).previous->0 as int,
                "Can't read local variable in its own initializer."@,
            ),
            old(self).quiet(*final(self)) ==> {
                let t = old(self).tokens@;
                let c0 = old(self).current->0 as int;
                &&& old(self).expr_emitted(*final(self), e@)
                &&& match e@ {
                    Expr::Variable(n) => {
                        &&& n == *name
                        &&& final(self).current == old(self).current
                        &&& !(can_assign && kind_of(t, c0) == TokenKind::Equal)
                    },
                    Expr::Assign(n, value) => {
                        &&& n == *name
                        &&& can_assign
                        &&& kind_of(t, c0) == TokenKind::Equal
                        &&& expr_parses(t, c0 + 1, final(self).current->0 as int, Precedence::PrecAssign, *value)
                    },
                    _ => false,
                }
            },
            forall|j: int, x: Expr|
                #[trigger] prefix_parses(old(self).tokens@, old(self).previous->0 as int, j, can_assign, x)
                    && identifier_name(old(self).tokens@[old(self).previous->0 as int]) == *name
                    && kind_of(old(self).tokens@, old(self).previous->0 as int) == TokenKind::Identifier
                    && old(self).clean_start() && expr_clean(x, old(self).locals@) && old(self).current->0
                    == old(self).previous->0 + 1 ==> old(self).ran_clean(*final(self), j) && e@ == x,
            !(can_assign && kind_of(old(self).tokens@, old(self).current->0 as int) == TokenKind::Equal) ==> {
                &&& final(self).pos == old(self).pos
                &&& final(self).previous == old(self).previous
                &&& final(self).current == old(self).current
                &&& old(self).expr_emitted(*final(self), Expr::Variable(*name))
                &&& e@ == Expr::Variable(*name)
                &&& if readable(old(self).locals@, name@) {
                    &&& final(self).errors@ == old(self).errors@
                    &&& final(self).panic_mode == old(self).panic_mode
                    &&& final(self).had_error == old(self).had_error
                } else {
                    old(self).reported(
                        *final(self),
                        old(self).previous->0 as int,
                        "Can't read local variable in its own initializer."@,
                    )
                }
            },
            old(self).quiet(*final(self)) ==> expr_clean(e@, old(self).locals@),
        decreases old(self).remaining(), 3nat,
    {
        let ghost s0 = *self;
        let (is_initialized, is_local_id) = self.locals.resolve_local(name);
        proof {
            lemma_resolves_unique(s0.locals@, name@, (is_initialized, is_local_id));
            lemma_resolve_slot(s0.locals@, name@, (is_initialized, is_local_id));
            reveal(locals_ok);
        }
        if !is_initialized {
            self.error("Can't read local variable in its own initializer.");
        } else {
            proof {
                Self::lemma_step_refl(*self);
            }
        }
        let ghost s1 = *self;
        let mut result: Ghost<Expr> = Ghost(Expr::Variable(*name));
        match is_local_id {
            Some(local_idx) => {
                if can_assign && self.match_token(TokenKind::Equal) {
                    let ghost s2 = *self;
                    let value = self.expression();
                    let ghost s3 = *self;
                    self.emit_byte(OpCode::OpSetLocal(local_idx));
                    proof {
                        Self::lemma_step_trans(s1, s2, s3);
                        Self::lemma_step_trans(s1, s3, *self);
                        if s0.quiet(*self) {
                            Self::lemma_quiet_split(s0, s1, *self);
                            Self::lemma_quiet_split(s1, s2, *self);
                            Self::lemma_quiet_split(s2, s3, *self);
                            Self::lemma_quiet_advance(s1, s2);
                            assert(s1.tokens@.last() == s1.tokens@[s1.tokens@.len() - 1]);
                            let (c, k) = expr_code(value@, s0.chunk.constants@.len(), s0.locals@);
                            assert(self.chunk.code@ =~= s0.chunk.code@ + c.push(OpCode::OpSetLocal(local_idx)));
                            assert(self.chunk.constants@ =~= s0.chunk.constants@ + k);
                        }
                    }
                    result = Ghost(Expr::Assign(*name, Box::new(value@)));
                    proof {
                    assert forall|j: int, x: Expr|
                        #[trigger] prefix_parses(s0.tokens@, s0.previous->0 as int, j, can_assign, x) && identifier_name(
                            s0.tokens@[s0.previous->0 as int],
                        ) == *name && kind_of(s0.tokens@, s0.previous->0 as int) == TokenKind::Identifier
                            && s0.clean_start() && expr_clean(x, s0.locals@) && s0.current->0
                            == s0.previous->0 + 1 implies s0.ran_clean(*self, j) && result@ == x by {
                        assert(s0.tokens@.last() == s0.tokens@[s0.tokens@.len() - 1]);
                        assert(readable(s0.locals@, name@));
                        assert(is_initialized);
                        assert(s1 == s0);
                        if x is Assign {
                            Self::lemma_clean_advance(s1, s2);
                            assert(expr_parses(s2.tokens@, s2.current->0 as int, j, Precedence::PrecAssign, *x->Assign_1));
                        }
                    }
                    }
                } else {
                    self.emit_byte(OpCode::OpGetLocal(local_idx));
                    proof {
                        assert(self.chunk.constants@ =~= s0.chunk.constants@ + Seq::<Value>::empty());
                        assert(self.chunk.code@ =~= s0.chunk.code@ + seq![OpCode::OpGetLocal(local_idx)]);
                    assert forall|j: int, x: Expr|
                        #[trigger] prefix_parses(s0.tokens@, s0.previous->0 as int, j, can_assign, x) && identifier_name(
                            s0.tokens@[s0.previous->0 as int],
                        ) == *name && kind_of(s0.tokens@, s0.previous->0 as int) == TokenKind::Identifier
                            && s0.clean_start() && expr_clean(x, s0.locals@) && s0.current->0
                            == s0.previous->0 + 1 implies s0.ran_clean(*self, j) && result@ == x by {
                        assert(readable(s0.locals@, name@));
                        assert(is_initialized);
                        assert(s1 == s0);
                    }
                    }
                }
                assert(self.variable_access(
                    s0.chunk.code@.len(),
                    *name,
                    can_assign && kind_of(s0.tokens@, s0.current->0 as int) == TokenKind::Equal,
                    is_local_id,
                    line,
                ));
            },
            None => {
                if can_assign && self.match_token(TokenKind::Equal) {
                    let ghost s2 = *self;
                    let value = self.expression();
                    let ghost s3 = *self;
                    let k = self.emit_identifier_constant(name, line, VariableOp::SetGlobal);
                    proof {
                        Self::lemma_step_emit(s3, *self);
                        Self::lemma_step_trans(s1, s2, s3);
                        Self::lemma_step_trans(s1, s3, *self);
                        assert(self.chunk.constants@[k as int] == Value::Str(*name));
                        if s0.quiet(*self) {
                            Self::lemma_quiet_split(s0, s1, *self);
                            Self::lemma_quiet_split(s1, s2, *self);
                            Self::lemma_quiet_split(s2, s3, *self);
                            Self::lemma_quiet_advance(s1, s2);
                            assert(s1.tokens@.last() == s1.tokens@[s1.tokens@.len() - 1]);
                            let (c, kk) = expr_code(value@, s0.chunk.constants@.len(), s0.locals@);
                            assert(self.chunk.code@ =~= s0.chunk.code@ + c.push(OpCode::OpSetGlobal(k)));
                            assert(self.chunk.constants@ =~= s0.chunk.constants@ + kk.push(Value::Str(*name)));
                        }
                    }
                    result = Ghost(Expr::Assign(*name, Box::new(value@)));
                    proof {
                    assert forall|j: int, x: Expr|
                        #[trigger] prefix_parses(s0.tokens@, s0.previous->0 as int, j, can_assign, x) && identifier_name(
                            s0.tokens@[s0.previous->0 as int],
                        ) == *name && kind_of(s0.tokens@, s0.previous->0 as int) == TokenKind::Identifier
                            && s0.clean_start() && expr_clean(x, s0.locals@) && s0.current->0
                            == s0.previous->0 + 1 implies s0.ran_clean(*self, j) && result@ == x by {
                        assert(s0.tokens@.last() == s0.tokens@[s0.tokens@.len() - 1]);
                        assert(readable(s0.locals@, name@));
                        assert(is_initialized);
                        assert(s1 == s0);
                        if x is Assign {
                            Self::lemma_clean_advance(s1, s2);
                            assert(expr_parses(s2.tokens@, s2.current->0 as int, j, Precedence::PrecAssign, *x->Assign_1));
                        }
                    }
                    }
                    assert(self.variable_access(
                    s0.chunk.code@.len(),
                    *name,
                    can_assign && kind_of(s0.tokens@, s0.current->0 as int) == TokenKind::Equal,
                    is_local_id,
                    line,
                ));
                } else {
                    let ghost s3 = *self;
                    let k = self.emit_identifier_constant(name, line, VariableOp::GetGlobal);
                    proof {
                        Self::lemma_step_emit(s3, *self);
                        assert(self.chunk.constants@[k as int] == Value::Str(*name));
                        assert(self.chunk.constants@ =~= s0.chunk.constants@ + seq![Value::Str(*name)]);
                        assert(self.chunk.code@ =~= s0.chunk.code@ + seq![OpCode::OpGetGlobal(k)]);
                    assert forall|j: int, x: Expr|
                        #[trigger] prefix_parses(s0.tokens@, s0.previous->0 as int, j, can_assign, x) && identifier_name(
                            s0.tokens@[s0.previous->0 as int],
                        ) == *name && kind_of(s0.tokens@, s0.previous->0 as int) == TokenKind::Identifier
                            && s0.clean_start() && expr_clean(x, s0.locals@) && s0.current->0
                            == s0.previous->0 + 1 implies s0.ran_clean(*self, j) && result@ == x by {
                        assert(readable(s0.locals@, name@));
                        assert(is_initialized);
                        assert(s1 == s0);
                    }
                    }
                    assert(self.variable_access(
                    s0.chunk.code@.len(),
                    *name,
                    can_assign && kind_of(s0.tokens@, s0.current->0 as int) == TokenKind::Equal,
                    is_local_id,
                    line,
                ));
                }
            },
        }
        proof {
            Self::lemma_step_trans(s0, s1, *self);
            if !is_initialized {
                assert(s1.silent(*self));
            }
        }
        result
    }

    /// Compiles `and`, its left operand being compiled: when that is false it is the
    /// result and the right operand is jumped over; otherwise it is popped and the right
    /// operand is the result. Gives the right operand.
    fn and_(&mut self, _can_assign: bool) -> (right: Ghost<Expr>)
        requires
            old(self).inv(),
            old(self).current is Some,
            old(self).previous is Some,
        ensures
            old(self).silent(*final(self)),
            old(self).step(*final(self)),
            final(self).locals@ == old(self).locals@,
            final(self).scope_depth == old(self).scope_depth,
            ({
                let l0 = old(self).chunk.code@.len() as int;
                let code = final(self).chunk.code@;
                &&& code.len() >= l0 + 2
                &&& code[l0] == OpCode::OpJumpIfFalse(Some((code.len() - l0 - 1) as usize))
                &&& code[l0 + 1] == OpCode::OpPop
            }),
            old(self).quiet(*final(self)) ==> {
                &&& expr_parses(
                    old(self).tokens@,
                    old(self).current->0 as int,
                    final(self).current->0 as int,
                    Precedence::PrecAnd,
                    right@,
                )
                &&& old(self).emitted(
                    *final(self),
                    infix_tail(TokenKind::And, right@, old(self).chunk.constants@.len(), old(self).locals@),
                )
            },
            forall|j: int, x: Expr|
                #[trigger] expr_parses(old(self).tokens@, old(self).current->0 as int, j, Precedence::PrecAnd, x)
                    && old(self).clean_start() && expr_clean(x, old(self).locals@) ==> old(self).ran_clean(
                    *final(self),
                    j,
                ) && right@ == x,
            old(self).quiet(*final(self)) ==> expr_clean(right@, old(self).locals@),
        decreases old(self).remaining(), 3nat,
    {
        let ghost s0 = *self;
        let ghost l0 = self.chunk.code@.len() as int;
        let end_jump = self.emit_jump(OpCode::OpJumpIfFalse(None));
        let ghost s1 = *self;
        self.emit_byte(OpCode::OpPop);
        let ghost s2 = *self;
        let right = self.parse(Precedence::PrecAnd);
        let ghost s3 = *self;
        self.patch_jump(end_jump, OpCode::OpJumpIfFalse(None));
        proof {
            Self::lemma_grows_emit(s0, s1);
            Self::lemma_grows_emit(s1, s2);
            Self::lemma_grows_trans(s0, s1, s2);
            Self::lemma_grows_trans(s0, s2, s3);
            Self::lemma_grows_patch(s0, s3, *self, l0);
            assert(patched_but(s0.chunk.code@, l0, l0, -1));
            lemma_patched_but_push(s0.chunk.code@, l0, l0, -1, OpCode::OpJumpIfFalse(None));
            lemma_patched_but_push(s1.chunk.code@, l0, l0, -1, OpCode::OpPop);
            lemma_patched_but_extend(s2.chunk.code@, s3.chunk.code@, l0, l0, -1);
            lemma_patched_but_patch(
                s3.chunk.code@,
                l0,
                l0,
                -1,
                l0,
                OpCode::OpJumpIfFalse(Some((s3.chunk.code@.len() - l0 - 1) as usize)),
                -1,
                -1,
            );
            lemma_patched_but_none(self.chunk.code@, l0);
            assert(s3.chunk.code@.subrange(0, s2.chunk.code@.len() as int)[l0 + 1] == s2.chunk.code@[l0 + 1]);
            assert forall|j: int, x: Expr|
                #[trigger] expr_parses(s0.tokens@, s0.current->0 as int, j, Precedence::PrecAnd, x)
                    && s0.clean_start() && expr_clean(x, s0.locals@) implies s0.ran_clean(*self, j) && right@ == x by {
                assert(expr_parses(s2.tokens@, s2.current->0 as int, j, Precedence::PrecAnd, x));
            }
            if s0.quiet(*self) {
                Self::lemma_quiet_split(s0, s2, s3);
                let (cr, kr) = expr_code(right@, s2.chunk.constants@.len(), s2.locals@);
                assert(self.chunk.code@ =~= s0.chunk.code@ + (seq![
                    OpCode::OpJumpIfFalse(Some((cr.len() + 1) as usize)),
                    OpCode::OpPop,
                ] + cr));
                assert(self.chunk.constants@ =~= s0.chunk.constants@ + kr);
            }
        }
        right
    }

    /// Compiles `or`, its left operand being compiled: when that is true it is the result
    /// and the right operand is jumped over; otherwise it is popped and the right operand
    /// is the result. Gives the right operand.
    fn or(&mut self, _can_assign: bool) -> (right: Ghost<Expr>)
        requires
            old(self).inv(),
            old(self).current is Some,
            old(self).previous is Some,
        ensures
            old(self).silent(*final(self)),
            old(self).step(*final(self)),
            final(self).locals@ == old(self).locals@,
            final(self).scope_depth == old(self).scope_depth,
            ({
                let l0 = old(self).chunk.code@.len() as int;
                let code = final(self).chunk.code@;
                &&& code.len() >= l0 + 3
                &&& code[l0] == OpCode::OpJumpIfFalse(Some(1))
                &&& code[l0 + 1] == OpCode::OpJump(Some((code.len() - l0 - 2) as usize))
                &&& code[l0 + 2] == OpCode::OpPop
            }),
            old(self).quiet(*final(self)) ==> {
                &&& expr_parses(
                    old(self).tokens@,
                    old(self).current->0 as int,
                    final(self).current->0 as int,
                    Precedence::PrecOr,
                    right@,
                )
                &&& old(self).emitted(
                    *final(self),
                    infix_tail(TokenKind::Or, right@, old(self).chunk.constants@.len(), old(self).locals@),
                )
            },
            forall|j: int, x: Expr|
                #[trigger] expr_parses(old(self).tokens@, old(self).current->0 as int, j, Precedence::PrecOr, x)
                    && old(self).clean_start() && expr_clean(x, old(self).locals@) ==> old(self).ran_clean(
                    *final(self),
                    j,
                ) && right@ == x,
            old(self).quiet(*final(self)) ==> expr_clean(right@, old(self).locals@),
        decreases old(self).remaining(), 3nat,
    {
        let ghost s0 = *self;
        let ghost l0 = self.chunk.code@.len() as int;
        let else_jump = self.emit_jump(OpCode::OpJumpIfFalse(None));
        let ghost s1 = *self;
        let end_jump = self.emit_jump(OpCode::OpJump(None));
        let ghost s2 = *self;
        self.patch_jump(else_jump, OpCode::OpJumpIfFalse(None));
        let ghost s3 = *self;
        self.emit_byte(OpCode::OpPop);
        let ghost s4 = *self;
        let right = self.parse(Precedence::PrecOr);
        let ghost s5 = *self;
        self.patch_jump(end_jump, OpCode::OpJump(None));
        proof {
            Self::lemma_grows_emit(s0, s1);
            Self::lemma_grows_emit(s1, s2);
            Self::lemma_grows_trans(s0, s1, s2);
            Self::lemma_grows_patch(s0, s2, s3, l0);
            Self::lemma_grows_emit(s3, s4);
            Self::lemma_grows_trans(s0, s3, s4);
            Self::lemma_grows_trans(s0, s4, s5);
            Self::lemma_grows_patch(s0, s5, *self, l0 + 1);
            assert(patched_but(s0.chunk.code@, l0, l0, l0 + 1));
            lemma_patched_but_push(s0.chunk.code@, l0, l0, l0 + 1, OpCode::OpJumpIfFalse(None));
            lemma_patched_but_push(s1.chunk.code@, l0, l0, l0 + 1, OpCode::OpJump(None));
            lemma_patched_but_patch(s2.chunk.code@, l0, l0, l0 + 1, l0, OpCode::OpJumpIfFalse(Some(1)), -1, l0 + 1);
            lemma_patched_but_push(s3.chunk.code@, l0, -1, l0 + 1, OpCode::OpPop);
            lemma_patched_but_extend(s4.chunk.code@, s5.chunk.code@, l0, -1, l0 + 1);
            lemma_patched_but_patch(
                s5.chunk.code@,
                l0,
                -1,
                l0 + 1,
                l0 + 1,
                OpCode::OpJump(Some((s5.chunk.code@.len() - l0 - 2) as usize)),
                -1,
                -1,
            );
            lemma_patched_but_none(self.chunk.code@, l0);
            assert(s5.chunk.code@.subrange(0, s4.chunk.code@.len() as int)[l0] == s4.chunk.code@[l0]);
            assert(s5.chunk.code@.subrange(0, s4.chunk.code@.len() as int)[l0 + 2] == s4.chunk.code@[l0 + 2]);
            assert forall|j: int, x: Expr|
                #[trigger] expr_parses(s0.tokens@, s0.current->0 as int, j, Precedence::PrecOr, x)
                    && s0.clean_start() && expr_clean(x, s0.locals@) implies s0.ran_clean(*self, j) && right@ == x by {
                assert(expr_parses(s4.tokens@, s4.current->0 as int, j, Precedence::PrecOr, x));
            }
            if s0.quiet(*self) {
                Self::lemma_quiet_split(s0, s4, s5);
                let (cr, kr) = expr_code(right@, s4.chunk.constants@.len(), s4.locals@);
                assert(self.chunk.code@ =~= s0.chunk.code@ + (seq![
                    OpCode::OpJumpIfFalse(Some(1)),
                    OpCode::OpJump(Some((cr.len() + 1) as usize)),
                    OpCode::OpPop,
                ] + cr));
                assert(self.chunk.constants@ =~= s0.chunk.constants@ + kr);
            }
        }
        right
    }

    /// Compiles an expression statement: the expression, then a pop of its value.
    fn expression_statement(&mut self) -> (e: Ghost<Expr>)
        requires
            old(self).inv(),
            old(self).current is Some,
        ensures
            old(self).silent(*final(self)),
            old(self).step(*final(self)),
            final(self).locals@ == old(self).locals@,
            final(self).scope_depth == old(self).scope_depth,
            old(self).pos < old(self).tokens@.len() ==> old(self).pos < final(self).pos,
            final(self).chunk.code@.len() > old(self).chunk.code@.len(),
            final(self).chunk.code@.last() == OpCode::OpPop,
            old(self).quiet(*final(self)) ==> {
                &&& expr_statement_parses(
                    old(self).tokens@,
                    old(self).current->0 as int,
                    final(self).current->0 as int,
                    e@,
                )
                &&& old(self).stmt_emitted(*final(self), Stmt::Expression(e@))
            },
            forall|j: int, x: Expr|
                #[trigger] expr_statement_parses(old(self).tokens@, old(self).current->0 as int, j, x)
                    && old(self).clean_start() && expr_clean(x, old(self).locals@) ==> old(self).ran_clean(
                    *final(self),
                    j,
                ) && e@ == x,
            old(self).quiet(*final(self)) ==> expr_clean(e@, old(self).locals@),
        decreases old(self).remaining(), 3nat,
    {
        let ghost s0 = *self;
        let e = self.expression();
        let ghost s1 = *self;
        self.consume(TokenKind::Semicolon, "Expected ';' after expression statement.");
        let ghost s2 = *self;
        self.emit_byte(OpCode::OpPop);
        proof {
            Self::lemma_step_trans(s0, s1, s2);
            Self::lemma_step_trans(s0, s2, *self);
            assert forall|j: int, x: Expr|
                #[trigger] expr_statement_parses(s0.tokens@, s0.current->0 as int, j, x) && s0.clean_start()
                    && expr_clean(x, s0.locals@) implies s0.ran_clean(*self, j) && e@ == x by {
                let m = choose|m: int|
                    #![trigger kind_of(s0.tokens@, m)]
                    expr_parses(s0.tokens@, s0.current->0 as int, m, Precedence::PrecAssign, x) && kind_of(s0.tokens@, m)
                        == TokenKind::Semicolon && j == m + 1;
                assert(s0.tokens@.last() == s0.tokens@[s0.tokens@.len() - 1]);
                Self::lemma_clean_advance(s1, s2);
            }
            if s0.quiet(*self) {
                Self::lemma_quiet_at(s0, s1, *self);
                Self::lemma_quiet_at(s1, s2, *self);
                Self::lemma_quiet_consume(s1, s2, TokenKind::Semicolon, "Expected ';' after expression statement."@);
                let m = s1.current->0 as int;
                assert(kind_of(s0.tokens@, m) == TokenKind::Semicolon);
                let (c, k) = expr_code(e@, s0.chunk.constants@.len(), s0.locals@);
                assert(self.chunk.code@ =~= s0.chunk.code@ + c.push(OpCode::OpPop));
                assert(self.chunk.constants@ =~= s0.chunk.constants@ + k);
            }
        }
        e
    }

    /// Compiles a `print` statement, the keyword being consumed: the expression, then the
    /// print.
    fn print_statement(&mut self) -> (e: Ghost<Expr>)
        requires
            old(self).inv(),
            old(self).current is Some,
            old(self).previous is Some,
        ensures
            old(self).silent(*final(self)),
            old(self).step(*final(self)),
            final(self).locals@ == old(self).locals@,
            final(self).scope_depth == old(self).scope_depth,
            final(self).chunk.code@.len() > old(self).chunk.code@.len(),
            final(self).chunk.code@.last() == OpCode::OpPrint,
            old(self).quiet(*final(self)) ==> {
                &&& expr_statement_parses(
                    old(self).tokens@,
                    old(self).current->0 as int,
                    final(self).current->0 as int,
                    e@,
                )
                &&& old(self).stmt_emitted(*final(self), Stmt::Print(e@))
            },
            forall|j: int, x: Expr|
                #[trigger] expr_statement_parses(old(self).tokens@, old(self).current->0 as int, j, x)
                    && old(self).clean_start() && expr_clean(x, old(self).locals@) ==> old(self).ran_clean(
                    *final(self),
                    j,
                ) && e@ == x,
            old(self).quiet(*final(self)) ==> expr_clean(e@, old(self).locals@),
        decreases old(self).remaining(), 3nat,
    {
        let ghost s0 = *self;
        let e = self.expression();
        let ghost s1 = *self;
        self.consume(TokenKind::Semicolon, "Expected ';' after value.");
        let ghost s2 = *self;
        self.emit_byte(OpCode::OpPrint);
        proof {
            Self::lemma_step_trans(s0, s1, s2);
            Self::lemma_step_trans(s0, s2, *self);
            assert forall|j: int, x: Expr|
                #[trigger] expr_statement_parses(s0.tokens@, s0.current->0 as int, j, x) && s0.clean_start()
                    && expr_clean(x, s0.locals@) implies s0.ran_clean(*self, j) && e@ == x by {
                let m = choose|m: int|
                    #![trigger kind_of(s0.tokens@, m)]
                    expr_parses(s0.tokens@, s0.current->0 as int, m, Precedence::PrecAssign, x) && kind_of(s0.tokens@, m)
                        == TokenKind::Semicolon && j == m + 1;
                assert(s0.tokens@.last() == s0.tokens@[s0.tokens@.len() - 1]);
                Self::lemma_clean_advance(s1, s2);
            }
            if s0.quiet(*self) {
                Self::lemma_quiet_at(s0, s1, *self);
                Self::lemma_quiet_at(s1, s2, *self);
                Self::lemma_quiet_consume(s1, s2, TokenKind::Semicolon, "Expected ';' after value."@);
                let m = s1.current->0 as int;
                assert(kind_of(s0.tokens@, m) == TokenKind::Semicolon);
                let (c, k) = expr_code(e@, s0.chunk.constants@.len(), s0.locals@);
                assert(self.chunk.code@ =~= s0.chunk.code@ + c.push(OpCode::OpPrint));
                assert(self.chunk.constants@ =~= s0.chunk.constants@ + k);
            }
        }
        e
    }

    /// Compiles a variable declaration, the `var` being consumed: the name, the initial
    /// value (`nil` when there is none), and the definition.
    #[verifier::spinoff_prover]
    #[verifier::rlimit(40)]
    fn var_declaration(&mut self) -> (d: Ghost<Decl>)
        requires
            old(self).inv(),
            old(self).current is Some,
            old(self).previous is Some,
            kind_of(old(self).tokens@, old(self).previous->0 as int) == TokenKind::Var,
        ensures
            old(self).step(*final(self)),
            final(self).scope_depth == old(self).scope_depth,
            old(self).pos < final(self).pos,
            d@ is Var,
            old(self).scope_depth == 0 && kind_of(old(self).tokens@, old(self).current->0 + 1) != TokenKind::Error
                && kind_of(old(self).tokens@, old(self).current->0 + 1) != TokenKind::Equal ==> final(self).chunk.code@
                == old(self).chunk.code@.push(OpCode::OpNil).push(
                OpCode::OpDefineGlobal(old(self).chunk.constants@.len() as usize),
            ),
            old(self).scope_depth == 0 ==> {
                let k = old(self).chunk.constants@.len();
                &&& k < final(self).chunk.constants@.len()
                &&& final(self).chunk.constants@[k as int] == Value::Str(
                    identifier_name(old(self).tokens@[old(self).current->0 as int]),
                )
                &&& final(self).chunk.code@.len() > old(self).chunk.code@.len()
                &&& final(self).chunk.code@.last() == OpCode::OpDefineGlobal(k as usize)
            },
            old(self).quiet(*final(self)) && old(self).current->0 == old(self).previous->0 + 1 ==> {
                &&& decl_parses(
                    old(self).tokens@,
                    old(self).previous->0 as int,
                    final(self).current->0 as int,
                    d@,
                )
                &&& old(self).decl_emitted(*final(self), d@)
            },
            forall|j: int, x: Decl|
                #[trigger] decl_parses(old(self).tokens@, old(self).previous->0 as int, j, x) && old(self).clean_start()
                    && decl_clean(x, old(self).chunk.constants@.len(), old(self).locals@, old(self).scope_depth)
                    && old(self).current->0 == old(self).previous->0 + 1 ==> old(self).ran_clean(*final(self), j)
                    && d@ == x,
            old(self).quiet(*final(self)) && old(self).current->0 == old(self).previous->0 + 1 ==> decl_clean(d@, old(self).chunk.constants@.len(), old(self).locals@, old(self).scope_depth),
            old(self).keeps_outer(*final(self)),
        decreases old(self).remaining(), 3nat,
    {
        let ghost s0 = *self;
        let ghost t = s0.tokens@;
        let ghost name = identifier_name(t[s0.current->0 as int]);
        let index = self.parse_variable("Expect variable name.");
        let ghost s1 = *self;
        let mut init: Ghost<Option<Expr>> = Ghost(None);
        let has_initializer = self.match_token(TokenKind::Equal);
        let ghost s2 = *self;
        if has_initializer {
            let value = self.expression();
            init = Ghost(Some(value@));
            proof {
                Self::lemma_step_trans(s1, s2, *self);
                if s1.quiet(*self) {
                    Self::lemma_quiet_at(s1, s2, *self);
                    Self::lemma_quiet_match(s1, s2, TokenKind::Equal, true);
                }
            }
        } else {
            self.emit_byte(OpCode::OpNil);
            proof {
                if s1.quiet(*self) {
                    Self::lemma_quiet_match(s1, s2, TokenKind::Equal, false);
                }
            }
        }
        let ghost s3 = *self;
        self.consume(TokenKind::Semicolon, "Expect ';' after variable declaration.");
        let ghost s4 = *self;
        proof {
            Self::lemma_step_trans(s0, s1, s3);
            Self::lemma_step_trans(s0, s3, s4);
            if s0.scope_depth == 0 {
                assert(s4.chunk.constants@.subrange(0, s1.chunk.constants@.len() as int)[index as int]
                    == s1.chunk.constants@[index as int]);
            }
        }
        self.define_variable(index);
        let ghost d = Decl::Var(name, init@);
        proof {
            assert forall|j: int, x: Decl|
                #[trigger] decl_parses(t, s0.previous->0 as int, j, x) && s0.clean_start() && decl_clean(
                    x,
                    s0.chunk.constants@.len(),
                    s0.locals@,
                    s0.scope_depth,
                ) && s0.current->0 == s0.previous->0 + 1 implies s0.ran_clean(*self, j) && d == x by {
                let v = s0.previous->0 as int;
                assert(t.last() == t[t.len() - 1]);
                match x {
                    Decl::Var(nm, ini) => {
                        let m = choose|m: int|
                            #![trigger kind_of(t, m)]
                            {
                                &&& match ini {
                                    Some(e) => kind_of(t, v + 2) == TokenKind::Equal && expr_parses(
                                        t,
                                        v + 3,
                                        m,
                                        Precedence::PrecAssign,
                                        e,
                                    ),
                                    None => kind_of(t, v + 2) != TokenKind::Equal && m == v + 2,
                                }
                                &&& kind_of(t, m) == TokenKind::Semicolon
                                &&& j == m + 1
                            };
                        assert(s1.current->0 == v + 2);
                        if has_initializer {
                            Self::lemma_clean_advance(s1, s2);
                            assert(expr_parses(s2.tokens@, s2.current->0 as int, m, Precedence::PrecAssign, ini->0));
                        }
                        Self::lemma_clean_advance(s3, s4);
                    },
                    _ => {},
                }
            }
            Self::lemma_step_trans(s0, s4, *self);
            if s0.quiet(*self) && s0.current->0 == s0.previous->0 + 1 {
                Self::lemma_quiet_at(s0, s1, *self);
                Self::lemma_quiet_at(s1, s3, *self);
                Self::lemma_quiet_at(s3, s4, *self);
                Self::lemma_quiet_consume(s3, s4, TokenKind::Semicolon, "Expect ';' after variable declaration."@);
                let v = s0.previous->0 as int;
                let m = s3.current->0 as int;
                assert(kind_of(t, m) == TokenKind::Semicolon);
                assert(s1.current->0 == v + 2);
                assert(kind_of(t, v + 1) == TokenKind::Identifier);
                let n = s0.chunk.constants@.len();
                if s0.scope_depth == 0 {
                    let (ci, ki) = match init@ {
                        Some(e) => expr_code(e, n + 1, s0.locals@),
                        None => (seq![OpCode::OpNil], Seq::empty()),
                    };
                    assert(self.chunk.code@ =~= s0.chunk.code@ + ci.push(OpCode::OpDefineGlobal(index)));
                    assert(self.chunk.constants@ =~= s0.chunk.constants@ + (seq![Value::Str(name)] + ki));
                } else {
                    let declared = s0.locals@.push(Local { name: name, depth: s0.scope_depth, initialized: false });
                    let (ci, ki) = match init@ {
                        Some(e) => expr_code(e, n, declared),
                        None => (seq![OpCode::OpNil], Seq::empty()),
                    };
                    assert(self.chunk.code@ =~= s0.chunk.code@ + ci);
                    assert(self.chunk.constants@ =~= s0.chunk.constants@ + ki);
                    assert(self.locals@ =~= s0.locals@.push(
                        Local { name: name, depth: s0.scope_depth, initialized: true },
                    ));
                }
                assert(decl_parses(t, v, self.current->0 as int, d));
            }
        }
        proof {
            if s0.scope_depth > 0 {
                Self::lemma_declared_keeps(s0, s1, *self, identifier_name(s1.tokens@[s1.previous->0 as int]));
            } else {
                Self::lemma_keeps_outer_same(s0, *self);
            }
        }
        Ghost(d)
    }

    /// Compiles a statement.
    fn statement(&mut self) -> (s: Ghost<Stmt>)
        requires
            old(self).inv(),
            old(self).current is Some,
        ensures
            old(self).step(*final(self)),
            final(self).scope_depth == old(self).scope_depth,
            old(self).pos < old(self).tokens@.len() ==> old(self).pos < final(self).pos,
            old(self).quiet(*final(self)) ==> {
                &&& stmt_parses(old(self).tokens@, old(self).current->0 as int, final(self).current->0 as int, s@)
                &&& old(self).stmt_emitted(*final(self), s@)
            },
            old(self).stmt_owed(*final(self), s@),
            old(self).quiet(*final(self)) ==> stmt_clean(s@, old(self).chunk.constants@.len(), old(self).locals@, old(self).scope_depth),
            old(self).keeps_locals(*final(self)),
        decreases old(self).remaining(), 5nat,
    {
        proof {
            reveal(Compiler::stmt_owed);
        }
        let ghost s0 = *self;
        let ghost t = s0.tokens@;
        let ghost i = s0.current->0 as int;
        proof {
            assert(s0.tokens@.last() == s0.tokens@[s0.tokens@.len() - 1]);
        }
        if self.match_token(TokenKind::Print) {
            let ghost s1 = *self;
            let e = self.print_statement();
            proof {
                Self::lemma_step_trans(s0, s1, *self);
                if s0.quiet(*self) {
                    Self::lemma_quiet_at(s0, s1, *self);
                    Self::lemma_quiet_match(s0, s1, TokenKind::Print, true);
                }
                assert forall|j: int, x: Stmt| #[trigger] stmt_parses(t, i, j, x) && s0.clean_start() && stmt_clean(
                        x,
                        s0.chunk.constants@.len(),
                        s0.locals@,
                        s0.scope_depth,
                    ) implies s0.ran_clean(*self, j) && Stmt::Print(e@) == x by {
                    Self::lemma_clean_advance(s0, s1);
                    assert(expr_statement_parses(s1.tokens@, s1.current->0 as int, j, x->Print_0));
                }
            }
            Ghost(Stmt::Print(e@))
        } else if self.match_token(TokenKind::For) {
            let ghost s1 = *self;
            let r = self.for_statement();
            proof {
                Self::lemma_step_trans(s0, s1, *self);
                if s0.quiet(*self) {
                    Self::lemma_quiet_at(s0, s1, *self);
                    Self::lemma_quiet_match(s0, s1, TokenKind::For, true);
                }
                assert forall|j: int, x: Stmt| #[trigger] stmt_parses(t, i, j, x) && s0.clean_start() && stmt_clean(
                        x,
                        s0.chunk.constants@.len(),
                        s0.locals@,
                        s0.scope_depth,
                    ) implies s0.ran_clean(*self, j) && r@ == x by {
                    Self::lemma_clean_advance(s0, s1);
                    assert(stmt_parses(s1.tokens@, s1.previous->0 as int, j, x));
                }
            }
            r
        } else if self.match_token(TokenKind::If) {
            let ghost s1 = *self;
            let r = self.if_statement();
            proof {
                Self::lemma_step_trans(s0, s1, *self);
                if s0.quiet(*self) {
                    Self::lemma_quiet_at(s0, s1, *self);
                    Self::lemma_quiet_match(s0, s1, TokenKind::If, true);
                }
                assert forall|j: int, x: Stmt| #[trigger] stmt_parses(t, i, j, x) && s0.clean_start() && stmt_clean(
                        x,
                        s0.chunk.constants@.len(),
                        s0.locals@,
                        s0.scope_depth,
                    ) implies s0.ran_clean(*self, j) && r@ == x by {
                    Self::lemma_clean_advance(s0, s1);
                    assert(stmt_parses(s1.tokens@, s1.previous->0 as int, j, x));
                }
            }
            r
        } else if self.match_token(TokenKind::While) {
            let ghost s1 = *self;
            let r = self.while_statement();
            proof {
                Self::lemma_step_trans(s0, s1, *self);
                if s0.quiet(*self) {
                    Self::lemma_quiet_at(s0, s1, *self);
                    Self::lemma_quiet_match(s0, s1, TokenKind::While, true);
                }
                assert forall|j: int, x: Stmt| #[trigger] stmt_parses(t, i, j, x) && s0.clean_start() && stmt_clean(
                        x,
                        s0.chunk.constants@.len(),
                        s0.locals@,
                        s0.scope_depth,
                    ) implies s0.ran_clean(*self, j) && r@ == x by {
                    Self::lemma_clean_advance(s0, s1);
                    assert(stmt_parses(s1.tokens@, s1.previous->0 as int, j, x));
                }
            }
            r
        } else if self.match_token(TokenKind::LeftBrace) {
            let ghost s1 = *self;
            self.begin_scope();
            let ghost s2 = *self;
            let ds = self.block();
            let ghost s3 = *self;
            self.end_scope();
            proof {
                Self::lemma_scope_closes(s1, s2, s3, *self);
                Self::lemma_step_emit(s1, s2);
                Self::lemma_step_trans(s0, s1, s2);
                Self::lemma_step_trans(s0, s2, s3);
                Self::lemma_step_emit(s3, *self);
                Self::lemma_step_trans(s0, s3, *self);
                if s0.quiet(*self) {
                    Self::lemma_quiet_at(s0, s1, *self);
                    Self::lemma_quiet_at(s1, s2, *self);
                    Self::lemma_quiet_at(s2, s3, *self);
                    Self::lemma_quiet_match(s0, s1, TokenKind::LeftBrace, true);
                    let n = s0.chunk.constants@.len();
                    let ls = s0.locals@;
                    let (cd, kd, l2) = decls_code(ds@, n, ls, (s0.scope_depth + 1) as usize);
                    lemma_decls_locals(ds@, n, ls, (s0.scope_depth + 1) as usize);
                    assert forall|i: int| 0 <= i < ls.len() implies #[trigger] ls[i].depth < s2.scope_depth by {
                        reveal(locals_ok);
                    }
                    Self::lemma_scope_exit(s2, s3, *self, ls);
                    assert(self.chunk.code@ =~= s0.chunk.code@ + (cd + pops((l2.len() - ls.len()) as nat)));
                    assert(self.chunk.constants@ =~= s0.chunk.constants@ + kd);
                    let m = s3.previous->0 as int;
                    assert(kind_of(t, m) == TokenKind::RightBrace);
                }
                assert forall|j: int, x: Stmt| #[trigger] stmt_parses(t, i, j, x) && s0.clean_start() && stmt_clean(
                        x,
                        s0.chunk.constants@.len(),
                        s0.locals@,
                        s0.scope_depth,
                    ) implies s0.ran_clean(*self, j) && Stmt::Block(ds@) == x by {
                    Self::lemma_clean_advance(s0, s1);
                    let decls = x->Block_0;
                    let m = choose|m: int|
                        #![trigger kind_of(t, m)]
                        decls_parse(t, i + 1, m, decls, true) && kind_of(t, m) == TokenKind::RightBrace && j == m + 1;
                    assert(decls_parse(s2.tokens@, s2.current->0 as int, m, decls, true));
                }
            }
            Ghost(Stmt::Block(ds@))
        } else {
            let e = self.expression_statement();
            proof {
                assert forall|j: int, x: Stmt| #[trigger] stmt_parses(t, i, j, x) && s0.clean_start() && stmt_clean(
                        x,
                        s0.chunk.constants@.len(),
                        s0.locals@,
                        s0.scope_depth,
                    ) implies s0.ran_clean(*self, j) && Stmt::Expression(e@) == x by {
                    assert(expr_statement_parses(t, i, j, x->Expression_0));
                }
            }
            Ghost(Stmt::Expression(e@))
        }
    }

    /// Compiles an `if` statement, the keyword being consumed: the condition, a jump over
    /// the then-branch when it is false, the then-branch, a jump over the else-branch, and
    /// the else-branch if there is one; the condition is popped on either way.
    #[verifier::spinoff_prover]
    #[verifier::rlimit(80)]
    fn if_statement(&mut self) -> (s: Ghost<Stmt>)
        requires
            old(self).inv(),
            old(self).current is Some,
            old(self).previous is Some,
            kind_of(old(self).tokens@, old(self).previous->0 as int) == TokenKind::If,
        ensures
            old(self).step(*final(self)),
            final(self).scope_depth == old(self).scope_depth,
            old(self).quiet(*final(self)) && old(self).current->0 == old(self).previous->0 + 1 ==> {
                &&& stmt_parses(old(self).tokens@, old(self).previous->0 as int, final(self).current->0 as int, s@)
                &&& old(self).stmt_emitted(*final(self), s@)
            },
            forall|j: int, x: Stmt|
                #[trigger] stmt_parses(old(self).tokens@, old(self).previous->0 as int, j, x) && old(self).clean_start()
                    && stmt_clean(x, old(self).chunk.constants@.len(), old(self).locals@, old(self).scope_depth) && old(self).current->0
                    == old(self).previous->0 + 1
                    ==> old(self).ran_clean(*final(self), j) && s@ == x,
            old(self).quiet(*final(self)) && old(self).current->0 == old(self).previous->0 + 1 ==> stmt_clean(s@, old(self).chunk.constants@.len(), old(self).locals@, old(self).scope_depth),
            old(self).keeps_locals(*final(self)),
        decreases old(self).remaining(), 6nat,
    {
        let ghost s0 = *self;
        let ghost l0 = self.chunk.code@.len() as int;
        self.consume(TokenKind::LeftParen, "Expect '(' after 'if'.");
        let ghost s1 = *self;
        let cond = self.expression();
        let ghost s2 = *self;
        self.consume(TokenKind::RightParen, "Expect ')' after condition.");
        let ghost s3 = *self;
        let then_jump = self.emit_jump(OpCode::OpJumpIfFalse(None));
        let ghost s4 = *self;
        self.emit_byte(OpCode::OpPop);
        let ghost s5 = *self;
        let then_branch = self.statement();
        let ghost s6 = *self;
        let else_jump = self.emit_jump(OpCode::OpJump(None));
        let ghost s7 = *self;
        self.patch_jump(then_jump, OpCode::OpJumpIfFalse(None));
        let ghost s8 = *self;
        self.emit_byte(OpCode::OpPop);
        let ghost s9 = *self;
        let mut else_branch: Ghost<Option<Box<Stmt>>> = Ghost(None);
        let has_else = self.match_token(TokenKind::Else);
        let ghost s10 = *self;
        if has_else {
            let other = self.statement();
            else_branch = Ghost(Some(Box::new(other@)));
            proof {
                Self::lemma_step_trans(s9, s10, *self);
                if s9.quiet(*self) {
                    Self::lemma_quiet_at(s9, s10, *self);
                    Self::lemma_quiet_match(s9, s10, TokenKind::Else, true);
                }
            }
        } else {
            proof {
                Self::lemma_step_refl(*self);
            }
        }
        let ghost s11 = *self;
        self.patch_jump(else_jump, OpCode::OpJump(None));
        let ghost result = Stmt::If(cond@, Box::new(then_branch@), else_branch@);
        proof {
            assert forall|j: int, x: Stmt|
                #[trigger] stmt_parses(s0.tokens@, s0.previous->0 as int, j, x) && s0.clean_start() && stmt_clean(
                    x,
                    s0.chunk.constants@.len(),
                    s0.locals@,
                    s0.scope_depth,
                ) && s0.current->0 == s0.previous->0 + 1 implies s0.ran_clean(*self, j) && result == x by {
                let tk = s0.tokens@;
                let i = s0.previous->0 as int;
                let cond_x = x->If_0;
                let then_x = *x->If_1;
                let else_x = x->If_2;
                let (m, k) = choose|m: int, k: int|
                    #![trigger kind_of(tk, m), kind_of(tk, k)]
                    {
                        &&& expr_parses(tk, i + 2, m, Precedence::PrecAssign, cond_x)
                        &&& kind_of(tk, m) == TokenKind::RightParen
                        &&& stmt_parses(tk, m + 1, k, then_x)
                        &&& match else_x {
                            Some(other) => kind_of(tk, k) == TokenKind::Else && stmt_parses(tk, k + 1, j, *other),
                            None => kind_of(tk, k) != TokenKind::Else && j == k,
                        }
                    };
                reveal(Compiler::stmt_owed);
                assert(tk.last() == tk[tk.len() - 1]);
                Self::lemma_clean_advance(s0, s1);
                assert(expr_parses(s1.tokens@, s1.current->0 as int, m, Precedence::PrecAssign, cond_x));
                Self::lemma_clean_advance(s2, s3);
                assert(stmt_parses(s5.tokens@, s5.current->0 as int, k, then_x));
                if has_else {
                    Self::lemma_clean_advance(s9, s10);
                    assert(stmt_parses(s10.tokens@, s10.current->0 as int, j, *else_x->0));
                }
            }
            let t = then_jump as int;
            let e = else_jump as int;
            Self::lemma_step_trans(s0, s1, s2);
            Self::lemma_step_trans(s0, s2, s3);
            Self::lemma_grows_emit(s3, s4);
            Self::lemma_grows_emit(s4, s5);
            Self::lemma_grows_trans(s0, s3, s4);
            Self::lemma_grows_trans(s0, s4, s5);
            Self::lemma_grows_trans(s0, s5, s6);
            Self::lemma_grows_emit(s6, s7);
            Self::lemma_grows_trans(s0, s6, s7);
            Self::lemma_grows_patch(s0, s7, s8, t);
            Self::lemma_grows_emit(s8, s9);
            Self::lemma_grows_trans(s0, s8, s9);
            Self::lemma_grows_trans(s0, s9, s11);
            Self::lemma_grows_patch(s0, s11, *self, e);
            lemma_patched_but_none(s3.chunk.code@, l0);
            assert(patched_but(s3.chunk.code@, l0, t, -1));
            lemma_patched_but_push(s3.chunk.code@, l0, t, -1, OpCode::OpJumpIfFalse(None));
            lemma_patched_but_push(s4.chunk.code@, l0, t, -1, OpCode::OpPop);
            lemma_patched_but_extend(s5.chunk.code@, s6.chunk.code@, l0, t, -1);
            assert(patched_but(s6.chunk.code@, l0, t, e));
            lemma_patched_but_push(s6.chunk.code@, l0, t, e, OpCode::OpJump(None));
            lemma_patched_but_patch(
                s7.chunk.code@,
                l0,
                t,
                e,
                t,
                OpCode::OpJumpIfFalse(Some((s7.chunk.code@.len() - t - 1) as usize)),
                -1,
                e,
            );
            lemma_patched_but_push(s8.chunk.code@, l0, -1, e, OpCode::OpPop);
            lemma_patched_but_extend(s9.chunk.code@, s11.chunk.code@, l0, -1, e);
            lemma_patched_but_patch(
                s11.chunk.code@,
                l0,
                -1,
                e,
                e,
                OpCode::OpJump(Some((s11.chunk.code@.len() - e - 1) as usize)),
                -1,
                -1,
            );
            lemma_patched_but_none(self.chunk.code@, l0);
            if s0.quiet(*self) && s0.current->0 == s0.previous->0 + 1 {
                Self::lemma_quiet_at(s0, s1, *self);
                Self::lemma_quiet_at(s1, s2, *self);
                Self::lemma_quiet_at(s2, s3, *self);
                Self::lemma_quiet_at(s5, s6, *self);
                Self::lemma_quiet_at(s9, s11, *self);
                Self::lemma_quiet_consume(s0, s1, TokenKind::LeftParen, "Expect '(' after 'if'."@);
                Self::lemma_quiet_consume(s2, s3, TokenKind::RightParen, "Expect ')' after condition."@);
                let tk = s0.tokens@;
                let i = s0.previous->0 as int;
                let m = s2.current->0 as int;
                let k = s6.current->0 as int;
                assert(kind_of(tk, m) == TokenKind::RightParen);
                assert(kind_of(tk, k) == kind_of(tk, k));
                if else_branch@ is None {
                    Self::lemma_quiet_match(s9, s11, TokenKind::Else, false);
                }
                let n = s0.chunk.constants@.len();
                let ls = s0.locals@;
                let depth = s0.scope_depth;
                let (cc, kc) = expr_code(cond@, n, ls);
                let (ct, kt) = stmt_code(then_branch@, n + kc.len(), ls, depth);
                let (ce, ke) = match else_branch@ {
                    Some(other) => stmt_code(*other, n + kc.len() + kt.len(), ls, depth),
                    None => (Seq::empty(), Seq::empty()),
                };
                assert(s11.chunk.code@ == s9.chunk.code@ + ce);
                assert(self.chunk.code@ =~= s0.chunk.code@ + (cc + seq![
                    OpCode::OpJumpIfFalse(Some((ct.len() + 2) as usize)),
                    OpCode::OpPop,
                ] + ct + seq![OpCode::OpJump(Some((ce.len() + 1) as usize)), OpCode::OpPop] + ce));
                assert(self.chunk.constants@ =~= s0.chunk.constants@ + (kc + kt + ke));
                assert(stmt_parses(tk, i, self.current->0 as int, result));
            }
            assert(s5.keeps_locals(s10));
            if has_else {
                Self::lemma_keeps_locals_trans(s5, s10, s11);
            }
        }
        Ghost(result)
    }

    /// Compiles a `while` statement, the keyword being consumed: the condition, a jump out
    /// when it is false, the body, and a loop back to the condition; the condition is
    /// popped on either way.
    #[verifier::spinoff_prover]
    #[verifier::rlimit(80)]
    fn while_statement(&mut self) -> (s: Ghost<Stmt>)
        requires
            old(self).inv(),
            old(self).current is Some,
            old(self).previous is Some,
            kind_of(old(self).tokens@, old(self).previous->0 as int) == TokenKind::While,
        ensures
            old(self).step(*final(self)),
            final(self).scope_depth == old(self).scope_depth,
            old(self).quiet(*final(self)) && old(self).current->0 == old(self).previous->0 + 1 ==> {
                &&& stmt_parses(old(self).tokens@, old(self).previous->0 as int, final(self).current->0 as int, s@)
                &&& old(self).stmt_emitted(*final(self), s@)
            },
            forall|j: int, x: Stmt|
                #[trigger] stmt_parses(old(self).tokens@, old(self).previous->0 as int, j, x) && old(self).clean_start()
                    && stmt_clean(x, old(self).chunk.constants@.len(), old(self).locals@, old(self).scope_depth) && old(self).current->0
                    == old(self).previous->0 + 1
                    ==> old(self).ran_clean(*final(self), j) && s@ == x,
            old(self).quiet(*final(self)) && old(self).current->0 == old(self).previous->0 + 1 ==> stmt_clean(s@, old(self).chunk.constants@.len(), old(self).locals@, old(self).scope_depth),
            old(self).keeps_locals(*final(self)),
        decreases old(self).remaining(), 6nat,
    {
        let ghost s0 = *self;
        let ghost l0 = self.chunk.code@.len() as int;
        let loop_start = self.chunk.count();
        self.consume(TokenKind::LeftParen, "Expect '(' after 'while'.");
        let ghost s1 = *self;
        let cond = self.expression();
        let ghost s2 = *self;
        self.consume(TokenKind::RightParen, "Expect ')' after condition.");
        let ghost s3 = *self;
        let exit_jump = self.emit_jump(OpCode::OpJumpIfFalse(None));
        let ghost s4 = *self;
        self.emit_jump(OpCode::OpPop);
        let ghost s5 = *self;
        let body = self.statement();
        let ghost s6 = *self;
        self.emit_loop(loop_start);
        let ghost s7 = *self;
        self.patch_jump(exit_jump, OpCode::OpJumpIfFalse(None));
        let ghost s8 = *self;
        self.emit_byte(OpCode::OpPop);
        proof {
            let x = exit_jump as int;
            Self::lemma_step_trans(s0, s1, s2);
            Self::lemma_step_trans(s0, s2, s3);
            Self::lemma_grows_emit(s3, s4);
            Self::lemma_grows_emit(s4, s5);
            Self::lemma_grows_trans(s0, s3, s4);
            Self::lemma_grows_trans(s0, s4, s5);
            Self::lemma_grows_trans(s0, s5, s6);
            Self::lemma_emit_loop_grows(s6, s7);
            Self::lemma_grows_trans(s0, s6, s7);
            Self::lemma_grows_patch(s0, s7, s8, x);
            Self::lemma_grows_emit(s8, *self);
            Self::lemma_grows_trans(s0, s8, *self);
            lemma_patched_but_none(s3.chunk.code@, l0);
            assert(patched_but(s3.chunk.code@, l0, x, -1));
            lemma_patched_but_push(s3.chunk.code@, l0, x, -1, OpCode::OpJumpIfFalse(None));
            lemma_patched_but_push(s4.chunk.code@, l0, x, -1, OpCode::OpPop);
            lemma_patched_but_extend(s5.chunk.code@, s6.chunk.code@, l0, x, -1);
            lemma_patched_but_push(
                s6.chunk.code@,
                l0,
                x,
                -1,
                OpCode::OpLoop((s6.chunk.code@.len() - loop_start + 1) as usize),
            );
            lemma_patched_but_patch(
                s7.chunk.code@,
                l0,
                x,
                -1,
                x,
                OpCode::OpJumpIfFalse(Some((s7.chunk.code@.len() - x - 1) as usize)),
                -1,
                -1,
            );
            lemma_patched_but_push(s8.chunk.code@, l0, -1, -1, OpCode::OpPop);
            lemma_patched_but_none(self.chunk.code@, l0);
        }
        let ghost result = Stmt::While(cond@, Box::new(body@));
        proof {
            assert forall|j: int, x: Stmt|
                #[trigger] stmt_parses(s0.tokens@, s0.previous->0 as int, j, x) && s0.clean_start() && stmt_clean(
                    x,
                    s0.chunk.constants@.len(),
                    s0.locals@,
                    s0.scope_depth,
                ) && s0.current->0 == s0.previous->0 + 1 implies s0.ran_clean(*self, j) && result == x by {
                let tk = s0.tokens@;
                let i = s0.previous->0 as int;
                let cond_x = x->While_0;
                let body_x = *x->While_1;
                let m = choose|m: int|
                    #![trigger kind_of(tk, m)]
                    {
                        &&& expr_parses(tk, i + 2, m, Precedence::PrecAssign, cond_x)
                        &&& kind_of(tk, m) == TokenKind::RightParen
                        &&& stmt_parses(tk, m + 1, j, body_x)
                    };
                reveal(Compiler::stmt_owed);
                assert(tk.last() == tk[tk.len() - 1]);
                Self::lemma_clean_advance(s0, s1);
                assert(expr_parses(s1.tokens@, s1.current->0 as int, m, Precedence::PrecAssign, cond_x));
                Self::lemma_clean_advance(s2, s3);
                assert(stmt_parses(s5.tokens@, s5.current->0 as int, j, body_x));
                let (cc, kc) = expr_code(cond_x, s0.chunk.constants@.len(), s0.locals@);
                let (cb, kb) = stmt_code(body_x, s0.chunk.constants@.len() + kc.len(), s0.locals@, s0.scope_depth);
                assert(s6.chunk.code@.len() == s0.chunk.code@.len() + cc.len() + 2 + cb.len());
            }
            if s0.quiet(*self) && s0.current->0 == s0.previous->0 + 1 {
                Self::lemma_quiet_at(s0, s1, *self);
                Self::lemma_quiet_at(s1, s2, *self);
                Self::lemma_quiet_at(s2, s3, *self);
                Self::lemma_quiet_at(s5, s6, *self);
                Self::lemma_quiet_consume(s0, s1, TokenKind::LeftParen, "Expect '(' after 'while'."@);
                Self::lemma_quiet_consume(s2, s3, TokenKind::RightParen, "Expect ')' after condition."@);
                let tk = s0.tokens@;
                let i = s0.previous->0 as int;
                let m = s2.current->0 as int;
                assert(kind_of(tk, m) == TokenKind::RightParen);
                let n = s0.chunk.constants@.len();
                let ls = s0.locals@;
                let (cc, kc) = expr_code(cond@, n, ls);
                let (cb, kb) = stmt_code(body@, n + kc.len(), ls, s0.scope_depth);
                assert(self.chunk.code@ =~= s0.chunk.code@ + (cc + seq![
                    OpCode::OpJumpIfFalse(Some((cb.len() + 2) as usize)),
                    OpCode::OpPop,
                ] + cb + seq![OpCode::OpLoop((cc.len() + cb.len() + 3) as usize), OpCode::OpPop]));
                assert(self.chunk.constants@ =~= s0.chunk.constants@ + (kc + kb));
                assert(stmt_parses(tk, i, self.current->0 as int, result));
            }
            assert(s5.keeps_locals(s6));
        }
        Ghost(result)
    }

    /// Compiles the initializer clause of a `for`, the `(` being consumed: nothing after a
    /// `;`, a variable declaration, or an expression statement.
    fn for_initializer(&mut self) -> (init: Ghost<Option<Box<Decl>>>)
        requires
            old(self).inv(),
            old(self).current is Some,
            old(self).previous is Some,
        ensures
            old(self).step(*final(self)),
            final(self).scope_depth == old(self).scope_depth,
            old(self).quiet(*final(self)) ==> {
                let (c, k, l) = match init@ {
                    Some(d) => decl_code(*d, old(self).chunk.constants@.len(), old(self).locals@, old(self).scope_depth),
                    None => (Seq::empty(), Seq::empty(), old(self).locals@),
                };
                &&& for_init_parses(old(self).tokens@, old(self).current->0 as int, final(self).current->0 as int, init@)
                &&& old(self).emitted(*final(self), (c, k))
                &&& final(self).locals@ == l
            },
            old(self).init_owed(*final(self), init@),
            old(self).quiet(*final(self)) ==> match init@ {
                Some(d) => decl_clean(*d, old(self).chunk.constants@.len(), old(self).locals@, old(self).scope_depth),
                None => true,
            },
            old(self).keeps_outer(*final(self)),
    {
        proof {
            reveal(Compiler::init_owed);
        }
        let ghost s0 = *self;
        proof {
            assert(s0.tokens@.last() == s0.tokens@[s0.tokens@.len() - 1]);
        }
        if self.match_token(TokenKind::Semicolon) {
            proof {
                if s0.quiet(*self) {
                    Self::lemma_quiet_match(s0, *self, TokenKind::Semicolon, true);
                    assert(s0.chunk.code@ + Seq::<OpCode>::empty() =~= s0.chunk.code@);
                    assert(s0.chunk.constants@ + Seq::<Value>::empty() =~= s0.chunk.constants@);
                }
                assert forall|k1: int, x: Option<Box<Decl>>| #[trigger] for_init_parses(s0.tokens@, s0.current->0 as int, k1, x) && s0.clean_start() && match x {
                        Some(d) => decl_clean(*d, s0.chunk.constants@.len(), s0.locals@, s0.scope_depth),
                        None => true,
                    } implies s0.ran_clean(*self, k1) && None::<Box<Decl>> == x by {
                    Self::lemma_clean_advance(s0, *self);
                }
                Self::lemma_keeps_outer_same(s0, *self);
            }
            Ghost(None)
        } else if self.match_token(TokenKind::Var) {
            let ghost s1 = *self;
            let d = self.var_declaration();
            proof {
                Self::lemma_step_trans(s0, s1, *self);
                if s0.quiet(*self) {
                    Self::lemma_quiet_at(s0, s1, *self);
                    Self::lemma_quiet_match(s0, s1, TokenKind::Var, true);
                }
                assert forall|k1: int, x: Option<Box<Decl>>| #[trigger] for_init_parses(s0.tokens@, s0.current->0 as int, k1, x) && s0.clean_start() && match x {
                        Some(d) => decl_clean(*d, s0.chunk.constants@.len(), s0.locals@, s0.scope_depth),
                        None => true,
                    } implies s0.ran_clean(*self, k1) && Some(Box::new(d@)) == x by {
                    Self::lemma_clean_advance(s0, s1);
                    assert(decl_parses(s1.tokens@, s1.previous->0 as int, k1, *x->0));
                }
                Self::lemma_keeps_outer_same(s0, s1);
                Self::lemma_keeps_outer_trans(s0, s1, *self);
            }
            Ghost(Some(Box::new(d@)))
        } else {
            let e = self.expression_statement();
            proof {
                assert forall|k1: int, x: Option<Box<Decl>>| #[trigger] for_init_parses(s0.tokens@, s0.current->0 as int, k1, x) && s0.clean_start() && match x {
                        Some(d) => decl_clean(*d, s0.chunk.constants@.len(), s0.locals@, s0.scope_depth),
                        None => true,
                    } implies s0.ran_clean(*self, k1) && Some(
                    Box::new(Decl::Statement(Stmt::Expression(e@))),
                ) == x by {
                    let d = *x->0;
                    assert(expr_statement_parses(s0.tokens@, s0.current->0 as int, k1, d->Statement_0->Expression_0));
                }
                Self::lemma_keeps_outer_same(s0, *self);
            }
            Ghost(Some(Box::new(Decl::Statement(Stmt::Expression(e@)))))
        }
    }

    /// Compiles the condition clause of a `for`: unless it is empty, the condition and a
    /// jump out of the loop when it is false, still to be patched, whose index is
    /// returned, and a pop of the condition.
    fn for_condition(&mut self) -> (r: (Option<usize>, Ghost<Option<Expr>>))
        requires
            old(self).inv(),
            old(self).current is Some,
            old(self).previous is Some,
        ensures
            old(self).silent(*final(self)),
            old(self).grows(*final(self)),
            final(self).scope_depth == old(self).scope_depth,
            final(self).locals@ == old(self).locals@,
            r.0 is Some <==> r.1@ is Some,
            r.0 is Some ==> old(self).chunk.code@.len() <= r.0->0 < final(self).chunk.code@.len(),
            patched_but(
                final(self).chunk.code@,
                old(self).chunk.code@.len() as int,
                match r.0 {
                    Some(j) => j as int,
                    None => -1,
                },
                -1,
            ),
            old(self).quiet(*final(self)) ==> {
                let (cc, kc) = match r.1@ {
                    Some(c) => expr_code(c, old(self).chunk.constants@.len(), old(self).locals@),
                    None => (Seq::empty(), Seq::empty()),
                };
                &&& for_cond_parses(old(self).tokens@, old(self).current->0 as int, final(self).current->0 as int, r.1@)
                &&& old(self).emitted(
                    *final(self),
                    (
                        if r.1@ is Some {
                            cc + seq![OpCode::OpJumpIfFalse(None), OpCode::OpPop]
                        } else {
                            Seq::empty()
                        },
                        kc,
                    ),
                )
                &&& r.0 is Some ==> r.0->0 == old(self).chunk.code@.len() + cc.len()
            },
            old(self).cond_owed(*final(self), r.1@),
            old(self).quiet(*final(self)) ==> match r.1@ {
                Some(c) => expr_clean(c, old(self).locals@),
                None => true,
            },
    {
        proof {
            reveal(Compiler::cond_owed);
        }
        let ghost s1 = *self;
        let ghost l1 = s1.chunk.code@.len() as int;
        proof {
            assert(s1.tokens@.last() == s1.tokens@[s1.tokens@.len() - 1]);
        }
        if self.match_token(TokenKind::Semicolon) {
            proof {
                lemma_patched_but_none(self.chunk.code@, l1);
                if s1.quiet(*self) {
                    Self::lemma_quiet_match(s1, *self, TokenKind::Semicolon, true);
                    assert(s1.chunk.code@.subrange(0, s1.chunk.code@.len() as int) =~= s1.chunk.code@);
            assert(s1.chunk.lines@.subrange(0, s1.chunk.lines@.len() as int) =~= s1.chunk.lines@);
            assert(s1.chunk.constants@.subrange(0, s1.chunk.constants@.len() as int) =~= s1.chunk.constants@);
            assert(s1.errors@.subrange(0, s1.errors@.len() as int) =~= s1.errors@);
            assert(s1.chunk.code@ + Seq::<OpCode>::empty() =~= s1.chunk.code@);
                    assert(s1.chunk.constants@ + Seq::<Value>::empty() =~= s1.chunk.constants@);
                }
                assert forall|k2: int, x: Option<Expr>| #[trigger] for_cond_parses(s1.tokens@, s1.current->0 as int, k2, x) && s1.clean_start() && match x {
                        Some(c) => expr_clean(c, s1.locals@),
                        None => true,
                    } implies s1.ran_clean(*self, k2) && None::<Expr> == x by {
                    Self::lemma_clean_advance(s1, *self);
                }
            }
            return (None, Ghost(None));
        }
        let e = self.expression();
        let ghost s3 = *self;
        self.consume(TokenKind::Semicolon, "Expect ';' after loop condition.");
        let ghost s4 = *self;
        let exit_jump = self.emit_jump(OpCode::OpJumpIfFalse(None));
        let ghost s5 = *self;
        self.emit_byte(OpCode::OpPop);
        proof {
            let x = exit_jump as int;
            Self::lemma_step_trans(s1, s3, s4);
            Self::lemma_grows_emit(s4, s5);
            Self::lemma_grows_emit(s5, *self);
            Self::lemma_grows_trans(s1, s4, s5);
            Self::lemma_grows_trans(s1, s5, *self);
            lemma_patched_but_none(s4.chunk.code@, l1);
            assert(patched_but(s4.chunk.code@, l1, x, -1));
            lemma_patched_but_push(s4.chunk.code@, l1, x, -1, OpCode::OpJumpIfFalse(None));
            lemma_patched_but_push(s5.chunk.code@, l1, x, -1, OpCode::OpPop);
            assert forall|k2: int, x: Option<Expr>| #[trigger] for_cond_parses(s1.tokens@, s1.current->0 as int, k2, x) && s1.clean_start() && match x {
                        Some(c) => expr_clean(c, s1.locals@),
                        None => true,
                    } implies s1.ran_clean(*self, k2) && Some(e@) == x by {
                let c = x->0;
                let m = choose|m: int|
                    #![trigger kind_of(s1.tokens@, m)]
                    expr_parses(s1.tokens@, s1.current->0 as int, m, Precedence::PrecAssign, c) && kind_of(s1.tokens@, m)
                        == TokenKind::Semicolon && k2 == m + 1;
                assert(s1.tokens@.last() == s1.tokens@[s1.tokens@.len() - 1]);
                Self::lemma_clean_advance(s3, s4);
            }
            if s1.quiet(*self) {
                Self::lemma_quiet_at(s1, s3, *self);
                Self::lemma_quiet_at(s3, s4, *self);
                Self::lemma_quiet_consume(s3, s4, TokenKind::Semicolon, "Expect ';' after loop condition."@);
                let m = s3.current->0 as int;
                assert(kind_of(s1.tokens@, m) == TokenKind::Semicolon);
                let (cc, kc) = expr_code(e@, s1.chunk.constants@.len(), s1.locals@);
                assert(self.chunk.code@ =~= s1.chunk.code@ + (cc + seq![OpCode::OpJumpIfFalse(None), OpCode::OpPop]));
                assert(self.chunk.constants@ =~= s1.chunk.constants@ + kc);
            }
        }
        (Some(exit_jump), Ghost(Some(e@)))
    }

    /// Compiles the increment clause of a `for`: unless it is empty, a jump over it to the
    /// body, the increment and a pop of its value, and a loop back to `loop_start`.
    /// Returns where the body loops back to: the increment, or `loop_start` when there is
    /// none.
    fn for_increment(&mut self, loop_start: usize) -> (r: (usize, Ghost<Option<Expr>>))
        requires
            old(self).inv(),
            old(self).current is Some,
            old(self).previous is Some,
            old(self).start@ <= loop_start <= old(self).chunk.code@.len(),
        ensures
            old(self).silent(*final(self)),
            old(self).step(*final(self)),
            final(self).scope_depth == old(self).scope_depth,
            final(self).locals@ == old(self).locals@,
            old(self).start@ <= r.0 <= final(self).chunk.code@.len(),
            r.1@ is None ==> r.0 == loop_start,
            r.1@ is Some ==> r.0 == old(self).chunk.code@.len() + 1,
            old(self).quiet(*final(self)) ==> {
                let (cn, kn) = match r.1@ {
                    Some(c) => expr_code(c, old(self).chunk.constants@.len(), old(self).locals@),
                    None => (Seq::empty(), Seq::empty()),
                };
                &&& for_incr_parses(old(self).tokens@, old(self).current->0 as int, final(self).current->0 as int, r.1@)
                &&& old(self).emitted(
                    *final(self),
                    (
                        if r.1@ is Some {
                            seq![OpCode::OpJump(Some((cn.len() + 2) as usize))] + cn + seq![
                                OpCode::OpPop,
                                OpCode::OpLoop((old(self).chunk.code@.len() - loop_start + cn.len() + 3) as usize),
                            ]
                        } else {
                            Seq::empty()
                        },
                        kn,
                    ),
                )
            },
            old(self).incr_owed(*final(self), loop_start as int, r.1@),
            old(self).quiet(*final(self)) ==> match r.1@ {
                Some(c) => expr_clean(c, old(self).locals@) && old(self).chunk.code@.len() - loop_start + expr_code(
                    c,
                    old(self).chunk.constants@.len(),
                    old(self).locals@,
                ).0.len() + 3 <= u16::MAX,
                None => true,
            },
    {
        proof {
            reveal(Compiler::incr_owed);
        }
        let ghost s6 = *self;
        let ghost l6 = s6.chunk.code@.len() as int;
        proof {
            assert(s6.tokens@.last() == s6.tokens@[s6.tokens@.len() - 1]);
        }
        if self.match_token(TokenKind::RightParen) {
            proof {
                if s6.quiet(*self) {
                    Self::lemma_quiet_match(s6, *self, TokenKind::RightParen, true);
                    assert(s6.chunk.code@ + Seq::<OpCode>::empty() =~= s6.chunk.code@);
                    assert(s6.chunk.constants@ + Seq::<Value>::empty() =~= s6.chunk.constants@);
                }
                assert forall|k3: int, x: Option<Expr>| #[trigger] for_incr_parses(s6.tokens@, s6.current->0 as int, k3, x) && s6.clean_start() && match x {
                        Some(c) => expr_clean(c, s6.locals@) && s6.chunk.code@.len() - loop_start + expr_code(
                            c,
                            s6.chunk.constants@.len(),
                            s6.locals@,
                        ).0.len() + 3 <= u16::MAX,
                        None => true,
                    } implies s6.ran_clean(*self, k3) && None::<Expr> == x by {
                    Self::lemma_clean_advance(s6, *self);
                }
            }
            return (loop_start, Ghost(None));
        }
        let body_jump = self.emit_jump(OpCode::OpJump(None));
        let ghost s8 = *self;
        let incr_start = self.chunk.count();
        let e = self.expression();
        let ghost s9 = *self;
        self.emit_byte(OpCode::OpPop);
        let ghost s10 = *self;
        self.consume(TokenKind::RightParen, "Expect ')' after for clauses.");
        let ghost s11 = *self;
        self.emit_loop(loop_start);
        let ghost s12 = *self;
        self.patch_jump(body_jump, OpCode::OpJump(None));
        proof {
            let b = body_jump as int;
            Self::lemma_grows_emit(s6, s8);
            Self::lemma_grows_trans(s6, s8, s9);
            Self::lemma_grows_emit(s9, s10);
            Self::lemma_grows_trans(s6, s9, s10);
            Self::lemma_grows_trans(s6, s10, s11);
            Self::lemma_emit_loop_grows(s11, s12);
            Self::lemma_grows_trans(s6, s11, s12);
            Self::lemma_grows_patch(s6, s12, *self, b);
            assert(patched_but(s6.chunk.code@, l6, b, -1));
            lemma_patched_but_push(s6.chunk.code@, l6, b, -1, OpCode::OpJump(None));
            lemma_patched_but_extend(s8.chunk.code@, s9.chunk.code@, l6, b, -1);
            lemma_patched_but_push(s9.chunk.code@, l6, b, -1, OpCode::OpPop);
            lemma_patched_but_extend(s10.chunk.code@, s11.chunk.code@, l6, b, -1);
            lemma_patched_but_push(
                s11.chunk.code@,
                l6,
                b,
                -1,
                OpCode::OpLoop((s11.chunk.code@.len() - loop_start + 1) as usize),
            );
            lemma_patched_but_patch(
                s12.chunk.code@,
                l6,
                b,
                -1,
                b,
                OpCode::OpJump(Some((s12.chunk.code@.len() - b - 1) as usize)),
                -1,
                -1,
            );
            lemma_patched_but_none(self.chunk.code@, l6);
            assert forall|k3: int, x: Option<Expr>| #[trigger] for_incr_parses(s6.tokens@, s6.current->0 as int, k3, x) && s6.clean_start() && match x {
                        Some(c) => expr_clean(c, s6.locals@) && s6.chunk.code@.len() - loop_start + expr_code(
                            c,
                            s6.chunk.constants@.len(),
                            s6.locals@,
                        ).0.len() + 3 <= u16::MAX,
                        None => true,
                    } implies s6.ran_clean(*self, k3) && Some(e@) == x by {
                let c = x->0;
                let m = choose|m: int|
                    #![trigger kind_of(s6.tokens@, m)]
                    expr_parses(s6.tokens@, s6.current->0 as int, m, Precedence::PrecAssign, c) && kind_of(s6.tokens@, m)
                        == TokenKind::RightParen && k3 == m + 1;
                assert(s6.tokens@.last() == s6.tokens@[s6.tokens@.len() - 1]);
                assert(expr_parses(s8.tokens@, s8.current->0 as int, m, Precedence::PrecAssign, c));
                Self::lemma_clean_advance(s10, s11);
                let (cn, kn) = expr_code(c, s6.chunk.constants@.len(), s6.locals@);
                assert(s11.chunk.code@.len() == s6.chunk.code@.len() + 1 + cn.len() + 1);
            }
            if s6.quiet(*self) {
                Self::lemma_quiet_at(s6, s9, *self);
                Self::lemma_quiet_at(s9, s10, *self);
                Self::lemma_quiet_at(s10, s11, *self);
                Self::lemma_quiet_consume(s10, s11, TokenKind::RightParen, "Expect ')' after for clauses."@);
                let m = s9.current->0 as int;
                assert(kind_of(s6.tokens@, m) == TokenKind::RightParen);
                let (cn, kn) = expr_code(e@, s6.chunk.constants@.len(), s6.locals@);
                assert(self.chunk.code@ =~= s6.chunk.code@ + (seq![OpCode::OpJump(Some((cn.len() + 2) as usize))]
                    + cn + seq![
                    OpCode::OpPop,
                    OpCode::OpLoop((s6.chunk.code@.len() - loop_start + cn.len() + 3) as usize),
                ]));
                assert(self.chunk.constants@ =~= s6.chunk.constants@ + kn);
            }
        }
        (incr_start, Ghost(Some(e@)))
    }

    /// The proof that a clean `for` statement compiles without error: its parts, compiled
    /// one after the other from `s0` to `sf`, each run without error up to the next one.
    #[verifier::spinoff_prover]
    #[verifier::rlimit(100)]
    proof fn lemma_for_complete(
        s0: Self,
        sa: Self,
        sb: Self,
        s1: Self,
        s6: Self,
        s13: Self,
        s14: Self,
        s15: Self,
        sf: Self,
        init: Option<Box<Decl>>,
        cond: Option<Expr>,
        incr: Option<Expr>,
        body: Stmt,
        j: int,
        x: Stmt,
    )
        requires
            s0.inv(),
            s0.current is Some,
            s0.previous is Some,
            kind_of(s0.tokens@, s0.previous->0 as int) == TokenKind::For,
            stmt_parses(s0.tokens@, s0.previous->0 as int, j, x),
            s0.clean_start(),
            stmt_clean(x, s0.chunk.constants@.len(), s0.locals@, s0.scope_depth),
            s0.current->0 == s0.previous->0 + 1,
            sa == (Compiler { scope_depth: sa.scope_depth, ..s0 }),
            sa.scope_depth == s0.scope_depth + 1,
            sa.inv(),
            kind_of(sa.tokens@, sa.current->0 as int) == TokenKind::LeftParen ==> sa.advanced(sb),
            sb.init_owed(s1, init),
            sb.quiet(s1) ==> {
                let (c, k, l) = match init {
                    Some(d) => decl_code(*d, sb.chunk.constants@.len(), sb.locals@, sb.scope_depth),
                    None => (Seq::empty(), Seq::empty(), sb.locals@),
                };
                &&& sb.emitted(s1, (c, k))
                &&& s1.locals@ == l
            },
            s1.tokens@ == sb.tokens@,
            s1.panic_mode ==> sb.panic_mode || sb.errors@.len() < s1.errors@.len(),
            s1.scope_depth == sb.scope_depth,
            s1.cond_owed(s6, cond),
            s1.quiet(s6) ==> {
                let (cc, kc) = match cond {
                    Some(c) => expr_code(c, s1.chunk.constants@.len(), s1.locals@),
                    None => (Seq::empty(), Seq::empty()),
                };
                s1.emitted(
                    s6,
                    (
                        if cond is Some {
                            cc + seq![OpCode::OpJumpIfFalse(None), OpCode::OpPop]
                        } else {
                            Seq::empty()
                        },
                        kc,
                    ),
                )
            },
            s6.tokens@ == s1.tokens@,
            s6.panic_mode ==> s1.panic_mode || s1.errors@.len() < s6.errors@.len(),
            s6.locals@ == s1.locals@,
            s6.scope_depth == s1.scope_depth,
            s6.incr_owed(s13, s1.chunk.code@.len() as int, incr),
            s6.quiet(s13) ==> {
                let (cn, kn) = match incr {
                    Some(c) => expr_code(c, s6.chunk.constants@.len(), s6.locals@),
                    None => (Seq::empty(), Seq::empty()),
                };
                s6.emitted(
                    s13,
                    (
                        if incr is Some {
                            seq![OpCode::OpJump(Some((cn.len() + 2) as usize))] + cn + seq![
                                OpCode::OpPop,
                                OpCode::OpLoop((s6.chunk.code@.len() - s1.chunk.code@.len() + cn.len() + 3) as usize),
                            ]
                        } else {
                            Seq::empty()
                        },
                        kn,
                    ),
                )
            },
            s13.tokens@ == s6.tokens@,
            s13.panic_mode ==> s6.panic_mode || s6.errors@.len() < s13.errors@.len(),
            s13.locals@ == s6.locals@,
            s13.scope_depth == s6.scope_depth,
            s13.stmt_owed(s14, body),
            s13.quiet(s14) ==> s13.stmt_emitted(s14, body),
            s14.tokens@ == s13.tokens@,
            ({
                let back_start: int = if incr is Some { s6.chunk.code@.len() + 1int } else { s1.chunk.code@.len() as int };
                s14.chunk.code@.len() - back_start + 1 <= u16::MAX ==> {
                    &&& s15.errors@ == s14.errors@
                    &&& s15.panic_mode == s14.panic_mode
                }
            }),
            s15.current == s14.current,
            sf.errors@ == s15.errors@,
            sf.current == s15.current,
        ensures
            s0.ran_clean(sf, j),
            Stmt::For(init, cond, incr, Box::new(body)) == x,
    {
        reveal(Compiler::init_owed);
        reveal(Compiler::cond_owed);
        reveal(Compiler::incr_owed);
        reveal(Compiler::stmt_owed);
        reveal_with_fuel(stmt_parses, 2);
        let tk = s0.tokens@;
        let i = s0.previous->0 as int;
        assert(x is For);
        let init_x = x->For_0;
        let cond_x = x->For_1;
        let incr_x = x->For_2;
        let body_x = *x->For_3;
        let (k1, k2, k3) = choose|k1: int, k2: int, k3: int|
            #![trigger kind_of(tk, k1), kind_of(tk, k2), kind_of(tk, k3)]
            {
                &&& for_init_parses(tk, i + 2, k1, init_x)
                &&& for_cond_parses(tk, k1, k2, cond_x)
                &&& for_incr_parses(tk, k2, k3, incr_x)
                &&& stmt_parses(tk, k3, j, body_x)
            };
        assert(tk.last() == tk[tk.len() - 1]);
        assert(kind_of(tk, i + 1) == TokenKind::LeftParen);
        Self::lemma_clean_advance(sa, sb);
        assert(sb.current->0 == i + 2);
        let n = s0.chunk.constants@.len();
        let ls = s0.locals@;
        let inner = sa.scope_depth;
        let l0 = s0.chunk.code@.len();
        assert(for_init_parses(sb.tokens@, sb.current->0 as int, k1, init_x));
        let (ci, ki, l1) = match init_x {
            Some(d) => decl_code(*d, n, ls, inner),
            None => (Seq::empty(), Seq::empty(), ls),
        };
        assert(s1.locals@ == l1);
        assert(s1.chunk.constants@.len() == n + ki.len());
        assert(s1.chunk.code@.len() == l0 + ci.len());
        assert(for_cond_parses(s1.tokens@, s1.current->0 as int, k2, cond_x));
        let n1 = n + ki.len();
        let (cc, kc) = match cond_x {
            Some(c) => expr_code(c, n1, l1),
            None => (Seq::empty(), Seq::empty()),
        };
        let cond_len: int = if cond_x is Some { cc.len() + 2int } else { 0int };
        assert(s6.chunk.code@.len() == s1.chunk.code@.len() + cond_len);
        assert(s6.chunk.constants@.len() == n1 + kc.len());
        let n2 = n1 + kc.len();
        let (cn, kn) = match incr_x {
            Some(c) => expr_code(c, n2, l1),
            None => (Seq::empty(), Seq::empty()),
        };
        assert(for_incr_parses(s6.tokens@, s6.current->0 as int, k3, incr_x));
        let incr_len: int = if incr_x is Some { cn.len() + 3int } else { 0int };
        assert(s13.chunk.code@.len() == s6.chunk.code@.len() + incr_len);
        assert(s13.chunk.constants@.len() == n2 + kn.len());
        assert(stmt_parses(s13.tokens@, s13.current->0 as int, j, body_x));
        let (cb, kb) = stmt_code(body_x, n2 + kn.len(), l1, inner);
        assert(s14.chunk.code@.len() == s13.chunk.code@.len() + cb.len());
    }

    /// Compiles a `for` statement, the keyword being consumed, in a scope of its own: the
    /// initializer, the condition with a jump out when it is false, the increment (jumped
    /// over on the way in, and looping back to the condition), the body, and a loop back to
    /// the increment, or to the condition when there is no increment.
    #[verifier::spinoff_prover]
    #[verifier::rlimit(100)]
    fn for_statement(&mut self) -> (s: Ghost<Stmt>)
        requires
            old(self).inv(),
            old(self).current is Some,
            old(self).previous is Some,
            kind_of(old(self).tokens@, old(self).previous->0 as int) == TokenKind::For,
            old(self).scope_depth < old(self).pos,
        ensures
            old(self).step(*final(self)),
            final(self).scope_depth == old(self).scope_depth,
            old(self).quiet(*final(self)) && old(self).current->0 == old(self).previous->0 + 1 ==> {
                &&& stmt_parses(old(self).tokens@, old(self).previous->0 as int, final(self).current->0 as int, s@)
                &&& old(self).stmt_emitted(*final(self), s@)
            },
            forall|j: int, x: Stmt|
                #[trigger] stmt_parses(old(self).tokens@, old(self).previous->0 as int, j, x) && old(self).clean_start()
                    && stmt_clean(x, old(self).chunk.constants@.len(), old(self).locals@, old(self).scope_depth) && old(self).current->0
                    == old(self).previous->0 + 1
                    ==> old(self).ran_clean(*final(self), j) && s@ == x,
            old(self).quiet(*final(self)) && old(self).current->0 == old(self).previous->0 + 1 ==> stmt_clean(s@, old(self).chunk.constants@.len(), old(self).locals@, old(self).scope_depth),
            old(self).keeps_locals(*final(self)),
        decreases old(self).remaining(), 6nat,
    {
        let ghost s0 = *self;
        let ghost l0 = self.chunk.code@.len() as int;
        self.begin_scope();
        let ghost sa = *self;
        self.consume(TokenKind::LeftParen, "Expect '(' after 'for'.");
        let ghost sb = *self;
        let init = self.for_initializer();
        let ghost s1 = *self;
        let mut loop_start = self.chunk.count();
        let (exit_jump, cond) = self.for_condition();
        let ghost s6 = *self;
        let ghost x: int = match exit_jump {
            Some(j) => j as int,
            None => -1,
        };
        proof {
            Self::lemma_step_emit(s0, sa);
            Self::lemma_step_trans(s0, sa, sb);
            Self::lemma_step_trans(s0, sb, s1);
            Self::lemma_grows_trans(s0, s1, s6);
            lemma_patched_but_join(s1.chunk.code@, s6.chunk.code@, l0, x);
        }
        let (next_start, incr) = self.for_increment(loop_start);
        loop_start = next_start;
        let ghost s13 = *self;
        proof {
            Self::lemma_grows_trans(s0, s6, s13);
            lemma_patched_but_extend(s6.chunk.code@, s13.chunk.code@, l0, x, -1);
        }
        let body = self.statement();
        let ghost s14 = *self;
        self.emit_loop(loop_start);
        let ghost s15 = *self;
        proof {
            Self::lemma_grows_trans(s0, s13, s14);
            Self::lemma_emit_loop_grows(s14, s15);
            Self::lemma_grows_trans(s0, s14, s15);
            lemma_patched_but_extend(s13.chunk.code@, s14.chunk.code@, l0, x, -1);
            lemma_patched_but_push(
                s14.chunk.code@,
                l0,
                x,
                -1,
                OpCode::OpLoop((s14.chunk.code@.len() - loop_start + 1) as usize),
            );
        }
        if let Some(exit_jump_offset) = exit_jump {
            let ghost s16 = *self;
            self.patch_jump(exit_jump_offset, OpCode::OpJumpIfFalse(None));
            let ghost s17 = *self;
            self.emit_byte(OpCode::OpPop);
            proof {
                Self::lemma_grows_patch(s0, s16, s17, x);
                Self::lemma_grows_emit(s17, *self);
                Self::lemma_grows_trans(s0, s17, *self);
                lemma_patched_but_patch(
                    s16.chunk.code@,
                    l0,
                    x,
                    -1,
                    x,
                    OpCode::OpJumpIfFalse(Some((s16.chunk.code@.len() - x - 1) as usize)),
                    -1,
                    -1,
                );
                lemma_patched_but_push(s17.chunk.code@, l0, -1, -1, OpCode::OpPop);
            }
        }
        let ghost s18 = *self;
        assert(s0.grows(s18));
        assert(patched_but(s18.chunk.code@, l0, -1, -1));
        self.end_scope();
        proof {
            Self::lemma_grows_emit(s18, *self);
            Self::lemma_grows_trans(s0, s18, *self);
            lemma_patched_but_extend(s18.chunk.code@, self.chunk.code@, l0, -1, -1);
            lemma_patched_but_none(self.chunk.code@, l0);
        }
        let ghost result = Stmt::For(init@, cond@, incr@, Box::new(body@));
        proof {
            assert forall|j: int, x: Stmt|
                #[trigger] stmt_parses(s0.tokens@, s0.previous->0 as int, j, x) && s0.clean_start() && stmt_clean(
                    x,
                    s0.chunk.constants@.len(),
                    s0.locals@,
                    s0.scope_depth,
                ) && s0.current->0 == s0.previous->0 + 1 implies s0.ran_clean(*self, j) && result == x by {
                Self::lemma_for_complete(s0, sa, sb, s1, s6, s13, s14, s15, *self, init@, cond@, incr@, body@, j, x);
            }
            if s0.quiet(*self) && s0.current->0 == s0.previous->0 + 1 {
                Self::lemma_quiet_at(s0, sb, *self);
                Self::lemma_quiet_at(sb, s1, *self);
                Self::lemma_quiet_at(s1, s6, *self);
                Self::lemma_quiet_at(s6, s13, *self);
                Self::lemma_quiet_at(s13, s14, *self);
                Self::lemma_quiet_consume(sa, sb, TokenKind::LeftParen, "Expect '(' after 'for'."@);
                let t = s0.tokens@;
                let i = s0.previous->0 as int;
                lemma_for_parses(
                    t,
                    i,
                    s1.current->0 as int,
                    s6.current->0 as int,
                    s13.current->0 as int,
                    self.current->0 as int,
                    init@,
                    cond@,
                    incr@,
                    body@,
                );
                let n = s0.chunk.constants@.len();
                let ls = s0.locals@;
                let inner = sa.scope_depth;
                match init@ {
                    Some(d) => lemma_decl_locals(*d, n, ls, inner),
                    None => {
                        assert(ls.subrange(0, ls.len() as int) =~= ls);
                    },
                }
                assert forall|k: int| 0 <= k < ls.len() implies #[trigger] ls[k].depth < sa.scope_depth by {
                    reveal(locals_ok);
                }
                Self::lemma_scope_exit(sa, s18, *self, ls);
                lemma_for_code(
                    s0.chunk.code@,
                    s0.chunk.constants@,
                    ls,
                    s0.scope_depth,
                    init@,
                    cond@,
                    incr@,
                    body@,
                    s1.chunk.code@,
                    s6.chunk.code@,
                    s13.chunk.code@,
                    s14.chunk.code@,
                    s18.chunk.code@,
                    self.chunk.code@,
                    s1.chunk.constants@,
                    s6.chunk.constants@,
                    s13.chunk.constants@,
                    s14.chunk.constants@,
                    s1.locals@,
                    x,
                );
                lemma_for_code_clean(
                    s0.chunk.code@,
                    s0.chunk.constants@,
                    ls,
                    s0.scope_depth,
                    init@,
                    cond@,
                    incr@,
                    body@,
                    s1.chunk.code@,
                    s6.chunk.code@,
                    s13.chunk.code@,
                    s14.chunk.code@,
                    s1.chunk.constants@,
                    s6.chunk.constants@,
                    s13.chunk.constants@,
                    s14.chunk.constants@,
                    s1.locals@,
                    x,
                );
            }
            Self::lemma_keeps_outer_same(sa, sb);
            Self::lemma_keeps_outer_trans(sa, sb, s1);
            Self::lemma_keeps_outer_same(s1, s13);
            Self::lemma_keeps_outer_trans(sa, s1, s13);
            Self::lemma_keeps_locals_outer(s13, s14);
            Self::lemma_keeps_outer_trans(sa, s13, s14);
            Self::lemma_keeps_outer_same(s14, s18);
            Self::lemma_keeps_outer_trans(sa, s14, s18);
            Self::lemma_scope_closes(s0, sa, s18, *self);
        }
        Ghost(result)
    }

    /// Compiles the declarations of a block up to its `}`, the `{` being consumed.
    #[verifier::spinoff_prover]
    #[verifier::rlimit(60)]
    fn block(&mut self) -> (ds: Ghost<Seq<Decl>>)
        requires
            old(self).inv(),
            old(self).current is Some,
            old(self).previous is Some,
            old(self).scope_depth > 0,
        ensures
            old(self).step(*final(self)),
            final(self).scope_depth == old(self).scope_depth,
            old(self).quiet(*final(self)) ==> {
                let (c, k, l) = decls_code(
                    ds@,
                    old(self).chunk.constants@.len(),
                    old(self).locals@,
                    old(self).scope_depth,
                );
                &&& decls_parse(
                    old(self).tokens@,
                    old(self).current->0 as int,
                    final(self).previous->0 as int,
                    ds@,
                    true,
                )
                &&& kind_of(old(self).tokens@, final(self).previous->0 as int) == TokenKind::RightBrace
                &&& final(self).current->0 == final(self).previous->0 + 1
                &&& old(self).emitted(*final(self), (c, k))
                &&& final(self).locals@ == l
            },
            forall|m: int, x: Seq<Decl>|
                #[trigger] decls_parse(old(self).tokens@, old(self).current->0 as int, m, x, true) && kind_of(
                    old(self).tokens@,
                    m,
                ) == TokenKind::RightBrace && old(self).clean_start() && decls_clean(
                    x,
                    old(self).chunk.constants@.len(),
                    old(self).locals@,
                    old(self).scope_depth,
                ) ==> old(self).ran_clean(*final(self), m + 1) && final(self).previous == Some(m as usize) && ds@ == x,
            old(self).quiet(*final(self)) ==> decls_clean(ds@, old(self).chunk.constants@.len(), old(self).locals@, old(self).scope_depth),
            old(self).keeps_outer(*final(self)),
        decreases old(self).remaining(), 8nat,
    {
        let ghost s0 = *self;
        let ghost t = s0.tokens@;
        let ghost n = s0.chunk.constants@.len();
        let ghost ls = s0.locals@;
        let ghost depth = s0.scope_depth;
        let mut ds: Ghost<Seq<Decl>> = Ghost(Seq::empty());
        proof {
            Self::lemma_step_refl(s0);
            Self::lemma_keeps_outer_same(s0, s0);
            assert forall|m: int, x: Seq<Decl>| #[trigger] decls_parse(t, s0.current->0 as int, m, x, true) && kind_of(t, m) == TokenKind::RightBrace
                    && s0.clean_start() && decls_clean(x, n, ls, depth) implies x.take(0) == Seq::<Decl>::empty() && decls_follow(
                t,
                s0.current->0 as int,
                m,
                x.skip(0),
                true,
            ) by {
                lemma_follow(t, s0.current->0 as int, m, x, true);
                assert(x.skip(0) =~= x);
                assert(x.take(0) =~= Seq::<Decl>::empty());
            }
            assert(s0.chunk.code@ + Seq::<OpCode>::empty() =~= s0.chunk.code@);
            assert(s0.chunk.constants@ + Seq::<Value>::empty() =~= s0.chunk.constants@);
        }
        loop
            invariant
                s0 == *old(self),
                t == s0.tokens@,
                n == s0.chunk.constants@.len(),
                ls == s0.locals@,
                depth == s0.scope_depth,
                self.inv(),
                self.current is Some,
                self.previous is Some,
                s0.inv(),
                s0.step(*self),
                self.scope_depth == s0.scope_depth,
                s0.keeps_outer(*self),
                s0.quiet(*self) ==> {
                    let (c, k, l) = decls_code(ds@, n, ls, depth);
                    &&& decls_parse(t, s0.current->0 as int, self.current->0 as int, ds@, true)
                    &&& s0.emitted(*self, (c, k))
                    &&& self.locals@ == l
                    &&& decls_clean(ds@, n, ls, depth)
                },
                forall|m: int, x: Seq<Decl>|
                    #[trigger] decls_parse(t, s0.current->0 as int, m, x, true) && kind_of(t, m) == TokenKind::RightBrace
                    && s0.clean_start() && decls_clean(x, n, ls, depth) ==> {
                        &&& s0.quiet(*self)
                        &&& ds@.len() <= x.len()
                        &&& x.take(ds@.len() as int) == ds@
                        &&& decls_follow(t, self.current->0 as int, m, x.skip(ds@.len() as int), true)
                    },
            ensures
                kind_of(t, self.current->0 as int) == TokenKind::RightBrace || kind_of(t, self.current->0 as int)
                    == TokenKind::EOF,
            decreases self.tokens@.len() - self.pos,
        {
            if self.check_token(TokenKind::RightBrace) || self.check_token(TokenKind::EOF) {
                break;
            }
            let ghost s1 = *self;
            proof {
                assert(s1.tokens@.last() == s1.tokens@[s1.tokens@.len() - 1]);
            }
            let d = self.declaration();
            proof {
                assert forall|m: int, x: Seq<Decl>|
                    #[trigger] decls_parse(t, s0.current->0 as int, m, x, true) && kind_of(t, m) == TokenKind::RightBrace
                    && s0.clean_start() && decls_clean(x, n, ls, depth) implies {
                        &&& s0.quiet(*self)
                        &&& ds@.len() < x.len()
                        &&& x.take(ds@.len() + 1int) == ds@.push(d@)
                        &&& decls_follow(t, self.current->0 as int, m, x.skip(ds@.len() + 1int), true)
                    } by {
                    let k = ds@.len() as int;
                    let rest = x.skip(k);
                    if rest.len() == 0 {
                        assert(s1.current->0 == m);
                    }
                    let m1 = choose|m1: int|
                        #![trigger decl_parses(t, s1.current->0 as int, m1, rest[0])]
                        {
                            &&& kind_of(t, s1.current->0 as int) != TokenKind::EOF
                            &&& !(true && kind_of(t, s1.current->0 as int) == TokenKind::RightBrace)
                            &&& decl_parses(t, s1.current->0 as int, m1, rest[0])
                            &&& decls_follow(t, m1, m, rest.skip(1), true)
                        };
                    lemma_decls_clean_at(x, n, ls, depth, k);
                    assert(rest[0] == x[k]);
                    assert(decl_parses(s1.tokens@, s1.current->0 as int, m1, x[k]));
                    assert(x.take(k + 1) =~= x.take(k).push(x[k]));
                    assert(rest.skip(1) =~= x.skip(k + 1));
                }
            }
            let ghost prev = ds@;
            ds = Ghost(ds@.push(d@));
            proof {
                assert forall|m: int, x: Seq<Decl>| #[trigger] decls_parse(t, s0.current->0 as int, m, x, true) && kind_of(t, m) == TokenKind::RightBrace
                    && s0.clean_start() && decls_clean(x, n, ls, depth) implies x.take(ds@.len() as int) == ds@ && decls_follow(
                    t,
                    self.current->0 as int,
                    m,
                    x.skip(ds@.len() as int),
                    true,
                ) by {
                    assert(x.take(prev.len() + 1int) == prev.push(d@));
                }
            }
            proof {
                Self::lemma_step_trans(s0, s1, *self);
                Self::lemma_keeps_outer_trans(s0, s1, *self);
                if s0.quiet(*self) {
                    Self::lemma_quiet_at(s0, s1, *self);
                    let m = s1.current->0 as int;
                    assert(ds@.drop_last() =~= prev);
                    assert(kind_of(t, m) != TokenKind::EOF);
                    assert(decls_parse(t, s0.current->0 as int, self.current->0 as int, ds@, true));
                    let (c1, k1, l1) = decls_code(prev, n, ls, depth);
                    let (c2, k2, l2) = decl_code(d@, n + k1.len(), l1, depth);
                    assert(self.chunk.code@ =~= s0.chunk.code@ + (c1 + c2));
                    assert(self.chunk.constants@ =~= s0.chunk.constants@ + (k1 + k2));
                }
            }
        }
        let ghost s2 = *self;
        self.consume(TokenKind::RightBrace, "Expect '}' after block.");
        proof {
            assert forall|m: int, x: Seq<Decl>| #[trigger] decls_parse(t, s0.current->0 as int, m, x, true) && kind_of(t, m) == TokenKind::RightBrace
                    && s0.clean_start() && decls_clean(x, n, ls, depth) implies s0.ran_clean(*self, m + 1) && self.previous
                == Some(m as usize) && ds@ == x by {
                let rest = x.skip(ds@.len() as int);
                if rest.len() > 0 {
                    let m1 = choose|m1: int|
                        #![trigger decl_parses(t, s2.current->0 as int, m1, rest[0])]
                        {
                            &&& kind_of(t, s2.current->0 as int) != TokenKind::EOF
                            &&& !(true && kind_of(t, s2.current->0 as int) == TokenKind::RightBrace)
                            &&& decl_parses(t, s2.current->0 as int, m1, rest[0])
                            &&& decls_follow(t, m1, m, rest.skip(1), true)
                        };
                }
                assert(s2.current->0 == m);
                assert(x.take(x.len() as int) =~= x);
                assert(t.last() == t[t.len() - 1]);
                Self::lemma_clean_advance(s2, *self);
            }
            Self::lemma_step_trans(s0, s2, *self);
            if s0.quiet(*self) {
                Self::lemma_quiet_at(s0, s2, *self);
                Self::lemma_quiet_consume(s2, *self, TokenKind::RightBrace, "Expect '}' after block."@);
            }
            Self::lemma_keeps_outer_same(s2, *self);
            Self::lemma_keeps_outer_trans(s0, s2, *self);
        }
        ds
    }

    /// Compiles a declaration, then, after an error, skips to where compiling may resume.
    fn declaration(&mut self) -> (d: Ghost<Decl>)
        requires
            old(self).inv(),
            old(self).current is Some,
        ensures
            old(self).step(*final(self)),
            final(self).scope_depth == old(self).scope_depth,
            old(self).pos < old(self).tokens@.len() ==> old(self).pos < final(self).pos,
            !final(self).panic_mode || final(self).errors@.len() > old(self).errors@.len(),
            (forall|k: int|
                old(self).current->0 < k <= final(self).current->0 ==> #[trigger] kind_of(old(self).tokens@, k)
                    != TokenKind::Error) ==> !final(self).panic_mode,
            old(self).quiet(*final(self)) ==> {
                &&& decl_parses(old(self).tokens@, old(self).current->0 as int, final(self).current->0 as int, d@)
                &&& old(self).decl_emitted(*final(self), d@)
            },
            forall|j: int, x: Decl|
                #[trigger] decl_parses(old(self).tokens@, old(self).current->0 as int, j, x) && old(self).clean_start()
                    && decl_clean(x, old(self).chunk.constants@.len(), old(self).locals@, old(self).scope_depth)
                    ==> old(self).ran_clean(*final(self), j) && d@ == x,
            old(self).quiet(*final(self)) ==> decl_clean(d@, old(self).chunk.constants@.len(), old(self).locals@, old(self).scope_depth),
            old(self).keeps_outer(*final(self)),
        decreases old(self).remaining(), 7nat,
    {
        let ghost s0 = *self;
        let mut d: Ghost<Decl>;
        if self.match_token(TokenKind::Var) {
            let ghost s1 = *self;
            d = self.var_declaration();
            proof {
                Self::lemma_step_trans(s0, s1, *self);
                assert forall|j: int, x: Decl|
                    #[trigger] decl_parses(s0.tokens@, s0.current->0 as int, j, x) && s0.clean_start() && decl_clean(
                        x,
                        s0.chunk.constants@.len(),
                        s0.locals@,
                        s0.scope_depth,
                    ) implies s0.ran_clean(*self, j) && d@ == x by {
                    assert(s0.tokens@.last() == s0.tokens@[s0.tokens@.len() - 1]);
                    Self::lemma_clean_advance(s0, s1);
                    assert(decl_parses(s1.tokens@, s1.previous->0 as int, j, x));
                }
                if s0.quiet(*self) {
                    assert(s0.tokens@.last() == s0.tokens@[s0.tokens@.len() - 1]);
                    Self::lemma_quiet_at(s0, s1, *self);
                    Self::lemma_quiet_match(s0, s1, TokenKind::Var, true);
                }
                Self::lemma_keeps_outer_same(s0, s1);
                Self::lemma_keeps_outer_trans(s0, s1, *self);
            }
        } else {
            let s = self.statement();
            d = Ghost(Decl::Statement(s@));
            proof {
                assert forall|j: int, x: Decl|
                    #[trigger] decl_parses(s0.tokens@, s0.current->0 as int, j, x) && s0.clean_start() && decl_clean(
                        x,
                        s0.chunk.constants@.len(),
                        s0.locals@,
                        s0.scope_depth,
                    ) implies s0.ran_clean(*self, j) && d@ == x by {
                    reveal(Compiler::stmt_owed);
                    assert(stmt_parses(s0.tokens@, s0.current->0 as int, j, x->Statement_0));
                }
                Self::lemma_keeps_locals_outer(s0, *self);
            }
        }
        if self.panic_mode {
            let ghost s2 = *self;
            self.synchronize();
            proof {
                Self::lemma_step_trans(s0, s2, *self);
                assert(s0.current->0 <= s2.current->0);
                Self::lemma_keeps_outer_same(s2, *self);
                Self::lemma_keeps_outer_trans(s0, s2, *self);
            }
        }
        d
    }

    /// Compiles the tokens, declaration after declaration, up to the first `EOF` in view at
    /// the top level, then writes the final return. Returns whether no error was reported.
    pub fn compile(&mut self) -> (ok: bool)
        requires
            old(self).inv(),
        ensures
            final(self).inv(),
            ok == !final(self).error_flag(),
            diagnostics_known(final(self).error_seq(), final(self).token_seq()),
            ok <==> final(self).error_seq().len() == 0,
            old(self).error_flag() ==> !ok,
            final(self).error_seq().len() >= old(self).error_seq().len(),
            final(self).error_seq().subrange(0, old(self).error_seq().len() as int) == old(self).error_seq(),
            final(self).token_seq() == old(self).token_seq(),
            final(self).code_start() == old(self).code_start(),
            final(self).previous_index() is Some,
            kind_of(final(self).token_seq(), final(self).previous_index()->0 as int) == TokenKind::EOF,
            final(self).depth() == old(self).depth(),
            final(self).depth() == 0 ==> final(self).local_seq().len() == 0,
            chunk_grows(old(self).chunk_view(), final(self).chunk_view()),
            final(self).chunk_view().wf(),
            jumps_patched(final(self).chunk_view().code@, old(self).chunk_view().code@.len() as int),
            code_ok(
                final(self).chunk_view().code@,
                final(self).chunk_view().constants@.len() as int,
                final(self).code_start() as int,
            ),
            final(self).chunk_view().code@.len() > old(self).chunk_view().code@.len(),
            final(self).chunk_view().code@.last() == OpCode::OpReturn(0),
            jumps_land_inside(final(self).chunk_view().code@, final(self).code_start() as int),
            (forall|i: int|
                0 <= i < final(self).token_seq().len() - 1 ==> #[trigger] kind_of(final(self).token_seq(), i)
                    != TokenKind::EOF) ==> final(self).position() == final(self).token_seq().len(),
            old(self).current_index() is None && !old(self).panicking() && final(self).error_seq().len()
                == old(self).error_seq().len() ==> exists|ds: Seq<Decl>|
                #[trigger] program_parses(old(self).token_seq(), 0, ds) && decls_clean(
                    ds,
                    old(self).chunk_view().constants@.len(),
                    old(self).local_seq(),
                    old(self).depth() as usize,
                ) && {
                    let (c, k, l) = decls_code(
                        ds,
                        old(self).chunk_view().constants@.len(),
                        old(self).local_seq(),
                        old(self).depth() as usize,
                    );
                    &&& final(self).chunk_view().code@ == old(self).chunk_view().code@ + c.push(OpCode::OpReturn(0))
                    &&& final(self).chunk_view().constants@ == old(self).chunk_view().constants@ + k
                },
            forall|ds: Seq<Decl>|
                #[trigger] program_parses(old(self).token_seq(), 0, ds) && old(self).current_index() is None
                    && !old(self).panicking() && no_error_tokens(old(self).token_seq()) && decls_clean(
                    ds,
                    old(self).chunk_view().constants@.len(),
                    old(self).local_seq(),
                    old(self).depth() as usize,
                ) ==> final(self).error_seq() == old(self).error_seq() && (old(self).error_seq().len() == 0 ==> ok),
            forall|ds: Seq<Decl>|
                #[trigger] program_parses(old(self).token_seq(), 0, ds) && old(self).current_index() is None
                    && !old(self).panicking() && !decls_clean(
                    ds,
                    old(self).chunk_view().constants@.len(),
                    old(self).local_seq(),
                    old(self).depth() as usize,
                ) ==> !ok,
    {
        let ghost s0 = *self;
        let ghost t = s0.tokens@;
        let ghost n = s0.chunk.constants@.len();
        let ghost ls = s0.locals@;
        let ghost depth = s0.scope_depth;
        let ghost from_start = s0.current is None && !s0.panic_mode;
        let ghost owed = from_start && no_error_tokens(t);
        self.advance();
        let ghost s1 = *self;
        let mut ds: Ghost<Seq<Decl>> = Ghost(Seq::empty());
        proof {
            assert(s1.chunk.code@.subrange(0, s1.chunk.code@.len() as int) =~= s1.chunk.code@);
            assert(s1.chunk.lines@.subrange(0, s1.chunk.lines@.len() as int) =~= s1.chunk.lines@);
            assert(s1.chunk.constants@.subrange(0, s1.chunk.constants@.len() as int) =~= s1.chunk.constants@);
            assert(s1.errors@.subrange(0, s1.errors@.len() as int) =~= s1.errors@);
            assert(s1.chunk.code@ + Seq::<OpCode>::empty() =~= s1.chunk.code@);
            assert(s1.chunk.constants@ + Seq::<Value>::empty() =~= s1.chunk.constants@);
            assert(s0.tokens@.last() == s0.tokens@[s0.tokens@.len() - 1]);
            assert(s1.chunk.code@.subrange(0, s0.chunk.code@.len() as int) =~= s0.chunk.code@);
            assert(s1.chunk.lines@.subrange(0, s0.chunk.lines@.len() as int) =~= s0.chunk.lines@);
            assert(s1.chunk.constants@.subrange(0, s0.chunk.constants@.len() as int) =~= s0.chunk.constants@);
            assert(s1.errors@.subrange(0, s0.errors@.len() as int) =~= s0.errors@);
            lemma_patched_empty(s0.chunk.code@);
            if owed {
                assert(kind_of(t, 0) != TokenKind::Error);
                assert(s0.quiet(s1));
            }
            assert forall|m: int, x: Seq<Decl>|
                #[trigger] decls_parse(t, 0, m, x, false) && kind_of(t, m) == TokenKind::EOF && owed && decls_clean(
                    x,
                    n,
                    ls,
                    depth,
                ) implies x.take(0) == Seq::<Decl>::empty() && decls_follow(t, 0, m, x.skip(0), false) by {
                lemma_follow(t, 0, m, x, false);
                assert(x.skip(0) =~= x);
                assert(x.take(0) =~= Seq::<Decl>::empty());
            }
        }
        loop
            invariant_except_break
                s0 == *old(self),
                t == s0.tokens@,
                n == s0.chunk.constants@.len(),
                ls == s0.locals@,
                depth == s0.scope_depth,
                s0.frame(s1),
                from_start && s0.quiet(s1) ==> s1.current == Some(0usize) && s1.chunk == s0.chunk && s1.locals@ == ls,
                self.inv(),
                self.current is Some,
                s0.frame(*self),
                s1.frame(*self),
                jumps_patched(self.chunk.code@, s0.chunk.code@.len() as int),
                self.scope_depth == s0.scope_depth,
                owed == (from_start && no_error_tokens(t)),
                forall|m: int, x: Seq<Decl>|
                    #[trigger] decls_parse(t, 0, m, x, false) && kind_of(t, m) == TokenKind::EOF && owed && decls_clean(
                        x,
                        n,
                        ls,
                        depth,
                    ) ==> {
                        &&& s0.quiet(*self)
                        &&& ds@.len() <= x.len()
                        &&& x.take(ds@.len() as int) == ds@
                        &&& decls_follow(t, self.current->0 as int, m, x.skip(ds@.len() as int), false)
                    },
                from_start && s0.quiet(*self) ==> {
                    let (c, k, l) = decls_code(ds@, n, ls, depth);
                    &&& decls_parse(t, 0, self.current->0 as int, ds@, false)
                    &&& s0.emitted(*self, (c, k))
                    &&& self.locals@ == l
                    &&& decls_clean(ds@, n, ls, depth)
                },
            ensures
                self.inv(),
                self.current is Some,
                self.previous is Some,
                kind_of(self.tokens@, self.previous->0 as int) == TokenKind::EOF,
                s0.frame(*self),
                jumps_patched(self.chunk.code@, s0.chunk.code@.len() as int),
                self.scope_depth == s0.scope_depth,
                owed == (from_start && no_error_tokens(t)),
                forall|m: int, x: Seq<Decl>|
                    #[trigger] decls_parse(t, 0, m, x, false) && kind_of(t, m) == TokenKind::EOF && owed && decls_clean(
                        x,
                        n,
                        ls,
                        depth,
                    ) ==> s0.quiet(*self),
                from_start && s0.quiet(*self) ==> {
                    let (c, k, l) = decls_code(ds@, n, ls, depth);
                    &&& decls_parse(t, 0, self.previous->0 as int, ds@, false)
                    &&& s0.emitted(*self, (c, k))
                    &&& decls_clean(ds@, n, ls, depth)
                },
            decreases self.tokens@.len() - self.pos,
        {
            let ghost s2 = *self;
            proof {
                assert(s2.tokens@.last() == s2.tokens@[s2.tokens@.len() - 1]);
            }
            if self.match_token(TokenKind::EOF) {
                proof {
                    Self::lemma_frame_trans(s0, s2, *self);
                    assert forall|m: int, x: Seq<Decl>|
                        #[trigger] decls_parse(t, 0, m, x, false) && kind_of(t, m) == TokenKind::EOF && owed && decls_clean(
                            x,
                            n,
                            ls,
                            depth,
                        ) implies s0.quiet(*self) by {
                        Self::lemma_clean_advance(s2, *self);
                    }
                }
                break;
            }
            let d = self.declaration();
            proof {
                assert forall|m: int, x: Seq<Decl>|
                    #[trigger] decls_parse(t, 0, m, x, false) && kind_of(t, m) == TokenKind::EOF && owed && decls_clean(
                        x,
                        n,
                        ls,
                        depth,
                    ) implies {
                        &&& s0.quiet(*self)
                        &&& ds@.len() < x.len()
                        &&& x.take(ds@.len() + 1int) == ds@.push(d@)
                        &&& decls_follow(t, self.current->0 as int, m, x.skip(ds@.len() + 1int), false)
                    } by {
                    let k = ds@.len() as int;
                    let rest = x.skip(k);
                    if rest.len() == 0 {
                        assert(s2.current->0 == m);
                    }
                    let m1 = choose|m1: int|
                        #![trigger decl_parses(t, s2.current->0 as int, m1, rest[0])]
                        {
                            &&& kind_of(t, s2.current->0 as int) != TokenKind::EOF
                            &&& !(false && kind_of(t, s2.current->0 as int) == TokenKind::RightBrace)
                            &&& decl_parses(t, s2.current->0 as int, m1, rest[0])
                            &&& decls_follow(t, m1, m, rest.skip(1), false)
                        };
                    lemma_decls_clean_at(x, n, ls, depth, k);
                    assert(rest[0] == x[k]);
                    assert(decl_parses(s2.tokens@, s2.current->0 as int, m1, x[k]));
                    assert(x.take(k + 1) =~= x.take(k).push(x[k]));
                    assert(rest.skip(1) =~= x.skip(k + 1));
                }
            }
            let ghost prev = ds@;
            ds = Ghost(ds@.push(d@));
            proof {
                assert forall|m: int, x: Seq<Decl>|
                    #[trigger] decls_parse(t, 0, m, x, false) && kind_of(t, m) == TokenKind::EOF && owed && decls_clean(
                        x,
                        n,
                        ls,
                        depth,
                    ) implies x.take(ds@.len() as int) == ds@ && decls_follow(
                    t,
                    self.current->0 as int,
                    m,
                    x.skip(ds@.len() as int),
                    false,
                ) by {
                    assert(x.take(prev.len() + 1int) == prev.push(d@));
                }
            }
            proof {
                Self::lemma_frame_trans(s0, s2, *self);
                Self::lemma_frame_trans(s1, s2, *self);
                lemma_patched_extend(s2.chunk.code@, self.chunk.code@, s0.chunk.code@.len() as int);
                if from_start && s0.quiet(*self) {
                    let m = s2.current->0 as int;
                    assert(ds@.drop_last() =~= prev);
                    assert(kind_of(t, m) != TokenKind::EOF);
                    assert(decls_parse(t, 0, self.current->0 as int, ds@, false));
                    let (c1, k1, l1) = decls_code(prev, n, ls, depth);
                    let (c2, k2, l2) = decl_code(d@, n + k1.len(), l1, depth);
                    assert(self.chunk.code@ =~= s0.chunk.code@ + (c1 + c2));
                    assert(self.chunk.constants@ =~= s0.chunk.constants@ + (k1 + k2));
                }
            }
        }
        let ghost s3 = *self;
        self.end_compiler();
        proof {
            assert(self.chunk.code@.subrange(0, s3.chunk.code@.len() as int) =~= s3.chunk.code@);
            assert(self.chunk.lines@.subrange(0, s3.chunk.lines@.len() as int) =~= s3.chunk.lines@);
            assert(self.chunk.constants@.subrange(0, s3.chunk.constants@.len() as int) =~= s3.chunk.constants@);
            assert(self.errors@.subrange(0, s3.errors@.len() as int) =~= s3.errors@);
            Self::lemma_frame_trans(s0, s3, *self);
            lemma_patched_push(s3.chunk.code@, s0.chunk.code@.len() as int, OpCode::OpReturn(0));
            lemma_code_finished(s3.chunk.code@, s3.chunk.constants@.len() as int, s3.start@ as int);
            assert(self.tokens@.last() == self.tokens@[self.tokens@.len() - 1]);
            reveal(locals_ok);
            if self.scope_depth == 0 && self.locals@.len() > 0 {
                assert(1 <= self.locals@[0].depth);
            }
            if from_start && s0.quiet(*self) {
                let (c, k, l) = decls_code(ds@, n, ls, depth);
                assert(self.chunk.code@ =~= s0.chunk.code@ + c.push(OpCode::OpReturn(0)));
                assert(self.chunk.constants@ == s0.chunk.constants@ + k);
                assert(s0.depth() as usize == depth);
                assert(program_parses(t, 0, ds@));
                assert(program_parses(s0.token_seq(), 0, ds@));
            }
            assert forall|x: Seq<Decl>|
                #[trigger] program_parses(s0.token_seq(), 0, x) && s0.current_index() is None && !s0.panicking()
                    && no_error_tokens(s0.token_seq()) && decls_clean(
                    x,
                    s0.chunk_view().constants@.len(),
                    s0.local_seq(),
                    s0.depth() as usize,
                ) implies self.error_seq() == s0.error_seq() by {
                let m = choose|m: int| #![trigger kind_of(t, m)] decls_parse(t, 0, m, x, false) && kind_of(t, m) == TokenKind::EOF;
                assert(s0.depth() as usize == depth);
                assert(self.errors@ =~= s0.errors@);
            }
            assert forall|x: Seq<Decl>|
                #[trigger] program_parses(s0.token_seq(), 0, x) && s0.current_index() is None && !s0.panicking()
                    && !decls_clean(x, s0.chunk_view().constants@.len(), s0.local_seq(), s0.depth() as usize)
                    implies self.had_error by {
                if !self.had_error {
                    assert(self.errors@.len() == 0);
                    assert(s0.errors@.len() == 0);
                    assert(s0.quiet(*self));
                    assert(program_parses(t, 0, ds@));
                    lemma_program_unique(t, 0, x, ds@);
                    assert(s0.depth() as usize == depth);
                }
            }
        }
        !self.had_error
    }

    /// Moves to the next token: the current token becomes the previous one, and the
    /// following tokens are read until one is no error token, the first error token being
    /// reported.
    fn advance(&mut self)
        requires
            old(self).inv(),
        ensures
            old(self).silent(*final(self)),
            old(self).advanced(*final(self)),
            final(self).inv(),
            old(self).current is Some ==> old(self).step(*final(self)),
    {
        let ghost old_self = *self;
        self.previous = self.current;
        loop
            invariant_except_break
                old_self == *old(self),
                old_self.inv(),
                self.tokens@ == old_self.tokens@,
                old_self.same_but_cursor(*self),
                self.previous == old_self.current,
                old_self.pos <= self.pos <= self.tokens@.len(),
                self.pos == old_self.pos ==> {
                    &&& self.current == old_self.current
                    &&& self.errors@ == old_self.errors@
                    &&& self.panic_mode == old_self.panic_mode
                    &&& self.had_error == old_self.had_error
                },
                self.pos > old_self.pos ==> {
                    &&& self.pos < self.tokens@.len()
                    &&& self.current == Some((self.pos - 1) as usize)
                    &&& forall|k: int| old_self.pos <= k < self.pos ==> #[trigger] kind_of(old_self.tokens@, k) == TokenKind::Error
                    &&& old_self.reported(*self, old_self.pos as int, error_text(old_self.tokens@[old_self.pos as int]))
                },
            ensures
                old_self.advanced(*self),
            decreases self.tokens@.len() - self.pos,
        {
            if self.pos >= self.tokens.len() {
                proof {
                    if old_self.current is Some {
                        Self::lemma_step_no_code(old_self, *self);
                    }
                }
                return;
            }
            let idx = self.pos;
            self.pos = self.pos + 1;
            self.current = Some(idx);
            if self.tokens[idx].kind() == TokenKind::Error {
                let msg = match &self.tokens[idx].token_type {
                    TokenType::Error(m) => m.clone(),
                    _ => String::new(),
                };
                let ghost before = *self;
                self.error_at_current_token(msg.as_str());
                proof {
                    if idx > old_self.pos {
                        assert(old_self.reported(before, old_self.pos as int, error_text(old_self.tokens@[old_self.pos as int])));
                        assert(before.panic_mode);
                    }
                }
                assert(idx + 1 < self.tokens@.len());
            } else {
                break;
            }
        }
        proof {
            if self.errors@.len() > old_self.errors@.len() {
                let e = self.errors@.last();
                lemma_known_push(old_self.errors@, self.tokens@, e, old_self.pos as int);
                assert(self.errors@ =~= old_self.errors@.push(e));
            } else {
                assert(self.errors@ == old_self.errors@);
            }
            if old_self.current is Some {
                Self::lemma_step_no_code(old_self, *self);
            }
        }
    }
}

} // verus!
