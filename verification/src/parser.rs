//! Recursive-descent parser with operator-precedence climbing.  The grammar
//! is defined by the `spec_parse_*` functions over token sequences; the
//! `Parser` is proved to return exactly the tree and to leave exactly the
//! tokens that those functions say.  (The inner length tests in the spec
//! functions only keep their recursion well founded; a successful parse
//! always shortens the stream.)

use vstd::prelude::*;
use vstd::string::StrSliceExecFns;
use vstd::string::StringExecFns;

use crate::lexer::{Token, TokenV, Tokenizer};

verus! {

// ---------------------------------------------------------------------------
// Abstract syntax trees
// ---------------------------------------------------------------------------

/// Mathematical model of an AST node.
#[verifier::ext_equal]
#[allow(inconsistent_fields)]
pub enum AstV {
    Number { val: Seq<char> },
    Variable { name: Seq<char> },
    Binary { op: Seq<char>, lhs: Box<AstV>, rhs: Box<AstV> },
    Prototype { name: Seq<char>, args: Seq<Seq<char>> },
    Function { proto: Box<AstV>, body: Box<AstV> },
    Call { callee: Seq<char>, args: Seq<AstV> },
}

/// An AST node.  Each composite node owns its children; parentheses are not
/// represented, they only group during parsing.  A number literal carries
/// the scanned text of the token it came from.
#[allow(inconsistent_fields)]
pub enum ExprAST {
    NumberExprAST { val: String },
    VariableExprAST { name: String },
    BinaryExprAST { op: String, lhs: Box<ExprAST>, rhs: Box<ExprAST> },
    PrototypeAST { name: String, args: Vec<String> },
    FunctionAST { proto: Box<ExprAST>, body: Box<ExprAST> },
    CallExprAST { callee: String, args: Vec<Box<ExprAST>> },
}

/// The names of a prototype's parameters, as character sequences.
pub open spec fn strs_view(s: Seq<String>) -> Seq<Seq<char>> {
    Seq::new(s.len(), |i: int| s[i]@)
}

/// The model of an AST node.
pub open spec fn ast_view(e: ExprAST) -> AstV
    decreases e, 0int,
{
    match e {
        ExprAST::NumberExprAST { val } => AstV::Number { val: val@ },
        ExprAST::VariableExprAST { name } => AstV::Variable { name: name@ },
        ExprAST::BinaryExprAST { op, lhs, rhs } => AstV::Binary {
            op: op@,
            lhs: Box::new(ast_view(*lhs)),
            rhs: Box::new(ast_view(*rhs)),
        },
        ExprAST::PrototypeAST { name, args } => AstV::Prototype {
            name: name@,
            args: strs_view(args@),
        },
        ExprAST::FunctionAST { proto, body } => AstV::Function {
            proto: Box::new(ast_view(*proto)),
            body: Box::new(ast_view(*body)),
        },
        ExprAST::CallExprAST { callee, args } => AstV::Call {
            callee: callee@,
            args: ast_view_list(args@, 0),
        },
    }
}

/// The models of the argument nodes from index `i` on.
pub open spec fn ast_view_list(s: Seq<Box<ExprAST>>, i: int) -> Seq<AstV>
    decreases s, s.len() - i,
{
    if i < 0 || i >= s.len() {
        Seq::empty()
    } else {
        seq![ast_view(*s[i])] + ast_view_list(s, i + 1)
    }
}

proof fn lemma_ast_view_list_push(s: Seq<Box<ExprAST>>, b: Box<ExprAST>, i: int)
    requires
        0 <= i <= s.len(),
    ensures
        ast_view_list(s.push(b), i) == ast_view_list(s, i) + seq![ast_view(*b)],
    decreases s.len() - i,
{
    if i < s.len() {
        lemma_ast_view_list_push(s, b, i + 1);
        assert(s.push(b)[i] == s[i]);
        assert(ast_view_list(s.push(b), i) =~= ast_view_list(s, i) + seq![ast_view(*b)]);
    } else {
        assert(s.push(b)[i] == b);
        assert(ast_view_list(s.push(b), i + 1) =~= Seq::<AstV>::empty());
        assert(ast_view_list(s, i) =~= Seq::<AstV>::empty());
        assert(ast_view_list(s.push(b), i) =~= ast_view_list(s, i) + seq![ast_view(*b)]);
    }
}

// ---------------------------------------------------------------------------
// The operator-precedence table
// ---------------------------------------------------------------------------

/// The binding strength of an operator spelling; `-1` for anything unknown.
/// Higher binds tighter.
pub open spec fn op_prec(id: Seq<char>) -> int {
    if id == seq!['<'] {
        10
    } else if id == seq!['+'] {
        20
    } else if id == seq!['-'] {
        20
    } else if id == seq!['*'] {
        30
    } else {
        -1
    }
}

/// The binding strength of a token: only one-character identifier tokens
/// known to the table are operators.
pub open spec fn tok_prec_of(t: TokenV) -> int {
    match t {
        TokenV::Identifier { id } => op_prec(id),
        _ => -1,
    }
}

/// The binding strength of the first token of a stream, `-1` at its end.
pub open spec fn stream_prec(toks: Seq<TokenV>) -> int {
    if toks.len() == 0 {
        -1
    } else {
        tok_prec_of(toks[0])
    }
}

/// Whether a token is the one-character identifier `c`.
pub open spec fn is_id_char(t: TokenV, c: char) -> bool {
    match t {
        TokenV::Identifier { id } => id == seq![c],
        _ => false,
    }
}

// ---------------------------------------------------------------------------
// The grammar, as mathematical functions from token sequences to trees
// ---------------------------------------------------------------------------

/// primary ::= parenexpr | identifierexpr | numberexpr
pub open spec fn spec_parse_primary(toks: Seq<TokenV>) -> Option<(AstV, Seq<TokenV>)>
    decreases toks.len(), 1int,
{
    if toks.len() == 0 {
        None
    } else {
        match toks[0] {
            TokenV::Identifier { id } => if id == seq!['('] {
                spec_parse_paren(toks)
            } else {
                spec_parse_identifier(toks)
            },
            TokenV::Number { text } => Some((AstV::Number { val: text }, toks.skip(1))),
            _ => None,
        }
    }
}

/// parenexpr ::= '(' expression ')'
pub open spec fn spec_parse_paren(toks: Seq<TokenV>) -> Option<(AstV, Seq<TokenV>)>
    decreases toks.len(), 0int,
{
    if toks.len() == 0 {
        None
    } else {
        match spec_parse_expression(toks.skip(1)) {
            None => None,
            Some((inner, rest)) => if rest.len() > 0 && is_id_char(rest[0], ')') {
                Some((inner, rest.skip(1)))
            } else {
                None
            },
        }
    }
}

/// identifierexpr ::= identifier | identifier '(' expression* ')'
pub open spec fn spec_parse_identifier(toks: Seq<TokenV>) -> Option<(AstV, Seq<TokenV>)>
    decreases toks.len(), 0int,
{
    if toks.len() == 0 || !(toks[0] is Identifier) {
        None
    } else {
        let id = toks[0]->Identifier_id;
        let rest = toks.skip(1);
        if rest.len() == 0 || !is_id_char(rest[0], '(') {
            Some((AstV::Variable { name: id }, rest))
        } else {
            let after = rest.skip(1);
            if after.len() > 0 && is_id_char(after[0], ')') {
                Some((AstV::Call { callee: id, args: Seq::empty() }, after.skip(1)))
            } else {
                match spec_parse_args(after) {
                    None => None,
                    Some((args, fin)) => if fin.len() > 0 && is_id_char(fin[0], ')') {
                        Some((AstV::Call { callee: id, args }, fin.skip(1)))
                    } else {
                        None
                    },
                }
            }
        }
    }
}

/// The comma-separated argument list of a call, ending at the `)` that the
/// caller consumes.
pub open spec fn spec_parse_args(toks: Seq<TokenV>) -> Option<(Seq<AstV>, Seq<TokenV>)>
    decreases toks.len(), 3int,
{
    match spec_parse_expression(toks) {
        None => None,
        Some((arg, rest)) => {
            if rest.len() == 0 || !(rest[0] is Identifier) {
                None
            } else if is_id_char(rest[0], ')') {
                Some((seq![arg], rest))
            } else if is_id_char(rest[0], ',') {
                if rest.len() <= toks.len() {
                    match spec_parse_args(rest.skip(1)) {
                        None => None,
                        Some((more, fin)) => Some((seq![arg] + more, fin)),
                    }
                } else {
                    None
                }
            } else {
                None
            }
        },
    }
}

/// expression ::= primary binoprhs
pub open spec fn spec_parse_expression(toks: Seq<TokenV>) -> Option<(AstV, Seq<TokenV>)>
    decreases toks.len(), 2int,
{
    match spec_parse_primary(toks) {
        None => None,
        Some((lhs, rest)) => if rest.len() < toks.len() {
            spec_parse_binop_rhs(0, lhs, rest)
        } else {
            None
        },
    }
}

/// binoprhs: folds operators of strength at least `min_prec` into `lhs`.
/// An operator binds its right operand together with every following
/// operator of strictly greater strength; operators of equal strength
/// associate to the left.
pub open spec fn spec_parse_binop_rhs(min_prec: int, lhs: AstV, toks: Seq<TokenV>) -> Option<
    (AstV, Seq<TokenV>),
>
    decreases toks.len(), 0int,
{
    if stream_prec(toks) < min_prec {
        Some((lhs, toks))
    } else if toks.len() == 0 || !(toks[0] is Identifier) {
        None
    } else {
        let op = toks[0]->Identifier_id;
        if op_prec(op) < 0 {
            None
        } else {
            let p = op_prec(op);
            let rest = toks.skip(1);
            match spec_parse_primary(rest) {
                None => None,
                Some((rhs0, t2)) => if t2.len() < rest.len() {
                    if p < stream_prec(t2) {
                        match spec_parse_binop_rhs(p + 1, rhs0, t2) {
                            None => None,
                            Some((rhs1, t3)) => if t3.len() <= t2.len() {
                                spec_parse_binop_rhs(
                                    min_prec,
                                    AstV::Binary { op, lhs: Box::new(lhs), rhs: Box::new(rhs1) },
                                    t3,
                                )
                            } else {
                                None
                            },
                        }
                    } else {
                        spec_parse_binop_rhs(
                            min_prec,
                            AstV::Binary { op, lhs: Box::new(lhs), rhs: Box::new(rhs0) },
                            t2,
                        )
                    }
                } else {
                    None
                },
            }
        }
    }
}

/// The parameter names of a prototype, read until the closing `)`, which is
/// consumed.  Parameters are not separated by commas.
pub open spec fn spec_parse_params(toks: Seq<TokenV>) -> Option<(Seq<Seq<char>>, Seq<TokenV>)>
    decreases toks.len(), 0int,
{
    if toks.len() == 0 || !(toks[0] is Identifier) {
        None
    } else if is_id_char(toks[0], ')') {
        Some((Seq::empty(), toks.skip(1)))
    } else {
        match spec_parse_params(toks.skip(1)) {
            None => None,
            Some((ps, fin)) => Some((seq![toks[0]->Identifier_id] + ps, fin)),
        }
    }
}

/// prototype ::= identifier '(' identifier* ')'
pub open spec fn spec_parse_prototype(toks: Seq<TokenV>) -> Option<(AstV, Seq<TokenV>)>
    decreases toks.len(), 1int,
{
    if toks.len() == 0 || !(toks[0] is Identifier) {
        None
    } else {
        let name = toks[0]->Identifier_id;
        let rest = toks.skip(1);
        if rest.len() == 0 || !is_id_char(rest[0], '(') {
            None
        } else {
            match spec_parse_params(rest.skip(1)) {
                None => None,
                Some((params, fin)) => Some((AstV::Prototype { name, args: params }, fin)),
            }
        }
    }
}

/// definition ::= 'def' prototype expression
pub open spec fn spec_parse_definition(toks: Seq<TokenV>) -> Option<(AstV, Seq<TokenV>)>
    decreases toks.len(), 2int,
{
    let rest = if toks.len() > 0 {
        toks.skip(1)
    } else {
        toks
    };
    match spec_parse_prototype(rest) {
        None => None,
        Some((proto, r2)) => if r2.len() < toks.len() {
            match spec_parse_expression(r2) {
                None => None,
                Some((body, r3)) => Some(
                    (AstV::Function { proto: Box::new(proto), body: Box::new(body) }, r3),
                ),
            }
        } else {
            None
        },
    }
}

/// external ::= 'extern' prototype
pub open spec fn spec_parse_extern(toks: Seq<TokenV>) -> Option<(AstV, Seq<TokenV>)>
    decreases toks.len(), 2int,
{
    let rest = if toks.len() > 0 {
        toks.skip(1)
    } else {
        toks
    };
    spec_parse_prototype(rest)
}

/// The name given to a bare top-level expression, wrapped as an anonymous
/// function so that it looks like any other function downstream.
pub open spec fn anon_name() -> Seq<char> {
    "__anon_expr"@
}

/// toplevelexpr ::= expression, wrapped as an anonymous zero-argument
/// function.
pub open spec fn spec_parse_top_level(toks: Seq<TokenV>) -> Option<(AstV, Seq<TokenV>)>
    decreases toks.len(), 3int,
{
    match spec_parse_expression(toks) {
        None => None,
        Some((body, rest)) => Some(
            (
                AstV::Function {
                    proto: Box::new(AstV::Prototype { name: anon_name(), args: Seq::empty() }),
                    body: Box::new(body),
                },
                rest,
            ),
        ),
    }
}

// ---------------------------------------------------------------------------
// Canonical serialization, and the round-trip law
// ---------------------------------------------------------------------------

/// The expression trees the serializer is stated for: operators come from
/// the precedence table, and no identifier spells a punctuation mark of the
/// grammar (`(`, `)`, `,`).
pub open spec fn printable(a: AstV) -> bool
    decreases a, 1int,
{
    match a {
        AstV::Number { .. } => true,
        AstV::Variable { name } => name != seq!['('] && name != seq![')'] && name != seq![','],
        AstV::Binary { op, lhs, rhs } => op_prec(op) >= 0 && printable(*lhs) && printable(*rhs),
        AstV::Call { callee, args } => callee != seq!['('] && callee != seq![')'] && callee
            != seq![','] && printable_list(args, 0),
        _ => false,
    }
}

/// Every argument from index `i` on is printable.
pub open spec fn printable_list(s: Seq<AstV>, i: int) -> bool
    decreases s, s.len() - i,
{
    if i < 0 || i >= s.len() {
        true
    } else {
        printable(s[i]) && printable_list(s, i + 1)
    }
}

/// The canonical token serialization of an expression tree: every binary
/// node fully parenthesized, call arguments separated by commas.
pub open spec fn unparse(a: AstV) -> Seq<TokenV>
    decreases a, 1int,
{
    match a {
        AstV::Number { val } => seq![TokenV::Number { text: val }],
        AstV::Variable { name } => seq![TokenV::Identifier { id: name }],
        AstV::Binary { op, lhs, rhs } => seq![TokenV::Identifier { id: seq!['('] }] + unparse(*lhs)
            + seq![TokenV::Identifier { id: op }] + unparse(*rhs) + seq![
            TokenV::Identifier { id: seq![')'] },
        ],
        AstV::Call { callee, args } => seq![
            TokenV::Identifier { id: callee },
            TokenV::Identifier { id: seq!['('] },
        ] + unparse_args(args, 0) + seq![TokenV::Identifier { id: seq![')'] }],
        _ => Seq::empty(),
    }
}

/// The serialization of the arguments from index `i` on, comma-separated.
pub open spec fn unparse_args(s: Seq<AstV>, i: int) -> Seq<TokenV>
    decreases s, s.len() - i,
{
    if i < 0 || i >= s.len() {
        Seq::empty()
    } else if i + 1 == s.len() {
        unparse(s[i])
    } else {
        unparse(s[i]) + seq![TokenV::Identifier { id: seq![','] }] + unparse_args(s, i + 1)
    }
}

proof fn lemma_single_char_seqs_distinct(c1: char, c2: char)
    requires
        c1 != c2,
    ensures
        seq![c1] != seq![c2],
{
    assert(seq![c1][0] == c1);
    assert(seq![c2][0] == c2);
}

/// A printable expression serializes to at least one token, and its first
/// token is no closing parenthesis.
proof fn lemma_unparse_first(a: AstV)
    requires
        printable(a),
    ensures
        unparse(a).len() >= 1,
        !is_id_char(unparse(a)[0], ')'),
{
    match a {
        AstV::Number { val } => {
        },
        AstV::Variable { name } => {
        },
        AstV::Binary { op, lhs, rhs } => {
            lemma_single_char_seqs_distinct('(', ')');
            assert(unparse(a)[0] == TokenV::Identifier { id: seq!['('] });
        },
        AstV::Call { callee, args } => {
            assert(unparse(a)[0] == TokenV::Identifier { id: callee });
        },
        _ => {
        },
    }
}

/// An operator of the table spells none of the grammar's punctuation marks.
proof fn lemma_op_not_punct(op: Seq<char>)
    requires
        op_prec(op) >= 0,
    ensures
        op != seq!['('],
        op != seq![')'],
        op != seq![','],
{
    lemma_single_char_seqs_distinct('<', '(');
    lemma_single_char_seqs_distinct('+', '(');
    lemma_single_char_seqs_distinct('-', '(');
    lemma_single_char_seqs_distinct('*', '(');
    lemma_single_char_seqs_distinct('<', ')');
    lemma_single_char_seqs_distinct('+', ')');
    lemma_single_char_seqs_distinct('-', ')');
    lemma_single_char_seqs_distinct('*', ')');
    lemma_single_char_seqs_distinct('<', ',');
    lemma_single_char_seqs_distinct('+', ',');
    lemma_single_char_seqs_distinct('-', ',');
    lemma_single_char_seqs_distinct('*', ',');
}

/// The grammar's punctuation marks are no operators.
proof fn lemma_punct_not_op()
    ensures
        op_prec(seq![')']) == -1,
        op_prec(seq![',']) == -1,
{
    lemma_single_char_seqs_distinct(')', '<');
    lemma_single_char_seqs_distinct(')', '+');
    lemma_single_char_seqs_distinct(')', '-');
    lemma_single_char_seqs_distinct(')', '*');
    lemma_single_char_seqs_distinct(',', '<');
    lemma_single_char_seqs_distinct(',', '+');
    lemma_single_char_seqs_distinct(',', '-');
    lemma_single_char_seqs_distinct(',', '*');
}

/// Parsing one primary out of a serialized expression followed by anything
/// that does not open a parenthesis recovers exactly the expression.
#[verifier::rlimit(100)]
proof fn lemma_roundtrip_primary(a: AstV, t: Seq<TokenV>)
    requires
        printable(a),
        t.len() == 0 || !is_id_char(t[0], '('),
    ensures
        spec_parse_primary(unparse(a) + t) == Some((a, t)),
    decreases a, 1int,
{
    let toks = unparse(a) + t;
    match a {
        AstV::Number { val } => {
            assert(toks[0] == TokenV::Number { text: val });
            assert(toks.skip(1) =~= t);
        },
        AstV::Variable { name } => {
            lemma_single_char_seqs_distinct(')', '(');
            lemma_single_char_seqs_distinct(',', '(');
            assert(toks[0] == TokenV::Identifier { id: name });
            assert(toks.skip(1) =~= t);
        },
        AstV::Binary { op, lhs, rhs } => {
            let l = *lhs;
            let r = *rhs;
            lemma_op_not_punct(op);
            lemma_punct_not_op();
            lemma_single_char_seqs_distinct(')', '(');
            let t_after_l = seq![TokenV::Identifier { id: op }] + unparse(r) + seq![
                TokenV::Identifier { id: seq![')'] },
            ] + t;
            let t_after_r = seq![TokenV::Identifier { id: seq![')'] }] + t;
            assert(toks[0] == TokenV::Identifier { id: seq!['('] });
            assert(toks.skip(1) =~= unparse(l) + t_after_l);
            lemma_roundtrip_primary(l, t_after_l);
            lemma_unparse_first(l);
            // the whole `lhs op rhs` is the parenthesized expression
            assert(t_after_l.len() < toks.skip(1).len());
            assert(t_after_l.skip(1) =~= unparse(r) + t_after_r);
            lemma_roundtrip_primary(r, t_after_r);
            lemma_unparse_first(r);
            assert(t_after_r.len() < t_after_l.skip(1).len());
            assert(stream_prec(t_after_r) == -1);
            let folded = AstV::Binary { op, lhs: Box::new(l), rhs: Box::new(r) };
            assert(folded =~= a);
            assert(spec_parse_binop_rhs(0, l, t_after_l) == Some((a, t_after_r)));
            assert(spec_parse_expression(toks.skip(1)) == Some((a, t_after_r)));
            assert(is_id_char(t_after_r[0], ')'));
            assert(t_after_r.skip(1) =~= t);
            assert(spec_parse_paren(toks) == Some((a, t)));
        },
        AstV::Call { callee, args } => {
            lemma_single_char_seqs_distinct(')', '(');
            assert(toks[0] == TokenV::Identifier { id: callee });
            let rest = toks.skip(1);
            assert(rest[0] == TokenV::Identifier { id: seq!['('] });
            assert(rest =~= seq![TokenV::Identifier { id: seq!['('] }] + unparse_args(args, 0)
                + seq![TokenV::Identifier { id: seq![')'] }] + t);
            let after = rest.skip(1);
            assert(after =~= unparse_args(args, 0) + seq![TokenV::Identifier { id: seq![')'] }]
                + t);
            let t_close = seq![TokenV::Identifier { id: seq![')'] }] + t;
            assert(printable_list(args, 0));
            if args.len() == 0 {
                assert(after =~= t_close);
                assert(is_id_char(after[0], ')'));
                assert(after.skip(1) =~= t);
                assert(args =~= Seq::<AstV>::empty());
                assert(AstV::Call { callee, args: Seq::empty() } == a);
            } else {
                assert(printable(args[0]));
                lemma_unparse_first(args[0]);
                assert(after =~= unparse_args(args, 0) + t_close);
                assert(unparse_args(args, 0).len() >= unparse(args[0]).len());
                assert(after[0] == unparse(args[0])[0]);
                assert(!is_id_char(after[0], ')'));
                lemma_roundtrip_args(args, 0, t);
                assert(args.skip(0) =~= args);
                assert(is_id_char(t_close[0], ')'));
                assert(t_close.skip(1) =~= t);
            }
        },
        _ => {
        },
    }
}

/// Parsing an expression out of a serialized expression followed by a
/// stopper (nothing, a closing parenthesis, a comma) recovers exactly the
/// expression.
proof fn lemma_roundtrip_expression(a: AstV, t: Seq<TokenV>)
    requires
        printable(a),
        t.len() == 0 || (!is_id_char(t[0], '(') && stream_prec(t) < 0),
    ensures
        spec_parse_expression(unparse(a) + t) == Some((a, t)),
    decreases a, 2int,
{
    lemma_roundtrip_primary(a, t);
    lemma_unparse_first(a);
    let toks = unparse(a) + t;
    assert(t.len() < toks.len());
    assert(stream_prec(t) < 0);
    assert(spec_parse_binop_rhs(0, a, t) == Some((a, t)));
}

/// Parsing an argument list out of serialized arguments followed by the
/// closing parenthesis recovers exactly the arguments, leaving the
/// parenthesis.
#[verifier::rlimit(100)]
proof fn lemma_roundtrip_args(args: Seq<AstV>, i: int, t: Seq<TokenV>)
    requires
        0 <= i < args.len(),
        printable_list(args, i),
        t.len() == 0 || !is_id_char(t[0], '('),
    ensures
        spec_parse_args(
            unparse_args(args, i) + seq![TokenV::Identifier { id: seq![')'] }] + t,
        ) == Some((args.skip(i), seq![TokenV::Identifier { id: seq![')'] }] + t)),
    decreases args, args.len() - i,
{
    lemma_punct_not_op();
    lemma_single_char_seqs_distinct(')', '(');
    lemma_single_char_seqs_distinct(',', '(');
    lemma_single_char_seqs_distinct(',', ')');
    let t_close = seq![TokenV::Identifier { id: seq![')'] }] + t;
    let toks = unparse_args(args, i) + seq![TokenV::Identifier { id: seq![')'] }] + t;
    assert(toks =~= unparse_args(args, i) + t_close);
    assert(printable(args[i]));
    if i + 1 == args.len() {
        assert(toks =~= unparse(args[i]) + t_close);
        lemma_roundtrip_expression(args[i], t_close);
        assert(spec_parse_expression(toks) == Some((args[i], t_close)));
        assert(is_id_char(t_close[0], ')'));
        assert(args.skip(i) =~= seq![args[i]]);
    } else {
        let t_comma = seq![TokenV::Identifier { id: seq![','] }] + unparse_args(args, i + 1)
            + t_close;
        assert(toks =~= unparse(args[i]) + t_comma);
        lemma_roundtrip_expression(args[i], t_comma);
        lemma_unparse_first(args[i]);
        assert(spec_parse_expression(toks) == Some((args[i], t_comma)));
        assert(!is_id_char(t_comma[0], ')'));
        assert(is_id_char(t_comma[0], ','));
        assert(t_comma.len() <= toks.len());
        assert(t_comma.skip(1) =~= unparse_args(args, i + 1) + t_close);
        assert(printable_list(args, i + 1));
        lemma_roundtrip_args(args, i + 1, t);
        assert(unparse_args(args, i + 1) + seq![TokenV::Identifier { id: seq![')'] }] + t
            =~= unparse_args(args, i + 1) + t_close);
        assert(spec_parse_args(t_comma.skip(1)) == Some((args.skip(i + 1), t_close)));
        assert(seq![args[i]] + args.skip(i + 1) =~= args.skip(i));
    }
}

/// The models of a token sequence.
pub open spec fn toks_view(s: Seq<Token>) -> Seq<TokenV> {
    Seq::new(s.len(), |i: int| s[i]@)
}

proof fn lemma_toks_view_concat(a: Seq<Token>, b: Seq<Token>)
    ensures
        toks_view(a + b) == toks_view(a) + toks_view(b),
{
    assert(toks_view(a + b) =~= toks_view(a) + toks_view(b));
}

proof fn lemma_ast_view_list_len(s: Seq<Box<ExprAST>>, i: int)
    requires
        0 <= i <= s.len(),
    ensures
        ast_view_list(s, i).len() == s.len() - i,
    decreases s.len() - i,
{
    if i < s.len() {
        lemma_ast_view_list_len(s, i + 1);
    }
}

proof fn lemma_ast_view_list_index(s: Seq<Box<ExprAST>>, i: int, j: int)
    requires
        0 <= i <= j < s.len(),
    ensures
        ast_view_list(s, i)[j - i] == ast_view(*s[j]),
    decreases j - i,
{
    lemma_ast_view_list_len(s, i + 1);
    if i < j {
        lemma_ast_view_list_index(s, i + 1, j);
    }
}

proof fn lemma_toks_view_push(s: Seq<Token>, t: Token)
    ensures
        toks_view(s.push(t)) == toks_view(s).push(t@),
{
    assert(toks_view(s.push(t)) =~= toks_view(s).push(t@));
}

/// Serializes an expression tree to its canonical token sequence: every
/// binary node fully parenthesized, call arguments separated by commas.
/// Nodes that are no expressions (prototypes, functions) serialize to
/// nothing.
pub fn unparse_tokens(e: &ExprAST) -> (r: Vec<Token>)
    ensures
        toks_view(r@) == unparse(ast_view(*e)),
    decreases *e, 0int,
{
    let mut out: Vec<Token> = Vec::new();
    proof {
        assert(toks_view(out@) =~= Seq::<TokenV>::empty());
    }
    match e {
        ExprAST::NumberExprAST { val } => {
            let tok = Token::Number { text: val.clone() };
            let ghost tokc = tok;
            let ghost o0 = out@;
            out.push(tok);
            proof {
                lemma_toks_view_push(o0, tokc);
                assert(toks_view(out@) =~= seq![TokenV::Number { text: val@ }]);
            }
        },
        ExprAST::VariableExprAST { name } => {
            let tok = Token::Identifier { id: name.clone() };
            let ghost tokc = tok;
            let ghost o0 = out@;
            out.push(tok);
            proof {
                lemma_toks_view_push(o0, tokc);
                assert(toks_view(out@) =~= seq![TokenV::Identifier { id: name@ }]);
            }
        },
        ExprAST::BinaryExprAST { op, lhs, rhs } => {
            let tok_open = Token::Identifier { id: String::from_str("(") };
            let ghost tokc_open = tok_open;
            let ghost o0 = out@;
            out.push(tok_open);
            proof {
                lemma_toks_view_push(o0, tokc_open);
            }
            let mut left = unparse_tokens(lhs);
            let ghost o1 = out@;
            let ghost leftv = left@;
            out.append(&mut left);
            proof {
                lemma_toks_view_concat(o1, leftv);
            }
            let tok_op = Token::Identifier { id: op.clone() };
            let ghost tokc_op = tok_op;
            let ghost o2 = out@;
            out.push(tok_op);
            proof {
                lemma_toks_view_push(o2, tokc_op);
            }
            let mut right = unparse_tokens(rhs);
            let ghost o3 = out@;
            let ghost rightv = right@;
            out.append(&mut right);
            proof {
                lemma_toks_view_concat(o3, rightv);
            }
            let tok_close = Token::Identifier { id: String::from_str(")") };
            let ghost tokc_close = tok_close;
            let ghost o4 = out@;
            out.push(tok_close);
            proof {
                lemma_toks_view_push(o4, tokc_close);
                reveal_strlit("(");
                reveal_strlit(")");
                assert("("@ =~= seq!['(']);
                assert(")"@ =~= seq![')']);
                assert(tokc_open@ == (TokenV::Identifier { id: seq!['('] }));
                assert(tokc_op@ == (TokenV::Identifier { id: op@ }));
                assert(tokc_close@ == (TokenV::Identifier { id: seq![')'] }));
                assert(toks_view(leftv) == unparse(ast_view(**lhs)));
                assert(toks_view(rightv) == unparse(ast_view(**rhs)));
                assert(toks_view(o1) =~= seq![tokc_open@]);
                assert(toks_view(o2) =~= seq![tokc_open@] + toks_view(leftv));
                assert(toks_view(o3) =~= seq![tokc_open@] + toks_view(leftv) + seq![tokc_op@]);
                assert(toks_view(o4) =~= seq![tokc_open@] + toks_view(leftv) + seq![tokc_op@]
                    + toks_view(rightv));
                assert(toks_view(out@) =~= seq![TokenV::Identifier { id: seq!['('] }] + unparse(
                    ast_view(**lhs),
                ) + seq![TokenV::Identifier { id: op@ }] + unparse(ast_view(**rhs)) + seq![
                    TokenV::Identifier { id: seq![')'] },
                ]);
            }
        },
        ExprAST::CallExprAST { callee, args } => {
            let tok_name = Token::Identifier { id: callee.clone() };
            let ghost tokc_name = tok_name;
            let ghost o0 = out@;
            out.push(tok_name);
            proof {
                lemma_toks_view_push(o0, tokc_name);
            }
            let tok_open = Token::Identifier { id: String::from_str("(") };
            let ghost tokc_open = tok_open;
            let ghost o1 = out@;
            out.push(tok_open);
            proof {
                lemma_toks_view_push(o1, tokc_open);
            }
            unparse_args_tokens(args, 0, &mut out);
            let tok_close = Token::Identifier { id: String::from_str(")") };
            let ghost tokc_close = tok_close;
            let ghost o2 = out@;
            out.push(tok_close);
            proof {
                lemma_toks_view_push(o2, tokc_close);
                reveal_strlit("(");
                reveal_strlit(")");
                assert("("@ =~= seq!['(']);
                assert(")"@ =~= seq![')']);
                assert(toks_view(out@) =~= seq![
                    TokenV::Identifier { id: callee@ },
                    TokenV::Identifier { id: seq!['('] },
                ] + unparse_args(ast_view_list(args@, 0), 0) + seq![
                    TokenV::Identifier { id: seq![')'] },
                ]);
            }
        },
        _ => {
            proof {
                assert(toks_view(out@) =~= Seq::<TokenV>::empty());
            }
        },
    }
    out
}

/// Appends the serialization of the arguments from index `j` on,
/// comma-separated, to `out`.
fn unparse_args_tokens(args: &Vec<Box<ExprAST>>, j: usize, out: &mut Vec<Token>)
    requires
        j <= args@.len(),
    ensures
        toks_view(final(out)@) == toks_view(old(out)@) + unparse_args(
            ast_view_list(args@, 0),
            j as int,
        ),
    decreases args, args@.len() - j,
{
    let ghost arg_views = ast_view_list(args@, 0);
    proof {
        lemma_ast_view_list_len(args@, 0);
    }
    if j == args.len() {
        proof {
            assert(unparse_args(arg_views, j as int) =~= Seq::<TokenV>::empty());
            assert(toks_view(out@) + Seq::<TokenV>::empty() =~= toks_view(out@));
        }
        return ;
    }
    proof {
        lemma_ast_view_list_index(args@, 0, j as int);
    }
    let mut piece = unparse_tokens(&args[j]);
    let ghost o0 = out@;
    let ghost piecev = piece@;
    out.append(&mut piece);
    proof {
        lemma_toks_view_concat(o0, piecev);
    }
    if j + 1 < args.len() {
        let tok_comma = Token::Identifier { id: String::from_str(",") };
        let ghost tokc_comma = tok_comma;
        let ghost o1 = out@;
        out.push(tok_comma);
        proof {
            lemma_toks_view_push(o1, tokc_comma);
        }
        let ghost o2 = out@;
        unparse_args_tokens(args, j + 1, out);
        proof {
            reveal_strlit(",");
            assert(","@ =~= seq![',']);
            assert(toks_view(out@) =~= toks_view(o0) + (unparse(arg_views[j as int]) + seq![
                TokenV::Identifier { id: seq![','] },
            ] + unparse_args(arg_views, j + 1)));
        }
    } else {
        proof {
            assert(unparse_args(arg_views, j as int) =~= unparse(arg_views[j as int]));
            assert(toks_view(out@) =~= toks_view(o0) + unparse_args(arg_views, j as int));
        }
    }
}

/// Round-trip law: re-parsing the canonical token serialization of a
/// printable expression tree yields a structurally identical tree, with no
/// tokens left over.  (The serialization is to tokens, which comments never
/// reach: the law covers every expression free of comments.)
pub proof fn lemma_unparse_parse_roundtrip(a: AstV)
    requires
        printable(a),
    ensures
        spec_parse_expression(unparse(a)) == Some((a, Seq::<TokenV>::empty())),
{
    lemma_roundtrip_expression(a, Seq::empty());
    assert(unparse(a) + Seq::<TokenV>::empty() =~= unparse(a));
}

// ---------------------------------------------------------------------------
// The parser
// ---------------------------------------------------------------------------

/// Whether a string spells exactly the one character `c`.
fn is_char_string(s: &String, c: char) -> (r: bool)
    ensures
        r == (s@ == seq![c]),
{
    let st = s.as_str();
    if st.unicode_len() == 1 {
        let c0 = st.get_char(0);
        proof {
            if s@[0] == c {
                assert(s@ =~= seq![c]);
            }
        }
        c0 == c
    } else {
        false
    }
}

/// The parser owns the tokenizer, already positioned at its first token,
/// and drives it one token at a time; it never looks further ahead than the
/// current token.  The precedence table is fixed at construction.
pub struct Parser {
    lexer: Tokenizer,
}

impl Parser {
    /// The parser's token stream is in a good state.
    pub closed spec fn wf(self) -> bool {
        self.lexer.wf()
    }

    /// The tokens not yet consumed, current token first.
    pub closed spec fn toks(self) -> Seq<TokenV> {
        self.lexer.remaining()
    }

    /// Takes a tokenizer positioned at its first token.
    pub fn new(lexer: Tokenizer) -> (p: Parser)
        ensures
            p.wf() == lexer.wf(),
            p.toks() == lexer.remaining(),
    {
        Parser { lexer }
    }

    /// The binding strength of a token, `-1` for non-operators.
    fn get_precedence(&self, tok: &Token) -> (p: i32)
        ensures
            p as int == tok_prec_of(tok@),
    {
        match tok {
            Token::Identifier { id } => {
                if is_char_string(id, '<') {
                    10
                } else if is_char_string(id, '+') {
                    20
                } else if is_char_string(id, '-') {
                    20
                } else if is_char_string(id, '*') {
                    30
                } else {
                    -1
                }
            },
            _ => -1,
        }
    }

    /// Parses every top-level construct of the input in turn: function
    /// definitions, `extern` declarations, and bare expressions.  Even a
    /// failed construct consumes at least one token, so the loop always
    /// reaches the end of the stream.
    #[verifier::loop_isolation(false)]
    pub fn parse(&mut self)
        requires
            old(self).wf(),
        ensures
            final(self).wf(),
            final(self).toks().len() == 0,
    {
        loop
            invariant
                self.wf(),
            decreases self.toks().len(),
        {
            let t = self.lexer.last_token();
            match t {
                Token::Eof => {
                    return ;
                },
                Token::Def => self.handle_definition(),
                Token::Extern => self.handle_extern(),
                _ => self.handle_top_level_expression(),
            }
        }
    }

    fn handle_top_level_expression(&mut self)
        requires
            old(self).wf(),
            old(self).toks().len() > 0,
            old(self).toks()[0] is Identifier || old(self).toks()[0] is Number,
        ensures
            final(self).wf(),
            final(self).toks().len() < old(self).toks().len(),
    {
        let _ = self.parse_top_level_expr();
    }

    fn handle_extern(&mut self)
        requires
            old(self).wf(),
            old(self).toks().len() > 0,
        ensures
            final(self).wf(),
            final(self).toks().len() < old(self).toks().len(),
    {
        let _ = self.parse_extern();
    }

    fn handle_definition(&mut self)
        requires
            old(self).wf(),
            old(self).toks().len() > 0,
        ensures
            final(self).wf(),
            final(self).toks().len() < old(self).toks().len(),
    {
        let _ = self.parse_definition();
    }

    /// Parses `extern` followed by a prototype.
    fn parse_extern(&mut self) -> (r: Option<Box<ExprAST>>)
        requires
            old(self).wf(),
        ensures
            final(self).wf(),
            final(self).toks().len() <= old(self).toks().len(),
            old(self).toks().len() > 0 ==> final(self).toks().len() < old(self).toks().len(),
            match spec_parse_extern(old(self).toks()) {
                Some((a, rest)) => r matches Some(e) && ast_view(*e) == a && final(self).toks()
                    == rest,
                None => r is None,
            },
    {
        self.lexer.next();  // eat `extern`
        self.parse_prototype()
    }

    /// Parses `def`, a prototype, and a body expression.
    fn parse_definition(&mut self) -> (r: Option<Box<ExprAST>>)
        requires
            old(self).wf(),
        ensures
            final(self).wf(),
            final(self).toks().len() <= old(self).toks().len(),
            old(self).toks().len() > 0 ==> final(self).toks().len() < old(self).toks().len(),
            match spec_parse_definition(old(self).toks()) {
                Some((a, rest)) => r matches Some(e) && ast_view(*e) == a && final(self).toks()
                    == rest,
                None => r is None,
            },
    {
        self.lexer.next();  // eat `def`
        let proto = match self.parse_prototype() {
            Some(p) => p,
            None => {
                return None;
            },
        };
        let body = match self.parse_expression() {
            Some(b) => b,
            None => {
                return None;
            },
        };
        Some(Box::new(ExprAST::FunctionAST { proto, body }))
    }

    /// Parses a bare expression at the top level, wrapped as an anonymous
    /// zero-argument function.
    pub fn parse_top_level_expr(&mut self) -> (r: Option<Box<ExprAST>>)
        requires
            old(self).wf(),
        ensures
            final(self).wf(),
            final(self).toks().len() <= old(self).toks().len(),
            (r is None && old(self).toks().len() > 0 && (old(self).toks()[0] is Identifier || old(self).toks()[0] is Number)) ==> final(self).toks().len() < old(self).toks().len(),
            match spec_parse_top_level(old(self).toks()) {
                Some((a, rest)) => r matches Some(e) && ast_view(*e) == a && final(self).toks()
                    == rest && final(self).toks().len() < old(self).toks().len(),
                None => r is None,
            },
    {
        let body = match self.parse_expression() {
            Some(b) => b,
            None => {
                return None;
            },
        };
        let proto = Box::new(
            ExprAST::PrototypeAST { name: String::from_str("__anon_expr"), args: Vec::new() },
        );
        proof {
            assert(strs_view(Seq::<String>::empty()) =~= Seq::<Seq<char>>::empty());
            assert(ast_view(*proto) == (AstV::Prototype {
                name: anon_name(),
                args: Seq::<Seq<char>>::empty(),
            }));
        }
        let result = Box::new(ExprAST::FunctionAST { proto, body });
        proof {
            assert(ast_view(*result) matches AstV::Function { proto: p2, body: b2 }
                && *p2 == (AstV::Prototype { name: anon_name(), args: Seq::<Seq<char>>::empty() })
                && *b2 == ast_view(*body));
        }
        Some(result)
    }

    /// Dispatches on the current token to one of the primary forms.
    fn parse_primary(&mut self) -> (r: Option<Box<ExprAST>>)
        requires
            old(self).wf(),
        ensures
            final(self).wf(),
            final(self).toks().len() <= old(self).toks().len(),
            (r is None && old(self).toks().len() > 0 && (old(self).toks()[0] is Identifier || old(self).toks()[0] is Number)) ==> final(self).toks().len() < old(self).toks().len(),
            match spec_parse_primary(old(self).toks()) {
                Some((a, rest)) => r matches Some(e) && ast_view(*e) == a && final(self).toks()
                    == rest && final(self).toks().len() < old(self).toks().len(),
                None => r is None,
            },
        decreases old(self).toks().len(), 1int,
    {
        let t = self.lexer.last_token();
        match t {
            Token::Identifier { id } => {
                if is_char_string(&id, '(') {
                    self.parse_paren_expr()
                } else {
                    self.parse_identifier_expr()
                }
            },
            Token::Number { .. } => self.parse_number_expr(),
            _ => None,
        }
    }

    /// Wraps the current number token as a literal node and consumes it.
    fn parse_number_expr(&mut self) -> (r: Option<Box<ExprAST>>)
        requires
            old(self).wf(),
        ensures
            final(self).wf(),
            final(self).toks().len() <= old(self).toks().len(),
            (old(self).toks().len() > 0 && old(self).toks()[0] is Number) ==> (r matches Some(e)
                && ast_view(*e) == (AstV::Number { val: old(self).toks()[0]->Number_text })
                && final(self).toks() == old(self).toks().skip(1) && final(self).toks().len() < old(self).toks().len()),
            !(old(self).toks().len() > 0 && old(self).toks()[0] is Number) ==> (r is None && final(self).toks() == old(self).toks()),
    {
        let t = self.lexer.last_token();
        match t {
            Token::Number { text } => {
                self.lexer.next();  // eat the number
                Some(Box::new(ExprAST::NumberExprAST { val: text }))
            },
            _ => None,
        }
    }

    /// Parses `(` expression `)`; the parentheses leave no node behind.
    fn parse_paren_expr(&mut self) -> (r: Option<Box<ExprAST>>)
        requires
            old(self).wf(),
            old(self).toks().len() > 0,
        ensures
            final(self).wf(),
            final(self).toks().len() <= old(self).toks().len(),
            (r is None && old(self).toks().len() > 0) ==> final(self).toks().len() < old(self).toks().len(),
            match spec_parse_paren(old(self).toks()) {
                Some((a, rest)) => r matches Some(e) && ast_view(*e) == a && final(self).toks()
                    == rest && final(self).toks().len() < old(self).toks().len(),
                None => r is None,
            },
        decreases old(self).toks().len(), 0int,
    {
        self.lexer.next();  // eat '('
        let inner = match self.parse_expression() {
            Some(e) => e,
            None => {
                return None;
            },
        };
        let t = self.lexer.last_token();
        let closes = match &t {
            Token::Identifier { id } => is_char_string(id, ')'),
            _ => false,
        };
        if !closes {
            return None;
        }
        self.lexer.next();  // eat ')'
        Some(inner)
    }

    /// Parses one primary, then folds the operators that follow it.
    pub fn parse_expression(&mut self) -> (r: Option<Box<ExprAST>>)
        requires
            old(self).wf(),
        ensures
            final(self).wf(),
            final(self).toks().len() <= old(self).toks().len(),
            (r is None && old(self).toks().len() > 0 && (old(self).toks()[0] is Identifier || old(self).toks()[0] is Number)) ==> final(self).toks().len() < old(self).toks().len(),
            match spec_parse_expression(old(self).toks()) {
                Some((a, rest)) => r matches Some(e) && ast_view(*e) == a && final(self).toks()
                    == rest && final(self).toks().len() < old(self).toks().len(),
                None => r is None,
            },
        decreases old(self).toks().len(), 2int,
    {
        let lhs = self.parse_primary();
        match lhs {
            None => None,
            Some(_) => self.parse_binop_rhs(0, lhs),
        }
    }

    /// Parses an identifier: either a bare variable reference, or a call
    /// `callee(arg, ...)` when a `(` follows it directly.
    #[verifier::loop_isolation(false)]
    pub fn parse_identifier_expr(&mut self) -> (r: Option<Box<ExprAST>>)
        requires
            old(self).wf(),
        ensures
            final(self).wf(),
            final(self).toks().len() <= old(self).toks().len(),
            (r is None && old(self).toks().len() > 0 && old(self).toks()[0] is Identifier)
                ==> final(self).toks().len() < old(self).toks().len(),
            match spec_parse_identifier(old(self).toks()) {
                Some((a, rest)) => r matches Some(e) && ast_view(*e) == a && final(self).toks()
                    == rest && final(self).toks().len() < old(self).toks().len(),
                None => r is None,
            },
        decreases old(self).toks().len(), 0int,
    {
        let t = self.lexer.last_token();
        let id = match t {
            Token::Identifier { id } => id,
            _ => {
                return None;
            },
        };
        self.lexer.next();  // eat the identifier
        let t2 = self.lexer.last_token();
        let opens = match &t2 {
            Token::Identifier { id: id2 } => is_char_string(id2, '('),
            _ => false,
        };
        if !opens {
            // a bare variable reference
            return Some(Box::new(ExprAST::VariableExprAST { name: id }));
        }
        self.lexer.next();  // eat '('
        let t3 = self.lexer.last_token();
        let closes_now = match &t3 {
            Token::Identifier { id: id3 } => is_char_string(id3, ')'),
            _ => false,
        };
        if closes_now {
            self.lexer.next();  // eat ')'
            proof {
                assert(ast_view_list(Seq::<Box<ExprAST>>::empty(), 0) =~= Seq::<AstV>::empty());
            }
            return Some(Box::new(ExprAST::CallExprAST { callee: id, args: Vec::new() }));
        }
        let ghost t_args = self.toks();
        let mut args: Vec<Box<ExprAST>> = Vec::new();
        proof {
            assert(ast_view_list(args@, 0) =~= Seq::<AstV>::empty());
        }
        loop
            invariant
                self.wf(),
                self.toks().len() <= t_args.len(),
                match spec_parse_args(self.toks()) {
                    Some(res) => spec_parse_args(t_args) == Some(
                        (ast_view_list(args@, 0) + res.0, res.1),
                    ),
                    None => spec_parse_args(t_args) is None,
                },
            decreases self.toks().len(),
        {
            let ghost t_head = self.toks();
            let ghost args_head = args@;
            let arg = match self.parse_expression() {
                Some(a) => a,
                None => {
                    return None;
                },
            };
            let ghost argb: Box<ExprAST> = arg;
            let ghost argv = ast_view(*arg);
            args.push(arg);
            proof {
                lemma_ast_view_list_push(args_head, argb, 0);
                assert(ast_view_list(args@, 0) == ast_view_list(args_head, 0) + seq![argv]);
            }
            let tcur = self.lexer.last_token();
            let sep = match tcur {
                Token::Identifier { id: sep_id } => sep_id,
                _ => {
                    return None;
                },
            };
            if is_char_string(&sep, ')') {
                // the argument list is done; eat ')' and build the call
                let ghost fin = self.toks();
                proof {
                    assert(is_id_char(fin[0], ')'));
                    assert(spec_parse_args(t_head) == Some((seq![argv], fin)));
                    assert(spec_parse_args(t_args) == Some(
                        (ast_view_list(args_head, 0) + seq![argv], fin),
                    ));
                    assert(spec_parse_args(t_args) == Some((ast_view_list(args@, 0), fin)));
                }
                self.lexer.next();
                proof {
                    assert(self.toks() =~= fin.skip(1));
                }
                let result = Box::new(ExprAST::CallExprAST { callee: id, args });
                proof {
                    assert(ast_view(*result) == (AstV::Call {
                        callee: id@,
                        args: ast_view_list(result->CallExprAST_args@, 0),
                    }));
                }
                return Some(result);
            } else if is_char_string(&sep, ',') {
                let ghost rest = self.toks();
                proof {
                    assert(rest[0] is Identifier);
                    assert(!is_id_char(rest[0], ')')) by {
                        assert(sep@[0] == ',');
                        assert(seq![')'][0] == ')');
                    }
                    assert(is_id_char(rest[0], ','));
                }
                self.lexer.next();  // eat ',' and go round for the next argument
                proof {
                    assert(self.toks() =~= rest.skip(1));
                    let ghost sub = spec_parse_args(self.toks());
                    match sub {
                        Some(res) => {
                            assert(spec_parse_args(t_head) == Some(
                                (seq![argv] + res.0, res.1),
                            ));
                            assert(spec_parse_args(t_args) == Some(
                                (ast_view_list(args_head, 0) + (seq![argv] + res.0), res.1),
                            ));
                            assert(ast_view_list(args_head, 0) + (seq![argv] + res.0)
                                =~= ast_view_list(args@, 0) + res.0);
                        },
                        None => {
                            assert(spec_parse_args(t_head) is None);
                        },
                    }
                }
            } else {
                return None;
            }
        }
    }

    /// Precedence climbing: folds into `lhs` every following operator of
    /// strength at least `prec`, grouping operands under the tighter of two
    /// neighbouring operators, left first among equals.
    #[verifier::loop_isolation(false)]
    pub fn parse_binop_rhs(&mut self, prec: i32, option_lhs: Option<Box<ExprAST>>) -> (r: Option<
        Box<ExprAST>,
    >)
        requires
            old(self).wf(),
        ensures
            final(self).wf(),
            final(self).toks().len() <= old(self).toks().len(),
            match option_lhs {
                None => r is None && final(self).toks() == old(self).toks(),
                Some(lhs0) => match spec_parse_binop_rhs(
                    prec as int,
                    ast_view(*lhs0),
                    old(self).toks(),
                ) {
                    Some((a, rest)) => r matches Some(e) && ast_view(*e) == a && final(self).toks() == rest,
                    None => r is None,
                },
            },
        decreases old(self).toks().len(), 0int,
    {
        let mut lhs = match option_lhs {
            Some(l) => l,
            None => {
                return None;
            },
        };
        loop
            invariant
                self.wf(),
                self.toks().len() <= old(self).toks().len(),
                spec_parse_binop_rhs(prec as int, ast_view(*option_lhs->0), old(self).toks())
                    == spec_parse_binop_rhs(prec as int, ast_view(*lhs), self.toks()),
            decreases self.toks().len(),
        {
            let ghost t_head = self.toks();
            let t = self.lexer.last_token();
            let tok_prec = self.get_precedence(&t);
            if tok_prec < prec {
                // not an operator that binds here: the left side is done
                return Some(lhs);
            }
            let binop_id = match t {
                Token::Identifier { id } => id,
                _ => {
                    return None;
                },
            };
            if tok_prec < 0 {
                return None;
            }
            self.lexer.next();  // eat the operator
            let rhs = match self.parse_primary() {
                Some(x) => x,
                None => {
                    return None;
                },
            };
            let t2 = self.lexer.last_token();
            let next_prec = self.get_precedence(&t2);
            let rhs = if tok_prec < next_prec {
                // the next operator binds tighter: fold it into the right side
                match self.parse_binop_rhs(tok_prec + 1, Some(rhs)) {
                    Some(x) => x,
                    None => {
                        return None;
                    },
                }
            } else {
                rhs
            };
            lhs = Box::new(ExprAST::BinaryExprAST { op: binop_id, lhs, rhs });
        }
    }

    /// Parses a prototype: a name, `(`, parameter names, `)`.
    #[verifier::loop_isolation(false)]
    fn parse_prototype(&mut self) -> (r: Option<Box<ExprAST>>)
        requires
            old(self).wf(),
        ensures
            final(self).wf(),
            final(self).toks().len() <= old(self).toks().len(),
            match spec_parse_prototype(old(self).toks()) {
                Some((a, rest)) => r matches Some(e) && ast_view(*e) == a && final(self).toks()
                    == rest,
                None => r is None,
            },
    {
        let t = self.lexer.last_token();
        let func_name = match t {
            Token::Identifier { id } => id,
            _ => {
                return None;
            },
        };
        self.lexer.next();  // eat the name
        let t2 = self.lexer.last_token();
        let opens = match &t2 {
            Token::Identifier { id: id2 } => is_char_string(id2, '('),
            _ => false,
        };
        if !opens {
            return None;
        }
        self.lexer.next();  // eat '('
        let ghost t_params = self.toks();
        let mut func_args: Vec<String> = Vec::new();
        proof {
            assert(strs_view(func_args@) =~= Seq::<Seq<char>>::empty());
        }
        loop
            invariant
                self.wf(),
                self.toks().len() <= t_params.len(),
                match spec_parse_params(self.toks()) {
                    Some(res) => spec_parse_params(t_params) == Some(
                        (strs_view(func_args@) + res.0, res.1),
                    ),
                    None => spec_parse_params(t_params) is None,
                },
            decreases self.toks().len(),
        {
            let tc = self.lexer.last_token();
            let arg = match tc {
                Token::Identifier { id } => id,
                _ => {
                    return None;
                },
            };
            if is_char_string(&arg, ')') {
                // the parameter list is done; eat ')' and build the prototype
                let ghost fin = self.toks();
                self.lexer.next();
                proof {
                    assert(self.toks() =~= fin.skip(1));
                    assert(strs_view(func_args@) + Seq::<Seq<char>>::empty() =~= strs_view(
                        func_args@,
                    ));
                }
                return Some(Box::new(ExprAST::PrototypeAST { name: func_name, args: func_args }));
            }
            func_args.push(arg);
            self.lexer.next();  // eat the parameter name
            proof {
                assert(strs_view(func_args@) =~= strs_view(func_args@.drop_last()).push(
                    func_args@.last()@,
                ));
            }
        }
    }
}

} // verus!
