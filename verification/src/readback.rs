//! Reading formatted operator expressions back: the tokens that the layout writes for a tree of
//! names, integers, operators, `not`, ranges, members, calls, `?` and `!!` parse to that tree, and
//! so do whole programs of simple lines over such trees.
use vstd::prelude::*;
use crate::ast::{BinaryOp, SExpr, SKind, SLit, SPattern, SStmt, SType, pattern_text};
use crate::formatter::{
    fexpr, fexprs, fstmt, fstmts, law_format_ignores_spans, op_text, prec, type_suffix, unspanned, unspanned_all, wrapped,
};
use crate::lexer::{
    LexState, Raw, STok, dec_value, digits_end, ident_end, indent_end, initial, is_blank_follow, keyword, lemma_step,
    progressed, run, scan, skip_trivia, spec_tokenize, step,
};
use crate::parser::{
    PR, binop_of, end_before, is_tok, spec_assign, spec_binary, spec_binary_rest, spec_binding, spec_operand,
    spec_expr_list, spec_items, spec_not, spec_opt_annotation, spec_paren, spec_parse_program, spec_range, spec_pattern, spec_postfix, spec_primary,
    spec_program_from, spec_statement, spec_statement_kind, start_of, tk,
};
use crate::text::{digit_char, digits, int_text, is_digit, is_ident_char, is_ident_start, join};

verus! {

/// A tree of names, integer literals (from 0 to `i64::MAX`), binary
/// operators, `not`, ranges, and names followed by `.member`, `(arguments)`,
/// `?` and `!!` suffixes.
pub open spec fn operator_tree(e: SExpr) -> bool
    decreases e,
{
    match e {
        SExpr::Ident(_) => true,
        SExpr::Lit(SLit::Int(i)) => 0 <= i <= i64::MAX,
        SExpr::Question(b) => chain(*b),
        SExpr::Unwrap(b) => chain(*b),
        SExpr::Member(b, _) => chain(*b),
        SExpr::Call(b, args) => chain(*b) && trees(args),
        SExpr::Not(b) => operator_tree(*b),
        SExpr::Range(a, b) => operator_tree(*a) && operator_tree(*b),
        SExpr::RangeInclusive(a, b) => operator_tree(*a) && operator_tree(*b),
        SExpr::Bin(l, op, r) => operator_tree(*l) && operator_tree(*r),
        _ => false,
    }
}

/// Every item is an operator tree.
pub open spec fn trees(s: Seq<SExpr>) -> bool
    decreases s,
{
    s.len() == 0 || (operator_tree(s[0]) && trees(s.subrange(1, s.len() as int)))
}

/// Every name in every item is plain.
pub open spec fn all_plain_names(s: Seq<SExpr>) -> bool
    decreases s,
{
    s.len() == 0 || (plain_names(s[0]) && all_plain_names(s.subrange(1, s.len() as int)))
}

/// The tokens of call arguments: each argument's tokens, separated by commas.
pub open spec fn args_tokens(s: Seq<SExpr>) -> Seq<STok>
    decreases s,
{
    if s.len() == 0 {
        seq![]
    } else if s.len() == 1 {
        tree_tokens(s[0], 0)
    } else {
        tree_tokens(s[0], 0) + seq![STok::Comma] + args_tokens(s.subrange(1, s.len() as int))
    }
}

/// A name followed by `.member`, `(arguments)`, `?` and `!!` suffixes, in any
/// order and number.
pub open spec fn chain(e: SExpr) -> bool
    decreases e,
{
    match e {
        SExpr::Ident(_) => true,
        SExpr::Question(b) => chain(*b),
        SExpr::Unwrap(b) => chain(*b),
        SExpr::Member(b, _) => chain(*b),
        SExpr::Call(b, args) => chain(*b) && trees(args),
        _ => false,
    }
}

/// The name a chain starts with.
pub open spec fn chain_base(e: SExpr) -> Seq<char>
    decreases e,
{
    match e {
        SExpr::Question(b) => chain_base(*b),
        SExpr::Unwrap(b) => chain_base(*b),
        SExpr::Member(b, _) => chain_base(*b),
        SExpr::Call(b, _) => chain_base(*b),
        SExpr::Ident(n) => n,
        _ => seq![],
    }
}

proof fn lemma_chain_tree(e: SExpr)
    requires
        chain(e),
    ensures
        operator_tree(e),
{
}

/// The token that spells an operator.
pub open spec fn op_token(op: BinaryOp) -> STok {
    match op {
        BinaryOp::Add => STok::Plus,
        BinaryOp::Sub => STok::Minus,
        BinaryOp::Mul => STok::Star,
        BinaryOp::Div => STok::Slash,
        BinaryOp::Mod => STok::Percent,
        BinaryOp::MatMul => STok::At,
        BinaryOp::And => STok::And,
        BinaryOp::Or => STok::Or,
        BinaryOp::Assign => STok::Assign,
        BinaryOp::Eq => STok::Eq,
        BinaryOp::Ne => STok::Ne,
        BinaryOp::Gt => STok::Gt,
        BinaryOp::Lt => STok::Lt,
        BinaryOp::Ge => STok::Ge,
        BinaryOp::Le => STok::Le,
    }
}

/// The operator a token spells, if any.
pub open spec fn token_op(t: STok) -> Option<BinaryOp> {
    match t {
        STok::Plus => Some(BinaryOp::Add),
        STok::Minus => Some(BinaryOp::Sub),
        STok::Star => Some(BinaryOp::Mul),
        STok::Slash => Some(BinaryOp::Div),
        STok::Percent => Some(BinaryOp::Mod),
        STok::At => Some(BinaryOp::MatMul),
        STok::And => Some(BinaryOp::And),
        STok::Or => Some(BinaryOp::Or),
        STok::Assign => Some(BinaryOp::Assign),
        STok::Eq => Some(BinaryOp::Eq),
        STok::Ne => Some(BinaryOp::Ne),
        STok::Gt => Some(BinaryOp::Gt),
        STok::Lt => Some(BinaryOp::Lt),
        STok::Ge => Some(BinaryOp::Ge),
        STok::Le => Some(BinaryOp::Le),
        _ => None,
    }
}

/// The binary level of an operator token (5 `or`, 4 `and`, 3 comparisons,
/// 2 `+ -`, 1 `* / % @`); 0 for any other token.
pub open spec fn op_level(t: STok) -> int {
    match t {
        STok::Or => 5,
        STok::And => 4,
        STok::Eq | STok::Ne | STok::Gt | STok::Lt | STok::Ge | STok::Le => 3,
        STok::Plus | STok::Minus => 2,
        STok::Star | STok::Slash | STok::Percent | STok::At => 1,
        _ => 0,
    }
}

/// The binding strength of the operators of binary level `lvl`.
pub open spec fn level_prec(lvl: int) -> int {
    if lvl == 5 { 2 } else if lvl == 4 { 3 } else if lvl == 3 { 5 } else if lvl == 2 { 7 } else { 8 }
}

/// The tokens of an operator tree as the layout writes it in a context of
/// strength `parent`: parenthesized where it binds more loosely.
pub open spec fn tree_tokens(e: SExpr, parent: int) -> Seq<STok>
    decreases e,
{
    let body = match e {
        SExpr::Ident(n) => seq![STok::Ident(n)],
        SExpr::Lit(SLit::Int(i)) => seq![STok::Int(i)],
        SExpr::Question(b) => tree_tokens(*b, prec(e)) + seq![STok::Question],
        SExpr::Unwrap(b) => tree_tokens(*b, prec(e)) + seq![STok::BangBang],
        SExpr::Member(b, m) => tree_tokens(*b, prec(e)) + seq![STok::Dot, STok::Ident(m)],
        SExpr::Call(b, args) => tree_tokens(*b, prec(e)) + seq![STok::LParen] + args_tokens(args) + seq![STok::RParen],
        SExpr::Not(b) => seq![STok::Not] + tree_tokens(*b, prec(e)),
        SExpr::Range(a, b) => tree_tokens(*a, prec(e) + 1) + seq![STok::DotDot] + tree_tokens(*b, prec(e) + 1),
        SExpr::RangeInclusive(a, b) => tree_tokens(*a, prec(e) + 1) + seq![STok::DotDotEq] + tree_tokens(*b, prec(e) + 1),
        SExpr::Bin(l, op, r) => if op == BinaryOp::Assign {
            tree_tokens(*l, prec(e) + 1) + seq![op_token(op)] + tree_tokens(*r, prec(e))
        } else {
            tree_tokens(*l, prec(e)) + seq![op_token(op)] + tree_tokens(*r, prec(e) + 1)
        },
        _ => seq![],
    };
    if prec(e) < parent { seq![STok::LParen] + body + seq![STok::RParen] } else { body }
}

/// How the layout writes a token: a name as it is, an operator with a space
/// on each side, `let` with a space after it.
pub open spec fn token_text(t: STok) -> Seq<char> {
    match token_op(t) {
        Some(op) => " "@ + op_text(op) + " "@,
        None => match t {
            STok::Ident(n) => n,
            STok::LParen => "("@,
            STok::RParen => ")"@,
            STok::Let => "let "@,
            STok::Mut => "mut "@,
            STok::Int(i) => int_text(i),
            STok::Question => "?"@,
            STok::Not => "not "@,
            STok::DotDot => ".."@,
            STok::Dot => "."@,
            STok::Comma => ", "@,
            STok::DotDotEq => "..="@,
            STok::BangBang => "!!"@,
            _ => seq![],
        },
    }
}

pub open spec fn tokens_text(s: Seq<STok>) -> Seq<char>
    decreases s.len(),
{
    if s.len() == 0 { seq![] } else { tokens_text(s.drop_last()) + token_text(s.last()) }
}

/// The tokens `toks` stand in `ts` from position `i` on.
pub open spec fn tokens_at(ts: Seq<(STok, int, int)>, i: int, toks: Seq<STok>) -> bool {
    &&& 0 <= i
    &&& i + toks.len() <= ts.len()
    &&& forall|k: int| 0 <= k < toks.len() ==> #[trigger] ts[i + k].0 == toks[k]
}

/// No operator of binary level `lvl`.
pub open spec fn stops_level(lvl: int, x: Option<STok>) -> bool {
    match x {
        None => true,
        Some(t) => op_level(t) != lvl,
    }
}

/// Tokens that go on an expression before them: postfix forms, ranges and
/// assignment.
pub open spec fn continues(t: STok) -> bool {
    t == STok::Dot || t == STok::LBracket || t == STok::LParen || t == STok::Question || t == STok::BangBang
        || t == STok::DotDot || t == STok::DotDotEq
}

/// What may follow an expression parsed at binary level `lvl` (7 for a
/// whole expression) without being read into it: nothing, or a token that
/// goes on no expression and is no operator of a level tighter than `lvl`
/// (`=` counting as level 7).
pub open spec fn ends_at(lvl: int, x: Option<STok>) -> bool {
    match x {
        None => true,
        Some(t) => (!continues(t) || (lvl <= 2 && (t == STok::DotDot || t == STok::DotDotEq)))
            && (op_level(t) == 0 || op_level(t) >= lvl) && (lvl >= 7 ==> t != STok::Assign),
    }
}

proof fn lemma_tokens_at_split(ts: Seq<(STok, int, int)>, i: int, a: Seq<STok>, b: Seq<STok>)
    requires
        tokens_at(ts, i, a + b),
    ensures
        tokens_at(ts, i, a),
        tokens_at(ts, i + a.len(), b),
{
    assert forall|k: int| 0 <= k < a.len() implies #[trigger] ts[i + k].0 == a[k] by {
        assert((a + b)[k] == a[k]);
    }
    assert forall|k: int| 0 <= k < b.len() implies #[trigger] ts[i + a.len() + k].0 == b[k] by {
        assert((a + b)[a.len() + k] == b[k]);
        assert(i + (a.len() + k) == i + a.len() + k);
    }
}

proof fn lemma_binop_of(lvl: int, t: STok)
    requires
        1 <= lvl <= 5,
    ensures
        binop_of(lvl, t) is Some <==> op_level(t) == lvl,
        op_level(t) == lvl ==> binop_of(lvl, t) == token_op(t),
{
}

proof fn lemma_tree_facts(e: SExpr, parent: int)
    requires
        operator_tree(e),
    ensures
        tree_tokens(e, parent).len() >= 1,
        tree_tokens(e, parent)[0] is Ident || tree_tokens(e, parent)[0] is Int || tree_tokens(e, parent)[0] == STok::LParen
            || tree_tokens(e, parent)[0] == STok::Not,
        e is Bin && e->Bin_1 != BinaryOp::Assign ==> ({
            let op = e->Bin_1;
            &&& 1 <= op_level(op_token(op)) <= 5
            &&& prec(e) == level_prec(op_level(op_token(op)))
            &&& prec(e) >= 2
        }),
        e is Bin ==> token_op(op_token(e->Bin_1)) == Some(e->Bin_1),
        e is Bin && e->Bin_1 == BinaryOp::Assign ==> prec(e) == 1,
        e is Ident || e is Lit ==> prec(e) == 11,
        e is Question || e is Unwrap || e is Member || e is Call ==> prec(e) == 10,
        chain(e) ==> prec(e) >= 10,
        chain(e) && parent <= 10 ==> tree_tokens(e, parent)[0] == STok::Ident(chain_base(e)),
        e is Not ==> prec(e) == 4,
        parent >= 4 && tree_tokens(e, parent)[0] == STok::Not ==> e is Not,
        e is Range || e is RangeInclusive ==> prec(e) == 6,
        prec(e) == 6 ==> e is Range || e is RangeInclusive,
        prec(e) >= 1,
    decreases e,
{
    match e {
        SExpr::Question(b) => {
            lemma_chain_tree(*b);
            lemma_tree_facts(*b, 10);
            let body = tree_tokens(*b, 10) + seq![STok::Question];
            assert(body[0] == tree_tokens(*b, 10)[0]);
        },
        SExpr::Unwrap(b) => {
            lemma_chain_tree(*b);
            lemma_tree_facts(*b, 10);
            let body = tree_tokens(*b, 10) + seq![STok::BangBang];
            assert(body[0] == tree_tokens(*b, 10)[0]);
        },
        SExpr::Not(b) => {
            lemma_tree_facts(*b, 4);
        },
        SExpr::Member(b, m) => {
            lemma_chain_tree(*b);
            lemma_tree_facts(*b, 10);
            let body = tree_tokens(*b, 10) + seq![STok::Dot, STok::Ident(m)];
            assert(body[0] == tree_tokens(*b, 10)[0]);
        },
        SExpr::Call(b, args) => {
            lemma_chain_tree(*b);
            lemma_tree_facts(*b, 10);
            let body = tree_tokens(*b, 10) + seq![STok::LParen] + args_tokens(args) + seq![STok::RParen];
            assert(body[0] == tree_tokens(*b, 10)[0]);
        },
        SExpr::Range(a, b) => {
            lemma_tree_facts(*a, 7);
            let body = tree_tokens(*a, 7) + seq![STok::DotDot] + tree_tokens(*b, 7);
            assert(body[0] == tree_tokens(*a, 7)[0]);
        },
        SExpr::RangeInclusive(a, b) => {
            lemma_tree_facts(*a, 7);
            let body = tree_tokens(*a, 7) + seq![STok::DotDotEq] + tree_tokens(*b, 7);
            assert(body[0] == tree_tokens(*a, 7)[0]);
        },
        SExpr::Bin(l, op, r) => {
            if op == BinaryOp::Assign {
                lemma_tree_facts(*l, prec(e) + 1);
                let body = tree_tokens(*l, prec(e) + 1) + seq![op_token(op)] + tree_tokens(*r, prec(e));
                assert(body[0] == tree_tokens(*l, prec(e) + 1)[0]);
            } else {
                lemma_tree_facts(*l, prec(e));
                let body = tree_tokens(*l, prec(e)) + seq![op_token(op)] + tree_tokens(*r, prec(e) + 1);
                assert(body[0] == tree_tokens(*l, prec(e))[0]);
            }
        },
        _ => {},
    }
}

/// The tokens of a tree are the same in two contexts where it is
/// parenthesized alike.
proof fn lemma_same_tokens(e: SExpr, a: int, b: int)
    requires
        (prec(e) < a) == (prec(e) < b),
    ensures
        tree_tokens(e, a) == tree_tokens(e, b),
{
}

/// Whether a tree is parenthesized in a context of strength `thr`: the
/// proofs below go from a parenthesized tree to the same tree inside the
/// parentheses.
/// A successful parse that ends at `end` with `e`.
pub open spec fn parsed(end: int, e: SExpr) -> PR<SExpr> {
    Ok((end, e))
}

pub open spec fn paren_bit(e: SExpr, thr: int) -> int {
    if prec(e) < thr { 1 } else { 0 }
}

proof fn lemma_assign(e: SExpr, ts: Seq<(STok, int, int)>, i: int)
    requires
        operator_tree(e),
        tokens_at(ts, i, tree_tokens(e, 0)),
        ends_at(7, tk(ts, i + tree_tokens(e, 0).len())),
    ensures
        spec_assign(ts, i) == parsed(i + tree_tokens(e, 0).len(), e),
    decreases e, paren_bit(e, 0), 30int,
{
    lemma_tree_facts(e, 0);
    let end = i + tree_tokens(e, 0).len();
    match e {
        SExpr::Bin(l, op, r) => {
            if op == BinaryOp::Assign {
                lemma_tree_facts(*l, 2);
                lemma_tree_facts(*r, 1);
                let lt = tree_tokens(*l, 2);
                let rt = tree_tokens(*r, 1);
                let opt = seq![op_token(op)];
                assert(tree_tokens(e, 0) == lt + opt + rt);
                lemma_tokens_at_split(ts, i, lt + opt, rt);
                lemma_tokens_at_split(ts, i, lt, opt);
                let m = i + lt.len();
                assert(ts[m + 0].0 == opt[0]);
                assert(ts[m].0 == STok::Assign);
                lemma_level(*l, ts, i, 5);
                lemma_same_tokens(*r, 1, 0);
                assert(m + 1 + rt.len() == end);
                lemma_assign(*r, ts, m + 1);
                return;
            }
        },
        _ => {},
    }
    lemma_same_tokens(e, 0, 2);
    lemma_level(e, ts, i, 5);
}

proof fn lemma_level(e: SExpr, ts: Seq<(STok, int, int)>, i: int, lvl: int)
    requires
        1 <= lvl <= 5,
        operator_tree(e),
        tokens_at(ts, i, tree_tokens(e, level_prec(lvl))),
        ends_at(lvl, tk(ts, i + tree_tokens(e, level_prec(lvl)).len())),
        stops_level(lvl, tk(ts, i + tree_tokens(e, level_prec(lvl)).len())),
    ensures
        spec_binary(ts, i, lvl) == parsed(i + tree_tokens(e, level_prec(lvl)).len(), e),
    decreases e, paren_bit(e, level_prec(lvl)), 4 * lvl + 3,
{
    let end = i + tree_tokens(e, level_prec(lvl)).len();
    lemma_tree_facts(e, level_prec(lvl));
    lemma_binary(e, ts, i, lvl);
    if end < ts.len() {
        lemma_binop_of(lvl, ts[end].0);
    }
}

#[verifier::spinoff_prover]
proof fn lemma_binary(e: SExpr, ts: Seq<(STok, int, int)>, i: int, lvl: int)
    requires
        1 <= lvl <= 5,
        operator_tree(e),
        tokens_at(ts, i, tree_tokens(e, level_prec(lvl))),
        ends_at(lvl, tk(ts, i + tree_tokens(e, level_prec(lvl)).len())),
    ensures
        spec_binary(ts, i, lvl) == spec_binary_rest(ts, i + tree_tokens(e, level_prec(lvl)).len(), lvl, e),
    decreases e, paren_bit(e, level_prec(lvl)), 4 * lvl + 2,
{
    let t = level_prec(lvl);
    let end = i + tree_tokens(e, t).len();
    lemma_tree_facts(e, t);
    if prec(e) == t {
        match e {
            SExpr::Bin(l, op, r) => {
                lemma_tree_facts(*l, t);
                lemma_tree_facts(*r, t + 1);
                let lt = tree_tokens(*l, t);
                let rt = tree_tokens(*r, t + 1);
                let opt = seq![op_token(op)];
                assert(tree_tokens(e, t) == lt + opt + rt);
                lemma_tokens_at_split(ts, i, lt + opt, rt);
                lemma_tokens_at_split(ts, i, lt, opt);
                let m = i + lt.len();
                assert(ts[m + 0].0 == opt[0]);
                assert(ts[m].0 == op_token(op));
                assert(op_level(op_token(op)) == lvl);
                lemma_binop_of(lvl, op_token(op));
                lemma_binary(*l, ts, i, lvl);
                assert(m + 1 + rt.len() == end);
                lemma_operand(*r, ts, m + 1, lvl);
                assert(spec_binary_rest(ts, m, lvl, *l) == spec_binary_rest(ts, end, lvl, e));
            },
            _ => {},
        }
    } else {
        lemma_same_tokens(e, t, t + 1);
        lemma_operand(e, ts, i, lvl);
    }
}

proof fn lemma_operand(e: SExpr, ts: Seq<(STok, int, int)>, i: int, lvl: int)
    requires
        1 <= lvl <= 5,
        operator_tree(e),
        tokens_at(ts, i, tree_tokens(e, level_prec(lvl) + 1)),
        ends_at(lvl, tk(ts, i + tree_tokens(e, level_prec(lvl) + 1).len())),
    ensures
        spec_operand(ts, i, lvl) == parsed(i + tree_tokens(e, level_prec(lvl) + 1).len(), e),
    decreases e, paren_bit(e, level_prec(lvl) + 1), 4 * lvl + 1,
{
    let toks = tree_tokens(e, level_prec(lvl) + 1);
    let end = i + toks.len();
    lemma_tree_facts(e, level_prec(lvl) + 1);
    assert(ts[i + 0].0 == toks[0]);
    if lvl == 5 {
        lemma_level(e, ts, i, 4);
    } else if lvl == 4 {
        lemma_not(e, ts, i);
    } else if lvl == 3 {
        lemma_range(e, ts, i);
    } else if lvl == 2 {
        lemma_level(e, ts, i, 1);
    } else {
        lemma_primary(e, ts, i);
    }
}

/// Ranges and the additive level below them.
proof fn lemma_range(e: SExpr, ts: Seq<(STok, int, int)>, i: int)
    requires
        operator_tree(e),
        tokens_at(ts, i, tree_tokens(e, 6)),
        ends_at(3, tk(ts, i + tree_tokens(e, 6).len())),
    ensures
        spec_range(ts, i) == parsed(i + tree_tokens(e, 6).len(), e),
    decreases e, paren_bit(e, 6), 12int,
{
    lemma_tree_facts(e, 6);
    let end = i + tree_tokens(e, 6).len();
    match e {
        SExpr::Range(a, b) => {
            lemma_tree_facts(*a, 7);
            lemma_tree_facts(*b, 7);
            let at = tree_tokens(*a, 7);
            let bt = tree_tokens(*b, 7);
            let mid = seq![STok::DotDot];
            assert(tree_tokens(e, 6) == at + mid + bt);
            lemma_tokens_at_split(ts, i, at + mid, bt);
            lemma_tokens_at_split(ts, i, at, mid);
            let m = i + at.len();
            assert(ts[m + 0].0 == mid[0]);
            lemma_level(*a, ts, i, 2);
            lemma_level(*b, ts, m + 1, 2);
            return;
        },
        SExpr::RangeInclusive(a, b) => {
            lemma_tree_facts(*a, 7);
            lemma_tree_facts(*b, 7);
            let at = tree_tokens(*a, 7);
            let bt = tree_tokens(*b, 7);
            let mid = seq![STok::DotDotEq];
            assert(tree_tokens(e, 6) == at + mid + bt);
            lemma_tokens_at_split(ts, i, at + mid, bt);
            lemma_tokens_at_split(ts, i, at, mid);
            let m = i + at.len();
            assert(ts[m + 0].0 == mid[0]);
            lemma_level(*a, ts, i, 2);
            lemma_level(*b, ts, m + 1, 2);
            return;
        },
        _ => {},
    }
    lemma_same_tokens(e, 6, 7);
    lemma_level(e, ts, i, 2);
}

/// A successful parse of a list that ends at `end`.
pub open spec fn parsed_items(end: int, s: Seq<SExpr>) -> PR<Seq<SExpr>> {
    Ok((end, s))
}

proof fn lemma_assign_fails_at_close(ts: Seq<(STok, int, int)>, i: int)
    requires
        is_tok(ts, i, STok::RParen),
    ensures
        spec_assign(ts, i) is Err,
{
    assert(spec_primary(ts, i) is Err);
    assert(spec_operand(ts, i, 1) is Err);
    assert(spec_binary(ts, i, 1) is Err);
    assert(spec_operand(ts, i, 2) is Err);
    assert(spec_binary(ts, i, 2) is Err);
    assert(spec_range(ts, i) is Err);
    assert(spec_operand(ts, i, 3) is Err);
    assert(spec_binary(ts, i, 3) is Err);
    assert(spec_not(ts, i) is Err);
    assert(spec_operand(ts, i, 4) is Err);
    assert(spec_binary(ts, i, 4) is Err);
    assert(spec_operand(ts, i, 5) is Err);
    assert(spec_binary(ts, i, 5) is Err);
}

proof fn lemma_args_first(s: Seq<SExpr>)
    requires
        trees(s),
        s.len() > 0,
    ensures
        args_tokens(s).len() > 0,
        args_tokens(s)[0] == tree_tokens(s[0], 0)[0],
        args_tokens(s)[0] is Ident || args_tokens(s)[0] is Int || args_tokens(s)[0] == STok::LParen
            || args_tokens(s)[0] == STok::Not,
{
    lemma_tree_facts(s[0], 0);
    if s.len() > 1 {
        let t = tree_tokens(s[0], 0) + seq![STok::Comma] + args_tokens(s.subrange(1, s.len() as int));
        assert(t[0] == tree_tokens(s[0], 0)[0]);
    }
}

/// The expression-list parser reads call arguments back, up to the closing
/// parenthesis.
proof fn lemma_args(s: Seq<SExpr>, ts: Seq<(STok, int, int)>, i: int, acc: Seq<SExpr>)
    requires
        trees(s),
        tokens_at(ts, i, args_tokens(s)),
        is_tok(ts, i + args_tokens(s).len(), STok::RParen),
    ensures
        spec_expr_list(ts, i, acc) == (i + args_tokens(s).len(), acc + s),
    decreases s, 0int, 0int,
{
    if s.len() == 0 {
        lemma_assign_fails_at_close(ts, i);
        assert(acc + s =~= acc);
        return;
    }
    let e = s[0];
    let rest = s.subrange(1, s.len() as int);
    lemma_tree_facts(e, 0);
    let et = tree_tokens(e, 0);
    if s.len() == 1 {
        assert(args_tokens(s) == et);
        lemma_assign(e, ts, i);
        assert(acc.push(e) =~= acc + s);
    } else {
        let c = seq![STok::Comma];
        assert(args_tokens(s) == et + c + args_tokens(rest));
        lemma_tokens_at_split(ts, i, et + c, args_tokens(rest));
        lemma_tokens_at_split(ts, i, et, c);
        let q = i + et.len();
        assert(ts[q + 0].0 == c[0]);
        lemma_assign(e, ts, i);
        lemma_args(rest, ts, q + 1, acc.push(e));
        assert(acc.push(e) + rest =~= acc + s);
    }
}

/// The postfix parser after a chain's name reads the chain's suffixes.
proof fn lemma_postfix_chain(e: SExpr, ts: Seq<(STok, int, int)>, i: int)
    requires
        chain(e),
        tokens_at(ts, i, tree_tokens(e, 9)),
    ensures
        spec_postfix(ts, i + 1, SExpr::Ident(chain_base(e))) == spec_postfix(ts, i + tree_tokens(e, 9).len(), e),
    decreases e, 0int, 0int,
{
    lemma_chain_tree(e);
    lemma_tree_facts(e, 9);
    match e {
        SExpr::Question(b) => {
            lemma_chain_tree(*b);
            lemma_tree_facts(*b, 10);
            lemma_same_tokens(*b, 9, 10);
            let bt = tree_tokens(*b, 9);
            assert(tree_tokens(e, 9) == bt + seq![STok::Question]);
            lemma_tokens_at_split(ts, i, bt, seq![STok::Question]);
            lemma_postfix_chain(*b, ts, i);
            assert(ts[i + bt.len() + 0].0 == seq![STok::Question][0]);
        },
        SExpr::Call(b, args) => {
            lemma_chain_tree(*b);
            lemma_tree_facts(*b, 10);
            lemma_same_tokens(*b, 9, 10);
            let bt = tree_tokens(*b, 9);
            let at = args_tokens(args);
            let lp = seq![STok::LParen];
            let rp = seq![STok::RParen];
            assert(tree_tokens(e, 9) == bt + lp + at + rp);
            lemma_tokens_at_split(ts, i, bt + lp + at, rp);
            lemma_tokens_at_split(ts, i, bt + lp, at);
            lemma_tokens_at_split(ts, i, bt, lp);
            lemma_postfix_chain(*b, ts, i);
            let p = i + bt.len();
            let q = p + 1 + at.len();
            assert(ts[p + 0].0 == lp[0]);
            assert(ts[q + 0].0 == rp[0]);
            lemma_args(args, ts, p + 1, seq![]);
            assert(seq![] + args =~= args);
            if args.len() > 0 {
                lemma_args_first(args);
                assert(ts[p + 1 + 0].0 == at[0]);
            }
            assert(spec_items(ts, p + 1, STok::RParen) == parsed_items(q + 1, args));
        },
        SExpr::Member(b, m) => {
            lemma_chain_tree(*b);
            lemma_tree_facts(*b, 10);
            lemma_same_tokens(*b, 9, 10);
            let bt = tree_tokens(*b, 9);
            let tail = seq![STok::Dot, STok::Ident(m)];
            assert(tree_tokens(e, 9) == bt + tail);
            lemma_tokens_at_split(ts, i, bt, tail);
            lemma_postfix_chain(*b, ts, i);
            assert(ts[i + bt.len() + 0].0 == tail[0]);
            assert(ts[i + bt.len() + 1].0 == tail[1]);
        },
        SExpr::Unwrap(b) => {
            lemma_chain_tree(*b);
            lemma_tree_facts(*b, 10);
            lemma_same_tokens(*b, 9, 10);
            let bt = tree_tokens(*b, 9);
            assert(tree_tokens(e, 9) == bt + seq![STok::BangBang]);
            lemma_tokens_at_split(ts, i, bt, seq![STok::BangBang]);
            lemma_postfix_chain(*b, ts, i);
            assert(ts[i + bt.len() + 0].0 == seq![STok::BangBang][0]);
        },
        _ => {},
    }
}

/// `not` prefixes and the comparison level below them.
proof fn lemma_not(e: SExpr, ts: Seq<(STok, int, int)>, i: int)
    requires
        operator_tree(e),
        tokens_at(ts, i, tree_tokens(e, 4)),
        ends_at(4, tk(ts, i + tree_tokens(e, 4).len())),
    ensures
        spec_not(ts, i) == parsed(i + tree_tokens(e, 4).len(), e),
    decreases e, paren_bit(e, 4), 16int,
{
    lemma_tree_facts(e, 4);
    let toks = tree_tokens(e, 4);
    assert(ts[i + 0].0 == toks[0]);
    match e {
        SExpr::Not(b) => {
            let bt = tree_tokens(*b, 4);
            assert(toks == seq![STok::Not] + bt);
            lemma_tokens_at_split(ts, i, seq![STok::Not], bt);
            lemma_not(*b, ts, i + 1);
            return;
        },
        _ => {},
    }
    lemma_same_tokens(e, 4, 5);
    lemma_level(e, ts, i, 3);
}

proof fn lemma_primary(e: SExpr, ts: Seq<(STok, int, int)>, i: int)
    requires
        operator_tree(e),
        tokens_at(ts, i, tree_tokens(e, 9)),
        ends_at(1, tk(ts, i + tree_tokens(e, 9).len())),
    ensures
        spec_primary(ts, i) == parsed(i + tree_tokens(e, 9).len(), e),
    decreases e, paren_bit(e, 9), 1int,
{
    lemma_tree_facts(e, 9);
    let toks = tree_tokens(e, 9);
    assert(ts[i + 0].0 == toks[0]);
    match e {
        SExpr::Lit(SLit::Int(v)) => {
            assert(toks == seq![STok::Int(v)]);
        },
        SExpr::Ident(_) | SExpr::Question(_) | SExpr::Unwrap(_) | SExpr::Member(_, _) | SExpr::Call(_, _) => {
            let end = i + toks.len();
            lemma_postfix_chain(e, ts, i);
            assert(ts[i].0 == STok::Ident(chain_base(e)));
            if end < ts.len() {
                let t = ts[end].0;
                assert(tk(ts, end) == Some(t));
                assert(t != STok::Dot && t != STok::LBracket && t != STok::LParen && t != STok::Question
                    && t != STok::BangBang);
            }
            assert(spec_postfix(ts, end, e) == parsed(end, e));
        },
        SExpr::Bin(_, _, _) | SExpr::Not(_) | SExpr::Range(_, _) | SExpr::RangeInclusive(_, _) => {
            let body = tree_tokens(e, 0);
            lemma_tree_facts(e, 0);
            assert(toks == seq![STok::LParen] + body + seq![STok::RParen]);
            lemma_tokens_at_split(ts, i, seq![STok::LParen] + body, seq![STok::RParen]);
            lemma_tokens_at_split(ts, i, seq![STok::LParen], body);
            let q = i + 1 + body.len();
            assert(ts[q + 0].0 == seq![STok::RParen][0]);
            assert(ts[i + 1 + 0].0 == body[0]);
            lemma_assign(e, ts, i + 1);
            assert(spec_paren(ts, i + 1) == parsed(q + 1, e));
        },
        _ => {},
    }
}

proof fn lemma_tokens_text_concat(a: Seq<STok>, b: Seq<STok>)
    ensures
        tokens_text(a + b) == tokens_text(a) + tokens_text(b),
    decreases b.len(),
{
    if b.len() == 0 {
        assert(a + b =~= a);
        assert(tokens_text(b) =~= seq![]);
        assert(tokens_text(a) + tokens_text(b) =~= tokens_text(a));
    } else {
        lemma_tokens_text_concat(a, b.drop_last());
        assert((a + b).drop_last() =~= a + b.drop_last());
        assert((a + b).last() == b.last());
        assert(tokens_text(a) + tokens_text(b) =~= tokens_text(a) + tokens_text(b.drop_last()) + token_text(b.last()));
    }
}

proof fn lemma_tokens_text_one(t: STok)
    ensures
        tokens_text(seq![t]) == token_text(t),
{
    assert(seq![t].drop_last() =~= Seq::<STok>::empty());
    assert(tokens_text(Seq::<STok>::empty()) =~= seq![]);
    assert(seq![] + token_text(t) =~= token_text(t));
}

proof fn lemma_fexprs_len(s: Seq<SExpr>)
    ensures
        fexprs(s).len() == s.len(),
        forall|k: int| 0 <= k < s.len() ==> #[trigger] fexprs(s)[k] == fexpr(s[k], 0, true),
    decreases s.len(),
{
    if s.len() > 0 {
        lemma_fexprs_len(s.subrange(0, s.len() - 1));
        assert forall|k: int| 0 <= k < s.len() implies #[trigger] fexprs(s)[k] == fexpr(s[k], 0, true) by {
            if k < s.len() - 1 {
                assert(s.subrange(0, s.len() - 1)[k] == s[k]);
            }
        }
    }
}

/// Joining parts splits off the first one.
proof fn lemma_join_front(parts: Seq<Seq<char>>, sep: Seq<char>)
    requires
        parts.len() >= 2,
    ensures
        join(parts, sep) == parts[0] + sep + join(parts.subrange(1, parts.len() as int), sep),
    decreases parts.len(),
{
    let rest = parts.subrange(1, parts.len() as int);
    let dl = parts.drop_last();
    assert(join(parts, sep) == join(dl, sep) + sep + parts.last());
    if parts.len() == 2 {
        assert(dl.len() == 1);
        assert(join(dl, sep) == dl[0]);
        assert(rest.len() == 1);
        assert(join(rest, sep) == rest[0]);
        assert(join(parts, sep) =~= parts[0] + sep + join(rest, sep));
    } else {
        lemma_join_front(dl, sep);
        assert(dl.subrange(1, dl.len() as int) =~= rest.drop_last());
        assert(rest.last() == parts.last());
        assert(join(rest, sep) == join(rest.drop_last(), sep) + sep + rest.last());
        assert(join(parts, sep) =~= parts[0] + sep + join(rest, sep));
    }
}

proof fn lemma_args_text(s: Seq<SExpr>)
    requires
        trees(s),
    ensures
        tokens_text(args_tokens(s)) == join(fexprs(s), ", "@),
    decreases s,
{
    lemma_fexprs_len(s);
    if s.len() == 0 {
        assert(args_tokens(s) =~= Seq::<STok>::empty());
        assert(tokens_text(Seq::<STok>::empty()) =~= seq![]);
        return;
    }
    let e = s[0];
    let rest = s.subrange(1, s.len() as int);
    lemma_text(e, 0, true);
    if s.len() == 1 {
        assert(join(fexprs(s), ", "@) == fexprs(s)[0]);
    } else {
        lemma_args_text(rest);
        lemma_fexprs_len(rest);
        let parts = fexprs(s);
        lemma_join_front(parts, ", "@);
        assert(parts.subrange(1, parts.len() as int) =~= fexprs(rest)) by {
            assert forall|k: int| 0 <= k < rest.len() implies parts.subrange(1, parts.len() as int)[k] == fexprs(rest)[k] by {
                assert(rest[k] == s[k + 1]);
            }
        }
        let et = tree_tokens(e, 0);
        lemma_tokens_text_concat(et + seq![STok::Comma], args_tokens(rest));
        lemma_tokens_text_concat(et, seq![STok::Comma]);
        lemma_tokens_text_one(STok::Comma);
    }
}

#[verifier::spinoff_prover]
#[verifier::rlimit(100)]
proof fn lemma_text(e: SExpr, parent: int, open: bool)
    requires
        operator_tree(e),
    ensures
        fexpr(e, parent, open) == tokens_text(tree_tokens(e, parent)),
    decreases e,
{
    lemma_tree_facts(e, parent);
    let p = prec(e);
    let w = wrapped(e, parent, open);
    let o = w || open;
    assert(w == (p < parent));
    let (lp, rp) = if e is Bin && e->Bin_1 == BinaryOp::Assign { (p + 1, p) } else { (p, p + 1) };
    let body = match e {
        SExpr::Ident(n) => seq![STok::Ident(n)],
        SExpr::Lit(SLit::Int(i)) => seq![STok::Int(i)],
        SExpr::Question(b) => tree_tokens(*b, p) + seq![STok::Question],
        SExpr::Unwrap(b) => tree_tokens(*b, p) + seq![STok::BangBang],
        SExpr::Member(b, m) => tree_tokens(*b, p) + seq![STok::Dot, STok::Ident(m)],
        SExpr::Call(b, args) => tree_tokens(*b, p) + seq![STok::LParen] + args_tokens(args) + seq![STok::RParen],
        SExpr::Not(b) => seq![STok::Not] + tree_tokens(*b, p),
        SExpr::Range(a, b) => tree_tokens(*a, p + 1) + seq![STok::DotDot] + tree_tokens(*b, p + 1),
        SExpr::RangeInclusive(a, b) => tree_tokens(*a, p + 1) + seq![STok::DotDotEq] + tree_tokens(*b, p + 1),
        SExpr::Bin(l, op, r) => tree_tokens(*l, lp) + seq![op_token(op)] + tree_tokens(*r, rp),
        _ => seq![],
    };
    let inner = match e {
        SExpr::Ident(n) => n,
        SExpr::Lit(SLit::Int(i)) => int_text(i),
        SExpr::Question(b) => fexpr(*b, p, false) + "?"@,
        SExpr::Unwrap(b) => fexpr(*b, p, false) + "!!"@,
        SExpr::Member(b, m) => fexpr(*b, p, false) + "."@ + m,
        SExpr::Call(b, args) => fexpr(*b, p, false) + "("@ + join(fexprs(args), ", "@) + ")"@,
        SExpr::Not(b) => "not "@ + fexpr(*b, p, o),
        SExpr::Range(a, b) => fexpr(*a, p + 1, false) + ".."@ + fexpr(*b, p + 1, o),
        SExpr::RangeInclusive(a, b) => fexpr(*a, p + 1, false) + "..="@ + fexpr(*b, p + 1, o),
        SExpr::Bin(l, op, r) => fexpr(*l, lp, false) + " "@ + op_text(op) + " "@ + fexpr(*r, rp, o),
        _ => seq![],
    };
    match e {
        SExpr::Ident(n) => {
            lemma_tokens_text_one(STok::Ident(n));
        },
        SExpr::Lit(SLit::Int(i)) => {
            lemma_tokens_text_one(STok::Int(i));
        },
        SExpr::Question(b) => {
            lemma_chain_tree(*b);
            lemma_text(*b, p, false);
            lemma_tokens_text_concat(tree_tokens(*b, p), seq![STok::Question]);
            lemma_tokens_text_one(STok::Question);
        },
        SExpr::Call(b, args) => {
            lemma_chain_tree(*b);
            lemma_text(*b, p, false);
            lemma_args_text(args);
            let bt = tree_tokens(*b, p);
            let at = args_tokens(args);
            lemma_tokens_text_concat(bt + seq![STok::LParen] + at, seq![STok::RParen]);
            lemma_tokens_text_concat(bt + seq![STok::LParen], at);
            lemma_tokens_text_concat(bt, seq![STok::LParen]);
            lemma_tokens_text_one(STok::LParen);
            lemma_tokens_text_one(STok::RParen);
        },
        SExpr::Member(b, m) => {
            lemma_chain_tree(*b);
            lemma_text(*b, p, false);
            let bt = tree_tokens(*b, p);
            assert(seq![STok::Dot, STok::Ident(m)] =~= seq![STok::Dot] + seq![STok::Ident(m)]);
            lemma_tokens_text_concat(bt, seq![STok::Dot, STok::Ident(m)]);
            lemma_tokens_text_concat(seq![STok::Dot], seq![STok::Ident(m)]);
            lemma_tokens_text_one(STok::Dot);
            lemma_tokens_text_one(STok::Ident(m));
        },
        SExpr::Range(a, b) => {
            lemma_text(*a, p + 1, false);
            lemma_text(*b, p + 1, o);
            let at = tree_tokens(*a, p + 1);
            let bt = tree_tokens(*b, p + 1);
            lemma_tokens_text_concat(at + seq![STok::DotDot], bt);
            lemma_tokens_text_concat(at, seq![STok::DotDot]);
            lemma_tokens_text_one(STok::DotDot);
        },
        SExpr::RangeInclusive(a, b) => {
            lemma_text(*a, p + 1, false);
            lemma_text(*b, p + 1, o);
            let at = tree_tokens(*a, p + 1);
            let bt = tree_tokens(*b, p + 1);
            lemma_tokens_text_concat(at + seq![STok::DotDotEq], bt);
            lemma_tokens_text_concat(at, seq![STok::DotDotEq]);
            lemma_tokens_text_one(STok::DotDotEq);
        },
        SExpr::Not(b) => {
            lemma_text(*b, p, o);
            lemma_tokens_text_concat(seq![STok::Not], tree_tokens(*b, p));
            lemma_tokens_text_one(STok::Not);
        },
        SExpr::Unwrap(b) => {
            lemma_chain_tree(*b);
            lemma_text(*b, p, false);
            lemma_tokens_text_concat(tree_tokens(*b, p), seq![STok::BangBang]);
            lemma_tokens_text_one(STok::BangBang);
        },
        SExpr::Bin(l, op, r) => {
            lemma_text(*l, lp, false);
            lemma_text(*r, rp, o);
            let lt = tree_tokens(*l, lp);
            let rt = tree_tokens(*r, rp);
            lemma_tokens_text_concat(lt + seq![op_token(op)], rt);
            lemma_tokens_text_concat(lt, seq![op_token(op)]);
            lemma_tokens_text_one(op_token(op));
            assert(token_text(op_token(op)) == " "@ + op_text(op) + " "@);
            assert(tree_tokens(e, p) == body);
            assert(tokens_text(body) =~= inner);
        },
        _ => {},
    }
    assert(fexpr(e, parent, open) == if w { "("@ + inner + ")"@ } else { inner });
    if w {
        assert(tree_tokens(e, parent) == seq![STok::LParen] + body + seq![STok::RParen]);
        lemma_tokens_text_concat(seq![STok::LParen] + body, seq![STok::RParen]);
        lemma_tokens_text_concat(seq![STok::LParen], body);
        lemma_tokens_text_one(STok::LParen);
        lemma_tokens_text_one(STok::RParen);
    } else {
        assert(tree_tokens(e, parent) == body);
    }
}

/// A tree of names, integers, operators, `not`, ranges, members, calls, `?` and `!!` reads back as
/// itself: the formatter writes it as the tokens `tree_tokens(e, 0)` spelled out (names as they
/// are, each operator with a space on either side, parentheses where the layout puts them), and
/// wherever those tokens stand in a token list, followed by nothing or by a token that goes on no
/// expression and is no operator, the expression parser reads exactly them and gives back `e`.
pub proof fn law_operator_trees_read_back(e: SExpr, ts: Seq<(STok, int, int)>, i: int)
    requires
        operator_tree(e),
        tokens_at(ts, i, tree_tokens(e, 0)),
        ends_at(7, tk(ts, i + tree_tokens(e, 0).len())),
    ensures
        fexpr(e, 0, true) == tokens_text(tree_tokens(e, 0)),
        spec_assign(ts, i) == parsed(i + tree_tokens(e, 0).len(), e),
{
    lemma_text(e, 0, true);
    lemma_assign(e, ts, i);
}

// ---------------------------------------------------------------------------
// Lexing the text back.
// ---------------------------------------------------------------------------

/// A name that the lexer reads back as that name.
pub open spec fn plain_name(n: Seq<char>) -> bool {
    &&& n.len() > 0
    &&& is_ident_start(n[0])
    &&& forall|k: int| 0 <= k < n.len() ==> #[trigger] is_ident_char(n[k])
    &&& keyword(n) is None
}

/// Every name in the tree is plain.
pub open spec fn plain_names(e: SExpr) -> bool
    decreases e,
{
    match e {
        SExpr::Ident(n) => plain_name(n),
        SExpr::Question(b) => plain_names(*b),
        SExpr::Unwrap(b) => plain_names(*b),
        SExpr::Member(b, m) => plain_names(*b) && plain_name(m),
        SExpr::Call(b, args) => plain_names(*b) && all_plain_names(args),
        SExpr::Not(b) => plain_names(*b),
        SExpr::Range(a, b) => plain_names(*a) && plain_names(*b),
        SExpr::RangeInclusive(a, b) => plain_names(*a) && plain_names(*b),
        SExpr::Bin(l, _, r) => plain_names(*l) && plain_names(*r),
        _ => true,
    }
}

pub open spec fn readable_token(t: STok) -> bool {
    match t {
        STok::Ident(n) => plain_name(n),
        STok::LParen => true,
        STok::RParen => true,
        STok::Let => true,
        STok::Mut => true,
        STok::Int(i) => 0 <= i <= i64::MAX,
        STok::Question => true,
        STok::BangBang => true,
        STok::Not => true,
        STok::DotDot => true,
        STok::DotDotEq => true,
        STok::Dot => true,
        STok::Comma => true,
        _ => token_op(t) is Some,
    }
}

/// Tokens written with a space before them (the operators).
pub open spec fn leads(t: STok) -> bool {
    token_op(t) is Some
}

/// Tokens written with a space after them (the operators and `let`).
pub open spec fn trails(t: STok) -> bool {
    token_op(t) is Some || binding_kw(t) || t == STok::Not || t == STok::Comma
}

/// Neighbours whose texts would run together into other tokens: a dot
/// before a dot, or a number before a member dot.
pub open spec fn bad_pair(a: STok, b: STok) -> bool {
    (a == STok::Dot && starts_dot(b)) || (a is Int && b == STok::Dot)
}

/// Tokens whose text starts with a dot.
pub open spec fn starts_dot(t: STok) -> bool {
    t == STok::Dot || t == STok::DotDot || t == STok::DotDotEq
}

/// Tokens whose text starts with a letter, digit or `_`.
pub open spec fn starts_word(t: STok) -> bool {
    word(t) || binding_kw(t) || t == STok::Not
}

/// Tokens written as a run of letters, digits and `_`.
pub open spec fn word(t: STok) -> bool {
    t is Ident || t is Int
}

/// The keywords that open a binding line.
pub open spec fn binding_kw(t: STok) -> bool {
    t == STok::Let || t == STok::Mut
}

/// Tokens whose text the lexer reads back one by one: names, parentheses,
/// operators and `let`, with no name right before a name or a `let`.
pub open spec fn readable(toks: Seq<STok>) -> bool {
    &&& forall|k: int| 0 <= k < toks.len() ==> #[trigger] readable_token(toks[k])
    &&& forall|k: int| 0 <= k < toks.len() - 1 ==> !(word(#[trigger] toks[k]) && starts_word(toks[k + 1]))
        && !(bad_pair(toks[k], toks[k + 1]))
}

pub open spec fn lead(gap: bool) -> Seq<char> {
    if gap { " "@ } else { seq![] }
}

proof fn lemma_readable_concat(a: Seq<STok>, b: Seq<STok>)
    requires
        readable(a),
        readable(b),
        a.len() > 0 && b.len() > 0 ==> !(word(a.last()) && starts_word(b[0])) && !(bad_pair(a.last(), b[0])),
    ensures
        readable(a + b),
{
    let c = a + b;
    assert forall|k: int| 0 <= k < c.len() implies #[trigger] readable_token(c[k]) by {
        if k < a.len() {
            assert(c[k] == a[k]);
        } else {
            assert(c[k] == b[k - a.len()]);
        }
    }
    assert forall|k: int| 0 <= k < c.len() - 1 implies !(word(#[trigger] c[k]) && starts_word(c[k + 1]))
        && !(bad_pair(c[k], c[k + 1])) by {
        if k + 1 < a.len() {
            assert(c[k] == a[k] && c[k + 1] == a[k + 1]);
        } else if k >= a.len() {
            assert(c[k] == b[k - a.len()] && c[k + 1] == b[k - a.len() + 1]);
        } else {
            assert(c[k] == a.last() && c[k + 1] == b[0]);
        }
    }
}

proof fn lemma_single_readable(t: STok)
    requires
        readable_token(t),
    ensures
        readable(seq![t]),
{
    assert forall|k: int| 0 <= k < 1 implies #[trigger] readable_token(seq![t][k]) by {
        assert(seq![t][k] == t);
    }
}

proof fn lemma_join_readable(lt: Seq<STok>, t: STok, rt: Seq<STok>)
    requires
        readable(lt),
        readable(rt),
        lt.len() > 0,
        rt.len() > 0,
        readable_token(t),
        !word(t),
        !binding_kw(t),
        t != STok::Not,
        !bad_pair(lt.last(), t),
        !bad_pair(t, rt[0]),
    ensures
        readable(lt + seq![t] + rt),
        (lt + seq![t] + rt).last() == rt.last(),
        (lt + seq![t] + rt)[0] == lt[0],
{
    lemma_single_readable(t);
    lemma_readable_concat(lt, seq![t]);
    assert((lt + seq![t]).last() == t);
    lemma_readable_concat(lt + seq![t], rt);
}

proof fn lemma_wrap_readable(body: Seq<STok>)
    requires
        readable(body),
        body.len() > 0,
    ensures
        readable(seq![STok::LParen] + body + seq![STok::RParen]),
        (seq![STok::LParen] + body + seq![STok::RParen]).last() == STok::RParen,
{
    lemma_single_readable(STok::LParen);
    lemma_single_readable(STok::RParen);
    lemma_readable_concat(seq![STok::LParen], body);
    lemma_readable_concat(seq![STok::LParen] + body, seq![STok::RParen]);
}

#[verifier::spinoff_prover]
proof fn lemma_range_readable(e: SExpr, parent: int, mid: STok)
    requires
        operator_tree(e),
        plain_names(e),
        parent <= 10,
        (e is Range && mid == STok::DotDot) || (e is RangeInclusive && mid == STok::DotDotEq),
    ensures
        readable(tree_tokens(e, parent)),
        word(tree_tokens(e, parent).last()) || tree_tokens(e, parent).last() == STok::RParen
            || tree_tokens(e, parent).last() == STok::Question || tree_tokens(e, parent).last() == STok::BangBang,
    decreases e, 0int,
{
    lemma_tree_facts(e, parent);
    let (a, b) = match e {
        SExpr::Range(a, b) => (*a, *b),
        SExpr::RangeInclusive(a, b) => (*a, *b),
        _ => (e, e),
    };
    lemma_tree_readable(a, 7);
    lemma_tree_readable(b, 7);
    lemma_tree_facts(a, 7);
    lemma_tree_facts(b, 7);
    let at = tree_tokens(a, 7);
    let bt = tree_tokens(b, 7);
    lemma_join_readable(at, mid, bt);
    let body = at + seq![mid] + bt;
    assert(tree_tokens(e, 6) == body);
    if 6 < parent {
        lemma_wrap_readable(body);
        assert(tree_tokens(e, parent) == seq![STok::LParen] + body + seq![STok::RParen]);
    } else {
        assert(tree_tokens(e, parent) == body);
    }
}

proof fn lemma_args_readable(s: Seq<SExpr>)
    requires
        trees(s),
        all_plain_names(s),
    ensures
        readable(args_tokens(s)),
        s.len() > 0 ==> (word(args_tokens(s).last()) || args_tokens(s).last() == STok::RParen
            || args_tokens(s).last() == STok::Question || args_tokens(s).last() == STok::BangBang),
    decreases s, 0int,
{
    if s.len() == 0 {
        assert(args_tokens(s) =~= Seq::<STok>::empty());
        return;
    }
    let e = s[0];
    let rest = s.subrange(1, s.len() as int);
    lemma_tree_readable(e, 0);
    lemma_tree_facts(e, 0);
    if s.len() > 1 {
        lemma_args_readable(rest);
        lemma_args_first(rest);
        lemma_join_readable(tree_tokens(e, 0), STok::Comma, args_tokens(rest));
    }
}

#[verifier::spinoff_prover]
proof fn lemma_suffix_readable(e: SExpr, parent: int)
    requires
        operator_tree(e),
        plain_names(e),
        parent <= 10,
        e is Call || e is Member || e is Question || e is Unwrap,
    ensures
        readable(tree_tokens(e, parent)),
        word(tree_tokens(e, parent).last()) || tree_tokens(e, parent).last() == STok::RParen
            || tree_tokens(e, parent).last() == STok::Question || tree_tokens(e, parent).last() == STok::BangBang,
        chain(e) ==> !(tree_tokens(e, parent).last() is Int),
    decreases e, 0int,
{
    lemma_tree_facts(e, parent);
    match e {
        SExpr::Call(b, args) => {
            lemma_chain_tree(*b);
            lemma_tree_readable(*b, 10);
            lemma_tree_facts(*b, 10);
            lemma_args_readable(args);
            let bt = tree_tokens(*b, 10);
            let at = args_tokens(args);
            let lp = seq![STok::LParen];
            let rp = seq![STok::RParen];
            lemma_single_readable(STok::LParen);
            lemma_single_readable(STok::RParen);
            lemma_readable_concat(bt, lp);
            if at.len() > 0 {
                lemma_args_first(args);
            }
            lemma_readable_concat(bt + lp, at);
            if at.len() > 0 {
                assert((bt + lp + at).last() == at.last());
            } else {
                assert((bt + lp + at).last() == STok::LParen);
            }
            lemma_readable_concat(bt + lp + at, rp);
            assert(tree_tokens(e, parent) == bt + lp + at + rp);
        },
        SExpr::Member(b, m) => {
            lemma_chain_tree(*b);
            lemma_tree_readable(*b, 10);
            lemma_tree_facts(*b, 10);
            let tail = seq![STok::Dot, STok::Ident(m)];
            lemma_single_readable(STok::Dot);
            lemma_single_readable(STok::Ident(m));
            assert(tail =~= seq![STok::Dot] + seq![STok::Ident(m)]);
            lemma_readable_concat(seq![STok::Dot], seq![STok::Ident(m)]);
            lemma_readable_concat(tree_tokens(*b, 10), tail);
            assert(tree_tokens(e, parent) == tree_tokens(*b, 10) + tail);
        },
        SExpr::Question(b) => {
            lemma_chain_tree(*b);
            lemma_tree_readable(*b, 10);
            lemma_tree_facts(*b, 10);
            lemma_single_readable(STok::Question);
            lemma_readable_concat(tree_tokens(*b, 10), seq![STok::Question]);
            assert(tree_tokens(e, parent) == tree_tokens(*b, 10) + seq![STok::Question]);
        },
        SExpr::Unwrap(b) => {
            lemma_chain_tree(*b);
            lemma_tree_readable(*b, 10);
            lemma_tree_facts(*b, 10);
            lemma_single_readable(STok::BangBang);
            lemma_readable_concat(tree_tokens(*b, 10), seq![STok::BangBang]);
            assert(tree_tokens(e, parent) == tree_tokens(*b, 10) + seq![STok::BangBang]);
        },
        _ => {},
    }
}

#[verifier::spinoff_prover]
proof fn lemma_tree_readable(e: SExpr, parent: int)
    requires
        operator_tree(e),
        plain_names(e),
        parent <= 10,
    ensures
        readable(tree_tokens(e, parent)),
        word(tree_tokens(e, parent).last()) || tree_tokens(e, parent).last() == STok::RParen
            || tree_tokens(e, parent).last() == STok::Question || tree_tokens(e, parent).last() == STok::BangBang,
        chain(e) ==> !(tree_tokens(e, parent).last() is Int),
    decreases e, 1int,
{
    lemma_tree_facts(e, parent);
    let p = prec(e);
    match e {
        SExpr::Call(_, _) | SExpr::Member(_, _) | SExpr::Question(_) | SExpr::Unwrap(_) => {
            lemma_suffix_readable(e, parent);
        },
        SExpr::Ident(n) => {
            assert(tree_tokens(e, parent) == seq![STok::Ident(n)]);
            lemma_single_readable(STok::Ident(n));
        },
        SExpr::Lit(SLit::Int(i)) => {
            assert(tree_tokens(e, parent) == seq![STok::Int(i)]);
            lemma_single_readable(STok::Int(i));
        },
        SExpr::Range(a, b) => {
            lemma_range_readable(e, parent, STok::DotDot);
        },
        SExpr::RangeInclusive(a, b) => {
            lemma_range_readable(e, parent, STok::DotDotEq);
        },
        SExpr::Not(b) => {
            lemma_tree_readable(*b, 4);
            lemma_tree_facts(*b, 4);
            lemma_single_readable(STok::Not);
            let body = seq![STok::Not] + tree_tokens(*b, 4);
            lemma_readable_concat(seq![STok::Not], tree_tokens(*b, 4));
            assert(body.last() == tree_tokens(*b, 4).last());
            if p < parent {
                lemma_wrap_readable(body);
                assert(tree_tokens(e, parent) == seq![STok::LParen] + body + seq![STok::RParen]);
            } else {
                assert(tree_tokens(e, parent) == body);
            }
        },
        SExpr::Bin(l, op, r) => {
            let (lp, rp) = if op == BinaryOp::Assign { (p + 1, p) } else { (p, p + 1) };
            lemma_tree_readable(*l, lp);
            lemma_tree_readable(*r, rp);
            lemma_tree_facts(*l, lp);
            lemma_tree_facts(*r, rp);
            let lt = tree_tokens(*l, lp);
            let rt = tree_tokens(*r, rp);
            lemma_join_readable(lt, op_token(op), rt);
            let body = lt + seq![op_token(op)] + rt;
            if p < parent {
                lemma_wrap_readable(body);
                assert(tree_tokens(e, parent) == seq![STok::LParen] + body + seq![STok::RParen]);
            } else {
                assert(tree_tokens(e, parent) == body);
            }
        },
        _ => {},
    }
}

proof fn lemma_ident_end_at(s: Seq<char>, p: int, n: int)
    requires
        0 <= p,
        0 <= n,
        p + n <= s.len(),
        forall|k: int| p <= k < p + n ==> #[trigger] is_ident_char(s[k]),
        p + n == s.len() || !is_ident_char(s[p + n]),
    ensures
        ident_end(s, p) == p + n,
    decreases n,
{
    if n > 0 {
        lemma_ident_end_at(s, p + 1, n - 1);
    }
}

proof fn lemma_tokens_text_front(t: STok, rest: Seq<STok>)
    ensures
        tokens_text(seq![t] + rest) == token_text(t) + tokens_text(rest),
{
    lemma_tokens_text_concat(seq![t], rest);
    lemma_tokens_text_one(t);
}

/// The part of a token's text that the lexer's scan reads: all of it for a
/// name or a parenthesis, all but the leading space for an operator.
pub open spec fn scanned_text(t: STok) -> Seq<char> {
    if leads(t) { token_text(t).subrange(1, token_text(t).len() as int) } else { token_text(t) }
}

/// Where the scan of a token whose scanned text starts at `q` ends: before
/// an operator's trailing space.
pub open spec fn scanned_end(t: STok, q: int) -> int {
    if trails(t) { q + scanned_text(t).len() - 1 } else { q + scanned_text(t).len() }
}

proof fn lemma_op_text(t: STok)
    requires
        readable_token(t),
        token_op(t) is Some,
    ensures
        token_text(t) == " "@ + op_text(token_op(t)->Some_0) + " "@,
        scanned_text(t) =~= op_text(token_op(t)->Some_0) + " "@,
        scanned_text(t).len() >= 2,
        scanned_text(t)[scanned_text(t).len() - 1] == ' ',
        token_text(t)[0] == ' ',
        token_text(t)[token_text(t).len() - 1] == ' ',
{
    reveal_strlit(" ");
    reveal_strlit("+");
    reveal_strlit("-");
    reveal_strlit("*");
    reveal_strlit("%");
    reveal_strlit("/");
    reveal_strlit("and");
    reveal_strlit("or");
    reveal_strlit("==");
    reveal_strlit("!=");
    reveal_strlit(">");
    reveal_strlit("<");
    reveal_strlit(">=");
    reveal_strlit("<=");
    reveal_strlit("@");
    reveal_strlit("=");
}

proof fn lemma_scan_name(s: Seq<char>, q: int, n: Seq<char>)
    requires
        plain_name(n),
        0 <= q,
        q + n.len() <= s.len(),
        s.subrange(q, q + n.len()) == n,
        q + n.len() == s.len() || !is_ident_char(s[q + n.len()]),
    ensures
        scan(s, q) == Raw::Tok(STok::Ident(n), q + n.len()),
{
    assert(s[q] == s.subrange(q, q + n.len())[0]);
    assert forall|k: int| q + 1 <= k < q + 1 + (n.len() - 1) implies #[trigger] is_ident_char(s[k]) by {
        assert(s[k] == s.subrange(q, q + n.len())[k - q]);
    }
    lemma_ident_end_at(s, q + 1, n.len() - 1);
}

proof fn lemma_keyword_words()
    ensures
        keyword("and"@) == Some(STok::And),
        keyword("or"@) == Some(STok::Or),
{
    reveal_strlit("and");
    reveal_strlit("or");
    reveal_strlit("let");
    reveal_strlit("mut");
    reveal_strlit("move");
    reveal_strlit("def");
    reveal_strlit("protocol");
    reveal_strlit("struct");
    reveal_strlit("impl");
    reveal_strlit("for");
    reveal_strlit("while");
    reveal_strlit("in");
    reveal_strlit("if");
    reveal_strlit("else");
    reveal_strlit("return");
    reveal_strlit("break");
    reveal_strlit("continue");
    reveal_strlit("elif");
    assert("and"@ != "let"@) by { assert("and"@[0] != "let"@[0]); }
    assert("and"@ != "mut"@) by { assert("and"@[0] != "mut"@[0]); }
    assert("and"@ != "def"@) by { assert("and"@[0] != "def"@[0]); }
    assert("and"@ != "for"@) by { assert("and"@[0] != "for"@[0]); }
    assert("or"@ != "in"@) by { assert("or"@[0] != "in"@[0]); }
    assert("or"@ != "if"@) by { assert("or"@[0] != "if"@[0]); }
}

#[verifier::spinoff_prover]
proof fn lemma_scan_word(s: Seq<char>, q: int, t: STok)
    requires
        t == STok::And || t == STok::Or,
        0 <= q,
        q + scanned_text(t).len() <= s.len(),
        s.subrange(q, q + scanned_text(t).len()) == scanned_text(t),
    ensures
        scan(s, q) == Raw::Tok(t, scanned_end(t, q)),
{
    lemma_op_text(t);
    let w = op_text(token_op(t)->Some_0);
    let body = scanned_text(t);
    reveal_strlit("and");
    reveal_strlit("or");
    reveal_strlit(" ");
    assert forall|k: int| 0 <= k < body.len() implies s[q + k] == #[trigger] body[k] by {
        assert(s.subrange(q, q + body.len())[k] == s[q + k]);
    }
    assert forall|k: int| q + 1 <= k < q + 1 + (w.len() - 1) implies #[trigger] is_ident_char(s[k]) by {
        assert(s[q + (k - q)] == body[k - q]);
    }
    assert(s[q + w.len()] == body[w.len() as int]);
    lemma_ident_end_at(s, q + 1, w.len() - 1);
    assert(s.subrange(q, q + w.len()) =~= w);
    lemma_keyword_words();
    assert(keyword(w) == Some(t));
    assert(s[q + 0] == body[0]);
    assert(body[0] == w[0]);
    assert(is_ident_start(s[q]));
    assert(ident_end(s, q + 1) == q + w.len());
    assert(scanned_end(t, q) == q + w.len());
}

proof fn lemma_scan_binding_kw(s: Seq<char>, q: int, t: STok)
    requires
        binding_kw(t) || t == STok::Not,
        0 <= q,
        q + scanned_text(t).len() <= s.len(),
        s.subrange(q, q + scanned_text(t).len()) == scanned_text(t),
    ensures
        scan(s, q) == Raw::Tok(t, scanned_end(t, q)),
{
    reveal_strlit("let ");
    reveal_strlit("not ");
    reveal_strlit("let");
    reveal_strlit("mut ");
    reveal_strlit("mut");
    reveal_strlit("not ");
    reveal_strlit("not");
    let body = scanned_text(t);
    let w = body.subrange(0, 3);
    assert(body.len() == 4);
    assert forall|k: int| 0 <= k < body.len() implies s[q + k] == #[trigger] body[k] by {
        assert(s.subrange(q, q + body.len())[k] == s[q + k]);
    }
    assert forall|k: int| q + 1 <= k < q + 1 + 2 implies #[trigger] is_ident_char(s[k]) by {
        assert(s[q + (k - q)] == body[k - q]);
    }
    assert(s[q + 3] == body[3]);
    lemma_ident_end_at(s, q + 1, 2);
    assert(s.subrange(q, q + 3) =~= w);
    assert(s[q + 0] == body[0]);
    if t == STok::Let {
        assert(w =~= "let"@);
    } else if t == STok::Mut {
        assert(w =~= "mut"@);
        assert("mut"@ != "let"@) by {
            assert("mut"@[0] != "let"@[0]);
        }
    } else {
        assert(w =~= "not"@);
        reveal_strlit("move");
        reveal_strlit("def");
        reveal_strlit("protocol");
        reveal_strlit("struct");
        reveal_strlit("impl");
        reveal_strlit("for");
        reveal_strlit("while");
        reveal_strlit("in");
        reveal_strlit("if");
        reveal_strlit("else");
        reveal_strlit("return");
        reveal_strlit("break");
        reveal_strlit("continue");
        reveal_strlit("elif");
        reveal_strlit("and");
        reveal_strlit("or");
        assert("not"@ != "let"@) by { assert("not"@[0] != "let"@[0]); }
        assert("not"@ != "mut"@) by { assert("not"@[0] != "mut"@[0]); }
        assert("not"@ != "def"@) by { assert("not"@[0] != "def"@[0]); }
        assert("not"@ != "for"@) by { assert("not"@[0] != "for"@[0]); }
        assert("not"@ != "and"@) by { assert("not"@[0] != "and"@[0]); }
    }
}

#[verifier::spinoff_prover]
proof fn lemma_digit_char(d: nat)
    requires
        d < 10,
    ensures
        is_digit(digit_char(d)),
        digit_char(d) as int - '0' as int == d,
{
}

/// The decimal text of a number is a run of digits that reads back as it.
proof fn lemma_digits(n: nat)
    ensures
        digits(n).len() > 0,
        forall|k: int| 0 <= k < digits(n).len() ==> #[trigger] is_digit(digits(n)[k]),
        dec_value(digits(n)) == n,
    decreases n,
{
    if n < 10 {
        lemma_digit_char(n);
        let d = digits(n);
        assert(d == seq![digit_char(n)]);
        assert(d.drop_last() =~= Seq::<char>::empty());
        assert(dec_value(d.drop_last()) == 0);
        assert(d.last() == digit_char(n));
        assert(dec_value(d) == dec_value(d.drop_last()) * 10 + ((d.last() as int - '0' as int) as nat));
    } else {
        lemma_digits(n / 10);
        lemma_digit_char(n % 10);
        let d = digits(n);
        assert(d == digits(n / 10).push(digit_char(n % 10)));
        assert(d.drop_last() =~= digits(n / 10));
        assert(d.last() == digit_char(n % 10));
        assert(dec_value(d) == dec_value(d.drop_last()) * 10 + ((d.last() as int - '0' as int) as nat));
        assert(dec_value(d) == (n / 10) * 10 + n % 10);
        assert forall|k: int| 0 <= k < d.len() implies #[trigger] is_digit(d[k]) by {
            if k < d.len() - 1 {
                assert(d[k] == digits(n / 10)[k]);
            }
        }
    }
}

proof fn lemma_digits_end_at(s: Seq<char>, p: int, n: int)
    requires
        0 <= p,
        0 <= n,
        p + n <= s.len(),
        forall|k: int| p <= k < p + n ==> #[trigger] is_digit(s[k]),
        p + n == s.len() || !is_digit(s[p + n]),
    ensures
        digits_end(s, p) == p + n,
    decreases n,
{
    if n > 0 {
        lemma_digits_end_at(s, p + 1, n - 1);
    }
}

proof fn lemma_scan_int(s: Seq<char>, q: int, i: int)
    requires
        0 <= i <= i64::MAX,
        0 <= q,
        q + int_text(i).len() <= s.len(),
        s.subrange(q, q + int_text(i).len()) == int_text(i),
        ends_token(STok::Int(i), s, q + int_text(i).len()),
    ensures
        scan(s, q) == Raw::Tok(STok::Int(i), q + int_text(i).len()),
{
    let d = int_text(i);
    lemma_digits(i as nat);
    assert(d == digits(i as nat));
    assert forall|k: int| 0 <= k < d.len() implies s[q + k] == #[trigger] d[k] by {
        assert(s.subrange(q, q + d.len())[k] == s[q + k]);
    }
    assert(s[q + 0] == d[0]);
    assert(is_digit(s[q]));
    assert forall|k: int| q + 1 <= k < q + 1 + (d.len() - 1) implies #[trigger] is_digit(s[k]) by {
        assert(s[q + (k - q)] == d[k - q]);
    }
    lemma_digits_end_at(s, q + 1, d.len() - 1);
    assert(s.subrange(q, q + d.len()) =~= d);
}

proof fn lemma_scan_symbol(s: Seq<char>, q: int, t: STok)
    requires
        readable_token(t),
        !(t is Ident),
        t != STok::And && t != STok::Or && !binding_kw(t) && !(t is Int) && t != STok::Not,
        0 <= q,
        q + scanned_text(t).len() <= s.len(),
        s.subrange(q, q + scanned_text(t).len()) == scanned_text(t),
        ends_token(t, s, q + scanned_text(t).len()),
    ensures
        scan(s, q) == Raw::Tok(t, scanned_end(t, q)),
{
    let body = scanned_text(t);
    reveal_strlit("(");
    reveal_strlit(")");
    reveal_strlit("?");
    reveal_strlit("!!");
    reveal_strlit("..");
    reveal_strlit("..=");
    reveal_strlit(".");
    reveal_strlit(", ");
    if token_op(t) is Some {
        lemma_op_text(t);
    }
    assert(body.len() >= 1);
    assert(s[q] == body[0]) by {
        assert(s.subrange(q, q + body.len())[0] == s[q]);
    }
    if body.len() >= 2 {
        assert(s[q + 1] == body[1]) by {
            assert(s.subrange(q, q + body.len())[1] == s[q + 1]);
        }
    }
    reveal_strlit(" ");
    reveal_strlit("+");
    reveal_strlit("-");
    reveal_strlit("*");
    reveal_strlit("%");
    reveal_strlit("/");
    reveal_strlit("==");
    reveal_strlit("!=");
    reveal_strlit(">");
    reveal_strlit("<");
    reveal_strlit(">=");
    reveal_strlit("<=");
    reveal_strlit("@");
    reveal_strlit("=");
    reveal_strlit("?");
    reveal_strlit("!!");
    reveal_strlit("..");
    reveal_strlit("..=");
    reveal_strlit(".");
    reveal_strlit(", ");
    match t {
        STok::LParen => {},
        STok::RParen => {},
        STok::Plus => {},
        STok::Minus => {},
        STok::Star => {},
        STok::Percent => {},
        STok::Slash => {},
        STok::At => {},
        STok::Eq => {},
        STok::Ne => {},
        STok::Gt => {},
        STok::Lt => {},
        STok::Ge => {},
        STok::Le => {},
        STok::Assign => {},
        STok::Question => {},
        STok::BangBang => {},
        STok::Dot => {
            assert(body =~= seq!['.']);
            assert(s[q] == '.');
        },
        STok::Comma => {
            assert(body =~= seq![',', ' ']);
            assert(s[q] == ',');
        },
        STok::DotDot => {
            assert(body =~= seq!['.', '.']);
            assert(s[q] == '.');
            assert(s[q + 1] == '.');
            assert(scanned_end(t, q) == q + 2);
        },
        STok::DotDotEq => {
            assert(body =~= seq!['.', '.', '=']);
            assert(s[q] == '.');
            assert(s[q + 1] == '.');
            assert(s[q + 2] == '=');
        },
        _ => {},
    }
}

/// Where the scanned text of a readable token stands at `q` (followed, for a
/// name, by something that cannot continue it), the lexer's scan reads that
/// token.
proof fn lemma_scan_token(s: Seq<char>, q: int, t: STok)
    requires
        readable_token(t),
        0 <= q,
        q + scanned_text(t).len() <= s.len(),
        s.subrange(q, q + scanned_text(t).len()) == scanned_text(t),
        ends_token(t, s, q + scanned_text(t).len()),
    ensures
        scan(s, q) == Raw::Tok(t, scanned_end(t, q)),
        q < scanned_end(t, q),
        s[q] != ' ' && s[q] != '\t' && s[q] != '#',
{
    let body = scanned_text(t);
    reveal_strlit("(");
    reveal_strlit(")");
    reveal_strlit("?");
    reveal_strlit("!!");
    reveal_strlit("..");
    reveal_strlit("..=");
    reveal_strlit(".");
    reveal_strlit(", ");
    reveal_strlit("let ");
    reveal_strlit("not ");
    reveal_strlit("mut ");
    if token_op(t) is Some {
        lemma_op_text(t);
    }
    match t {
        STok::Ident(n) => lemma_scan_name(s, q, n),
        STok::Int(i) => lemma_scan_int(s, q, i),
        STok::Let => lemma_scan_binding_kw(s, q, t),
        STok::Mut => lemma_scan_binding_kw(s, q, t),
        STok::Not => lemma_scan_binding_kw(s, q, t),
        STok::And => lemma_scan_word(s, q, t),
        STok::Or => lemma_scan_word(s, q, t),
        _ => lemma_scan_symbol(s, q, t),
    }
    assert(s[q] == body[0]) by {
        assert(s.subrange(q, q + body.len())[0] == s[q]);
    }
    reveal_strlit("and");
    reveal_strlit("or");
    reveal_strlit("let ");
    reveal_strlit("not ");
    reveal_strlit("mut ");
}

/// The text of readable tokens at the lexer's position (after one space
/// when `gap` holds).
pub open spec fn text_at(st: LexState, toks: Seq<STok>, gap: bool) -> bool {
    let txt = lead(gap) + tokens_text(toks);
    &&& st.pending.len() == 0
    &&& st.stack.len() > 0
    &&& 0 <= st.pos
    &&& readable(toks)
    &&& (toks.len() > 0 ==> !trails(toks.last()))
    &&& st.pos + txt.len() <= st.src.len()
    &&& st.src.subrange(st.pos, st.pos + txt.len()) == txt
    &&& (st.pos + txt.len() == st.src.len() || ends_word(st.src[st.pos + txt.len()]))
}

/// A character that ends a name or a number before it.
pub open spec fn ends_word(c: char) -> bool {
    !is_ident_char(c) && c != '.' && c != '='
}

/// What may stand right after the text of token `t` at `k` in `s` without
/// being read into it: for a name, anything but a letter, digit or `_`; for
/// a number, also no `.` followed by a digit.
pub open spec fn ends_token(t: STok, s: Seq<char>, k: int) -> bool {
    k == s.len() || (
        (word(t) ==> !is_ident_char(s[k]))
        && (t is Int && s[k] == '.' ==> k + 1 < s.len() && !is_digit(s[k + 1]))
        && (t == STok::DotDot ==> s[k] != '=')
        && (t == STok::Dot ==> s[k] != '.')
    )
}

pub open spec fn gap_len(gap: bool) -> int {
    if gap { 1 } else { 0 }
}

/// Where the scanned text of the first token starts.
pub open spec fn token_start(st: LexState, t: STok, gap: bool) -> int {
    st.pos + gap_len(gap) + (if leads(t) { 1int } else { 0int })
}

proof fn lemma_text_chars(s: Seq<char>, pos: int, txt: Seq<char>)
    requires
        0 <= pos,
        pos + txt.len() <= s.len(),
        s.subrange(pos, pos + txt.len()) == txt,
    ensures
        forall|k: int| 0 <= k < txt.len() ==> s[pos + k] == #[trigger] txt[k],
{
    assert forall|k: int| 0 <= k < txt.len() implies s[pos + k] == #[trigger] txt[k] by {
        assert(s.subrange(pos, pos + txt.len())[k] == s[pos + k]);
    }
}

#[verifier::spinoff_prover]
proof fn lemma_first_chars(st: LexState, toks: Seq<STok>, gap: bool)
    requires
        text_at(st, toks, gap),
        toks.len() > 0,
    ensures
        readable_token(toks[0]),
        token_start(st, toks[0], gap) + scanned_text(toks[0]).len() <= st.src.len(),
        st.src.subrange(token_start(st, toks[0], gap), token_start(st, toks[0], gap) + scanned_text(toks[0]).len())
            == scanned_text(toks[0]),
        ends_token(toks[0], st.src, token_start(st, toks[0], gap) + scanned_text(toks[0]).len()),
        gap ==> st.src[st.pos] == ' ',
        leads(toks[0]) ==> st.src[st.pos + gap_len(gap)] == ' ',
{
    let s = st.src;
    let pos = st.pos;
    let t = toks[0];
    let rest = toks.subrange(1, toks.len() as int);
    assert(toks == seq![t] + rest);
    lemma_tokens_text_front(t, rest);
    let txt = lead(gap) + tokens_text(toks);
    let g = gap_len(gap);
    reveal_strlit(" ");
    assert(lead(gap).len() == g);
    lemma_text_chars(s, pos, txt);
    assert(readable_token(toks[0]));
    let is_op = leads(t);
    let tt = token_text(t);
    let q = token_start(st, t, gap);
    let body = scanned_text(t);
    assert(txt =~= lead(gap) + tt + tokens_text(rest));
    if is_op {
        lemma_op_text(t);
    }
    assert(s.subrange(q, q + body.len()) =~= body) by {
        assert forall|k: int| 0 <= k < body.len() implies s.subrange(q, q + body.len())[k] == body[k] by {
            if is_op {
                assert(txt[g + 1 + k] == tt[1 + k]);
            } else {
                assert(txt[g + k] == tt[k]);
            }
        }
    }
    if gap {
        assert(s[pos + 0] == txt[0]);
    }
    if is_op {
        assert(s[pos + g] == txt[g]);
    }
    if word(t) || t == STok::DotDot || t == STok::Dot {
        if rest.len() > 0 {
            assert(readable_token(toks[1]));
            assert(toks[1] == rest[0]);
            assert(!(word(toks[0]) && starts_word(toks[1])));
            assert(!(bad_pair(toks[0], toks[1])));
            lemma_tokens_text_front(rest[0], rest.subrange(1, rest.len() as int));
            assert(rest == seq![rest[0]] + rest.subrange(1, rest.len() as int));
            let nt = token_text(rest[0]);
            reveal_strlit("(");
            reveal_strlit(")");
            reveal_strlit("?");
            reveal_strlit("!!");
            reveal_strlit("..");
            reveal_strlit("..=");
            reveal_strlit(".");
            reveal_strlit(", ");
            if token_op(rest[0]) is Some {
                lemma_op_text(rest[0]);
            }
            reveal_strlit("let ");
            reveal_strlit("mut ");
            reveal_strlit("not ");
            if rest[0] is Int {
                lemma_digits(rest[0]->Int_0 as nat);
                assert(nt == digits(rest[0]->Int_0 as nat));
                assert(is_digit(nt[0]));
            }
            assert(nt.len() > 0);
            assert(txt[g + tt.len()] == nt[0]);
            assert(nt[0] != '=');
            assert(word(t) ==> !is_ident_char(s[pos + (g + tt.len())]));
            if t is Int && nt[0] == '.' {
                assert(nt.len() >= 2 && nt[1] == '.');
                assert(txt[g + tt.len() + 1] == nt[1]);
                assert(s[pos + (g + tt.len() + 1)] == txt[g + tt.len() + 1]);
            }
        }
    }
}

#[verifier::rlimit(100)]
#[verifier::spinoff_prover]
proof fn lemma_rest_at(st: LexState, toks: Seq<STok>, gap: bool, e: int)
    requires
        text_at(st, toks, gap),
        toks.len() > 0,
        e == scanned_end(toks[0], token_start(st, toks[0], gap)),
    ensures
        text_at(LexState { pos: e, last: (token_start(st, toks[0], gap), e), ..st }, toks.subrange(1, toks.len() as int), trails(toks[0])),
        e + (lead(trails(toks[0])) + tokens_text(toks.subrange(1, toks.len() as int))).len()
            == st.pos + (lead(gap) + tokens_text(toks)).len(),
        st.pos < e,
{
    let s = st.src;
    let pos = st.pos;
    let t = toks[0];
    let rest = toks.subrange(1, toks.len() as int);
    assert(toks == seq![t] + rest);
    lemma_tokens_text_front(t, rest);
    let txt = lead(gap) + tokens_text(toks);
    let g = gap_len(gap);
    reveal_strlit(" ");
    reveal_strlit("(");
    reveal_strlit(")");
    reveal_strlit("?");
    reveal_strlit("!!");
    reveal_strlit("..");
    reveal_strlit("..=");
    reveal_strlit(".");
    reveal_strlit(", ");
    assert(lead(gap).len() == g);
    lemma_text_chars(s, pos, txt);
    assert(readable_token(toks[0]));
    let is_op = leads(t);
    let tt = token_text(t);
    if is_op {
        lemma_op_text(t);
    }
    reveal_strlit("let ");
    reveal_strlit("not ");
    reveal_strlit("mut ");
    assert(txt =~= lead(gap) + tt + tokens_text(rest));
    let gap2 = trails(t);
    let rem = lead(gap2) + tokens_text(rest);
    assert(e - pos == g + tt.len() - (if gap2 { 1int } else { 0int }));
    if gap2 {
        assert(tt[tt.len() - 1] == ' ');
    }
    assert(rem =~= txt.subrange(e - pos, txt.len() as int));
    assert(s.subrange(e, e + rem.len()) =~= rem) by {
        assert forall|k: int| 0 <= k < rem.len() implies s.subrange(e, e + rem.len())[k] == rem[k] by {
            assert(s[pos + (e - pos + k)] == txt[e - pos + k]);
        }
    }
    if rest.len() > 0 {
        assert(rest.last() == toks.last());
    }
    assert forall|k: int| 0 <= k < rest.len() implies #[trigger] readable_token(rest[k]) by {
        assert(rest[k] == toks[k + 1]);
    }
    assert forall|k: int| 0 <= k < rest.len() - 1 implies !(word(#[trigger] rest[k]) && starts_word(rest[k + 1]))
        && !(bad_pair(rest[k], rest[k + 1])) by {
        assert(rest[k] == toks[k + 1] && rest[k + 1] == toks[k + 2]);
    }
}

/// One step of the lexer over such text hands out its first token.
#[verifier::spinoff_prover]
proof fn lemma_first_token(st: LexState, toks: Seq<STok>, gap: bool) -> (st2: LexState)
    requires
        text_at(st, toks, gap),
        toks.len() > 0,
    ensures
        st2.src == st.src,
        st2.stack == st.stack,
        st2.pending.len() == 0,
        st2.eof == st.eof,
        step(st) == (st2, Some(Ok::<(STok, int, int), ()>((toks[0], st2.last.0, st2.pos)))),
        progressed(st, st2),
        st2.pos <= st.src.len(),
        text_at(st2, toks.subrange(1, toks.len() as int), trails(toks[0])),
        st2.pos + (lead(trails(toks[0])) + tokens_text(toks.subrange(1, toks.len() as int))).len()
            == st.pos + (lead(gap) + tokens_text(toks)).len(),
{
    let s = st.src;
    let pos = st.pos;
    let t = toks[0];
    let q = token_start(st, t, gap);
    lemma_first_chars(st, toks, gap);
    lemma_scan_token(s, q, t);
    let e = scanned_end(t, q);
    lemma_rest_at(st, toks, gap, e);
    assert(skip_trivia(s, q) == q);
    if leads(t) {
        assert(skip_trivia(s, pos + gap_len(gap)) == q);
    }
    assert(skip_trivia(s, pos + gap_len(gap)) == q);
    assert(skip_trivia(s, pos) == q);
    LexState { pos: e, last: (q, e), ..st }
}

/// Reading the text of readable tokens: the lexer hands out exactly those
/// tokens and then goes on as from the state `after`, which stands where
/// the text ends.
proof fn lemma_read_tokens(st: LexState, toks: Seq<STok>, gap: bool) -> (after: LexState)
    requires
        text_at(st, toks, gap),
    ensures
        after.src == st.src,
        after.stack == st.stack,
        after.pending.len() == 0,
        after.eof == st.eof,
        toks.len() > 0 ==> after.pos == st.pos + (lead(gap) + tokens_text(toks)).len(),
        toks.len() == 0 ==> after == st,
        match run(after) {
            Ok(b) => run(st) is Ok && run(st)->Ok_0.len() == toks.len() + b.len()
                && (forall|k: int| 0 <= k < toks.len() ==> #[trigger] run(st)->Ok_0[k].0 == toks[k])
                && run(st)->Ok_0.subrange(toks.len() as int, run(st)->Ok_0.len() as int) == b,
            Err(x) => run(st) == Err::<Seq<(STok, int, int)>, (int, int)>(x),
        },
    decreases toks.len(),
{
    if toks.len() == 0 {
        return st;
    }
    let t = toks[0];
    let rest = toks.subrange(1, toks.len() as int);
    let st2 = lemma_first_token(st, toks, gap);
    let q = st2.last.0;
    let e = st2.pos;
    let after = lemma_read_tokens(st2, rest, trails(t));
    match run(st2) {
        Ok(b2) => {
            let a = seq![(t, q, e)] + b2;
            assert(run(st) == Ok::<Seq<(STok, int, int)>, (int, int)>(a));
            match run(after) {
                Ok(b) => {
                    assert forall|k: int| 0 <= k < toks.len() implies #[trigger] a[k].0 == toks[k] by {
                        if k > 0 {
                            assert(a[k] == b2[k - 1]);
                        }
                    }
                    assert(a.subrange(toks.len() as int, a.len() as int) =~= b2.subrange(rest.len() as int, b2.len() as int));
                },
                Err(x) => {},
            }
        },
        Err(x) => {},
    }
    after
}

/// The formatter's text of a tree of plain names, integers, operators, `not`, ranges, members,
/// calls, `?` and `!!` reads back as that tree: the lexer turns the text into the tree's tokens,
/// and the expression parser reads all of them and gives the tree back. So formatting never changes
/// what such an expression parses to; `a - (b - c)` keeps its parentheses.
#[verifier::rlimit(100)]
#[verifier::spinoff_prover]
pub proof fn law_formatted_expression_reads_back(e: SExpr)
    requires
        operator_tree(e),
        plain_names(e),
    ensures
        spec_tokenize(fexpr(e, 0, true)) is Ok,
        spec_assign(spec_tokenize(fexpr(e, 0, true))->Ok_0, 0)
            == parsed(spec_tokenize(fexpr(e, 0, true))->Ok_0.len() as int, e),
{
    let toks = tree_tokens(e, 0);
    let src = fexpr(e, 0, true);
    lemma_text(e, 0, true);
    lemma_tree_facts(e, 0);
    lemma_tree_readable(e, 0);
    let st = initial(src);
    assert(lead(false) + tokens_text(toks) =~= src);
    assert(src.subrange(0, src.len() as int) =~= src);
    let after = lemma_read_tokens(st, toks, false);
    assert(after.pos == src.len());
    assert(skip_trivia(src, src.len() as int) == src.len());
    assert(scan(src, src.len() as int) == Raw::Eof);
    assert(run(after) == Ok::<Seq<(STok, int, int)>, (int, int)>(seq![]));
    let ts = run(st)->Ok_0;
    assert(tokens_at(ts, 0, toks)) by {
        assert forall|k: int| 0 <= k < toks.len() implies #[trigger] ts[0 + k].0 == toks[k] by {
            assert(ts[k].0 == toks[k]);
        }
    }
    law_operator_trees_read_back(e, ts, 0);
}

// ---------------------------------------------------------------------------
// Programs of binding and expression lines.
// ---------------------------------------------------------------------------

/// The keyword, name and value of a binding line `let name = value` or
/// `mut name = value` (a plain name pattern, no annotation).
pub open spec fn line_parts(st: SStmt) -> Option<(STok, Seq<char>, SExpr)> {
    match st.kind {
        SKind::Let(SPattern::Name(x), None, v) => Some((STok::Let, x, v)),
        SKind::Mut(SPattern::Name(x), None, v) => Some((STok::Mut, x, v)),
        _ => None,
    }
}

/// A line the read-back proofs cover: a binding line with a plain name and a value made of plain
/// names, integers, operators, `not`, ranges, members, calls, `?` and `!!`, or such an expression
/// on a line of its own that starts with a name.
pub open spec fn plain_line(st: SStmt) -> bool {
    match st.kind {
        SKind::Expr(e) => operator_tree(e) && plain_names(e) && tree_tokens(e, 0)[0] is Ident,
        _ => match line_parts(st) {
            Some((_, x, v)) => plain_name(x) && operator_tree(v) && plain_names(v),
            None => false,
        },
    }
}

/// The tokens that can start such a line.
pub open spec fn starts_line(t: STok) -> bool {
    binding_kw(t) || t is Ident
}

pub open spec fn plain_lines(stmts: Seq<SStmt>) -> bool {
    forall|k: int| 0 <= k < stmts.len() ==> #[trigger] plain_line(stmts[k])
}

/// The tokens of a line.
pub open spec fn line_tokens(st: SStmt) -> Seq<STok> {
    match st.kind {
        SKind::Expr(e) => tree_tokens(e, 0),
        _ => match line_parts(st) {
            Some((kw, x, v)) => seq![kw, STok::Ident(x), STok::Assign] + tree_tokens(v, 0),
            None => seq![],
        },
    }
}

#[verifier::spinoff_prover]
proof fn lemma_head_text(kw: STok, x: Seq<char>, v: SExpr)
    requires
        binding_kw(kw),
        plain_name(x),
        operator_tree(v),
        plain_names(v),
    ensures
        tokens_text(seq![kw, STok::Ident(x), STok::Assign] + tree_tokens(v, 0))
            == token_text(kw) + x + " = "@ + fexpr(v, 0, true),
        readable(seq![kw, STok::Ident(x), STok::Assign] + tree_tokens(v, 0)),
        !trails((seq![kw, STok::Ident(x), STok::Assign] + tree_tokens(v, 0)).last()),
{
    let tree = tree_tokens(v, 0);
    lemma_text(v, 0, true);
    lemma_tree_facts(v, 0);
    lemma_tree_readable(v, 0);
    let head = seq![kw, STok::Ident(x), STok::Assign];
    assert(head =~= seq![kw] + seq![STok::Ident(x)] + seq![STok::Assign]);
    lemma_tokens_text_concat(head, tree);
    lemma_tokens_text_concat(seq![kw] + seq![STok::Ident(x)], seq![STok::Assign]);
    lemma_tokens_text_concat(seq![kw], seq![STok::Ident(x)]);
    lemma_tokens_text_one(kw);
    lemma_tokens_text_one(STok::Ident(x));
    lemma_tokens_text_one(STok::Assign);
    reveal_strlit(" = ");
    reveal_strlit(" ");
    reveal_strlit("=");
    assert(token_text(STok::Assign) =~= " = "@);
    assert(tokens_text(head + tree) =~= token_text(kw) + x + " = "@ + fexpr(v, 0, true));
    lemma_single_readable(kw);
    lemma_single_readable(STok::Ident(x));
    lemma_single_readable(STok::Assign);
    lemma_readable_concat(seq![kw], seq![STok::Ident(x)]);
    lemma_readable_concat(seq![kw] + seq![STok::Ident(x)], seq![STok::Assign]);
    assert(readable(head));
    lemma_readable_concat(head, tree);
    assert((head + tree).last() == tree.last());
}

#[verifier::spinoff_prover]
proof fn lemma_line_text(st: SStmt)
    requires
        plain_line(st),
    ensures
        fstmt(st, ""@) == tokens_text(line_tokens(st)) + "\n"@,
        readable(line_tokens(st)),
        !trails(line_tokens(st).last()),
        line_tokens(st).len() > 0,
        starts_line(line_tokens(st)[0]),
        is_ident_start(token_text(line_tokens(st)[0])[0]),
{
    reveal_strlit("let ");
    reveal_strlit("not ");
    reveal_strlit("mut ");
    reveal_strlit("");
    if let SKind::Expr(e) = st.kind {
        lemma_text(e, 0, true);
        lemma_tree_facts(e, 0);
        lemma_tree_readable(e, 0);
        let toks = tree_tokens(e, 0);
        assert(readable_token(toks[0]));
        assert(fstmt(st, ""@) =~= ""@ + fexpr(e, 0, true) + "\n"@);
        return;
    }
    match line_parts(st) {
        Some((kw, x, v)) => {
            lemma_head_text(kw, x, v);
            assert(pattern_text(SPattern::Name(x)) == x);
            assert(type_suffix(None) =~= ""@);
            if kw == STok::Let {
                assert(fstmt(st, ""@) =~= ""@ + "let "@ + x + ""@ + " = "@ + fexpr(v, 0, true) + "\n"@);
            } else {
                assert(fstmt(st, ""@) =~= ""@ + "mut "@ + x + ""@ + " = "@ + fexpr(v, 0, true) + "\n"@);
            }
            assert(fstmt(st, ""@) =~= tokens_text(line_tokens(st)) + "\n"@);
        },
        None => {},
    }
}

/// The tokens of lines, one after the other.
pub open spec fn lines_tokens(stmts: Seq<SStmt>) -> Seq<STok>
    decreases stmts.len(),
{
    if stmts.len() == 0 { seq![] } else { line_tokens(stmts[0]) + lines_tokens(stmts.drop_first()) }
}

proof fn lemma_fstmts_front(stmts: Seq<SStmt>, ind: Seq<char>)
    requires
        stmts.len() > 0,
    ensures
        fstmts(stmts, ind) == fstmt(stmts[0], ind) + fstmts(stmts.drop_first(), ind),
    decreases stmts.len(),
{
    if stmts.len() == 1 {
        assert(stmts.subrange(0, 0) =~= Seq::<SStmt>::empty());
        assert(stmts.drop_first() =~= Seq::<SStmt>::empty());
        assert(fstmts(stmts.subrange(0, 0), ind) =~= seq![]);
        assert(fstmts(stmts, ind) =~= fstmt(stmts[0], ind));
        assert(fstmts(stmts.drop_first(), ind) =~= seq![]);
    } else {
        let init = stmts.subrange(0, stmts.len() - 1);
        lemma_fstmts_front(init, ind);
        assert(init.drop_first() =~= stmts.drop_first().subrange(0, stmts.drop_first().len() - 1));
        assert(stmts.drop_first()[stmts.drop_first().len() - 1] == stmts[stmts.len() - 1]);
        assert(fstmts(stmts, ind) =~= fstmt(stmts[0], ind) + fstmts(stmts.drop_first(), ind));
    }
}

/// A line of the fragment starts with a letter or `_`.
#[verifier::spinoff_prover]
proof fn lemma_line_start(s: Seq<char>, e: int, rest: Seq<SStmt>)
    requires
        plain_lines(rest),
        rest.len() > 0,
        0 <= e <= s.len(),
        s.subrange(e, s.len() as int) == fstmts(rest, ""@),
    ensures
        e < s.len(),
        is_ident_start(s[e]),
{
    let rest_text = fstmts(rest, ""@);
    assert(plain_line(rest[0]));
    lemma_fstmts_front(rest, ""@);
    lemma_line_text(rest[0]);
    let toks1 = line_tokens(rest[0]);
    reveal_strlit("\n");
    reveal_strlit("let ");
    reveal_strlit("not ");
    reveal_strlit("mut ");
    lemma_tokens_text_front(toks1[0], toks1.drop_first());
    assert(toks1 =~= seq![toks1[0]] + toks1.drop_first());
    assert(tokens_text(toks1) =~= token_text(toks1[0]) + tokens_text(toks1.drop_first()));
    assert(readable_token(toks1[0]));
    assert(token_text(toks1[0]).len() > 0);
    assert(rest_text.len() > 0);
    assert(tokens_text(toks1)[0] == token_text(toks1[0])[0]);
    assert(rest_text =~= tokens_text(toks1) + "\n"@ + fstmts(rest.drop_first(), ""@));
    assert(rest_text[0] == tokens_text(toks1)[0]);
    assert(s[e] == rest_text[0]) by {
        assert(s.subrange(e, s.len() as int)[0] == s[e]);
    }
}

/// The lexer over the text of lines from the start of a line hands out
/// the lines' tokens and nothing more.
#[verifier::rlimit(100)]
#[verifier::spinoff_prover]
proof fn lemma_lex_lines(st: LexState, stmts: Seq<SStmt>)
    requires
        plain_lines(stmts),
        st.pending.len() == 0,
        st.stack == seq![0usize],
        !st.eof,
        0 <= st.pos <= st.src.len(),
        st.src.subrange(st.pos, st.src.len() as int) == fstmts(stmts, ""@),
    ensures
        run(st) is Ok,
        run(st)->Ok_0.len() == lines_tokens(stmts).len(),
        forall|k: int| 0 <= k < lines_tokens(stmts).len() ==> #[trigger] run(st)->Ok_0[k].0 == lines_tokens(stmts)[k],
    decreases stmts.len(),
{
    let s = st.src;
    if stmts.len() == 0 {
        assert(fstmts(stmts, ""@) =~= seq![]);
        assert(st.pos == s.len());
        assert(skip_trivia(s, st.pos) == st.pos);
        assert(scan(s, st.pos) == Raw::Eof);
        assert(run(st) == Ok::<Seq<(STok, int, int)>, (int, int)>(seq![]));
        return;
    }
    let st0 = stmts[0];
    let rest = stmts.drop_first();
    assert(plain_line(stmts[0]));
    assert forall|k: int| 0 <= k < rest.len() implies #[trigger] plain_line(rest[k]) by {
        assert(rest[k] == stmts[k + 1]);
    }
    lemma_fstmts_front(stmts, ""@);
    lemma_line_text(st0);
    let toks = line_tokens(st0);
    let line = tokens_text(toks);
    let text = fstmts(stmts, ""@);
    assert(text =~= line + "\n"@ + fstmts(rest, ""@));
    reveal_strlit("\n");
    assert(s.subrange(st.pos, st.pos + text.len()) =~= s.subrange(st.pos, s.len() as int));
    lemma_text_chars(s, st.pos, text);
    let nl = st.pos + line.len();
    assert(s[nl] == text[line.len() as int]);
    assert(s[nl] == '\n');
    assert(lead(false) + line =~= line);
    assert(s.subrange(st.pos, st.pos + line.len()) =~= line) by {
        assert forall|k: int| 0 <= k < line.len() implies s.subrange(st.pos, st.pos + line.len())[k] == line[k] by {
            assert(s[st.pos + k] == text[k]);
        }
    }
    let after = lemma_read_tokens(st, toks, false);
    assert(after.pos == nl);
    // The line break.
    let e = nl + 1;
    assert(skip_trivia(s, nl) == nl);
    let rest_text = fstmts(rest, ""@);
    assert(s.subrange(e, s.len() as int) =~= rest_text) by {
        assert forall|k: int| 0 <= k < rest_text.len() implies s.subrange(e, s.len() as int)[k] == rest_text[k] by {
            assert(s[st.pos + (line.len() + 1 + k)] == text[line.len() + 1 + k]);
        }
    }
    let st1 = LexState { pos: e, last: (nl, e), ..after };
    if rest.len() == 0 {
        assert(e == s.len());
        assert(indent_end(s, e, 0) == (e, 0int));
        assert(scan(s, nl) == Raw::Newline(0, e));
        assert(skip_trivia(s, e) == e);
        assert(scan(s, e) == Raw::Eof);
        assert(is_blank_follow(s, e));
        assert(step(st1).1 is None);
        assert(step(after).1 is None);
        assert(run(after) == Ok::<Seq<(STok, int, int)>, (int, int)>(seq![]));
        assert(lines_tokens(rest) =~= seq![]);
        assert(lines_tokens(stmts) =~= toks);
    } else {
        lemma_line_start(s, e, rest);
        assert(indent_end(s, e, 0) == (e, 0int));
        assert(scan(s, nl) == Raw::Newline(0, e));
        assert(skip_trivia(s, e) == e);
        assert(!is_blank_follow(s, e));
        lemma_lex_lines(st1, rest);
        assert(step(after) == step(st1));
        lemma_step(st1);
        assert(run(after) == run(st1));
        assert(lines_tokens(stmts) == toks + lines_tokens(rest));
    }
    let all = lines_tokens(stmts);
    assert(all =~= toks + lines_tokens(rest));
    let out = run(st)->Ok_0;
    let b = run(after)->Ok_0;
    assert(out.subrange(toks.len() as int, out.len() as int) == b);
    assert forall|k: int| 0 <= k < all.len() implies #[trigger] out[k].0 == all[k] by {
        if k >= toks.len() {
            assert(out[k] == out.subrange(toks.len() as int, out.len() as int)[k - toks.len()]);
            assert(all[k] == lines_tokens(rest)[k - toks.len()]);
        }
    }
}

/// The statement parser reads one line from its tokens, when what follows
/// them is nothing or another line.
#[verifier::spinoff_prover]
#[verifier::rlimit(100)]
proof fn lemma_parse_line(ts: Seq<(STok, int, int)>, p: int, st0: SStmt)
    requires
        plain_line(st0),
        tokens_at(ts, p, line_tokens(st0)),
        p + line_tokens(st0).len() == ts.len()
            || starts_line(ts[p + line_tokens(st0).len()].0),
    ensures
        spec_statement_kind(ts, p) == Ok::<(int, SKind), int>((p + line_tokens(st0).len(), st0.kind)),
{
    lemma_line_text(st0);
    let toks = line_tokens(st0);
    if let SKind::Expr(e) = st0.kind {
        law_operator_trees_read_back(e, ts, p);
        assert(ts[p + 0].0 == toks[0]);
        assert(ts[p].0 is Ident);
        return;
    }
    match line_parts(st0) {
        Some((kw, x, v)) => {
            let tree = tree_tokens(v, 0);
            let head = seq![kw, STok::Ident(x), STok::Assign];
            lemma_tokens_at_split(ts, p, head, tree);
            assert(ts[p + 0].0 == head[0]);
            assert(ts[p + 1].0 == head[1]);
            assert(ts[p + 2].0 == head[2]);
            let q = p + toks.len();
            law_operator_trees_read_back(v, ts, p + 3);
            assert(spec_pattern(ts, p + 1) == Ok::<(int, SPattern), int>((p + 2, SPattern::Name(x))));
            assert(spec_opt_annotation(ts, p + 2, STok::Colon) == Ok::<(int, Option<SType>), int>((p + 2, None)));
            assert(spec_binding(ts, p, kw) == Ok::<(int, (SPattern, Option<SType>, SExpr)), int>((q, (SPattern::Name(x), None, v))));
            if kw == STok::Mut {
                assert(spec_binding(ts, p, STok::Let) is Err);
            }
        },
        None => {},
    }
}

/// The parser over the tokens of lines gives back the lines, apart
/// from their spans.
#[verifier::spinoff_prover]
#[verifier::rlimit(100)]
proof fn lemma_parse_lines(ts: Seq<(STok, int, int)>, p: int, acc: Seq<SStmt>, stmts: Seq<SStmt>)
    requires
        plain_lines(stmts),
        tokens_at(ts, p, lines_tokens(stmts)),
        p + lines_tokens(stmts).len() == ts.len(),
    ensures
        spec_program_from(ts, p, acc) is Ok,
        spec_program_from(ts, p, acc)->Ok_0.len() == acc.len() + stmts.len(),
        forall|k: int| 0 <= k < acc.len() ==> #[trigger] spec_program_from(ts, p, acc)->Ok_0[k] == acc[k],
        forall|k: int| 0 <= k < stmts.len() ==> #[trigger] spec_program_from(ts, p, acc)->Ok_0[acc.len() + k].kind == stmts[k].kind,
    decreases stmts.len(),
{
    if stmts.len() == 0 {
        return;
    }
    let st0 = stmts[0];
    let rest = stmts.drop_first();
    assert(plain_line(stmts[0]));
    assert forall|k: int| 0 <= k < rest.len() implies #[trigger] plain_line(rest[k]) by {
        assert(rest[k] == stmts[k + 1]);
    }
    lemma_line_text(st0);
    let toks = line_tokens(st0);
    assert(lines_tokens(stmts) == toks + lines_tokens(rest));
    lemma_tokens_at_split(ts, p, toks, lines_tokens(rest));
    let q = p + toks.len();
    if rest.len() > 0 {
        lemma_line_text(rest[0]);
        assert(starts_line(lines_tokens(rest)[0]));
        assert(ts[q + 0].0 == lines_tokens(rest)[0]);
    }
    lemma_parse_line(ts, p, st0);
    assert(ts[p + 0].0 == toks[0]);
    let parsed = SStmt { kind: st0.kind, start: start_of(ts, p) as usize, end: end_before(ts, p, q) as usize };
    assert(spec_statement(ts, p) == Ok::<(int, SStmt), int>((q, parsed)));
    lemma_parse_lines(ts, q, acc.push(parsed), rest);
    let r = spec_program_from(ts, q, acc.push(parsed))->Ok_0;
    assert(spec_program_from(ts, p, acc) == spec_program_from(ts, q, acc.push(parsed)));
    assert forall|k: int| 0 <= k < acc.len() implies #[trigger] r[k] == acc[k] by {
        assert(r[k] == acc.push(parsed)[k]);
    }
    assert forall|k: int| 0 <= k < stmts.len() implies #[trigger] r[acc.len() + k].kind == stmts[k].kind by {
        if k == 0 {
            assert(r[acc.len() as int] == acc.push(parsed)[acc.len() as int]);
        } else {
            assert(r[acc.push(parsed).len() + (k - 1)].kind == rest[k - 1].kind);
            assert(rest[k - 1] == stmts[k]);
        }
    }
}

proof fn lemma_unspanned_plain(a: Seq<SStmt>, b: Seq<SStmt>)
    requires
        plain_lines(b),
        a.len() == b.len(),
        forall|k: int| 0 <= k < a.len() ==> #[trigger] a[k].kind == b[k].kind,
    ensures
        unspanned_all(a) == unspanned_all(b),
    decreases a.len(),
{
    if a.len() > 0 {
        let n = a.len() - 1;
        assert(plain_lines(b.subrange(0, n))) by {
            assert forall|k: int| 0 <= k < n implies #[trigger] plain_line(b.subrange(0, n)[k]) by {
                assert(b.subrange(0, n)[k] == b[k]);
            }
        }
        assert forall|k: int| 0 <= k < n implies #[trigger] a.subrange(0, n)[k].kind == b.subrange(0, n)[k].kind by {
            assert(a.subrange(0, n)[k] == a[k] && b.subrange(0, n)[k] == b[k]);
        }
        lemma_unspanned_plain(a.subrange(0, n), b.subrange(0, n));
        assert(plain_line(b[n]));
        assert(a[n].kind == b[n].kind);
        assert(unspanned(a[n]) == unspanned(b[n]));
    }
}

/// A program of lines `let name = value`, `mut name = value` and `value` (the last starting with a
/// name, such as `x = y + z`), with plain names and values built from plain names, integers,
/// operators, `not`, ranges, members, calls, `?` and `!!`, reads back from its formatted text: the
/// text lexes, the tokens parse, the program parsed is the one formatted apart from statement
/// spans, and formatting it again gives the same text.
pub proof fn law_formatted_lines_read_back(stmts: Seq<SStmt>)
    requires
        plain_lines(stmts),
    ensures
        spec_tokenize(fstmts(stmts, ""@)) is Ok,
        spec_parse_program(spec_tokenize(fstmts(stmts, ""@))->Ok_0) is Ok,
        unspanned_all(spec_parse_program(spec_tokenize(fstmts(stmts, ""@))->Ok_0)->Ok_0) == unspanned_all(stmts),
        fstmts(spec_parse_program(spec_tokenize(fstmts(stmts, ""@))->Ok_0)->Ok_0, ""@) == fstmts(stmts, ""@),
{
    let src = fstmts(stmts, ""@);
    let st = initial(src);
    assert(src.subrange(0, src.len() as int) =~= src);
    lemma_lex_lines(st, stmts);
    let ts = run(st)->Ok_0;
    assert(tokens_at(ts, 0, lines_tokens(stmts))) by {
        assert forall|k: int| 0 <= k < lines_tokens(stmts).len() implies #[trigger] ts[0 + k].0 == lines_tokens(stmts)[k] by {
            assert(ts[k].0 == lines_tokens(stmts)[k]);
        }
    }
    lemma_parse_lines(ts, 0, seq![], stmts);
    let parsed = spec_parse_program(ts)->Ok_0;
    assert forall|k: int| 0 <= k < parsed.len() implies #[trigger] parsed[k].kind == stmts[k].kind by {
        assert(parsed[0 + k].kind == stmts[k].kind);
    }
    lemma_unspanned_plain(parsed, stmts);
    law_format_ignores_spans(parsed, stmts, ""@);
}

} // verus!
