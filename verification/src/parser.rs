//! The recursive-descent parser from tokens to a `Program`.
//!
//! Each parsing function takes the token list and a position, and returns the
//! position after what it read with the node, or the position where parsing
//! failed. The `spec_*` functions state the grammar over token models; every
//! executable parser returns exactly what its spec function says.
//!
//! Besides the base language, the grammar reads `|params| body` lambdas
//! (see the README's section on syntax beyond the base language).
//!
//! Precedence, loosest first: assignment (right-associative), `or`, `and`,
//! `not`, comparisons, ranges, `+ -`, `* / % @`, prefix forms, postfix forms.
use vstd::prelude::*;
use crate::ast::{
    BinaryOp, EnumVariant, Expression, ImportItem, Literal, Param, Pattern, Program, SExpr, SImport,
    SKind, SLit, SParam, SPattern, SStmt, SType, SVariant, Statement, StatementKind, Type,
    arms_view, expr_view, exprs_view, import_view, lemma_empty_views, lemma_push_views,
    opt_str_view, opt_type_view, pairs_view, param_view, params_view, pattern_view,
    patterns_view, stmt_view, stmts_view, type_view, types_view, variant_view, kind_view,
};
use crate::lexer::{STok, Token, TokenSpan, keyword, ts_seq_view, tok_view, ts_view};
use crate::text::{int_text, int_to_text, push_char};
pub use crate::statements::parse_program;

verus! {

/// A parse result: the position after the node and the node, or the position
/// of the token where parsing failed.
pub type PR<T> = Result<(int, T), int>;

/// Where parsing a program failed: the index of the token the failing rule
/// stopped at (the token count when it ran out of tokens).
#[derive(Debug, PartialEq)]
pub struct ParseError {
    pub position: usize,
}

pub open spec fn tk(ts: Seq<(STok, int, int)>, p: int) -> Option<STok> {
    if 0 <= p < ts.len() { Some(ts[p].0) } else { None }
}

pub open spec fn is_tok(ts: Seq<(STok, int, int)>, p: int, t: STok) -> bool {
    tk(ts, p) == Some(t)
}

pub open spec fn ident_at(ts: Seq<(STok, int, int)>, p: int) -> Option<Seq<char>> {
    match tk(ts, p) {
        Some(STok::Ident(n)) => Some(n),
        _ => None,
    }
}

/// Negation of an integer literal, wrapping at `i64::MIN` as Rust's release
/// arithmetic does.
pub open spec fn neg_int(i: int) -> int {
    if i == i64::MIN as int { i } else { -i }
}

/// What a unary minus makes of an operand: literals are negated in place,
/// anything else becomes `0 - operand`.
pub open spec fn negated(e: SExpr) -> SExpr {
    match e {
        SExpr::Lit(SLit::Int(i)) => SExpr::Lit(SLit::Int(neg_int(i))),
        SExpr::Lit(SLit::Float(f)) => SExpr::Lit(SLit::Float(neg_float(f))),
        _ => SExpr::Bin(Box::new(SExpr::Lit(SLit::Int(0))), BinaryOp::Sub, Box::new(e)),
    }
}

/// Negation of a float literal's text.
pub open spec fn neg_float(f: Seq<char>) -> Seq<char> {
    if f.len() > 0 && f[0] == '-' { f.drop_first() } else { seq!['-'] + f }
}

// ---------------------------------------------------------------------------
// Types.
// ---------------------------------------------------------------------------

/// `&T`, `~T`, `(T, U)`, `Name` or `Name[T, U]`.
pub open spec fn spec_type(ts: Seq<(STok, int, int)>, p: int) -> PR<SType>
    decreases ts.len() - p, 0int,
{
    if is_tok(ts, p, STok::Ampersand) {
        match spec_type(ts, p + 1) {
            Ok((q, t)) => Ok((q, SType::SharedRef(Box::new(t)))),
            Err(e) => Err(e),
        }
    } else if is_tok(ts, p, STok::Tilde) {
        match spec_type(ts, p + 1) {
            Ok((q, t)) => Ok((q, SType::UniqueRef(Box::new(t)))),
            Err(e) => Err(e),
        }
    } else if is_tok(ts, p, STok::LParen) {
        let (q, tys) = spec_type_list(ts, p + 1, seq![]);
        if is_tok(ts, q, STok::RParen) { Ok((q + 1, SType::Tuple(tys))) } else { Err(q) }
    } else {
        match ident_at(ts, p) {
            None => Err(p),
            Some(name) => {
                if is_tok(ts, p + 1, STok::LBracket) {
                    let (q, tys) = spec_type_list(ts, p + 2, seq![]);
                    if is_tok(ts, q, STok::RBracket) {
                        Ok((q + 1, SType::Generic(name, tys)))
                    } else {
                        Err(q)
                    }
                } else {
                    Ok((p + 1, SType::Simple(name)))
                }
            },
        }
    }
}

/// Types separated by commas, as many as parse; a comma is consumed even when
/// no type follows it.
pub open spec fn spec_type_list(ts: Seq<(STok, int, int)>, p: int, acc: Seq<SType>) -> (int, Seq<SType>)
    decreases ts.len() - p, 1int,
{
    match spec_type(ts, p) {
        Err(_) => (p, acc),
        Ok((q, t)) => {
            if is_tok(ts, q, STok::Comma) && q >= p {
                spec_type_list(ts, q + 1, acc.push(t))
            } else {
                (q, acc.push(t))
            }
        },
    }
}

// ---------------------------------------------------------------------------
// Expressions.
// ---------------------------------------------------------------------------

/// The operator of binary level `lvl` that token `t` spells: 5 `or`, 4 `and`,
/// 3 comparisons, 2 `+ -`, 1 `* / % @`.
pub open spec fn binop_of(lvl: int, t: STok) -> Option<BinaryOp> {
    if lvl == 5 {
        if t == STok::Or { Some(BinaryOp::Or) } else { None }
    } else if lvl == 4 {
        if t == STok::And { Some(BinaryOp::And) } else { None }
    } else if lvl == 3 {
        match t {
            STok::Eq => Some(BinaryOp::Eq),
            STok::Ne => Some(BinaryOp::Ne),
            STok::Gt => Some(BinaryOp::Gt),
            STok::Lt => Some(BinaryOp::Lt),
            STok::Ge => Some(BinaryOp::Ge),
            STok::Le => Some(BinaryOp::Le),
            _ => None,
        }
    } else if lvl == 2 {
        match t {
            STok::Plus => Some(BinaryOp::Add),
            STok::Minus => Some(BinaryOp::Sub),
            _ => None,
        }
    } else {
        match t {
            STok::Star => Some(BinaryOp::Mul),
            STok::Slash => Some(BinaryOp::Div),
            STok::Percent => Some(BinaryOp::Mod),
            STok::At => Some(BinaryOp::MatMul),
            _ => None,
        }
    }
}

pub open spec fn rank(lvl: int) -> int {
    if lvl == 5 { 16 } else if lvl == 4 { 14 } else if lvl == 3 { 10 } else if lvl == 2 { 6 } else { 4 }
}

/// `lhs = rhs`, right-associative, or the `or` level.
pub open spec fn spec_assign(ts: Seq<(STok, int, int)>, p: int) -> PR<SExpr>
    decreases ts.len() - p, 18int,
{
    match spec_binary(ts, p, 5) {
        Err(e) => Err(e),
        Ok((q, l)) => {
            if is_tok(ts, q, STok::Assign) && q >= p {
                match spec_assign(ts, q + 1) {
                    Ok((r, rt)) => Ok((r, SExpr::Bin(Box::new(l), BinaryOp::Assign, Box::new(rt)))),
                    Err(e) => Err(e),
                }
            } else {
                Ok((q, l))
            }
        },
    }
}

/// The operand of binary level `lvl`.
pub open spec fn spec_operand(ts: Seq<(STok, int, int)>, p: int, lvl: int) -> PR<SExpr>
    decreases ts.len() - p, rank(lvl) - 1,
{
    if lvl == 5 {
        spec_binary(ts, p, 4)
    } else if lvl == 4 {
        spec_not(ts, p)
    } else if lvl == 3 {
        spec_range(ts, p)
    } else if lvl == 2 {
        spec_binary(ts, p, 1)
    } else {
        spec_primary(ts, p)
    }
}

/// A left-associative chain of level-`lvl` operators.
pub open spec fn spec_binary(ts: Seq<(STok, int, int)>, p: int, lvl: int) -> PR<SExpr>
    decreases ts.len() - p, rank(lvl),
{
    if lvl < 1 || lvl > 5 {
        Err(p)
    } else {
        match spec_operand(ts, p, lvl) {
            Err(e) => Err(e),
            Ok((q, l)) => if p < q <= ts.len() { spec_binary_rest(ts, q, lvl, l) } else { Ok((q, l)) },
        }
    }
}

pub open spec fn spec_binary_rest(ts: Seq<(STok, int, int)>, p: int, lvl: int, left: SExpr) -> PR<SExpr>
    decreases ts.len() - p, rank(lvl),
{
    if lvl < 1 || lvl > 5 || p < 0 || p >= ts.len() {
        Ok((p, left))
    } else {
        match binop_of(lvl, ts[p].0) {
            None => Ok((p, left)),
            Some(op) => match spec_operand(ts, p + 1, lvl) {
                Err(e) => Err(e),
                Ok((q, r)) => {
                    let e = SExpr::Bin(Box::new(left), op, Box::new(r));
                    if p < q <= ts.len() { spec_binary_rest(ts, q, lvl, e) } else { Ok((q, e)) }
                },
            },
        }
    }
}

/// `not x` or a comparison chain.
pub open spec fn spec_not(ts: Seq<(STok, int, int)>, p: int) -> PR<SExpr>
    decreases ts.len() - p, 12int,
{
    if is_tok(ts, p, STok::Not) {
        match spec_not(ts, p + 1) {
            Ok((q, e)) => Ok((q, SExpr::Not(Box::new(e)))),
            Err(e) => Err(e),
        }
    } else {
        spec_binary(ts, p, 3)
    }
}

/// `a..b`, `a..=b`, or an additive chain.
pub open spec fn spec_range(ts: Seq<(STok, int, int)>, p: int) -> PR<SExpr>
    decreases ts.len() - p, 8int,
{
    match spec_binary(ts, p, 2) {
        Err(e) => Err(e),
        Ok((q, l)) => {
            if (is_tok(ts, q, STok::DotDot) || is_tok(ts, q, STok::DotDotEq)) && q >= p {
                let inclusive = is_tok(ts, q, STok::DotDotEq);
                match spec_binary(ts, q + 1, 2) {
                    Err(e) => Err(e),
                    Ok((r, rt)) => Ok((r, if inclusive {
                        SExpr::RangeInclusive(Box::new(l), Box::new(rt))
                    } else {
                        SExpr::Range(Box::new(l), Box::new(rt))
                    })),
                }
            } else {
                Ok((q, l))
            }
        },
    }
}

/// Expressions separated by commas, as many as parse; a comma is consumed even
/// when no expression follows it.
pub open spec fn spec_expr_list(ts: Seq<(STok, int, int)>, p: int, acc: Seq<SExpr>) -> (int, Seq<SExpr>)
    decreases ts.len() - p, 20int,
{
    match spec_assign(ts, p) {
        Err(_) => (p, acc),
        Ok((q, e)) => {
            if is_tok(ts, q, STok::Comma) && q >= p {
                spec_expr_list(ts, q + 1, acc.push(e))
            } else {
                (q, acc.push(e))
            }
        },
    }
}

/// The items of a bracketed list whose opening bracket was just read: an
/// optional indented layout, the items, and the closing token.
pub open spec fn spec_items(ts: Seq<(STok, int, int)>, p: int, close: STok) -> PR<Seq<SExpr>>
    decreases ts.len() - p, 21int,
{
    let indented = is_tok(ts, p, STok::Indent);
    let q0 = if indented { p + 1 } else { p };
    let (q1, items) = spec_expr_list(ts, q0, seq![]);
    let q2: Result<int, int> = if indented {
        if is_tok(ts, q1, STok::Dedent) { Ok(q1 + 1) } else { Err(q1) }
    } else {
        Ok(q1)
    };
    match q2 {
        Err(e) => Err(e),
        Ok(q) => if is_tok(ts, q, close) { Ok((q + 1, items)) } else { Err(q) },
    }
}

/// Lambda parameters: names with optional `: Type`, separated by commas.
pub open spec fn spec_lambda_params(ts: Seq<(STok, int, int)>, p: int, acc: Seq<SParam>) -> PR<Seq<SParam>>
    decreases ts.len() - p, 0int,
{
    match ident_at(ts, p) {
        None => Ok((p, acc)),
        Some(n) => {
            let r: PR<Option<SType>> = if is_tok(ts, p + 1, STok::Colon) {
                match spec_type(ts, p + 2) {
                    Ok((q, t)) => Ok((q, Some(t))),
                    Err(e) => Err(e),
                }
            } else {
                Ok((p + 1, None))
            };
            match r {
                Err(e) => Err(e),
                Ok((q, ty)) => {
                    let acc2 = acc.push(SParam { name: n, ty, is_mut: false });
                    if is_tok(ts, q, STok::Comma) && q >= p {
                        spec_lambda_params(ts, q + 1, acc2)
                    } else {
                        Ok((q, acc2))
                    }
                },
            }
        },
    }
}

/// The entries of a dict literal after its first entry.
pub open spec fn spec_dict_rest(ts: Seq<(STok, int, int)>, p: int, acc: Seq<(SExpr, SExpr)>) -> PR<Seq<(SExpr, SExpr)>>
    decreases ts.len() - p, 22int,
{
    if is_tok(ts, p, STok::Comma) && !is_tok(ts, p + 1, STok::RBrace) {
        match spec_assign(ts, p + 1) {
            Err(e) => Err(e),
            Ok((q, k)) => {
                if !is_tok(ts, q, STok::Colon) || q < p {
                    Err(q)
                } else {
                    match spec_assign(ts, q + 1) {
                        Err(e) => Err(e),
                        Ok((r, v)) => if p < r <= ts.len() { spec_dict_rest(ts, r, acc.push((k, v))) } else { Err(r) },
                    }
                }
            },
        }
    } else {
        let q = if is_tok(ts, p, STok::Comma) { p + 1 } else { p };
        if is_tok(ts, q, STok::RBrace) { Ok((q + 1, acc)) } else { Err(q) }
    }
}

/// `{}`, `{k: v, ...}` or `{a, b, ...}` after the opening brace.
pub open spec fn spec_brace(ts: Seq<(STok, int, int)>, p: int) -> PR<SExpr>
    decreases ts.len() - p, 23int,
{
    if is_tok(ts, p, STok::RBrace) {
        Ok((p + 1, SExpr::Lit(SLit::Dict(seq![]))))
    } else {
        match spec_assign(ts, p) {
            Err(e) => Err(e),
            Ok((q, k)) => {
                if is_tok(ts, q, STok::Colon) && q >= p {
                    match spec_assign(ts, q + 1) {
                        Err(e) => Err(e),
                        Ok((r, v)) => if p <= r <= ts.len() {
                            match spec_dict_rest(ts, r, seq![(k, v)]) {
                                Err(e) => Err(e),
                                Ok((s, entries)) => Ok((s, SExpr::Lit(SLit::Dict(entries)))),
                            }
                        } else {
                            Err(r)
                        },
                    }
                } else {
                    let (r, items) = if is_tok(ts, q, STok::Comma) && q >= p {
                        spec_expr_list(ts, q + 1, seq![k])
                    } else {
                        (q, seq![k])
                    };
                    if is_tok(ts, r, STok::RBrace) { Ok((r + 1, SExpr::Lit(SLit::SetOf(items)))) } else { Err(r) }
                }
            },
        }
    }
}

/// `()`, `(e)` or `(a, b, ...)` after the opening parenthesis.
pub open spec fn spec_paren(ts: Seq<(STok, int, int)>, p: int) -> PR<SExpr>
    decreases ts.len() - p, 23int,
{
    if is_tok(ts, p, STok::RParen) {
        Ok((p + 1, SExpr::Tuple(seq![])))
    } else {
        match spec_assign(ts, p) {
            Err(e) => Err(e),
            Ok((q, e)) => {
                if is_tok(ts, q, STok::Comma) && q >= p {
                    let (r, items) = spec_expr_list(ts, q + 1, seq![e]);
                    if is_tok(ts, r, STok::RParen) { Ok((r + 1, SExpr::Tuple(items))) } else { Err(r) }
                } else if is_tok(ts, q, STok::RParen) {
                    Ok((q + 1, e))
                } else {
                    Err(q)
                }
            },
        }
    }
}

/// Literals, prefix forms, names with their postfix forms, and bracketed forms.
pub open spec fn spec_primary(ts: Seq<(STok, int, int)>, p: int) -> PR<SExpr>
    decreases ts.len() - p, 2int,
{
    if p < 0 || p >= ts.len() {
        Err(p)
    } else {
        match ts[p].0 {
            STok::Minus => match spec_primary(ts, p + 1) {
                Err(e) => Err(e),
                Ok((q, e)) => Ok((q, negated(e))),
            },
            STok::Float(f) => Ok((p + 1, SExpr::Lit(SLit::Float(f)))),
            STok::Int(i) => Ok((p + 1, SExpr::Lit(SLit::Int(i)))),
            STok::Str(s) => Ok((p + 1, SExpr::Lit(SLit::Str(s)))),
            STok::LBracket => match spec_items(ts, p + 1, STok::RBracket) {
                Err(e) => Err(e),
                Ok((q, items)) => Ok((q, SExpr::Lit(SLit::List(items)))),
            },
            STok::Dollar => match ident_at(ts, p + 1) {
                None => Err(p + 1),
                Some(name) => {
                    if !is_tok(ts, p + 2, STok::LParen) {
                        Err(p + 2)
                    } else {
                        match spec_items(ts, p + 3, STok::RParen) {
                            Err(e) => Err(e),
                            Ok((q, args)) => Ok((q, SExpr::Macro(name, args))),
                        }
                    }
                },
            },
            STok::Ampersand => match spec_assign(ts, p + 1) {
                Err(e) => Err(e),
                Ok((q, e)) => Ok((q, SExpr::SharedRef(Box::new(e)))),
            },
            STok::Tilde => match spec_assign(ts, p + 1) {
                Err(e) => Err(e),
                Ok((q, e)) => Ok((q, SExpr::UniqueRef(Box::new(e)))),
            },
            STok::Move => match spec_assign(ts, p + 1) {
                Err(e) => Err(e),
                Ok((q, e)) => Ok((q, SExpr::Move(Box::new(e)))),
            },
            STok::Ident(n) => spec_postfix(ts, p + 1, SExpr::Ident(n)),
            STok::LParen => spec_paren(ts, p + 1),
            STok::LBrace => spec_brace(ts, p + 1),
            STok::Pipe => match spec_lambda_params(ts, p + 1, seq![]) {
                Err(e) => Err(e),
                Ok((q, params)) => {
                    if !is_tok(ts, q, STok::Pipe) || q < p {
                        Err(q)
                    } else {
                        match spec_assign(ts, q + 1) {
                            Err(e) => Err(e),
                            Ok((r, body)) => Ok((r, SExpr::Lambda(params, Box::new(body)))),
                        }
                    }
                },
            },
            _ => Err(p),
        }
    }
}

/// Member access, generic calls, indexing, calls, `?` and `!!` after `e`.
pub open spec fn spec_postfix(ts: Seq<(STok, int, int)>, p: int, e: SExpr) -> PR<SExpr>
    decreases ts.len() - p, 0int,
{
    if p < 0 || p >= ts.len() {
        Ok((p, e))
    } else {
        match ts[p].0 {
            STok::Dot => match ident_at(ts, p + 1) {
                None => Err(p + 1),
                Some(m) => spec_postfix(ts, p + 2, SExpr::Member(Box::new(e), m)),
            },
            STok::LBracket => {
                let (q, tys) = spec_type_list(ts, p + 1, seq![]);
                if tys.len() > 0 && is_tok(ts, q, STok::RBracket) && is_tok(ts, q + 1, STok::LParen) && q >= p {
                    let (r, args) = spec_expr_list(ts, q + 2, seq![]);
                    if !is_tok(ts, r, STok::RParen) {
                        Err(r)
                    } else if r < p {
                        Err(r)
                    } else {
                        spec_postfix(ts, r + 1, SExpr::GenericCall(Box::new(e), tys, args))
                    }
                } else {
                    match spec_assign(ts, p + 1) {
                        Err(_) => Ok((p, e)),
                        Ok((r, idx)) => {
                            if !is_tok(ts, r, STok::RBracket) {
                                Err(r)
                            } else if r < p {
                                Err(r)
                            } else {
                                spec_postfix(ts, r + 1, SExpr::Index(Box::new(e), Box::new(idx)))
                            }
                        },
                    }
                }
            },
            STok::LParen => match spec_items(ts, p + 1, STok::RParen) {
                Err(err) => Err(err),
                Ok((r, args)) => if p < r <= ts.len() { spec_postfix(ts, r, SExpr::Call(Box::new(e), args)) } else { Err(r) },
            },
            STok::Question => spec_postfix(ts, p + 1, SExpr::Question(Box::new(e))),
            STok::BangBang => spec_postfix(ts, p + 1, SExpr::Unwrap(Box::new(e))),
            _ => Ok((p, e)),
        }
    }
}

// ---------------------------------------------------------------------------
// Statements.
// ---------------------------------------------------------------------------

/// A name or a parenthesized list of patterns.
pub open spec fn spec_pattern(ts: Seq<(STok, int, int)>, p: int) -> PR<SPattern>
    decreases ts.len() - p, 0int,
{
    match ident_at(ts, p) {
        Some(n) => Ok((p + 1, SPattern::Name(n))),
        None => {
            if is_tok(ts, p, STok::LParen) {
                let (q, items) = spec_pattern_list(ts, p + 1, seq![]);
                if is_tok(ts, q, STok::RParen) { Ok((q + 1, SPattern::Tuple(items))) } else { Err(q) }
            } else {
                Err(p)
            }
        },
    }
}

pub open spec fn spec_pattern_list(ts: Seq<(STok, int, int)>, p: int, acc: Seq<SPattern>) -> (int, Seq<SPattern>)
    decreases ts.len() - p, 1int,
{
    match spec_pattern(ts, p) {
        Err(_) => (p, acc),
        Ok((q, pt)) => {
            if is_tok(ts, q, STok::Comma) && q >= p {
                spec_pattern_list(ts, q + 1, acc.push(pt))
            } else {
                (q, acc.push(pt))
            }
        },
    }
}

/// An optional `: Type` annotation at `p`.
pub open spec fn spec_opt_annotation(ts: Seq<(STok, int, int)>, p: int, sep: STok) -> PR<Option<SType>> {
    if is_tok(ts, p, sep) {
        match spec_type(ts, p + 1) {
            Ok((q, t)) => Ok((q, Some(t))),
            Err(e) => Err(e),
        }
    } else {
        Ok((p, None))
    }
}

/// `let pattern [: Type] = value` (or `mut ...` with `kw == Mut`).
pub open spec fn spec_binding(ts: Seq<(STok, int, int)>, p: int, kw: STok) -> PR<(SPattern, Option<SType>, SExpr)> {
    if !is_tok(ts, p, kw) {
        Err(p)
    } else {
        match spec_pattern(ts, p + 1) {
            Err(e) => Err(e),
            Ok((q, pat)) => match spec_opt_annotation(ts, q, STok::Colon) {
                Err(e) => Err(e),
                Ok((r, ty)) => {
                    if !is_tok(ts, r, STok::Assign) {
                        Err(r)
                    } else {
                        match spec_assign(ts, r + 1) {
                            Err(e) => Err(e),
                            Ok((s, v)) => Ok((s, (pat, ty, v))),
                        }
                    }
                },
            },
        }
    }
}

/// The rest of a dotted path after its first name: `.part` pieces joined with `/`.
pub open spec fn spec_dotted(ts: Seq<(STok, int, int)>, p: int, acc: Seq<char>) -> PR<Seq<char>>
    decreases ts.len() - p,
{
    if is_tok(ts, p, STok::Dot) {
        match ident_at(ts, p + 1) {
            None => Err(p + 1),
            Some(part) => spec_dotted(ts, p + 2, acc + seq!['/'] + part),
        }
    } else {
        Ok((p, acc))
    }
}

/// A string path, or dotted names joined with `/`.
pub open spec fn spec_import_path(ts: Seq<(STok, int, int)>, p: int) -> PR<Seq<char>> {
    match tk(ts, p) {
        Some(STok::Str(s)) => Ok((p + 1, s)),
        _ => match ident_at(ts, p) {
            None => Err(p),
            Some(first) => spec_dotted(ts, p + 1, first),
        },
    }
}

/// An optional `as name` at `p`; a missing name after `as` is an error.
pub open spec fn spec_opt_alias(ts: Seq<(STok, int, int)>, p: int) -> PR<Option<Seq<char>>> {
    if is_tok(ts, p, STok::As) {
        match ident_at(ts, p + 1) {
            None => Err(p + 1),
            Some(a) => Ok((p + 2, Some(a))),
        }
    } else {
        Ok((p, None))
    }
}

pub open spec fn spec_import(ts: Seq<(STok, int, int)>, p: int) -> PR<SKind> {
    if !is_tok(ts, p, STok::Import) {
        Err(p)
    } else {
        match spec_import_path(ts, p + 1) {
            Err(e) => Err(e),
            Ok((q, path)) => match spec_opt_alias(ts, q) {
                Err(e) => Err(e),
                Ok((r, alias)) => Ok((r, SKind::Import(path, alias))),
            },
        }
    }
}

/// `name [as alias]` items after the first, each introduced by a comma.
pub open spec fn spec_import_items(ts: Seq<(STok, int, int)>, p: int, acc: Seq<SImport>) -> PR<Seq<SImport>>
    decreases ts.len() - p,
{
    if is_tok(ts, p, STok::Comma) {
        match ident_at(ts, p + 1) {
            None => Err(p + 1),
            Some(n) => match spec_opt_alias(ts, p + 2) {
                Err(e) => Err(e),
                Ok((q, alias)) => if q > p {
                    spec_import_items(ts, q, acc.push(SImport { name: n, alias }))
                } else {
                    Err(q)
                },
            },
        }
    } else {
        Ok((p, acc))
    }
}

pub open spec fn spec_from_import(ts: Seq<(STok, int, int)>, p: int) -> PR<SKind> {
    if !is_tok(ts, p, STok::From) {
        Err(p)
    } else {
        match spec_import_path(ts, p + 1) {
            Err(e) => Err(e),
            Ok((q, path)) => {
                if !is_tok(ts, q, STok::Import) {
                    Err(q)
                } else {
                    match ident_at(ts, q + 1) {
                        None => Err(q + 1),
                        Some(n) => match spec_opt_alias(ts, q + 2) {
                            Err(e) => Err(e),
                            Ok((r, alias)) => match spec_import_items(ts, r, seq![SImport { name: n, alias }]) {
                                Err(e) => Err(e),
                                Ok((s, items)) => Ok((s, SKind::FromImport(path, items))),
                            },
                        },
                    }
                }
            },
        }
    }
}

/// `def` parameters: `[mut] name [: Type]`, separated by commas.
pub open spec fn spec_def_params(ts: Seq<(STok, int, int)>, p: int, acc: Seq<SParam>) -> PR<Seq<SParam>>
    decreases ts.len() - p,
{
    if p < 0 || p >= ts.len() {
        Ok((p, acc))
    } else {
        let is_mut = ts[p].0 == STok::Mut;
        let q = if is_mut { p + 1 } else { p };
        match ident_at(ts, q) {
            None => Ok((p, acc)),
            Some(n) => match spec_opt_annotation(ts, q + 1, STok::Colon) {
                Err(e) => Err(e),
                Ok((r, ty)) => {
                    let acc2 = acc.push(SParam { name: n, ty, is_mut });
                    if is_tok(ts, r, STok::Comma) && r >= p {
                        spec_def_params(ts, r + 1, acc2)
                    } else {
                        Ok((r, acc2))
                    }
                },
            },
        }
    }
}

/// `struct` fields: `name: Type` lines.
pub open spec fn spec_fields(ts: Seq<(STok, int, int)>, p: int, acc: Seq<SParam>) -> PR<Seq<SParam>>
    decreases ts.len() - p,
{
    match ident_at(ts, p) {
        None => Ok((p, acc)),
        Some(n) => {
            if !is_tok(ts, p + 1, STok::Colon) {
                Err(p + 1)
            } else {
                match spec_type(ts, p + 2) {
                    Err(e) => Err(e),
                    Ok((q, t)) => {
                        let acc2 = acc.push(SParam { name: n, ty: Some(t), is_mut: false });
                        if p < q <= ts.len() { spec_fields(ts, q, acc2) } else { Ok((q, acc2)) }
                    },
                }
            }
        },
    }
}

/// `enum` variants: `Name` or `Name(T, U)` lines.
pub open spec fn spec_variants(ts: Seq<(STok, int, int)>, p: int, acc: Seq<SVariant>) -> PR<Seq<SVariant>>
    decreases ts.len() - p,
{
    match ident_at(ts, p) {
        None => Ok((p, acc)),
        Some(n) => {
            let r: PR<Seq<SType>> = if is_tok(ts, p + 1, STok::LParen) {
                let (q, tys) = spec_type_list(ts, p + 2, seq![]);
                if is_tok(ts, q, STok::RParen) { Ok((q + 1, tys)) } else { Err(q) }
            } else {
                Ok((p + 1, seq![]))
            };
            match r {
                Err(e) => Err(e),
                Ok((q, fields)) => {
                    let acc2 = acc.push(SVariant { name: n, fields });
                    if p < q <= ts.len() { spec_variants(ts, q, acc2) } else { Ok((q, acc2)) }
                },
            }
        },
    }
}

/// How a token is written inside a `pyimport` block.
pub open spec fn token_text(t: STok) -> Seq<char> {
    match t {
        STok::Let => "let"@,
        STok::Mut => "mut"@,
        STok::Move => "move"@,
        STok::Def => "def"@,
        STok::Protocol => "protocol"@,
        STok::Struct => "struct"@,
        STok::Impl => "impl"@,
        STok::For => "for"@,
        STok::While => "while"@,
        STok::In => "in"@,
        STok::If => "if"@,
        STok::Else => "else"@,
        STok::Return => "return"@,
        STok::Break => "break"@,
        STok::Continue => "continue"@,
        STok::Elif => "elif"@,
        STok::And => "and"@,
        STok::Or => "or"@,
        STok::Not => "not"@,
        STok::Import => "import"@,
        STok::PyImport => "pyimport"@,
        STok::Match => "match"@,
        STok::As => "as"@,
        STok::From => "from"@,
        STok::Enum => "enum"@,
        STok::Colon => ":"@,
        STok::Arrow => "->"@,
        STok::Question => "?"@,
        STok::BangBang => "!!"@,
        STok::DotDotEq => "..="@,
        STok::DotDot => ".."@,
        STok::Dot => "."@,
        STok::Pipe => "|"@,
        STok::LBracket => "["@,
        STok::RBracket => "]"@,
        STok::LParen => "("@,
        STok::RParen => ")"@,
        STok::LBrace => "{"@,
        STok::RBrace => "}"@,
        STok::Comma => ","@,
        STok::Assign => "="@,
        STok::Eq => "=="@,
        STok::Ne => "!="@,
        STok::Gt => ">"@,
        STok::Lt => "<"@,
        STok::Ge => ">="@,
        STok::Le => "<="@,
        STok::At => "@"@,
        STok::Dollar => "$"@,
        STok::Ampersand => "&"@,
        STok::Tilde => "~"@,
        STok::Plus => "+"@,
        STok::Minus => "-"@,
        STok::Star => "*"@,
        STok::Percent => "%"@,
        STok::Slash => "/"@,
        STok::Ident(n) => n,
        STok::Float(f) => f,
        STok::Int(i) => int_text(i),
        STok::Str(s) => seq!['"'] + s + seq!['"'],
        STok::NewlineWithIndent => "\\n"@,
        STok::Whitespace => " "@,
        STok::Comment => "#"@,
        STok::Indent => "<indent>"@,
        STok::Dedent => "<dedent>"@,
    }
}

/// The tokens of a `pyimport` block up to its closing dedent, written out and
/// separated by spaces (indents inside the block are left out).
pub open spec fn spec_py_tokens(ts: Seq<(STok, int, int)>, p: int, acc: Seq<char>, first: bool) -> PR<Seq<char>>
    decreases ts.len() - p,
{
    if p < 0 || p >= ts.len() {
        Err(ts.len() as int)
    } else if ts[p].0 == STok::Dedent {
        Ok((p + 1, acc))
    } else if ts[p].0 == STok::Indent {
        spec_py_tokens(ts, p + 1, acc, first)
    } else {
        let acc2 = (if first { acc } else { acc + seq![' '] }) + token_text(ts[p].0);
        spec_py_tokens(ts, p + 1, acc2, false)
    }
}

pub open spec fn spec_pyimport(ts: Seq<(STok, int, int)>, p: int) -> PR<SKind> {
    if !is_tok(ts, p, STok::PyImport) {
        Err(p)
    } else if !is_tok(ts, p + 1, STok::Colon) {
        Err(p + 1)
    } else if !is_tok(ts, p + 2, STok::Indent) {
        Err(p + 2)
    } else {
        match spec_py_tokens(ts, p + 3, seq![], true) {
            Err(e) => Err(e),
            Ok((q, content)) => Ok((q, SKind::PyImport(content))),
        }
    }
}

/// The span start of the token at `p` (0 past the end), and the span end of
/// the last token before `q`.
pub open spec fn start_of(ts: Seq<(STok, int, int)>, p: int) -> int {
    if 0 <= p < ts.len() { ts[p].1 } else { 0 }
}

pub open spec fn end_before(ts: Seq<(STok, int, int)>, p: int, q: int) -> int {
    if p < q && 0 <= q - 1 < ts.len() {
        ts[q - 1].2
    } else if 0 <= p < ts.len() {
        ts[p].2
    } else {
        0
    }
}

/// A statement starting at `p`: the statement forms are tried in order
/// (`let`, `mut`, `from`, `import`, `def`, `return`, `if`, `for`, `while`,
/// `struct`, `enum`, `protocol`, `impl`, `pyimport`, `match`, `break`,
/// `continue`) and the first that parses wins; otherwise an expression
/// statement, whose failure is the statement's failure.
pub open spec fn spec_statement(ts: Seq<(STok, int, int)>, p: int) -> PR<SStmt>
    decreases ts.len() - p, 2int,
{
    match spec_statement_kind(ts, p) {
        Err(e) => Err(e),
        Ok((q, kind)) => Ok((q, SStmt {
            kind,
            start: start_of(ts, p) as usize,
            end: end_before(ts, p, q) as usize,
        })),
    }
}

pub open spec fn spec_statement_kind(ts: Seq<(STok, int, int)>, p: int) -> PR<SKind>
    decreases ts.len() - p, 1int,
{
    if let Ok((q, (pat, ty, v))) = spec_binding(ts, p, STok::Let) {
        Ok((q, SKind::Let(pat, ty, v)))
    } else if let Ok((q, (pat, ty, v))) = spec_binding(ts, p, STok::Mut) {
        Ok((q, SKind::Mut(pat, ty, v)))
    } else if spec_from_import(ts, p) is Ok {
        spec_from_import(ts, p)
    } else if spec_import(ts, p) is Ok {
        spec_import(ts, p)
    } else if spec_def(ts, p) is Ok {
        spec_def(ts, p)
    } else if is_tok(ts, p, STok::Return) {
        match spec_assign(ts, p + 1) {
            Ok((q, e)) => Ok((q, SKind::Return(Some(e)))),
            Err(_) => Ok((p + 1, SKind::Return(None))),
        }
    } else if spec_if(ts, p, STok::If) is Ok {
        spec_if(ts, p, STok::If)
    } else if spec_for(ts, p) is Ok {
        spec_for(ts, p)
    } else if spec_while(ts, p) is Ok {
        spec_while(ts, p)
    } else if spec_struct(ts, p) is Ok {
        spec_struct(ts, p)
    } else if spec_enum(ts, p) is Ok {
        spec_enum(ts, p)
    } else if spec_named_block(ts, p, STok::Protocol) is Ok {
        spec_named_block(ts, p, STok::Protocol)
    } else if spec_impl(ts, p) is Ok {
        spec_impl(ts, p)
    } else if spec_pyimport(ts, p) is Ok {
        spec_pyimport(ts, p)
    } else if spec_match(ts, p) is Ok {
        spec_match(ts, p)
    } else if is_tok(ts, p, STok::Break) {
        Ok((p + 1, SKind::Break))
    } else if is_tok(ts, p, STok::Continue) {
        Ok((p + 1, SKind::Continue))
    } else {
        match spec_assign(ts, p) {
            Ok((q, e)) => Ok((q, SKind::Expr(e))),
            Err(e) => Err(e),
        }
    }
}

/// An indented block: `Indent`, statements, `Dedent`.
pub open spec fn spec_block(ts: Seq<(STok, int, int)>, p: int) -> PR<Seq<SStmt>>
    decreases ts.len() - p, 4int,
{
    if !is_tok(ts, p, STok::Indent) {
        Err(p)
    } else {
        spec_block_items(ts, p + 1, seq![])
    }
}

pub open spec fn spec_block_items(ts: Seq<(STok, int, int)>, p: int, acc: Seq<SStmt>) -> PR<Seq<SStmt>>
    decreases ts.len() - p, 3int,
{
    if p < 0 || p >= ts.len() {
        Err(ts.len() as int)
    } else if ts[p].0 == STok::Dedent {
        Ok((p + 1, acc))
    } else {
        match spec_statement(ts, p) {
            Err(e) => Err(e),
            Ok((q, st)) => if p < q <= ts.len() { spec_block_items(ts, q, acc.push(st)) } else { Err(q) },
        }
    }
}

/// `def name(params) [-> Type]: block`.
pub open spec fn spec_def(ts: Seq<(STok, int, int)>, p: int) -> PR<SKind>
    decreases ts.len() - p, 0int,
{
    if !is_tok(ts, p, STok::Def) {
        Err(p)
    } else {
        match ident_at(ts, p + 1) {
            None => Err(p + 1),
            Some(name) => {
                if !is_tok(ts, p + 2, STok::LParen) {
                    Err(p + 2)
                } else {
                    match spec_def_params(ts, p + 3, seq![]) {
                        Err(e) => Err(e),
                        Ok((q, params)) => {
                            if !is_tok(ts, q, STok::RParen) {
                                Err(q)
                            } else {
                                match spec_opt_annotation(ts, q + 1, STok::Arrow) {
                                    Err(e) => Err(e),
                                    Ok((r, ret)) => {
                                        if !is_tok(ts, r, STok::Colon) || r < p {
                                            Err(r)
                                        } else {
                                            match spec_block(ts, r + 1) {
                                                Err(e) => Err(e),
                                                Ok((s, body)) => Ok((s, SKind::Def(name, params, ret, body))),
                                            }
                                        }
                                    },
                                }
                            }
                        },
                    }
                }
            },
        }
    }
}

/// `if cond: block` with an optional `else: block` or `elif ...` (which becomes
/// an `else` block holding one `if` statement); `kw` is `If` or `Elif`.
pub open spec fn spec_if(ts: Seq<(STok, int, int)>, p: int, kw: STok) -> PR<SKind>
    decreases ts.len() - p, 0int,
{
    if !is_tok(ts, p, kw) {
        Err(p)
    } else {
        match spec_assign(ts, p + 1) {
            Err(e) => Err(e),
            Ok((q, cond)) => {
                if !is_tok(ts, q, STok::Colon) || q < p {
                    Err(q)
                } else {
                    match spec_block(ts, q + 1) {
                        Err(e) => Err(e),
                        Ok((r, then_block)) => {
                            if is_tok(ts, r, STok::Else) {
                                if !is_tok(ts, r + 1, STok::Colon) {
                                    Err(r + 1)
                                } else if r < p {
                                    Err(r)
                                } else {
                                    match spec_block(ts, r + 2) {
                                        Err(e) => Err(e),
                                        Ok((s, else_block)) => Ok((s, SKind::If(cond, then_block, Some(else_block)))),
                                    }
                                }
                            } else if is_tok(ts, r, STok::Elif) && r > p {
                                match spec_if(ts, r, STok::Elif) {
                                    Err(e) => Err(e),
                                    Ok((s, nested)) => Ok((s, SKind::If(cond, then_block, Some(seq![SStmt {
                                        kind: nested,
                                        start: start_of(ts, r) as usize,
                                        end: end_before(ts, r, s) as usize,
                                    }])))),
                                }
                            } else {
                                Ok((r, SKind::If(cond, then_block, None)))
                            }
                        },
                    }
                }
            },
        }
    }
}

/// `for pattern in iterable: block`.
pub open spec fn spec_for(ts: Seq<(STok, int, int)>, p: int) -> PR<SKind>
    decreases ts.len() - p, 0int,
{
    if !is_tok(ts, p, STok::For) {
        Err(p)
    } else {
        match spec_pattern(ts, p + 1) {
            Err(e) => Err(e),
            Ok((q, pat)) => {
                if !is_tok(ts, q, STok::In) {
                    Err(q)
                } else {
                    match spec_assign(ts, q + 1) {
                        Err(e) => Err(e),
                        Ok((r, iterable)) => {
                            if !is_tok(ts, r, STok::Colon) || r < p {
                                Err(r)
                            } else {
                                match spec_block(ts, r + 1) {
                                    Err(e) => Err(e),
                                    Ok((s, body)) => Ok((s, SKind::For(pat, iterable, body))),
                                }
                            }
                        },
                    }
                }
            },
        }
    }
}

/// `while cond: block`.
pub open spec fn spec_while(ts: Seq<(STok, int, int)>, p: int) -> PR<SKind>
    decreases ts.len() - p, 0int,
{
    if !is_tok(ts, p, STok::While) {
        Err(p)
    } else {
        match spec_assign(ts, p + 1) {
            Err(e) => Err(e),
            Ok((q, cond)) => {
                if !is_tok(ts, q, STok::Colon) || q < p {
                    Err(q)
                } else {
                    match spec_block(ts, q + 1) {
                        Err(e) => Err(e),
                        Ok((r, body)) => Ok((r, SKind::While(cond, body))),
                    }
                }
            },
        }
    }
}

/// `struct Name:` and an indented list of `field: Type` lines.
pub open spec fn spec_struct(ts: Seq<(STok, int, int)>, p: int) -> PR<SKind> {
    if !is_tok(ts, p, STok::Struct) {
        Err(p)
    } else {
        match ident_at(ts, p + 1) {
            None => Err(p + 1),
            Some(name) => {
                if !is_tok(ts, p + 2, STok::Colon) {
                    Err(p + 2)
                } else if !is_tok(ts, p + 3, STok::Indent) {
                    Err(p + 3)
                } else {
                    match spec_fields(ts, p + 4, seq![]) {
                        Err(e) => Err(e),
                        Ok((q, fields)) => {
                            if is_tok(ts, q, STok::Dedent) { Ok((q + 1, SKind::Struct(name, fields))) } else { Err(q) }
                        },
                    }
                }
            },
        }
    }
}

/// `enum Name:` and an indented list of variants.
pub open spec fn spec_enum(ts: Seq<(STok, int, int)>, p: int) -> PR<SKind> {
    if !is_tok(ts, p, STok::Enum) {
        Err(p)
    } else {
        match ident_at(ts, p + 1) {
            None => Err(p + 1),
            Some(name) => {
                if !is_tok(ts, p + 2, STok::Colon) {
                    Err(p + 2)
                } else if !is_tok(ts, p + 3, STok::Indent) {
                    Err(p + 3)
                } else {
                    match spec_variants(ts, p + 4, seq![]) {
                        Err(e) => Err(e),
                        Ok((q, variants)) => {
                            if is_tok(ts, q, STok::Dedent) { Ok((q + 1, SKind::Enum(name, variants))) } else { Err(q) }
                        },
                    }
                }
            },
        }
    }
}

/// `protocol Name: block`.
pub open spec fn spec_named_block(ts: Seq<(STok, int, int)>, p: int, kw: STok) -> PR<SKind>
    decreases ts.len() - p, 0int,
{
    if !is_tok(ts, p, kw) {
        Err(p)
    } else {
        match ident_at(ts, p + 1) {
            None => Err(p + 1),
            Some(name) => {
                if !is_tok(ts, p + 2, STok::Colon) {
                    Err(p + 2)
                } else {
                    match spec_block(ts, p + 3) {
                        Err(e) => Err(e),
                        Ok((q, methods)) => Ok((q, SKind::Protocol(name, methods))),
                    }
                }
            },
        }
    }
}

/// `impl Type: block` or `impl Protocol for Type: block`.
pub open spec fn spec_impl(ts: Seq<(STok, int, int)>, p: int) -> PR<SKind>
    decreases ts.len() - p, 0int,
{
    if !is_tok(ts, p, STok::Impl) {
        Err(p)
    } else {
        match ident_at(ts, p + 1) {
            None => Err(p + 1),
            Some(name1) => {
                if is_tok(ts, p + 2, STok::For) {
                    match ident_at(ts, p + 3) {
                        None => Err(p + 3),
                        Some(name2) => {
                            if !is_tok(ts, p + 4, STok::Colon) {
                                Err(p + 4)
                            } else {
                                match spec_block(ts, p + 5) {
                                    Err(e) => Err(e),
                                    Ok((q, methods)) => Ok((q, SKind::Impl(Some(name1), name2, methods))),
                                }
                            }
                        },
                    }
                } else if !is_tok(ts, p + 2, STok::Colon) {
                    Err(p + 2)
                } else {
                    match spec_block(ts, p + 3) {
                        Err(e) => Err(e),
                        Ok((q, methods)) => Ok((q, SKind::Impl(None, name1, methods))),
                    }
                }
            },
        }
    }
}

/// Match arms: `pattern: block`, up to the dedent that closes the `match`.
pub open spec fn spec_arms(ts: Seq<(STok, int, int)>, p: int, acc: Seq<(SExpr, Seq<SStmt>)>) -> PR<Seq<(SExpr, Seq<SStmt>)>>
    decreases ts.len() - p, 0int,
{
    match spec_assign(ts, p) {
        Err(_) => Ok((p, acc)),
        Ok((q, pat)) => {
            if !is_tok(ts, q, STok::Colon) || q < p {
                Err(q)
            } else {
                match spec_block(ts, q + 1) {
                    Err(e) => Err(e),
                    Ok((r, body)) => {
                        let acc2 = acc.push((pat, body));
                        if is_tok(ts, r, STok::Dedent) || r <= p || r > ts.len() {
                            Ok((r, acc2))
                        } else {
                            spec_arms(ts, r, acc2)
                        }
                    },
                }
            }
        },
    }
}

/// `match expr:` and an indented list of arms.
pub open spec fn spec_match(ts: Seq<(STok, int, int)>, p: int) -> PR<SKind>
    decreases ts.len() - p, 0int,
{
    if !is_tok(ts, p, STok::Match) {
        Err(p)
    } else {
        match spec_assign(ts, p + 1) {
            Err(e) => Err(e),
            Ok((q, e)) => {
                if !is_tok(ts, q, STok::Colon) {
                    Err(q)
                } else if !is_tok(ts, q + 1, STok::Indent) || q < p {
                    Err(q + 1)
                } else {
                    match spec_arms(ts, q + 2, seq![]) {
                        Err(err) => Err(err),
                        Ok((r, arms)) => {
                            if is_tok(ts, r, STok::Dedent) { Ok((r + 1, SKind::Match(e, arms))) } else { Err(r) }
                        },
                    }
                }
            },
        }
    }
}

/// A whole program: statements until the tokens run out; stray dedents
/// between top-level statements are skipped.
pub open spec fn spec_program_from(ts: Seq<(STok, int, int)>, p: int, acc: Seq<SStmt>) -> Result<Seq<SStmt>, int>
    decreases ts.len() - p,
{
    if p < 0 || p >= ts.len() {
        Ok(acc)
    } else if ts[p].0 == STok::Dedent {
        spec_program_from(ts, p + 1, acc)
    } else {
        match spec_statement(ts, p) {
            Err(e) => Err(e),
            Ok((q, st)) => if p < q <= ts.len() { spec_program_from(ts, q, acc.push(st)) } else { Err(q) },
        }
    }
}

pub open spec fn spec_parse_program(ts: Seq<(STok, int, int)>) -> Result<Seq<SStmt>, int> {
    spec_program_from(ts, 0, seq![])
}

// ---------------------------------------------------------------------------
// Executable parsing.
// ---------------------------------------------------------------------------

/// The model of an executable parse result.
pub open spec fn rv<T, V>(r: Result<(usize, T), usize>, f: spec_fn(T) -> V) -> PR<V> {
    match r {
        Ok((q, t)) => Ok((q as int, f(t))),
        Err(e) => Err(e as int),
    }
}

/// Positions in a parse result never pass the end of the tokens.
pub open spec fn bounded<T>(r: Result<(usize, T), usize>, len: int) -> bool {
    match r {
        Ok((q, _)) => q <= len,
        Err(e) => e <= len,
    }
}

pub open spec fn ev(e: Expression) -> SExpr { expr_view(e) }
pub open spec fn tv(t: Type) -> SType { type_view(t) }
pub open spec fn evs(v: Vec<Expression>) -> Seq<SExpr> { exprs_view(v@) }
pub open spec fn pv(p: Pattern) -> SPattern { pattern_view(p) }
pub open spec fn sv(s: Statement) -> SStmt { stmt_view(s) }
pub open spec fn kv(k: StatementKind) -> SKind { kind_view(k) }

/// Whether two tokens are the same (payloads included).
pub fn tok_eq(a: &Token, b: &Token) -> (r: bool)
    ensures
        r == (tok_view(*a) == tok_view(*b)),
{
    match a {
        Token::Let => matches!(b, Token::Let),
        Token::Mut => matches!(b, Token::Mut),
        Token::Move => matches!(b, Token::Move),
        Token::Def => matches!(b, Token::Def),
        Token::Protocol => matches!(b, Token::Protocol),
        Token::Struct => matches!(b, Token::Struct),
        Token::Impl => matches!(b, Token::Impl),
        Token::For => matches!(b, Token::For),
        Token::While => matches!(b, Token::While),
        Token::In => matches!(b, Token::In),
        Token::If => matches!(b, Token::If),
        Token::Else => matches!(b, Token::Else),
        Token::Return => matches!(b, Token::Return),
        Token::Break => matches!(b, Token::Break),
        Token::Continue => matches!(b, Token::Continue),
        Token::Elif => matches!(b, Token::Elif),
        Token::And => matches!(b, Token::And),
        Token::Or => matches!(b, Token::Or),
        Token::Not => matches!(b, Token::Not),
        Token::Import => matches!(b, Token::Import),
        Token::PyImport => matches!(b, Token::PyImport),
        Token::Match => matches!(b, Token::Match),
        Token::As => matches!(b, Token::As),
        Token::From => matches!(b, Token::From),
        Token::Enum => matches!(b, Token::Enum),
        Token::Colon => matches!(b, Token::Colon),
        Token::Arrow => matches!(b, Token::Arrow),
        Token::Question => matches!(b, Token::Question),
        Token::BangBang => matches!(b, Token::BangBang),
        Token::DotDotEq => matches!(b, Token::DotDotEq),
        Token::DotDot => matches!(b, Token::DotDot),
        Token::Dot => matches!(b, Token::Dot),
        Token::Pipe => matches!(b, Token::Pipe),
        Token::LBracket => matches!(b, Token::LBracket),
        Token::RBracket => matches!(b, Token::RBracket),
        Token::LParen => matches!(b, Token::LParen),
        Token::RParen => matches!(b, Token::RParen),
        Token::LBrace => matches!(b, Token::LBrace),
        Token::RBrace => matches!(b, Token::RBrace),
        Token::Comma => matches!(b, Token::Comma),
        Token::Assign => matches!(b, Token::Assign),
        Token::Eq => matches!(b, Token::Eq),
        Token::Ne => matches!(b, Token::Ne),
        Token::Gt => matches!(b, Token::Gt),
        Token::Lt => matches!(b, Token::Lt),
        Token::Ge => matches!(b, Token::Ge),
        Token::Le => matches!(b, Token::Le),
        Token::At => matches!(b, Token::At),
        Token::Dollar => matches!(b, Token::Dollar),
        Token::Ampersand => matches!(b, Token::Ampersand),
        Token::Tilde => matches!(b, Token::Tilde),
        Token::Plus => matches!(b, Token::Plus),
        Token::Minus => matches!(b, Token::Minus),
        Token::Star => matches!(b, Token::Star),
        Token::Percent => matches!(b, Token::Percent),
        Token::Slash => matches!(b, Token::Slash),
        Token::Ident(x) => match b { Token::Ident(y) => *x == *y, _ => false },
        Token::Float(x) => match b { Token::Float(y) => *x == *y, _ => false },
        Token::Int(x) => match b { Token::Int(y) => *x == *y, _ => false },
        Token::String(x) => match b { Token::String(y) => *x == *y, _ => false },
        Token::NewlineWithIndent => matches!(b, Token::NewlineWithIndent),
        Token::Whitespace => matches!(b, Token::Whitespace),
        Token::Comment => matches!(b, Token::Comment),
        Token::Indent => matches!(b, Token::Indent),
        Token::Dedent => matches!(b, Token::Dedent),
    }
}

/// Whether the token at `p` is `t`.
pub(crate) fn at(ts: &[TokenSpan], p: usize, t: Token) -> (r: bool)
    ensures
        r == is_tok(ts_seq_view(ts@), p as int, tok_view(t)),
{
    p < ts.len() && tok_eq(&ts[p].0, &t)
}

/// The name of the identifier token at `p`.
pub(crate) fn ident(ts: &[TokenSpan], p: usize) -> (r: Option<String>)
    ensures
        opt_str_view(r) == ident_at(ts_seq_view(ts@), p as int),
{
    if p < ts.len() {
        match &ts[p].0 {
            Token::Ident(n) => Some(n.clone()),
            _ => None,
        }
    } else {
        None
    }
}

/// Parses a type at `p`.
pub fn parse_type(ts: &[TokenSpan], p: usize) -> (r: Result<(usize, Type), usize>)
    requires
        p <= ts.len(),
        ts.len() < usize::MAX / 2,
    ensures
        rv(r, |t: Type| tv(t)) == spec_type(ts_seq_view(ts@), p as int),
        bounded(r, ts.len() as int),
    decreases ts.len() - p, 0int,
{
    let ghost v = ts_seq_view(ts@);
    if at(ts, p, Token::Ampersand) {
        match parse_type(ts, p + 1) {
            Ok((q, t)) => Ok((q, Type::SharedRef(Box::new(t)))),
            Err(e) => Err(e),
        }
    } else if at(ts, p, Token::Tilde) {
        match parse_type(ts, p + 1) {
            Ok((q, t)) => Ok((q, Type::UniqueRef(Box::new(t)))),
            Err(e) => Err(e),
        }
    } else if at(ts, p, Token::LParen) {
        let (q, tys) = type_list(ts, p + 1);
        if at(ts, q, Token::RParen) { Ok((q + 1, Type::Tuple(tys))) } else { Err(q) }
    } else {
        match ident(ts, p) {
            None => Err(p),
            Some(name) => {
                if at(ts, p + 1, Token::LBracket) {
                    let (q, tys) = type_list(ts, p + 2);
                    if at(ts, q, Token::RBracket) { Ok((q + 1, Type::Generic(name, tys))) } else { Err(q) }
                } else {
                    Ok((p + 1, Type::Simple(name)))
                }
            },
        }
    }
}

/// Parses types separated by commas starting at `p`.
pub(crate) fn type_list(ts: &[TokenSpan], p: usize) -> (r: (usize, Vec<Type>))
    requires
        p <= ts.len(),
        ts.len() < usize::MAX / 2,
    ensures
        (r.0 as int, types_view(r.1@)) == spec_type_list(ts_seq_view(ts@), p as int, seq![]),
        r.0 <= ts.len(),
    decreases ts.len() - p, 1int,
{
    let ghost v = ts_seq_view(ts@);
    let mut acc: Vec<Type> = Vec::new();
    let mut cur = p;
    proof { lemma_empty_views(); lemma_push_views(); }
    loop
        invariant
            p <= cur <= ts.len(),
            ts.len() < usize::MAX / 2,
            v == ts_seq_view(ts@),
            spec_type_list(v, p as int, seq![]) == spec_type_list(v, cur as int, types_view(acc@)),
        decreases ts.len() - cur,
    {
        proof { lemma_push_views(); }
        match parse_type(ts, cur) {
            Err(_) => return (cur, acc),
            Ok((q, t)) => {
                acc.push(t);
                if at(ts, q, Token::Comma) && q >= cur {
                    cur = q + 1;
                } else {
                    return (q, acc);
                }
            },
        }
    }
}

fn binop_at(ts: &[TokenSpan], p: usize, lvl: u8) -> (r: Option<BinaryOp>)
    requires
        p < ts.len(),
    ensures
        r == binop_of(lvl as int, ts_seq_view(ts@)[p as int].0),
{
    let t = &ts[p].0;
    if lvl == 5 {
        match t { Token::Or => Some(BinaryOp::Or), _ => None }
    } else if lvl == 4 {
        match t { Token::And => Some(BinaryOp::And), _ => None }
    } else if lvl == 3 {
        match t {
            Token::Eq => Some(BinaryOp::Eq),
            Token::Ne => Some(BinaryOp::Ne),
            Token::Gt => Some(BinaryOp::Gt),
            Token::Lt => Some(BinaryOp::Lt),
            Token::Ge => Some(BinaryOp::Ge),
            Token::Le => Some(BinaryOp::Le),
            _ => None,
        }
    } else if lvl == 2 {
        match t { Token::Plus => Some(BinaryOp::Add), Token::Minus => Some(BinaryOp::Sub), _ => None }
    } else {
        match t {
            Token::Star => Some(BinaryOp::Mul),
            Token::Slash => Some(BinaryOp::Div),
            Token::Percent => Some(BinaryOp::Mod),
            Token::At => Some(BinaryOp::MatMul),
            _ => None,
        }
    }
}

/// Parses an expression at `p` (assignment is the loosest form).
pub fn assignment(ts: &[TokenSpan], p: usize) -> (r: Result<(usize, Expression), usize>)
    requires
        p <= ts.len(),
        ts.len() < usize::MAX / 2,
    ensures
        rv(r, |e: Expression| ev(e)) == spec_assign(ts_seq_view(ts@), p as int),
        bounded(r, ts.len() as int),
    decreases ts.len() - p, 18int,
{
    match binary(ts, p, 5) {
        Err(e) => Err(e),
        Ok((q, l)) => {
            if at(ts, q, Token::Assign) && q >= p {
                match assignment(ts, q + 1) {
                    Ok((r, rt)) => Ok((r, Expression::BinaryOp(Box::new(l), BinaryOp::Assign, Box::new(rt)))),
                    Err(e) => Err(e),
                }
            } else {
                Ok((q, l))
            }
        },
    }
}

fn operand(ts: &[TokenSpan], p: usize, lvl: u8) -> (r: Result<(usize, Expression), usize>)
    requires
        p <= ts.len(),
        ts.len() < usize::MAX / 2,
        1 <= lvl <= 5,
    ensures
        rv(r, |e: Expression| ev(e)) == spec_operand(ts_seq_view(ts@), p as int, lvl as int),
        bounded(r, ts.len() as int),
    decreases ts.len() - p, rank(lvl as int) - 1,
{
    if lvl == 5 {
        binary(ts, p, 4)
    } else if lvl == 4 {
        not_expr(ts, p)
    } else if lvl == 3 {
        range_expr(ts, p)
    } else if lvl == 2 {
        binary(ts, p, 1)
    } else {
        primary(ts, p)
    }
}

fn binary(ts: &[TokenSpan], p: usize, lvl: u8) -> (r: Result<(usize, Expression), usize>)
    requires
        p <= ts.len(),
        ts.len() < usize::MAX / 2,
        1 <= lvl <= 5,
    ensures
        rv(r, |e: Expression| ev(e)) == spec_binary(ts_seq_view(ts@), p as int, lvl as int),
        bounded(r, ts.len() as int),
    decreases ts.len() - p, rank(lvl as int),
{
    match operand(ts, p, lvl) {
        Err(e) => Err(e),
        Ok((q, l)) => if p < q { binary_rest(ts, q, lvl, l) } else { Ok((q, l)) },
    }
}

fn binary_rest(ts: &[TokenSpan], p: usize, lvl: u8, left: Expression) -> (r: Result<(usize, Expression), usize>)
    requires
        p <= ts.len(),
        ts.len() < usize::MAX / 2,
        1 <= lvl <= 5,
    ensures
        rv(r, |e: Expression| ev(e)) == spec_binary_rest(ts_seq_view(ts@), p as int, lvl as int, ev(left)),
        bounded(r, ts.len() as int),
    decreases ts.len() - p, rank(lvl as int),
{
    if p >= ts.len() {
        return Ok((p, left));
    }
    match binop_at(ts, p, lvl) {
        None => Ok((p, left)),
        Some(op) => match operand(ts, p + 1, lvl) {
            Err(e) => Err(e),
            Ok((q, r)) => {
                let e = Expression::BinaryOp(Box::new(left), op, Box::new(r));
                if p < q { binary_rest(ts, q, lvl, e) } else { Ok((q, e)) }
            },
        },
    }
}

fn not_expr(ts: &[TokenSpan], p: usize) -> (r: Result<(usize, Expression), usize>)
    requires
        p <= ts.len(),
        ts.len() < usize::MAX / 2,
    ensures
        rv(r, |e: Expression| ev(e)) == spec_not(ts_seq_view(ts@), p as int),
        bounded(r, ts.len() as int),
    decreases ts.len() - p, 12int,
{
    if at(ts, p, Token::Not) {
        match not_expr(ts, p + 1) {
            Ok((q, e)) => Ok((q, Expression::Not(Box::new(e)))),
            Err(e) => Err(e),
        }
    } else {
        binary(ts, p, 3)
    }
}

fn range_expr(ts: &[TokenSpan], p: usize) -> (r: Result<(usize, Expression), usize>)
    requires
        p <= ts.len(),
        ts.len() < usize::MAX / 2,
    ensures
        rv(r, |e: Expression| ev(e)) == spec_range(ts_seq_view(ts@), p as int),
        bounded(r, ts.len() as int),
    decreases ts.len() - p, 8int,
{
    match binary(ts, p, 2) {
        Err(e) => Err(e),
        Ok((q, l)) => {
            let dd = at(ts, q, Token::DotDot);
            let dde = at(ts, q, Token::DotDotEq);
            if (dd || dde) && q >= p {
                match binary(ts, q + 1, 2) {
                    Err(e) => Err(e),
                    Ok((r, rt)) => {
                        if dde {
                            Ok((r, Expression::RangeInclusive(Box::new(l), Box::new(rt))))
                        } else {
                            Ok((r, Expression::Range(Box::new(l), Box::new(rt))))
                        }
                    },
                }
            } else {
                Ok((q, l))
            }
        },
    }
}

/// Parses expressions separated by commas starting at `p`.
fn expr_list(ts: &[TokenSpan], p: usize, acc0: Vec<Expression>) -> (r: (usize, Vec<Expression>))
    requires
        p <= ts.len(),
        ts.len() < usize::MAX / 2,
    ensures
        (r.0 as int, evs(r.1)) == spec_expr_list(ts_seq_view(ts@), p as int, evs(acc0)),
        r.0 <= ts.len(),
    decreases ts.len() - p, 20int,
{
    let ghost v = ts_seq_view(ts@);
    let mut acc = acc0;
    let mut cur = p;
    loop
        invariant
            p <= cur <= ts.len(),
            ts.len() < usize::MAX / 2,
            v == ts_seq_view(ts@),
            spec_expr_list(v, p as int, evs(acc0)) == spec_expr_list(v, cur as int, evs(acc)),
        decreases ts.len() - cur,
    {
        proof { lemma_push_views(); }
        match assignment(ts, cur) {
            Err(_) => return (cur, acc),
            Ok((q, e)) => {
                acc.push(e);
                if at(ts, q, Token::Comma) && q >= cur {
                    cur = q + 1;
                } else {
                    return (q, acc);
                }
            },
        }
    }
}

/// Parses the items of a bracketed list up to `close`.
fn items(ts: &[TokenSpan], p: usize, close: Token) -> (r: Result<(usize, Vec<Expression>), usize>)
    requires
        p <= ts.len(),
        ts.len() < usize::MAX / 2,
    ensures
        rv(r, |v: Vec<Expression>| evs(v)) == spec_items(ts_seq_view(ts@), p as int, tok_view(close)),
        bounded(r, ts.len() as int),
    decreases ts.len() - p, 21int,
{
    let indented = at(ts, p, Token::Indent);
    let q0 = if indented { p + 1 } else { p };
    proof { lemma_empty_views(); }
    let (q1, list) = expr_list(ts, q0, Vec::new());
    let q = if indented {
        if at(ts, q1, Token::Dedent) { q1 + 1 } else { return Err(q1) }
    } else {
        q1
    };
    if at(ts, q, close) { Ok((q + 1, list)) } else { Err(q) }
}

fn lambda_params(ts: &[TokenSpan], p: usize) -> (r: Result<(usize, Vec<Param>), usize>)
    requires
        p <= ts.len(),
        ts.len() < usize::MAX / 2,
    ensures
        rv(r, |v: Vec<Param>| params_view(v@)) == spec_lambda_params(ts_seq_view(ts@), p as int, seq![]),
        bounded(r, ts.len() as int),
{
    let ghost v = ts_seq_view(ts@);
    let mut acc: Vec<Param> = Vec::new();
    let mut cur = p;
    proof { lemma_empty_views(); }
    loop
        invariant
            p <= cur <= ts.len(),
            ts.len() < usize::MAX / 2,
            v == ts_seq_view(ts@),
            spec_lambda_params(v, p as int, seq![]) == spec_lambda_params(v, cur as int, params_view(acc@)),
        decreases ts.len() - cur,
    {
        proof { lemma_push_views(); }
        match ident(ts, cur) {
            None => return Ok((cur, acc)),
            Some(n) => {
                let (q, ty) = if at(ts, cur + 1, Token::Colon) {
                    match parse_type(ts, cur + 2) {
                        Ok((q, t)) => (q, Some(t)),
                        Err(e) => return Err(e),
                    }
                } else {
                    (cur + 1, None)
                };
                acc.push(Param { name: n, ty, is_mut: false });
                if at(ts, q, Token::Comma) && q >= cur {
                    cur = q + 1;
                } else {
                    return Ok((q, acc));
                }
            },
        }
    }
}

fn dict_rest(ts: &[TokenSpan], p: usize, acc0: Vec<(Expression, Expression)>) -> (r: Result<(usize, Vec<(Expression, Expression)>), usize>)
    requires
        p <= ts.len(),
        ts.len() < usize::MAX / 2,
    ensures
        rv(r, |v: Vec<(Expression, Expression)>| pairs_view(v@)) == spec_dict_rest(ts_seq_view(ts@), p as int, pairs_view(acc0@)),
        bounded(r, ts.len() as int),
    decreases ts.len() - p, 22int,
{
    let ghost v = ts_seq_view(ts@);
    let mut acc = acc0;
    let mut cur = p;
    loop
        invariant
            p <= cur <= ts.len(),
            ts.len() < usize::MAX / 2,
            v == ts_seq_view(ts@),
            spec_dict_rest(v, p as int, pairs_view(acc0@)) == spec_dict_rest(v, cur as int, pairs_view(acc@)),
        decreases ts.len() - cur,
    {
        proof { lemma_push_views(); }
        if at(ts, cur, Token::Comma) && !at(ts, cur + 1, Token::RBrace) {
            match assignment(ts, cur + 1) {
                Err(e) => return Err(e),
                Ok((q, k)) => {
                    if !at(ts, q, Token::Colon) || q < cur {
                        return Err(q);
                    }
                    match assignment(ts, q + 1) {
                        Err(e) => return Err(e),
                        Ok((r, val)) => {
                            if cur < r {
                                acc.push((k, val));
                                cur = r;
                            } else {
                                return Err(r);
                            }
                        },
                    }
                },
            }
        } else {
            let q = if at(ts, cur, Token::Comma) { cur + 1 } else { cur };
            if at(ts, q, Token::RBrace) { return Ok((q + 1, acc)); } else { return Err(q); }
        }
    }
}

#[verifier::rlimit(40)]
fn brace(ts: &[TokenSpan], p: usize) -> (r: Result<(usize, Expression), usize>)
    requires
        p <= ts.len(),
        ts.len() < usize::MAX / 2,
    ensures
        rv(r, |e: Expression| ev(e)) == spec_brace(ts_seq_view(ts@), p as int),
        bounded(r, ts.len() as int),
    decreases ts.len() - p, 23int,
{
    proof { lemma_empty_views(); lemma_push_views(); }
    if at(ts, p, Token::RBrace) {
        let empty: Vec<(Expression, Expression)> = Vec::new();
        let r = Expression::Literal(Literal::Dict(empty));
        assert(pairs_view(empty@) == Seq::<(SExpr, SExpr)>::empty());
        assert(ev(r) == SExpr::Lit(SLit::Dict(seq![])));
        return Ok((p + 1, r));
    }
    match assignment(ts, p) {
        Err(e) => Err(e),
        Ok((q, k)) => {
            if at(ts, q, Token::Colon) && q >= p {
                match assignment(ts, q + 1) {
                    Err(e) => Err(e),
                    Ok((r, val)) => {
                        if p <= r {
                            let ghost kv = (ev(k), ev(val));
                            let mut first: Vec<(Expression, Expression)> = Vec::new();
                            first.push((k, val));
                            assert(pairs_view(first@) =~= seq![kv]);
                            match dict_rest(ts, r, first) {
                                Err(e) => Err(e),
                                Ok((s, entries)) => Ok((s, Expression::Literal(Literal::Dict(entries)))),
                            }
                        } else {
                            Err(r)
                        }
                    },
                }
            } else {
                let ghost kv = ev(k);
                let mut first: Vec<Expression> = Vec::new();
                first.push(k);
                assert(exprs_view(first@) =~= seq![kv]);
                let (r, list) = if at(ts, q, Token::Comma) && q >= p {
                    expr_list(ts, q + 1, first)
                } else {
                    (q, first)
                };
                if at(ts, r, Token::RBrace) {
                    Ok((r + 1, Expression::Literal(Literal::SetLiteral(list))))
                } else {
                    Err(r)
                }
            }
        },
    }
}

fn paren(ts: &[TokenSpan], p: usize) -> (r: Result<(usize, Expression), usize>)
    requires
        p <= ts.len(),
        ts.len() < usize::MAX / 2,
    ensures
        rv(r, |e: Expression| ev(e)) == spec_paren(ts_seq_view(ts@), p as int),
        bounded(r, ts.len() as int),
    decreases ts.len() - p, 23int,
{
    proof { lemma_empty_views(); lemma_push_views(); }
    if at(ts, p, Token::RParen) {
        return Ok((p + 1, Expression::Tuple(Vec::new())));
    }
    match assignment(ts, p) {
        Err(e) => Err(e),
        Ok((q, e)) => {
            if at(ts, q, Token::Comma) && q >= p {
                let mut first: Vec<Expression> = Vec::new();
                first.push(e);
                let (r, list) = expr_list(ts, q + 1, first);
                if at(ts, r, Token::RParen) { Ok((r + 1, Expression::Tuple(list))) } else { Err(r) }
            } else if at(ts, q, Token::RParen) {
                Ok((q + 1, e))
            } else {
                Err(q)
            }
        },
    }
}

fn negate(e: Expression) -> (r: Expression)
    ensures
        ev(r) == negated(ev(e)),
{
    match e {
        Expression::Literal(Literal::Int(i)) => {
            let n = if i == i64::MIN { i } else { -i };
            let out = Expression::Literal(Literal::Int(n));
            assert(ev(e) == SExpr::Lit(SLit::Int(i as int)));
            assert(n as int == neg_int(i as int));
            assert(ev(out) == SExpr::Lit(SLit::Int(n as int)));
            out
        },
        Expression::Literal(Literal::Float(f)) => {
            let chars = crate::text::chars_of(f.as_str());
            let text = if chars.len() > 0 && chars[0] == '-' {
                crate::text::string_of_range(chars.as_slice(), 1, chars.len())
            } else {
                let mut t = String::new();
                push_char(&mut t, '-');
                t.append(f.as_str());
                t
            };
            proof {
                if chars.len() > 0 && chars[0] == '-' {
                    assert(f@.drop_first() =~= chars@.subrange(1, chars.len() as int));
                } else {
                    assert(text@ =~= seq!['-'] + f@);
                }
                assert(text@ == neg_float(f@));
            }
            let out = Expression::Literal(Literal::Float(text));
            assert(ev(out) == SExpr::Lit(SLit::Float(neg_float(f@))));
            out
        },
        other => {
            let zero = Expression::Literal(Literal::Int(0));
            assert(ev(zero) == SExpr::Lit(SLit::Int(0)));
            assert(!(ev(other) is Lit) || !(ev(other)->Lit_0 is Int || ev(other)->Lit_0 is Float));
            let out = Expression::BinaryOp(Box::new(zero), BinaryOp::Sub, Box::new(other));
            assert(ev(out) == SExpr::Bin(Box::new(SExpr::Lit(SLit::Int(0))), BinaryOp::Sub, Box::new(ev(other))));
            out
        },
    }
}

fn primary(ts: &[TokenSpan], p: usize) -> (r: Result<(usize, Expression), usize>)
    requires
        p <= ts.len(),
        ts.len() < usize::MAX / 2,
    ensures
        rv(r, |e: Expression| ev(e)) == spec_primary(ts_seq_view(ts@), p as int),
        bounded(r, ts.len() as int),
    decreases ts.len() - p, 2int,
{
    if p >= ts.len() {
        return Err(p);
    }
    proof { lemma_empty_views(); }
    match &ts[p].0 {
        Token::Minus => match primary(ts, p + 1) {
            Err(e) => Err(e),
            Ok((q, e)) => Ok((q, negate(e))),
        },
        Token::Float(f) => Ok((p + 1, Expression::Literal(Literal::Float(f.clone())))),
        Token::Int(i) => Ok((p + 1, Expression::Literal(Literal::Int(*i)))),
        Token::String(s) => Ok((p + 1, Expression::Literal(Literal::String(s.clone())))),
        Token::LBracket => match items(ts, p + 1, Token::RBracket) {
            Err(e) => Err(e),
            Ok((q, list)) => Ok((q, Expression::Literal(Literal::List(list)))),
        },
        Token::Dollar => match ident(ts, p + 1) {
            None => Err(p + 1),
            Some(name) => {
                if !at(ts, p + 2, Token::LParen) {
                    Err(p + 2)
                } else {
                    match items(ts, p + 3, Token::RParen) {
                        Err(e) => Err(e),
                        Ok((q, args)) => Ok((q, Expression::MacroCall(name, args))),
                    }
                }
            },
        },
        Token::Ampersand => match assignment(ts, p + 1) {
            Err(e) => Err(e),
            Ok((q, e)) => Ok((q, Expression::SharedRef(Box::new(e)))),
        },
        Token::Tilde => match assignment(ts, p + 1) {
            Err(e) => Err(e),
            Ok((q, e)) => Ok((q, Expression::UniqueRef(Box::new(e)))),
        },
        Token::Move => match assignment(ts, p + 1) {
            Err(e) => Err(e),
            Ok((q, e)) => Ok((q, Expression::Move(Box::new(e)))),
        },
        Token::Ident(n) => postfix(ts, p + 1, Expression::Ident(n.clone())),
        Token::LParen => paren(ts, p + 1),
        Token::LBrace => brace(ts, p + 1),
        Token::Pipe => match lambda_params(ts, p + 1) {
            Err(e) => Err(e),
            Ok((q, params)) => {
                if !at(ts, q, Token::Pipe) || q < p {
                    Err(q)
                } else {
                    match assignment(ts, q + 1) {
                        Err(e) => Err(e),
                        Ok((r, body)) => Ok((r, Expression::Lambda { params, body: Box::new(body) })),
                    }
                }
            },
        },
        _ => Err(p),
    }
}

fn postfix(ts: &[TokenSpan], p: usize, e: Expression) -> (r: Result<(usize, Expression), usize>)
    requires
        p <= ts.len(),
        ts.len() < usize::MAX / 2,
    ensures
        rv(r, |x: Expression| ev(x)) == spec_postfix(ts_seq_view(ts@), p as int, ev(e)),
        bounded(r, ts.len() as int),
    decreases ts.len() - p, 0int,
{
    if p >= ts.len() {
        return Ok((p, e));
    }
    proof { lemma_empty_views(); }
    match &ts[p].0 {
        Token::Dot => match ident(ts, p + 1) {
            None => Err(p + 1),
            Some(m) => postfix(ts, p + 2, Expression::MemberAccess(Box::new(e), m)),
        },
        Token::LBracket => {
            let (q, tys) = type_list(ts, p + 1);
            if tys.len() > 0 && at(ts, q, Token::RBracket) && at(ts, q + 1, Token::LParen) && q >= p {
                let (r, args) = expr_list(ts, q + 2, Vec::new());
                if !at(ts, r, Token::RParen) {
                    Err(r)
                } else if r < p {
                    Err(r)
                } else {
                    postfix(ts, r + 1, Expression::GenericCall(Box::new(e), tys, args))
                }
            } else {
                match assignment(ts, p + 1) {
                    Err(_) => Ok((p, e)),
                    Ok((r, idx)) => {
                        if !at(ts, r, Token::RBracket) {
                            Err(r)
                        } else if r < p {
                            Err(r)
                        } else {
                            postfix(ts, r + 1, Expression::Index(Box::new(e), Box::new(idx)))
                        }
                    },
                }
            }
        },
        Token::LParen => match items(ts, p + 1, Token::RParen) {
            Err(err) => Err(err),
            Ok((r, args)) => if p < r { postfix(ts, r, Expression::Call(Box::new(e), args)) } else { Err(r) },
        },
        Token::Question => postfix(ts, p + 1, Expression::Question(Box::new(e))),
        Token::BangBang => postfix(ts, p + 1, Expression::Unwrap(Box::new(e))),
        _ => Ok((p, e)),
    }
}


/// A minus sign before an integer literal makes the negative literal: the
/// primary `-i` parses to the literal `-i` (for every `i` but `i64::MIN`,
/// whose negation wraps to itself), reading both tokens.
pub proof fn law_minus_negates_literals(ts: Seq<(STok, int, int)>, p: int, i: int)
    requires
        0 <= p,
        is_tok(ts, p, STok::Minus),
        is_tok(ts, p + 1, STok::Int(i)),
        i != i64::MIN as int,
    ensures
        spec_primary(ts, p) == Ok::<(int, SExpr), int>((p + 2, SExpr::Lit(SLit::Int(-i)))),
{
    assert(spec_primary(ts, p + 1) == Ok::<(int, SExpr), int>((p + 2, SExpr::Lit(SLit::Int(i)))));
    assert(neg_int(i) == -i);
}

/// The tokens that a word of the language names.
pub open spec fn keyword_token(t: STok) -> bool {
    t == STok::Let || t == STok::Mut || t == STok::Move || t == STok::Def || t == STok::Protocol
        || t == STok::Struct || t == STok::Impl || t == STok::For || t == STok::While || t == STok::In
        || t == STok::If || t == STok::Else || t == STok::Return || t == STok::Break || t == STok::Continue
        || t == STok::Elif || t == STok::And || t == STok::Or || t == STok::Not || t == STok::Import
        || t == STok::PyImport || t == STok::Match || t == STok::As || t == STok::From || t == STok::Enum
}

/// Each keyword is read as the token it spells: a word that is a keyword
/// gives a token whose spelling is that word, and the spelling of every
/// keyword token is read back as that token. So distinct keywords give
/// distinct tokens (`continue` is never read as `break`).
pub proof fn law_keywords_spell_themselves(w: Seq<char>, t: STok)
    ensures
        keyword(w) == Some(t) ==> keyword_token(t) && token_text(t) == w,
        keyword_token(t) ==> keyword(token_text(t)) == Some(t),
{
    reveal_strlit("let");
    reveal_strlit("mut");
    reveal_strlit("move");
    reveal_strlit("def");
    reveal_strlit("protocol");
    reveal_strlit("struct");
    reveal_strlit("impl");
    reveal_strlit("for");
    reveal_strlit("while");
    reveal_strlit("in");
    reveal_strlit("if");
    reveal_strlit("else");
    reveal_strlit("return");
    reveal_strlit("break");
    reveal_strlit("continue");
    reveal_strlit("elif");
    reveal_strlit("and");
    reveal_strlit("or");
    reveal_strlit("not");
    reveal_strlit("import");
    reveal_strlit("pyimport");
    reveal_strlit("match");
    reveal_strlit("as");
    reveal_strlit("from");
    reveal_strlit("enum");
    match t {
        STok::Let => {
        },
        STok::Mut => {
            assert("mut"@[0] != "let"@[0]);
        },
        STok::Move => {
            assert("move"@.len() != "let"@.len());
            assert("move"@.len() != "mut"@.len());
        },
        STok::Def => {
            assert("def"@[0] != "let"@[0]);
            assert("def"@[0] != "mut"@[0]);
            assert("def"@.len() != "move"@.len());
        },
        STok::Protocol => {
            assert("protocol"@.len() != "let"@.len());
            assert("protocol"@.len() != "mut"@.len());
            assert("protocol"@.len() != "move"@.len());
            assert("protocol"@.len() != "def"@.len());
        },
        STok::Struct => {
            assert("struct"@.len() != "let"@.len());
            assert("struct"@.len() != "mut"@.len());
            assert("struct"@.len() != "move"@.len());
            assert("struct"@.len() != "def"@.len());
            assert("struct"@.len() != "protocol"@.len());
        },
        STok::Impl => {
            assert("impl"@.len() != "let"@.len());
            assert("impl"@.len() != "mut"@.len());
            assert("impl"@[0] != "move"@[0]);
            assert("impl"@.len() != "def"@.len());
            assert("impl"@.len() != "protocol"@.len());
            assert("impl"@.len() != "struct"@.len());
        },
        STok::For => {
            assert("for"@[0] != "let"@[0]);
            assert("for"@[0] != "mut"@[0]);
            assert("for"@.len() != "move"@.len());
            assert("for"@[0] != "def"@[0]);
            assert("for"@.len() != "protocol"@.len());
            assert("for"@.len() != "struct"@.len());
            assert("for"@.len() != "impl"@.len());
        },
        STok::While => {
            assert("while"@.len() != "let"@.len());
            assert("while"@.len() != "mut"@.len());
            assert("while"@.len() != "move"@.len());
            assert("while"@.len() != "def"@.len());
            assert("while"@.len() != "protocol"@.len());
            assert("while"@.len() != "struct"@.len());
            assert("while"@.len() != "impl"@.len());
            assert("while"@.len() != "for"@.len());
        },
        STok::In => {
            assert("in"@.len() != "let"@.len());
            assert("in"@.len() != "mut"@.len());
            assert("in"@.len() != "move"@.len());
            assert("in"@.len() != "def"@.len());
            assert("in"@.len() != "protocol"@.len());
            assert("in"@.len() != "struct"@.len());
            assert("in"@.len() != "impl"@.len());
            assert("in"@.len() != "for"@.len());
            assert("in"@.len() != "while"@.len());
        },
        STok::If => {
            assert("if"@.len() != "let"@.len());
            assert("if"@.len() != "mut"@.len());
            assert("if"@.len() != "move"@.len());
            assert("if"@.len() != "def"@.len());
            assert("if"@.len() != "protocol"@.len());
            assert("if"@.len() != "struct"@.len());
            assert("if"@.len() != "impl"@.len());
            assert("if"@.len() != "for"@.len());
            assert("if"@.len() != "while"@.len());
            assert("if"@[1] != "in"@[1]);
        },
        STok::Else => {
            assert("else"@.len() != "let"@.len());
            assert("else"@.len() != "mut"@.len());
            assert("else"@[0] != "move"@[0]);
            assert("else"@.len() != "def"@.len());
            assert("else"@.len() != "protocol"@.len());
            assert("else"@.len() != "struct"@.len());
            assert("else"@[0] != "impl"@[0]);
            assert("else"@.len() != "for"@.len());
            assert("else"@.len() != "while"@.len());
            assert("else"@.len() != "in"@.len());
            assert("else"@.len() != "if"@.len());
        },
        STok::Return => {
            assert("return"@.len() != "let"@.len());
            assert("return"@.len() != "mut"@.len());
            assert("return"@.len() != "move"@.len());
            assert("return"@.len() != "def"@.len());
            assert("return"@.len() != "protocol"@.len());
            assert("return"@[0] != "struct"@[0]);
            assert("return"@.len() != "impl"@.len());
            assert("return"@.len() != "for"@.len());
            assert("return"@.len() != "while"@.len());
            assert("return"@.len() != "in"@.len());
            assert("return"@.len() != "if"@.len());
            assert("return"@.len() != "else"@.len());
        },
        STok::Break => {
            assert("break"@.len() != "let"@.len());
            assert("break"@.len() != "mut"@.len());
            assert("break"@.len() != "move"@.len());
            assert("break"@.len() != "def"@.len());
            assert("break"@.len() != "protocol"@.len());
            assert("break"@.len() != "struct"@.len());
            assert("break"@.len() != "impl"@.len());
            assert("break"@.len() != "for"@.len());
            assert("break"@[0] != "while"@[0]);
            assert("break"@.len() != "in"@.len());
            assert("break"@.len() != "if"@.len());
            assert("break"@.len() != "else"@.len());
            assert("break"@.len() != "return"@.len());
        },
        STok::Continue => {
            assert("continue"@.len() != "let"@.len());
            assert("continue"@.len() != "mut"@.len());
            assert("continue"@.len() != "move"@.len());
            assert("continue"@.len() != "def"@.len());
            assert("continue"@[0] != "protocol"@[0]);
            assert("continue"@.len() != "struct"@.len());
            assert("continue"@.len() != "impl"@.len());
            assert("continue"@.len() != "for"@.len());
            assert("continue"@.len() != "while"@.len());
            assert("continue"@.len() != "in"@.len());
            assert("continue"@.len() != "if"@.len());
            assert("continue"@.len() != "else"@.len());
            assert("continue"@.len() != "return"@.len());
            assert("continue"@.len() != "break"@.len());
        },
        STok::Elif => {
            assert("elif"@.len() != "let"@.len());
            assert("elif"@.len() != "mut"@.len());
            assert("elif"@[0] != "move"@[0]);
            assert("elif"@.len() != "def"@.len());
            assert("elif"@.len() != "protocol"@.len());
            assert("elif"@.len() != "struct"@.len());
            assert("elif"@[0] != "impl"@[0]);
            assert("elif"@.len() != "for"@.len());
            assert("elif"@.len() != "while"@.len());
            assert("elif"@.len() != "in"@.len());
            assert("elif"@.len() != "if"@.len());
            assert("elif"@[2] != "else"@[2]);
            assert("elif"@.len() != "return"@.len());
            assert("elif"@.len() != "break"@.len());
            assert("elif"@.len() != "continue"@.len());
        },
        STok::And => {
            assert("and"@[0] != "let"@[0]);
            assert("and"@[0] != "mut"@[0]);
            assert("and"@.len() != "move"@.len());
            assert("and"@[0] != "def"@[0]);
            assert("and"@.len() != "protocol"@.len());
            assert("and"@.len() != "struct"@.len());
            assert("and"@.len() != "impl"@.len());
            assert("and"@[0] != "for"@[0]);
            assert("and"@.len() != "while"@.len());
            assert("and"@.len() != "in"@.len());
            assert("and"@.len() != "if"@.len());
            assert("and"@.len() != "else"@.len());
            assert("and"@.len() != "return"@.len());
            assert("and"@.len() != "break"@.len());
            assert("and"@.len() != "continue"@.len());
            assert("and"@.len() != "elif"@.len());
        },
        STok::Or => {
            assert("or"@.len() != "let"@.len());
            assert("or"@.len() != "mut"@.len());
            assert("or"@.len() != "move"@.len());
            assert("or"@.len() != "def"@.len());
            assert("or"@.len() != "protocol"@.len());
            assert("or"@.len() != "struct"@.len());
            assert("or"@.len() != "impl"@.len());
            assert("or"@.len() != "for"@.len());
            assert("or"@.len() != "while"@.len());
            assert("or"@[0] != "in"@[0]);
            assert("or"@[0] != "if"@[0]);
            assert("or"@.len() != "else"@.len());
            assert("or"@.len() != "return"@.len());
            assert("or"@.len() != "break"@.len());
            assert("or"@.len() != "continue"@.len());
            assert("or"@.len() != "elif"@.len());
            assert("or"@.len() != "and"@.len());
        },
        STok::Not => {
            assert("not"@[0] != "let"@[0]);
            assert("not"@[0] != "mut"@[0]);
            assert("not"@.len() != "move"@.len());
            assert("not"@[0] != "def"@[0]);
            assert("not"@.len() != "protocol"@.len());
            assert("not"@.len() != "struct"@.len());
            assert("not"@.len() != "impl"@.len());
            assert("not"@[0] != "for"@[0]);
            assert("not"@.len() != "while"@.len());
            assert("not"@.len() != "in"@.len());
            assert("not"@.len() != "if"@.len());
            assert("not"@.len() != "else"@.len());
            assert("not"@.len() != "return"@.len());
            assert("not"@.len() != "break"@.len());
            assert("not"@.len() != "continue"@.len());
            assert("not"@.len() != "elif"@.len());
            assert("not"@[0] != "and"@[0]);
            assert("not"@.len() != "or"@.len());
        },
        STok::Import => {
            assert("import"@.len() != "let"@.len());
            assert("import"@.len() != "mut"@.len());
            assert("import"@.len() != "move"@.len());
            assert("import"@.len() != "def"@.len());
            assert("import"@.len() != "protocol"@.len());
            assert("import"@[0] != "struct"@[0]);
            assert("import"@.len() != "impl"@.len());
            assert("import"@.len() != "for"@.len());
            assert("import"@.len() != "while"@.len());
            assert("import"@.len() != "in"@.len());
            assert("import"@.len() != "if"@.len());
            assert("import"@.len() != "else"@.len());
            assert("import"@[0] != "return"@[0]);
            assert("import"@.len() != "break"@.len());
            assert("import"@.len() != "continue"@.len());
            assert("import"@.len() != "elif"@.len());
            assert("import"@.len() != "and"@.len());
            assert("import"@.len() != "or"@.len());
            assert("import"@.len() != "not"@.len());
        },
        STok::PyImport => {
            assert("pyimport"@.len() != "let"@.len());
            assert("pyimport"@.len() != "mut"@.len());
            assert("pyimport"@.len() != "move"@.len());
            assert("pyimport"@.len() != "def"@.len());
            assert("pyimport"@[1] != "protocol"@[1]);
            assert("pyimport"@.len() != "struct"@.len());
            assert("pyimport"@.len() != "impl"@.len());
            assert("pyimport"@.len() != "for"@.len());
            assert("pyimport"@.len() != "while"@.len());
            assert("pyimport"@.len() != "in"@.len());
            assert("pyimport"@.len() != "if"@.len());
            assert("pyimport"@.len() != "else"@.len());
            assert("pyimport"@.len() != "return"@.len());
            assert("pyimport"@.len() != "break"@.len());
            assert("pyimport"@[0] != "continue"@[0]);
            assert("pyimport"@.len() != "elif"@.len());
            assert("pyimport"@.len() != "and"@.len());
            assert("pyimport"@.len() != "or"@.len());
            assert("pyimport"@.len() != "not"@.len());
            assert("pyimport"@.len() != "import"@.len());
        },
        STok::Match => {
            assert("match"@.len() != "let"@.len());
            assert("match"@.len() != "mut"@.len());
            assert("match"@.len() != "move"@.len());
            assert("match"@.len() != "def"@.len());
            assert("match"@.len() != "protocol"@.len());
            assert("match"@.len() != "struct"@.len());
            assert("match"@.len() != "impl"@.len());
            assert("match"@.len() != "for"@.len());
            assert("match"@[0] != "while"@[0]);
            assert("match"@.len() != "in"@.len());
            assert("match"@.len() != "if"@.len());
            assert("match"@.len() != "else"@.len());
            assert("match"@.len() != "return"@.len());
            assert("match"@[0] != "break"@[0]);
            assert("match"@.len() != "continue"@.len());
            assert("match"@.len() != "elif"@.len());
            assert("match"@.len() != "and"@.len());
            assert("match"@.len() != "or"@.len());
            assert("match"@.len() != "not"@.len());
            assert("match"@.len() != "import"@.len());
            assert("match"@.len() != "pyimport"@.len());
        },
        STok::As => {
            assert("as"@.len() != "let"@.len());
            assert("as"@.len() != "mut"@.len());
            assert("as"@.len() != "move"@.len());
            assert("as"@.len() != "def"@.len());
            assert("as"@.len() != "protocol"@.len());
            assert("as"@.len() != "struct"@.len());
            assert("as"@.len() != "impl"@.len());
            assert("as"@.len() != "for"@.len());
            assert("as"@.len() != "while"@.len());
            assert("as"@[0] != "in"@[0]);
            assert("as"@[0] != "if"@[0]);
            assert("as"@.len() != "else"@.len());
            assert("as"@.len() != "return"@.len());
            assert("as"@.len() != "break"@.len());
            assert("as"@.len() != "continue"@.len());
            assert("as"@.len() != "elif"@.len());
            assert("as"@.len() != "and"@.len());
            assert("as"@[0] != "or"@[0]);
            assert("as"@.len() != "not"@.len());
            assert("as"@.len() != "import"@.len());
            assert("as"@.len() != "pyimport"@.len());
            assert("as"@.len() != "match"@.len());
        },
        STok::From => {
            assert("from"@.len() != "let"@.len());
            assert("from"@.len() != "mut"@.len());
            assert("from"@[0] != "move"@[0]);
            assert("from"@.len() != "def"@.len());
            assert("from"@.len() != "protocol"@.len());
            assert("from"@.len() != "struct"@.len());
            assert("from"@[0] != "impl"@[0]);
            assert("from"@.len() != "for"@.len());
            assert("from"@.len() != "while"@.len());
            assert("from"@.len() != "in"@.len());
            assert("from"@.len() != "if"@.len());
            assert("from"@[0] != "else"@[0]);
            assert("from"@.len() != "return"@.len());
            assert("from"@.len() != "break"@.len());
            assert("from"@.len() != "continue"@.len());
            assert("from"@[0] != "elif"@[0]);
            assert("from"@.len() != "and"@.len());
            assert("from"@.len() != "or"@.len());
            assert("from"@.len() != "not"@.len());
            assert("from"@.len() != "import"@.len());
            assert("from"@.len() != "pyimport"@.len());
            assert("from"@.len() != "match"@.len());
            assert("from"@.len() != "as"@.len());
        },
        STok::Enum => {
            assert("enum"@.len() != "let"@.len());
            assert("enum"@.len() != "mut"@.len());
            assert("enum"@[0] != "move"@[0]);
            assert("enum"@.len() != "def"@.len());
            assert("enum"@.len() != "protocol"@.len());
            assert("enum"@.len() != "struct"@.len());
            assert("enum"@[0] != "impl"@[0]);
            assert("enum"@.len() != "for"@.len());
            assert("enum"@.len() != "while"@.len());
            assert("enum"@.len() != "in"@.len());
            assert("enum"@.len() != "if"@.len());
            assert("enum"@[1] != "else"@[1]);
            assert("enum"@.len() != "return"@.len());
            assert("enum"@.len() != "break"@.len());
            assert("enum"@.len() != "continue"@.len());
            assert("enum"@[1] != "elif"@[1]);
            assert("enum"@.len() != "and"@.len());
            assert("enum"@.len() != "or"@.len());
            assert("enum"@.len() != "not"@.len());
            assert("enum"@.len() != "import"@.len());
            assert("enum"@.len() != "pyimport"@.len());
            assert("enum"@.len() != "match"@.len());
            assert("enum"@.len() != "as"@.len());
            assert("enum"@[0] != "from"@[0]);
        },
        _ => {},
    }
}


/// A minus sign negates what follows it: before a float literal it makes
/// the negative literal, two minus signs before an integer literal (as the
/// lexer reads them, from 0 to `i64::MAX`) give the integer back, and before a name `n` it makes `0 - n`.
pub proof fn law_minus_negates(ts: Seq<(STok, int, int)>, p: int, i: int, f: Seq<char>, n: Seq<char>)
    requires
        0 <= p,
    ensures
        is_tok(ts, p, STok::Minus) && is_tok(ts, p + 1, STok::Float(f)) && f.len() > 0 && f[0] != '-'
            ==> spec_primary(ts, p) == Ok::<(int, SExpr), int>((p + 2, SExpr::Lit(SLit::Float(seq!['-'] + f)))),
        is_tok(ts, p, STok::Minus) && is_tok(ts, p + 1, STok::Minus) && is_tok(ts, p + 2, STok::Int(i))
            && 0 <= i <= i64::MAX
            ==> spec_primary(ts, p) == Ok::<(int, SExpr), int>((p + 3, SExpr::Lit(SLit::Int(i)))),
        is_tok(ts, p, STok::Minus) && is_tok(ts, p + 1, STok::Ident(n)) && p + 2 == ts.len()
            ==> spec_primary(ts, p) == Ok::<(int, SExpr), int>((p + 2, SExpr::Bin(
                Box::new(SExpr::Lit(SLit::Int(0))), BinaryOp::Sub, Box::new(SExpr::Ident(n))))),
{
    if is_tok(ts, p, STok::Minus) && is_tok(ts, p + 1, STok::Float(f)) {
        assert(spec_primary(ts, p + 1) == Ok::<(int, SExpr), int>((p + 2, SExpr::Lit(SLit::Float(f)))));
    }
    if is_tok(ts, p, STok::Minus) && is_tok(ts, p + 1, STok::Minus) && is_tok(ts, p + 2, STok::Int(i)) {
        assert(spec_primary(ts, p + 2) == Ok::<(int, SExpr), int>((p + 3, SExpr::Lit(SLit::Int(i)))));
        assert(spec_primary(ts, p + 1) == Ok::<(int, SExpr), int>((p + 3, SExpr::Lit(SLit::Int(neg_int(i))))));
        if 0 <= i <= i64::MAX {
            assert(neg_int(neg_int(i)) == i);
        }
    }
    if is_tok(ts, p, STok::Minus) && is_tok(ts, p + 1, STok::Ident(n)) && p + 2 == ts.len() {
        assert(spec_postfix(ts, p + 2, SExpr::Ident(n)) == Ok::<(int, SExpr), int>((p + 2, SExpr::Ident(n))));
        assert(spec_primary(ts, p + 1) == Ok::<(int, SExpr), int>((p + 2, SExpr::Ident(n))));
    }
}

} // verus!
