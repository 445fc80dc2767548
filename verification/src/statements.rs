//! Executable statement parsing. Each function returns exactly what its
//! `spec_*` counterpart in `parser` says. Besides the base language, they
//! read `enum` declarations and tuple patterns in `for` loops and bindings
//! (see the README's section on syntax beyond the base language).
use std::ops::Range;
use vstd::prelude::*;
use crate::ast::{
    EnumVariant, Expression, ImportItem, Param, Pattern, Program, SImport, SKind, SParam, SPattern,
    SStmt, SType, SVariant, Statement, StatementKind, Type, arms_view, expr_view, import_view,
    kind_view, lemma_empty_views, lemma_push_views, opt_expr_view, opt_str_view, opt_type_view,
    param_view, params_view, pattern_view, patterns_view, stmt_view, stmts_view, type_view,
    types_view, variant_view,
};
use crate::lexer::{STok, Token, TokenSpan, ts_seq_view, tok_view};
use crate::parser::{
    ParseError, assignment, at, bounded, ident, ident_at, is_tok, parse_type, rv, spec_arms,
    spec_binding, spec_block, spec_block_items, spec_def, spec_def_params, spec_dotted, spec_enum,
    spec_fields, spec_for, spec_from_import, spec_if, spec_impl, spec_import, spec_import_items,
    spec_import_path, spec_match, spec_named_block, spec_opt_alias, spec_opt_annotation,
    spec_parse_program, spec_pattern, spec_pattern_list, spec_program_from, spec_py_tokens,
    spec_pyimport, spec_statement, spec_statement_kind, spec_struct, spec_type_list, spec_variants,
    spec_while, start_of, end_before, tk, token_text, type_list,
};
use crate::text::{int_to_text, push_char, push_str};

verus! {

/// Parses a pattern at `p`.
pub fn pattern(ts: &[TokenSpan], p: usize) -> (r: Result<(usize, Pattern), usize>)
    requires
        p <= ts.len(),
        ts.len() < usize::MAX / 2,
    ensures
        rv(r, |x: Pattern| pattern_view(x)) == spec_pattern(ts_seq_view(ts@), p as int),
        bounded(r, ts.len() as int),
    decreases ts.len() - p, 0int,
{
    match ident(ts, p) {
        Some(n) => Ok((p + 1, Pattern::Name(n))),
        None => {
            if at(ts, p, Token::LParen) {
                let (q, items) = pattern_list(ts, p + 1);
                if at(ts, q, Token::RParen) { Ok((q + 1, Pattern::Tuple(items))) } else { Err(q) }
            } else {
                Err(p)
            }
        },
    }
}

fn pattern_list(ts: &[TokenSpan], p: usize) -> (r: (usize, Vec<Pattern>))
    requires
        p <= ts.len(),
        ts.len() < usize::MAX / 2,
    ensures
        (r.0 as int, patterns_view(r.1@)) == spec_pattern_list(ts_seq_view(ts@), p as int, seq![]),
        r.0 <= ts.len(),
    decreases ts.len() - p, 1int,
{
    let ghost v = ts_seq_view(ts@);
    let mut acc: Vec<Pattern> = Vec::new();
    let mut cur = p;
    proof { lemma_empty_views(); }
    loop
        invariant
            p <= cur <= ts.len(),
            ts.len() < usize::MAX / 2,
            v == ts_seq_view(ts@),
            spec_pattern_list(v, p as int, seq![]) == spec_pattern_list(v, cur as int, patterns_view(acc@)),
        decreases ts.len() - cur,
    {
        proof { lemma_push_views(); }
        match pattern(ts, cur) {
            Err(_) => return (cur, acc),
            Ok((q, pt)) => {
                acc.push(pt);
                if at(ts, q, Token::Comma) && q >= cur {
                    cur = q + 1;
                } else {
                    return (q, acc);
                }
            },
        }
    }
}

fn opt_annotation(ts: &[TokenSpan], p: usize, sep: Token) -> (r: Result<(usize, Option<Type>), usize>)
    requires
        p <= ts.len(),
        ts.len() < usize::MAX / 2,
    ensures
        rv(r, |x: Option<Type>| opt_type_view(x)) == spec_opt_annotation(ts_seq_view(ts@), p as int, tok_view(sep)),
        bounded(r, ts.len() as int),
{
    if at(ts, p, sep) {
        match parse_type(ts, p + 1) {
            Ok((q, t)) => Ok((q, Some(t))),
            Err(e) => Err(e),
        }
    } else {
        Ok((p, None))
    }
}

pub open spec fn binding_view(b: (Pattern, Option<Type>, Expression)) -> (SPattern, Option<SType>, crate::ast::SExpr) {
    (pattern_view(b.0), opt_type_view(b.1), expr_view(b.2))
}

fn binding(ts: &[TokenSpan], p: usize, kw: Token) -> (r: Result<(usize, (Pattern, Option<Type>, Expression)), usize>)
    requires
        p <= ts.len(),
        ts.len() < usize::MAX / 2,
    ensures
        rv(r, |b: (Pattern, Option<Type>, Expression)| binding_view(b)) == spec_binding(ts_seq_view(ts@), p as int, tok_view(kw)),
        bounded(r, ts.len() as int),
{
    if !at(ts, p, kw) {
        return Err(p);
    }
    match pattern(ts, p + 1) {
        Err(e) => Err(e),
        Ok((q, pat)) => match opt_annotation(ts, q, Token::Colon) {
            Err(e) => Err(e),
            Ok((r, ty)) => {
                if !at(ts, r, Token::Assign) {
                    Err(r)
                } else {
                    match assignment(ts, r + 1) {
                        Err(e) => Err(e),
                        Ok((s, v)) => Ok((s, (pat, ty, v))),
                    }
                }
            },
        },
    }
}

fn dotted(ts: &[TokenSpan], p: usize, first: String) -> (r: Result<(usize, String), usize>)
    requires
        p <= ts.len(),
        ts.len() < usize::MAX / 2,
    ensures
        rv(r, |s: String| s@) == spec_dotted(ts_seq_view(ts@), p as int, first@),
        bounded(r, ts.len() as int),
{
    let ghost v = ts_seq_view(ts@);
    let mut acc = first;
    let mut cur = p;
    loop
        invariant
            p <= cur <= ts.len(),
            ts.len() < usize::MAX / 2,
            v == ts_seq_view(ts@),
            spec_dotted(v, p as int, first@) == spec_dotted(v, cur as int, acc@),
        decreases ts.len() - cur,
    {
        if at(ts, cur, Token::Dot) {
            match ident(ts, cur + 1) {
                None => return Err(cur + 1),
                Some(part) => {
                    let ghost before = acc@;
                    push_char(&mut acc, '/');
                    push_str(&mut acc, part.as_str());
                    assert(acc@ == before + seq!['/'] + part@);
                    cur = cur + 2;
                },
            }
        } else {
            return Ok((cur, acc));
        }
    }
}

fn import_path(ts: &[TokenSpan], p: usize) -> (r: Result<(usize, String), usize>)
    requires
        p <= ts.len(),
        ts.len() < usize::MAX / 2,
    ensures
        rv(r, |s: String| s@) == spec_import_path(ts_seq_view(ts@), p as int),
        bounded(r, ts.len() as int),
{
    if p < ts.len() {
        if let Token::String(s) = &ts[p].0 {
            return Ok((p + 1, s.clone()));
        }
    }
    match ident(ts, p) {
        None => Err(p),
        Some(first) => dotted(ts, p + 1, first),
    }
}

fn opt_alias(ts: &[TokenSpan], p: usize) -> (r: Result<(usize, Option<String>), usize>)
    requires
        p <= ts.len(),
        ts.len() < usize::MAX / 2,
    ensures
        rv(r, |a: Option<String>| opt_str_view(a)) == spec_opt_alias(ts_seq_view(ts@), p as int),
        bounded(r, ts.len() as int),
{
    if at(ts, p, Token::As) {
        match ident(ts, p + 1) {
            None => Err(p + 1),
            Some(a) => Ok((p + 2, Some(a))),
        }
    } else {
        Ok((p, None))
    }
}

fn import_stmt(ts: &[TokenSpan], p: usize) -> (r: Result<(usize, StatementKind), usize>)
    requires
        p <= ts.len(),
        ts.len() < usize::MAX / 2,
    ensures
        rv(r, |k: StatementKind| kind_view(k)) == spec_import(ts_seq_view(ts@), p as int),
        bounded(r, ts.len() as int),
{
    if !at(ts, p, Token::Import) {
        return Err(p);
    }
    match import_path(ts, p + 1) {
        Err(e) => Err(e),
        Ok((q, path)) => match opt_alias(ts, q) {
            Err(e) => Err(e),
            Ok((r, alias)) => Ok((r, StatementKind::Import { path, alias })),
        },
    }
}

pub open spec fn imports_view(s: Seq<ImportItem>) -> Seq<SImport> {
    s.map_values(|i: ImportItem| import_view(i))
}

fn import_items(ts: &[TokenSpan], p: usize, first: ImportItem) -> (r: Result<(usize, Vec<ImportItem>), usize>)
    requires
        p <= ts.len(),
        ts.len() < usize::MAX / 2,
    ensures
        rv(r, |v: Vec<ImportItem>| imports_view(v@)) == spec_import_items(ts_seq_view(ts@), p as int, seq![import_view(first)]),
        bounded(r, ts.len() as int),
{
    let ghost v = ts_seq_view(ts@);
    let mut acc: Vec<ImportItem> = Vec::new();
    acc.push(first);
    assert(imports_view(acc@) =~= seq![import_view(first)]);
    let mut cur = p;
    loop
        invariant
            p <= cur <= ts.len(),
            ts.len() < usize::MAX / 2,
            v == ts_seq_view(ts@),
            spec_import_items(v, p as int, seq![import_view(first)]) == spec_import_items(v, cur as int, imports_view(acc@)),
        decreases ts.len() - cur,
    {
        if at(ts, cur, Token::Comma) {
            match ident(ts, cur + 1) {
                None => return Err(cur + 1),
                Some(n) => match opt_alias(ts, cur + 2) {
                    Err(e) => return Err(e),
                    Ok((q, alias)) => {
                        if q > cur {
                            let ghost before = acc@;
                            let item = ImportItem { name: n, alias };
                            acc.push(item);
                            assert(imports_view(acc@) =~= imports_view(before).push(import_view(item)));
                            cur = q;
                        } else {
                            return Err(q);
                        }
                    },
                },
            }
        } else {
            return Ok((cur, acc));
        }
    }
}

fn from_import(ts: &[TokenSpan], p: usize) -> (r: Result<(usize, StatementKind), usize>)
    requires
        p <= ts.len(),
        ts.len() < usize::MAX / 2,
    ensures
        rv(r, |k: StatementKind| kind_view(k)) == spec_from_import(ts_seq_view(ts@), p as int),
        bounded(r, ts.len() as int),
{
    if !at(ts, p, Token::From) {
        return Err(p);
    }
    match import_path(ts, p + 1) {
        Err(e) => Err(e),
        Ok((q, path)) => {
            if !at(ts, q, Token::Import) {
                return Err(q);
            }
            match ident(ts, q + 1) {
                None => Err(q + 1),
                Some(n) => match opt_alias(ts, q + 2) {
                    Err(e) => Err(e),
                    Ok((r, alias)) => {
                        let first = ImportItem { name: n, alias };
                        match import_items(ts, r, first) {
                            Err(e) => Err(e),
                            Ok((s, items)) => Ok((s, StatementKind::FromImport { path, items })),
                        }
                    },
                },
            }
        },
    }
}

fn def_params(ts: &[TokenSpan], p: usize) -> (r: Result<(usize, Vec<Param>), usize>)
    requires
        p <= ts.len(),
        ts.len() < usize::MAX / 2,
    ensures
        rv(r, |v: Vec<Param>| params_view(v@)) == spec_def_params(ts_seq_view(ts@), p as int, seq![]),
        bounded(r, ts.len() as int),
{
    let ghost v = ts_seq_view(ts@);
    let mut acc: Vec<Param> = Vec::new();
    let mut cur = p;
    proof { lemma_empty_views(); }
    loop
        invariant
            p <= cur <= ts.len(),
            ts.len() < usize::MAX / 2,
            v == ts_seq_view(ts@),
            spec_def_params(v, p as int, seq![]) == spec_def_params(v, cur as int, params_view(acc@)),
        decreases ts.len() - cur,
    {
        proof { lemma_push_views(); }
        if cur >= ts.len() {
            return Ok((cur, acc));
        }
        let is_mut = matches!(ts[cur].0, Token::Mut);
        let q = if is_mut { cur + 1 } else { cur };
        match ident(ts, q) {
            None => return Ok((cur, acc)),
            Some(n) => match opt_annotation(ts, q + 1, Token::Colon) {
                Err(e) => return Err(e),
                Ok((r, ty)) => {
                    acc.push(Param { name: n, ty, is_mut });
                    if at(ts, r, Token::Comma) && r >= cur {
                        cur = r + 1;
                    } else {
                        return Ok((r, acc));
                    }
                },
            },
        }
    }
}

fn fields(ts: &[TokenSpan], p: usize) -> (r: Result<(usize, Vec<Param>), usize>)
    requires
        p <= ts.len(),
        ts.len() < usize::MAX / 2,
    ensures
        rv(r, |v: Vec<Param>| params_view(v@)) == spec_fields(ts_seq_view(ts@), p as int, seq![]),
        bounded(r, ts.len() as int),
{
    let ghost v = ts_seq_view(ts@);
    let mut acc: Vec<Param> = Vec::new();
    let mut cur = p;
    proof { lemma_empty_views(); }
    loop
        invariant
            p <= cur <= ts.len(),
            ts.len() < usize::MAX / 2,
            v == ts_seq_view(ts@),
            spec_fields(v, p as int, seq![]) == spec_fields(v, cur as int, params_view(acc@)),
        decreases ts.len() - cur,
    {
        proof { lemma_push_views(); }
        match ident(ts, cur) {
            None => return Ok((cur, acc)),
            Some(n) => {
                if !at(ts, cur + 1, Token::Colon) {
                    return Err(cur + 1);
                }
                match parse_type(ts, cur + 2) {
                    Err(e) => return Err(e),
                    Ok((q, t)) => {
                        acc.push(Param { name: n, ty: Some(t), is_mut: false });
                        if cur < q {
                            cur = q;
                        } else {
                            return Ok((q, acc));
                        }
                    },
                }
            },
        }
    }
}

pub open spec fn variants_view(s: Seq<EnumVariant>) -> Seq<SVariant> {
    s.map_values(|x: EnumVariant| variant_view(x))
}

fn variants(ts: &[TokenSpan], p: usize) -> (r: Result<(usize, Vec<EnumVariant>), usize>)
    requires
        p <= ts.len(),
        ts.len() < usize::MAX / 2,
    ensures
        rv(r, |v: Vec<EnumVariant>| variants_view(v@)) == spec_variants(ts_seq_view(ts@), p as int, seq![]),
        bounded(r, ts.len() as int),
{
    let ghost v = ts_seq_view(ts@);
    let mut acc: Vec<EnumVariant> = Vec::new();
    let mut cur = p;
    assert(variants_view(acc@) =~= seq![]);
    loop
        invariant
            p <= cur <= ts.len(),
            ts.len() < usize::MAX / 2,
            v == ts_seq_view(ts@),
            spec_variants(v, p as int, seq![]) == spec_variants(v, cur as int, variants_view(acc@)),
        decreases ts.len() - cur,
    {
        proof { lemma_empty_views(); }
        match ident(ts, cur) {
            None => return Ok((cur, acc)),
            Some(n) => {
                let r: Result<(usize, Vec<Type>), usize> = if at(ts, cur + 1, Token::LParen) {
                    let (q, tys) = type_list(ts, cur + 2);
                    if at(ts, q, Token::RParen) { Ok((q + 1, tys)) } else { Err(q) }
                } else {
                    Ok((cur + 1, Vec::new()))
                };
                match r {
                    Err(e) => return Err(e),
                    Ok((q, fs)) => {
                        let ghost before = acc@;
                        let item = EnumVariant { name: n, fields: fs };
                        acc.push(item);
                        assert(variants_view(acc@) =~= variants_view(before).push(variant_view(item)));
                        if cur < q {
                            cur = q;
                        } else {
                            return Ok((q, acc));
                        }
                    },
                }
            },
        }
    }
}

/// How a token is written inside a `pyimport` block.
fn token_string(t: &Token) -> (r: String)
    ensures
        r@ == token_text(tok_view(*t)),
{
    match t {
        Token::Let => "let".to_owned(),
        Token::Mut => "mut".to_owned(),
        Token::Move => "move".to_owned(),
        Token::Def => "def".to_owned(),
        Token::Protocol => "protocol".to_owned(),
        Token::Struct => "struct".to_owned(),
        Token::Impl => "impl".to_owned(),
        Token::For => "for".to_owned(),
        Token::While => "while".to_owned(),
        Token::In => "in".to_owned(),
        Token::If => "if".to_owned(),
        Token::Else => "else".to_owned(),
        Token::Return => "return".to_owned(),
        Token::Break => "break".to_owned(),
        Token::Continue => "continue".to_owned(),
        Token::Elif => "elif".to_owned(),
        Token::And => "and".to_owned(),
        Token::Or => "or".to_owned(),
        Token::Not => "not".to_owned(),
        Token::Import => "import".to_owned(),
        Token::PyImport => "pyimport".to_owned(),
        Token::Match => "match".to_owned(),
        Token::As => "as".to_owned(),
        Token::From => "from".to_owned(),
        Token::Enum => "enum".to_owned(),
        Token::Colon => ":".to_owned(),
        Token::Arrow => "->".to_owned(),
        Token::Question => "?".to_owned(),
        Token::BangBang => "!!".to_owned(),
        Token::DotDotEq => "..=".to_owned(),
        Token::DotDot => "..".to_owned(),
        Token::Dot => ".".to_owned(),
        Token::Pipe => "|".to_owned(),
        Token::LBracket => "[".to_owned(),
        Token::RBracket => "]".to_owned(),
        Token::LParen => "(".to_owned(),
        Token::RParen => ")".to_owned(),
        Token::LBrace => "{".to_owned(),
        Token::RBrace => "}".to_owned(),
        Token::Comma => ",".to_owned(),
        Token::Assign => "=".to_owned(),
        Token::Eq => "==".to_owned(),
        Token::Ne => "!=".to_owned(),
        Token::Gt => ">".to_owned(),
        Token::Lt => "<".to_owned(),
        Token::Ge => ">=".to_owned(),
        Token::Le => "<=".to_owned(),
        Token::At => "@".to_owned(),
        Token::Dollar => "$".to_owned(),
        Token::Ampersand => "&".to_owned(),
        Token::Tilde => "~".to_owned(),
        Token::Plus => "+".to_owned(),
        Token::Minus => "-".to_owned(),
        Token::Star => "*".to_owned(),
        Token::Percent => "%".to_owned(),
        Token::Slash => "/".to_owned(),
        Token::Ident(n) => n.clone(),
        Token::Float(f) => f.clone(),
        Token::Int(i) => int_to_text(*i),
        Token::String(s) => {
            let mut out = String::new();
            push_char(&mut out, '"');
            push_str(&mut out, s.as_str());
            push_char(&mut out, '"');
            out
        },
        Token::NewlineWithIndent => "\\n".to_owned(),
        Token::Whitespace => " ".to_owned(),
        Token::Comment => "#".to_owned(),
        Token::Indent => "<indent>".to_owned(),
        Token::Dedent => "<dedent>".to_owned(),
    }
}

fn py_tokens(ts: &[TokenSpan], p: usize) -> (r: Result<(usize, String), usize>)
    requires
        p <= ts.len(),
        ts.len() < usize::MAX / 2,
    ensures
        rv(r, |s: String| s@) == spec_py_tokens(ts_seq_view(ts@), p as int, seq![], true),
        bounded(r, ts.len() as int),
{
    let ghost v = ts_seq_view(ts@);
    let mut acc = String::new();
    let mut first = true;
    let mut cur = p;
    loop
        invariant
            p <= cur <= ts.len(),
            ts.len() < usize::MAX / 2,
            v == ts_seq_view(ts@),
            spec_py_tokens(v, p as int, seq![], true) == spec_py_tokens(v, cur as int, acc@, first),
        decreases ts.len() - cur,
    {
        if cur >= ts.len() {
            return Err(ts.len());
        }
        match &ts[cur].0 {
            Token::Dedent => return Ok((cur + 1, acc)),
            Token::Indent => {},
            t => {
                let ghost before = acc@;
                if !first {
                    push_char(&mut acc, ' ');
                }
                let piece = token_string(t);
                push_str(&mut acc, piece.as_str());
                assert(acc@ == (if first { before } else { before + seq![' '] }) + token_text(v[cur as int].0));
                first = false;
            },
        }
        cur = cur + 1;
    }
}

fn pyimport(ts: &[TokenSpan], p: usize) -> (r: Result<(usize, StatementKind), usize>)
    requires
        p <= ts.len(),
        ts.len() < usize::MAX / 2,
    ensures
        rv(r, |k: StatementKind| kind_view(k)) == spec_pyimport(ts_seq_view(ts@), p as int),
        bounded(r, ts.len() as int),
{
    if !at(ts, p, Token::PyImport) {
        Err(p)
    } else if !at(ts, p + 1, Token::Colon) {
        Err(p + 1)
    } else if !at(ts, p + 2, Token::Indent) {
        Err(p + 2)
    } else {
        match py_tokens(ts, p + 3) {
            Err(e) => Err(e),
            Ok((q, content)) => Ok((q, StatementKind::PyImport(content))),
        }
    }
}

fn start_at(ts: &[TokenSpan], p: usize) -> (r: usize)
    ensures
        r as int == start_of(ts_seq_view(ts@), p as int),
{
    if p < ts.len() { ts[p].1.start } else { 0 }
}

fn end_at(ts: &[TokenSpan], p: usize, q: usize) -> (r: usize)
    ensures
        r as int == end_before(ts_seq_view(ts@), p as int, q as int),
{
    if p < q && q - 1 < ts.len() {
        ts[q - 1].1.end
    } else if p < ts.len() {
        ts[p].1.end
    } else {
        0
    }
}

/// Parses one statement at `p`.
pub fn statement(ts: &[TokenSpan], p: usize) -> (r: Result<(usize, Statement), usize>)
    requires
        p <= ts.len(),
        ts.len() < usize::MAX / 2,
    ensures
        rv(r, |x: Statement| stmt_view(x)) == spec_statement(ts_seq_view(ts@), p as int),
        bounded(r, ts.len() as int),
    decreases ts.len() - p, 2int,
{
    match statement_kind(ts, p) {
        Err(e) => Err(e),
        Ok((q, kind)) => {
            let start = start_at(ts, p);
            let end = end_at(ts, p, q);
            Ok((q, Statement { kind, span: Range { start, end } }))
        },
    }
}

fn statement_kind(ts: &[TokenSpan], p: usize) -> (r: Result<(usize, StatementKind), usize>)
    requires
        p <= ts.len(),
        ts.len() < usize::MAX / 2,
    ensures
        rv(r, |k: StatementKind| kind_view(k)) == spec_statement_kind(ts_seq_view(ts@), p as int),
        bounded(r, ts.len() as int),
    decreases ts.len() - p, 1int,
{
    let ghost v = ts_seq_view(ts@);
    if let Ok((q, (pattern, ty, value))) = binding(ts, p, Token::Let) {
        return Ok((q, StatementKind::Let { pattern, ty, value }));
    }
    if let Ok((q, (pattern, ty, value))) = binding(ts, p, Token::Mut) {
        return Ok((q, StatementKind::Mut { pattern, ty, value }));
    }
    let r = from_import(ts, p);
    if r.is_ok() {
        return r;
    }
    let r = import_stmt(ts, p);
    if r.is_ok() {
        return r;
    }
    let r = def(ts, p);
    if r.is_ok() {
        return r;
    }
    if at(ts, p, Token::Return) {
        return match assignment(ts, p + 1) {
            Ok((q, e)) => Ok((q, StatementKind::Return(Some(e)))),
            Err(_) => Ok((p + 1, StatementKind::Return(None))),
        };
    }
    let r = if_stmt(ts, p, Token::If);
    if r.is_ok() {
        return r;
    }
    let r = for_stmt(ts, p);
    if r.is_ok() {
        return r;
    }
    let r = while_stmt(ts, p);
    if r.is_ok() {
        return r;
    }
    let r = struct_stmt(ts, p);
    if r.is_ok() {
        return r;
    }
    let r = enum_stmt(ts, p);
    if r.is_ok() {
        return r;
    }
    let r = protocol_stmt(ts, p);
    if r.is_ok() {
        return r;
    }
    let r = impl_stmt(ts, p);
    if r.is_ok() {
        return r;
    }
    let r = pyimport(ts, p);
    if r.is_ok() {
        return r;
    }
    let r = match_stmt(ts, p);
    if r.is_ok() {
        return r;
    }
    if at(ts, p, Token::Break) {
        return Ok((p + 1, StatementKind::Break));
    }
    if at(ts, p, Token::Continue) {
        return Ok((p + 1, StatementKind::Continue));
    }
    match assignment(ts, p) {
        Ok((q, e)) => Ok((q, StatementKind::Expr(e))),
        Err(e) => Err(e),
    }
}

/// Parses an indented block at `p`.
pub fn block(ts: &[TokenSpan], p: usize) -> (r: Result<(usize, Vec<Statement>), usize>)
    requires
        p <= ts.len(),
        ts.len() < usize::MAX / 2,
    ensures
        rv(r, |v: Vec<Statement>| stmts_view(v@)) == spec_block(ts_seq_view(ts@), p as int),
        bounded(r, ts.len() as int),
    decreases ts.len() - p, 4int,
{
    if !at(ts, p, Token::Indent) {
        Err(p)
    } else {
        block_items(ts, p + 1)
    }
}

fn block_items(ts: &[TokenSpan], p: usize) -> (r: Result<(usize, Vec<Statement>), usize>)
    requires
        p <= ts.len(),
        ts.len() < usize::MAX / 2,
    ensures
        rv(r, |v: Vec<Statement>| stmts_view(v@)) == spec_block_items(ts_seq_view(ts@), p as int, seq![]),
        bounded(r, ts.len() as int),
    decreases ts.len() - p, 3int,
{
    let ghost v = ts_seq_view(ts@);
    let mut acc: Vec<Statement> = Vec::new();
    let mut cur = p;
    proof { lemma_empty_views(); }
    loop
        invariant
            p <= cur <= ts.len(),
            ts.len() < usize::MAX / 2,
            v == ts_seq_view(ts@),
            spec_block_items(v, p as int, seq![]) == spec_block_items(v, cur as int, stmts_view(acc@)),
        decreases ts.len() - cur,
    {
        proof { lemma_push_views(); }
        if cur >= ts.len() {
            return Err(ts.len());
        }
        if matches!(ts[cur].0, Token::Dedent) {
            return Ok((cur + 1, acc));
        }
        match statement(ts, cur) {
            Err(e) => return Err(e),
            Ok((q, st)) => {
                if cur < q {
                    acc.push(st);
                    cur = q;
                } else {
                    return Err(q);
                }
            },
        }
    }
}

fn def(ts: &[TokenSpan], p: usize) -> (r: Result<(usize, StatementKind), usize>)
    requires
        p <= ts.len(),
        ts.len() < usize::MAX / 2,
    ensures
        rv(r, |k: StatementKind| kind_view(k)) == spec_def(ts_seq_view(ts@), p as int),
        bounded(r, ts.len() as int),
    decreases ts.len() - p, 0int,
{
    if !at(ts, p, Token::Def) {
        return Err(p);
    }
    let name = match ident(ts, p + 1) {
        None => return Err(p + 1),
        Some(n) => n,
    };
    if !at(ts, p + 2, Token::LParen) {
        return Err(p + 2);
    }
    let (q, params) = match def_params(ts, p + 3) {
        Err(e) => return Err(e),
        Ok(x) => x,
    };
    if !at(ts, q, Token::RParen) {
        return Err(q);
    }
    let (r, return_ty) = match opt_annotation(ts, q + 1, Token::Arrow) {
        Err(e) => return Err(e),
        Ok(x) => x,
    };
    if !at(ts, r, Token::Colon) || r < p {
        return Err(r);
    }
    match block(ts, r + 1) {
        Err(e) => Err(e),
        Ok((s, body)) => Ok((s, StatementKind::Def { name, params, return_ty, body })),
    }
}

fn if_stmt(ts: &[TokenSpan], p: usize, kw: Token) -> (r: Result<(usize, StatementKind), usize>)
    requires
        p <= ts.len(),
        ts.len() < usize::MAX / 2,
    ensures
        rv(r, |k: StatementKind| kind_view(k)) == spec_if(ts_seq_view(ts@), p as int, tok_view(kw)),
        bounded(r, ts.len() as int),
    decreases ts.len() - p, 0int,
{
    if !at(ts, p, kw) {
        return Err(p);
    }
    let (q, condition) = match assignment(ts, p + 1) {
        Err(e) => return Err(e),
        Ok(x) => x,
    };
    if !at(ts, q, Token::Colon) || q < p {
        return Err(q);
    }
    let (r, then_block) = match block(ts, q + 1) {
        Err(e) => return Err(e),
        Ok(x) => x,
    };
    if at(ts, r, Token::Else) {
        if !at(ts, r + 1, Token::Colon) {
            Err(r + 1)
        } else if r < p {
            Err(r)
        } else {
            match block(ts, r + 2) {
                Err(e) => Err(e),
                Ok((s, else_block)) => Ok((s, StatementKind::If { condition, then_block, else_block: Some(else_block) })),
            }
        }
    } else if at(ts, r, Token::Elif) && r > p {
        match if_stmt(ts, r, Token::Elif) {
            Err(e) => Err(e),
            Ok((s, nested)) => {
                let start = start_at(ts, r);
                let end = end_at(ts, r, s);
                let mut else_block: Vec<Statement> = Vec::new();
                else_block.push(Statement { kind: nested, span: Range { start, end } });
                proof {
                    lemma_empty_views();
                    lemma_push_views();
                }
                Ok((s, StatementKind::If { condition, then_block, else_block: Some(else_block) }))
            },
        }
    } else {
        Ok((r, StatementKind::If { condition, then_block, else_block: None }))
    }
}

fn for_stmt(ts: &[TokenSpan], p: usize) -> (r: Result<(usize, StatementKind), usize>)
    requires
        p <= ts.len(),
        ts.len() < usize::MAX / 2,
    ensures
        rv(r, |k: StatementKind| kind_view(k)) == spec_for(ts_seq_view(ts@), p as int),
        bounded(r, ts.len() as int),
    decreases ts.len() - p, 0int,
{
    if !at(ts, p, Token::For) {
        return Err(p);
    }
    let (q, pattern) = match pattern(ts, p + 1) {
        Err(e) => return Err(e),
        Ok(x) => x,
    };
    if !at(ts, q, Token::In) {
        return Err(q);
    }
    let (r, iterable) = match assignment(ts, q + 1) {
        Err(e) => return Err(e),
        Ok(x) => x,
    };
    if !at(ts, r, Token::Colon) || r < p {
        return Err(r);
    }
    match block(ts, r + 1) {
        Err(e) => Err(e),
        Ok((s, body)) => Ok((s, StatementKind::For { pattern, iterable, body })),
    }
}

fn while_stmt(ts: &[TokenSpan], p: usize) -> (r: Result<(usize, StatementKind), usize>)
    requires
        p <= ts.len(),
        ts.len() < usize::MAX / 2,
    ensures
        rv(r, |k: StatementKind| kind_view(k)) == spec_while(ts_seq_view(ts@), p as int),
        bounded(r, ts.len() as int),
    decreases ts.len() - p, 0int,
{
    if !at(ts, p, Token::While) {
        return Err(p);
    }
    let (q, condition) = match assignment(ts, p + 1) {
        Err(e) => return Err(e),
        Ok(x) => x,
    };
    if !at(ts, q, Token::Colon) || q < p {
        return Err(q);
    }
    match block(ts, q + 1) {
        Err(e) => Err(e),
        Ok((r, body)) => Ok((r, StatementKind::While { condition, body })),
    }
}

fn struct_stmt(ts: &[TokenSpan], p: usize) -> (r: Result<(usize, StatementKind), usize>)
    requires
        p <= ts.len(),
        ts.len() < usize::MAX / 2,
    ensures
        rv(r, |k: StatementKind| kind_view(k)) == spec_struct(ts_seq_view(ts@), p as int),
        bounded(r, ts.len() as int),
{
    if !at(ts, p, Token::Struct) {
        return Err(p);
    }
    let name = match ident(ts, p + 1) {
        None => return Err(p + 1),
        Some(n) => n,
    };
    if !at(ts, p + 2, Token::Colon) {
        Err(p + 2)
    } else if !at(ts, p + 3, Token::Indent) {
        Err(p + 3)
    } else {
        match fields(ts, p + 4) {
            Err(e) => Err(e),
            Ok((q, fields)) => {
                if at(ts, q, Token::Dedent) { Ok((q + 1, StatementKind::Struct { name, fields })) } else { Err(q) }
            },
        }
    }
}

fn enum_stmt(ts: &[TokenSpan], p: usize) -> (r: Result<(usize, StatementKind), usize>)
    requires
        p <= ts.len(),
        ts.len() < usize::MAX / 2,
    ensures
        rv(r, |k: StatementKind| kind_view(k)) == spec_enum(ts_seq_view(ts@), p as int),
        bounded(r, ts.len() as int),
{
    if !at(ts, p, Token::Enum) {
        return Err(p);
    }
    let name = match ident(ts, p + 1) {
        None => return Err(p + 1),
        Some(n) => n,
    };
    if !at(ts, p + 2, Token::Colon) {
        Err(p + 2)
    } else if !at(ts, p + 3, Token::Indent) {
        Err(p + 3)
    } else {
        match variants(ts, p + 4) {
            Err(e) => Err(e),
            Ok((q, variants)) => {
                if at(ts, q, Token::Dedent) { Ok((q + 1, StatementKind::Enum { name, variants })) } else { Err(q) }
            },
        }
    }
}

fn protocol_stmt(ts: &[TokenSpan], p: usize) -> (r: Result<(usize, StatementKind), usize>)
    requires
        p <= ts.len(),
        ts.len() < usize::MAX / 2,
    ensures
        rv(r, |k: StatementKind| kind_view(k)) == spec_named_block(ts_seq_view(ts@), p as int, STok::Protocol),
        bounded(r, ts.len() as int),
    decreases ts.len() - p, 0int,
{
    if !at(ts, p, Token::Protocol) {
        return Err(p);
    }
    let name = match ident(ts, p + 1) {
        None => return Err(p + 1),
        Some(n) => n,
    };
    if !at(ts, p + 2, Token::Colon) {
        return Err(p + 2);
    }
    match block(ts, p + 3) {
        Err(e) => Err(e),
        Ok((q, methods)) => Ok((q, StatementKind::Protocol { name, methods })),
    }
}

fn impl_stmt(ts: &[TokenSpan], p: usize) -> (r: Result<(usize, StatementKind), usize>)
    requires
        p <= ts.len(),
        ts.len() < usize::MAX / 2,
    ensures
        rv(r, |k: StatementKind| kind_view(k)) == spec_impl(ts_seq_view(ts@), p as int),
        bounded(r, ts.len() as int),
    decreases ts.len() - p, 0int,
{
    if !at(ts, p, Token::Impl) {
        return Err(p);
    }
    let name1 = match ident(ts, p + 1) {
        None => return Err(p + 1),
        Some(n) => n,
    };
    if at(ts, p + 2, Token::For) {
        let name2 = match ident(ts, p + 3) {
            None => return Err(p + 3),
            Some(n) => n,
        };
        if !at(ts, p + 4, Token::Colon) {
            return Err(p + 4);
        }
        match block(ts, p + 5) {
            Err(e) => Err(e),
            Ok((q, methods)) => Ok((q, StatementKind::Impl { protocol: Some(name1), for_type: name2, methods })),
        }
    } else if !at(ts, p + 2, Token::Colon) {
        Err(p + 2)
    } else {
        match block(ts, p + 3) {
            Err(e) => Err(e),
            Ok((q, methods)) => Ok((q, StatementKind::Impl { protocol: None, for_type: name1, methods })),
        }
    }
}

fn arms(ts: &[TokenSpan], p: usize) -> (r: Result<(usize, Vec<(Expression, Vec<Statement>)>), usize>)
    requires
        p <= ts.len(),
        ts.len() < usize::MAX / 2,
    ensures
        rv(r, |v: Vec<(Expression, Vec<Statement>)>| arms_view(v@)) == spec_arms(ts_seq_view(ts@), p as int, seq![]),
        bounded(r, ts.len() as int),
    decreases ts.len() - p, 0int,
{
    let ghost v = ts_seq_view(ts@);
    let mut acc: Vec<(Expression, Vec<Statement>)> = Vec::new();
    let mut cur = p;
    proof { lemma_empty_views(); }
    loop
        invariant
            p <= cur <= ts.len(),
            ts.len() < usize::MAX / 2,
            v == ts_seq_view(ts@),
            spec_arms(v, p as int, seq![]) == spec_arms(v, cur as int, arms_view(acc@)),
        decreases ts.len() - cur,
    {
        proof { lemma_push_views(); }
        let (q, pat) = match assignment(ts, cur) {
            Err(_) => return Ok((cur, acc)),
            Ok(x) => x,
        };
        if !at(ts, q, Token::Colon) || q < cur {
            return Err(q);
        }
        let (r, body) = match block(ts, q + 1) {
            Err(e) => return Err(e),
            Ok(x) => x,
        };
        acc.push((pat, body));
        if at(ts, r, Token::Dedent) || r <= cur || r > ts.len() {
            return Ok((r, acc));
        }
        cur = r;
    }
}

fn match_stmt(ts: &[TokenSpan], p: usize) -> (r: Result<(usize, StatementKind), usize>)
    requires
        p <= ts.len(),
        ts.len() < usize::MAX / 2,
    ensures
        rv(r, |k: StatementKind| kind_view(k)) == spec_match(ts_seq_view(ts@), p as int),
        bounded(r, ts.len() as int),
    decreases ts.len() - p, 0int,
{
    if !at(ts, p, Token::Match) {
        return Err(p);
    }
    let (q, expression) = match assignment(ts, p + 1) {
        Err(e) => return Err(e),
        Ok(x) => x,
    };
    if !at(ts, q, Token::Colon) {
        Err(q)
    } else if !at(ts, q + 1, Token::Indent) || q < p {
        Err(q + 1)
    } else {
        match arms(ts, q + 2) {
            Err(err) => Err(err),
            Ok((r, arms)) => {
                if at(ts, r, Token::Dedent) { Ok((r + 1, StatementKind::Match { expression, arms })) } else { Err(r) }
            },
        }
    }
}

/// Parses a whole program: statements until the tokens run out, skipping
/// stray dedents between top-level statements. On success the position is
/// the token count; on failure the error holds the index of the token where
/// the failing rule stopped.
pub fn parse_program(ts: &[TokenSpan]) -> (r: Result<(usize, Program), ParseError>)
    requires
        ts.len() < usize::MAX / 2,
    ensures
        match r {
            Ok((q, prog)) => q == ts.len() && spec_parse_program(ts_seq_view(ts@)) == Ok::<Seq<SStmt>, int>(prog@),
            Err(e) => spec_parse_program(ts_seq_view(ts@)) == Err::<Seq<SStmt>, int>(e.position as int),
        },
{
    let ghost v = ts_seq_view(ts@);
    let mut acc: Vec<Statement> = Vec::new();
    let mut cur: usize = 0;
    proof { lemma_empty_views(); }
    loop
        invariant
            cur <= ts.len(),
            ts.len() < usize::MAX / 2,
            v == ts_seq_view(ts@),
            spec_parse_program(v) == spec_program_from(v, cur as int, stmts_view(acc@)),
        decreases ts.len() - cur,
    {
        proof { lemma_push_views(); }
        if cur >= ts.len() {
            return Ok((cur, Program { statements: acc }));
        }
        if matches!(ts[cur].0, Token::Dedent) {
            cur = cur + 1;
        } else {
            match statement(ts, cur) {
                Err(e) => return Err(ParseError { position: e }),
                Ok((q, st)) => {
                    if cur < q {
                        acc.push(st);
                        cur = q;
                    } else {
                        return Err(ParseError { position: q });
                    }
                },
            }
        }
    }
}

} // verus!
