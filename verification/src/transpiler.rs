//! Lowering of a Desert program to Rust source, with a map from each
//! generated line back to the Desert line it came from.
//!
//! The generated text is stated line by line: `spec_program_lines` gives each
//! Rust line with the Desert line (0-based) it is mapped to, and the output is
//! those lines, each followed by a newline.
use vstd::prelude::*;
use vstd::string::StrSliceExecFns;
use crate::ast::{
    BinaryOp, EnumVariant, Expression, ImportItem, Literal, Param, Pattern, Program, SExpr, SImport,
    SKind, SLit, SParam, SPattern, SStmt, SType, SVariant, Statement, StatementKind, Type,
    arms_view, expr_view, exprs_view, import_view, kind_view, lemma_arms_view, lemma_exprs_view, lemma_pairs_view,
    lemma_patterns_view, lemma_stmts_view, lemma_types_view, pairs_view, param_view, params_view,
    pattern_names, pattern_view, patterns_view, stmt_view, stmts_view, type_view, types_view,
    variant_view,
};
use crate::imports::{rust_use_from_from_import, rust_use_from_import, spec_use_list, spec_use_path, with_alias};
use crate::resolver::{Resolver, initial_types, static_receiver};
use crate::sourcemap::{SLoc, SourceLocation, SourceMap, span_location, with_mapping};
use crate::text::{
    char_index_of_byte, char_of_byte, chars_of, int_text, int_to_text, join, join_strings, push_char, push_str,
    string_of, string_of_range, string_views, text_eq,
};

verus! {

// ---------------------------------------------------------------------------
// Types and small pieces.
// ---------------------------------------------------------------------------

/// `List` is written `Vec` in Rust.
pub open spec fn rust_type_name(n: Seq<char>) -> Seq<char> {
    if n == "List"@ { "Vec"@ } else { n }
}

/// A Desert type in Rust: `List` is `Vec`, `Str` is `String`, `&T` stays,
/// `~T` is `&mut T`, and a one-element tuple gets its trailing comma.
pub open spec fn rust_type(t: SType) -> Seq<char>
    decreases t,
{
    match t {
        SType::Simple(n) => if n == "Str"@ { "String"@ } else { rust_type_name(n) },
        SType::Generic(n, args) => rust_type_name(n) + "<"@ + join(rust_types(args), ", "@) + ">"@,
        SType::Tuple(items) => "("@ + join(rust_types(items), ", "@) + (if items.len() == 1 { ","@ } else { ""@ }) + ")"@,
        SType::SharedRef(b) => "&"@ + rust_type(*b),
        SType::UniqueRef(b) => "&mut "@ + rust_type(*b),
    }
}

pub open spec fn rust_types(s: Seq<SType>) -> Seq<Seq<char>>
    decreases s,
{
    if s.len() == 0 {
        seq![]
    } else {
        rust_types(s.subrange(0, s.len() - 1)).push(rust_type(s[s.len() - 1]))
    }
}

pub open spec fn op_text(op: BinaryOp) -> Seq<char> {
    match op {
        BinaryOp::Add => "+"@,
        BinaryOp::Sub => "-"@,
        BinaryOp::Mul => "*"@,
        BinaryOp::Mod => "%"@,
        BinaryOp::Div => "/"@,
        BinaryOp::And => "&&"@,
        BinaryOp::Or => "||"@,
        BinaryOp::Assign => "="@,
        BinaryOp::Eq => "=="@,
        BinaryOp::Ne => "!="@,
        BinaryOp::Gt => ">"@,
        BinaryOp::Lt => "<"@,
        BinaryOp::Ge => ">="@,
        BinaryOp::Le => "<="@,
        BinaryOp::MatMul => "@"@,
    }
}

/// A pattern in Rust: a name, or `(a, b)`.
pub open spec fn rust_pattern(p: SPattern) -> Seq<char>
    decreases p,
{
    match p {
        SPattern::Name(n) => n,
        SPattern::Tuple(items) => "("@ + join(rust_patterns(items), ", "@) + (if items.len() == 1 { ","@ } else { ""@ }) + ")"@,
    }
}

pub open spec fn rust_patterns(s: Seq<SPattern>) -> Seq<Seq<char>>
    decreases s,
{
    if s.len() == 0 {
        seq![]
    } else {
        rust_patterns(s.subrange(0, s.len() - 1)).push(rust_pattern(s[s.len() - 1]))
    }
}

/// Whether Rust's `char::is_whitespace` holds.
pub open spec fn is_ws(c: char) -> bool {
    c == ' ' || ('\t' <= c && c <= '\r') || c == '\u{85}' || c == '\u{a0}' || c == '\u{1680}'
        || ('\u{2000}' <= c && c <= '\u{200a}') || c == '\u{2028}' || c == '\u{2029}'
        || c == '\u{202f}' || c == '\u{205f}' || c == '\u{3000}'
}

pub open spec fn trim_ws_start(s: Seq<char>) -> Seq<char>
    decreases s.len(),
{
    if s.len() > 0 && is_ws(s[0]) { trim_ws_start(s.drop_first()) } else { s }
}

pub open spec fn trim_ws_end(s: Seq<char>) -> Seq<char>
    decreases s.len(),
{
    if s.len() > 0 && is_ws(s.last()) { trim_ws_end(s.drop_last()) } else { s }
}

/// `s` without leading and trailing whitespace, as `str::trim` gives it.
pub open spec fn trim_ws(s: Seq<char>) -> Seq<char> {
    trim_ws_end(trim_ws_start(s))
}

/// The first index at or after `i` holding `c`, or the length of `s`.
pub open spec fn find_char(s: Seq<char>, c: char, i: int) -> int
    decreases s.len() - i,
{
    if i < 0 || i >= s.len() {
        s.len() as int
    } else if s[i] == c {
        i
    } else {
        find_char(s, c, i + 1)
    }
}

/// Scanning a `$print` string literal from `i`: the `format!` template, the
/// plain template, and the placeholder expressions. `{}` is kept as text
/// (doubled in the `format!` template), `{expr}` becomes `{:?}` with `expr`
/// (trimmed) as an argument, and an unclosed `{` is kept as text.
pub open spec fn scan_print(s: Seq<char>, i: int, fmt: Seq<char>, plain: Seq<char>, args: Seq<Seq<char>>) -> (Seq<char>, Seq<char>, Seq<Seq<char>>)
    decreases s.len() - i,
{
    let rest = s.subrange(i, s.len() as int);
    if i < 0 || i > s.len() {
        (fmt, plain, args)
    } else {
        let open = find_char(s, '{', i);
        if !(i <= open < s.len()) {
            (fmt + rest, plain + rest, args)
        } else {
            let close = find_char(s, '}', open + 1);
            if !(open < close < s.len()) {
                (fmt + rest, plain + rest, args)
            } else {
                let prefix = s.subrange(i, open);
                let ph = trim_ws(s.subrange(open + 1, close));
                if ph.len() == 0 {
                    scan_print(s, close + 1, fmt + prefix + "{{}}"@, plain + prefix + "{}"@, args)
                } else {
                    scan_print(s, close + 1, fmt + prefix + "{:?}"@, plain + prefix + "{:?}"@, args.push(ph))
                }
            }
        }
    }
}

/// A string literal printed by `$print`: a plain string when it has no
/// `{expr}` placeholders, else a `format!` call with them as arguments.
pub open spec fn print_literal(s: Seq<char>) -> Seq<char> {
    let (fmt, plain, args) = scan_print(s, 0, seq![], seq![], seq![]);
    if args.len() == 0 {
        "\""@ + plain + "\".to_string()"@
    } else {
        "format!(\""@ + fmt + "\", "@ + join(args, ", "@) + ")"@
    }
}

// ---------------------------------------------------------------------------
// Expressions.
// ---------------------------------------------------------------------------

/// What lowering needs to know: each declared struct with its field names
/// (in declaration order), the declared protocols, the type names, and the
/// value scopes that shadow them.
pub struct TCtx {
    pub structs: Seq<(Seq<char>, Seq<Seq<char>>)>,
    pub protocols: Seq<Seq<char>>,
    pub types: Seq<Seq<char>>,
    pub scopes: Seq<Seq<Seq<char>>>,
}

/// The fields of the last struct declared as `n`.
pub open spec fn struct_fields_of(structs: Seq<(Seq<char>, Seq<Seq<char>>)>, n: Seq<char>) -> Option<Seq<Seq<char>>>
    decreases structs.len(),
{
    if structs.len() == 0 {
        None
    } else if structs.last().0 == n {
        Some(structs.last().1)
    } else {
        struct_fields_of(structs.drop_last(), n)
    }
}

/// The value of the last `name = value` pair for `f`.
pub open spec fn named_value(named: Seq<(Seq<char>, Seq<char>)>, f: Seq<char>) -> Option<Seq<char>>
    decreases named.len(),
{
    if named.len() == 0 {
        None
    } else if named.last().0 == f {
        Some(named.last().1)
    } else {
        named_value(named.drop_last(), f)
    }
}

/// `field: value` pairs of a constructor, in field order: a field takes its
/// named argument if it has one, else the next positional argument, else
/// it is left out.
pub open spec fn ctor_pairs(fs: Seq<Seq<char>>, named: Seq<(Seq<char>, Seq<char>)>, pos: Seq<Seq<char>>, idx: int) -> Seq<Seq<char>>
    decreases fs.len(),
{
    if fs.len() == 0 {
        seq![]
    } else {
        let f = fs[0];
        match named_value(named, f) {
            Some(v) => seq![f + ": "@ + v] + ctor_pairs(fs.drop_first(), named, pos, idx),
            None => if 0 <= idx < pos.len() {
                seq![f + ": "@ + pos[idx]] + ctor_pairs(fs.drop_first(), named, pos, idx + 1)
            } else {
                ctor_pairs(fs.drop_first(), named, pos, idx)
            },
        }
    }
}

pub open spec fn is_named_arg(a: SExpr) -> bool {
    a matches SExpr::Bin(l, BinaryOp::Assign, _) && *l matches SExpr::Ident(_)
}

pub open spec fn rexpr(c: TCtx, e: SExpr) -> Seq<char>
    decreases e,
{
    match e {
        SExpr::Lit(SLit::Int(i)) => int_text(i),
        SExpr::Lit(SLit::Float(f)) => if f.contains('.') { f } else { f + ".0"@ },
        SExpr::Lit(SLit::Str(s)) => "\""@ + s + "\".to_string()"@,
        SExpr::Lit(SLit::List(items)) => "vec!["@ + join(rexprs(c, items), ", "@) + "]"@,
        SExpr::Lit(SLit::Dict(pairs)) => "std::collections::HashMap::from(["@ + join(rpairs(c, pairs), ", "@) + "])"@,
        SExpr::Lit(SLit::SetOf(items)) => "std::collections::HashSet::from(["@ + join(rexprs(c, items), ", "@) + "])"@,
        SExpr::Ident(n) => n,
        SExpr::Bin(l, op, r) => if op == BinaryOp::MatMul {
            "desert_matmul(("@ + rexpr(c, *l) + ").clone(), ("@ + rexpr(c, *r) + ").clone())"@
        } else {
            "("@ + rexpr(c, *l) + " "@ + op_text(op) + " "@ + rexpr(c, *r) + ")"@
        },
        SExpr::Call(f, args) => match *f {
            SExpr::Ident(n) => match struct_fields_of(c.structs, n) {
                Some(fs) => n + " { "@ + join(ctor_pairs(fs, rnamed(c, args), rpositional(c, args), 0), ", "@) + " }"@,
                None => n + "("@ + join(rexprs(c, args), ", "@) + ")"@,
            },
            _ => rexpr(c, *f) + "("@ + join(rexprs(c, args), ", "@) + ")"@,
        },
        SExpr::GenericCall(f, tys, args) => rexpr(c, *f) + "::<"@ + join(rust_types(tys), ", "@) + ">("@ + join(rexprs(c, args), ", "@) + ")"@,
        SExpr::Macro(n, args) => if n == "print"@ {
            if args.len() == 0 {
                "println!()"@
            } else if args.len() == 1 {
                "println!(\"{}\", "@ + rprint_parts(c, args)[0] + ")"@
            } else {
                "println!(\"{}\", vec!["@ + join(rprint_parts(c, args), ", "@) + "].join(\" \"))"@
            }
        } else {
            n + "!("@ + join(rexprs(c, args), ", "@) + ")"@
        },
        SExpr::Member(b, m) => rexpr(c, *b) + (if static_receiver(c.types, c.scopes, *b) { "::"@ } else { "."@ }) + m,
        SExpr::Move(b) => "std::mem::take(&mut "@ + rexpr(c, *b) + ")"@,
        SExpr::SharedRef(b) => "&"@ + rexpr(c, *b),
        SExpr::UniqueRef(b) => "&mut "@ + rexpr(c, *b),
        SExpr::Not(b) => "!"@ + rexpr(c, *b),
        SExpr::Question(b) => rexpr(c, *b) + "?"@,
        SExpr::Unwrap(b) => rexpr(c, *b) + ".unwrap()"@,
        SExpr::Index(b, i) => rexpr(c, *b) + "["@ + rexpr(c, *i) + "]"@,
        SExpr::Tuple(items) => "("@ + join(rexprs(c, items), ", "@) + (if items.len() == 1 { ","@ } else { ""@ }) + ")"@,
        SExpr::Range(a, b) => rexpr(c, *a) + ".."@ + rexpr(c, *b),
        SExpr::RangeInclusive(a, b) => rexpr(c, *a) + "..="@ + rexpr(c, *b),
        SExpr::Lambda(params, body) => "|"@ + join(lambda_params(params), ", "@) + "| "@ + rexpr(c, *body),
    }
}

pub open spec fn rexprs(c: TCtx, s: Seq<SExpr>) -> Seq<Seq<char>>
    decreases s,
{
    if s.len() == 0 {
        seq![]
    } else {
        rexprs(c, s.subrange(0, s.len() - 1)).push(rexpr(c, s[s.len() - 1]))
    }
}

pub open spec fn rpairs(c: TCtx, s: Seq<(SExpr, SExpr)>) -> Seq<Seq<char>>
    decreases s,
{
    if s.len() == 0 {
        seq![]
    } else {
        let last = s[s.len() - 1];
        rpairs(c, s.subrange(0, s.len() - 1)).push("("@ + rexpr(c, last.0) + ", "@ + rexpr(c, last.1) + ")"@)
    }
}

/// The `name = value` arguments of a call, lowered, in order.
pub open spec fn rnamed(c: TCtx, s: Seq<SExpr>) -> Seq<(Seq<char>, Seq<char>)>
    decreases s,
{
    if s.len() == 0 {
        seq![]
    } else {
        let prev = rnamed(c, s.subrange(0, s.len() - 1));
        match s[s.len() - 1] {
            SExpr::Bin(l, op, r) => match *l {
                SExpr::Ident(f) => if op == BinaryOp::Assign { prev.push((f, rexpr(c, *r))) } else { prev },
                _ => prev,
            },
            _ => prev,
        }
    }
}

/// The other arguments of a call, lowered, in order.
pub open spec fn rpositional(c: TCtx, s: Seq<SExpr>) -> Seq<Seq<char>>
    decreases s,
{
    if s.len() == 0 {
        seq![]
    } else {
        let prev = rpositional(c, s.subrange(0, s.len() - 1));
        if is_named_arg(s[s.len() - 1]) { prev } else { prev.push(rexpr(c, s[s.len() - 1])) }
    }
}

/// The pieces `$print` joins: literals through `print_literal`, other
/// values through `format!("{:?}", ..)`.
pub open spec fn rprint_parts(c: TCtx, s: Seq<SExpr>) -> Seq<Seq<char>>
    decreases s,
{
    if s.len() == 0 {
        seq![]
    } else {
        let last = s[s.len() - 1];
        rprint_parts(c, s.subrange(0, s.len() - 1)).push(match last {
            SExpr::Lit(SLit::Str(t)) => print_literal(t),
            _ => "format!(\"{:?}\", "@ + rexpr(c, last) + ")"@,
        })
    }
}

pub open spec fn lambda_param(p: SParam) -> Seq<char> {
    match p.ty {
        Some(t) => p.name + ": "@ + rust_type(t),
        None => p.name,
    }
}

pub open spec fn lambda_params(s: Seq<SParam>) -> Seq<Seq<char>> {
    s.map_values(|p: SParam| lambda_param(p))
}

// ---------------------------------------------------------------------------
// Statements.
// ---------------------------------------------------------------------------

/// Generated lines, each with the (0-based) Desert line it maps to.
pub type Lines = Seq<(Seq<char>, int)>;

pub open spec fn count_newlines(s: Seq<char>) -> int
    decreases s.len(),
{
    if s.len() == 0 { 0 } else { count_newlines(s.drop_last()) + (if s.last() == '\n' { 1int } else { 0int }) }
}

/// How many lines `str::lines` finds in `s`.
pub open spec fn lines_count(s: Seq<char>) -> int {
    if s.len() == 0 { 0 } else { count_newlines(s) + (if s.last() == '\n' { 0int } else { 1int }) }
}

/// The Desert line a statement is mapped to: one less than the number of
/// lines before its first byte (a start past the end of the source counts
/// as the end), and never below 0.
pub open spec fn ds_line(src: Seq<char>, start: int) -> int {
    let st = char_of_byte(src, start);
    let n = lines_count(src.take(st));
    if n > 0 { n - 1 } else { 0 }
}

/// The scopes with `names` added to the innermost one.
pub open spec fn declare(scopes: Seq<Seq<Seq<char>>>, names: Seq<Seq<char>>) -> Seq<Seq<Seq<char>>> {
    if scopes.len() == 0 { scopes } else { scopes.update(scopes.len() - 1, scopes.last() + names) }
}

/// The context with a new innermost scope holding `names`.
pub open spec fn scoped(c: TCtx, names: Seq<Seq<char>>) -> TCtx {
    TCtx { scopes: c.scopes.push(names), ..c }
}

pub open spec fn with_scopes(c: TCtx, scopes: Seq<Seq<Seq<char>>>) -> TCtx {
    TCtx { scopes, ..c }
}

pub open spec fn type_ann(ty: Option<SType>) -> Seq<char> {
    match ty {
        Some(t) => ": "@ + rust_type(t),
        None => ""@,
    }
}

/// A parameter type: a declared protocol `P` is taken as `impl P`.
pub open spec fn param_type(c: TCtx, t: SType) -> Seq<char> {
    match t {
        SType::Simple(n) => if c.protocols.contains(n) { "impl "@ + n } else { rust_type(t) },
        _ => rust_type(t),
    }
}

/// A `def` parameter: an untyped `self` is a `&self` (or `&mut self`)
/// receiver.
pub open spec fn rparam(c: TCtx, p: SParam) -> Seq<char> {
    if p.name == "self"@ && p.ty is None {
        if p.is_mut { "&mut self"@ } else { "&self"@ }
    } else {
        (if p.is_mut { "mut "@ } else { ""@ }) + p.name + match p.ty {
            Some(t) => ": "@ + param_type(c, t),
            None => ""@,
        }
    }
}

pub open spec fn rparams(c: TCtx, s: Seq<SParam>) -> Seq<Seq<char>> {
    s.map_values(|p: SParam| rparam(c, p))
}

pub open spec fn param_names(s: Seq<SParam>) -> Seq<Seq<char>> {
    s.map_values(|p: SParam| p.name)
}

/// Whether a block returns a value anywhere, nested blocks included.
pub open spec fn has_value_return(s: Seq<SStmt>) -> bool
    decreases s,
{
    if s.len() == 0 {
        false
    } else {
        stmt_has_value_return(s[0]) || has_value_return(s.subrange(1, s.len() as int))
    }
}

pub open spec fn stmt_has_value_return(st: SStmt) -> bool
    decreases st,
{
    match st.kind {
        SKind::Return(Some(_)) => true,
        SKind::If(_, t, e) => has_value_return(t) || match e {
            Some(b) => has_value_return(b),
            None => false,
        },
        SKind::For(_, _, b) => has_value_return(b),
        SKind::While(_, b) => has_value_return(b),
        SKind::Def(_, _, _, b) => has_value_return(b),
        SKind::Protocol(_, b) => has_value_return(b),
        SKind::Impl(_, _, b) => has_value_return(b),
        SKind::Match(_, arms) => arms_have_value_return(arms),
        _ => false,
    }
}

pub open spec fn arms_have_value_return(arms: Seq<(SExpr, Seq<SStmt>)>) -> bool
    decreases arms,
{
    if arms.len() == 0 {
        false
    } else {
        has_value_return(arms[0].1) || arms_have_value_return(arms.subrange(1, arms.len() as int))
    }
}

/// The return type of a lowered `def`: the declared one, else
/// `impl std::fmt::Debug` when the body returns a value, else none.
pub open spec fn ret_text(ret: Option<SType>, body: Seq<SStmt>) -> Seq<char> {
    match ret {
        Some(t) => " -> "@ + rust_type(t),
        None => if has_value_return(body) { " -> impl std::fmt::Debug"@ } else { ""@ },
    }
}

pub open spec fn field_line(ind: Seq<char>, f: SParam) -> Seq<char> {
    ind + "    pub "@ + f.name + ": "@ + match f.ty {
        Some(t) => rust_type(t),
        None => "()"@,
    } + ","@
}

pub open spec fn variant_line(ind: Seq<char>, v: SVariant) -> Seq<char> {
    ind + "    "@ + v.name + (if v.fields.len() > 0 { "("@ + join(rust_types(v.fields), ", "@) + ")"@ } else { ""@ }) + ","@
}

/// Each of `texts` as a line mapped to `d`.
pub open spec fn at_line(texts: Seq<Seq<char>>, d: int) -> Lines {
    texts.map_values(|t: Seq<char>| (t, d))
}

/// The Rust lines of one statement at indentation `ind`, and the scopes
/// after it (a `let` or `mut` binds its names in the innermost scope).
pub open spec fn rstmt(c: TCtx, st: SStmt, ind: Seq<char>, src: Seq<char>) -> (Lines, Seq<Seq<Seq<char>>>)
    decreases st,
{
    let d = ds_line(src, st.start as int);
    let inner = ind + "    "@;
    match st.kind {
        SKind::Let(p, ty, v) => (
            seq![(ind + "let "@ + rust_pattern(p) + type_ann(ty) + " = "@ + rexpr(c, v) + ";"@, d)],
            declare(c.scopes, pattern_names(p)),
        ),
        SKind::Mut(p, ty, v) => (
            seq![(ind + "let mut "@ + rust_pattern(p) + type_ann(ty) + " = "@ + rexpr(c, v) + ";"@, d)],
            declare(c.scopes, pattern_names(p)),
        ),
        SKind::Def(name, params, ret, body) => (
            seq![(ind + "fn "@ + name + "("@ + join(rparams(c, params), ", "@) + ")"@ + ret_text(ret, body) + " {"@, d)]
                + rstmts(scoped(c, param_names(params)), body, inner, src).0 + seq![(ind + "}"@, d)],
            c.scopes,
        ),
        SKind::If(cond, then_b, else_b) => (
            seq![(ind + "if "@ + rexpr(c, cond) + " {"@, d)] + rstmts(scoped(c, seq![]), then_b, inner, src).0
                + match else_b {
                    Some(eb) => seq![(ind + "} else {"@, d)] + rstmts(scoped(c, seq![]), eb, inner, src).0,
                    None => seq![],
                } + seq![(ind + "}"@, d)],
            c.scopes,
        ),
        SKind::For(p, iter, body) => (
            seq![(ind + "for "@ + rust_pattern(p) + " in "@ + rexpr(c, iter) + " {"@, d)]
                + rstmts(scoped(c, pattern_names(p)), body, inner, src).0 + seq![(ind + "}"@, d)],
            c.scopes,
        ),
        SKind::While(cond, body) => (
            seq![(ind + "while "@ + rexpr(c, cond) + " {"@, d)]
                + rstmts(scoped(c, seq![]), body, inner, src).0 + seq![(ind + "}"@, d)],
            c.scopes,
        ),
        SKind::Struct(name, fields) => (
            seq![(ind + "struct "@ + name + " {"@, d)]
                + at_line(fields.map_values(|f: SParam| field_line(ind, f)), d) + seq![(ind + "}"@, d)],
            c.scopes,
        ),
        SKind::Enum(name, variants) => (
            seq![(ind + "enum "@ + name + " {"@, d)]
                + at_line(variants.map_values(|v: SVariant| variant_line(ind, v)), d) + seq![(ind + "}"@, d)],
            c.scopes,
        ),
        SKind::Protocol(name, methods) => (
            seq![(ind + "trait "@ + name + " {"@, d)]
                + rstmts(scoped(c, seq![]), methods, inner, src).0 + seq![(ind + "}"@, d)],
            c.scopes,
        ),
        SKind::Impl(proto, ty, methods) => (
            seq![(ind + "impl "@ + match proto {
                Some(p) => p + " for "@ + ty,
                None => ty,
            } + " {"@, d)] + rstmts(scoped(c, seq![]), methods, inner, src).0 + seq![(ind + "}"@, d)],
            c.scopes,
        ),
        SKind::Match(e, arms) => (
            seq![(ind + "match "@ + rexpr(c, e) + " {"@, d)] + rarms(c, arms, ind, d, src) + seq![(ind + "}"@, d)],
            c.scopes,
        ),
        SKind::PyImport(content) => (
            seq![(ind + "/* Desert PyImport block:"@, d), (ind + "   "@ + content, d), (ind + "*/"@, d)],
            c.scopes,
        ),
        SKind::Return(Some(e)) => (seq![(ind + "return "@ + rexpr(c, e) + ";"@, d)], c.scopes),
        SKind::Return(None) => (seq![(ind + "return;"@, d)], c.scopes),
        SKind::Break => (seq![(ind + "break;"@, d)], c.scopes),
        SKind::Continue => (seq![(ind + "continue;"@, d)], c.scopes),
        SKind::Expr(e) => (seq![(ind + rexpr(c, e) + ";"@, d)], c.scopes),
        SKind::Import(_, _) => (seq![], c.scopes),
        SKind::FromImport(_, _) => (seq![], c.scopes),
    }
}

/// The lines of a list of statements, and the scopes after it.
pub open spec fn rstmts(c: TCtx, s: Seq<SStmt>, ind: Seq<char>, src: Seq<char>) -> (Lines, Seq<Seq<Seq<char>>>)
    decreases s,
{
    if s.len() == 0 {
        (seq![], c.scopes)
    } else {
        let (l1, sc1) = rstmt(c, s[0], ind, src);
        let (l2, sc2) = rstmts(with_scopes(c, sc1), s.subrange(1, s.len() as int), ind, src);
        (l1 + l2, sc2)
    }
}

/// Match arms: `pattern => {`, the body two levels in, `}`.
pub open spec fn rarms(c: TCtx, arms: Seq<(SExpr, Seq<SStmt>)>, ind: Seq<char>, d: int, src: Seq<char>) -> Lines
    decreases arms,
{
    if arms.len() == 0 {
        seq![]
    } else {
        seq![(ind + "    "@ + rexpr(c, arms[0].0) + " => {"@, d)]
            + rstmts(scoped(c, seq![]), arms[0].1, ind + "    "@ + "    "@, src).0
            + seq![(ind + "    }"@, d)]
            + rarms(c, arms.subrange(1, arms.len() as int), ind, d, src)
    }
}

// ---------------------------------------------------------------------------
// Programs.
// ---------------------------------------------------------------------------

/// The helper trait and function that `@` lowers to, line by line.
pub open spec fn matmul_prelude() -> Seq<Seq<char>> {
    seq![
        "trait DesertMatMul<Rhs> {"@,
        "    type Output;"@,
        "    fn desert_matmul(self, rhs: Rhs) -> Self::Output;"@,
        "}"@,
        ""@,
        "impl DesertMatMul<Vec<f32>> for Vec<f32> {"@,
        "    type Output = Vec<f32>;"@,
        ""@,
        "    fn desert_matmul(self, rhs: Vec<f32>) -> Self::Output {"@,
        "        vec![self.into_iter().zip(rhs).map(|(a, b)| a * b).sum()]"@,
        "    }"@,
        "}"@,
        ""@,
        "impl DesertMatMul<Vec<f32>> for Vec<Vec<f32>> {"@,
        "    type Output = Vec<f32>;"@,
        ""@,
        "    fn desert_matmul(self, rhs: Vec<f32>) -> Self::Output {"@,
        "        self.into_iter()"@,
        "            .map(|row| row.into_iter().zip(rhs.iter().copied()).map(|(a, b)| a * b).sum())"@,
        "            .collect()"@,
        "    }"@,
        "}"@,
        ""@,
        "fn desert_matmul<L, R>(lhs: L, rhs: R) -> <L as DesertMatMul<R>>::Output"@,
        "where"@,
        "    L: DesertMatMul<R>,"@,
        "{"@,
        "    lhs.desert_matmul(rhs)"@,
        "}"@,
        ""@,
    ]
}

pub open spec fn expr_uses_matmul(e: SExpr) -> bool
    decreases e,
{
    match e {
        SExpr::Lit(SLit::List(items)) => exprs_use_matmul(items),
        SExpr::Lit(SLit::SetOf(items)) => exprs_use_matmul(items),
        SExpr::Lit(SLit::Dict(pairs)) => pairs_use_matmul(pairs),
        SExpr::Lit(_) => false,
        SExpr::Ident(_) => false,
        SExpr::Bin(l, op, r) => op == BinaryOp::MatMul || expr_uses_matmul(*l) || expr_uses_matmul(*r),
        SExpr::Call(f, args) => expr_uses_matmul(*f) || exprs_use_matmul(args),
        SExpr::GenericCall(f, _, args) => expr_uses_matmul(*f) || exprs_use_matmul(args),
        SExpr::Macro(_, args) => exprs_use_matmul(args),
        SExpr::Member(b, _) => expr_uses_matmul(*b),
        SExpr::Move(b) => expr_uses_matmul(*b),
        SExpr::SharedRef(b) => expr_uses_matmul(*b),
        SExpr::UniqueRef(b) => expr_uses_matmul(*b),
        SExpr::Not(b) => expr_uses_matmul(*b),
        SExpr::Question(b) => expr_uses_matmul(*b),
        SExpr::Unwrap(b) => expr_uses_matmul(*b),
        SExpr::Index(b, i) => expr_uses_matmul(*b) || expr_uses_matmul(*i),
        SExpr::Tuple(items) => exprs_use_matmul(items),
        SExpr::Range(a, b) => expr_uses_matmul(*a) || expr_uses_matmul(*b),
        SExpr::RangeInclusive(a, b) => expr_uses_matmul(*a) || expr_uses_matmul(*b),
        SExpr::Lambda(_, body) => expr_uses_matmul(*body),
    }
}

pub open spec fn exprs_use_matmul(s: Seq<SExpr>) -> bool
    decreases s,
{
    if s.len() == 0 {
        false
    } else {
        exprs_use_matmul(s.subrange(0, s.len() - 1)) || expr_uses_matmul(s[s.len() - 1])
    }
}

pub open spec fn pairs_use_matmul(s: Seq<(SExpr, SExpr)>) -> bool
    decreases s,
{
    if s.len() == 0 {
        false
    } else {
        let last = s[s.len() - 1];
        pairs_use_matmul(s.subrange(0, s.len() - 1)) || expr_uses_matmul(last.0) || expr_uses_matmul(last.1)
    }
}

pub open spec fn stmt_uses_matmul(st: SStmt) -> bool
    decreases st,
{
    match st.kind {
        SKind::Let(_, _, v) => expr_uses_matmul(v),
        SKind::Mut(_, _, v) => expr_uses_matmul(v),
        SKind::Def(_, _, _, b) => stmts_use_matmul(b),
        SKind::If(c, t, e) => expr_uses_matmul(c) || stmts_use_matmul(t) || match e {
            Some(b) => stmts_use_matmul(b),
            None => false,
        },
        SKind::For(_, it, b) => expr_uses_matmul(it) || stmts_use_matmul(b),
        SKind::While(c, b) => expr_uses_matmul(c) || stmts_use_matmul(b),
        SKind::Protocol(_, b) => stmts_use_matmul(b),
        SKind::Impl(_, _, b) => stmts_use_matmul(b),
        SKind::Match(e, arms) => expr_uses_matmul(e) || arms_use_matmul(arms),
        SKind::Return(Some(e)) => expr_uses_matmul(e),
        SKind::Expr(e) => expr_uses_matmul(e),
        _ => false,
    }
}

pub open spec fn stmts_use_matmul(s: Seq<SStmt>) -> bool
    decreases s,
{
    if s.len() == 0 {
        false
    } else {
        stmt_uses_matmul(s[0]) || stmts_use_matmul(s.subrange(1, s.len() as int))
    }
}

pub open spec fn arms_use_matmul(arms: Seq<(SExpr, Seq<SStmt>)>) -> bool
    decreases arms,
{
    if arms.len() == 0 {
        false
    } else {
        expr_uses_matmul(arms[0].0) || stmts_use_matmul(arms[0].1) || arms_use_matmul(arms.subrange(1, arms.len() as int))
    }
}

/// The built-in type names lowering knows besides `Resolver::new`'s.
pub open spec fn builtin_types() -> Seq<Seq<char>> {
    seq!["i32"@, "i64"@, "f32"@, "f64"@, "bool"@, "Str"@, "String"@, "List"@, "Vec"@, "Dict"@, "HashMap"@, "Box"@, "Option"@, "Result"@, "Path"@]
}

/// Each top-level struct with its field names, in order.
pub open spec fn struct_list(s: Seq<SStmt>) -> Seq<(Seq<char>, Seq<Seq<char>>)>
    decreases s.len(),
{
    if s.len() == 0 {
        seq![]
    } else {
        let prev = struct_list(s.drop_last());
        match s.last().kind {
            SKind::Struct(n, fs) => prev.push((n, param_names(fs))),
            _ => prev,
        }
    }
}

/// The top-level protocol names, in order.
pub open spec fn protocol_list(s: Seq<SStmt>) -> Seq<Seq<char>>
    decreases s.len(),
{
    if s.len() == 0 {
        seq![]
    } else {
        let prev = protocol_list(s.drop_last());
        match s.last().kind {
            SKind::Protocol(n, _) => prev.push(n),
            _ => prev,
        }
    }
}

/// The top-level struct, enum and protocol names, in order.
pub open spec fn declared_types(s: Seq<SStmt>) -> Seq<Seq<char>>
    decreases s.len(),
{
    if s.len() == 0 {
        seq![]
    } else {
        let prev = declared_types(s.drop_last());
        match s.last().kind {
            SKind::Struct(n, _) => prev.push(n),
            SKind::Enum(n, _) => prev.push(n),
            SKind::Protocol(n, _) => prev.push(n),
            _ => prev,
        }
    }
}

pub open spec fn initial_ctx(prog: Seq<SStmt>) -> TCtx {
    TCtx {
        structs: struct_list(prog),
        protocols: protocol_list(prog),
        types: initial_types() + builtin_types() + declared_types(prog),
        scopes: seq![Seq::<Seq<char>>::empty()],
    }
}

/// The `use` lines of the top-level Rust imports.
pub open spec fn use_lines(s: Seq<SStmt>, src: Seq<char>) -> Lines
    decreases s.len(),
{
    if s.len() == 0 {
        seq![]
    } else {
        let prev = use_lines(s.drop_last(), src);
        let d = ds_line(src, s.last().start as int);
        match s.last().kind {
            SKind::Import(path, alias) => match spec_use_path(path) {
                Some(b) => prev.push(("use "@ + with_alias(b, alias) + ";"@, d)),
                None => prev,
            },
            SKind::FromImport(path, items) => match spec_use_path(path) {
                Some(b) => prev.push(("use "@ + spec_use_list(b, items) + ";"@, d)),
                None => prev,
            },
            _ => prev,
        }
    }
}

/// All lines of a lowered program: the `use` lines and a blank line when
/// there are any, the matrix-product helpers when `@` occurs, then the
/// statements.
pub open spec fn spec_program_lines(prog: Seq<SStmt>, src: Seq<char>) -> Lines {
    let uses = use_lines(prog, src);
    let head = if uses.len() > 0 { uses.push((""@, uses.last().1)) } else { seq![] };
    let pre = if stmts_use_matmul(prog) { at_line(matmul_prelude(), 0) } else { seq![] };
    head + pre + rstmts(initial_ctx(prog), prog, ""@, src).0
}

/// The lines joined, each followed by a newline.
pub open spec fn render(lines: Lines) -> Seq<char>
    decreases lines.len(),
{
    if lines.len() == 0 { seq![] } else { render(lines.drop_last()) + lines.last().0 + "\n"@ }
}

/// The location of Desert line `d`: its entry in `origins`, or line `d + 1`
/// of an unnamed file when `origins` has none.
pub open spec fn origin(origins: Seq<SLoc>, d: int) -> SLoc {
    if 0 <= d < origins.len() {
        origins[d]
    } else {
        SLoc { file: ""@, line: if d + 1 > usize::MAX { usize::MAX } else { (d + 1) as usize }, column: 1 }
    }
}

/// The source map of the lines: line `k` maps to the origin of its Desert
/// line, from Rust column 1.
pub open spec fn lines_map(lines: Lines, origins: Seq<SLoc>) -> Seq<Option<(SLoc, usize)>> {
    Seq::new(lines.len(), |k: int| Some((origin(origins, lines[k].1), 1usize)))
}

/// Every generated Rust line maps back to the Desert line it was lowered
/// from: a Rust location on it is reported at that line's origin, its
/// column moved right by how far the Rust column lies past column 1.
pub proof fn law_generated_lines_map_back(lines: Lines, origins: Seq<SLoc>, k: int, rs_column: usize)
    requires
        0 <= k < lines.len(),
        rs_column >= 1,
    ensures
        span_location(lines_map(lines, origins), k, rs_column) == Some(SLoc {
            file: origin(origins, lines[k].1).file,
            line: origin(origins, lines[k].1).line,
            column: if origin(origins, lines[k].1).column + (rs_column - 1) > usize::MAX {
                usize::MAX
            } else {
                (origin(origins, lines[k].1).column + (rs_column - 1)) as usize
            },
        }),
        span_location(lines_map(lines, origins), k, 1) == Some(origin(origins, lines[k].1)),
{
    let o = origin(origins, lines[k].1);
    assert(lines_map(lines, origins)[k] == Some((o, 1usize)));
    assert(SLoc { file: o.file, line: o.line, column: (o.column + 0) as usize } == o);
}

// ---------------------------------------------------------------------------
// Executable lowering.
// ---------------------------------------------------------------------------

/// The struct fields and protocol names of the program being lowered.
struct Ctx {
    structs: Vec<(String, Vec<String>)>,
    protocols: Vec<String>,
}

spec fn structs_view(s: Seq<(String, Vec<String>)>) -> Seq<(Seq<char>, Seq<Seq<char>>)> {
    s.map_values(|p: (String, Vec<String>)| (p.0@, string_views(p.1@)))
}

spec fn tctx(ctx: &Ctx, r: &Resolver) -> TCtx {
    TCtx {
        structs: structs_view(ctx.structs@),
        protocols: string_views(ctx.protocols@),
        types: r.types(),
        scopes: r.scopes(),
    }
}

/// Appends `text` to a growing list of strings.
fn push_text(v: &mut Vec<String>, text: String)
    ensures
        string_views(final(v)@) == string_views(old(v)@).push(text@),
{
    v.push(text);
    assert(string_views(final(v)@) =~= string_views(old(v)@).push(text@));
}

/// Joins `parts` with `", "`.
fn join_comma(parts: &Vec<String>) -> (r: String)
    ensures
        r@ == join(string_views(parts@), ", "@),
{
    join_strings(parts, ", ")
}

/// A Desert type in Rust (see `rust_type`).
fn transpile_type(t: &Type) -> (r: String)
    ensures
        r@ == rust_type(t@),
    decreases t,
{
    match t {
        Type::Simple(n) => {
            if text_eq(n.as_str(), "Str") {
                "String".to_owned()
            } else if text_eq(n.as_str(), "List") {
                "Vec".to_owned()
            } else {
                n.clone()
            }
        },
        Type::Generic(n, args) => {
            let mut out = if text_eq(n.as_str(), "List") { "Vec".to_owned() } else { n.clone() };
            let parts = transpile_types(args);
            push_str(&mut out, "<");
            let joined = join_comma(&parts);
            push_str(&mut out, joined.as_str());
            push_str(&mut out, ">");
            out
        },
        Type::Tuple(items) => {
            let parts = transpile_types(items);
            let mut out = "(".to_owned();
            let joined = join_comma(&parts);
            push_str(&mut out, joined.as_str());
            if items.len() == 1 {
                push_str(&mut out, ",");
            } else {
                push_str(&mut out, "");
            }
            push_str(&mut out, ")");
            proof { lemma_types_view(items@); }
            out
        },
        Type::SharedRef(b) => {
            let mut out = "&".to_owned();
            let inner = transpile_type(b);
            push_str(&mut out, inner.as_str());
            out
        },
        Type::UniqueRef(b) => {
            let mut out = "&mut ".to_owned();
            let inner = transpile_type(b);
            push_str(&mut out, inner.as_str());
            out
        },
    }
}

fn transpile_types(items: &Vec<Type>) -> (r: Vec<String>)
    ensures
        string_views(r@) == rust_types(types_view(items@)),
    decreases items,
{
    let mut out: Vec<String> = Vec::new();
    let mut i: usize = 0;
    proof { lemma_types_view(items@); }
    while i < items.len()
        invariant
            0 <= i <= items.len(),
            types_view(items@).len() == items.len(),
            forall|j: int| 0 <= j < items.len() ==> #[trigger] types_view(items@)[j] == type_view(items@[j]),
            string_views(out@) == rust_types(types_view(items@).subrange(0, i as int)),
        decreases items.len() - i,
    {
        proof {
            assert(decreases_to!(items => items@));
            assert(decreases_to!(items@ => items@[i as int]));
        }
        let piece = transpile_type(&items[i]);
        push_text(&mut out, piece);
        proof {
            let sv = types_view(items@);
            assert(sv.subrange(0, i + 1).subrange(0, i as int) =~= sv.subrange(0, i as int));
        }
        i = i + 1;
    }
    assert(types_view(items@).subrange(0, i as int) =~= types_view(items@));
    out
}

/// A pattern in Rust (see `rust_pattern`).
fn transpile_pattern(p: &Pattern) -> (r: String)
    ensures
        r@ == rust_pattern(p@),
    decreases p,
{
    match p {
        Pattern::Name(n) => n.clone(),
        Pattern::Tuple(items) => {
            let mut parts: Vec<String> = Vec::new();
            let mut i: usize = 0;
            proof {
                lemma_patterns_view(items@);
                assert(decreases_to!(*p => *items));
            }
            while i < items.len()
                invariant
                    0 <= i <= items.len(),
                    decreases_to!(*p => *items),
                    patterns_view(items@).len() == items.len(),
                    forall|j: int| 0 <= j < items.len() ==> #[trigger] patterns_view(items@)[j] == pattern_view(items@[j]),
                    string_views(parts@) == rust_patterns(patterns_view(items@).subrange(0, i as int)),
                decreases items.len() - i,
            {
                proof {
                    assert(decreases_to!(*items => items@));
                    assert(decreases_to!(items@ => items@[i as int]));
                }
                let piece = transpile_pattern(&items[i]);
                push_text(&mut parts, piece);
                proof {
                    let sv = patterns_view(items@);
                    assert(sv.subrange(0, i + 1).subrange(0, i as int) =~= sv.subrange(0, i as int));
                }
                i = i + 1;
            }
            assert(patterns_view(items@).subrange(0, i as int) =~= patterns_view(items@));
            let mut out = "(".to_owned();
            let joined = join_comma(&parts);
            push_str(&mut out, joined.as_str());
            if items.len() == 1 {
                push_str(&mut out, ",");
            } else {
                push_str(&mut out, "");
            }
            push_str(&mut out, ")");
            out
        },
    }
}

fn is_ws_char(c: char) -> (r: bool)
    ensures
        r == is_ws(c),
{
    c == ' ' || ('\t' <= c && c <= '\r') || c == '\u{85}' || c == '\u{a0}' || c == '\u{1680}'
        || ('\u{2000}' <= c && c <= '\u{200a}') || c == '\u{2028}' || c == '\u{2029}'
        || c == '\u{202f}' || c == '\u{205f}' || c == '\u{3000}'
}

proof fn lemma_trim_ws_start(s: Seq<char>, i: int)
    requires
        0 <= i <= s.len(),
        forall|j: int| 0 <= j < i ==> is_ws(s[j]),
    ensures
        trim_ws_start(s) == trim_ws_start(s.subrange(i, s.len() as int)),
    decreases i,
{
    if i > 0 {
        assert(s.drop_first().subrange(i - 1, s.len() - 1) =~= s.subrange(i, s.len() as int));
        lemma_trim_ws_start(s.drop_first(), i - 1);
    } else {
        assert(s.subrange(0, s.len() as int) =~= s);
    }
}

proof fn lemma_trim_ws_end(s: Seq<char>, j: int)
    requires
        0 <= j <= s.len(),
        forall|k: int| j <= k < s.len() ==> is_ws(s[k]),
    ensures
        trim_ws_end(s) == trim_ws_end(s.subrange(0, j)),
    decreases s.len() - j,
{
    if j < s.len() {
        assert(s.drop_last().subrange(0, j) =~= s.subrange(0, j));
        lemma_trim_ws_end(s.drop_last(), j);
    } else {
        assert(s.subrange(0, j) =~= s);
    }
}

/// The characters of `v` from `a` to `b`, trimmed (see `trim_ws`).
pub(crate) fn trim_range(v: &Vec<char>, a: usize, b: usize) -> (r: String)
    requires
        a <= b <= v.len(),
    ensures
        r@ == trim_ws(v@.subrange(a as int, b as int)),
{
    let ghost s = v@.subrange(a as int, b as int);
    let mut start = a;
    while start < b && is_ws_char(v[start])
        invariant
            a <= start <= b <= v.len(),
            forall|j: int| a <= j < start ==> is_ws(v@[j]),
        decreases b - start,
    {
        start = start + 1;
    }
    proof {
        assert forall|j: int| 0 <= j < start - a implies is_ws(s[j]) by {
            assert(s[j] == v@[a + j]);
        }
        lemma_trim_ws_start(s, start - a);
        assert(s.subrange(start - a, s.len() as int) =~= v@.subrange(start as int, b as int));
    }
    let ghost rest = v@.subrange(start as int, b as int);
    assert(trim_ws_start(rest) == rest);
    let mut end = b;
    while end > start && is_ws_char(v[end - 1])
        invariant
            start <= end <= b <= v.len(),
            forall|k: int| end <= k < b ==> is_ws(v@[k]),
        decreases end,
    {
        end = end - 1;
    }
    proof {
        assert forall|k: int| end - start <= k < rest.len() implies is_ws(rest[k]) by {
            assert(rest[k] == v@[start + k]);
        }
        lemma_trim_ws_end(rest, end - start);
        assert(rest.subrange(0, end - start) =~= v@.subrange(start as int, end as int));
        let t = v@.subrange(start as int, end as int);
        assert(trim_ws_end(t) == t);
    }
    string_of_range(v.as_slice(), start, end)
}

fn find_char_from(v: &Vec<char>, c: char, i: usize) -> (r: usize)
    requires
        i <= v.len(),
    ensures
        r as int == find_char(v@, c, i as int),
        i <= r <= v.len(),
{
    let mut k = i;
    while k < v.len() && v[k] != c
        invariant
            i <= k <= v.len(),
            find_char(v@, c, i as int) == find_char(v@, c, k as int),
        decreases v.len() - k,
    {
        k = k + 1;
    }
    k
}

/// A `$print` string literal in Rust (see `print_literal`).
fn transpile_print_string_literal(value: &String) -> (r: String)
    ensures
        r@ == print_literal(value@),
{
    let v = chars_of(value.as_str());
    let mut fmt = String::new();
    let mut plain = String::new();
    let mut args: Vec<String> = Vec::new();
    let mut i: usize = 0;
    proof {
        assert(string_views(args@) =~= Seq::<Seq<char>>::empty());
    }
    loop
        invariant_except_break
            0 <= i <= v.len(),
            v@ == value@,
            scan_print(v@, 0, seq![], seq![], seq![]) == scan_print(v@, i as int, fmt@, plain@, string_views(args@)),
        ensures
            scan_print(v@, 0, seq![], seq![], seq![]) == (fmt@, plain@, string_views(args@)),
        decreases v.len() - i,
    {
        let ghost f0 = fmt@;
        let ghost p0 = plain@;
        let open = find_char_from(&v, '{', i);
        if open >= v.len() {
            let rest = string_of_range(v.as_slice(), i, v.len());
            push_str(&mut fmt, rest.as_str());
            push_str(&mut plain, rest.as_str());
            assert(scan_print(v@, i as int, f0, p0, string_views(args@)) == (fmt@, plain@, string_views(args@)));
            break;
        }
        let close = find_char_from(&v, '}', open + 1);
        if close >= v.len() {
            let rest = string_of_range(v.as_slice(), i, v.len());
            push_str(&mut fmt, rest.as_str());
            push_str(&mut plain, rest.as_str());
            assert(scan_print(v@, i as int, f0, p0, string_views(args@)) == (fmt@, plain@, string_views(args@)));
            break;
        }
        let prefix = string_of_range(v.as_slice(), i, open);
        let ph = trim_range(&v, open + 1, close);
        push_str(&mut fmt, prefix.as_str());
        push_str(&mut plain, prefix.as_str());
        if ph.as_str().unicode_len() == 0 {
            push_str(&mut fmt, "{{}}");
            push_str(&mut plain, "{}");
        } else {
            push_str(&mut fmt, "{:?}");
            push_str(&mut plain, "{:?}");
            push_text(&mut args, ph);
        }
        i = close + 1;
    }
    if args.len() == 0 {
        let mut out = "\"".to_owned();
        push_str(&mut out, plain.as_str());
        push_str(&mut out, "\".to_string()");
        out
    } else {
        let mut out = "format!(\"".to_owned();
        push_str(&mut out, fmt.as_str());
        push_str(&mut out, "\", ");
        let joined = join_comma(&args);
        push_str(&mut out, joined.as_str());
        push_str(&mut out, ")");
        out
    }
}

/// Whether a float literal's text holds a decimal point.
fn has_point(f: &String) -> (r: bool)
    ensures
        r == f@.contains('.'),
{
    let v = chars_of(f.as_str());
    let mut i: usize = 0;
    while i < v.len()
        invariant
            0 <= i <= v.len(),
            v@ == f@,
            forall|j: int| 0 <= j < i ==> v@[j] != '.',
        decreases v.len() - i,
    {
        if v[i] == '.' {
            assert(f@[i as int] == '.');
            return true;
        }
        i = i + 1;
    }
    false
}

/// Where the last struct named `n` is declared in `ctx`.
fn lookup_struct(ctx: &Ctx, n: &String) -> (r: Option<usize>)
    ensures
        match r {
            Some(k) => k < ctx.structs.len() && struct_fields_of(structs_view(ctx.structs@), n@) == Some(string_views(ctx.structs@[k as int].1@)),
            None => struct_fields_of(structs_view(ctx.structs@), n@) is None,
        },
{
    let ghost sv = structs_view(ctx.structs@);
    let mut i: usize = ctx.structs.len();
    assert(sv.take(i as int) =~= sv);
    while i > 0
        invariant
            0 <= i <= ctx.structs.len(),
            sv == structs_view(ctx.structs@),
            struct_fields_of(sv, n@) == struct_fields_of(sv.take(i as int), n@),
        decreases i,
    {
        assert(sv.take(i as int).drop_last() =~= sv.take(i - 1));
        if text_eq(ctx.structs[i - 1].0.as_str(), n.as_str()) {
            return Some(i - 1);
        }
        i = i - 1;
    }
    None
}

spec fn named_view(v: Seq<(String, String)>) -> Seq<(Seq<char>, Seq<char>)> {
    v.map_values(|p: (String, String)| (p.0@, p.1@))
}

/// The value of the last named argument for `f`.
fn lookup_named(named: &Vec<(String, String)>, f: &String) -> (r: Option<usize>)
    ensures
        match r {
            Some(k) => k < named.len() && named_value(named_view(named@), f@) == Some(named@[k as int].1@),
            None => named_value(named_view(named@), f@) is None,
        },
{
    let ghost nv = named_view(named@);
    let mut i: usize = named.len();
    assert(nv.take(i as int) =~= nv);
    while i > 0
        invariant
            0 <= i <= named.len(),
            nv == named_view(named@),
            named_value(nv, f@) == named_value(nv.take(i as int), f@),
        decreases i,
    {
        assert(nv.take(i as int).drop_last() =~= nv.take(i - 1));
        if text_eq(named[i - 1].0.as_str(), f.as_str()) {
            return Some(i - 1);
        }
        i = i - 1;
    }
    None
}

/// `field: value` pairs of a constructor (see `ctor_pairs`).
fn constructor_pairs(fields: &Vec<String>, named: &Vec<(String, String)>, pos: &Vec<String>) -> (r: Vec<String>)
    ensures
        string_views(r@) == ctor_pairs(string_views(fields@), named_view(named@), string_views(pos@), 0),
{
    let ghost fs = string_views(fields@);
    let ghost nv = named_view(named@);
    let ghost pv = string_views(pos@);
    let mut out: Vec<String> = Vec::new();
    let mut idx: usize = 0;
    let mut j: usize = 0;
    assert(fs.subrange(0, fs.len() as int) =~= fs);
    assert(string_views(out@) + ctor_pairs(fs.subrange(0, fs.len() as int), nv, pv, 0) =~= ctor_pairs(fs, nv, pv, 0));
    while j < fields.len()
        invariant
            0 <= j <= fields.len(),
            idx <= pos.len(),
            fs == string_views(fields@),
            nv == named_view(named@),
            pv == string_views(pos@),
            string_views(out@) + ctor_pairs(fs.subrange(j as int, fs.len() as int), nv, pv, idx as int) == ctor_pairs(fs, nv, pv, 0),
        decreases fields.len() - j,
    {
        let ghost rest = fs.subrange(j as int, fs.len() as int);
        assert(rest.drop_first() =~= fs.subrange(j + 1, fs.len() as int));
        assert(rest[0] == fields@[j as int]@);
        let ghost before = string_views(out@);
        match lookup_named(named, &fields[j]) {
            Some(k) => {
                let mut piece = fields[j].clone();
                push_str(&mut piece, ": ");
                push_str(&mut piece, named[k].1.as_str());
                push_text(&mut out, piece);
                assert(seq![piece@] + ctor_pairs(rest.drop_first(), nv, pv, idx as int) == ctor_pairs(rest, nv, pv, idx as int));
                assert(string_views(out@) + ctor_pairs(rest.drop_first(), nv, pv, idx as int) =~= before + ctor_pairs(rest, nv, pv, idx as int));
            },
            None => {
                if idx < pos.len() {
                    let mut piece = fields[j].clone();
                    push_str(&mut piece, ": ");
                    push_str(&mut piece, pos[idx].as_str());
                    push_text(&mut out, piece);
                    assert(string_views(out@) + ctor_pairs(rest.drop_first(), nv, pv, idx + 1) =~= before + ctor_pairs(rest, nv, pv, idx as int));
                    idx = idx + 1;
                }
            },
        }
        j = j + 1;
    }
    assert(string_views(out@) + ctor_pairs(fs.subrange(j as int, fs.len() as int), nv, pv, idx as int) =~= string_views(out@));
    out
}

/// The expressions in Rust, in order.
fn transpile_expressions(ctx: &Ctx, r: &Resolver, items: &Vec<Expression>) -> (v: Vec<String>)
    ensures
        string_views(v@) == rexprs(tctx(ctx, r), exprs_view(items@)),
    decreases items,
{
    let ghost c = tctx(ctx, r);
    let mut out: Vec<String> = Vec::new();
    let mut i: usize = 0;
    proof { lemma_exprs_view(items@); }
    while i < items.len()
        invariant
            0 <= i <= items.len(),
            c == tctx(ctx, r),
            exprs_view(items@).len() == items.len(),
            forall|j: int| 0 <= j < items.len() ==> #[trigger] exprs_view(items@)[j] == expr_view(items@[j]),
            string_views(out@) == rexprs(c, exprs_view(items@).subrange(0, i as int)),
        decreases items.len() - i,
    {
        proof {
            assert(decreases_to!(items => items@));
            assert(decreases_to!(items@ => items@[i as int]));
        }
        let piece = transpile_expression(ctx, r, &items[i]);
        push_text(&mut out, piece);
        proof {
            let sv = exprs_view(items@);
            assert(sv.subrange(0, i + 1).subrange(0, i as int) =~= sv.subrange(0, i as int));
        }
        i = i + 1;
    }
    assert(exprs_view(items@).subrange(0, i as int) =~= exprs_view(items@));
    out
}

fn transpile_pairs(ctx: &Ctx, r: &Resolver, pairs: &Vec<(Expression, Expression)>) -> (v: Vec<String>)
    ensures
        string_views(v@) == rpairs(tctx(ctx, r), pairs_view(pairs@)),
    decreases pairs,
{
    let ghost c = tctx(ctx, r);
    let mut out: Vec<String> = Vec::new();
    let mut i: usize = 0;
    proof { lemma_pairs_view(pairs@); }
    while i < pairs.len()
        invariant
            0 <= i <= pairs.len(),
            c == tctx(ctx, r),
            pairs_view(pairs@).len() == pairs.len(),
            forall|j: int| 0 <= j < pairs.len() ==> #[trigger] pairs_view(pairs@)[j] == (expr_view(pairs@[j].0), expr_view(pairs@[j].1)),
            string_views(out@) == rpairs(c, pairs_view(pairs@).subrange(0, i as int)),
        decreases pairs.len() - i,
    {
        proof {
            assert(decreases_to!(pairs => pairs@));
            assert(decreases_to!(pairs@ => pairs@[i as int]));
            assert(decreases_to!(pairs@[i as int] => pairs@[i as int].0));
            assert(decreases_to!(pairs@[i as int] => pairs@[i as int].1));
        }
        let k = transpile_expression(ctx, r, &pairs[i].0);
        let v = transpile_expression(ctx, r, &pairs[i].1);
        let mut piece = "(".to_owned();
        push_str(&mut piece, k.as_str());
        push_str(&mut piece, ", ");
        push_str(&mut piece, v.as_str());
        push_str(&mut piece, ")");
        push_text(&mut out, piece);
        proof {
            let sv = pairs_view(pairs@);
            assert(sv.subrange(0, i + 1).subrange(0, i as int) =~= sv.subrange(0, i as int));
        }
        i = i + 1;
    }
    assert(pairs_view(pairs@).subrange(0, i as int) =~= pairs_view(pairs@));
    out
}

/// The named and positional arguments of a constructor call, lowered.
fn constructor_args(ctx: &Ctx, r: &Resolver, args: &Vec<Expression>) -> (res: (Vec<(String, String)>, Vec<String>))
    ensures
        named_view(res.0@) == rnamed(tctx(ctx, r), exprs_view(args@)),
        string_views(res.1@) == rpositional(tctx(ctx, r), exprs_view(args@)),
    decreases args,
{
    let ghost c = tctx(ctx, r);
    let mut named: Vec<(String, String)> = Vec::new();
    let mut pos: Vec<String> = Vec::new();
    let mut i: usize = 0;
    proof { lemma_exprs_view(args@); }
    assert(named_view(named@) =~= Seq::<(Seq<char>, Seq<char>)>::empty());
    while i < args.len()
        invariant
            0 <= i <= args.len(),
            c == tctx(ctx, r),
            exprs_view(args@).len() == args.len(),
            forall|j: int| 0 <= j < args.len() ==> #[trigger] exprs_view(args@)[j] == expr_view(args@[j]),
            named_view(named@) == rnamed(c, exprs_view(args@).subrange(0, i as int)),
            string_views(pos@) == rpositional(c, exprs_view(args@).subrange(0, i as int)),
        decreases args.len() - i,
    {
        proof {
            assert(decreases_to!(args => args@));
            assert(decreases_to!(args@ => args@[i as int]));
            let sv = exprs_view(args@);
            assert(sv.subrange(0, i + 1).subrange(0, i as int) =~= sv.subrange(0, i as int));
        }
        let ghost nb = named_view(named@);
        let ghost pb = string_views(pos@);
        let ghost sv = exprs_view(args@);
        let arg = &args[i];
        let mut is_named = false;
        if let Expression::BinaryOp(l, op, rhs) = arg {
            if let Expression::Ident(f) = &**l {
                if *op == BinaryOp::Assign {
                    is_named = true;
                    let v = transpile_expression(ctx, r, rhs);
                    named.push((f.clone(), v));
                    assert(named_view(named@) =~= nb.push((f@, v@)));
                    assert(expr_view(**l) == SExpr::Ident(f@));
                    assert(sv[i as int] == expr_view(*arg));
                    assert(sv[i as int] == SExpr::Bin(Box::new(SExpr::Ident(f@)), BinaryOp::Assign, Box::new(expr_view(**rhs))));
                    assert(is_named_arg(sv[i as int]));
                }
            }
        }
        if !is_named {
            let v = transpile_expression(ctx, r, arg);
            push_text(&mut pos, v);
            proof {
                if let Expression::BinaryOp(l, op, rhs) = arg {
                    if let Expression::Ident(f) = &**l {
                        assert(*op != BinaryOp::Assign);
                    }
                }
                assert(sv[i as int] == expr_view(*arg));
                assert(!is_named_arg(sv[i as int]));
            }
        }
        i = i + 1;
    }
    assert(exprs_view(args@).subrange(0, i as int) =~= exprs_view(args@));
    (named, pos)
}

/// The pieces a `$print` call joins (see `rprint_parts`).
fn print_parts(ctx: &Ctx, r: &Resolver, args: &Vec<Expression>) -> (v: Vec<String>)
    ensures
        string_views(v@) == rprint_parts(tctx(ctx, r), exprs_view(args@)),
    decreases args,
{
    let ghost c = tctx(ctx, r);
    let mut out: Vec<String> = Vec::new();
    let mut i: usize = 0;
    proof { lemma_exprs_view(args@); }
    while i < args.len()
        invariant
            0 <= i <= args.len(),
            c == tctx(ctx, r),
            exprs_view(args@).len() == args.len(),
            forall|j: int| 0 <= j < args.len() ==> #[trigger] exprs_view(args@)[j] == expr_view(args@[j]),
            string_views(out@) == rprint_parts(c, exprs_view(args@).subrange(0, i as int)),
        decreases args.len() - i,
    {
        proof {
            assert(decreases_to!(args => args@));
            assert(decreases_to!(args@ => args@[i as int]));
            let sv = exprs_view(args@);
            assert(sv.subrange(0, i + 1).subrange(0, i as int) =~= sv.subrange(0, i as int));
        }
        let piece = match &args[i] {
            Expression::Literal(Literal::String(s)) => transpile_print_string_literal(s),
            other => {
                let inner = transpile_expression(ctx, r, other);
                let mut p = "format!(\"{:?}\", ".to_owned();
                push_str(&mut p, inner.as_str());
                push_str(&mut p, ")");
                p
            },
        };
        push_text(&mut out, piece);
        i = i + 1;
    }
    assert(exprs_view(args@).subrange(0, i as int) =~= exprs_view(args@));
    out
}

proof fn lemma_print_parts_len(c: TCtx, s: Seq<SExpr>)
    ensures
        rprint_parts(c, s).len() == s.len(),
    decreases s.len(),
{
    if s.len() > 0 {
        lemma_print_parts_len(c, s.subrange(0, s.len() - 1));
    }
}

fn lambda_param_texts(params: &Vec<Param>) -> (v: Vec<String>)
    ensures
        string_views(v@) == lambda_params(params_view(params@)),
{
    let mut out: Vec<String> = Vec::new();
    let mut i: usize = 0;
    while i < params.len()
        invariant
            0 <= i <= params.len(),
            string_views(out@) == lambda_params(params_view(params@)).take(i as int),
        decreases params.len() - i,
    {
        let p = &params[i];
        let mut piece = p.name.clone();
        if let Some(t) = &p.ty {
            push_str(&mut piece, ": ");
            let ts = transpile_type(t);
            push_str(&mut piece, ts.as_str());
        }
        push_text(&mut out, piece);
        assert(lambda_params(params_view(params@)).take(i + 1) =~= lambda_params(params_view(params@)).take(i as int).push(piece@));
        i = i + 1;
    }
    assert(lambda_params(params_view(params@)).take(i as int) =~= lambda_params(params_view(params@)));
    out
}

/// Appends `", "`-joined parts between `open` and `close`.
fn push_list(out: &mut String, open: &str, parts: &Vec<String>, close: &str)
    ensures
        final(out)@ == old(out)@ + open@ + join(string_views(parts@), ", "@) + close@,
{
    push_str(out, open);
    let joined = join_comma(parts);
    push_str(out, joined.as_str());
    push_str(out, close);
}

/// An expression in Rust (see `rexpr`).
fn transpile_expression(ctx: &Ctx, r: &Resolver, e: &Expression) -> (out: String)
    ensures
        out@ == rexpr(tctx(ctx, r), e@),
    decreases e,
{
    let ghost c = tctx(ctx, r);
    match e {
        Expression::Literal(Literal::Int(i)) => {
            let out = int_to_text(*i);
            assert(out@ == rexpr(c, e@));
            out
        },
        Expression::Literal(Literal::Float(f)) => {
            let mut out = f.clone();
            if !has_point(f) {
                push_str(&mut out, ".0");
            }
            assert(out@ == rexpr(c, e@));
            out
        },
        Expression::Literal(Literal::String(s)) => {
            let mut out = "\"".to_owned();
            push_str(&mut out, s.as_str());
            push_str(&mut out, "\".to_string()");
            assert(out@ == rexpr(c, e@));
            out
        },
        Expression::Literal(Literal::List(items)) => {
            let parts = transpile_expressions(ctx, r, items);
            let mut out = String::new();
            push_list(&mut out, "vec![", &parts, "]");
            assert(out@ == rexpr(c, e@));
            out
        },
        Expression::Literal(Literal::Dict(pairs)) => {
            let parts = transpile_pairs(ctx, r, pairs);
            let mut out = String::new();
            push_list(&mut out, "std::collections::HashMap::from([", &parts, "])");
            assert(out@ == rexpr(c, e@));
            out
        },
        Expression::Literal(Literal::SetLiteral(items)) => {
            let parts = transpile_expressions(ctx, r, items);
            let mut out = String::new();
            push_list(&mut out, "std::collections::HashSet::from([", &parts, "])");
            assert(out@ == rexpr(c, e@));
            out
        },
        Expression::Ident(n) => n.clone(),
        Expression::BinaryOp(l, op, rhs) => {
            let ls = transpile_expression(ctx, r, l);
            let rs = transpile_expression(ctx, r, rhs);
            if *op == BinaryOp::MatMul {
                let mut out = "desert_matmul((".to_owned();
                push_str(&mut out, ls.as_str());
                push_str(&mut out, ").clone(), (");
                push_str(&mut out, rs.as_str());
                push_str(&mut out, ").clone())");
                out
            } else {
                let mut out = "(".to_owned();
                push_str(&mut out, ls.as_str());
                push_str(&mut out, " ");
                push_str(&mut out, op_str(*op));
                push_str(&mut out, " ");
                push_str(&mut out, rs.as_str());
                push_str(&mut out, ")");
                out
            }
        },
        Expression::Call(f, args) => {
            if let Expression::Ident(n) = &**f {
                assert(expr_view(**f) == SExpr::Ident(n@));
                if let Some(k) = lookup_struct(ctx, n) {
                    let (named, pos) = constructor_args(ctx, r, args);
                    let pairs = constructor_pairs(&ctx.structs[k].1, &named, &pos);
                    let mut out = n.clone();
                    push_list(&mut out, " { ", &pairs, " }");
                    assert(string_views(ctx.structs@[k as int].1@) == string_views(ctx.structs[k as int].1@));
                    assert(out@ == rexpr(c, e@));
                    return out;
                }
            }
            let callee = transpile_expression(ctx, r, f);
            let parts = transpile_expressions(ctx, r, args);
            let mut out = callee;
            push_list(&mut out, "(", &parts, ")");
            assert(out@ == rexpr(c, e@));
            assert(out@ == rexpr(c, e@));
            out
        },
        Expression::GenericCall(f, tys, args) => {
            let mut out = transpile_expression(ctx, r, f);
            let tparts = transpile_types(tys);
            let parts = transpile_expressions(ctx, r, args);
            push_list(&mut out, "::<", &tparts, ">(");
            let joined = join_comma(&parts);
            push_str(&mut out, joined.as_str());
            push_str(&mut out, ")");
            assert(out@ == rexpr(c, e@));
            assert(out@ == rexpr(c, e@));
            out
        },
        Expression::MacroCall(n, args) => {
            if text_eq(n.as_str(), "print") {
                if args.len() == 0 {
                    "println!()".to_owned()
                } else {
                    let parts = print_parts(ctx, r, args);
                    proof {
                        lemma_exprs_view(args@);
                        lemma_print_parts_len(c, exprs_view(args@));
                    }
                    if args.len() == 1 {
                        let mut out = "println!(\"{}\", ".to_owned();
                        push_str(&mut out, parts[0].as_str());
                        push_str(&mut out, ")");
                        assert(string_views(parts@)[0] == parts@[0]@);
                        assert(out@ == rexpr(c, e@));
                        out
                    } else {
                        let mut out = String::new();
                        push_list(&mut out, "println!(\"{}\", vec![", &parts, "].join(\" \"))");
                        assert(out@ == rexpr(c, e@));
                        out
                    }
                }
            } else {
                let parts = transpile_expressions(ctx, r, args);
                let mut out = n.clone();
                push_list(&mut out, "!(", &parts, ")");
                out
            }
        },
        Expression::MemberAccess(b, m) => {
            let mut out = transpile_expression(ctx, r, b);
            if r.is_static_receiver(b) {
                push_str(&mut out, "::");
            } else {
                push_str(&mut out, ".");
            }
            push_str(&mut out, m.as_str());
            assert(out@ == rexpr(c, e@));
            assert(out@ == rexpr(c, e@));
            out
        },
        Expression::Move(b) => {
            let inner = transpile_expression(ctx, r, b);
            let mut out = "std::mem::take(&mut ".to_owned();
            push_str(&mut out, inner.as_str());
            push_str(&mut out, ")");
            assert(out@ == rexpr(c, e@));
            out
        },
        Expression::SharedRef(b) => {
            let inner = transpile_expression(ctx, r, b);
            let mut out = "&".to_owned();
            push_str(&mut out, inner.as_str());
            assert(out@ == rexpr(c, e@));
            out
        },
        Expression::UniqueRef(b) => {
            let inner = transpile_expression(ctx, r, b);
            let mut out = "&mut ".to_owned();
            push_str(&mut out, inner.as_str());
            assert(out@ == rexpr(c, e@));
            out
        },
        Expression::Not(b) => {
            let inner = transpile_expression(ctx, r, b);
            let mut out = "!".to_owned();
            push_str(&mut out, inner.as_str());
            assert(out@ == rexpr(c, e@));
            out
        },
        Expression::Question(b) => {
            let mut out = transpile_expression(ctx, r, b);
            push_str(&mut out, "?");
            assert(out@ == rexpr(c, e@));
            out
        },
        Expression::Unwrap(b) => {
            let mut out = transpile_expression(ctx, r, b);
            push_str(&mut out, ".unwrap()");
            assert(out@ == rexpr(c, e@));
            out
        },
        Expression::Index(b, i) => {
            let mut out = transpile_expression(ctx, r, b);
            let idx = transpile_expression(ctx, r, i);
            push_str(&mut out, "[");
            push_str(&mut out, idx.as_str());
            push_str(&mut out, "]");
            assert(out@ == rexpr(c, e@));
            out
        },
        Expression::Tuple(items) => {
            let parts = transpile_expressions(ctx, r, items);
            proof { lemma_exprs_view(items@); }
            let mut out = "(".to_owned();
            let joined = join_comma(&parts);
            push_str(&mut out, joined.as_str());
            if items.len() == 1 {
                push_str(&mut out, ",");
            }
            push_str(&mut out, ")");
            proof {
                reveal_strlit("");
                assert(out@ =~= rexpr(c, e@));
            }
            out
        },
        Expression::Range(a, b) => {
            let mut out = transpile_expression(ctx, r, a);
            let bs = transpile_expression(ctx, r, b);
            push_str(&mut out, "..");
            push_str(&mut out, bs.as_str());
            assert(out@ == rexpr(c, e@));
            out
        },
        Expression::RangeInclusive(a, b) => {
            let mut out = transpile_expression(ctx, r, a);
            let bs = transpile_expression(ctx, r, b);
            push_str(&mut out, "..=");
            push_str(&mut out, bs.as_str());
            assert(out@ == rexpr(c, e@));
            out
        },
        Expression::Lambda { params, body } => {
            let parts = lambda_param_texts(params);
            let b = transpile_expression(ctx, r, body);
            let mut out = String::new();
            push_list(&mut out, "|", &parts, "| ");
            push_str(&mut out, b.as_str());
            assert(out@ == rexpr(c, e@));
            assert(out@ == rexpr(c, e@));
            out
        },
    }
}

fn op_str(op: BinaryOp) -> (r: &'static str)
    ensures
        r@ == op_text(op),
{
    match op {
        BinaryOp::Add => "+",
        BinaryOp::Sub => "-",
        BinaryOp::Mul => "*",
        BinaryOp::Mod => "%",
        BinaryOp::Div => "/",
        BinaryOp::And => "&&",
        BinaryOp::Or => "||",
        BinaryOp::Assign => "=",
        BinaryOp::Eq => "==",
        BinaryOp::Ne => "!=",
        BinaryOp::Gt => ">",
        BinaryOp::Lt => "<",
        BinaryOp::Ge => ">=",
        BinaryOp::Le => "<=",
        BinaryOp::MatMul => "@",
    }
}

// ---------------------------------------------------------------------------
// Executable statement lowering.
// ---------------------------------------------------------------------------

pub open spec fn lines_view(v: Seq<(String, usize)>) -> Lines {
    v.map_values(|x: (String, usize)| (x.0@, x.1 as int))
}

fn push_line(lines: &mut Vec<(String, usize)>, text: String, d: usize)
    ensures
        lines_view(final(lines)@) == lines_view(old(lines)@).push((text@, d as int)),
{
    lines.push((text, d));
    assert(lines_view(final(lines)@) =~= lines_view(old(lines)@).push((text@, d as int)));
}

fn indent_more(ind: &String) -> (r: String)
    ensures
        r@ == ind@ + "    "@,
{
    let mut r = ind.clone();
    push_str(&mut r, "    ");
    r
}

/// The Desert line of a statement starting at `start` (see `ds_line`).
fn ds_line_of(src: &Vec<char>, start: usize) -> (r: usize)
    ensures
        r as int == ds_line(src@, start as int),
{
    let (st, _) = char_index_of_byte(src, start);
    let mut n: usize = 0;
    let mut i: usize = 0;
    while i < st
        invariant
            0 <= i <= st <= src.len(),
            n <= i,
            n as int == count_newlines(src@.take(i as int)),
        decreases st - i,
    {
        assert(src@.take(i + 1).drop_last() =~= src@.take(i as int));
        if src[i] == '\n' {
            n = n + 1;
        }
        i = i + 1;
    }
    if st == 0 {
        0
    } else if src[st - 1] == '\n' {
        if n > 0 { n - 1 } else { 0 }
    } else {
        n
    }
}

proof fn lemma_rstmt_scopes(c: TCtx, st: SStmt, ind: Seq<char>, src: Seq<char>)
    ensures
        rstmt(c, st, ind, src).1.len() == c.scopes.len(),
        c.scopes.len() > 0 ==> rstmt(c, st, ind, src).1.drop_last() == c.scopes.drop_last(),
{
    if c.scopes.len() > 0 {
        assert(rstmt(c, st, ind, src).1.drop_last() =~= c.scopes.drop_last());
    }
}

proof fn lemma_rstmts_scopes(c: TCtx, s: Seq<SStmt>, ind: Seq<char>, src: Seq<char>)
    ensures
        rstmts(c, s, ind, src).1.len() == c.scopes.len(),
        c.scopes.len() > 0 ==> rstmts(c, s, ind, src).1.drop_last() == c.scopes.drop_last(),
    decreases s.len(),
{
    if s.len() > 0 {
        let sc1 = rstmt(c, s[0], ind, src).1;
        lemma_rstmt_scopes(c, s[0], ind, src);
        lemma_rstmts_scopes(with_scopes(c, sc1), s.subrange(1, s.len() as int), ind, src);
    }
}

fn is_protocol(ctx: &Ctx, n: &String) -> (r: bool)
    ensures
        r == string_views(ctx.protocols@).contains(n@),
{
    let mut i: usize = 0;
    while i < ctx.protocols.len()
        invariant
            0 <= i <= ctx.protocols.len(),
            forall|j: int| 0 <= j < i ==> ctx.protocols@[j]@ != n@,
        decreases ctx.protocols.len() - i,
    {
        if text_eq(ctx.protocols[i].as_str(), n.as_str()) {
            assert(string_views(ctx.protocols@)[i as int] == n@);
            return true;
        }
        i = i + 1;
    }
    assert(!string_views(ctx.protocols@).contains(n@)) by {
        if string_views(ctx.protocols@).contains(n@) {
            let k = choose|k: int| 0 <= k < string_views(ctx.protocols@).len() && string_views(ctx.protocols@)[k] == n@;
            assert(ctx.protocols@[k]@ == n@);
        }
    }
    false
}

/// A `def` parameter in Rust (see `rparam`).
fn transpile_param(ctx: &Ctx, r: &Resolver, p: &Param) -> (out: String)
    ensures
        out@ == rparam(tctx(ctx, r), param_view(*p)),
{
    if text_eq(p.name.as_str(), "self") && p.ty.is_none() {
        return if p.is_mut { "&mut self".to_owned() } else { "&self".to_owned() };
    }
    let mut out = if p.is_mut { "mut ".to_owned() } else { "".to_owned() };
    push_str(&mut out, p.name.as_str());
    match &p.ty {
        Some(t) => {
            push_str(&mut out, ": ");
            let ts = match t {
                Type::Simple(n) => if is_protocol(ctx, n) {
                    let mut x = "impl ".to_owned();
                    push_str(&mut x, n.as_str());
                    x
                } else {
                    transpile_type(t)
                },
                _ => transpile_type(t),
            };
            push_str(&mut out, ts.as_str());
        },
        None => {
            push_str(&mut out, "");
        },
    }
    out
}

fn transpile_params(ctx: &Ctx, r: &Resolver, params: &Vec<Param>) -> (v: Vec<String>)
    ensures
        string_views(v@) == rparams(tctx(ctx, r), params_view(params@)),
{
    let mut out: Vec<String> = Vec::new();
    let mut i: usize = 0;
    while i < params.len()
        invariant
            0 <= i <= params.len(),
            string_views(out@) == rparams(tctx(ctx, r), params_view(params@)).take(i as int),
        decreases params.len() - i,
    {
        let piece = transpile_param(ctx, r, &params[i]);
        push_text(&mut out, piece);
        assert(rparams(tctx(ctx, r), params_view(params@)).take(i + 1) =~= rparams(tctx(ctx, r), params_view(params@)).take(i as int).push(piece@));
        i = i + 1;
    }
    assert(rparams(tctx(ctx, r), params_view(params@)).take(i as int) =~= rparams(tctx(ctx, r), params_view(params@)));
    out
}

/// Whether a block returns a value (see `has_value_return`).
fn block_has_value_return(stmts: &Vec<Statement>) -> (b: bool)
    ensures
        b == has_value_return(stmts_view(stmts@)),
    decreases stmts,
{
    let ghost sv = stmts_view(stmts@);
    let mut i: usize = 0;
    proof { lemma_stmts_view(stmts@); }
    assert(sv.subrange(0, sv.len() as int) =~= sv);
    while i < stmts.len()
        invariant
            0 <= i <= stmts.len(),
            sv == stmts_view(stmts@),
            sv.len() == stmts.len(),
            forall|j: int| 0 <= j < stmts.len() ==> #[trigger] sv[j] == stmt_view(stmts@[j]),
            has_value_return(sv) == has_value_return(sv.subrange(i as int, sv.len() as int)),
        decreases stmts.len() - i,
    {
        proof {
            assert(decreases_to!(stmts => stmts@));
            assert(decreases_to!(stmts@ => stmts@[i as int]));
            let rest = sv.subrange(i as int, sv.len() as int);
            assert(rest[0] == sv[i as int]);
            assert(rest.subrange(1, rest.len() as int) =~= sv.subrange(i + 1, sv.len() as int));
        }
        if statement_has_value_return(&stmts[i]) {
            return true;
        }
        i = i + 1;
    }
    false
}

fn statement_has_value_return(st: &Statement) -> (b: bool)
    ensures
        b == stmt_has_value_return(st@),
    decreases st,
{
    match &st.kind {
        StatementKind::Return(Some(_)) => true,
        StatementKind::If { then_block, else_block, .. } => {
            block_has_value_return(then_block) || match else_block {
                Some(b) => block_has_value_return(b),
                None => false,
            }
        },
        StatementKind::For { body, .. } => block_has_value_return(body),
        StatementKind::While { body, .. } => block_has_value_return(body),
        StatementKind::Def { body, .. } => block_has_value_return(body),
        StatementKind::Protocol { methods, .. } => block_has_value_return(methods),
        StatementKind::Impl { methods, .. } => block_has_value_return(methods),
        StatementKind::Match { arms, .. } => {
            let ghost av = arms_view(arms@);
            let mut i: usize = 0;
            proof {
                lemma_arms_view(arms@);
                assert(decreases_to!(*st => *arms));
            }
            assert(av.subrange(0, av.len() as int) =~= av);
            while i < arms.len()
                invariant
                    0 <= i <= arms.len(),
                    decreases_to!(*st => *arms),
                    stmt_has_value_return(st@) == arms_have_value_return(av),
                    av == arms_view(arms@),
                    av.len() == arms.len(),
                    forall|j: int| 0 <= j < arms.len() ==> #[trigger] av[j] == (expr_view(arms@[j].0), stmts_view(arms@[j].1@)),
                    arms_have_value_return(av) == arms_have_value_return(av.subrange(i as int, av.len() as int)),
                decreases arms.len() - i,
            {
                proof {
                    assert(decreases_to!(*arms => arms@));
                    assert(decreases_to!(arms@ => arms@[i as int]));
                    assert(decreases_to!(arms@[i as int] => arms@[i as int].1));
                    let rest = av.subrange(i as int, av.len() as int);
                    assert(rest[0] == av[i as int]);
                    assert(rest.subrange(1, rest.len() as int) =~= av.subrange(i + 1, av.len() as int));
                }
                if block_has_value_return(&arms[i].1) {
                    return true;
                }
                i = i + 1;
            }
            false
        },
        _ => false,
    }
}

fn exprs_matmul(items: &Vec<Expression>) -> (b: bool)
    ensures
        b == exprs_use_matmul(exprs_view(items@)),
    decreases items,
{
    let ghost sv = exprs_view(items@);
    let mut i: usize = 0;
    proof { lemma_exprs_view(items@); }
    while i < items.len()
        invariant
            0 <= i <= items.len(),
            sv == exprs_view(items@),
            sv.len() == items.len(),
            forall|j: int| 0 <= j < items.len() ==> #[trigger] sv[j] == expr_view(items@[j]),
            !exprs_use_matmul(sv.subrange(0, i as int)),
        decreases items.len() - i,
    {
        proof {
            assert(decreases_to!(items => items@));
            assert(decreases_to!(items@ => items@[i as int]));
            assert(sv.subrange(0, i + 1).subrange(0, i as int) =~= sv.subrange(0, i as int));
        }
        if expression_matmul(&items[i]) {
            proof { lemma_matmul_prefix(sv, i + 1); }
            return true;
        }
        i = i + 1;
    }
    assert(sv.subrange(0, i as int) =~= sv);
    false
}

/// A use of `@` in a prefix is a use in the whole list.
proof fn lemma_matmul_prefix(s: Seq<SExpr>, k: int)
    requires
        0 <= k <= s.len(),
        exprs_use_matmul(s.subrange(0, k)),
    ensures
        exprs_use_matmul(s),
    decreases s.len() - k,
{
    if k < s.len() {
        assert(s.subrange(0, k + 1).subrange(0, k) =~= s.subrange(0, k));
        lemma_matmul_prefix(s, k + 1);
    } else {
        assert(s.subrange(0, k) =~= s);
    }
}

proof fn lemma_pairs_matmul_prefix(s: Seq<(SExpr, SExpr)>, k: int)
    requires
        0 <= k <= s.len(),
        pairs_use_matmul(s.subrange(0, k)),
    ensures
        pairs_use_matmul(s),
    decreases s.len() - k,
{
    if k < s.len() {
        assert(s.subrange(0, k + 1).subrange(0, k) =~= s.subrange(0, k));
        lemma_pairs_matmul_prefix(s, k + 1);
    } else {
        assert(s.subrange(0, k) =~= s);
    }
}

fn pairs_matmul(pairs: &Vec<(Expression, Expression)>) -> (b: bool)
    ensures
        b == pairs_use_matmul(pairs_view(pairs@)),
    decreases pairs,
{
    let ghost sv = pairs_view(pairs@);
    let mut i: usize = 0;
    proof { lemma_pairs_view(pairs@); }
    while i < pairs.len()
        invariant
            0 <= i <= pairs.len(),
            sv == pairs_view(pairs@),
            sv.len() == pairs.len(),
            forall|j: int| 0 <= j < pairs.len() ==> #[trigger] sv[j] == (expr_view(pairs@[j].0), expr_view(pairs@[j].1)),
            !pairs_use_matmul(sv.subrange(0, i as int)),
        decreases pairs.len() - i,
    {
        proof {
            assert(decreases_to!(pairs => pairs@));
            assert(decreases_to!(pairs@ => pairs@[i as int]));
            assert(decreases_to!(pairs@[i as int] => pairs@[i as int].0));
            assert(decreases_to!(pairs@[i as int] => pairs@[i as int].1));
            assert(sv.subrange(0, i + 1).subrange(0, i as int) =~= sv.subrange(0, i as int));
        }
        if expression_matmul(&pairs[i].0) || expression_matmul(&pairs[i].1) {
            proof { lemma_pairs_matmul_prefix(sv, i + 1); }
            return true;
        }
        i = i + 1;
    }
    assert(sv.subrange(0, i as int) =~= sv);
    false
}

/// Whether an expression uses `@` (see `expr_uses_matmul`).
fn expression_matmul(e: &Expression) -> (b: bool)
    ensures
        b == expr_uses_matmul(e@),
    decreases e,
{
    match e {
        Expression::Literal(Literal::List(items)) => exprs_matmul(items),
        Expression::Literal(Literal::SetLiteral(items)) => exprs_matmul(items),
        Expression::Literal(Literal::Dict(pairs)) => pairs_matmul(pairs),
        Expression::Literal(_) => false,
        Expression::Ident(_) => false,
        Expression::BinaryOp(l, op, r) => *op == BinaryOp::MatMul || expression_matmul(l) || expression_matmul(r),
        Expression::Call(f, args) => expression_matmul(f) || exprs_matmul(args),
        Expression::GenericCall(f, _, args) => expression_matmul(f) || exprs_matmul(args),
        Expression::MacroCall(_, args) => exprs_matmul(args),
        Expression::MemberAccess(b, _) => expression_matmul(b),
        Expression::Move(b) => expression_matmul(b),
        Expression::SharedRef(b) => expression_matmul(b),
        Expression::UniqueRef(b) => expression_matmul(b),
        Expression::Not(b) => expression_matmul(b),
        Expression::Question(b) => expression_matmul(b),
        Expression::Unwrap(b) => expression_matmul(b),
        Expression::Index(b, i) => expression_matmul(b) || expression_matmul(i),
        Expression::Tuple(items) => exprs_matmul(items),
        Expression::Range(a, b) => expression_matmul(a) || expression_matmul(b),
        Expression::RangeInclusive(a, b) => expression_matmul(a) || expression_matmul(b),
        Expression::Lambda { body, .. } => expression_matmul(body),
    }
}

fn block_matmul(stmts: &Vec<Statement>) -> (b: bool)
    ensures
        b == stmts_use_matmul(stmts_view(stmts@)),
    decreases stmts,
{
    let ghost sv = stmts_view(stmts@);
    let mut i: usize = 0;
    proof { lemma_stmts_view(stmts@); }
    assert(sv.subrange(0, sv.len() as int) =~= sv);
    while i < stmts.len()
        invariant
            0 <= i <= stmts.len(),
            sv == stmts_view(stmts@),
            sv.len() == stmts.len(),
            forall|j: int| 0 <= j < stmts.len() ==> #[trigger] sv[j] == stmt_view(stmts@[j]),
            stmts_use_matmul(sv) == stmts_use_matmul(sv.subrange(i as int, sv.len() as int)),
        decreases stmts.len() - i,
    {
        proof {
            assert(decreases_to!(stmts => stmts@));
            assert(decreases_to!(stmts@ => stmts@[i as int]));
            let rest = sv.subrange(i as int, sv.len() as int);
            assert(rest[0] == sv[i as int]);
            assert(rest.subrange(1, rest.len() as int) =~= sv.subrange(i + 1, sv.len() as int));
        }
        if statement_matmul(&stmts[i]) {
            return true;
        }
        i = i + 1;
    }
    false
}

/// Whether a statement uses `@` (see `stmt_uses_matmul`).
fn statement_matmul(st: &Statement) -> (b: bool)
    ensures
        b == stmt_uses_matmul(st@),
    decreases st,
{
    match &st.kind {
        StatementKind::Let { value, .. } => expression_matmul(value),
        StatementKind::Mut { value, .. } => expression_matmul(value),
        StatementKind::Def { body, .. } => block_matmul(body),
        StatementKind::If { condition, then_block, else_block } => {
            expression_matmul(condition) || block_matmul(then_block) || match else_block {
                Some(b) => block_matmul(b),
                None => false,
            }
        },
        StatementKind::For { iterable, body, .. } => expression_matmul(iterable) || block_matmul(body),
        StatementKind::While { condition, body } => expression_matmul(condition) || block_matmul(body),
        StatementKind::Protocol { methods, .. } => block_matmul(methods),
        StatementKind::Impl { methods, .. } => block_matmul(methods),
        StatementKind::Match { expression, arms } => {
            if expression_matmul(expression) {
                return true;
            }
            let ghost av = arms_view(arms@);
            let mut i: usize = 0;
            proof {
                lemma_arms_view(arms@);
                assert(decreases_to!(*st => *arms));
            }
            assert(av.subrange(0, av.len() as int) =~= av);
            while i < arms.len()
                invariant
                    0 <= i <= arms.len(),
                    decreases_to!(*st => *arms),
                    stmt_uses_matmul(st@) == arms_use_matmul(av),
                    av == arms_view(arms@),
                    av.len() == arms.len(),
                    forall|j: int| 0 <= j < arms.len() ==> #[trigger] av[j] == (expr_view(arms@[j].0), stmts_view(arms@[j].1@)),
                    arms_use_matmul(av) == arms_use_matmul(av.subrange(i as int, av.len() as int)),
                decreases arms.len() - i,
            {
                proof {
                    assert(decreases_to!(*arms => arms@));
                    assert(decreases_to!(arms@ => arms@[i as int]));
                    assert(decreases_to!(arms@[i as int] => arms@[i as int].0));
                    assert(decreases_to!(arms@[i as int] => arms@[i as int].1));
                    let rest = av.subrange(i as int, av.len() as int);
                    assert(rest[0] == av[i as int]);
                    assert(rest.subrange(1, rest.len() as int) =~= av.subrange(i + 1, av.len() as int));
                }
                if expression_matmul(&arms[i].0) || block_matmul(&arms[i].1) {
                    return true;
                }
                i = i + 1;
            }
            false
        },
        StatementKind::Return(Some(e)) => expression_matmul(e),
        StatementKind::Expr(e) => expression_matmul(e),
        _ => false,
    }
}

fn type_annotation(ty: &Option<Type>) -> (r: String)
    ensures
        r@ == type_ann(match *ty {
            Some(t) => Some(type_view(t)),
            None => None,
        }),
{
    match ty {
        Some(t) => {
            let mut out = ": ".to_owned();
            let ts = transpile_type(t);
            push_str(&mut out, ts.as_str());
            out
        },
        None => "".to_owned(),
    }
}

spec fn str_views(s: Seq<&str>) -> Seq<Seq<char>> {
    s.map_values(|x: &str| x@)
}

/// Declares each of `names` as a value in the innermost scope.
fn declare_all(r: &mut Resolver, names: &Vec<&str>)
    requires
        old(r).wf(),
    ensures
        final(r).wf(),
        final(r).types() == old(r).types(),
        final(r).scopes() == declare(old(r).scopes(), str_views(names@)),
{
    let ghost sc = r.scopes();
    let mut k: usize = 0;
    proof {
        r.lemma_wf();
        assert(sc.update(sc.len() - 1, sc.last() + str_views(names@).take(0)) =~= sc);
    }
    while k < names.len()
        invariant
            0 <= k <= names.len(),
            r.wf(),
            r.types() == old(r).types(),
            sc == old(r).scopes(),
            sc.len() > 0,
            r.scopes() == sc.update(sc.len() - 1, sc.last() + str_views(names@).take(k as int)),
        decreases names.len() - k,
    {
        r.declare_value(names[k]);
        assert(str_views(names@).take(k + 1) =~= str_views(names@).take(k as int).push(names@[k as int]@));
        assert(r.scopes() =~= sc.update(sc.len() - 1, sc.last() + str_views(names@).take(k + 1)));
        k = k + 1;
    }
    assert(str_views(names@).take(k as int) =~= str_views(names@));
}

/// A block in a new innermost scope holding `names`.
fn transpile_block(
    ctx: &Ctx,
    stmts: &Vec<Statement>,
    ind: &String,
    src: &Vec<char>,
    names: &Vec<&str>,
    r: &mut Resolver,
    lines: &mut Vec<(String, usize)>,
)
    requires
        old(r).wf(),
    ensures
        final(r).wf(),
        final(r).types() == old(r).types(),
        final(r).scopes() == old(r).scopes(),
        lines_view(final(lines)@) == lines_view(old(lines)@)
            + rstmts(scoped(tctx(ctx, old(r)), str_views(names@)), stmts_view(stmts@), ind@, src@).0,
    decreases stmts, 1int,
{
    let ghost c = tctx(ctx, r);
    proof { r.lemma_wf(); }
    r.enter_scope();
    declare_all(r, names);
    proof {
        assert(r.scopes() =~= c.scopes.push(str_views(names@)));
        assert(tctx(ctx, r) == scoped(c, str_views(names@)));
        lemma_rstmts_scopes(scoped(c, str_views(names@)), stmts_view(stmts@), ind@, src@);
    }
    transpile_statements(ctx, stmts, ind, src, r, lines);
    proof {
        assert(r.scopes().len() > 1);
        assert(r.scopes().drop_last() =~= c.scopes);
    }
    r.leave_scope();
}

/// The lines of a list of statements (see `rstmts`).
fn transpile_statements(
    ctx: &Ctx,
    stmts: &Vec<Statement>,
    ind: &String,
    src: &Vec<char>,
    r: &mut Resolver,
    lines: &mut Vec<(String, usize)>,
)
    requires
        old(r).wf(),
    ensures
        final(r).wf(),
        final(r).types() == old(r).types(),
        final(r).scopes() == rstmts(tctx(ctx, old(r)), stmts_view(stmts@), ind@, src@).1,
        lines_view(final(lines)@) == lines_view(old(lines)@) + rstmts(tctx(ctx, old(r)), stmts_view(stmts@), ind@, src@).0,
    decreases stmts, 0int,
{
    let ghost c0 = tctx(ctx, r);
    let ghost sv = stmts_view(stmts@);
    let ghost l0 = lines_view(lines@);
    let mut i: usize = 0;
    proof { lemma_stmts_view(stmts@); }
    assert(sv.subrange(0, sv.len() as int) =~= sv);
    assert(l0 =~= l0 + Seq::<(Seq<char>, int)>::empty());
    while i < stmts.len()
        invariant
            0 <= i <= stmts.len(),
            r.wf(),
            r.types() == old(r).types(),
            c0 == tctx(ctx, old(r)),
            sv == stmts_view(stmts@),
            sv.len() == stmts.len(),
            forall|j: int| 0 <= j < stmts.len() ==> #[trigger] sv[j] == stmt_view(stmts@[j]),
            rstmts(c0, sv, ind@, src@).1 == rstmts(tctx(ctx, r), sv.subrange(i as int, sv.len() as int), ind@, src@).1,
            l0 + rstmts(c0, sv, ind@, src@).0 == lines_view(lines@) + rstmts(tctx(ctx, r), sv.subrange(i as int, sv.len() as int), ind@, src@).0,
        decreases stmts.len() - i,
    {
        proof {
            assert(decreases_to!(stmts => stmts@));
            assert(decreases_to!(stmts@ => stmts@[i as int]));
        }
        let ghost ci = tctx(ctx, r);
        let ghost li = lines_view(lines@);
        let ghost rest = sv.subrange(i as int, sv.len() as int);
        assert(rest[0] == sv[i as int]);
        assert(rest.subrange(1, rest.len() as int) =~= sv.subrange(i + 1, sv.len() as int));
        transpile_statement(ctx, &stmts[i], ind, src, r, lines);
        proof {
            let (l1, sc1) = rstmt(ci, sv[i as int], ind@, src@);
            assert(tctx(ctx, r) == with_scopes(ci, sc1));
            assert(lines_view(lines@) == li + l1);
            let next = sv.subrange(i + 1, sv.len() as int);
            assert(li + rstmts(ci, rest, ind@, src@).0 =~= lines_view(lines@) + rstmts(tctx(ctx, r), next, ind@, src@).0);
        }
        i = i + 1;
    }
    proof {
        assert(sv.subrange(i as int, sv.len() as int) =~= Seq::<SStmt>::empty());
        assert(lines_view(lines@) + Seq::<(Seq<char>, int)>::empty() =~= lines_view(lines@));
    }
}

fn param_name_list(params: &Vec<Param>) -> (v: Vec<&str>)
    ensures
        str_views(v@) == param_names(params_view(params@)),
{
    let mut v: Vec<&str> = Vec::new();
    let mut i: usize = 0;
    while i < params.len()
        invariant
            0 <= i <= params.len(),
            str_views(v@) == param_names(params_view(params@)).take(i as int),
        decreases params.len() - i,
    {
        let nm = params[i].name.as_str();
        assert(nm@ == params@[i as int].name@);
        let ghost old_v = v@;
        v.push(nm);
        assert(params_view(params@)[i as int] == param_view(params@[i as int]));
        assert(param_names(params_view(params@))[i as int] == params@[i as int].name@);
        assert(str_views(v@) =~= str_views(old_v).push(nm@));
        assert(param_names(params_view(params@)).take(i + 1) =~= param_names(params_view(params@)).take(i as int).push(nm@));
        i = i + 1;
    }
    assert(param_names(params_view(params@)).take(i as int) =~= param_names(params_view(params@)));
    v
}

/// `header`, the block one level in, and `footer`, all mapped to `d`.
fn block_lines(
    ctx: &Ctx,
    header: String,
    stmts: &Vec<Statement>,
    ind: &String,
    src: &Vec<char>,
    names: &Vec<&str>,
    d: usize,
    r: &mut Resolver,
    lines: &mut Vec<(String, usize)>,
)
    requires
        old(r).wf(),
    ensures
        final(r).wf(),
        final(r).types() == old(r).types(),
        final(r).scopes() == old(r).scopes(),
        lines_view(final(lines)@) == lines_view(old(lines)@) + (seq![(header@, d as int)]
            + rstmts(scoped(tctx(ctx, old(r)), str_views(names@)), stmts_view(stmts@), ind@ + "    "@, src@).0
            + seq![(ind@ + "}"@, d as int)]),
    decreases stmts, 2int,
{
    let ghost l0 = lines_view(lines@);
    push_line(lines, header, d);
    let inner = indent_more(ind);
    transpile_block(ctx, stmts, &inner, src, names, r, lines);
    let mut footer = ind.clone();
    push_str(&mut footer, "}");
    push_line(lines, footer, d);
    assert(lines_view(lines@) =~= l0 + (seq![(header@, d as int)]
        + rstmts(scoped(tctx(ctx, old(r)), str_views(names@)), stmts_view(stmts@), ind@ + "    "@, src@).0
        + seq![(ind@ + "}"@, d as int)]));
}

fn ret_string(return_ty: &Option<Type>, body: &Vec<Statement>) -> (out: String)
    ensures
        out@ == ret_text(match *return_ty {
            Some(t) => Some(type_view(t)),
            None => None,
        }, stmts_view(body@)),
{
    match return_ty {
        Some(t) => {
            let mut out = " -> ".to_owned();
            let ts = transpile_type(t);
            push_str(&mut out, ts.as_str());
            out
        },
        None => {
            if block_has_value_return(body) {
                " -> impl std::fmt::Debug".to_owned()
            } else {
                "".to_owned()
            }
        },
    }
}

/// The lines of a `def`: its header, the body one level in (with the
/// parameters in scope), and its closing brace.
fn lower_def(
    ctx: &Ctx,
    name: &String,
    params: &Vec<Param>,
    return_ty: &Option<Type>,
    body: &Vec<Statement>,
    ind: &String,
    src: &Vec<char>,
    d: usize,
    r: &mut Resolver,
    lines: &mut Vec<(String, usize)>,
)
    requires
        old(r).wf(),
    ensures
        final(r).wf(),
        final(r).types() == old(r).types(),
        final(r).scopes() == old(r).scopes(),
        lines_view(final(lines)@) == lines_view(old(lines)@) + (seq![(ind@ + "fn "@ + name@ + "("@
            + join(rparams(tctx(ctx, old(r)), params_view(params@)), ", "@) + ")"@
            + ret_text(match *return_ty {
                Some(t) => Some(type_view(t)),
                None => None,
            }, stmts_view(body@)) + " {"@, d as int)]
            + rstmts(scoped(tctx(ctx, old(r)), param_names(params_view(params@))), stmts_view(body@), ind@ + "    "@, src@).0
            + seq![(ind@ + "}"@, d as int)]),
    decreases body, 3int,
{
    let mut header = ind.clone();
    push_str(&mut header, "fn ");
    push_str(&mut header, name.as_str());
    let ps = transpile_params(ctx, r, params);
    push_list(&mut header, "(", &ps, ")");
    let ret = ret_string(return_ty, body);
    push_str(&mut header, ret.as_str());
    push_str(&mut header, " {");
    let names = param_name_list(params);
    block_lines(ctx, header, body, ind, src, &names, d, r, lines);
}

/// The header and then-block of an `if`.
fn lower_then(
    ctx: &Ctx,
    condition: &Expression,
    then_block: &Vec<Statement>,
    ind: &String,
    src: &Vec<char>,
    d: usize,
    r: &mut Resolver,
    lines: &mut Vec<(String, usize)>,
)
    requires
        old(r).wf(),
    ensures
        final(r).wf(),
        final(r).types() == old(r).types(),
        final(r).scopes() == old(r).scopes(),
        lines_view(final(lines)@) == lines_view(old(lines)@) + (seq![(ind@ + "if "@ + rexpr(tctx(ctx, old(r)), condition@) + " {"@, d as int)]
            + rstmts(scoped(tctx(ctx, old(r)), seq![]), stmts_view(then_block@), ind@ + "    "@, src@).0),
    decreases then_block, 3int,
{
    let ghost c = tctx(ctx, r);
    let ghost l0 = lines_view(lines@);
    let no_names: Vec<&str> = Vec::new();
    assert(str_views(no_names@) =~= Seq::<Seq<char>>::empty());
    let mut header = ind.clone();
    push_str(&mut header, "if ");
    let cs = transpile_expression(ctx, r, condition);
    push_str(&mut header, cs.as_str());
    push_str(&mut header, " {");
    push_line(lines, header, d);
    let inner = indent_more(ind);
    transpile_block(ctx, then_block, &inner, src, &no_names, r, lines);
    assert(lines_view(lines@) =~= l0 + (seq![(ind@ + "if "@ + rexpr(c, condition@) + " {"@, d as int)]
        + rstmts(scoped(c, seq![]), stmts_view(then_block@), ind@ + "    "@, src@).0));
}

fn lower_else(
    ctx: &Ctx,
    eb: &Vec<Statement>,
    ind: &String,
    inner: &String,
    src: &Vec<char>,
    d: usize,
    r: &mut Resolver,
    lines: &mut Vec<(String, usize)>,
)
    requires
        old(r).wf(),
        inner@ == ind@ + "    "@,
    ensures
        final(r).wf(),
        final(r).types() == old(r).types(),
        final(r).scopes() == old(r).scopes(),
        lines_view(final(lines)@) == lines_view(old(lines)@) + (seq![(ind@ + "} else {"@, d as int)]
            + rstmts(scoped(tctx(ctx, old(r)), seq![]), stmts_view(eb@), ind@ + "    "@, src@).0),
    decreases eb, 3int,
{
    let ghost l0 = lines_view(lines@);
    let no_names: Vec<&str> = Vec::new();
    assert(str_views(no_names@) =~= Seq::<Seq<char>>::empty());
    let mut m = ind.clone();
    push_str(&mut m, "} else {");
    push_line(lines, m, d);
    transpile_block(ctx, eb, inner, src, &no_names, r, lines);
    assert(lines_view(lines@) =~= l0 + (seq![(ind@ + "} else {"@, d as int)]
        + rstmts(scoped(tctx(ctx, old(r)), seq![]), stmts_view(eb@), ind@ + "    "@, src@).0));
}

/// The struct's lines: header, one `pub field: Type,` per field, brace.
fn lower_struct(
    name: &String,
    fields: &Vec<Param>,
    ind: &String,
    d: usize,
    lines: &mut Vec<(String, usize)>,
)
    ensures
        lines_view(final(lines)@) == lines_view(old(lines)@) + (seq![(ind@ + "struct "@ + name@ + " {"@, d as int)]
            + at_line(params_view(fields@).map_values(|f: SParam| field_line(ind@, f)), d as int)
            + seq![(ind@ + "}"@, d as int)]),
{
    let ghost l0 = lines_view(lines@);
    let mut header = ind.clone();
    push_str(&mut header, "struct ");
    push_str(&mut header, name.as_str());
    push_str(&mut header, " {");
    push_line(lines, header, d);
    let ghost fl = params_view(fields@).map_values(|f: SParam| field_line(ind@, f));
    let ghost l1 = lines_view(lines@);
    let mut k: usize = 0;
    while k < fields.len()
        invariant
            0 <= k <= fields.len(),
            fl == params_view(fields@).map_values(|f: SParam| field_line(ind@, f)),
            lines_view(lines@) == l1 + at_line(fl, d as int).take(k as int),
        decreases fields.len() - k,
    {
        let f = &fields[k];
        let mut text = ind.clone();
        push_str(&mut text, "    pub ");
        push_str(&mut text, f.name.as_str());
        push_str(&mut text, ": ");
        let ts = match &f.ty {
            Some(t) => transpile_type(t),
            None => "()".to_owned(),
        };
        push_str(&mut text, ts.as_str());
        push_str(&mut text, ",");
        proof {
            assert(params_view(fields@)[k as int] == param_view(fields@[k as int]));
            assert(text@ =~= fl[k as int]);
        }
        push_line(lines, text, d);
        assert(at_line(fl, d as int).take(k + 1) =~= at_line(fl, d as int).take(k as int).push((text@, d as int)));
        k = k + 1;
    }
    assert(at_line(fl, d as int).take(k as int) =~= at_line(fl, d as int));
    let mut footer = ind.clone();
    push_str(&mut footer, "}");
    push_line(lines, footer, d);
    assert(lines_view(lines@) =~= l0 + (seq![(ind@ + "struct "@ + name@ + " {"@, d as int)] + at_line(fl, d as int)
        + seq![(ind@ + "}"@, d as int)]));
}

/// The enum's lines: header, one `Variant,` or `Variant(T, U),` per
/// variant, brace.
fn lower_enum(
    name: &String,
    variants: &Vec<EnumVariant>,
    ind: &String,
    d: usize,
    lines: &mut Vec<(String, usize)>,
)
    ensures
        lines_view(final(lines)@) == lines_view(old(lines)@) + (seq![(ind@ + "enum "@ + name@ + " {"@, d as int)]
            + at_line(variants@.map_values(|v: EnumVariant| variant_view(v)).map_values(|v: SVariant| variant_line(ind@, v)), d as int)
            + seq![(ind@ + "}"@, d as int)]),
{
    let ghost l0 = lines_view(lines@);
    let mut header = ind.clone();
    push_str(&mut header, "enum ");
    push_str(&mut header, name.as_str());
    push_str(&mut header, " {");
    push_line(lines, header, d);
    let ghost vl = variants@.map_values(|v: EnumVariant| variant_view(v)).map_values(|v: SVariant| variant_line(ind@, v));
    let ghost l1 = lines_view(lines@);
    let mut k: usize = 0;
    while k < variants.len()
        invariant
            0 <= k <= variants.len(),
            vl == variants@.map_values(|v: EnumVariant| variant_view(v)).map_values(|v: SVariant| variant_line(ind@, v)),
            lines_view(lines@) == l1 + at_line(vl, d as int).take(k as int),
        decreases variants.len() - k,
    {
        let v = &variants[k];
        let mut text = ind.clone();
        push_str(&mut text, "    ");
        push_str(&mut text, v.name.as_str());
        if v.fields.len() > 0 {
            let parts = transpile_types(&v.fields);
            push_list(&mut text, "(", &parts, ")");
        } else {
            push_str(&mut text, "");
        }
        push_str(&mut text, ",");
        proof {
            lemma_types_view(v.fields@);
            assert(vl[k as int] == variant_line(ind@, variant_view(variants@[k as int])));
            assert(text@ =~= vl[k as int]);
        }
        push_line(lines, text, d);
        assert(at_line(vl, d as int).take(k + 1) =~= at_line(vl, d as int).take(k as int).push((text@, d as int)));
        k = k + 1;
    }
    assert(at_line(vl, d as int).take(k as int) =~= at_line(vl, d as int));
    let mut footer = ind.clone();
    push_str(&mut footer, "}");
    push_line(lines, footer, d);
    assert(lines_view(lines@) =~= l0 + (seq![(ind@ + "enum "@ + name@ + " {"@, d as int)] + at_line(vl, d as int)
        + seq![(ind@ + "}"@, d as int)]));
}

/// The lines of a `match`'s arms (see `rarms`).
fn lower_arms(
    ctx: &Ctx,
    arms: &Vec<(Expression, Vec<Statement>)>,
    ind: &String,
    src: &Vec<char>,
    d: usize,
    r: &mut Resolver,
    lines: &mut Vec<(String, usize)>,
)
    requires
        old(r).wf(),
    ensures
        final(r).wf(),
        final(r).types() == old(r).types(),
        final(r).scopes() == old(r).scopes(),
        lines_view(final(lines)@) == lines_view(old(lines)@) + rarms(tctx(ctx, old(r)), arms_view(arms@), ind@, d as int, src@),
    decreases arms, 3int,
{
    let ghost c = tctx(ctx, r);
    let ghost av = arms_view(arms@);
    let ghost l1 = lines_view(lines@);
    let no_names: Vec<&str> = Vec::new();
    assert(str_views(no_names@) =~= Seq::<Seq<char>>::empty());
    let arm_ind = indent_more(ind);
    let body_ind = indent_more(&arm_ind);
    let mut i: usize = 0;
    proof { lemma_arms_view(arms@); }
    assert(av.subrange(0, av.len() as int) =~= av);
    assert(l1 =~= l1 + Seq::<(Seq<char>, int)>::empty());
    while i < arms.len()
        invariant
            0 <= i <= arms.len(),
            r.wf(),
            r.types() == old(r).types(),
            r.scopes() == old(r).scopes(),
            c == tctx(ctx, r),
            av == arms_view(arms@),
            av.len() == arms.len(),
            arm_ind@ == ind@ + "    "@,
            body_ind@ == ind@ + "    "@ + "    "@,
            str_views(no_names@) == Seq::<Seq<char>>::empty(),
            forall|j: int| 0 <= j < arms.len() ==> #[trigger] av[j] == (expr_view(arms@[j].0), stmts_view(arms@[j].1@)),
            l1 + rarms(c, av, ind@, d as int, src@) == lines_view(lines@) + rarms(c, av.subrange(i as int, av.len() as int), ind@, d as int, src@),
        decreases arms.len() - i,
    {
        proof {
            assert(decreases_to!(arms => arms@));
            assert(decreases_to!(arms@ => arms@[i as int]));
            assert(decreases_to!(arms@[i as int] => arms@[i as int].1));
        }
        let ghost li = lines_view(lines@);
        let ghost rest = av.subrange(i as int, av.len() as int);
        assert(rest[0] == av[i as int]);
        assert(rest.subrange(1, rest.len() as int) =~= av.subrange(i + 1, av.len() as int));
        let mut h = arm_ind.clone();
        let ps = transpile_expression(ctx, r, &arms[i].0);
        push_str(&mut h, ps.as_str());
        push_str(&mut h, " => {");
        push_line(lines, h, d);
        transpile_block(ctx, &arms[i].1, &body_ind, src, &no_names, r, lines);
        let mut f = ind.clone();
        push_str(&mut f, "    }");
        push_line(lines, f, d);
        assert(scoped(c, seq![]) == scoped(c, str_views(no_names@)));
        assert(li + rarms(c, rest, ind@, d as int, src@) =~= lines_view(lines@) + rarms(c, av.subrange(i + 1, av.len() as int), ind@, d as int, src@));
        i = i + 1;
    }
    proof {
        assert(av.subrange(i as int, av.len() as int) =~= Seq::<(SExpr, Seq<SStmt>)>::empty());
        assert(lines_view(lines@) + Seq::<(Seq<char>, int)>::empty() =~= lines_view(lines@));
    }
}

/// The lines of one statement (see `rstmt`).
#[verifier::rlimit(100)]
#[verifier::spinoff_prover]
fn transpile_statement(
    ctx: &Ctx,
    st: &Statement,
    ind: &String,
    src: &Vec<char>,
    r: &mut Resolver,
    lines: &mut Vec<(String, usize)>,
)
    requires
        old(r).wf(),
    ensures
        final(r).wf(),
        final(r).types() == old(r).types(),
        final(r).scopes() == rstmt(tctx(ctx, old(r)), st@, ind@, src@).1,
        lines_view(final(lines)@) == lines_view(old(lines)@) + rstmt(tctx(ctx, old(r)), st@, ind@, src@).0,
    decreases st, 4int,
{
    let ghost c = tctx(ctx, r);
    let ghost l0 = lines_view(lines@);
    let d = ds_line_of(src, st.span.start);
    let no_names: Vec<&str> = Vec::new();
    assert(str_views(no_names@) =~= Seq::<Seq<char>>::empty());
    match &st.kind {
        StatementKind::Let { pattern, ty, value } | StatementKind::Mut { pattern, ty, value } => {
            let is_mut = matches!(st.kind, StatementKind::Mut { .. });
            let mut text = ind.clone();
            push_str(&mut text, if is_mut { "let mut " } else { "let " });
            let p = transpile_pattern(pattern);
            push_str(&mut text, p.as_str());
            let t = type_annotation(ty);
            push_str(&mut text, t.as_str());
            push_str(&mut text, " = ");
            let v = transpile_expression(ctx, r, value);
            push_str(&mut text, v.as_str());
            push_str(&mut text, ";");
            push_line(lines, text, d);
            let names = pattern.names();
            assert(str_views(names@) =~= pattern_names(pattern@));
            declare_all(r, &names);
            assert(lines_view(lines@) =~= l0 + rstmt(c, st@, ind@, src@).0);
        },
        StatementKind::Def { name, params, return_ty, body } => {
            lower_def(ctx, name, params, return_ty, body, ind, src, d, r, lines);
            assert(lines_view(lines@) =~= l0 + rstmt(c, st@, ind@, src@).0);
        },
        StatementKind::If { condition, then_block, else_block } => {
            lower_then(ctx, condition, then_block, ind, src, d, r, lines);
            match else_block {
                Some(eb) => {
                    let inner = indent_more(ind);
                    lower_else(ctx, eb, ind, &inner, src, d, r, lines);
                },
                None => {},
            }
            let mut footer = ind.clone();
            push_str(&mut footer, "}");
            push_line(lines, footer, d);
            assert(lines_view(lines@) =~= l0 + rstmt(c, st@, ind@, src@).0);
        },
        StatementKind::For { pattern, iterable, body } => {
            let mut header = ind.clone();
            push_str(&mut header, "for ");
            let p = transpile_pattern(pattern);
            push_str(&mut header, p.as_str());
            push_str(&mut header, " in ");
            let it = transpile_expression(ctx, r, iterable);
            push_str(&mut header, it.as_str());
            push_str(&mut header, " {");
            let names = pattern.names();
            assert(str_views(names@) =~= pattern_names(pattern@));
            block_lines(ctx, header, body, ind, src, &names, d, r, lines);
            assert(lines_view(lines@) =~= l0 + rstmt(c, st@, ind@, src@).0);
        },
        StatementKind::While { condition, body } => {
            let mut header = ind.clone();
            push_str(&mut header, "while ");
            let cs = transpile_expression(ctx, r, condition);
            push_str(&mut header, cs.as_str());
            push_str(&mut header, " {");
            block_lines(ctx, header, body, ind, src, &no_names, d, r, lines);
            assert(lines_view(lines@) =~= l0 + rstmt(c, st@, ind@, src@).0);
        },
        StatementKind::Struct { name, fields } => {
            lower_struct(name, fields, ind, d, lines);
            assert(lines_view(lines@) =~= l0 + rstmt(c, st@, ind@, src@).0);
        },
        StatementKind::Enum { name, variants } => {
            lower_enum(name, variants, ind, d, lines);
            assert(lines_view(lines@) =~= l0 + rstmt(c, st@, ind@, src@).0);
        },
        StatementKind::Protocol { name, methods } => {
            let mut header = ind.clone();
            push_str(&mut header, "trait ");
            push_str(&mut header, name.as_str());
            push_str(&mut header, " {");
            block_lines(ctx, header, methods, ind, src, &no_names, d, r, lines);
            assert(lines_view(lines@) =~= l0 + rstmt(c, st@, ind@, src@).0);
        },
        StatementKind::Impl { protocol, for_type, methods } => {
            let mut header = ind.clone();
            push_str(&mut header, "impl ");
            match protocol {
                Some(p) => {
                    push_str(&mut header, p.as_str());
                    push_str(&mut header, " for ");
                    push_str(&mut header, for_type.as_str());
                },
                None => {
                    push_str(&mut header, for_type.as_str());
                },
            }
            push_str(&mut header, " {");
            assert(header@ =~= ind@ + "impl "@ + match *protocol {
                Some(p) => p@ + " for "@ + for_type@,
                None => for_type@,
            } + " {"@);
            block_lines(ctx, header, methods, ind, src, &no_names, d, r, lines);
            assert(lines_view(lines@) =~= l0 + rstmt(c, st@, ind@, src@).0);
        },
        StatementKind::Match { expression, arms } => {
            let mut header = ind.clone();
            push_str(&mut header, "match ");
            let es = transpile_expression(ctx, r, expression);
            push_str(&mut header, es.as_str());
            push_str(&mut header, " {");
            push_line(lines, header, d);
            lower_arms(ctx, arms, ind, src, d, r, lines);
            let mut footer = ind.clone();
            push_str(&mut footer, "}");
            push_line(lines, footer, d);
            assert(lines_view(lines@) =~= l0 + rstmt(c, st@, ind@, src@).0);
        },
        StatementKind::PyImport(content) => {
            let mut a = ind.clone();
            push_str(&mut a, "/* Desert PyImport block:");
            push_line(lines, a, d);
            let mut b = ind.clone();
            push_str(&mut b, "   ");
            push_str(&mut b, content.as_str());
            push_line(lines, b, d);
            let mut e = ind.clone();
            push_str(&mut e, "*/");
            push_line(lines, e, d);
            assert(lines_view(lines@) =~= l0 + rstmt(c, st@, ind@, src@).0);
        },
        StatementKind::Return(Some(e)) => {
            let mut text = ind.clone();
            push_str(&mut text, "return ");
            let es = transpile_expression(ctx, r, e);
            push_str(&mut text, es.as_str());
            push_str(&mut text, ";");
            push_line(lines, text, d);
        },
        StatementKind::Return(None) => {
            let mut text = ind.clone();
            push_str(&mut text, "return;");
            push_line(lines, text, d);
        },
        StatementKind::Break => {
            let mut text = ind.clone();
            push_str(&mut text, "break;");
            push_line(lines, text, d);
        },
        StatementKind::Continue => {
            let mut text = ind.clone();
            push_str(&mut text, "continue;");
            push_line(lines, text, d);
        },
        StatementKind::Expr(e) => {
            let mut text = ind.clone();
            let es = transpile_expression(ctx, r, e);
            push_str(&mut text, es.as_str());
            push_str(&mut text, ";");
            push_line(lines, text, d);
        },
        StatementKind::Import { .. } | StatementKind::FromImport { .. } => {
            assert(lines_view(lines@) =~= l0 + Seq::<(Seq<char>, int)>::empty());
        },
    }
}

fn matmul_prelude_lines() -> (v: Vec<&'static str>)
    ensures
        str_views(v@) == matmul_prelude(),
{
    let mut v: Vec<&'static str> = Vec::new();
    v.push("trait DesertMatMul<Rhs> {");
    v.push("    type Output;");
    v.push("    fn desert_matmul(self, rhs: Rhs) -> Self::Output;");
    v.push("}");
    v.push("");
    v.push("impl DesertMatMul<Vec<f32>> for Vec<f32> {");
    v.push("    type Output = Vec<f32>;");
    v.push("");
    v.push("    fn desert_matmul(self, rhs: Vec<f32>) -> Self::Output {");
    v.push("        vec![self.into_iter().zip(rhs).map(|(a, b)| a * b).sum()]");
    v.push("    }");
    v.push("}");
    v.push("");
    v.push("impl DesertMatMul<Vec<f32>> for Vec<Vec<f32>> {");
    v.push("    type Output = Vec<f32>;");
    v.push("");
    v.push("    fn desert_matmul(self, rhs: Vec<f32>) -> Self::Output {");
    v.push("        self.into_iter()");
    v.push("            .map(|row| row.into_iter().zip(rhs.iter().copied()).map(|(a, b)| a * b).sum())");
    v.push("            .collect()");
    v.push("    }");
    v.push("}");
    v.push("");
    v.push("fn desert_matmul<L, R>(lhs: L, rhs: R) -> <L as DesertMatMul<R>>::Output");
    v.push("where");
    v.push("    L: DesertMatMul<R>,");
    v.push("{");
    v.push("    lhs.desert_matmul(rhs)");
    v.push("}");
    v.push("");
    assert(str_views(v@) =~= matmul_prelude());
    v
}

fn build_ctx(stmts: &Vec<Statement>) -> (ctx: Ctx)
    ensures
        structs_view(ctx.structs@) == struct_list(stmts_view(stmts@)),
        string_views(ctx.protocols@) == protocol_list(stmts_view(stmts@)),
{
    let ghost sv = stmts_view(stmts@);
    let mut structs: Vec<(String, Vec<String>)> = Vec::new();
    let mut protocols: Vec<String> = Vec::new();
    let mut i: usize = 0;
    proof { lemma_stmts_view(stmts@); }
    assert(structs_view(structs@) =~= struct_list(sv.take(0)));
    assert(string_views(protocols@) =~= protocol_list(sv.take(0)));
    while i < stmts.len()
        invariant
            0 <= i <= stmts.len(),
            sv == stmts_view(stmts@),
            sv.len() == stmts.len(),
            forall|j: int| 0 <= j < stmts.len() ==> #[trigger] sv[j] == stmt_view(stmts@[j]),
            structs_view(structs@) == struct_list(sv.take(i as int)),
            string_views(protocols@) == protocol_list(sv.take(i as int)),
        decreases stmts.len() - i,
    {
        assert(sv.take(i + 1).drop_last() =~= sv.take(i as int));
        assert(sv.take(i + 1).last() == sv[i as int]);
        let ghost s0 = structs_view(structs@);
        match &stmts[i].kind {
            StatementKind::Struct { name, fields } => {
                let mut names: Vec<String> = Vec::new();
                let mut k: usize = 0;
                while k < fields.len()
                    invariant
                        0 <= k <= fields.len(),
                        string_views(names@) == param_names(params_view(fields@)).take(k as int),
                    decreases fields.len() - k,
                {
                    push_text(&mut names, fields[k].name.clone());
                    assert(params_view(fields@)[k as int] == param_view(fields@[k as int]));
                    assert(param_names(params_view(fields@)).take(k + 1) =~= param_names(params_view(fields@)).take(k as int).push(fields@[k as int].name@));
                    k = k + 1;
                }
                assert(param_names(params_view(fields@)).take(k as int) =~= param_names(params_view(fields@)));
                let ghost nv = string_views(names@);
                structs.push((name.clone(), names));
                assert(structs_view(structs@) =~= s0.push((name@, nv)));
            },
            StatementKind::Protocol { name, .. } => {
                push_text(&mut protocols, name.clone());
            },
            _ => {},
        }
        i = i + 1;
    }
    assert(sv.take(i as int) =~= sv);
    Ctx { structs, protocols }
}

/// The lowering resolver: `Resolver::new`'s types, the built-in types, and
/// the program's declared types, with one empty scope.
fn build_resolver(stmts: &Vec<Statement>) -> (r: Resolver)
    ensures
        r.wf(),
        r.types() == initial_types() + builtin_types() + declared_types(stmts_view(stmts@)),
        r.scopes() == seq![Seq::<Seq<char>>::empty()],
{
    let mut r = Resolver::new();
    r.declare_type("i32");
    r.declare_type("i64");
    r.declare_type("f32");
    r.declare_type("f64");
    r.declare_type("bool");
    r.declare_type("Str");
    r.declare_type("String");
    r.declare_type("List");
    r.declare_type("Vec");
    r.declare_type("Dict");
    r.declare_type("HashMap");
    r.declare_type("Box");
    r.declare_type("Option");
    r.declare_type("Result");
    r.declare_type("Path");
    assert(r.types() =~= initial_types() + builtin_types());
    let ghost base = r.types();
    let ghost sv = stmts_view(stmts@);
    let mut i: usize = 0;
    proof { lemma_stmts_view(stmts@); }
    assert(base + declared_types(sv.take(0)) =~= base);
    while i < stmts.len()
        invariant
            0 <= i <= stmts.len(),
            r.wf(),
            r.scopes() == seq![Seq::<Seq<char>>::empty()],
            base == initial_types() + builtin_types(),
            sv == stmts_view(stmts@),
            sv.len() == stmts.len(),
            forall|j: int| 0 <= j < stmts.len() ==> #[trigger] sv[j] == stmt_view(stmts@[j]),
            r.types() == base + declared_types(sv.take(i as int)),
        decreases stmts.len() - i,
    {
        assert(sv.take(i + 1).drop_last() =~= sv.take(i as int));
        assert(sv.take(i + 1).last() == sv[i as int]);
        let ghost t0 = r.types();
        match &stmts[i].kind {
            StatementKind::Struct { name, .. } | StatementKind::Enum { name, .. } | StatementKind::Protocol { name, .. } => {
                r.declare_type(name.as_str());
                assert(r.types() =~= base + declared_types(sv.take(i + 1)));
            },
            _ => {},
        }
        i = i + 1;
    }
    assert(sv.take(i as int) =~= sv);
    r
}

/// The `use` lines of the top-level Rust imports (see `use_lines`).
fn push_use_lines(stmts: &Vec<Statement>, src: &Vec<char>, lines: &mut Vec<(String, usize)>)
    ensures
        lines_view(final(lines)@) == lines_view(old(lines)@) + use_lines(stmts_view(stmts@), src@),
{
    let ghost sv = stmts_view(stmts@);
    let ghost l0 = lines_view(lines@);
    let mut i: usize = 0;
    proof { lemma_stmts_view(stmts@); }
    assert(l0 + use_lines(sv.take(0), src@) =~= l0);
    while i < stmts.len()
        invariant
            0 <= i <= stmts.len(),
            sv == stmts_view(stmts@),
            sv.len() == stmts.len(),
            forall|j: int| 0 <= j < stmts.len() ==> #[trigger] sv[j] == stmt_view(stmts@[j]),
            lines_view(lines@) == l0 + use_lines(sv.take(i as int), src@),
        decreases stmts.len() - i,
    {
        assert(sv.take(i + 1).drop_last() =~= sv.take(i as int));
        assert(sv.take(i + 1).last() == sv[i as int]);
        let ghost li = lines_view(lines@);
        let st = &stmts[i];
        let d = ds_line_of(src, st.span.start);
        match &st.kind {
            StatementKind::Import { path, alias } => {
                let a: Option<&str> = match alias {
                    Some(x) => Some(x.as_str()),
                    None => None,
                };
                if let Some(u) = rust_use_from_import(path.as_str(), a) {
                    let mut text = "use ".to_owned();
                    push_str(&mut text, u.as_str());
                    push_str(&mut text, ";");
                    push_line(lines, text, d);
                }
                assert(lines_view(lines@) =~= l0 + use_lines(sv.take(i + 1), src@));
            },
            StatementKind::FromImport { path, items } => {
                if let Some(u) = rust_use_from_from_import(path.as_str(), items.as_slice()) {
                    let mut text = "use ".to_owned();
                    push_str(&mut text, u.as_str());
                    push_str(&mut text, ";");
                    push_line(lines, text, d);
                }
                assert(lines_view(lines@) =~= l0 + use_lines(sv.take(i + 1), src@));
            },
            _ => {},
        }
        i = i + 1;
    }
    assert(sv.take(i as int) =~= sv);
}

/// All lines of a lowered program (see `spec_program_lines`).
fn program_lines(program: &Program, src: &Vec<char>) -> (lines: Vec<(String, usize)>)
    ensures
        lines_view(lines@) == spec_program_lines(program@, src@),
{
    let stmts = &program.statements;
    let mut lines: Vec<(String, usize)> = Vec::new();
    assert(lines_view(lines@) =~= Seq::<(Seq<char>, int)>::empty());
    push_use_lines(stmts, src, &mut lines);
    let ghost uses = use_lines(stmts_view(stmts@), src@);
    assert(lines_view(lines@) =~= uses);
    if lines.len() > 0 {
        let d = lines[lines.len() - 1].1;
        assert(uses.last().1 == d as int);
        push_line(&mut lines, "".to_owned(), d);
    }
    let ghost head = lines_view(lines@);
    assert(head == (if uses.len() > 0 { uses.push((""@, uses.last().1)) } else { seq![] }));
    if block_matmul(stmts) {
        let pre = matmul_prelude_lines();
        let mut k: usize = 0;
        while k < pre.len()
            invariant
                0 <= k <= pre.len(),
                str_views(pre@) == matmul_prelude(),
                lines_view(lines@) == head + at_line(matmul_prelude(), 0).take(k as int),
            decreases pre.len() - k,
        {
            push_line(&mut lines, pre[k].to_owned(), 0);
            assert(at_line(matmul_prelude(), 0).take(k + 1) =~= at_line(matmul_prelude(), 0).take(k as int).push((pre@[k as int]@, 0)));
            k = k + 1;
        }
        assert(at_line(matmul_prelude(), 0).take(k as int) =~= at_line(matmul_prelude(), 0));
    } else {
        assert(lines_view(lines@) =~= head + Seq::<(Seq<char>, int)>::empty());
    }
    let ctx = build_ctx(stmts);
    let mut r = build_resolver(stmts);
    assert(tctx(&ctx, &r) == initial_ctx(stmts_view(stmts@)));
    let ind = String::new();
    proof {
        reveal_strlit("");
        assert(ind@ =~= ""@);
    }
    let ghost before = lines_view(lines@);
    assert(before == head + (if stmts_use_matmul(program@) { at_line(matmul_prelude(), 0) } else { seq![] }));
    transpile_statements(&ctx, stmts, &ind, src, &mut r, &mut lines);
    assert(lines_view(lines@) =~= spec_program_lines(program@, src@));
    lines
}

/// The Desert location of generated line `d`'s origin (see `origin`).
fn origin_of(origins: &[SourceLocation], d: usize) -> (l: SourceLocation)
    ensures
        l@ == origin(origins@.map_values(|o: SourceLocation| o@), d as int),
{
    if d < origins.len() {
        origins[d].copy()
    } else {
        SourceLocation { file: "".to_owned(), line: d.saturating_add(1), column: 1 }
    }
}

/// Lowers a Desert program to Rust source and its source map.
pub struct Transpiler;

impl Transpiler {
    pub fn new() -> Transpiler {
        Transpiler
    }

    /// The Rust text of `program` (parsed from `source`) and, for each
    /// generated line, the Desert location it comes from, taken from
    /// `line_origins` by Desert line (see `spec_program_lines`, `render`
    /// and `lines_map`).
    pub fn transpile_with_origins(&self, program: &Program, source: &str, line_origins: &[SourceLocation]) -> (res: (String, SourceMap))
        ensures
            res.0@ == render(spec_program_lines(program@, source@)),
            res.1@ == lines_map(spec_program_lines(program@, source@), line_origins@.map_values(|o: SourceLocation| o@)),
    {
        let src = chars_of(source);
        let lines = program_lines(program, &src);
        let ghost lv = lines_view(lines@);
        let ghost ov = line_origins@.map_values(|o: SourceLocation| o@);
        let mut out = String::new();
        let mut map = SourceMap::new();
        let mut k: usize = 0;
        while k < lines.len()
            invariant
                0 <= k <= lines.len(),
                lv == lines_view(lines@),
                ov == line_origins@.map_values(|o: SourceLocation| o@),
                out@ == render(lv.take(k as int)),
                map@ == lines_map(lv.take(k as int), ov),
            decreases lines.len() - k,
        {
            assert(lv.take(k + 1).drop_last() =~= lv.take(k as int));
            push_str(&mut out, lines[k].0.as_str());
            push_str(&mut out, "\n");
            let loc = origin_of(line_origins, lines[k].1);
            let ghost m0 = map@;
            map.add_mapping(k, loc);
            assert(map@ =~= lines_map(lv.take(k + 1), ov));
            k = k + 1;
        }
        assert(lv.take(k as int) =~= lv);
        (out, map)
    }

    /// `transpile_with_origins` with no origins: Desert line `d` maps to
    /// line `d + 1` of an unnamed file.
    pub fn transpile(&self, program: &Program, source: &str) -> (res: (String, SourceMap))
        ensures
            res.0@ == render(spec_program_lines(program@, source@)),
            res.1@ == lines_map(spec_program_lines(program@, source@), Seq::<SLoc>::empty()),
    {
        let none: Vec<SourceLocation> = Vec::new();
        let r = self.transpile_with_origins(program, source, none.as_slice());
        assert(none@.map_values(|o: SourceLocation| o@) =~= Seq::<SLoc>::empty());
        r
    }
}

impl Default for Transpiler {
    /// The transpiler `Transpiler::new` builds.
    fn default() -> (r: Transpiler)
        ensures
            r == Transpiler,
    {
        Transpiler::new()
    }
}


/// Desert ranges keep their ends: `a..b` lowers to the Rust exclusive range
/// of the lowered ends, `a..=b` to the inclusive one, and the two lowerings
/// of the same ends always differ (the inclusive one is one character
/// longer), so no exclusive range is ever written as an inclusive one.
pub proof fn law_ranges_keep_their_ends(c: TCtx, a: SExpr, b: SExpr)
    ensures
        rexpr(c, SExpr::Range(Box::new(a), Box::new(b))) == rexpr(c, a) + seq!['.', '.'] + rexpr(c, b),
        rexpr(c, SExpr::RangeInclusive(Box::new(a), Box::new(b))) == rexpr(c, a) + seq!['.', '.', '='] + rexpr(c, b),
        rexpr(c, SExpr::RangeInclusive(Box::new(a), Box::new(b))).len()
            == rexpr(c, SExpr::Range(Box::new(a), Box::new(b))).len() + 1,
        rexpr(c, SExpr::Range(Box::new(a), Box::new(b))) != rexpr(c, SExpr::RangeInclusive(Box::new(a), Box::new(b))),
{
    reveal_strlit("..");
    reveal_strlit("..=");
    assert(".."@ =~= seq!['.', '.']);
    assert("..="@ =~= seq!['.', '.', '=']);
}


/// The Rust spelling of an operator tells the operator apart: no two
/// operators are written alike.
proof fn lemma_op_text_injective(a: BinaryOp, b: BinaryOp)
    requires
        op_text(a) == op_text(b),
    ensures
        a == b,
{
    reveal_strlit("+");
    reveal_strlit("-");
    reveal_strlit("*");
    reveal_strlit("%");
    reveal_strlit("/");
    reveal_strlit("&&");
    reveal_strlit("||");
    reveal_strlit("=");
    reveal_strlit("==");
    reveal_strlit("!=");
    reveal_strlit(">");
    reveal_strlit("<");
    reveal_strlit(">=");
    reveal_strlit("<=");
    reveal_strlit("@");
    assert(op_text(a).len() == op_text(b).len());
    assert(op_text(a)[0] == op_text(b)[0]);
    if op_text(a).len() == 2 {
        assert(op_text(a)[1] == op_text(b)[1]);
    }
    match a {
        BinaryOp::Add => match b {
            BinaryOp::Add => {},
            BinaryOp::Sub => { assert(op_text(BinaryOp::Add)[0] != op_text(BinaryOp::Sub)[0]); },
            BinaryOp::Mul => { assert(op_text(BinaryOp::Add)[0] != op_text(BinaryOp::Mul)[0]); },
            BinaryOp::Mod => { assert(op_text(BinaryOp::Add)[0] != op_text(BinaryOp::Mod)[0]); },
            BinaryOp::Div => { assert(op_text(BinaryOp::Add)[0] != op_text(BinaryOp::Div)[0]); },
            BinaryOp::And => { assert(op_text(BinaryOp::Add).len() != op_text(BinaryOp::And).len()); },
            BinaryOp::Or => { assert(op_text(BinaryOp::Add).len() != op_text(BinaryOp::Or).len()); },
            BinaryOp::Assign => { assert(op_text(BinaryOp::Add)[0] != op_text(BinaryOp::Assign)[0]); },
            BinaryOp::Eq => { assert(op_text(BinaryOp::Add).len() != op_text(BinaryOp::Eq).len()); },
            BinaryOp::Ne => { assert(op_text(BinaryOp::Add).len() != op_text(BinaryOp::Ne).len()); },
            BinaryOp::Gt => { assert(op_text(BinaryOp::Add)[0] != op_text(BinaryOp::Gt)[0]); },
            BinaryOp::Lt => { assert(op_text(BinaryOp::Add)[0] != op_text(BinaryOp::Lt)[0]); },
            BinaryOp::Ge => { assert(op_text(BinaryOp::Add).len() != op_text(BinaryOp::Ge).len()); },
            BinaryOp::Le => { assert(op_text(BinaryOp::Add).len() != op_text(BinaryOp::Le).len()); },
            BinaryOp::MatMul => { assert(op_text(BinaryOp::Add)[0] != op_text(BinaryOp::MatMul)[0]); },
        },
        BinaryOp::Sub => match b {
            BinaryOp::Add => { assert(op_text(BinaryOp::Sub)[0] != op_text(BinaryOp::Add)[0]); },
            BinaryOp::Sub => {},
            BinaryOp::Mul => { assert(op_text(BinaryOp::Sub)[0] != op_text(BinaryOp::Mul)[0]); },
            BinaryOp::Mod => { assert(op_text(BinaryOp::Sub)[0] != op_text(BinaryOp::Mod)[0]); },
            BinaryOp::Div => { assert(op_text(BinaryOp::Sub)[0] != op_text(BinaryOp::Div)[0]); },
            BinaryOp::And => { assert(op_text(BinaryOp::Sub).len() != op_text(BinaryOp::And).len()); },
            BinaryOp::Or => { assert(op_text(BinaryOp::Sub).len() != op_text(BinaryOp::Or).len()); },
            BinaryOp::Assign => { assert(op_text(BinaryOp::Sub)[0] != op_text(BinaryOp::Assign)[0]); },
            BinaryOp::Eq => { assert(op_text(BinaryOp::Sub).len() != op_text(BinaryOp::Eq).len()); },
            BinaryOp::Ne => { assert(op_text(BinaryOp::Sub).len() != op_text(BinaryOp::Ne).len()); },
            BinaryOp::Gt => { assert(op_text(BinaryOp::Sub)[0] != op_text(BinaryOp::Gt)[0]); },
            BinaryOp::Lt => { assert(op_text(BinaryOp::Sub)[0] != op_text(BinaryOp::Lt)[0]); },
            BinaryOp::Ge => { assert(op_text(BinaryOp::Sub).len() != op_text(BinaryOp::Ge).len()); },
            BinaryOp::Le => { assert(op_text(BinaryOp::Sub).len() != op_text(BinaryOp::Le).len()); },
            BinaryOp::MatMul => { assert(op_text(BinaryOp::Sub)[0] != op_text(BinaryOp::MatMul)[0]); },
        },
        BinaryOp::Mul => match b {
            BinaryOp::Add => { assert(op_text(BinaryOp::Mul)[0] != op_text(BinaryOp::Add)[0]); },
            BinaryOp::Sub => { assert(op_text(BinaryOp::Mul)[0] != op_text(BinaryOp::Sub)[0]); },
            BinaryOp::Mul => {},
            BinaryOp::Mod => { assert(op_text(BinaryOp::Mul)[0] != op_text(BinaryOp::Mod)[0]); },
            BinaryOp::Div => { assert(op_text(BinaryOp::Mul)[0] != op_text(BinaryOp::Div)[0]); },
            BinaryOp::And => { assert(op_text(BinaryOp::Mul).len() != op_text(BinaryOp::And).len()); },
            BinaryOp::Or => { assert(op_text(BinaryOp::Mul).len() != op_text(BinaryOp::Or).len()); },
            BinaryOp::Assign => { assert(op_text(BinaryOp::Mul)[0] != op_text(BinaryOp::Assign)[0]); },
            BinaryOp::Eq => { assert(op_text(BinaryOp::Mul).len() != op_text(BinaryOp::Eq).len()); },
            BinaryOp::Ne => { assert(op_text(BinaryOp::Mul).len() != op_text(BinaryOp::Ne).len()); },
            BinaryOp::Gt => { assert(op_text(BinaryOp::Mul)[0] != op_text(BinaryOp::Gt)[0]); },
            BinaryOp::Lt => { assert(op_text(BinaryOp::Mul)[0] != op_text(BinaryOp::Lt)[0]); },
            BinaryOp::Ge => { assert(op_text(BinaryOp::Mul).len() != op_text(BinaryOp::Ge).len()); },
            BinaryOp::Le => { assert(op_text(BinaryOp::Mul).len() != op_text(BinaryOp::Le).len()); },
            BinaryOp::MatMul => { assert(op_text(BinaryOp::Mul)[0] != op_text(BinaryOp::MatMul)[0]); },
        },
        BinaryOp::Mod => match b {
            BinaryOp::Add => { assert(op_text(BinaryOp::Mod)[0] != op_text(BinaryOp::Add)[0]); },
            BinaryOp::Sub => { assert(op_text(BinaryOp::Mod)[0] != op_text(BinaryOp::Sub)[0]); },
            BinaryOp::Mul => { assert(op_text(BinaryOp::Mod)[0] != op_text(BinaryOp::Mul)[0]); },
            BinaryOp::Mod => {},
            BinaryOp::Div => { assert(op_text(BinaryOp::Mod)[0] != op_text(BinaryOp::Div)[0]); },
            BinaryOp::And => { assert(op_text(BinaryOp::Mod).len() != op_text(BinaryOp::And).len()); },
            BinaryOp::Or => { assert(op_text(BinaryOp::Mod).len() != op_text(BinaryOp::Or).len()); },
            BinaryOp::Assign => { assert(op_text(BinaryOp::Mod)[0] != op_text(BinaryOp::Assign)[0]); },
            BinaryOp::Eq => { assert(op_text(BinaryOp::Mod).len() != op_text(BinaryOp::Eq).len()); },
            BinaryOp::Ne => { assert(op_text(BinaryOp::Mod).len() != op_text(BinaryOp::Ne).len()); },
            BinaryOp::Gt => { assert(op_text(BinaryOp::Mod)[0] != op_text(BinaryOp::Gt)[0]); },
            BinaryOp::Lt => { assert(op_text(BinaryOp::Mod)[0] != op_text(BinaryOp::Lt)[0]); },
            BinaryOp::Ge => { assert(op_text(BinaryOp::Mod).len() != op_text(BinaryOp::Ge).len()); },
            BinaryOp::Le => { assert(op_text(BinaryOp::Mod).len() != op_text(BinaryOp::Le).len()); },
            BinaryOp::MatMul => { assert(op_text(BinaryOp::Mod)[0] != op_text(BinaryOp::MatMul)[0]); },
        },
        BinaryOp::Div => match b {
            BinaryOp::Add => { assert(op_text(BinaryOp::Div)[0] != op_text(BinaryOp::Add)[0]); },
            BinaryOp::Sub => { assert(op_text(BinaryOp::Div)[0] != op_text(BinaryOp::Sub)[0]); },
            BinaryOp::Mul => { assert(op_text(BinaryOp::Div)[0] != op_text(BinaryOp::Mul)[0]); },
            BinaryOp::Mod => { assert(op_text(BinaryOp::Div)[0] != op_text(BinaryOp::Mod)[0]); },
            BinaryOp::Div => {},
            BinaryOp::And => { assert(op_text(BinaryOp::Div).len() != op_text(BinaryOp::And).len()); },
            BinaryOp::Or => { assert(op_text(BinaryOp::Div).len() != op_text(BinaryOp::Or).len()); },
            BinaryOp::Assign => { assert(op_text(BinaryOp::Div)[0] != op_text(BinaryOp::Assign)[0]); },
            BinaryOp::Eq => { assert(op_text(BinaryOp::Div).len() != op_text(BinaryOp::Eq).len()); },
            BinaryOp::Ne => { assert(op_text(BinaryOp::Div).len() != op_text(BinaryOp::Ne).len()); },
            BinaryOp::Gt => { assert(op_text(BinaryOp::Div)[0] != op_text(BinaryOp::Gt)[0]); },
            BinaryOp::Lt => { assert(op_text(BinaryOp::Div)[0] != op_text(BinaryOp::Lt)[0]); },
            BinaryOp::Ge => { assert(op_text(BinaryOp::Div).len() != op_text(BinaryOp::Ge).len()); },
            BinaryOp::Le => { assert(op_text(BinaryOp::Div).len() != op_text(BinaryOp::Le).len()); },
            BinaryOp::MatMul => { assert(op_text(BinaryOp::Div)[0] != op_text(BinaryOp::MatMul)[0]); },
        },
        BinaryOp::And => match b {
            BinaryOp::Add => { assert(op_text(BinaryOp::And).len() != op_text(BinaryOp::Add).len()); },
            BinaryOp::Sub => { assert(op_text(BinaryOp::And).len() != op_text(BinaryOp::Sub).len()); },
            BinaryOp::Mul => { assert(op_text(BinaryOp::And).len() != op_text(BinaryOp::Mul).len()); },
            BinaryOp::Mod => { assert(op_text(BinaryOp::And).len() != op_text(BinaryOp::Mod).len()); },
            BinaryOp::Div => { assert(op_text(BinaryOp::And).len() != op_text(BinaryOp::Div).len()); },
            BinaryOp::And => {},
            BinaryOp::Or => { assert(op_text(BinaryOp::And)[0] != op_text(BinaryOp::Or)[0]); },
            BinaryOp::Assign => { assert(op_text(BinaryOp::And).len() != op_text(BinaryOp::Assign).len()); },
            BinaryOp::Eq => { assert(op_text(BinaryOp::And)[0] != op_text(BinaryOp::Eq)[0]); },
            BinaryOp::Ne => { assert(op_text(BinaryOp::And)[0] != op_text(BinaryOp::Ne)[0]); },
            BinaryOp::Gt => { assert(op_text(BinaryOp::And).len() != op_text(BinaryOp::Gt).len()); },
            BinaryOp::Lt => { assert(op_text(BinaryOp::And).len() != op_text(BinaryOp::Lt).len()); },
            BinaryOp::Ge => { assert(op_text(BinaryOp::And)[0] != op_text(BinaryOp::Ge)[0]); },
            BinaryOp::Le => { assert(op_text(BinaryOp::And)[0] != op_text(BinaryOp::Le)[0]); },
            BinaryOp::MatMul => { assert(op_text(BinaryOp::And).len() != op_text(BinaryOp::MatMul).len()); },
        },
        BinaryOp::Or => match b {
            BinaryOp::Add => { assert(op_text(BinaryOp::Or).len() != op_text(BinaryOp::Add).len()); },
            BinaryOp::Sub => { assert(op_text(BinaryOp::Or).len() != op_text(BinaryOp::Sub).len()); },
            BinaryOp::Mul => { assert(op_text(BinaryOp::Or).len() != op_text(BinaryOp::Mul).len()); },
            BinaryOp::Mod => { assert(op_text(BinaryOp::Or).len() != op_text(BinaryOp::Mod).len()); },
            BinaryOp::Div => { assert(op_text(BinaryOp::Or).len() != op_text(BinaryOp::Div).len()); },
            BinaryOp::And => { assert(op_text(BinaryOp::Or)[0] != op_text(BinaryOp::And)[0]); },
            BinaryOp::Or => {},
            BinaryOp::Assign => { assert(op_text(BinaryOp::Or).len() != op_text(BinaryOp::Assign).len()); },
            BinaryOp::Eq => { assert(op_text(BinaryOp::Or)[0] != op_text(BinaryOp::Eq)[0]); },
            BinaryOp::Ne => { assert(op_text(BinaryOp::Or)[0] != op_text(BinaryOp::Ne)[0]); },
            BinaryOp::Gt => { assert(op_text(BinaryOp::Or).len() != op_text(BinaryOp::Gt).len()); },
            BinaryOp::Lt => { assert(op_text(BinaryOp::Or).len() != op_text(BinaryOp::Lt).len()); },
            BinaryOp::Ge => { assert(op_text(BinaryOp::Or)[0] != op_text(BinaryOp::Ge)[0]); },
            BinaryOp::Le => { assert(op_text(BinaryOp::Or)[0] != op_text(BinaryOp::Le)[0]); },
            BinaryOp::MatMul => { assert(op_text(BinaryOp::Or).len() != op_text(BinaryOp::MatMul).len()); },
        },
        BinaryOp::Assign => match b {
            BinaryOp::Add => { assert(op_text(BinaryOp::Assign)[0] != op_text(BinaryOp::Add)[0]); },
            BinaryOp::Sub => { assert(op_text(BinaryOp::Assign)[0] != op_text(BinaryOp::Sub)[0]); },
            BinaryOp::Mul => { assert(op_text(BinaryOp::Assign)[0] != op_text(BinaryOp::Mul)[0]); },
            BinaryOp::Mod => { assert(op_text(BinaryOp::Assign)[0] != op_text(BinaryOp::Mod)[0]); },
            BinaryOp::Div => { assert(op_text(BinaryOp::Assign)[0] != op_text(BinaryOp::Div)[0]); },
            BinaryOp::And => { assert(op_text(BinaryOp::Assign).len() != op_text(BinaryOp::And).len()); },
            BinaryOp::Or => { assert(op_text(BinaryOp::Assign).len() != op_text(BinaryOp::Or).len()); },
            BinaryOp::Assign => {},
            BinaryOp::Eq => { assert(op_text(BinaryOp::Assign).len() != op_text(BinaryOp::Eq).len()); },
            BinaryOp::Ne => { assert(op_text(BinaryOp::Assign).len() != op_text(BinaryOp::Ne).len()); },
            BinaryOp::Gt => { assert(op_text(BinaryOp::Assign)[0] != op_text(BinaryOp::Gt)[0]); },
            BinaryOp::Lt => { assert(op_text(BinaryOp::Assign)[0] != op_text(BinaryOp::Lt)[0]); },
            BinaryOp::Ge => { assert(op_text(BinaryOp::Assign).len() != op_text(BinaryOp::Ge).len()); },
            BinaryOp::Le => { assert(op_text(BinaryOp::Assign).len() != op_text(BinaryOp::Le).len()); },
            BinaryOp::MatMul => { assert(op_text(BinaryOp::Assign)[0] != op_text(BinaryOp::MatMul)[0]); },
        },
        BinaryOp::Eq => match b {
            BinaryOp::Add => { assert(op_text(BinaryOp::Eq).len() != op_text(BinaryOp::Add).len()); },
            BinaryOp::Sub => { assert(op_text(BinaryOp::Eq).len() != op_text(BinaryOp::Sub).len()); },
            BinaryOp::Mul => { assert(op_text(BinaryOp::Eq).len() != op_text(BinaryOp::Mul).len()); },
            BinaryOp::Mod => { assert(op_text(BinaryOp::Eq).len() != op_text(BinaryOp::Mod).len()); },
            BinaryOp::Div => { assert(op_text(BinaryOp::Eq).len() != op_text(BinaryOp::Div).len()); },
            BinaryOp::And => { assert(op_text(BinaryOp::Eq)[0] != op_text(BinaryOp::And)[0]); },
            BinaryOp::Or => { assert(op_text(BinaryOp::Eq)[0] != op_text(BinaryOp::Or)[0]); },
            BinaryOp::Assign => { assert(op_text(BinaryOp::Eq).len() != op_text(BinaryOp::Assign).len()); },
            BinaryOp::Eq => {},
            BinaryOp::Ne => { assert(op_text(BinaryOp::Eq)[0] != op_text(BinaryOp::Ne)[0]); },
            BinaryOp::Gt => { assert(op_text(BinaryOp::Eq).len() != op_text(BinaryOp::Gt).len()); },
            BinaryOp::Lt => { assert(op_text(BinaryOp::Eq).len() != op_text(BinaryOp::Lt).len()); },
            BinaryOp::Ge => { assert(op_text(BinaryOp::Eq)[0] != op_text(BinaryOp::Ge)[0]); },
            BinaryOp::Le => { assert(op_text(BinaryOp::Eq)[0] != op_text(BinaryOp::Le)[0]); },
            BinaryOp::MatMul => { assert(op_text(BinaryOp::Eq).len() != op_text(BinaryOp::MatMul).len()); },
        },
        BinaryOp::Ne => match b {
            BinaryOp::Add => { assert(op_text(BinaryOp::Ne).len() != op_text(BinaryOp::Add).len()); },
            BinaryOp::Sub => { assert(op_text(BinaryOp::Ne).len() != op_text(BinaryOp::Sub).len()); },
            BinaryOp::Mul => { assert(op_text(BinaryOp::Ne).len() != op_text(BinaryOp::Mul).len()); },
            BinaryOp::Mod => { assert(op_text(BinaryOp::Ne).len() != op_text(BinaryOp::Mod).len()); },
            BinaryOp::Div => { assert(op_text(BinaryOp::Ne).len() != op_text(BinaryOp::Div).len()); },
            BinaryOp::And => { assert(op_text(BinaryOp::Ne)[0] != op_text(BinaryOp::And)[0]); },
            BinaryOp::Or => { assert(op_text(BinaryOp::Ne)[0] != op_text(BinaryOp::Or)[0]); },
            BinaryOp::Assign => { assert(op_text(BinaryOp::Ne).len() != op_text(BinaryOp::Assign).len()); },
            BinaryOp::Eq => { assert(op_text(BinaryOp::Ne)[0] != op_text(BinaryOp::Eq)[0]); },
            BinaryOp::Ne => {},
            BinaryOp::Gt => { assert(op_text(BinaryOp::Ne).len() != op_text(BinaryOp::Gt).len()); },
            BinaryOp::Lt => { assert(op_text(BinaryOp::Ne).len() != op_text(BinaryOp::Lt).len()); },
            BinaryOp::Ge => { assert(op_text(BinaryOp::Ne)[0] != op_text(BinaryOp::Ge)[0]); },
            BinaryOp::Le => { assert(op_text(BinaryOp::Ne)[0] != op_text(BinaryOp::Le)[0]); },
            BinaryOp::MatMul => { assert(op_text(BinaryOp::Ne).len() != op_text(BinaryOp::MatMul).len()); },
        },
        BinaryOp::Gt => match b {
            BinaryOp::Add => { assert(op_text(BinaryOp::Gt)[0] != op_text(BinaryOp::Add)[0]); },
            BinaryOp::Sub => { assert(op_text(BinaryOp::Gt)[0] != op_text(BinaryOp::Sub)[0]); },
            BinaryOp::Mul => { assert(op_text(BinaryOp::Gt)[0] != op_text(BinaryOp::Mul)[0]); },
            BinaryOp::Mod => { assert(op_text(BinaryOp::Gt)[0] != op_text(BinaryOp::Mod)[0]); },
            BinaryOp::Div => { assert(op_text(BinaryOp::Gt)[0] != op_text(BinaryOp::Div)[0]); },
            BinaryOp::And => { assert(op_text(BinaryOp::Gt).len() != op_text(BinaryOp::And).len()); },
            BinaryOp::Or => { assert(op_text(BinaryOp::Gt).len() != op_text(BinaryOp::Or).len()); },
            BinaryOp::Assign => { assert(op_text(BinaryOp::Gt)[0] != op_text(BinaryOp::Assign)[0]); },
            BinaryOp::Eq => { assert(op_text(BinaryOp::Gt).len() != op_text(BinaryOp::Eq).len()); },
            BinaryOp::Ne => { assert(op_text(BinaryOp::Gt).len() != op_text(BinaryOp::Ne).len()); },
            BinaryOp::Gt => {},
            BinaryOp::Lt => { assert(op_text(BinaryOp::Gt)[0] != op_text(BinaryOp::Lt)[0]); },
            BinaryOp::Ge => { assert(op_text(BinaryOp::Gt).len() != op_text(BinaryOp::Ge).len()); },
            BinaryOp::Le => { assert(op_text(BinaryOp::Gt).len() != op_text(BinaryOp::Le).len()); },
            BinaryOp::MatMul => { assert(op_text(BinaryOp::Gt)[0] != op_text(BinaryOp::MatMul)[0]); },
        },
        BinaryOp::Lt => match b {
            BinaryOp::Add => { assert(op_text(BinaryOp::Lt)[0] != op_text(BinaryOp::Add)[0]); },
            BinaryOp::Sub => { assert(op_text(BinaryOp::Lt)[0] != op_text(BinaryOp::Sub)[0]); },
            BinaryOp::Mul => { assert(op_text(BinaryOp::Lt)[0] != op_text(BinaryOp::Mul)[0]); },
            BinaryOp::Mod => { assert(op_text(BinaryOp::Lt)[0] != op_text(BinaryOp::Mod)[0]); },
            BinaryOp::Div => { assert(op_text(BinaryOp::Lt)[0] != op_text(BinaryOp::Div)[0]); },
            BinaryOp::And => { assert(op_text(BinaryOp::Lt).len() != op_text(BinaryOp::And).len()); },
            BinaryOp::Or => { assert(op_text(BinaryOp::Lt).len() != op_text(BinaryOp::Or).len()); },
            BinaryOp::Assign => { assert(op_text(BinaryOp::Lt)[0] != op_text(BinaryOp::Assign)[0]); },
            BinaryOp::Eq => { assert(op_text(BinaryOp::Lt).len() != op_text(BinaryOp::Eq).len()); },
            BinaryOp::Ne => { assert(op_text(BinaryOp::Lt).len() != op_text(BinaryOp::Ne).len()); },
            BinaryOp::Gt => { assert(op_text(BinaryOp::Lt)[0] != op_text(BinaryOp::Gt)[0]); },
            BinaryOp::Lt => {},
            BinaryOp::Ge => { assert(op_text(BinaryOp::Lt).len() != op_text(BinaryOp::Ge).len()); },
            BinaryOp::Le => { assert(op_text(BinaryOp::Lt).len() != op_text(BinaryOp::Le).len()); },
            BinaryOp::MatMul => { assert(op_text(BinaryOp::Lt)[0] != op_text(BinaryOp::MatMul)[0]); },
        },
        BinaryOp::Ge => match b {
            BinaryOp::Add => { assert(op_text(BinaryOp::Ge).len() != op_text(BinaryOp::Add).len()); },
            BinaryOp::Sub => { assert(op_text(BinaryOp::Ge).len() != op_text(BinaryOp::Sub).len()); },
            BinaryOp::Mul => { assert(op_text(BinaryOp::Ge).len() != op_text(BinaryOp::Mul).len()); },
            BinaryOp::Mod => { assert(op_text(BinaryOp::Ge).len() != op_text(BinaryOp::Mod).len()); },
            BinaryOp::Div => { assert(op_text(BinaryOp::Ge).len() != op_text(BinaryOp::Div).len()); },
            BinaryOp::And => { assert(op_text(BinaryOp::Ge)[0] != op_text(BinaryOp::And)[0]); },
            BinaryOp::Or => { assert(op_text(BinaryOp::Ge)[0] != op_text(BinaryOp::Or)[0]); },
            BinaryOp::Assign => { assert(op_text(BinaryOp::Ge).len() != op_text(BinaryOp::Assign).len()); },
            BinaryOp::Eq => { assert(op_text(BinaryOp::Ge)[0] != op_text(BinaryOp::Eq)[0]); },
            BinaryOp::Ne => { assert(op_text(BinaryOp::Ge)[0] != op_text(BinaryOp::Ne)[0]); },
            BinaryOp::Gt => { assert(op_text(BinaryOp::Ge).len() != op_text(BinaryOp::Gt).len()); },
            BinaryOp::Lt => { assert(op_text(BinaryOp::Ge).len() != op_text(BinaryOp::Lt).len()); },
            BinaryOp::Ge => {},
            BinaryOp::Le => { assert(op_text(BinaryOp::Ge)[0] != op_text(BinaryOp::Le)[0]); },
            BinaryOp::MatMul => { assert(op_text(BinaryOp::Ge).len() != op_text(BinaryOp::MatMul).len()); },
        },
        BinaryOp::Le => match b {
            BinaryOp::Add => { assert(op_text(BinaryOp::Le).len() != op_text(BinaryOp::Add).len()); },
            BinaryOp::Sub => { assert(op_text(BinaryOp::Le).len() != op_text(BinaryOp::Sub).len()); },
            BinaryOp::Mul => { assert(op_text(BinaryOp::Le).len() != op_text(BinaryOp::Mul).len()); },
            BinaryOp::Mod => { assert(op_text(BinaryOp::Le).len() != op_text(BinaryOp::Mod).len()); },
            BinaryOp::Div => { assert(op_text(BinaryOp::Le).len() != op_text(BinaryOp::Div).len()); },
            BinaryOp::And => { assert(op_text(BinaryOp::Le)[0] != op_text(BinaryOp::And)[0]); },
            BinaryOp::Or => { assert(op_text(BinaryOp::Le)[0] != op_text(BinaryOp::Or)[0]); },
            BinaryOp::Assign => { assert(op_text(BinaryOp::Le).len() != op_text(BinaryOp::Assign).len()); },
            BinaryOp::Eq => { assert(op_text(BinaryOp::Le)[0] != op_text(BinaryOp::Eq)[0]); },
            BinaryOp::Ne => { assert(op_text(BinaryOp::Le)[0] != op_text(BinaryOp::Ne)[0]); },
            BinaryOp::Gt => { assert(op_text(BinaryOp::Le).len() != op_text(BinaryOp::Gt).len()); },
            BinaryOp::Lt => { assert(op_text(BinaryOp::Le).len() != op_text(BinaryOp::Lt).len()); },
            BinaryOp::Ge => { assert(op_text(BinaryOp::Le)[0] != op_text(BinaryOp::Ge)[0]); },
            BinaryOp::Le => {},
            BinaryOp::MatMul => { assert(op_text(BinaryOp::Le).len() != op_text(BinaryOp::MatMul).len()); },
        },
        BinaryOp::MatMul => match b {
            BinaryOp::Add => { assert(op_text(BinaryOp::MatMul)[0] != op_text(BinaryOp::Add)[0]); },
            BinaryOp::Sub => { assert(op_text(BinaryOp::MatMul)[0] != op_text(BinaryOp::Sub)[0]); },
            BinaryOp::Mul => { assert(op_text(BinaryOp::MatMul)[0] != op_text(BinaryOp::Mul)[0]); },
            BinaryOp::Mod => { assert(op_text(BinaryOp::MatMul)[0] != op_text(BinaryOp::Mod)[0]); },
            BinaryOp::Div => { assert(op_text(BinaryOp::MatMul)[0] != op_text(BinaryOp::Div)[0]); },
            BinaryOp::And => { assert(op_text(BinaryOp::MatMul).len() != op_text(BinaryOp::And).len()); },
            BinaryOp::Or => { assert(op_text(BinaryOp::MatMul).len() != op_text(BinaryOp::Or).len()); },
            BinaryOp::Assign => { assert(op_text(BinaryOp::MatMul)[0] != op_text(BinaryOp::Assign)[0]); },
            BinaryOp::Eq => { assert(op_text(BinaryOp::MatMul).len() != op_text(BinaryOp::Eq).len()); },
            BinaryOp::Ne => { assert(op_text(BinaryOp::MatMul).len() != op_text(BinaryOp::Ne).len()); },
            BinaryOp::Gt => { assert(op_text(BinaryOp::MatMul)[0] != op_text(BinaryOp::Gt)[0]); },
            BinaryOp::Lt => { assert(op_text(BinaryOp::MatMul)[0] != op_text(BinaryOp::Lt)[0]); },
            BinaryOp::Ge => { assert(op_text(BinaryOp::MatMul).len() != op_text(BinaryOp::Ge).len()); },
            BinaryOp::Le => { assert(op_text(BinaryOp::MatMul).len() != op_text(BinaryOp::Le).len()); },
            BinaryOp::MatMul => {},
        },
    }
}

/// Binary operators lower faithfully: every operator but `and`, `or` and
/// `@` keeps its Desert spelling, `and` and `or` become Rust's `&&` and
/// `||`, and two different operators between the same operands never lower
/// to the same Rust text.
pub proof fn law_operators_lower_faithfully(c: TCtx, l: SExpr, op1: BinaryOp, op2: BinaryOp, r: SExpr)
    ensures
        op1 != BinaryOp::And && op1 != BinaryOp::Or && op1 != BinaryOp::MatMul
            ==> op_text(op1) == crate::formatter::op_text(op1),
        op_text(BinaryOp::And) == seq!['&', '&'],
        op_text(BinaryOp::Or) == seq!['|', '|'],
        op1 != op2 ==> rexpr(c, SExpr::Bin(Box::new(l), op1, Box::new(r)))
            != rexpr(c, SExpr::Bin(Box::new(l), op2, Box::new(r))),
{
    reveal_strlit("&&");
    reveal_strlit("||");
    assert("&&"@ =~= seq!['&', '&']);
    assert("||"@ =~= seq!['|', '|']);
    if op1 != op2 {
        let e1 = rexpr(c, SExpr::Bin(Box::new(l), op1, Box::new(r)));
        let e2 = rexpr(c, SExpr::Bin(Box::new(l), op2, Box::new(r)));
        if e1 == e2 {
            reveal_strlit("(");
            reveal_strlit(" ");
            reveal_strlit(")");
            reveal_strlit("desert_matmul((");
            reveal_strlit(").clone(), (");
            reveal_strlit(").clone())");
            let lt = rexpr(c, l);
            let rt = rexpr(c, r);
            if op1 == BinaryOp::MatMul || op2 == BinaryOp::MatMul {
                // One text starts with `desert_matmul`, the other with `(`.
                assert(e1[0] != e2[0]);
            } else {
                let k: int = lt.len() as int + 2;
                assert(e1 =~= "("@ + lt + " "@ + op_text(op1) + " "@ + rt + ")"@);
                assert(e2 =~= "("@ + lt + " "@ + op_text(op2) + " "@ + rt + ")"@);
                assert(e1.len() == e2.len());
                assert(op_text(op1).len() == op_text(op2).len());
                assert(e1.subrange(k, k + op_text(op1).len() as int) =~= op_text(op1));
                assert(e2.subrange(k, k + op_text(op2).len() as int) =~= op_text(op2));
                lemma_op_text_injective(op1, op2);
            }
        }
    }
}


/// Prefix and postfix forms keep their operand and stay apart: the lowering
/// of `b?`, `b!!`, `~b` and `move b` starts or ends with the lowering of `b`,
/// and no two of `b?`, `b!!`, `~b`, `&b` and `move b` lower to the same text
/// (so `!!` is never lowered as `?`, nor `~` as `&`).
pub proof fn law_unary_forms_lower_apart(c: TCtx, b: SExpr)
    ensures
        ({
            let bt = rexpr(c, b);
            let q = rexpr(c, SExpr::Question(Box::new(b)));
            let u = rexpr(c, SExpr::Unwrap(Box::new(b)));
            let s = rexpr(c, SExpr::SharedRef(Box::new(b)));
            let m = rexpr(c, SExpr::UniqueRef(Box::new(b)));
            let mv = rexpr(c, SExpr::Move(Box::new(b)));
            &&& q.subrange(0, bt.len() as int) == bt
            &&& u.subrange(0, bt.len() as int) == bt
            &&& s.subrange(s.len() - bt.len(), s.len() as int) == bt
            &&& m.subrange(m.len() - bt.len(), m.len() as int) == bt
            &&& q != u && q != m && q != mv && u != s && u != m && u != mv && s != m && s != mv && m != mv
            &&& q.len() == bt.len() + 1 && u.len() > q.len()
        }),
{
    reveal_strlit("?");
    reveal_strlit(".unwrap()");
    reveal_strlit("&");
    reveal_strlit("&mut ");
    reveal_strlit("std::mem::take(&mut ");
    reveal_strlit(")");
    let bt = rexpr(c, b);
    let q = rexpr(c, SExpr::Question(Box::new(b)));
    let u = rexpr(c, SExpr::Unwrap(Box::new(b)));
    let s = rexpr(c, SExpr::SharedRef(Box::new(b)));
    let m = rexpr(c, SExpr::UniqueRef(Box::new(b)));
    assert(q.subrange(0, bt.len() as int) =~= bt);
    assert(u.subrange(0, bt.len() as int) =~= bt);
    assert(s.subrange(s.len() - bt.len(), s.len() as int) =~= bt);
    assert(m.subrange(m.len() - bt.len(), m.len() as int) =~= bt);
}

} // verus!
