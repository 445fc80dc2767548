//! The canonical Desert layout of a program: four-space indentation, one
//! statement per line, single spaces around binary operators, and
//! parentheses only where operator precedence needs them.
use vstd::prelude::*;
use vstd::string::StrSliceExecFns;
use crate::ast::{
    BinaryOp, EnumVariant, Expression, ImportItem, Literal, Param, Pattern, Program, SExpr, SImport,
    SKind, SLit, SParam, SPattern, SStmt, SType, SVariant, Statement, StatementKind, Type,
    arms_view, expr_view, exprs_view, import_view, lemma_arms_view, lemma_exprs_view,
    lemma_pairs_view, lemma_stmts_view, lemma_types_view, pairs_view, param_view, params_view,
    pattern_text, pattern_view, stmt_view, stmts_view, type_view, types_view, variant_view,
};
use crate::imports::{item_text, with_alias};
use crate::text::{chars_of, int_text, int_to_text, join, join_strings, push_char, push_str, string_views};
use crate::transpiler::trim_ws;

verus! {

/// How tightly an expression binds; an operand that binds more loosely than
/// its context is parenthesized.
pub open spec fn prec(e: SExpr) -> int {
    match e {
        SExpr::Bin(_, op, _) => match op {
            BinaryOp::Assign => 1,
            BinaryOp::Or => 2,
            BinaryOp::And => 3,
            BinaryOp::Eq | BinaryOp::Ne | BinaryOp::Gt | BinaryOp::Lt | BinaryOp::Ge | BinaryOp::Le => 5,
            BinaryOp::Add | BinaryOp::Sub => 7,
            BinaryOp::Mul | BinaryOp::Div | BinaryOp::Mod | BinaryOp::MatMul => 8,
        },
        SExpr::Lambda(_, _) => 1,
        SExpr::Not(_) => 4,
        SExpr::Range(_, _) | SExpr::RangeInclusive(_, _) => 6,
        SExpr::Move(_) | SExpr::SharedRef(_) | SExpr::UniqueRef(_) => 9,
        SExpr::Call(_, _) | SExpr::GenericCall(_, _, _) | SExpr::Member(_, _) | SExpr::Question(_)
            | SExpr::Unwrap(_) | SExpr::Index(_, _) => 10,
        _ => 11,
    }
}

pub open spec fn op_text(op: BinaryOp) -> Seq<char> {
    match op {
        BinaryOp::Add => "+"@,
        BinaryOp::Sub => "-"@,
        BinaryOp::Mul => "*"@,
        BinaryOp::Mod => "%"@,
        BinaryOp::Div => "/"@,
        BinaryOp::And => "and"@,
        BinaryOp::Or => "or"@,
        BinaryOp::Assign => "="@,
        BinaryOp::Eq => "=="@,
        BinaryOp::Ne => "!="@,
        BinaryOp::Gt => ">"@,
        BinaryOp::Lt => "<"@,
        BinaryOp::Ge => ">="@,
        BinaryOp::Le => "<="@,
        BinaryOp::MatMul => "@"@,
    }
}

pub open spec fn desert_type(t: SType) -> Seq<char>
    decreases t,
{
    match t {
        SType::Simple(n) => n,
        SType::Generic(n, args) => n + "["@ + join(desert_types(args), ", "@) + "]"@,
        SType::Tuple(items) => "("@ + join(desert_types(items), ", "@) + ")"@,
        SType::SharedRef(b) => "&"@ + desert_type(*b),
        SType::UniqueRef(b) => "~"@ + desert_type(*b),
    }
}

pub open spec fn desert_types(s: Seq<SType>) -> Seq<Seq<char>>
    decreases s,
{
    if s.len() == 0 {
        seq![]
    } else {
        desert_types(s.subrange(0, s.len() - 1)).push(desert_type(s[s.len() - 1]))
    }
}

/// `[mut ]name[: Type]`.
pub open spec fn param_text(p: SParam) -> Seq<char> {
    (if p.is_mut { "mut "@ } else { ""@ }) + p.name + match p.ty {
        Some(t) => ": "@ + desert_type(t),
        None => ""@,
    }
}

pub open spec fn params_text(s: Seq<SParam>) -> Seq<Seq<char>> {
    s.map_values(|p: SParam| param_text(p))
}

/// Whether an expression reads everything that follows it: `move`, `&`
/// and `~` take a whole expression after them, and so does a lambda's body.
pub open spec fn greedy(e: SExpr) -> bool {
    e is Move || e is SharedRef || e is UniqueRef || e is Lambda
}

/// Whether an expression is parenthesized in a context of binding strength
/// `parent`, where `open` says that nothing of the expression's context
/// follows it: when it binds more loosely than its context, or when it
/// would read what follows it.
pub open spec fn wrapped(e: SExpr, parent: int, open: bool) -> bool {
    prec(e) < parent || (greedy(e) && !open)
}

/// An expression in a context of binding strength `parent`; `open` says
/// that nothing of its context follows it. Left operands of left-associative
/// operators keep their operator's strength and right ones need a stronger
/// one (and the other way round for the right-associative `=`), so that the
/// text reads back as the same tree.
pub open spec fn fexpr(e: SExpr, parent: int, open: bool) -> Seq<char>
    decreases e,
{
    let p = prec(e);
    let w = wrapped(e, parent, open);
    let o = w || open;
    let r = match e {
        SExpr::Lit(SLit::Int(i)) => int_text(i),
        SExpr::Lit(SLit::Float(f)) => if f.contains('.') { f } else { f + ".0"@ },
        SExpr::Lit(SLit::Str(s)) => "\""@ + s + "\""@,
        SExpr::Lit(SLit::List(items)) => "["@ + join(fexprs(items), ", "@) + "]"@,
        SExpr::Lit(SLit::Dict(pairs)) => "{"@ + join(fpairs(pairs), ", "@) + "}"@,
        SExpr::Lit(SLit::SetOf(items)) => "{"@ + join(fexprs(items), ", "@) + "}"@,
        SExpr::Ident(n) => n,
        SExpr::Bin(l, op, r) => if op == BinaryOp::Assign {
            fexpr(*l, p + 1, false) + " "@ + op_text(op) + " "@ + fexpr(*r, p, o)
        } else {
            fexpr(*l, p, false) + " "@ + op_text(op) + " "@ + fexpr(*r, p + 1, o)
        },
        SExpr::Call(f, args) => fexpr(*f, p, false) + "("@ + join(fexprs(args), ", "@) + ")"@,
        SExpr::GenericCall(f, tys, args) => fexpr(*f, p, false) + "["@ + join(desert_types(tys), ", "@) + "]("@ + join(fexprs(args), ", "@) + ")"@,
        SExpr::Macro(n, args) => "$"@ + n + "("@ + join(fexprs(args), ", "@) + ")"@,
        SExpr::Member(b, m) => fexpr(*b, p, false) + "."@ + m,
        SExpr::Move(b) => "move "@ + fexpr(*b, p, o),
        SExpr::SharedRef(b) => "&"@ + fexpr(*b, p, o),
        SExpr::UniqueRef(b) => "~"@ + fexpr(*b, p, o),
        SExpr::Not(b) => "not "@ + fexpr(*b, p, o),
        SExpr::Question(b) => fexpr(*b, p, false) + "?"@,
        SExpr::Unwrap(b) => fexpr(*b, p, false) + "!!"@,
        SExpr::Index(b, i) => fexpr(*b, p, false) + "["@ + fexpr(*i, 0, true) + "]"@,
        SExpr::Tuple(items) => "("@ + join(fexprs(items), ", "@) + (if items.len() == 1 { ","@ } else { ""@ }) + ")"@,
        SExpr::Range(a, b) => fexpr(*a, p + 1, false) + ".."@ + fexpr(*b, p + 1, o),
        SExpr::RangeInclusive(a, b) => fexpr(*a, p + 1, false) + "..="@ + fexpr(*b, p + 1, o),
        SExpr::Lambda(params, body) => "|"@ + join(params_text(params), ", "@) + "| "@ + fexpr(*body, 0, o),
    };
    if w { "("@ + r + ")"@ } else { r }
}

/// Expressions in a context that needs no parentheses (list items,
/// arguments).
pub open spec fn fexprs(s: Seq<SExpr>) -> Seq<Seq<char>>
    decreases s,
{
    if s.len() == 0 {
        seq![]
    } else {
        fexprs(s.subrange(0, s.len() - 1)).push(fexpr(s[s.len() - 1], 0, true))
    }
}

pub open spec fn fpairs(s: Seq<(SExpr, SExpr)>) -> Seq<Seq<char>>
    decreases s,
{
    if s.len() == 0 {
        seq![]
    } else {
        let last = s[s.len() - 1];
        fpairs(s.subrange(0, s.len() - 1)).push(fexpr(last.0, 0, true) + ": "@ + fexpr(last.1, 0, true))
    }
}

pub open spec fn type_suffix(ty: Option<SType>) -> Seq<char> {
    match ty {
        Some(t) => ": "@ + desert_type(t),
        None => ""@,
    }
}

pub open spec fn field_text(ind: Seq<char>, f: SParam) -> Seq<char> {
    ind + "    "@ + f.name + ": "@ + match f.ty {
        Some(t) => desert_type(t),
        None => "()"@,
    } + "\n"@
}

pub open spec fn variant_text(ind: Seq<char>, v: SVariant) -> Seq<char> {
    ind + "    "@ + v.name + (if v.fields.len() > 0 { "("@ + join(desert_types(v.fields), ", "@) + ")"@ } else { ""@ }) + "\n"@
}

pub open spec fn concat(parts: Seq<Seq<char>>) -> Seq<char>
    decreases parts.len(),
{
    if parts.len() == 0 { seq![] } else { concat(parts.drop_last()) + parts.last() }
}

/// One statement at indentation `ind`, with its nested blocks.
pub open spec fn fstmt(st: SStmt, ind: Seq<char>) -> Seq<char>
    decreases st,
{
    let inner = ind + "    "@;
    match st.kind {
        SKind::Import(path, alias) => ind + "import \""@ + path + "\""@ + match alias {
            Some(a) => " as "@ + a,
            None => ""@,
        } + "\n"@,
        SKind::FromImport(path, items) => ind + "from \""@ + path + "\" import "@
            + join(items.map_values(|i: SImport| item_text(i)), ", "@) + "\n"@,
        SKind::Let(p, ty, v) => ind + "let "@ + pattern_text(p) + type_suffix(ty) + " = "@ + fexpr(v, 0, true) + "\n"@,
        SKind::Mut(p, ty, v) => ind + "mut "@ + pattern_text(p) + type_suffix(ty) + " = "@ + fexpr(v, 0, true) + "\n"@,
        SKind::Def(name, params, ret, body) => ind + "def "@ + name + "("@ + join(params_text(params), ", "@) + ")"@
            + match ret {
                Some(t) => " -> "@ + desert_type(t),
                None => ""@,
            } + ":\n"@ + fstmts(body, inner),
        SKind::If(c, t, e) => ind + "if "@ + fexpr(c, 0, true) + ":\n"@ + fstmts(t, inner) + match e {
            Some(b) => ind + "else:\n"@ + fstmts(b, inner),
            None => ""@,
        },
        SKind::For(p, it, b) => ind + "for "@ + pattern_text(p) + " in "@ + fexpr(it, 0, true) + ":\n"@ + fstmts(b, inner),
        SKind::While(c, b) => ind + "while "@ + fexpr(c, 0, true) + ":\n"@ + fstmts(b, inner),
        SKind::Struct(name, fields) => ind + "struct "@ + name + ":\n"@ + concat(fields.map_values(|f: SParam| field_text(ind, f))),
        SKind::Enum(name, variants) => ind + "enum "@ + name + ":\n"@ + concat(variants.map_values(|v: SVariant| variant_text(ind, v))),
        SKind::Protocol(name, methods) => ind + "protocol "@ + name + ":\n"@ + fstmts(methods, inner),
        SKind::Impl(p, ty, methods) => ind + "impl "@ + match p {
            Some(pr) => pr + " for "@,
            None => ""@,
        } + ty + ":\n"@ + fstmts(methods, inner),
        SKind::Match(e, arms) => ind + "match "@ + fexpr(e, 0, true) + ":\n"@ + farms(arms, inner),
        SKind::PyImport(content) => ind + "pyimport:\n"@ + inner + trim_ws(content) + "\n"@,
        SKind::Return(Some(e)) => ind + "return "@ + fexpr(e, 0, true) + "\n"@,
        SKind::Return(None) => ind + "return\n"@,
        SKind::Break => ind + "break\n"@,
        SKind::Continue => ind + "continue\n"@,
        SKind::Expr(e) => ind + fexpr(e, 0, true) + "\n"@,
    }
}

pub open spec fn fstmts(s: Seq<SStmt>, ind: Seq<char>) -> Seq<char>
    decreases s,
{
    if s.len() == 0 {
        seq![]
    } else {
        fstmts(s.subrange(0, s.len() - 1), ind) + fstmt(s[s.len() - 1], ind)
    }
}

/// Match arms: `pattern:` at `ind`, the body one level further in.
pub open spec fn farms(arms: Seq<(SExpr, Seq<SStmt>)>, ind: Seq<char>) -> Seq<char>
    decreases arms,
{
    if arms.len() == 0 {
        seq![]
    } else {
        let last = arms[arms.len() - 1];
        farms(arms.subrange(0, arms.len() - 1), ind) + ind + fexpr(last.0, 0, true) + ":\n"@ + fstmts(last.1, ind + "    "@)
    }
}

// ---------------------------------------------------------------------------
// Laws of the layout.
// ---------------------------------------------------------------------------

/// A statement with its span, and the spans of every statement nested in it,
/// set to zero: what is left is what the text of a program says.
pub open spec fn unspanned(st: SStmt) -> SStmt
    decreases st,
{
    let kind = match st.kind {
        SKind::Def(n, ps, ret, body) => SKind::Def(n, ps, ret, unspanned_all(body)),
        SKind::If(c, t, e) => SKind::If(c, unspanned_all(t), match e {
            Some(b) => Some(unspanned_all(b)),
            None => None,
        }),
        SKind::For(pat, it, b) => SKind::For(pat, it, unspanned_all(b)),
        SKind::While(c, b) => SKind::While(c, unspanned_all(b)),
        SKind::Protocol(n, ms) => SKind::Protocol(n, unspanned_all(ms)),
        SKind::Impl(pr, ty, ms) => SKind::Impl(pr, ty, unspanned_all(ms)),
        SKind::Match(e, arms) => SKind::Match(e, unspanned_arms(arms)),
        k => k,
    };
    SStmt { kind, start: 0, end: 0 }
}

pub open spec fn unspanned_all(s: Seq<SStmt>) -> Seq<SStmt>
    decreases s,
{
    if s.len() == 0 {
        seq![]
    } else {
        unspanned_all(s.subrange(0, s.len() - 1)).push(unspanned(s[s.len() - 1]))
    }
}

pub open spec fn unspanned_arms(arms: Seq<(SExpr, Seq<SStmt>)>) -> Seq<(SExpr, Seq<SStmt>)>
    decreases arms,
{
    if arms.len() == 0 {
        seq![]
    } else {
        let last = arms[arms.len() - 1];
        unspanned_arms(arms.subrange(0, arms.len() - 1)).push((last.0, unspanned_all(last.1)))
    }
}

proof fn lemma_unspanned_all_shape(s: Seq<SStmt>)
    ensures
        unspanned_all(s).len() == s.len(),
        s.len() > 0 ==> unspanned_all(s).subrange(0, s.len() - 1) == unspanned_all(s.subrange(0, s.len() - 1)),
    decreases s,
{
    if s.len() > 0 {
        lemma_unspanned_all_shape(s.subrange(0, s.len() - 1));
        assert(unspanned_all(s).subrange(0, s.len() - 1) =~= unspanned_all(s.subrange(0, s.len() - 1)));
    }
}

proof fn lemma_unspanned_arms_shape(arms: Seq<(SExpr, Seq<SStmt>)>)
    ensures
        unspanned_arms(arms).len() == arms.len(),
        arms.len() > 0 ==> unspanned_arms(arms).subrange(0, arms.len() - 1) == unspanned_arms(arms.subrange(0, arms.len() - 1)),
    decreases arms,
{
    if arms.len() > 0 {
        lemma_unspanned_arms_shape(arms.subrange(0, arms.len() - 1));
        assert(unspanned_arms(arms).subrange(0, arms.len() - 1) =~= unspanned_arms(arms.subrange(0, arms.len() - 1)));
    }
}

proof fn lemma_fstmt_unspanned(st: SStmt, ind: Seq<char>)
    ensures
        fstmt(unspanned(st), ind) == fstmt(st, ind),
    decreases st, 0int,
{
    let inner = ind + "    "@;
    match st.kind {
        SKind::Def(n, ps, ret, body) => lemma_fstmts_unspanned(body, inner),
        SKind::If(c, t, e) => {
            lemma_fstmts_unspanned(t, inner);
            match e {
                Some(b) => lemma_fstmts_unspanned(b, inner),
                None => {},
            }
        },
        SKind::For(pat, it, b) => lemma_fstmts_unspanned(b, inner),
        SKind::While(c, b) => lemma_fstmts_unspanned(b, inner),
        SKind::Protocol(n, ms) => lemma_fstmts_unspanned(ms, inner),
        SKind::Impl(pr, ty, ms) => lemma_fstmts_unspanned(ms, inner),
        SKind::Match(e, arms) => lemma_farms_unspanned(arms, inner),
        _ => {},
    }
}

proof fn lemma_fstmts_unspanned(s: Seq<SStmt>, ind: Seq<char>)
    ensures
        fstmts(unspanned_all(s), ind) == fstmts(s, ind),
    decreases s, 1int,
{
    if s.len() > 0 {
        lemma_unspanned_all_shape(s);
        lemma_fstmts_unspanned(s.subrange(0, s.len() - 1), ind);
        lemma_fstmt_unspanned(s[s.len() - 1], ind);
    }
}

proof fn lemma_farms_unspanned(arms: Seq<(SExpr, Seq<SStmt>)>, ind: Seq<char>)
    ensures
        farms(unspanned_arms(arms), ind) == farms(arms, ind),
    decreases arms, 1int,
{
    if arms.len() > 0 {
        lemma_unspanned_arms_shape(arms);
        lemma_farms_unspanned(arms.subrange(0, arms.len() - 1), ind);
        lemma_fstmts_unspanned(arms[arms.len() - 1].1, ind + "    "@);
    }
}

/// Formatting reads no span: two statement lists that differ only in the
/// spans of their statements (nested ones included) are formatted to the
/// same text. So once a formatted program parses back to itself apart from
/// spans, formatting the parsed program gives the same text again.
pub proof fn law_format_ignores_spans(a: Seq<SStmt>, b: Seq<SStmt>, ind: Seq<char>)
    requires
        unspanned_all(a) == unspanned_all(b),
    ensures
        fstmts(a, ind) == fstmts(b, ind),
{
    lemma_fstmts_unspanned(a, ind);
    lemma_fstmts_unspanned(b, ind);
}

/// A parenthesized expression holds the text it has standing alone.
pub proof fn law_parenthesized_text(e: SExpr, parent: int, open: bool)
    requires
        wrapped(e, parent, open),
    ensures
        fexpr(e, parent, open) == "("@ + fexpr(e, 0, true) + ")"@,
{
}

/// Where nothing follows an expression and it is not parenthesized, it has
/// the text it has standing alone.
pub proof fn law_bare_text(e: SExpr, parent: int)
    requires
        !wrapped(e, parent, true),
    ensures
        fexpr(e, parent, true) == fexpr(e, 0, true),
{
}

/// The operands of a binary operator keep their grouping: in `l op r` with a
/// left-associative `op`, the right operand is parenthesized exactly when it
/// binds no tighter than `op`, and the left one exactly when it binds more
/// loosely or would read the operator and what follows it; for the
/// right-associative `=` it is the other way round. So `a - (b - c)` keeps
/// its parentheses and `(a - b) - c` is written `a - b - c`.
pub proof fn law_operands_keep_grouping(l: SExpr, op: BinaryOp, r: SExpr)
    ensures
        ({
            let e = SExpr::Bin(Box::new(l), op, Box::new(r));
            let p = prec(e);
            &&& op != BinaryOp::Assign ==> fexpr(e, 0, true) == fexpr(l, p, false) + " "@ + op_text(op) + " "@
                + (if prec(r) <= p { "("@ + fexpr(r, 0, true) + ")"@ } else { fexpr(r, 0, true) })
            &&& op != BinaryOp::Assign ==> (wrapped(l, p, false) <==> (prec(l) < p || greedy(l)))
            &&& op == BinaryOp::Assign ==> fexpr(e, 0, true) == fexpr(l, p + 1, false) + " = "@ + fexpr(r, p, true)
            &&& op == BinaryOp::Assign ==> (wrapped(l, p + 1, false) <==> (prec(l) <= p || greedy(l)))
            &&& op == BinaryOp::Assign ==> (wrapped(r, p, true) <==> prec(r) < p)
            &&& wrapped(l, p, false) ==> fexpr(l, p, false) == "("@ + fexpr(l, 0, true) + ")"@
            &&& wrapped(l, p + 1, false) ==> fexpr(l, p + 1, false) == "("@ + fexpr(l, 0, true) + ")"@
        }),
{
    let e = SExpr::Bin(Box::new(l), op, Box::new(r));
    let p = prec(e);
    assert(!wrapped(e, 0, true));
    if wrapped(r, p + 1, true) {
        law_parenthesized_text(r, p + 1, true);
    } else {
        law_bare_text(r, p + 1);
    }
    if wrapped(l, p, false) {
        law_parenthesized_text(l, p, false);
    }
    if wrapped(l, p + 1, false) {
        law_parenthesized_text(l, p + 1, false);
    }
    if op == BinaryOp::Assign {
        reveal_strlit(" = ");
        reveal_strlit(" ");
        reveal_strlit("=");
        assert(" "@ + op_text(op) + " "@ =~= " = "@);
    }
}

// ---------------------------------------------------------------------------
// Executable formatting.
// ---------------------------------------------------------------------------

fn push_text(v: &mut Vec<String>, text: String)
    ensures
        string_views(final(v)@) == string_views(old(v)@).push(text@),
{
    v.push(text);
    assert(string_views(final(v)@) =~= string_views(old(v)@).push(text@));
}

fn push_list(out: &mut String, open: &str, parts: &Vec<String>, close: &str)
    ensures
        final(out)@ == old(out)@ + open@ + join(string_views(parts@), ", "@) + close@,
{
    push_str(out, open);
    let joined = join_strings(parts, ", ");
    push_str(out, joined.as_str());
    push_str(out, close);
}

fn format_type(t: &Type) -> (r: String)
    ensures
        r@ == desert_type(t@),
    decreases t,
{
    match t {
        Type::Simple(n) => n.clone(),
        Type::Generic(n, args) => {
            let parts = format_types(args);
            let mut out = n.clone();
            push_list(&mut out, "[", &parts, "]");
            out
        },
        Type::Tuple(items) => {
            let parts = format_types(items);
            let mut out = String::new();
            push_list(&mut out, "(", &parts, ")");
            out
        },
        Type::SharedRef(b) => {
            let mut out = "&".to_owned();
            let inner = format_type(b);
            push_str(&mut out, inner.as_str());
            out
        },
        Type::UniqueRef(b) => {
            let mut out = "~".to_owned();
            let inner = format_type(b);
            push_str(&mut out, inner.as_str());
            out
        },
    }
}

fn format_types(items: &Vec<Type>) -> (r: Vec<String>)
    ensures
        string_views(r@) == desert_types(types_view(items@)),
    decreases items,
{
    let mut out: Vec<String> = Vec::new();
    let mut i: usize = 0;
    proof { lemma_types_view(items@); }
    while i < items.len()
        invariant
            0 <= i <= items.len(),
            types_view(items@).len() == items.len(),
            forall|j: int| 0 <= j < items.len() ==> #[trigger] types_view(items@)[j] == type_view(items@[j]),
            string_views(out@) == desert_types(types_view(items@).subrange(0, i as int)),
        decreases items.len() - i,
    {
        proof {
            assert(decreases_to!(items => items@));
            assert(decreases_to!(items@ => items@[i as int]));
        }
        let piece = format_type(&items[i]);
        push_text(&mut out, piece);
        proof {
            let sv = types_view(items@);
            assert(sv.subrange(0, i + 1).subrange(0, i as int) =~= sv.subrange(0, i as int));
        }
        i = i + 1;
    }
    assert(types_view(items@).subrange(0, i as int) =~= types_view(items@));
    out
}

fn format_param(p: &Param) -> (r: String)
    ensures
        r@ == param_text(param_view(*p)),
{
    let mut out = if p.is_mut { "mut ".to_owned() } else { "".to_owned() };
    push_str(&mut out, p.name.as_str());
    match &p.ty {
        Some(t) => {
            push_str(&mut out, ": ");
            let ts = format_type(t);
            push_str(&mut out, ts.as_str());
        },
        None => {
            push_str(&mut out, "");
        },
    }
    out
}

fn format_params(params: &Vec<Param>) -> (v: Vec<String>)
    ensures
        string_views(v@) == params_text(params_view(params@)),
{
    let mut out: Vec<String> = Vec::new();
    let mut i: usize = 0;
    while i < params.len()
        invariant
            0 <= i <= params.len(),
            string_views(out@) == params_text(params_view(params@)).take(i as int),
        decreases params.len() - i,
    {
        let piece = format_param(&params[i]);
        push_text(&mut out, piece);
        assert(params_text(params_view(params@)).take(i + 1) =~= params_text(params_view(params@)).take(i as int).push(piece@));
        i = i + 1;
    }
    assert(params_text(params_view(params@)).take(i as int) =~= params_text(params_view(params@)));
    out
}

fn expression_precedence(e: &Expression) -> (r: u8)
    ensures
        r as int == prec(e@),
        1 <= r <= 11,
{
    match e {
        Expression::BinaryOp(_, op, _) => match op {
            BinaryOp::Assign => 1,
            BinaryOp::Or => 2,
            BinaryOp::And => 3,
            BinaryOp::Eq | BinaryOp::Ne | BinaryOp::Gt | BinaryOp::Lt | BinaryOp::Ge | BinaryOp::Le => 5,
            BinaryOp::Add | BinaryOp::Sub => 7,
            BinaryOp::Mul | BinaryOp::Div | BinaryOp::Mod | BinaryOp::MatMul => 8,
        },
        Expression::Lambda { .. } => 1,
        Expression::Not(_) => 4,
        Expression::Range(_, _) | Expression::RangeInclusive(_, _) => 6,
        Expression::Move(_) | Expression::SharedRef(_) | Expression::UniqueRef(_) => 9,
        Expression::Call(_, _) | Expression::GenericCall(_, _, _) | Expression::MemberAccess(_, _)
            | Expression::Question(_) | Expression::Unwrap(_) | Expression::Index(_, _) => 10,
        _ => 11,
    }
}

fn binary_op_text(op: BinaryOp) -> (r: &'static str)
    ensures
        r@ == op_text(op),
{
    match op {
        BinaryOp::Add => "+",
        BinaryOp::Sub => "-",
        BinaryOp::Mul => "*",
        BinaryOp::Mod => "%",
        BinaryOp::Div => "/",
        BinaryOp::And => "and",
        BinaryOp::Or => "or",
        BinaryOp::Assign => "=",
        BinaryOp::Eq => "==",
        BinaryOp::Ne => "!=",
        BinaryOp::Gt => ">",
        BinaryOp::Lt => "<",
        BinaryOp::Ge => ">=",
        BinaryOp::Le => "<=",
        BinaryOp::MatMul => "@",
    }
}

fn format_expressions(items: &Vec<Expression>) -> (v: Vec<String>)
    ensures
        string_views(v@) == fexprs(exprs_view(items@)),
    decreases items,
{
    let mut out: Vec<String> = Vec::new();
    let mut i: usize = 0;
    proof { lemma_exprs_view(items@); }
    while i < items.len()
        invariant
            0 <= i <= items.len(),
            exprs_view(items@).len() == items.len(),
            forall|j: int| 0 <= j < items.len() ==> #[trigger] exprs_view(items@)[j] == expr_view(items@[j]),
            string_views(out@) == fexprs(exprs_view(items@).subrange(0, i as int)),
        decreases items.len() - i,
    {
        proof {
            assert(decreases_to!(items => items@));
            assert(decreases_to!(items@ => items@[i as int]));
        }
        let piece = format_expression(&items[i], 0, true);
        push_text(&mut out, piece);
        proof {
            let sv = exprs_view(items@);
            assert(sv.subrange(0, i + 1).subrange(0, i as int) =~= sv.subrange(0, i as int));
        }
        i = i + 1;
    }
    assert(exprs_view(items@).subrange(0, i as int) =~= exprs_view(items@));
    out
}

fn format_pairs(pairs: &Vec<(Expression, Expression)>) -> (v: Vec<String>)
    ensures
        string_views(v@) == fpairs(pairs_view(pairs@)),
    decreases pairs,
{
    let mut out: Vec<String> = Vec::new();
    let mut i: usize = 0;
    proof { lemma_pairs_view(pairs@); }
    while i < pairs.len()
        invariant
            0 <= i <= pairs.len(),
            pairs_view(pairs@).len() == pairs.len(),
            forall|j: int| 0 <= j < pairs.len() ==> #[trigger] pairs_view(pairs@)[j] == (expr_view(pairs@[j].0), expr_view(pairs@[j].1)),
            string_views(out@) == fpairs(pairs_view(pairs@).subrange(0, i as int)),
        decreases pairs.len() - i,
    {
        proof {
            assert(decreases_to!(pairs => pairs@));
            assert(decreases_to!(pairs@ => pairs@[i as int]));
            assert(decreases_to!(pairs@[i as int] => pairs@[i as int].0));
            assert(decreases_to!(pairs@[i as int] => pairs@[i as int].1));
        }
        let mut piece = format_expression(&pairs[i].0, 0, true);
        push_str(&mut piece, ": ");
        let v = format_expression(&pairs[i].1, 0, true);
        push_str(&mut piece, v.as_str());
        push_text(&mut out, piece);
        proof {
            let sv = pairs_view(pairs@);
            assert(sv.subrange(0, i + 1).subrange(0, i as int) =~= sv.subrange(0, i as int));
        }
        i = i + 1;
    }
    assert(pairs_view(pairs@).subrange(0, i as int) =~= pairs_view(pairs@));
    out
}

/// An expression in a context of binding strength `parent` (see `fexpr`).
fn format_expression(e: &Expression, parent: u8, open: bool) -> (out: String)
    requires
        parent <= 12,
    ensures
        out@ == fexpr(e@, parent as int, open),
    decreases e,
{
    let p = expression_precedence(e);
    let greedy = matches!(e, Expression::Move(_) | Expression::SharedRef(_) | Expression::UniqueRef(_) | Expression::Lambda { .. });
    let w = p < parent || (greedy && !open);
    let o = w || open;
    let rendered = match e {
        Expression::Literal(Literal::Int(i)) => int_to_text(*i),
        Expression::Literal(Literal::Float(f)) => {
            let mut s = f.clone();
            let v = chars_of(f.as_str());
            let mut has_point = false;
            let mut k: usize = 0;
            while k < v.len()
                invariant
                    0 <= k <= v.len(),
                    v@ == f@,
                    has_point == exists|j: int| 0 <= j < k && v@[j] == '.',
                decreases v.len() - k,
            {
                if v[k] == '.' {
                    has_point = true;
                }
                k = k + 1;
            }
            if !has_point {
                push_str(&mut s, ".0");
            }
            s
        },
        Expression::Literal(Literal::String(s)) => {
            let mut out = "\"".to_owned();
            push_str(&mut out, s.as_str());
            push_str(&mut out, "\"");
            out
        },
        Expression::Literal(Literal::List(items)) => {
            let parts = format_expressions(items);
            let mut out = String::new();
            push_list(&mut out, "[", &parts, "]");
            out
        },
        Expression::Literal(Literal::Dict(pairs)) => {
            let parts = format_pairs(pairs);
            let mut out = String::new();
            push_list(&mut out, "{", &parts, "}");
            out
        },
        Expression::Literal(Literal::SetLiteral(items)) => {
            let parts = format_expressions(items);
            let mut out = String::new();
            push_list(&mut out, "{", &parts, "}");
            out
        },
        Expression::Ident(n) => n.clone(),
        Expression::BinaryOp(l, op, r) => {
            let assign = *op == BinaryOp::Assign;
            let mut out = format_expression(l, if assign { p + 1 } else { p }, false);
            push_str(&mut out, " ");
            push_str(&mut out, binary_op_text(*op));
            push_str(&mut out, " ");
            let rs = format_expression(r, if assign { p } else { p + 1 }, o);
            push_str(&mut out, rs.as_str());
            out
        },
        Expression::Call(f, args) => {
            let mut out = format_expression(f, p, false);
            let parts = format_expressions(args);
            push_list(&mut out, "(", &parts, ")");
            out
        },
        Expression::GenericCall(f, tys, args) => {
            let mut out = format_expression(f, p, false);
            let tparts = format_types(tys);
            push_list(&mut out, "[", &tparts, "](");
            let parts = format_expressions(args);
            let joined = join_strings(&parts, ", ");
            push_str(&mut out, joined.as_str());
            push_str(&mut out, ")");
            out
        },
        Expression::MacroCall(n, args) => {
            let mut out = "$".to_owned();
            push_str(&mut out, n.as_str());
            let parts = format_expressions(args);
            push_list(&mut out, "(", &parts, ")");
            out
        },
        Expression::MemberAccess(b, m) => {
            let mut out = format_expression(b, p, false);
            push_str(&mut out, ".");
            push_str(&mut out, m.as_str());
            out
        },
        Expression::Move(b) => {
            let mut out = "move ".to_owned();
            let inner = format_expression(b, p, o);
            push_str(&mut out, inner.as_str());
            out
        },
        Expression::SharedRef(b) => {
            let mut out = "&".to_owned();
            let inner = format_expression(b, p, o);
            push_str(&mut out, inner.as_str());
            out
        },
        Expression::UniqueRef(b) => {
            let mut out = "~".to_owned();
            let inner = format_expression(b, p, o);
            push_str(&mut out, inner.as_str());
            out
        },
        Expression::Not(b) => {
            let mut out = "not ".to_owned();
            let inner = format_expression(b, p, o);
            push_str(&mut out, inner.as_str());
            out
        },
        Expression::Question(b) => {
            let mut out = format_expression(b, p, false);
            push_str(&mut out, "?");
            out
        },
        Expression::Unwrap(b) => {
            let mut out = format_expression(b, p, false);
            push_str(&mut out, "!!");
            out
        },
        Expression::Index(b, i) => {
            let mut out = format_expression(b, p, false);
            push_str(&mut out, "[");
            let idx = format_expression(i, 0, true);
            push_str(&mut out, idx.as_str());
            push_str(&mut out, "]");
            out
        },
        Expression::Tuple(items) => {
            let parts = format_expressions(items);
            proof { lemma_exprs_view(items@); }
            let mut out = "(".to_owned();
            let joined = join_strings(&parts, ", ");
            push_str(&mut out, joined.as_str());
            if items.len() == 1 {
                push_str(&mut out, ",");
            }
            push_str(&mut out, ")");
            proof { reveal_strlit(""); }
            out
        },
        Expression::Range(a, b) => {
            let mut out = format_expression(a, p + 1, false);
            push_str(&mut out, "..");
            let bs = format_expression(b, p + 1, o);
            push_str(&mut out, bs.as_str());
            out
        },
        Expression::RangeInclusive(a, b) => {
            let mut out = format_expression(a, p + 1, false);
            push_str(&mut out, "..=");
            let bs = format_expression(b, p + 1, o);
            push_str(&mut out, bs.as_str());
            out
        },
        Expression::Lambda { params, body } => {
            let parts = format_params(params);
            let mut out = String::new();
            push_list(&mut out, "|", &parts, "| ");
            let b = format_expression(body, 0, o);
            push_str(&mut out, b.as_str());
            out
        },
    };
    if w {
        let mut wrapped = "(".to_owned();
        push_str(&mut wrapped, rendered.as_str());
        push_str(&mut wrapped, ")");
        wrapped
    } else {
        rendered
    }
}

fn indent_more(ind: &String) -> (r: String)
    ensures
        r@ == ind@ + "    "@,
{
    let mut r = ind.clone();
    push_str(&mut r, "    ");
    r
}

fn format_items(items: &Vec<ImportItem>) -> (v: Vec<String>)
    ensures
        string_views(v@) == items@.map_values(|i: ImportItem| import_view(i)).map_values(|i: SImport| item_text(i)),
{
    let ghost want = items@.map_values(|i: ImportItem| import_view(i)).map_values(|i: SImport| item_text(i));
    let mut out: Vec<String> = Vec::new();
    let mut i: usize = 0;
    while i < items.len()
        invariant
            0 <= i <= items.len(),
            want == items@.map_values(|i: ImportItem| import_view(i)).map_values(|i: SImport| item_text(i)),
            string_views(out@) == want.take(i as int),
        decreases items.len() - i,
    {
        let piece = crate::imports::import_item_text(&items[i]);
        push_text(&mut out, piece);
        assert(want.take(i + 1) =~= want.take(i as int).push(piece@));
        i = i + 1;
    }
    assert(want.take(i as int) =~= want);
    out
}

/// A block of statements at indentation `ind` (see `fstmts`).
fn format_block(stmts: &Vec<Statement>, ind: &String) -> (r: String)
    ensures
        r@ == fstmts(stmts_view(stmts@), ind@),
    decreases stmts,
{
    let ghost sv = stmts_view(stmts@);
    let mut out = String::new();
    let mut i: usize = 0;
    proof { lemma_stmts_view(stmts@); }
    while i < stmts.len()
        invariant
            0 <= i <= stmts.len(),
            sv == stmts_view(stmts@),
            sv.len() == stmts.len(),
            forall|j: int| 0 <= j < stmts.len() ==> #[trigger] sv[j] == stmt_view(stmts@[j]),
            out@ == fstmts(sv.subrange(0, i as int), ind@),
        decreases stmts.len() - i,
    {
        proof {
            assert(decreases_to!(stmts => stmts@));
            assert(decreases_to!(stmts@ => stmts@[i as int]));
            assert(sv.subrange(0, i + 1).subrange(0, i as int) =~= sv.subrange(0, i as int));
        }
        let piece = format_statement(&stmts[i], ind);
        push_str(&mut out, piece.as_str());
        i = i + 1;
    }
    assert(sv.subrange(0, i as int) =~= sv);
    out
}

/// Match arms at indentation `ind` (see `farms`).
fn format_arms(arms: &Vec<(Expression, Vec<Statement>)>, ind: &String) -> (r: String)
    ensures
        r@ == farms(arms_view(arms@), ind@),
    decreases arms,
{
    let ghost av = arms_view(arms@);
    let inner = indent_more(ind);
    let mut out = String::new();
    let mut i: usize = 0;
    proof { lemma_arms_view(arms@); }
    while i < arms.len()
        invariant
            0 <= i <= arms.len(),
            av == arms_view(arms@),
            av.len() == arms.len(),
            inner@ == ind@ + "    "@,
            forall|j: int| 0 <= j < arms.len() ==> #[trigger] av[j] == (expr_view(arms@[j].0), stmts_view(arms@[j].1@)),
            out@ == farms(av.subrange(0, i as int), ind@),
        decreases arms.len() - i,
    {
        proof {
            assert(decreases_to!(arms => arms@));
            assert(decreases_to!(arms@ => arms@[i as int]));
            assert(decreases_to!(arms@[i as int] => arms@[i as int].1));
            assert(av.subrange(0, i + 1).subrange(0, i as int) =~= av.subrange(0, i as int));
        }
        push_str(&mut out, ind.as_str());
        let pat = format_expression(&arms[i].0, 0, true);
        push_str(&mut out, pat.as_str());
        push_str(&mut out, ":\n");
        let body = format_block(&arms[i].1, &inner);
        push_str(&mut out, body.as_str());
        i = i + 1;
    }
    assert(av.subrange(0, i as int) =~= av);
    out
}

fn format_type_suffix(ty: &Option<Type>) -> (r: String)
    ensures
        r@ == type_suffix(match *ty {
            Some(t) => Some(type_view(t)),
            None => None,
        }),
{
    match ty {
        Some(t) => {
            let mut out = ": ".to_owned();
            let ts = format_type(t);
            push_str(&mut out, ts.as_str());
            out
        },
        None => "".to_owned(),
    }
}

/// One statement at indentation `ind` (see `fstmt`).
#[verifier::rlimit(60)]
fn format_statement(st: &Statement, ind: &String) -> (r: String)
    ensures
        r@ == fstmt(st@, ind@),
    decreases st,
{
    let inner = indent_more(ind);
    match &st.kind {
        StatementKind::Import { path, alias } => {
            let mut out = ind.clone();
            push_str(&mut out, "import \"");
            push_str(&mut out, path.as_str());
            push_str(&mut out, "\"");
            match alias {
                Some(a) => {
                    push_str(&mut out, " as ");
                    push_str(&mut out, a.as_str());
                },
                None => {
                    push_str(&mut out, "");
                },
            }
            push_str(&mut out, "\n");
            out
        },
        StatementKind::FromImport { path, items } => {
            let mut out = ind.clone();
            push_str(&mut out, "from \"");
            push_str(&mut out, path.as_str());
            push_str(&mut out, "\" import ");
            let parts = format_items(items);
            let joined = join_strings(&parts, ", ");
            push_str(&mut out, joined.as_str());
            push_str(&mut out, "\n");
            out
        },
        StatementKind::Let { pattern, ty, value } | StatementKind::Mut { pattern, ty, value } => {
            let mut out = ind.clone();
            push_str(&mut out, if matches!(st.kind, StatementKind::Mut { .. }) { "mut " } else { "let " });
            let p = pattern.format_desert();
            push_str(&mut out, p.as_str());
            let t = format_type_suffix(ty);
            push_str(&mut out, t.as_str());
            push_str(&mut out, " = ");
            let v = format_expression(value, 0, true);
            push_str(&mut out, v.as_str());
            push_str(&mut out, "\n");
            out
        },
        StatementKind::Def { name, params, return_ty, body } => {
            let mut out = ind.clone();
            push_str(&mut out, "def ");
            push_str(&mut out, name.as_str());
            let ps = format_params(params);
            push_list(&mut out, "(", &ps, ")");
            match return_ty {
                Some(t) => {
                    push_str(&mut out, " -> ");
                    let ts = format_type(t);
                    push_str(&mut out, ts.as_str());
                },
                None => {
                    push_str(&mut out, "");
                },
            }
            push_str(&mut out, ":\n");
            let b = format_block(body, &inner);
            push_str(&mut out, b.as_str());
            out
        },
        StatementKind::If { condition, then_block, else_block } => {
            let mut out = ind.clone();
            push_str(&mut out, "if ");
            let c = format_expression(condition, 0, true);
            push_str(&mut out, c.as_str());
            push_str(&mut out, ":\n");
            let t = format_block(then_block, &inner);
            push_str(&mut out, t.as_str());
            match else_block {
                Some(eb) => {
                    push_str(&mut out, ind.as_str());
                    push_str(&mut out, "else:\n");
                    let e = format_block(eb, &inner);
                    push_str(&mut out, e.as_str());
                },
                None => {
                    push_str(&mut out, "");
                },
            }
            out
        },
        StatementKind::For { pattern, iterable, body } => {
            let mut out = ind.clone();
            push_str(&mut out, "for ");
            let p = pattern.format_desert();
            push_str(&mut out, p.as_str());
            push_str(&mut out, " in ");
            let it = format_expression(iterable, 0, true);
            push_str(&mut out, it.as_str());
            push_str(&mut out, ":\n");
            let b = format_block(body, &inner);
            push_str(&mut out, b.as_str());
            out
        },
        StatementKind::While { condition, body } => {
            let mut out = ind.clone();
            push_str(&mut out, "while ");
            let c = format_expression(condition, 0, true);
            push_str(&mut out, c.as_str());
            push_str(&mut out, ":\n");
            let b = format_block(body, &inner);
            push_str(&mut out, b.as_str());
            out
        },
        StatementKind::Struct { name, fields } => {
            let mut out = ind.clone();
            push_str(&mut out, "struct ");
            push_str(&mut out, name.as_str());
            push_str(&mut out, ":\n");
            let ghost head = out@;
            let ghost ft = params_view(fields@).map_values(|f: SParam| field_text(ind@, f));
            let mut k: usize = 0;
            while k < fields.len()
                invariant
                    0 <= k <= fields.len(),
                    ft == params_view(fields@).map_values(|f: SParam| field_text(ind@, f)),
                    out@ == head + concat(ft.take(k as int)),
                decreases fields.len() - k,
            {
                let f = &fields[k];
                let ghost o0 = out@;
                push_str(&mut out, ind.as_str());
                push_str(&mut out, "    ");
                push_str(&mut out, f.name.as_str());
                push_str(&mut out, ": ");
                let ts = match &f.ty {
                    Some(t) => format_type(t),
                    None => "()".to_owned(),
                };
                push_str(&mut out, ts.as_str());
                push_str(&mut out, "\n");
                proof {
                    assert(params_view(fields@)[k as int] == param_view(fields@[k as int]));
                    assert(ft.take(k + 1).drop_last() =~= ft.take(k as int));
                    assert(out@ =~= o0 + ft[k as int]);
                }
                k = k + 1;
            }
            assert(ft.take(k as int) =~= ft);
            out
        },
        StatementKind::Enum { name, variants } => {
            let mut out = ind.clone();
            push_str(&mut out, "enum ");
            push_str(&mut out, name.as_str());
            push_str(&mut out, ":\n");
            let ghost head = out@;
            let ghost vt = variants@.map_values(|v: EnumVariant| variant_view(v)).map_values(|v: SVariant| variant_text(ind@, v));
            let mut k: usize = 0;
            while k < variants.len()
                invariant
                    0 <= k <= variants.len(),
                    vt == variants@.map_values(|v: EnumVariant| variant_view(v)).map_values(|v: SVariant| variant_text(ind@, v)),
                    out@ == head + concat(vt.take(k as int)),
                decreases variants.len() - k,
            {
                let v = &variants[k];
                let ghost o0 = out@;
                push_str(&mut out, ind.as_str());
                push_str(&mut out, "    ");
                push_str(&mut out, v.name.as_str());
                if v.fields.len() > 0 {
                    let parts = format_types(&v.fields);
                    push_list(&mut out, "(", &parts, ")");
                } else {
                    push_str(&mut out, "");
                }
                push_str(&mut out, "\n");
                proof {
                    lemma_types_view(v.fields@);
                    assert(vt[k as int] == variant_text(ind@, variant_view(variants@[k as int])));
                    assert(vt.take(k + 1).drop_last() =~= vt.take(k as int));
                    assert(out@ =~= o0 + vt[k as int]);
                }
                k = k + 1;
            }
            assert(vt.take(k as int) =~= vt);
            out
        },
        StatementKind::Protocol { name, methods } => {
            let mut out = ind.clone();
            push_str(&mut out, "protocol ");
            push_str(&mut out, name.as_str());
            push_str(&mut out, ":\n");
            let b = format_block(methods, &inner);
            push_str(&mut out, b.as_str());
            out
        },
        StatementKind::Impl { protocol, for_type, methods } => {
            let mut out = ind.clone();
            push_str(&mut out, "impl ");
            match protocol {
                Some(p) => {
                    push_str(&mut out, p.as_str());
                    push_str(&mut out, " for ");
                },
                None => {
                    push_str(&mut out, "");
                },
            }
            push_str(&mut out, for_type.as_str());
            push_str(&mut out, ":\n");
            let b = format_block(methods, &inner);
            push_str(&mut out, b.as_str());
            out
        },
        StatementKind::Match { expression, arms } => {
            let mut out = ind.clone();
            push_str(&mut out, "match ");
            let e = format_expression(expression, 0, true);
            push_str(&mut out, e.as_str());
            push_str(&mut out, ":\n");
            let a = format_arms(arms, &inner);
            push_str(&mut out, a.as_str());
            out
        },
        StatementKind::PyImport(content) => {
            let mut out = ind.clone();
            push_str(&mut out, "pyimport:\n");
            push_str(&mut out, inner.as_str());
            let v = chars_of(content.as_str());
            let t = crate::transpiler::trim_range(&v, 0, v.len());
            assert(v@.subrange(0, v.len() as int) =~= content@);
            push_str(&mut out, t.as_str());
            push_str(&mut out, "\n");
            out
        },
        StatementKind::Return(Some(e)) => {
            let mut out = ind.clone();
            push_str(&mut out, "return ");
            let es = format_expression(e, 0, true);
            push_str(&mut out, es.as_str());
            push_str(&mut out, "\n");
            out
        },
        StatementKind::Return(None) => {
            let mut out = ind.clone();
            push_str(&mut out, "return\n");
            out
        },
        StatementKind::Break => {
            let mut out = ind.clone();
            push_str(&mut out, "break\n");
            out
        },
        StatementKind::Continue => {
            let mut out = ind.clone();
            push_str(&mut out, "continue\n");
            out
        },
        StatementKind::Expr(e) => {
            let mut out = ind.clone();
            let es = format_expression(e, 0, true);
            push_str(&mut out, es.as_str());
            push_str(&mut out, "\n");
            out
        },
    }
}

/// The canonical Desert text of a program (see `fstmts`).
pub fn format_program(program: &Program) -> (r: String)
    ensures
        r@ == fstmts(program@, ""@),
{
    let ind = String::new();
    proof {
        reveal_strlit("");
        assert(ind@ =~= ""@);
    }
    format_block(&program.statements, &ind)
}

} // verus!
