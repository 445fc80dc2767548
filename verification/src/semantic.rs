//! Semantic checks run before lowering: declarations, scopes, mutability,
//! calls, constructors, imports, and protocol implementations. The first
//! violation found is reported with the offset of the statement it is in.
use vstd::prelude::*;
use crate::ast::{
    BinaryOp, EnumVariant, Expression, ImportItem, Literal, Param, Pattern, Program, SExpr, SImport,
    SKind, SLit, SParam, SPattern, SStmt, SType, SVariant, Statement, StatementKind, Type,
    arms_view, expr_view, exprs_view, import_view, lemma_arms_view, lemma_exprs_view,
    lemma_pairs_view, lemma_stmts_view, lemma_types_view, opt_str_view, seq_str_views, opt_type_view, pairs_view, param_view, params_view,
    pattern_names, pattern_view, stmt_view, stmts_view, type_view, types_view, variant_view,
};
use crate::imports::{
    use_root, is_supported_rust_root, root_of, rust_import_binding_name, rust_use_from_import,
    rust_use_from_import_path, spec_binding_name, spec_supported_root, spec_use_path, with_alias,
};
use crate::resolver::{builtin_type, builtin_value, is_builtin_type, is_builtin_value};
use crate::report::{byte_line_col, line_col_at_byte};
use crate::text::{chars_of, digits, join, join_strings, nat_to_text, push_char, push_str, string_views, text_eq};

verus! {

/// What a binding allows: assignment to the name itself, writes through
/// it (`obj.f = ..`, `items[i] = ..`), and, for a `def`, its arity.
#[derive(Clone, Copy)]
pub struct BindingInfo {
    pub is_mut: bool,
    pub can_write_through: bool,
    pub callable_arity: Option<usize>,
}

/// Value scopes, innermost last; within a scope a later binding of a name
/// replaces an earlier one.
pub type Scopes = Seq<Seq<(Seq<char>, BindingInfo)>>;

/// A rejected program: the byte offset to report and the message.
pub type SErr = (int, Seq<char>);

/// A method signature: each parameter's mutability and type, and the
/// return type.
pub struct SSig {
    pub params: Seq<(bool, Option<SType>)>,
    pub ret: Option<SType>,
}

/// What validation knows of the program's top level: struct and enum
/// names, each protocol with its method names in order and their
/// signatures, and each struct's field names.
pub struct VCtx {
    pub structs: Seq<Seq<char>>,
    pub enums: Seq<Seq<char>>,
    pub protocols: Seq<(Seq<char>, (Seq<Seq<char>>, Seq<(Seq<char>, SSig)>))>,
    pub fields: Seq<(Seq<char>, Seq<Seq<char>>)>,
}

/// The binding of `n` in one scope: its last entry.
pub open spec fn scope_get(s: Seq<(Seq<char>, BindingInfo)>, n: Seq<char>) -> Option<BindingInfo>
    decreases s.len(),
{
    if s.len() == 0 {
        None
    } else if s.last().0 == n {
        Some(s.last().1)
    } else {
        scope_get(s.drop_last(), n)
    }
}

/// The binding of `n` in the innermost scope that has one.
pub open spec fn lookup(sc: Scopes, n: Seq<char>) -> Option<BindingInfo>
    decreases sc.len(),
{
    if sc.len() == 0 {
        None
    } else {
        match scope_get(sc.last(), n) {
            Some(b) => Some(b),
            None => lookup(sc.drop_last(), n),
        }
    }
}

pub open spec fn in_current(sc: Scopes, n: Seq<char>) -> bool {
    sc.len() > 0 && scope_get(sc.last(), n) is Some
}

pub open spec fn bind(sc: Scopes, n: Seq<char>, b: BindingInfo) -> Scopes {
    if sc.len() == 0 { sc } else { sc.update(sc.len() - 1, sc.last().push((n, b))) }
}

pub open spec fn plain() -> BindingInfo {
    BindingInfo { is_mut: false, can_write_through: false, callable_arity: None }
}

/// Whether an identifier names something: a binding, a declared struct or
/// enum, or a built-in type or value.
pub open spec fn resolvable(c: VCtx, sc: Scopes, n: Seq<char>) -> bool {
    lookup(sc, n) is Some || c.structs.contains(n) || c.enums.contains(n) || builtin_type(n) || builtin_value(n)
}

/// The last entry for `n` in an association list.
pub open spec fn assoc<V>(s: Seq<(Seq<char>, V)>, n: Seq<char>) -> Option<V>
    decreases s.len(),
{
    if s.len() == 0 {
        None
    } else if s.last().0 == n {
        Some(s.last().1)
    } else {
        assoc(s.drop_last(), n)
    }
}

pub open spec fn is_place(e: SExpr) -> bool
    decreases e,
{
    match e {
        SExpr::Ident(_) => true,
        SExpr::Member(b, _) => is_place(*b),
        SExpr::Index(b, _) => is_place(*b),
        _ => false,
    }
}

pub open spec fn place_root(e: SExpr) -> Option<Seq<char>>
    decreases e,
{
    match e {
        SExpr::Ident(n) => Some(n),
        SExpr::Member(b, _) => place_root(*b),
        SExpr::Index(b, _) => place_root(*b),
        _ => None,
    }
}

pub open spec fn bt() -> Seq<char> {
    "`"@
}

/// `` `op` expects a mutable place ``, and the other rejections of `move`
/// and `~` operands.
pub open spec fn mutable_binding_check(e: SExpr, sc: Scopes, op: Seq<char>, off: int) -> Result<(), SErr> {
    if !is_place(e) {
        Err((off, bt() + op + "` expects a mutable place expression (`x`, `obj.field`, or `items[i]`)"@))
    } else {
        match place_root(e) {
            Some(root) => match lookup(sc, root) {
                None => Err((off, bt() + op + "` requires declared binding `"@ + root + bt())),
                Some(b) => {
                    let can = if e is Ident { b.is_mut } else { b.can_write_through };
                    if can {
                        Ok(())
                    } else if e is Ident {
                        Err((off, bt() + op + "` requires mutable binding `"@ + root + "` (declare with `mut` first)"@))
                    } else {
                        Err((off, bt() + op + "` through `"@ + root + "` requires mutable root binding or a unique reference (`~`)"@))
                    }
                },
            },
            None => Err((off, bt() + op + "` requires a mutable local binding"@)),
        }
    }
}

pub open spec fn place_message() -> Seq<char> {
    "assignment expects a place expression on the left side (`x`, `obj.field`, or `items[i]`)"@
}

/// The names a match pattern binds: its identifiers that resolve to
/// nothing, each once, in order of first appearance.
pub open spec fn pattern_binders(c: VCtx, sc: Scopes, e: SExpr, acc: Seq<Seq<char>>) -> Seq<Seq<char>>
    decreases e,
{
    match e {
        SExpr::Ident(n) => if !resolvable(c, sc, n) && !acc.contains(n) { acc.push(n) } else { acc },
        SExpr::Bin(l, _, r) => pattern_binders(c, sc, *r, pattern_binders(c, sc, *l, acc)),
        SExpr::Call(f, args) => binders_list(c, sc, args, pattern_binders(c, sc, *f, acc)),
        SExpr::GenericCall(f, _, args) => binders_list(c, sc, args, pattern_binders(c, sc, *f, acc)),
        SExpr::Macro(_, args) => binders_list(c, sc, args, acc),
        SExpr::Lit(SLit::List(items)) => binders_list(c, sc, items, acc),
        SExpr::Tuple(items) => binders_list(c, sc, items, acc),
        SExpr::Member(b, _) => pattern_binders(c, sc, *b, acc),
        SExpr::Move(b) => pattern_binders(c, sc, *b, acc),
        SExpr::SharedRef(b) => pattern_binders(c, sc, *b, acc),
        SExpr::UniqueRef(b) => pattern_binders(c, sc, *b, acc),
        SExpr::Question(b) => pattern_binders(c, sc, *b, acc),
        SExpr::Unwrap(b) => pattern_binders(c, sc, *b, acc),
        SExpr::Not(b) => pattern_binders(c, sc, *b, acc),
        SExpr::Index(b, i) => pattern_binders(c, sc, *i, pattern_binders(c, sc, *b, acc)),
        SExpr::Range(a, b) => pattern_binders(c, sc, *b, pattern_binders(c, sc, *a, acc)),
        SExpr::RangeInclusive(a, b) => pattern_binders(c, sc, *b, pattern_binders(c, sc, *a, acc)),
        _ => acc,
    }
}

pub open spec fn binders_list(c: VCtx, sc: Scopes, s: Seq<SExpr>, acc: Seq<Seq<char>>) -> Seq<Seq<char>>
    decreases s,
{
    if s.len() == 0 {
        acc
    } else {
        pattern_binders(c, sc, s[s.len() - 1], binders_list(c, sc, s.subrange(0, s.len() - 1), acc))
    }
}

/// A call of a declared `def` by name must pass its number of arguments.
pub open spec fn arity_check(f: SExpr, n: int, off: int, sc: Scopes) -> Result<(), SErr> {
    match f {
        SExpr::Ident(name) => match lookup(sc, name) {
            Some(b) => match b.callable_arity {
                Some(k) => if k == n {
                    Ok(())
                } else {
                    Err((off, "call to `"@ + name + "` expects "@ + digits(k as nat) + " argument(s), found "@ + digits(n as nat)))
                },
                None => Ok(()),
            },
            None => Ok(()),
        },
        _ => Ok(()),
    }
}

/// The bindings a parameter list introduces.
pub open spec fn param_binding(p: SParam) -> (Seq<char>, BindingInfo) {
    (p.name, BindingInfo {
        is_mut: p.is_mut,
        can_write_through: p.is_mut || (p.ty matches Some(t) && t is UniqueRef),
        callable_arity: None,
    })
}

pub open spec fn param_bindings(ps: Seq<SParam>) -> Seq<(Seq<char>, BindingInfo)> {
    ps.map_values(|p: SParam| param_binding(p))
}

pub open spec fn sv_expr(c: VCtx, e: SExpr, off: int, sc: Scopes) -> Result<(), SErr>
    decreases e, 0int,
{
    match e {
        SExpr::Bin(l, op, r) => if op == BinaryOp::Assign {
            match sv_target(c, *l, off, sc) {
                Err(x) => Err(x),
                Ok(_) => sv_expr(c, *r, off, sc),
            }
        } else {
            match sv_expr(c, *l, off, sc) {
                Err(x) => Err(x),
                Ok(_) => sv_expr(c, *r, off, sc),
            }
        },
        SExpr::Call(f, args) => match sv_expr(c, *f, off, sc) {
            Err(x) => Err(x),
            Ok(_) => match *f {
                SExpr::Ident(n) => match assoc(c.fields, n) {
                    Some(fs) => sv_ctor(c, n, fs, args, off, sc),
                    None => match arity_check(*f, args.len() as int, off, sc) {
                        Err(x) => Err(x),
                        Ok(_) => sv_exprs(c, args, off, sc),
                    },
                },
                _ => sv_exprs(c, args, off, sc),
            },
        },
        SExpr::GenericCall(f, _, args) => match sv_expr(c, *f, off, sc) {
            Err(x) => Err(x),
            Ok(_) => match arity_check(*f, args.len() as int, off, sc) {
                Err(x) => Err(x),
                Ok(_) => sv_exprs(c, args, off, sc),
            },
        },
        SExpr::Macro(_, args) => sv_exprs(c, args, off, sc),
        SExpr::Lit(SLit::List(items)) => sv_exprs(c, items, off, sc),
        SExpr::Lit(SLit::SetOf(items)) => sv_exprs(c, items, off, sc),
        SExpr::Lit(SLit::Dict(pairs)) => sv_pairs(c, pairs, off, sc),
        SExpr::Lit(_) => Ok(()),
        SExpr::Tuple(items) => sv_exprs(c, items, off, sc),
        SExpr::Move(b) => match mutable_binding_check(*b, sc, "move"@, off) {
            Err(x) => Err(x),
            Ok(_) => sv_expr(c, *b, off, sc),
        },
        SExpr::UniqueRef(b) => match mutable_binding_check(*b, sc, "~"@, off) {
            Err(x) => Err(x),
            Ok(_) => sv_expr(c, *b, off, sc),
        },
        SExpr::Member(b, _) => sv_expr(c, *b, off, sc),
        SExpr::SharedRef(b) => sv_expr(c, *b, off, sc),
        SExpr::Question(b) => sv_expr(c, *b, off, sc),
        SExpr::Unwrap(b) => sv_expr(c, *b, off, sc),
        SExpr::Not(b) => sv_expr(c, *b, off, sc),
        SExpr::Index(b, i) => match sv_expr(c, *b, off, sc) {
            Err(x) => Err(x),
            Ok(_) => sv_expr(c, *i, off, sc),
        },
        SExpr::Range(a, b) => match sv_expr(c, *a, off, sc) {
            Err(x) => Err(x),
            Ok(_) => sv_expr(c, *b, off, sc),
        },
        SExpr::RangeInclusive(a, b) => match sv_expr(c, *a, off, sc) {
            Err(x) => Err(x),
            Ok(_) => sv_expr(c, *b, off, sc),
        },
        SExpr::Ident(n) => if resolvable(c, sc, n) { Ok(()) } else { Err((off, "unknown identifier `"@ + n + bt())) },
        SExpr::Lambda(params, body) => sv_expr(c, *body, off, sc.push(param_bindings(params))),
    }
}

pub open spec fn sv_exprs(c: VCtx, s: Seq<SExpr>, off: int, sc: Scopes) -> Result<(), SErr>
    decreases s, 0int,
{
    if s.len() == 0 {
        Ok(())
    } else {
        match sv_exprs(c, s.subrange(0, s.len() - 1), off, sc) {
            Err(x) => Err(x),
            Ok(_) => sv_expr(c, s[s.len() - 1], off, sc),
        }
    }
}

pub open spec fn sv_pairs(c: VCtx, s: Seq<(SExpr, SExpr)>, off: int, sc: Scopes) -> Result<(), SErr>
    decreases s, 0int,
{
    if s.len() == 0 {
        Ok(())
    } else {
        let last = s[s.len() - 1];
        match sv_pairs(c, s.subrange(0, s.len() - 1), off, sc) {
            Err(x) => Err(x),
            Ok(_) => match sv_expr(c, last.0, off, sc) {
                Err(x) => Err(x),
                Ok(_) => sv_expr(c, last.1, off, sc),
            },
        }
    }
}

/// The left side of an assignment: a place whose root is bound, and
/// assignable (`mut`) or, for a member or index place, writable through.
pub open spec fn sv_target(c: VCtx, e: SExpr, off: int, sc: Scopes) -> Result<(), SErr>
    decreases e, 1int,
{
    if !is_place(e) {
        Err((off, place_message()))
    } else {
        match sv_place_sub(c, e, off, sc) {
            Err(x) => Err(x),
            Ok(_) => match place_root(e) {
                None => Err((off, "assignment requires a declared local binding on the left side"@)),
                Some(root) => match lookup(sc, root) {
                    None => Err((off, "assignment requires declared binding `"@ + root + bt())),
                    Some(b) => {
                        let can = if e is Ident { b.is_mut } else { b.can_write_through };
                        if can {
                            Ok(())
                        } else if e is Ident {
                            Err((off, "assignment requires mutable binding `"@ + root + "` (declare with `mut` first)"@))
                        } else {
                            Err((off, "assignment through `"@ + root + "` requires mutable root binding or a unique reference (`~`)"@))
                        }
                    },
                },
            },
        }
    }
}

/// The index expressions inside a place.
pub open spec fn sv_place_sub(c: VCtx, e: SExpr, off: int, sc: Scopes) -> Result<(), SErr>
    decreases e, 0int,
{
    match e {
        SExpr::Member(b, _) => sv_place_sub(c, *b, off, sc),
        SExpr::Index(b, i) => match sv_place_sub(c, *b, off, sc) {
            Err(x) => Err(x),
            Ok(_) => sv_expr(c, *i, off, sc),
        },
        SExpr::Ident(_) => Ok(()),
        _ => Err((off, place_message())),
    }
}

/// A constructor call's arguments, in order: the named fields given so far
/// and the number of positional arguments.
pub open spec fn ctor_scan(c: VCtx, name: Seq<char>, fields: Seq<Seq<char>>, args: Seq<SExpr>, off: int, sc: Scopes) -> Result<(Seq<Seq<char>>, int), SErr>
    decreases args, 0int,
{
    if args.len() == 0 {
        Ok((seq![], 0))
    } else {
        match ctor_scan(c, name, fields, args.subrange(0, args.len() - 1), off, sc) {
            Err(x) => Err(x),
            Ok((named, pos)) => {
                let a = args[args.len() - 1];
                match a {
                    SExpr::Bin(l, op, v) => if op == BinaryOp::Assign {
                        match *l {
                            SExpr::Ident(f) => if !fields.contains(f) {
                                Err((off, "constructor `"@ + name + "` has no field `"@ + f + bt()))
                            } else if named.contains(f) {
                                Err((off, "constructor `"@ + name + "` received duplicate field `"@ + f + bt()))
                            } else {
                                match sv_expr(c, *v, off, sc) {
                                    Err(x) => Err(x),
                                    Ok(_) => Ok((named.push(f), pos)),
                                }
                            },
                            _ => Err((off, "named constructor arguments must be in `field = value` form"@)),
                        }
                    } else {
                        match sv_expr(c, a, off, sc) {
                            Err(x) => Err(x),
                            Ok(_) => Ok((named, pos + 1)),
                        }
                    },
                    _ => match sv_expr(c, a, off, sc) {
                        Err(x) => Err(x),
                        Ok(_) => Ok((named, pos + 1)),
                    },
                }
            },
        }
    }
}

/// The fields a constructor leaves without a value: those neither named
/// nor reached by the positional arguments, in field order.
pub open spec fn ctor_missing(fields: Seq<Seq<char>>, named: Seq<Seq<char>>, remaining: int) -> Seq<Seq<char>>
    decreases fields.len(),
{
    if fields.len() == 0 {
        seq![]
    } else if named.contains(fields[0]) {
        ctor_missing(fields.drop_first(), named, remaining)
    } else if remaining > 0 {
        ctor_missing(fields.drop_first(), named, remaining - 1)
    } else {
        seq![fields[0]] + ctor_missing(fields.drop_first(), named, remaining)
    }
}

/// A struct constructor call `Name(..)`.
pub open spec fn sv_ctor(c: VCtx, name: Seq<char>, fields: Seq<Seq<char>>, args: Seq<SExpr>, off: int, sc: Scopes) -> Result<(), SErr>
    decreases args, 1int,
{
    match ctor_scan(c, name, fields, args, off, sc) {
        Err(x) => Err(x),
        Ok((named, pos)) => {
            let avail = if fields.len() >= named.len() { fields.len() - named.len() } else { 0 };
            if pos > avail {
                Err((off, "constructor `"@ + name + "` received too many positional arguments"@))
            } else {
                let missing = ctor_missing(fields, named, pos);
                if missing.len() > 0 {
                    Err((off, "constructor `"@ + name + "` is missing fields: "@ + join(missing, ", "@)))
                } else {
                    Ok(())
                }
            }
        },
    }
}

// ---------------------------------------------------------------------------
// Declarations and signatures.
// ---------------------------------------------------------------------------

pub open spec fn start(st: SStmt) -> int {
    st.start as int
}

pub open spec fn max_off(a: int, b: int) -> int {
    if a >= b { a } else { b }
}

/// A name as `{:?}` writes it: quoted, with quotes, backslashes and
/// line-break and tab characters escaped.
pub open spec fn debug_str(s: Seq<char>) -> Seq<char> {
    "\""@ + debug_escape(s) + "\""@
}

pub open spec fn debug_escape(s: Seq<char>) -> Seq<char>
    decreases s.len(),
{
    if s.len() == 0 {
        seq![]
    } else {
        let c = s.last();
        debug_escape(s.drop_last()) + if c == '\\' {
            "\\\\"@
        } else if c == '"' {
            "\\\""@
        } else if c == '\n' {
            "\\n"@
        } else if c == '\r' {
            "\\r"@
        } else if c == '\t' {
            "\\t"@
        } else {
            seq![c]
        }
    }
}

/// A type as `{:?}` writes the syntax tree of it.
pub open spec fn debug_type(t: SType) -> Seq<char>
    decreases t,
{
    match t {
        SType::Simple(n) => "Simple("@ + debug_str(n) + ")"@,
        SType::Generic(n, args) => "Generic("@ + debug_str(n) + ", ["@ + join(debug_types(args), ", "@) + "])"@,
        SType::Tuple(items) => "Tuple(["@ + join(debug_types(items), ", "@) + "])"@,
        SType::SharedRef(b) => "SharedRef("@ + debug_type(*b) + ")"@,
        SType::UniqueRef(b) => "UniqueRef("@ + debug_type(*b) + ")"@,
    }
}

pub open spec fn debug_types(s: Seq<SType>) -> Seq<Seq<char>>
    decreases s,
{
    if s.len() == 0 {
        seq![]
    } else {
        debug_types(s.subrange(0, s.len() - 1)).push(debug_type(s[s.len() - 1]))
    }
}

pub open spec fn opt_type_text(o: Option<SType>) -> Seq<char> {
    match o {
        Some(t) => debug_type(t),
        None => "unspecified"@,
    }
}

pub open spec fn mut_word(m: bool) -> Seq<char> {
    if m { "mut"@ } else { "non-mut"@ }
}

pub open spec fn sig_of(st: SStmt) -> SSig {
    match st.kind {
        SKind::Def(_, params, ret, _) => SSig { params: params.map_values(|p: SParam| (p.is_mut, p.ty)), ret },
        _ => SSig { params: seq![], ret: None },
    }
}

/// The first parameter, from `i`, whose mutability or type differs.
pub open spec fn params_mismatch(e: Seq<(bool, Option<SType>)>, a: Seq<(bool, Option<SType>)>, i: int) -> Option<Seq<char>>
    decreases e.len() - i,
{
    if i < 0 || i >= e.len() || i >= a.len() {
        None
    } else if e[i].0 != a[i].0 {
        Some("parameter "@ + digits((i + 1) as nat) + " mutability mismatch (expected `"@ + mut_word(e[i].0)
            + "`, found `"@ + mut_word(a[i].0) + "`)"@)
    } else if e[i].1 != a[i].1 {
        Some("parameter "@ + digits((i + 1) as nat) + " type mismatch (expected `"@ + opt_type_text(e[i].1)
            + "`, found `"@ + opt_type_text(a[i].1) + "`)"@)
    } else {
        params_mismatch(e, a, i + 1)
    }
}

/// Why an implementation's signature does not match the protocol's.
pub open spec fn sig_mismatch(expected: SSig, actual: SSig) -> Option<Seq<char>> {
    if expected.params.len() != actual.params.len() {
        Some("expected "@ + digits(expected.params.len()) + " parameter(s), found "@ + digits(actual.params.len()))
    } else {
        match params_mismatch(expected.params, actual.params, 0) {
            Some(r) => Some(r),
            None => if expected.ret != actual.ret {
                Some("return type mismatch (expected `"@ + opt_type_text(expected.ret) + "`, found `"@
                    + opt_type_text(actual.ret) + "`)"@)
            } else {
                None
            },
        }
    }
}

/// The `def` names of a block, in order.
pub open spec fn def_names(s: Seq<SStmt>) -> Seq<Seq<char>>
    decreases s.len(),
{
    if s.len() == 0 {
        seq![]
    } else {
        let prev = def_names(s.drop_last());
        match s.last().kind {
            SKind::Def(n, _, _, _) => prev.push(n),
            _ => prev,
        }
    }
}

/// Each `def` of a block with its signature, in order.
pub open spec fn def_sigs(s: Seq<SStmt>) -> Seq<(Seq<char>, SSig)>
    decreases s.len(),
{
    if s.len() == 0 {
        seq![]
    } else {
        let prev = def_sigs(s.drop_last());
        match s.last().kind {
            SKind::Def(n, _, _, _) => prev.push((n, sig_of(s.last()))),
            _ => prev,
        }
    }
}

pub open spec fn top_names(s: Seq<SStmt>, which: int) -> Seq<Seq<char>>
    decreases s.len(),
{
    if s.len() == 0 {
        seq![]
    } else {
        let prev = top_names(s.drop_last(), which);
        match s.last().kind {
            SKind::Struct(n, _) => if which == 0 { prev.push(n) } else { prev },
            SKind::Enum(n, _) => if which == 1 { prev.push(n) } else { prev },
            _ => prev,
        }
    }
}

pub open spec fn top_protocols(s: Seq<SStmt>) -> Seq<(Seq<char>, (Seq<Seq<char>>, Seq<(Seq<char>, SSig)>))>
    decreases s.len(),
{
    if s.len() == 0 {
        seq![]
    } else {
        let prev = top_protocols(s.drop_last());
        match s.last().kind {
            SKind::Protocol(n, methods) => prev.push((n, (def_names(methods), def_sigs(methods)))),
            _ => prev,
        }
    }
}

pub open spec fn top_fields(s: Seq<SStmt>) -> Seq<(Seq<char>, Seq<Seq<char>>)>
    decreases s.len(),
{
    if s.len() == 0 {
        seq![]
    } else {
        let prev = top_fields(s.drop_last());
        match s.last().kind {
            SKind::Struct(n, fs) => prev.push((n, fs.map_values(|f: SParam| f.name))),
            _ => prev,
        }
    }
}

pub open spec fn ctx_of(prog: Seq<SStmt>) -> VCtx {
    VCtx {
        structs: top_names(prog, 0),
        enums: top_names(prog, 1),
        protocols: top_protocols(prog),
        fields: top_fields(prog),
    }
}

/// Top-level `def`, `struct` and `protocol` names are unique within their
/// kind and across kinds; `decls` records the kind each name was declared as.
pub open spec fn top_scan(s: Seq<SStmt>, i: int, seen: Seq<(Seq<char>, int)>, decls: Seq<(Seq<char>, Seq<char>)>) -> Result<(), SErr>
    decreases s.len() - i,
{
    if i < 0 || i >= s.len() {
        Ok(())
    } else {
        let st = s[i];
        let (kind_no, kind, name) = match st.kind {
            SKind::Def(n, _, _, _) => (0int, "function"@, n),
            SKind::Struct(n, _) => (1int, "struct"@, n),
            SKind::Protocol(n, _) => (2int, "protocol"@, n),
            _ => (-1int, seq![], seq![]),
        };
        if kind_no < 0 {
            top_scan(s, i + 1, seen, decls)
        } else if seen.contains((name, kind_no)) {
            Err((start(st), "duplicate top-level "@ + kind + " `"@ + name + bt()))
        } else {
            match assoc(decls, name) {
                Some(prev) => if prev != kind {
                    Err((start(st), "top-level name `"@ + name + "` is already declared as "@ + prev))
                } else {
                    top_scan(s, i + 1, seen.push((name, kind_no)), decls.push((name, kind)))
                },
                None => top_scan(s, i + 1, seen.push((name, kind_no)), decls.push((name, kind))),
            }
        }
    }
}

/// The first repeated name in `names`, from `i`, given the names before it.
pub open spec fn first_dup(names: Seq<Seq<char>>, i: int, seen: Seq<Seq<char>>) -> Option<Seq<char>>
    decreases names.len() - i,
{
    if i < 0 || i >= names.len() {
        None
    } else if seen.contains(names[i]) {
        Some(names[i])
    } else {
        first_dup(names, i + 1, seen.push(names[i]))
    }
}

/// Items of one from-import: each item named once, each local name bound
/// once.
pub open spec fn from_items_check(items: Seq<SImport>, off: int) -> Result<(), SErr> {
    match first_dup(items.map_values(|i: SImport| i.name), 0, seq![]) {
        Some(n) => Err((off, "duplicate from-import item `"@ + n + bt())),
        None => match first_dup(items.map_values(|i: SImport| local_name(i)), 0, seq![]) {
            Some(n) => Err((off, "from-import introduces duplicate local name `"@ + n + "` in one statement"@)),
            None => Ok(()),
        },
    }
}

pub open spec fn local_name(i: SImport) -> Seq<char> {
    match i.alias {
        Some(a) => a,
        None => i.name,
    }
}

/// Binds each name plainly, in order, rejecting one already in the
/// innermost scope.
pub open spec fn bind_new(sc: Scopes, names: Seq<Seq<char>>, i: int, off: int) -> Result<Scopes, SErr>
    decreases names.len() - i,
{
    if i < 0 || i >= names.len() {
        Ok(sc)
    } else if in_current(sc, names[i]) {
        Err((off, "duplicate local name `"@ + names[i] + "` in same scope"@))
    } else {
        bind_new(bind(sc, names[i], plain()), names, i + 1, off)
    }
}

/// The names a block declares before its statements run: its `def`s
/// (with their arity) and the names its Rust imports bind.
pub open spec fn spre(s: Seq<SStmt>, i: int, sc: Scopes) -> Result<Scopes, SErr>
    decreases s.len() - i,
{
    if i < 0 || i >= s.len() {
        Ok(sc)
    } else {
        let st = s[i];
        let r: Result<Scopes, SErr> = match st.kind {
            SKind::Def(n, params, _, _) => if in_current(sc, n) {
                Err((start(st), "duplicate local name `"@ + n + "` in same scope"@))
            } else {
                Ok(bind(sc, n, BindingInfo { is_mut: false, can_write_through: false, callable_arity: Some(params.len() as usize) }))
            },
            SKind::Import(path, alias) => match spec_use_path(path) {
                Some(b) => match spec_binding_name(with_alias(b, alias)) {
                    Some(n) => bind_new(sc, seq![n], 0, start(st)),
                    None => Ok(sc),
                },
                None => Ok(sc),
            },
            SKind::FromImport(path, items) => match from_items_check(items, start(st)) {
                Err(x) => Err(x),
                Ok(_) => if spec_use_path(path) is Some {
                    bind_new(sc, items.map_values(|it: SImport| local_name(it)), 0, start(st))
                } else {
                    Ok(sc)
                },
            },
            _ => Ok(sc),
        };
        match r {
            Err(x) => Err(x),
            Ok(sc1) => spre(s, i + 1, sc1),
        }
    }
}

/// Every statement of an `impl` or `protocol` body is a `def`.
pub open spec fn shapes_check(methods: Seq<SStmt>, i: int, off: int, owner: Seq<char>) -> Result<(), SErr>
    decreases methods.len() - i,
{
    if i < 0 || i >= methods.len() {
        Ok(())
    } else if !(methods[i].kind is Def) {
        Err((max_off(start(methods[i]), off), owner + " can only contain `def` method declarations"@))
    } else {
        shapes_check(methods, i + 1, off, owner)
    }
}

/// No method name repeats in an `impl` or `protocol` body.
pub open spec fn unique_methods(methods: Seq<SStmt>, i: int, seen: Seq<Seq<char>>, off: int, owner: Seq<char>) -> Result<(), SErr>
    decreases methods.len() - i,
{
    if i < 0 || i >= methods.len() {
        Ok(())
    } else {
        match methods[i].kind {
            SKind::Def(n, _, _, _) => if seen.contains(n) {
                Err((max_off(start(methods[i]), off), "duplicate method `"@ + n + "` in "@ + owner))
            } else {
                unique_methods(methods, i + 1, seen.push(n), off, owner)
            },
            _ => unique_methods(methods, i + 1, seen, off, owner),
        }
    }
}

/// The required methods that a protocol implementation does not provide.
pub open spec fn missing_methods(order: Seq<Seq<char>>, provided: Seq<Seq<char>>) -> Seq<Seq<char>>
    decreases order.len(),
{
    if order.len() == 0 {
        seq![]
    } else {
        let prev = missing_methods(order.drop_last(), provided);
        if provided.contains(order.last()) { prev } else { prev.push(order.last()) }
    }
}

pub open spec fn impl_head(p: Seq<char>, t: Seq<char>) -> Seq<char> {
    "impl for protocol `"@ + p + "` on `"@ + t + bt()
}

/// The methods of an implementation against its protocol, from `i`.
pub open spec fn impl_methods(
    order: Seq<Seq<char>>,
    sigs: Seq<(Seq<char>, SSig)>,
    methods: Seq<SStmt>,
    i: int,
    off: int,
    p: Seq<char>,
    t: Seq<char>,
) -> Result<(), SErr>
    decreases methods.len() - i,
{
    if i < 0 || i >= methods.len() {
        Ok(())
    } else {
        let m = methods[i];
        match m.kind {
            SKind::Def(n, _, _, _) => if !order.contains(n) {
                Err((max_off(start(m), off), impl_head(p, t) + " defines unknown method `"@ + n + bt()))
            } else {
                match assoc(sigs, n) {
                    Some(req) => match sig_mismatch(req, sig_of(m)) {
                        Some(reason) => Err((max_off(start(m), off), impl_head(p, t) + " has incompatible signature for method `"@ + n + "`: "@ + reason)),
                        None => impl_methods(order, sigs, methods, i + 1, off, p, t),
                    },
                    None => impl_methods(order, sigs, methods, i + 1, off, p, t),
                }
            },
            _ => impl_methods(order, sigs, methods, i + 1, off, p, t),
        }
    }
}

/// An `impl` targets a declared struct, and an implementation of a
/// protocol provides exactly its methods with matching signatures.
pub open spec fn impl_check(c: VCtx, off: int, proto: Option<Seq<char>>, t: Seq<char>, methods: Seq<SStmt>) -> Result<(), SErr> {
    if !c.structs.contains(t) {
        Err((off, "impl target `"@ + t + "` must be a declared struct"@))
    } else {
        match proto {
            None => Ok(()),
            Some(p) => match assoc(c.protocols, p) {
                None => Err((off, "impl references unknown protocol `"@ + p + bt())),
                Some((order, sigs)) => match impl_methods(order, sigs, methods, 0, off, p, t) {
                    Err(x) => Err(x),
                    Ok(_) => {
                        let missing = missing_methods(order, def_names(methods));
                        if missing.len() > 0 {
                            Err((off, impl_head(p, t) + " is missing methods: "@ + join(missing, ", "@)))
                        } else {
                            Ok(())
                        }
                    },
                },
            },
        }
    }
}

// ---------------------------------------------------------------------------
// Statements.
// ---------------------------------------------------------------------------

pub open spec fn return_message() -> Seq<char> {
    "`return` is only allowed inside `def` bodies"@
}

pub open spec fn root_message(u: Seq<char>) -> Seq<char> {
    "unsupported rust import root `"@ + root_of(u) + "` (only std/core/alloc are supported)"@
}

/// The first of `names` already bound in the innermost scope.
pub open spec fn first_bound(sc: Scopes, names: Seq<Seq<char>>) -> Option<Seq<char>>
    decreases names.len(),
{
    if names.len() == 0 {
        None
    } else if in_current(sc, names[0]) {
        Some(names[0])
    } else {
        first_bound(sc, names.drop_first())
    }
}

/// `names` each bound to `b` in the innermost scope, in order.
pub open spec fn bind_all(sc: Scopes, names: Seq<Seq<char>>, b: BindingInfo) -> Scopes
    decreases names.len(),
{
    if names.len() == 0 { sc } else { bind_all(bind(sc, names[0], b), names.drop_first(), b) }
}

pub open spec fn plain_bindings(names: Seq<Seq<char>>) -> Seq<(Seq<char>, BindingInfo)> {
    names.map_values(|n: Seq<char>| (n, plain()))
}

/// A block: its declarations (when `pre`), then its statements in order.
/// `nested` says whether the block is inside another one and `in_def`
/// whether it is inside a `def`. The result is the scopes after the block.
pub open spec fn sv_block(c: VCtx, s: Seq<SStmt>, sc: Scopes, nested: bool, in_def: bool, pre: bool) -> Result<Scopes, SErr>
    decreases s, 1int,
{
    if pre {
        match spre(s, 0, sc) {
            Err(x) => Err(x),
            Ok(sc1) => sv_stmts(c, s, sc1, nested, in_def),
        }
    } else {
        sv_stmts(c, s, sc, nested, in_def)
    }
}

pub open spec fn sv_stmts(c: VCtx, s: Seq<SStmt>, sc: Scopes, nested: bool, in_def: bool) -> Result<Scopes, SErr>
    decreases s, 0int,
{
    if s.len() == 0 {
        Ok(sc)
    } else {
        match sv_stmt(c, s[0], sc, nested, in_def) {
            Err(x) => Err(x),
            Ok(sc1) => sv_stmts(c, s.subrange(1, s.len() as int), sc1, nested, in_def),
        }
    }
}

/// A `let` or `mut`: no name it binds is already in the innermost scope,
/// the value is valid, then its names are bound.
pub open spec fn sv_binding(c: VCtx, p: SPattern, v: SExpr, off: int, sc: Scopes, b: BindingInfo) -> Result<Scopes, SErr> {
    match first_bound(sc, pattern_names(p)) {
        Some(n) => Err((off, "duplicate local binding `"@ + n + "` in same scope"@)),
        None => match sv_expr(c, v, off, sc) {
            Err(x) => Err(x),
            Ok(_) => Ok(bind_all(sc, pattern_names(p), b)),
        },
    }
}

pub open spec fn sv_stmt(c: VCtx, st: SStmt, sc: Scopes, nested: bool, in_def: bool) -> Result<Scopes, SErr>
    decreases st, 0int,
{
    let off = start(st);
    match st.kind {
        SKind::Let(p, _, v) => sv_binding(c, p, v, off, sc, BindingInfo {
            is_mut: false,
            can_write_through: v is UniqueRef,
            callable_arity: None,
        }),
        SKind::Mut(p, _, v) => sv_binding(c, p, v, off, sc, BindingInfo {
            is_mut: true,
            can_write_through: true,
            callable_arity: None,
        }),
        SKind::Def(_, params, _, body) => match first_dup(params.map_values(|q: SParam| q.name), 0, seq![]) {
            Some(n) => Err((off, "duplicate parameter `"@ + n + "` in function signature"@)),
            None => match sv_block(c, body, sc.push(param_bindings(params)), true, true, true) {
                Err(x) => Err(x),
                Ok(_) => Ok(sc),
            },
        },
        SKind::If(cond, t, e) => match sv_expr(c, cond, off, sc) {
            Err(x) => Err(x),
            Ok(_) => match sv_block(c, t, sc.push(seq![]), true, in_def, true) {
                Err(x) => Err(x),
                Ok(_) => match e {
                    Some(eb) => match sv_block(c, eb, sc.push(seq![]), true, in_def, true) {
                        Err(x) => Err(x),
                        Ok(_) => Ok(sc),
                    },
                    None => Ok(sc),
                },
            },
        },
        SKind::For(p, it, body) => match sv_expr(c, it, off, sc) {
            Err(x) => Err(x),
            Ok(_) => match sv_block(c, body, sc.push(plain_bindings(pattern_names(p))), true, in_def, true) {
                Err(x) => Err(x),
                Ok(_) => Ok(sc),
            },
        },
        SKind::While(cond, body) => match sv_expr(c, cond, off, sc) {
            Err(x) => Err(x),
            Ok(_) => match sv_block(c, body, sc.push(seq![]), true, in_def, true) {
                Err(x) => Err(x),
                Ok(_) => Ok(sc),
            },
        },
        SKind::Match(e, arms) => match sv_expr(c, e, off, sc) {
            Err(x) => Err(x),
            Ok(_) => match sv_arms(c, arms, off, sc, nested, in_def) {
                Err(x) => Err(x),
                Ok(_) => Ok(sc),
            },
        },
        SKind::Return(Some(e)) => if !in_def {
            Err((off, return_message()))
        } else {
            match sv_expr(c, e, off, sc) {
                Err(x) => Err(x),
                Ok(_) => Ok(sc),
            }
        },
        SKind::Return(None) => if !in_def { Err((off, return_message())) } else { Ok(sc) },
        SKind::Expr(e) => match sv_expr(c, e, off, sc) {
            Err(x) => Err(x),
            Ok(_) => Ok(sc),
        },
        SKind::Impl(p, t, methods) => match sv_impl_head(c, off, p, t, methods) {
            Err(x) => Err(x),
            Ok(_) => sv_block(c, methods, sc, true, in_def, false),
        },
        SKind::Protocol(name, methods) => match sv_protocol_head(off, name, methods) {
            Err(x) => Err(x),
            Ok(_) => sv_block(c, methods, sc, true, in_def, false),
        },
        SKind::Import(path, alias) => keep(sv_import(nested, path, alias, off), sc),
        SKind::FromImport(path, items) => keep(sv_from_import(nested, path, items, off), sc),
        SKind::Struct(name, fields) => keep(sv_struct(name, fields, off), sc),
        _ => Ok(sc),
    }
}

/// The scopes, unchanged, when a check passes.
pub open spec fn keep(r: Result<(), SErr>, sc: Scopes) -> Result<Scopes, SErr> {
    match r {
        Err(x) => Err(x),
        Ok(_) => Ok(sc),
    }
}

/// An `impl` body holds only `def`s, each named once, and matches its
/// target and protocol.
pub open spec fn sv_impl_head(c: VCtx, off: int, p: Option<Seq<char>>, t: Seq<char>, methods: Seq<SStmt>) -> Result<(), SErr> {
    let owner = "impl for `"@ + t + bt();
    match shapes_check(methods, 0, off, owner) {
        Err(x) => Err(x),
        Ok(_) => match unique_methods(methods, 0, seq![], off, owner) {
            Err(x) => Err(x),
            Ok(_) => impl_check(c, off, p, t, methods),
        },
    }
}

/// A `protocol` body holds only `def`s, each named once.
pub open spec fn sv_protocol_head(off: int, name: Seq<char>, methods: Seq<SStmt>) -> Result<(), SErr> {
    let owner = "protocol `"@ + name + bt();
    match shapes_check(methods, 0, off, owner) {
        Err(x) => Err(x),
        Ok(_) => unique_methods(methods, 0, seq![], off, owner),
    }
}

/// `import path [as alias]`: only at top level; a Rust import from a
/// supported root; a non-Rust one without alias.
pub open spec fn sv_import(nested: bool, path: Seq<char>, alias: Option<Seq<char>>, off: int) -> Result<(), SErr> {
    if nested {
        Err((off, "`import` is only allowed at top level"@))
    } else {
        match spec_use_path(path) {
            None => if alias is Some {
                Err((off, "aliasing non-rust imports is unsupported (use plain `import \"path\"`)"@))
            } else {
                Ok(())
            },
            Some(u) => if !spec_supported_root(u) { Err((off, root_message(u))) } else { Ok(()) },
        }
    }
}

/// `from path import items`: only at top level, with well-formed items,
/// and only for Rust paths from a supported root.
pub open spec fn sv_from_import(nested: bool, path: Seq<char>, items: Seq<SImport>, off: int) -> Result<(), SErr> {
    if nested {
        Err((off, "`from ... import ...` is only allowed at top level"@))
    } else {
        match from_items_check(items, off) {
            Err(x) => Err(x),
            Ok(_) => match spec_use_path(path) {
                None => if exists|k: int| 0 <= k < items.len() && #[trigger] items[k].alias is Some {
                    Err((off, "aliasing non-rust from-import items is unsupported (remove `as ...`)"@))
                } else {
                    Err((off, "non-rust `from ... import ...` is unsupported (use plain `import \"path\"`)"@))
                },
                Some(u) => if !spec_supported_root(u) { Err((off, root_message(u))) } else { Ok(()) },
            },
        }
    }
}

/// A struct names each field once.
pub open spec fn sv_struct(name: Seq<char>, fields: Seq<SParam>, off: int) -> Result<(), SErr> {
    match first_dup(fields.map_values(|f: SParam| f.name), 0, seq![]) {
        Some(f) => Err((off, "duplicate field `"@ + f + "` in struct `"@ + name + bt())),
        None => Ok(()),
    }
}

/// Match arms, in order: each in its own scope, where the pattern's
/// unresolved names are bound before the pattern and the body are checked.
pub open spec fn sv_arms(c: VCtx, arms: Seq<(SExpr, Seq<SStmt>)>, off: int, sc: Scopes, nested: bool, in_def: bool) -> Result<(), SErr>
    decreases arms, 0int,
{
    if arms.len() == 0 {
        Ok(())
    } else {
        let pat = arms[0].0;
        let inner = sc.push(plain_bindings(pattern_binders(c, sc.push(seq![]), pat, seq![])));
        match sv_expr(c, pat, off, inner) {
            Err(x) => Err(x),
            Ok(_) => match sv_block(c, arms[0].1, inner, true, in_def, true) {
                Err(x) => Err(x),
                Ok(_) => sv_arms(c, arms.subrange(1, arms.len() as int), off, sc, nested, in_def),
            },
        }
    }
}

/// The whole program: top-level declarations, then its statements from one
/// empty scope.
pub open spec fn spec_validate(prog: Seq<SStmt>) -> Result<(), SErr> {
    match top_scan(prog, 0, seq![], seq![]) {
        Err(x) => Err(x),
        Ok(_) => match sv_block(ctx_of(prog), prog, seq![seq![]], false, false, true) {
            Err(x) => Err(x),
            Ok(_) => Ok(()),
        },
    }
}

/// How a rejection is reported: the line and column of its byte offset.
pub open spec fn semantic_message(src: Seq<char>, e: SErr) -> Seq<char> {
    let (line, col) = byte_line_col(src, e.0);
    "Semantic error at line "@ + digits(line as nat) + ", column "@ + digits(col as nat) + ": "@ + e.1
}


/// Imports stand at top level only: inside any block, an `import` or a
/// `from ... import ...` statement is rejected.
pub proof fn law_import_only_at_top(c: VCtx, st: SStmt, sc: Scopes, in_def: bool)
    requires
        st.kind is Import || st.kind is FromImport,
    ensures
        sv_stmt(c, st, sc, true, in_def) is Err,
{
}

/// `return` outside a `def` body is rejected, however deeply nested.
pub proof fn law_return_only_in_def(c: VCtx, st: SStmt, sc: Scopes, nested: bool)
    requires
        st.kind is Return,
    ensures
        sv_stmt(c, st, sc, nested, false) is Err,
{
}

proof fn lemma_first_bound_found(sc: Scopes, names: Seq<Seq<char>>, n: Seq<char>)
    requires
        names.contains(n),
        in_current(sc, n),
    ensures
        first_bound(sc, names) is Some,
    decreases names.len(),
{
    if !in_current(sc, names[0]) {
        let k = choose|k: int| 0 <= k < names.len() && names[k] == n;
        assert(k != 0);
        assert(names.drop_first()[k - 1] == n);
        lemma_first_bound_found(sc, names.drop_first(), n);
    }
}

/// A `let` or `mut` that binds a name already bound in the innermost
/// scope is rejected.
pub proof fn law_duplicate_binding_rejected(c: VCtx, p: SPattern, v: SExpr, off: int, sc: Scopes, b: BindingInfo, n: Seq<char>)
    requires
        pattern_names(p).contains(n),
        in_current(sc, n),
    ensures
        sv_binding(c, p, v, off, sc, b) is Err,
{
    lemma_first_bound_found(sc, pattern_names(p), n);
}

/// Blocks do not leak bindings: after an `if`, `for`, `while`, `match` or
/// `def` that is accepted, the scopes are those before it (a `def` binds
/// its own name beforehand, with the block's declarations).
pub proof fn law_blocks_keep_scopes(c: VCtx, st: SStmt, sc: Scopes, nested: bool, in_def: bool)
    requires
        st.kind is If || st.kind is For || st.kind is While || st.kind is Match || st.kind is Def,
        sv_stmt(c, st, sc, nested, in_def) is Ok,
    ensures
        sv_stmt(c, st, sc, nested, in_def) == Ok::<Scopes, SErr>(sc),
{
}


/// The kind number `top_scan` gives a `def`, `struct` or `protocol`
/// named `n`, or -1 for any other statement.
pub open spec fn decl_kind(st: SStmt, n: Seq<char>) -> int {
    match st.kind {
        SKind::Def(m, _, _, _) => if m == n { 0 } else { -1 },
        SKind::Struct(m, _) => if m == n { 1 } else { -1 },
        SKind::Protocol(m, _) => if m == n { 2 } else { -1 },
        _ => -1,
    }
}

proof fn lemma_top_scan_dup(s: Seq<SStmt>, k: int, j: int, seen: Seq<(Seq<char>, int)>, decls: Seq<(Seq<char>, Seq<char>)>, n: Seq<char>, kind: int)
    requires
        0 <= k <= j < s.len(),
        kind >= 0,
        decl_kind(s[j], n) == kind,
        seen.contains((n, kind)) || exists|i: int| k <= i < j && decl_kind(s[i], n) == kind,
    ensures
        top_scan(s, k, seen, decls) is Err,
    decreases j - k,
{
    let st = s[k];
    let (kind_no, kname, name) = match st.kind {
        SKind::Def(m, _, _, _) => (0int, "function"@, m),
        SKind::Struct(m, _) => (1int, "struct"@, m),
        SKind::Protocol(m, _) => (2int, "protocol"@, m),
        _ => (-1int, seq![], seq![]),
    };
    if k == j {
        if !seen.contains((n, kind)) {
            let i = choose|i: int| k <= i < j && decl_kind(s[i], n) == kind;
            assert(false);
        }
        assert(kind_no == kind && name == n);
    } else if kind_no < 0 {
        if !seen.contains((n, kind)) {
            let i = choose|i: int| k <= i < j && decl_kind(s[i], n) == kind;
            assert(i != k);
        }
        lemma_top_scan_dup(s, k + 1, j, seen, decls, n, kind);
    } else if seen.contains((name, kind_no)) {
    } else {
        let seen2 = seen.push((name, kind_no));
        let decls2 = decls.push((name, kname));
        if seen.contains((n, kind)) {
            let q = choose|q: int| 0 <= q < seen.len() && seen[q] == (n, kind);
            assert(seen2[q] == (n, kind));
        } else {
            let i = choose|i: int| k <= i < j && decl_kind(s[i], n) == kind;
            if i == k {
                assert(seen2[seen.len() as int] == (n, kind));
            } else {
                assert(k + 1 <= i < j);
            }
        }
        assert(seen2.contains((n, kind)) || exists|i: int| k + 1 <= i < j && decl_kind(s[i], n) == kind);
        lemma_top_scan_dup(s, k + 1, j, seen2, decls2, n, kind);
    }
}

/// Top-level declarations are unique: a program with two top-level `def`s,
/// two `struct`s or two `protocol`s of one name is rejected.
pub proof fn law_duplicate_top_level_rejected(prog: Seq<SStmt>, i: int, j: int, n: Seq<char>)
    requires
        0 <= i < j < prog.len(),
        decl_kind(prog[i], n) >= 0,
        decl_kind(prog[j], n) == decl_kind(prog[i], n),
    ensures
        spec_validate(prog) is Err,
{
    lemma_top_scan_dup(prog, 0, j, seq![], seq![], n, decl_kind(prog[i], n));
}


/// Whether a statement is a `def` named `n`.
pub open spec fn defines(st: SStmt, n: Seq<char>) -> bool {
    st.kind matches SKind::Def(m, _, _, _) && m == n
}

proof fn lemma_unique_methods_dup(methods: Seq<SStmt>, k: int, j: int, seen: Seq<Seq<char>>, off: int, owner: Seq<char>, n: Seq<char>)
    requires
        0 <= k <= j < methods.len(),
        defines(methods[j], n),
        seen.contains(n) || exists|i: int| k <= i < j && defines(methods[i], n),
    ensures
        unique_methods(methods, k, seen, off, owner) is Err,
    decreases j - k,
{
    match methods[k].kind {
        SKind::Def(m, _, _, _) => {
            if k == j {
                if !seen.contains(n) {
                    let i = choose|i: int| k <= i < j && defines(methods[i], n);
                    assert(false);
                }
            } else if !seen.contains(m) {
                let seen2 = seen.push(m);
                if seen.contains(n) {
                    let q = choose|q: int| 0 <= q < seen.len() && seen[q] == n;
                    assert(seen2[q] == n);
                } else {
                    let i = choose|i: int| k <= i < j && defines(methods[i], n);
                    if i == k {
                        assert(seen2[seen.len() as int] == n);
                    } else {
                        assert(k + 1 <= i < j);
                    }
                }
                assert(seen2.contains(n) || exists|i: int| k + 1 <= i < j && defines(methods[i], n));
                lemma_unique_methods_dup(methods, k + 1, j, seen2, off, owner, n);
            }
        },
        _ => {
            if !seen.contains(n) {
                let i = choose|i: int| k <= i < j && defines(methods[i], n);
                assert(i != k);
            }
            lemma_unique_methods_dup(methods, k + 1, j, seen, off, owner, n);
        },
    }
}

/// Method names are unique within one `impl` or `protocol`: a body that
/// defines a name twice is rejected.
pub proof fn law_duplicate_method_rejected(c: VCtx, st: SStmt, sc: Scopes, nested: bool, in_def: bool, i: int, j: int, n: Seq<char>)
    requires
        st.kind is Impl || st.kind is Protocol,
        ({
            let methods = match st.kind {
                SKind::Impl(_, _, ms) => ms,
                SKind::Protocol(_, ms) => ms,
                _ => seq![],
            };
            0 <= i < j < methods.len() && defines(methods[i], n) && defines(methods[j], n)
        }),
    ensures
        sv_stmt(c, st, sc, nested, in_def) is Err,
{
    let off = start(st);
    match st.kind {
        SKind::Impl(p, t, methods) => {
            lemma_unique_methods_dup(methods, 0, j, seq![], off, "impl for `"@ + t + bt(), n);
        },
        SKind::Protocol(name, methods) => {
            lemma_unique_methods_dup(methods, 0, j, seq![], off, "protocol `"@ + name + bt(), n);
        },
        _ => {},
    }
}


/// `b` is `a` with bindings added to its innermost scope only.
pub open spec fn extends(a: Scopes, b: Scopes) -> bool {
    &&& a.len() == b.len()
    &&& a.len() > 0 ==> a.drop_last() == b.drop_last() && a.last().len() <= b.last().len()
        && b.last().take(a.last().len() as int) == a.last()
}

proof fn lemma_extends_trans(a: Scopes, b: Scopes, c: Scopes)
    requires
        extends(a, b),
        extends(b, c),
    ensures
        extends(a, c),
{
    if a.len() > 0 {
        assert(c.last().take(a.last().len() as int) =~= c.last().take(b.last().len() as int).take(a.last().len() as int));
    }
}

proof fn lemma_bind_extends(sc: Scopes, n: Seq<char>, b: BindingInfo)
    ensures
        extends(sc, bind(sc, n, b)),
{
    if sc.len() > 0 {
        let r = bind(sc, n, b);
        assert(r.drop_last() =~= sc.drop_last());
        assert(r.last().take(sc.last().len() as int) =~= sc.last());
    }
}

proof fn lemma_bind_all_extends(sc: Scopes, names: Seq<Seq<char>>, b: BindingInfo)
    ensures
        extends(sc, bind_all(sc, names, b)),
    decreases names.len(),
{
    if names.len() > 0 {
        lemma_bind_extends(sc, names[0], b);
        lemma_bind_all_extends(bind(sc, names[0], b), names.drop_first(), b);
        lemma_extends_trans(sc, bind(sc, names[0], b), bind_all(sc, names, b));
    } else {
        assert(sc.last().take(sc.last().len() as int) =~= sc.last());
    }
}

proof fn lemma_bind_new_extends(sc: Scopes, names: Seq<Seq<char>>, i: int, off: int)
    ensures
        bind_new(sc, names, i, off) matches Ok(r) ==> extends(sc, r),
    decreases names.len() - i,
{
    if 0 <= i < names.len() && !in_current(sc, names[i]) {
        let sc1 = bind(sc, names[i], plain());
        lemma_bind_extends(sc, names[i], plain());
        lemma_bind_new_extends(sc1, names, i + 1, off);
        if let Ok(r) = bind_new(sc1, names, i + 1, off) {
            lemma_extends_trans(sc, sc1, r);
        }
    } else {
        assert(sc.last().take(sc.last().len() as int) =~= sc.last());
    }
}

proof fn lemma_spre_extends(s: Seq<SStmt>, i: int, sc: Scopes)
    ensures
        spre(s, i, sc) matches Ok(r) ==> extends(sc, r),
    decreases s.len() - i,
{
    if i < 0 || i >= s.len() {
        assert(sc.last().take(sc.last().len() as int) =~= sc.last());
    } else {
        let st = s[i];
        let r: Result<Scopes, SErr> = match st.kind {
            SKind::Def(n, params, _, _) => if in_current(sc, n) {
                Err((start(st), "duplicate local name `"@ + n + "` in same scope"@))
            } else {
                Ok(bind(sc, n, BindingInfo { is_mut: false, can_write_through: false, callable_arity: Some(params.len() as usize) }))
            },
            SKind::Import(path, alias) => match spec_use_path(path) {
                Some(b) => match spec_binding_name(with_alias(b, alias)) {
                    Some(n) => bind_new(sc, seq![n], 0, start(st)),
                    None => Ok(sc),
                },
                None => Ok(sc),
            },
            SKind::FromImport(path, items) => match from_items_check(items, start(st)) {
                Err(x) => Err(x),
                Ok(_) => if spec_use_path(path) is Some {
                    bind_new(sc, items.map_values(|it: SImport| local_name(it)), 0, start(st))
                } else {
                    Ok(sc)
                },
            },
            _ => Ok(sc),
        };
        match st.kind {
            SKind::Def(n, params, _, _) => {
                lemma_bind_extends(sc, n, BindingInfo { is_mut: false, can_write_through: false, callable_arity: Some(params.len() as usize) });
            },
            SKind::Import(path, alias) => {
                if let Some(b) = spec_use_path(path) {
                    if let Some(n) = spec_binding_name(with_alias(b, alias)) {
                        lemma_bind_new_extends(sc, seq![n], 0, start(st));
                    }
                }
            },
            SKind::FromImport(path, items) => {
                lemma_bind_new_extends(sc, items.map_values(|it: SImport| local_name(it)), 0, start(st));
            },
            _ => {},
        }
        assert(sc.last().take(sc.last().len() as int) =~= sc.last());
        if let Ok(sc1) = r {
            lemma_spre_extends(s, i + 1, sc1);
            if let Ok(r2) = spre(s, i + 1, sc1) {
                lemma_extends_trans(sc, sc1, r2);
            }
        }
    }
}

proof fn lemma_stmt_extends(c: VCtx, st: SStmt, sc: Scopes, nested: bool, in_def: bool)
    ensures
        sv_stmt(c, st, sc, nested, in_def) matches Ok(r) ==> extends(sc, r),
    decreases st, 0int,
{
    assert(sc.last().take(sc.last().len() as int) =~= sc.last());
    match st.kind {
        SKind::Let(p, _, v) => {
            lemma_bind_all_extends(sc, pattern_names(p), BindingInfo { is_mut: false, can_write_through: v is UniqueRef, callable_arity: None });
        },
        SKind::Mut(p, _, v) => {
            lemma_bind_all_extends(sc, pattern_names(p), BindingInfo { is_mut: true, can_write_through: true, callable_arity: None });
        },
        SKind::Impl(_, _, methods) => {
            lemma_stmts_extends(c, methods, sc, true, in_def);
        },
        SKind::Protocol(_, methods) => {
            lemma_stmts_extends(c, methods, sc, true, in_def);
        },
        _ => {},
    }
}

proof fn lemma_stmts_extends(c: VCtx, s: Seq<SStmt>, sc: Scopes, nested: bool, in_def: bool)
    ensures
        sv_stmts(c, s, sc, nested, in_def) matches Ok(r) ==> extends(sc, r),
    decreases s, 1int,
{
    if s.len() == 0 {
        assert(sc.last().take(sc.last().len() as int) =~= sc.last());
    } else {
        lemma_stmt_extends(c, s[0], sc, nested, in_def);
        if let Ok(sc1) = sv_stmt(c, s[0], sc, nested, in_def) {
            lemma_stmts_extends(c, s.subrange(1, s.len() as int), sc1, nested, in_def);
            if let Ok(r) = sv_stmts(c, s.subrange(1, s.len() as int), sc1, nested, in_def) {
                lemma_extends_trans(sc, sc1, r);
            }
        }
    }
}

/// Scopes nest: a binding in the innermost scope shadows any binding of the
/// name in outer ones, and an accepted block only adds bindings to its own
/// innermost scope (its declarations, then its `let` and `mut` names),
/// leaving every outer scope as it was; a nested block's scope, with its
/// parameters, loop variables and match binders, is dropped when it ends
/// (see `law_blocks_keep_scopes`).
pub proof fn law_scopes_nest(c: VCtx, s: Seq<SStmt>, sc: Scopes, nested: bool, in_def: bool, pre: bool, n: Seq<char>, b: BindingInfo)
    requires
        sc.len() > 0,
    ensures
        lookup(bind(sc, n, b), n) == Some(b),
        sv_block(c, s, sc, nested, in_def, pre) matches Ok(r) ==> extends(sc, r),
{
    let sc2 = bind(sc, n, b);
    assert(sc2.last() == sc.last().push((n, b)));
    if pre {
        lemma_spre_extends(s, 0, sc);
        if let Ok(sc1) = spre(s, 0, sc) {
            lemma_stmts_extends(c, s, sc1, nested, in_def);
            if let Ok(r) = sv_stmts(c, s, sc1, nested, in_def) {
                lemma_extends_trans(sc, sc1, r);
            }
        }
    } else {
        lemma_stmts_extends(c, s, sc, nested, in_def);
    }
}


/// The names bound in a scope, in order.
pub open spec fn keys(s: Seq<(Seq<char>, BindingInfo)>) -> Seq<Seq<char>> {
    s.map_values(|e: (Seq<char>, BindingInfo)| e.0)
}

/// The names a statement binds in the scope it stands in.
pub open spec fn stmt_names(st: SStmt) -> Seq<Seq<char>> {
    match st.kind {
        SKind::Let(p, _, _) => pattern_names(p),
        SKind::Mut(p, _, _) => pattern_names(p),
        _ => seq![],
    }
}

/// The `let` and `mut` names of a block, in order.
pub open spec fn block_names(s: Seq<SStmt>) -> Seq<Seq<char>>
    decreases s.len(),
{
    if s.len() == 0 { seq![] } else { stmt_names(s[0]) + block_names(s.subrange(1, s.len() as int)) }
}

/// The names a block declares before its statements run, from `i`: its
/// `def` names and the names its Rust imports bind.
pub open spec fn pre_names(s: Seq<SStmt>, i: int) -> Seq<Seq<char>>
    decreases s.len() - i,
{
    if i < 0 || i >= s.len() {
        seq![]
    } else {
        let here = match s[i].kind {
            SKind::Def(n, _, _, _) => seq![n],
            SKind::Import(path, alias) => match spec_use_path(path) {
                Some(b) => match spec_binding_name(with_alias(b, alias)) {
                    Some(n) => seq![n],
                    None => seq![],
                },
                None => seq![],
            },
            SKind::FromImport(path, items) => if spec_use_path(path) is Some {
                items.map_values(|it: SImport| local_name(it))
            } else {
                seq![]
            },
            _ => seq![],
        };
        here + pre_names(s, i + 1)
    }
}

proof fn lemma_bind_keys(sc: Scopes, n: Seq<char>, b: BindingInfo)
    requires
        sc.len() > 0,
    ensures
        keys(bind(sc, n, b).last()) == keys(sc.last()).push(n),
        bind(sc, n, b).len() == sc.len(),
{
    assert(keys(bind(sc, n, b).last()) =~= keys(sc.last()).push(n));
}

proof fn lemma_bind_all_keys(sc: Scopes, names: Seq<Seq<char>>, b: BindingInfo)
    requires
        sc.len() > 0,
    ensures
        keys(bind_all(sc, names, b).last()) == keys(sc.last()) + names,
    decreases names.len(),
{
    if names.len() == 0 {
        assert(keys(sc.last()) + names =~= keys(sc.last()));
    } else {
        let sc1 = bind(sc, names[0], b);
        lemma_bind_keys(sc, names[0], b);
        lemma_bind_all_keys(sc1, names.drop_first(), b);
        assert(keys(sc.last()).push(names[0]) + names.drop_first() =~= keys(sc.last()) + names);
    }
}

proof fn lemma_bind_new_keys(sc: Scopes, names: Seq<Seq<char>>, i: int, off: int)
    requires
        sc.len() > 0,
        0 <= i <= names.len(),
    ensures
        bind_new(sc, names, i, off) matches Ok(r) ==> r.len() == sc.len()
            && keys(r.last()) == keys(sc.last()) + names.subrange(i, names.len() as int),
    decreases names.len() - i,
{
    if i >= names.len() {
        assert(keys(sc.last()) + names.subrange(i, names.len() as int) =~= keys(sc.last()));
    } else if !in_current(sc, names[i]) {
        let sc1 = bind(sc, names[i], plain());
        lemma_bind_keys(sc, names[i], plain());
        lemma_bind_new_keys(sc1, names, i + 1, off);
        assert(keys(sc.last()).push(names[i]) + names.subrange(i + 1, names.len() as int)
            =~= keys(sc.last()) + names.subrange(i, names.len() as int));
    }
}

proof fn lemma_spre_keys(s: Seq<SStmt>, i: int, sc: Scopes)
    requires
        sc.len() > 0,
    ensures
        spre(s, i, sc) matches Ok(r) ==> r.len() == sc.len() && keys(r.last()) == keys(sc.last()) + pre_names(s, i),
    decreases s.len() - i,
{
    if i < 0 || i >= s.len() {
        assert(keys(sc.last()) + Seq::<Seq<char>>::empty() =~= keys(sc.last()));
    } else {
        let st = s[i];
        let here: Seq<Seq<char>> = match st.kind {
            SKind::Def(n, _, _, _) => seq![n],
            SKind::Import(path, alias) => match spec_use_path(path) {
                Some(b) => match spec_binding_name(with_alias(b, alias)) {
                    Some(n) => seq![n],
                    None => seq![],
                },
                None => seq![],
            },
            SKind::FromImport(path, items) => if spec_use_path(path) is Some {
                items.map_values(|it: SImport| local_name(it))
            } else {
                seq![]
            },
            _ => seq![],
        };
        let r: Result<Scopes, SErr> = match st.kind {
            SKind::Def(n, params, _, _) => if in_current(sc, n) {
                Err((start(st), "duplicate local name `"@ + n + "` in same scope"@))
            } else {
                Ok(bind(sc, n, BindingInfo { is_mut: false, can_write_through: false, callable_arity: Some(params.len() as usize) }))
            },
            SKind::Import(path, alias) => match spec_use_path(path) {
                Some(b) => match spec_binding_name(with_alias(b, alias)) {
                    Some(n) => bind_new(sc, seq![n], 0, start(st)),
                    None => Ok(sc),
                },
                None => Ok(sc),
            },
            SKind::FromImport(path, items) => match from_items_check(items, start(st)) {
                Err(x) => Err(x),
                Ok(_) => if spec_use_path(path) is Some {
                    bind_new(sc, items.map_values(|it: SImport| local_name(it)), 0, start(st))
                } else {
                    Ok(sc)
                },
            },
            _ => Ok(sc),
        };
        match st.kind {
            SKind::Def(n, params, _, _) => {
                lemma_bind_keys(sc, n, BindingInfo { is_mut: false, can_write_through: false, callable_arity: Some(params.len() as usize) });
            },
            SKind::Import(path, alias) => {
                if let Some(b) = spec_use_path(path) {
                    if let Some(n) = spec_binding_name(with_alias(b, alias)) {
                        lemma_bind_new_keys(sc, seq![n], 0, start(st));
                        assert(seq![n].subrange(0, 1) =~= seq![n]);
                    }
                }
            },
            SKind::FromImport(path, items) => {
                let ls = items.map_values(|it: SImport| local_name(it));
                lemma_bind_new_keys(sc, ls, 0, start(st));
                assert(ls.subrange(0, ls.len() as int) =~= ls);
            },
            _ => {},
        }
        assert(keys(sc.last()) + Seq::<Seq<char>>::empty() =~= keys(sc.last()));
        if let Ok(sc1) = r {
            assert(keys(sc1.last()) == keys(sc.last()) + here);
            lemma_spre_keys(s, i + 1, sc1);
            if let Ok(r2) = spre(s, i + 1, sc1) {
                assert(keys(sc.last()) + here + pre_names(s, i + 1) =~= keys(sc.last()) + pre_names(s, i));
            }
        }
    }
}

proof fn lemma_shapes_all_defs(methods: Seq<SStmt>, i: int, off: int, owner: Seq<char>)
    requires
        0 <= i,
        shapes_check(methods, i, off, owner) is Ok,
    ensures
        forall|j: int| i <= j < methods.len() ==> #[trigger] methods[j].kind is Def,
    decreases methods.len() - i,
{
    if i < methods.len() {
        lemma_shapes_all_defs(methods, i + 1, off, owner);
    }
}

proof fn lemma_defs_keep(c: VCtx, s: Seq<SStmt>, sc: Scopes, nested: bool, in_def: bool)
    requires
        forall|j: int| 0 <= j < s.len() ==> #[trigger] s[j].kind is Def,
    ensures
        sv_stmts(c, s, sc, nested, in_def) matches Ok(r) ==> r == sc,
    decreases s.len(),
{
    if s.len() > 0 {
        assert(s[0].kind is Def);
        let rest = s.subrange(1, s.len() as int);
        assert forall|j: int| 0 <= j < rest.len() implies #[trigger] rest[j].kind is Def by {
            assert(rest[j] == s[j + 1]);
        }
        lemma_defs_keep(c, rest, sc, nested, in_def);
        match s[0].kind {
            SKind::Def(_, _, _, _) => {
                if let Ok(sc1) = sv_stmt(c, s[0], sc, nested, in_def) {
                    assert(sc1 == sc);
                }
            },
            _ => {},
        }
    }
}

proof fn lemma_stmt_keys(c: VCtx, st: SStmt, sc: Scopes, nested: bool, in_def: bool)
    requires
        sc.len() > 0,
    ensures
        sv_stmt(c, st, sc, nested, in_def) matches Ok(r) ==> r.len() == sc.len()
            && keys(r.last()) == keys(sc.last()) + stmt_names(st),
{
    assert(keys(sc.last()) + Seq::<Seq<char>>::empty() =~= keys(sc.last()));
    let off = start(st);
    match st.kind {
        SKind::Let(p, _, v) => {
            lemma_bind_all_keys(sc, pattern_names(p), BindingInfo { is_mut: false, can_write_through: v is UniqueRef, callable_arity: None });
            lemma_stmt_extends(c, st, sc, nested, in_def);
        },
        SKind::Mut(p, _, v) => {
            lemma_bind_all_keys(sc, pattern_names(p), BindingInfo { is_mut: true, can_write_through: true, callable_arity: None });
            lemma_stmt_extends(c, st, sc, nested, in_def);
        },
        SKind::Impl(p, t, methods) => {
            if sv_impl_head(c, off, p, t, methods) is Ok {
                lemma_shapes_all_defs(methods, 0, off, "impl for `"@ + t + bt());
                lemma_defs_keep(c, methods, sc, true, in_def);
            }
        },
        SKind::Protocol(name, methods) => {
            if sv_protocol_head(off, name, methods) is Ok {
                lemma_shapes_all_defs(methods, 0, off, "protocol `"@ + name + bt());
                lemma_defs_keep(c, methods, sc, true, in_def);
            }
        },
        _ => {},
    }
}

proof fn lemma_stmts_keys(c: VCtx, s: Seq<SStmt>, sc: Scopes, nested: bool, in_def: bool)
    requires
        sc.len() > 0,
    ensures
        sv_stmts(c, s, sc, nested, in_def) matches Ok(r) ==> r.len() == sc.len()
            && keys(r.last()) == keys(sc.last()) + block_names(s),
    decreases s.len(),
{
    if s.len() == 0 {
        assert(keys(sc.last()) + Seq::<Seq<char>>::empty() =~= keys(sc.last()));
    } else {
        lemma_stmt_keys(c, s[0], sc, nested, in_def);
        if let Ok(sc1) = sv_stmt(c, s[0], sc, nested, in_def) {
            let rest = s.subrange(1, s.len() as int);
            lemma_stmts_keys(c, rest, sc1, nested, in_def);
            if let Ok(r) = sv_stmts(c, rest, sc1, nested, in_def) {
                assert(keys(sc.last()) + stmt_names(s[0]) + block_names(rest) =~= keys(sc.last()) + block_names(s));
            }
        }
    }
}

/// What an accepted block binds: its innermost scope gains exactly the
/// names the block declares first (its `def` names and the names its Rust
/// imports bind, when declarations are read) and then its `let` and `mut`
/// names, in order; the outer scopes stay as they were. Parameters, loop
/// variables, match binders and names bound in nested bodies are not among
/// them.
pub proof fn law_block_binds_exactly(c: VCtx, s: Seq<SStmt>, sc: Scopes, nested: bool, in_def: bool, pre: bool)
    requires
        sc.len() > 0,
    ensures
        sv_block(c, s, sc, nested, in_def, pre) matches Ok(r) ==> r.drop_last() == sc.drop_last()
            && keys(r.last()) == keys(sc.last()) + (if pre { pre_names(s, 0) } else { seq![] }) + block_names(s),
{
    law_scopes_nest(c, s, sc, nested, in_def, pre, seq![], plain());
    if pre {
        lemma_spre_keys(s, 0, sc);
        if let Ok(sc1) = spre(s, 0, sc) {
            lemma_stmts_keys(c, s, sc1, nested, in_def);
        }
    } else {
        lemma_stmts_keys(c, s, sc, nested, in_def);
        assert(keys(sc.last()) + Seq::<Seq<char>>::empty() =~= keys(sc.last()));
    }
}

// ---------------------------------------------------------------------------
// Executable checks.
// ---------------------------------------------------------------------------

/// A rejected program: where (a byte offset) and why.
#[derive(Debug)]
pub struct SemanticError {
    pub offset: usize,
    pub message: String,
}

pub open spec fn err_view(e: SemanticError) -> SErr {
    (e.offset as int, e.message@)
}

pub open spec fn res_view<T>(r: Result<T, SemanticError>) -> Result<(), SErr> {
    match r {
        Ok(_) => Ok(()),
        Err(e) => Err(err_view(e)),
    }
}

type ExecScope = Vec<(String, BindingInfo)>;

pub open spec fn scope_view(s: Seq<(String, BindingInfo)>) -> Seq<(Seq<char>, BindingInfo)> {
    s.map_values(|p: (String, BindingInfo)| (p.0@, p.1))
}

pub open spec fn scopes_view(v: Seq<Vec<(String, BindingInfo)>>) -> Scopes {
    v.map_values(|s: Vec<(String, BindingInfo)>| scope_view(s@))
}

fn err(offset: usize, message: String) -> (r: SemanticError)
    ensures
        r.offset == offset,
        r.message@ == message@,
{
    SemanticError { offset, message }
}

fn scope_get_exec(s: &Vec<(String, BindingInfo)>, n: &str) -> (r: Option<BindingInfo>)
    ensures
        r == scope_get(scope_view(s@), n@),
{
    let ghost v = scope_view(s@);
    let mut i = s.len();
    assert(v.take(i as int) =~= v);
    while i > 0
        invariant
            0 <= i <= s.len(),
            v == scope_view(s@),
            scope_get(v, n@) == scope_get(v.take(i as int), n@),
        decreases i,
    {
        assert(v.take(i as int).drop_last() =~= v.take(i - 1));
        if text_eq(s[i - 1].0.as_str(), n) {
            return Some(s[i - 1].1);
        }
        i = i - 1;
    }
    None
}

fn lookup_exec(sc: &Vec<ExecScope>, n: &str) -> (r: Option<BindingInfo>)
    ensures
        r == lookup(scopes_view(sc@), n@),
{
    let ghost v = scopes_view(sc@);
    let mut i = sc.len();
    assert(v.take(i as int) =~= v);
    while i > 0
        invariant
            0 <= i <= sc.len(),
            v == scopes_view(sc@),
            lookup(v, n@) == lookup(v.take(i as int), n@),
        decreases i,
    {
        assert(v.take(i as int).drop_last() =~= v.take(i - 1));
        assert(v.take(i as int).last() == scope_view(sc@[i - 1]@));
        match scope_get_exec(&sc[i - 1], n) {
            Some(b) => return Some(b),
            None => {},
        }
        i = i - 1;
    }
    None
}

fn in_current_exec(sc: &Vec<ExecScope>, n: &str) -> (r: bool)
    ensures
        r == in_current(scopes_view(sc@), n@),
{
    if sc.len() == 0 {
        false
    } else {
        scope_get_exec(&sc[sc.len() - 1], n).is_some()
    }
}

/// Scopes that differ from `a` at most in the innermost one.
spec fn same_outer(a: Seq<ExecScope>, b: Seq<ExecScope>) -> bool {
    &&& a.len() == b.len()
    &&& forall|j: int| 0 <= j < a.len() - 1 ==> #[trigger] b[j] == a[j]
}

fn bind_exec(sc: &mut Vec<ExecScope>, n: String, b: BindingInfo)
    ensures
        scopes_view(final(sc)@) == bind(scopes_view(old(sc)@), n@, b),
        same_outer(old(sc)@, final(sc)@),
{
    if sc.len() > 0 {
        let ghost v0 = scopes_view(sc@);
        let mut last = sc.pop().unwrap();
        let ghost lv = scope_view(last@);
        last.push((n, b));
        sc.push(last);
        assert(scope_view(last@) =~= lv.push((n@, b)));
        assert(scopes_view(sc@) =~= v0.update(v0.len() - 1, v0.last().push((n@, b))));
    }
}

fn contains_str(list: &Vec<String>, n: &str) -> (r: bool)
    ensures
        r == string_views(list@).contains(n@),
{
    let mut i: usize = 0;
    while i < list.len()
        invariant
            0 <= i <= list.len(),
            forall|j: int| 0 <= j < i ==> list@[j]@ != n@,
        decreases list.len() - i,
    {
        if text_eq(list[i].as_str(), n) {
            assert(string_views(list@)[i as int] == n@);
            return true;
        }
        i = i + 1;
    }
    assert(!string_views(list@).contains(n@)) by {
        if string_views(list@).contains(n@) {
            let k = choose|k: int| 0 <= k < string_views(list@).len() && string_views(list@)[k] == n@;
            assert(list@[k]@ == n@);
        }
    }
    false
}

/// Whether a top-level struct (`which == 0`) or enum (`which == 1`) is
/// named `n`.
fn top_name_exists(prog: &Vec<Statement>, which: u8, n: &str) -> (r: bool)
    requires
        which <= 1,
    ensures
        r == top_names(stmts_view(prog@), which as int).contains(n@),
{
    let ghost sv = stmts_view(prog@);
    let mut i: usize = 0;
    proof { lemma_stmts_view(prog@); }
    let mut found = false;
    while i < prog.len()
        invariant
            0 <= i <= prog.len(),
            which <= 1,
            sv == stmts_view(prog@),
            sv.len() == prog.len(),
            forall|j: int| 0 <= j < prog.len() ==> #[trigger] sv[j] == stmt_view(prog@[j]),
            found == top_names(sv.take(i as int), which as int).contains(n@),
        decreases prog.len() - i,
    {
        assert(sv.take(i + 1).drop_last() =~= sv.take(i as int));
        assert(sv.take(i + 1).last() == sv[i as int]);
        let ghost prev = top_names(sv.take(i as int), which as int);
        match &prog[i].kind {
            StatementKind::Struct { name, .. } => {
                if which == 0 {
                    let hit = text_eq(name.as_str(), n);
                    proof {
                        let now = prev.push(name@);
                        assert(now.contains(n@) == (prev.contains(n@) || name@ == n@)) by {
                            if now.contains(n@) && !prev.contains(n@) {
                                let k = choose|k: int| 0 <= k < now.len() && now[k] == n@;
                                if k < prev.len() { assert(prev[k] == now[k]); }
                            }
                            if prev.contains(n@) {
                                let k = choose|k: int| 0 <= k < prev.len() && prev[k] == n@;
                                assert(now[k] == n@);
                            }
                            if name@ == n@ { assert(now[prev.len() as int] == n@); }
                        }
                    }
                    found = found || hit;
                }
            },
            StatementKind::Enum { name, .. } => {
                if which == 1 {
                    let hit = text_eq(name.as_str(), n);
                    proof {
                        let now = prev.push(name@);
                        assert(now.contains(n@) == (prev.contains(n@) || name@ == n@)) by {
                            if now.contains(n@) && !prev.contains(n@) {
                                let k = choose|k: int| 0 <= k < now.len() && now[k] == n@;
                                if k < prev.len() { assert(prev[k] == now[k]); }
                            }
                            if prev.contains(n@) {
                                let k = choose|k: int| 0 <= k < prev.len() && prev[k] == n@;
                                assert(now[k] == n@);
                            }
                            if name@ == n@ { assert(now[prev.len() as int] == n@); }
                        }
                    }
                    found = found || hit;
                }
            },
            _ => {},
        }
        i = i + 1;
    }
    assert(sv.take(i as int) =~= sv);
    found
}

fn resolvable_exec(prog: &Vec<Statement>, sc: &Vec<ExecScope>, n: &str) -> (r: bool)
    ensures
        r == resolvable(ctx_of(stmts_view(prog@)), scopes_view(sc@), n@),
{
    lookup_exec(sc, n).is_some() || top_name_exists(prog, 0, n) || top_name_exists(prog, 1, n)
        || is_builtin_type(n) || is_builtin_value(n)
}

fn is_place_exec(e: &Expression) -> (r: bool)
    ensures
        r == is_place(e@),
    decreases e,
{
    match e {
        Expression::Ident(_) => true,
        Expression::MemberAccess(b, _) => is_place_exec(b),
        Expression::Index(b, _) => is_place_exec(b),
        _ => false,
    }
}

fn place_root_exec(e: &Expression) -> (r: Option<&String>)
    ensures
        match r {
            Some(s) => place_root(e@) == Some(s@),
            None => place_root(e@) is None,
        },
    decreases e,
{
    match e {
        Expression::Ident(n) => Some(n),
        Expression::MemberAccess(b, _) => place_root_exec(b),
        Expression::Index(b, _) => place_root_exec(b),
        _ => None,
    }
}

/// `a` then `b` then `c`, as one string.
fn cat3(a: &str, b: &str, c: &str) -> (r: String)
    ensures
        r@ == a@ + b@ + c@,
{
    let mut r = a.to_owned();
    push_str(&mut r, b);
    push_str(&mut r, c);
    r
}

fn cat5(a: &str, b: &str, c: &str, d: &str, e: &str) -> (r: String)
    ensures
        r@ == a@ + b@ + c@ + d@ + e@,
{
    let mut r = a.to_owned();
    push_str(&mut r, b);
    push_str(&mut r, c);
    push_str(&mut r, d);
    push_str(&mut r, e);
    r
}

fn mutable_binding_exec(e: &Expression, sc: &Vec<ExecScope>, op: &str, off: usize) -> (r: Result<(), SemanticError>)
    ensures
        res_view(r) == mutable_binding_check(e@, scopes_view(sc@), op@, off as int),
{
    if !is_place_exec(e) {
        return Err(err(off, cat3("`", op, "` expects a mutable place expression (`x`, `obj.field`, or `items[i]`)")));
    }
    match place_root_exec(e) {
        Some(root) => match lookup_exec(sc, root.as_str()) {
            None => Err(err(off, cat5("`", op, "` requires declared binding `", root.as_str(), "`"))),
            Some(b) => {
                let is_ident = matches!(e, Expression::Ident(_));
                let can = if is_ident { b.is_mut } else { b.can_write_through };
                if can {
                    Ok(())
                } else if is_ident {
                    Err(err(off, cat5("`", op, "` requires mutable binding `", root.as_str(), "` (declare with `mut` first)")))
                } else {
                    Err(err(off, cat5("`", op, "` through `", root.as_str(), "` requires mutable root binding or a unique reference (`~`)")))
                }
            },
        },
        None => Err(err(off, cat3("`", op, "` requires a mutable local binding"))),
    }
}

fn arity_exec(f: &Expression, n: usize, off: usize, sc: &Vec<ExecScope>) -> (r: Result<(), SemanticError>)
    ensures
        res_view(r) == arity_check(f@, n as int, off as int, scopes_view(sc@)),
{
    if let Expression::Ident(name) = f {
        if let Some(b) = lookup_exec(sc, name.as_str()) {
            if let Some(k) = b.callable_arity {
                if k != n {
                    let mut m = cat3("call to `", name.as_str(), "` expects ");
                    let ks = nat_to_text(k as u64);
                    push_str(&mut m, ks.as_str());
                    push_str(&mut m, " argument(s), found ");
                    let ns = nat_to_text(n as u64);
                    push_str(&mut m, ns.as_str());
                    return Err(err(off, m));
                }
            }
        }
    }
    Ok(())
}

fn pattern_binders_exec(prog: &Vec<Statement>, sc: &Vec<ExecScope>, e: &Expression, acc: &mut Vec<String>)
    ensures
        string_views(final(acc)@) == pattern_binders(ctx_of(stmts_view(prog@)), scopes_view(sc@), e@, string_views(old(acc)@)),
    decreases e,
{
    match e {
        Expression::Ident(n) => {
            if !resolvable_exec(prog, sc, n.as_str()) && !contains_str(acc, n.as_str()) {
                let ghost a0 = string_views(acc@);
                acc.push(n.clone());
                assert(string_views(acc@) =~= a0.push(n@));
            }
        },
        Expression::BinaryOp(l, _, r) => {
            pattern_binders_exec(prog, sc, l, acc);
            pattern_binders_exec(prog, sc, r, acc);
        },
        Expression::Call(f, args) | Expression::GenericCall(f, _, args) => {
            pattern_binders_exec(prog, sc, f, acc);
            binders_list_exec(prog, sc, args, acc);
        },
        Expression::MacroCall(_, args) => binders_list_exec(prog, sc, args, acc),
        Expression::Literal(Literal::List(items)) => binders_list_exec(prog, sc, items, acc),
        Expression::Tuple(items) => binders_list_exec(prog, sc, items, acc),
        Expression::MemberAccess(b, _) => pattern_binders_exec(prog, sc, b, acc),
        Expression::Move(b) => pattern_binders_exec(prog, sc, b, acc),
        Expression::SharedRef(b) => pattern_binders_exec(prog, sc, b, acc),
        Expression::UniqueRef(b) => pattern_binders_exec(prog, sc, b, acc),
        Expression::Question(b) => pattern_binders_exec(prog, sc, b, acc),
        Expression::Unwrap(b) => pattern_binders_exec(prog, sc, b, acc),
        Expression::Not(b) => pattern_binders_exec(prog, sc, b, acc),
        Expression::Index(b, i) => {
            pattern_binders_exec(prog, sc, b, acc);
            pattern_binders_exec(prog, sc, i, acc);
        },
        Expression::Range(a, b) | Expression::RangeInclusive(a, b) => {
            pattern_binders_exec(prog, sc, a, acc);
            pattern_binders_exec(prog, sc, b, acc);
        },
        _ => {},
    }
}

fn binders_list_exec(prog: &Vec<Statement>, sc: &Vec<ExecScope>, items: &Vec<Expression>, acc: &mut Vec<String>)
    ensures
        string_views(final(acc)@) == binders_list(ctx_of(stmts_view(prog@)), scopes_view(sc@), exprs_view(items@), string_views(old(acc)@)),
    decreases items,
{
    let ghost c = ctx_of(stmts_view(prog@));
    let ghost a0 = string_views(acc@);
    let mut i: usize = 0;
    proof { lemma_exprs_view(items@); }
    while i < items.len()
        invariant
            0 <= i <= items.len(),
            c == ctx_of(stmts_view(prog@)),
            exprs_view(items@).len() == items.len(),
            forall|j: int| 0 <= j < items.len() ==> #[trigger] exprs_view(items@)[j] == expr_view(items@[j]),
            string_views(acc@) == binders_list(c, scopes_view(sc@), exprs_view(items@).subrange(0, i as int), a0),
        decreases items.len() - i,
    {
        proof {
            assert(decreases_to!(items => items@));
            assert(decreases_to!(items@ => items@[i as int]));
            let sv = exprs_view(items@);
            assert(sv.subrange(0, i + 1).subrange(0, i as int) =~= sv.subrange(0, i as int));
        }
        pattern_binders_exec(prog, sc, &items[i], acc);
        i = i + 1;
    }
    assert(exprs_view(items@).subrange(0, i as int) =~= exprs_view(items@));
}

pub open spec fn field_names(fs: Seq<SParam>) -> Seq<Seq<char>> {
    fs.map_values(|f: SParam| f.name)
}

/// The fields of the last top-level struct named `n`.
fn struct_fields_exec<'a>(prog: &'a Vec<Statement>, n: &str) -> (r: Option<&'a Vec<Param>>)
    ensures
        match r {
            Some(fs) => assoc(ctx_of(stmts_view(prog@)).fields, n@) == Some(field_names(params_view(fs@))),
            None => assoc(ctx_of(stmts_view(prog@)).fields, n@) is None,
        },
{
    let ghost sv = stmts_view(prog@);
    let mut i = prog.len();
    proof { lemma_stmts_view(prog@); }
    assert(sv.take(i as int) =~= sv);
    while i > 0
        invariant
            0 <= i <= prog.len(),
            sv == stmts_view(prog@),
            sv.len() == prog.len(),
            forall|j: int| 0 <= j < prog.len() ==> #[trigger] sv[j] == stmt_view(prog@[j]),
            assoc(top_fields(sv), n@) == assoc(top_fields(sv.take(i as int)), n@),
        decreases i,
    {
        assert(sv.take(i as int).drop_last() =~= sv.take(i - 1));
        assert(sv.take(i as int).last() == sv[i - 1]);
        proof {
            let tf = top_fields(sv.take(i as int));
            if sv[i - 1].kind is Struct {
                assert(tf.drop_last() =~= top_fields(sv.take(i - 1)));
            } else {
                assert(tf == top_fields(sv.take(i - 1)));
            }
        }
        if let StatementKind::Struct { name, fields } = &prog[i - 1].kind {
            if text_eq(name.as_str(), n) {
                return Some(fields);
            }
        }
        i = i - 1;
    }
    None
}

fn field_listed(fields: &Vec<Param>, f: &str) -> (r: bool)
    ensures
        r == field_names(params_view(fields@)).contains(f@),
{
    let ghost names = field_names(params_view(fields@));
    let mut i: usize = 0;
    while i < fields.len()
        invariant
            0 <= i <= fields.len(),
            names == field_names(params_view(fields@)),
            forall|j: int| 0 <= j < i ==> names[j] != f@,
        decreases fields.len() - i,
    {
        assert(names[i as int] == fields@[i as int].name@);
        if text_eq(fields[i].name.as_str(), f) {
            return true;
        }
        i = i + 1;
    }
    false
}

/// Validates an expression (see `sv_expr`).
fn validate_expression(prog: &Vec<Statement>, e: &Expression, off: usize, sc: &mut Vec<ExecScope>) -> (r: Result<(), SemanticError>)
    ensures
        res_view(r) == sv_expr(ctx_of(stmts_view(prog@)), e@, off as int, scopes_view(old(sc)@)),
        final(sc)@ == old(sc)@,
    decreases e, 0int,
{
    match e {
        Expression::BinaryOp(l, op, r) => {
            if *op == BinaryOp::Assign {
                validate_target(prog, l, off, sc)?;
            } else {
                validate_expression(prog, l, off, sc)?;
            }
            validate_expression(prog, r, off, sc)
        },
        Expression::Call(f, args) => {
            validate_expression(prog, f, off, sc)?;
            if let Expression::Ident(n) = &**f {
                assert(expr_view(**f) == SExpr::Ident(n@));
                if let Some(fields) = struct_fields_exec(prog, n.as_str()) {
                    return validate_ctor(prog, n, fields, args, off, sc);
                }
                proof { lemma_exprs_view(args@); }
                arity_exec(f, args.len(), off, sc)?;
            }
            validate_expressions(prog, args, off, sc)
        },
        Expression::GenericCall(f, _, args) => {
            validate_expression(prog, f, off, sc)?;
            proof { lemma_exprs_view(args@); }
            arity_exec(f, args.len(), off, sc)?;
            validate_expressions(prog, args, off, sc)
        },
        Expression::MacroCall(_, args) => validate_expressions(prog, args, off, sc),
        Expression::Literal(Literal::List(items)) => validate_expressions(prog, items, off, sc),
        Expression::Literal(Literal::SetLiteral(items)) => validate_expressions(prog, items, off, sc),
        Expression::Literal(Literal::Dict(pairs)) => validate_pairs(prog, pairs, off, sc),
        Expression::Literal(_) => Ok(()),
        Expression::Tuple(items) => validate_expressions(prog, items, off, sc),
        Expression::Move(b) => {
            mutable_binding_exec(b, sc, "move", off)?;
            validate_expression(prog, b, off, sc)
        },
        Expression::UniqueRef(b) => {
            mutable_binding_exec(b, sc, "~", off)?;
            validate_expression(prog, b, off, sc)
        },
        Expression::MemberAccess(b, _) => validate_expression(prog, b, off, sc),
        Expression::SharedRef(b) => validate_expression(prog, b, off, sc),
        Expression::Question(b) => validate_expression(prog, b, off, sc),
        Expression::Unwrap(b) => validate_expression(prog, b, off, sc),
        Expression::Not(b) => validate_expression(prog, b, off, sc),
        Expression::Index(b, i) => {
            validate_expression(prog, b, off, sc)?;
            validate_expression(prog, i, off, sc)
        },
        Expression::Range(a, b) | Expression::RangeInclusive(a, b) => {
            validate_expression(prog, a, off, sc)?;
            validate_expression(prog, b, off, sc)
        },
        Expression::Ident(n) => {
            if resolvable_exec(prog, sc, n.as_str()) {
                Ok(())
            } else {
                Err(err(off, cat3("unknown identifier `", n.as_str(), "`")))
            }
        },
        Expression::Lambda { params, body } => {
            let ghost s0 = sc@;
            let mut scope: ExecScope = Vec::new();
            let mut k: usize = 0;
            while k < params.len()
                invariant
                    0 <= k <= params.len(),
                    scope_view(scope@) == param_bindings(params_view(params@)).take(k as int),
                decreases params.len() - k,
            {
                let p = &params[k];
                let w = p.is_mut || match &p.ty {
                    Some(Type::UniqueRef(_)) => true,
                    _ => false,
                };
                let ghost before = scope_view(scope@);
                scope.push((p.name.clone(), BindingInfo { is_mut: p.is_mut, can_write_through: w, callable_arity: None }));
                proof {
                    assert(params_view(params@)[k as int] == param_view(params@[k as int]));
                    assert(scope_view(scope@) =~= before.push(param_binding(param_view(params@[k as int]))));
                    assert(param_bindings(params_view(params@)).take(k + 1) =~= param_bindings(params_view(params@)).take(k as int).push(param_binding(param_view(params@[k as int]))));
                }
                k = k + 1;
            }
            assert(param_bindings(params_view(params@)).take(k as int) =~= param_bindings(params_view(params@)));
            sc.push(scope);
            assert(scopes_view(sc@) =~= scopes_view(s0).push(param_bindings(params_view(params@))));
            let r = validate_expression(prog, body, off, sc);
            sc.pop();
            assert(sc@ =~= s0);
            r
        },
    }
}

#[verifier::loop_isolation(false)]
fn validate_expressions(prog: &Vec<Statement>, items: &Vec<Expression>, off: usize, sc: &mut Vec<ExecScope>) -> (r: Result<(), SemanticError>)
    ensures
        res_view(r) == sv_exprs(ctx_of(stmts_view(prog@)), exprs_view(items@), off as int, scopes_view(old(sc)@)),
        final(sc)@ == old(sc)@,
    decreases items, 0int,
{
    let ghost c = ctx_of(stmts_view(prog@));
    let ghost s0 = sc@;
    let mut i: usize = 0;
    proof { lemma_exprs_view(items@); }
    while i < items.len()
        invariant
            0 <= i <= items.len(),
            c == ctx_of(stmts_view(prog@)),
            sc@ == s0,
            exprs_view(items@).len() == items.len(),
            forall|j: int| 0 <= j < items.len() ==> #[trigger] exprs_view(items@)[j] == expr_view(items@[j]),
            sv_exprs(c, exprs_view(items@).subrange(0, i as int), off as int, scopes_view(s0)) == Ok::<(), SErr>(()),
        decreases items.len() - i,
    {
        proof {
            assert(decreases_to!(items => items@));
            assert(decreases_to!(items@ => items@[i as int]));
            let sv = exprs_view(items@);
            assert(sv.subrange(0, i + 1).subrange(0, i as int) =~= sv.subrange(0, i as int));
        }
        let r = validate_expression(prog, &items[i], off, sc);
        if r.is_err() {
            proof { lemma_sv_exprs_prefix_err(c, exprs_view(items@), i + 1, off as int, scopes_view(s0)); }
            return r;
        }
        i = i + 1;
    }
    assert(exprs_view(items@).subrange(0, i as int) =~= exprs_view(items@));
    Ok(())
}

/// A failure in a prefix is the list's failure.
proof fn lemma_sv_exprs_prefix_err(c: VCtx, s: Seq<SExpr>, k: int, off: int, sc: Scopes)
    requires
        0 <= k <= s.len(),
        sv_exprs(c, s.subrange(0, k), off, sc) is Err,
    ensures
        sv_exprs(c, s, off, sc) == sv_exprs(c, s.subrange(0, k), off, sc),
    decreases s.len() - k,
{
    if k < s.len() {
        assert(s.subrange(0, k + 1).subrange(0, k) =~= s.subrange(0, k));
        lemma_sv_exprs_prefix_err(c, s, k + 1, off, sc);
    } else {
        assert(s.subrange(0, k) =~= s);
    }
}

proof fn lemma_sv_pairs_prefix_err(c: VCtx, s: Seq<(SExpr, SExpr)>, k: int, off: int, sc: Scopes)
    requires
        0 <= k <= s.len(),
        sv_pairs(c, s.subrange(0, k), off, sc) is Err,
    ensures
        sv_pairs(c, s, off, sc) == sv_pairs(c, s.subrange(0, k), off, sc),
    decreases s.len() - k,
{
    if k < s.len() {
        assert(s.subrange(0, k + 1).subrange(0, k) =~= s.subrange(0, k));
        lemma_sv_pairs_prefix_err(c, s, k + 1, off, sc);
    } else {
        assert(s.subrange(0, k) =~= s);
    }
}

#[verifier::loop_isolation(false)]
fn validate_pairs(prog: &Vec<Statement>, pairs: &Vec<(Expression, Expression)>, off: usize, sc: &mut Vec<ExecScope>) -> (r: Result<(), SemanticError>)
    ensures
        res_view(r) == sv_pairs(ctx_of(stmts_view(prog@)), pairs_view(pairs@), off as int, scopes_view(old(sc)@)),
        final(sc)@ == old(sc)@,
    decreases pairs, 0int,
{
    let ghost c = ctx_of(stmts_view(prog@));
    let ghost s0 = sc@;
    let mut i: usize = 0;
    proof { lemma_pairs_view(pairs@); }
    while i < pairs.len()
        invariant
            0 <= i <= pairs.len(),
            c == ctx_of(stmts_view(prog@)),
            sc@ == s0,
            pairs_view(pairs@).len() == pairs.len(),
            forall|j: int| 0 <= j < pairs.len() ==> #[trigger] pairs_view(pairs@)[j] == (expr_view(pairs@[j].0), expr_view(pairs@[j].1)),
            sv_pairs(c, pairs_view(pairs@).subrange(0, i as int), off as int, scopes_view(s0)) == Ok::<(), SErr>(()),
        decreases pairs.len() - i,
    {
        proof {
            assert(decreases_to!(pairs => pairs@));
            assert(decreases_to!(pairs@ => pairs@[i as int]));
            assert(decreases_to!(pairs@[i as int] => pairs@[i as int].0));
            assert(decreases_to!(pairs@[i as int] => pairs@[i as int].1));
            let sv = pairs_view(pairs@);
            assert(sv.subrange(0, i + 1).subrange(0, i as int) =~= sv.subrange(0, i as int));
        }
        let r = validate_expression(prog, &pairs[i].0, off, sc);
        if r.is_err() {
            proof { lemma_sv_pairs_prefix_err(c, pairs_view(pairs@), i + 1, off as int, scopes_view(s0)); }
            return r;
        }
        let r = validate_expression(prog, &pairs[i].1, off, sc);
        if r.is_err() {
            proof { lemma_sv_pairs_prefix_err(c, pairs_view(pairs@), i + 1, off as int, scopes_view(s0)); }
            return r;
        }
        i = i + 1;
    }
    assert(pairs_view(pairs@).subrange(0, i as int) =~= pairs_view(pairs@));
    Ok(())
}

fn validate_place_sub(prog: &Vec<Statement>, e: &Expression, off: usize, sc: &mut Vec<ExecScope>) -> (r: Result<(), SemanticError>)
    ensures
        res_view(r) == sv_place_sub(ctx_of(stmts_view(prog@)), e@, off as int, scopes_view(old(sc)@)),
        final(sc)@ == old(sc)@,
    decreases e, 0int,
{
    match e {
        Expression::MemberAccess(b, _) => validate_place_sub(prog, b, off, sc),
        Expression::Index(b, i) => {
            validate_place_sub(prog, b, off, sc)?;
            validate_expression(prog, i, off, sc)
        },
        Expression::Ident(_) => Ok(()),
        _ => Err(err(off, "assignment expects a place expression on the left side (`x`, `obj.field`, or `items[i]`)".to_owned())),
    }
}

fn validate_target(prog: &Vec<Statement>, e: &Expression, off: usize, sc: &mut Vec<ExecScope>) -> (r: Result<(), SemanticError>)
    ensures
        res_view(r) == sv_target(ctx_of(stmts_view(prog@)), e@, off as int, scopes_view(old(sc)@)),
        final(sc)@ == old(sc)@,
    decreases e, 1int,
{
    if !is_place_exec(e) {
        return Err(err(off, "assignment expects a place expression on the left side (`x`, `obj.field`, or `items[i]`)".to_owned()));
    }
    validate_place_sub(prog, e, off, sc)?;
    match place_root_exec(e) {
        None => Err(err(off, "assignment requires a declared local binding on the left side".to_owned())),
        Some(root) => match lookup_exec(sc, root.as_str()) {
            None => Err(err(off, cat3("assignment requires declared binding `", root.as_str(), "`"))),
            Some(b) => {
                let is_ident = matches!(e, Expression::Ident(_));
                let can = if is_ident { b.is_mut } else { b.can_write_through };
                if can {
                    Ok(())
                } else if is_ident {
                    Err(err(off, cat3("assignment requires mutable binding `", root.as_str(), "` (declare with `mut` first)")))
                } else {
                    Err(err(off, cat3("assignment through `", root.as_str(), "` requires mutable root binding or a unique reference (`~`)")))
                }
            },
        },
    }
}

proof fn lemma_ctor_scan_prefix_err(c: VCtx, name: Seq<char>, fs: Seq<Seq<char>>, s: Seq<SExpr>, k: int, off: int, sc: Scopes)
    requires
        0 <= k <= s.len(),
        ctor_scan(c, name, fs, s.subrange(0, k), off, sc) is Err,
    ensures
        ctor_scan(c, name, fs, s, off, sc) == ctor_scan(c, name, fs, s.subrange(0, k), off, sc),
    decreases s.len() - k,
{
    if k < s.len() {
        assert(s.subrange(0, k + 1).subrange(0, k) =~= s.subrange(0, k));
        lemma_ctor_scan_prefix_err(c, name, fs, s, k + 1, off, sc);
    } else {
        assert(s.subrange(0, k) =~= s);
    }
}

/// The arguments of a constructor call (see `ctor_scan`).
#[verifier::loop_isolation(false)]
fn ctor_scan_exec(prog: &Vec<Statement>, name: &String, fields: &Vec<Param>, args: &Vec<Expression>, off: usize, sc: &mut Vec<ExecScope>) -> (r: Result<(Vec<String>, usize), SemanticError>)
    ensures
        match r {
            Ok((named, pos)) => ctor_scan(ctx_of(stmts_view(prog@)), name@, field_names(params_view(fields@)), exprs_view(args@), off as int, scopes_view(old(sc)@))
                == Ok::<(Seq<Seq<char>>, int), SErr>((string_views(named@), pos as int)) && pos <= args.len(),
            Err(e) => ctor_scan(ctx_of(stmts_view(prog@)), name@, field_names(params_view(fields@)), exprs_view(args@), off as int, scopes_view(old(sc)@))
                == Err::<(Seq<Seq<char>>, int), SErr>(err_view(e)),
        },
        final(sc)@ == old(sc)@,
    decreases args, 0int,
{
    let ghost c = ctx_of(stmts_view(prog@));
    let ghost fs = field_names(params_view(fields@));
    let ghost s0 = sc@;
    let ghost sv = exprs_view(args@);
    let mut named: Vec<String> = Vec::new();
    let mut pos: usize = 0;
    let mut i: usize = 0;
    proof { lemma_exprs_view(args@); }
    assert(string_views(named@) =~= Seq::<Seq<char>>::empty());
    while i < args.len()
        invariant
            0 <= i <= args.len(),
            pos <= i,
            c == ctx_of(stmts_view(prog@)),
            fs == field_names(params_view(fields@)),
            sv == exprs_view(args@),
            sc@ == s0,
            sv.len() == args.len(),
            forall|j: int| 0 <= j < args.len() ==> #[trigger] sv[j] == expr_view(args@[j]),
            ctor_scan(c, name@, fs, sv.subrange(0, i as int), off as int, scopes_view(s0))
                == Ok::<(Seq<Seq<char>>, int), SErr>((string_views(named@), pos as int)),
        decreases args.len() - i,
    {
        proof {
            assert(decreases_to!(args => args@));
            assert(decreases_to!(args@ => args@[i as int]));
            assert(sv.subrange(0, i + 1).subrange(0, i as int) =~= sv.subrange(0, i as int));
            assert(sv.subrange(0, i + 1)[i as int] == sv[i as int]);
        }
        let arg = &args[i];
        let mut handled = false;
        if let Expression::BinaryOp(l, op, v) = arg {
            if *op == BinaryOp::Assign {
                handled = true;
                assert(sv[i as int] == expr_view(*arg));
                match &**l {
                    Expression::Ident(f) => {
                        assert(expr_view(**l) == SExpr::Ident(f@));
                        if !field_listed(fields, f.as_str()) {
                            let e = err(off, cat5("constructor `", name.as_str(), "` has no field `", f.as_str(), "`"));
                            proof { lemma_ctor_scan_prefix_err(c, name@, fs, sv, i + 1, off as int, scopes_view(s0)); }
                            return Err(e);
                        }
                        if contains_str(&named, f.as_str()) {
                            let e = err(off, cat5("constructor `", name.as_str(), "` received duplicate field `", f.as_str(), "`"));
                            proof { lemma_ctor_scan_prefix_err(c, name@, fs, sv, i + 1, off as int, scopes_view(s0)); }
                            return Err(e);
                        }
                        let r = validate_expression(prog, v, off, sc);
                        if let Err(e) = r {
                            proof { lemma_ctor_scan_prefix_err(c, name@, fs, sv, i + 1, off as int, scopes_view(s0)); }
                            return Err(e);
                        }
                        let ghost n0 = string_views(named@);
                        named.push(f.clone());
                        assert(string_views(named@) =~= n0.push(f@));
                    },
                    _ => {
                        assert(!(expr_view(**l) is Ident));
                        let e = err(off, "named constructor arguments must be in `field = value` form".to_owned());
                        proof { lemma_ctor_scan_prefix_err(c, name@, fs, sv, i + 1, off as int, scopes_view(s0)); }
                        return Err(e);
                    },
                }
            }
        }
        if !handled {
            proof {
                assert(sv[i as int] == expr_view(*arg));
                if let Expression::BinaryOp(l, op, v) = arg {
                    assert(*op != BinaryOp::Assign);
                }
            }
            let r = validate_expression(prog, arg, off, sc);
            if let Err(e) = r {
                proof { lemma_ctor_scan_prefix_err(c, name@, fs, sv, i + 1, off as int, scopes_view(s0)); }
                return Err(e);
            }
            pos = pos + 1;
        }
        i = i + 1;
    }
    assert(sv.subrange(0, i as int) =~= sv);
    Ok((named, pos))
}

/// A struct constructor call (see `sv_ctor`).
fn validate_ctor(prog: &Vec<Statement>, name: &String, fields: &Vec<Param>, args: &Vec<Expression>, off: usize, sc: &mut Vec<ExecScope>) -> (r: Result<(), SemanticError>)
    ensures
        res_view(r) == sv_ctor(ctx_of(stmts_view(prog@)), name@, field_names(params_view(fields@)), exprs_view(args@), off as int, scopes_view(old(sc)@)),
        final(sc)@ == old(sc)@,
    decreases args, 1int,
{
    let ghost fs = field_names(params_view(fields@));
    let (named, pos) = ctor_scan_exec(prog, name, fields, args, off, sc)?;
    let avail = if fields.len() >= named.len() { fields.len() - named.len() } else { 0 };
    if pos > avail {
        return Err(err(off, cat3("constructor `", name.as_str(), "` received too many positional arguments")));
    }
    let mut missing: Vec<String> = Vec::new();
    let mut remaining = pos;
    let mut j: usize = 0;
    let ghost nv = string_views(named@);
    assert(fs.subrange(0, fs.len() as int) =~= fs);
    assert(string_views(missing@) + ctor_missing(fs.subrange(0, fs.len() as int), nv, pos as int) =~= ctor_missing(fs, nv, pos as int));
    while j < fields.len()
        invariant
            0 <= j <= fields.len(),
            fs == field_names(params_view(fields@)),
            nv == string_views(named@),
            fs.len() == fields.len(),
            string_views(missing@) + ctor_missing(fs.subrange(j as int, fs.len() as int), nv, remaining as int) == ctor_missing(fs, nv, pos as int),
        decreases fields.len() - j,
    {
        let ghost rest = fs.subrange(j as int, fs.len() as int);
        assert(rest.drop_first() =~= fs.subrange(j + 1, fs.len() as int));
        assert(rest[0] == fields@[j as int].name@);
        let ghost m0 = string_views(missing@);
        if contains_str(&named, fields[j].name.as_str()) {
        } else if remaining > 0 {
            remaining = remaining - 1;
        } else {
            push_string(&mut missing, fields[j].name.clone());
            assert(string_views(missing@) + ctor_missing(rest.drop_first(), nv, remaining as int) =~= m0 + ctor_missing(rest, nv, remaining as int));
        }
        j = j + 1;
    }
    assert(string_views(missing@) + ctor_missing(fs.subrange(j as int, fs.len() as int), nv, remaining as int) =~= string_views(missing@));
    if missing.len() > 0 {
        let mut m = cat3("constructor `", name.as_str(), "` is missing fields: ");
        let joined = join_strings(&missing, ", ");
        push_str(&mut m, joined.as_str());
        return Err(err(off, m));
    }
    Ok(())
}

fn push_string(v: &mut Vec<String>, s: String)
    ensures
        string_views(final(v)@) == string_views(old(v)@).push(s@),
{
    v.push(s);
    assert(string_views(final(v)@) =~= string_views(old(v)@).push(s@));
}

pub(crate) fn debug_str_exec(s: &String) -> (r: String)
    ensures
        r@ == debug_str(s@),
{
    let v = chars_of(s.as_str());
    let mut out = "\"".to_owned();
    let mut i: usize = 0;
    let ghost head = out@;
    while i < v.len()
        invariant
            0 <= i <= v.len(),
            v@ == s@,
            head == "\""@,
            out@ == head + debug_escape(v@.take(i as int)),
        decreases v.len() - i,
    {
        assert(v@.take(i + 1).drop_last() =~= v@.take(i as int));
        let c = v[i];
        if c == '\\' {
            push_str(&mut out, "\\\\");
        } else if c == '"' {
            push_str(&mut out, "\\\"");
        } else if c == '\n' {
            push_str(&mut out, "\\n");
        } else if c == '\r' {
            push_str(&mut out, "\\r");
        } else if c == '\t' {
            push_str(&mut out, "\\t");
        } else {
            push_char(&mut out, c);
        }
        i = i + 1;
    }
    assert(v@.take(i as int) =~= v@);
    push_str(&mut out, "\"");
    out
}

fn debug_type_exec(t: &Type) -> (r: String)
    ensures
        r@ == debug_type(t@),
    decreases t,
{
    match t {
        Type::Simple(n) => {
            let d = debug_str_exec(n);
            cat3("Simple(", d.as_str(), ")")
        },
        Type::Generic(n, args) => {
            let d = debug_str_exec(n);
            let mut out = cat3("Generic(", d.as_str(), ", [");
            let parts = debug_types_exec(args);
            let joined = join_strings(&parts, ", ");
            push_str(&mut out, joined.as_str());
            push_str(&mut out, "])");
            out
        },
        Type::Tuple(items) => {
            let parts = debug_types_exec(items);
            let joined = join_strings(&parts, ", ");
            cat3("Tuple([", joined.as_str(), "])")
        },
        Type::SharedRef(b) => {
            let inner = debug_type_exec(b);
            cat3("SharedRef(", inner.as_str(), ")")
        },
        Type::UniqueRef(b) => {
            let inner = debug_type_exec(b);
            cat3("UniqueRef(", inner.as_str(), ")")
        },
    }
}

fn debug_types_exec(items: &Vec<Type>) -> (r: Vec<String>)
    ensures
        string_views(r@) == debug_types(types_view(items@)),
    decreases items,
{
    let mut out: Vec<String> = Vec::new();
    let mut i: usize = 0;
    proof { lemma_types_view(items@); }
    while i < items.len()
        invariant
            0 <= i <= items.len(),
            types_view(items@).len() == items.len(),
            forall|j: int| 0 <= j < items.len() ==> #[trigger] types_view(items@)[j] == type_view(items@[j]),
            string_views(out@) == debug_types(types_view(items@).subrange(0, i as int)),
        decreases items.len() - i,
    {
        proof {
            assert(decreases_to!(items => items@));
            assert(decreases_to!(items@ => items@[i as int]));
        }
        let piece = debug_type_exec(&items[i]);
        push_string(&mut out, piece);
        proof {
            let sv = types_view(items@);
            assert(sv.subrange(0, i + 1).subrange(0, i as int) =~= sv.subrange(0, i as int));
        }
        i = i + 1;
    }
    assert(types_view(items@).subrange(0, i as int) =~= types_view(items@));
    out
}

fn opt_type_text_exec(o: &Option<Type>) -> (r: String)
    ensures
        r@ == opt_type_text(opt_type_view(*o)),
{
    match o {
        Some(t) => debug_type_exec(t),
        None => "unspecified".to_owned(),
    }
}

/// Whether two types are the same.
fn type_eq(a: &Type, b: &Type) -> (r: bool)
    ensures
        r == (a@ == b@),
    decreases a,
{
    match (a, b) {
        (Type::Simple(x), Type::Simple(y)) => text_eq(x.as_str(), y.as_str()),
        (Type::Generic(x, xs), Type::Generic(y, ys)) => text_eq(x.as_str(), y.as_str()) && types_eq(xs, ys),
        (Type::Tuple(xs), Type::Tuple(ys)) => types_eq(xs, ys),
        (Type::SharedRef(x), Type::SharedRef(y)) => type_eq(x, y),
        (Type::UniqueRef(x), Type::UniqueRef(y)) => type_eq(x, y),
        _ => false,
    }
}

fn types_eq(xs: &Vec<Type>, ys: &Vec<Type>) -> (r: bool)
    ensures
        r == (types_view(xs@) == types_view(ys@)),
    decreases xs,
{
    proof {
        lemma_types_view(xs@);
        lemma_types_view(ys@);
    }
    if xs.len() != ys.len() {
        return false;
    }
    let mut i: usize = 0;
    while i < xs.len()
        invariant
            0 <= i <= xs.len(),
            xs.len() == ys.len(),
            types_view(xs@).len() == xs.len(),
            types_view(ys@).len() == ys.len(),
            forall|j: int| 0 <= j < xs.len() ==> #[trigger] types_view(xs@)[j] == type_view(xs@[j]),
            forall|j: int| 0 <= j < ys.len() ==> #[trigger] types_view(ys@)[j] == type_view(ys@[j]),
            forall|j: int| 0 <= j < i ==> types_view(xs@)[j] == types_view(ys@)[j],
        decreases xs.len() - i,
    {
        proof {
            assert(decreases_to!(xs => xs@));
            assert(decreases_to!(xs@ => xs@[i as int]));
        }
        if !type_eq(&xs[i], &ys[i]) {
            assert(types_view(xs@)[i as int] != types_view(ys@)[i as int]);
            return false;
        }
        i = i + 1;
    }
    assert(types_view(xs@) =~= types_view(ys@));
    true
}

fn opt_type_eq(a: &Option<Type>, b: &Option<Type>) -> (r: bool)
    ensures
        r == (opt_type_view(*a) == opt_type_view(*b)),
{
    match (a, b) {
        (Some(x), Some(y)) => type_eq(x, y),
        (None, None) => true,
        _ => false,
    }
}

pub open spec fn sig_params(ps: Seq<Param>) -> Seq<(bool, Option<SType>)> {
    params_view(ps).map_values(|p: SParam| (p.is_mut, p.ty))
}

/// Why the second signature does not match the first (see `sig_mismatch`).
fn sig_mismatch_exec(ep: &Vec<Param>, eret: &Option<Type>, ap: &Vec<Param>, aret: &Option<Type>) -> (r: Option<String>)
    ensures
        match r {
            Some(s) => sig_mismatch(SSig { params: sig_params(ep@), ret: opt_type_view(*eret) }, SSig { params: sig_params(ap@), ret: opt_type_view(*aret) }) == Some(s@),
            None => sig_mismatch(SSig { params: sig_params(ep@), ret: opt_type_view(*eret) }, SSig { params: sig_params(ap@), ret: opt_type_view(*aret) }) is None,
        },
{
    let ghost e = sig_params(ep@);
    let ghost a = sig_params(ap@);
    if ep.len() != ap.len() {
        let mut m = "expected ".to_owned();
        let x = nat_to_text(ep.len() as u64);
        push_str(&mut m, x.as_str());
        push_str(&mut m, " parameter(s), found ");
        let y = nat_to_text(ap.len() as u64);
        push_str(&mut m, y.as_str());
        return Some(m);
    }
    let mut i: usize = 0;
    while i < ep.len()
        invariant
            0 <= i <= ep.len(),
            ep.len() == ap.len(),
            e == sig_params(ep@),
            a == sig_params(ap@),
            params_mismatch(e, a, 0) == params_mismatch(e, a, i as int),
        decreases ep.len() - i,
    {
        assert(e[i as int] == (ep@[i as int].is_mut, opt_type_view(ep@[i as int].ty)));
        assert(a[i as int] == (ap@[i as int].is_mut, opt_type_view(ap@[i as int].ty)));
        let position = nat_to_text((i + 1) as u64);
        if ep[i].is_mut != ap[i].is_mut {
            let mut m = cat3("parameter ", position.as_str(), " mutability mismatch (expected `");
            push_str(&mut m, if ep[i].is_mut { "mut" } else { "non-mut" });
            push_str(&mut m, "`, found `");
            push_str(&mut m, if ap[i].is_mut { "mut" } else { "non-mut" });
            push_str(&mut m, "`)");
            return Some(m);
        }
        if !opt_type_eq(&ep[i].ty, &ap[i].ty) {
            let mut m = cat3("parameter ", position.as_str(), " type mismatch (expected `");
            let x = opt_type_text_exec(&ep[i].ty);
            push_str(&mut m, x.as_str());
            push_str(&mut m, "`, found `");
            let y = opt_type_text_exec(&ap[i].ty);
            push_str(&mut m, y.as_str());
            push_str(&mut m, "`)");
            return Some(m);
        }
        i = i + 1;
    }
    if !opt_type_eq(eret, aret) {
        let mut m = "return type mismatch (expected `".to_owned();
        let x = opt_type_text_exec(eret);
        push_str(&mut m, x.as_str());
        push_str(&mut m, "`, found `");
        let y = opt_type_text_exec(aret);
        push_str(&mut m, y.as_str());
        push_str(&mut m, "`)");
        return Some(m);
    }
    None
}

fn strs_contain(v: &Vec<&str>, upto: usize, n: &str) -> (r: bool)
    requires
        upto <= v.len(),
    ensures
        r == seq_str_views(v@).take(upto as int).contains(n@),
{
    let ghost t = seq_str_views(v@).take(upto as int);
    let mut j: usize = 0;
    while j < upto
        invariant
            0 <= j <= upto <= v.len(),
            t == seq_str_views(v@).take(upto as int),
            forall|k: int| 0 <= k < j ==> t[k] != n@,
        decreases upto - j,
    {
        assert(t[j as int] == v@[j as int]@);
        if text_eq(v[j], n) {
            return true;
        }
        j = j + 1;
    }
    false
}

/// The index of the first name that repeats an earlier one.
fn first_dup_exec(names: &Vec<&str>) -> (r: Option<usize>)
    ensures
        match r {
            Some(k) => k < names.len() && first_dup(seq_str_views(names@), 0, seq![]) == Some(names@[k as int]@),
            None => first_dup(seq_str_views(names@), 0, seq![]) is None,
        },
{
    let ghost v = seq_str_views(names@);
    let mut i: usize = 0;
    assert(v.take(0) =~= Seq::<Seq<char>>::empty());
    while i < names.len()
        invariant
            0 <= i <= names.len(),
            v == seq_str_views(names@),
            first_dup(v, 0, seq![]) == first_dup(v, i as int, v.take(i as int)),
        decreases names.len() - i,
    {
        assert(v[i as int] == names@[i as int]@);
        if strs_contain(names, i, names[i]) {
            return Some(i);
        }
        assert(v.take(i + 1) =~= v.take(i as int).push(v[i as int]));
        i = i + 1;
    }
    None
}

fn err_dup(off: usize, pre: &str, n: &str, post: &str) -> (r: SemanticError)
    ensures
        err_view(r) == (off as int, pre@ + n@ + post@),
{
    err(off, cat3(pre, n, post))
}

fn local_names(items: &Vec<ImportItem>) -> (r: Vec<&str>)
    ensures
        seq_str_views(r@) == items@.map_values(|i: ImportItem| import_view(i)).map_values(|i: SImport| local_name(i)),
{
    let ghost want = items@.map_values(|i: ImportItem| import_view(i)).map_values(|i: SImport| local_name(i));
    let mut v: Vec<&str> = Vec::new();
    let mut i: usize = 0;
    while i < items.len()
        invariant
            0 <= i <= items.len(),
            want == items@.map_values(|i: ImportItem| import_view(i)).map_values(|i: SImport| local_name(i)),
            seq_str_views(v@) == want.take(i as int),
        decreases items.len() - i,
    {
        let n: &str = match &items[i].alias {
            Some(a) => a.as_str(),
            None => items[i].name.as_str(),
        };
        let ghost v0 = seq_str_views(v@);
        v.push(n);
        assert(seq_str_views(v@) =~= v0.push(n@));
        assert(want.take(i + 1) =~= want.take(i as int).push(n@));
        i = i + 1;
    }
    assert(want.take(i as int) =~= want);
    v
}

fn item_names(items: &Vec<ImportItem>) -> (r: Vec<&str>)
    ensures
        seq_str_views(r@) == items@.map_values(|i: ImportItem| import_view(i)).map_values(|i: SImport| i.name),
{
    let ghost want = items@.map_values(|i: ImportItem| import_view(i)).map_values(|i: SImport| i.name);
    let mut v: Vec<&str> = Vec::new();
    let mut i: usize = 0;
    while i < items.len()
        invariant
            0 <= i <= items.len(),
            want == items@.map_values(|i: ImportItem| import_view(i)).map_values(|i: SImport| i.name),
            seq_str_views(v@) == want.take(i as int),
        decreases items.len() - i,
    {
        let n: &str = items[i].name.as_str();
        let ghost v0 = seq_str_views(v@);
        v.push(n);
        assert(seq_str_views(v@) =~= v0.push(n@));
        assert(want.take(i + 1) =~= want.take(i as int).push(n@));
        i = i + 1;
    }
    assert(want.take(i as int) =~= want);
    v
}

/// The items of one from-import (see `from_items_check`).
fn from_items_exec(items: &Vec<ImportItem>, off: usize) -> (r: Result<(), SemanticError>)
    ensures
        res_view(r) == from_items_check(items@.map_values(|i: ImportItem| import_view(i)), off as int),
{
    let ghost iv = items@.map_values(|i: ImportItem| import_view(i));
    let names = item_names(items);
    assert(seq_str_views(names@) =~= iv.map_values(|i: SImport| i.name));
    if let Some(k) = first_dup_exec(&names) {
        return Err(err_dup(off, "duplicate from-import item `", names[k], "`"));
    }
    let locals = local_names(items);
    assert(seq_str_views(locals@) =~= iv.map_values(|i: SImport| local_name(i)));
    if let Some(k) = first_dup_exec(&locals) {
        return Err(err_dup(off, "from-import introduces duplicate local name `", locals[k], "` in one statement"));
    }
    Ok(())
}

/// Binds each name plainly (see `bind_new`).
fn bind_new_exec(sc: &mut Vec<ExecScope>, names: &Vec<&str>, off: usize) -> (r: Result<(), SemanticError>)
    ensures
        match r {
            Ok(_) => bind_new(scopes_view(old(sc)@), seq_str_views(names@), 0, off as int) == Ok::<Scopes, SErr>(scopes_view(final(sc)@)),
            Err(e) => bind_new(scopes_view(old(sc)@), seq_str_views(names@), 0, off as int) == Err::<Scopes, SErr>(err_view(e)),
        },
        same_outer(old(sc)@, final(sc)@),
{
    let ghost v = seq_str_views(names@);
    let ghost s0 = scopes_view(sc@);
    let mut i: usize = 0;
    while i < names.len()
        invariant
            0 <= i <= names.len(),
            v == seq_str_views(names@),
            same_outer(old(sc)@, sc@),
            bind_new(s0, v, 0, off as int) == bind_new(scopes_view(sc@), v, i as int, off as int),
            s0 == scopes_view(old(sc)@),
        decreases names.len() - i,
    {
        assert(v[i as int] == names@[i as int]@);
        if in_current_exec(sc, names[i]) {
            return Err(err_dup(off, "duplicate local name `", names[i], "` in same scope"));
        }
        bind_exec(sc, names[i].to_owned(), BindingInfo { is_mut: false, can_write_through: false, callable_arity: None });
        i = i + 1;
    }
    Ok(())
}

/// A block's declarations (see `spre`).
#[verifier::loop_isolation(false)]
fn predeclare_exec(stmts: &Vec<Statement>, sc: &mut Vec<ExecScope>) -> (r: Result<(), SemanticError>)
    ensures
        match r {
            Ok(_) => spre(stmts_view(stmts@), 0, scopes_view(old(sc)@)) == Ok::<Scopes, SErr>(scopes_view(final(sc)@)),
            Err(e) => spre(stmts_view(stmts@), 0, scopes_view(old(sc)@)) == Err::<Scopes, SErr>(err_view(e)),
        },
        same_outer(old(sc)@, final(sc)@),
{
    let ghost sv = stmts_view(stmts@);
    let ghost s0 = scopes_view(sc@);
    let mut i: usize = 0;
    proof { lemma_stmts_view(stmts@); }
    while i < stmts.len()
        invariant
            0 <= i <= stmts.len(),
            sv == stmts_view(stmts@),
            sv.len() == stmts.len(),
            forall|j: int| 0 <= j < stmts.len() ==> #[trigger] sv[j] == stmt_view(stmts@[j]),
            same_outer(old(sc)@, sc@),
            s0 == scopes_view(old(sc)@),
            spre(sv, 0, s0) == spre(sv, i as int, scopes_view(sc@)),
        decreases stmts.len() - i,
    {
        let st = &stmts[i];
        let off = st.span.start;
        match &st.kind {
            StatementKind::Def { name, params, .. } => {
                if in_current_exec(sc, name.as_str()) {
                    return Err(err_dup(off, "duplicate local name `", name.as_str(), "` in same scope"));
                }
                proof { assert(params_view(params@).len() == params.len()); }
                bind_exec(sc, name.clone(), BindingInfo { is_mut: false, can_write_through: false, callable_arity: Some(params.len()) });
            },
            StatementKind::Import { path, alias } => {
                let a: Option<&str> = match alias {
                    Some(x) => Some(x.as_str()),
                    None => None,
                };
                if let Some(u) = rust_use_from_import(path.as_str(), a) {
                    if let Some(n) = rust_import_binding_name(u.as_str()) {
                        let one: Vec<&str> = vec![n];
                        assert(seq_str_views(one@) =~= seq![n@]);
                        bind_new_exec(sc, &one, off)?;
                    }
                }
            },
            StatementKind::FromImport { path, items } => {
                from_items_exec(items, off)?;
                if rust_use_from_import_path(path.as_str()).is_some() {
                    let locals = local_names(items);
                    bind_new_exec(sc, &locals, off)?;
                }
            },
            _ => {},
        }
        i = i + 1;
    }
    Ok(())
}

fn shapes_exec(methods: &Vec<Statement>, off: usize, owner: &String) -> (r: Result<(), SemanticError>)
    ensures
        res_view(r) == shapes_check(stmts_view(methods@), 0, off as int, owner@),
{
    let ghost sv = stmts_view(methods@);
    let mut i: usize = 0;
    proof { lemma_stmts_view(methods@); }
    while i < methods.len()
        invariant
            0 <= i <= methods.len(),
            sv == stmts_view(methods@),
            sv.len() == methods.len(),
            forall|j: int| 0 <= j < methods.len() ==> #[trigger] sv[j] == stmt_view(methods@[j]),
            shapes_check(sv, 0, off as int, owner@) == shapes_check(sv, i as int, off as int, owner@),
        decreases methods.len() - i,
    {
        if !matches!(methods[i].kind, StatementKind::Def { .. }) {
            let s = methods[i].span.start;
            let o = if s >= off { s } else { off };
            let mut m = owner.clone();
            push_str(&mut m, " can only contain `def` method declarations");
            return Err(err(o, m));
        }
        i = i + 1;
    }
    Ok(())
}

fn unique_methods_exec(methods: &Vec<Statement>, off: usize, owner: &String) -> (r: Result<(), SemanticError>)
    ensures
        res_view(r) == unique_methods(stmts_view(methods@), 0, seq![], off as int, owner@),
{
    let ghost sv = stmts_view(methods@);
    let mut seen: Vec<&str> = Vec::new();
    let mut i: usize = 0;
    proof { lemma_stmts_view(methods@); }
    assert(seq_str_views(seen@) =~= Seq::<Seq<char>>::empty());
    while i < methods.len()
        invariant
            0 <= i <= methods.len(),
            sv == stmts_view(methods@),
            sv.len() == methods.len(),
            forall|j: int| 0 <= j < methods.len() ==> #[trigger] sv[j] == stmt_view(methods@[j]),
            unique_methods(sv, 0, seq![], off as int, owner@) == unique_methods(sv, i as int, seq_str_views(seen@), off as int, owner@),
        decreases methods.len() - i,
    {
        if let StatementKind::Def { name, .. } = &methods[i].kind {
            if strs_contain(&seen, seen.len(), name.as_str()) {
                assert(seq_str_views(seen@).take(seen.len() as int) =~= seq_str_views(seen@));
                let s = methods[i].span.start;
                let o = if s >= off { s } else { off };
                let mut m = cat3("duplicate method `", name.as_str(), "` in ");
                push_str(&mut m, owner.as_str());
                return Err(err(o, m));
            }
            assert(seq_str_views(seen@).take(seen.len() as int) =~= seq_str_views(seen@));
            let ghost s0 = seq_str_views(seen@);
            seen.push(name.as_str());
            assert(seq_str_views(seen@) =~= s0.push(name@));
        }
        i = i + 1;
    }
    Ok(())
}

/// A name has a signature in a block exactly when the block defines it.
proof fn lemma_def_sigs_names(s: Seq<SStmt>, n: Seq<char>)
    ensures
        (assoc(def_sigs(s), n) is Some) == def_names(s).contains(n),
    decreases s.len(),
{
    if s.len() > 0 {
        lemma_def_sigs_names(s.drop_last(), n);
        let prev = def_names(s.drop_last());
        let psig = def_sigs(s.drop_last());
        match s.last().kind {
            SKind::Def(m, _, _, _) => {
                let now = prev.push(m);
                assert(def_names(s) == now);
                assert(def_sigs(s) == psig.push((m, sig_of(s.last()))));
                assert(psig.push((m, sig_of(s.last()))).drop_last() =~= psig);
                assert(now[prev.len() as int] == m);
                if prev.contains(n) {
                    let k = choose|k: int| 0 <= k < prev.len() && prev[k] == n;
                    assert(now[k] == n);
                }
                if now.contains(n) && m != n {
                    let k = choose|k: int| 0 <= k < now.len() && now[k] == n;
                    assert(prev[k] == n);
                }
            },
            _ => {
                assert(def_names(s) == prev);
                assert(def_sigs(s) == psig);
            },
        }
    }
}

/// The last `def` of a block named `n`: its index, whose signature is the
/// one the block associates with `n`.
fn last_def(methods: &Vec<Statement>, n: &str) -> (r: Option<usize>)
    ensures
        match r {
            Some(k) => k < methods.len() && methods@[k as int].kind is Def
                && assoc(def_sigs(stmts_view(methods@)), n@) == Some(sig_of(stmt_view(methods@[k as int]))),
            None => assoc(def_sigs(stmts_view(methods@)), n@) is None,
        },
{
    let ghost sv = stmts_view(methods@);
    proof { lemma_stmts_view(methods@); }
    let mut i = methods.len();
    assert(sv.take(i as int) =~= sv);
    while i > 0
        invariant
            0 <= i <= methods.len(),
            sv == stmts_view(methods@),
            sv.len() == methods.len(),
            forall|j: int| 0 <= j < methods.len() ==> #[trigger] sv[j] == stmt_view(methods@[j]),
            assoc(def_sigs(sv), n@) == assoc(def_sigs(sv.take(i as int)), n@),
        decreases i,
    {
        let ghost t = sv.take(i as int);
        assert(t.drop_last() =~= sv.take(i - 1));
        assert(t.last() == stmt_view(methods@[i - 1]));
        match &methods[i - 1].kind {
            StatementKind::Def { name, .. } => {
                assert(def_sigs(t) == def_sigs(t.drop_last()).push((name@, sig_of(t.last()))));
                if text_eq(name.as_str(), n) {
                    return Some(i - 1);
                }
                assert(def_sigs(t.drop_last()).push((name@, sig_of(t.last()))).drop_last() =~= def_sigs(t.drop_last()));
            },
            _ => {
                assert(def_sigs(t) == def_sigs(t.drop_last()));
            },
        }
        i = i - 1;
    }
    None
}

/// The last top-level protocol named `p`: its methods, which are what the
/// program's context records for `p`.
fn find_protocol<'a>(prog: &'a Vec<Statement>, p: &str) -> (r: Option<&'a Vec<Statement>>)
    ensures
        match r {
            Some(ms) => assoc(top_protocols(stmts_view(prog@)), p@)
                == Some((def_names(stmts_view(ms@)), def_sigs(stmts_view(ms@)))),
            None => assoc(top_protocols(stmts_view(prog@)), p@) is None,
        },
{
    let ghost sv = stmts_view(prog@);
    proof { lemma_stmts_view(prog@); }
    let mut i = prog.len();
    assert(sv.take(i as int) =~= sv);
    while i > 0
        invariant
            0 <= i <= prog.len(),
            sv == stmts_view(prog@),
            sv.len() == prog.len(),
            forall|j: int| 0 <= j < prog.len() ==> #[trigger] sv[j] == stmt_view(prog@[j]),
            assoc(top_protocols(sv), p@) == assoc(top_protocols(sv.take(i as int)), p@),
        decreases i,
    {
        let ghost t = sv.take(i as int);
        assert(t.drop_last() =~= sv.take(i - 1));
        assert(t.last() == stmt_view(prog@[i - 1]));
        match &prog[i - 1].kind {
            StatementKind::Protocol { name, methods } => {
                assert(top_protocols(t) == top_protocols(t.drop_last()).push(
                    (name@, (def_names(stmts_view(methods@)), def_sigs(stmts_view(methods@))))));
                if text_eq(name.as_str(), p) {
                    return Some(methods);
                }
                assert(top_protocols(t.drop_last()).push(
                    (name@, (def_names(stmts_view(methods@)), def_sigs(stmts_view(methods@))))).drop_last()
                    =~= top_protocols(t.drop_last()));
            },
            _ => {
                assert(top_protocols(t) == top_protocols(t.drop_last()));
            },
        }
        i = i - 1;
    }
    None
}

/// The protocol's required methods that `methods` does not define, in
/// the protocol's order.
fn missing_exec(proto: &Vec<Statement>, methods: &Vec<Statement>) -> (r: Vec<String>)
    ensures
        string_views(r@) == missing_methods(def_names(stmts_view(proto@)), def_names(stmts_view(methods@))),
{
    let ghost pv = stmts_view(proto@);
    let ghost provided = def_names(stmts_view(methods@));
    proof { lemma_stmts_view(proto@); }
    let mut out: Vec<String> = Vec::new();
    let mut i: usize = 0;
    assert(pv.take(0) =~= Seq::<SStmt>::empty());
    assert(string_views(out@) =~= Seq::<Seq<char>>::empty());
    while i < proto.len()
        invariant
            0 <= i <= proto.len(),
            pv == stmts_view(proto@),
            pv.len() == proto.len(),
            forall|j: int| 0 <= j < proto.len() ==> #[trigger] pv[j] == stmt_view(proto@[j]),
            provided == def_names(stmts_view(methods@)),
            string_views(out@) == missing_methods(def_names(pv.take(i as int)), provided),
        decreases proto.len() - i,
    {
        assert(pv.take(i + 1).drop_last() =~= pv.take(i as int));
        assert(pv.take(i + 1).last() == stmt_view(proto@[i as int]));
        if let StatementKind::Def { name, .. } = &proto[i].kind {
            let ghost order = def_names(pv.take(i as int));
            assert(order.push(name@).drop_last() =~= order);
            proof { lemma_def_sigs_names(stmts_view(methods@), name@); }
            if last_def(methods, name.as_str()).is_none() {
                let ghost o0 = string_views(out@);
                out.push(name.clone());
                assert(string_views(out@) =~= o0.push(name@));
            }
        }
        i = i + 1;
    }
    assert(pv.take(i as int) =~= pv);
    out
}

fn impl_head_exec(p: &str, t: &str) -> (r: String)
    ensures
        r@ == impl_head(p@, t@),
{
    let mut m = cat3("impl for protocol `", p, "` on `");
    push_str(&mut m, t);
    push_str(&mut m, "`");
    m
}

/// Each method of an implementation against its protocol (see `impl_methods`).
fn impl_methods_exec(proto: &Vec<Statement>, methods: &Vec<Statement>, off: usize, p: &str, t: &str) -> (r: Result<(), SemanticError>)
    ensures
        res_view(r) == impl_methods(def_names(stmts_view(proto@)), def_sigs(stmts_view(proto@)), stmts_view(methods@), 0, off as int, p@, t@),
{
    let ghost order = def_names(stmts_view(proto@));
    let ghost sigs = def_sigs(stmts_view(proto@));
    let ghost mv = stmts_view(methods@);
    proof { lemma_stmts_view(methods@); }
    let mut i: usize = 0;
    while i < methods.len()
        invariant
            0 <= i <= methods.len(),
            order == def_names(stmts_view(proto@)),
            sigs == def_sigs(stmts_view(proto@)),
            mv == stmts_view(methods@),
            mv.len() == methods.len(),
            forall|j: int| 0 <= j < methods.len() ==> #[trigger] mv[j] == stmt_view(methods@[j]),
            impl_methods(order, sigs, mv, 0, off as int, p@, t@) == impl_methods(order, sigs, mv, i as int, off as int, p@, t@),
        decreases methods.len() - i,
    {
        let m = &methods[i];
        if let StatementKind::Def { name, params, return_ty, .. } = &m.kind {
            let s = m.span.start;
            let o = if s >= off { s } else { off };
            proof { lemma_def_sigs_names(stmts_view(proto@), name@); }
            match last_def(proto, name.as_str()) {
                None => {
                    let mut msg = impl_head_exec(p, t);
                    push_str(&mut msg, " defines unknown method `");
                    push_str(&mut msg, name.as_str());
                    push_str(&mut msg, "`");
                    return Err(err(o, msg));
                },
                Some(k) => {
                    if let StatementKind::Def { params: ep, return_ty: eret, .. } = &proto[k].kind {
                        if let Some(reason) = sig_mismatch_exec(ep, eret, params, return_ty) {
                            let mut msg = impl_head_exec(p, t);
                            push_str(&mut msg, " has incompatible signature for method `");
                            push_str(&mut msg, name.as_str());
                            push_str(&mut msg, "`: ");
                            push_str(&mut msg, reason.as_str());
                            return Err(err(o, msg));
                        }
                    }
                },
            }
        }
        i = i + 1;
    }
    Ok(())
}

/// An `impl` statement's target and protocol (see `impl_check`).
fn impl_check_exec(prog: &Vec<Statement>, off: usize, proto: &Option<String>, t: &String, methods: &Vec<Statement>) -> (r: Result<(), SemanticError>)
    ensures
        res_view(r) == impl_check(ctx_of(stmts_view(prog@)), off as int, opt_str_view(*proto), t@, stmts_view(methods@)),
{
    if !top_name_exists(prog, 0, t.as_str()) {
        return Err(err(off, cat3("impl target `", t.as_str(), "` must be a declared struct")));
    }
    let p = match proto {
        None => return Ok(()),
        Some(p) => p,
    };
    let pm = match find_protocol(prog, p.as_str()) {
        None => return Err(err(off, cat3("impl references unknown protocol `", p.as_str(), "`"))),
        Some(pm) => pm,
    };
    impl_methods_exec(pm, methods, off, p.as_str(), t.as_str())?;
    let missing = missing_exec(pm, methods);
    if missing.len() > 0 {
        let mut msg = impl_head_exec(p.as_str(), t.as_str());
        push_str(&mut msg, " is missing methods: ");
        let j = join_strings(&missing, ", ");
        push_str(&mut msg, j.as_str());
        return Err(err(off, msg));
    }
    Ok(())
}

pub open spec fn seen_view(v: Seq<(&str, u8)>) -> Seq<(Seq<char>, int)> {
    v.map_values(|p: (&str, u8)| (p.0@, p.1 as int))
}

pub open spec fn decls_view(v: Seq<(&str, &str)>) -> Seq<(Seq<char>, Seq<char>)> {
    v.map_values(|p: (&str, &str)| (p.0@, p.1@))
}

fn seen_contains(seen: &Vec<(&str, u8)>, n: &str, k: u8) -> (r: bool)
    ensures
        r == seen_view(seen@).contains((n@, k as int)),
{
    let ghost v = seen_view(seen@);
    let mut j: usize = 0;
    while j < seen.len()
        invariant
            0 <= j <= seen.len(),
            v == seen_view(seen@),
            forall|q: int| 0 <= q < j ==> v[q] != (n@, k as int),
        decreases seen.len() - j,
    {
        assert(v[j as int] == (seen@[j as int].0@, seen@[j as int].1 as int));
        if seen[j].1 == k && text_eq(seen[j].0, n) {
            return true;
        }
        j = j + 1;
    }
    false
}

fn decl_of<'a>(decls: &Vec<(&str, &'a str)>, n: &str) -> (r: Option<&'a str>)
    ensures
        match r {
            Some(k) => assoc(decls_view(decls@), n@) == Some(k@),
            None => assoc(decls_view(decls@), n@) is None,
        },
{
    let ghost v = decls_view(decls@);
    let mut i = decls.len();
    assert(v.take(i as int) =~= v);
    while i > 0
        invariant
            0 <= i <= decls.len(),
            v == decls_view(decls@),
            assoc(v, n@) == assoc(v.take(i as int), n@),
        decreases i,
    {
        assert(v.take(i as int).drop_last() =~= v.take(i - 1));
        assert(v.take(i as int).last() == (decls@[i - 1].0@, decls@[i - 1].1@));
        if text_eq(decls[i - 1].0, n) {
            return Some(decls[i - 1].1);
        }
        i = i - 1;
    }
    None
}

/// Top-level declarations (see `top_scan`).
fn top_scan_exec(prog: &Vec<Statement>) -> (r: Result<(), SemanticError>)
    ensures
        res_view(r) == top_scan(stmts_view(prog@), 0, seq![], seq![]),
{
    let ghost sv = stmts_view(prog@);
    proof { lemma_stmts_view(prog@); }
    let mut seen: Vec<(&str, u8)> = Vec::new();
    let mut decls: Vec<(&str, &str)> = Vec::new();
    assert(seen_view(seen@) =~= Seq::<(Seq<char>, int)>::empty());
    assert(decls_view(decls@) =~= Seq::<(Seq<char>, Seq<char>)>::empty());
    let mut i: usize = 0;
    while i < prog.len()
        invariant
            0 <= i <= prog.len(),
            sv == stmts_view(prog@),
            sv.len() == prog.len(),
            forall|j: int| 0 <= j < prog.len() ==> #[trigger] sv[j] == stmt_view(prog@[j]),
            top_scan(sv, 0, seq![], seq![]) == top_scan(sv, i as int, seen_view(seen@), decls_view(decls@)),
        decreases prog.len() - i,
    {
        let st = &prog[i];
        let info: Option<(u8, &str, &str)> = match &st.kind {
            StatementKind::Def { name, .. } => Some((0, "function", name.as_str())),
            StatementKind::Struct { name, .. } => Some((1, "struct", name.as_str())),
            StatementKind::Protocol { name, .. } => Some((2, "protocol", name.as_str())),
            _ => None,
        };
        if let Some((kn, kind, name)) = info {
            let off = st.span.start;
            if seen_contains(&seen, name, kn) {
                return Err(err(off, cat5("duplicate top-level ", kind, " `", name, "`")));
            }
            if let Some(prev) = decl_of(&decls, name) {
                if !text_eq(prev, kind) {
                    let mut m = cat3("top-level name `", name, "` is already declared as ");
                    push_str(&mut m, prev);
                    return Err(err(off, m));
                }
            }
            let ghost s0 = seen_view(seen@);
            let ghost d0 = decls_view(decls@);
            seen.push((name, kn));
            decls.push((name, kind));
            assert(seen_view(seen@) =~= s0.push((name@, kn as int)));
            assert(decls_view(decls@) =~= d0.push((name@, kind@)));
        }
        i = i + 1;
    }
    Ok(())
}

/// The first of `names` already bound in the innermost scope.
fn first_bound_exec(sc: &Vec<ExecScope>, names: &Vec<&str>) -> (r: Option<usize>)
    ensures
        match r {
            Some(k) => k < names.len() && first_bound(scopes_view(sc@), seq_str_views(names@)) == Some(names@[k as int]@),
            None => first_bound(scopes_view(sc@), seq_str_views(names@)) is None,
        },
{
    let ghost v = seq_str_views(names@);
    let mut i: usize = 0;
    assert(v.subrange(0, v.len() as int) =~= v);
    while i < names.len()
        invariant
            0 <= i <= names.len(),
            v == seq_str_views(names@),
            first_bound(scopes_view(sc@), v) == first_bound(scopes_view(sc@), v.subrange(i as int, v.len() as int)),
        decreases names.len() - i,
    {
        let ghost rest = v.subrange(i as int, v.len() as int);
        assert(rest[0] == names@[i as int]@);
        assert(rest.drop_first() =~= v.subrange(i + 1, v.len() as int));
        if in_current_exec(sc, names[i]) {
            return Some(i);
        }
        i = i + 1;
    }
    None
}

/// Binds each of `names` to `b` in the innermost scope.
fn bind_all_exec(sc: &mut Vec<ExecScope>, names: &Vec<&str>, b: BindingInfo)
    ensures
        scopes_view(final(sc)@) == bind_all(scopes_view(old(sc)@), seq_str_views(names@), b),
        same_outer(old(sc)@, final(sc)@),
{
    let ghost v = seq_str_views(names@);
    let ghost s0 = scopes_view(sc@);
    let mut i: usize = 0;
    assert(v.subrange(0, v.len() as int) =~= v);
    while i < names.len()
        invariant
            0 <= i <= names.len(),
            v == seq_str_views(names@),
            s0 == scopes_view(old(sc)@),
            same_outer(old(sc)@, sc@),
            bind_all(s0, v, b) == bind_all(scopes_view(sc@), v.subrange(i as int, v.len() as int), b),
        decreases names.len() - i,
    {
        let ghost rest = v.subrange(i as int, v.len() as int);
        assert(rest[0] == names@[i as int]@);
        assert(rest.drop_first() =~= v.subrange(i + 1, v.len() as int));
        bind_exec(sc, names[i].to_owned(), b);
        i = i + 1;
    }
    assert(v.subrange(i as int, v.len() as int) =~= Seq::<Seq<char>>::empty());
}

/// A scope binding each name plainly.
fn plain_scope(names: &Vec<String>) -> (r: ExecScope)
    ensures
        scope_view(r@) == plain_bindings(string_views(names@)),
{
    let mut out: ExecScope = Vec::new();
    let mut i: usize = 0;
    while i < names.len()
        invariant
            0 <= i <= names.len(),
            scope_view(out@) == plain_bindings(string_views(names@).take(i as int)),
        decreases names.len() - i,
    {
        let ghost o0 = scope_view(out@);
        out.push((names[i].clone(), BindingInfo { is_mut: false, can_write_through: false, callable_arity: None }));
        assert(scope_view(out@) =~= o0.push((names@[i as int]@, plain())));
        assert(plain_bindings(string_views(names@).take(i + 1)) =~= plain_bindings(string_views(names@).take(i as int)).push((names@[i as int]@, plain())));
        i = i + 1;
    }
    assert(string_views(names@).take(i as int) =~= string_views(names@));
    out
}

/// The scope a parameter list opens.
fn param_scope(params: &Vec<Param>) -> (r: ExecScope)
    ensures
        scope_view(r@) == param_bindings(params_view(params@)),
{
    let ghost pv = params_view(params@);
    let mut out: ExecScope = Vec::new();
    let mut i: usize = 0;
    while i < params.len()
        invariant
            0 <= i <= params.len(),
            pv == params_view(params@),
            scope_view(out@) == param_bindings(pv.take(i as int)),
        decreases params.len() - i,
    {
        let p = &params[i];
        let unique = match &p.ty {
            Some(Type::UniqueRef(_)) => true,
            _ => false,
        };
        let b = BindingInfo { is_mut: p.is_mut, can_write_through: p.is_mut || unique, callable_arity: None };
        let ghost o0 = scope_view(out@);
        out.push((p.name.clone(), b));
        assert(pv[i as int] == param_view(*p));
        assert(param_binding(pv[i as int]) == (p.name@, b));
        assert(scope_view(out@) =~= o0.push((p.name@, b)));
        assert(param_bindings(pv.take(i + 1)) =~= param_bindings(pv.take(i as int)).push((p.name@, b)));
        i = i + 1;
    }
    assert(pv.take(i as int) =~= pv);
    out
}

/// The names of a parameter list, in order.
fn param_names(params: &Vec<Param>) -> (r: Vec<&str>)
    ensures
        seq_str_views(r@) == params_view(params@).map_values(|q: SParam| q.name),
{
    let ghost want = params_view(params@).map_values(|q: SParam| q.name);
    let mut v: Vec<&str> = Vec::new();
    let mut i: usize = 0;
    while i < params.len()
        invariant
            0 <= i <= params.len(),
            want == params_view(params@).map_values(|q: SParam| q.name),
            seq_str_views(v@) == want.take(i as int),
        decreases params.len() - i,
    {
        let ghost v0 = seq_str_views(v@);
        v.push(params[i].name.as_str());
        assert(seq_str_views(v@) =~= v0.push(params@[i as int].name@));
        assert(want.take(i + 1) =~= want.take(i as int).push(params@[i as int].name@));
        i = i + 1;
    }
    assert(want.take(i as int) =~= want);
    v
}

/// A `let` or `mut` binding (see `sv_binding`).
fn validate_binding(prog: &Vec<Statement>, pattern: &Pattern, value: &Expression, off: usize, sc: &mut Vec<ExecScope>, b: BindingInfo) -> (r: Result<(), SemanticError>)
    ensures
        match r {
            Ok(_) => sv_binding(ctx_of(stmts_view(prog@)), pattern@, value@, off as int, scopes_view(old(sc)@), b) == Ok::<Scopes, SErr>(scopes_view(final(sc)@)),
            Err(e) => sv_binding(ctx_of(stmts_view(prog@)), pattern@, value@, off as int, scopes_view(old(sc)@), b) == Err::<Scopes, SErr>(err_view(e)),
        },
        same_outer(old(sc)@, final(sc)@),
{
    let names = pattern.names();
    if let Some(k) = first_bound_exec(sc, &names) {
        return Err(err_dup(off, "duplicate local binding `", names[k], "` in same scope"));
    }
    validate_expression(prog, value, off, sc)?;
    bind_all_exec(sc, &names, b);
    Ok(())
}

/// A scope binding each name plainly.
fn plain_scope_of(names: &Vec<&str>) -> (r: ExecScope)
    ensures
        scope_view(r@) == plain_bindings(seq_str_views(names@)),
{
    let mut out: ExecScope = Vec::new();
    let mut i: usize = 0;
    while i < names.len()
        invariant
            0 <= i <= names.len(),
            scope_view(out@) == plain_bindings(seq_str_views(names@).take(i as int)),
        decreases names.len() - i,
    {
        let ghost o0 = scope_view(out@);
        out.push((names[i].to_owned(), BindingInfo { is_mut: false, can_write_through: false, callable_arity: None }));
        assert(scope_view(out@) =~= o0.push((names@[i as int]@, plain())));
        assert(plain_bindings(seq_str_views(names@).take(i + 1)) =~= plain_bindings(seq_str_views(names@).take(i as int)).push((names@[i as int]@, plain())));
        i = i + 1;
    }
    assert(seq_str_views(names@).take(i as int) =~= seq_str_views(names@));
    out
}

pub open spec fn import_views(items: Seq<ImportItem>) -> Seq<SImport> {
    items.map_values(|i: ImportItem| import_view(i))
}

/// Whether any from-import item is aliased.
fn any_alias(items: &Vec<ImportItem>) -> (r: bool)
    ensures
        r == exists|k: int| 0 <= k < items@.len() && #[trigger] import_views(items@)[k].alias is Some,
{
    let ghost iv = import_views(items@);
    let mut i: usize = 0;
    while i < items.len()
        invariant
            0 <= i <= items.len(),
            iv == import_views(items@),
            forall|k: int| 0 <= k < i ==> !(#[trigger] iv[k].alias is Some),
        decreases items.len() - i,
    {
        assert(iv[i as int] == import_view(items@[i as int]));
        if items[i].alias.is_some() {
            assert(iv[i as int].alias is Some);
            assert(0 <= i < items@.len());
            return true;
        }
        i = i + 1;
    }
    false
}

fn root_message_exec(u: &str) -> (r: String)
    ensures
        r@ == root_message(u@),
{
    let root = use_root(u);
    cat3("unsupported rust import root `", root.as_str(), "` (only std/core/alloc are supported)")
}

/// A block in a fresh innermost scope `scope`, dropped afterwards.
fn validate_scoped(prog: &Vec<Statement>, stmts: &Vec<Statement>, sc: &mut Vec<ExecScope>, scope: ExecScope, in_def: bool) -> (r: Result<(), SemanticError>)
    ensures
        match r {
            Ok(_) => sv_block(ctx_of(stmts_view(prog@)), stmts_view(stmts@), scopes_view(old(sc)@).push(scope_view(scope@)), true, in_def, true) is Ok
                && final(sc)@ == old(sc)@,
            Err(e) => sv_block(ctx_of(stmts_view(prog@)), stmts_view(stmts@), scopes_view(old(sc)@).push(scope_view(scope@)), true, in_def, true) == Err::<Scopes, SErr>(err_view(e)),
        },
    decreases stmts, 2int,
{
    let ghost before = sc@;
    let ghost sv0 = scope_view(scope@);
    sc.push(scope);
    assert(scopes_view(sc@) =~= scopes_view(before).push(sv0));
    validate_block(prog, stmts, sc, true, in_def, true)?;
    let ghost after = sc@;
    sc.pop();
    assert(sc@ =~= before) by {
        assert(after.len() == before.len() + 1);
        assert forall|j: int| 0 <= j < before.len() implies sc@[j] == before[j] by {
            assert(after[j] == before.push(scope)[j]);
        }
    }
    Ok(())
}

/// A block: its declarations (when `pre`), then its statements (see `sv_block`).
#[verifier::loop_isolation(false)]
fn validate_block(prog: &Vec<Statement>, stmts: &Vec<Statement>, sc: &mut Vec<ExecScope>, nested: bool, in_def: bool, pre: bool) -> (r: Result<(), SemanticError>)
    ensures
        match r {
            Ok(_) => sv_block(ctx_of(stmts_view(prog@)), stmts_view(stmts@), scopes_view(old(sc)@), nested, in_def, pre) == Ok::<Scopes, SErr>(scopes_view(final(sc)@))
                && same_outer(old(sc)@, final(sc)@),
            Err(e) => sv_block(ctx_of(stmts_view(prog@)), stmts_view(stmts@), scopes_view(old(sc)@), nested, in_def, pre) == Err::<Scopes, SErr>(err_view(e)),
        },
    decreases stmts, 1int,
{
    let ghost c = ctx_of(stmts_view(prog@));
    let ghost sv = stmts_view(stmts@);
    proof { lemma_stmts_view(stmts@); }
    if pre {
        predeclare_exec(stmts, sc)?;
    }
    assert(sv.subrange(0, sv.len() as int) =~= sv);
    let mut i: usize = 0;
    while i < stmts.len()
        invariant
            0 <= i <= stmts.len(),
            sv == stmts_view(stmts@),
            sv.len() == stmts.len(),
            forall|j: int| 0 <= j < stmts.len() ==> #[trigger] sv[j] == stmt_view(stmts@[j]),
            same_outer(old(sc)@, sc@),
            sv_block(c, sv, scopes_view(old(sc)@), nested, in_def, pre) == sv_stmts(c, sv.subrange(i as int, sv.len() as int), scopes_view(sc@), nested, in_def),
        decreases stmts.len() - i,
    {
        proof {
            assert(decreases_to!(stmts => stmts@));
            assert(decreases_to!(stmts@ => stmts@[i as int]));
        }
        let ghost rest = sv.subrange(i as int, sv.len() as int);
        assert(rest[0] == sv[i as int]);
        assert(rest.subrange(1, rest.len() as int) =~= sv.subrange(i + 1, sv.len() as int));
        validate_statement(prog, &stmts[i], sc, nested, in_def)?;
        i = i + 1;
    }
    assert(sv.subrange(i as int, sv.len() as int) =~= Seq::<SStmt>::empty());
    Ok(())
}

/// Match arms (see `sv_arms`).
#[verifier::loop_isolation(false)]
fn validate_arms(prog: &Vec<Statement>, arms: &Vec<(Expression, Vec<Statement>)>, off: usize, sc: &mut Vec<ExecScope>, nested: bool, in_def: bool) -> (r: Result<(), SemanticError>)
    ensures
        res_view(r) == sv_arms(ctx_of(stmts_view(prog@)), arms_view(arms@), off as int, scopes_view(old(sc)@), nested, in_def),
        r is Ok ==> final(sc)@ == old(sc)@,
    decreases arms, 1int,
{
    let ghost c = ctx_of(stmts_view(prog@));
    let ghost av = arms_view(arms@);
    proof { lemma_arms_view(arms@); }
    assert(av.subrange(0, av.len() as int) =~= av);
    let mut i: usize = 0;
    while i < arms.len()
        invariant
            0 <= i <= arms.len(),
            av == arms_view(arms@),
            av.len() == arms.len(),
            forall|j: int| 0 <= j < arms.len() ==> #[trigger] av[j] == (expr_view(arms@[j].0), stmts_view(arms@[j].1@)),
            sc@ == old(sc)@,
            sv_arms(c, av, off as int, scopes_view(old(sc)@), nested, in_def) == sv_arms(c, av.subrange(i as int, av.len() as int), off as int, scopes_view(sc@), nested, in_def),
        decreases arms.len() - i,
    {
        proof {
            assert(decreases_to!(arms => arms@));
            assert(decreases_to!(arms@ => arms@[i as int]));
            assert(decreases_to!(arms@[i as int] => arms@[i as int].1));
        }
        let ghost rest = av.subrange(i as int, av.len() as int);
        assert(rest[0] == av[i as int]);
        assert(rest.subrange(1, rest.len() as int) =~= av.subrange(i + 1, av.len() as int));
        let ghost s0 = scopes_view(sc@);
        let pat = &arms[i].0;
        sc.push(empty_scope());
        assert(scopes_view(sc@) =~= s0.push(seq![]));
        let mut binders: Vec<String> = Vec::new();
        assert(string_views(binders@) =~= Seq::<Seq<char>>::empty());
        pattern_binders_exec(prog, sc, pat, &mut binders);
        sc.pop();
        assert(sc@ =~= old(sc)@);
        validate_expression_in(prog, pat, off, sc, plain_scope(&binders))?;
        validate_scoped(prog, &arms[i].1, sc, plain_scope(&binders), in_def)?;
        i = i + 1;
    }
    assert(av.subrange(i as int, av.len() as int) =~= Seq::<(SExpr, Seq<SStmt>)>::empty());
    Ok(())
}

/// An expression checked inside an extra innermost scope `scope`.
fn validate_expression_in(prog: &Vec<Statement>, e: &Expression, off: usize, sc: &mut Vec<ExecScope>, scope: ExecScope) -> (r: Result<(), SemanticError>)
    ensures
        res_view(r) == sv_expr(ctx_of(stmts_view(prog@)), e@, off as int, scopes_view(old(sc)@).push(scope_view(scope@))),
        final(sc)@ == old(sc)@,
{
    let ghost before = sc@;
    let ghost sv0 = scope_view(scope@);
    sc.push(scope);
    assert(scopes_view(sc@) =~= scopes_view(before).push(sv0));
    let r = validate_expression(prog, e, off, sc);
    sc.pop();
    assert(sc@ =~= before);
    r
}

fn empty_scope() -> (r: ExecScope)
    ensures
        scope_view(r@) == Seq::<(Seq<char>, BindingInfo)>::empty(),
{
    let r: ExecScope = Vec::new();
    assert(scope_view(r@) =~= Seq::<(Seq<char>, BindingInfo)>::empty());
    r
}

/// An `impl` statement's body and target (see `sv_impl_head`).
fn impl_head_check(prog: &Vec<Statement>, off: usize, protocol: &Option<String>, for_type: &String, methods: &Vec<Statement>) -> (r: Result<(), SemanticError>)
    ensures
        res_view(r) == sv_impl_head(ctx_of(stmts_view(prog@)), off as int, opt_str_view(*protocol), for_type@, stmts_view(methods@)),
{
    let owner = cat3("impl for `", for_type.as_str(), "`");
    shapes_exec(methods, off, &owner)?;
    unique_methods_exec(methods, off, &owner)?;
    impl_check_exec(prog, off, protocol, for_type, methods)
}

/// A `protocol` statement's body (see `sv_protocol_head`).
fn protocol_head_check(off: usize, name: &String, methods: &Vec<Statement>) -> (r: Result<(), SemanticError>)
    ensures
        res_view(r) == sv_protocol_head(off as int, name@, stmts_view(methods@)),
{
    let owner = cat3("protocol `", name.as_str(), "`");
    shapes_exec(methods, off, &owner)?;
    unique_methods_exec(methods, off, &owner)
}

/// An `import` statement (see `sv_import`).
fn import_check(nested: bool, path: &String, alias: &Option<String>, off: usize) -> (r: Result<(), SemanticError>)
    ensures
        res_view(r) == sv_import(nested, path@, opt_str_view(*alias), off as int),
{
    if nested {
        return Err(err(off, "`import` is only allowed at top level".to_owned()));
    }
    match rust_use_from_import_path(path.as_str()) {
        None => {
            if alias.is_some() {
                return Err(err(off, "aliasing non-rust imports is unsupported (use plain `import \"path\"`)".to_owned()));
            }
            Ok(())
        },
        Some(u) => {
            if !is_supported_rust_root(u.as_str()) {
                return Err(err(off, root_message_exec(u.as_str())));
            }
            Ok(())
        },
    }
}

/// A `from ... import ...` statement (see `sv_from_import`).
fn from_import_check(nested: bool, path: &String, items: &Vec<ImportItem>, off: usize) -> (r: Result<(), SemanticError>)
    ensures
        res_view(r) == sv_from_import(nested, path@, import_views(items@), off as int),
{
    if nested {
        return Err(err(off, "`from ... import ...` is only allowed at top level".to_owned()));
    }
    from_items_exec(items, off)?;
    match rust_use_from_import_path(path.as_str()) {
        None => {
            if any_alias(items) {
                return Err(err(off, "aliasing non-rust from-import items is unsupported (remove `as ...`)".to_owned()));
            }
            Err(err(off, "non-rust `from ... import ...` is unsupported (use plain `import \"path\"`)".to_owned()))
        },
        Some(u) => {
            if !is_supported_rust_root(u.as_str()) {
                return Err(err(off, root_message_exec(u.as_str())));
            }
            Ok(())
        },
    }
}

/// A `struct` declaration (see `sv_struct`).
fn struct_check(name: &String, fields: &Vec<Param>, off: usize) -> (r: Result<(), SemanticError>)
    ensures
        res_view(r) == sv_struct(name@, params_view(fields@), off as int),
{
    let fnames = param_names(fields);
    if let Some(k) = first_dup_exec(&fnames) {
        return Err(err(off, cat5("duplicate field `", fnames[k], "` in struct `", name.as_str(), "`")));
    }
    Ok(())
}

/// One statement (see `sv_stmt`).
#[verifier::rlimit(100)]
#[verifier::spinoff_prover]
fn validate_statement(prog: &Vec<Statement>, st: &Statement, sc: &mut Vec<ExecScope>, nested: bool, in_def: bool) -> (r: Result<(), SemanticError>)
    ensures
        match r {
            Ok(_) => sv_stmt(ctx_of(stmts_view(prog@)), stmt_view(*st), scopes_view(old(sc)@), nested, in_def) == Ok::<Scopes, SErr>(scopes_view(final(sc)@))
                && same_outer(old(sc)@, final(sc)@),
            Err(e) => sv_stmt(ctx_of(stmts_view(prog@)), stmt_view(*st), scopes_view(old(sc)@), nested, in_def) == Err::<Scopes, SErr>(err_view(e)),
        },
    decreases st, 2int,
{
    let off = st.span.start;
    match &st.kind {
        StatementKind::Let { pattern, value, .. } => {
            let b = BindingInfo { is_mut: false, can_write_through: matches!(value, Expression::UniqueRef(_)), callable_arity: None };
            validate_binding(prog, pattern, value, off, sc, b)
        },
        StatementKind::Mut { pattern, value, .. } => {
            let b = BindingInfo { is_mut: true, can_write_through: true, callable_arity: None };
            validate_binding(prog, pattern, value, off, sc, b)
        },
        StatementKind::Def { params, body, .. } => {
            let pnames = param_names(params);
            if let Some(k) = first_dup_exec(&pnames) {
                return Err(err_dup(off, "duplicate parameter `", pnames[k], "` in function signature"));
            }
            validate_scoped(prog, body, sc, param_scope(params), true)
        },
        StatementKind::If { condition, then_block, else_block } => {
            validate_expression(prog, condition, off, sc)?;
            validate_scoped(prog, then_block, sc, empty_scope(), in_def)?;
            if let Some(eb) = else_block {
                validate_scoped(prog, eb, sc, empty_scope(), in_def)?;
            }
            Ok(())
        },
        StatementKind::For { pattern, iterable, body } => {
            validate_expression(prog, iterable, off, sc)?;
            let names = pattern.names();
            validate_scoped(prog, body, sc, plain_scope_of(&names), in_def)
        },
        StatementKind::While { condition, body } => {
            validate_expression(prog, condition, off, sc)?;
            validate_scoped(prog, body, sc, empty_scope(), in_def)
        },
        StatementKind::Match { expression, arms } => {
            validate_expression(prog, expression, off, sc)?;
            validate_arms(prog, arms, off, sc, nested, in_def)
        },
        StatementKind::Return(Some(e)) => {
            if !in_def {
                return Err(err(off, "`return` is only allowed inside `def` bodies".to_owned()));
            }
            validate_expression(prog, e, off, sc)
        },
        StatementKind::Return(None) => {
            if !in_def {
                return Err(err(off, "`return` is only allowed inside `def` bodies".to_owned()));
            }
            Ok(())
        },
        StatementKind::Expr(e) => validate_expression(prog, e, off, sc),
        StatementKind::Impl { protocol, for_type, methods } => {
            impl_head_check(prog, off, protocol, for_type, methods)?;
            validate_block(prog, methods, sc, true, in_def, false)
        },
        StatementKind::Protocol { name, methods } => {
            protocol_head_check(off, name, methods)?;
            validate_block(prog, methods, sc, true, in_def, false)
        },
        StatementKind::Import { path, alias } => import_check(nested, path, alias, off),
        StatementKind::FromImport { path, items } => from_import_check(nested, path, items, off),
        StatementKind::Struct { name, fields } => struct_check(name, fields, off),
        _ => Ok(()),
    }
}

fn semantic_message_exec(source: &str, e: &SemanticError) -> (r: String)
    requires
        source@.len() < usize::MAX,
    ensures
        r@ == semantic_message(source@, err_view(*e)),
{
    let (line, col) = line_col_at_byte(source, e.offset);
    let mut m = "Semantic error at line ".to_owned();
    let l = nat_to_text(line as u64);
    push_str(&mut m, l.as_str());
    push_str(&mut m, ", column ");
    let c = nat_to_text(col as u64);
    push_str(&mut m, c.as_str());
    push_str(&mut m, ": ");
    push_str(&mut m, e.message.as_str());
    m
}

/// Checks a parsed program before it is lowered: unique top-level
/// declarations, then every statement in order from one empty scope. A
/// rejection is reported as `Semantic error at line L, column C: ...`,
/// located in `source`.
pub fn validate_program(source: &str, program: &Program) -> (r: Result<(), String>)
    requires
        source@.len() < usize::MAX,
    ensures
        match r {
            Ok(_) => spec_validate(stmts_view(program.statements@)) is Ok,
            Err(m) => spec_validate(stmts_view(program.statements@)) matches Err(e) && m@ == semantic_message(source@, e),
        },
{
    let prog = &program.statements;
    if let Err(e) = top_scan_exec(prog) {
        return Err(semantic_message_exec(source, &e));
    }
    let mut sc: Vec<ExecScope> = Vec::new();
    sc.push(empty_scope());
    assert(scopes_view(sc@) =~= seq![Seq::<(Seq<char>, BindingInfo)>::empty()]);
    match validate_block(prog, prog, &mut sc, false, false, true) {
        Err(e) => Err(semantic_message_exec(source, &e)),
        Ok(_) => Ok(()),
    }
}


// ---------------------------------------------------------------------------
// Names read by a validated expression.
// ---------------------------------------------------------------------------

/// Whether `e` reads the name `n` as a value: as a name anywhere in it,
/// except the field and variable names on the left of `=` (whose index
/// expressions are read) and the bodies of lambdas (whose parameters bind
/// names of their own).
pub open spec fn mentions(e: SExpr, n: Seq<char>) -> bool
    decreases e,
{
    match e {
        SExpr::Ident(m) => m == n,
        SExpr::Bin(l, op, r) => (if op == BinaryOp::Assign { place_mentions(*l, n) } else { mentions(*l, n) })
            || mentions(*r, n),
        SExpr::Call(f, args) => mentions(*f, n) || mentions_any(args, n),
        SExpr::GenericCall(f, _, args) => mentions(*f, n) || mentions_any(args, n),
        SExpr::Macro(_, args) => mentions_any(args, n),
        SExpr::Lit(SLit::List(items)) => mentions_any(items, n),
        SExpr::Lit(SLit::SetOf(items)) => mentions_any(items, n),
        SExpr::Lit(SLit::Dict(pairs)) => mentions_pairs(pairs, n),
        SExpr::Lit(_) => false,
        SExpr::Tuple(items) => mentions_any(items, n),
        SExpr::Move(b) => mentions(*b, n),
        SExpr::UniqueRef(b) => mentions(*b, n),
        SExpr::SharedRef(b) => mentions(*b, n),
        SExpr::Member(b, _) => mentions(*b, n),
        SExpr::Question(b) => mentions(*b, n),
        SExpr::Unwrap(b) => mentions(*b, n),
        SExpr::Not(b) => mentions(*b, n),
        SExpr::Index(b, i) => mentions(*b, n) || mentions(*i, n),
        SExpr::Range(a, b) => mentions(*a, n) || mentions(*b, n),
        SExpr::RangeInclusive(a, b) => mentions(*a, n) || mentions(*b, n),
        SExpr::Lambda(_, _) => false,
    }
}

/// The names read by the index expressions of a place.
pub open spec fn place_mentions(e: SExpr, n: Seq<char>) -> bool
    decreases e,
{
    match e {
        SExpr::Member(b, _) => place_mentions(*b, n),
        SExpr::Index(b, i) => place_mentions(*b, n) || mentions(*i, n),
        _ => false,
    }
}

pub open spec fn mentions_any(s: Seq<SExpr>, n: Seq<char>) -> bool
    decreases s,
{
    s.len() > 0 && (mentions_any(s.subrange(0, s.len() - 1), n) || mentions(s[s.len() - 1], n))
}

pub open spec fn mentions_pairs(s: Seq<(SExpr, SExpr)>, n: Seq<char>) -> bool
    decreases s,
{
    s.len() > 0 && (mentions_pairs(s.subrange(0, s.len() - 1), n) || mentions(s[s.len() - 1].0, n)
        || mentions(s[s.len() - 1].1, n))
}

proof fn lemma_place_mentions(c: VCtx, e: SExpr, off: int, sc: Scopes, n: Seq<char>)
    requires
        sv_place_sub(c, e, off, sc) is Ok,
        place_mentions(e, n),
    ensures
        resolvable(c, sc, n),
    decreases e, 2int,
{
    match e {
        SExpr::Member(b, _) => lemma_place_mentions(c, *b, off, sc, n),
        SExpr::Index(b, i) => {
            if place_mentions(*b, n) {
                lemma_place_mentions(c, *b, off, sc, n);
            } else {
                law_validated_names_resolve(c, *i, off, sc, n);
            }
        },
        _ => {},
    }
}

proof fn lemma_exprs_mentions(c: VCtx, s: Seq<SExpr>, off: int, sc: Scopes, n: Seq<char>)
    requires
        sv_exprs(c, s, off, sc) is Ok,
        mentions_any(s, n),
    ensures
        resolvable(c, sc, n),
    decreases s, 2int,
{
    let init = s.subrange(0, s.len() - 1);
    if mentions_any(init, n) {
        lemma_exprs_mentions(c, init, off, sc, n);
    } else {
        law_validated_names_resolve(c, s[s.len() - 1], off, sc, n);
    }
}

proof fn lemma_pairs_mentions(c: VCtx, s: Seq<(SExpr, SExpr)>, off: int, sc: Scopes, n: Seq<char>)
    requires
        sv_pairs(c, s, off, sc) is Ok,
        mentions_pairs(s, n),
    ensures
        resolvable(c, sc, n),
    decreases s, 2int,
{
    let init = s.subrange(0, s.len() - 1);
    let last = s[s.len() - 1];
    if mentions_pairs(init, n) {
        lemma_pairs_mentions(c, init, off, sc, n);
    } else if mentions(last.0, n) {
        law_validated_names_resolve(c, last.0, off, sc, n);
    } else {
        law_validated_names_resolve(c, last.1, off, sc, n);
    }
}

proof fn lemma_ctor_mentions(
    c: VCtx,
    name: Seq<char>,
    fields: Seq<Seq<char>>,
    args: Seq<SExpr>,
    off: int,
    sc: Scopes,
    n: Seq<char>,
)
    requires
        ctor_scan(c, name, fields, args, off, sc) is Ok,
        mentions_any(args, n),
    ensures
        resolvable(c, sc, n),
    decreases args, 2int,
{
    let init = args.subrange(0, args.len() - 1);
    let a = args[args.len() - 1];
    if mentions_any(init, n) {
        lemma_ctor_mentions(c, name, fields, init, off, sc, n);
    } else {
        let prev = ctor_scan(c, name, fields, init, off, sc);
        assert(prev is Ok);
        assert(mentions(a, n));
        match a {
            SExpr::Bin(l, op, v) => {
                if op == BinaryOp::Assign {
                    assert(*l is Ident);
                    assert(!place_mentions(*l, n));
                    law_validated_names_resolve(c, *v, off, sc, n);
                } else {
                    law_validated_names_resolve(c, a, off, sc, n);
                }
            },
            _ => law_validated_names_resolve(c, a, off, sc, n),
        }
    }
}

proof fn lemma_call_mentions(c: VCtx, f: SExpr, args: Seq<SExpr>, off: int, sc: Scopes, n: Seq<char>)
    requires
        sv_expr(c, SExpr::Call(Box::new(f), args), off, sc) is Ok,
        mentions(f, n) || mentions_any(args, n),
    ensures
        resolvable(c, sc, n),
    decreases SExpr::Call(Box::new(f), args), 1int,
{
    assert(sv_expr(c, f, off, sc) is Ok);
    if mentions(f, n) {
        law_validated_names_resolve(c, f, off, sc, n);
    } else {
        match f {
            SExpr::Ident(m) => match assoc(c.fields, m) {
                Some(fs) => {
                    assert(sv_ctor(c, m, fs, args, off, sc) is Ok);
                    assert(ctor_scan(c, m, fs, args, off, sc) is Ok);
                    lemma_ctor_mentions(c, m, fs, args, off, sc, n);
                },
                None => {
                    assert(sv_exprs(c, args, off, sc) is Ok);
                    lemma_exprs_mentions(c, args, off, sc, n);
                },
            },
            _ => {
                assert(sv_exprs(c, args, off, sc) is Ok);
                lemma_exprs_mentions(c, args, off, sc, n);
            },
        }
    }
}

/// Validation reads every name it is given: when an expression validates,
/// every name it reads as a value (anywhere in it, inside indexes, calls,
/// literals and operators alike) resolves in the scopes it was validated in.
#[verifier::rlimit(100)]
#[verifier::spinoff_prover]
pub proof fn law_validated_names_resolve(c: VCtx, e: SExpr, off: int, sc: Scopes, n: Seq<char>)
    requires
        sv_expr(c, e, off, sc) is Ok,
        mentions(e, n),
    ensures
        resolvable(c, sc, n),
    decreases e, 2int,
{
    match e {
        SExpr::Bin(l, op, r) => {
            if mentions(*r, n) {
                law_validated_names_resolve(c, *r, off, sc, n);
            } else if op == BinaryOp::Assign {
                assert(sv_target(c, *l, off, sc) is Ok);
                assert(sv_place_sub(c, *l, off, sc) is Ok);
                lemma_place_mentions(c, *l, off, sc, n);
            } else {
                law_validated_names_resolve(c, *l, off, sc, n);
            }
        },
        SExpr::Call(f, args) => lemma_call_mentions(c, *f, args, off, sc, n),
        SExpr::GenericCall(f, _, args) => {
            if mentions(*f, n) {
                law_validated_names_resolve(c, *f, off, sc, n);
            } else {
                lemma_exprs_mentions(c, args, off, sc, n);
            }
        },
        SExpr::Macro(_, args) => lemma_exprs_mentions(c, args, off, sc, n),
        SExpr::Lit(SLit::List(items)) => lemma_exprs_mentions(c, items, off, sc, n),
        SExpr::Lit(SLit::SetOf(items)) => lemma_exprs_mentions(c, items, off, sc, n),
        SExpr::Lit(SLit::Dict(pairs)) => lemma_pairs_mentions(c, pairs, off, sc, n),
        SExpr::Tuple(items) => lemma_exprs_mentions(c, items, off, sc, n),
        SExpr::Move(b) => law_validated_names_resolve(c, *b, off, sc, n),
        SExpr::UniqueRef(b) => law_validated_names_resolve(c, *b, off, sc, n),
        SExpr::SharedRef(b) => law_validated_names_resolve(c, *b, off, sc, n),
        SExpr::Member(b, _) => law_validated_names_resolve(c, *b, off, sc, n),
        SExpr::Question(b) => law_validated_names_resolve(c, *b, off, sc, n),
        SExpr::Unwrap(b) => law_validated_names_resolve(c, *b, off, sc, n),
        SExpr::Not(b) => law_validated_names_resolve(c, *b, off, sc, n),
        SExpr::Index(b, i) => {
            if mentions(*b, n) {
                law_validated_names_resolve(c, *b, off, sc, n);
            } else {
                law_validated_names_resolve(c, *i, off, sc, n);
            }
        },
        SExpr::Range(a, b) => {
            if mentions(*a, n) {
                law_validated_names_resolve(c, *a, off, sc, n);
            } else {
                law_validated_names_resolve(c, *b, off, sc, n);
            }
        },
        SExpr::RangeInclusive(a, b) => {
            if mentions(*a, n) {
                law_validated_names_resolve(c, *a, off, sc, n);
            } else {
                law_validated_names_resolve(c, *b, off, sc, n);
            }
        },
        _ => {},
    }
}


// ---------------------------------------------------------------------------
// What a validated expression writes.
// ---------------------------------------------------------------------------

/// Whether `e` writes the variable `n`: assigns to it (`n = ...`), moves
/// it (`move n`) or borrows it uniquely (`~n`), anywhere in it outside
/// lambda bodies; a constructor's `field = value` argument writes only what
/// its value writes.
pub open spec fn writes(e: SExpr, n: Seq<char>) -> bool
    decreases e,
{
    match e {
        SExpr::Bin(l, op, r) => if op == BinaryOp::Assign {
            *l == SExpr::Ident(n) || writes(*r, n)
        } else {
            writes(*l, n) || writes(*r, n)
        },
        SExpr::Move(b) => *b == SExpr::Ident(n) || writes(*b, n),
        SExpr::UniqueRef(b) => *b == SExpr::Ident(n) || writes(*b, n),
        SExpr::Call(f, args) => writes(*f, n) || writes_args(args, n),
        SExpr::GenericCall(f, _, args) => writes(*f, n) || writes_args(args, n),
        SExpr::Macro(_, args) => writes_args(args, n),
        SExpr::Lit(SLit::List(items)) => writes_args(items, n),
        SExpr::Lit(SLit::SetOf(items)) => writes_args(items, n),
        SExpr::Tuple(items) => writes_args(items, n),
        SExpr::SharedRef(b) => writes(*b, n),
        SExpr::Member(b, _) => writes(*b, n),
        SExpr::Question(b) => writes(*b, n),
        SExpr::Unwrap(b) => writes(*b, n),
        SExpr::Not(b) => writes(*b, n),
        SExpr::Index(b, i) => writes(*b, n) || writes(*i, n),
        SExpr::Range(a, b) => writes(*a, n) || writes(*b, n),
        SExpr::RangeInclusive(a, b) => writes(*a, n) || writes(*b, n),
        _ => false,
    }
}

/// What a list of arguments or items writes; a `name = value` item writes
/// what its value writes.
pub open spec fn writes_args(s: Seq<SExpr>, n: Seq<char>) -> bool
    decreases s,
{
    s.len() > 0 && (writes_args(s.subrange(0, s.len() - 1), n) || match s[s.len() - 1] {
        SExpr::Bin(l, op, v) => if op == BinaryOp::Assign && *l is Ident { writes(*v, n) } else { writes(s[s.len() - 1], n) },
        _ => writes(s[s.len() - 1], n),
    })
}

/// The variable `n` is declared mutable in the scopes.
pub open spec fn mutable_in(sc: Scopes, n: Seq<char>) -> bool {
    lookup(sc, n) matches Some(b) && b.is_mut
}

proof fn lemma_exprs_writes(c: VCtx, s: Seq<SExpr>, off: int, sc: Scopes, n: Seq<char>)
    requires
        sv_exprs(c, s, off, sc) is Ok,
        writes_args(s, n),
    ensures
        mutable_in(sc, n),
    decreases s, 2int,
{
    let init = s.subrange(0, s.len() - 1);
    let a = s[s.len() - 1];
    if writes_args(init, n) {
        lemma_exprs_writes(c, init, off, sc, n);
    } else {
        assert(sv_expr(c, a, off, sc) is Ok);
        match a {
            SExpr::Bin(l, op, v) => {
                if op == BinaryOp::Assign && *l is Ident {
                    law_validated_writes_are_mutable(c, *v, off, sc, n);
                } else {
                    law_validated_writes_are_mutable(c, a, off, sc, n);
                }
            },
            _ => law_validated_writes_are_mutable(c, a, off, sc, n),
        }
    }
}

proof fn lemma_ctor_writes(
    c: VCtx,
    name: Seq<char>,
    fields: Seq<Seq<char>>,
    args: Seq<SExpr>,
    off: int,
    sc: Scopes,
    n: Seq<char>,
)
    requires
        ctor_scan(c, name, fields, args, off, sc) is Ok,
        writes_args(args, n),
    ensures
        mutable_in(sc, n),
    decreases args, 2int,
{
    let init = args.subrange(0, args.len() - 1);
    let a = args[args.len() - 1];
    if writes_args(init, n) {
        lemma_ctor_writes(c, name, fields, init, off, sc, n);
    } else {
        let prev = ctor_scan(c, name, fields, init, off, sc);
        assert(prev is Ok);
        match a {
            SExpr::Bin(l, op, v) => {
                if op == BinaryOp::Assign {
                    assert(*l is Ident);
                    law_validated_writes_are_mutable(c, *v, off, sc, n);
                } else {
                    law_validated_writes_are_mutable(c, a, off, sc, n);
                }
            },
            _ => law_validated_writes_are_mutable(c, a, off, sc, n),
        }
    }
}

proof fn lemma_call_writes(c: VCtx, f: SExpr, args: Seq<SExpr>, off: int, sc: Scopes, n: Seq<char>)
    requires
        sv_expr(c, SExpr::Call(Box::new(f), args), off, sc) is Ok,
        writes(f, n) || writes_args(args, n),
    ensures
        mutable_in(sc, n),
    decreases SExpr::Call(Box::new(f), args), 1int,
{
    assert(sv_expr(c, f, off, sc) is Ok);
    if writes(f, n) {
        law_validated_writes_are_mutable(c, f, off, sc, n);
    } else {
        match f {
            SExpr::Ident(m) => match assoc(c.fields, m) {
                Some(fs) => {
                    assert(sv_ctor(c, m, fs, args, off, sc) is Ok);
                    assert(ctor_scan(c, m, fs, args, off, sc) is Ok);
                    lemma_ctor_writes(c, m, fs, args, off, sc, n);
                },
                None => {
                    assert(sv_exprs(c, args, off, sc) is Ok);
                    lemma_exprs_writes(c, args, off, sc, n);
                },
            },
            _ => {
                assert(sv_exprs(c, args, off, sc) is Ok);
                lemma_exprs_writes(c, args, off, sc, n);
            },
        }
    }
}

/// Validation lets a program write only what it declared mutable: when an
/// expression validates, every variable it assigns to, moves or borrows
/// uniquely is declared `mut` in the scopes it was validated in.
#[verifier::rlimit(100)]
#[verifier::spinoff_prover]
pub proof fn law_validated_writes_are_mutable(c: VCtx, e: SExpr, off: int, sc: Scopes, n: Seq<char>)
    requires
        sv_expr(c, e, off, sc) is Ok,
        writes(e, n),
    ensures
        mutable_in(sc, n),
    decreases e, 2int,
{
    match e {
        SExpr::Bin(l, op, r) => {
            if op == BinaryOp::Assign {
                if *l == SExpr::Ident(n) {
                    assert(sv_target(c, *l, off, sc) is Ok);
                } else {
                    law_validated_writes_are_mutable(c, *r, off, sc, n);
                }
            } else if writes(*l, n) {
                law_validated_writes_are_mutable(c, *l, off, sc, n);
            } else {
                law_validated_writes_are_mutable(c, *r, off, sc, n);
            }
        },
        SExpr::Move(b) => {
            if *b == SExpr::Ident(n) {
                assert(mutable_binding_check(*b, sc, "move"@, off) is Ok);
            } else {
                law_validated_writes_are_mutable(c, *b, off, sc, n);
            }
        },
        SExpr::UniqueRef(b) => {
            if *b == SExpr::Ident(n) {
                assert(mutable_binding_check(*b, sc, "~"@, off) is Ok);
            } else {
                law_validated_writes_are_mutable(c, *b, off, sc, n);
            }
        },
        SExpr::Call(f, args) => lemma_call_writes(c, *f, args, off, sc, n),
        SExpr::GenericCall(f, _, args) => {
            if writes(*f, n) {
                law_validated_writes_are_mutable(c, *f, off, sc, n);
            } else {
                lemma_exprs_writes(c, args, off, sc, n);
            }
        },
        SExpr::Macro(_, args) => lemma_exprs_writes(c, args, off, sc, n),
        SExpr::Lit(SLit::List(items)) => lemma_exprs_writes(c, items, off, sc, n),
        SExpr::Lit(SLit::SetOf(items)) => lemma_exprs_writes(c, items, off, sc, n),
        SExpr::Tuple(items) => lemma_exprs_writes(c, items, off, sc, n),
        SExpr::SharedRef(b) => law_validated_writes_are_mutable(c, *b, off, sc, n),
        SExpr::Member(b, _) => law_validated_writes_are_mutable(c, *b, off, sc, n),
        SExpr::Question(b) => law_validated_writes_are_mutable(c, *b, off, sc, n),
        SExpr::Unwrap(b) => law_validated_writes_are_mutable(c, *b, off, sc, n),
        SExpr::Not(b) => law_validated_writes_are_mutable(c, *b, off, sc, n),
        SExpr::Index(b, i) => {
            if writes(*b, n) {
                law_validated_writes_are_mutable(c, *b, off, sc, n);
            } else {
                law_validated_writes_are_mutable(c, *i, off, sc, n);
            }
        },
        SExpr::Range(a, b) => {
            if writes(*a, n) {
                law_validated_writes_are_mutable(c, *a, off, sc, n);
            } else {
                law_validated_writes_are_mutable(c, *b, off, sc, n);
            }
        },
        SExpr::RangeInclusive(a, b) => {
            if writes(*a, n) {
                law_validated_writes_are_mutable(c, *a, off, sc, n);
            } else {
                law_validated_writes_are_mutable(c, *b, off, sc, n);
            }
        },
        _ => {},
    }
}

/// A validated call of a declared function passes as many arguments as the
/// function takes.
pub proof fn law_validated_calls_match_arity(c: VCtx, n: Seq<char>, args: Seq<SExpr>, off: int, sc: Scopes)
    requires
        sv_expr(c, SExpr::Call(Box::new(SExpr::Ident(n)), args), off, sc) is Ok,
        assoc(c.fields, n) is None,
        lookup(sc, n) matches Some(b) && b.callable_arity is Some,
    ensures
        lookup(sc, n)->Some_0.callable_arity->Some_0 == args.len(),
{
    assert(arity_check(SExpr::Ident(n), args.len() as int, off, sc) is Ok);
}


/// The field a `field = value` constructor argument names.
pub open spec fn named_field(a: SExpr) -> Option<Seq<char>> {
    match a {
        SExpr::Bin(l, op, _) => if op == BinaryOp::Assign {
            match *l {
                SExpr::Ident(f) => Some(f),
                _ => None,
            }
        } else {
            None
        },
        _ => None,
    }
}

proof fn lemma_ctor_fields(c: VCtx, name: Seq<char>, fields: Seq<Seq<char>>, args: Seq<SExpr>, off: int, sc: Scopes)
    requires
        ctor_scan(c, name, fields, args, off, sc) is Ok,
    ensures
        forall|k: int| 0 <= k < args.len() && (#[trigger] named_field(args[k])) is Some
            ==> fields.contains(named_field(args[k])->Some_0)
                && ctor_scan(c, name, fields, args, off, sc)->Ok_0.0.contains(named_field(args[k])->Some_0),
        forall|j: int, k: int| 0 <= j < k < args.len() && named_field(args[j]) is Some
            ==> #[trigger] named_field(args[j]) != #[trigger] named_field(args[k]),
    decreases args,
{
    if args.len() > 0 {
        let init = args.subrange(0, args.len() - 1);
        let a = args[args.len() - 1];
        let prev = ctor_scan(c, name, fields, init, off, sc);
        assert(prev is Ok);
        lemma_ctor_fields(c, name, fields, init, off, sc);
        let named = prev->Ok_0.0;
        let res = ctor_scan(c, name, fields, args, off, sc)->Ok_0.0;
        assert(named.is_prefix_of(res) || res == named) by {
            match named_field(a) {
                Some(f) => assert(res == named.push(f)),
                None => {},
            }
        }
        assert forall|k: int| 0 <= k < args.len() && (#[trigger] named_field(args[k])) is Some
            implies fields.contains(named_field(args[k])->Some_0) && res.contains(named_field(args[k])->Some_0) by {
            let f = named_field(args[k])->Some_0;
            if k < args.len() - 1 {
                assert(init[k] == args[k]);
                assert(named_field(init[k]) == Some(f));
                let w = choose|w: int| 0 <= w < named.len() && named[w] == f;
                assert(res[w] == f);
            } else {
                assert(res == named.push(f));
                assert(res[named.len() as int] == f);
            }
        }
        assert forall|j: int, k: int| 0 <= j < k < args.len() && named_field(args[j]) is Some
            implies #[trigger] named_field(args[j]) != #[trigger] named_field(args[k]) by {
            if k < args.len() - 1 {
                assert(init[j] == args[j] && init[k] == args[k]);
            } else {
                assert(init[j] == args[j]);
                let f = named_field(args[j])->Some_0;
                assert(named_field(init[j]) == Some(f));
            }
        }
    }
}

/// A validated constructor call names only declared fields, and none twice.
pub proof fn law_validated_constructors_name_fields(c: VCtx, n: Seq<char>, args: Seq<SExpr>, off: int, sc: Scopes)
    requires
        sv_expr(c, SExpr::Call(Box::new(SExpr::Ident(n)), args), off, sc) is Ok,
        assoc(c.fields, n) is Some,
    ensures
        forall|k: int| 0 <= k < args.len() && (#[trigger] named_field(args[k])) is Some
            ==> assoc(c.fields, n)->Some_0.contains(named_field(args[k])->Some_0),
        forall|j: int, k: int| 0 <= j < k < args.len() && named_field(args[j]) is Some
            ==> #[trigger] named_field(args[j]) != #[trigger] named_field(args[k]),
{
    let fs = assoc(c.fields, n)->Some_0;
    assert(sv_ctor(c, n, fs, args, off, sc) is Ok);
    assert(ctor_scan(c, n, fs, args, off, sc) is Ok);
    lemma_ctor_fields(c, n, fs, args, off, sc);
}

} // verus!
