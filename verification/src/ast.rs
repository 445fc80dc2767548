//! The syntax tree of Desert programs, and its mathematical model.
//!
//! Every executable node has a view (`@`) in the `S*` model types, where
//! strings are `Seq<char>` and lists are `Seq`s. Contracts elsewhere speak of
//! these views.
use std::ops::Range;
use vstd::prelude::*;
use crate::text::{join, join_strings, push_char, string_views};

verus! {

#[derive(Debug, PartialEq)]
pub enum Type {
    Simple(String),
    Generic(String, Vec<Type>),
    Tuple(Vec<Type>),
    /// `&T`
    SharedRef(Box<Type>),
    /// `~T`
    UniqueRef(Box<Type>),
}

/// A literal. A float literal keeps its digits as written, without leading
/// zeros before the point or trailing zeros after it (see
/// `lexer::float_text`); this is the text `f64`'s `Display` writes for
/// literals of up to 15 significant digits, while longer ones keep digits
/// that an `f64` would round away.
#[derive(Debug, PartialEq)]
pub enum Literal {
    Int(i64),
    Float(String),
    String(String),
    /// `[1, 2, 3]`
    List(Vec<Expression>),
    /// `{"a": 1, "b": 2}`
    Dict(Vec<(Expression, Expression)>),
    /// `{1, 2, 3}` (a set literal)
    SetLiteral(Vec<Expression>),
}

#[derive(Debug, PartialEq, Eq, Structural, Clone, Copy)]
pub enum BinaryOp {
    Add,
    Sub,
    Mul,
    Mod,
    Div,
    And,
    Or,
    Assign,
    Eq,
    Ne,
    Gt,
    Lt,
    Ge,
    Le,
    MatMul,
}

#[derive(Debug, PartialEq)]
pub enum Expression {
    Literal(Literal),
    Ident(String),
    BinaryOp(Box<Expression>, BinaryOp, Box<Expression>),
    Call(Box<Expression>, Vec<Expression>),
    MacroCall(String, Vec<Expression>),
    MemberAccess(Box<Expression>, String),
    /// `.collect[List[i32]]()`
    GenericCall(Box<Expression>, Vec<Type>, Vec<Expression>),
    Move(Box<Expression>),
    SharedRef(Box<Expression>),
    UniqueRef(Box<Expression>),
    Not(Box<Expression>),
    /// `expr?`
    Question(Box<Expression>),
    /// `expr!!`
    Unwrap(Box<Expression>),
    /// `expr[index]`
    Index(Box<Expression>, Box<Expression>),
    /// `(a, b, c)`
    Tuple(Vec<Expression>),
    /// `a..b`
    Range(Box<Expression>, Box<Expression>),
    /// `a..=b`
    RangeInclusive(Box<Expression>, Box<Expression>),
    Lambda { params: Vec<Param>, body: Box<Expression> },
}

#[derive(Debug, PartialEq)]
pub enum Pattern {
    Name(String),
    Tuple(Vec<Pattern>),
}

#[derive(Debug, PartialEq)]
pub struct Param {
    pub name: String,
    pub ty: Option<Type>,
    pub is_mut: bool,
}

#[derive(Debug, PartialEq)]
pub struct Statement {
    pub kind: StatementKind,
    /// Byte offsets of the statement's first and last token.
    pub span: Range<usize>,
}

#[derive(Debug, PartialEq, Clone)]
pub struct ImportItem {
    pub name: String,
    pub alias: Option<String>,
}

#[derive(Debug, PartialEq)]
pub struct EnumVariant {
    pub name: String,
    pub fields: Vec<Type>,
}

#[derive(Debug, PartialEq)]
pub enum StatementKind {
    Import { path: String, alias: Option<String> },
    FromImport { path: String, items: Vec<ImportItem> },
    Let { pattern: Pattern, ty: Option<Type>, value: Expression },
    Mut { pattern: Pattern, ty: Option<Type>, value: Expression },
    Def { name: String, params: Vec<Param>, return_ty: Option<Type>, body: Vec<Statement> },
    If { condition: Expression, then_block: Vec<Statement>, else_block: Option<Vec<Statement>> },
    For { pattern: Pattern, iterable: Expression, body: Vec<Statement> },
    While { condition: Expression, body: Vec<Statement> },
    Struct { name: String, fields: Vec<Param> },
    Enum { name: String, variants: Vec<EnumVariant> },
    Protocol { name: String, methods: Vec<Statement> },
    Impl { protocol: Option<String>, for_type: String, methods: Vec<Statement> },
    /// `(pattern, body)` pairs.
    Match { expression: Expression, arms: Vec<(Expression, Vec<Statement>)> },
    PyImport(String),
    Return(Option<Expression>),
    Break,
    Continue,
    Expr(Expression),
}

#[derive(Debug, PartialEq)]
pub struct Program {
    pub statements: Vec<Statement>,
}

// ---------------------------------------------------------------------------
// The model.
// ---------------------------------------------------------------------------

pub enum SType {
    Simple(Seq<char>),
    Generic(Seq<char>, Seq<SType>),
    Tuple(Seq<SType>),
    SharedRef(Box<SType>),
    UniqueRef(Box<SType>),
}

pub enum SLit {
    Int(int),
    Float(Seq<char>),
    Str(Seq<char>),
    List(Seq<SExpr>),
    Dict(Seq<(SExpr, SExpr)>),
    SetOf(Seq<SExpr>),
}

pub enum SExpr {
    Lit(SLit),
    Ident(Seq<char>),
    Bin(Box<SExpr>, BinaryOp, Box<SExpr>),
    Call(Box<SExpr>, Seq<SExpr>),
    Macro(Seq<char>, Seq<SExpr>),
    Member(Box<SExpr>, Seq<char>),
    GenericCall(Box<SExpr>, Seq<SType>, Seq<SExpr>),
    Move(Box<SExpr>),
    SharedRef(Box<SExpr>),
    UniqueRef(Box<SExpr>),
    Not(Box<SExpr>),
    Question(Box<SExpr>),
    Unwrap(Box<SExpr>),
    Index(Box<SExpr>, Box<SExpr>),
    Tuple(Seq<SExpr>),
    Range(Box<SExpr>, Box<SExpr>),
    RangeInclusive(Box<SExpr>, Box<SExpr>),
    Lambda(Seq<SParam>, Box<SExpr>),
}

pub enum SPattern {
    Name(Seq<char>),
    Tuple(Seq<SPattern>),
}

pub struct SParam {
    pub name: Seq<char>,
    pub ty: Option<SType>,
    pub is_mut: bool,
}

pub struct SImport {
    pub name: Seq<char>,
    pub alias: Option<Seq<char>>,
}

pub struct SVariant {
    pub name: Seq<char>,
    pub fields: Seq<SType>,
}

pub struct SStmt {
    pub kind: SKind,
    pub start: usize,
    pub end: usize,
}

pub enum SKind {
    Import(Seq<char>, Option<Seq<char>>),
    FromImport(Seq<char>, Seq<SImport>),
    Let(SPattern, Option<SType>, SExpr),
    Mut(SPattern, Option<SType>, SExpr),
    Def(Seq<char>, Seq<SParam>, Option<SType>, Seq<SStmt>),
    If(SExpr, Seq<SStmt>, Option<Seq<SStmt>>),
    For(SPattern, SExpr, Seq<SStmt>),
    While(SExpr, Seq<SStmt>),
    Struct(Seq<char>, Seq<SParam>),
    Enum(Seq<char>, Seq<SVariant>),
    Protocol(Seq<char>, Seq<SStmt>),
    Impl(Option<Seq<char>>, Seq<char>, Seq<SStmt>),
    Match(SExpr, Seq<(SExpr, Seq<SStmt>)>),
    PyImport(Seq<char>),
    Return(Option<SExpr>),
    Break,
    Continue,
    Expr(SExpr),
}

pub open spec fn opt_str_view(o: Option<String>) -> Option<Seq<char>> {
    match o {
        Some(s) => Some(s@),
        None => None,
    }
}

pub open spec fn type_view(t: Type) -> SType
    decreases t,
{
    match t {
        Type::Simple(n) => SType::Simple(n@),
        Type::Generic(n, args) => SType::Generic(n@, types_view(args@)),
        Type::Tuple(items) => SType::Tuple(types_view(items@)),
        Type::SharedRef(b) => SType::SharedRef(Box::new(type_view(*b))),
        Type::UniqueRef(b) => SType::UniqueRef(Box::new(type_view(*b))),
    }
}

pub open spec fn types_view(s: Seq<Type>) -> Seq<SType>
    decreases s,
{
    if s.len() == 0 {
        seq![]
    } else {
        types_view(s.subrange(0, s.len() - 1)).push(type_view(s[s.len() - 1]))
    }
}

pub open spec fn opt_type_view(o: Option<Type>) -> Option<SType> {
    match o {
        Some(t) => Some(type_view(t)),
        None => None,
    }
}

pub open spec fn param_view(p: Param) -> SParam {
    SParam { name: p.name@, ty: opt_type_view(p.ty), is_mut: p.is_mut }
}

pub open spec fn params_view(s: Seq<Param>) -> Seq<SParam> {
    s.map_values(|p: Param| param_view(p))
}

pub open spec fn expr_view(e: Expression) -> SExpr
    decreases e,
{
    match e {
        Expression::Literal(Literal::Int(i)) => SExpr::Lit(SLit::Int(i as int)),
        Expression::Literal(Literal::Float(f)) => SExpr::Lit(SLit::Float(f@)),
        Expression::Literal(Literal::String(s)) => SExpr::Lit(SLit::Str(s@)),
        Expression::Literal(Literal::List(items)) => SExpr::Lit(SLit::List(exprs_view(items@))),
        Expression::Literal(Literal::Dict(pairs)) => SExpr::Lit(SLit::Dict(pairs_view(pairs@))),
        Expression::Literal(Literal::SetLiteral(items)) => SExpr::Lit(SLit::SetOf(exprs_view(items@))),
        Expression::Ident(n) => SExpr::Ident(n@),
        Expression::BinaryOp(l, op, r) => SExpr::Bin(Box::new(expr_view(*l)), op, Box::new(expr_view(*r))),
        Expression::Call(f, args) => SExpr::Call(Box::new(expr_view(*f)), exprs_view(args@)),
        Expression::MacroCall(n, args) => SExpr::Macro(n@, exprs_view(args@)),
        Expression::MemberAccess(b, m) => SExpr::Member(Box::new(expr_view(*b)), m@),
        Expression::GenericCall(f, tys, args) => SExpr::GenericCall(Box::new(expr_view(*f)), types_view(tys@), exprs_view(args@)),
        Expression::Move(b) => SExpr::Move(Box::new(expr_view(*b))),
        Expression::SharedRef(b) => SExpr::SharedRef(Box::new(expr_view(*b))),
        Expression::UniqueRef(b) => SExpr::UniqueRef(Box::new(expr_view(*b))),
        Expression::Not(b) => SExpr::Not(Box::new(expr_view(*b))),
        Expression::Question(b) => SExpr::Question(Box::new(expr_view(*b))),
        Expression::Unwrap(b) => SExpr::Unwrap(Box::new(expr_view(*b))),
        Expression::Index(b, i) => SExpr::Index(Box::new(expr_view(*b)), Box::new(expr_view(*i))),
        Expression::Tuple(items) => SExpr::Tuple(exprs_view(items@)),
        Expression::Range(a, b) => SExpr::Range(Box::new(expr_view(*a)), Box::new(expr_view(*b))),
        Expression::RangeInclusive(a, b) => SExpr::RangeInclusive(Box::new(expr_view(*a)), Box::new(expr_view(*b))),
        Expression::Lambda { params, body } => SExpr::Lambda(params_view(params@), Box::new(expr_view(*body))),
    }
}

pub open spec fn exprs_view(s: Seq<Expression>) -> Seq<SExpr>
    decreases s,
{
    if s.len() == 0 {
        seq![]
    } else {
        exprs_view(s.subrange(0, s.len() - 1)).push(expr_view(s[s.len() - 1]))
    }
}

pub open spec fn pairs_view(s: Seq<(Expression, Expression)>) -> Seq<(SExpr, SExpr)>
    decreases s,
{
    if s.len() == 0 {
        seq![]
    } else {
        let last = s[s.len() - 1];
        pairs_view(s.subrange(0, s.len() - 1)).push((expr_view(last.0), expr_view(last.1)))
    }
}

pub open spec fn opt_expr_view(o: Option<Expression>) -> Option<SExpr> {
    match o {
        Some(e) => Some(expr_view(e)),
        None => None,
    }
}

pub open spec fn pattern_view(p: Pattern) -> SPattern
    decreases p,
{
    match p {
        Pattern::Name(n) => SPattern::Name(n@),
        Pattern::Tuple(items) => SPattern::Tuple(patterns_view(items@)),
    }
}

pub open spec fn patterns_view(s: Seq<Pattern>) -> Seq<SPattern>
    decreases s,
{
    if s.len() == 0 {
        seq![]
    } else {
        patterns_view(s.subrange(0, s.len() - 1)).push(pattern_view(s[s.len() - 1]))
    }
}

pub open spec fn import_view(i: ImportItem) -> SImport {
    SImport { name: i.name@, alias: opt_str_view(i.alias) }
}

pub open spec fn variant_view(v: EnumVariant) -> SVariant {
    SVariant { name: v.name@, fields: types_view(v.fields@) }
}

pub open spec fn stmt_view(s: Statement) -> SStmt
    decreases s,
{
    SStmt { kind: kind_view(s.kind), start: s.span.start, end: s.span.end }
}

pub open spec fn kind_view(k: StatementKind) -> SKind
    decreases k,
{
    match k {
        StatementKind::Import { path, alias } => SKind::Import(path@, opt_str_view(alias)),
        StatementKind::FromImport { path, items } => SKind::FromImport(path@, items@.map_values(|i: ImportItem| import_view(i))),
        StatementKind::Let { pattern, ty, value } => SKind::Let(pattern_view(pattern), opt_type_view(ty), expr_view(value)),
        StatementKind::Mut { pattern, ty, value } => SKind::Mut(pattern_view(pattern), opt_type_view(ty), expr_view(value)),
        StatementKind::Def { name, params, return_ty, body } => SKind::Def(name@, params_view(params@), opt_type_view(return_ty), stmts_view(body@)),
        StatementKind::If { condition, then_block, else_block } => SKind::If(
            expr_view(condition),
            stmts_view(then_block@),
            match else_block {
                Some(b) => Some(stmts_view(b@)),
                None => None,
            },
        ),
        StatementKind::For { pattern, iterable, body } => SKind::For(pattern_view(pattern), expr_view(iterable), stmts_view(body@)),
        StatementKind::While { condition, body } => SKind::While(expr_view(condition), stmts_view(body@)),
        StatementKind::Struct { name, fields } => SKind::Struct(name@, params_view(fields@)),
        StatementKind::Enum { name, variants } => SKind::Enum(name@, variants@.map_values(|v: EnumVariant| variant_view(v))),
        StatementKind::Protocol { name, methods } => SKind::Protocol(name@, stmts_view(methods@)),
        StatementKind::Impl { protocol, for_type, methods } => SKind::Impl(opt_str_view(protocol), for_type@, stmts_view(methods@)),
        StatementKind::Match { expression, arms } => SKind::Match(expr_view(expression), arms_view(arms@)),
        StatementKind::PyImport(c) => SKind::PyImport(c@),
        StatementKind::Return(e) => SKind::Return(opt_expr_view(e)),
        StatementKind::Break => SKind::Break,
        StatementKind::Continue => SKind::Continue,
        StatementKind::Expr(e) => SKind::Expr(expr_view(e)),
    }
}

pub open spec fn stmts_view(s: Seq<Statement>) -> Seq<SStmt>
    decreases s,
{
    if s.len() == 0 {
        seq![]
    } else {
        stmts_view(s.subrange(0, s.len() - 1)).push(stmt_view(s[s.len() - 1]))
    }
}

pub open spec fn arms_view(s: Seq<(Expression, Vec<Statement>)>) -> Seq<(SExpr, Seq<SStmt>)>
    decreases s,
{
    if s.len() == 0 {
        seq![]
    } else {
        let last = s[s.len() - 1];
        arms_view(s.subrange(0, s.len() - 1)).push((expr_view(last.0), stmts_view(last.1@)))
    }
}

impl View for Type {
    type V = SType;

    open spec fn view(&self) -> SType {
        type_view(*self)
    }
}

impl View for Expression {
    type V = SExpr;

    open spec fn view(&self) -> SExpr {
        expr_view(*self)
    }
}

impl View for Pattern {
    type V = SPattern;

    open spec fn view(&self) -> SPattern {
        pattern_view(*self)
    }
}

impl View for Statement {
    type V = SStmt;

    open spec fn view(&self) -> SStmt {
        stmt_view(*self)
    }
}

impl View for Program {
    type V = Seq<SStmt>;

    open spec fn view(&self) -> Seq<SStmt> {
        stmts_view(self.statements@)
    }
}

/// Views of a list are the views of its elements, index by index.
pub proof fn lemma_exprs_view(s: Seq<Expression>)
    ensures
        exprs_view(s).len() == s.len(),
        forall|i: int| 0 <= i < s.len() ==> #[trigger] exprs_view(s)[i] == expr_view(s[i]),
    decreases s.len(),
{
    if s.len() > 0 {
        lemma_exprs_view(s.subrange(0, s.len() - 1));
    }
}

pub proof fn lemma_types_view(s: Seq<Type>)
    ensures
        types_view(s).len() == s.len(),
        forall|i: int| 0 <= i < s.len() ==> #[trigger] types_view(s)[i] == type_view(s[i]),
    decreases s.len(),
{
    if s.len() > 0 {
        lemma_types_view(s.subrange(0, s.len() - 1));
    }
}

pub proof fn lemma_stmts_view(s: Seq<Statement>)
    ensures
        stmts_view(s).len() == s.len(),
        forall|i: int| 0 <= i < s.len() ==> #[trigger] stmts_view(s)[i] == stmt_view(s[i]),
    decreases s.len(),
{
    if s.len() > 0 {
        lemma_stmts_view(s.subrange(0, s.len() - 1));
    }
}

pub proof fn lemma_patterns_view(s: Seq<Pattern>)
    ensures
        patterns_view(s).len() == s.len(),
        forall|i: int| 0 <= i < s.len() ==> #[trigger] patterns_view(s)[i] == pattern_view(s[i]),
    decreases s.len(),
{
    if s.len() > 0 {
        lemma_patterns_view(s.subrange(0, s.len() - 1));
    }
}

pub proof fn lemma_pairs_view(s: Seq<(Expression, Expression)>)
    ensures
        pairs_view(s).len() == s.len(),
        forall|i: int| 0 <= i < s.len() ==> #[trigger] pairs_view(s)[i] == (expr_view(s[i].0), expr_view(s[i].1)),
    decreases s.len(),
{
    if s.len() > 0 {
        lemma_pairs_view(s.subrange(0, s.len() - 1));
    }
}

pub proof fn lemma_arms_view(s: Seq<(Expression, Vec<Statement>)>)
    ensures
        arms_view(s).len() == s.len(),
        forall|i: int| 0 <= i < s.len() ==> #[trigger] arms_view(s)[i] == (expr_view(s[i].0), stmts_view(s[i].1@)),
    decreases s.len(),
{
    if s.len() > 0 {
        lemma_arms_view(s.subrange(0, s.len() - 1));
    }
}


/// Views of lists grow with the list.
pub proof fn lemma_push_views()
    ensures
        forall|s: Seq<Expression>, e: Expression| #[trigger] exprs_view(s.push(e)) == exprs_view(s).push(expr_view(e)),
        forall|s: Seq<Type>, e: Type| #[trigger] types_view(s.push(e)) == types_view(s).push(type_view(e)),
        forall|s: Seq<Statement>, e: Statement| #[trigger] stmts_view(s.push(e)) == stmts_view(s).push(stmt_view(e)),
        forall|s: Seq<Pattern>, e: Pattern| #[trigger] patterns_view(s.push(e)) == patterns_view(s).push(pattern_view(e)),
        forall|s: Seq<(Expression, Expression)>, e: (Expression, Expression)| #[trigger] pairs_view(s.push(e)) == pairs_view(s).push((expr_view(e.0), expr_view(e.1))),
        forall|s: Seq<(Expression, Vec<Statement>)>, e: (Expression, Vec<Statement>)| #[trigger] arms_view(s.push(e)) == arms_view(s).push((expr_view(e.0), stmts_view(e.1@))),
        forall|s: Seq<Param>, e: Param| #[trigger] params_view(s.push(e)) == params_view(s).push(param_view(e)),
{
    assert forall|s: Seq<Expression>, e: Expression| #[trigger] exprs_view(s.push(e)) == exprs_view(s).push(expr_view(e)) by {
        assert(s.push(e).subrange(0, s.len() as int) =~= s);
    }
    assert forall|s: Seq<Type>, e: Type| #[trigger] types_view(s.push(e)) == types_view(s).push(type_view(e)) by {
        assert(s.push(e).subrange(0, s.len() as int) =~= s);
    }
    assert forall|s: Seq<Statement>, e: Statement| #[trigger] stmts_view(s.push(e)) == stmts_view(s).push(stmt_view(e)) by {
        assert(s.push(e).subrange(0, s.len() as int) =~= s);
    }
    assert forall|s: Seq<Pattern>, e: Pattern| #[trigger] patterns_view(s.push(e)) == patterns_view(s).push(pattern_view(e)) by {
        assert(s.push(e).subrange(0, s.len() as int) =~= s);
    }
    assert forall|s: Seq<(Expression, Expression)>, e: (Expression, Expression)| #[trigger] pairs_view(s.push(e)) == pairs_view(s).push((expr_view(e.0), expr_view(e.1))) by {
        assert(s.push(e).subrange(0, s.len() as int) =~= s);
    }
    assert forall|s: Seq<(Expression, Vec<Statement>)>, e: (Expression, Vec<Statement>)| #[trigger] arms_view(s.push(e)) == arms_view(s).push((expr_view(e.0), stmts_view(e.1@))) by {
        assert(s.push(e).subrange(0, s.len() as int) =~= s);
    }
    assert forall|s: Seq<Param>, e: Param| #[trigger] params_view(s.push(e)) == params_view(s).push(param_view(e)) by {
        assert(params_view(s.push(e)) =~= params_view(s).push(param_view(e)));
    }
}

/// The view of an empty list is empty.
pub proof fn lemma_empty_views()
    ensures
        exprs_view(Seq::<Expression>::empty()) == Seq::<SExpr>::empty(),
        types_view(Seq::<Type>::empty()) == Seq::<SType>::empty(),
        stmts_view(Seq::<Statement>::empty()) == Seq::<SStmt>::empty(),
        patterns_view(Seq::<Pattern>::empty()) == Seq::<SPattern>::empty(),
        pairs_view(Seq::<(Expression, Expression)>::empty()) == Seq::<(SExpr, SExpr)>::empty(),
        arms_view(Seq::<(Expression, Vec<Statement>)>::empty()) == Seq::<(SExpr, Seq<SStmt>)>::empty(),
        params_view(Seq::<Param>::empty()) == Seq::<SParam>::empty(),
{
    assert(params_view(Seq::<Param>::empty()) =~= Seq::<SParam>::empty());
}

// ---------------------------------------------------------------------------
// Patterns.
// ---------------------------------------------------------------------------

/// The names a pattern binds, left to right.
pub open spec fn pattern_names(p: SPattern) -> Seq<Seq<char>>
    decreases p,
{
    match p {
        SPattern::Name(n) => seq![n],
        SPattern::Tuple(items) => patterns_names(items),
    }
}

pub open spec fn patterns_names(s: Seq<SPattern>) -> Seq<Seq<char>>
    decreases s,
{
    if s.len() == 0 {
        seq![]
    } else {
        patterns_names(s.subrange(0, s.len() - 1)) + pattern_names(s[s.len() - 1])
    }
}

/// How a pattern is written in Desert source: a name, or `(a, b)`.
pub open spec fn pattern_text(p: SPattern) -> Seq<char>
    decreases p,
{
    match p {
        SPattern::Name(n) => n,
        SPattern::Tuple(items) => seq!['('] + join(patterns_text(items), seq![',', ' ']) + seq![')'],
    }
}

pub open spec fn patterns_text(s: Seq<SPattern>) -> Seq<Seq<char>>
    decreases s,
{
    if s.len() == 0 {
        seq![]
    } else {
        patterns_text(s.subrange(0, s.len() - 1)).push(pattern_text(s[s.len() - 1]))
    }
}

pub open spec fn seq_str_views(s: Seq<&str>) -> Seq<Seq<char>> {
    s.map_values(|x: &str| x@)
}

impl Pattern {
    /// The bound name of a single-name pattern; `None` for a tuple pattern.
    pub fn as_name(&self) -> (r: Option<&str>)
        ensures
            match self@ {
                SPattern::Name(n) => r matches Some(x) && x@ == n,
                SPattern::Tuple(_) => r is None,
            },
    {
        match self {
            Pattern::Name(name) => Some(name.as_str()),
            _ => None,
        }
    }

    /// Every name the pattern binds, left to right.
    pub fn names(&self) -> (r: Vec<&str>)
        ensures
            seq_str_views(r@) == pattern_names(self@),
        decreases self,
    {
        match self {
            Pattern::Name(name) => {
                let mut v: Vec<&str> = Vec::new();
                v.push(name.as_str());
                assert(seq_str_views(v@) =~= seq![name@]);
                v
            },
            Pattern::Tuple(pats) => {
                let mut v: Vec<&str> = Vec::new();
                let mut i: usize = 0;
                proof {
                    lemma_patterns_view(pats@);
                    assert(decreases_to!(*self => *pats));
                }
                while i < pats.len()
                    invariant
                        0 <= i <= pats.len(),
                        decreases_to!(*self => *pats),
                        patterns_view(pats@).len() == pats.len(),
                        forall|j: int| 0 <= j < pats.len() ==> #[trigger] patterns_view(pats@)[j] == pattern_view(pats@[j]),
                        seq_str_views(v@) == patterns_names(patterns_view(pats@).subrange(0, i as int)),
                    decreases pats.len() - i,
                {
                    proof {
                        assert(decreases_to!(*pats => pats@));
                        assert(decreases_to!(pats@ => pats@[i as int]));
                    }
                    let inner = pats[i].names();
                    let ghost before = v@;
                    let mut k: usize = 0;
                    while k < inner.len()
                        invariant
                            0 <= k <= inner.len(),
                            v@ == before + inner@.take(k as int),
                        decreases inner.len() - k,
                    {
                        v.push(inner[k]);
                        k = k + 1;
                        assert(v@ =~= before + inner@.take(k as int));
                    }
                    assert(inner@.take(k as int) =~= inner@);
                    assert(seq_str_views(v@) =~= seq_str_views(before) + seq_str_views(inner@));
                    proof {
                        let sv = patterns_view(pats@);
                        assert(sv.subrange(0, i + 1).subrange(0, i as int) =~= sv.subrange(0, i as int));
                        assert(sv.subrange(0, i + 1)[i as int] == sv[i as int]);
                    }
                    i = i + 1;
                }
                assert(patterns_view(pats@).subrange(0, i as int) =~= patterns_view(pats@));
                v
            },
        }
    }

    /// The pattern as Desert source text.
    pub fn format_desert(&self) -> (r: String)
        ensures
            r@ == pattern_text(self@),
        decreases self,
    {
        match self {
            Pattern::Name(name) => name.clone(),
            Pattern::Tuple(pats) => {
                let mut parts: Vec<String> = Vec::new();
                let mut i: usize = 0;
                proof {
                    lemma_patterns_view(pats@);
                    assert(decreases_to!(*self => *pats));
                }
                while i < pats.len()
                    invariant
                        0 <= i <= pats.len(),
                        decreases_to!(*self => *pats),
                        patterns_view(pats@).len() == pats.len(),
                        forall|j: int| 0 <= j < pats.len() ==> #[trigger] patterns_view(pats@)[j] == pattern_view(pats@[j]),
                        string_views(parts@) == patterns_text(patterns_view(pats@).subrange(0, i as int)),
                    decreases pats.len() - i,
                {
                    proof {
                        assert(decreases_to!(*pats => pats@));
                        assert(decreases_to!(pats@ => pats@[i as int]));
                    }
                    let piece = pats[i].format_desert();
                    let ghost before = parts@;
                    parts.push(piece);
                    proof {
                        let sv = patterns_view(pats@);
                        assert(sv.subrange(0, i + 1).subrange(0, i as int) =~= sv.subrange(0, i as int));
                        assert(string_views(parts@) =~= string_views(before).push(piece@));
                    }
                    i = i + 1;
                }
                assert(patterns_view(pats@).subrange(0, i as int) =~= patterns_view(pats@));
                let mut out = String::new();
                push_char(&mut out, '(');
                let joined = join_strings(&parts, ", ");
                out.append(joined.as_str());
                push_char(&mut out, ')');
                proof {
                    reveal_strlit(", ");
                    assert(", "@ =~= seq![',', ' ']);
                    assert(string_views(parts@) == patterns_text(patterns_view(pats@)));
                }
                assert(out@ =~= seq!['('] + join(patterns_text(patterns_view(pats@)), seq![',', ' ']) + seq![')']);
                out
            },
        }
    }
}

} // verus!
