//! Tokens of Desert source and the indentation-aware lexer.
//!
//! The lexer reads characters, drops spaces, tabs and `#` comments, and turns
//! the indentation that follows each line break into `Indent`/`Dedent`
//! tokens. Blank lines are ignored. The lexer scans characters; the spans it hands out are byte offsets.
use std::ops::Range;
use vstd::prelude::*;
use crate::text::{
    lemma_utf8_size_push, utf8_size, utf8_width,
    chars_of, digit, digits, ident_char, ident_start, is_digit, is_ident_char, is_ident_start,
    push_char, string_of_range,
};

verus! {

#[derive(Debug, PartialEq, Clone)]
pub enum Token {
    Let,
    Mut,
    Move,
    Def,
    Protocol,
    Struct,
    Impl,
    For,
    While,
    In,
    If,
    Else,
    Return,
    Break,
    Continue,
    Elif,
    And,
    Or,
    Not,
    Import,
    PyImport,
    Match,
    As,
    From,
    Enum,
    Colon,
    Arrow,
    Question,
    BangBang,
    DotDotEq,
    DotDot,
    Dot,
    Pipe,
    LBracket,
    RBracket,
    LParen,
    RParen,
    LBrace,
    RBrace,
    Comma,
    Assign,
    Eq,
    Ne,
    Gt,
    Lt,
    Ge,
    Le,
    At,
    Dollar,
    Ampersand,
    Tilde,
    Plus,
    Minus,
    Star,
    Percent,
    Slash,
    Ident(String),
    /// A float literal, as its digits without redundant zeros (see
    /// `float_text`).
    Float(String),
    Int(i64),
    /// A string literal's contents between the quotes, escapes kept as written.
    String(String),
    NewlineWithIndent,
    Whitespace,
    Comment,
    Indent,
    Dedent,
}

/// A token and the byte offsets it covers.
pub type TokenSpan = (Token, Range<usize>);

/// The model of a token: payloads become sequences and mathematical integers.
pub enum STok {
    Let,
    Mut,
    Move,
    Def,
    Protocol,
    Struct,
    Impl,
    For,
    While,
    In,
    If,
    Else,
    Return,
    Break,
    Continue,
    Elif,
    And,
    Or,
    Not,
    Import,
    PyImport,
    Match,
    As,
    From,
    Enum,
    Colon,
    Arrow,
    Question,
    BangBang,
    DotDotEq,
    DotDot,
    Dot,
    Pipe,
    LBracket,
    RBracket,
    LParen,
    RParen,
    LBrace,
    RBrace,
    Comma,
    Assign,
    Eq,
    Ne,
    Gt,
    Lt,
    Ge,
    Le,
    At,
    Dollar,
    Ampersand,
    Tilde,
    Plus,
    Minus,
    Star,
    Percent,
    Slash,
    Ident(Seq<char>),
    Float(Seq<char>),
    Int(int),
    Str(Seq<char>),
    NewlineWithIndent,
    Whitespace,
    Comment,
    Indent,
    Dedent,
}

pub open spec fn tok_view(t: Token) -> STok {
    match t {
        Token::Let => STok::Let,
        Token::Mut => STok::Mut,
        Token::Move => STok::Move,
        Token::Def => STok::Def,
        Token::Protocol => STok::Protocol,
        Token::Struct => STok::Struct,
        Token::Impl => STok::Impl,
        Token::For => STok::For,
        Token::While => STok::While,
        Token::In => STok::In,
        Token::If => STok::If,
        Token::Else => STok::Else,
        Token::Return => STok::Return,
        Token::Break => STok::Break,
        Token::Continue => STok::Continue,
        Token::Elif => STok::Elif,
        Token::And => STok::And,
        Token::Or => STok::Or,
        Token::Not => STok::Not,
        Token::Import => STok::Import,
        Token::PyImport => STok::PyImport,
        Token::Match => STok::Match,
        Token::As => STok::As,
        Token::From => STok::From,
        Token::Enum => STok::Enum,
        Token::Colon => STok::Colon,
        Token::Arrow => STok::Arrow,
        Token::Question => STok::Question,
        Token::BangBang => STok::BangBang,
        Token::DotDotEq => STok::DotDotEq,
        Token::DotDot => STok::DotDot,
        Token::Dot => STok::Dot,
        Token::Pipe => STok::Pipe,
        Token::LBracket => STok::LBracket,
        Token::RBracket => STok::RBracket,
        Token::LParen => STok::LParen,
        Token::RParen => STok::RParen,
        Token::LBrace => STok::LBrace,
        Token::RBrace => STok::RBrace,
        Token::Comma => STok::Comma,
        Token::Assign => STok::Assign,
        Token::Eq => STok::Eq,
        Token::Ne => STok::Ne,
        Token::Gt => STok::Gt,
        Token::Lt => STok::Lt,
        Token::Ge => STok::Ge,
        Token::Le => STok::Le,
        Token::At => STok::At,
        Token::Dollar => STok::Dollar,
        Token::Ampersand => STok::Ampersand,
        Token::Tilde => STok::Tilde,
        Token::Plus => STok::Plus,
        Token::Minus => STok::Minus,
        Token::Star => STok::Star,
        Token::Percent => STok::Percent,
        Token::Slash => STok::Slash,
        Token::Ident(s) => STok::Ident(s@),
        Token::Float(s) => STok::Float(s@),
        Token::Int(i) => STok::Int(i as int),
        Token::String(s) => STok::Str(s@),
        Token::NewlineWithIndent => STok::NewlineWithIndent,
        Token::Whitespace => STok::Whitespace,
        Token::Comment => STok::Comment,
        Token::Indent => STok::Indent,
        Token::Dedent => STok::Dedent,
    }
}

impl View for Token {
    type V = STok;

    open spec fn view(&self) -> STok {
        tok_view(*self)
    }
}

/// A token with its span, as plain values.
pub open spec fn ts_view(t: TokenSpan) -> (STok, int, int) {
    (tok_view(t.0), t.1.start as int, t.1.end as int)
}

pub open spec fn ts_seq_view(s: Seq<TokenSpan>) -> Seq<(STok, int, int)> {
    s.map_values(|t: TokenSpan| ts_view(t))
}

// ---------------------------------------------------------------------------
// Scanning one raw token.
// ---------------------------------------------------------------------------

/// What the scanner finds at a position once spaces, tabs and comments are skipped.
pub enum Raw {
    /// A token ending at the given offset.
    Tok(STok, int),
    /// A line break and the indentation of the next line (a space counts 1,
    /// a tab 4), ending at the given offset.
    Newline(int, int),
    /// Text that no token matches, ending at the given offset.
    Bad(int),
    Eof,
}

/// The end of the comment whose text starts at `p`: the next line break or the end.
pub open spec fn comment_end(s: Seq<char>, p: int) -> int
    decreases s.len() - p,
{
    if p >= s.len() || p < 0 {
        p
    } else if s[p] == '\n' {
        p
    } else {
        comment_end(s, p + 1)
    }
}

/// The first position at or after `p` that is not a space, tab or comment.
pub open spec fn skip_trivia(s: Seq<char>, p: int) -> int
    decreases s.len() - p,
{
    if p >= s.len() || p < 0 {
        p
    } else if s[p] == ' ' || s[p] == '\t' {
        skip_trivia(s, p + 1)
    } else if s[p] == '#' {
        comment_end(s, p + 1)
    } else {
        p
    }
}

/// The end of the run of identifier characters starting at `p`.
pub open spec fn ident_end(s: Seq<char>, p: int) -> int
    decreases s.len() - p,
{
    if p >= s.len() || p < 0 {
        p
    } else if is_ident_char(s[p]) {
        ident_end(s, p + 1)
    } else {
        p
    }
}

/// The end of the run of digits starting at `p`.
pub open spec fn digits_end(s: Seq<char>, p: int) -> int
    decreases s.len() - p,
{
    if p >= s.len() || p < 0 {
        p
    } else if is_digit(s[p]) {
        digits_end(s, p + 1)
    } else {
        p
    }
}

/// The end of the run of spaces and tabs starting at `p`, and the width of the
/// run (a space counts 1, a tab 4) added to `w`.
pub open spec fn indent_end(s: Seq<char>, p: int, w: int) -> (int, int)
    decreases s.len() - p,
{
    if p >= s.len() || p < 0 {
        (p, w)
    } else if s[p] == ' ' {
        indent_end(s, p + 1, w + 1)
    } else if s[p] == '\t' {
        indent_end(s, p + 1, w + 4)
    } else {
        (p, w)
    }
}

/// Scans the body of a string literal from `p`: `Some(end)` just after the
/// closing quote, or `None` where no closing quote can be reached (end of
/// input, or a backslash before a line break or the end).
pub open spec fn string_end(s: Seq<char>, p: int) -> Option<int>
    decreases s.len() - p,
{
    if p >= s.len() || p < 0 {
        None
    } else if s[p] == '"' {
        Some(p + 1)
    } else if s[p] == '\\' {
        if p + 1 < s.len() && s[p + 1] != '\n' {
            string_end(s, p + 2)
        } else {
            None
        }
    } else {
        string_end(s, p + 1)
    }
}

/// The value of a run of decimal digits.
pub open spec fn dec_value(d: Seq<char>) -> nat
    decreases d.len(),
{
    if d.len() == 0 {
        0
    } else {
        dec_value(d.drop_last()) * 10 + ((d.last() as int - '0' as int) as nat)
    }
}

/// `d` without its leading zeros (empty when all are zeros).
pub open spec fn strip_leading_zeros(d: Seq<char>) -> Seq<char>
    decreases d.len(),
{
    if d.len() > 0 && d[0] == '0' {
        strip_leading_zeros(d.drop_first())
    } else {
        d
    }
}

/// `d` without its trailing zeros (empty when all are zeros).
pub open spec fn strip_trailing_zeros(d: Seq<char>) -> Seq<char>
    decreases d.len(),
{
    if d.len() > 0 && d.last() == '0' {
        strip_trailing_zeros(d.drop_last())
    } else {
        d
    }
}

/// The text of the float literal `int_part.frac_part`: its digits as
/// written, with no leading zeros before the point (but at least `0`), no
/// trailing zeros after it, and no point when the fraction is zero. For
/// literals of up to 15 significant digits this is what `f64`'s `Display`
/// writes; longer literals keep all their significant digits.
pub open spec fn float_text(int_part: Seq<char>, frac_part: Seq<char>) -> Seq<char> {
    let i = strip_leading_zeros(int_part);
    let f = strip_trailing_zeros(frac_part);
    let whole = if i.len() == 0 { seq!['0'] } else { i };
    if f.len() == 0 { whole } else { whole + seq!['.'] + f }
}

/// The keyword a word spells, if any.
pub open spec fn keyword(w: Seq<char>) -> Option<STok> {
    if w == "let"@ { Some(STok::Let) }
    else if w == "mut"@ { Some(STok::Mut) }
    else if w == "move"@ { Some(STok::Move) }
    else if w == "def"@ { Some(STok::Def) }
    else if w == "protocol"@ { Some(STok::Protocol) }
    else if w == "struct"@ { Some(STok::Struct) }
    else if w == "impl"@ { Some(STok::Impl) }
    else if w == "for"@ { Some(STok::For) }
    else if w == "while"@ { Some(STok::While) }
    else if w == "in"@ { Some(STok::In) }
    else if w == "if"@ { Some(STok::If) }
    else if w == "else"@ { Some(STok::Else) }
    else if w == "return"@ { Some(STok::Return) }
    else if w == "break"@ { Some(STok::Break) }
    else if w == "continue"@ { Some(STok::Continue) }
    else if w == "elif"@ { Some(STok::Elif) }
    else if w == "and"@ { Some(STok::And) }
    else if w == "or"@ { Some(STok::Or) }
    else if w == "not"@ { Some(STok::Not) }
    else if w == "import"@ { Some(STok::Import) }
    else if w == "pyimport"@ { Some(STok::PyImport) }
    else if w == "match"@ { Some(STok::Match) }
    else if w == "as"@ { Some(STok::As) }
    else if w == "from"@ { Some(STok::From) }
    else if w == "enum"@ { Some(STok::Enum) }
    else { None }
}

/// The longest token starting at `q` (which is not a space, tab or comment).
pub open spec fn scan(s: Seq<char>, q: int) -> Raw {
    if q < 0 || q >= s.len() {
        Raw::Eof
    } else {
        let c = s[q];
        let next = if q + 1 < s.len() { Some(s[q + 1]) } else { None };
        if c == '\n' {
            let (e, w) = indent_end(s, q + 1, 0);
            Raw::Newline(w, e)
        } else if is_ident_start(c) {
            let e = ident_end(s, q + 1);
            let w = s.subrange(q, e);
            match keyword(w) {
                Some(k) => Raw::Tok(k, e),
                None => Raw::Tok(STok::Ident(w), e),
            }
        } else if is_digit(c) {
            let e1 = digits_end(s, q + 1);
            if e1 + 1 < s.len() && s[e1] == '.' && is_digit(s[e1 + 1]) {
                let e2 = digits_end(s, e1 + 2);
                Raw::Tok(STok::Float(float_text(s.subrange(q, e1), s.subrange(e1 + 1, e2))), e2)
            } else {
                let v = dec_value(s.subrange(q, e1));
                if v <= i64::MAX { Raw::Tok(STok::Int(v as int), e1) } else { Raw::Bad(e1) }
            }
        } else if c == '"' {
            match string_end(s, q + 1) {
                Some(e) => Raw::Tok(STok::Str(s.subrange(q + 1, e - 1)), e),
                None => Raw::Bad(q + 1),
            }
        } else if c == ':' { Raw::Tok(STok::Colon, q + 1) }
        else if c == '-' {
            if next == Some('>') { Raw::Tok(STok::Arrow, q + 2) } else { Raw::Tok(STok::Minus, q + 1) }
        } else if c == '?' { Raw::Tok(STok::Question, q + 1) }
        else if c == '!' {
            if next == Some('!') { Raw::Tok(STok::BangBang, q + 2) }
            else if next == Some('=') { Raw::Tok(STok::Ne, q + 2) }
            else { Raw::Bad(q + 1) }
        } else if c == '.' {
            if next == Some('.') {
                if q + 2 < s.len() && s[q + 2] == '=' { Raw::Tok(STok::DotDotEq, q + 3) }
                else { Raw::Tok(STok::DotDot, q + 2) }
            } else { Raw::Tok(STok::Dot, q + 1) }
        } else if c == '|' { Raw::Tok(STok::Pipe, q + 1) }
        else if c == '[' { Raw::Tok(STok::LBracket, q + 1) }
        else if c == ']' { Raw::Tok(STok::RBracket, q + 1) }
        else if c == '(' { Raw::Tok(STok::LParen, q + 1) }
        else if c == ')' { Raw::Tok(STok::RParen, q + 1) }
        else if c == '{' { Raw::Tok(STok::LBrace, q + 1) }
        else if c == '}' { Raw::Tok(STok::RBrace, q + 1) }
        else if c == ',' { Raw::Tok(STok::Comma, q + 1) }
        else if c == '=' {
            if next == Some('=') { Raw::Tok(STok::Eq, q + 2) } else { Raw::Tok(STok::Assign, q + 1) }
        } else if c == '>' {
            if next == Some('=') { Raw::Tok(STok::Ge, q + 2) } else { Raw::Tok(STok::Gt, q + 1) }
        } else if c == '<' {
            if next == Some('=') { Raw::Tok(STok::Le, q + 2) } else { Raw::Tok(STok::Lt, q + 1) }
        } else if c == '@' { Raw::Tok(STok::At, q + 1) }
        else if c == '$' { Raw::Tok(STok::Dollar, q + 1) }
        else if c == '&' { Raw::Tok(STok::Ampersand, q + 1) }
        else if c == '~' { Raw::Tok(STok::Tilde, q + 1) }
        else if c == '+' { Raw::Tok(STok::Plus, q + 1) }
        else if c == '*' { Raw::Tok(STok::Star, q + 1) }
        else if c == '%' { Raw::Tok(STok::Percent, q + 1) }
        else if c == '/' { Raw::Tok(STok::Slash, q + 1) }
        else { Raw::Bad(q + 1) }
    }
}

// ---------------------------------------------------------------------------
// The indentation-aware token stream, as a state machine.
// ---------------------------------------------------------------------------

/// The model of the lexer's state.
pub struct LexState {
    pub src: Seq<char>,
    /// Where raw scanning resumes.
    pub pos: int,
    /// Indentation widths of the open blocks, innermost last.
    pub stack: Seq<usize>,
    /// Synthetic tokens waiting to be handed out, first one next.
    pub pending: Seq<(STok, int, int)>,
    /// Whether the end of input has been seen.
    pub eof: bool,
    /// The span of the last raw token read.
    pub last: (int, int),
}

/// The indentation stack with every width above `w` popped, and how many were popped.
pub open spec fn pop_wider(stack: Seq<usize>, w: int) -> (Seq<usize>, nat)
    decreases stack.len(),
{
    if stack.len() > 0 && w < stack.last() {
        let (rest, n) = pop_wider(stack.drop_last(), w);
        (rest, n + 1)
    } else {
        (stack, 0)
    }
}

/// `n` copies of a token with the given span.
pub open spec fn repeat_tok(t: STok, start: int, end: int, n: nat) -> Seq<(STok, int, int)> {
    Seq::new(n, |i: int| (t, start, end))
}

/// What a blank line looks like to the lexer: the next raw token after a line
/// break is another line break or the end of input.
pub open spec fn is_blank_follow(s: Seq<char>, e: int) -> bool {
    match scan(s, skip_trivia(s, e)) {
        Raw::Newline(_, _) => true,
        Raw::Eof => true,
        _ => false,
    }
}

/// One step of the token stream: the next state and what `next` returns
/// (`None` at the end, `Some(Err(()))` for text no token matches or an
/// indentation that matches no open block).
pub open spec fn step(st: LexState) -> (LexState, Option<Result<(STok, int, int), ()>>)
    decreases st.src.len() - st.pos,
{
    if st.pending.len() > 0 {
        (LexState { pending: st.pending.drop_first(), ..st }, Some(Ok(st.pending[0])))
    } else if st.pos < 0 || st.stack.len() == 0 {
        (st, None)
    } else {
        let q = skip_trivia(st.src, st.pos);
        match scan(st.src, q) {
            Raw::Newline(w, e) => {
                let st1 = LexState { pos: e, last: (q, e), ..st };
                if e <= st.pos || e > st.src.len() {
                    (st1, None)
                } else if is_blank_follow(st.src, e) {
                    step(st1)
                } else {
                    let top = st.stack.last() as int;
                    if w > top {
                        (LexState { stack: st.stack.push(w as usize), ..st1 }, Some(Ok((STok::Indent, q, e))))
                    } else if w < top {
                        let (rest, n) = pop_wider(st.stack, w);
                        let dedents = repeat_tok(STok::Dedent, q, e, n);
                        if rest.len() == 0 || rest.last() as int != w {
                            (LexState { stack: rest, pending: dedents, ..st1 }, Some(Err(())))
                        } else {
                            (LexState { stack: rest, pending: dedents.drop_first(), ..st1 }, Some(Ok(dedents[0])))
                        }
                    } else {
                        step(st1)
                    }
                }
            },
            Raw::Tok(t, e) => (LexState { pos: e, last: (q, e), ..st }, Some(Ok((t, q, e)))),
            Raw::Bad(e) => (LexState { pos: e, last: (q, e), ..st }, Some(Err(()))),
            Raw::Eof => {
                if st.eof {
                    (st, None)
                } else {
                    let len = st.src.len() as int;
                    let n = (st.stack.len() - 1) as nat;
                    let dedents = repeat_tok(STok::Dedent, len, len, n);
                    let st1 = LexState {
                        pos: len,
                        stack: st.stack.subrange(0, 1),
                        eof: true,
                        last: (len, len),
                        ..st
                    };
                    if n > 0 {
                        (LexState { pending: dedents.drop_first(), ..st1 }, Some(Ok(dedents[0])))
                    } else {
                        (st1, None)
                    }
                }
            },
        }
    }
}

/// The state of a lexer that has read nothing of `src`.
pub open spec fn initial(src: Seq<char>) -> LexState {
    LexState { src, pos: 0, stack: seq![0usize], pending: seq![], eof: false, last: (0, 0) }
}

/// How far a state is from the end: raw position first, then whether the end
/// has been handled, then the synthetic tokens still pending.
pub open spec fn progressed(a: LexState, b: LexState) -> bool {
    a.src == b.src && (
        b.pos > a.pos
        || (b.pos == a.pos && a.eof == b.eof && b.pending.len() < a.pending.len())
        || (b.pos == a.pos && !a.eof && b.eof)
    )
}

/// The whole token stream from a state: every token up to the end, or the span
/// of the first error.
pub open spec fn run(st: LexState) -> Result<Seq<(STok, int, int)>, (int, int)>
    decreases st.src.len() - st.pos, if st.eof { 0int } else { 1int }, st.pending.len(),
{
    let (st2, out) = step(st);
    match out {
        None => Ok(seq![]),
        Some(Err(())) => Err(st2.last),
        Some(Ok(t)) => {
            if progressed(st, st2) && st2.pos <= st.src.len() {
                match run(st2) {
                    Ok(rest) => Ok(seq![t] + rest),
                    Err(e) => Err(e),
                }
            } else {
                Ok(seq![t])
            }
        },
    }
}

/// The tokens of a whole source text, or the span of the first lexing error.
pub open spec fn spec_tokenize(src: Seq<char>) -> Result<Seq<(STok, int, int)>, (int, int)> {
    run(initial(src))
}

/// Well-formed lexer states: positions in range and the outermost width 0 always open.
pub open spec fn wf_state(st: LexState) -> bool {
    &&& 0 <= st.pos <= st.src.len()
    &&& st.stack.len() > 0
    &&& st.stack[0] == 0
}

// ---------------------------------------------------------------------------
// Facts about scanning.
// ---------------------------------------------------------------------------

pub proof fn lemma_comment_end(s: Seq<char>, p: int)
    requires
        0 <= p <= s.len(),
    ensures
        p <= comment_end(s, p) <= s.len(),
    decreases s.len() - p,
{
    if p < s.len() && s[p] != '\n' {
        lemma_comment_end(s, p + 1);
    }
}

pub proof fn lemma_skip_trivia(s: Seq<char>, p: int)
    requires
        0 <= p <= s.len(),
    ensures
        p <= skip_trivia(s, p) <= s.len(),
    decreases s.len() - p,
{
    if p < s.len() {
        if s[p] == ' ' || s[p] == '\t' {
            lemma_skip_trivia(s, p + 1);
        } else if s[p] == '#' {
            lemma_comment_end(s, p + 1);
        }
    }
}

pub proof fn lemma_ident_end(s: Seq<char>, p: int)
    requires
        0 <= p <= s.len(),
    ensures
        p <= ident_end(s, p) <= s.len(),
    decreases s.len() - p,
{
    if p < s.len() && is_ident_char(s[p]) {
        lemma_ident_end(s, p + 1);
    }
}

pub proof fn lemma_digits_end(s: Seq<char>, p: int)
    requires
        0 <= p <= s.len(),
    ensures
        p <= digits_end(s, p) <= s.len(),
        forall|i: int| p <= i < digits_end(s, p) ==> is_digit(#[trigger] s[i]),
    decreases s.len() - p,
{
    if p < s.len() && is_digit(s[p]) {
        lemma_digits_end(s, p + 1);
    }
}

pub proof fn lemma_indent_end(s: Seq<char>, p: int, w: int)
    requires
        0 <= p <= s.len(),
        0 <= w,
    ensures
        p <= indent_end(s, p, w).0 <= s.len(),
        w <= indent_end(s, p, w).1 <= w + 4 * (s.len() - p),
    decreases s.len() - p,
{
    if p < s.len() {
        if s[p] == ' ' {
            lemma_indent_end(s, p + 1, w + 1);
        } else if s[p] == '\t' {
            lemma_indent_end(s, p + 1, w + 4);
        }
    }
}

pub proof fn lemma_string_end(s: Seq<char>, p: int)
    requires
        0 <= p <= s.len(),
    ensures
        string_end(s, p) matches Some(e) ==> p < e <= s.len() && s[e - 1] == '"',
    decreases s.len() - p,
{
    if p < s.len() {
        if s[p] == '"' {
        } else if s[p] == '\\' {
            if p + 1 < s.len() && s[p + 1] != '\n' {
                lemma_string_end(s, p + 2);
            }
        } else {
            lemma_string_end(s, p + 1);
        }
    }
}

/// Every raw token ends after it starts and within the text.
pub proof fn lemma_scan_bounds(s: Seq<char>, q: int)
    requires
        0 <= q <= s.len(),
    ensures
        match scan(s, q) {
            Raw::Tok(_, e) => q < e <= s.len(),
            Raw::Newline(w, e) => q < e <= s.len() && 0 <= w,
            Raw::Bad(e) => q < e <= s.len(),
            Raw::Eof => q == s.len(),
        },
{
    if q < s.len() {
        let c = s[q];
        if c == '\n' {
            lemma_indent_end(s, q + 1, 0);
        } else if is_ident_start(c) {
            lemma_ident_end(s, q + 1);
        } else if is_digit(c) {
            lemma_digits_end(s, q + 1);
            let e1 = digits_end(s, q + 1);
            if e1 + 1 < s.len() && s[e1] == '.' && is_digit(s[e1 + 1]) {
                lemma_digits_end(s, e1 + 2);
            }
        } else if c == '"' {
            lemma_string_end(s, q + 1);
        }
    }
}

pub proof fn lemma_pop_wider(stack: Seq<usize>, w: int)
    ensures
        pop_wider(stack, w).0.len() + pop_wider(stack, w).1 == stack.len(),
        pop_wider(stack, w).0 == stack.subrange(0, pop_wider(stack, w).0.len() as int),
        stack.len() > 0 && stack[0] as int <= w ==> pop_wider(stack, w).0.len() > 0,
    decreases stack.len(),
{
    if stack.len() > 0 && w < stack.last() {
        lemma_pop_wider(stack.drop_last(), w);
        let (rest, n) = pop_wider(stack.drop_last(), w);
        assert(stack.drop_last().subrange(0, rest.len() as int) =~= stack.subrange(0, rest.len() as int));
    } else {
        assert(stack.subrange(0, stack.len() as int) =~= stack);
    }
}

/// Each step keeps the state well formed and does not move the position back,
/// and a step that hands out a token always makes progress.
pub proof fn lemma_step(st: LexState)
    requires
        wf_state(st),
    ensures
        wf_state(step(st).0),
        step(st).0.src == st.src,
        step(st).0.pos >= st.pos,
        step(st).1 matches Some(Ok(_)) ==> progressed(st, step(st).0),
    decreases st.src.len() - st.pos,
{
    if st.pending.len() > 0 {
    } else {
        let q = skip_trivia(st.src, st.pos);
        lemma_skip_trivia(st.src, st.pos);
        lemma_scan_bounds(st.src, q);
        match scan(st.src, q) {
            Raw::Newline(w, e) => {
                let st1 = LexState { pos: e, last: (q, e), ..st };
                if e <= st.pos || e > st.src.len() {
                } else if is_blank_follow(st.src, e) {
                    lemma_step(st1);
                } else {
                    let top = st.stack.last() as int;
                    if w > top {
                    } else if w < top {
                        lemma_pop_wider(st.stack, w);
                        let (rest, n) = pop_wider(st.stack, w);
                        if rest.len() == 0 {
                        } else {
                            assert(rest[0] == st.stack[0]);
                        }
                    } else {
                        lemma_step(st1);
                    }
                }
            },
            _ => {},
        }
    }
}

/// How a token changes the number of open blocks.
pub open spec fn tok_depth(t: STok) -> int {
    match t {
        STok::Indent => 1,
        STok::Dedent => -1,
        _ => 0,
    }
}

/// Indents minus dedents in a token stream.
pub open spec fn open_blocks(toks: Seq<(STok, int, int)>) -> int
    decreases toks.len(),
{
    if toks.len() == 0 { 0 } else { tok_depth(toks[0].0) + open_blocks(toks.drop_first()) }
}

/// The blocks a state still has to close: those open beyond the outermost,
/// plus the dedents waiting to be handed out.
pub open spec fn unclosed(st: LexState) -> int {
    st.stack.len() - 1 + st.pending.len()
}

/// What the lexer keeps between steps: a well-formed state whose waiting
/// tokens are dedents and which, once at the end, has only the outermost
/// block open.
pub open spec fn balance_inv(st: LexState) -> bool {
    &&& wf_state(st)
    &&& forall|i: int| 0 <= i < st.pending.len() ==> #[trigger] st.pending[i].0 == STok::Dedent
    &&& st.eof ==> st.pos == st.src.len() && st.stack.len() == 1
}

proof fn lemma_scan_no_layout(s: Seq<char>, q: int)
    ensures
        scan(s, q) matches Raw::Tok(t, _) ==> tok_depth(t) == 0,
{
    reveal_with_fuel(scan, 1);
}

/// A step that hands out a token changes the unclosed blocks by that
/// token's depth; a stream ends only when none is left unclosed.
proof fn lemma_step_balance(st: LexState)
    requires
        balance_inv(st),
    ensures
        step(st).1 matches Some(Ok(t)) ==> balance_inv(step(st).0) && unclosed(step(st).0) == unclosed(st) + tok_depth(t.0),
        step(st).1 is None ==> unclosed(st) == 0,
    decreases st.src.len() - st.pos,
{
    if st.pending.len() > 0 {
        let st2 = step(st).0;
        assert(st2.pending =~= st.pending.drop_first());
        assert(st.pending[0].0 == STok::Dedent);
        assert forall|i: int| 0 <= i < st2.pending.len() implies #[trigger] st2.pending[i].0 == STok::Dedent by {
            assert(st2.pending[i] == st.pending[i + 1]);
        }
    } else {
        let q = skip_trivia(st.src, st.pos);
        lemma_skip_trivia(st.src, st.pos);
        lemma_scan_bounds(st.src, q);
        lemma_scan_no_layout(st.src, q);
        match scan(st.src, q) {
            Raw::Newline(w, e) => {
                let st1 = LexState { pos: e, last: (q, e), ..st };
                assert(!st.eof);
                if is_blank_follow(st.src, e) {
                    lemma_step_balance(st1);
                } else {
                    let top = st.stack.last() as int;
                    if w > top {
                    } else if w < top {
                        lemma_pop_wider(st.stack, w);
                        let (rest, n) = pop_wider(st.stack, w);
                        if rest.len() > 0 && rest.last() as int == w {
                            assert(rest[0] == st.stack[0]);
                            assert(n >= 1);
                            let dedents = repeat_tok(STok::Dedent, q, e, n);
                            let st2 = step(st).0;
                            assert(st2.pending == dedents.drop_first());
                            assert forall|i: int| 0 <= i < st2.pending.len() implies #[trigger] st2.pending[i].0 == STok::Dedent by {
                                assert(st2.pending[i] == dedents[i + 1]);
                            }
                        }
                    } else {
                        lemma_step_balance(st1);
                    }
                }
            },
            Raw::Eof => {
                if !st.eof {
                    let len = st.src.len() as int;
                    let n = (st.stack.len() - 1) as nat;
                    let dedents = repeat_tok(STok::Dedent, len, len, n);
                    if n > 0 {
                        let st2 = step(st).0;
                        assert(st2.pending == dedents.drop_first());
                        assert(st2.stack.len() == 1);
                        assert forall|i: int| 0 <= i < st2.pending.len() implies #[trigger] st2.pending[i].0 == STok::Dedent by {
                            assert(st2.pending[i] == dedents[i + 1]);
                        }
                    }
                }
            },
            _ => {},
        }
    }
}

proof fn lemma_run_balance(st: LexState)
    requires
        balance_inv(st),
    ensures
        run(st) matches Ok(toks) ==> open_blocks(toks) == -unclosed(st),
    decreases st.src.len() - st.pos, if st.eof { 0int } else { 1int }, st.pending.len(),
{
    let (st2, out) = step(st);
    lemma_step_balance(st);
    lemma_step(st);
    match out {
        Some(Ok(t)) => {
            if progressed(st, st2) && st2.pos <= st.src.len() {
                lemma_run_balance(st2);
                match run(st2) {
                    Ok(rest) => {
                        assert((seq![t] + rest).drop_first() =~= rest);
                        assert((seq![t] + rest)[0] == t);
                    },
                    Err(_) => {},
                }
            }
        },
        _ => {},
    }
}

/// Indentation balances: every token stream the lexer produces has as
/// many `Dedent` tokens as `Indent` tokens, the blocks still open at the
/// end of the text being closed there.
pub proof fn law_indents_balance(src: Seq<char>)
    ensures
        spec_tokenize(src) matches Ok(toks) ==> open_blocks(toks) == 0,
{
    lemma_run_balance(initial(src));
}

/// Whether every token's span lies within a text of length `len`, its
/// start no later than its end.
pub open spec fn spans_within(toks: Seq<(STok, int, int)>, len: int) -> bool {
    forall|i: int| 0 <= i < toks.len() ==> 0 <= #[trigger] toks[i].1 <= toks[i].2 <= len
}

spec fn span_inv(st: LexState) -> bool {
    &&& wf_state(st)
    &&& spans_within(st.pending, st.src.len() as int)
}

proof fn lemma_step_spans(st: LexState)
    requires
        span_inv(st),
    ensures
        step(st).1 matches Some(Ok(t)) ==> span_inv(step(st).0) && 0 <= t.1 <= t.2 <= st.src.len(),
    decreases st.src.len() - st.pos,
{
    if st.pending.len() > 0 {
        let st2 = step(st).0;
        assert(st2.pending =~= st.pending.drop_first());
        assert(0 <= st.pending[0].1);
        assert forall|i: int| 0 <= i < st2.pending.len() implies 0 <= #[trigger] st2.pending[i].1 <= st2.pending[i].2 <= st.src.len() by {
            assert(st2.pending[i] == st.pending[i + 1]);
            assert(0 <= st.pending[i + 1].1);
        }
    } else {
        let q = skip_trivia(st.src, st.pos);
        lemma_skip_trivia(st.src, st.pos);
        lemma_scan_bounds(st.src, q);
        match scan(st.src, q) {
            Raw::Newline(w, e) => {
                let st1 = LexState { pos: e, last: (q, e), ..st };
                if e <= st.pos || e > st.src.len() {
                } else if is_blank_follow(st.src, e) {
                    lemma_step_spans(st1);
                } else {
                    let top = st.stack.last() as int;
                    if w > top {
                    } else if w < top {
                        lemma_pop_wider(st.stack, w);
                        let (rest, n) = pop_wider(st.stack, w);
                        if rest.len() > 0 && rest.last() as int == w {
                            assert(rest[0] == st.stack[0]);
                            let dedents = repeat_tok(STok::Dedent, q, e, n);
                            let st2 = step(st).0;
                            assert(st2.pending == dedents.drop_first());
                            assert forall|i: int| 0 <= i < st2.pending.len() implies 0 <= #[trigger] st2.pending[i].1 <= st2.pending[i].2 <= st.src.len() by {
                                assert(st2.pending[i] == dedents[i + 1]);
                            }
                        }
                    } else {
                        lemma_step_spans(st1);
                    }
                }
            },
            Raw::Eof => {
                if !st.eof {
                    let len = st.src.len() as int;
                    let n = (st.stack.len() - 1) as nat;
                    let dedents = repeat_tok(STok::Dedent, len, len, n);
                    if n > 0 {
                        let st2 = step(st).0;
                        assert(st2.pending == dedents.drop_first());
                        assert forall|i: int| 0 <= i < st2.pending.len() implies 0 <= #[trigger] st2.pending[i].1 <= st2.pending[i].2 <= st.src.len() by {
                            assert(st2.pending[i] == dedents[i + 1]);
                        }
                    }
                }
            },
            _ => {},
        }
    }
}

proof fn lemma_run_spans(st: LexState)
    requires
        span_inv(st),
    ensures
        run(st) matches Ok(toks) ==> spans_within(toks, st.src.len() as int),
    decreases st.src.len() - st.pos, if st.eof { 0int } else { 1int }, st.pending.len(),
{
    let (st2, out) = step(st);
    lemma_step_spans(st);
    lemma_step(st);
    match out {
        Some(Ok(t)) => {
            if progressed(st, st2) && st2.pos <= st.src.len() {
                lemma_run_spans(st2);
                match run(st2) {
                    Ok(rest) => {
                        let all = seq![t] + rest;
                        assert forall|i: int| 0 <= i < all.len() implies 0 <= #[trigger] all[i].1 <= all[i].2 <= st.src.len() by {
                            if i > 0 {
                                assert(all[i] == rest[i - 1]);
                            }
                        }
                    },
                    Err(_) => {},
                }
            } else {
                assert(seq![t][0] == t);
            }
        },
        _ => {},
    }
}


proof fn lemma_run_prefixes(st: LexState)
    requires
        balance_inv(st),
    ensures
        run(st) matches Ok(toks) ==> forall|k: int| 0 <= k <= toks.len() ==> #[trigger] open_blocks(toks.take(k)) >= -unclosed(st),
    decreases st.src.len() - st.pos, if st.eof { 0int } else { 1int }, st.pending.len(),
{
    let (st2, out) = step(st);
    lemma_step_balance(st);
    lemma_step(st);
    match out {
        Some(Ok(t)) => {
            let one = seq![t];
            assert(one.take(0) =~= Seq::<(STok, int, int)>::empty());
            assert(one.take(1) =~= one);
            assert(one.drop_first() =~= Seq::<(STok, int, int)>::empty());
            if progressed(st, st2) && st2.pos <= st.src.len() {
                lemma_run_prefixes(st2);
                match run(st2) {
                    Ok(rest) => {
                        let all = seq![t] + rest;
                        assert forall|k: int| 0 <= k <= all.len() implies #[trigger] open_blocks(all.take(k)) >= -unclosed(st) by {
                            if k == 0 {
                                assert(all.take(0) =~= Seq::<(STok, int, int)>::empty());
                            } else {
                                assert(all.take(k).drop_first() =~= rest.take(k - 1));
                                assert(all.take(k)[0] == t);
                                assert(open_blocks(rest.take(k - 1)) >= -unclosed(st2));
                            }
                        }
                    },
                    Err(_) => {},
                }
            }
        },
        _ => {},
    }
}

/// Blocks close only after they open: in every prefix of a token stream
/// there are at least as many `Indent` tokens as `Dedent` tokens.
pub proof fn law_dedents_follow_indents(src: Seq<char>, k: int)
    requires
        spec_tokenize(src) is Ok,
        0 <= k <= spec_tokenize(src)->Ok_0.len(),
    ensures
        open_blocks(spec_tokenize(src)->Ok_0.take(k)) >= 0,
{
    lemma_run_prefixes(initial(src));
}

/// A line break that keeps the indentation of the open block hands out no
/// token: lexing goes on from the next line as if the break were not there.
pub proof fn law_same_indent_no_token(st: LexState)
    requires
        wf_state(st),
        st.pending.len() == 0,
        scan(st.src, skip_trivia(st.src, st.pos)) matches Raw::Newline(w, e) && w == st.stack.last() as int,
    ensures
        ({
            let q = skip_trivia(st.src, st.pos);
            let e = scan(st.src, q)->Newline_1;
            step(st) == step(LexState { pos: e, last: (q, e), ..st })
        }),
{
    let q = skip_trivia(st.src, st.pos);
    lemma_skip_trivia(st.src, st.pos);
    lemma_scan_bounds(st.src, q);
}


/// What bounds the tokens still to come from a state: three per
/// character left, one per block still open at the end (twice before
/// the end is reached), and the waiting tokens.
pub open spec fn token_budget(st: LexState) -> int {
    3 * (st.src.len() - st.pos) + 2 * (st.stack.len() - 1) - (if st.eof { st.stack.len() - 1 } else { 0int })
        + st.pending.len()
}

proof fn lemma_step_budget(st: LexState)
    requires
        wf_state(st),
    ensures
        step(st).1 matches Some(Ok(_)) ==> token_budget(step(st).0) < token_budget(st) && token_budget(step(st).0) >= 0,
        token_budget(st) >= 0,
    decreases st.src.len() - st.pos,
{
    if st.pending.len() > 0 {
    } else {
        let q = skip_trivia(st.src, st.pos);
        lemma_skip_trivia(st.src, st.pos);
        lemma_scan_bounds(st.src, q);
        match scan(st.src, q) {
            Raw::Newline(w, e) => {
                let st1 = LexState { pos: e, last: (q, e), ..st };
                if e <= st.pos || e > st.src.len() {
                } else if is_blank_follow(st.src, e) {
                    lemma_step_budget(st1);
                } else {
                    let top = st.stack.last() as int;
                    if w > top {
                    } else if w < top {
                        lemma_pop_wider(st.stack, w);
                    } else {
                        lemma_step_budget(st1);
                    }
                }
            },
            _ => {},
        }
    }
}

proof fn lemma_run_budget(st: LexState)
    requires
        wf_state(st),
    ensures
        run(st) matches Ok(toks) ==> toks.len() <= token_budget(st),
    decreases st.src.len() - st.pos, if st.eof { 0int } else { 1int }, st.pending.len(),
{
    let (st2, out) = step(st);
    lemma_step_budget(st);
    lemma_step(st);
    match out {
        Some(Ok(t)) => {
            if progressed(st, st2) && st2.pos <= st.src.len() {
                lemma_run_budget(st2);
            }
        },
        _ => {},
    }
}

/// A text of `n` characters lexes to at most `3 * n` tokens.
pub proof fn lemma_token_count(src: Seq<char>)
    ensures
        spec_tokenize(src) matches Ok(toks) ==> toks.len() <= 3 * src.len(),
{
    lemma_run_budget(initial(src));
}

/// Every token the lexer produces has a span within the text, its start
/// no later than its end, so the offsets reported with any token locate
/// a place in the source.
pub proof fn law_spans_within_text(src: Seq<char>)
    ensures
        spec_tokenize(src) matches Ok(toks) ==> spans_within(toks, src.len() as int),
{
    lemma_run_spans(initial(src));
}

// ---------------------------------------------------------------------------
// Executable scanning.
// ---------------------------------------------------------------------------

/// What the executable scanner finds; the model of each is a `Raw`.
pub enum RawToken {
    Tok(Token, usize),
    Newline(usize, usize),
    Bad(usize),
    Eof,
}

pub open spec fn raw_view(r: RawToken) -> Raw {
    match r {
        RawToken::Tok(t, e) => Raw::Tok(tok_view(t), e as int),
        RawToken::Newline(w, e) => Raw::Newline(w as int, e as int),
        RawToken::Bad(e) => Raw::Bad(e as int),
        RawToken::Eof => Raw::Eof,
    }
}

fn skip_trivia_exec(s: &Vec<char>, p: usize) -> (r: usize)
    requires
        p <= s.len(),
    ensures
        r == skip_trivia(s@, p as int),
{
    let mut i = p;
    while i < s.len() && (s[i] == ' ' || s[i] == '\t')
        invariant
            p <= i <= s.len(),
            skip_trivia(s@, p as int) == skip_trivia(s@, i as int),
        decreases s.len() - i,
    {
        i = i + 1;
    }
    if i < s.len() && s[i] == '#' {
        let mut j = i + 1;
        while j < s.len() && s[j] != '\n'
            invariant
                i < j <= s.len(),
                comment_end(s@, (i + 1) as int) == comment_end(s@, j as int),
            decreases s.len() - j,
        {
            j = j + 1;
        }
        j
    } else {
        i
    }
}

fn ident_end_exec(s: &Vec<char>, p: usize) -> (r: usize)
    requires
        p <= s.len(),
    ensures
        r == ident_end(s@, p as int),
{
    let mut i = p;
    while i < s.len() && ident_char(s[i])
        invariant
            p <= i <= s.len(),
            ident_end(s@, p as int) == ident_end(s@, i as int),
        decreases s.len() - i,
    {
        i = i + 1;
    }
    i
}

fn digits_end_exec(s: &Vec<char>, p: usize) -> (r: usize)
    requires
        p <= s.len(),
    ensures
        r == digits_end(s@, p as int),
{
    let mut i = p;
    while i < s.len() && digit(s[i])
        invariant
            p <= i <= s.len(),
            digits_end(s@, p as int) == digits_end(s@, i as int),
        decreases s.len() - i,
    {
        i = i + 1;
    }
    i
}

fn indent_end_exec(s: &Vec<char>, p: usize) -> (r: (usize, usize))
    requires
        p <= s.len(),
        s.len() < usize::MAX / 8,
    ensures
        r.0 as int == indent_end(s@, p as int, 0).0,
        r.1 as int == indent_end(s@, p as int, 0).1,
{
    let mut i = p;
    let mut w: usize = 0;
    while i < s.len() && (s[i] == ' ' || s[i] == '\t')
        invariant
            p <= i <= s.len(),
            s.len() < usize::MAX / 8,
            w <= 4 * (i - p),
            indent_end(s@, p as int, 0) == indent_end(s@, i as int, w as int),
        decreases s.len() - i,
    {
        if s[i] == ' ' {
            w = w + 1;
        } else {
            w = w + 4;
        }
        i = i + 1;
    }
    (i, w)
}

fn string_end_exec(s: &Vec<char>, p: usize) -> (r: Option<usize>)
    requires
        p <= s.len(),
    ensures
        match r {
            Some(e) => string_end(s@, p as int) == Some(e as int),
            None => string_end(s@, p as int) is None,
        },
{
    let mut i = p;
    while i < s.len()
        invariant
            p <= i <= s.len(),
            string_end(s@, p as int) == string_end(s@, i as int),
        decreases s.len() - i,
    {
        if s[i] == '"' {
            return Some(i + 1);
        } else if s[i] == '\\' {
            if i + 1 < s.len() && s[i + 1] != '\n' {
                i = i + 2;
            } else {
                return None;
            }
        } else {
            i = i + 1;
        }
    }
    None
}

proof fn lemma_dec_value_step(d: Seq<char>, i: int)
    requires
        0 <= i < d.len(),
    ensures
        dec_value(d.take(i + 1)) == dec_value(d.take(i)) * 10 + ((d[i] as int - '0' as int) as nat),
{
    assert(d.take(i + 1).drop_last() =~= d.take(i));
}

proof fn lemma_dec_value_grows(d: Seq<char>, i: int, j: int)
    requires
        0 <= i <= j <= d.len(),
        forall|k: int| 0 <= k < d.len() ==> is_digit(#[trigger] d[k]),
    ensures
        dec_value(d.take(i)) <= dec_value(d.take(j)),
    decreases j - i,
{
    if i < j {
        lemma_dec_value_grows(d, i, j - 1);
        lemma_dec_value_step(d, j - 1);
    }
}

/// The value of the digits `s[start..end]`, or `None` when it exceeds `i64::MAX`.
fn int_value(s: &Vec<char>, start: usize, end: usize) -> (r: Option<i64>)
    requires
        start <= end <= s.len(),
        forall|k: int| start <= k < end ==> is_digit(#[trigger] s@[k]),
    ensures
        match r {
            Some(v) => v as int == dec_value(s@.subrange(start as int, end as int)),
            None => dec_value(s@.subrange(start as int, end as int)) > i64::MAX,
        },
{
    let ghost d = s@.subrange(start as int, end as int);
    let mut v: i64 = 0;
    let mut i = start;
    assert(d.take(0) =~= Seq::<char>::empty());
    while i < end
        invariant
            start <= i <= end <= s.len(),
            d == s@.subrange(start as int, end as int),
            forall|k: int| start <= k < end ==> is_digit(#[trigger] s@[k]),
            v as int == dec_value(d.take((i - start) as int)),
            0 <= v,
        decreases end - i,
    {
        let ghost k = (i - start) as int;
        proof {
            lemma_dec_value_step(d, k);
            assert(d[k] == s@[i as int]);
        }
        let dv = (s[i] as u32 - '0' as u32) as i64;
        assert(0 <= dv <= 9) by {
            assert(is_digit(s@[i as int]));
        }
        if v > (i64::MAX - dv) / 10 {
            proof {
                assert(v * 10 + dv > i64::MAX) by (nonlinear_arith)
                    requires v > (i64::MAX - dv) / 10, 0 <= dv <= 9;
                assert forall|m: int| 0 <= m < d.len() implies is_digit(#[trigger] d[m]) by {
                    assert(d[m] == s@[start + m]);
                }
                lemma_dec_value_grows(d, k + 1, d.len() as int);
                assert(d.take(d.len() as int) =~= d);
            }
            return None;
        }
        assert(v * 10 + dv <= i64::MAX) by (nonlinear_arith)
            requires v <= (i64::MAX - dv) / 10, 0 <= dv <= 9;
        v = v * 10 + dv;
        i = i + 1;
    }
    assert(d.take((end - start) as int) =~= d);
    Some(v)
}

/// `float_text` of the digit runs `s[a..b]` and `s[c..d]`.
fn float_text_exec(s: &Vec<char>, a: usize, b: usize, c: usize, d: usize) -> (r: String)
    requires
        a <= b <= s.len(),
        c <= d <= s.len(),
    ensures
        r@ == float_text(s@.subrange(a as int, b as int), s@.subrange(c as int, d as int)),
{
    let mut i = a;
    while i < b && s[i] == '0'
        invariant
            a <= i <= b <= s.len(),
            strip_leading_zeros(s@.subrange(a as int, b as int)) == strip_leading_zeros(s@.subrange(i as int, b as int)),
        decreases b - i,
    {
        assert(s@.subrange(i as int, b as int).drop_first() =~= s@.subrange(i + 1, b as int));
        i = i + 1;
    }
    proof {
        if i < b {
            assert(s@.subrange(i as int, b as int)[0] == s@[i as int]);
        }
    }
    let mut j = d;
    while j > c && s[j - 1] == '0'
        invariant
            c <= j <= d <= s.len(),
            strip_trailing_zeros(s@.subrange(c as int, d as int)) == strip_trailing_zeros(s@.subrange(c as int, j as int)),
        decreases j - c,
    {
        assert(s@.subrange(c as int, j as int).drop_last() =~= s@.subrange(c as int, j - 1));
        j = j - 1;
    }
    proof {
        if j > c {
            assert(s@.subrange(c as int, j as int).last() == s@[j - 1]);
        }
    }
    let mut out = if i == b {
        let mut z = String::new();
        push_char(&mut z, '0');
        z
    } else {
        string_of_range(s.as_slice(), i, b)
    };
    if j > c {
        push_char(&mut out, '.');
        let frac = string_of_range(s.as_slice(), c, j);
        out.append(frac.as_str());
    }
    proof {
        let ip = strip_leading_zeros(s@.subrange(a as int, b as int));
        let fp = strip_trailing_zeros(s@.subrange(c as int, d as int));
        assert(ip =~= s@.subrange(i as int, b as int));
        assert(fp =~= s@.subrange(c as int, j as int));
    }
    out
}

/// Whether `s[start..end]` spells the word `w`.
fn word_is(s: &Vec<char>, start: usize, end: usize, w: &str) -> (r: bool)
    requires
        start <= end <= s.len(),
    ensures
        r == (s@.subrange(start as int, end as int) == w@),
{
    let wc = chars_of(w);
    if end - start != wc.len() {
        return false;
    }
    let mut i: usize = 0;
    while i < wc.len()
        invariant
            0 <= i <= wc.len(),
            wc.len() == end - start,
            start <= end <= s.len(),
            wc@ == w@,
            forall|k: int| 0 <= k < i ==> s@[start + k] == wc@[k],
        decreases wc.len() - i,
    {
        if s[start + i] != wc[i] {
            assert(s@.subrange(start as int, end as int)[i as int] != w@[i as int]);
            return false;
        }
        i = i + 1;
    }
    assert(s@.subrange(start as int, end as int) =~= w@);
    true
}

fn keyword_exec(s: &Vec<char>, start: usize, end: usize) -> (r: Option<Token>)
    requires
        start <= end <= s.len(),
    ensures
        match r {
            Some(t) => keyword(s@.subrange(start as int, end as int)) == Some(tok_view(t)),
            None => keyword(s@.subrange(start as int, end as int)) is None,
        },
{
    if word_is(s, start, end, "let") { Some(Token::Let) }
    else if word_is(s, start, end, "mut") { Some(Token::Mut) }
    else if word_is(s, start, end, "move") { Some(Token::Move) }
    else if word_is(s, start, end, "def") { Some(Token::Def) }
    else if word_is(s, start, end, "protocol") { Some(Token::Protocol) }
    else if word_is(s, start, end, "struct") { Some(Token::Struct) }
    else if word_is(s, start, end, "impl") { Some(Token::Impl) }
    else if word_is(s, start, end, "for") { Some(Token::For) }
    else if word_is(s, start, end, "while") { Some(Token::While) }
    else if word_is(s, start, end, "in") { Some(Token::In) }
    else if word_is(s, start, end, "if") { Some(Token::If) }
    else if word_is(s, start, end, "else") { Some(Token::Else) }
    else if word_is(s, start, end, "return") { Some(Token::Return) }
    else if word_is(s, start, end, "break") { Some(Token::Break) }
    else if word_is(s, start, end, "continue") { Some(Token::Continue) }
    else if word_is(s, start, end, "elif") { Some(Token::Elif) }
    else if word_is(s, start, end, "and") { Some(Token::And) }
    else if word_is(s, start, end, "or") { Some(Token::Or) }
    else if word_is(s, start, end, "not") { Some(Token::Not) }
    else if word_is(s, start, end, "import") { Some(Token::Import) }
    else if word_is(s, start, end, "pyimport") { Some(Token::PyImport) }
    else if word_is(s, start, end, "match") { Some(Token::Match) }
    else if word_is(s, start, end, "as") { Some(Token::As) }
    else if word_is(s, start, end, "from") { Some(Token::From) }
    else if word_is(s, start, end, "enum") { Some(Token::Enum) }
    else { None }
}

fn scan_exec(s: &Vec<char>, q: usize) -> (r: RawToken)
    requires
        q <= s.len(),
        s.len() < usize::MAX / 8,
    ensures
        raw_view(r) == scan(s@, q as int),
{
    if q >= s.len() {
        return RawToken::Eof;
    }
    let c = s[q];
    let has_next = q + 1 < s.len();
    let nx = if has_next { s[q + 1] } else { ' ' };
    proof {
        lemma_scan_bounds(s@, q as int);
    }
    if c == '\n' {
        let (e, w) = indent_end_exec(s, q + 1);
        RawToken::Newline(w, e)
    } else if ident_start(c) {
        let e = ident_end_exec(s, q + 1);
        proof { lemma_ident_end(s@, (q + 1) as int); }
        match keyword_exec(s, q, e) {
            Some(k) => RawToken::Tok(k, e),
            None => RawToken::Tok(Token::Ident(string_of_range(s.as_slice(), q, e)), e),
        }
    } else if digit(c) {
        let e1 = digits_end_exec(s, q + 1);
        proof { lemma_digits_end(s@, (q + 1) as int); }
        if e1 + 1 < s.len() && s[e1] == '.' && digit(s[e1 + 1]) {
            let e2 = digits_end_exec(s, e1 + 2);
            proof { lemma_digits_end(s@, (e1 + 2) as int); }
            RawToken::Tok(Token::Float(float_text_exec(s, q, e1, e1 + 1, e2)), e2)
        } else {
            match int_value(s, q, e1) {
                Some(v) => RawToken::Tok(Token::Int(v), e1),
                None => RawToken::Bad(e1),
            }
        }
    } else if c == '"' {
        match string_end_exec(s, q + 1) {
            Some(e) => {
                proof { lemma_string_end(s@, (q + 1) as int); }
                RawToken::Tok(Token::String(string_of_range(s.as_slice(), q + 1, e - 1)), e)
            },
            None => RawToken::Bad(q + 1),
        }
    } else if c == ':' { RawToken::Tok(Token::Colon, q + 1) }
    else if c == '-' {
        if has_next && nx == '>' { RawToken::Tok(Token::Arrow, q + 2) } else { RawToken::Tok(Token::Minus, q + 1) }
    } else if c == '?' { RawToken::Tok(Token::Question, q + 1) }
    else if c == '!' {
        if has_next && nx == '!' { RawToken::Tok(Token::BangBang, q + 2) }
        else if has_next && nx == '=' { RawToken::Tok(Token::Ne, q + 2) }
        else { RawToken::Bad(q + 1) }
    } else if c == '.' {
        if has_next && nx == '.' {
            if q + 2 < s.len() && s[q + 2] == '=' { RawToken::Tok(Token::DotDotEq, q + 3) }
            else { RawToken::Tok(Token::DotDot, q + 2) }
        } else { RawToken::Tok(Token::Dot, q + 1) }
    } else if c == '|' { RawToken::Tok(Token::Pipe, q + 1) }
    else if c == '[' { RawToken::Tok(Token::LBracket, q + 1) }
    else if c == ']' { RawToken::Tok(Token::RBracket, q + 1) }
    else if c == '(' { RawToken::Tok(Token::LParen, q + 1) }
    else if c == ')' { RawToken::Tok(Token::RParen, q + 1) }
    else if c == '{' { RawToken::Tok(Token::LBrace, q + 1) }
    else if c == '}' { RawToken::Tok(Token::RBrace, q + 1) }
    else if c == ',' { RawToken::Tok(Token::Comma, q + 1) }
    else if c == '=' {
        if has_next && nx == '=' { RawToken::Tok(Token::Eq, q + 2) } else { RawToken::Tok(Token::Assign, q + 1) }
    } else if c == '>' {
        if has_next && nx == '=' { RawToken::Tok(Token::Ge, q + 2) } else { RawToken::Tok(Token::Gt, q + 1) }
    } else if c == '<' {
        if has_next && nx == '=' { RawToken::Tok(Token::Le, q + 2) } else { RawToken::Tok(Token::Lt, q + 1) }
    } else if c == '@' { RawToken::Tok(Token::At, q + 1) }
    else if c == '$' { RawToken::Tok(Token::Dollar, q + 1) }
    else if c == '&' { RawToken::Tok(Token::Ampersand, q + 1) }
    else if c == '~' { RawToken::Tok(Token::Tilde, q + 1) }
    else if c == '+' { RawToken::Tok(Token::Plus, q + 1) }
    else if c == '*' { RawToken::Tok(Token::Star, q + 1) }
    else if c == '%' { RawToken::Tok(Token::Percent, q + 1) }
    else if c == '/' { RawToken::Tok(Token::Slash, q + 1) }
    else { RawToken::Bad(q + 1) }
}

/// The indentation-aware lexer over one source text.
pub struct Lexer {
    chars: Vec<char>,
    pos: usize,
    indent_stack: Vec<usize>,
    pending: Vec<TokenSpan>,
    eof_handled: bool,
    last_span: Range<usize>,
    /// The byte offset where each character starts, and the text's byte
    /// length last.
    offsets: Vec<usize>,
}

/// The byte offset of character offset `p` of `src` (clamped to the text).
pub open spec fn byte_of(src: Seq<char>, p: int) -> int {
    utf8_size(src.take(if p < 0 { 0 } else if p > src.len() { src.len() as int } else { p }))
}

/// A token with its span turned from character offsets into byte offsets.
pub open spec fn byte_span(src: Seq<char>, t: (STok, int, int)) -> (STok, int, int) {
    (t.0, byte_of(src, t.1), byte_of(src, t.2))
}

pub open spec fn byte_spans(src: Seq<char>, ts: Seq<(STok, int, int)>) -> Seq<(STok, int, int)> {
    ts.map_values(|t: (STok, int, int)| byte_span(src, t))
}

/// What `Lexer::next` hands out for a step's result: spans in bytes.
pub open spec fn in_bytes(src: Seq<char>, o: Option<Result<(STok, int, int), ()>>) -> Option<Result<(STok, int, int), ()>> {
    match o {
        Some(Ok(t)) => Some(Ok(byte_span(src, t))),
        x => x,
    }
}

/// The model of what `Lexer::next` returns.
pub open spec fn next_view(r: Option<Result<TokenSpan, ()>>) -> Option<Result<(STok, int, int), ()>> {
    match r {
        None => None,
        Some(Err(())) => Some(Err(())),
        Some(Ok(t)) => Some(Ok(ts_view(t))),
    }
}

impl View for Lexer {
    type V = LexState;

    closed spec fn view(&self) -> LexState {
        LexState {
            src: self.chars@,
            pos: self.pos as int,
            stack: self.indent_stack@,
            pending: ts_seq_view(self.pending@),
            eof: self.eof_handled,
            last: (self.last_span.start as int, self.last_span.end as int),
        }
    }
}

impl Lexer {
    /// Well-formed lexers: a well-formed state over a text short enough that
    /// indentation widths fit in `usize`.
    pub closed spec fn wf(&self) -> bool {
        &&& wf_state(self@)
        &&& self.chars.len() < usize::MAX / 8
        &&& self.offsets@.len() == self.chars@.len() + 1
        &&& forall|i: int| 0 <= i <= self.chars@.len() ==> #[trigger] self.offsets@[i] == utf8_size(self.chars@.take(i))
    }

    /// A lexer at the start of `input`.
    pub fn new(input: &str) -> (r: Lexer)
        requires
            input@.len() < usize::MAX / 8,
        ensures
            r.wf(),
            r@ == initial(input@),
    {
        let chars = chars_of(input);
        let mut offsets: Vec<usize> = Vec::new();
        let mut acc: usize = 0;
        let mut i: usize = 0;
        assert(chars@.take(0) =~= Seq::<char>::empty());
        while i < chars.len()
            invariant
                0 <= i <= chars.len(),
                chars.len() < usize::MAX / 8,
                offsets@.len() == i,
                acc as int == utf8_size(chars@.take(i as int)),
                acc <= 4 * i,
                forall|j: int| 0 <= j < i ==> #[trigger] offsets@[j] == utf8_size(chars@.take(j)),
            decreases chars.len() - i,
        {
            offsets.push(acc);
            proof { lemma_utf8_size_push(chars@.take(i as int), chars@[i as int]); }
            assert(chars@.take(i + 1) =~= chars@.take(i as int).push(chars@[i as int]));
            acc = acc + utf8_width(chars[i]);
            i = i + 1;
        }
        offsets.push(acc);
        let mut stack: Vec<usize> = Vec::new();
        stack.push(0);
        let r = Lexer {
            chars,
            pos: 0,
            indent_stack: stack,
            pending: Vec::new(),
            eof_handled: false,
            last_span: 0..0,
            offsets,
        };
        assert(r@.stack =~= seq![0usize]);
        assert(r@.pending =~= Seq::<(STok, int, int)>::empty());
        r
    }

    /// The byte offset of character offset `p` (see `byte_of`).
    fn byte_at(&self, p: usize) -> (r: usize)
        requires
            self.wf(),
        ensures
            r as int == byte_of(self@.src, p as int),
    {
        let k = if p > self.chars.len() { self.chars.len() } else { p };
        self.offsets[k]
    }

    /// The byte span of the last raw token read (the offending text after an
    /// error).
    pub fn span(&self) -> (r: Range<usize>)
        requires
            self.wf(),
        ensures
            r.start as int == byte_of(self@.src, self@.last.0),
            r.end as int == byte_of(self@.src, self@.last.1),
    {
        self.byte_at(self.last_span.start)..self.byte_at(self.last_span.end)
    }

    /// The next token, its span in bytes: `None` at the end, `Some(Err(()))`
    /// for text that no token matches or a dedent to a width that no open
    /// block has.
    pub fn next(&mut self) -> (r: Option<Result<TokenSpan, ()>>)
        requires
            old(self).wf(),
        ensures
            final(self).wf(),
            final(self)@ == step(old(self)@).0,
            next_view(r) == in_bytes(old(self)@.src, step(old(self)@).1),
    {
        proof { lemma_step(old(self)@); }
        match self.next_char() {
            Some(Ok((t, sp))) => {
                let a = self.byte_at(sp.start);
                let b = self.byte_at(sp.end);
                Some(Ok((t, a..b)))
            },
            Some(Err(())) => Some(Err(())),
            None => None,
        }
    }

    /// The next token with its span in characters (see `step`).
    fn next_char(&mut self) -> (r: Option<Result<TokenSpan, ()>>)
        requires
            old(self).wf(),
        ensures
            final(self).wf(),
            (final(self)@, next_view(r)) == step(old(self)@),
    {
        if self.pending.len() > 0 {
            let t = self.pending.remove(0);
            proof {
                assert(ts_seq_view(self.pending@) =~= ts_seq_view(old(self).pending@).drop_first());
            }
            return Some(Ok(t));
        }
        assert(ts_seq_view(self.pending@) =~= Seq::<(STok, int, int)>::empty());
        loop
            invariant
                self.wf(),
                self.pending@.len() == 0,
                old(self).wf(),
                self.chars@ == old(self).chars@,
                self.offsets@ == old(self).offsets@,
                step(self@) == step(old(self)@),
            decreases self.chars.len() - self.pos,
        {
            let q = skip_trivia_exec(&self.chars, self.pos);
            proof {
                lemma_skip_trivia(self.chars@, self.pos as int);
                lemma_scan_bounds(self.chars@, q as int);
                if q < self.chars.len() {
                    lemma_indent_end(self.chars@, (q + 1) as int, 0);
                }
            }
            let raw = scan_exec(&self.chars, q);
            let ghost st0 = self@;
            match raw {
                RawToken::Newline(w, e) => {
                    self.pos = e;
                    self.last_span = q..e;
                    let q2 = skip_trivia_exec(&self.chars, e);
                    proof {
                        lemma_skip_trivia(self.chars@, e as int);
                    }
                    let peek = scan_exec(&self.chars, q2);
                    let blank = match peek {
                        RawToken::Newline(_, _) => true,
                        RawToken::Eof => true,
                        _ => false,
                    };
                    if blank {
                        assert(self@ == LexState { pos: e as int, last: (q as int, e as int), ..st0 });
                        continue;
                    }
                    let top = self.indent_stack[self.indent_stack.len() - 1];
                    if w > top {
                        self.indent_stack.push(w);
                        return Some(Ok((Token::Indent, q..e)));
                    } else if w < top {
                        let ghost before = self.indent_stack@;
                        proof {
                            lemma_pop_wider(before, w as int);
                        }
                        let mut n: usize = 0;
                        let ghost snap = self@;
                        while self.indent_stack.len() > 0 && w < self.indent_stack[self.indent_stack.len() - 1]
                            invariant
                                self@.src == snap.src,
                                self@.pos == snap.pos,
                                self@.pending == snap.pending,
                                self@.eof == snap.eof,
                                self@.last == snap.last,
                                self.chars.len() < usize::MAX / 8,
                                old(self).wf(),
                                self.chars@ == old(self).chars@,
                                self.offsets@ == old(self).offsets@,
                                pop_wider(before, w as int).0 == pop_wider(self.indent_stack@, w as int).0,
                                pop_wider(before, w as int).1 == pop_wider(self.indent_stack@, w as int).1 + n,
                                n <= before.len(),
                                before.len() <= usize::MAX,
                                self.indent_stack@.len() + n == before.len(),
                            decreases self.indent_stack.len(),
                        {
                            self.indent_stack.pop();
                            n = n + 1;
                        }
                        let ghost rest = self.indent_stack@;
                        assert(pop_wider(self.indent_stack@, w as int).1 == 0);
                        assert(pop_wider(self.indent_stack@, w as int).0 == self.indent_stack@);
                        let mut k: usize = 0;
                        assert(ts_seq_view(self.pending@) =~= repeat_tok(STok::Dedent, q as int, e as int, 0));
                        while k < n
                            invariant
                                0 <= k <= n,
                                ts_seq_view(self.pending@) =~= repeat_tok(STok::Dedent, q as int, e as int, k as nat),
                                self.indent_stack@ == rest,
                                self@.src == snap.src,
                                self@.pos == snap.pos,
                                self@.eof == snap.eof,
                                self@.last == snap.last,
                                self.chars.len() < usize::MAX / 8,
                                old(self).wf(),
                                self.chars@ == old(self).chars@,
                                self.offsets@ == old(self).offsets@,
                            decreases n - k,
                        {
                            let ghost pb = self.pending@;
                            self.pending.push((Token::Dedent, q..e));
                            k = k + 1;
                            assert(ts_seq_view(self.pending@) =~= ts_seq_view(pb).push((STok::Dedent, q as int, e as int)));
                            assert(ts_seq_view(self.pending@) =~= repeat_tok(STok::Dedent, q as int, e as int, k as nat));
                        }
                        proof {
                            lemma_pop_wider(before, w as int);
                        }
                        if self.indent_stack.len() == 0 || self.indent_stack[self.indent_stack.len() - 1] != w {
                            return Some(Err(()));
                        }
                        let t = self.pending.remove(0);
                        proof {
                            assert(ts_seq_view(self.pending@) =~= repeat_tok(STok::Dedent, q as int, e as int, n as nat).drop_first());
                        }
                        return Some(Ok(t));
                    } else {
                        assert(self@ == LexState { pos: e as int, last: (q as int, e as int), ..st0 });
                        continue;
                    }
                },
                RawToken::Tok(t, e) => {
                    self.pos = e;
                    self.last_span = q..e;
                    return Some(Ok((t, q..e)));
                },
                RawToken::Bad(e) => {
                    self.pos = e;
                    self.last_span = q..e;
                    return Some(Err(()));
                },
                RawToken::Eof => {
                    if self.eof_handled {
                        return None;
                    }
                    let len = self.chars.len();
                    self.eof_handled = true;
                    self.pos = len;
                    self.last_span = len..len;
                    let n = self.indent_stack.len() - 1;
                    let mut k: usize = 0;
                    assert(ts_seq_view(self.pending@) =~= repeat_tok(STok::Dedent, len as int, len as int, 0));
                    let ghost snap = self@;
                    while k < n
                        invariant
                            0 <= k <= n,
                            self@.src == snap.src,
                            self@.pos == snap.pos,
                            self@.stack == snap.stack,
                            self@.eof == snap.eof,
                            self@.last == snap.last,
                            self.chars.len() < usize::MAX / 8,
                            old(self).wf(),
                            self.chars@ == old(self).chars@,
                            self.offsets@ == old(self).offsets@,
                            ts_seq_view(self.pending@) =~= repeat_tok(STok::Dedent, len as int, len as int, k as nat),
                        decreases n - k,
                    {
                        let ghost pb = self.pending@;
                        self.pending.push((Token::Dedent, len..len));
                        k = k + 1;
                        assert(ts_seq_view(self.pending@) =~= ts_seq_view(pb).push((STok::Dedent, len as int, len as int)));
                        assert(ts_seq_view(self.pending@) =~= repeat_tok(STok::Dedent, len as int, len as int, k as nat));
                    }
                    self.indent_stack.truncate(1);
                    assert(self.indent_stack@ =~= st0.stack.subrange(0, 1));
                    if n > 0 {
                        let t = self.pending.remove(0);
                        proof {
                            assert(ts_seq_view(self.pending@) =~= repeat_tok(STok::Dedent, len as int, len as int, n as nat).drop_first());
                        }
                        return Some(Ok(t));
                    }
                    return None;
                },
            }
        }
    }
}

/// Lexes a whole source text: every token in order, or the span of the first
/// text that no token matches (or of the line whose indentation matches no
/// open block).
pub fn tokenize(input: &str) -> (r: Result<Vec<TokenSpan>, Range<usize>>)
    requires
        input@.len() < usize::MAX / 8,
    ensures
        match r {
            Ok(v) => spec_tokenize(input@) matches Ok(ts) && ts_seq_view(v@) == byte_spans(input@, ts),
            Err(sp) => spec_tokenize(input@) matches Err(e)
                && sp.start as int == byte_of(input@, e.0) && sp.end as int == byte_of(input@, e.1),
        },
{
    let mut lexer = Lexer::new(input);
    let mut out: Vec<TokenSpan> = Vec::new();
    let ghost mut cs: Seq<(STok, int, int)> = seq![];
    assert(ts_seq_view(out@) =~= byte_spans(input@, cs));
    loop
        invariant
            lexer.wf(),
            lexer@.src == input@,
            ts_seq_view(out@) == byte_spans(input@, cs),
            match run(lexer@) {
                Ok(rest) => spec_tokenize(input@) == Ok::<Seq<(STok, int, int)>, (int, int)>(cs + rest),
                Err(e) => spec_tokenize(input@) == Err::<Seq<(STok, int, int)>, (int, int)>(e),
            },
        decreases lexer@.src.len() - lexer@.pos, if lexer@.eof { 0int } else { 1int }, lexer@.pending.len(),
    {
        let ghost before = lexer@;
        proof {
            lemma_step(before);
        }
        match lexer.next_char() {
            None => {
                assert(cs + Seq::<(STok, int, int)>::empty() =~= cs);
                return Ok(out);
            },
            Some(Err(())) => {
                return Err(lexer.span());
            },
            Some(Ok((t, sp))) => {
                let ghost tv = (tok_view(t), sp.start as int, sp.end as int);
                let a = lexer.byte_at(sp.start);
                let b = lexer.byte_at(sp.end);
                let ghost out_before = ts_seq_view(out@);
                let ghost cs0 = cs;
                out.push((t, a..b));
                proof {
                    cs = cs0.push(tv);
                    assert(ts_seq_view(out@) =~= out_before.push(byte_span(input@, tv)));
                    assert(byte_spans(input@, cs) =~= byte_spans(input@, cs0).push(byte_span(input@, tv)));
                    match run(lexer@) {
                        Ok(rest) => {
                            assert(cs0 + (seq![tv] + rest) =~= cs + rest);
                        },
                        Err(e) => {},
                    }
                }
            },
        }
    }
}

} // verus!
