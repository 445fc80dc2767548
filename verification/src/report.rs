//! Locating reports in source text: the line and column of a byte offset,
//! and the report of text the lexer could not read.
use vstd::prelude::*;
use crate::ast::{Program, SStmt};
use crate::lexer::{STok, Token, TokenSpan, byte_of, byte_spans, lemma_token_count, spec_tokenize, tok_view, tokenize, ts_seq_view};
use crate::parser::spec_parse_program;
use crate::semantic::{debug_str, debug_str_exec};
use crate::statements::parse_program;
use crate::transpiler::{trim_range, trim_ws};
use crate::text::{
    char_boundary, char_index_of_byte, char_of_byte, chars_of, count_nl, digits, lemma_char_of_byte_at,
    lemma_char_of_byte_bounds, lemma_utf8_size_bounds, lemma_utf8_size_push, nat_to_text, push_str, utf8_size,
    int_text, int_to_text,
};

verus! {

/// The 1-based line and column of character offset `off` (clamped to the
/// end of the text).
pub open spec fn line_col(src: Seq<char>, off: int) -> (int, int) {
    let o = if off > src.len() { src.len() as int } else if off < 0 { 0 } else { off };
    let prefix = src.take(o);
    (count_nl(prefix) + 1, o - after_last_nl(prefix) + 1)
}

/// The index just after the last line break of `s` (0 when it has none).
pub open spec fn after_last_nl(s: Seq<char>) -> int
    decreases s.len(),
{
    if s.len() == 0 { 0 } else if s.last() == '\n' { s.len() as int } else { after_last_nl(s.drop_last()) }
}

/// The line and column of byte offset `b`, at the character boundary at
/// or before it.
pub open spec fn byte_line_col(src: Seq<char>, b: int) -> (int, int) {
    line_col(src, char_of_byte(src, b))
}

/// The 1-based line and column of character offset `o`.
fn char_line_col(v: &Vec<char>, o: usize) -> (r: (usize, usize))
    requires
        o <= v.len(),
        v.len() < usize::MAX,
    ensures
        r.0 as int == line_col(v@, o as int).0,
        r.1 as int == line_col(v@, o as int).1,
{
    let mut line: usize = 1;
    let mut last: usize = 0;
    let mut i: usize = 0;
    while i < o
        invariant
            0 <= i <= o <= v.len(),
            v.len() < usize::MAX,
            line as int == count_nl(v@.take(i as int)) + 1,
            last as int == after_last_nl(v@.take(i as int)),
            last <= i,
            line <= i + 1,
        decreases o - i,
    {
        assert(v@.take(i + 1).drop_last() =~= v@.take(i as int));
        assert(v@.take(i + 1).last() == v@[i as int]);
        if v[i] == '\n' {
            line = line + 1;
            last = i + 1;
        }
        i = i + 1;
    }
    (line, o - last + 1)
}

/// The line and column of byte offset `offset` (see `byte_line_col`), for
/// any offset.
pub(crate) fn line_col_at_byte(source: &str, offset: usize) -> (r: (usize, usize))
    requires
        source@.len() < usize::MAX,
    ensures
        r.0 as int == byte_line_col(source@, offset as int).0,
        r.1 as int == byte_line_col(source@, offset as int).1,
{
    let v = chars_of(source);
    let (k, _) = char_index_of_byte(&v, offset);
    char_line_col(&v, k)
}

/// The 1-based line and column of byte offset `offset` in `source`: the
/// line is one more than the line breaks before it, the column one more
/// than the characters between the last of them and the offset. An offset
/// past the end stands for the end; an offset inside a character is not
/// accepted.
pub fn line_col_from_offset(source: &str, offset: usize) -> (r: (usize, usize))
    requires
        source@.len() < usize::MAX,
        char_boundary(source@, offset as int),
    ensures
        r.0 as int == byte_line_col(source@, offset as int).0,
        r.1 as int == byte_line_col(source@, offset as int).1,
{
    line_col_at_byte(source, offset)
}

/// Whether bytes `a..b` of `src` are a run of whole characters of it.
pub open spec fn byte_range_ok(src: Seq<char>, a: int, b: int) -> bool {
    &&& 0 <= a <= b <= utf8_size(src)
    &&& char_boundary(src, a)
    &&& char_boundary(src, b)
}

/// How text that no token matches is reported: the line and column of its
/// start, and the text itself without surrounding whitespace
/// (`<unknown>` when the byte span is not a run of whole characters of the
/// text).
pub open spec fn lexing_message(src: Seq<char>, start: int, end: int) -> Seq<char> {
    let (line, col) = byte_line_col(src, start);
    let near = if byte_range_ok(src, start, end) {
        trim_ws(src.subrange(char_of_byte(src, start), char_of_byte(src, end)))
    } else {
        "<unknown>"@
    };
    "Lexing error at line "@ + digits(line as nat) + ", column "@ + digits(col as nat) + " near '"@ + near + "'"@
}

/// A prefix's bytes are at most the whole text's bytes.
proof fn lemma_utf8_prefix(s: Seq<char>, k: int)
    requires
        0 <= k <= s.len(),
    ensures
        utf8_size(s.take(k)) <= utf8_size(s),
    decreases s.len(),
{
    if k > 0 {
        assert(s.take(k).drop_first() =~= s.drop_first().take(k - 1));
        lemma_utf8_prefix(s.drop_first(), k - 1);
    } else {
        assert(s.take(0) =~= Seq::<char>::empty());
        lemma_utf8_size_bounds(s);
    }
}

/// Whether byte offset `b` starts a character of `v` (or is its end), and
/// the character offset there.
fn whole_char_at(v: &Vec<char>, b: usize) -> (r: (bool, usize))
    ensures
        r.0 == (b <= utf8_size(v@) && char_boundary(v@, b as int)),
        r.1 as int == char_of_byte(v@, b as int),
{
    let (k, at) = char_index_of_byte(v, b);
    proof {
        lemma_utf8_prefix(v@, k as int);
        if b <= utf8_size(v@) && char_boundary(v@, b as int) {
            if b as int == utf8_size(v@) {
                assert(v@.take(v@.len() as int) =~= v@);
                lemma_char_of_byte_at(v@, v@.len() as int);
            } else {
                let j = choose|j: int| 0 <= j <= v@.len() && #[trigger] utf8_size(v@.take(j)) == b;
                lemma_char_of_byte_at(v@, j);
            }
        }
    }
    (at == b, k)
}

/// The report of a lexing error at bytes `start..end` (see `lexing_message`).
pub fn lexing_error_message(source: &str, start: usize, end: usize) -> (r: String)
    requires
        source@.len() < usize::MAX,
    ensures
        r@ == lexing_message(source@, start as int, end as int),
{
    let (line, col) = line_col_at_byte(source, start);
    let v = chars_of(source);
    let (ok_a, ka) = whole_char_at(&v, start);
    let (ok_b, kb) = whole_char_at(&v, end);
    let near = if start <= end && ok_a && ok_b {
        proof {
            lemma_char_of_byte_bounds(v@, start as int);
            lemma_char_of_byte_bounds(v@, end as int);
            if ka > kb {
                assert(false) by {
                    if start as int == utf8_size(v@) {
                        assert(v@.take(v@.len() as int) =~= v@);
                        lemma_char_of_byte_at(v@, v@.len() as int);
                    } else {
                        let i = choose|i: int| 0 <= i <= v@.len() && #[trigger] utf8_size(v@.take(i)) == start;
                        lemma_char_of_byte_at(v@, i);
                    }
                    if end as int == utf8_size(v@) {
                        assert(v@.take(v@.len() as int) =~= v@);
                        lemma_char_of_byte_at(v@, v@.len() as int);
                    } else {
                        let j = choose|j: int| 0 <= j <= v@.len() && #[trigger] utf8_size(v@.take(j)) == end;
                        lemma_char_of_byte_at(v@, j);
                    }
                    lemma_size_monotone(v@, kb as int, ka as int);
                };
            }
        }
        trim_range(&v, ka, kb)
    } else {
        "<unknown>".to_owned()
    };
    let mut m = "Lexing error at line ".to_owned();
    let l = nat_to_text(line as u64);
    push_str(&mut m, l.as_str());
    push_str(&mut m, ", column ");
    let c = nat_to_text(col as u64);
    push_str(&mut m, c.as_str());
    push_str(&mut m, " near '");
    push_str(&mut m, near.as_str());
    push_str(&mut m, "'");
    m
}

/// Longer prefixes take strictly more bytes.
proof fn lemma_size_monotone(s: Seq<char>, i: int, j: int)
    requires
        0 <= i < j <= s.len(),
    ensures
        utf8_size(s.take(i)) < utf8_size(s.take(j)),
    decreases j,
{
    lemma_utf8_size_push(s.take(j - 1), s[j - 1]);
    assert(s.take(j) =~= s.take(j - 1).push(s[j - 1]));
    if i < j - 1 {
        lemma_size_monotone(s, i, j - 1);
    }
}

/// Where a parse error is reported: the line and column of the start of
/// the token at `position`, or `None` when the error is at the end of the
/// tokens.
pub fn parse_error_location(source: &str, tokens: &[TokenSpan], position: usize) -> (r: Option<(usize, usize)>)
    requires
        source@.len() < usize::MAX,
    ensures
        match r {
            Some((line, col)) => position < tokens@.len()
                && line as int == byte_line_col(source@, tokens@[position as int].1.start as int).0
                && col as int == byte_line_col(source@, tokens@[position as int].1.start as int).1,
            None => position >= tokens@.len(),
        },
{
    if position < tokens.len() {
        Some(line_col_at_byte(source, tokens[position].1.start))
    } else {
        None
    }
}

/// How a token is written by `{:?}`: its variant's name, and a payload in
/// brackets (text quoted, with quotes, backslashes, line breaks and tabs
/// escaped; a float's decimal text as it is).
pub open spec fn token_debug(t: STok) -> Seq<char> {
    match t {
        STok::Let => "Let"@,
        STok::Mut => "Mut"@,
        STok::Move => "Move"@,
        STok::Def => "Def"@,
        STok::Protocol => "Protocol"@,
        STok::Struct => "Struct"@,
        STok::Impl => "Impl"@,
        STok::For => "For"@,
        STok::While => "While"@,
        STok::In => "In"@,
        STok::If => "If"@,
        STok::Else => "Else"@,
        STok::Return => "Return"@,
        STok::Break => "Break"@,
        STok::Continue => "Continue"@,
        STok::Elif => "Elif"@,
        STok::And => "And"@,
        STok::Or => "Or"@,
        STok::Not => "Not"@,
        STok::Import => "Import"@,
        STok::PyImport => "PyImport"@,
        STok::Match => "Match"@,
        STok::As => "As"@,
        STok::From => "From"@,
        STok::Enum => "Enum"@,
        STok::Colon => "Colon"@,
        STok::Arrow => "Arrow"@,
        STok::Question => "Question"@,
        STok::BangBang => "BangBang"@,
        STok::DotDotEq => "DotDotEq"@,
        STok::DotDot => "DotDot"@,
        STok::Dot => "Dot"@,
        STok::Pipe => "Pipe"@,
        STok::LBracket => "LBracket"@,
        STok::RBracket => "RBracket"@,
        STok::LParen => "LParen"@,
        STok::RParen => "RParen"@,
        STok::LBrace => "LBrace"@,
        STok::RBrace => "RBrace"@,
        STok::Comma => "Comma"@,
        STok::Assign => "Assign"@,
        STok::Eq => "Eq"@,
        STok::Ne => "Ne"@,
        STok::Gt => "Gt"@,
        STok::Lt => "Lt"@,
        STok::Ge => "Ge"@,
        STok::Le => "Le"@,
        STok::At => "At"@,
        STok::Dollar => "Dollar"@,
        STok::Ampersand => "Ampersand"@,
        STok::Tilde => "Tilde"@,
        STok::Plus => "Plus"@,
        STok::Minus => "Minus"@,
        STok::Star => "Star"@,
        STok::Percent => "Percent"@,
        STok::Slash => "Slash"@,
        STok::NewlineWithIndent => "NewlineWithIndent"@,
        STok::Whitespace => "Whitespace"@,
        STok::Comment => "Comment"@,
        STok::Indent => "Indent"@,
        STok::Dedent => "Dedent"@,
        STok::Ident(s) => "Ident("@ + debug_str(s) + ")"@,
        STok::Float(s) => "Float("@ + s + ")"@,
        STok::Int(i) => "Int("@ + int_text(i) + ")"@,
        STok::Str(s) => "String("@ + debug_str(s) + ")"@,
    }
}

/// A token as `{:?}` writes it (see `token_debug`).
pub fn token_debug_text(t: &Token) -> (r: String)
    ensures
        r@ == token_debug(tok_view(*t)),
{
    match t {
        Token::Let => "Let".to_owned(),
        Token::Mut => "Mut".to_owned(),
        Token::Move => "Move".to_owned(),
        Token::Def => "Def".to_owned(),
        Token::Protocol => "Protocol".to_owned(),
        Token::Struct => "Struct".to_owned(),
        Token::Impl => "Impl".to_owned(),
        Token::For => "For".to_owned(),
        Token::While => "While".to_owned(),
        Token::In => "In".to_owned(),
        Token::If => "If".to_owned(),
        Token::Else => "Else".to_owned(),
        Token::Return => "Return".to_owned(),
        Token::Break => "Break".to_owned(),
        Token::Continue => "Continue".to_owned(),
        Token::Elif => "Elif".to_owned(),
        Token::And => "And".to_owned(),
        Token::Or => "Or".to_owned(),
        Token::Not => "Not".to_owned(),
        Token::Import => "Import".to_owned(),
        Token::PyImport => "PyImport".to_owned(),
        Token::Match => "Match".to_owned(),
        Token::As => "As".to_owned(),
        Token::From => "From".to_owned(),
        Token::Enum => "Enum".to_owned(),
        Token::Colon => "Colon".to_owned(),
        Token::Arrow => "Arrow".to_owned(),
        Token::Question => "Question".to_owned(),
        Token::BangBang => "BangBang".to_owned(),
        Token::DotDotEq => "DotDotEq".to_owned(),
        Token::DotDot => "DotDot".to_owned(),
        Token::Dot => "Dot".to_owned(),
        Token::Pipe => "Pipe".to_owned(),
        Token::LBracket => "LBracket".to_owned(),
        Token::RBracket => "RBracket".to_owned(),
        Token::LParen => "LParen".to_owned(),
        Token::RParen => "RParen".to_owned(),
        Token::LBrace => "LBrace".to_owned(),
        Token::RBrace => "RBrace".to_owned(),
        Token::Comma => "Comma".to_owned(),
        Token::Assign => "Assign".to_owned(),
        Token::Eq => "Eq".to_owned(),
        Token::Ne => "Ne".to_owned(),
        Token::Gt => "Gt".to_owned(),
        Token::Lt => "Lt".to_owned(),
        Token::Ge => "Ge".to_owned(),
        Token::Le => "Le".to_owned(),
        Token::At => "At".to_owned(),
        Token::Dollar => "Dollar".to_owned(),
        Token::Ampersand => "Ampersand".to_owned(),
        Token::Tilde => "Tilde".to_owned(),
        Token::Plus => "Plus".to_owned(),
        Token::Minus => "Minus".to_owned(),
        Token::Star => "Star".to_owned(),
        Token::Percent => "Percent".to_owned(),
        Token::Slash => "Slash".to_owned(),
        Token::NewlineWithIndent => "NewlineWithIndent".to_owned(),
        Token::Whitespace => "Whitespace".to_owned(),
        Token::Comment => "Comment".to_owned(),
        Token::Indent => "Indent".to_owned(),
        Token::Dedent => "Dedent".to_owned(),
        Token::Ident(s) => {
            let mut m = "Ident(".to_owned();
            let d = debug_str_exec(s);
            push_str(&mut m, d.as_str());
            push_str(&mut m, ")");
            m
        },
        Token::Float(s) => {
            let mut m = "Float(".to_owned();
            push_str(&mut m, s.as_str());
            push_str(&mut m, ")");
            m
        },
        Token::Int(i) => {
            let mut m = "Int(".to_owned();
            let d = int_to_text(*i);
            push_str(&mut m, d.as_str());
            push_str(&mut m, ")");
            m
        },
        Token::String(s) => {
            let mut m = "String(".to_owned();
            let d = debug_str_exec(s);
            push_str(&mut m, d.as_str());
            push_str(&mut m, ")");
            m
        },
    }
}

/// How a failed parse is reported: at the token where it failed, or at the
/// end of the file.
pub open spec fn parsing_message(src: Seq<char>, ts: Seq<(STok, int, int)>, position: int) -> Seq<char> {
    if 0 <= position < ts.len() {
        let (line, col) = byte_line_col(src, ts[position].1);
        "Parsing error at line "@ + digits(line as nat) + ", column "@ + digits(col as nat) + " near token "@
            + token_debug(ts[position].0)
    } else {
        "Parsing error at end of file"@
    }
}

/// What reading a source text gives: its program, or where and why
/// reading stopped, with the report as it is shown.
pub open spec fn read_source(src: Seq<char>) -> Result<Seq<SStmt>, (int, int, Seq<char>)> {
    match spec_tokenize(src) {
        Err(e) => {
            let b0 = byte_of(src, e.0);
            let (line, col) = byte_line_col(src, b0);
            Err((line, col, lexing_message(src, b0, byte_of(src, e.1))))
        },
        Ok(ts) => {
            let bs = byte_spans(src, ts);
            match spec_parse_program(bs) {
                Ok(p) => Ok(p),
                Err(pos) => {
                    let (line, col) = if 0 <= pos < bs.len() { byte_line_col(src, bs[pos].1) } else { (0, 0) };
                    Err((line, col, parsing_message(src, bs, pos)))
                },
            }
        },
    }
}

/// Lexes and parses a source text. On failure: the line and column of the
/// text the lexer could not read, or of the token where parsing failed
/// (`0, 0` at the end of the file), and the report.
pub fn parse_source(content: &str) -> (r: Result<Program, (usize, usize, String)>)
    requires
        content@.len() < usize::MAX / 8,
    ensures
        match r {
            Ok(p) => read_source(content@) == Ok::<Seq<SStmt>, (int, int, Seq<char>)>(p@),
            Err((line, col, m)) => read_source(content@) == Err::<Seq<SStmt>, (int, int, Seq<char>)>((line as int, col as int, m@)),
        },
{
    let tokens = match tokenize(content) {
        Ok(t) => t,
        Err(span) => {
            let (line, col) = line_col_at_byte(content, span.start);
            return Err((line, col, lexing_error_message(content, span.start, span.end)));
        },
    };
    proof {
        lemma_token_count(content@);
        lemma_byte_spans_len(content@, spec_tokenize(content@)->Ok_0);
        assert(ts_seq_view(tokens@).len() == tokens@.len());
    }
    match parse_program(tokens.as_slice()) {
        Ok((_, program)) => Ok(program),
        Err(err) => {
            let pos = err.position;
            if pos < tokens.len() {
                let (line, col) = line_col_at_byte(content, tokens[pos].1.start);
                let mut m = "Parsing error at line ".to_owned();
                let l = nat_to_text(line as u64);
                push_str(&mut m, l.as_str());
                push_str(&mut m, ", column ");
                let c = nat_to_text(col as u64);
                push_str(&mut m, c.as_str());
                push_str(&mut m, " near token ");
                let d = token_debug_text(&tokens[pos].0);
                push_str(&mut m, d.as_str());
                Err((line, col, m))
            } else {
                Err((0, 0, "Parsing error at end of file".to_owned()))
            }
        },
    }
}

proof fn lemma_byte_spans_len(src: Seq<char>, ts: Seq<(STok, int, int)>)
    ensures
        byte_spans(src, ts).len() == ts.len(),
{
}

} // verus!
