//! Mirage: rewrites rustc diagnostics about generated Rust into Desert terms,
//! with Desert source locations and hints for common errors.
use vstd::prelude::*;
use crate::sourcemap::{SLoc, SourceLocation, SourceMap, span_location};
use crate::text::{chars_of, digits, matches_at, nat_to_text, push_char, push_str, string_of, text_eq};

verus! {

/// A rustc JSON diagnostic, with the fields Mirage reads.
#[derive(Debug)]
pub struct Diagnostic {
    pub message: String,
    pub code: Option<DiagnosticCode>,
    pub spans: Vec<DiagnosticSpan>,
}

#[derive(Debug)]
pub struct DiagnosticCode {
    pub code: String,
}

#[derive(Debug)]
pub struct DiagnosticSpan {
    pub line_start: usize,
    pub line_end: usize,
    pub file_name: String,
    /// 1-based; a diagnostic that leaves it out means column 1.
    pub column_start: usize,
}

/// A line of cargo's JSON output: a compiler message, or anything else.
#[derive(Debug)]
pub enum CargoMessage {
    CompilerMessage { message: Diagnostic },
    Other,
}

pub struct Mirage;

/// A diagnostic as plain values: message, code, and each span's
/// `(line_start, column_start)`.
pub struct SDiag {
    pub message: Seq<char>,
    pub code: Option<Seq<char>>,
    pub spans: Seq<(usize, usize)>,
}

impl View for Diagnostic {
    type V = SDiag;

    open spec fn view(&self) -> SDiag {
        SDiag {
            message: self.message@,
            code: match self.code {
                Some(c) => Some(c.code@),
                None => None,
            },
            spans: self.spans@.map_values(|s: DiagnosticSpan| (s.line_start, s.column_start)),
        }
    }
}

/// `s` with every non-overlapping occurrence of `pat`, scanning left to
/// right, replaced by `rep`.
pub open spec fn replace_all(s: Seq<char>, pat: Seq<char>, rep: Seq<char>) -> Seq<char>
    decreases s.len(),
{
    if pat.len() == 0 || s.len() < pat.len() {
        s
    } else if s.subrange(0, pat.len() as int) == pat {
        rep + replace_all(s.subrange(pat.len() as int, s.len() as int), pat, rep)
    } else {
        seq![s[0]] + replace_all(s.drop_first(), pat, rep)
    }
}

/// The message with Rust names put in Desert terms: `Vec` becomes `List`,
/// `&mut ` becomes `~`, and `::` becomes `.`.
pub open spec fn desert_message(m: Seq<char>) -> Seq<char> {
    replace_all(replace_all(replace_all(m, "Vec"@, "List"@), "&mut "@, "~"@), "::"@, "."@)
}

/// The hint for a rustc error code, if Mirage has one.
pub open spec fn hint_text(code: Option<Seq<char>>) -> Option<Seq<char>> {
    match code {
        Some(c) => if c == "E0596"@ {
            Some("Declare the binding with `mut` before using `~` or `move`."@)
        } else if c == "E0599"@ {
            Some("Call a method that exists for this type, or implement a matching `protocol`/`impl`."@)
        } else if c == "E0308"@ {
            Some("Match the declared type annotation with the assigned expression."@)
        } else {
            None
        },
        None => None,
    }
}

/// The distinct Desert locations of the spans, in order of first
/// appearance; rustc lines are 1-based and the map's are 0-based.
pub open spec fn span_locations(map: Seq<Option<(SLoc, usize)>>, spans: Seq<(usize, usize)>) -> Seq<SLoc>
    decreases spans.len(),
{
    if spans.len() == 0 {
        seq![]
    } else {
        let prev = span_locations(map, spans.drop_last());
        let (line, col) = spans.last();
        let rs_line = if line >= 1 { line - 1 } else { 0 };
        match span_location(map, rs_line, col) {
            Some(l) => if prev.contains(l) { prev } else { prev.push(l) },
            None => prev,
        }
    }
}

/// `\n  file:line:column: in Desert source`.
pub open spec fn location_line(l: SLoc) -> Seq<char> {
    "\n  "@ + l.file + ":"@ + digits(l.line as nat) + ":"@ + digits(l.column as nat) + ": in Desert source"@
}

pub open spec fn locations_text(ls: Seq<SLoc>) -> Seq<char>
    decreases ls.len(),
{
    if ls.len() == 0 { seq![] } else { locations_text(ls.drop_last()) + location_line(ls.last()) }
}

/// The whole translated diagnostic.
pub open spec fn translated(d: SDiag, map: Seq<Option<(SLoc, usize)>>) -> Seq<char> {
    desert_message(d.message) + match hint_text(d.code) {
        Some(h) => "\nHint: "@ + h,
        None => seq![],
    } + locations_text(span_locations(map, d.spans))
}

/// `s` with `pat` replaced by `rep` (see `replace_all`).
fn replace_text(s: &Vec<char>, pat: &str, rep: &str) -> (r: Vec<char>)
    requires
        pat@.len() > 0,
    ensures
        r@ == replace_all(s@, pat@, rep@),
{
    let p = chars_of(pat);
    let q = chars_of(rep);
    let mut out: Vec<char> = Vec::new();
    let mut i: usize = 0;
    assert(s@.subrange(0, s.len() as int) =~= s@);
    while i < s.len()
        invariant
            0 <= i <= s.len(),
            p@ == pat@,
            q@ == rep@,
            p@.len() > 0,
            out@ + replace_all(s@.subrange(i as int, s.len() as int), pat@, rep@) == replace_all(s@, pat@, rep@),
        decreases s.len() - i,
    {
        let ghost rest = s@.subrange(i as int, s.len() as int);
        if matches_at(s.as_slice(), i, p.as_slice()) {
            assert(rest.subrange(0, p@.len() as int) =~= s@.subrange(i as int, i + p@.len()));
            assert(rest.subrange(p@.len() as int, rest.len() as int) =~= s@.subrange(i + p@.len(), s.len() as int));
            let mut k: usize = 0;
            let ghost before = out@;
            while k < q.len()
                invariant
                    0 <= k <= q.len(),
                    out@ == before + q@.take(k as int),
                decreases q.len() - k,
            {
                out.push(q[k]);
                k = k + 1;
                assert(out@ =~= before + q@.take(k as int));
            }
            assert(q@.take(k as int) =~= q@);
            assert(out@ + replace_all(s@.subrange(i + p@.len(), s.len() as int), pat@, rep@) =~= before + replace_all(rest, pat@, rep@));
            i = i + p.len();
        } else {
            proof {
                if rest.len() >= pat@.len() {
                    assert(rest.subrange(0, p@.len() as int) =~= s@.subrange(i as int, i + p@.len()));
                }
                assert(rest.drop_first() =~= s@.subrange(i + 1, s.len() as int));
            }
            let ghost before = out@;
            out.push(s[i]);
            assert(out@ + replace_all(s@.subrange(i + 1, s.len() as int), pat@, rep@) =~= before + replace_all(rest, pat@, rep@));
            i = i + 1;
        }
    }
    assert(out@ + replace_all(s@.subrange(i as int, s.len() as int), pat@, rep@) == out@);
    out
}

fn same_location(a: &SourceLocation, b: &SourceLocation) -> (r: bool)
    ensures
        r == (a@ == b@),
{
    text_eq(a.file.as_str(), b.file.as_str()) && a.line == b.line && a.column == b.column
}

fn push_location_line(out: &mut String, l: &SourceLocation)
    ensures
        final(out)@ == old(out)@ + location_line(l@),
{
    push_str(out, "\n  ");
    push_str(out, l.file.as_str());
    push_str(out, ":");
    let line = nat_to_text(l.line as u64);
    push_str(out, line.as_str());
    push_str(out, ":");
    let col = nat_to_text(l.column as u64);
    push_str(out, col.as_str());
    push_str(out, ": in Desert source");
}

/// Whether `s` has no `::` in it.
pub open spec fn no_path_separator(s: Seq<char>) -> bool {
    forall|i: int| 0 <= i < s.len() - 1 ==> !(#[trigger] s[i] == ':' && s[i + 1] == ':')
}

proof fn lemma_replace_colons(s: Seq<char>)
    ensures
        no_path_separator(replace_all(s, "::"@, "."@)),
        s.len() > 0 ==> replace_all(s, "::"@, "."@).len() > 0
            && (replace_all(s, "::"@, "."@)[0] == s[0] || replace_all(s, "::"@, "."@)[0] == '.'),
    decreases s.len(),
{
    reveal_strlit("::");
    reveal_strlit(".");
    let pat = "::"@;
    let r = replace_all(s, pat, "."@);
    if s.len() < 2 {
    } else if s.subrange(0, 2) == pat {
        let rest = s.subrange(2, s.len() as int);
        lemma_replace_colons(rest);
        let rr = replace_all(rest, pat, "."@);
        assert(r == "."@ + rr);
        assert forall|i: int| 0 <= i < r.len() - 1 implies !(#[trigger] r[i] == ':' && r[i + 1] == ':') by {
            if i > 0 {
                assert(r[i] == rr[i - 1] && r[i + 1] == rr[i]);
            } else {
                assert(r[0] == '.');
            }
        }
    } else {
        let rest = s.drop_first();
        lemma_replace_colons(rest);
        let rr = replace_all(rest, pat, "."@);
        assert(r == seq![s[0]] + rr);
        assert(s[0] == ':' ==> s[1] != ':') by {
            if s[0] == ':' && s[1] == ':' {
                assert(s.subrange(0, 2) =~= pat);
            }
        }
        assert(rest[0] == s[1]);
        assert forall|i: int| 0 <= i < r.len() - 1 implies !(#[trigger] r[i] == ':' && r[i + 1] == ':') by {
            if i > 0 {
                assert(r[i] == rr[i - 1] && r[i + 1] == rr[i]);
            } else {
                assert(r[1] == rr[0]);
            }
        }
    }
}

/// No Rust path separator is left in a diagnostic's message: every `::`
/// reads `.`, as paths are written in Desert.
pub proof fn law_no_rust_paths(m: Seq<char>)
    ensures
        no_path_separator(desert_message(m)),
{
    lemma_replace_colons(replace_all(replace_all(m, "Vec"@, "List"@), "&mut "@, "~"@));
}

/// Each Desert location is listed once, and every span whose Rust line is
/// mapped has its Desert location listed.
pub proof fn law_locations_listed_once(map: Seq<Option<(SLoc, usize)>>, spans: Seq<(usize, usize)>, i: int)
    ensures
        span_locations(map, spans).no_duplicates(),
        0 <= i < spans.len() ==> (span_location(map, if spans[i].0 >= 1 { spans[i].0 - 1 } else { 0 }, spans[i].1) matches Some(l)
            ==> span_locations(map, spans).contains(l)),
    decreases spans.len(),
{
    if spans.len() > 0 {
        let prev = span_locations(map, spans.drop_last());
        law_locations_listed_once(map, spans.drop_last(), i);
        let (line, col) = spans.last();
        let rs_line = if line >= 1 { line - 1 } else { 0 };
        match span_location(map, rs_line, col) {
            Some(l) => if !prev.contains(l) {
                let now = prev.push(l);
                assert forall|a: int, b: int| 0 <= a < b < now.len() implies now[a] != now[b] by {
                    if b == prev.len() {
                        assert(prev.contains(prev[a]));
                    }
                }
                if 0 <= i < spans.len() - 1 {
                    assert(spans.drop_last()[i] == spans[i]);
                    if let Some(l2) = span_location(map, if spans[i].0 >= 1 { spans[i].0 - 1 } else { 0 }, spans[i].1) {
                        let k = choose|k: int| 0 <= k < prev.len() && prev[k] == l2;
                        assert(now[k] == l2);
                    }
                }
                assert(now[prev.len() as int] == l);
            } else {
                if 0 <= i < spans.len() - 1 {
                    assert(spans.drop_last()[i] == spans[i]);
                }
            },
            None => {
                if 0 <= i < spans.len() - 1 {
                    assert(spans.drop_last()[i] == spans[i]);
                }
            },
        }
    }
}

impl Mirage {
    /// The diagnostic in Desert terms: the rewritten message, the hint for
    /// its code, and the distinct Desert locations of its spans.
    pub fn translate_error(msg: &Diagnostic, source_map: &SourceMap) -> (r: String)
        ensures
            r@ == translated(msg@, source_map@),
    {
        proof {
            reveal_strlit("Vec");
            reveal_strlit("&mut ");
            reveal_strlit("::");
        }
        let m = chars_of(msg.message.as_str());
        let a = replace_text(&m, "Vec", "List");
        let b = replace_text(&a, "&mut ", "~");
        let c = replace_text(&b, "::", ".");
        let mut out = string_of(c.as_slice());
        match Self::hint_for(msg) {
            Some(h) => {
                push_str(&mut out, "\nHint: ");
                push_str(&mut out, h);
            },
            None => {},
        }
        let ghost head = out@;
        let ghost spans = msg@.spans;
        let mut seen: Vec<SourceLocation> = Vec::new();
        let mut locations = String::new();
        let mut i: usize = 0;
        while i < msg.spans.len()
            invariant
                0 <= i <= msg.spans.len(),
                spans == msg@.spans,
                seen@.map_values(|l: SourceLocation| l@) == span_locations(source_map@, spans.take(i as int)),
                locations@ == locations_text(seen@.map_values(|l: SourceLocation| l@)),
            decreases msg.spans.len() - i,
        {
            let ghost prev = seen@.map_values(|l: SourceLocation| l@);
            assert(spans.take(i + 1).drop_last() =~= spans.take(i as int));
            let span = &msg.spans[i];
            let rs_line = if span.line_start >= 1 { span.line_start - 1 } else { 0 };
            if let Some(loc) = source_map.get_location_for_span(rs_line, span.column_start) {
                let mut found = false;
                let mut k: usize = 0;
                while k < seen.len()
                    invariant
                        0 <= k <= seen.len(),
                        prev == seen@.map_values(|l: SourceLocation| l@),
                        found == exists|j: int| 0 <= j < k && prev[j] == loc@,
                    decreases seen.len() - k,
                {
                    assert(prev[k as int] == seen@[k as int]@);
                    if same_location(&seen[k], &loc) {
                        found = true;
                    }
                    k = k + 1;
                }
                if !found {
                    push_location_line(&mut locations, &loc);
                    seen.push(loc);
                    proof {
                        assert(seen@.map_values(|l: SourceLocation| l@) =~= prev.push(loc@));
                        assert(seen@.map_values(|l: SourceLocation| l@).drop_last() =~= prev);
                    }
                } else {
                    assert(prev.contains(loc@));
                }
            }
            i = i + 1;
        }
        assert(spans.take(i as int) =~= spans);
        push_str(&mut out, locations.as_str());
        out
    }

    fn hint_for(msg: &Diagnostic) -> (r: Option<&'static str>)
        ensures
            match r {
                Some(h) => hint_text(msg@.code) == Some(h@),
                None => hint_text(msg@.code) is None,
            },
    {
        match &msg.code {
            Some(c) => {
                if text_eq(c.code.as_str(), "E0596") {
                    Some("Declare the binding with `mut` before using `~` or `move`.")
                } else if text_eq(c.code.as_str(), "E0599") {
                    Some("Call a method that exists for this type, or implement a matching `protocol`/`impl`.")
                } else if text_eq(c.code.as_str(), "E0308") {
                    Some("Match the declared type annotation with the assigned expression.")
                } else {
                    None
                }
            },
            None => None,
        }
    }
}

} // verus!
