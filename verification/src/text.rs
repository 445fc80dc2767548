//! Character-level helpers shared by the lexer, the code generators and the
//! diagnostics: decimal rendering of integers, char classes, and building
//! `String`s whose contents are stated as `Seq<char>`.
use vstd::prelude::*;

verus! {

/// The decimal digits of `n`, most significant first (`"0"` for zero).
pub open spec fn digits(n: nat) -> Seq<char>
    decreases n,
{
    if n < 10 {
        seq![digit_char(n)]
    } else {
        digits(n / 10).push(digit_char(n % 10))
    }
}

/// The ASCII digit for a value below ten.
pub open spec fn digit_char(d: nat) -> char {
    if d == 0 { '0' }
    else if d == 1 { '1' }
    else if d == 2 { '2' }
    else if d == 3 { '3' }
    else if d == 4 { '4' }
    else if d == 5 { '5' }
    else if d == 6 { '6' }
    else if d == 7 { '7' }
    else if d == 8 { '8' }
    else { '9' }
}

/// How Rust's `Display` writes an integer: an optional `-` and its decimal digits.
pub open spec fn int_text(i: int) -> Seq<char> {
    if i < 0 {
        seq!['-'] + digits((-i) as nat)
    } else {
        digits(i as nat)
    }
}

/// Appends `c` to `s` with std's `String::push`; the contract claims that
/// the text afterwards is the text before followed by `c`.
#[verifier::external_body]
pub(crate) fn push_char(s: &mut String, c: char)
    ensures
        final(s)@ == old(s)@.push(c),
{
    s.push(c);
}

fn digit_of(d: u64) -> (c: char)
    requires
        d < 10,
    ensures
        c == digit_char(d as nat),
{
    if d == 0 { '0' }
    else if d == 1 { '1' }
    else if d == 2 { '2' }
    else if d == 3 { '3' }
    else if d == 4 { '4' }
    else if d == 5 { '5' }
    else if d == 6 { '6' }
    else if d == 7 { '7' }
    else if d == 8 { '8' }
    else { '9' }
}

/// Appends the decimal digits of `n` to `out`.
fn push_digits(out: &mut String, n: u64)
    ensures
        final(out)@ == old(out)@ + digits(n as nat),
    decreases n,
{
    if n < 10 {
        push_char(out, digit_of(n));
        assert(digits(n as nat) =~= seq![digit_char(n as nat)]);
    } else {
        push_digits(out, n / 10);
        push_char(out, digit_of(n % 10));
        assert(digits(n as nat) == digits((n / 10) as nat).push(digit_char((n % 10) as nat)));
    }
}

/// The decimal text of an unsigned number.
pub fn nat_to_text(n: u64) -> (s: String)
    ensures
        s@ == digits(n as nat),
{
    let mut s = String::new();
    push_digits(&mut s, n);
    assert(s@ =~= digits(n as nat));
    s
}

/// The decimal text of a signed number, as `Display` writes it.
pub fn int_to_text(i: i64) -> (s: String)
    ensures
        s@ == int_text(i as int),
{
    let mut s = String::new();
    if i < 0 {
        push_char(&mut s, '-');
        let magnitude: u64 = if i == i64::MIN {
            9223372036854775808u64
        } else {
            (-i) as u64
        };
        push_digits(&mut s, magnitude);
    } else {
        push_digits(&mut s, i as u64);
    }
    assert(s@ =~= int_text(i as int));
    s
}

/// The characters of a string slice, in order.
pub fn chars_of(s: &str) -> (v: Vec<char>)
    ensures
        v@ == s@,
{
    let mut v: Vec<char> = Vec::new();
    for c in it: s.chars()
        invariant
            v@ == it.seq().take(it.index() as int),
            it.seq() == s@,
    {
        v.push(c);
    }
    v
}

/// A `String` holding exactly the given characters.
pub fn string_of(v: &[char]) -> (s: String)
    ensures
        s@ == v@,
{
    let mut s = String::new();
    let mut i: usize = 0;
    while i < v.len()
        invariant
            0 <= i <= v.len(),
            s@ == v@.take(i as int),
        decreases v.len() - i,
    {
        push_char(&mut s, v[i]);
        i = i + 1;
        assert(s@ =~= v@.take(i as int));
    }
    assert(v@.take(v.len() as int) =~= v@);
    s
}

/// A `String` holding the characters of `v` from `start` up to `end`.
pub fn string_of_range(v: &[char], start: usize, end: usize) -> (s: String)
    requires
        start <= end <= v.len(),
    ensures
        s@ == v@.subrange(start as int, end as int),
{
    let mut s = String::new();
    let mut i: usize = start;
    while i < end
        invariant
            start <= i <= end <= v.len(),
            s@ == v@.subrange(start as int, i as int),
        decreases end - i,
    {
        push_char(&mut s, v[i]);
        i = i + 1;
        assert(s@ =~= v@.subrange(start as int, i as int));
    }
    s
}

/// Whether two string slices hold the same characters.
pub fn text_eq(a: &str, b: &str) -> (r: bool)
    ensures
        r == (a@ == b@),
{
    let x = chars_of(a);
    let y = chars_of(b);
    if x.len() != y.len() {
        return false;
    }
    let mut i: usize = 0;
    while i < x.len()
        invariant
            0 <= i <= x.len(),
            x.len() == y.len(),
            x@ == a@,
            y@ == b@,
            forall|j: int| 0 <= j < i ==> x@[j] == y@[j],
        decreases x.len() - i,
    {
        if x[i] != y[i] {
            return false;
        }
        i = i + 1;
    }
    assert(x@ =~= y@);
    true
}

/// Appends a string slice to `out`.
pub fn push_str(out: &mut String, piece: &str)
    ensures
        final(out)@ == old(out)@ + piece@,
{
    out.append(piece);
}

/// The number of line breaks in `s`.
pub open spec fn count_nl(s: Seq<char>) -> int
    decreases s.len(),
{
    if s.len() == 0 { 0 } else { count_nl(s.drop_last()) + (if s.last() == '\n' { 1int } else { 0int }) }
}

/// Whether `c` may start an identifier (`[a-zA-Z_]`).
pub open spec fn is_ident_start(c: char) -> bool {
    ('a' <= c && c <= 'z') || ('A' <= c && c <= 'Z') || c == '_'
}

/// Whether `c` may continue an identifier (`[a-zA-Z0-9_]`).
pub open spec fn is_ident_char(c: char) -> bool {
    is_ident_start(c) || is_digit(c)
}

/// Whether `c` is an ASCII digit.
pub open spec fn is_digit(c: char) -> bool {
    '0' <= c && c <= '9'
}

pub fn ident_start(c: char) -> (r: bool)
    ensures
        r == is_ident_start(c),
{
    ('a' <= c && c <= 'z') || ('A' <= c && c <= 'Z') || c == '_'
}

pub fn ident_char(c: char) -> (r: bool)
    ensures
        r == is_ident_char(c),
{
    ('a' <= c && c <= 'z') || ('A' <= c && c <= 'Z') || c == '_' || ('0' <= c && c <= '9')
}

pub fn digit(c: char) -> (r: bool)
    ensures
        r == is_digit(c),
{
    '0' <= c && c <= '9'
}

/// Joins `parts` with `sep` between neighbours.
pub open spec fn join(parts: Seq<Seq<char>>, sep: Seq<char>) -> Seq<char>
    decreases parts.len(),
{
    if parts.len() == 0 {
        seq![]
    } else if parts.len() == 1 {
        parts[0]
    } else {
        join(parts.drop_last(), sep) + sep + parts.last()
    }
}

/// Joining one more part onto a list appends the separator and the part.
pub proof fn lemma_join_push(parts: Seq<Seq<char>>, sep: Seq<char>, p: Seq<char>)
    ensures
        join(parts.push(p), sep) == if parts.len() == 0 { p } else { join(parts, sep) + sep + p },
{
    assert(parts.push(p).drop_last() =~= parts);
}

/// The character sequences of a list of strings.
pub open spec fn string_views(s: Seq<String>) -> Seq<Seq<char>> {
    s.map_values(|p: String| p@)
}

/// Joins the strings in `parts` with `sep`.
pub fn join_strings(parts: &Vec<String>, sep: &str) -> (s: String)
    ensures
        s@ == join(string_views(parts@), sep@),
{
    let mut s = String::new();
    let ghost views = string_views(parts@);
    let mut i: usize = 0;
    while i < parts.len()
        invariant
            0 <= i <= parts.len(),
            views == string_views(parts@),
            s@ == join(views.take(i as int), sep@),
        decreases parts.len() - i,
    {
        proof {
            lemma_join_push(views.take(i as int), sep@, views[i as int]);
            assert(views.take(i as int).push(views[i as int]) =~= views.take(i + 1));
        }
        if i > 0 {
            s.append(sep);
        }
        s.append(parts[i].as_str());
        i = i + 1;
    }
    assert(views.take(parts.len() as int) =~= views);
    s
}

/// Whether `pat` occurs in `s` starting at index `i`.
pub open spec fn occurs_at(s: Seq<char>, i: int, pat: Seq<char>) -> bool {
    0 <= i && i + pat.len() <= s.len() && s.subrange(i, i + pat.len()) == pat
}

/// The first index at or after `i` where `pat` occurs, or -1.
pub open spec fn first_occ(s: Seq<char>, pat: Seq<char>, i: int) -> int
    decreases s.len() + 1 - i,
{
    if i < 0 || i + pat.len() > s.len() {
        -1
    } else if occurs_at(s, i, pat) {
        i
    } else {
        first_occ(s, pat, i + 1)
    }
}

/// The last index at or before `i` where `pat` occurs, or -1.
pub open spec fn last_occ(s: Seq<char>, pat: Seq<char>, i: int) -> int
    decreases i + 1,
{
    if i < 0 {
        -1
    } else if occurs_at(s, i, pat) {
        i
    } else {
        last_occ(s, pat, i - 1)
    }
}

/// Where `pat` first occurs in `s` (-1 when it does not).
pub open spec fn index_of(s: Seq<char>, pat: Seq<char>) -> int {
    first_occ(s, pat, 0)
}

/// Where `pat` last occurs in `s` (-1 when it does not).
pub open spec fn last_index_of(s: Seq<char>, pat: Seq<char>) -> int {
    last_occ(s, pat, s.len() - pat.len())
}

/// Whether `pat` occurs in `v` at `i`.
pub fn matches_at(v: &[char], i: usize, pat: &[char]) -> (r: bool)
    ensures
        r == occurs_at(v@, i as int, pat@),
{
    if pat.len() > v.len() || i > v.len() - pat.len() {
        return false;
    }
    let mut k: usize = 0;
    while k < pat.len()
        invariant
            0 <= k <= pat.len(),
            i + pat.len() <= v.len(),
            forall|j: int| 0 <= j < k ==> v@[i + j] == pat@[j],
        decreases pat.len() - k,
    {
        if v[i + k] != pat[k] {
            assert(v@.subrange(i as int, i + pat.len())[k as int] != pat@[k as int]);
            return false;
        }
        k = k + 1;
    }
    assert(v@.subrange(i as int, i + pat.len()) =~= pat@);
    true
}

/// The first occurrence of `pat` in `v`.
pub fn find_first(v: &[char], pat: &[char]) -> (r: Option<usize>)
    ensures
        match r {
            Some(i) => i as int == index_of(v@, pat@) && i + pat.len() <= v.len(),
            None => index_of(v@, pat@) == -1,
        },
{
    if pat.len() > v.len() {
        return None;
    }
    let mut i: usize = 0;
    loop
        invariant
            pat.len() <= v.len(),
            0 <= i <= v.len() - pat.len(),
            index_of(v@, pat@) == first_occ(v@, pat@, i as int),
        decreases v.len() - pat.len() - i,
    {
        if matches_at(v, i, pat) {
            return Some(i);
        }
        if i >= v.len() - pat.len() {
            assert(first_occ(v@, pat@, i + 1) == -1);
            return None;
        }
        i = i + 1;
    }
}

/// The last occurrence of `pat` in `v`.
pub fn find_last(v: &[char], pat: &[char]) -> (r: Option<usize>)
    ensures
        match r {
            Some(i) => i as int == last_index_of(v@, pat@) && i + pat.len() <= v.len(),
            None => last_index_of(v@, pat@) == -1,
        },
{
    if pat.len() > v.len() {
        return None;
    }
    let mut i: usize = v.len() - pat.len();
    loop
        invariant
            pat.len() <= v.len(),
            0 <= i <= v.len() - pat.len(),
            last_index_of(v@, pat@) == last_occ(v@, pat@, i as int),
        decreases i,
    {
        if matches_at(v, i, pat) {
            return Some(i);
        }
        if i == 0 {
            assert(last_occ(v@, pat@, -1) == -1);
            return None;
        }
        i = i - 1;
    }
}

/// How many bytes UTF-8 takes for `c`.
pub open spec fn utf8_len(c: char) -> int {
    if (c as u32) < 0x80 { 1 } else if (c as u32) < 0x800 { 2 } else if (c as u32) < 0x10000 { 3 } else { 4 }
}

/// How many bytes UTF-8 takes for `s`.
pub open spec fn utf8_size(s: Seq<char>) -> int
    decreases s.len(),
{
    if s.len() == 0 { 0 } else { utf8_len(s[0]) + utf8_size(s.drop_first()) }
}

/// The number of characters of `s` whose UTF-8 bytes all lie within the
/// first `b` bytes: the character offset of byte offset `b`, rounded down
/// to a character boundary and clamped to the end.
pub open spec fn char_of_byte(s: Seq<char>, b: int) -> int
    decreases s.len(),
{
    if s.len() == 0 || utf8_len(s[0]) > b { 0 } else { 1 + char_of_byte(s.drop_first(), b - utf8_len(s[0])) }
}

/// Whether byte offset `b` falls between two characters of `s` (or at or
/// past its end).
pub open spec fn char_boundary(s: Seq<char>, b: int) -> bool {
    b >= utf8_size(s) || exists|k: int| 0 <= k <= s.len() && #[trigger] utf8_size(s.take(k)) == b
}

pub proof fn lemma_utf8_size_push(s: Seq<char>, c: char)
    ensures
        utf8_size(s.push(c)) == utf8_size(s) + utf8_len(c),
    decreases s.len(),
{
    if s.len() > 0 {
        assert(s.push(c)[0] == s[0]);
        assert(s.push(c).drop_first() =~= s.drop_first().push(c));
        lemma_utf8_size_push(s.drop_first(), c);
        assert(utf8_size(s.push(c)) == utf8_len(s[0]) + utf8_size(s.drop_first().push(c)));
    } else {
        assert(s.push(c)[0] == c);
        assert(s.push(c).drop_first() =~= Seq::<char>::empty());
        assert(utf8_size(Seq::<char>::empty()) == 0);
        assert(utf8_size(s.push(c)) == utf8_len(c) + utf8_size(s.push(c).drop_first()));
    }
}

pub proof fn lemma_utf8_size_bounds(s: Seq<char>)
    ensures
        s.len() <= utf8_size(s) <= 4 * s.len(),
    decreases s.len(),
{
    if s.len() > 0 {
        lemma_utf8_size_bounds(s.drop_first());
    }
}

pub proof fn lemma_char_of_byte_bounds(s: Seq<char>, b: int)
    ensures
        0 <= char_of_byte(s, b) <= s.len(),
        b >= 0 ==> utf8_size(s.take(char_of_byte(s, b))) <= b,
    decreases s.len(),
{
    if s.len() > 0 && utf8_len(s[0]) <= b {
        lemma_char_of_byte_bounds(s.drop_first(), b - utf8_len(s[0]));
        let k = char_of_byte(s.drop_first(), b - utf8_len(s[0]));
        assert(s.take(k + 1).drop_first() =~= s.drop_first().take(k));
    } else {
        assert(s.take(0) =~= Seq::<char>::empty());
    }
}

/// At a byte offset that ends a prefix, that prefix is the character offset.
pub proof fn lemma_char_of_byte_at(s: Seq<char>, k: int)
    requires
        0 <= k <= s.len(),
    ensures
        char_of_byte(s, utf8_size(s.take(k))) == k,
    decreases s.len(),
{
    if k == 0 {
        assert(s.take(0) =~= Seq::<char>::empty());
        if s.len() > 0 {
            lemma_utf8_size_bounds(seq![s[0]]);
        }
    } else {
        assert(s.take(k).drop_first() =~= s.drop_first().take(k - 1));
        lemma_char_of_byte_at(s.drop_first(), k - 1);
    }
}

/// How many bytes UTF-8 takes for `c` (see `utf8_len`).
pub fn utf8_width(c: char) -> (r: usize)
    ensures
        r as int == utf8_len(c),
{
    let n = c as u32;
    if n < 0x80 { 1 } else if n < 0x800 { 2 } else if n < 0x10000 { 3 } else { 4 }
}

/// The character offset of byte offset `b` in `v` (see `char_of_byte`) and
/// the byte offset where that character starts.
pub fn char_index_of_byte(v: &Vec<char>, b: usize) -> (r: (usize, usize))
    ensures
        r.0 as int == char_of_byte(v@, b as int),
        r.1 as int == utf8_size(v@.take(r.0 as int)),
        r.1 <= b,
        r.0 <= v.len(),
{
    let mut k: usize = 0;
    let mut acc: usize = 0;
    assert(v@.subrange(0, v@.len() as int) =~= v@);
    assert(v@.take(0) =~= Seq::<char>::empty());
    while k < v.len() && utf8_width(v[k]) <= b - acc
        invariant
            0 <= k <= v.len(),
            acc <= b,
            acc as int == utf8_size(v@.take(k as int)),
            char_of_byte(v@, b as int) == k + char_of_byte(v@.subrange(k as int, v@.len() as int), b - acc),
        decreases v.len() - k,
    {
        let ghost rest = v@.subrange(k as int, v@.len() as int);
        assert(rest[0] == v@[k as int]);
        assert(rest.drop_first() =~= v@.subrange(k + 1, v@.len() as int));
        proof { lemma_utf8_size_push(v@.take(k as int), v@[k as int]); }
        assert(v@.take(k + 1) =~= v@.take(k as int).push(v@[k as int]));
        acc = acc + utf8_width(v[k]);
        k = k + 1;
    }
    proof {
        let rest = v@.subrange(k as int, v@.len() as int);
        if k < v.len() {
            assert(rest[0] == v@[k as int]);
        }
    }
    (k, acc)
}

} // verus!
