//! Programs that span several files: the order in which an import graph
//! is loaded, the combined text, and the file and line each line of it
//! came from.
use vstd::prelude::*;
use crate::ast::{Program, SKind, SStmt, StatementKind, lemma_stmts_view, stmt_view, stmts_view};
use crate::imports::{rust_use_from_import_path, spec_use_path};
use crate::sourcemap::{SLoc, SourceLocation};
use crate::text::{chars_of, count_nl, join, join_strings, push_char, push_str, string_views, text_eq};

verus! {

/// How many lines `str::lines` yields for `s`: one per line break, and one
/// more for text after the last line break.
pub open spec fn line_count(s: Seq<char>) -> int {
    count_nl(s) + (if s.len() > 0 && s.last() != '\n' { 1int } else { 0int })
}

/// Where each line of one file's text comes from: the file, the line's
/// 1-based number, column 1.
pub open spec fn file_origins(file: Seq<char>, content: Seq<char>) -> Seq<SLoc> {
    Seq::new(line_count(content) as nat, |i: int| SLoc { file, line: (i + 1) as usize, column: 1 })
}

pub open spec fn locs_view(v: Seq<SourceLocation>) -> Seq<SLoc> {
    v.map_values(|l: SourceLocation| l@)
}

proof fn lemma_count_nl_bound(s: Seq<char>)
    ensures
        0 <= count_nl(s) <= s.len(),
    decreases s.len(),
{
    if s.len() > 0 {
        lemma_count_nl_bound(s.drop_last());
    }
}

/// The origin of each line of one file (see `file_origins`).
pub fn line_origins_for_file(file: &str, content: &str) -> (r: Vec<SourceLocation>)
    ensures
        locs_view(r@) == file_origins(file@, content@),
{
    let v = chars_of(content);
    let mut n: usize = 0;
    let mut i: usize = 0;
    while i < v.len()
        invariant
            0 <= i <= v.len(),
            v@ == content@,
            n as int == count_nl(v@.take(i as int)),
            n <= i,
        decreases v.len() - i,
    {
        assert(v@.take(i + 1).drop_last() =~= v@.take(i as int));
        if v[i] == '\n' {
            n = n + 1;
        }
        i = i + 1;
    }
    assert(v@.take(i as int) =~= v@);
    if v.len() > 0 && v[v.len() - 1] != '\n' {
        proof { lemma_count_nl_bound(v@.drop_last()); }
        n = n + 1;
    }
    let ghost want = file_origins(file@, content@);
    let mut out: Vec<SourceLocation> = Vec::new();
    let mut k: usize = 0;
    while k < n
        invariant
            0 <= k <= n,
            n as int == line_count(content@),
            want == file_origins(file@, content@),
            locs_view(out@) == want.take(k as int),
        decreases n - k,
    {
        let ghost o0 = locs_view(out@);
        let loc = SourceLocation { file: file.to_owned(), line: k + 1, column: 1 };
        assert(loc@ == want[k as int]);
        out.push(loc);
        assert(locs_view(out@) =~= o0.push(loc@));
        assert(want.take(k + 1) =~= want.take(k as int).push(want[k as int]));
        k = k + 1;
    }
    assert(want.take(k as int) =~= want);
    out
}

/// What goes between the text so far and the next file's text: a line
/// break, unless the text is empty or already ends with one.
pub open spec fn separator(s: Seq<char>) -> Seq<char> {
    if s.len() > 0 && s.last() != '\n' { seq!['\n'] } else { seq![] }
}

/// The files' texts joined in order (see `separator`).
pub open spec fn combined(pieces: Seq<Seq<char>>) -> Seq<char>
    decreases pieces.len(),
{
    if pieces.len() == 0 {
        seq![]
    } else {
        let prev = combined(pieces.drop_last());
        prev + separator(prev) + pieces.last()
    }
}

/// The line origins of all files, in order.
pub open spec fn all_origins(files: Seq<Seq<char>>, pieces: Seq<Seq<char>>) -> Seq<SLoc>
    decreases pieces.len(),
{
    if pieces.len() == 0 || files.len() == 0 {
        seq![]
    } else {
        all_origins(files.drop_last(), pieces.drop_last()) + file_origins(files.last(), pieces.last())
    }
}

/// The text of a program made of several files, given each file's
/// display name and text in load order, with the origin of each of its
/// lines.
pub fn build_input_source(files: &Vec<String>, pieces: &Vec<String>) -> (r: (String, Vec<SourceLocation>))
    requires
        files.len() == pieces.len(),
    ensures
        r.0@ == combined(string_views(pieces@)),
        locs_view(r.1@) == all_origins(string_views(files@), string_views(pieces@)),
{
    let ghost fv = string_views(files@);
    let ghost pv = string_views(pieces@);
    let mut content = String::new();
    let mut origins: Vec<SourceLocation> = Vec::new();
    let mut ends_open = false;
    let mut i: usize = 0;
    assert(pv.take(0) =~= Seq::<Seq<char>>::empty());
    assert(fv.take(0) =~= Seq::<Seq<char>>::empty());
    assert(locs_view(origins@) =~= Seq::<SLoc>::empty());
    while i < pieces.len()
        invariant
            0 <= i <= pieces.len(),
            files.len() == pieces.len(),
            fv == string_views(files@),
            pv == string_views(pieces@),
            content@ == combined(pv.take(i as int)),
            ends_open == (content@.len() > 0 && content@.last() != '\n'),
            locs_view(origins@) == all_origins(fv.take(i as int), pv.take(i as int)),
        decreases pieces.len() - i,
    {
        let ghost c0 = content@;
        assert(pv.take(i + 1).drop_last() =~= pv.take(i as int));
        assert(fv.take(i + 1).drop_last() =~= fv.take(i as int));
        if ends_open {
            push_char(&mut content, '\n');
        }
        assert(content@ == c0 + separator(c0));
        let v = chars_of(pieces[i].as_str());
        let mut j: usize = 0;
        let ghost c1 = content@;
        while j < v.len()
            invariant
                0 <= j <= v.len(),
                content@ == c1 + v@.take(j as int),
            decreases v.len() - j,
        {
            push_char(&mut content, v[j]);
            assert(c1 + v@.take(j + 1) =~= (c1 + v@.take(j as int)).push(v@[j as int]));
            j = j + 1;
        }
        assert(v@.take(j as int) =~= v@);
        ends_open = v.len() > 0 && v[v.len() - 1] != '\n';
        let mut more = line_origins_for_file(files[i].as_str(), pieces[i].as_str());
        let ghost o0 = locs_view(origins@);
        let ghost mv = locs_view(more@);
        origins.append(&mut more);
        assert(locs_view(origins@) =~= o0 + mv);
        i = i + 1;
    }
    assert(pv.take(i as int) =~= pv);
    assert(fv.take(i as int) =~= fv);
    (content, origins)
}

/// The paths of a program's imports of other Desert files, in order
/// (Rust imports are not files).
pub open spec fn import_targets(s: Seq<SStmt>) -> Seq<Seq<char>>
    decreases s.len(),
{
    if s.len() == 0 {
        seq![]
    } else {
        let prev = import_targets(s.drop_last());
        match s.last().kind {
            SKind::Import(path, _) => if spec_use_path(path) is None { prev.push(path) } else { prev },
            _ => prev,
        }
    }
}

/// The files a program imports (see `import_targets`).
pub fn file_imports(program: &Program) -> (r: Vec<String>)
    ensures
        string_views(r@) == import_targets(stmts_view(program.statements@)),
{
    let stmts = &program.statements;
    let ghost sv = stmts_view(stmts@);
    proof { lemma_stmts_view(stmts@); }
    let mut out: Vec<String> = Vec::new();
    let mut i: usize = 0;
    assert(sv.take(0) =~= Seq::<SStmt>::empty());
    assert(string_views(out@) =~= Seq::<Seq<char>>::empty());
    while i < stmts.len()
        invariant
            0 <= i <= stmts.len(),
            sv == stmts_view(stmts@),
            sv.len() == stmts.len(),
            forall|j: int| 0 <= j < stmts.len() ==> #[trigger] sv[j] == stmt_view(stmts@[j]),
            string_views(out@) == import_targets(sv.take(i as int)),
        decreases stmts.len() - i,
    {
        assert(sv.take(i + 1).drop_last() =~= sv.take(i as int));
        assert(sv.take(i + 1).last() == stmt_view(stmts@[i as int]));
        if let StatementKind::Import { path, .. } = &stmts[i].kind {
            if rust_use_from_import_path(path.as_str()).is_none() {
                let ghost o0 = string_views(out@);
                out.push(path.clone());
                assert(string_views(out@) =~= o0.push(path@));
            }
        }
        i = i + 1;
    }
    assert(sv.take(i as int) =~= sv);
    out
}

/// The report of an import cycle: the files from the first occurrence of
/// `file` among those being loaded, then `file` again.
pub open spec fn cycle_message(loading: Seq<Seq<char>>, k: int, file: Seq<char>) -> Seq<char> {
    "import cycle detected: "@ + join(loading.subrange(k, loading.len() as int).push(file), " -> "@)
}

/// Whether loading `file` closes a cycle through the files being loaded.
pub fn check_import_cycle(file: &str, loading: &Vec<String>) -> (r: Result<(), String>)
    ensures
        match r {
            Ok(_) => !string_views(loading@).contains(file@),
            Err(m) => exists|k: int| 0 <= k < loading.len()
                && #[trigger] string_views(loading@)[k] == file@
                && (forall|j: int| 0 <= j < k ==> string_views(loading@)[j] != file@)
                && m@ == cycle_message(string_views(loading@), k, file@),
        },
{
    let ghost lv = string_views(loading@);
    let mut i: usize = 0;
    while i < loading.len()
        invariant
            0 <= i <= loading.len(),
            lv == string_views(loading@),
            forall|j: int| 0 <= j < i ==> lv[j] != file@,
        decreases loading.len() - i,
    {
        assert(lv[i as int] == loading@[i as int]@);
        if text_eq(loading[i].as_str(), file) {
            let mut chain: Vec<String> = Vec::new();
            let mut j: usize = i;
            assert(string_views(chain@) =~= lv.subrange(i as int, i as int));
            while j < loading.len()
                invariant
                    i <= j <= loading.len(),
                    lv == string_views(loading@),
                    string_views(chain@) == lv.subrange(i as int, j as int),
                decreases loading.len() - j,
            {
                let ghost c0 = string_views(chain@);
                let c = loading[j].clone();
                assert(c@ == lv[j as int]);
                chain.push(c);
                assert(string_views(chain@) =~= c0.push(lv[j as int]));
                assert(lv.subrange(i as int, j + 1) =~= lv.subrange(i as int, j as int).push(lv[j as int]));
                j = j + 1;
            }
            let ghost c1 = string_views(chain@);
            chain.push(file.to_owned());
            assert(string_views(chain@) =~= lv.subrange(i as int, lv.len() as int).push(file@));
            let mut m = "import cycle detected: ".to_owned();
            let joined = join_strings(&chain, " -> ");
            push_str(&mut m, joined.as_str());
            return Err(m);
        }
        i = i + 1;
    }
    Ok(())
}

/// The depth-first walk of an import graph: the files being loaded, from
/// the entry inwards, and the files done, each after the files it imports.
pub struct ImportGraph {
    loading: Vec<String>,
    ordered: Vec<String>,
}

impl ImportGraph {
    pub closed spec fn loading_view(&self) -> Seq<Seq<char>> {
        string_views(self.loading@)
    }

    pub closed spec fn order_view(&self) -> Seq<Seq<char>> {
        string_views(self.ordered@)
    }

    /// No file is done twice or loaded twice, and none is both.
    pub open spec fn wf(&self) -> bool {
        &&& self.order_view().no_duplicates()
        &&& self.loading_view().no_duplicates()
        &&& forall|f: Seq<char>| self.order_view().contains(f) ==> !self.loading_view().contains(f)
    }

    /// An empty walk.
    pub fn new() -> (r: Self)
        ensures
            r.wf(),
            r.loading_view() == Seq::<Seq<char>>::empty(),
            r.order_view() == Seq::<Seq<char>>::empty(),
    {
        let r = ImportGraph { loading: Vec::new(), ordered: Vec::new() };
        assert(r.loading_view() =~= Seq::<Seq<char>>::empty());
        assert(r.order_view() =~= Seq::<Seq<char>>::empty());
        r
    }

    /// Starts loading `file`: `Ok(false)` when it is already done, an
    /// error when it is being loaded (an import cycle), else `Ok(true)`
    /// with `file` now being loaded.
    #[verifier::loop_isolation(false)]
    pub fn enter(&mut self, file: &str) -> (r: Result<bool, String>)
        requires
            old(self).wf(),
        ensures
            final(self).wf(),
            final(self).order_view() == old(self).order_view(),
            match r {
                Ok(true) => !old(self).order_view().contains(file@) && !old(self).loading_view().contains(file@)
                    && final(self).loading_view() == old(self).loading_view().push(file@),
                Ok(false) => old(self).order_view().contains(file@) && final(self).loading_view() == old(self).loading_view(),
                Err(m) => !old(self).order_view().contains(file@)
                    && final(self).loading_view() == old(self).loading_view()
                    && exists|k: int| 0 <= k < old(self).loading_view().len()
                        && #[trigger] old(self).loading_view()[k] == file@
                        && (forall|j: int| 0 <= j < k ==> old(self).loading_view()[j] != file@)
                        && m@ == cycle_message(old(self).loading_view(), k, file@),
            },
    {
        let mut i: usize = 0;
        while i < self.ordered.len()
            invariant
                0 <= i <= self.ordered.len(),
                forall|j: int| 0 <= j < i ==> self.order_view()[j] != file@,
            decreases self.ordered.len() - i,
        {
            assert(self.order_view()[i as int] == self.ordered@[i as int]@);
            if text_eq(self.ordered[i].as_str(), file) {
                return Ok(false);
            }
            i = i + 1;
        }
        check_import_cycle(file, &self.loading)?;
        let ghost l0 = self.loading_view();
        self.loading.push(file.to_owned());
        assert(self.loading_view() =~= l0.push(file@));
        proof {
            assert forall|a: int, b: int| 0 <= a < b < self.loading_view().len() implies self.loading_view()[a] != self.loading_view()[b] by {
                if b == l0.len() {
                    assert(l0.contains(l0[a]));
                }
            }
            assert forall|f: Seq<char>| self.order_view().contains(f) implies !self.loading_view().contains(f) by {
                if self.loading_view().contains(f) {
                    let q = choose|q: int| 0 <= q < self.loading_view().len() && self.loading_view()[q] == f;
                    if q < l0.len() {
                        assert(l0.contains(f));
                    }
                }
            }
        }
        Ok(true)
    }

    /// Finishes the file loaded last: it is done, after everything it
    /// imports.
    pub fn leave(&mut self)
        requires
            old(self).wf(),
            old(self).loading_view().len() > 0,
        ensures
            final(self).wf(),
            final(self).loading_view() == old(self).loading_view().drop_last(),
            final(self).order_view() == old(self).order_view().push(old(self).loading_view().last()),
    {
        let ghost l0 = self.loading_view();
        let ghost o0 = self.order_view();
        let f = self.loading.pop().unwrap();
        assert(self.loading_view() =~= l0.drop_last());
        assert(f@ == l0.last());
        self.ordered.push(f);
        assert(self.order_view() =~= o0.push(l0.last()));
        proof {
            assert(l0.contains(l0.last()));
            assert(!o0.contains(l0.last()));
            assert forall|a: int, b: int| 0 <= a < b < self.order_view().len() implies self.order_view()[a] != self.order_view()[b] by {
                if b == o0.len() {
                    assert(o0.contains(o0[a]));
                }
            }
            assert forall|a: int, b: int| 0 <= a < b < self.loading_view().len() implies self.loading_view()[a] != self.loading_view()[b] by {
                assert(l0[a] != l0[b]);
            }
            assert forall|g: Seq<char>| self.order_view().contains(g) implies !self.loading_view().contains(g) by {
                if self.loading_view().contains(g) {
                    let q = choose|q: int| 0 <= q < self.loading_view().len() && self.loading_view()[q] == g;
                    assert(l0[q] == g);
                    assert(l0.contains(g));
                    if g == l0.last() {
                        assert(l0[q] == l0[l0.len() - 1]);
                    } else {
                        let p = choose|p: int| 0 <= p < self.order_view().len() && self.order_view()[p] == g;
                        assert(o0[p] == g);
                        assert(o0.contains(g));
                    }
                }
            }
        }
    }

    /// How many files are being loaded.
    pub fn loading_depth(&self) -> (r: usize)
        ensures
            r == self.loading_view().len(),
    {
        self.loading.len()
    }

    /// The files done, in the order they finished.
    pub fn into_order(self) -> (r: Vec<String>)
        ensures
            string_views(r@) == self.order_view(),
    {
        self.ordered
    }
}

/// A walk lists each file at most once in its load order.
pub proof fn law_load_order_unique(g: ImportGraph)
    requires
        g.wf(),
    ensures
        g.order_view().no_duplicates(),
{
}

/// `-` replaced by `_` throughout.
pub open spec fn underscored(s: Seq<char>) -> Seq<char> {
    s.map_values(|c: char| if c == '-' { '_' } else { c })
}

/// The package name a new project gets from its directory's name:
/// the name with `-` replaced by `_`, or `desert_app` when there is none.
pub fn project_name(dir_name: Option<&str>) -> (r: String)
    ensures
        r@ == match dir_name {
            Some(n) => if n@.len() > 0 { underscored(n@) } else { "desert_app"@ },
            None => "desert_app"@,
        },
{
    let n = match dir_name {
        Some(n) => n,
        None => return "desert_app".to_owned(),
    };
    let v = chars_of(n);
    if v.len() == 0 {
        return "desert_app".to_owned();
    }
    let mut out = String::new();
    let mut i: usize = 0;
    while i < v.len()
        invariant
            0 <= i <= v.len(),
            v@ == n@,
            out@ == underscored(v@.take(i as int)),
        decreases v.len() - i,
    {
        push_char(&mut out, if v[i] == '-' { '_' } else { v[i] });
        assert(underscored(v@.take(i + 1)) =~= underscored(v@.take(i as int)).push(if v@[i as int] == '-' { '_' } else { v@[i as int] }));
        i = i + 1;
    }
    assert(v@.take(i as int) =~= v@);
    out
}

/// The manifest of a new project named `name`, whose entry is
/// `src/main.ds`.
pub fn manifest_text(name: &str) -> (r: String)
    ensures
        r@ == "[package]\nname = \""@ + name@ + "\"\nentry = \"src/main.ds\"\n"@,
{
    let mut m = "[package]\nname = \"".to_owned();
    push_str(&mut m, name);
    push_str(&mut m, "\"\nentry = \"src/main.ds\"\n");
    m
}

/// The entry file of a project, relative to its root: with a manifest, its
/// `entry`, or `src/main.ds` when it names none; without one, `src/main.ds`
/// when that file exists, else `main.ds` when it exists, else none.
pub open spec fn entry_choice(manifest: Option<Option<Seq<char>>>, src_main_exists: bool, main_exists: bool) -> Option<Seq<char>> {
    match manifest {
        Some(Some(e)) => Some(e),
        Some(None) => Some("src/main.ds"@),
        None => if src_main_exists {
            Some("src/main.ds"@)
        } else if main_exists {
            Some("main.ds"@)
        } else {
            None
        },
    }
}

/// The entry file of a project (see `entry_choice`): `manifest` is the
/// manifest's `entry` when the project has a manifest.
pub fn project_entry(manifest: Option<Option<&str>>, src_main_exists: bool, main_exists: bool) -> (r: Option<String>)
    ensures
        match r {
            Some(e) => entry_choice(
                match manifest { Some(Some(m)) => Some(Some(m@)), Some(None) => Some(None), None => None },
                src_main_exists,
                main_exists,
            ) == Some(e@),
            None => entry_choice(
                match manifest { Some(Some(m)) => Some(Some(m@)), Some(None) => Some(None), None => None },
                src_main_exists,
                main_exists,
            ) is None,
        },
{
    match manifest {
        Some(Some(e)) => Some(e.to_owned()),
        Some(None) => Some("src/main.ds".to_owned()),
        None => {
            if src_main_exists {
                Some("src/main.ds".to_owned())
            } else if main_exists {
                Some("main.ds".to_owned())
            } else {
                None
            }
        },
    }
}

} // verus!
