//! Maps lines of generated Rust back to places in Desert source.
use vstd::prelude::*;

verus! {

#[derive(Debug, PartialEq, Eq, Clone)]
pub struct SourceLocation {
    pub file: String,
    pub line: usize,
    pub column: usize,
}

/// A source location as plain values.
pub struct SLoc {
    pub file: Seq<char>,
    pub line: usize,
    pub column: usize,
}

impl View for SourceLocation {
    type V = SLoc;

    open spec fn view(&self) -> SLoc {
        SLoc { file: self.file@, line: self.line, column: self.column }
    }
}

impl SourceLocation {
    /// A copy of this location.
    pub fn copy(&self) -> (r: SourceLocation)
        ensures
            r@ == self@,
    {
        SourceLocation { file: self.file.clone(), line: self.line, column: self.column }
    }
}

struct SourceMapping {
    location: SourceLocation,
    rust_column: usize,
}

/// For each line of generated Rust (0-based), the Desert location it came
/// from and the Rust column that location's column corresponds to.
pub struct SourceMap {
    mappings: Vec<Option<SourceMapping>>,
}

pub open spec fn mapping_view(m: Option<(SLoc, usize)>) -> Option<SLoc> {
    match m {
        Some((l, _)) => Some(l),
        None => None,
    }
}

spec fn entry_view(m: Option<SourceMapping>) -> Option<(SLoc, usize)> {
    match m {
        Some(x) => Some((x.location@, x.rust_column)),
        None => None,
    }
}

impl View for SourceMap {
    type V = Seq<Option<(SLoc, usize)>>;

    closed spec fn view(&self) -> Seq<Option<(SLoc, usize)>> {
        self.mappings@.map_values(|m: Option<SourceMapping>| entry_view(m))
    }
}

/// What recording a mapping makes of the map: the map grows with empty
/// lines up to `rs_line`, and that line maps to `loc` at `rust_column`
/// (at least 1).
pub open spec fn with_mapping(m: Seq<Option<(SLoc, usize)>>, rs_line: int, loc: SLoc, rust_column: usize) -> Seq<Option<(SLoc, usize)>> {
    let grown = if rs_line < m.len() {
        m
    } else {
        m + Seq::new((rs_line + 1 - m.len()) as nat, |i: int| None::<(SLoc, usize)>)
    };
    grown.update(rs_line, Some((loc, if rust_column < 1 { 1usize } else { rust_column })))
}

/// The Desert location for a Rust column on a mapped line: the mapped
/// column moved right by how far `rs_column` lies past the mapping's Rust
/// column (saturating at `usize::MAX`).
pub open spec fn span_location(m: Seq<Option<(SLoc, usize)>>, rs_line: int, rs_column: usize) -> Option<SLoc> {
    if 0 <= rs_line < m.len() {
        match m[rs_line] {
            Some((loc, rc)) => {
                let normalized = if rs_column > rc { rs_column } else { rc };
                let col = loc.column + (normalized - rc);
                Some(SLoc {
                    file: loc.file,
                    line: loc.line,
                    column: if col > usize::MAX { usize::MAX } else { col as usize },
                })
            },
            None => None,
        }
    } else {
        None
    }
}

/// Recording a mapping for a Rust line is what reading that line gives
/// back: the line maps to the recorded location, a span at the recorded
/// Rust column maps to that location exactly, and every other line that
/// was mapped before keeps its mapping.
pub proof fn law_mapping_read_after_write(m: Seq<Option<(SLoc, usize)>>, rs_line: int, loc: SLoc, rust_column: usize, other: int)
    requires
        0 <= rs_line,
    ensures
        mapping_view(with_mapping(m, rs_line, loc, rust_column)[rs_line]) == Some(loc),
        span_location(with_mapping(m, rs_line, loc, rust_column), rs_line, if rust_column < 1 { 1usize } else { rust_column }) == Some(loc),
        0 <= other < m.len() && other != rs_line ==> with_mapping(m, rs_line, loc, rust_column)[other] == m[other],
        with_mapping(m, rs_line, loc, rust_column).len() == if rs_line < m.len() { m.len() as int } else { rs_line + 1 },
{
    let c = if rust_column < 1 { 1usize } else { rust_column };
    let w = with_mapping(m, rs_line, loc, rust_column);
    assert(w[rs_line] == Some((loc, c)));
    let l2 = SLoc { file: loc.file, line: loc.line, column: (loc.column + (c - c)) as usize };
    assert(l2 == loc);
}

/// The map after recording each `(line, location, rust_column)` of
/// `writes`, in order.
pub open spec fn with_mappings(m: Seq<Option<(SLoc, usize)>>, writes: Seq<(int, SLoc, usize)>) -> Seq<Option<(SLoc, usize)>>
    decreases writes.len(),
{
    if writes.len() == 0 {
        m
    } else {
        let w = writes.last();
        with_mapping(with_mappings(m, writes.drop_last()), w.0, w.1, w.2)
    }
}

/// The last mapping recorded for a Rust line is what reading it gives:
/// the line maps to that location, with that Rust column (at least 1), and
/// a span at Rust column `rs_column` maps to the location's column moved
/// right by how far `rs_column` lies past the recorded one (saturating).
pub proof fn law_last_mapping_wins(m: Seq<Option<(SLoc, usize)>>, writes: Seq<(int, SLoc, usize)>, k: int, rs_column: usize)
    requires
        0 <= k < writes.len(),
        writes[k].0 >= 0,
        forall|j: int| k < j < writes.len() ==> writes[j].0 != writes[k].0,
        forall|j: int| 0 <= j < writes.len() ==> writes[j].0 >= 0,
    ensures
        ({
            let r = with_mappings(m, writes);
            let (l, loc, c) = writes[k];
            let rc = if c < 1 { 1usize } else { c };
            let normalized = if rs_column > rc { rs_column } else { rc };
            let col = loc.column + (normalized - rc);
            &&& 0 <= l < r.len()
            &&& r[l] == Some((loc, rc))
            &&& mapping_view(r[l]) == Some(loc)
            &&& span_location(r, l, rs_column) == Some(SLoc {
                file: loc.file,
                line: loc.line,
                column: if col > usize::MAX { usize::MAX } else { col as usize },
            })
        }),
    decreases writes.len(),
{
    let r = with_mappings(m, writes);
    let w = writes.last();
    let prev = with_mappings(m, writes.drop_last());
    if k == writes.len() - 1 {
        assert(r == with_mapping(prev, w.0, w.1, w.2));
    } else {
        let d = writes.drop_last();
        assert forall|j: int| k < j < d.len() implies d[j].0 != d[k].0 by {
            assert(d[j] == writes[j]);
        }
        law_last_mapping_wins(m, d, k, rs_column);
        assert(d[k] == writes[k]);
        assert(w.0 != writes[k].0);
        assert(r == with_mapping(prev, w.0, w.1, w.2));
    }
}

impl SourceMap {
    pub fn new() -> (r: SourceMap)
        ensures
            r@ == Seq::<Option<(SLoc, usize)>>::empty(),
    {
        let r = SourceMap { mappings: Vec::new() };
        assert(r@ =~= Seq::<Option<(SLoc, usize)>>::empty());
        r
    }

    /// Records that Rust line `rs_line` comes from `location`, column for
    /// column from Rust column 1.
    pub fn add_mapping(&mut self, rs_line: usize, location: SourceLocation)
        requires
            rs_line < usize::MAX,
        ensures
            final(self)@ == with_mapping(old(self)@, rs_line as int, location@, 1),
    {
        self.add_mapping_with_rust_column(rs_line, location, 1);
    }

    /// Records that Rust line `rs_line` comes from `location`, whose column
    /// corresponds to Rust column `rust_column` (taken as 1 when 0).
    pub fn add_mapping_with_rust_column(&mut self, rs_line: usize, location: SourceLocation, rust_column: usize)
        requires
            rs_line < usize::MAX,
        ensures
            final(self)@ == with_mapping(old(self)@, rs_line as int, location@, rust_column),
    {
        let ghost old_view = self@;
        let ghost loc = location@;
        if rs_line >= self.mappings.len() {
            while self.mappings.len() <= rs_line
                invariant
                    old_view.len() <= self.mappings@.len() <= rs_line + 1,
                    rs_line < usize::MAX,
                    rs_line >= old_view.len(),
                    self@ == old_view + Seq::new((self.mappings@.len() - old_view.len()) as nat, |i: int| None::<(SLoc, usize)>),
                decreases rs_line + 1 - self.mappings.len(),
            {
                let ghost before = self@;
                self.mappings.push(None);
                assert(entry_view(None) == None::<(SLoc, usize)>);
                assert(self@ =~= before.push(None));
                assert(self@ =~= old_view + Seq::new((self.mappings@.len() - old_view.len()) as nat, |i: int| None::<(SLoc, usize)>));
            }
        }
        let ghost grown = self@;
        let rc = if rust_column < 1 { 1 } else { rust_column };
        self.mappings.set(rs_line, Some(SourceMapping { location, rust_column: rc }));
        assert(self@ =~= grown.update(rs_line as int, Some((loc, rc))));
        assert(self@ =~= with_mapping(old_view, rs_line as int, loc, rust_column));
    }

    /// The Desert location of Rust line `rs_line`, if one was recorded.
    pub fn get_location(&self, rs_line: usize) -> (r: Option<&SourceLocation>)
        ensures
            match r {
                Some(l) => 0 <= rs_line < self@.len() && mapping_view(self@[rs_line as int]) == Some(l@),
                None => !(0 <= rs_line < self@.len()) || self@[rs_line as int] is None,
            },
    {
        if rs_line < self.mappings.len() {
            match &self.mappings[rs_line] {
                Some(m) => Some(&m.location),
                None => None,
            }
        } else {
            None
        }
    }

    /// The Desert location of column `rs_column` on Rust line `rs_line` (see
    /// `span_location`).
    pub fn get_location_for_span(&self, rs_line: usize, rs_column: usize) -> (r: Option<SourceLocation>)
        ensures
            match r {
                Some(l) => span_location(self@, rs_line as int, rs_column) == Some(l@),
                None => span_location(self@, rs_line as int, rs_column) is None,
            },
    {
        if rs_line >= self.mappings.len() {
            return None;
        }
        match &self.mappings[rs_line] {
            None => None,
            Some(m) => {
                let normalized = if rs_column > m.rust_column { rs_column } else { m.rust_column };
                let delta = normalized - m.rust_column;
                let column = m.location.column.saturating_add(delta);
                Some(SourceLocation { file: m.location.file.clone(), line: m.location.line, column })
            },
        }
    }
}

impl Default for SourceMap {
    /// An empty map.
    fn default() -> (r: SourceMap)
        ensures
            r@ == Seq::<Option<(SLoc, usize)>>::empty(),
    {
        SourceMap::new()
    }
}

} // verus!
