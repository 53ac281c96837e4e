//! Change records: what one commit did to one file, and their extraction
//! from unified-diff text.
use vstd::prelude::*;
use crate::pattern::{
    Pattern,
    PatternError,
    any_match,
    matches_any,
    regex_captures,
    regex_compiles,
    regex_groups,
    texts_of,
};

verus! {

/// One commit's change to one file.
pub struct ChangeRecord {
    pub file_path: String,
    /// Names of the functions the change touched, in order of appearance.
    /// They form a set: the extractor lists each name once, and the
    /// statistics count a repeated name once.
    pub functions: Vec<String>,
    /// Position of the commit in the oldest-first history (0 = oldest).
    pub age: u32,
    pub commit_message: String,
}

pub struct RecordView {
    pub file_path: Seq<char>,
    pub functions: Seq<Seq<char>>,
    pub age: int,
    pub commit_message: Seq<char>,
}

impl View for ChangeRecord {
    type V = RecordView;

    open spec fn view(&self) -> RecordView {
        RecordView {
            file_path: self.file_path@,
            functions: texts_of(self.functions@),
            age: self.age as int,
            commit_message: self.commit_message@,
        }
    }
}

pub open spec fn record_views(rs: Seq<ChangeRecord>) -> Seq<RecordView> {
    rs.map_values(|r: ChangeRecord| r@)
}

/// The change records of one commit.
pub struct CommitChanges {
    pub id: String,
    pub records: Vec<ChangeRecord>,
}

// ---------------------------------------------------------------------------
// Lines
/// The pieces of `s` between occurrences of `sep` (one more than there are
/// separators).
pub open spec fn split_on(s: Seq<char>, sep: char) -> Seq<Seq<char>>
    decreases s.len(),
{
    if s.len() == 0 {
        seq![seq![]]
    } else {
        let rest = split_on(s.drop_last(), sep);
        if s.last() == sep {
            rest.push(seq![])
        } else {
            rest.update(rest.len() - 1, rest.last().push(s.last()))
        }
    }
}

pub open spec fn without_cr(line: Seq<char>) -> Seq<char> {
    if line.len() > 0 && line.last() == '\r' {
        line.drop_last()
    } else {
        line
    }
}

/// The lines of `s`: split at `\n`, a `\r` just before the `\n` removed, and
/// no empty line after a final line ending.
pub open spec fn text_lines(s: Seq<char>) -> Seq<Seq<char>> {
    let pieces = split_on(s, '\n');
    let ended = pieces.drop_last().map_values(|l: Seq<char>| without_cr(l));
    if pieces.last().len() == 0 {
        ended
    } else {
        ended.push(pieces.last())
    }
}

/// Relies on str::lines: splits at `\n` and at `\r\n`, without the line
/// endings; a final line ending adds no empty line.
#[verifier::external_body]
fn lines_of(s: &str) -> (r: Vec<String>)
    ensures
        texts_of(r@) == text_lines(s@),
{
    s.lines().map(|l| l.to_string()).collect()
}

// ---------------------------------------------------------------------------
// Classifying lines
/// What one line of a diff says.
pub enum LineKind {
    /// The header of a file's diff, with the file's path.
    FileHeader(String),
    /// A line that looks like a function definition, with its name.
    Function(String),
    Other,
}

pub enum LineKindView {
    FileHeader(Seq<char>),
    Function(Seq<char>),
    Other,
}

impl View for LineKind {
    type V = LineKindView;

    open spec fn view(&self) -> LineKindView {
        match self {
            LineKind::FileHeader(p) => LineKindView::FileHeader(p@),
            LineKind::Function(n) => LineKindView::Function(n@),
            LineKind::Other => LineKindView::Other,
        }
    }
}

pub open spec fn kind_views(ks: Seq<LineKind>) -> Seq<LineKindView> {
    ks.map_values(|k: LineKind| k@)
}

/// The first group from index `k` on that took part in the match.
pub open spec fn first_group_from(groups: Seq<Option<Seq<char>>>, k: int) -> Option<Seq<char>>
    decreases groups.len() - k,
{
    if k < 0 || k >= groups.len() {
        None
    } else if groups[k] is Some {
        groups[k]
    } else {
        first_group_from(groups, k + 1)
    }
}

/// The text a match names: its first participating capture group, or the
/// whole match where no group took part.
pub open spec fn named_text(groups: Seq<Option<Seq<char>>>) -> Seq<char> {
    match first_group_from(groups, 1) {
        Some(t) => t,
        None => if groups.len() > 0 && groups[0] is Some {
            groups[0]->Some_0
        } else {
            seq![]
        },
    }
}

/// What `line` says, given the file-header and function patterns.
pub open spec fn line_kind(header: Seq<char>, function: Seq<char>, line: Seq<char>) -> LineKindView {
    match regex_captures(header, line) {
        Some(g) => LineKindView::FileHeader(named_text(g)),
        None => match regex_captures(function, line) {
            Some(g) => LineKindView::Function(named_text(g)),
            None => LineKindView::Other,
        },
    }
}

/// The file-header pattern used by default: the path after `a/` in a
/// `diff --git` line.
pub open spec fn default_header_source() -> Seq<char> {
    "diff --git a/(.*) b"@
}

/// The function pattern used by default: named `function` declarations and
/// arrow functions assigned to a name, plain or `async`.
pub open spec fn default_function_source() -> Seq<char> {
    "function\\s+([a-zA-Z0-9_]+)\\(+[a-zA-Z0-9_:, ]*\\)|([a-zA-Z0-9]+)\\s*=\\s*\\([a-zA-Z0-9: ]*\\)\\s*=>|([a-zA-Z0-9]+)\\s*=\\s*async\\s*\\([a-zA-Z0-9: ]*\\)\\s*=>"@
}

/// The text a match names, from its capture groups.
pub fn named_text_of(groups: &Vec<Option<String>>) -> (r: String)
    ensures
        r@ == named_text(groups.deep_view()),
{
    let ghost g = groups.deep_view();
    let mut k: usize = 1;
    while k < groups.len()
        invariant
            1 <= k,
            k <= groups@.len() || groups@.len() == 0,
            g == groups.deep_view(),
            first_group_from(g, 1) == first_group_from(g, k as int),
        decreases groups@.len() - k,
    {
        proof {
            assert(g[k as int] == groups@[k as int].deep_view());
        }
        match &groups[k] {
            Some(t) => {
                return t.clone();
            },
            None => {},
        }
        k += 1;
    }
    if groups.len() > 0 {
        proof {
            assert(g[0] == groups@[0].deep_view());
        }
        match &groups[0] {
            Some(t) => {
                return t.clone();
            },
            None => {},
        }
    }
    String::new()
}

/// Recognizes file headers and function definitions in diff lines. Either
/// pattern can be replaced without touching the rest of the pipeline.
pub struct DiffScanner {
    pub header: Pattern,
    pub function: Pattern,
}

impl DiffScanner {
    /// A scanner with the default patterns.
    pub fn new() -> (r: Result<DiffScanner, PatternError>)
        ensures
            r is Ok <==> regex_compiles(default_header_source()) && regex_compiles(
                default_function_source(),
            ),
            r matches Ok(s) ==> s.header@ == default_header_source() && s.function@
                == default_function_source(),
            r matches Err(e) ==> (if regex_compiles(default_header_source()) {
                e.pattern@ == default_function_source()
            } else {
                e.pattern@ == default_header_source()
            }),
    {
        let header = match Pattern::new("diff --git a/(.*) b") {
            Ok(p) => p,
            Err(e) => {
                return Err(e);
            },
        };
        let function = match Pattern::new(
            "function\\s+([a-zA-Z0-9_]+)\\(+[a-zA-Z0-9_:, ]*\\)|([a-zA-Z0-9]+)\\s*=\\s*\\([a-zA-Z0-9: ]*\\)\\s*=>|([a-zA-Z0-9]+)\\s*=\\s*async\\s*\\([a-zA-Z0-9: ]*\\)\\s*=>",
        ) {
            Ok(p) => p,
            Err(e) => {
                return Err(e);
            },
        };
        Ok(DiffScanner { header, function })
    }

    /// What `line` says.
    pub fn classify(&self, line: &str) -> (r: LineKind)
        ensures
            r@ == line_kind(self.header@, self.function@, line@),
    {
        match regex_groups(&self.header, line) {
            Some(groups) => LineKind::FileHeader(named_text_of(&groups)),
            None => match regex_groups(&self.function, line) {
                Some(groups) => LineKind::Function(named_text_of(&groups)),
                None => LineKind::Other,
            },
        }
    }

    /// The change records of one commit's diff text: one per file header,
    /// holding the functions found below it.
    pub fn scan(&self, diff: &str, age: u32, message: &str) -> (r: Vec<ChangeRecord>)
        ensures
            record_views(r@) == collected(
                text_lines(diff@).map_values(
                    |l: Seq<char>| line_kind(self.header@, self.function@, l),
                ),
                age as int,
                message@,
            ),
    {
        let lines = lines_of(diff);
        let ghost want = text_lines(diff@).map_values(
            |l: Seq<char>| line_kind(self.header@, self.function@, l),
        );
        let mut kinds: Vec<LineKind> = Vec::new();
        let mut i: usize = 0;
        while i < lines.len()
            invariant
                i <= lines@.len(),
                texts_of(lines@) == text_lines(diff@),
                want == text_lines(diff@).map_values(
                    |l: Seq<char>| line_kind(self.header@, self.function@, l),
                ),
                kind_views(kinds@) == want.take(i as int),
            decreases lines@.len() - i,
        {
            let k = self.classify(lines[i].as_str());
            let ghost before = kinds@;
            kinds.push(k);
            proof {
                assert(texts_of(lines@)[i as int] == lines@[i as int]@);
                assert(kind_views(kinds@) =~= kind_views(before).push(k@));
            }
            i += 1;
            proof {
                assert(kind_views(kinds@) =~= want.take(i as int));
            }
        }
        proof {
            assert(want.take(i as int) =~= want);
        }
        collect_changes(&kinds, age, message)
    }
}

// ---------------------------------------------------------------------------
// Collecting records
/// Records finished so far, and the file being read with the functions
/// found in it.
pub struct ScanState {
    pub done: Seq<RecordView>,
    pub current: Option<(Seq<char>, Seq<Seq<char>>)>,
}

/// The records of `s` with the file being read closed.
pub open spec fn flushed(s: ScanState, age: int, message: Seq<char>) -> Seq<RecordView> {
    match s.current {
        Some((path, functions)) => s.done.push(
            RecordView { file_path: path, functions, age, commit_message: message },
        ),
        None => s.done,
    }
}

pub open spec fn scan_step(s: ScanState, k: LineKindView, age: int, message: Seq<char>) -> ScanState {
    match k {
        LineKindView::FileHeader(path) => ScanState {
            done: flushed(s, age, message),
            current: Some((path, seq![])),
        },
        LineKindView::Function(name) => match s.current {
            Some((path, functions)) => if functions.contains(name) {
                s
            } else {
                ScanState { current: Some((path, functions.push(name))), ..s }
            },
            None => s,
        },
        LineKindView::Other => s,
    }
}

pub open spec fn scan_kinds(ks: Seq<LineKindView>, age: int, message: Seq<char>) -> ScanState
    decreases ks.len(),
{
    if ks.len() == 0 {
        ScanState { done: seq![], current: None }
    } else {
        scan_step(scan_kinds(ks.drop_last(), age, message), ks.last(), age, message)
    }
}

/// The change records that the classified lines `ks` of one diff describe.
pub open spec fn collected(ks: Seq<LineKindView>, age: int, message: Seq<char>) -> Seq<RecordView> {
    flushed(scan_kinds(ks, age, message), age, message)
}

fn contains_text(items: &Vec<String>, t: &String) -> (r: bool)
    ensures
        r == texts_of(items@).contains(t@),
{
    let mut i: usize = 0;
    while i < items.len()
        invariant
            i <= items@.len(),
            forall|k: int| 0 <= k < i ==> (#[trigger] items@[k])@ != t@,
        decreases items@.len() - i,
    {
        if items[i] == *t {
            proof {
                assert(texts_of(items@)[i as int] == t@);
            }
            return true;
        }
        i += 1;
    }
    proof {
        if texts_of(items@).contains(t@) {
            let k = choose|k: int| 0 <= k < items@.len() && texts_of(items@)[k] == t@;
            assert(items@[k]@ != t@);
        }
    }
    false
}

/// Groups classified diff lines into change records: a file header closes
/// the file being read and opens a new one; a function name is added to the
/// open file unless already there; names before any header are dropped.
pub fn collect_changes(lines: &Vec<LineKind>, age: u32, message: &str) -> (r: Vec<ChangeRecord>)
    ensures
        record_views(r@) == collected(kind_views(lines@), age as int, message@),
{
    let ghost ks = kind_views(lines@);
    let mut done: Vec<ChangeRecord> = Vec::new();
    let mut path: Option<String> = None;
    let mut functions: Vec<String> = Vec::new();
    let mut i: usize = 0;
    while i < lines.len()
        invariant
            i <= lines@.len(),
            ks == kind_views(lines@),
            ({
                let s = scan_kinds(ks.take(i as int), age as int, message@);
                &&& record_views(done@) == s.done
                &&& match path {
                    Some(p) => s.current == Some((p@, texts_of(functions@))),
                    None => s.current is None,
                }
            }),
        decreases lines@.len() - i,
    {
        proof {
            assert(ks.take(i + 1).drop_last() =~= ks.take(i as int));
            assert(ks[i as int] == lines@[i as int]@);
        }
        match &lines[i] {
            LineKind::FileHeader(p) => {
                let previous = path.take();
                match previous {
                    Some(q) => {
                        let mut fs: Vec<String> = Vec::new();
                        std::mem::swap(&mut fs, &mut functions);
                        let ghost before = done@;
                        done.push(
                            ChangeRecord {
                                file_path: q,
                                functions: fs,
                                age,
                                commit_message: message.to_owned(),
                            },
                        );
                        proof {
                            assert(record_views(done@) =~= record_views(before).push(
                                done@[done@.len() - 1]@,
                            ));
                        }
                    },
                    None => {
                        functions = Vec::new();
                    },
                }
                path = Some(p.clone());
                proof {
                    assert(texts_of(functions@) =~= Seq::<Seq<char>>::empty());
                }
            },
            LineKind::Function(n) => {
                if path.is_some() {
                    if !contains_text(&functions, n) {
                        let ghost before = functions@;
                        functions.push(n.clone());
                        proof {
                            assert(texts_of(functions@) =~= texts_of(before).push(n@));
                        }
                    }
                }
            },
            LineKind::Other => {},
        }
        i += 1;
    }
    proof {
        assert(ks.take(i as int) =~= ks);
    }
    match path {
        Some(q) => {
            let ghost before = done@;
            done.push(
                ChangeRecord { file_path: q, functions, age, commit_message: message.to_owned() },
            );
            proof {
                assert(record_views(done@) =~= record_views(before).push(done@[done@.len() - 1]@));
            }
        },
        None => {},
    }
    done
}

// ---------------------------------------------------------------------------
// Excluded files
/// The records of `rs` whose path no exclusion pattern matches, in order.
pub open spec fn kept(rs: Seq<ChangeRecord>, exclusions: Seq<Pattern>) -> Seq<ChangeRecord>
    decreases rs.len(),
{
    if rs.len() == 0 {
        seq![]
    } else {
        let before = kept(rs.drop_last(), exclusions);
        if any_match(exclusions, rs.last().file_path@) {
            before
        } else {
            before.push(rs.last())
        }
    }
}

/// Removes the records whose path one of `exclusions` matches.
pub fn drop_excluded(records: &mut Vec<ChangeRecord>, exclusions: &Vec<Pattern>)
    ensures
        final(records)@ == kept(old(records)@, exclusions@),
{
    let ghost start = old(records)@;
    let mut i: usize = 0;
    let ghost mut j: int = 0;
    while i < records.len()
        invariant
            0 <= j <= start.len(),
            i <= records@.len(),
            i == kept(start.take(j), exclusions@).len(),
            records@ == kept(start.take(j), exclusions@) + start.skip(j),
        decreases records@.len() - i,
    {
        proof {
            assert(records@[i as int] == start[j]);
            assert(start.take(j + 1).drop_last() =~= start.take(j));
            assert(start.take(j + 1).last() == start[j]);
        }
        if matches_any(exclusions, records[i].file_path.as_str()) {
            let _ = records.remove(i);
            proof {
                j = j + 1;
                assert(records@ =~= kept(start.take(j), exclusions@) + start.skip(j));
            }
        } else {
            i += 1;
            proof {
                j = j + 1;
                assert(records@ =~= kept(start.take(j), exclusions@) + start.skip(j));
            }
        }
    }
    proof {
        assert(start.skip(j).len() == 0);
        assert(start.take(j) =~= start);
        assert(records@ =~= kept(start, exclusions@));
    }
}

/// Removes, from every commit of `history`, the records whose path one of
/// `exclusions` matches.
pub fn drop_excluded_files(history: &mut Vec<CommitChanges>, exclusions: &Vec<Pattern>)
    ensures
        final(history)@.len() == old(history)@.len(),
        forall|c: int|
            0 <= c < old(history)@.len() ==> (#[trigger] final(history)@[c]).id == old(history)@[c].id
                && final(history)@[c].records@ == kept(old(history)@[c].records@, exclusions@),
{
    let ghost start = old(history)@;
    let mut c: usize = 0;
    while c < history.len()
        invariant
            c <= history@.len(),
            history@.len() == start.len(),
            forall|k: int|
                0 <= k < c ==> (#[trigger] history@[k]).id == start[k].id && history@[k].records@
                    == kept(start[k].records@, exclusions@),
            forall|k: int| c <= k < start.len() ==> #[trigger] history@[k] == start[k],
        decreases history@.len() - c,
    {
        drop_excluded(&mut history[c].records, exclusions);
        c += 1;
    }
}

} // verus!
