//! Per-file and per-function statistics, built from a mined history with a
//! train/evaluate split at an age cutoff.
//!
//! Aged counters are kept in hundredths: a commit at age `a` of a history
//! whose newest commit has age `m` adds `round(100 * a / m)`.
use vstd::prelude::*;
use crate::history::{ChangeRecord, CommitChanges};
use crate::pattern::{Pattern, any_match, matches_any, texts_of};

verus! {

/// Change counters shared by files and functions.
#[derive(Clone, Copy)]
pub struct Tally {
    /// Number of pre-cutoff changes.
    pub freq_counter: u64,
    /// Number of pre-cutoff changes whose commit message marks a bug fix.
    pub bug_counter: u64,
    /// Sum of the age weights of pre-cutoff changes, in hundredths.
    pub aged_freq_counter: u64,
    /// Sum of the age weights of pre-cutoff bug-fix changes, in hundredths.
    pub aged_bug_freq_counter: u64,
    pub oldest_age: u32,
    pub newest_age: u32,
}

pub struct TallyView {
    pub freq_counter: int,
    pub bug_counter: int,
    pub aged_freq_counter: int,
    pub aged_bug_freq_counter: int,
    pub oldest_age: int,
    pub newest_age: int,
}

impl View for Tally {
    type V = TallyView;

    open spec fn view(&self) -> TallyView {
        TallyView {
            freq_counter: self.freq_counter as int,
            bug_counter: self.bug_counter as int,
            aged_freq_counter: self.aged_freq_counter as int,
            aged_bug_freq_counter: self.aged_bug_freq_counter as int,
            oldest_age: self.oldest_age as int,
            newest_age: self.newest_age as int,
        }
    }
}

/// Statistics of one function within one file.
pub struct FunctionStats {
    pub name: String,
    pub tally: Tally,
    /// Post-cutoff bug-fix commits that touched this function.
    pub post_cutoff_bugfix_count: u64,
}

pub struct FunctionStatsView {
    pub name: Seq<char>,
    pub tally: TallyView,
    pub post_cutoff_bugfix_count: int,
}

impl View for FunctionStats {
    type V = FunctionStatsView;

    open spec fn view(&self) -> FunctionStatsView {
        FunctionStatsView {
            name: self.name@,
            tally: self.tally@,
            post_cutoff_bugfix_count: self.post_cutoff_bugfix_count as int,
        }
    }
}

/// Statistics of one file.
pub struct FileStats {
    pub name: String,
    pub tally: Tally,
    /// The file's functions, in order of first observation, names unique.
    pub functions: Vec<FunctionStats>,
    /// Post-cutoff bug-fix touches of the file's known functions.
    pub post_cutoff_bugfix_count: u64,
    /// Post-cutoff bug-fix commits that touched the file.
    pub post_cutoff_bugfix_commit_count: u64,
}

pub struct FileStatsView {
    pub name: Seq<char>,
    pub tally: TallyView,
    pub functions: Seq<FunctionStatsView>,
    pub post_cutoff_bugfix_count: int,
    pub post_cutoff_bugfix_commit_count: int,
}

pub open spec fn function_views(fs: Seq<FunctionStats>) -> Seq<FunctionStatsView> {
    fs.map_values(|f: FunctionStats| f@)
}

impl View for FileStats {
    type V = FileStatsView;

    open spec fn view(&self) -> FileStatsView {
        FileStatsView {
            name: self.name@,
            tally: self.tally@,
            functions: function_views(self.functions@),
            post_cutoff_bugfix_count: self.post_cutoff_bugfix_count as int,
            post_cutoff_bugfix_commit_count: self.post_cutoff_bugfix_commit_count as int,
        }
    }
}

/// Statistics of every file seen before the cutoff.
pub struct StatisticsModel {
    /// The files, in order of first observation, names unique.
    pub files: Vec<FileStats>,
    /// Age of the newest commit of the history.
    pub max_age: u32,
    /// Post-cutoff bug-fix commits on files known before the cutoff.
    pub total_post_cutoff_bugfixes: u64,
}

pub struct ModelView {
    pub files: Seq<FileStatsView>,
    pub max_age: int,
    pub total_post_cutoff_bugfixes: int,
}

pub open spec fn file_views(fs: Seq<FileStats>) -> Seq<FileStatsView> {
    fs.map_values(|f: FileStats| f@)
}

impl View for StatisticsModel {
    type V = ModelView;

    open spec fn view(&self) -> ModelView {
        ModelView {
            files: file_views(self.files@),
            max_age: self.max_age as int,
            total_post_cutoff_bugfixes: self.total_post_cutoff_bugfixes as int,
        }
    }
}

// ---------------------------------------------------------------------------
// Names and lookup
pub open spec fn function_names(fs: Seq<FunctionStatsView>) -> Seq<Seq<char>> {
    fs.map_values(|f: FunctionStatsView| f.name)
}

pub open spec fn file_names(fs: Seq<FileStatsView>) -> Seq<Seq<char>> {
    fs.map_values(|f: FileStatsView| f.name)
}

pub open spec fn unique_names(names: Seq<Seq<char>>) -> bool {
    forall|i: int, j: int| 0 <= i < names.len() && 0 <= j < names.len() && i != j ==> names[i] != names[j]
}

proof fn lemma_unique_index(names: Seq<Seq<char>>, i: int)
    requires
        unique_names(names),
        0 <= i < names.len(),
    ensures
        names.contains(names[i]),
        names.index_of(names[i]) == i,
{
    assert(names[i] == names[i]);
    let k = names.index_of(names[i]);
    assert(0 <= k < names.len() && names[k] == names[i]);
}

// ---------------------------------------------------------------------------
// Pre-cutoff updates
/// The age weight of a commit at `age` in hundredths: `round(100 * age / max_age)`,
/// and 0 in a history of a single commit.
pub open spec fn aged_weight(age: int, max_age: int) -> int {
    if max_age == 0 {
        0
    } else {
        (200 * age + max_age) / (2 * max_age)
    }
}

pub open spec fn first_tally(age: int, bug: int, aged: int, aged_bug: int) -> TallyView {
    TallyView {
        freq_counter: 1,
        bug_counter: bug,
        aged_freq_counter: aged,
        aged_bug_freq_counter: aged_bug,
        oldest_age: age,
        newest_age: age,
    }
}

pub open spec fn tally_plus(t: TallyView, age: int, bug: int, aged: int, aged_bug: int) -> TallyView {
    TallyView {
        freq_counter: t.freq_counter + 1,
        bug_counter: t.bug_counter + bug,
        aged_freq_counter: t.aged_freq_counter + aged,
        aged_bug_freq_counter: t.aged_bug_freq_counter + aged_bug,
        oldest_age: if age < t.oldest_age { age } else { t.oldest_age },
        newest_age: if age > t.newest_age { age } else { t.newest_age },
    }
}

/// Counts one change of function `name` at `age`; functions get no age weight.
pub open spec fn upsert_function(fs: Seq<FunctionStatsView>, name: Seq<char>, age: int, bug: int) -> Seq<
    FunctionStatsView,
> {
    let names = function_names(fs);
    if names.contains(name) {
        let i = names.index_of(name);
        fs.update(i, FunctionStatsView { tally: tally_plus(fs[i].tally, age, bug, 0, 0), ..fs[i] })
    } else {
        fs.push(
            FunctionStatsView {
                name,
                tally: first_tally(age, bug, 0, 0),
                post_cutoff_bugfix_count: 0,
            },
        )
    }
}

/// Whether the last of `names` already occurs before it.
pub open spec fn repeats_last(names: Seq<String>) -> bool {
    names.len() > 0 && texts_of(names.drop_last()).contains(names.last()@)
}

/// Counts one change of each distinct function of `names`.
pub open spec fn upsert_functions(fs: Seq<FunctionStatsView>, names: Seq<String>, age: int, bug: int) -> Seq<
    FunctionStatsView,
>
    decreases names.len(),
{
    if names.len() == 0 {
        fs
    } else {
        let before = upsert_functions(fs, names.drop_last(), age, bug);
        if repeats_last(names) {
            before
        } else {
            upsert_function(before, names.last()@, age, bug)
        }
    }
}

/// The model after one pre-cutoff change record.
pub open spec fn add_pre_cutoff(m: ModelView, r: ChangeRecord, is_bugfix: bool) -> ModelView {
    let age = r.age as int;
    let bug: int = if is_bugfix { 1 } else { 0 };
    let aged = aged_weight(age, m.max_age);
    let aged_bug = if is_bugfix { aged } else { 0 };
    let names = file_names(m.files);
    if names.contains(r.file_path@) {
        let i = names.index_of(r.file_path@);
        let f = m.files[i];
        ModelView {
            files: m.files.update(
                i,
                FileStatsView {
                    tally: tally_plus(f.tally, age, bug, aged, aged_bug),
                    functions: upsert_functions(f.functions, r.functions@, age, bug),
                    ..f
                },
            ),
            ..m
        }
    } else {
        ModelView {
            files: m.files.push(
                FileStatsView {
                    name: r.file_path@,
                    tally: first_tally(age, bug, aged, aged_bug),
                    functions: upsert_functions(seq![], r.functions@, age, bug),
                    post_cutoff_bugfix_count: 0,
                    post_cutoff_bugfix_commit_count: 0,
                },
            ),
            ..m
        }
    }
}

// ---------------------------------------------------------------------------
// Post-cutoff updates
/// Counts a post-cutoff bug fix of function `name`, if the file knows it.
pub open spec fn mark_function_fixed(f: FileStatsView, name: Seq<char>) -> FileStatsView {
    let names = function_names(f.functions);
    if names.contains(name) {
        let i = names.index_of(name);
        let g = f.functions[i];
        FileStatsView {
            functions: f.functions.update(
                i,
                FunctionStatsView { post_cutoff_bugfix_count: g.post_cutoff_bugfix_count + 1, ..g },
            ),
            post_cutoff_bugfix_count: f.post_cutoff_bugfix_count + 1,
            ..f
        }
    } else {
        f
    }
}

/// Counts a post-cutoff bug fix of each distinct known function of `names`.
#[verifier::opaque]
pub open spec fn mark_functions_fixed(f: FileStatsView, names: Seq<String>) -> FileStatsView
    decreases names.len(),
{
    if names.len() == 0 {
        f
    } else {
        let before = mark_functions_fixed(f, names.drop_last());
        if repeats_last(names) {
            before
        } else {
            mark_function_fixed(before, names.last()@)
        }
    }
}

/// The model after one post-cutoff change record: only a bug fix of a file
/// known before the cutoff, and not excluded, counts.
pub open spec fn add_post_cutoff(m: ModelView, r: ChangeRecord, is_bugfix: bool, is_excluded: bool) -> ModelView {
    let names = file_names(m.files);
    if is_excluded || !is_bugfix || !names.contains(r.file_path@) {
        m
    } else {
        let i = names.index_of(r.file_path@);
        let f = m.files[i];
        let counted = FileStatsView {
            post_cutoff_bugfix_commit_count: f.post_cutoff_bugfix_commit_count + 1,
            ..f
        };
        ModelView {
            files: m.files.update(i, mark_functions_fixed(counted, r.functions@)),
            total_post_cutoff_bugfixes: m.total_post_cutoff_bugfixes + 1,
            ..m
        }
    }
}

// ---------------------------------------------------------------------------
// Invariants
pub open spec fn tally_in_range(t: TallyView, max_age: int) -> bool {
    0 <= t.oldest_age <= t.newest_age <= max_age
}

pub open spec fn tally_bounded(t: TallyView, b: int) -> bool {
    &&& t.freq_counter <= b
    &&& t.bug_counter <= b
    &&& t.aged_freq_counter <= b
    &&& t.aged_bug_freq_counter <= b
}

pub open spec fn function_wf(g: FunctionStatsView, max_age: int) -> bool {
    tally_in_range(g.tally, max_age)
}

pub open spec fn file_wf(f: FileStatsView, max_age: int, total: int) -> bool {
    &&& tally_in_range(f.tally, max_age)
    &&& unique_names(function_names(f.functions))
    &&& forall|j: int| 0 <= j < f.functions.len() ==> function_wf(#[trigger] f.functions[j], max_age)
    &&& 0 <= f.post_cutoff_bugfix_commit_count <= total
}

pub open spec fn functions_bounded(fs: Seq<FunctionStatsView>, b: int) -> bool {
    forall|j: int|
        0 <= j < fs.len() ==> tally_bounded(#[trigger] fs[j].tally, b)
            && fs[j].post_cutoff_bugfix_count <= b
}

pub open spec fn file_bounded(f: FileStatsView, b: int) -> bool {
    &&& tally_bounded(f.tally, b)
    &&& functions_bounded(f.functions, b)
    &&& f.post_cutoff_bugfix_count <= b
    &&& f.post_cutoff_bugfix_commit_count <= b
}

impl ModelView {
    /// Names are unique, every age range is ordered and lies in
    /// `[0, max_age]`, and no file has more post-cutoff bug-fix commits than
    /// the model's total.
    pub open spec fn wf(self) -> bool {
        &&& 0 <= self.max_age <= u32::MAX
        &&& 0 <= self.total_post_cutoff_bugfixes
        &&& unique_names(file_names(self.files))
        &&& forall|i: int|
            0 <= i < self.files.len() ==> file_wf(
                #[trigger] self.files[i],
                self.max_age,
                self.total_post_cutoff_bugfixes,
            )
    }

    /// Every counter of the model is at most `b`.
    pub open spec fn bounded(self, b: int) -> bool {
        &&& self.total_post_cutoff_bugfixes <= b
        &&& forall|i: int| 0 <= i < self.files.len() ==> file_bounded(#[trigger] self.files[i], b)
    }
}

/// The most any counter can grow by on one record.
pub open spec fn record_weight(r: ChangeRecord) -> int {
    100 + r.functions@.len() as int
}

// ---------------------------------------------------------------------------
// Lemmas on the updates
proof fn lemma_upsert_function(fs: Seq<FunctionStatsView>, name: Seq<char>, age: int, bug: int, b: int, max_age: int)
    requires
        unique_names(function_names(fs)),
        functions_bounded(fs, b),
        0 <= bug <= 1,
        0 <= b,
        0 <= age <= max_age,
        forall|j: int| 0 <= j < fs.len() ==> function_wf(#[trigger] fs[j], max_age),
    ensures
        ({
            let gs = upsert_function(fs, name, age, bug);
            &&& unique_names(function_names(gs))
            &&& functions_bounded(gs, b + 1)
            &&& forall|j: int| 0 <= j < gs.len() ==> function_wf(#[trigger] gs[j], max_age)
        }),
{
    let names = function_names(fs);
    let gs = upsert_function(fs, name, age, bug);
    if names.contains(name) {
        let i = names.index_of(name);
        assert(function_names(gs) =~= names);
        assert forall|j: int| 0 <= j < gs.len() implies function_wf(#[trigger] gs[j], max_age) by {
            assert(function_wf(fs[j], max_age));
        }
    } else {
        assert(function_names(gs) =~= names.push(name));
        assert forall|j: int| 0 <= j < gs.len() implies function_wf(#[trigger] gs[j], max_age) by {
            if j < fs.len() {
                assert(function_wf(fs[j], max_age));
            }
        }
    }
}

proof fn lemma_upsert_functions(fs: Seq<FunctionStatsView>, names: Seq<String>, age: int, bug: int, b: int, max_age: int)
    requires
        unique_names(function_names(fs)),
        functions_bounded(fs, b),
        0 <= bug <= 1,
        0 <= b,
        0 <= age <= max_age,
        forall|j: int| 0 <= j < fs.len() ==> function_wf(#[trigger] fs[j], max_age),
    ensures
        ({
            let gs = upsert_functions(fs, names, age, bug);
            &&& unique_names(function_names(gs))
            &&& functions_bounded(gs, b + names.len())
            &&& forall|j: int| 0 <= j < gs.len() ==> function_wf(#[trigger] gs[j], max_age)
        }),
    decreases names.len(),
{
    if names.len() > 0 {
        lemma_upsert_functions(fs, names.drop_last(), age, bug, b, max_age);
        lemma_functions_bounded_mono(
            upsert_functions(fs, names.drop_last(), age, bug),
            b + names.len() - 1,
            b + names.len(),
        );
        lemma_upsert_function(
            upsert_functions(fs, names.drop_last(), age, bug),
            names.last()@,
            age,
            bug,
            b + names.len() - 1,
            max_age,
        );
    }
}

proof fn lemma_mark_functions_fixed(f: FileStatsView, names: Seq<String>, b: int, max_age: int)
    requires
        unique_names(function_names(f.functions)),
        functions_bounded(f.functions, b),
        f.post_cutoff_bugfix_count <= b,
        0 <= b,
        forall|j: int| 0 <= j < f.functions.len() ==> function_wf(#[trigger] f.functions[j], max_age),
    ensures
        ({
            let g = mark_functions_fixed(f, names);
            &&& g.name == f.name
            &&& g.tally == f.tally
            &&& g.post_cutoff_bugfix_commit_count == f.post_cutoff_bugfix_commit_count
            &&& function_names(g.functions) == function_names(f.functions)
            &&& functions_bounded(g.functions, b + names.len())
            &&& g.post_cutoff_bugfix_count <= b + names.len()
            &&& forall|j: int| 0 <= j < g.functions.len() ==> function_wf(#[trigger] g.functions[j], max_age)
        }),
    decreases names.len(),
{
    reveal(mark_functions_fixed);
    if names.len() > 0 {
        lemma_mark_functions_fixed(f, names.drop_last(), b, max_age);
        let h = mark_functions_fixed(f, names.drop_last());
        lemma_functions_bounded_mono(h.functions, b + names.len() - 1, b + names.len());
        let fnames = function_names(h.functions);
        let g = mark_function_fixed(h, names.last()@);
        if fnames.contains(names.last()@) && !repeats_last(names) {
            assert(function_names(g.functions) =~= fnames);
            assert forall|j: int| 0 <= j < g.functions.len() implies function_wf(#[trigger] g.functions[j], max_age) by {
                assert(function_wf(h.functions[j], max_age));
            }
        }
    }
}

proof fn lemma_aged_weight(age: int, max_age: int)
    requires
        0 <= age <= max_age,
    ensures
        0 <= aged_weight(age, max_age) <= 100,
{
    if max_age > 0 {
        assert(200 * age + max_age <= 201 * max_age) by (nonlinear_arith)
            requires
                age <= max_age,
        ;
        assert((200 * age + max_age) / (2 * max_age) <= 100) by (nonlinear_arith)
            requires
                200 * age + max_age <= 201 * max_age,
                max_age > 0,
        ;
        assert((200 * age + max_age) / (2 * max_age) >= 0) by (nonlinear_arith)
            requires
                200 * age + max_age >= 0,
                max_age > 0,
        ;
    }
}

// ---------------------------------------------------------------------------
// Executable updates
fn position_of_function(fs: &Vec<FunctionStats>, name: &String) -> (r: Option<usize>)
    ensures
        r matches Some(j) ==> j < fs@.len() && fs@[j as int].name@ == name@,
        r is None ==> !function_names(function_views(fs@)).contains(name@),
{
    let mut j: usize = 0;
    while j < fs.len()
        invariant
            j <= fs@.len(),
            forall|k: int| 0 <= k < j ==> (#[trigger] fs@[k]).name@ != name@,
        decreases fs@.len() - j,
    {
        if fs[j].name == *name {
            return Some(j);
        }
        j += 1;
    }
    proof {
        let names = function_names(function_views(fs@));
        assert forall|k: int| 0 <= k < names.len() implies names[k] != name@ by {
            assert(fs@[k].name@ != name@);
        }
    }
    None
}

fn position_of_file(fs: &Vec<FileStats>, name: &String) -> (r: Option<usize>)
    ensures
        r matches Some(j) ==> j < fs@.len() && fs@[j as int].name@ == name@,
        r is None ==> !file_names(file_views(fs@)).contains(name@),
{
    let mut j: usize = 0;
    while j < fs.len()
        invariant
            j <= fs@.len(),
            forall|k: int| 0 <= k < j ==> (#[trigger] fs@[k]).name@ != name@,
        decreases fs@.len() - j,
    {
        if fs[j].name == *name {
            return Some(j);
        }
        j += 1;
    }
    proof {
        let names = file_names(file_views(fs@));
        assert forall|k: int| 0 <= k < names.len() implies names[k] != name@ by {
            assert(fs@[k].name@ != name@);
        }
    }
    None
}

/// The age weight in hundredths of a commit at `age`.
fn aged_weight_of(age: u32, max_age: u32) -> (r: u64)
    requires
        age <= max_age,
    ensures
        r == aged_weight(age as int, max_age as int),
        r <= 100,
{
    proof {
        lemma_aged_weight(age as int, max_age as int);
    }
    if max_age == 0 {
        0
    } else {
        (200 * age as u64 + max_age as u64) / (2 * max_age as u64)
    }
}

fn tally_added(t: Tally, age: u32, bug: u64, aged: u64, aged_bug: u64) -> (r: Tally)
    requires
        t.freq_counter + 1 <= u64::MAX,
        t.bug_counter + bug <= u64::MAX,
        t.aged_freq_counter + aged <= u64::MAX,
        t.aged_bug_freq_counter + aged_bug <= u64::MAX,
    ensures
        r@ == tally_plus(t@, age as int, bug as int, aged as int, aged_bug as int),
{
    Tally {
        freq_counter: t.freq_counter + 1,
        bug_counter: t.bug_counter + bug,
        aged_freq_counter: t.aged_freq_counter + aged,
        aged_bug_freq_counter: t.aged_bug_freq_counter + aged_bug,
        oldest_age: if age < t.oldest_age { age } else { t.oldest_age },
        newest_age: if age > t.newest_age { age } else { t.newest_age },
    }
}

fn tally_first(age: u32, bug: u64, aged: u64, aged_bug: u64) -> (r: Tally)
    ensures
        r@ == first_tally(age as int, bug as int, aged as int, aged_bug as int),
{
    Tally {
        freq_counter: 1,
        bug_counter: bug,
        aged_freq_counter: aged,
        aged_bug_freq_counter: aged_bug,
        oldest_age: age,
        newest_age: age,
    }
}

/// Whether `names[k]` already occurs before position `k`.
fn appears_before(names: &Vec<String>, k: usize) -> (r: bool)
    requires
        k < names@.len(),
    ensures
        r == repeats_last(names@.take(k + 1)),
{
    proof {
        assert(names@.take(k + 1).drop_last() =~= names@.take(k as int));
        assert(names@.take(k + 1).last() == names@[k as int]);
    }
    let mut j: usize = 0;
    while j < k
        invariant
            j <= k < names@.len(),
            forall|q: int| 0 <= q < j ==> (#[trigger] names@[q])@ != names@[k as int]@,
        decreases k - j,
    {
        if names[j] == names[k] {
            proof {
                assert(names@.take(k + 1).drop_last() =~= names@.take(k as int));
                assert(names@.take(k + 1).last() == names@[k as int]);
                assert(texts_of(names@.take(k as int))[j as int] == names@[k as int]@);
            }
            return true;
        }
        j += 1;
    }
    proof {
        if texts_of(names@.take(k as int)).contains(names@[k as int]@) {
            let q = choose|q: int|
                0 <= q < k && texts_of(names@.take(k as int))[q] == names@[k as int]@;
            assert(names@[q]@ != names@[k as int]@);
        }
    }
    false
}

impl FileStats {
    fn count_function(&mut self, name: &String, age: u32, bug: u64)
        requires
            unique_names(function_names(old(self)@.functions)),
            functions_bounded(old(self)@.functions, u64::MAX - 1),
            bug <= 1,
        ensures
            final(self)@ == (FileStatsView {
                functions: upsert_function(old(self)@.functions, name@, age as int, bug as int),
                ..old(self)@
            }),
    {
        let ghost fs = old(self)@.functions;
        match position_of_function(&self.functions, name) {
            Some(j) => {
                proof {
                    lemma_unique_index(function_names(fs), j as int);
                    assert(function_names(fs)[j as int] == name@);
                    assert(tally_bounded(fs[j as int].tally, u64::MAX - 1));
                }
                let t = self.functions[j].tally;
                self.functions[j].tally = tally_added(t, age, bug, 0, 0);
            },
            None => {
                self.functions.push(
                    FunctionStats {
                        name: name.clone(),
                        tally: tally_first(age, bug, 0, 0),
                        post_cutoff_bugfix_count: 0,
                    },
                );
            },
        }
        proof {
            assert(function_views(self.functions@) =~= upsert_function(fs, name@, age as int, bug as int));
        }
    }

    fn count_functions(&mut self, names: &Vec<String>, age: u32, bug: u64, Ghost(b): Ghost<int>, Ghost(max_age): Ghost<int>)
        requires
            unique_names(function_names(old(self)@.functions)),
            functions_bounded(old(self)@.functions, b),
            0 <= b,
            b + names@.len() <= u64::MAX,
            bug <= 1,
            age <= max_age,
            forall|j: int| 0 <= j < old(self)@.functions.len() ==> function_wf(#[trigger] old(self)@.functions[j], max_age),
        ensures
            final(self)@ == (FileStatsView {
                functions: upsert_functions(old(self)@.functions, names@, age as int, bug as int),
                ..old(self)@
            }),
    {
        let ghost start = old(self)@;
        let mut k: usize = 0;
        while k < names.len()
            invariant
                k <= names@.len(),
                self@ == (FileStatsView {
                    functions: upsert_functions(start.functions, names@.take(k as int), age as int, bug as int),
                    ..start
                }),
                unique_names(function_names(self@.functions)),
                functions_bounded(self@.functions, b + k),
                forall|j: int| 0 <= j < self@.functions.len() ==> function_wf(#[trigger] self@.functions[j], max_age),
                0 <= b,
                b + names@.len() <= u64::MAX,
                bug <= 1,
                age <= max_age,
            decreases names@.len() - k,
        {
            proof {
                assert(functions_bounded(self@.functions, u64::MAX - 1));
                lemma_upsert_function(self@.functions, names@[k as int]@, age as int, bug as int, b + k, max_age);
                assert(names@.take(k + 1).drop_last() =~= names@.take(k as int));
            }
            if !appears_before(names, k) {
                self.count_function(&names[k], age, bug);
            }
            k += 1;
        }
        proof {
            assert(names@.take(k as int) =~= names@);
        }
    }

    fn mark_fixed(&mut self, name: &String)
        requires
            unique_names(function_names(old(self)@.functions)),
            functions_bounded(old(self)@.functions, u64::MAX - 1),
            old(self)@.post_cutoff_bugfix_count <= u64::MAX - 1,
        ensures
            final(self)@ == mark_function_fixed(old(self)@, name@),
    {
        let ghost fs = old(self)@.functions;
        match position_of_function(&self.functions, name) {
            Some(j) => {
                proof {
                    lemma_unique_index(function_names(fs), j as int);
                    assert(function_names(fs)[j as int] == name@);
                    assert(fs[j as int] == self.functions@[j as int]@);
                    assert(tally_bounded(fs[j as int].tally, u64::MAX - 1));
                }
                self.functions[j].post_cutoff_bugfix_count = self.functions[j].post_cutoff_bugfix_count + 1;
                self.post_cutoff_bugfix_count = self.post_cutoff_bugfix_count + 1;
                proof {
                    assert(function_views(self.functions@) =~= mark_function_fixed(old(self)@, name@).functions);
                }
            },
            None => {},
        }
    }

    fn mark_all_fixed(&mut self, names: &Vec<String>, Ghost(b): Ghost<int>, Ghost(max_age): Ghost<int>)
        requires
            unique_names(function_names(old(self)@.functions)),
            functions_bounded(old(self)@.functions, b),
            old(self)@.post_cutoff_bugfix_count <= b,
            0 <= b,
            b + names@.len() <= u64::MAX,
            forall|j: int| 0 <= j < old(self)@.functions.len() ==> function_wf(#[trigger] old(self)@.functions[j], max_age),
        ensures
            final(self)@ == mark_functions_fixed(old(self)@, names@),
    {
        let ghost start = old(self)@;
        proof {
            reveal(mark_functions_fixed);
        }
        let mut k: usize = 0;
        while k < names.len()
            invariant
                k <= names@.len(),
                self@ == mark_functions_fixed(start, names@.take(k as int)),
                unique_names(function_names(start.functions)),
                functions_bounded(start.functions, b),
                start.post_cutoff_bugfix_count <= b,
                0 <= b,
                b + names@.len() <= u64::MAX,
                forall|j: int| 0 <= j < start.functions.len() ==> function_wf(#[trigger] start.functions[j], max_age),
            decreases names@.len() - k,
        {
            proof {
                reveal(mark_functions_fixed);
                lemma_mark_functions_fixed(start, names@.take(k as int), b, max_age);
                assert(functions_bounded(self@.functions, u64::MAX - 1));
                assert(names@.take(k + 1).drop_last() =~= names@.take(k as int));
            }
            if !appears_before(names, k) {
                self.mark_fixed(&names[k]);
            }
            k += 1;
        }
        proof {
            assert(names@.take(k as int) =~= names@);
        }
    }
}
proof fn lemma_functions_bounded_mono(fs: Seq<FunctionStatsView>, b1: int, b2: int)
    requires
        functions_bounded(fs, b1),
        b1 <= b2,
    ensures
        functions_bounded(fs, b2),
{
    assert forall|j: int| 0 <= j < fs.len() implies tally_bounded(#[trigger] fs[j].tally, b2)
        && fs[j].post_cutoff_bugfix_count <= b2 by {
        assert(tally_bounded(fs[j].tally, b1));
    }
}

/// Raising the bound keeps a model bounded.
pub proof fn lemma_bounded_mono(m: ModelView, b1: int, b2: int)
    requires
        m.bounded(b1),
        b1 <= b2,
    ensures
        m.bounded(b2),
{
    assert forall|i: int| 0 <= i < m.files.len() implies file_bounded(#[trigger] m.files[i], b2) by {
        assert(file_bounded(m.files[i], b1));
        lemma_functions_bounded_mono(m.files[i].functions, b1, b2);
    }
}

proof fn lemma_add_pre_cutoff(m: ModelView, r: ChangeRecord, is_bugfix: bool, b: int)
    requires
        m.wf(),
        m.bounded(b),
        0 <= b,
        r.age <= m.max_age,
    ensures
        add_pre_cutoff(m, r, is_bugfix).wf(),
        add_pre_cutoff(m, r, is_bugfix).bounded(b + record_weight(r)),
        add_pre_cutoff(m, r, is_bugfix).max_age == m.max_age,
        add_pre_cutoff(m, r, is_bugfix).total_post_cutoff_bugfixes == m.total_post_cutoff_bugfixes,
{
    let age = r.age as int;
    let bug: int = if is_bugfix { 1 } else { 0 };
    lemma_aged_weight(age, m.max_age);
    let names = file_names(m.files);
    let n = add_pre_cutoff(m, r, is_bugfix);
    let w = record_weight(r);
    if names.contains(r.file_path@) {
        let i = names.index_of(r.file_path@);
        let f = m.files[i];
        assert(file_wf(f, m.max_age, m.total_post_cutoff_bugfixes));
        assert(file_bounded(f, b));
        lemma_upsert_functions(f.functions, r.functions@, age, bug, b, m.max_age);
        lemma_functions_bounded_mono(
            upsert_functions(f.functions, r.functions@, age, bug),
            b + r.functions@.len(),
            b + w,
        );
        assert(file_names(n.files) =~= names);
        assert forall|k: int| 0 <= k < n.files.len() implies file_wf(
            #[trigger] n.files[k],
            n.max_age,
            n.total_post_cutoff_bugfixes,
        ) && file_bounded(n.files[k], b + w) by {
            if k != i {
                assert(file_wf(m.files[k], m.max_age, m.total_post_cutoff_bugfixes));
                assert(file_bounded(m.files[k], b));
                lemma_functions_bounded_mono(m.files[k].functions, b, b + w);
            }
        }
    } else {
        lemma_upsert_functions(seq![], r.functions@, age, bug, 0, m.max_age);
        lemma_functions_bounded_mono(
            upsert_functions(seq![], r.functions@, age, bug),
            r.functions@.len() as int,
            b + w,
        );
        assert(file_names(n.files) =~= names.push(r.file_path@));
        assert forall|k: int| 0 <= k < n.files.len() implies file_wf(
            #[trigger] n.files[k],
            n.max_age,
            n.total_post_cutoff_bugfixes,
        ) && file_bounded(n.files[k], b + w) by {
            if k < m.files.len() {
                assert(file_wf(m.files[k], m.max_age, m.total_post_cutoff_bugfixes));
                assert(file_bounded(m.files[k], b));
                lemma_functions_bounded_mono(m.files[k].functions, b, b + w);
            }
        }
    }
}

proof fn lemma_add_post_cutoff(m: ModelView, r: ChangeRecord, is_bugfix: bool, is_excluded: bool, b: int)
    requires
        m.wf(),
        m.bounded(b),
        0 <= b,
    ensures
        add_post_cutoff(m, r, is_bugfix, is_excluded).wf(),
        add_post_cutoff(m, r, is_bugfix, is_excluded).bounded(b + record_weight(r)),
        add_post_cutoff(m, r, is_bugfix, is_excluded).max_age == m.max_age,
{
    let names = file_names(m.files);
    let n = add_post_cutoff(m, r, is_bugfix, is_excluded);
    let w = record_weight(r);
    if is_excluded || !is_bugfix || !names.contains(r.file_path@) {
        lemma_bounded_mono(m, b, b + w);
    } else {
        let i = names.index_of(r.file_path@);
        let f = m.files[i];
        assert(file_wf(f, m.max_age, m.total_post_cutoff_bugfixes));
        assert(file_bounded(f, b));
        let counted = FileStatsView {
            post_cutoff_bugfix_commit_count: f.post_cutoff_bugfix_commit_count + 1,
            ..f
        };
        lemma_mark_functions_fixed(counted, r.functions@, b, m.max_age);
        let g = mark_functions_fixed(counted, r.functions@);
        lemma_functions_bounded_mono(g.functions, b + r.functions@.len(), b + w);
        assert(file_names(n.files) =~= names);
        assert forall|k: int| 0 <= k < n.files.len() implies file_wf(
            #[trigger] n.files[k],
            n.max_age,
            n.total_post_cutoff_bugfixes,
        ) && file_bounded(n.files[k], b + w) by {
            if k != i {
                assert(file_wf(m.files[k], m.max_age, m.total_post_cutoff_bugfixes));
                assert(file_bounded(m.files[k], b));
                lemma_functions_bounded_mono(m.files[k].functions, b, b + w);
            }
        }
    }
}

impl StatisticsModel {
    /// An empty model for a history whose newest commit has age `max_age`.
    pub fn new(max_age: u32) -> (r: StatisticsModel)
        ensures
            r@ == empty_model(max_age as int),
            r@.wf(),
            r@.bounded(0),
    {
        let r = StatisticsModel { files: Vec::new(), max_age, total_post_cutoff_bugfixes: 0 };
        proof {
            assert(r@.files =~= Seq::<FileStatsView>::empty());
        }
        r
    }

    /// Folds in one pre-cutoff change record: the file's counters grow by
    /// one change (and one bug fix if `is_bugfix`), with its age weight; so
    /// do those of each distinct named function, without age weight (a name
    /// listed twice counts once). Files and
    /// functions seen for the first time are appended.
    pub fn add_pre_cutoff(&mut self, record: &ChangeRecord, is_bugfix: bool)
        requires
            old(self)@.wf(),
            record.age <= old(self).max_age,
            old(self)@.bounded(u64::MAX - record_weight(*record)),
        ensures
            final(self)@ == add_pre_cutoff(old(self)@, *record, is_bugfix),
            final(self)@.wf(),
            forall|b: int|
                0 <= b && #[trigger] old(self)@.bounded(b) ==> final(self)@.bounded(
                    b + record_weight(*record),
                ),
    {
        let ghost m = old(self)@;
        let ghost lim: int = u64::MAX - record_weight(*record);
        proof {
            lemma_add_pre_cutoff(m, *record, is_bugfix, lim);
            assert forall|b: int| 0 <= b && #[trigger] m.bounded(b) implies add_pre_cutoff(
                m,
                *record,
                is_bugfix,
            ).bounded(b + record_weight(*record)) by {
                lemma_add_pre_cutoff(m, *record, is_bugfix, b);
            }
        }
        let bug: u64 = if is_bugfix { 1 } else { 0 };
        let aged = aged_weight_of(record.age, self.max_age);
        let aged_bug: u64 = if is_bugfix { aged } else { 0 };
        match position_of_file(&self.files, &record.file_path) {
            Some(i) => {
                proof {
                    lemma_unique_index(file_names(m.files), i as int);
                    assert(file_names(m.files)[i as int] == record.file_path@);
                    assert(m.files[i as int] == self.files@[i as int]@);
                    assert(file_wf(m.files[i as int], m.max_age, m.total_post_cutoff_bugfixes));
                    assert(file_bounded(m.files[i as int], lim));
                }
                let t = self.files[i].tally;
                self.files[i].tally = tally_added(t, record.age, bug, aged, aged_bug);
                self.files[i].count_functions(
                    &record.functions,
                    record.age,
                    bug,
                    Ghost(lim),
                    Ghost(m.max_age),
                );
                proof {
                    assert(file_views(self.files@) =~= add_pre_cutoff(m, *record, is_bugfix).files);
                }
            },
            None => {
                let mut f = FileStats {
                    name: record.file_path.clone(),
                    tally: tally_first(record.age, bug, aged, aged_bug),
                    functions: Vec::new(),
                    post_cutoff_bugfix_count: 0,
                    post_cutoff_bugfix_commit_count: 0,
                };
                proof {
                    assert(f@.functions =~= Seq::<FunctionStatsView>::empty());
                }
                f.count_functions(&record.functions, record.age, bug, Ghost(0), Ghost(m.max_age));
                self.files.push(f);
                proof {
                    assert(file_views(self.files@) =~= add_pre_cutoff(m, *record, is_bugfix).files);
                }
            },
        }
    }

    /// Folds in one post-cutoff change record: a bug fix of a file known
    /// before the cutoff and not excluded counts once for the file and the
    /// model, and once for each distinct named function the file already
    /// knows (a name listed twice counts once).
    /// Anything else leaves the model as it is.
    pub fn add_post_cutoff(&mut self, record: &ChangeRecord, is_bugfix: bool, is_excluded: bool)
        requires
            old(self)@.wf(),
            old(self)@.bounded(u64::MAX - record_weight(*record)),
        ensures
            final(self)@ == add_post_cutoff(old(self)@, *record, is_bugfix, is_excluded),
            final(self)@.wf(),
            forall|b: int|
                0 <= b && #[trigger] old(self)@.bounded(b) ==> final(self)@.bounded(
                    b + record_weight(*record),
                ),
    {
        let ghost m = old(self)@;
        let ghost lim: int = u64::MAX - record_weight(*record);
        proof {
            lemma_add_post_cutoff(m, *record, is_bugfix, is_excluded, lim);
            assert forall|b: int| 0 <= b && #[trigger] m.bounded(b) implies add_post_cutoff(
                m,
                *record,
                is_bugfix,
                is_excluded,
            ).bounded(b + record_weight(*record)) by {
                lemma_add_post_cutoff(m, *record, is_bugfix, is_excluded, b);
            }
        }
        if is_excluded || !is_bugfix {
            return;
        }
        match position_of_file(&self.files, &record.file_path) {
            Some(i) => {
                proof {
                    lemma_unique_index(file_names(m.files), i as int);
                    assert(file_names(m.files)[i as int] == record.file_path@);
                    assert(m.files[i as int] == self.files@[i as int]@);
                    assert(file_wf(m.files[i as int], m.max_age, m.total_post_cutoff_bugfixes));
                    assert(file_bounded(m.files[i as int], lim));
                }
                self.files[i].post_cutoff_bugfix_commit_count = self.files[i].post_cutoff_bugfix_commit_count + 1;
                self.total_post_cutoff_bugfixes = self.total_post_cutoff_bugfixes + 1;
                self.files[i].mark_all_fixed(&record.functions, Ghost(lim), Ghost(m.max_age));
                proof {
                    assert(file_views(self.files@) =~= add_post_cutoff(
                        m,
                        *record,
                        is_bugfix,
                        is_excluded,
                    ).files);
                }
            },
            None => {},
        }
    }
}

// ---------------------------------------------------------------------------
// Aggregation
/// The largest age of a pre-cutoff commit: `floor(max_age * cutoff_percent / 100)`.
pub open spec fn age_cutoff(max_age: int, cutoff_percent: int) -> int {
    max_age * cutoff_percent / 100
}

/// The age of the newest of `commit_count` commits (0 for an empty history).
pub open spec fn max_age_of(commit_count: int) -> int {
    if commit_count == 0 {
        0
    } else {
        commit_count - 1
    }
}

pub open spec fn empty_model(max_age: int) -> ModelView {
    ModelView { files: seq![], max_age, total_post_cutoff_bugfixes: 0 }
}

pub open spec fn fold_pre_cutoff(m: ModelView, rs: Seq<ChangeRecord>, cutoff: int, bugfix: Seq<Pattern>) -> ModelView
    decreases rs.len(),
{
    if rs.len() == 0 {
        m
    } else {
        let before = fold_pre_cutoff(m, rs.drop_last(), cutoff, bugfix);
        let r = rs.last();
        if r.age <= cutoff {
            add_pre_cutoff(before, r, any_match(bugfix, r.commit_message@))
        } else {
            before
        }
    }
}

pub open spec fn fold_post_cutoff(
    m: ModelView,
    rs: Seq<ChangeRecord>,
    cutoff: int,
    bugfix: Seq<Pattern>,
    exclusions: Seq<Pattern>,
) -> ModelView
    decreases rs.len(),
{
    if rs.len() == 0 {
        m
    } else {
        let before = fold_post_cutoff(m, rs.drop_last(), cutoff, bugfix, exclusions);
        let r = rs.last();
        if r.age > cutoff {
            add_post_cutoff(
                before,
                r,
                any_match(bugfix, r.commit_message@),
                any_match(exclusions, r.file_path@),
            )
        } else {
            before
        }
    }
}

/// Every pre-cutoff record of `h`, commit after commit.
pub open spec fn pre_cutoff_pass(m: ModelView, h: Seq<CommitChanges>, cutoff: int, bugfix: Seq<Pattern>) -> ModelView
    decreases h.len(),
{
    if h.len() == 0 {
        m
    } else {
        fold_pre_cutoff(pre_cutoff_pass(m, h.drop_last(), cutoff, bugfix), h.last().records@, cutoff, bugfix)
    }
}

/// Every post-cutoff record of `h`, commit after commit.
pub open spec fn post_cutoff_pass(
    m: ModelView,
    h: Seq<CommitChanges>,
    cutoff: int,
    bugfix: Seq<Pattern>,
    exclusions: Seq<Pattern>,
) -> ModelView
    decreases h.len(),
{
    if h.len() == 0 {
        m
    } else {
        fold_post_cutoff(
            post_cutoff_pass(m, h.drop_last(), cutoff, bugfix, exclusions),
            h.last().records@,
            cutoff,
            bugfix,
            exclusions,
        )
    }
}

/// The statistics of history `h` split at `cutoff_percent`: all pre-cutoff
/// records are folded in first, so that whether a post-cutoff fix counts
/// depends only on what came before the cutoff.
pub open spec fn aggregated(
    h: Seq<CommitChanges>,
    cutoff_percent: int,
    bugfix: Seq<Pattern>,
    exclusions: Seq<Pattern>,
) -> ModelView {
    let max_age = max_age_of(h.len() as int);
    let cutoff = age_cutoff(max_age, cutoff_percent);
    post_cutoff_pass(
        pre_cutoff_pass(empty_model(max_age), h, cutoff, bugfix),
        h,
        cutoff,
        bugfix,
        exclusions,
    )
}

pub open spec fn records_weight(rs: Seq<ChangeRecord>) -> int
    decreases rs.len(),
{
    if rs.len() == 0 {
        0
    } else {
        records_weight(rs.drop_last()) + record_weight(rs.last())
    }
}

/// The most any counter can grow by while aggregating `h` (once per pass).
pub open spec fn history_weight(h: Seq<CommitChanges>) -> int
    decreases h.len(),
{
    if h.len() == 0 {
        0
    } else {
        history_weight(h.drop_last()) + records_weight(h.last().records@)
    }
}

proof fn lemma_records_weight_prefix(rs: Seq<ChangeRecord>, j: int)
    requires
        0 <= j <= rs.len(),
    ensures
        0 <= records_weight(rs.take(j)) <= records_weight(rs),
    decreases rs.len(),
{
    if j == rs.len() {
        assert(rs.take(j) =~= rs);
        if rs.len() > 0 {
            lemma_records_weight_prefix(rs.drop_last(), j - 1);
            assert(rs.drop_last().take(j - 1) =~= rs.drop_last());
        }
    } else {
        lemma_records_weight_prefix(rs.drop_last(), j);
        assert(rs.drop_last().take(j) =~= rs.take(j));
    }
}

proof fn lemma_history_weight_prefix(h: Seq<CommitChanges>, c: int)
    requires
        0 <= c <= h.len(),
    ensures
        0 <= history_weight(h.take(c)) <= history_weight(h),
    decreases h.len(),
{
    if c == h.len() {
        assert(h.take(c) =~= h);
        if h.len() > 0 {
            lemma_history_weight_prefix(h.drop_last(), c - 1);
            assert(h.drop_last().take(c - 1) =~= h.drop_last());
            lemma_records_weight_prefix(h.last().records@, 0);
        }
    } else {
        lemma_history_weight_prefix(h.drop_last(), c);
        assert(h.drop_last().take(c) =~= h.take(c));
        lemma_records_weight_prefix(h.last().records@, 0);
    }
}

/// The age cutoff of a history whose newest commit has age `max_age`.
pub fn age_cutoff_of(max_age: u32, cutoff_percent: u32) -> (r: u32)
    requires
        cutoff_percent <= 100,
    ensures
        r == age_cutoff(max_age as int, cutoff_percent as int),
        r <= max_age,
{
    proof {
        lemma_age_cutoff_bounds(max_age as int, cutoff_percent as int);
    }
    (max_age as u64 * cutoff_percent as u64 / 100) as u32
}

/// The age cutoff never exceeds the maximum age, and is not negative.
pub proof fn lemma_age_cutoff_bounds(max_age: int, cutoff_percent: int)
    requires
        0 <= max_age,
        0 <= cutoff_percent <= 100,
    ensures
        0 <= age_cutoff(max_age, cutoff_percent) <= max_age,
{
    assert(max_age * cutoff_percent <= max_age * 100) by (nonlinear_arith)
        requires
            0 <= max_age,
            cutoff_percent <= 100,
    ;
    assert(0 <= max_age * cutoff_percent) by (nonlinear_arith)
        requires
            0 <= max_age,
            0 <= cutoff_percent,
    ;
}

fn fold_commit_pre_cutoff(
    model: &mut StatisticsModel,
    records: &Vec<ChangeRecord>,
    cutoff: u32,
    bugfix: &Vec<Pattern>,
    Ghost(done): Ghost<int>,
)
    requires
        old(model)@.wf(),
        old(model)@.bounded(done),
        0 <= done,
        done + records_weight(records@) <= u64::MAX,
        cutoff <= old(model).max_age,
    ensures
        final(model)@ == fold_pre_cutoff(old(model)@, records@, cutoff as int, bugfix@),
        final(model)@.wf(),
        final(model)@.bounded(done + records_weight(records@)),
        final(model).max_age == old(model).max_age,
{
    let ghost base = old(model)@;
    let mut j: usize = 0;
    while j < records.len()
        invariant
            j <= records@.len(),
            model@ == fold_pre_cutoff(base, records@.take(j as int), cutoff as int, bugfix@),
            model@.wf(),
            model.max_age == old(model).max_age,
            model@.bounded(done + records_weight(records@.take(j as int))),
            done + records_weight(records@) <= u64::MAX,
            0 <= done,
            cutoff <= model.max_age,
        decreases records@.len() - j,
    {
        let r = &records[j];
        proof {
            lemma_records_weight_prefix(records@, j + 1);
            assert(records@.take(j + 1).drop_last() =~= records@.take(j as int));
            lemma_records_weight_prefix(records@, j as int);
        }
        if r.age <= cutoff {
            let is_bugfix = matches_any(bugfix, r.commit_message.as_str());
            proof {
                lemma_bounded_mono(
                    model@,
                    done + records_weight(records@.take(j as int)),
                    u64::MAX - record_weight(*r),
                );
            }
            model.add_pre_cutoff(r, is_bugfix);
        } else {
            proof {
                lemma_bounded_mono(
                    model@,
                    done + records_weight(records@.take(j as int)),
                    done + records_weight(records@.take(j + 1)),
                );
            }
        }
        j += 1;
    }
    proof {
        assert(records@.take(j as int) =~= records@);
    }
}

#[verifier::rlimit(100)]
fn fold_commit_post_cutoff(
    model: &mut StatisticsModel,
    records: &Vec<ChangeRecord>,
    cutoff: u32,
    bugfix: &Vec<Pattern>,
    exclusions: &Vec<Pattern>,
    Ghost(done): Ghost<int>,
)
    requires
        old(model)@.wf(),
        old(model)@.bounded(done),
        0 <= done,
        done + records_weight(records@) <= u64::MAX,
    ensures
        final(model)@ == fold_post_cutoff(old(model)@, records@, cutoff as int, bugfix@, exclusions@),
        final(model)@.wf(),
        final(model)@.bounded(done + records_weight(records@)),
{
    let ghost base = old(model)@;
    let mut j: usize = 0;
    while j < records.len()
        invariant
            j <= records@.len(),
            model@ == fold_post_cutoff(base, records@.take(j as int), cutoff as int, bugfix@, exclusions@),
            model@.wf(),
            model@.bounded(done + records_weight(records@.take(j as int))),
            done + records_weight(records@) <= u64::MAX,
            0 <= done,
        decreases records@.len() - j,
    {
        let r = &records[j];
        proof {
            lemma_records_weight_prefix(records@, j + 1);
            assert(records@.take(j + 1).drop_last() =~= records@.take(j as int));
            lemma_records_weight_prefix(records@, j as int);
        }
        if r.age > cutoff {
            let is_bugfix = matches_any(bugfix, r.commit_message.as_str());
            let is_excluded = matches_any(exclusions, r.file_path.as_str());
            proof {
                lemma_bounded_mono(
                    model@,
                    done + records_weight(records@.take(j as int)),
                    u64::MAX - record_weight(*r),
                );
            }
            model.add_post_cutoff(r, is_bugfix, is_excluded);
        } else {
            proof {
                lemma_bounded_mono(
                    model@,
                    done + records_weight(records@.take(j as int)),
                    done + records_weight(records@.take(j + 1)),
                );
            }
        }
        j += 1;
    }
    proof {
        assert(records@.take(j as int) =~= records@);
    }
}

/// Builds the statistics of `history` with the train/evaluate split at
/// `cutoff_percent` of its maximum age. A record's commit message marks a
/// bug fix when one of `bugfix` matches it; a post-cutoff record whose path
/// one of `exclusions` matches is ignored.
pub fn aggregate(
    history: &Vec<CommitChanges>,
    cutoff_percent: u32,
    bugfix: &Vec<Pattern>,
    exclusions: &Vec<Pattern>,
) -> (r: StatisticsModel)
    requires
        history@.len() <= u32::MAX,
        cutoff_percent <= 100,
        2 * history_weight(history@) <= u64::MAX,
    ensures
        r@ == aggregated(history@, cutoff_percent as int, bugfix@, exclusions@),
        r@.wf(),
{
    let ghost h = history@;
    let ghost total = history_weight(h);
    let n = history.len();
    let max_age: u32 = if n == 0 { 0 } else { (n - 1) as u32 };
    let cutoff = age_cutoff_of(max_age, cutoff_percent);
    let ghost empty = empty_model(max_age as int);
    let mut model = StatisticsModel::new(max_age);
    let mut c: usize = 0;
    while c < history.len()
        invariant
            c <= h.len(),
            h == history@,
            model@ == pre_cutoff_pass(empty, h.take(c as int), cutoff as int, bugfix@),
            model@.wf(),
            model.max_age == max_age,
            model@.bounded(history_weight(h.take(c as int))),
            total == history_weight(h),
            2 * total <= u64::MAX,
            cutoff <= max_age,
        decreases h.len() - c,
    {
        proof {
            lemma_history_weight_prefix(h, c + 1);
            lemma_history_weight_prefix(h, c as int);
            assert(h.take(c + 1).drop_last() =~= h.take(c as int));
        }
        fold_commit_pre_cutoff(
            &mut model,
            &history[c].records,
            cutoff,
            bugfix,
            Ghost(history_weight(h.take(c as int))),
        );
        c += 1;
    }
    proof {
        assert(h.take(c as int) =~= h);
    }
    let ghost pre = model@;
    let mut c: usize = 0;
    while c < history.len()
        invariant
            c <= h.len(),
            h == history@,
            model@ == post_cutoff_pass(pre, h.take(c as int), cutoff as int, bugfix@, exclusions@),
            model@.wf(),
            model@.bounded(total + history_weight(h.take(c as int))),
            total == history_weight(h),
            2 * total <= u64::MAX,
        decreases h.len() - c,
    {
        proof {
            lemma_history_weight_prefix(h, c + 1);
            lemma_history_weight_prefix(h, c as int);
            assert(h.take(c + 1).drop_last() =~= h.take(c as int));
        }
        fold_commit_post_cutoff(
            &mut model,
            &history[c].records,
            cutoff,
            bugfix,
            exclusions,
            Ghost(total + history_weight(h.take(c as int))),
        );
        c += 1;
    }
    proof {
        assert(h.take(c as int) =~= h);
    }
    model
}

// ---------------------------------------------------------------------------
// Laws
/// The age cutoff grows with the cutoff percentage and never passes the
/// maximum age.
pub proof fn lemma_age_cutoff_monotone(max_age: int, low: int, high: int)
    requires
        0 <= max_age,
        0 <= low <= high <= 100,
    ensures
        age_cutoff(max_age, low) <= age_cutoff(max_age, high),
        age_cutoff(max_age, high) <= max_age,
{
    lemma_age_cutoff_bounds(max_age, high);
    assert(max_age * low <= max_age * high) by (nonlinear_arith)
        requires
            0 <= max_age,
            low <= high,
    ;
    assert(max_age * low / 100 <= max_age * high / 100) by (nonlinear_arith)
        requires
            max_age * low <= max_age * high,
    ;
}

/// The change count of file `path` in `m`, 0 where `m` does not hold it.
pub open spec fn file_freq(m: ModelView, path: Seq<char>) -> int {
    let names = file_names(m.files);
    if names.contains(path) {
        m.files[names.index_of(path)].tally.freq_counter
    } else {
        0
    }
}

/// The number of records of `rs` at or before `cutoff` that touch `path`.
pub open spec fn touches(rs: Seq<ChangeRecord>, cutoff: int, path: Seq<char>) -> int
    decreases rs.len(),
{
    if rs.len() == 0 {
        0
    } else {
        touches(rs.drop_last(), cutoff, path) + if rs.last().age <= cutoff && rs.last().file_path@
            == path {
            1int
        } else {
            0int
        }
    }
}

/// The number of pre-cutoff change records of `h` that touch `path`.
pub open spec fn pre_cutoff_touches(h: Seq<CommitChanges>, cutoff: int, path: Seq<char>) -> int
    decreases h.len(),
{
    if h.len() == 0 {
        0
    } else {
        pre_cutoff_touches(h.drop_last(), cutoff, path) + touches(h.last().records@, cutoff, path)
    }
}

proof fn lemma_mark_keeps(f: FileStatsView, names: Seq<String>)
    ensures
        mark_functions_fixed(f, names).name == f.name,
        mark_functions_fixed(f, names).tally == f.tally,
        mark_functions_fixed(f, names).post_cutoff_bugfix_commit_count
            == f.post_cutoff_bugfix_commit_count,
    decreases names.len(),
{
    reveal(mark_functions_fixed);
    if names.len() > 0 {
        lemma_mark_keeps(f, names.drop_last());
    }
}

proof fn lemma_freq_pre(m: ModelView, r: ChangeRecord, is_bugfix: bool, path: Seq<char>)
    requires
        unique_names(file_names(m.files)),
    ensures
        unique_names(file_names(add_pre_cutoff(m, r, is_bugfix).files)),
        file_freq(add_pre_cutoff(m, r, is_bugfix), path) == file_freq(m, path) + if r.file_path@
            == path {
            1int
        } else {
            0int
        },
{
    let names = file_names(m.files);
    let n = add_pre_cutoff(m, r, is_bugfix);
    let nn = file_names(n.files);
    if names.contains(r.file_path@) {
        assert(nn =~= names);
        if names.contains(path) {
            let k = names.index_of(path);
            assert(names[k] == path);
        }
    } else {
        assert(nn =~= names.push(r.file_path@));
        assert(nn[names.len() as int] == r.file_path@);
        if path == r.file_path@ {
            let k = nn.index_of(path);
            assert(nn[k] == path);
        } else if names.contains(path) {
            let k = names.index_of(path);
            assert(names[k] == path);
            assert(nn[k] == path);
            lemma_unique_index(names, k);
            let k2 = nn.index_of(path);
            assert(nn[k2] == path);
        } else {
            if nn.contains(path) {
                let k = nn.index_of(path);
                assert(names[k] == path);
            }
        }
    }
}

proof fn lemma_freq_post(m: ModelView, r: ChangeRecord, is_bugfix: bool, is_excluded: bool, path: Seq<char>)
    ensures
        file_names(add_post_cutoff(m, r, is_bugfix, is_excluded).files) == file_names(m.files),
        file_freq(add_post_cutoff(m, r, is_bugfix, is_excluded), path) == file_freq(m, path),
{
    let names = file_names(m.files);
    let n = add_post_cutoff(m, r, is_bugfix, is_excluded);
    if !(is_excluded || !is_bugfix || !names.contains(r.file_path@)) {
        let i = names.index_of(r.file_path@);
        let f = m.files[i];
        let counted = FileStatsView {
            post_cutoff_bugfix_commit_count: f.post_cutoff_bugfix_commit_count + 1,
            ..f
        };
        lemma_mark_keeps(counted, r.functions@);
        assert(file_names(n.files) =~= names);
    }
}

proof fn lemma_freq_fold_pre(m: ModelView, rs: Seq<ChangeRecord>, cutoff: int, bugfix: Seq<Pattern>, path: Seq<char>)
    requires
        unique_names(file_names(m.files)),
    ensures
        unique_names(file_names(fold_pre_cutoff(m, rs, cutoff, bugfix).files)),
        file_freq(fold_pre_cutoff(m, rs, cutoff, bugfix), path) == file_freq(m, path) + touches(
            rs,
            cutoff,
            path,
        ),
    decreases rs.len(),
{
    if rs.len() > 0 {
        lemma_freq_fold_pre(m, rs.drop_last(), cutoff, bugfix, path);
        let before = fold_pre_cutoff(m, rs.drop_last(), cutoff, bugfix);
        if rs.last().age <= cutoff {
            lemma_freq_pre(before, rs.last(), any_match(bugfix, rs.last().commit_message@), path);
        }
    }
}

proof fn lemma_freq_pass_pre(m: ModelView, h: Seq<CommitChanges>, cutoff: int, bugfix: Seq<Pattern>, path: Seq<char>)
    requires
        unique_names(file_names(m.files)),
    ensures
        unique_names(file_names(pre_cutoff_pass(m, h, cutoff, bugfix).files)),
        file_freq(pre_cutoff_pass(m, h, cutoff, bugfix), path) == file_freq(m, path)
            + pre_cutoff_touches(h, cutoff, path),
    decreases h.len(),
{
    if h.len() > 0 {
        lemma_freq_pass_pre(m, h.drop_last(), cutoff, bugfix, path);
        lemma_freq_fold_pre(
            pre_cutoff_pass(m, h.drop_last(), cutoff, bugfix),
            h.last().records@,
            cutoff,
            bugfix,
            path,
        );
    }
}

proof fn lemma_freq_fold_post(
    m: ModelView,
    rs: Seq<ChangeRecord>,
    cutoff: int,
    bugfix: Seq<Pattern>,
    exclusions: Seq<Pattern>,
    path: Seq<char>,
)
    ensures
        file_freq(fold_post_cutoff(m, rs, cutoff, bugfix, exclusions), path) == file_freq(m, path),
    decreases rs.len(),
{
    if rs.len() > 0 {
        lemma_freq_fold_post(m, rs.drop_last(), cutoff, bugfix, exclusions, path);
        let before = fold_post_cutoff(m, rs.drop_last(), cutoff, bugfix, exclusions);
        let r = rs.last();
        lemma_freq_post(
            before,
            r,
            any_match(bugfix, r.commit_message@),
            any_match(exclusions, r.file_path@),
            path,
        );
    }
}

proof fn lemma_freq_pass_post(
    m: ModelView,
    h: Seq<CommitChanges>,
    cutoff: int,
    bugfix: Seq<Pattern>,
    exclusions: Seq<Pattern>,
    path: Seq<char>,
)
    ensures
        file_freq(post_cutoff_pass(m, h, cutoff, bugfix, exclusions), path) == file_freq(m, path),
    decreases h.len(),
{
    if h.len() > 0 {
        lemma_freq_pass_post(m, h.drop_last(), cutoff, bugfix, exclusions, path);
        lemma_freq_fold_post(
            post_cutoff_pass(m, h.drop_last(), cutoff, bugfix, exclusions),
            h.last().records@,
            cutoff,
            bugfix,
            exclusions,
            path,
        );
    }
}

/// After aggregation, a file's change count is the number of pre-cutoff
/// change records that touch it (0 for a file the model does not hold).
pub proof fn lemma_freq_counts_pre_cutoff_touches(
    h: Seq<CommitChanges>,
    cutoff_percent: int,
    bugfix: Seq<Pattern>,
    exclusions: Seq<Pattern>,
    path: Seq<char>,
)
    ensures
        file_freq(aggregated(h, cutoff_percent, bugfix, exclusions), path) == pre_cutoff_touches(
            h,
            age_cutoff(max_age_of(h.len() as int), cutoff_percent),
            path,
        ),
{
    let max_age = max_age_of(h.len() as int);
    let cutoff = age_cutoff(max_age, cutoff_percent);
    let empty = empty_model(max_age);
    assert(file_names(empty.files) =~= Seq::<Seq<char>>::empty());
    lemma_freq_pass_pre(empty, h, cutoff, bugfix, path);
    lemma_freq_pass_post(pre_cutoff_pass(empty, h, cutoff, bugfix), h, cutoff, bugfix, exclusions, path);
}

/// In a well-formed model, the oldest age of every file and every function
/// is at most its newest age, and both lie in `[0, max_age]`; the model's
/// updates and `aggregate` keep models well-formed.
pub proof fn lemma_age_ranges_ordered(m: ModelView)
    requires
        m.wf(),
    ensures
        forall|i: int|
            0 <= i < m.files.len() ==> 0 <= (#[trigger] m.files[i]).tally.oldest_age
                <= m.files[i].tally.newest_age <= m.max_age,
        forall|i: int, j: int|
            0 <= i < m.files.len() && 0 <= j < m.files[i].functions.len() ==> 0 <= (
            #[trigger] m.files[i].functions[j]).tally.oldest_age
                <= m.files[i].functions[j].tally.newest_age <= m.max_age,
{
    assert forall|i: int, j: int|
        0 <= i < m.files.len() && 0 <= j < m.files[i].functions.len() implies 0 <= (
    #[trigger] m.files[i].functions[j]).tally.oldest_age
        <= m.files[i].functions[j].tally.newest_age <= m.max_age by {
        assert(file_wf(m.files[i], m.max_age, m.total_post_cutoff_bugfixes));
        assert(function_wf(m.files[i].functions[j], m.max_age));
    }
    assert forall|i: int| 0 <= i < m.files.len() implies 0 <= (
    #[trigger] m.files[i]).tally.oldest_age <= m.files[i].tally.newest_age <= m.max_age by {
        assert(file_wf(m.files[i], m.max_age, m.total_post_cutoff_bugfixes));
    }
}

/// Aggregating the same history with the same cutoff and patterns twice
/// gives the same model.
pub proof fn lemma_aggregate_deterministic(
    h: Seq<CommitChanges>,
    cutoff_percent: int,
    bugfix: Seq<Pattern>,
    exclusions: Seq<Pattern>,
    first: ModelView,
    second: ModelView,
)
    requires
        first == aggregated(h, cutoff_percent, bugfix, exclusions),
        second == aggregated(h, cutoff_percent, bugfix, exclusions),
    ensures
        first == second,
{
}


pub open spec fn fix_count_sum(files: Seq<FileStatsView>) -> int
    decreases files.len(),
{
    if files.len() == 0 {
        0
    } else {
        fix_count_sum(files.drop_last()) + files.last().post_cutoff_bugfix_commit_count
    }
}

proof fn lemma_fix_count_sum_update(files: Seq<FileStatsView>, i: int, f: FileStatsView)
    requires
        0 <= i < files.len(),
    ensures
        fix_count_sum(files.update(i, f)) == fix_count_sum(files)
            - files[i].post_cutoff_bugfix_commit_count + f.post_cutoff_bugfix_commit_count,
    decreases files.len(),
{
    if i < files.len() - 1 {
        lemma_fix_count_sum_update(files.drop_last(), i, f);
        assert(files.update(i, f).drop_last() =~= files.drop_last().update(i, f));
    } else {
        assert(files.update(i, f).drop_last() =~= files.drop_last());
    }
}

/// What the updates keep: the sum of the files' post-cutoff fix counts
/// against the total, and whether every file has been counted at least once.
pub open spec fn sums_to_total(m: ModelView) -> bool {
    fix_count_sum(m.files) == m.total_post_cutoff_bugfixes
}

pub open spec fn all_counted(m: ModelView) -> bool {
    forall|i: int| 0 <= i < m.files.len() ==> (#[trigger] m.files[i]).tally.freq_counter >= 1
}

pub open spec fn none_fixed(m: ModelView) -> bool {
    forall|i: int| 0 <= i < m.files.len() ==> (#[trigger] m.files[i]).post_cutoff_bugfix_commit_count == 0
}

proof fn lemma_pre_keeps(m: ModelView, r: ChangeRecord, is_bugfix: bool)
    ensures
        add_pre_cutoff(m, r, is_bugfix).total_post_cutoff_bugfixes == m.total_post_cutoff_bugfixes,
        fix_count_sum(add_pre_cutoff(m, r, is_bugfix).files) == fix_count_sum(m.files),
        all_counted(m) ==> all_counted(add_pre_cutoff(m, r, is_bugfix)),
        none_fixed(m) ==> none_fixed(add_pre_cutoff(m, r, is_bugfix)),
{
    let names = file_names(m.files);
    let n = add_pre_cutoff(m, r, is_bugfix);
    if names.contains(r.file_path@) {
        let i = names.index_of(r.file_path@);
        lemma_fix_count_sum_update(m.files, i, n.files[i]);
        assert(n.files == m.files.update(i, n.files[i]));
        if all_counted(m) {
            assert forall|k: int| 0 <= k < n.files.len() implies (#[trigger] n.files[k]).tally.freq_counter >= 1 by {
                assert(m.files[k].tally.freq_counter >= 1);
            }
        }
        if none_fixed(m) {
            assert forall|k: int| 0 <= k < n.files.len() implies (#[trigger] n.files[k]).post_cutoff_bugfix_commit_count == 0 by {
                assert(m.files[k].post_cutoff_bugfix_commit_count == 0);
            }
        }
    } else {
        assert(n.files.drop_last() =~= m.files);
        if all_counted(m) {
            assert forall|k: int| 0 <= k < n.files.len() implies (#[trigger] n.files[k]).tally.freq_counter >= 1 by {
                if k < m.files.len() {
                    assert(m.files[k].tally.freq_counter >= 1);
                }
            }
        }
        if none_fixed(m) {
            assert forall|k: int| 0 <= k < n.files.len() implies (#[trigger] n.files[k]).post_cutoff_bugfix_commit_count == 0 by {
                if k < m.files.len() {
                    assert(m.files[k].post_cutoff_bugfix_commit_count == 0);
                }
            }
        }
    }
}

proof fn lemma_post_keeps(m: ModelView, r: ChangeRecord, is_bugfix: bool, is_excluded: bool)
    ensures
        sums_to_total(m) ==> sums_to_total(add_post_cutoff(m, r, is_bugfix, is_excluded)),
        all_counted(m) ==> all_counted(add_post_cutoff(m, r, is_bugfix, is_excluded)),
        file_names(add_post_cutoff(m, r, is_bugfix, is_excluded).files) == file_names(m.files),
{
    let names = file_names(m.files);
    let n = add_post_cutoff(m, r, is_bugfix, is_excluded);
    if !(is_excluded || !is_bugfix || !names.contains(r.file_path@)) {
        let i = names.index_of(r.file_path@);
        let f = m.files[i];
        let counted = FileStatsView {
            post_cutoff_bugfix_commit_count: f.post_cutoff_bugfix_commit_count + 1,
            ..f
        };
        lemma_mark_keeps(counted, r.functions@);
        lemma_fix_count_sum_update(m.files, i, n.files[i]);
        assert(file_names(n.files) =~= names);
        if all_counted(m) {
            assert forall|k: int| 0 <= k < n.files.len() implies (#[trigger] n.files[k]).tally.freq_counter >= 1 by {
                assert(m.files[k].tally.freq_counter >= 1);
            }
        }
    }
}

proof fn lemma_fold_pre_keeps(m: ModelView, rs: Seq<ChangeRecord>, cutoff: int, bugfix: Seq<Pattern>)
    ensures
        fold_pre_cutoff(m, rs, cutoff, bugfix).total_post_cutoff_bugfixes == m.total_post_cutoff_bugfixes,
        fix_count_sum(fold_pre_cutoff(m, rs, cutoff, bugfix).files) == fix_count_sum(m.files),
        all_counted(m) ==> all_counted(fold_pre_cutoff(m, rs, cutoff, bugfix)),
        none_fixed(m) ==> none_fixed(fold_pre_cutoff(m, rs, cutoff, bugfix)),
    decreases rs.len(),
{
    if rs.len() > 0 {
        lemma_fold_pre_keeps(m, rs.drop_last(), cutoff, bugfix);
        let before = fold_pre_cutoff(m, rs.drop_last(), cutoff, bugfix);
        lemma_pre_keeps(before, rs.last(), any_match(bugfix, rs.last().commit_message@));
    }
}

proof fn lemma_pass_pre_keeps(m: ModelView, h: Seq<CommitChanges>, cutoff: int, bugfix: Seq<Pattern>)
    ensures
        pre_cutoff_pass(m, h, cutoff, bugfix).total_post_cutoff_bugfixes == m.total_post_cutoff_bugfixes,
        fix_count_sum(pre_cutoff_pass(m, h, cutoff, bugfix).files) == fix_count_sum(m.files),
        all_counted(m) ==> all_counted(pre_cutoff_pass(m, h, cutoff, bugfix)),
        none_fixed(m) ==> none_fixed(pre_cutoff_pass(m, h, cutoff, bugfix)),
    decreases h.len(),
{
    if h.len() > 0 {
        lemma_pass_pre_keeps(m, h.drop_last(), cutoff, bugfix);
        lemma_fold_pre_keeps(pre_cutoff_pass(m, h.drop_last(), cutoff, bugfix), h.last().records@, cutoff, bugfix);
    }
}

proof fn lemma_fold_post_keeps(m: ModelView, rs: Seq<ChangeRecord>, cutoff: int, bugfix: Seq<Pattern>, exclusions: Seq<Pattern>)
    ensures
        sums_to_total(m) ==> sums_to_total(fold_post_cutoff(m, rs, cutoff, bugfix, exclusions)),
        all_counted(m) ==> all_counted(fold_post_cutoff(m, rs, cutoff, bugfix, exclusions)),
        file_names(fold_post_cutoff(m, rs, cutoff, bugfix, exclusions).files) == file_names(m.files),
        (forall|k: int| 0 <= k < rs.len() ==> (#[trigger] rs[k]).age <= cutoff) ==> fold_post_cutoff(
            m,
            rs,
            cutoff,
            bugfix,
            exclusions,
        ) == m,
    decreases rs.len(),
{
    if rs.len() > 0 {
        lemma_fold_post_keeps(m, rs.drop_last(), cutoff, bugfix, exclusions);
        let before = fold_post_cutoff(m, rs.drop_last(), cutoff, bugfix, exclusions);
        let r = rs.last();
        lemma_post_keeps(before, r, any_match(bugfix, r.commit_message@), any_match(exclusions, r.file_path@));
        if forall|k: int| 0 <= k < rs.len() ==> (#[trigger] rs[k]).age <= cutoff {
            assert forall|k: int| 0 <= k < rs.drop_last().len() implies (#[trigger] rs.drop_last()[k]).age <= cutoff by {
                assert(rs.drop_last()[k] == rs[k]);
            }
            assert(rs[rs.len() - 1].age <= cutoff);
        }
    }
}

/// Every record of `h` is at most `bound` old.
pub open spec fn ages_at_most(h: Seq<CommitChanges>, bound: int) -> bool {
    forall|c: int, k: int|
        0 <= c < h.len() && 0 <= k < h[c].records@.len() ==> (#[trigger] h[c].records@[k]).age <= bound
}

proof fn lemma_pass_post_keeps(m: ModelView, h: Seq<CommitChanges>, cutoff: int, bugfix: Seq<Pattern>, exclusions: Seq<Pattern>)
    ensures
        sums_to_total(m) ==> sums_to_total(post_cutoff_pass(m, h, cutoff, bugfix, exclusions)),
        all_counted(m) ==> all_counted(post_cutoff_pass(m, h, cutoff, bugfix, exclusions)),
        file_names(post_cutoff_pass(m, h, cutoff, bugfix, exclusions).files) == file_names(m.files),
        ages_at_most(h, cutoff) ==> post_cutoff_pass(m, h, cutoff, bugfix, exclusions) == m,
    decreases h.len(),
{
    if h.len() > 0 {
        lemma_pass_post_keeps(m, h.drop_last(), cutoff, bugfix, exclusions);
        let before = post_cutoff_pass(m, h.drop_last(), cutoff, bugfix, exclusions);
        lemma_fold_post_keeps(before, h.last().records@, cutoff, bugfix, exclusions);
        if ages_at_most(h, cutoff) {
            assert forall|c: int, k: int|
                0 <= c < h.drop_last().len() && 0 <= k < h.drop_last()[c].records@.len() implies (
            #[trigger] h.drop_last()[c].records@[k]).age <= cutoff by {
                assert(h.drop_last()[c] == h[c]);
            }
            assert forall|k: int| 0 <= k < h.last().records@.len() implies (
            #[trigger] h.last().records@[k]).age <= cutoff by {
                assert(h[h.len() - 1].records@[k].age <= cutoff);
            }
        }
    }
}

/// After aggregation, the files' post-cutoff bug-fix counts add up to the
/// model's total; each is at most the total, so every step of a capture
/// walk adds a share between 0 and 100%.
pub proof fn lemma_fix_counts_sum_to_total(
    h: Seq<CommitChanges>,
    cutoff_percent: int,
    bugfix: Seq<Pattern>,
    exclusions: Seq<Pattern>,
)
    ensures
        fix_count_sum(aggregated(h, cutoff_percent, bugfix, exclusions).files) == aggregated(
            h,
            cutoff_percent,
            bugfix,
            exclusions,
        ).total_post_cutoff_bugfixes,
{
    let max_age = max_age_of(h.len() as int);
    let cutoff = age_cutoff(max_age, cutoff_percent);
    let empty = empty_model(max_age);
    lemma_pass_pre_keeps(empty, h, cutoff, bugfix);
    lemma_pass_post_keeps(pre_cutoff_pass(empty, h, cutoff, bugfix), h, cutoff, bugfix, exclusions);
}

/// At a cutoff of 100%, in a history whose records are no older than its
/// newest commit, every record is pre-cutoff: no post-cutoff bug fix is
/// counted, for the model or for any file.
pub proof fn lemma_full_cutoff_counts_no_fixes(h: Seq<CommitChanges>, bugfix: Seq<Pattern>, exclusions: Seq<Pattern>)
    requires
        ages_at_most(h, max_age_of(h.len() as int)),
    ensures
        aggregated(h, 100, bugfix, exclusions).total_post_cutoff_bugfixes == 0,
        none_fixed(aggregated(h, 100, bugfix, exclusions)),
{
    let max_age = max_age_of(h.len() as int);
    assert(age_cutoff(max_age, 100) == max_age) by (nonlinear_arith);
    let empty = empty_model(max_age);
    lemma_pass_pre_keeps(empty, h, max_age, bugfix);
    lemma_pass_post_keeps(pre_cutoff_pass(empty, h, max_age, bugfix), h, max_age, bugfix, exclusions);
}

proof fn lemma_touches_mono(rs: Seq<ChangeRecord>, low: int, high: int, path: Seq<char>)
    requires
        low <= high,
    ensures
        0 <= touches(rs, low, path) <= touches(rs, high, path),
    decreases rs.len(),
{
    if rs.len() > 0 {
        lemma_touches_mono(rs.drop_last(), low, high, path);
    }
}

proof fn lemma_pre_touches_mono(h: Seq<CommitChanges>, low: int, high: int, path: Seq<char>)
    requires
        low <= high,
    ensures
        0 <= pre_cutoff_touches(h, low, path) <= pre_cutoff_touches(h, high, path),
    decreases h.len(),
{
    if h.len() > 0 {
        lemma_pre_touches_mono(h.drop_last(), low, high, path);
        lemma_touches_mono(h.last().records@, low, high, path);
    }
}

/// After aggregation a file is in the model exactly when some pre-cutoff
/// record touches it.
pub proof fn lemma_present_iff_touched(
    h: Seq<CommitChanges>,
    cutoff_percent: int,
    bugfix: Seq<Pattern>,
    exclusions: Seq<Pattern>,
    path: Seq<char>,
)
    ensures
        file_names(aggregated(h, cutoff_percent, bugfix, exclusions).files).contains(path)
            <==> pre_cutoff_touches(h, age_cutoff(max_age_of(h.len() as int), cutoff_percent), path) > 0,
{
    let max_age = max_age_of(h.len() as int);
    let cutoff = age_cutoff(max_age, cutoff_percent);
    let empty = empty_model(max_age);
    let m = aggregated(h, cutoff_percent, bugfix, exclusions);
    lemma_pass_pre_keeps(empty, h, cutoff, bugfix);
    lemma_pass_post_keeps(pre_cutoff_pass(empty, h, cutoff, bugfix), h, cutoff, bugfix, exclusions);
    lemma_freq_counts_pre_cutoff_touches(h, cutoff_percent, bugfix, exclusions, path);
    let names = file_names(m.files);
    if names.contains(path) {
        let i = names.index_of(path);
        assert(m.files[i].tally.freq_counter >= 1);
    }
}

/// Raising the cutoff percentage keeps every file in the model and never
/// lowers a file's change count.
pub proof fn lemma_counts_grow_with_cutoff(
    h: Seq<CommitChanges>,
    low: int,
    high: int,
    bugfix: Seq<Pattern>,
    exclusions: Seq<Pattern>,
    path: Seq<char>,
)
    requires
        0 <= low <= high <= 100,
    ensures
        file_freq(aggregated(h, low, bugfix, exclusions), path) <= file_freq(
            aggregated(h, high, bugfix, exclusions),
            path,
        ),
        file_names(aggregated(h, low, bugfix, exclusions).files).contains(path) ==> file_names(
            aggregated(h, high, bugfix, exclusions).files,
        ).contains(path),
{
    let max_age = max_age_of(h.len() as int);
    lemma_age_cutoff_monotone(max_age, low, high);
    lemma_pre_touches_mono(h, age_cutoff(max_age, low), age_cutoff(max_age, high), path);
    lemma_freq_counts_pre_cutoff_touches(h, low, bugfix, exclusions, path);
    lemma_freq_counts_pre_cutoff_touches(h, high, bugfix, exclusions, path);
    lemma_present_iff_touched(h, low, bugfix, exclusions, path);
    lemma_present_iff_touched(h, high, bugfix, exclusions, path);
}


/// Whether record `r` is a post-cutoff bug fix that counts: not excluded,
/// and on a file that some pre-cutoff record of `h` touches.
pub open spec fn counts_as_fix(
    r: ChangeRecord,
    h: Seq<CommitChanges>,
    cutoff: int,
    bugfix: Seq<Pattern>,
    exclusions: Seq<Pattern>,
) -> bool {
    &&& r.age > cutoff
    &&& any_match(bugfix, r.commit_message@)
    &&& !any_match(exclusions, r.file_path@)
    &&& pre_cutoff_touches(h, cutoff, r.file_path@) > 0
}

pub open spec fn fixes_in(
    rs: Seq<ChangeRecord>,
    h: Seq<CommitChanges>,
    cutoff: int,
    bugfix: Seq<Pattern>,
    exclusions: Seq<Pattern>,
) -> int
    decreases rs.len(),
{
    if rs.len() == 0 {
        0
    } else {
        fixes_in(rs.drop_last(), h, cutoff, bugfix, exclusions) + if counts_as_fix(
            rs.last(),
            h,
            cutoff,
            bugfix,
            exclusions,
        ) {
            1int
        } else {
            0int
        }
    }
}

/// The number of records of `commits` that count as post-cutoff bug fixes
/// against history `h`.
pub open spec fn fixes_in_history(
    commits: Seq<CommitChanges>,
    h: Seq<CommitChanges>,
    cutoff: int,
    bugfix: Seq<Pattern>,
    exclusions: Seq<Pattern>,
) -> int
    decreases commits.len(),
{
    if commits.len() == 0 {
        0
    } else {
        fixes_in_history(commits.drop_last(), h, cutoff, bugfix, exclusions) + fixes_in(
            commits.last().records@,
            h,
            cutoff,
            bugfix,
            exclusions,
        )
    }
}

proof fn lemma_fold_post_total(
    m: ModelView,
    rs: Seq<ChangeRecord>,
    h: Seq<CommitChanges>,
    cutoff: int,
    bugfix: Seq<Pattern>,
    exclusions: Seq<Pattern>,
)
    requires
        forall|p: Seq<char>| #[trigger] file_names(m.files).contains(p) <==> pre_cutoff_touches(h, cutoff, p) > 0,
    ensures
        fold_post_cutoff(m, rs, cutoff, bugfix, exclusions).total_post_cutoff_bugfixes
            == m.total_post_cutoff_bugfixes + fixes_in(rs, h, cutoff, bugfix, exclusions),
    decreases rs.len(),
{
    if rs.len() > 0 {
        lemma_fold_post_total(m, rs.drop_last(), h, cutoff, bugfix, exclusions);
        lemma_fold_post_keeps(m, rs.drop_last(), cutoff, bugfix, exclusions);
        let before = fold_post_cutoff(m, rs.drop_last(), cutoff, bugfix, exclusions);
        assert(file_names(before.files).contains(rs.last().file_path@) <==> file_names(m.files).contains(
            rs.last().file_path@,
        ));
    }
}

proof fn lemma_pass_post_total(
    m: ModelView,
    commits: Seq<CommitChanges>,
    h: Seq<CommitChanges>,
    cutoff: int,
    bugfix: Seq<Pattern>,
    exclusions: Seq<Pattern>,
)
    requires
        forall|p: Seq<char>| #[trigger] file_names(m.files).contains(p) <==> pre_cutoff_touches(h, cutoff, p) > 0,
    ensures
        post_cutoff_pass(m, commits, cutoff, bugfix, exclusions).total_post_cutoff_bugfixes
            == m.total_post_cutoff_bugfixes + fixes_in_history(commits, h, cutoff, bugfix, exclusions),
    decreases commits.len(),
{
    if commits.len() > 0 {
        lemma_pass_post_total(m, commits.drop_last(), h, cutoff, bugfix, exclusions);
        lemma_pass_post_keeps(m, commits.drop_last(), cutoff, bugfix, exclusions);
        let before = post_cutoff_pass(m, commits.drop_last(), cutoff, bugfix, exclusions);
        lemma_fold_post_total(before, commits.last().records@, h, cutoff, bugfix, exclusions);
    }
}

/// After aggregation, the total of post-cutoff bug fixes is the number of
/// post-cutoff records whose message marks a bug fix, whose path is not
/// excluded, and whose file some pre-cutoff record touches. In particular
/// it is 0 (and a backtest reports no signal) exactly when there is no
/// such record.
pub proof fn lemma_total_counts_fixes(
    h: Seq<CommitChanges>,
    cutoff_percent: int,
    bugfix: Seq<Pattern>,
    exclusions: Seq<Pattern>,
)
    ensures
        aggregated(h, cutoff_percent, bugfix, exclusions).total_post_cutoff_bugfixes
            == fixes_in_history(
            h,
            h,
            age_cutoff(max_age_of(h.len() as int), cutoff_percent),
            bugfix,
            exclusions,
        ),
{
    let max_age = max_age_of(h.len() as int);
    let cutoff = age_cutoff(max_age, cutoff_percent);
    let empty = empty_model(max_age);
    let pre = pre_cutoff_pass(empty, h, cutoff, bugfix);
    lemma_pass_pre_keeps(empty, h, cutoff, bugfix);
    lemma_pass_post_keeps(pre, h, cutoff, bugfix, exclusions);
    assert forall|p: Seq<char>| #[trigger] file_names(pre.files).contains(p) <==> pre_cutoff_touches(
        h,
        cutoff,
        p,
    ) > 0 by {
        lemma_present_iff_touched(h, cutoff_percent, bugfix, exclusions, p);
    }
    lemma_pass_post_total(pre, h, h, cutoff, bugfix, exclusions);
}

} // verus!
