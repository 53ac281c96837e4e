//! Laying file values out along the directory structure. The tree is kept
//! as its leaves; a directory's value is the sum over the leaves below it,
//! computed when asked for.
use vstd::prelude::*;
use crate::backtest::{key_values, rank_descending, ranked};
use crate::history::split_on;
use crate::pattern::{Pattern, matches_any, texts_of};
use crate::pattern::any_match;
use crate::score::score_of;
use crate::stats::{FileStatsView, StatisticsModel};

verus! {

/// A file of the tree: its directory names and file name, and its value.
pub struct TreeLeaf {
    pub path: Vec<String>,
    pub value: i128,
}

pub struct LeafView {
    pub path: Seq<Seq<char>>,
    pub value: int,
}

impl View for TreeLeaf {
    type V = LeafView;

    open spec fn view(&self) -> LeafView {
        LeafView { path: texts_of(self.path@), value: self.value as int }
    }
}

pub open spec fn leaf_views(ls: Seq<TreeLeaf>) -> Seq<LeafView> {
    ls.map_values(|l: TreeLeaf| l@)
}

/// Files with values, placed in their directories.
pub struct FolderTree {
    leaves: Vec<TreeLeaf>,
    /// The sum of the magnitudes of all leaf values.
    magnitude: i128,
}

impl View for FolderTree {
    type V = Seq<LeafView>;

    closed spec fn view(&self) -> Seq<LeafView> {
        leaf_views(self.leaves@)
    }
}

pub open spec fn leaf_paths(ls: Seq<LeafView>) -> Seq<Seq<Seq<char>>> {
    ls.map_values(|l: LeafView| l.path)
}

pub open spec fn abs(v: int) -> int {
    if v < 0 {
        -v
    } else {
        v
    }
}

/// The sum of the magnitudes of all leaf values.
pub open spec fn abs_total(ls: Seq<LeafView>) -> int
    decreases ls.len(),
{
    if ls.len() == 0 {
        0
    } else {
        abs_total(ls.drop_last()) + abs(ls.last().value)
    }
}

/// No two leaves share a path, and all values together fit an `i128`.
pub open spec fn tree_wf(ls: Seq<LeafView>) -> bool {
    &&& forall|i: int, j: int|
        0 <= i < ls.len() && 0 <= j < ls.len() && i != j ==> ls[i].path != ls[j].path
    &&& abs_total(ls) <= i128::MAX
}

// ---------------------------------------------------------------------------
// Paths
/// The non-empty pieces of `parts`.
pub open spec fn nonempty(parts: Seq<Seq<char>>) -> Seq<Seq<char>>
    decreases parts.len(),
{
    if parts.len() == 0 {
        seq![]
    } else if parts.last().len() == 0 {
        nonempty(parts.drop_last())
    } else {
        nonempty(parts.drop_last()).push(parts.last())
    }
}

/// Where a file path lands in the tree: its non-empty directory names, then
/// its file name.
pub open spec fn path_segments(path: Seq<char>) -> Seq<Seq<char>> {
    let parts = split_on(path, '/');
    nonempty(parts.drop_last()).push(parts.last())
}

/// The directory that a directory path names: its non-empty pieces.
pub open spec fn dir_segments(path: Seq<char>) -> Seq<Seq<char>> {
    nonempty(split_on(path, '/'))
}

/// Relies on str::split: the pieces of `s` between the `/` characters.
#[verifier::external_body]
fn split_path(s: &str) -> (r: Vec<String>)
    ensures
        texts_of(r@) == split_on(s@, '/'),
{
    s.split('/').map(|p| p.to_string()).collect()
}

fn nonempty_of(parts: &Vec<String>, upto: usize) -> (r: Vec<String>)
    requires
        upto <= parts@.len(),
    ensures
        texts_of(r@) == nonempty(texts_of(parts@).take(upto as int)),
{
    let ghost ps = texts_of(parts@);
    let mut out: Vec<String> = Vec::new();
    let mut i: usize = 0;
    while i < upto
        invariant
            i <= upto <= parts@.len(),
            ps == texts_of(parts@),
            texts_of(out@) == nonempty(ps.take(i as int)),
        decreases upto - i,
    {
        proof {
            assert(ps.take(i + 1).drop_last() =~= ps.take(i as int));
            assert(ps.take(i + 1).last() == parts@[i as int]@);
        }
        if !parts[i].as_str().is_empty() {
            let ghost before = out@;
            out.push(parts[i].clone());
            proof {
                assert(texts_of(out@) =~= texts_of(before).push(parts@[i as int]@));
            }
        } else {
            proof {
                assert(parts@[i as int]@.len() == 0);
            }
        }
        i += 1;
    }
    out
}

proof fn lemma_split_nonempty(s: Seq<char>, sep: char)
    ensures
        split_on(s, sep).len() >= 1,
    decreases s.len(),
{
    if s.len() > 0 {
        lemma_split_nonempty(s.drop_last(), sep);
    }
}

/// Where the file at `path` lands in the tree.
pub fn segments_of_file(path: &str) -> (r: Vec<String>)
    ensures
        texts_of(r@) == path_segments(path@),
{
    let parts = split_path(path);
    proof {
        lemma_split_nonempty(path@, '/');
    }
    let n = parts.len();
    let mut segs = nonempty_of(&parts, n - 1);
    let ghost before = segs@;
    segs.push(parts[n - 1].clone());
    proof {
        assert(texts_of(parts@).take(n - 1) =~= texts_of(parts@).drop_last());
        assert(texts_of(segs@) =~= texts_of(before).push(parts@[n - 1]@));
    }
    segs
}

/// The directory that the directory path `path` names.
pub fn segments_of_dir(path: &str) -> (r: Vec<String>)
    ensures
        texts_of(r@) == dir_segments(path@),
{
    let parts = split_path(path);
    proof {
        assert(texts_of(parts@).take(parts@.len() as int) =~= texts_of(parts@));
    }
    nonempty_of(&parts, parts.len())
}

fn same_texts(a: &Vec<String>, b: &Vec<String>) -> (r: bool)
    ensures
        r == (texts_of(a@) == texts_of(b@)),
{
    if a.len() != b.len() {
        proof {
            assert(texts_of(a@).len() != texts_of(b@).len());
        }
        return false;
    }
    let mut i: usize = 0;
    while i < a.len()
        invariant
            i <= a@.len(),
            a@.len() == b@.len(),
            forall|k: int| 0 <= k < i ==> (#[trigger] a@[k])@ == b@[k]@,
        decreases a@.len() - i,
    {
        if a[i] != b[i] {
            proof {
                assert(texts_of(a@)[i as int] != texts_of(b@)[i as int]);
            }
            return false;
        }
        i += 1;
    }
    proof {
        assert(texts_of(a@) =~= texts_of(b@));
    }
    true
}

fn copy_texts(a: &Vec<String>) -> (r: Vec<String>)
    ensures
        texts_of(r@) == texts_of(a@),
{
    let mut out: Vec<String> = Vec::new();
    let mut i: usize = 0;
    while i < a.len()
        invariant
            i <= a@.len(),
            texts_of(out@) == texts_of(a@).take(i as int),
        decreases a@.len() - i,
    {
        let ghost before = out@;
        out.push(a[i].clone());
        proof {
            assert(texts_of(out@) =~= texts_of(before).push(a@[i as int]@));
        }
        i += 1;
        proof {
            assert(texts_of(out@) =~= texts_of(a@).take(i as int));
        }
    }
    proof {
        assert(texts_of(a@).take(i as int) =~= texts_of(a@));
    }
    out
}

// ---------------------------------------------------------------------------
// Adding files
/// The leaves after adding `value` to the file at `path`.
pub open spec fn with_file(ls: Seq<LeafView>, path: Seq<Seq<char>>, value: int) -> Seq<LeafView> {
    let paths = leaf_paths(ls);
    if paths.contains(path) {
        let i = paths.index_of(path);
        ls.update(i, LeafView { value: ls[i].value + value, ..ls[i] })
    } else {
        ls.push(LeafView { path, value })
    }
}

proof fn lemma_abs_total_update(ls: Seq<LeafView>, i: int, l: LeafView)
    requires
        0 <= i < ls.len(),
    ensures
        abs_total(ls.update(i, l)) == abs_total(ls) - abs(ls[i].value) + abs(l.value),
    decreases ls.len(),
{
    if i < ls.len() - 1 {
        lemma_abs_total_update(ls.drop_last(), i, l);
        assert(ls.update(i, l).drop_last() =~= ls.drop_last().update(i, l));
    } else {
        assert(ls.update(i, l).drop_last() =~= ls.drop_last());
    }
}

proof fn lemma_abs_total_nonneg(ls: Seq<LeafView>)
    ensures
        abs_total(ls) >= 0,
    decreases ls.len(),
{
    if ls.len() > 0 {
        lemma_abs_total_nonneg(ls.drop_last());
    }
}

proof fn lemma_abs_total_element(ls: Seq<LeafView>, i: int)
    requires
        0 <= i < ls.len(),
    ensures
        abs(ls[i].value) <= abs_total(ls),
    decreases ls.len(),
{
    lemma_abs_total_nonneg(ls.drop_last());
    if i < ls.len() - 1 {
        lemma_abs_total_element(ls.drop_last(), i);
    }
}

impl FolderTree {
    /// An empty tree.
    pub fn new() -> (r: FolderTree)
        ensures
            r@ == Seq::<LeafView>::empty(),
            tree_wf(r@),
            r.inv(),
    {
        let r = FolderTree { leaves: Vec::new(), magnitude: 0 };
        proof {
            assert(r@ =~= Seq::<LeafView>::empty());
        }
        r
    }

    /// Leaf paths are unique and the magnitude is kept up to date.
    pub closed spec fn inv(&self) -> bool {
        &&& tree_wf(self@)
        &&& self.magnitude == abs_total(self@)
    }

    /// The sum of the magnitudes of all values.
    pub fn magnitude(&self) -> (r: i128)
        requires
            self.inv(),
        ensures
            r == abs_total(self@),
    {
        self.magnitude
    }

    /// Adds `value` to the file at `path`, creating its directories and the
    /// file where missing.
    pub fn add_file(&mut self, path: &str, value: i128)
        requires
            old(self).inv(),
            abs_total(old(self)@) + abs(value as int) <= i128::MAX,
        ensures
            final(self)@ == with_file(old(self)@, path_segments(path@), value as int),
            final(self).inv(),
    {
        proof {
            lemma_abs_total_nonneg(self@);
        }
        let value_magnitude: i128 = if value < 0 { -value } else { value };
        let segs = segments_of_file(path);
        let ghost ls = self@;
        let ghost target = path_segments(path@);
        let mut i: usize = 0;
        while i < self.leaves.len()
            invariant
                i <= self.leaves@.len(),
                ls == self@,
                texts_of(segs@) == target,
                target == path_segments(path@),
                forall|k: int| 0 <= k < i ==> (#[trigger] ls[k]).path != target,
                tree_wf(ls),
                ls == old(self)@,
                self.magnitude == abs_total(ls),
                abs_total(ls) + abs(value as int) <= i128::MAX,
                value_magnitude == abs(value as int),
                abs_total(ls) >= 0,
            decreases self.leaves@.len() - i,
        {
            if same_texts(&self.leaves[i].path, &segs) {
                proof {
                    assert(ls[i as int].path == target);
                    assert(leaf_paths(ls)[i as int] == target);
                    let k = leaf_paths(ls).index_of(target);
                    assert(leaf_paths(ls)[k] == target);
                    assert(ls[k].path == ls[i as int].path);
                    lemma_abs_total_element(ls, i as int);
                    lemma_abs_total_update(
                        ls,
                        i as int,
                        LeafView { value: ls[i as int].value + value, ..ls[i as int] },
                    );
                }
                let v = self.leaves[i].value;
                let v_magnitude: i128 = if v < 0 { -v } else { v };
                let w = v + value;
                let w_magnitude: i128 = if w < 0 { -w } else { w };
                self.leaves[i].value = w;
                self.magnitude = self.magnitude - v_magnitude + w_magnitude;
                proof {
                    let k = leaf_paths(ls).index_of(target);
                    assert(leaf_paths(ls)[k] == target);
                    assert(ls[k].path == ls[i as int].path);
                    assert(k == i as int);
                    assert(self@ =~= with_file(ls, target, value as int));
                }
                return;
            }
            i += 1;
        }
        proof {
            if leaf_paths(ls).contains(target) {
                let k = leaf_paths(ls).index_of(target);
                assert(ls[k].path == target);
            }
        }
        self.leaves.push(TreeLeaf { path: segs, value });
        self.magnitude = self.magnitude + value_magnitude;
        proof {
            assert(self@ =~= with_file(ls, target, value as int));
            assert(self@.drop_last() =~= ls);
        }
    }
}

// ---------------------------------------------------------------------------
// Reading the tree
/// Whether `path` lies strictly below directory `dir`.
pub open spec fn below(dir: Seq<Seq<char>>, path: Seq<Seq<char>>) -> bool {
    dir.len() < path.len() && path.take(dir.len() as int) == dir
}

/// The sum of the values of the leaves below `dir`.
pub open spec fn subtree_total(ls: Seq<LeafView>, dir: Seq<Seq<char>>) -> int
    decreases ls.len(),
{
    if ls.len() == 0 {
        0
    } else {
        subtree_total(ls.drop_last(), dir) + if below(dir, ls.last().path) {
            ls.last().value
        } else {
            0
        }
    }
}

/// Whether any leaf lies below `dir`.
pub open spec fn has_below(ls: Seq<LeafView>, dir: Seq<Seq<char>>) -> bool {
    exists|i: int| 0 <= i < ls.len() && below(dir, #[trigger] ls[i].path)
}

proof fn lemma_subtree_total_bound(ls: Seq<LeafView>, dir: Seq<Seq<char>>)
    ensures
        abs(subtree_total(ls, dir)) <= abs_total(ls),
    decreases ls.len(),
{
    if ls.len() > 0 {
        lemma_subtree_total_bound(ls.drop_last(), dir);
    }
}

fn is_below(dir: &Vec<String>, path: &Vec<String>) -> (r: bool)
    ensures
        r == below(texts_of(dir@), texts_of(path@)),
{
    if dir.len() >= path.len() {
        return false;
    }
    let mut i: usize = 0;
    while i < dir.len()
        invariant
            i <= dir@.len() < path@.len(),
            forall|k: int| 0 <= k < i ==> (#[trigger] dir@[k])@ == path@[k]@,
        decreases dir@.len() - i,
    {
        if dir[i] != path[i] {
            proof {
                assert(texts_of(path@).take(dir@.len() as int)[i as int] != texts_of(dir@)[i as int]);
            }
            return false;
        }
        i += 1;
    }
    proof {
        assert(texts_of(path@).take(dir@.len() as int) =~= texts_of(dir@));
    }
    true
}

/// A file or directory directly inside a directory, with its value.
pub struct TreeEntry {
    pub name: String,
    pub value: i128,
    pub is_folder: bool,
}

pub struct EntryView {
    pub name: Seq<char>,
    pub value: int,
    pub is_folder: bool,
}

impl View for TreeEntry {
    type V = EntryView;

    open spec fn view(&self) -> EntryView {
        EntryView { name: self.name@, value: self.value as int, is_folder: self.is_folder }
    }
}

pub open spec fn entry_views(es: Seq<TreeEntry>) -> Seq<EntryView> {
    es.map_values(|e: TreeEntry| e@)
}

pub open spec fn has_folder_entry(es: Seq<EntryView>, name: Seq<char>) -> bool {
    exists|k: int| 0 <= k < es.len() && (#[trigger] es[k]).is_folder && es[k].name == name
}

/// The entries directly inside `dir` that the leaves `ls` give, in order of
/// first appearance: a leaf just inside `dir` is a file entry; a deeper one
/// gives the directory entry of its next name, once. A directory's value is
/// the total below it among all leaves `all`.
pub open spec fn entries_from(ls: Seq<LeafView>, all: Seq<LeafView>, dir: Seq<Seq<char>>) -> Seq<EntryView>
    decreases ls.len(),
{
    if ls.len() == 0 {
        seq![]
    } else {
        let before = entries_from(ls.drop_last(), all, dir);
        let l = ls.last();
        if !below(dir, l.path) {
            before
        } else if l.path.len() == dir.len() + 1 {
            before.push(EntryView { name: l.path[dir.len() as int], value: l.value, is_folder: false })
        } else {
            let name = l.path[dir.len() as int];
            if has_folder_entry(before, name) {
                before
            } else {
                before.push(
                    EntryView {
                        name,
                        value: subtree_total(all, dir.push(name)),
                        is_folder: true,
                    },
                )
            }
        }
    }
}

/// The entries directly inside `dir`, ranked by descending value; equal
/// values keep their order of first appearance.
pub open spec fn children_of(ls: Seq<LeafView>, dir: Seq<Seq<char>>) -> Seq<EntryView> {
    let es = entries_from(ls, ls, dir);
    ranked(es.map_values(|e: EntryView| e.value), es.len()).map_values(|i: usize| es[i as int])
}

fn has_folder_named(es: &Vec<TreeEntry>, name: &String) -> (r: bool)
    ensures
        r == has_folder_entry(entry_views(es@), name@),
{
    let mut k: usize = 0;
    while k < es.len()
        invariant
            k <= es@.len(),
            forall|q: int| 0 <= q < k ==> !((#[trigger] es@[q]).is_folder && es@[q].name@ == name@),
        decreases es@.len() - k,
    {
        if es[k].is_folder && es[k].name == *name {
            proof {
                assert(entry_views(es@)[k as int].is_folder);
            }
            return true;
        }
        k += 1;
    }
    proof {
        if has_folder_entry(entry_views(es@), name@) {
            let q = choose|q: int|
                0 <= q < entry_views(es@).len() && (#[trigger] entry_views(es@)[q]).is_folder
                    && entry_views(es@)[q].name == name@;
            assert(!(es@[q].is_folder && es@[q].name@ == name@));
        }
    }
    false
}

impl FolderTree {
    fn subtree_value(&self, dir: &Vec<String>) -> (r: i128)
        requires
            tree_wf(self@),
        ensures
            r == subtree_total(self@, texts_of(dir@)),
    {
        let ghost ls = self@;
        let ghost d = texts_of(dir@);
        let mut sum: i128 = 0;
        let mut i: usize = 0;
        while i < self.leaves.len()
            invariant
                i <= self.leaves@.len(),
                ls == self@,
                tree_wf(ls),
                d == texts_of(dir@),
                sum == subtree_total(ls.take(i as int), d),
            decreases self.leaves@.len() - i,
        {
            proof {
                assert(ls.take(i + 1).drop_last() =~= ls.take(i as int));
                assert(ls.take(i + 1).last() == self.leaves@[i as int]@);
                lemma_subtree_total_bound(ls.take(i + 1), d);
                lemma_abs_total_prefix(ls, i + 1);
            }
            if is_below(dir, &self.leaves[i].path) {
                sum = sum + self.leaves[i].value;
            }
            i += 1;
        }
        proof {
            assert(ls.take(i as int) =~= ls);
        }
        sum
    }

    /// The value of the directory at `dir`: the sum over all files below it.
    /// `None` where no file lies below a directory other than the root.
    pub fn total_value(&self, dir: &str) -> (r: Option<i128>)
        requires
            self.inv(),
        ensures
            r == (if dir_segments(dir@).len() == 0 || has_below(self@, dir_segments(dir@)) {
                Some(subtree_total(self@, dir_segments(dir@)) as i128)
            } else {
                None::<i128>
            }),
    {
        let segs = segments_of_dir(dir);
        if segs.len() > 0 && !self.any_below(&segs) {
            return None;
        }
        Some(self.subtree_value(&segs))
    }

    fn any_below(&self, dir: &Vec<String>) -> (r: bool)
        ensures
            r == has_below(self@, texts_of(dir@)),
    {
        let mut i: usize = 0;
        while i < self.leaves.len()
            invariant
                i <= self.leaves@.len(),
                forall|k: int| 0 <= k < i ==> !below(texts_of(dir@), (#[trigger] self@[k]).path),
            decreases self.leaves@.len() - i,
        {
            if is_below(dir, &self.leaves[i].path) {
                proof {
                    assert(self@[i as int] == self.leaves@[i as int]@);
                    assert(below(texts_of(dir@), self@[i as int].path));
                }
                return true;
            }
            proof {
                assert(self@[i as int] == self.leaves@[i as int]@);
            }
            i += 1;
        }
        false
    }

    fn entries(&self, dir: &Vec<String>) -> (r: Vec<TreeEntry>)
        requires
            tree_wf(self@),
        ensures
            entry_views(r@) == entries_from(self@, self@, texts_of(dir@)),
    {
        let ghost ls = self@;
        let ghost d = texts_of(dir@);
        let mut es: Vec<TreeEntry> = Vec::new();
        let mut i: usize = 0;
        while i < self.leaves.len()
            invariant
                i <= self.leaves@.len(),
                ls == self@,
                tree_wf(ls),
                d == texts_of(dir@),
                entry_views(es@) == entries_from(ls.take(i as int), ls, d),
            decreases self.leaves@.len() - i,
        {
            proof {
                assert(ls.take(i + 1).drop_last() =~= ls.take(i as int));
                assert(ls.take(i + 1).last() == self.leaves@[i as int]@);
                lemma_abs_total_element(ls, i as int);
            }
            let leaf = &self.leaves[i];
            if is_below(dir, &leaf.path) {
                let n = dir.len();
                let name = leaf.path[n].clone();
                proof {
                    assert(texts_of(leaf.path@)[n as int] == name@);
                }
                if leaf.path.len() == n + 1 {
                    let ghost before = es@;
                    es.push(TreeEntry { name, value: leaf.value, is_folder: false });
                    proof {
                        assert(entry_views(es@) =~= entry_views(before).push(es@[es@.len() - 1]@));
                    }
                } else if !has_folder_named(&es, &name) {
                    let mut sub = copy_texts(dir);
                    let ghost before_sub = sub@;
                    sub.push(name.clone());
                    proof {
                        assert(texts_of(sub@) =~= texts_of(before_sub).push(name@));
                    }
                    let value = self.subtree_value(&sub);
                    let ghost before = es@;
                    es.push(TreeEntry { name, value, is_folder: true });
                    proof {
                        assert(entry_views(es@) =~= entry_views(before).push(es@[es@.len() - 1]@));
                    }
                }
            }
            i += 1;
        }
        proof {
            assert(ls.take(i as int) =~= ls);
        }
        es
    }

    /// The files and directories directly inside the directory at `dir`,
    /// by descending value. `None` where no file lies below a directory
    /// other than the root.
    pub fn children(&self, dir: &str) -> (r: Option<Vec<TreeEntry>>)
        requires
            self.inv(),
        ensures
            match r {
                Some(es) => (dir_segments(dir@).len() == 0 || has_below(self@, dir_segments(dir@)))
                    && entry_views(es@) == children_of(self@, dir_segments(dir@)),
                None => !(dir_segments(dir@).len() == 0 || has_below(self@, dir_segments(dir@))),
            },
    {
        let segs = segments_of_dir(dir);
        if segs.len() > 0 && !self.any_below(&segs) {
            return None;
        }
        let es = self.entries(&segs);
        let ghost ev = entry_views(es@);
        let mut values: Vec<i128> = Vec::new();
        let mut i: usize = 0;
        while i < es.len()
            invariant
                i <= es@.len(),
                ev == entry_views(es@),
                key_values(values@) == ev.map_values(|e: EntryView| e.value).take(i as int),
            decreases es@.len() - i,
        {
            let ghost before = values@;
            values.push(es[i].value);
            proof {
                assert(key_values(values@) =~= key_values(before).push(es@[i as int].value as int));
            }
            i += 1;
            proof {
                assert(key_values(values@) =~= ev.map_values(|e: EntryView| e.value).take(i as int));
            }
        }
        proof {
            assert(ev.map_values(|e: EntryView| e.value).take(i as int) =~= ev.map_values(
                |e: EntryView| e.value,
            ));
        }
        let order = rank_descending(&values);
        let mut out: Vec<TreeEntry> = Vec::new();
        let mut k: usize = 0;
        while k < order.len()
            invariant
                k <= order@.len(),
                ev == entry_views(es@),
                order@ == ranked(ev.map_values(|e: EntryView| e.value), ev.len()),
                crate::backtest::is_ranking(ev.map_values(|e: EntryView| e.value), order@),
                entry_views(out@) == order@.take(k as int).map_values(|q: usize| ev[q as int]),
            decreases order@.len() - k,
        {
            let q = order[k];
            proof {
                assert(order@[k as int] < ev.len());
            }
            let e = TreeEntry {
                name: es[q].name.clone(),
                value: es[q].value,
                is_folder: es[q].is_folder,
            };
            let ghost before = out@;
            out.push(e);
            proof {
                assert(entry_views(out@) =~= entry_views(before).push(ev[q as int]));
            }
            k += 1;
            proof {
                assert(entry_views(out@) =~= order@.take(k as int).map_values(|q: usize| ev[q as int]));
            }
        }
        proof {
            assert(order@.take(k as int) =~= order@);
        }
        Some(out)
    }
}

proof fn lemma_abs_total_prefix(ls: Seq<LeafView>, i: int)
    requires
        0 <= i <= ls.len(),
    ensures
        abs_total(ls.take(i)) <= abs_total(ls),
    decreases ls.len(),
{
    if i == ls.len() {
        assert(ls.take(i) =~= ls);
    } else {
        lemma_abs_total_prefix(ls.drop_last(), i);
        assert(ls.drop_last().take(i) =~= ls.take(i));
    }
}

/// The leaves that laying out `files` valued by formula `field` gives,
/// without the files whose path one of `exclusions` matches.
pub open spec fn projection(files: Seq<FileStatsView>, field: u64, exclusions: Seq<Pattern>) -> Seq<LeafView>
    decreases files.len(),
{
    if files.len() == 0 {
        seq![]
    } else {
        let before = projection(files.drop_last(), field, exclusions);
        let f = files.last();
        if any_match(exclusions, f.name) {
            before
        } else {
            with_file(before, path_segments(f.name), score_of(f.tally, field))
        }
    }
}

/// Lays the files of `model` out as a tree valued by formula `field`,
/// leaving out the files whose path one of `exclusions` matches; `None`
/// where the magnitudes of the values would not fit an `i128`.
pub fn project(model: &StatisticsModel, field: u64, exclusions: &Vec<Pattern>) -> (r: Option<FolderTree>)
    ensures
        r matches Some(t) ==> t.inv() && t@ == projection(model@.files, field, exclusions@),
        r is None ==> exists|k: int|
            0 <= k < model@.files.len() && abs_total(projection(model@.files.take(k), field, exclusions@))
                + abs(score_of(model@.files[k].tally, field)) > i128::MAX,
{
    let ghost files = model@.files;
    let mut tree = FolderTree::new();
    let mut i: usize = 0;
    while i < model.files.len()
        invariant
            i <= model.files@.len(),
            files == model@.files,
            tree.inv(),
            tree@ == projection(files.take(i as int), field, exclusions@),
        decreases model.files@.len() - i,
    {
        let f = &model.files[i];
        proof {
            assert(files.take(i + 1).drop_last() =~= files.take(i as int));
            assert(files.take(i + 1).last() == f@);
        }
        if !matches_any(exclusions, f.name.as_str()) {
            let v = f.score(field);
            let v_magnitude: i128 = if v < 0 { -v } else { v };
            if tree.magnitude() > i128::MAX - v_magnitude {
                return None;
            }
            tree.add_file(f.name.as_str(), v);
        }
        i += 1;
    }
    proof {
        assert(files.take(i as int) =~= files);
    }
    Some(tree)
}

} // verus!
