use bugspot::backtest::{backtest, compare_formulas, rank_descending, Capture};
use bugspot::history::{collect_changes, drop_excluded, ChangeRecord, CommitChanges, DiffScanner, LineKind};
use bugspot::pattern::{bugfix_patterns, exclusion_patterns, matches_any, Pattern};
use bugspot::score::{field_name, score, FIELD_COUNT, INVALID_SCORE};
use bugspot::stats::{age_cutoff_of, aggregate, StatisticsModel, Tally};
use bugspot::tree::{project, segments_of_dir, segments_of_file, FolderTree};

fn record(path: &str, functions: &[&str], age: u32, message: &str) -> ChangeRecord {
    ChangeRecord {
        file_path: path.to_string(),
        functions: functions.iter().map(|f| f.to_string()).collect(),
        age,
        commit_message: message.to_string(),
    }
}

fn commit(id: &str, records: Vec<ChangeRecord>) -> CommitChanges {
    CommitChanges { id: id.to_string(), records }
}

/// Ten commits: ages 0-5 touch a.js (function foo) without a fix message,
/// ages 6-9 touch it with "fix:" messages.
fn ten_commit_history() -> Vec<CommitChanges> {
    (0..10u32)
        .map(|age| {
            let message = if age < 6 { "add feature" } else { "fix: broken foo" };
            commit(&format!("c{}", age), vec![record("a.js", &["foo"], age, message)])
        })
        .collect()
}

fn defaults() -> (Vec<Pattern>, Vec<Pattern>) {
    let bug = bugfix_patterns(&vec![]).ok().unwrap();
    let excl = exclusion_patterns(&vec![]).ok().unwrap();
    (bug, excl)
}

fn file<'a>(m: &'a StatisticsModel, name: &str) -> &'a bugspot::stats::FileStats {
    m.files.iter().find(|f| f.name == name).unwrap()
}

#[test]
fn end_to_end_ten_commits() {
    let (bug, excl) = defaults();
    let h = ten_commit_history();
    assert_eq!(age_cutoff_of(9, 60), 5);
    let m = aggregate(&h, 60, &bug, &excl);
    assert_eq!(m.max_age, 9);
    assert_eq!(m.files.len(), 1);
    let a = file(&m, "a.js");
    assert_eq!(a.tally.freq_counter, 6);
    assert_eq!(a.tally.bug_counter, 0);
    assert_eq!(a.post_cutoff_bugfix_commit_count, 4);
    assert_eq!(m.total_post_cutoff_bugfixes, 4);
    assert_eq!(a.tally.oldest_age, 0);
    assert_eq!(a.tally.newest_age, 5);
    // round(100 * a / 9) for a = 0..5: 0 + 11 + 22 + 33 + 44 + 56
    assert_eq!(a.tally.aged_freq_counter, 166);
    assert_eq!(a.functions.len(), 1);
    assert_eq!(a.functions[0].name, "foo");
    assert_eq!(a.functions[0].tally.freq_counter, 6);
    assert_eq!(a.functions[0].tally.aged_freq_counter, 0);
    assert_eq!(a.functions[0].post_cutoff_bugfix_count, 4);
    assert_eq!(a.post_cutoff_bugfix_count, 4);
    match backtest(&m, 0, &vec![100]) {
        Capture::Curve(v) => assert_eq!(v, vec![10000]),
        Capture::NoSignal => panic!("expected a signal"),
    }
}

#[test]
fn age_cutoff_grows_with_percent() {
    let mut last = 0;
    for p in 0..=100u32 {
        let c = age_cutoff_of(9, p);
        assert!(c >= last);
        assert!(c <= 9);
        last = c;
    }
    assert_eq!(age_cutoff_of(9, 100), 9);
    assert_eq!(age_cutoff_of(9, 0), 0);
    assert_eq!(age_cutoff_of(0, 50), 0);
}

#[test]
fn freq_counts_pre_cutoff_touches() {
    let (bug, excl) = defaults();
    let h = vec![
        commit("a", vec![record("x.js", &[], 0, "init"), record("y.js", &[], 0, "init")]),
        commit("b", vec![record("x.js", &["f"], 1, "bug in f")]),
        commit("c", vec![record("x.js", &[], 2, "more")]),
        commit("d", vec![record("y.js", &[], 3, "late")]),
    ];
    // max_age 3, cutoff 50% -> age_cutoff 1
    let m = aggregate(&h, 50, &bug, &excl);
    assert_eq!(file(&m, "x.js").tally.freq_counter, 2);
    assert_eq!(file(&m, "x.js").tally.bug_counter, 1);
    assert_eq!(file(&m, "y.js").tally.freq_counter, 1);
    // aged weight of the bug fix at age 1 of 3: round(33.3) = 33
    assert_eq!(file(&m, "x.js").tally.aged_bug_freq_counter, 33);
    assert_eq!(m.total_post_cutoff_bugfixes, 0);
}

#[test]
fn age_ranges_are_ordered() {
    let (bug, excl) = defaults();
    let h = vec![
        commit("a", vec![record("x.js", &["f", "g"], 3, "x")]),
        commit("b", vec![record("x.js", &["g"], 1, "x")]),
        commit("c", vec![record("x.js", &["f"], 2, "x")]),
        commit("d", vec![record("z.js", &[], 0, "x")]),
    ];
    let m = aggregate(&h, 100, &bug, &excl);
    for f in &m.files {
        assert!(f.tally.oldest_age <= f.tally.newest_age);
        assert!(f.tally.newest_age <= m.max_age);
        for g in &f.functions {
            assert!(g.tally.oldest_age <= g.tally.newest_age);
        }
    }
    let x = file(&m, "x.js");
    assert_eq!((x.tally.oldest_age, x.tally.newest_age), (1, 3));
    let g = x.functions.iter().find(|g| g.name == "g").unwrap();
    assert_eq!((g.tally.oldest_age, g.tally.newest_age), (1, 3));
}

fn model_fingerprint(m: &StatisticsModel) -> Vec<(String, u64, u64, u64, u64, u32, u32, u64, u64, usize)> {
    m.files
        .iter()
        .map(|f| {
            (
                f.name.clone(),
                f.tally.freq_counter,
                f.tally.bug_counter,
                f.tally.aged_freq_counter,
                f.tally.aged_bug_freq_counter,
                f.tally.oldest_age,
                f.tally.newest_age,
                f.post_cutoff_bugfix_count,
                f.post_cutoff_bugfix_commit_count,
                f.functions.len(),
            )
        })
        .collect()
}

#[test]
fn aggregation_is_deterministic() {
    let (bug, excl) = defaults();
    let h = ten_commit_history();
    let m1 = aggregate(&h, 40, &bug, &excl);
    let m2 = aggregate(&h, 40, &bug, &excl);
    assert_eq!(model_fingerprint(&m1), model_fingerprint(&m2));
    assert_eq!(m1.total_post_cutoff_bugfixes, m2.total_post_cutoff_bugfixes);
}

#[test]
fn post_cutoff_fix_before_baseline_is_skipped() {
    let (bug, excl) = defaults();
    // The post-cutoff commit comes first in the list; it still counts.
    let h = vec![
        commit("late", vec![record("a.js", &["foo", "bar"], 3, "hotfix foo")]),
        commit("early", vec![record("a.js", &["foo"], 0, "start")]),
        commit("mid", vec![record("new.js", &[], 3, "bugfix new")]),
        commit("x", vec![record("b.md", &[], 1, "docs")]),
    ];
    let m = aggregate(&h, 0, &bug, &excl);
    assert_eq!(m.total_post_cutoff_bugfixes, 1);
    let a = file(&m, "a.js");
    assert_eq!(a.post_cutoff_bugfix_commit_count, 1);
    assert_eq!(a.functions[0].post_cutoff_bugfix_count, 1);
    assert_eq!(a.post_cutoff_bugfix_count, 1);
    assert!(m.files.iter().all(|f| f.name != "new.js"));
}

#[test]
fn excluded_files_do_not_count_after_cutoff() {
    let (bug, excl) = defaults();
    let h = vec![
        commit("a", vec![record("notes.md", &[], 0, "start")]),
        commit("b", vec![record("notes.md", &[], 1, "fix: typo")]),
    ];
    let m = aggregate(&h, 0, &bug, &excl);
    assert_eq!(file(&m, "notes.md").tally.freq_counter, 1);
    assert_eq!(file(&m, "notes.md").post_cutoff_bugfix_commit_count, 0);
    assert_eq!(m.total_post_cutoff_bugfixes, 0);
}

#[test]
fn no_signal_without_post_cutoff_fixes() {
    let (bug, excl) = defaults();
    let h = vec![commit("a", vec![record("a.js", &[], 0, "start")]), commit("b", vec![record("a.js", &[], 1, "feature")])];
    let m = aggregate(&h, 0, &bug, &excl);
    assert!(matches!(backtest(&m, 3, &vec![1, 50, 100]), Capture::NoSignal));
    let empty = aggregate(&vec![], 50, &bug, &excl);
    assert_eq!(empty.files.len(), 0);
    assert!(matches!(backtest(&empty, 0, &vec![100]), Capture::NoSignal));
}

fn four_file_model() -> StatisticsModel {
    let (bug, excl) = defaults();
    // ages 0..=4 pre-cutoff at 50% of max_age 9 -> cutoff 4
    let mut h = vec![
        commit("0", vec![record("a.js", &[], 0, "x"), record("b.js", &[], 0, "x"), record("c.js", &[], 0, "x"), record("d.js", &[], 0, "x")]),
        commit("1", vec![record("b.js", &[], 1, "x"), record("c.js", &[], 1, "x")]),
        commit("2", vec![record("c.js", &[], 2, "x")]),
        commit("3", vec![record("c.js", &[], 3, "x")]),
        commit("4", vec![record("d.js", &[], 4, "x")]),
    ];
    h.push(commit("5", vec![record("c.js", &[], 5, "fix: one")]));
    h.push(commit("6", vec![record("c.js", &[], 6, "fix: two")]));
    h.push(commit("7", vec![record("b.js", &[], 7, "fix: three")]));
    h.push(commit("8", vec![record("a.js", &[], 8, "fix: four")]));
    h.push(commit("9", vec![record("z.js", &[], 9, "fix: unknown file")]));
    aggregate(&h, 50, &bug, &excl)
}

#[test]
fn capture_curve_by_frequency() {
    let m = four_file_model();
    assert_eq!(m.total_post_cutoff_bugfixes, 4);
    // frequency ranks c (4), then b and d (2) in model order, then a (1)
    let keys: Vec<i128> = m.files.iter().map(|f| f.score(0)).collect();
    let order = rank_descending(&keys);
    let names: Vec<&str> = order.iter().map(|&i| m.files[i].name.as_str()).collect();
    assert_eq!(names, vec!["c.js", "b.js", "d.js", "a.js"]);
    match backtest(&m, 0, &vec![0, 25, 50, 75, 100]) {
        Capture::Curve(v) => {
            assert_eq!(v, vec![0, 5000, 7500, 7500, 10000]);
            for w in v.windows(2) {
                assert!(w[0] <= w[1]);
            }
        }
        Capture::NoSignal => panic!("expected a signal"),
    }
}

#[test]
fn capture_shares_are_rounded_per_file() {
    let (bug, excl) = defaults();
    let h = vec![
        commit("0", vec![record("a.js", &[], 0, "x"), record("b.js", &[], 0, "x"), record("c.js", &[], 0, "x")]),
        commit("1", vec![record("a.js", &[], 1, "fix: 1")]),
        commit("2", vec![record("b.js", &[], 2, "fix: 2")]),
        commit("3", vec![record("c.js", &[], 3, "fix: 3")]),
    ];
    let m = aggregate(&h, 0, &bug, &excl);
    match backtest(&m, 0, &vec![34, 67, 100]) {
        // each file holds a third: round(3333.3) = 3333
        Capture::Curve(v) => assert_eq!(v, vec![3333, 6666, 9999]),
        Capture::NoSignal => panic!("expected a signal"),
    }
}

#[test]
fn ranking_is_stable() {
    assert_eq!(rank_descending(&vec![1, 3, 3, -1, 2]), vec![1, 2, 4, 0, 3]);
    assert_eq!(rank_descending(&vec![]), Vec::<usize>::new());
    assert_eq!(rank_descending(&vec![5, 5, 5]), vec![0, 1, 2]);
}

fn tally(freq: u64, bug: u64, aged: u64, aged_bug: u64, oldest: u32, newest: u32) -> Tally {
    Tally {
        freq_counter: freq,
        bug_counter: bug,
        aged_freq_counter: aged,
        aged_bug_freq_counter: aged_bug,
        oldest_age: oldest,
        newest_age: newest,
    }
}

#[test]
fn score_formulas() {
    let t = tally(4, 2, 150, 75, 3, 10);
    assert_eq!(score(&t, 0), 400);
    assert_eq!(score(&t, 1), 200);
    assert_eq!(score(&t, 2), 300);
    assert_eq!(score(&t, 3), 1000);
    assert_eq!(score(&t, 4), 150);
    assert_eq!(score(&t, 5), 75);
    assert_eq!(score(&t, 6), 4000);
    assert_eq!(score(&t, 7), 2000);
    assert_eq!(score(&t, 8), 1200);
    assert_eq!(score(&t, 9), 600);
    assert_eq!(score(&t, 10), 1500);
    assert_eq!(score(&t, 11), 750);
    assert_eq!(score(&t, 12), 2250);
    assert_eq!(score(&t, 13), 3750);
    assert_eq!(score(&t, 14), 15750);
    assert_eq!(score(&t, 15), 3000);
    assert_eq!(score(&t, 16), 9000);
    assert_eq!(score(&t, 17), 2500);
    assert_eq!(score(&t, 18), 1750);
    assert_eq!(score(&t, 19), 3250);
    assert_eq!(score(&t, 20), 4750);
    assert_eq!(score(&t, 21), 16750);
    assert_eq!(score(&t, 22), 4000);
    assert_eq!(score(&t, 23), 10000);
    assert_eq!(score(&t, 24), 3500);
    assert_eq!(score(&t, 25), 2750);
    assert_eq!(score(&t, FIELD_COUNT), INVALID_SCORE);
    assert!(INVALID_SCORE < 0);
}

#[test]
fn score_of_large_counters_does_not_overflow() {
    let t = tally(u64::MAX, u64::MAX, u64::MAX, u64::MAX, u32::MAX, u32::MAX);
    let n = u32::MAX as i128;
    let a = u64::MAX as i128;
    assert_eq!(score(&t, 21), 100 * n + 10 * n * a + n * a);
}

#[test]
fn field_names() {
    assert_eq!(field_name(0), "frequency");
    assert_eq!(field_name(12), "custom formula");
    assert_eq!(field_name(25), "custom formula bugonly more newest change");
    assert_eq!(field_name(26), "unknown field");
}

#[test]
fn formulas_are_compared_over_cutoffs() {
    let (bug, excl) = defaults();
    let h = ten_commit_history();
    let reports = compare_formulas(&h, &vec![10, 60, 95], &vec![100], &bug, &excl);
    assert_eq!(reports.len(), FIELD_COUNT as usize);
    // cutoff 95% leaves age_cutoff 8: one post-cutoff fix remains; all three have signal
    for r in &reports {
        assert_eq!(r.samples, 3);
        // one file: the top 100% always holds every fix
        assert_eq!(r.deviation_sum, 0);
    }
    let fields: Vec<u64> = reports.iter().map(|r| r.field).collect();
    assert_eq!(fields, (0..FIELD_COUNT).collect::<Vec<u64>>());
}

#[test]
fn formula_ranking_prefers_better_predictor() {
    let (bug, excl) = defaults();
    let m = four_file_model();
    assert_eq!(m.total_post_cutoff_bugfixes, 4);
    let mut h = vec![
        commit("0", vec![record("a.js", &[], 0, "x"), record("b.js", &[], 0, "x"), record("c.js", &[], 0, "x"), record("d.js", &[], 0, "x")]),
        commit("1", vec![record("b.js", &[], 1, "x"), record("c.js", &[], 1, "x")]),
        commit("2", vec![record("c.js", &[], 2, "x")]),
        commit("3", vec![record("c.js", &[], 3, "x")]),
        commit("4", vec![record("d.js", &[], 4, "x")]),
    ];
    h.push(commit("5", vec![record("c.js", &[], 5, "fix: one")]));
    h.push(commit("6", vec![record("c.js", &[], 6, "fix: two")]));
    h.push(commit("7", vec![record("b.js", &[], 7, "fix: three")]));
    h.push(commit("8", vec![record("a.js", &[], 8, "fix: four")]));
    h.push(commit("9", vec![record("z.js", &[], 9, "fix: unknown file")]));
    let reports = compare_formulas(&h, &vec![50], &vec![25], &bug, &excl);
    // frequency puts c.js first: 50% captured at the top 25% (one file)
    let freq = reports.iter().find(|r| r.field == 0).unwrap();
    assert_eq!(freq.deviation_sum, 5000 - 2500);
    // newest change puts d.js first (age 4): nothing captured
    let newest = reports.iter().find(|r| r.field == 3).unwrap();
    assert_eq!(newest.deviation_sum, -2500);
    for w in reports.windows(2) {
        assert!(w[0].deviation_sum >= w[1].deviation_sum);
    }
}

#[test]
fn invalid_pattern_is_reported() {
    match Pattern::new("fix(") {
        Err(e) => assert_eq!(e.pattern, "fix("),
        Ok(_) => panic!("pattern should not compile"),
    }
    assert!(bugfix_patterns(&vec!["[".to_string()]).is_err());
}

#[test]
fn configured_patterns_replace_defaults() {
    let ps = bugfix_patterns(&vec!["^oops".to_string()]).ok().unwrap();
    assert_eq!(ps.len(), 1);
    assert_eq!(ps[0].source(), "^oops");
    assert!(matches_any(&ps, "oops, broke it"));
    assert!(!matches_any(&ps, "fix: something"));
    let defaults = bugfix_patterns(&vec![]).ok().unwrap();
    assert_eq!(defaults.len(), 7);
    assert!(matches_any(&defaults, "Fix: crash"));
    assert!(matches_any(&defaults, "LINE-1234 login"));
    assert!(matches_any(&defaults, "a HotFix"));
    assert!(!matches_any(&defaults, "refactor parser"));
    let excl = exclusion_patterns(&vec![]).ok().unwrap();
    assert!(matches_any(&excl, "package.JSON"));
    assert!(matches_any(&excl, "docs/README.md"));
    assert!(!matches_any(&excl, "src/main.js"));
}

const DIFF: &str = "diff --git a/src/a.js b/src/a.js\n\
index 123..456 100644\n\
--- a/src/a.js\n\
+++ b/src/a.js\n\
@@ -1,3 +1,4 @@\n\
+function foo(a, b) {\n\
+const bar = (x) => x\n\
+ baz = async (y) => y\n\
+function foo(c) {\n\
diff --git a/README.md b/README.md\n\
+text\n";

#[test]
fn scan_extracts_files_and_functions() {
    let s = DiffScanner::new().ok().unwrap();
    let rs = s.scan(DIFF, 7, "fix: things");
    assert_eq!(rs.len(), 2);
    assert_eq!(rs[0].file_path, "src/a.js");
    assert_eq!(rs[0].functions, vec!["foo".to_string(), "bar".to_string(), "baz".to_string()]);
    assert_eq!(rs[0].age, 7);
    assert_eq!(rs[0].commit_message, "fix: things");
    assert_eq!(rs[1].file_path, "README.md");
    assert!(rs[1].functions.is_empty());
}

#[test]
fn scan_handles_crlf_and_empty_input() {
    let s = DiffScanner::new().ok().unwrap();
    let rs = s.scan("diff --git a/x.js b/x.js\r\nfunction q() {\r\n", 0, "m");
    assert_eq!(rs.len(), 1);
    assert_eq!(rs[0].file_path, "x.js");
    assert_eq!(rs[0].functions, vec!["q".to_string()]);
    assert!(s.scan("", 0, "m").is_empty());
    assert!(s.scan("function lost() {\nno header here\n", 0, "m").is_empty());
}

#[test]
fn classify_lines() {
    let s = DiffScanner::new().ok().unwrap();
    assert!(matches!(s.classify("diff --git a/p/q.ts b/p/q.ts"), LineKind::FileHeader(p) if p == "p/q.ts"));
    assert!(matches!(s.classify("  function go(x) {"), LineKind::Function(n) if n == "go"));
    assert!(matches!(s.classify("let y = 3;"), LineKind::Other));
}

#[test]
fn collect_changes_groups_by_header() {
    let lines = vec![
        LineKind::Function("early".to_string()),
        LineKind::FileHeader("a".to_string()),
        LineKind::Function("f".to_string()),
        LineKind::Other,
        LineKind::Function("f".to_string()),
        LineKind::FileHeader("b".to_string()),
        LineKind::FileHeader("c".to_string()),
        LineKind::Function("g".to_string()),
    ];
    let rs = collect_changes(&lines, 2, "msg");
    let got: Vec<(String, Vec<String>)> = rs.iter().map(|r| (r.file_path.clone(), r.functions.clone())).collect();
    assert_eq!(
        got,
        vec![
            ("a".to_string(), vec!["f".to_string()]),
            ("b".to_string(), vec![]),
            ("c".to_string(), vec!["g".to_string()]),
        ]
    );
    assert!(collect_changes(&vec![], 0, "m").is_empty());
}

#[test]
fn drop_excluded_keeps_order() {
    let excl = exclusion_patterns(&vec![]).ok().unwrap();
    let mut rs = vec![
        record("a.js", &[], 0, "m"),
        record("b.json", &[], 0, "m"),
        record("c.md", &[], 0, "m"),
        record("d.js", &[], 0, "m"),
    ];
    drop_excluded(&mut rs, &excl);
    let names: Vec<&str> = rs.iter().map(|r| r.file_path.as_str()).collect();
    assert_eq!(names, vec!["a.js", "d.js"]);
}

#[test]
fn tree_projection_scenario() {
    let mut t = FolderTree::new();
    t.add_file("src/a.js", 3);
    t.add_file("src/b/c.js", 2);
    assert_eq!(t.total_value(""), Some(5));
    assert_eq!(t.total_value("src"), Some(5));
    assert_eq!(t.total_value("src/b"), Some(2));
    assert_eq!(t.total_value("nope"), None);
    let root = t.children("").unwrap();
    assert_eq!(root.len(), 1);
    assert_eq!((root[0].name.as_str(), root[0].value, root[0].is_folder), ("src", 5, true));
    let src = t.children("src").unwrap();
    let got: Vec<(&str, i128, bool)> = src.iter().map(|e| (e.name.as_str(), e.value, e.is_folder)).collect();
    assert_eq!(got, vec![("a.js", 3, false), ("b", 2, true)]);
    assert!(t.children("src/x").is_none());
}

#[test]
fn tree_accumulates_and_ranks() {
    let mut t = FolderTree::new();
    t.add_file("/lib//x.rs", 1);
    t.add_file("lib/x.rs", 4);
    t.add_file("lib/y.rs", 9);
    t.add_file("top.rs", 2);
    assert_eq!(t.magnitude(), 16);
    let lib = t.children("/lib/").unwrap();
    let got: Vec<(&str, i128)> = lib.iter().map(|e| (e.name.as_str(), e.value)).collect();
    assert_eq!(got, vec![("y.rs", 9), ("x.rs", 5)]);
    let root = t.children("").unwrap();
    let got: Vec<(&str, i128)> = root.iter().map(|e| (e.name.as_str(), e.value)).collect();
    assert_eq!(got, vec![("lib", 14), ("top.rs", 2)]);
}

#[test]
fn path_segments() {
    assert_eq!(segments_of_file("a//b/c.js"), vec!["a", "b", "c.js"]);
    assert_eq!(segments_of_file("c.js"), vec!["c.js"]);
    assert_eq!(segments_of_dir("/a/b/"), vec!["a", "b"]);
    assert!(segments_of_dir("").is_empty());
}

#[test]
fn projection_drops_excluded_files() {
    let (bug, excl) = defaults();
    let h = vec![commit("0", vec![record("src/a.js", &[], 0, "x"), record("src/b/c.js", &[], 0, "x"), record("docs/x.md", &[], 0, "x")]),
        commit("1", vec![record("src/a.js", &[], 1, "x")])];
    let m = aggregate(&h, 100, &bug, &excl);
    let t = project(&m, 0, &excl).unwrap();
    assert_eq!(t.total_value(""), Some(300));
    assert_eq!(t.total_value("src"), Some(300));
    assert_eq!(t.total_value("src/b"), Some(100));
    assert_eq!(t.total_value("docs"), None);
}

#[test]
fn repeated_function_names_count_once() {
    let (bug, excl) = defaults();
    let h = vec![
        commit("0", vec![record("a.js", &["f", "f", "g"], 0, "start")]),
        commit("1", vec![record("a.js", &["f", "g", "f"], 1, "fix: f")]),
    ];
    let m = aggregate(&h, 0, &bug, &excl);
    let a = file(&m, "a.js");
    let f = a.functions.iter().find(|g| g.name == "f").unwrap();
    assert_eq!(f.tally.freq_counter, 1);
    assert_eq!(f.post_cutoff_bugfix_count, 1);
    assert_eq!(a.post_cutoff_bugfix_count, 2);
    assert_eq!(a.functions.len(), 2);
}

#[test]
fn first_failing_pattern_is_reported() {
    let configured = vec!["ok".to_string(), "bad(".to_string(), "also[".to_string()];
    match exclusion_patterns(&configured) {
        Err(e) => assert_eq!(e.pattern, "bad("),
        Ok(_) => panic!("a pattern does not compile"),
    }
    assert!(DiffScanner::new().is_ok());
    assert!(exclusion_patterns(&vec![]).is_ok());
}

#[test]
fn full_cutoff_counts_no_fixes() {
    let (bug, excl) = defaults();
    let m = aggregate(&ten_commit_history(), 100, &bug, &excl);
    assert_eq!(m.total_post_cutoff_bugfixes, 0);
    assert!(m.files.iter().all(|f| f.post_cutoff_bugfix_commit_count == 0));
    assert_eq!(file(&m, "a.js").tally.freq_counter, 10);
    assert_eq!(file(&m, "a.js").tally.bug_counter, 4);
}

#[test]
fn fix_counts_add_up_to_total() {
    let m = four_file_model();
    let sum: u64 = m.files.iter().map(|f| f.post_cutoff_bugfix_commit_count).sum();
    assert_eq!(sum, m.total_post_cutoff_bugfixes);
    assert_eq!(sum, 4);
}

#[test]
fn counts_grow_with_cutoff() {
    let (bug, excl) = defaults();
    let h = ten_commit_history();
    let mut last = 0;
    for p in [0u32, 10, 30, 60, 90, 100] {
        let m = aggregate(&h, p, &bug, &excl);
        let freq = file(&m, "a.js").tally.freq_counter;
        assert!(freq >= last);
        last = freq;
    }
}
