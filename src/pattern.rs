//! Regular-expression patterns supplied as configuration: file exclusions and
//! bug-fix indicators.
use vstd::prelude::*;

verus! {

#[verifier::external_type_specification]
#[verifier::external_body]
pub struct ExRegex(regex::Regex);

#[verifier::external_type_specification]
#[verifier::external_body]
pub struct ExRegexError(regex::Error);

/// Whether the regular expression `pattern` matches anywhere in `text`.
pub uninterp spec fn regex_is_match(pattern: Seq<char>, text: Seq<char>) -> bool;

/// The capture groups of the leftmost-first match of `pattern` in `text`
/// (group 0 is the whole match, a group that took no part is `None`), or
/// `None` where the pattern does not match.
pub uninterp spec fn regex_captures(pattern: Seq<char>, text: Seq<char>) -> Option<
    Seq<Option<Seq<char>>>,
>;

/// A compiled regular expression together with the text it was compiled from.
pub struct Pattern {
    source: String,
    compiled: regex::Regex,
}

/// A pattern that does not compile.
pub struct PatternError {
    pub pattern: String,
}

impl View for Pattern {
    type V = Seq<char>;

    /// The source text of the pattern.
    closed spec fn view(&self) -> Seq<char> {
        self.source@
    }
}

/// Whether `pattern` compiles to a regular expression (under the default
/// size limit).
pub uninterp spec fn regex_compiles(pattern: Seq<char>) -> bool;

/// Relies on regex::Regex::new: compiles `source`, or reports why it cannot;
/// whether it succeeds depends on the pattern text alone.
#[verifier::external_body]
fn compile_regex(source: &str) -> (r: Result<regex::Regex, regex::Error>)
    ensures
        r is Ok <==> regex_compiles(source@),
{
    regex::Regex::new(source)
}

/// Relies on regex::Regex::is_match: whether the pattern matches anywhere in
/// `text`. `p.compiled` was built from `p.source` by `Pattern::new`, the only
/// constructor.
#[verifier::external_body]
fn regex_matches(p: &Pattern, text: &str) -> (r: bool)
    ensures
        r == regex_is_match(p@, text@),
{
    p.compiled.is_match(text)
}

/// Relies on regex::Regex::captures: the groups of the leftmost-first match,
/// each converted to its text. `p.compiled` was built from `p.source`.
#[verifier::external_body]
pub(crate) fn regex_groups(p: &Pattern, text: &str) -> (r: Option<Vec<Option<String>>>)
    ensures
        r.deep_view() == regex_captures(p@, text@),
{
    p.compiled.captures(text).map(
        |caps| caps.iter().map(|g| g.map(|m| m.as_str().to_string())).collect(),
    )
}

impl Pattern {
    /// Compiles `source`; an invalid pattern is reported with its text.
    pub fn new(source: &str) -> (r: Result<Pattern, PatternError>)
        ensures
            r is Ok <==> regex_compiles(source@),
            r matches Ok(p) ==> p@ == source@,
            r matches Err(e) ==> e.pattern@ == source@,
    {
        match compile_regex(source) {
            Ok(compiled) => Ok(Pattern { source: source.to_owned(), compiled }),
            Err(_) => Err(PatternError { pattern: source.to_owned() }),
        }
    }

    /// The source text the pattern was compiled from.
    pub fn source(&self) -> (r: &str)
        ensures
            r@ == self@,
    {
        self.source.as_str()
    }
}

/// Whether any of `patterns` matches `text`.
pub open spec fn any_match(patterns: Seq<Pattern>, text: Seq<char>) -> bool {
    exists|i: int| 0 <= i < patterns.len() && regex_is_match(#[trigger] patterns[i]@, text)
}

/// Whether any of `patterns` matches anywhere in `text`.
pub fn matches_any(patterns: &Vec<Pattern>, text: &str) -> (r: bool)
    ensures
        r == any_match(patterns@, text@),
{
    let mut i: usize = 0;
    while i < patterns.len()
        invariant
            i <= patterns@.len(),
            forall|k: int| 0 <= k < i ==> !regex_is_match(#[trigger] patterns@[k]@, text@),
        decreases patterns@.len() - i,
    {
        if regex_matches(&patterns[i], text) {
            return true;
        }
        i += 1;
    }
    false
}

/// The file-exclusion patterns used when none are configured: JSON and
/// Markdown files.
pub open spec fn default_exclusion_sources() -> Seq<Seq<char>> {
    seq!["(?i).json$"@, "(?i).md$"@]
}

/// The bug-fix indicators used when none are configured.
pub open spec fn default_bugfix_sources() -> Seq<Seq<char>> {
    seq![
        "(?i)line-[0-9]+"@,
        "(?i)bug"@,
        "(?i)hotfix"@,
        "(?i)fix:"@,
        "(?i)fix(.*):"@,
        "(?i)bugfix"@,
        "(?i)[ \n]fix "@,
    ]
}

/// The source texts of `patterns`.
pub open spec fn sources_of(patterns: Seq<Pattern>) -> Seq<Seq<char>> {
    patterns.map_values(|p: Pattern| p@)
}

/// The views of `strings`.
pub open spec fn texts_of(strings: Seq<String>) -> Seq<Seq<char>> {
    strings.map_values(|s: String| s@)
}

/// Whether every one of `texts` compiles.
pub open spec fn all_compile(texts: Seq<Seq<char>>) -> bool {
    forall|i: int| 0 <= i < texts.len() ==> regex_compiles(#[trigger] texts[i])
}

/// `t` is the first of `texts` that does not compile.
pub open spec fn first_failing(texts: Seq<Seq<char>>, t: Seq<char>) -> bool {
    exists|i: int|
        0 <= i < texts.len() && texts[i] == t && !regex_compiles(#[trigger] texts[i])
            && all_compile(texts.take(i))
}

pub open spec fn str_texts(strs: Seq<&str>) -> Seq<Seq<char>> {
    strs.map_values(|s: &str| s@)
}

/// Compiles each of `sources` in order; the first that does not compile is
/// reported.
pub fn compile_all(sources: &Vec<&str>) -> (r: Result<Vec<Pattern>, PatternError>)
    ensures
        r is Ok <==> all_compile(str_texts(sources@)),
        r matches Ok(ps) ==> sources_of(ps@) == str_texts(sources@),
        r matches Err(e) ==> first_failing(str_texts(sources@), e.pattern@),
{
    let ghost texts = str_texts(sources@);
    let mut out: Vec<Pattern> = Vec::new();
    let mut i: usize = 0;
    while i < sources.len()
        invariant
            i <= sources@.len(),
            texts == str_texts(sources@),
            sources_of(out@) == texts.take(i as int),
            all_compile(texts.take(i as int)),
        decreases sources@.len() - i,
    {
        let ghost before = out@;
        proof {
            assert(texts[i as int] == sources@[i as int]@);
        }
        match Pattern::new(sources[i]) {
            Ok(p) => {
                out.push(p);
                proof {
                    assert(sources_of(out@) =~= sources_of(before).push(sources@[i as int]@));
                }
            },
            Err(e) => {
                proof {
                    assert(texts[i as int] == e.pattern@);
                    assert(!all_compile(texts)) by {
                        assert(!regex_compiles(texts[i as int]));
                    }
                }
                return Err(e);
            },
        }
        proof {
            assert(texts.take(i + 1) =~= texts.take(i as int).push(texts[i as int]));
            assert forall|k: int| 0 <= k < i + 1 implies regex_compiles(
                #[trigger] texts.take(i + 1)[k],
            ) by {
                if k < i {
                    assert(texts.take(i + 1)[k] == texts.take(i as int)[k]);
                }
            }
        }
        i += 1;
    }
    proof {
        assert(texts.take(i as int) =~= texts);
    }
    Ok(out)
}

/// The patterns in use: the configured ones, or `defaults` where none are
/// configured.
pub open spec fn chosen(configured: Seq<String>, defaults: Seq<Seq<char>>) -> Seq<Seq<char>> {
    if configured.len() > 0 {
        texts_of(configured)
    } else {
        defaults
    }
}

/// The configured patterns, or `defaults` where none are configured.
fn configured_or(configured: &Vec<String>, defaults: Vec<&str>) -> (r: Result<
    Vec<Pattern>,
    PatternError,
>)
    ensures
        r is Ok <==> all_compile(chosen(configured@, str_texts(defaults@))),
        r matches Ok(ps) ==> sources_of(ps@) == chosen(configured@, str_texts(defaults@)),
        r matches Err(e) ==> first_failing(chosen(configured@, str_texts(defaults@)), e.pattern@),
{
    if configured.len() > 0 {
        let mut refs: Vec<&str> = Vec::new();
        let mut i: usize = 0;
        while i < configured.len()
            invariant
                i <= configured@.len(),
                str_texts(refs@) == texts_of(configured@.take(i as int)),
            decreases configured@.len() - i,
        {
            let ghost before = refs@;
            refs.push(configured[i].as_str());
            proof {
                assert(str_texts(refs@) =~= str_texts(before).push(configured@[i as int]@));
                assert(configured@.take(i + 1) =~= configured@.take(i as int).push(
                    configured@[i as int],
                ));
            }
            i += 1;
            proof {
                assert(str_texts(refs@) =~= texts_of(configured@.take(i as int)));
            }
        }
        proof {
            assert(configured@.take(i as int) =~= configured@);
        }
        compile_all(&refs)
    } else {
        compile_all(&defaults)
    }
}

/// The file-exclusion patterns: the configured ones, or the defaults where
/// the configured list is empty. Succeeds exactly when every pattern in use
/// compiles; otherwise reports the first that does not.
pub fn exclusion_patterns(configured: &Vec<String>) -> (r: Result<Vec<Pattern>, PatternError>)
    ensures
        r is Ok <==> all_compile(chosen(configured@, default_exclusion_sources())),
        r matches Ok(ps) ==> sources_of(ps@) == chosen(configured@, default_exclusion_sources()),
        r matches Err(e) ==> first_failing(chosen(configured@, default_exclusion_sources()), e.pattern@),
{
    let defaults: Vec<&str> = vec!["(?i).json$", "(?i).md$"];
    proof {
        assert(str_texts(defaults@) =~= default_exclusion_sources());
    }
    configured_or(configured, defaults)
}

/// The bug-fix indicator patterns: the configured ones, or the defaults where
/// the configured list is empty. Succeeds exactly when every pattern in use
/// compiles; otherwise reports the first that does not.
pub fn bugfix_patterns(configured: &Vec<String>) -> (r: Result<Vec<Pattern>, PatternError>)
    ensures
        r is Ok <==> all_compile(chosen(configured@, default_bugfix_sources())),
        r matches Ok(ps) ==> sources_of(ps@) == chosen(configured@, default_bugfix_sources()),
        r matches Err(e) ==> first_failing(chosen(configured@, default_bugfix_sources()), e.pattern@),
{
    let defaults: Vec<&str> = vec![
        "(?i)line-[0-9]+",
        "(?i)bug",
        "(?i)hotfix",
        "(?i)fix:",
        "(?i)fix(.*):",
        "(?i)bugfix",
        "(?i)[ \n]fix ",
    ];
    proof {
        assert(str_texts(defaults@) =~= default_bugfix_sources());
    }
    configured_or(configured, defaults)
}

} // verus!
