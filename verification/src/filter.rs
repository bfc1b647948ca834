//! The path filter: three lists of compiled glob patterns and the rule that
//! decides, for one discovered path, whether it stays.

use crate::path::{file_name_of, path_file_name};
use glob::{Pattern, PatternError};
use vstd::prelude::*;

verus! {

#[verifier::external_type_specification]
#[verifier::external_body]
pub struct ExPattern(glob::Pattern);

#[verifier::external_type_specification]
#[verifier::external_body]
pub struct ExPatternError(glob::PatternError);

/// Whether `glob::Pattern::new` accepts the text as a glob pattern.
pub uninterp spec fn glob_valid(text: Seq<char>) -> bool;

/// The text that a compiled pattern was made from (`glob::Pattern::as_str`).
pub uninterp spec fn pattern_text(pattern: Pattern) -> Seq<char>;

/// Whether the pattern compiled from `pattern` matches `text` under the
/// default match options (`glob::Pattern::matches`).
pub uninterp spec fn glob_matches(pattern: Seq<char>, text: Seq<char>) -> bool;

/// Calls `glob::Pattern::new`. It succeeds exactly on the texts that are valid
/// globs, and the compiled pattern keeps the text it was made from.
#[verifier::external_body]
fn compile(text: &str) -> (r: Result<Pattern, PatternError>)
    ensures
        r.is_ok() == glob_valid(text@),
        match r {
            Ok(pattern) => pattern_text(pattern) == text@,
            Err(_) => true,
        },
{
    Pattern::new(text)
}

/// Calls `glob::Pattern::matches`: the result is the named match of the
/// pattern's text against `text`.
#[verifier::external_body]
fn pattern_matches(pattern: &Pattern, text: &str) -> (r: bool)
    ensures
        r == glob_matches(pattern_text(*pattern), text@),
{
    pattern.matches(text)
}

/// The message of a pattern syntax error, as its `Display` impl writes it.
#[verifier::external_body]
fn error_message(error: &PatternError) -> (r: String) {
    error.to_string()
}

/// Why a filter could not be built: a pattern that is no valid glob.
#[derive(Debug)]
pub struct FilterError {
    /// The offending pattern, as it was given.
    pub pattern: String,
    /// The parser's message.
    pub message: String,
}

/// Every text of the list is a valid glob.
pub open spec fn all_valid(texts: Seq<String>) -> bool {
    forall|i: int| 0 <= i < texts.len() ==> glob_valid(#[trigger] texts[i]@)
}

/// `k` is the position of the first text of the list that is no valid glob.
pub open spec fn first_invalid(texts: Seq<String>, k: int) -> bool {
    &&& 0 <= k < texts.len()
    &&& !glob_valid(texts[k]@)
    &&& forall|i: int| 0 <= i < k ==> glob_valid(#[trigger] texts[i]@)
}

/// The error names the first text of the list that is no valid glob.
pub open spec fn reports(e: FilterError, texts: Seq<String>) -> bool {
    exists|k: int| first_invalid(texts, k) && e.pattern@ == texts[k]@
}

/// The compiled patterns stand for the given texts, one for one.
pub open spec fn compiled_from(patterns: Seq<Pattern>, texts: Seq<String>) -> bool {
    &&& patterns.len() == texts.len()
    &&& forall|i: int| 0 <= i < texts.len() ==> pattern_text(#[trigger] patterns[i]) == texts[i]@
}

/// Some pattern of the list matches the text.
pub open spec fn any_matches(patterns: Seq<Pattern>, text: Seq<char>) -> bool {
    exists|i: int| 0 <= i < patterns.len() && glob_matches(pattern_text(#[trigger] patterns[i]), text)
}

/// The bare file name of a path, empty where the path has none.
pub open spec fn name_text(path: Seq<char>) -> Seq<char> {
    match path_file_name(path) {
        Some(name) => name,
        None => Seq::empty(),
    }
}

/// Compiles a list of pattern texts, stopping at the first that is invalid.
pub fn compile_all(texts: &Vec<String>) -> (r: Result<Vec<Pattern>, FilterError>)
    ensures
        r.is_ok() == all_valid(texts@),
        match r {
            Ok(patterns) => compiled_from(patterns@, texts@),
            Err(e) => reports(e, texts@),
        },
{
    let mut patterns: Vec<Pattern> = Vec::new();
    let mut i: usize = 0;
    while i < texts.len()
        invariant
            i <= texts.len(),
            patterns@.len() == i,
            forall|j: int| 0 <= j < i ==> glob_valid(#[trigger] texts@[j]@),
            forall|j: int| 0 <= j < i ==> pattern_text(#[trigger] patterns@[j]) == texts@[j]@,
        decreases texts.len() - i,
    {
        match compile(texts[i].as_str()) {
            Ok(pattern) => {
                patterns.push(pattern);
            },
            Err(error) => {
                let e = FilterError { pattern: texts[i].clone(), message: error_message(&error) };
                proof {
                    assert(first_invalid(texts@, i as int));
                }
                return Err(e);
            },
        }
        i = i + 1;
    }
    Ok(patterns)
}

/// Whether some pattern of the list matches `text`.
pub fn matches_any(patterns: &Vec<Pattern>, text: &str) -> (r: bool)
    ensures
        r == any_matches(patterns@, text@),
{
    let mut i: usize = 0;
    while i < patterns.len()
        invariant
            i <= patterns.len(),
            forall|j: int| 0 <= j < i ==> !glob_matches(pattern_text(#[trigger] patterns@[j]), text@),
        decreases patterns.len() - i,
    {
        if pattern_matches(&patterns[i], text) {
            return true;
        }
        i = i + 1;
    }
    false
}

/// The compiled filter: inclusion, exclusion and file-name patterns.
pub struct PathFilter {
    pub include_patterns: Vec<Pattern>,
    pub exclude_patterns: Vec<Pattern>,
    pub file_patterns: Vec<Pattern>,
}

impl PathFilter {
    /// An exclusion pattern matches the full path or the bare file name.
    pub open spec fn excluded(&self, path: Seq<char>) -> bool {
        any_matches(self.exclude_patterns@, path) || any_matches(
            self.exclude_patterns@,
            name_text(path),
        )
    }

    /// The inclusion patterns leave a file in: there are none, or one of them
    /// matches the full path or the bare file name.
    pub open spec fn included(&self, path: Seq<char>) -> bool {
        self.include_patterns@.len() == 0 || any_matches(self.include_patterns@, path)
            || any_matches(self.include_patterns@, name_text(path))
    }

    /// The file-name patterns leave a file in: there are none, or one of them
    /// matches the bare file name.
    pub open spec fn named(&self, path: Seq<char>) -> bool {
        self.file_patterns@.len() == 0 || any_matches(self.file_patterns@, name_text(path))
    }

    /// The filter's verdict on a path: exclusion wins over everything; a
    /// directory that is not excluded always stays; a file must also pass
    /// the inclusion patterns and the file-name patterns, each on its own.
    pub open spec fn admits(&self, path: Seq<char>, is_dir: bool) -> bool {
        !self.excluded(path) && (is_dir || (self.included(path) && self.named(path)))
    }

    /// Compiles the three pattern lists, in this order; the first invalid
    /// pattern met is reported and nothing is built.
    pub fn new(
        include_patterns: &Vec<String>,
        exclude_patterns: &Vec<String>,
        file_patterns: &Vec<String>,
    ) -> (r: Result<PathFilter, FilterError>)
        ensures
            r.is_ok() == (all_valid(include_patterns@) && all_valid(exclude_patterns@)
                && all_valid(file_patterns@)),
            match r {
                Ok(filter) => {
                    &&& compiled_from(filter.include_patterns@, include_patterns@)
                    &&& compiled_from(filter.exclude_patterns@, exclude_patterns@)
                    &&& compiled_from(filter.file_patterns@, file_patterns@)
                },
                Err(e) => {
                    if !all_valid(include_patterns@) {
                        reports(e, include_patterns@)
                    } else if !all_valid(exclude_patterns@) {
                        reports(e, exclude_patterns@)
                    } else {
                        reports(e, file_patterns@)
                    }
                },
            },
    {
        let inclusion = match compile_all(include_patterns) {
            Ok(patterns) => patterns,
            Err(e) => {
                return Err(e);
            },
        };
        let exclude = match compile_all(exclude_patterns) {
            Ok(patterns) => patterns,
            Err(e) => {
                return Err(e);
            },
        };
        let file = match compile_all(file_patterns) {
            Ok(patterns) => patterns,
            Err(e) => {
                return Err(e);
            },
        };
        Ok(PathFilter { include_patterns: inclusion, exclude_patterns: exclude, file_patterns: file })
    }

    /// Decides whether a discovered path stays.
    pub fn should_include(&self, path: &str, is_dir: bool) -> (r: bool)
        ensures
            r == self.admits(path@, is_dir),
    {
        let file_name = match file_name_of(path) {
            Some(name) => name,
            None => String::new(),
        };
        if matches_any(&self.exclude_patterns, path) || matches_any(
            &self.exclude_patterns,
            file_name.as_str(),
        ) {
            return false;
        }
        if is_dir {
            return true;
        }
        if self.include_patterns.len() > 0 {
            let included = matches_any(&self.include_patterns, path) || matches_any(
                &self.include_patterns,
                file_name.as_str(),
            );
            if !included {
                return false;
            }
        }
        if self.file_patterns.len() > 0 {
            return matches_any(&self.file_patterns, file_name.as_str());
        }
        true
    }
}

/// Exclusion takes precedence: a path that an exclusion pattern matches, by
/// its full text or by its file name, is rejected whatever its kind and
/// whatever the other patterns say.
pub proof fn lemma_exclude_precedence(filter: PathFilter, path: Seq<char>, is_dir: bool)
    requires
        filter.excluded(path),
    ensures
        !filter.admits(path, is_dir),
{
}

/// Directories pass through: for a directory the verdict depends on the
/// exclusion patterns alone.
pub proof fn lemma_directory_pass_through(filter: PathFilter, path: Seq<char>)
    ensures
        filter.admits(path, true) == !filter.excluded(path),
{
}

} // verus!
