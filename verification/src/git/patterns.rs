//! Which commits fix bugs.

use crate::digest::{digest_of, stable_hash_hex};
use crate::error::UchikomiError;
use crate::text::{join_strings, join_with, views};
use vstd::prelude::*;
use vstd::utf8::encode_utf8;

verus! {

/// `regex::Regex`.
#[verifier::external_type_specification]
#[verifier::external_body]
pub struct ExRegex(regex::Regex);

/// What is wrong with a pattern: the text of the error that `regex::Regex::new`
/// returns for it, if it returns one.
pub uninterp spec fn pattern_error(pattern: Seq<char>) -> Option<Seq<char>>;

/// Whether `regex::Regex::is_match` holds of a text and the expression that was
/// made from a pattern.
pub uninterp spec fn pattern_matches(pattern: Seq<char>, text: Seq<char>) -> bool;

/// The pattern that an expression was made from.
pub uninterp spec fn pattern_of(regex: regex::Regex) -> Seq<char>;

/// `regex::Regex::new`: an expression made from the pattern, or the text of the
/// error. Which of the two depends on the pattern alone.
#[verifier::external_body]
fn compile(pattern: &str) -> (r: Result<regex::Regex, String>)
    ensures
        match r {
            Ok(regex) => pattern_error(pattern@) is None && pattern_of(regex) == pattern@,
            Err(text) => pattern_error(pattern@) == Some(text@),
        },
{
    regex::Regex::new(pattern).map_err(|err| err.to_string())
}

/// `regex::Regex::is_match`: whether the expression matches anywhere in the text.
/// It depends on the pattern and the text alone.
#[verifier::external_body]
fn find_match(regex: &regex::Regex, text: &str) -> (r: bool)
    ensures
        r == pattern_matches(pattern_of(*regex), text@),
{
    regex.is_match(text)
}

/// The patterns that tell a bug fix where none are configured.
pub open spec fn default_patterns() -> Seq<Seq<char>> {
    seq![
        "(?i)\\bfix(?:e[sd])?\\b"@,
        "(?i)\\bbug(?:s)?\\b"@,
        "(?i)\\bissue(?:s)?\\b"@,
        "(?i)\\bclos(?:e[sd]?|ing)\\b"@,
        "(?i)\\bresolv(?:e[sd]?|ing)\\b"@,
    ]
}

/// What tells histories apart that were counted with different patterns.
pub open spec fn patterns_key(patterns: Seq<Seq<char>>) -> Seq<char> {
    digest_of(encode_utf8(join_with(patterns, seq!['\n'])))
}

/// The patterns of a list that can be used.
pub open spec fn usable(patterns: Seq<Seq<char>>) -> Seq<Seq<char>>
    decreases patterns.len(),
{
    if patterns.len() == 0 {
        seq![]
    } else if pattern_error(patterns.last()) is None {
        usable(patterns.drop_last()).push(patterns.last())
    } else {
        usable(patterns.drop_last())
    }
}

/// The first error among some patterns.
pub open spec fn first_error(patterns: Seq<Seq<char>>) -> Option<Seq<char>>
    decreases patterns.len(),
{
    if patterns.len() == 0 {
        None
    } else {
        match pattern_error(patterns[0]) {
            Some(text) => Some(text),
            None => first_error(patterns.drop_first()),
        }
    }
}

/// Whether any of the patterns matches a text.
pub open spec fn any_matches(patterns: Seq<Seq<char>>, text: Seq<char>) -> bool {
    exists|i: int| 0 <= i < patterns.len() && pattern_matches(#[trigger] patterns[i], text)
}

/// What tells a bug fix by its message.
pub struct BugFixPatterns {
    patterns: Vec<regex::Regex>,
    cache_key: String,
}

impl BugFixPatterns {
    /// The patterns in use.
    pub closed spec fn sources(&self) -> Seq<Seq<char>> {
        Seq::new(self.patterns.len() as nat, |i: int| pattern_of(self.patterns@[i]))
    }

    /// What tells histories apart that were counted with different patterns.
    pub closed spec fn key(&self) -> Seq<char> {
        self.cache_key@
    }

    /// Uses the given patterns, or the default ones if there are none.
    pub fn from_patterns(patterns: &Vec<String>) -> (r: Result<BugFixPatterns, UchikomiError>)
        ensures
            match r {
                Ok(p) => if patterns.len() == 0 {
                    p.sources() == usable(default_patterns()) && p.key() == patterns_key(
                        default_patterns(),
                    )
                } else {
                    first_error(views(patterns@)) is None && p.sources() == views(patterns@)
                        && p.key() == patterns_key(views(patterns@))
                },
                Err(e) => patterns.len() > 0 && e is Other && first_error(views(patterns@)) == Some(
                    e.cause(),
                ),
            },
    {
        if patterns.len() == 0 {
            return Ok(BugFixPatterns::default());
        }
        let ghost all = views(patterns@);
        let mut compiled: Vec<regex::Regex> = Vec::new();
        assert(all.skip(0) == all);
        for i in 0..patterns.len()
            invariant
                all == views(patterns@),
                compiled.len() == i,
                forall|j: int| 0 <= j < i ==> pattern_of(#[trigger] compiled@[j]) == all[j],
                first_error(all) == first_error(all.skip(i as int)),
        {
            assert(all.skip(i as int)[0] == patterns@[i as int]@);
            assert(all.skip(i as int).drop_first() == all.skip(i + 1));
            match compile(patterns[i].as_str()) {
                Ok(regex) => {
                    compiled.push(regex);
                },
                Err(text) => {
                    return Err(UchikomiError::Other(text));
                },
            }
        }
        proof {
            reveal_strlit("\n");
            assert("\n"@ =~= seq!['\n']);
        }
        let text = join_strings(patterns, "\n");
        let r = BugFixPatterns {
            patterns: compiled,
            cache_key: stable_hash_hex(text.as_str().as_bytes()),
        };
        assert(r.sources() == all);
        Ok(r)
    }

    /// What tells histories apart that were counted with different patterns.
    pub fn cache_key(&self) -> (key: &str)
        ensures
            key@ == self.key(),
    {
        self.cache_key.as_str()
    }

    /// Whether a message is that of a bug fix.
    pub fn is_match(&self, message: &str) -> (r: bool)
        ensures
            r == any_matches(self.sources(), message@),
    {
        for i in 0..self.patterns.len()
            invariant
                forall|j: int|
                    0 <= j < i ==> !pattern_matches(#[trigger] self.sources()[j], message@),
        {
            assert(self.sources()[i as int] == pattern_of(self.patterns@[i as int]));
            if find_match(&self.patterns[i], message) {
                return true;
            }
        }
        false
    }
}

/// Whether a commit with this message, if it has one, fixes a bug.
pub fn is_bug_fix(message: Option<&str>, patterns: &BugFixPatterns) -> (r: bool)
    ensures
        r == (message is Some && any_matches(patterns.sources(), message->0@)),
{
    match message {
        Some(text) => patterns.is_match(text),
        None => false,
    }
}

impl Default for BugFixPatterns {
    /// The default patterns.
    fn default() -> (r: BugFixPatterns)
        ensures
            r.sources() == usable(default_patterns()),
            r.key() == patterns_key(default_patterns()),
    {
        let mut patterns: Vec<String> = Vec::new();
        patterns.push("(?i)\\bfix(?:e[sd])?\\b".to_string());
        patterns.push("(?i)\\bbug(?:s)?\\b".to_string());
        patterns.push("(?i)\\bissue(?:s)?\\b".to_string());
        patterns.push("(?i)\\bclos(?:e[sd]?|ing)\\b".to_string());
        patterns.push("(?i)\\bresolv(?:e[sd]?|ing)\\b".to_string());
        let ghost all = views(patterns@);
        assert(all == default_patterns());
        let mut compiled: Vec<regex::Regex> = Vec::new();
        let ghost mut kept: Seq<Seq<char>> = seq![];
        for i in 0..patterns.len()
            invariant
                all == views(patterns@),
                kept == usable(all.take(i as int)),
                compiled.len() == kept.len(),
                forall|j: int| 0 <= j < kept.len() ==> pattern_of(#[trigger] compiled@[j]) == kept[j],
        {
            assert(all.take(i + 1).drop_last() == all.take(i as int));
            assert(all.take(i + 1).last() == patterns@[i as int]@);
            if let Ok(regex) = compile(patterns[i].as_str()) {
                compiled.push(regex);
                proof {
                    kept = kept.push(all[i as int]);
                }
            }
        }
        proof {
            assert(all.take(all.len() as int) == all);
            reveal_strlit("\n");
            assert("\n"@ =~= seq!['\n']);
        }
        let text = join_strings(&patterns, "\n");
        let r = BugFixPatterns {
            patterns: compiled,
            cache_key: stable_hash_hex(text.as_str().as_bytes()),
        };
        assert(r.sources() == kept);
        r
    }
}

} // verus!
