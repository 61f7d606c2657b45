//! Ignore rules: patterns matched against the full path of an entry.
//!
//! A rule applies to a path when its pattern matches the path as a whole;
//! a match of a part of the path is not enough. A pattern that does not
//! compile matches nothing. It is never an error:
//! the other rules keep their effect.

use vstd::prelude::*;
use vstd::utf8::encode_utf8;
use crate::text::texts;

verus! {

/// Whether `regex::Regex::new` accepts `pattern`.
pub uninterp spec fn pattern_compiles(pattern: Seq<char>) -> bool;

/// What `regex::Regex::find` returns for the regular expression compiled
/// from `pattern` on `text`: the byte offsets at which the first match
/// starts and ends, or `None` where nothing matches. Meaningful only for a
/// pattern that compiles.
pub uninterp spec fn first_match(pattern: Seq<char>, text: Seq<char>) -> Option<(usize, usize)>;

/// Calls `regex::Regex::new` on `pattern` and, if that succeeds,
/// `regex::Regex::find` on `text`. Trusted: both depend on the two strings
/// alone; `None` comes back exactly when the pattern is refused, and
/// otherwise the start and end of the first match as `find` reports them.
#[verifier::external_body]
fn try_find(pattern: &str, text: &str) -> (r: Option<Option<(usize, usize)>>)
    ensures
        r == (if pattern_compiles(pattern@) {
            Some(first_match(pattern@, text@))
        } else {
            None::<Option<(usize, usize)>>
        }),
{
    match regex::Regex::new(pattern) {
        Ok(re) => match re.find(text) {
            Some(m) => Some(Some((m.start(), m.end()))),
            None => Some(None),
        },
        Err(_) => None,
    }
}

/// The length of `text` in bytes, as `str::len` reports it; match offsets
/// are counted in bytes too.
pub open spec fn byte_len(text: Seq<char>) -> usize {
    encode_utf8(text).len() as usize
}

/// Whether the rule `pattern` applies to `text`: the pattern compiles and
/// its first match covers the text from its first byte to its last. A
/// pattern that matches only a part of the text does not apply, and a
/// pattern that does not compile applies to nothing.
pub open spec fn rule_matches(pattern: Seq<char>, text: Seq<char>) -> bool {
    pattern_compiles(pattern) && match first_match(pattern, text) {
        Some((from, to)) => from == 0 && to == byte_len(text),
        None => false,
    }
}

/// What a rule says once the outcome of compiling and searching is known,
/// for a text of `len` bytes: it applies exactly when a match was found
/// that starts at 0 and ends at `len`. The outer `None` stands for a
/// pattern that did not compile and counts as no match.
pub fn verdict(searched: Option<Option<(usize, usize)>>, len: usize) -> (b: bool)
    ensures
        b == (searched == Some(Some((0usize, len)))),
{
    match searched {
        Some(Some((from, to))) => from == 0 && to == len,
        _ => false,
    }
}

/// Whether the rule `pattern` applies to `text`.
pub fn pattern_matches(pattern: &str, text: &str) -> (b: bool)
    ensures
        b == rule_matches(pattern@, text@),
{
    verdict(try_find(pattern, text), text.len())
}

/// Whether `path` is ignored under `patterns`: at least one rule applies.
pub open spec fn ignored(path: Seq<char>, patterns: Seq<Seq<char>>) -> bool {
    exists|i: int| 0 <= i < patterns.len() && rule_matches(#[trigger] patterns[i], path)
}

/// Whether `path` is ignored under `patterns`.
pub fn is_ignored(path: &str, patterns: &Vec<String>) -> (b: bool)
    ensures
        b == ignored(path@, texts(patterns@)),
{
    let mut i: usize = 0;
    while i < patterns.len()
        invariant
            i <= patterns.len(),
            forall|j: int| 0 <= j < i ==> !rule_matches(#[trigger] texts(patterns@)[j], path@),
        decreases patterns.len() - i,
    {
        if pattern_matches(patterns[i].as_str(), path) {
            assert(rule_matches(texts(patterns@)[i as int], path@));
            return true;
        }
        i = i + 1;
    }
    false
}

/// The order of the rules does not matter, nor how often one occurs: two
/// rule lists with the same members ignore the same paths.
pub proof fn law_rule_order_is_irrelevant(
    path: Seq<char>,
    first: Seq<Seq<char>>,
    second: Seq<Seq<char>>,
)
    requires
        forall|p: Seq<char>| first.contains(p) <==> second.contains(p),
    ensures
        ignored(path, first) == ignored(path, second),
{
    if ignored(path, first) {
        let i = choose|i: int| 0 <= i < first.len() && rule_matches(#[trigger] first[i], path);
        assert(first.contains(first[i]));
        let j = choose|j: int| 0 <= j < second.len() && second[j] == first[i];
        assert(rule_matches(second[j], path));
    }
    if ignored(path, second) {
        let i = choose|i: int| 0 <= i < second.len() && rule_matches(#[trigger] second[i], path);
        assert(second.contains(second[i]));
        let j = choose|j: int| 0 <= j < first.len() && first[j] == second[i];
        assert(rule_matches(first[j], path));
    }
}

/// A pattern that does not compile is inert: wherever it stands among the
/// rules, every path is ignored or kept exactly as without it.
pub proof fn law_invalid_pattern_is_inert(
    path: Seq<char>,
    patterns: Seq<Seq<char>>,
    at: int,
    invalid: Seq<char>,
)
    requires
        0 <= at <= patterns.len(),
        !pattern_compiles(invalid),
    ensures
        ignored(path, patterns.insert(at, invalid)) == ignored(path, patterns),
{
    let with = patterns.insert(at, invalid);
    if ignored(path, patterns) {
        let i = choose|i: int| 0 <= i < patterns.len() && rule_matches(#[trigger] patterns[i], path);
        let j = if i < at { i } else { i + 1 };
        assert(with[j] == patterns[i]);
        assert(rule_matches(with[j], path));
    }
    if ignored(path, with) {
        let j = choose|j: int| 0 <= j < with.len() && rule_matches(#[trigger] with[j], path);
        assert(j != at);
        let i = if j < at { j } else { j - 1 };
        assert(patterns[i] == with[j]);
        assert(rule_matches(patterns[i], path));
    }
}

} // verus!
