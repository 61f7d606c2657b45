//! Small text helpers shared by the listing and the aggregation.

use vstd::prelude::*;
use vstd::string::*;

verus! {

/// Whether `c` is white space: the characters with the Unicode property
/// `White_Space`, which are those that `char::is_whitespace` accepts.
pub open spec fn white_space(c: char) -> bool {
    let n: u32 = c as u32;
    ||| 0x09 <= n <= 0x0D
    ||| n == 0x20
    ||| n == 0x85
    ||| n == 0xA0
    ||| n == 0x1680
    ||| 0x2000 <= n <= 0x200A
    ||| n == 0x2028
    ||| n == 0x2029
    ||| n == 0x202F
    ||| n == 0x205F
    ||| n == 0x3000
}

/// `s` without its leading white space.
pub open spec fn trim_front(s: Seq<char>) -> Seq<char>
    decreases s.len(),
{
    if s.len() > 0 && white_space(s.first()) {
        trim_front(s.drop_first())
    } else {
        s
    }
}

/// `s` without its trailing white space.
pub open spec fn trim_back(s: Seq<char>) -> Seq<char>
    decreases s.len(),
{
    if s.len() > 0 && white_space(s.last()) {
        trim_back(s.drop_last())
    } else {
        s
    }
}

/// `s` without leading and trailing white space.
pub open spec fn trimmed(s: Seq<char>) -> Seq<char> {
    trim_back(trim_front(s))
}

/// Calls `str::trim`. Trusted: the result is the input with every leading
/// and every trailing white-space character removed.
#[verifier::external_body]
pub(crate) fn trim<'a>(s: &'a str) -> (r: &'a str)
    ensures
        r@ == trimmed(s@),
{
    s.trim()
}

/// What is left of `s` after trimming at the front does not start with
/// white space.
pub proof fn lemma_trim_front_start(s: Seq<char>)
    ensures
        trim_front(s).len() > 0 ==> !white_space(trim_front(s).first()),
    decreases s.len(),
{
    if s.len() > 0 && white_space(s.first()) {
        lemma_trim_front_start(s.drop_first());
    }
}

/// What is left of `s` after trimming at the back is the beginning of `s`
/// and does not end with white space.
pub proof fn lemma_trim_back_end(s: Seq<char>)
    ensures
        trim_back(s).len() <= s.len(),
        trim_back(s) == s.take(trim_back(s).len() as int),
        trim_back(s).len() > 0 ==> !white_space(trim_back(s).last()),
    decreases s.len(),
{
    if s.len() > 0 && white_space(s.last()) {
        lemma_trim_back_end(s.drop_last());
        assert(trim_back(s) =~= s.take(trim_back(s).len() as int));
    } else {
        assert(s =~= s.take(s.len() as int));
    }
}

/// A trimmed text that is not empty neither starts nor ends with white
/// space.
pub proof fn lemma_trimmed_ends(s: Seq<char>)
    ensures
        trimmed(s).len() > 0 ==> !white_space(trimmed(s).first()) && !white_space(
            trimmed(s).last(),
        ),
{
    lemma_trim_front_start(s);
    lemma_trim_back_end(trim_front(s));
}

/// The indentation of a line at nesting depth `depth`: two spaces per level.
pub open spec fn indent_of(depth: nat) -> Seq<char>
    decreases depth,
{
    if depth == 0 {
        Seq::empty()
    } else {
        indent_of((depth - 1) as nat) + seq![' ', ' ']
    }
}

/// Builds the indentation for `depth` levels.
pub fn indent(depth: usize) -> (r: String)
    ensures
        r@ == indent_of(depth as nat),
{
    let mut r = String::new();
    let mut i: usize = 0;
    while i < depth
        invariant
            i <= depth,
            r@ == indent_of(i as nat),
        decreases depth - i,
    {
        proof {
            reveal_strlit("  ");
            assert("  "@ =~= seq![' ', ' ']);
        }
        r.append("  ");
        i = i + 1;
    }
    r
}

/// An indentation holds two characters per level, all of them spaces.
pub proof fn lemma_indent_shape(depth: nat)
    ensures
        indent_of(depth).len() == 2 * depth,
        forall|i: int| 0 <= i < 2 * depth ==> indent_of(depth)[i] == ' ',
    decreases depth,
{
    if depth > 0 {
        lemma_indent_shape((depth - 1) as nat);
    }
}

/// The views of a sequence of strings, item by item.
pub open spec fn texts(v: Seq<String>) -> Seq<Seq<char>> {
    Seq::new(v.len(), |i: int| v[i]@)
}

} // verus!
