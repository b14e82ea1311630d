//! Character-level text primitives: the whitespace and identifier character
//! classes, skipping leading whitespace, and splitting a text at the longest
//! prefix whose characters satisfy a predicate.

use vstd::prelude::*;
use vstd::string::StrSliceExecFns;

verus! {

/// The whitespace characters that the grammar skips between tokens: the
/// White_Space set, written out.
pub open spec fn is_space(c: char) -> bool {
    c == ' ' || c == '\t' || c == '\n' || c == '\u{000B}' || c == '\u{000C}' || c == '\r'
        || c == '\u{0085}' || c == '\u{00A0}' || c == '\u{1680}' || c == '\u{2000}'
        || c == '\u{2001}' || c == '\u{2002}' || c == '\u{2003}' || c == '\u{2004}'
        || c == '\u{2005}' || c == '\u{2006}' || c == '\u{2007}' || c == '\u{2008}'
        || c == '\u{2009}' || c == '\u{200A}' || c == '\u{2028}' || c == '\u{2029}'
        || c == '\u{202F}' || c == '\u{205F}' || c == '\u{3000}'
}

/// Runtime test for [`is_space`].
#[verifier::when_used_as_spec(is_space)]
pub fn space_char(c: char) -> (r: bool)
    ensures
        r == is_space(c),
{
    c == ' ' || c == '\t' || c == '\n' || c == '\u{000B}' || c == '\u{000C}' || c == '\r'
        || c == '\u{0085}' || c == '\u{00A0}' || c == '\u{1680}' || c == '\u{2000}'
        || c == '\u{2001}' || c == '\u{2002}' || c == '\u{2003}' || c == '\u{2004}'
        || c == '\u{2005}' || c == '\u{2006}' || c == '\u{2007}' || c == '\u{2008}'
        || c == '\u{2009}' || c == '\u{200A}' || c == '\u{2028}' || c == '\u{2029}'
        || c == '\u{202F}' || c == '\u{205F}' || c == '\u{3000}'
}

/// A character that may stand in an identifier: a letter `a`-`z` or
/// `A`-`Z`, a digit, or an underscore.
pub open spec fn is_ident_char(c: char) -> bool {
    ('a' <= c && c <= 'z') || ('A' <= c && c <= 'Z') || ('0' <= c && c <= '9') || c == '_'
}

/// Runtime test for [`is_ident_char`].
#[verifier::when_used_as_spec(is_ident_char)]
pub fn ident_char(c: char) -> (r: bool)
    ensures
        r == is_ident_char(c),
{
    ('a' <= c && c <= 'z') || ('A' <= c && c <= 'Z') || ('0' <= c && c <= '9') || c == '_'
}

/// The text with its leading whitespace removed.
pub open spec fn trimmed(s: Seq<char>) -> Seq<char>
    decreases s.len(),
{
    if s.len() > 0 && is_space(s[0]) {
        trimmed(s.subrange(1, s.len() as int))
    } else {
        s
    }
}

pub proof fn lemma_trimmed_len(s: Seq<char>)
    ensures
        trimmed(s).len() <= s.len(),
    decreases s.len(),
{
    if s.len() > 0 && is_space(s[0]) {
        lemma_trimmed_len(s.subrange(1, s.len() as int));
    }
}

/// Trimming removes exactly the leading whitespace: if the first `i`
/// characters are whitespace and the next one (if any) is not, the trimmed
/// text is the suffix starting at `i`.
pub proof fn lemma_trimmed_at(s: Seq<char>, i: int)
    requires
        0 <= i <= s.len(),
        forall|j: int| 0 <= j < i ==> is_space(s[j]),
        i < s.len() ==> !is_space(s[i]),
    ensures
        trimmed(s) == s.subrange(i, s.len() as int),
    decreases i,
{
    if i == 0 {
        assert(s.subrange(0, s.len() as int) =~= s);
    } else {
        let tail = s.subrange(1, s.len() as int);
        lemma_trimmed_at(tail, i - 1);
        assert(tail.subrange(i - 1, tail.len() as int) =~= s.subrange(i, s.len() as int));
    }
}

/// Leading whitespace removed; the rest of the text unchanged.
pub fn trim_leading<'s>(source: &'s str) -> (r: &'s str)
    ensures
        r@ == trimmed(source@),
{
    let len = source.unicode_len();
    let mut i: usize = 0;
    while i < len
        invariant
            i <= len,
            len == source@.len(),
            forall|j: int| 0 <= j < i ==> is_space(source@[j]),
        ensures
            i <= len,
            forall|j: int| 0 <= j < i ==> is_space(source@[j]),
            i < len ==> !is_space(source@[i as int]),
        decreases len - i,
    {
        if !space_char(source.get_char(i)) {
            break;
        }
        i += 1;
    }
    proof {
        lemma_trimmed_at(source@, i as int);
    }
    source.substring_char(i, len)
}

/// The length of the longest prefix of `s` whose characters all satisfy `p`.
pub open spec fn prefix_len(s: Seq<char>, p: spec_fn(char) -> bool) -> nat
    decreases s.len(),
{
    if s.len() > 0 && p(s[0]) {
        (1 + prefix_len(s.subrange(1, s.len() as int), p)) as nat
    } else {
        0
    }
}

pub proof fn lemma_prefix_len_le(s: Seq<char>, p: spec_fn(char) -> bool)
    ensures
        prefix_len(s, p) <= s.len(),
    decreases s.len(),
{
    if s.len() > 0 && p(s[0]) {
        lemma_prefix_len_le(s.subrange(1, s.len() as int), p);
    }
}

/// `prefix_len` is the position of the first character that fails `p`: if
/// the first `i` characters satisfy `p` and the next one (if any) does not,
/// then the prefix length is exactly `i`.
pub proof fn lemma_prefix_len_at(s: Seq<char>, p: spec_fn(char) -> bool, i: int)
    requires
        0 <= i <= s.len(),
        forall|j: int| 0 <= j < i ==> p(s[j]),
        i < s.len() ==> !p(s[i]),
    ensures
        prefix_len(s, p) == i,
    decreases i,
{
    if i > 0 {
        let tail = s.subrange(1, s.len() as int);
        lemma_prefix_len_at(tail, p, i - 1);
    }
}

/// Splitting a text at a prefix of `p`-characters followed by a failing
/// character recovers `prefix_len`: used to relate scanning loops to the
/// specification.
pub proof fn lemma_prefix_len_split(a: Seq<char>, b: Seq<char>, p: spec_fn(char) -> bool)
    requires
        forall|j: int| 0 <= j < a.len() ==> p(a[j]),
        b.len() > 0 ==> !p(b[0]),
    ensures
        prefix_len(a + b, p) == a.len(),
{
    let s = a + b;
    assert(forall|j: int| 0 <= j < a.len() ==> s[j] == a[j]);
    if a.len() < s.len() {
        assert(s[a.len() as int] == b[0]);
    }
    lemma_prefix_len_at(s, p, a.len() as int);
}

/// Whether two strings hold the same characters.
pub fn str_eq(a: &str, b: &str) -> (r: bool)
    ensures
        r == (a@ == b@),
{
    let a_len = a.unicode_len();
    let b_len = b.unicode_len();
    if a_len != b_len {
        return false;
    }
    let mut i: usize = 0;
    while i < a_len
        invariant
            i <= a_len,
            a_len == a@.len(),
            a_len == b@.len(),
            forall|j: int| 0 <= j < i ==> a@[j] == b@[j],
        ensures
            i <= a_len,
            forall|j: int| 0 <= j < i ==> a@[j] == b@[j],
            i < a_len ==> a@[i as int] != b@[i as int],
        decreases a_len - i,
    {
        if a.get_char(i) != b.get_char(i) {
            break;
        }
        i += 1;
    }
    if i == a_len {
        proof {
            assert(a@ =~= b@);
        }
        true
    } else {
        false
    }
}

} // verus!
