//! Character classes and the trimming operations that the block matchers use,
//! stated over the characters of a line.
use vstd::prelude::*;

verus! {

/// The sets of characters that a matcher counts or trims.
#[derive(Clone, Copy, PartialEq, Eq, Structural)]
pub enum CharClass {
    /// The space character `' '`.
    Space,
    /// The number sign `'#'`.
    Hash,
    /// Unicode `White_Space`, as `char::is_whitespace` defines it.
    Whitespace,
    /// Every character but `'\n'`.
    NotNewline,
}

/// Unicode `White_Space`: the characters that `char::is_whitespace` accepts.
pub open spec fn is_unicode_whitespace(c: char) -> bool {
    ||| c == '\t'
    ||| c == '\n'
    ||| c == '\u{0B}'
    ||| c == '\u{0C}'
    ||| c == '\r'
    ||| c == ' '
    ||| c == '\u{85}'
    ||| c == '\u{A0}'
    ||| c == '\u{1680}'
    ||| ('\u{2000}' <= c && c <= '\u{200A}')
    ||| c == '\u{2028}'
    ||| c == '\u{2029}'
    ||| c == '\u{202F}'
    ||| c == '\u{205F}'
    ||| c == '\u{3000}'
}

pub open spec fn in_class(cls: CharClass, c: char) -> bool {
    match cls {
        CharClass::Space => c == ' ',
        CharClass::Hash => c == '#',
        CharClass::Whitespace => is_unicode_whitespace(c),
        CharClass::NotNewline => c != '\n',
    }
}

/// How many characters at the start of `s` belong to `cls`.
pub open spec fn leading_len(s: Seq<char>, cls: CharClass) -> nat
    decreases s.len(),
{
    if s.len() > 0 && in_class(cls, s[0]) {
        1 + leading_len(s.drop_first(), cls)
    } else {
        0
    }
}

/// How many characters at the end of `s` belong to `cls`.
pub open spec fn trailing_len(s: Seq<char>, cls: CharClass) -> nat
    decreases s.len(),
{
    if s.len() > 0 && in_class(cls, s.last()) {
        1 + trailing_len(s.drop_last(), cls)
    } else {
        0
    }
}

/// `s` without its leading characters of class `cls`.
pub open spec fn trim_start_class(s: Seq<char>, cls: CharClass) -> Seq<char> {
    s.skip(leading_len(s, cls) as int)
}

/// `s` without its trailing characters of class `cls`.
pub open spec fn trim_end_class(s: Seq<char>, cls: CharClass) -> Seq<char> {
    s.take(s.len() - trailing_len(s, cls))
}

/// `str::trim`: `s` without leading and trailing whitespace.
pub open spec fn trim_ws(s: Seq<char>) -> Seq<char> {
    trim_end_class(trim_start_class(s, CharClass::Whitespace), CharClass::Whitespace)
}

/// Every character of `s` is whitespace (so `s.trim()` is empty).
pub open spec fn all_whitespace(s: Seq<char>) -> bool {
    forall|i: int| 0 <= i < s.len() ==> is_unicode_whitespace(#[trigger] s[i])
}

pub proof fn lemma_leading_len_bounds(s: Seq<char>, cls: CharClass)
    ensures
        leading_len(s, cls) <= s.len(),
        forall|i: int| 0 <= i < leading_len(s, cls) ==> in_class(cls, #[trigger] s[i]),
        leading_len(s, cls) == s.len() || !in_class(cls, s[leading_len(s, cls) as int]),
    decreases s.len(),
{
    if s.len() > 0 && in_class(cls, s[0]) {
        lemma_leading_len_bounds(s.drop_first(), cls);
        assert forall|i: int| 0 <= i < leading_len(s, cls) implies in_class(cls, #[trigger] s[i]) by {
            if i > 0 {
                assert(s[i] == s.drop_first()[i - 1]);
            }
        }
    }
}

pub proof fn lemma_leading_len_is(s: Seq<char>, cls: CharClass, k: int)
    requires
        0 <= k <= s.len(),
        forall|i: int| 0 <= i < k ==> in_class(cls, #[trigger] s[i]),
        k == s.len() || !in_class(cls, s[k]),
    ensures
        leading_len(s, cls) == k,
    decreases k,
{
    if k > 0 {
        assert(in_class(cls, s[0]));
        assert forall|i: int| 0 <= i < k - 1 implies in_class(cls, #[trigger] s.drop_first()[i]) by {
            assert(s.drop_first()[i] == s[i + 1]);
        }
        lemma_leading_len_is(s.drop_first(), cls, k - 1);
    }
}

pub proof fn lemma_trailing_len_bounds(s: Seq<char>, cls: CharClass)
    ensures
        trailing_len(s, cls) <= s.len(),
        forall|i: int|
            s.len() - trailing_len(s, cls) <= i < s.len() ==> in_class(cls, #[trigger] s[i]),
        trailing_len(s, cls) == s.len() || !in_class(
            cls,
            s[s.len() - trailing_len(s, cls) - 1],
        ),
    decreases s.len(),
{
    if s.len() > 0 && in_class(cls, s.last()) {
        lemma_trailing_len_bounds(s.drop_last(), cls);
        assert forall|i: int|
            s.len() - trailing_len(s, cls) <= i < s.len() implies in_class(
            cls,
            #[trigger] s[i],
        ) by {
            if i < s.len() - 1 {
                assert(s[i] == s.drop_last()[i]);
            }
        }
        if trailing_len(s, cls) < s.len() {
            assert(s[s.len() - trailing_len(s, cls) - 1] == s.drop_last()[s.drop_last().len()
                - trailing_len(s.drop_last(), cls) - 1]);
        }
    }
}

pub proof fn lemma_trailing_len_is(s: Seq<char>, cls: CharClass, k: int)
    requires
        0 <= k <= s.len(),
        forall|i: int| s.len() - k <= i < s.len() ==> in_class(cls, #[trigger] s[i]),
        k == s.len() || !in_class(cls, s[s.len() - k - 1]),
    ensures
        trailing_len(s, cls) == k,
    decreases k,
{
    if k > 0 {
        assert(in_class(cls, s[s.len() - 1]));
        assert forall|i: int|
            s.drop_last().len() - (k - 1) <= i < s.drop_last().len() implies in_class(
            cls,
            #[trigger] s.drop_last()[i],
        ) by {
            assert(s.drop_last()[i] == s[i]);
        }
        if k - 1 < s.drop_last().len() {
            assert(s.drop_last()[s.drop_last().len() - (k - 1) - 1] == s[s.len() - k - 1]);
        }
        lemma_trailing_len_is(s.drop_last(), cls, k - 1);
    }
}

/// `char::is_whitespace`.
pub fn is_whitespace(c: char) -> (b: bool)
    ensures
        b == is_unicode_whitespace(c),
{
    c == '\t' || c == '\n' || c == '\u{0B}' || c == '\u{0C}' || c == '\r' || c == ' ' || c
        == '\u{85}' || c == '\u{A0}' || c == '\u{1680}' || ('\u{2000}' <= c && c <= '\u{200A}')
        || c == '\u{2028}' || c == '\u{2029}' || c == '\u{202F}' || c == '\u{205F}' || c
        == '\u{3000}'
}

pub fn class_contains(cls: CharClass, c: char) -> (b: bool)
    ensures
        b == in_class(cls, c),
{
    match cls {
        CharClass::Space => c == ' ',
        CharClass::Hash => c == '#',
        CharClass::Whitespace => is_whitespace(c),
        CharClass::NotNewline => c != '\n',
    }
}

/// Number of leading characters of `s` in `cls`.
pub fn count_leading(s: &[char], cls: CharClass) -> (n: usize)
    ensures
        n == leading_len(s@, cls),
{
    let mut i: usize = 0;
    while i < s.len() && class_contains(cls, s[i])
        invariant
            i <= s@.len(),
            forall|j: int| 0 <= j < i ==> in_class(cls, #[trigger] s@[j]),
        decreases s@.len() - i,
    {
        i = i + 1;
    }
    proof {
        lemma_leading_len_is(s@, cls, i as int);
    }
    i
}

/// Number of trailing characters of `s` in `cls`.
pub fn count_trailing(s: &[char], cls: CharClass) -> (n: usize)
    ensures
        n == trailing_len(s@, cls),
{
    let mut i: usize = 0;
    while i < s.len() && class_contains(cls, s[s.len() - 1 - i])
        invariant
            i <= s@.len(),
            forall|j: int| s@.len() - i <= j < s@.len() ==> in_class(cls, #[trigger] s@[j]),
        decreases s@.len() - i,
    {
        i = i + 1;
    }
    proof {
        lemma_trailing_len_is(s@, cls, i as int);
    }
    i
}

/// `s` without its leading characters of class `cls`.
pub fn trim_start_of(s: &[char], cls: CharClass) -> (r: &[char])
    ensures
        r@ == trim_start_class(s@, cls),
{
    let n = count_leading(s, cls);
    proof {
        lemma_leading_len_bounds(s@, cls);
    }
    &s[n..s.len()]
}

/// `s` without its trailing characters of class `cls`.
pub fn trim_end_of(s: &[char], cls: CharClass) -> (r: &[char])
    ensures
        r@ == trim_end_class(s@, cls),
{
    let n = count_trailing(s, cls);
    proof {
        lemma_trailing_len_bounds(s@, cls);
    }
    &s[0..s.len() - n]
}

/// `str::trim` on a line.
pub fn trim(s: &[char]) -> (r: &[char])
    ensures
        r@ == trim_ws(s@),
{
    trim_end_of(trim_start_of(s, CharClass::Whitespace), CharClass::Whitespace)
}

/// `s.trim().is_empty()`.
pub fn is_blank(s: &[char]) -> (b: bool)
    ensures
        b == all_whitespace(s@),
{
    let n = count_leading(s, CharClass::Whitespace);
    proof {
        lemma_leading_len_bounds(s@, CharClass::Whitespace);
        if n < s@.len() {
            assert(!is_unicode_whitespace(s@[n as int]));
        }
    }
    n == s.len()
}

/// `String::push`. The contract claims that the string afterwards is the
/// old one with `c` appended.
#[verifier::external_body]
pub(crate) fn push_char(s: &mut String, c: char)
    ensures
        final(s)@ == old(s)@.push(c),
{
    s.push(c);
}

/// A `String` holding the characters of `s`.
pub fn chars_to_string(s: &[char]) -> (r: String)
    ensures
        r@ == s@,
{
    let mut r = String::new();
    let mut i: usize = 0;
    while i < s.len()
        invariant
            i <= s@.len(),
            r@ == s@.take(i as int),
        decreases s@.len() - i,
    {
        push_char(&mut r, s[i]);
        i = i + 1;
        assert(r@ =~= s@.take(i as int));
    }
    assert(s@.take(s@.len() as int) =~= s@);
    r
}

/// `str::replace("\u{0000}", "\u{FFFD}")`.
pub open spec fn replace_nul(s: Seq<char>) -> Seq<char> {
    s.map_values(|c: char| if c == '\u{0}' { '\u{FFFD}' } else { c })
}

/// The characters of `s`, each NUL replaced by U+FFFD.
pub fn chars_replacing_nul(s: &str) -> (r: Vec<char>)
    ensures
        r@ == replace_nul(s@),
{
    broadcast use vstd::string::group_string_axioms;

    let mut out: Vec<char> = Vec::new();
    for c in it: s.chars()
        invariant
            it.seq() == s@,
            out@ == replace_nul(it.seq().take(it.index() as int)),
    {
        let ghost before = out@;
        out.push(if c == '\u{0}' { '\u{FFFD}' } else { c });
        assert(replace_nul(it.seq().take(it.index() as int + 1)) =~= before.push(if c == '\u{0}' { '\u{FFFD}' } else { c }));
    }
    assert(s@.take(s@.len() as int) =~= s@);
    out
}

} // verus!
