//! The text forms of the values that the block tree prints: decimal
//! numbers, booleans, quoted strings and lists.
use crate::block::libs::text::push_char;
use vstd::prelude::*;

verus! {

/// `<str as Debug>::fmt`: the string in double quotes, with the characters
/// that need it escaped.
pub uninterp spec fn debug_chars(s: Seq<char>) -> Seq<char>;

/// Quotes `s` as `{:?}` prints it. The contract names the result and states
/// nothing of its characters (quoting and escaping follow Unicode's tables
/// of printable and grapheme-extending characters).
#[verifier::external_body]
pub(crate) fn debug_str(s: &str) -> (r: String)
    ensures
        r@ == debug_chars(s@),
{
    format!("{:?}", s)
}

pub open spec fn digit_char(d: nat) -> char {
    if d == 0 {
        '0'
    } else if d == 1 {
        '1'
    } else if d == 2 {
        '2'
    } else if d == 3 {
        '3'
    } else if d == 4 {
        '4'
    } else if d == 5 {
        '5'
    } else if d == 6 {
        '6'
    } else if d == 7 {
        '7'
    } else if d == 8 {
        '8'
    } else {
        '9'
    }
}

/// The decimal digits of `n`, as `{}` and `{:?}` print an unsigned integer.
pub open spec fn decimal(n: nat) -> Seq<char>
    decreases n,
{
    if n < 10 {
        seq![digit_char(n)]
    } else {
        decimal(n / 10) + seq![digit_char(n % 10)]
    }
}

/// `true` or `false`.
pub open spec fn bool_text(b: bool) -> Seq<char> {
    if b {
        "true"@
    } else {
        "false"@
    }
}

/// The parts, with `sep` between each two of them.
pub open spec fn join(parts: Seq<Seq<char>>, sep: Seq<char>) -> Seq<char>
    decreases parts.len(),
{
    if parts.len() == 0 {
        Seq::empty()
    } else if parts.len() == 1 {
        parts[0]
    } else {
        join(parts.drop_last(), sep) + sep + parts.last()
    }
}

/// `{:?}` of a list of strings: `["a", "b"]`.
pub open spec fn debug_strings(items: Seq<Seq<char>>) -> Seq<char> {
    "["@ + join(items.map_values(|s: Seq<char>| debug_chars(s)), ", "@) + "]"@
}

/// `{:?}` of a list of indices: `[1, 2]`.
pub open spec fn debug_indices(items: Seq<nat>) -> Seq<char> {
    "["@ + join(items.map_values(|i: nat| decimal(i)), ", "@) + "]"@
}

/// `{:?}` of an optional index: `Some(1)` or `None`.
pub open spec fn debug_opt_index(o: Option<nat>) -> Seq<char> {
    match o {
        Some(i) => "Some("@ + decimal(i) + ")"@,
        None => "None"@,
    }
}

/// `{:?}` of an optional string: `Some("a")` or `None`.
pub open spec fn debug_opt_string(o: Option<Seq<char>>) -> Seq<char> {
    match o {
        Some(s) => "Some("@ + debug_chars(s) + ")"@,
        None => "None"@,
    }
}

fn digit(d: usize) -> (c: char)
    requires
        d < 10,
    ensures
        c == digit_char(d as nat),
{
    match d {
        0 => '0',
        1 => '1',
        2 => '2',
        3 => '3',
        4 => '4',
        5 => '5',
        6 => '6',
        7 => '7',
        8 => '8',
        _ => '9',
    }
}

/// Appends the decimal digits of `n`.
pub fn push_decimal(out: &mut String, n: usize)
    ensures
        final(out)@ == old(out)@ + decimal(n as nat),
    decreases n,
{
    if n < 10 {
        push_char(out, digit(n));
    } else {
        push_decimal(out, n / 10);
        push_char(out, digit(n % 10));
    }
    assert(final(out)@ =~= old(out)@ + decimal(n as nat));
}

pub fn push_bool(out: &mut String, b: bool)
    ensures
        final(out)@ == old(out)@ + bool_text(b),
{
    if b {
        out.append("true");
    } else {
        out.append("false");
    }
}

proof fn lemma_join_push(parts: Seq<Seq<char>>, sep: Seq<char>, x: Seq<char>)
    requires
        parts.len() > 0,
    ensures
        join(parts.push(x), sep) == join(parts, sep) + sep + x,
{
    assert(parts.push(x).drop_last() =~= parts);
}

/// Appends `{:?}` of a list of strings.
pub fn push_debug_strings(out: &mut String, items: &Vec<String>)
    ensures
        final(out)@ == old(out)@ + debug_strings(items@.map_values(|s: String| s@)),
{
    let ghost views = items@.map_values(|s: String| s@);
    let ghost quoted = views.map_values(|s: Seq<char>| debug_chars(s));
    let ghost start = out@ + "["@;
    out.append("[");
    let mut i: usize = 0;
    while i < items.len()
        invariant
            i <= items@.len(),
            views == items@.map_values(|s: String| s@),
            quoted == views.map_values(|s: Seq<char>| debug_chars(s)),
            out@ == start + join(quoted.take(i as int), ", "@),
        decreases items@.len() - i,
    {
        let d = debug_str(items[i].as_str());
        if i > 0 {
            out.append(", ");
            out.append(d.as_str());
            proof {
                lemma_join_push(quoted.take(i as int), ", "@, quoted[i as int]);
                assert(quoted.take(i as int).push(quoted[i as int]) =~= quoted.take(i + 1));
            }
        } else {
            out.append(d.as_str());
            assert(quoted.take(1) =~= seq![quoted[0]]);
        }
        i = i + 1;
    }
    out.append("]");
    assert(quoted.take(items@.len() as int) =~= quoted);
}

/// Appends `{:?}` of a list of indices.
pub fn push_debug_indices(out: &mut String, items: &Vec<usize>)
    ensures
        final(out)@ == old(out)@ + debug_indices(items@.map_values(|i: usize| i as nat)),
{
    let ghost views = items@.map_values(|i: usize| i as nat);
    let ghost digits = views.map_values(|i: nat| decimal(i));
    let ghost start = out@ + "["@;
    out.append("[");
    let mut i: usize = 0;
    while i < items.len()
        invariant
            i <= items@.len(),
            views == items@.map_values(|i: usize| i as nat),
            digits == views.map_values(|i: nat| decimal(i)),
            out@ == start + join(digits.take(i as int), ", "@),
        decreases items@.len() - i,
    {
        if i > 0 {
            out.append(", ");
            push_decimal(out, items[i]);
            proof {
                lemma_join_push(digits.take(i as int), ", "@, digits[i as int]);
                assert(digits.take(i as int).push(digits[i as int]) =~= digits.take(i + 1));
            }
        } else {
            push_decimal(out, items[i]);
            assert(digits.take(1) =~= seq![digits[0]]);
        }
        i = i + 1;
    }
    out.append("]");
    assert(digits.take(items@.len() as int) =~= digits);
}

/// Appends `{:?}` of an optional index.
pub fn push_debug_opt_index(out: &mut String, o: Option<usize>)
    ensures
        final(out)@ == old(out)@ + debug_opt_index(
            match o {
                Some(i) => Some(i as nat),
                None => None,
            },
        ),
{
    match o {
        Some(i) => {
            out.append("Some(");
            push_decimal(out, i);
            out.append(")");
        },
        None => {
            out.append("None");
        },
    }
}

/// Appends `{:?}` of an optional string.
pub fn push_debug_opt_string(out: &mut String, o: &Option<String>)
    ensures
        final(out)@ == old(out)@ + debug_opt_string(
            match o {
                Some(s) => Some(s@),
                None => None,
            },
        ),
{
    match o {
        Some(s) => {
            out.append("Some(");
            let d = debug_str(s.as_str());
            out.append(d.as_str());
            out.append(")");
        },
        None => {
            out.append("None");
        },
    }
}

/// The quoted list of no strings is `[]`; of one, the string quoted within
/// brackets; and one more string adds a comma, a space and that string,
/// quoted, before the closing bracket: every item is shown, in order.
pub proof fn law_debug_strings_items(items: Seq<Seq<char>>, x: Seq<char>)
    ensures
        debug_strings(Seq::empty()) == "[]"@,
        debug_strings(seq![x]) == "["@ + debug_chars(x) + "]"@,
        items.len() > 0 ==> debug_strings(items.push(x)) == debug_strings(items).drop_last()
            + ", "@ + debug_chars(x) + "]"@,
{
    reveal_strlit("[]");
    reveal_strlit("[");
    reveal_strlit("]");
    let f = |s: Seq<char>| debug_chars(s);
    assert(Seq::<Seq<char>>::empty().map_values(f) =~= Seq::<Seq<char>>::empty());
    assert(debug_strings(Seq::empty()) =~= "[]"@);
    assert(seq![x].map_values(f) =~= seq![debug_chars(x)]);
    if items.len() > 0 {
        let q = items.map_values(f);
        assert(items.push(x).map_values(f) =~= q.push(debug_chars(x)));
        lemma_join_push(q, ", "@, debug_chars(x));
        assert(debug_strings(items).drop_last() =~= "["@ + join(q, ", "@));
        assert(debug_strings(items.push(x)) =~= debug_strings(items).drop_last() + ", "@
            + debug_chars(x) + "]"@);
    }
}

/// Joining one part gives that part; one more part adds the separator
/// and that part at the end.
pub proof fn law_join_items(parts: Seq<Seq<char>>, sep: Seq<char>, x: Seq<char>)
    ensures
        join(Seq::empty(), sep) == Seq::<char>::empty(),
        join(seq![x], sep) == x,
        parts.len() > 0 ==> join(parts.push(x), sep) == join(parts, sep) + sep + x,
{
    if parts.len() > 0 {
        lemma_join_push(parts, sep, x);
    }
}

} // verus!
