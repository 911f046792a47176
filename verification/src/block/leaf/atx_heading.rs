use crate::block::libs::misc::spec_check_indent;
use crate::block::libs::text::{
    count_leading, count_trailing, is_unicode_whitespace, is_whitespace, lemma_leading_len_bounds,
    lemma_trailing_len_bounds, leading_len, trailing_len, trim, trim_end_class, trim_end_of,
    trim_ws, CharClass,
};
use crate::block::parser::BlockParser;
use vstd::prelude::*;

verus! {

/// The heading text without its closing sequence of `'#'`s. The closing
/// sequence counts only where whitespace precedes it or it is the whole
/// text; whitespace before it goes too.
pub open spec fn spec_strip_closing_hashes(text: Seq<char>) -> Seq<char> {
    let hashes = trailing_len(text, CharClass::Hash);
    let before = text.take(text.len() - hashes);
    if hashes == 0 {
        text
    } else if before.len() == 0 {
        before
    } else if is_unicode_whitespace(before.last()) {
        trim_end_class(before, CharClass::Whitespace)
    } else {
        text
    }
}

/// An ATX heading: after an indentation of at most three spaces, one to six
/// `'#'`s, then the end of the line or a space or tab; the text is the rest,
/// trimmed, without its closing sequence.
pub open spec fn spec_match_atx_heading(line: Seq<char>) -> Option<(u8, Seq<char>)> {
    match spec_check_indent(line) {
        None => None,
        Some(t0) => {
            let t = trim_end_class(t0, CharClass::Whitespace);
            let level = leading_len(t, CharClass::Hash);
            let after = t.skip(level as int);
            if level == 0 || level > 6 {
                None
            } else if after.len() > 0 && (after[0] == ' ' || after[0] == '\t') {
                Some((level as u8, spec_strip_closing_hashes(trim_ws(after.drop_first()))))
            } else if after.len() == 0 {
                Some((level as u8, spec_strip_closing_hashes(Seq::empty())))
            } else {
                None
            }
        },
    }
}

pub open spec fn opt_heading(o: Option<(u8, &[char])>) -> Option<(u8, Seq<char>)> {
    match o {
        Some((l, s)) => Some((l, s@)),
        None => None,
    }
}

impl BlockParser {
    pub(crate) fn match_atx_heading(line: &[char]) -> (r: Option<(u8, &[char])>)
        ensures
            opt_heading(r) == spec_match_atx_heading(line@),
    {
        let trimmed = Self::check_indent(line)?;
        let trimmed = trim_end_of(trimmed, CharClass::Whitespace);

        // count leading #'s for heading level
        let level = count_leading(trimmed, CharClass::Hash);
        if level == 0 || level > 6 {
            return None;
        }
        proof {
            lemma_leading_len_bounds(trimmed@, CharClass::Hash);
        }
        let after_hashes = &trimmed[level..trimmed.len()];

        // followed by whitespace, rules out #hashtag
        let text: &[char] = if after_hashes.len() > 0 && (after_hashes[0] == ' '
            || after_hashes[0] == '\t') {
            trim(&after_hashes[1..after_hashes.len()])
        } else if after_hashes.len() == 0 {
            proof {
                assert(after_hashes@ =~= Seq::<char>::empty());
            }
            after_hashes
        } else {
            return None;
        };

        let text = Self::strip_closing_hashes(text);

        Some((level as u8, text))
    }

    pub(crate) fn strip_closing_hashes(text: &[char]) -> (r: &[char])
        ensures
            r@ == spec_strip_closing_hashes(text@),
    {
        let hash_count = count_trailing(text, CharClass::Hash);
        proof {
            lemma_trailing_len_bounds(text@, CharClass::Hash);
        }
        let trimmed_hashes = &text[0..text.len() - hash_count];

        // no trailing '#'s: nothing to do
        if hash_count == 0 {
            return text;
        }
        // closing sequence must be preceded by whitespace (or be the whole string)
        if trimmed_hashes.len() == 0 {
            trimmed_hashes
        } else if is_whitespace(trimmed_hashes[trimmed_hashes.len() - 1]) {
            trim_end_of(trimmed_hashes, CharClass::Whitespace)
        } else {
            text
        }
    }
}

} // verus!
