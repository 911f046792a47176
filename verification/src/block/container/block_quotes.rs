use crate::block::libs::misc::{opt_chars, spec_check_indent};
use crate::block::parser::BlockParser;
use vstd::prelude::*;

verus! {

/// A block quote marker: after an indentation of at most three spaces, a
/// `'>'`, optionally followed by one space; the rest of the line is the
/// quote's content.
pub open spec fn spec_match_block_quote(line: Seq<char>) -> Option<Seq<char>> {
    match spec_check_indent(line) {
        None => None,
        Some(t) => if t.len() > 0 && t[0] == '>' {
            let r = t.drop_first();
            if r.len() > 0 && r[0] == ' ' {
                Some(r.drop_first())
            } else {
                Some(r)
            }
        } else {
            None
        },
    }
}

impl BlockParser {
    pub(crate) fn match_block_quote(line: &[char]) -> (r: Option<&[char]>)
        ensures
            opt_chars(r) == spec_match_block_quote(line@),
    {
        let trimmed = Self::check_indent(line)?;
        if trimmed.len() > 0 && trimmed[0] == '>' {
            let rest = &trimmed[1..trimmed.len()];
            if rest.len() > 0 && rest[0] == ' ' {
                Some(&rest[1..rest.len()])
            } else {
                Some(rest)
            }
        } else {
            None
        }
    }
}

} // verus!
