use crate::block::container::block_quotes::spec_match_block_quote;
use crate::block::leaf::atx_heading::spec_match_atx_heading;
use crate::block::leaf::thematic::spec_match_thematic_break;
use crate::block::libs::misc::opt_chars;
use crate::block::libs::text::{all_whitespace, is_blank};
use crate::block::parser::BlockParser;
use vstd::prelude::*;

verus! {

/// A paragraph goes on with a line that is not blank and does not start a
/// block quote, a thematic break or a heading; the whole line is its text.
pub open spec fn spec_match_paragraph(line: Seq<char>) -> Option<Seq<char>> {
    if all_whitespace(line) {
        None
    } else if spec_match_block_quote(line) is Some || spec_match_thematic_break(line) is Some
        || spec_match_atx_heading(line) is Some {
        None
    } else {
        Some(line)
    }
}

impl BlockParser {
    pub(crate) fn match_paragraph(line: &[char]) -> (r: Option<&[char]>)
        ensures
            opt_chars(r) == spec_match_paragraph(line@),
    {
        if is_blank(line) {
            return None;
        }
        if Self::match_block_quote(line).is_some() || Self::match_thematic_break(line).is_some()
            || Self::match_atx_heading(line).is_some() {
            return None;
        }
        Some(line)
    }
}

} // verus!
