use crate::block::libs::misc::{opt_chars, spec_check_indent};
use crate::block::parser::BlockParser;
use vstd::prelude::*;

verus! {

/// The characters a thematic break line may hold.
pub open spec fn is_break_char(c: char) -> bool {
    c == '*' || c == '-' || c == '_' || c == ' ' || c == '\t'
}

/// A thematic break: after an indentation of at most three spaces, more
/// than two characters, each of them `'*'`, `'-'`, `'_'`, a space or a tab.
/// Nothing of the line is left over.
pub open spec fn spec_match_thematic_break(line: Seq<char>) -> Option<Seq<char>> {
    match spec_check_indent(line) {
        None => None,
        Some(t) => if t.len() > 2 && forall|i: int| 0 <= i < t.len() ==> is_break_char(#[trigger] t[i]) {
            Some(Seq::empty())
        } else {
            None
        },
    }
}

impl BlockParser {
    pub(crate) fn match_thematic_break(line: &[char]) -> (r: Option<&[char]>)
        ensures
            opt_chars(r) == spec_match_thematic_break(line@),
    {
        let trimmed = Self::check_indent(line)?;
        assert(spec_check_indent(line@) == Some(trimmed@));

        let mut breakline: usize = 0;

        let mut previous_char = ' ';
        let mut i: usize = 0;
        while i < trimmed.len()
            invariant
                i <= trimmed@.len(),
                breakline == i,
                spec_check_indent(line@) == Some(trimmed@),
                forall|j: int| 0 <= j < i ==> is_break_char(#[trigger] trimmed@[j]),
            decreases trimmed@.len() - i,
        {
            let ch = trimmed[i];
            let is_symbol = ch == '*' || ch == '-' || ch == '_' || ch == ' ' || ch == '\t';
            let is_char_allowed = is_symbol || previous_char == ch;

            if !is_char_allowed {
                breakline = 0;
            }
            if ch == '*' || ch == '-' || ch == '_' || ch == ' ' || ch == '\t' {
                breakline = breakline + 1;
            } else {
                // for other characters, this isn't a thematic break.
                proof {
                    assert(!is_break_char(trimmed@[i as int]));
                }
                return None;
            }

            previous_char = ch;
            i = i + 1;
        }

        if breakline > 2 {
            let rest = &line[line.len()..line.len()];
            proof {
                assert(rest@ =~= Seq::<char>::empty());
            }
            Some(rest)
        } else {
            None
        }
    }
}

} // verus!
