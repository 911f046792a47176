use crate::block::blocks::{arena_push, indices_view, KindModel, NodeModel, OpenBlock, OpenBlockKind};
use crate::block::libs::text::{
    count_leading, lemma_leading_len_bounds, leading_len, push_char, CharClass,
};
use crate::parser::display::{kind_displayable, open_block_text};
use crate::block::parser::{BlockParser, ParserModel};
use vstd::prelude::*;

verus! {

/// The line without its indentation of at most three spaces; `None` for
/// four or more, which would start an indented code block instead.
pub open spec fn spec_check_indent(line: Seq<char>) -> Option<Seq<char>> {
    let indent = leading_len(line, CharClass::Space);
    if indent > 3 {
        None
    } else {
        Some(line.skip(indent as int))
    }
}

pub open spec fn opt_chars(o: Option<&[char]>) -> Option<Seq<char>> {
    match o {
        Some(s) => Some(s@),
        None => None,
    }
}

/// A new node of the given kind becomes the last child of the innermost
/// open block; it is pushed on the open stack only if it stays open.
pub open spec fn spec_push_child(m: ParserModel, kind: KindModel, stays_open: bool) -> ParserModel {
    let node = NodeModel {
        kind,
        parent: Some(m.stack.last()),
        children: Seq::empty(),
        is_open: stays_open,
    };
    ParserModel {
        nodes: arena_push(m.nodes, node),
        stack: if stays_open {
            m.stack.push(m.nodes.len())
        } else {
            m.stack
        },
    }
}

impl BlockParser {
    pub(crate) fn check_indent(line: &[char]) -> (r: Option<&[char]>)
        ensures
            opt_chars(r) == spec_check_indent(line@),
    {
        let indent = count_leading(line, CharClass::Space);
        if indent > 3 {
            return None;  // call indented code block instead for 4+ spaces.
        }
        proof {
            lemma_leading_len_bounds(line@, CharClass::Space);
        }
        Some(&line[indent..line.len()])
    }

    pub(crate) fn push_child(&mut self, kind: OpenBlockKind, stays_open: bool) -> (idx: usize)
        requires
            old(self)@.stack.len() > 0,
            old(self)@.stack.last() < old(self)@.nodes.len(),
        ensures
            idx == old(self)@.nodes.len(),
            final(self)@ == spec_push_child(old(self)@, kind@, stays_open),
    {
        let ghost stack0 = self.open_stack@;
        let parent = *self.open_stack.last().unwrap();
        let mut block = OpenBlock::new(kind, Some(parent));
        block.is_open = stays_open;

        let idx = self.arena.push(block);
        if stays_open {
            self.open_stack.push(idx);
            assert(indices_view(stack0.push(idx)) =~= indices_view(stack0).push(idx as nat));
        }
        idx
    }
}

/// The block at each depth of the open stack, bottom first, each followed
/// by an empty line; blocks missing from the arena are skipped.
pub open spec fn stack_blocks_text(m: ParserModel, k: int) -> Seq<char>
    decreases k,
{
    if k <= 0 {
        Seq::empty()
    } else {
        let idx = m.stack[k - 1];
        stack_blocks_text(m, k - 1) + if idx < m.nodes.len() {
            open_block_text(m.nodes[idx as int]) + "\n"@
        } else {
            Seq::empty()
        }
    }
}

/// A title line with the label, the open blocks, and a line of `'='` as
/// long as the title.
pub open spec fn open_stack_report_text(m: ParserModel, label: Seq<char>) -> Seq<char> {
    let title = "==== "@ + label + " ===="@;
    title + "\n"@ + stack_blocks_text(m, m.stack.len() as int) + Seq::new(title.len(), |i: int| '=')
        + "\n"@
}

impl BlockParser {
    /// The text that lists the blocks of the open stack under a title.
    pub fn open_stack_report(&self, label: String) -> (r: String)
        requires
            forall|k: int|
                0 <= k < self@.stack.len() && #[trigger] self@.stack[k] < self@.nodes.len()
                    ==> kind_displayable(self@.nodes[self@.stack[k] as int].kind),
        ensures
            r@ == open_stack_report_text(self@, label@),
    {
        let mut s = String::new();
        s.append("==== ");
        s.append(label.as_str());
        s.append(" ====");
        let ghost title = s@;
        proof {
            reveal_strlit("==== ");
            reveal_strlit(" ====");
        }
        assert(title =~= "==== "@ + label@ + " ===="@);
        let count = s.as_str().unicode_len();
        let mut out = String::new();
        out.append(s.as_str());
        out.append("\n");

        let mut k: usize = 0;
        while k < self.open_stack.len()
            invariant
                k <= self@.stack.len(),
                forall|k: int|
                    0 <= k < self@.stack.len() && #[trigger] self@.stack[k] < self@.nodes.len()
                        ==> kind_displayable(self@.nodes[self@.stack[k] as int].kind),
                out@ == title + "\n"@ + stack_blocks_text(self@, k as int),
            decreases self@.stack.len() - k,
        {
            let index = self.open_stack[k];
            assert(self@.stack[k as int] == index as nat);
            let node = self.arena.get(index);
            if let Some(node) = node {
                let text = node.to_string();
                out.append(text.as_str());
                out.append("\n");
            }
            k = k + 1;
        }

        let ghost before = out@;
        let mut i: usize = 0;
        while i < count
            invariant
                i <= count,
                count == title.len(),
                out@ == before + Seq::new(i as nat, |j: int| '='),
            decreases count - i,
        {
            push_char(&mut out, '=');
            i = i + 1;
            assert(out@ =~= before + Seq::new(i as nat, |j: int| '='));
        }
        out.append("\n");
        out
    }
}

} // verus!
