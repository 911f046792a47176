use crate::block::blocks::{
    indices_view, strings_view, Arena, Document, KindModel, NodeModel, OpenBlock, OpenBlockKind, RawBlock,
};
use crate::block::container::block_quotes::spec_match_block_quote;
use crate::block::leaf::atx_heading::spec_match_atx_heading;
use crate::block::leaf::paragraph::spec_match_paragraph;
use crate::block::leaf::thematic::spec_match_thematic_break;
use crate::block::libs::misc::spec_push_child;
use crate::block::invariants::{
    lemma_close_wf, lemma_initial_wf, lemma_match_open_keeps_root, lemma_process_line_wf,
    lemma_try_open_wf, parser_wf,
};
use crate::block::libs::text::{
    all_whitespace, chars_replacing_nul, chars_to_string, count_leading, is_blank,
    lemma_leading_len_bounds, leading_len, replace_nul, CharClass,
};
use crate::parser::display::{lemma_wf_subtree_acyclic, subtree_acyclic};
use vstd::prelude::*;

verus! {

/// The first phase of parsing: it reads the input line by line and builds
/// the tree of blocks in an arena, keeping the chain of blocks that are
/// still open on a stack.
pub struct BlockParser {
    pub arena: Arena,
    pub open_stack: Vec<usize>,
}

/// The state of a parser: the nodes of its arena and its open stack.
pub struct ParserModel {
    pub nodes: Seq<NodeModel>,
    pub stack: Seq<nat>,
}

impl View for BlockParser {
    type V = ParserModel;

    open spec fn view(&self) -> ParserModel {
        ParserModel { nodes: self.arena@, stack: indices_view(self.open_stack@) }
    }
}

/// The kinds of open block that a following line is matched against.
pub open spec fn is_matchable(k: KindModel) -> bool {
    ||| k is Document
    ||| k is BlockQuote
    ||| k is Paragraph
    ||| k is ThematicBreak
    ||| k is Heading
}

/// Every entry of the open stack names a node that a line can be matched against.
pub open spec fn stack_matchable(m: ParserModel) -> bool {
    forall|k: int|
        0 <= k < m.stack.len() ==> #[trigger] m.stack[k] < m.nodes.len() && is_matchable(
            m.nodes[m.stack[k] as int].kind,
        )
}

/// Every entry of the open stack that names a node of the arena names one
/// that a line can be matched against.
pub open spec fn stack_kinds_matchable(m: ParserModel) -> bool {
    forall|k: int|
        0 <= k < m.stack.len() && #[trigger] m.stack[k] < m.nodes.len() ==> is_matchable(
            m.nodes[m.stack[k] as int].kind,
        )
}

/// The parser's state right after construction: the document root, open
/// and alone on the stack.
pub open spec fn spec_initial() -> ParserModel {
    ParserModel {
        nodes: seq![
            NodeModel {
                kind: KindModel::Document,
                parent: None,
                children: Seq::empty(),
                is_open: true,
            },
        ],
        stack: seq![0nat],
    }
}

/// Walks the open stack from depth `d` on, consuming for each open block
/// the marker by which the line continues it. Returns the depth of the
/// first block that the line does not continue (the stack's length if it
/// continues them all) and what is left of the line.
pub open spec fn spec_match_open(m: ParserModel, d: int, rem: Seq<char>) -> (int, Seq<char>)
    decreases m.stack.len() - d,
{
    if d < 0 || d >= m.stack.len() {
        (m.stack.len() as int, rem)
    } else {
        let idx = m.stack[d];
        if idx >= m.nodes.len() {
            spec_match_open(m, d + 1, rem)
        } else {
            match m.nodes[idx as int].kind {
                KindModel::BlockQuote => match spec_match_block_quote(rem) {
                    Some(r) => spec_match_open(m, d + 1, r),
                    None => (d, rem),
                },
                KindModel::Paragraph(_) => match spec_match_paragraph(rem) {
                    Some(r) => spec_match_open(m, d + 1, r),
                    None => (d, rem),
                },
                _ => spec_match_open(m, d + 1, rem),
            }
        }
    }
}

pub open spec fn close_node(n: NodeModel) -> NodeModel {
    NodeModel { is_open: false, ..n }
}

/// Node `i` stands on the stack at a depth in `from..to`.
pub open spec fn on_stack_between(stack: Seq<nat>, from: int, to: int, i: int) -> bool {
    exists|k: int| from <= k < to && #[trigger] stack[k] == i
}

/// Closes every block on the stack at `depth` or deeper and pops it.
pub open spec fn spec_close_blocks_below(m: ParserModel, depth: int) -> ParserModel {
    if m.stack.len() <= depth {
        m
    } else {
        ParserModel {
            nodes: Seq::new(
                m.nodes.len(),
                |i: int|
                    if on_stack_between(m.stack, depth, m.stack.len() as int, i) {
                        close_node(m.nodes[i])
                    } else {
                        m.nodes[i]
                    },
            ),
            stack: m.stack.take(depth),
        }
    }
}

pub proof fn lemma_block_quote_shorter(line: Seq<char>)
    ensures
        spec_match_block_quote(line) matches Some(r) ==> r.len() < line.len(),
{
    lemma_leading_len_bounds(line, CharClass::Space);
}

/// The rest of a line starts a block quote, a heading or a thematic break.
pub open spec fn starts_a_block(rest: Seq<char>) -> bool {
    ||| spec_match_block_quote(rest) is Some
    ||| spec_match_atx_heading(rest) is Some
    ||| spec_match_thematic_break(rest) is Some
}

/// Opens the blocks that the rest of the line starts: any number of block
/// quotes, then a heading or a thematic break, which take the rest of the
/// line and are closed at once. Returns the new state and what is left.
pub open spec fn spec_try_open_new_blocks(m: ParserModel, rest: Seq<char>) -> (
    ParserModel,
    Seq<char>,
)
    decreases rest.len(),
{
    match spec_match_block_quote(rest) {
        Some(r) => {
            proof {
                lemma_block_quote_shorter(rest);
            }
            spec_try_open_new_blocks(spec_push_child(m, KindModel::BlockQuote, true), r)
        },
        None => match spec_match_atx_heading(rest) {
            Some((level, raw)) => (
                spec_push_child(m, KindModel::Heading { level, raw }, false),
                Seq::empty(),
            ),
            None => if spec_match_thematic_break(rest) is Some {
                (spec_push_child(m, KindModel::ThematicBreak, false), Seq::empty())
            } else {
                (m, rest)
            },
        },
    }
}

/// Text that is not blank goes to the innermost open block: it becomes the
/// next line of an open paragraph, or else starts a new paragraph there.
pub open spec fn spec_append_text(m: ParserModel, rem: Seq<char>) -> ParserModel {
    if all_whitespace(rem) {
        m
    } else {
        let last = m.stack.last() as int;
        match m.nodes[last].kind {
            KindModel::Paragraph(p) => ParserModel {
                nodes: m.nodes.update(
                    last,
                    NodeModel { kind: KindModel::Paragraph(p.push(rem)), ..m.nodes[last] },
                ),
                stack: m.stack,
            },
            _ => spec_push_child(m, KindModel::Paragraph(seq![rem]), true),
        }
    }
}

/// One line: continue the open blocks it matches, close the others, open
/// the blocks it starts, and add what text is left.
pub open spec fn spec_process_line(m: ParserModel, line: Seq<char>) -> ParserModel {
    let (depth, rem) = spec_match_open(m, 0, line);
    let m1 = spec_close_blocks_below(m, depth);
    let (m2, rem2) = spec_try_open_new_blocks(m1, rem);
    spec_append_text(m2, rem2)
}

pub open spec fn spec_process_lines(m: ParserModel, lines: Seq<Seq<char>>) -> ParserModel
    decreases lines.len(),
{
    if lines.len() == 0 {
        m
    } else {
        spec_process_lines(spec_process_line(m, lines[0]), lines.drop_first())
    }
}

/// A line ending `'\r'` loses it.
pub open spec fn strip_cr(s: Seq<char>) -> Seq<char> {
    if s.len() > 0 && s.last() == '\r' {
        s.drop_last()
    } else {
        s
    }
}

/// `str::lines`: the text split at each `'\n'`, a `'\r'` right before it
/// dropped; a last line without `'\n'` is kept as it is, and there is no
/// empty line after a final `'\n'`.
pub open spec fn spec_lines(s: Seq<char>) -> Seq<Seq<char>>
    decreases s.len(),
{
    if s.len() == 0 {
        Seq::empty()
    } else {
        let k = leading_len(s, CharClass::NotNewline);
        if k < s.len() {
            proof {
                lemma_leading_len_bounds(s, CharClass::NotNewline);
            }
            seq![strip_cr(s.take(k as int))] + spec_lines(s.skip(k + 1 as int))
        } else {
            seq![s]
        }
    }
}

/// Parsing an input: each of its lines in turn, then every block that is
/// still open is closed.
pub open spec fn spec_parse(m: ParserModel, input: Seq<char>) -> ParserModel {
    spec_close_blocks_below(spec_process_lines(m, spec_lines(replace_nul(input))), 0)
}

impl Default for BlockParser {
    fn default() -> (p: Self)
        ensures
            p@ == spec_initial(),
    {
        let mut arena = Arena::new();
        let root = arena.push(OpenBlock::new(OpenBlockKind::Document, None));
        let p = Self { arena, open_stack: vec![root] };
        assert(p@.nodes =~= spec_initial().nodes);
        assert(p@.stack =~= spec_initial().stack);
        p
    }
}

impl BlockParser {
    pub fn new() -> (p: Self)
        ensures
            p@ == spec_initial(),
            parser_wf(p@),
            subtree_acyclic(p@.nodes, 0),
    {
        proof {
            lemma_initial_wf();
            lemma_wf_subtree_acyclic(spec_initial().nodes, 0);
        }
        Self::default()
    }

    /// Builds the tree of blocks of `input` in the arena. Every block is
    /// closed at the end; the document returned is still empty.
    pub fn parse_phase_one(&mut self, input: String) -> (doc: Document<RawBlock>)
        requires
            parser_wf(old(self)@),
            old(self)@.stack.len() > 0 || input@.len() == 0,
        ensures
            final(self)@ == spec_parse(old(self)@, input@),
            parser_wf(final(self)@),
            subtree_acyclic(final(self)@.nodes, 0),
            final(self)@.stack.len() == 0,
            forall|i: int| 0 <= i < final(self)@.nodes.len() ==> !(#[trigger] final(self)@.nodes[i]).is_open,
            doc.children@.len() == 0,
    {
        let doc = Document::<RawBlock>::new();

        let chars = chars_replacing_nul(input.as_str());
        let text = chars.as_slice();
        let ghost m0 = self@;
        let mut start: usize = 0;
        assert(text@.skip(0) =~= text@);
        while start < text.len()
            invariant
                start <= text@.len(),
                text@ == replace_nul(input@),
                parser_wf(self@),
                self@.stack.len() > 0 || start == text@.len(),
                spec_process_lines(self@, spec_lines(text@.skip(start as int))) == spec_process_lines(
                    m0,
                    spec_lines(text@),
                ),
            decreases text@.len() - start,
        {
            let ghost s = text@.skip(start as int);
            let rest = &text[start..text.len()];
            assert(rest@ == s);
            let k = count_leading(rest, CharClass::NotNewline);
            proof {
                lemma_leading_len_bounds(s, CharClass::NotNewline);
            }
            let line: &[char];
            if k < rest.len() {
                line = if k > 0 && rest[k - 1] == '\r' {
                    &rest[0..k - 1]
                } else {
                    &rest[0..k]
                };
                assert(line@ == strip_cr(s.take(k as int)));
                assert(s.skip(k + 1 as int) =~= text@.skip(start + k + 1));
            } else {
                line = rest;
            }
            let ghost lines = spec_lines(s);
            assert(lines[0] == line@);
            proof {
                lemma_process_line_wf(self@, line@);
            }
            self.process_line(line);
            if k < rest.len() {
                start = start + k + 1;
                assert(lines.drop_first() =~= spec_lines(text@.skip(start as int)));
            } else {
                start = text.len();
                assert(lines.drop_first() =~= spec_lines(text@.skip(start as int)));
            }
        }
        proof {
            assert(text@.skip(start as int) =~= Seq::<char>::empty());
            lemma_close_wf(self@, 0);
        }
        self.close_blocks_below(0);  // to close the document struct
        proof {
            assert(self@.stack.len() == 0);
            assert forall|i: int| 0 <= i < self@.nodes.len() implies !(#[trigger] self@.nodes[i]).is_open by {
                assert(!on_stack_between(self@.stack, 0, 0, i));
            }
            lemma_wf_subtree_acyclic(self@.nodes, 0);
        }

        doc
    }

    fn process_line(&mut self, line: &[char])
        requires
            parser_wf(old(self)@),
            old(self)@.stack.len() > 0,
        ensures
            final(self)@ == spec_process_line(old(self)@, line@),
    {
        proof {
            lemma_match_open_keeps_root(self@, line@);
        }
        let (depth, remainder) = self.match_open_blocks(line);
        proof {
            lemma_close_wf(self@, depth as int);
        }
        self.close_blocks_below(depth);
        proof {
            lemma_try_open_wf(self@, remainder@);
        }
        let remainder = self.try_open_new_blocks(remainder);
        assert(self@.stack[self@.stack.len() - 1] < self@.nodes.len());
        self.append_text(remainder);
    }

    // checking for any open blocks (to catch block types that span for more than one line).
    fn match_open_blocks<'a>(&self, line: &'a [char]) -> (r: (usize, &'a [char]))
        requires
            stack_kinds_matchable(self@),
        ensures
            (r.0 as int, r.1@) == spec_match_open(self@, 0, line@),
    {
        let mut remaining = line;
        let mut depth: usize = 0;
        while depth < self.open_stack.len()
            invariant
                stack_kinds_matchable(self@),
                depth <= self@.stack.len(),
                spec_match_open(self@, depth as int, remaining@) == spec_match_open(
                    self@,
                    0,
                    line@,
                ),
            decreases self@.stack.len() - depth,
        {
            let idx = self.open_stack[depth];
            let node = match self.arena.get(idx) {
                Some(node) => node,
                None => {
                    depth = depth + 1;
                    continue ;
                },
            };
            let matched = match &node.kind {
                OpenBlockKind::BlockQuote => Self::match_block_quote(remaining),
                OpenBlockKind::Paragraph(_) => Self::match_paragraph(remaining),
                OpenBlockKind::Document
                | OpenBlockKind::ThematicBreak
                | OpenBlockKind::Heading { .. } => {
                    depth = depth + 1;
                    continue ;
                },
                _ => {
                    proof {
                        assert(is_matchable(self@.nodes[self@.stack[depth as int] as int].kind));
                    }
                    unreached()
                },
            };
            match matched {
                Some(r) => remaining = r,
                None => return (depth, remaining),
            }
            depth = depth + 1;
        }

        (self.open_stack.len(), remaining)
    }

    /// closing
    fn close_blocks_below(&mut self, depth: usize)
        requires
            forall|k: int|
                depth <= k < old(self)@.stack.len() ==> #[trigger] old(self)@.stack[k] < old(
                    self,
                )@.nodes.len(),
        ensures
            final(self)@ == spec_close_blocks_below(old(self)@, depth as int),
    {
        let ghost m0 = self@;
        if self.open_stack.len() <= depth {
            return ;
        }
        while self.open_stack.len() > depth
            invariant
                depth < m0.stack.len(),
                depth <= self@.stack.len() <= m0.stack.len(),
                self@.stack == m0.stack.take(self@.stack.len() as int),
                self@.nodes.len() == m0.nodes.len(),
                forall|k: int| depth <= k < m0.stack.len() ==> #[trigger] m0.stack[k] < m0.nodes.len(),
                forall|i: int|
                    0 <= i < m0.nodes.len() ==> #[trigger] self@.nodes[i] == if on_stack_between(
                        m0.stack,
                        self@.stack.len() as int,
                        m0.stack.len() as int,
                        i,
                    ) {
                        close_node(m0.nodes[i])
                    } else {
                        m0.nodes[i]
                    },
            decreases self@.stack.len(),
        {
            let ghost lo = self@.stack.len() - 1;
            let ghost sv = self.open_stack@;
            assert(indices_view(sv)[lo] == m0.stack.take(lo + 1)[lo]);
            let idx = self.open_stack.pop().unwrap();
            assert(idx == sv[lo]);
            assert(indices_view(self.open_stack@) =~= indices_view(sv).take(lo));
            assert(idx == m0.stack[lo]);
            match self.arena.get_mut(idx) {
                Some(block) => {
                    block.is_open = false;
                },
                None => {
                    unreached()
                },
            }
            // not handling lazy continuation yet.
            proof {
                let hi = m0.stack.len() as int;
                assert(self@.stack =~= m0.stack.take(lo));
                assert forall|i: int| 0 <= i < m0.nodes.len() implies #[trigger] self@.nodes[i]
                    == if on_stack_between(m0.stack, lo, hi, i) {
                    close_node(m0.nodes[i])
                } else {
                    m0.nodes[i]
                } by {
                    if i == idx {
                        assert(on_stack_between(m0.stack, lo, hi, i));
                    } else {
                        assert(on_stack_between(m0.stack, lo, hi, i) == on_stack_between(
                            m0.stack,
                            lo + 1,
                            hi,
                            i,
                        ));
                    }
                }
            }
        }
        proof {
            assert(self@.nodes =~= spec_close_blocks_below(m0, depth as int).nodes);
        }
    }

    /// opening/creating new blocks
    fn try_open_new_blocks<'a>(&mut self, remainder: &'a [char]) -> (r: &'a [char])
        requires
            starts_a_block(remainder@) ==> old(self)@.stack.len() > 0 && old(self)@.stack.last()
                < old(self)@.nodes.len(),
        ensures
            (final(self)@, r@) == spec_try_open_new_blocks(old(self)@, remainder@),
    {
        let ghost m0 = self@;
        let mut rest = remainder;

        loop
            invariant_except_break
                starts_a_block(rest@) ==> self@.stack.len() > 0 && self@.stack.last()
                    < self@.nodes.len(),
                spec_try_open_new_blocks(self@, rest@) == spec_try_open_new_blocks(m0, remainder@),
            ensures
                (self@, rest@) == spec_try_open_new_blocks(m0, remainder@),
            decreases rest@.len(),
        {
            if let Some(rem) = Self::match_block_quote(rest) {
                proof {
                    lemma_block_quote_shorter(rest@);
                }
                self.push_child(OpenBlockKind::BlockQuote, true);
                rest = rem;

                continue ;
            }
            if let Some((level, raw)) = Self::match_atx_heading(rest) {
                let heading = OpenBlockKind::Heading { level, raw: chars_to_string(raw) };
                self.push_child(heading, false);
                rest = &rest[0..0];
                assert(rest@ =~= Seq::<char>::empty());

                break ;
            }
            if Self::match_thematic_break(rest).is_some() {
                self.push_child(OpenBlockKind::ThematicBreak, false);
                rest = &rest[0..0];
                assert(rest@ =~= Seq::<char>::empty());

                break ;
            }

            break ;
        }

        rest
    }

    // just appending the existing text as a fallback
    fn append_text(&mut self, remainder: &[char])
        requires
            old(self)@.stack.len() > 0,
            !all_whitespace(remainder@) ==> old(self)@.stack.last() < old(self)@.nodes.len(),
        ensures
            final(self)@ == spec_append_text(old(self)@, remainder@),
    {
        let last = *self.open_stack.last().unwrap();
        let remainder_text = chars_to_string(remainder);

        if is_blank(remainder) {
            return ;
        }
        let ghost m0 = self@;
        let is_paragraph = match self.arena.get(last) {
            Some(block) => matches!(block.kind, OpenBlockKind::Paragraph(_)),
            None => unreached(),
        };
        if is_paragraph {
            match self.arena.get_mut(last) {
                Some(block) => match &mut block.kind {
                    OpenBlockKind::Paragraph(p) => {
                        let ghost lines = p@;
                        p.push(remainder_text);
                        assert(strings_view(p@) =~= strings_view(lines).push(remainder@));
                    },
                    _ => unreached(),
                },
                None => unreached(),
            }
            proof {
                assert(self@.nodes =~= spec_append_text(m0, remainder@).nodes);
            }
            return ;
        }
        let mut lines: Vec<String> = Vec::new();
        lines.push(remainder_text);
        assert(strings_view(lines@) =~= seq![remainder@]);
        assert(!(m0.nodes[last as int].kind is Paragraph));
        let block = OpenBlock::new(OpenBlockKind::Paragraph(lines), Some(last));
        let idx = self.arena.push(block);
        self.open_stack.push(idx);
        proof {
            assert(self@.nodes =~= spec_append_text(m0, remainder@).nodes);
            assert(self@.stack =~= spec_append_text(m0, remainder@).stack);
        }
    }
}

} // verus!
