//! Properties of the block parser that span its operations.
use crate::block::blocks::{arena_push, arena_wf, KindModel, NodeModel};
use crate::block::container::block_quotes::spec_match_block_quote;
use crate::block::invariants::{
    lemma_close_wf, lemma_match_open_keeps_root, lemma_process_line_wf,
    lemma_push_child_wf, lemma_try_open_wf, parser_wf,
};
use crate::block::leaf::atx_heading::spec_match_atx_heading;
use crate::block::leaf::paragraph::spec_match_paragraph;
use crate::block::leaf::thematic::spec_match_thematic_break;
use crate::block::libs::misc::{spec_check_indent, spec_push_child};
use crate::block::libs::text::{
    all_whitespace, in_class, lemma_leading_len_bounds, lemma_leading_len_is,
    lemma_trailing_len_is, is_unicode_whitespace, leading_len, replace_nul, trim_end_class,
    CharClass,
};
use crate::block::parser::{
    lemma_block_quote_shorter, on_stack_between, spec_append_text, spec_lines, spec_close_blocks_below,
    spec_match_open, spec_parse, spec_process_line, spec_process_lines, spec_try_open_new_blocks,
    ParserModel,
};
use crate::block::shape::{
    is_leaf_kind, kind_content_ok, lemma_close_shape, lemma_initial_shape,
    lemma_process_line_shape, tree_shape,
};
use crate::block::line_step::line_step_inv;
use vstd::prelude::*;

verus! {

/// Reading a node back after `push` gives what was pushed, at the index
/// that `push` returned; the parent, if any, has that index as its last
/// child; every other node is unchanged.
pub proof fn law_arena_push_then_read(nodes: Seq<NodeModel>, node: NodeModel)
    requires
        node.parent matches Some(p) ==> p < nodes.len(),
    ensures
        arena_push(nodes, node).len() == nodes.len() + 1,
        arena_push(nodes, node)[nodes.len() as int] == node,
        node.parent matches Some(p) ==> arena_push(nodes, node)[p as int].children == nodes[p as int].children.push(nodes.len()),
        forall|i: int|
            0 <= i < nodes.len() && node.parent != Some(i as nat) ==> #[trigger] arena_push(nodes, node)[i]
                == nodes[i],
{
}

/// Pushing a new node keeps the arena a forest stored parent-first, with
/// parent links and child lists in agreement.
pub proof fn law_arena_push_keeps_forest(nodes: Seq<NodeModel>, node: NodeModel)
    requires
        arena_wf(nodes),
        node.parent matches Some(p) ==> p < nodes.len(),
        node.children.len() == 0,
    ensures
        arena_wf(arena_push(nodes, node)),
{
    crate::block::invariants::lemma_arena_push_wf(nodes, node);
}

/// A heading's level is between one and six.
pub proof fn law_heading_level_in_range(line: Seq<char>)
    ensures
        spec_match_atx_heading(line) matches Some((level, _)) ==> 1 <= level <= 6,
{
}

/// A line that continues a paragraph is taken whole.
pub proof fn law_paragraph_takes_whole_line(line: Seq<char>)
    ensures
        spec_match_paragraph(line) matches Some(rest) ==> rest == line,
{
}

/// A block quote marker is a non-empty prefix of the line: what is left is
/// a strictly shorter suffix.
pub proof fn law_block_quote_leaves_suffix(line: Seq<char>)
    ensures
        spec_match_block_quote(line) matches Some(rest) ==> exists|k: int|
            1 <= k <= line.len() && rest == line.skip(k),
{
    if let Some(rest) = spec_match_block_quote(line) {
        lemma_leading_len_bounds(line, CharClass::Space);
        let n = leading_len(line, CharClass::Space) as int;
        let t = line.skip(n);
        if t.drop_first().len() > 0 && t.drop_first()[0] == ' ' {
            assert(rest =~= line.skip(n + 2));
        } else {
            assert(rest =~= line.skip(n + 1));
        }
    }
}

/// Headings and thematic breaks are closed as soon as they are made; only
/// the document, block quotes and paragraphs are ever open.
pub proof fn law_leaf_blocks_never_open(m: ParserModel)
    requires
        parser_wf(m),
    ensures
        forall|i: int|
            0 <= i < m.nodes.len() && (#[trigger] m.nodes[i]).is_open ==> (m.nodes[i].kind is Document
                || m.nodes[i].kind is BlockQuote || m.nodes[i].kind is Paragraph),
{
    assert forall|i: int|
        0 <= i < m.nodes.len() && (#[trigger] m.nodes[i]).is_open implies (m.nodes[i].kind is Document
        || m.nodes[i].kind is BlockQuote || m.nodes[i].kind is Paragraph) by {
        let k = choose|k: int| 0 <= k < m.stack.len() && #[trigger] m.stack[k] == i;
        if k > 0 {
            assert(crate::block::invariants::is_container_or_paragraph(
                m.nodes[m.stack[k] as int].kind,
            ));
        }
    }
}

proof fn lemma_blank_indent(line: Seq<char>)
    requires
        all_whitespace(line),
    ensures
        spec_check_indent(line) matches Some(t) ==> all_whitespace(t),
{
    lemma_leading_len_bounds(line, CharClass::Space);
    if let Some(t) = spec_check_indent(line) {
        let n = leading_len(line, CharClass::Space) as int;
        assert forall|i: int| 0 <= i < t.len() implies is_unicode_whitespace(#[trigger] t[i]) by {
            assert(t[i] == line[i + n]);
        }
    }
}

proof fn lemma_blank_starts_nothing(line: Seq<char>)
    requires
        all_whitespace(line),
    ensures
        spec_match_block_quote(line) is None,
        spec_match_atx_heading(line) is None,
        spec_match_paragraph(line) is None,
{
    lemma_blank_indent(line);
    if let Some(t0) = spec_check_indent(line) {
        if t0.len() > 0 {
            assert(is_unicode_whitespace(t0[0]));
        }
        lemma_trailing_len_is(t0, CharClass::Whitespace, t0.len() as int);
        assert(trim_end_class(t0, CharClass::Whitespace) =~= Seq::<char>::empty());
    }
}

/// A blank line closes every open block but the document root.
pub proof fn law_blank_line_closes_to_root(m: ParserModel, line: Seq<char>)
    requires
        parser_wf(m),
        m.stack.len() > 0,
        all_whitespace(line),
    ensures
        spec_process_line(m, line).stack == seq![m.stack[0]],
{
    lemma_blank_starts_nothing(line);
    assert(m.stack[0] < m.nodes.len());
    assert(spec_match_open(m, 0, line) == spec_match_open(m, 1, line));
    if m.stack.len() > 1 {
        assert(m.stack[1] < m.nodes.len());
        assert(crate::block::invariants::is_container_or_paragraph(m.nodes[m.stack[1] as int].kind));
    }
    assert(spec_match_open(m, 0, line) == (1int, line));
    let m1 = spec_close_blocks_below(m, 1);
    assert(m1.stack =~= seq![m.stack[0]]);
    let (m2, rem2) = spec_try_open_new_blocks(m1, line);
    assert(m2.stack == m1.stack);
    assert(all_whitespace(rem2));
}

/// `a` grows into `b`: no node goes away, none changes its parent, and
/// children are only ever added at the end.
pub open spec fn nodes_grow(a: Seq<NodeModel>, b: Seq<NodeModel>) -> bool {
    &&& a.len() <= b.len()
    &&& forall|i: int|
        0 <= i < a.len() ==> (#[trigger] b[i]).parent == a[i].parent
            && a[i].children.is_prefix_of(b[i].children)
}

proof fn lemma_grow_trans(a: Seq<NodeModel>, b: Seq<NodeModel>, c: Seq<NodeModel>)
    requires
        nodes_grow(a, b),
        nodes_grow(b, c),
    ensures
        nodes_grow(a, c),
{
    assert forall|i: int| 0 <= i < a.len() implies (#[trigger] c[i]).parent == a[i].parent
        && a[i].children.is_prefix_of(c[i].children) by {
        assert(b[i].parent == a[i].parent);
        assert(a[i].children.is_prefix_of(b[i].children));
        assert(b[i].children.is_prefix_of(c[i].children));
        assert(a[i].children =~= c[i].children.subrange(0, a[i].children.len() as int));
    }
}

proof fn lemma_push_child_grows(m: ParserModel, kind: KindModel, stays_open: bool)
    requires
        m.stack.len() > 0,
        m.stack.last() < m.nodes.len(),
    ensures
        nodes_grow(m.nodes, spec_push_child(m, kind, stays_open).nodes),
{
    let n2 = spec_push_child(m, kind, stays_open).nodes;
    assert forall|i: int| 0 <= i < m.nodes.len() implies (#[trigger] n2[i]).parent
        == m.nodes[i].parent && m.nodes[i].children.is_prefix_of(n2[i].children) by {
        assert(m.nodes[i].children =~= n2[i].children.subrange(0, m.nodes[i].children.len() as int));
    }
}

proof fn lemma_try_open_grows(m: ParserModel, rest: Seq<char>)
    requires
        parser_wf(m),
        m.stack.len() > 0,
    ensures
        nodes_grow(m.nodes, spec_try_open_new_blocks(m, rest).0.nodes),
    decreases rest.len(),
{
    assert(m.stack[m.stack.len() - 1] < m.nodes.len());
    match spec_match_block_quote(rest) {
        Some(r) => {
            lemma_block_quote_shorter(rest);
            let m1 = spec_push_child(m, KindModel::BlockQuote, true);
            lemma_push_child_grows(m, KindModel::BlockQuote, true);
            lemma_push_child_wf(m, KindModel::BlockQuote, true);
            lemma_try_open_grows(m1, r);
            lemma_grow_trans(m.nodes, m1.nodes, spec_try_open_new_blocks(m1, r).0.nodes);
        },
        None => match spec_match_atx_heading(rest) {
            Some((level, raw)) => {
                lemma_push_child_grows(m, KindModel::Heading { level, raw }, false);
            },
            None => {
                lemma_push_child_grows(m, KindModel::ThematicBreak, false);
                assert(nodes_grow(m.nodes, m.nodes)) by {
                    assert forall|i: int| 0 <= i < m.nodes.len() implies m.nodes[i].children.is_prefix_of(
                        (#[trigger] m.nodes[i]).children,
                    ) by {
                        assert(m.nodes[i].children =~= m.nodes[i].children.subrange(
                            0,
                            m.nodes[i].children.len() as int,
                        ));
                    }
                }
            },
        },
    }
}

/// Processing a line never removes a node, never changes a node's parent,
/// and only ever adds children at the end: indices stay valid.
pub proof fn law_process_line_grows(m: ParserModel, line: Seq<char>)
    requires
        parser_wf(m),
        m.stack.len() > 0,
    ensures
        nodes_grow(m.nodes, spec_process_line(m, line).nodes),
{
    let (depth, rem) = spec_match_open(m, 0, line);
    lemma_match_open_keeps_root(m, line);
    lemma_close_wf(m, depth);
    let m1 = spec_close_blocks_below(m, depth);
    assert(nodes_grow(m.nodes, m1.nodes)) by {
        assert forall|i: int| 0 <= i < m.nodes.len() implies (#[trigger] m1.nodes[i]).parent
            == m.nodes[i].parent && m.nodes[i].children.is_prefix_of(m1.nodes[i].children) by {
            assert(m.nodes[i].children =~= m1.nodes[i].children.subrange(
                0,
                m.nodes[i].children.len() as int,
            ));
        }
    }
    lemma_try_open_wf(m1, rem);
    lemma_try_open_grows(m1, rem);
    lemma_grow_trans(m.nodes, m1.nodes, spec_try_open_new_blocks(m1, rem).0.nodes);
    let (m2, rem2) = spec_try_open_new_blocks(m1, rem);
    let m3 = spec_append_text(m2, rem2);
    assert(m2.stack[m2.stack.len() - 1] < m2.nodes.len());
    assert(nodes_grow(m2.nodes, m3.nodes)) by {
        if !all_whitespace(rem2) && !(m2.nodes[m2.stack.last() as int].kind is Paragraph) {
            lemma_push_child_grows(m2, KindModel::Paragraph(seq![rem2]), true);
        } else {
            assert forall|i: int| 0 <= i < m2.nodes.len() implies (#[trigger] m3.nodes[i]).parent
                == m2.nodes[i].parent && m2.nodes[i].children.is_prefix_of(m3.nodes[i].children) by {
                assert(m2.nodes[i].children =~= m3.nodes[i].children.subrange(
                    0,
                    m2.nodes[i].children.len() as int,
                ));
            }
        }
    }
    lemma_grow_trans(m.nodes, m2.nodes, m3.nodes);
}

proof fn lemma_grow_refl(a: Seq<NodeModel>)
    ensures
        nodes_grow(a, a),
{
    assert forall|i: int| 0 <= i < a.len() implies a[i].children.is_prefix_of(
        (#[trigger] a[i]).children,
    ) by {
        assert(a[i].children =~= a[i].children.subrange(0, a[i].children.len() as int));
    }
}

proof fn lemma_process_lines_grows(m: ParserModel, lines: Seq<Seq<char>>)
    requires
        parser_wf(m),
        m.stack.len() > 0 || lines.len() == 0,
    ensures
        nodes_grow(m.nodes, spec_process_lines(m, lines).nodes),
    decreases lines.len(),
{
    if lines.len() == 0 {
        lemma_grow_refl(m.nodes);
    } else {
        let m1 = spec_process_line(m, lines[0]);
        law_process_line_grows(m, lines[0]);
        lemma_process_line_wf(m, lines[0]);
        lemma_process_lines_grows(m1, lines.drop_first());
        lemma_grow_trans(m.nodes, m1.nodes, spec_process_lines(m1, lines.drop_first()).nodes);
    }
}

/// Parsing more input never removes a node, never changes a node's parent,
/// and only ever adds children at the end: the blocks of earlier input keep
/// their indices.
pub proof fn law_parse_grows(m: ParserModel, input: Seq<char>)
    requires
        parser_wf(m),
        m.stack.len() > 0 || input.len() == 0,
    ensures
        nodes_grow(m.nodes, spec_parse(m, input).nodes),
{
    let text = crate::block::libs::text::replace_nul(input);
    let lines = crate::block::parser::spec_lines(text);
    assert(text.len() == 0 ==> lines.len() == 0);
    lemma_process_lines_grows(m, lines);
    let m1 = spec_process_lines(m, lines);
    crate::block::invariants::lemma_process_lines_wf(m, lines);
    let m2 = spec_close_blocks_below(m1, 0);
    assert(nodes_grow(m1.nodes, m2.nodes)) by {
        assert forall|i: int| 0 <= i < m1.nodes.len() implies (#[trigger] m2.nodes[i]).parent
            == m1.nodes[i].parent && m1.nodes[i].children.is_prefix_of(m2.nodes[i].children) by {
            assert(m1.nodes[i].children =~= m2.nodes[i].children.subrange(
                0,
                m1.nodes[i].children.len() as int,
            ));
        }
    }
    lemma_grow_trans(m.nodes, m1.nodes, m2.nodes);
}

/// A line step keeps its invariant (`line_step_inv`): the open stack is not
/// empty and has the document root 0 at its bottom, each block on it has
/// the one below as parent, a block is open exactly while it is on the
/// stack, only the top may be a paragraph, and each node after the root has
/// a parent before it that lists it among its children. Every node that was
/// there keeps its parent and its kind, but for the paragraph at the top of
/// the stack, which may gain exactly one line. The step needs the root
/// without a parent and every block on the stack in the arena and of a kind
/// that lines are matched against; it keeps both.
pub proof fn law_process_line_keeps_kinds(m: ParserModel, line: Seq<char>)
    requires
        line_step_inv(m),
        m.nodes[0].parent is None,
        crate::block::parser::stack_matchable(m),
    ensures
        line_step_inv(spec_process_line(m, line)),
        spec_process_line(m, line).nodes[0].parent is None,
        crate::block::parser::stack_matchable(spec_process_line(m, line)),
        spec_process_line(m, line).nodes.len() >= m.nodes.len(),
        forall|i: int|
            0 <= i < m.nodes.len() ==> (#[trigger] spec_process_line(m, line).nodes[i]).parent
                == m.nodes[i].parent,
        forall|i: int|
            0 <= i < m.nodes.len() ==> (#[trigger] spec_process_line(m, line).nodes[i]).kind
                == m.nodes[i].kind || (i == m.stack.last() && m.nodes[i].kind is Paragraph
                && exists|l: Seq<char>|
                spec_process_line(m, line).nodes[i].kind == KindModel::Paragraph(
                    m.nodes[i].kind->Paragraph_0.push(l),
                )),
{
    crate::block::line_step::lemma_process_line_step(m, line);
}

/// A well-formed state of the expected shape with a non-empty stack meets
/// what a line step needs.
pub proof fn law_wf_shape_ready_for_line(m: ParserModel)
    requires
        parser_wf(m),
        tree_shape(m),
        m.stack.len() > 0,
    ensures
        line_step_inv(m),
        m.nodes[0].parent is None,
        crate::block::parser::stack_matchable(m),
{
    assert forall|i: int| 0 < i < m.nodes.len() implies #[trigger] crate::block::line_step::linked_below_parent(
        m.nodes,
        i,
    ) by {
        assert(m.nodes[i].parent is Some);
        assert(arena_wf(m.nodes));
    }
}

proof fn lemma_process_lines_shape(m: ParserModel, lines: Seq<Seq<char>>)
    requires
        parser_wf(m),
        tree_shape(m),
        m.stack.len() > 0 || lines.len() == 0,
    ensures
        parser_wf(spec_process_lines(m, lines)),
        tree_shape(spec_process_lines(m, lines)),
    decreases lines.len(),
{
    if lines.len() > 0 {
        lemma_process_line_wf(m, lines[0]);
        lemma_process_line_shape(m, lines[0]);
        lemma_process_lines_shape(spec_process_line(m, lines[0]), lines.drop_first());
    }
}

/// Node `i` has a parent before it, among whose children `i` stands
/// exactly once.
pub open spec fn linked_once_below_parent(nodes: Seq<NodeModel>, i: int) -> bool {
    match nodes[i].parent {
        Some(q) => {
            &&& q < i
            &&& nodes[q as int].children.contains(i as nat)
            &&& forall|j: int, k: int|
                0 <= j < nodes[q as int].children.len() && 0 <= k < nodes[q as int].children.len()
                    && #[trigger] nodes[q as int].children[j] == i && #[trigger] nodes[q as int].children[k] == i ==> j == k
        },
        None => false,
    }
}

/// The tree that parsing any input from a new parser builds: the document
/// root, at index 0, is the only document and has no parent; every other
/// node has a parent before it and stands exactly once among that parent's
/// children; child lists are in increasing order; headings, thematic breaks
/// and paragraphs have no children; no paragraph line is blank; heading
/// levels are from one to six.
pub proof fn law_parse_tree_shape(input: Seq<char>)
    ensures
        ({
            let m = spec_parse(crate::block::parser::spec_initial(), input);
            &&& m.nodes.len() > 0
            &&& m.nodes[0].kind is Document
            &&& m.nodes[0].parent is None
            &&& forall|i: int|
                0 < i < m.nodes.len() ==> !((#[trigger] m.nodes[i]).kind is Document)
                    && linked_once_below_parent(m.nodes, i)
            &&& forall|i: int, j: int, k: int|
                0 <= i < m.nodes.len() && 0 <= j < k < m.nodes[i].children.len()
                    ==> #[trigger] m.nodes[i].children[j] < #[trigger] m.nodes[i].children[k]
            &&& forall|i: int|
                0 <= i < m.nodes.len() && is_leaf_kind((#[trigger] m.nodes[i]).kind)
                    ==> m.nodes[i].children.len() == 0
            &&& forall|i: int, j: int|
                0 <= i < m.nodes.len() && m.nodes[i].kind is Paragraph && 0 <= j
                    < m.nodes[i].kind->Paragraph_0.len() ==> !all_whitespace(
                    #[trigger] m.nodes[i].kind->Paragraph_0[j],
                )
            &&& forall|i: int|
                0 <= i < m.nodes.len() && (#[trigger] m.nodes[i]).kind is Heading ==> 1
                    <= m.nodes[i].kind->Heading_level <= 6
        }),
{
    let m0 = crate::block::parser::spec_initial();
    crate::block::invariants::lemma_initial_wf();
    lemma_initial_shape();
    let lines = crate::block::parser::spec_lines(crate::block::libs::text::replace_nul(input));
    lemma_process_lines_shape(m0, lines);
    let m1 = spec_process_lines(m0, lines);
    lemma_close_shape(m1, 0);
    lemma_close_wf(m1, 0);
    let m = spec_parse(m0, input);
    assert(m == spec_close_blocks_below(m1, 0));
    assert forall|i: int| 0 < i < m.nodes.len() implies !((#[trigger] m.nodes[i]).kind is Document)
        && linked_once_below_parent(m.nodes, i) by {
        assert(m.nodes[i].parent is Some);
        let q = m.nodes[i].parent->0;
        assert(arena_wf(m.nodes));
        assert forall|j: int, k: int|
            0 <= j < m.nodes[q as int].children.len() && 0 <= k < m.nodes[q as int].children.len()
                && m.nodes[q as int].children[j] == i && m.nodes[q as int].children[k] == i implies j
            == k by {
            if j < k {
                assert(m.nodes[q as int].children[j] < m.nodes[q as int].children[k]);
            } else if k < j {
                assert(m.nodes[q as int].children[k] < m.nodes[q as int].children[j]);
            }
        }
    }
    assert forall|i: int, j: int|
        0 <= i < m.nodes.len() && m.nodes[i].kind is Paragraph && 0 <= j
            < m.nodes[i].kind->Paragraph_0.len() implies !all_whitespace(
        #[trigger] m.nodes[i].kind->Paragraph_0[j],
    ) by {
        assert(kind_content_ok(m.nodes[i].kind));
    }
    assert forall|i: int|
        0 <= i < m.nodes.len() && (#[trigger] m.nodes[i]).kind is Heading implies 1
        <= m.nodes[i].kind->Heading_level <= 6 by {
        assert(kind_content_ok(m.nodes[i].kind));
    }
}

/// `s` with a `'\r'` put before each `'\n'`.
pub open spec fn crlf(s: Seq<char>) -> Seq<char>
    decreases s.len(),
{
    if s.len() == 0 {
        Seq::empty()
    } else {
        (if s[0] == '\n' {
            seq!['\r', '\n']
        } else {
            seq![s[0]]
        }) + crlf(s.drop_first())
    }
}

pub open spec fn has_no_cr(s: Seq<char>) -> bool {
    forall|i: int| 0 <= i < s.len() ==> #[trigger] s[i] != '\r'
}

/// The empty lines that two more line ends add after `t`: two where `t` is
/// empty or ends a line, one where its last line is unfinished.
pub open spec fn added_blank_lines(t: Seq<char>) -> Seq<Seq<char>> {
    if t.len() == 0 || t.last() == '\n' {
        seq![Seq::<char>::empty(), Seq::<char>::empty()]
    } else {
        seq![Seq::<char>::empty()]
    }
}

proof fn lemma_crlf_concat(a: Seq<char>, b: Seq<char>)
    ensures
        crlf(a + b) == crlf(a) + crlf(b),
    decreases a.len(),
{
    if a.len() == 0 {
        assert(a + b =~= b);
    } else {
        assert((a + b).drop_first() =~= a.drop_first() + b);
        lemma_crlf_concat(a.drop_first(), b);
    }
}

proof fn lemma_crlf_no_newline(a: Seq<char>)
    requires
        forall|i: int| 0 <= i < a.len() ==> #[trigger] a[i] != '\n',
    ensures
        crlf(a) == a,
    decreases a.len(),
{
    if a.len() > 0 {
        lemma_crlf_no_newline(a.drop_first());
        assert(seq![a[0]] + a.drop_first() =~= a);
    }
}

proof fn lemma_replace_nul_crlf(s: Seq<char>)
    ensures
        replace_nul(crlf(s)) == crlf(replace_nul(s)),
        has_no_cr(s) ==> has_no_cr(replace_nul(s)),
    decreases s.len(),
{
    if s.len() > 0 {
        lemma_replace_nul_crlf(s.drop_first());
        let h = if s[0] == '\n' {
            seq!['\r', '\n']
        } else {
            seq![s[0]]
        };
        assert(replace_nul(h + crlf(s.drop_first())) =~= replace_nul(h) + replace_nul(
            crlf(s.drop_first()),
        ));
        assert(replace_nul(s).drop_first() =~= replace_nul(s.drop_first()));
        let r = replace_nul(s);
        let h2 = if r[0] == '\n' {
            seq!['\r', '\n']
        } else {
            seq![r[0]]
        };
        assert(replace_nul(h) =~= h2);
    }
}

/// A line without `'\r'` keeps its last character.
proof fn lemma_strip_cr_no_cr(a: Seq<char>)
    requires
        has_no_cr(a),
    ensures
        crate::block::parser::strip_cr(a) == a,
{
    if a.len() > 0 {
        assert(a[a.len() - 1] != '\r');
    }
}

/// Line ends written `"\r\n"` and two more line ends at the end give the
/// lines of `t` and then one or two empty lines.
proof fn lemma_lines_crlf(t: Seq<char>)
    requires
        has_no_cr(t),
    ensures
        spec_lines(crlf(t) + seq!['\n', '\n']) == spec_lines(t) + added_blank_lines(t),
    decreases t.len(),
{
    let nn = seq!['\n', '\n'];
    if t.len() == 0 {
        assert(crlf(t) + nn =~= nn);
        lemma_leading_len_is(nn, CharClass::NotNewline, 0);
        assert(nn.skip(1) =~= seq!['\n']);
        lemma_leading_len_is(seq!['\n'], CharClass::NotNewline, 0);
        assert(seq!['\n'].skip(1) =~= Seq::<char>::empty());
        assert(nn.take(0) =~= Seq::<char>::empty());
        assert(seq!['\n'].take(0) =~= Seq::<char>::empty());
        assert(spec_lines(Seq::<char>::empty()) == Seq::<Seq<char>>::empty());
        assert(spec_lines(seq!['\n']) =~= seq![Seq::<char>::empty()]);
        assert(spec_lines(nn) =~= seq![Seq::<char>::empty(), Seq::<char>::empty()]);
        assert(spec_lines(t) + added_blank_lines(t) =~= seq![Seq::<char>::empty(), Seq::<char>::empty()]);
    } else {
        lemma_leading_len_bounds(t, CharClass::NotNewline);
        let k = leading_len(t, CharClass::NotNewline) as int;
        let a = t.take(k);
        assert forall|i: int| 0 <= i < a.len() implies #[trigger] a[i] != '\n' by {
            assert(a[i] == t[i]);
        }
        assert forall|i: int| 0 <= i < a.len() implies #[trigger] a[i] != '\r' by {
            assert(a[i] == t[i]);
        }
        lemma_crlf_no_newline(a);
        lemma_strip_cr_no_cr(a);
        if k < t.len() {
            let b = t.skip(k + 1);
            assert(t =~= a + (seq!['\n'] + b));
            lemma_crlf_concat(a, seq!['\n'] + b);
            lemma_crlf_concat(seq!['\n'], b);
            assert(crlf(seq!['\n']) =~= seq!['\r', '\n']) by {
                assert(seq!['\n'].drop_first() =~= Seq::<char>::empty());
                assert(crlf(Seq::<char>::empty()) == Seq::<char>::empty());
                assert(seq!['\n'][0] == '\n');
                assert(seq!['\r', '\n'] + Seq::<char>::empty() =~= seq!['\r', '\n']);
            }
            let rest = crlf(b) + nn;
            let x = crlf(t) + nn;
            assert(x =~= a + seq!['\r', '\n'] + rest);
            assert forall|i: int| 0 <= i < k + 1 implies in_class(CharClass::NotNewline, #[trigger] x[i]) by {
                if i < k {
                    assert(x[i] == a[i]);
                } else {
                    assert(x[i] == '\r');
                }
            }
            assert(x[k + 1] == '\n');
            lemma_leading_len_is(x, CharClass::NotNewline, k + 1);
            assert(x.take(k + 1) =~= a.push('\r'));
            assert(crate::block::parser::strip_cr(a.push('\r')) =~= a);
            assert(x.skip(k + 2) =~= rest);
            assert forall|i: int| 0 <= i < b.len() implies #[trigger] b[i] != '\r' by {
                assert(b[i] == t[i + k + 1]);
            }
            lemma_lines_crlf(b);
            assert(spec_lines(x) == seq![a] + spec_lines(rest));
            assert(spec_lines(t) == seq![a] + spec_lines(b));
            if b.len() == 0 {
                assert(t.last() == '\n');
            } else {
                assert(t.last() == b.last());
            }
            assert(spec_lines(x) =~= spec_lines(t) + added_blank_lines(t));
        } else {
            assert(a =~= t);
            let x = crlf(t) + nn;
            assert(x =~= t + nn);
            assert forall|i: int| 0 <= i < k implies in_class(CharClass::NotNewline, #[trigger] x[i]) by {
                assert(x[i] == t[i]);
            }
            lemma_leading_len_is(x, CharClass::NotNewline, k);
            assert(x.take(k) =~= t);
            assert(x.skip(k + 1) =~= seq!['\n']);
            lemma_leading_len_is(seq!['\n'], CharClass::NotNewline, 0);
            assert(seq!['\n'].skip(1) =~= Seq::<char>::empty());
            assert(seq!['\n'].take(0) =~= Seq::<char>::empty());
            assert(spec_lines(Seq::<char>::empty()) == Seq::<Seq<char>>::empty());
            assert(spec_lines(seq!['\n']) =~= seq![Seq::<char>::empty()]);
            assert(t.last() == t[k - 1]);
            assert(spec_lines(x) =~= spec_lines(t) + added_blank_lines(t));
        }
    }
}

proof fn lemma_process_lines_append(m: ParserModel, a: Seq<Seq<char>>, b: Seq<Seq<char>>)
    ensures
        spec_process_lines(m, a + b) == spec_process_lines(spec_process_lines(m, a), b),
    decreases a.len(),
{
    if a.len() == 0 {
        assert(a + b =~= b);
    } else {
        assert((a + b)[0] == a[0]);
        assert((a + b).drop_first() =~= a.drop_first() + b);
        lemma_process_lines_append(spec_process_line(m, a[0]), a.drop_first(), b);
    }
}

proof fn lemma_process_lines_keep_stack(m: ParserModel, lines: Seq<Seq<char>>)
    requires
        parser_wf(m),
        m.stack.len() > 0,
    ensures
        parser_wf(spec_process_lines(m, lines)),
        spec_process_lines(m, lines).stack.len() > 0,
    decreases lines.len(),
{
    if lines.len() > 0 {
        lemma_process_line_wf(m, lines[0]);
        lemma_process_lines_keep_stack(spec_process_line(m, lines[0]), lines.drop_first());
    }
}

/// An empty line closes every block above the document root, and does
/// nothing else.
proof fn lemma_empty_line_closes(m: ParserModel)
    requires
        parser_wf(m),
        m.stack.len() > 0,
    ensures
        spec_process_line(m, Seq::empty()) == spec_close_blocks_below(m, 1),
{
    let e = Seq::<char>::empty();
    lemma_blank_starts_nothing(e);
    assert(m.stack[0] < m.nodes.len());
    assert(spec_match_open(m, 0, e) == spec_match_open(m, 1, e));
    if m.stack.len() > 1 {
        assert(m.stack[1] < m.nodes.len());
        assert(crate::block::invariants::is_container_or_paragraph(
            m.nodes[m.stack[1] as int].kind,
        ));
    }
    assert(spec_match_open(m, 0, e) == (1int, e));
    lemma_leading_len_is(e, CharClass::Space, 0);
    assert(e.skip(0) =~= e);
    assert(spec_match_thematic_break(e) is None);
}

proof fn lemma_empty_lines_close(m: ParserModel, blanks: Seq<Seq<char>>)
    requires
        parser_wf(m),
        m.stack.len() > 0,
        blanks.len() > 0,
        forall|j: int| 0 <= j < blanks.len() ==> #[trigger] blanks[j] == Seq::<char>::empty(),
    ensures
        spec_process_lines(m, blanks) == spec_close_blocks_below(m, 1),
    decreases blanks.len(),
{
    lemma_empty_line_closes(m);
    let m1 = spec_close_blocks_below(m, 1);
    lemma_close_wf(m, 1);
    if blanks.len() > 1 {
        lemma_empty_lines_close(m1, blanks.drop_first());
        assert(spec_close_blocks_below(m1, 1) == m1);
    } else {
        assert(spec_process_lines(m1, blanks.drop_first()) == m1);
    }
}

proof fn lemma_close_twice(m: ParserModel)
    requires
        parser_wf(m),
        m.stack.len() > 0,
    ensures
        spec_close_blocks_below(spec_close_blocks_below(m, 1), 0) == spec_close_blocks_below(m, 0),
{
    let m1 = spec_close_blocks_below(m, 1);
    let a = spec_close_blocks_below(m1, 0);
    let b = spec_close_blocks_below(m, 0);
    let len = m.stack.len() as int;
    if len > 1 {
        assert(m1.stack =~= seq![m.stack[0]]);
        assert(a.stack =~= b.stack);
        assert forall|i: int| 0 <= i < m.nodes.len() implies #[trigger] a.nodes[i] == b.nodes[i] by {
            if on_stack_between(m.stack, 0, len, i) {
                let k = choose|k: int| 0 <= k < len && #[trigger] m.stack[k] == i;
                if k == 0 {
                    assert(on_stack_between(m1.stack, 0, 1, i)) by {
                        assert(m1.stack[0] == i);
                    }
                } else {
                    assert(on_stack_between(m.stack, 1, len, i));
                }
            } else {
                assert(!on_stack_between(m.stack, 1, len, i));
                assert(!on_stack_between(m1.stack, 0, 1, i)) by {
                    if on_stack_between(m1.stack, 0, 1, i) {
                        assert(m1.stack[0] == m.stack[0]);
                    }
                }
            }
        }
        assert(a.nodes =~= b.nodes);
    }
}

/// Writing line ends as `"\r\n"` and adding blank lines at the end does
/// not change what parsing gives, for an input with no `'\r'` of its own.
pub proof fn law_parse_ignores_crlf_and_trailing_blank_lines(m: ParserModel, s: Seq<char>)
    requires
        parser_wf(m),
        m.stack.len() > 0,
        has_no_cr(s),
    ensures
        spec_parse(m, crlf(s) + seq!['\n', '\n']) == spec_parse(m, s),
{
    let nn = seq!['\n', '\n'];
    let t = replace_nul(s);
    lemma_replace_nul_crlf(s);
    assert(replace_nul(crlf(s) + nn) =~= replace_nul(crlf(s)) + replace_nul(nn));
    assert(replace_nul(nn) =~= nn);
    lemma_lines_crlf(t);
    let lines = spec_lines(t);
    let blanks = added_blank_lines(t);
    lemma_process_lines_append(m, lines, blanks);
    let m1 = spec_process_lines(m, lines);
    lemma_process_lines_keep_stack(m, lines);
    lemma_empty_lines_close(m1, blanks);
    lemma_close_twice(m1);
}

/// `n` spaces.
pub open spec fn space_run(n: nat) -> Seq<char> {
    Seq::new(n, |i: int| ' ')
}

proof fn lemma_indent_prefix(n: nat, t: Seq<char>)
    requires
        n <= 3,
        t.len() == 0 || t[0] != ' ',
    ensures
        spec_check_indent(space_run(n) + t) == Some(t),
{
    let line = space_run(n) + t;
    assert forall|i: int| 0 <= i < n implies in_class(CharClass::Space, #[trigger] line[i]) by {
        assert(line[i] == ' ');
    }
    if n < line.len() {
        assert(line[n as int] == t[0]);
    }
    lemma_leading_len_is(line, CharClass::Space, n as int);
    assert(line.skip(n as int) =~= t);
}

/// A line that is not blank and starts no block quote, heading or thematic
/// break always continues an open paragraph, whole, whatever its
/// indentation.
pub proof fn law_text_line_continues_paragraph(line: Seq<char>)
    requires
        !all_whitespace(line),
        spec_match_block_quote(line) is None,
        spec_match_atx_heading(line) is None,
        spec_match_thematic_break(line) is None,
    ensures
        spec_match_paragraph(line) == Some(line),
{
}

/// A blank line, or one that starts a block quote, a heading or a thematic
/// break, never continues a paragraph.
pub proof fn law_paragraph_interrupted(line: Seq<char>)
    requires
        all_whitespace(line) || spec_match_block_quote(line) is Some || spec_match_atx_heading(
            line,
        ) is Some || spec_match_thematic_break(line) is Some,
    ensures
        spec_match_paragraph(line) is None,
{
}

/// The closing sequence of a heading: text `s`, then whitespace, then one
/// or more `'#'`, where `s` is empty or ends in a character that is neither
/// whitespace nor `'#'`, loses the whitespace and the `'#'`s, one `'#'`
/// included.
pub proof fn law_closing_hashes_removed(s: Seq<char>, w: Seq<char>, h: Seq<char>)
    requires
        w.len() > 0,
        forall|i: int| 0 <= i < w.len() ==> is_unicode_whitespace(#[trigger] w[i]),
        h.len() > 0,
        forall|i: int| 0 <= i < h.len() ==> #[trigger] h[i] == '#',
        s.len() > 0 ==> !is_unicode_whitespace(s.last()) && s.last() != '#',
    ensures
        crate::block::leaf::atx_heading::spec_strip_closing_hashes(s + w + h) == s,
{
    let text = s + w + h;
    assert forall|i: int| text.len() - h.len() <= i < text.len() implies in_class(
        CharClass::Hash,
        #[trigger] text[i],
    ) by {
        assert(text[i] == h[i - s.len() - w.len()]);
    }
    assert(text[text.len() - h.len() - 1] == w.last());
    lemma_trailing_len_is(text, CharClass::Hash, h.len() as int);
    let before = text.take(text.len() - h.len());
    assert(before =~= s + w);
    assert(before.last() == w.last());
    assert forall|i: int| before.len() - w.len() <= i < before.len() implies in_class(
        CharClass::Whitespace,
        #[trigger] before[i],
    ) by {
        assert(before[i] == w[i - s.len()]);
    }
    if s.len() > 0 {
        assert(before[before.len() - w.len() - 1] == s.last());
    }
    lemma_trailing_len_is(before, CharClass::Whitespace, w.len() as int);
    assert(trim_end_class(before, CharClass::Whitespace) =~= s);
}

/// A line of at most three spaces, then three or more characters, each of
/// them `'*'`, `'-'`, `'_'`, a space or a tab (the first not a space), is a
/// thematic break, whichever of them comes first, and leaves nothing.
pub proof fn law_thematic_break_lines(n: nat, t: Seq<char>)
    requires
        n <= 3,
        t.len() >= 3,
        t[0] != ' ',
        forall|i: int|
            0 <= i < t.len() ==> (#[trigger] t[i] == '*' || t[i] == '-' || t[i] == '_' || t[i]
                == ' ' || t[i] == '\t'),
    ensures
        spec_match_thematic_break(space_run(n) + t) == Some(Seq::<char>::empty()),
{
    lemma_indent_prefix(n, t);
}

/// After at most three spaces, a `'>'` is a block quote marker whatever
/// follows it: the rest of the line, without one space right after the
/// `'>'`, is the quote's content; a `'>'` alone leaves nothing.
pub proof fn law_block_quote_marker(n: nat, r: Seq<char>)
    requires
        n <= 3,
    ensures
        spec_match_block_quote(space_run(n) + seq!['>'] + r) == Some(
            if r.len() > 0 && r[0] == ' ' {
                r.drop_first()
            } else {
                r
            },
        ),
        spec_match_block_quote(space_run(n) + seq!['>']) == Some(Seq::<char>::empty()),
{
    let t = seq!['>'] + r;
    lemma_indent_prefix(n, t);
    assert(space_run(n) + seq!['>'] + r =~= space_run(n) + t);
    assert(t.drop_first() =~= r);
    lemma_indent_prefix(n, seq!['>']);
    assert(seq!['>'].drop_first() =~= Seq::<char>::empty());
}

/// `k` number signs.
pub open spec fn hash_run(k: nat) -> Seq<char> {
    Seq::new(k, |i: int| '#')
}

/// An ATX heading line: at most three spaces, one to six `'#'`s, a space,
/// and text that neither starts nor ends with whitespace nor ends with
/// `'#'`, gives a heading of that many levels with exactly that text.
pub proof fn law_heading_line(n: nat, k: nat, c: Seq<char>)
    requires
        n <= 3,
        1 <= k <= 6,
        c.len() > 0,
        !is_unicode_whitespace(c[0]),
        !is_unicode_whitespace(c.last()),
        c.last() != '#',
    ensures
        spec_match_atx_heading(space_run(n) + hash_run(k) + seq![' '] + c) == Some((k as u8, c)),
{
    let t0 = hash_run(k) + seq![' '] + c;
    assert(space_run(n) + hash_run(k) + seq![' '] + c =~= space_run(n) + t0);
    assert(t0[0] == '#');
    lemma_indent_prefix(n, t0);
    assert(t0.last() == c.last());
    lemma_trailing_len_is(t0, CharClass::Whitespace, 0);
    let t = trim_end_class(t0, CharClass::Whitespace);
    assert(t =~= t0);
    assert forall|i: int| 0 <= i < k implies in_class(CharClass::Hash, #[trigger] t[i]) by {
        assert(t[i] == '#');
    }
    assert(t[k as int] == ' ');
    lemma_leading_len_is(t, CharClass::Hash, k as int);
    let after = t.skip(k as int);
    assert(after =~= seq![' '] + c);
    assert(after.drop_first() =~= c);
    lemma_plain_heading_text(c);
}

proof fn lemma_plain_heading_text(c: Seq<char>)
    requires
        c.len() > 0,
        !is_unicode_whitespace(c[0]),
        !is_unicode_whitespace(c.last()),
        c.last() != '#',
    ensures
        crate::block::leaf::atx_heading::spec_strip_closing_hashes(
            crate::block::libs::text::trim_ws(c),
        ) == c,
{
    lemma_leading_len_is(c, CharClass::Whitespace, 0);
    assert(c.skip(0) =~= c);
    lemma_trailing_len_is(c, CharClass::Whitespace, 0);
    assert(c.take(c.len() as int) =~= c);
    assert(crate::block::libs::text::trim_ws(c) == c);
    lemma_trailing_len_is(c, CharClass::Hash, 0);
}

/// Seven or more `'#'`s, or `'#'`s followed by a character other than a
/// space, a tab or `'#'`, start no heading.
pub proof fn law_no_heading_without_level_or_space(n: nat, k: nat, rest: Seq<char>)
    requires
        n <= 3,
        k >= 1,
        k >= 7 || (rest.len() > 0 && rest[0] != ' ' && rest[0] != '\t' && rest[0] != '#'
            && !is_unicode_whitespace(rest.last())),
    ensures
        spec_match_atx_heading(space_run(n) + hash_run(k) + rest) is None,
{
    let t0 = hash_run(k) + rest;
    assert(space_run(n) + hash_run(k) + rest =~= space_run(n) + t0);
    assert(t0[0] == '#');
    lemma_indent_prefix(n, t0);
    crate::block::libs::text::lemma_trailing_len_bounds(t0, CharClass::Whitespace);
    let t = trim_end_class(t0, CharClass::Whitespace);
    if k >= 7 {
        if t.len() >= 7 {
            assert forall|i: int| 0 <= i < 7 implies in_class(CharClass::Hash, #[trigger] t[i]) by {
                assert(t[i] == t0[i]);
            }
            lemma_leading_len_bounds(t, CharClass::Hash);
            lemma_leading_at_least(t, CharClass::Hash, 7);
        } else {
            // the trimmed line is all '#', so it keeps at least seven of them
            assert(t0[t0.len() - 1] == '#' || rest.len() > 0);
            lemma_hashes_survive_trim(t0, k);
        }
    } else {
        lemma_trailing_len_is(t0, CharClass::Whitespace, 0);
        assert(t =~= t0);
        assert forall|i: int| 0 <= i < k implies in_class(CharClass::Hash, #[trigger] t[i]) by {
            assert(t[i] == '#');
        }
        assert(t[k as int] == rest[0]);
        lemma_leading_len_is(t, CharClass::Hash, k as int);
        assert(t.skip(k as int)[0] == rest[0]);
    }
}

proof fn lemma_leading_at_least(s: Seq<char>, cls: CharClass, k: int)
    requires
        0 <= k <= s.len(),
        forall|i: int| 0 <= i < k ==> in_class(cls, #[trigger] s[i]),
    ensures
        leading_len(s, cls) >= k,
    decreases k,
{
    if k > 0 {
        assert forall|i: int| 0 <= i < k - 1 implies in_class(cls, #[trigger] s.drop_first()[i]) by {
            assert(s.drop_first()[i] == s[i + 1]);
        }
        lemma_leading_at_least(s.drop_first(), cls, k - 1);
    }
}

proof fn lemma_hashes_survive_trim(t0: Seq<char>, k: nat)
    requires
        k >= 7,
        k <= t0.len(),
        forall|i: int| 0 <= i < k ==> #[trigger] t0[i] == '#',
    ensures
        leading_len(trim_end_class(t0, CharClass::Whitespace), CharClass::Hash) > 6,
{
    crate::block::libs::text::lemma_trailing_len_bounds(t0, CharClass::Whitespace);
    let t = trim_end_class(t0, CharClass::Whitespace);
    let tl = crate::block::libs::text::trailing_len(t0, CharClass::Whitespace) as int;
    // the '#'s are not whitespace, so the trimmed part lies after them
    if t0.len() - tl < k {
        assert(in_class(CharClass::Whitespace, t0[k - 1]));
        assert(t0[k - 1] == '#');
    }
    assert forall|i: int| 0 <= i < 7 implies in_class(CharClass::Hash, #[trigger] t[i]) by {
        assert(t[i] == t0[i]);
    }
    lemma_leading_at_least(t, CharClass::Hash, 7);
}

/// Four or more spaces of indentation start no block: no block quote, no
/// heading and no thematic break.
pub proof fn law_four_spaces_start_nothing(t: Seq<char>)
    ensures
        spec_check_indent(space_run(4) + t) is None,
        spec_match_block_quote(space_run(4) + t) is None,
        spec_match_atx_heading(space_run(4) + t) is None,
        spec_match_thematic_break(space_run(4) + t) is None,
{
    let line = space_run(4) + t;
    assert forall|i: int| 0 <= i < 4 implies in_class(CharClass::Space, #[trigger] line[i]) by {
        assert(line[i] == ' ');
    }
    lemma_leading_at_least(line, CharClass::Space, 4);
}

/// A line ends at the first `'\n'`, without a `'\r'` right before it, and the
/// lines after it follow; a text without `'\n'` is one line, as it is.
pub proof fn law_lines_split(a: Seq<char>, b: Seq<char>)
    requires
        forall|i: int| 0 <= i < a.len() ==> #[trigger] a[i] != '\n',
    ensures
        spec_lines(a + seq!['\n'] + b) == seq![crate::block::parser::strip_cr(a)] + spec_lines(b),
        a.len() > 0 ==> spec_lines(a) == seq![a],
        spec_lines(Seq::empty()) == Seq::<Seq<char>>::empty(),
{
    let x = a + seq!['\n'] + b;
    assert forall|i: int| 0 <= i < a.len() implies in_class(CharClass::NotNewline, #[trigger] x[i]) by {
        assert(x[i] == a[i]);
    }
    assert(x[a.len() as int] == '\n');
    lemma_leading_len_is(x, CharClass::NotNewline, a.len() as int);
    assert(x.take(a.len() as int) =~= a);
    assert(x.skip(a.len() + 1 as int) =~= b);
    if a.len() > 0 {
        assert forall|i: int| 0 <= i < a.len() implies in_class(CharClass::NotNewline, #[trigger] a[i]) by {}
        lemma_leading_len_is(a, CharClass::NotNewline, a.len() as int);
    }
}

/// `str::trim`: the trimmed text has no whitespace at either end, and the
/// text is whitespace, the trimmed text, then whitespace.
pub proof fn law_trim(s: Seq<char>)
    ensures
        ({
            let t = crate::block::libs::text::trim_ws(s);
            &&& t.len() > 0 ==> !is_unicode_whitespace(t[0]) && !is_unicode_whitespace(t.last())
            &&& exists|p: int|
                0 <= p && p + t.len() <= s.len() && #[trigger] s.subrange(p, p + t.len()) == t
                    && (forall|i: int| 0 <= i < p ==> is_unicode_whitespace(#[trigger] s[i])) && (
                forall|i: int| p + t.len() <= i < s.len() ==> is_unicode_whitespace(#[trigger] s[i]))
        }),
{
    let ws = CharClass::Whitespace;
    lemma_leading_len_bounds(s, ws);
    let p = leading_len(s, ws) as int;
    let u = s.skip(p);
    crate::block::libs::text::lemma_trailing_len_bounds(u, ws);
    let q = crate::block::libs::text::trailing_len(u, ws) as int;
    let t = u.take(u.len() - q);
    assert(t == crate::block::libs::text::trim_ws(s));
    if t.len() > 0 {
        assert(t[0] == s[p]);
        assert(t.last() == u[u.len() - q - 1]);
    }
    assert(s.subrange(p, p + t.len()) =~= t);
    assert forall|i: int| p + t.len() <= i < s.len() implies is_unicode_whitespace(#[trigger] s[i]) by {
        assert(s[i] == u[i - p]);
    }
}

/// A text line continues the open paragraph under the document root: that
/// paragraph gains the whole line as its last line, and nothing else
/// changes.
pub proof fn law_text_line_extends_open_paragraph(m: ParserModel, p: nat, line: Seq<char>)
    requires
        parser_wf(m),
        m.stack == seq![0nat, p],
        m.nodes[p as int].kind is Paragraph,
        !all_whitespace(line),
        spec_match_block_quote(line) is None,
        spec_match_atx_heading(line) is None,
        spec_match_thematic_break(line) is None,
    ensures
        spec_process_line(m, line) == (ParserModel {
            nodes: m.nodes.update(
                p as int,
                NodeModel {
                    kind: KindModel::Paragraph(m.nodes[p as int].kind->Paragraph_0.push(line)),
                    ..m.nodes[p as int]
                },
            ),
            stack: m.stack,
        }),
{
    assert(m.stack[0] < m.nodes.len());
    assert(m.stack[1] < m.nodes.len());
    assert(spec_match_paragraph(line) == Some(line));
    assert(spec_match_open(m, 2, line) == (2int, line));
    assert(spec_match_open(m, 1, line) == (2int, line));
    assert(spec_match_open(m, 0, line) == (2int, line));
    assert(spec_close_blocks_below(m, 2) == m);
    assert(spec_try_open_new_blocks(m, line) == (m, line));
    assert(m.stack.last() == p);
}

} // verus!
