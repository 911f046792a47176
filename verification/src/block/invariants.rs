//! What every operation of the block parser keeps: the arena is a forest
//! stored parent-first, the open stack is a chain of open blocks that starts
//! at the document root, and a block is open exactly while it is on the
//! stack.
use crate::block::blocks::{arena_push, arena_wf, KindModel, NodeModel};
use crate::block::libs::misc::spec_push_child;
use crate::block::parser::{
    is_matchable, on_stack_between, spec_append_text, spec_close_blocks_below,
    spec_initial, spec_match_open, spec_process_line, spec_process_lines,
    spec_try_open_new_blocks, stack_matchable, ParserModel,
};
use crate::block::container::block_quotes::spec_match_block_quote;
use crate::block::parser::lemma_block_quote_shorter;
use vstd::prelude::*;

verus! {

/// The kinds of block that stay open above the document root.
pub open spec fn is_container_or_paragraph(k: KindModel) -> bool {
    k is BlockQuote || k is Paragraph
}

/// The parser's state is well formed.
pub open spec fn parser_wf(m: ParserModel) -> bool {
    &&& arena_wf(m.nodes)
    &&& stack_matchable(m)
    &&& forall|j: int, k: int|
        0 <= j < k < m.stack.len() ==> #[trigger] m.stack[j] < #[trigger] m.stack[k]
    &&& forall|i: int|
        0 <= i < m.nodes.len() ==> (#[trigger] m.nodes[i].is_open <==> on_stack_between(
            m.stack,
            0,
            m.stack.len() as int,
            i,
        ))
    &&& m.stack.len() > 0 ==> m.nodes[m.stack[0] as int].kind is Document
    &&& forall|k: int|
        0 < k < m.stack.len() ==> is_container_or_paragraph(
            m.nodes[#[trigger] m.stack[k] as int].kind,
        )
    &&& forall|k: int|
        0 < k < m.stack.len() ==> m.nodes[#[trigger] m.stack[k] as int].parent == Some(
            m.stack[k - 1],
        )
}

pub proof fn lemma_arena_push_wf(nodes: Seq<NodeModel>, node: NodeModel)
    requires
        arena_wf(nodes),
        node.parent matches Some(p) ==> p < nodes.len(),
        node.children.len() == 0,
    ensures
        arena_wf(arena_push(nodes, node)),
{
    let n2 = arena_push(nodes, node);
    let len = nodes.len() as int;
    assert(n2.len() == len + 1);
    assert forall|i: int| 0 <= i < len implies #[trigger] n2[i].parent == nodes[i].parent
        && (n2[i].children == nodes[i].children || (node.parent == Some(i as nat)
        && n2[i].children == nodes[i].children.push(len as nat))) by {}
    assert forall|i: int| #![trigger n2[i].parent]
        0 <= i < n2.len() implies (n2[i].parent matches Some(p) ==> p < i) by {}
    assert forall|i: int, k: int| #![trigger n2[i].children[k]]
        0 <= i < n2.len() && 0 <= k < n2[i].children.len() implies {
        let c = n2[i].children[k];
        &&& i < c < n2.len()
        &&& n2[c as int].parent == Some(i as nat)
    } by {
        if i < len && k < nodes[i].children.len() {
            assert(n2[i].children[k] == nodes[i].children[k]);
            let c = nodes[i].children[k];
            assert(nodes[c as int].parent == Some(i as nat));
        }
    }
    assert forall|c: int| #![trigger n2[c].parent]
        0 <= c < n2.len() implies (n2[c].parent matches Some(p) ==> n2[p as int].children.contains(
        c as nat,
    )) by {
        if c < len {
            if let Some(p) = n2[c].parent {
                assert(nodes[p as int].children.contains(c as nat));
                let k = choose|k: int|
                    0 <= k < nodes[p as int].children.len() && #[trigger] nodes[p as int].children[k]
                        == c as nat;
                assert(n2[p as int].children[k] == c as nat);
            }
        } else {
            if let Some(p) = node.parent {
                assert(n2[p as int].children.last() == c as nat);
            }
        }
    }
}

pub proof fn lemma_initial_wf()
    ensures
        parser_wf(spec_initial()),
        spec_initial().stack.len() > 0,
{
    let m = spec_initial();
    assert(m.stack[0] == 0);
    assert(on_stack_between(m.stack, 0, 1, 0));
}

pub proof fn lemma_push_child_wf(m: ParserModel, kind: KindModel, stays_open: bool)
    requires
        parser_wf(m),
        m.stack.len() > 0,
        stays_open ==> is_container_or_paragraph(kind),
    ensures
        parser_wf(spec_push_child(m, kind, stays_open)),
        spec_push_child(m, kind, stays_open).stack.len() > 0,
{
    let m2 = spec_push_child(m, kind, stays_open);
    let node = NodeModel {
        kind,
        parent: Some(m.stack.last()),
        children: Seq::empty(),
        is_open: stays_open,
    };
    let len = m.nodes.len() as int;
    assert(m.stack[m.stack.len() - 1] < m.nodes.len());
    lemma_arena_push_wf(m.nodes, node);
    assert forall|i: int| 0 <= i < len implies #[trigger] m2.nodes[i].kind == m.nodes[i].kind
        && m2.nodes[i].is_open == m.nodes[i].is_open && m2.nodes[i].parent == m.nodes[i].parent by {}
    assert forall|k: int| 0 <= k < m.stack.len() implies #[trigger] m2.stack[k] == m.stack[k] by {}
    assert forall|k: int| 0 <= k < m2.stack.len() implies #[trigger] m2.stack[k] < m2.nodes.len()
        && is_matchable(m2.nodes[m2.stack[k] as int].kind) by {
        if k < m.stack.len() {
            assert(m.stack[k] < m.nodes.len());
        }
    }
    assert forall|j: int, k: int| 0 <= j < k < m2.stack.len() implies #[trigger] m2.stack[j]
        < #[trigger] m2.stack[k] by {
        assert(m.stack[j] < m.nodes.len());
    }
    assert forall|i: int| 0 <= i < m2.nodes.len() implies (#[trigger] m2.nodes[i].is_open
        <==> on_stack_between(m2.stack, 0, m2.stack.len() as int, i)) by {
        if i < len {
            if on_stack_between(m.stack, 0, m.stack.len() as int, i) {
                let k = choose|k: int| 0 <= k < m.stack.len() && #[trigger] m.stack[k] == i;
                assert(m2.stack[k] == i);
            }
            if on_stack_between(m2.stack, 0, m2.stack.len() as int, i) {
                let k = choose|k: int| 0 <= k < m2.stack.len() && #[trigger] m2.stack[k] == i;
                if k < m.stack.len() {
                    assert(m.stack[k] == i);
                }
            }
        } else {
            if stays_open {
                assert(m2.stack[m.stack.len() as int] == i);
            } else {
                if on_stack_between(m2.stack, 0, m2.stack.len() as int, i) {
                    let k = choose|k: int| 0 <= k < m2.stack.len() && #[trigger] m2.stack[k] == i;
                    assert(m.stack[k] < m.nodes.len());
                }
            }
        }
    }
    assert(m.stack[0] < m.nodes.len());
    assert forall|k: int| 0 < k < m2.stack.len() implies m2.nodes[#[trigger] m2.stack[k] as int].parent
        == Some(m2.stack[k - 1]) by {
        if k < m.stack.len() {
            assert(m.stack[k] < m.nodes.len());
            assert(m.nodes[m.stack[k] as int].parent == Some(m.stack[k - 1]));
        }
    }
}

pub proof fn lemma_match_open_range(m: ParserModel, d: int, rem: Seq<char>)
    requires
        0 <= d <= m.stack.len(),
    ensures
        d <= spec_match_open(m, d, rem).0 <= m.stack.len(),
    decreases m.stack.len() - d,
{
    if d < m.stack.len() {
        let idx = m.stack[d];
        if idx >= m.nodes.len() {
            lemma_match_open_range(m, d + 1, rem);
        } else {
            match m.nodes[idx as int].kind {
                KindModel::BlockQuote => match spec_match_block_quote(rem) {
                    Some(r) => lemma_match_open_range(m, d + 1, r),
                    None => {},
                },
                KindModel::Paragraph(_) => match crate::block::leaf::paragraph::spec_match_paragraph(
                    rem,
                ) {
                    Some(r) => lemma_match_open_range(m, d + 1, r),
                    None => {},
                },
                _ => lemma_match_open_range(m, d + 1, rem),
            }
        }
    }
}

/// The document root at the bottom of the stack continues with every line.
pub proof fn lemma_match_open_keeps_root(m: ParserModel, line: Seq<char>)
    requires
        parser_wf(m),
        m.stack.len() > 0,
    ensures
        1 <= spec_match_open(m, 0, line).0 <= m.stack.len(),
{
    assert(m.stack[0] < m.nodes.len());
    assert(spec_match_open(m, 0, line) == spec_match_open(m, 1, line));
    lemma_match_open_range(m, 1, line);
}

pub proof fn lemma_close_wf(m: ParserModel, d: int)
    requires
        parser_wf(m),
        0 <= d,
    ensures
        parser_wf(spec_close_blocks_below(m, d)),
        spec_close_blocks_below(m, d).stack == if d < m.stack.len() {
            m.stack.take(d)
        } else {
            m.stack
        },
{
    if d < m.stack.len() {
        let m2 = spec_close_blocks_below(m, d);
        let len = m.stack.len() as int;
        assert forall|i: int| 0 <= i < m.nodes.len() implies #[trigger] m2.nodes[i].parent
            == m.nodes[i].parent && m2.nodes[i].children == m.nodes[i].children
            && m2.nodes[i].kind == m.nodes[i].kind by {}
        assert forall|k: int| 0 <= k < m2.stack.len() implies #[trigger] m2.stack[k]
            == m.stack[k] by {}
        assert(arena_wf(m2.nodes)) by {
            assert forall|i: int, k: int| #![trigger m2.nodes[i].children[k]]
                0 <= i < m2.nodes.len() && 0 <= k < m2.nodes[i].children.len() implies {
                let c = m2.nodes[i].children[k];
                &&& i < c < m2.nodes.len()
                &&& m2.nodes[c as int].parent == Some(i as nat)
            } by {
                assert(m.nodes[i].children[k] == m2.nodes[i].children[k]);
            }
            assert forall|c: int| #![trigger m2.nodes[c].parent]
                0 <= c < m2.nodes.len() implies (m2.nodes[c].parent matches Some(p)
                ==> m2.nodes[p as int].children.contains(c as nat)) by {
                assert(m.nodes[c].parent == m2.nodes[c].parent);
                if let Some(p) = m.nodes[c].parent {
                    assert(m.nodes[p as int].children.contains(c as nat));
                }
            }
        }
        assert forall|k: int| 0 <= k < m2.stack.len() implies #[trigger] m2.stack[k]
            < m2.nodes.len() && is_matchable(m2.nodes[m2.stack[k] as int].kind) by {
            assert(m.stack[k] < m.nodes.len());
        }
        assert forall|i: int| 0 <= i < m2.nodes.len() implies (#[trigger] m2.nodes[i].is_open
            <==> on_stack_between(m2.stack, 0, m2.stack.len() as int, i)) by {
            if on_stack_between(m.stack, d, len, i) {
                let k = choose|k: int| d <= k < len && #[trigger] m.stack[k] == i;
                if on_stack_between(m2.stack, 0, m2.stack.len() as int, i) {
                    let j = choose|j: int| 0 <= j < d && #[trigger] m2.stack[j] == i;
                    assert(m.stack[j] < m.stack[k]);
                }
            } else {
                if on_stack_between(m.stack, 0, len, i) {
                    let k = choose|k: int| 0 <= k < len && #[trigger] m.stack[k] == i;
                    assert(k < d);
                    assert(m2.stack[k] == i);
                }
                if on_stack_between(m2.stack, 0, m2.stack.len() as int, i) {
                    let j = choose|j: int| 0 <= j < d && #[trigger] m2.stack[j] == i;
                    assert(m.stack[j] == i);
                }
            }
        }
        if d > 0 {
            assert(m.stack[0] < m.nodes.len());
        }
        assert forall|k: int| 0 < k < m2.stack.len() implies m2.nodes[#[trigger] m2.stack[k] as int].parent
            == Some(m2.stack[k - 1]) by {
            assert(m.stack[k] < m.nodes.len());
            assert(m.nodes[m.stack[k] as int].parent == Some(m.stack[k - 1]));
        }
    }
}

pub proof fn lemma_try_open_wf(m: ParserModel, rest: Seq<char>)
    requires
        parser_wf(m),
        m.stack.len() > 0,
    ensures
        parser_wf(spec_try_open_new_blocks(m, rest).0),
        spec_try_open_new_blocks(m, rest).0.stack.len() > 0,
    decreases rest.len(),
{
    match spec_match_block_quote(rest) {
        Some(r) => {
            lemma_block_quote_shorter(rest);
            lemma_push_child_wf(m, KindModel::BlockQuote, true);
            lemma_try_open_wf(spec_push_child(m, KindModel::BlockQuote, true), r);
        },
        None => match crate::block::leaf::atx_heading::spec_match_atx_heading(rest) {
            Some((level, raw)) => {
                lemma_push_child_wf(m, KindModel::Heading { level, raw }, false);
            },
            None => {
                lemma_push_child_wf(m, KindModel::ThematicBreak, false);
            },
        },
    }
}

pub proof fn lemma_append_wf(m: ParserModel, rem: Seq<char>)
    requires
        parser_wf(m),
        m.stack.len() > 0,
    ensures
        parser_wf(spec_append_text(m, rem)),
        spec_append_text(m, rem).stack.len() > 0,
{
    let last = m.stack.last() as int;
    assert(m.stack[m.stack.len() - 1] < m.nodes.len());
    if !crate::block::libs::text::all_whitespace(rem) {
        match m.nodes[last].kind {
            KindModel::Paragraph(p) => {
                let m2 = spec_append_text(m, rem);
                assert forall|i: int| 0 <= i < m.nodes.len() implies #[trigger] m2.nodes[i].parent
                    == m.nodes[i].parent && m2.nodes[i].children == m.nodes[i].children
                    && m2.nodes[i].is_open == m.nodes[i].is_open && (i != last
                    ==> m2.nodes[i].kind == m.nodes[i].kind) && is_matchable(m2.nodes[i].kind)
                    == (i != last ==> is_matchable(m.nodes[i].kind)) by {}
                assert(arena_wf(m2.nodes)) by {
                    assert forall|i: int, k: int| #![trigger m2.nodes[i].children[k]]
                        0 <= i < m2.nodes.len() && 0 <= k < m2.nodes[i].children.len() implies {
                        let c = m2.nodes[i].children[k];
                        &&& i < c < m2.nodes.len()
                        &&& m2.nodes[c as int].parent == Some(i as nat)
                    } by {
                        assert(m.nodes[i].children[k] == m2.nodes[i].children[k]);
                    }
                    assert forall|c: int| #![trigger m2.nodes[c].parent]
                        0 <= c < m2.nodes.len() implies (m2.nodes[c].parent matches Some(q)
                        ==> m2.nodes[q as int].children.contains(c as nat)) by {
                        assert(m.nodes[c].parent == m2.nodes[c].parent);
                        if let Some(q) = m.nodes[c].parent {
                            assert(m.nodes[q as int].children.contains(c as nat));
                        }
                    }
                }
                assert forall|k: int| 0 <= k < m2.stack.len() implies #[trigger] m2.stack[k]
                    < m2.nodes.len() && is_matchable(m2.nodes[m2.stack[k] as int].kind) by {
                    assert(m.stack[k] < m.nodes.len());
                }
                assert(m.stack[0] < m.nodes.len());
                assert forall|k: int| 0 < k < m2.stack.len() implies m2.nodes[#[trigger] m2.stack[k] as int].parent
                    == Some(m2.stack[k - 1]) by {
                    assert(m.stack[k] < m.nodes.len());
                    assert(m.nodes[m.stack[k] as int].parent == Some(m.stack[k - 1]));
                }
            },
            _ => {
                lemma_push_child_wf(m, KindModel::Paragraph(seq![rem]), true);
            },
        }
    }
}

pub proof fn lemma_process_line_wf(m: ParserModel, line: Seq<char>)
    requires
        parser_wf(m),
        m.stack.len() > 0,
    ensures
        parser_wf(spec_process_line(m, line)),
        spec_process_line(m, line).stack.len() > 0,
{
    let (depth, rem) = spec_match_open(m, 0, line);
    lemma_match_open_keeps_root(m, line);
    lemma_close_wf(m, depth);
    let m1 = spec_close_blocks_below(m, depth);
    lemma_try_open_wf(m1, rem);
    let (m2, rem2) = spec_try_open_new_blocks(m1, rem);
    lemma_append_wf(m2, rem2);
}

pub proof fn lemma_process_lines_wf(m: ParserModel, lines: Seq<Seq<char>>)
    requires
        parser_wf(m),
        m.stack.len() > 0 || lines.len() == 0,
    ensures
        parser_wf(spec_process_lines(m, lines)),
    decreases lines.len(),
{
    if lines.len() > 0 {
        lemma_process_line_wf(m, lines[0]);
        lemma_process_lines_wf(spec_process_line(m, lines[0]), lines.drop_first());
    }
}

} // verus!
