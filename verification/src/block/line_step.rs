//! What one line step keeps, proved from the weakest invariant it needs:
//! the document root at the bottom of the open stack, the stack a chain of
//! parent links, a block open exactly while it is on the stack, a paragraph
//! only at the top, and each node after the root linked below an earlier
//! parent.
use crate::block::blocks::{KindModel, NodeModel};
use crate::block::container::block_quotes::spec_match_block_quote;
use crate::block::invariants::lemma_match_open_range;
use crate::block::leaf::atx_heading::spec_match_atx_heading;
use crate::block::leaf::thematic::spec_match_thematic_break;
use crate::block::libs::misc::spec_push_child;
use crate::block::libs::text::all_whitespace;
use crate::block::parser::{
    is_matchable, lemma_block_quote_shorter, on_stack_between, spec_append_text,
    spec_close_blocks_below, spec_match_open, spec_process_line, spec_try_open_new_blocks,
    stack_matchable, ParserModel,
};
use crate::block::shape::{kinds_kept, lemma_match_open_paragraph_top, starts_no_block};
use vstd::prelude::*;

verus! {

/// Node `i` has a parent before it, among whose children it stands.
pub open spec fn linked_below_parent(nodes: Seq<NodeModel>, i: int) -> bool {
    match nodes[i].parent {
        Some(q) => q < i && nodes[q as int].children.contains(i as nat),
        None => false,
    }
}

/// The invariant that a line step keeps.
pub open spec fn line_step_inv(m: ParserModel) -> bool {
    &&& m.stack.len() > 0
    &&& m.stack[0] == 0
    &&& m.nodes.len() > 0
    &&& m.nodes[0].kind is Document
    &&& forall|k: int|
        0 < k < m.stack.len() ==> m.nodes[#[trigger] m.stack[k] as int].parent == Some(
            m.stack[k - 1],
        )
    &&& forall|i: int|
        0 <= i < m.nodes.len() ==> ((#[trigger] m.nodes[i]).is_open <==> on_stack_between(
            m.stack,
            0,
            m.stack.len() as int,
            i,
        ))
    &&& forall|k: int|
        0 <= k < m.stack.len() - 1 ==> !(m.nodes[#[trigger] m.stack[k] as int].kind is Paragraph)
    &&& forall|i: int| 0 < i < m.nodes.len() ==> #[trigger] linked_below_parent(m.nodes, i)
}

/// The invariant, with what a line step needs so as not to fail: the root
/// has no parent, and every block on the stack is in the arena and of a
/// kind that a line is matched against.
pub open spec fn line_step_ready(m: ParserModel) -> bool {
    &&& line_step_inv(m)
    &&& m.nodes[0].parent is None
    &&& stack_matchable(m)
}

proof fn lemma_stack_increasing(m: ParserModel, j: int, k: int)
    requires
        line_step_ready(m),
        0 <= j < k < m.stack.len(),
    ensures
        m.stack[j] < m.stack[k],
    decreases k - j,
{
    assert(m.stack[k] < m.nodes.len());
    assert(m.nodes[m.stack[k] as int].parent == Some(m.stack[k - 1]));
    if m.stack[k] == 0 {
        assert(m.nodes[0].parent is None);
    }
    assert(linked_below_parent(m.nodes, m.stack[k] as int));
    if j < k - 1 {
        lemma_stack_increasing(m, j, k - 1);
    }
}

proof fn lemma_push_child_step(m: ParserModel, kind: KindModel, stays_open: bool)
    requires
        line_step_ready(m),
        !(m.nodes[m.stack.last() as int].kind is Paragraph),
        stays_open ==> is_matchable(kind),
    ensures
        line_step_ready(spec_push_child(m, kind, stays_open)),
        kinds_kept(m.nodes, spec_push_child(m, kind, stays_open).nodes),
        forall|i: int|
            0 <= i < m.nodes.len() ==> (#[trigger] spec_push_child(m, kind, stays_open).nodes[i]).parent
                == m.nodes[i].parent,
        spec_push_child(m, kind, stays_open).stack == if stays_open {
            m.stack.push(m.nodes.len())
        } else {
            m.stack
        },
{
    let m2 = spec_push_child(m, kind, stays_open);
    let len = m.nodes.len() as int;
    let top = m.stack.last() as int;
    assert(m.stack[m.stack.len() - 1] < m.nodes.len());
    assert forall|i: int| 0 <= i < len implies (#[trigger] m2.nodes[i]).kind == m.nodes[i].kind
        && m2.nodes[i].parent == m.nodes[i].parent && m2.nodes[i].is_open == m.nodes[i].is_open
        && (i != top ==> m2.nodes[i].children == m.nodes[i].children) && (i == top
        ==> m2.nodes[i].children == m.nodes[i].children.push(len as nat)) by {}
    assert forall|k: int| 0 <= k < m.stack.len() implies #[trigger] m2.stack[k] == m.stack[k] by {}
    assert forall|i: int| 0 < i < m2.nodes.len() implies #[trigger] linked_below_parent(m2.nodes, i) by {
        if i < len {
            assert(linked_below_parent(m.nodes, i));
            let q = m.nodes[i].parent->0;
            assert(m.nodes[q as int].children.contains(i as nat));
            if q == top {
                let j = choose|j: int|
                    0 <= j < m.nodes[q as int].children.len() && #[trigger] m.nodes[q as int].children[j]
                        == i as nat;
                assert(m2.nodes[q as int].children[j] == i as nat);
            }
        } else {
            assert(m2.nodes[top].children.last() == len as nat);
        }
    }
    assert forall|i: int| 0 <= i < m2.nodes.len() implies ((#[trigger] m2.nodes[i]).is_open
        <==> on_stack_between(m2.stack, 0, m2.stack.len() as int, i)) by {
        if i < len {
            if on_stack_between(m.stack, 0, m.stack.len() as int, i) {
                let k = choose|k: int| 0 <= k < m.stack.len() && #[trigger] m.stack[k] == i;
                assert(m2.stack[k] == i);
            }
            if on_stack_between(m2.stack, 0, m2.stack.len() as int, i) {
                let k = choose|k: int| 0 <= k < m2.stack.len() && #[trigger] m2.stack[k] == i;
                if k < m.stack.len() {
                    assert(m.stack[k] == i);
                }
            }
        } else {
            if stays_open {
                assert(m2.stack[m.stack.len() as int] == i);
            } else if on_stack_between(m2.stack, 0, m2.stack.len() as int, i) {
                let k = choose|k: int| 0 <= k < m2.stack.len() && #[trigger] m2.stack[k] == i;
                assert(m.stack[k] < m.nodes.len());
            }
        }
    }
    assert forall|k: int| 0 < k < m2.stack.len() implies m2.nodes[#[trigger] m2.stack[k] as int].parent
        == Some(m2.stack[k - 1]) by {
        if k < m.stack.len() {
            assert(m.stack[k] < m.nodes.len());
            assert(m.nodes[m.stack[k] as int].parent == Some(m.stack[k - 1]));
        }
    }
    assert forall|k: int| 0 <= k < m2.stack.len() - 1 implies !(m2.nodes[#[trigger] m2.stack[k] as int].kind is Paragraph) by {
        assert(m.stack[k] < m.nodes.len());
        if k < m.stack.len() - 1 {
            assert(!(m.nodes[m.stack[k] as int].kind is Paragraph));
        } else {
            assert(m2.stack[k] == top);
        }
    }
    assert forall|k: int| 0 <= k < m2.stack.len() implies #[trigger] m2.stack[k] < m2.nodes.len()
        && is_matchable(m2.nodes[m2.stack[k] as int].kind) by {
        if k < m.stack.len() {
            assert(m.stack[k] < m.nodes.len());
        }
    }
    assert(m.stack[0] < m.nodes.len());
}

proof fn lemma_close_step(m: ParserModel, d: int)
    requires
        line_step_ready(m),
        1 <= d,
    ensures
        line_step_ready(spec_close_blocks_below(m, d)),
        kinds_kept(m.nodes, spec_close_blocks_below(m, d).nodes),
        forall|i: int|
            0 <= i < m.nodes.len() ==> (#[trigger] spec_close_blocks_below(m, d).nodes[i]).parent
                == m.nodes[i].parent,
        d < m.stack.len() ==> spec_close_blocks_below(m, d).stack == m.stack.take(d),
        d >= m.stack.len() ==> spec_close_blocks_below(m, d) == m,
{
    let m2 = spec_close_blocks_below(m, d);
    let len = m.stack.len() as int;
    if d < len {
        assert forall|i: int| 0 <= i < m.nodes.len() implies (#[trigger] m2.nodes[i]).kind
            == m.nodes[i].kind && m2.nodes[i].parent == m.nodes[i].parent && m2.nodes[i].children
            == m.nodes[i].children by {}
        assert forall|k: int| 0 <= k < m2.stack.len() implies #[trigger] m2.stack[k] == m.stack[k] by {}
        assert forall|i: int| 0 < i < m2.nodes.len() implies #[trigger] linked_below_parent(m2.nodes, i) by {
            assert(linked_below_parent(m.nodes, i));
        }
        assert forall|i: int| 0 <= i < m2.nodes.len() implies ((#[trigger] m2.nodes[i]).is_open
            <==> on_stack_between(m2.stack, 0, m2.stack.len() as int, i)) by {
            if on_stack_between(m.stack, d, len, i) {
                let k = choose|k: int| d <= k < len && #[trigger] m.stack[k] == i;
                if on_stack_between(m2.stack, 0, m2.stack.len() as int, i) {
                    let j = choose|j: int| 0 <= j < d && #[trigger] m2.stack[j] == i;
                    lemma_stack_increasing(m, j, k);
                }
            } else {
                if on_stack_between(m.stack, 0, len, i) {
                    let k = choose|k: int| 0 <= k < len && #[trigger] m.stack[k] == i;
                    assert(m2.stack[k] == i);
                }
                if on_stack_between(m2.stack, 0, m2.stack.len() as int, i) {
                    let j = choose|j: int| 0 <= j < d && #[trigger] m2.stack[j] == i;
                    assert(m.stack[j] == i);
                }
            }
        }
        assert forall|k: int| 0 < k < m2.stack.len() implies m2.nodes[#[trigger] m2.stack[k] as int].parent
            == Some(m2.stack[k - 1]) by {
            assert(m.stack[k] < m.nodes.len());
            assert(m.nodes[m.stack[k] as int].parent == Some(m.stack[k - 1]));
        }
        assert forall|k: int| 0 <= k < m2.stack.len() - 1 implies !(m2.nodes[#[trigger] m2.stack[k] as int].kind is Paragraph) by {
            assert(m.stack[k] < m.nodes.len());
            assert(!(m.nodes[m.stack[k] as int].kind is Paragraph));
        }
        assert forall|k: int| 0 <= k < m2.stack.len() implies #[trigger] m2.stack[k] < m2.nodes.len()
            && is_matchable(m2.nodes[m2.stack[k] as int].kind) by {
            assert(m.stack[k] < m.nodes.len());
        }
        assert(m.stack[0] < m.nodes.len());
        assert(m2.nodes[0] == m.nodes[0] || m2.nodes[0] == crate::block::parser::close_node(m.nodes[0]));
    }
}

proof fn lemma_try_open_step(m: ParserModel, rest: Seq<char>)
    requires
        line_step_ready(m),
        m.nodes[m.stack.last() as int].kind is Paragraph ==> starts_no_block(rest),
    ensures
        line_step_ready(spec_try_open_new_blocks(m, rest).0),
        kinds_kept(m.nodes, spec_try_open_new_blocks(m, rest).0.nodes),
        forall|i: int|
            0 <= i < m.nodes.len() ==> (#[trigger] spec_try_open_new_blocks(m, rest).0.nodes[i]).parent
                == m.nodes[i].parent,
        ({
            let r = spec_try_open_new_blocks(m, rest).0;
            r.nodes[r.stack.last() as int].kind is Paragraph ==> r == m
        }),
    decreases rest.len(),
{
    assert(m.stack[m.stack.len() - 1] < m.nodes.len());
    if m.nodes[m.stack.last() as int].kind is Paragraph {
        return ;
    }
    match spec_match_block_quote(rest) {
        Some(r) => {
            lemma_block_quote_shorter(rest);
            let m1 = spec_push_child(m, KindModel::BlockQuote, true);
            lemma_push_child_step(m, KindModel::BlockQuote, true);
            assert(m1.stack.last() == m.nodes.len());
            lemma_try_open_step(m1, r);
            let r1 = spec_try_open_new_blocks(m1, r).0;
            assert forall|i: int| 0 <= i < m.nodes.len() implies (#[trigger] r1.nodes[i]).kind
                == m.nodes[i].kind && r1.nodes[i].parent == m.nodes[i].parent by {
                assert(m1.nodes[i].kind == m.nodes[i].kind);
                assert(m1.nodes[i].parent == m.nodes[i].parent);
            }
        },
        None => match spec_match_atx_heading(rest) {
            Some((level, raw)) => {
                lemma_push_child_step(m, KindModel::Heading { level, raw }, false);
            },
            None => {
                if spec_match_thematic_break(rest) is Some {
                    lemma_push_child_step(m, KindModel::ThematicBreak, false);
                }
            },
        },
    }
}

proof fn lemma_append_step(m: ParserModel, rem: Seq<char>)
    requires
        line_step_ready(m),
    ensures
        line_step_ready(spec_append_text(m, rem)),
        spec_append_text(m, rem).nodes.len() >= m.nodes.len(),
        forall|i: int|
            0 <= i < m.nodes.len() ==> (#[trigger] spec_append_text(m, rem).nodes[i]).parent
                == m.nodes[i].parent,
        forall|i: int|
            0 <= i < m.nodes.len() ==> (#[trigger] spec_append_text(m, rem).nodes[i]).kind
                == m.nodes[i].kind || (i == m.stack.last() && m.nodes[i].kind is Paragraph
                && spec_append_text(m, rem).nodes[i].kind == KindModel::Paragraph(
                m.nodes[i].kind->Paragraph_0.push(rem),
            )),
{
    let top = m.stack.last() as int;
    assert(m.stack[m.stack.len() - 1] < m.nodes.len());
    let m2 = spec_append_text(m, rem);
    if !all_whitespace(rem) {
        match m.nodes[top].kind {
            KindModel::Paragraph(p) => {
                assert forall|i: int| 0 <= i < m2.nodes.len() implies (#[trigger] m2.nodes[i]).children
                    == m.nodes[i].children && m2.nodes[i].parent == m.nodes[i].parent
                    && m2.nodes[i].is_open == m.nodes[i].is_open && (i != top ==> m2.nodes[i].kind
                    == m.nodes[i].kind) by {}
                assert forall|i: int| 0 < i < m2.nodes.len() implies #[trigger] linked_below_parent(
                    m2.nodes,
                    i,
                ) by {
                    assert(linked_below_parent(m.nodes, i));
                }
                assert forall|k: int| 0 < k < m2.stack.len() implies m2.nodes[#[trigger] m2.stack[k] as int].parent
                    == Some(m2.stack[k - 1]) by {
                    assert(m.stack[k] < m.nodes.len());
                    assert(m.nodes[m.stack[k] as int].parent == Some(m.stack[k - 1]));
                }
                assert forall|k: int| 0 <= k < m2.stack.len() - 1 implies !(m2.nodes[#[trigger] m2.stack[k] as int].kind is Paragraph) by {
                    assert(m.stack[k] < m.nodes.len());
                    assert(!(m.nodes[m.stack[k] as int].kind is Paragraph));
                    lemma_stack_increasing(m, k, m.stack.len() - 1);
                }
                assert forall|k: int| 0 <= k < m2.stack.len() implies #[trigger] m2.stack[k]
                    < m2.nodes.len() && is_matchable(m2.nodes[m2.stack[k] as int].kind) by {
                    assert(m.stack[k] < m.nodes.len());
                }
                assert(m.stack[0] < m.nodes.len());
                if top == 0 {
                    assert(m.nodes[0].kind is Document);
                }
            },
            _ => {
                lemma_push_child_step(m, KindModel::Paragraph(seq![rem]), true);
            },
        }
    }
}

/// A line step keeps its invariant, keeps the root without a parent and
/// every block on the stack matchable; every node that was there keeps its
/// parent and its kind, but for the paragraph at the top of the stack,
/// which may gain exactly one line.
pub proof fn lemma_process_line_step(m: ParserModel, line: Seq<char>)
    requires
        line_step_ready(m),
    ensures
        line_step_ready(spec_process_line(m, line)),
        spec_process_line(m, line).nodes.len() >= m.nodes.len(),
        forall|i: int|
            0 <= i < m.nodes.len() ==> (#[trigger] spec_process_line(m, line).nodes[i]).parent
                == m.nodes[i].parent,
        forall|i: int|
            0 <= i < m.nodes.len() ==> (#[trigger] spec_process_line(m, line).nodes[i]).kind
                == m.nodes[i].kind || (i == m.stack.last() && m.nodes[i].kind is Paragraph
                && exists|l: Seq<char>|
                spec_process_line(m, line).nodes[i].kind == KindModel::Paragraph(
                    m.nodes[i].kind->Paragraph_0.push(l),
                )),
{
    let (depth, rem) = spec_match_open(m, 0, line);
    assert(m.stack[0] < m.nodes.len());
    assert(spec_match_open(m, 0, line) == spec_match_open(m, 1, line));
    lemma_match_open_range(m, 1, line);
    lemma_close_step(m, depth);
    let m1 = spec_close_blocks_below(m, depth);
    assert(m.stack[m.stack.len() - 1] < m.nodes.len());
    if m1.nodes[m1.stack.last() as int].kind is Paragraph {
        if depth < m.stack.len() {
            assert(m1.stack[m1.stack.len() - 1] == m.stack[depth - 1]);
            assert(m.stack[depth - 1] < m.nodes.len());
            assert(!(m.nodes[m.stack[depth - 1] as int].kind is Paragraph));
        } else {
            lemma_match_open_paragraph_top(m, 0, line);
        }
    }
    lemma_try_open_step(m1, rem);
    let (m2, rem2) = spec_try_open_new_blocks(m1, rem);
    lemma_append_step(m2, rem2);
    let m3 = spec_append_text(m2, rem2);
    assert(m2.stack[m2.stack.len() - 1] < m2.nodes.len());
    assert forall|i: int| 0 <= i < m.nodes.len() implies (#[trigger] m3.nodes[i]).kind
        == m.nodes[i].kind || (i == m.stack.last() && m.nodes[i].kind is Paragraph && exists|
        l: Seq<char>,
    | m3.nodes[i].kind == KindModel::Paragraph(m.nodes[i].kind->Paragraph_0.push(l))) by {
        assert(m2.nodes[i].kind == m1.nodes[i].kind);
        assert(m1.nodes[i].kind == m.nodes[i].kind);
        if m3.nodes[i].kind != m2.nodes[i].kind {
            assert(i == m2.stack.last() && m2.nodes[i].kind is Paragraph);
            assert(m2 == m1);
            assert(m1 == m);
            assert(m3.nodes[i].kind == KindModel::Paragraph(
                m.nodes[i].kind->Paragraph_0.push(rem2),
            ));
        }
    }
    assert forall|i: int| 0 <= i < m.nodes.len() implies (#[trigger] m3.nodes[i]).parent
        == m.nodes[i].parent by {
        assert(m2.nodes[i].parent == m1.nodes[i].parent);
        assert(m1.nodes[i].parent == m.nodes[i].parent);
    }
}

} // verus!
