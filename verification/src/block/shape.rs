//! The shape of the tree that the parser builds: the document root at
//! index 0, child lists in increasing order, leaves without children, no
//! blank paragraph line, heading levels from one to six, and a paragraph
//! only ever at the top of the open stack.
use crate::block::blocks::{KindModel, NodeModel};
use crate::block::container::block_quotes::spec_match_block_quote;
use crate::block::invariants::{
    is_container_or_paragraph, lemma_close_wf, lemma_match_open_keeps_root, lemma_push_child_wf,
    lemma_try_open_wf, parser_wf,
};
use crate::block::leaf::atx_heading::spec_match_atx_heading;
use crate::block::leaf::paragraph::spec_match_paragraph;
use crate::block::leaf::thematic::spec_match_thematic_break;
use crate::block::libs::misc::spec_push_child;
use crate::block::libs::text::all_whitespace;
use crate::block::parser::{
    lemma_block_quote_shorter, spec_append_text, spec_close_blocks_below, spec_initial,
    spec_match_open, spec_process_line, spec_try_open_new_blocks, ParserModel,
};
use vstd::prelude::*;

verus! {

/// Headings, thematic breaks and paragraphs hold no blocks.
pub open spec fn is_leaf_kind(k: KindModel) -> bool {
    k is Heading || k is ThematicBreak || k is Paragraph
}

/// A paragraph has no blank line; a heading's level is from one to six.
pub open spec fn kind_content_ok(k: KindModel) -> bool {
    match k {
        KindModel::Paragraph(lines) => forall|j: int|
            0 <= j < lines.len() ==> !all_whitespace(#[trigger] lines[j]),
        KindModel::Heading { level, .. } => 1 <= level <= 6,
        _ => true,
    }
}

/// No line of `rest` starts a block quote, a heading or a thematic break.
pub open spec fn starts_no_block(rest: Seq<char>) -> bool {
    &&& spec_match_block_quote(rest) is None
    &&& spec_match_atx_heading(rest) is None
    &&& spec_match_thematic_break(rest) is None
}

/// The shape of the parser's tree.
pub open spec fn tree_shape(m: ParserModel) -> bool {
    &&& m.nodes.len() > 0
    &&& m.nodes[0].kind is Document
    &&& m.nodes[0].parent is None
    &&& forall|i: int|
        0 < i < m.nodes.len() ==> (#[trigger] m.nodes[i]).parent is Some && !(m.nodes[i].kind is Document)
    &&& forall|i: int, j: int, k: int|
        0 <= i < m.nodes.len() && 0 <= j < k < m.nodes[i].children.len()
            ==> #[trigger] m.nodes[i].children[j] < #[trigger] m.nodes[i].children[k]
    &&& forall|i: int|
        0 <= i < m.nodes.len() && is_leaf_kind((#[trigger] m.nodes[i]).kind)
            ==> m.nodes[i].children.len() == 0
    &&& forall|i: int| 0 <= i < m.nodes.len() ==> kind_content_ok((#[trigger] m.nodes[i]).kind)
    &&& m.stack.len() > 0 ==> m.stack[0] == 0
    &&& forall|k: int|
        0 <= k < m.stack.len() - 1 ==> !(m.nodes[#[trigger] m.stack[k] as int].kind is Paragraph)
}

/// The node kinds of `a` are kept in `b`.
pub open spec fn kinds_kept(a: Seq<NodeModel>, b: Seq<NodeModel>) -> bool {
    &&& a.len() <= b.len()
    &&& forall|i: int| 0 <= i < a.len() ==> (#[trigger] b[i]).kind == a[i].kind
}

pub proof fn lemma_initial_shape()
    ensures
        tree_shape(spec_initial()),
{
}

pub proof fn lemma_push_child_shape(m: ParserModel, kind: KindModel, stays_open: bool)
    requires
        parser_wf(m),
        tree_shape(m),
        m.stack.len() > 0,
        !(m.nodes[m.stack.last() as int].kind is Paragraph),
        !(kind is Document),
        kind_content_ok(kind),
        stays_open ==> is_container_or_paragraph(kind),
    ensures
        tree_shape(spec_push_child(m, kind, stays_open)),
        kinds_kept(m.nodes, spec_push_child(m, kind, stays_open).nodes),
        spec_push_child(m, kind, stays_open).stack == if stays_open {
            m.stack.push(m.nodes.len())
        } else {
            m.stack
        },
{
    let m2 = spec_push_child(m, kind, stays_open);
    let len = m.nodes.len() as int;
    let top = m.stack.last() as int;
    assert(m.stack[m.stack.len() - 1] < m.nodes.len());
    assert(m.stack[0] < m.nodes.len());
    assert forall|i: int| 0 <= i < len implies (#[trigger] m2.nodes[i]).kind == m.nodes[i].kind
        && m2.nodes[i].parent == m.nodes[i].parent && (i != top ==> m2.nodes[i].children
        == m.nodes[i].children) && (i == top ==> m2.nodes[i].children == m.nodes[i].children.push(
        len as nat,
    )) by {}
    assert forall|i: int, j: int, k: int|
        0 <= i < m2.nodes.len() && 0 <= j < k < m2.nodes[i].children.len() implies #[trigger] m2.nodes[i].children[j]
        < #[trigger] m2.nodes[i].children[k] by {
        if i == top && k == m.nodes[i].children.len() {
            assert(m.nodes[i].children[j] < len);
            assert(m2.nodes[i].children[j] == m.nodes[i].children[j]);
        } else if i < len {
            assert(m2.nodes[i].children[j] == m.nodes[i].children[j]);
            assert(m2.nodes[i].children[k] == m.nodes[i].children[k]);
        }
    }
    assert forall|i: int|
        0 <= i < m2.nodes.len() && is_leaf_kind((#[trigger] m2.nodes[i]).kind) implies m2.nodes[i].children.len()
        == 0 by {
        if i == top {
            assert(m.stack[m.stack.len() - 1] == top);
            if m.stack.len() > 1 {
                assert(is_container_or_paragraph(m.nodes[m.stack[m.stack.len() - 1] as int].kind));
            }
        }
    }
    assert forall|i: int| 0 <= i < m2.nodes.len() implies kind_content_ok(
        (#[trigger] m2.nodes[i]).kind,
    ) by {
        if i < len {
            assert(kind_content_ok(m.nodes[i].kind));
        }
    }
    assert forall|i: int| 0 < i < m2.nodes.len() implies (#[trigger] m2.nodes[i]).parent is Some
        && !(m2.nodes[i].kind is Document) by {
        if i < len {
            assert(m.nodes[i].parent is Some);
        }
    }
    assert forall|k: int| 0 <= k < m2.stack.len() - 1 implies !(m2.nodes[#[trigger] m2.stack[k] as int].kind is Paragraph) by {
        assert(m.stack[k] < m.nodes.len());
        if k < m.stack.len() - 1 {
            assert(!(m.nodes[m.stack[k] as int].kind is Paragraph));
        } else {
            assert(m2.stack[k] == top);
        }
    }
}

pub proof fn lemma_close_shape(m: ParserModel, d: int)
    requires
        parser_wf(m),
        tree_shape(m),
        0 <= d,
    ensures
        tree_shape(spec_close_blocks_below(m, d)),
        kinds_kept(m.nodes, spec_close_blocks_below(m, d).nodes),
        forall|i: int|
            0 <= i < m.nodes.len() ==> (#[trigger] spec_close_blocks_below(m, d).nodes[i]).children
                == m.nodes[i].children && spec_close_blocks_below(m, d).nodes[i].parent
                == m.nodes[i].parent,
{
    lemma_close_wf(m, d);
    let m2 = spec_close_blocks_below(m, d);
    if d < m.stack.len() {
        assert forall|i: int| 0 <= i < m.nodes.len() implies (#[trigger] m2.nodes[i]).kind
            == m.nodes[i].kind && m2.nodes[i].children == m.nodes[i].children
            && m2.nodes[i].parent == m.nodes[i].parent by {}
        assert forall|i: int, j: int, k: int|
            0 <= i < m2.nodes.len() && 0 <= j < k < m2.nodes[i].children.len() implies #[trigger] m2.nodes[i].children[j]
            < #[trigger] m2.nodes[i].children[k] by {
            assert(m2.nodes[i].children == m.nodes[i].children);
        }
        assert forall|k: int| 0 <= k < m2.stack.len() - 1 implies !(m2.nodes[#[trigger] m2.stack[k] as int].kind is Paragraph) by {
            assert(m.stack[k] < m.nodes.len());
            assert(m2.stack[k] == m.stack[k]);
        }
        assert forall|i: int|
            0 <= i < m2.nodes.len() && is_leaf_kind((#[trigger] m2.nodes[i]).kind) implies m2.nodes[i].children.len()
            == 0 by {
            assert(m2.nodes[i].children == m.nodes[i].children);
        }
        assert forall|i: int| 0 <= i < m2.nodes.len() implies kind_content_ok(
            (#[trigger] m2.nodes[i]).kind,
        ) by {
            assert(m2.nodes[i].kind == m.nodes[i].kind);
        }
        assert forall|i: int| 0 < i < m2.nodes.len() implies (#[trigger] m2.nodes[i]).parent is Some
            && !(m2.nodes[i].kind is Document) by {
            assert(m2.nodes[i].kind == m.nodes[i].kind);
        }
        if d > 0 {
            assert(m2.stack[0] == m.stack[0]);
        }
    }
}

/// A paragraph at the top of the stack that the line continues leaves a
/// rest that starts no block.
pub proof fn lemma_match_open_paragraph_top(m: ParserModel, d: int, rem: Seq<char>)
    requires
        m.stack.len() > 0,
        m.stack.last() < m.nodes.len(),
        m.nodes[m.stack.last() as int].kind is Paragraph,
        0 <= d < m.stack.len(),
        spec_match_open(m, d, rem).0 == m.stack.len(),
    ensures
        starts_no_block(spec_match_open(m, d, rem).1),
    decreases m.stack.len() - d,
{
    let idx = m.stack[d];
    if d == m.stack.len() - 1 {
        assert(idx == m.stack.last());
        if let Some(r) = spec_match_paragraph(rem) {
            assert(r == rem);
            assert(spec_match_open(m, d + 1, r) == (m.stack.len() as int, r));
        }
    } else {
        if idx >= m.nodes.len() {
            lemma_match_open_paragraph_top(m, d + 1, rem);
        } else {
            match m.nodes[idx as int].kind {
                KindModel::BlockQuote => match spec_match_block_quote(rem) {
                    Some(r) => lemma_match_open_paragraph_top(m, d + 1, r),
                    None => {},
                },
                KindModel::Paragraph(_) => match spec_match_paragraph(rem) {
                    Some(r) => lemma_match_open_paragraph_top(m, d + 1, r),
                    None => {},
                },
                _ => lemma_match_open_paragraph_top(m, d + 1, rem),
            }
        }
    }
}

pub proof fn lemma_try_open_shape(m: ParserModel, rest: Seq<char>)
    requires
        parser_wf(m),
        tree_shape(m),
        m.stack.len() > 0,
        m.nodes[m.stack.last() as int].kind is Paragraph ==> starts_no_block(rest),
    ensures
        tree_shape(spec_try_open_new_blocks(m, rest).0),
        kinds_kept(m.nodes, spec_try_open_new_blocks(m, rest).0.nodes),
        ({
            let r = spec_try_open_new_blocks(m, rest).0;
            r.nodes[r.stack.last() as int].kind is Paragraph ==> r == m
        }),
    decreases rest.len(),
{
    assert(m.stack[m.stack.len() - 1] < m.nodes.len());
    if m.nodes[m.stack.last() as int].kind is Paragraph {
        return ;
    }
    match spec_match_block_quote(rest) {
        Some(r) => {
            lemma_block_quote_shorter(rest);
            let m1 = spec_push_child(m, KindModel::BlockQuote, true);
            lemma_push_child_shape(m, KindModel::BlockQuote, true);
            lemma_push_child_wf(m, KindModel::BlockQuote, true);
            assert(m1.stack.last() == m.nodes.len());
            lemma_try_open_shape(m1, r);
            let r1 = spec_try_open_new_blocks(m1, r).0;
            assert forall|i: int| 0 <= i < m.nodes.len() implies (#[trigger] r1.nodes[i]).kind
                == m.nodes[i].kind by {
                assert(m1.nodes[i].kind == m.nodes[i].kind);
            }
        },
        None => match spec_match_atx_heading(rest) {
            Some((level, raw)) => {
                crate::block::laws::law_heading_level_in_range(rest);
                lemma_push_child_shape(m, KindModel::Heading { level, raw }, false);
            },
            None => {
                if spec_match_thematic_break(rest) is Some {
                    lemma_push_child_shape(m, KindModel::ThematicBreak, false);
                }
            },
        },
    }
}

pub proof fn lemma_append_shape(m: ParserModel, rem: Seq<char>)
    requires
        parser_wf(m),
        tree_shape(m),
        m.stack.len() > 0,
    ensures
        tree_shape(spec_append_text(m, rem)),
        spec_append_text(m, rem).nodes.len() >= m.nodes.len(),
        forall|i: int|
            0 <= i < m.nodes.len() ==> (#[trigger] spec_append_text(m, rem).nodes[i]).kind
                == m.nodes[i].kind || (i == m.stack.last() && m.nodes[i].kind is Paragraph
                && spec_append_text(m, rem).nodes[i].kind == KindModel::Paragraph(
                m.nodes[i].kind->Paragraph_0.push(rem),
            )),
{
    let top = m.stack.last() as int;
    assert(m.stack[m.stack.len() - 1] < m.nodes.len());
    let m2 = spec_append_text(m, rem);
    if !all_whitespace(rem) {
        match m.nodes[top].kind {
            KindModel::Paragraph(p) => {
                assert forall|i: int| 0 <= i < m2.nodes.len() implies kind_content_ok(
                    (#[trigger] m2.nodes[i]).kind,
                ) by {
                    if i == top {
                        assert(kind_content_ok(m.nodes[top].kind));
                        assert forall|j: int| 0 <= j < p.push(rem).len() implies !all_whitespace(
                            #[trigger] p.push(rem)[j],
                        ) by {
                            if j < p.len() {
                                assert(p.push(rem)[j] == p[j]);
                            }
                        }
                    } else {
                        assert(kind_content_ok(m.nodes[i].kind));
                    }
                }
                assert forall|i: int| 0 <= i < m2.nodes.len() implies (#[trigger] m2.nodes[i]).children
                    == m.nodes[i].children && m2.nodes[i].parent == m.nodes[i].parent by {}
                assert forall|i: int, j: int, k: int|
                    0 <= i < m2.nodes.len() && 0 <= j < k < m2.nodes[i].children.len() implies #[trigger] m2.nodes[i].children[j]
                    < #[trigger] m2.nodes[i].children[k] by {
                    assert(m2.nodes[i].children == m.nodes[i].children);
                }
                assert forall|i: int|
                    0 <= i < m2.nodes.len() && is_leaf_kind((#[trigger] m2.nodes[i]).kind) implies m2.nodes[i].children.len()
                    == 0 by {
                    assert(m2.nodes[i].children == m.nodes[i].children);
                    assert(is_leaf_kind(m.nodes[i].kind));
                }
                assert forall|k: int| 0 <= k < m2.stack.len() - 1 implies !(m2.nodes[#[trigger] m2.stack[k] as int].kind is Paragraph) by {
                    assert(m.stack[k] < m.nodes.len());
                    assert(!(m.nodes[m.stack[k] as int].kind is Paragraph));
                    assert(m.stack[k] < m.stack[m.stack.len() - 1]);
                }
                assert forall|i: int| 0 < i < m2.nodes.len() implies (#[trigger] m2.nodes[i]).parent is Some
                    && !(m2.nodes[i].kind is Document) by {
                    assert(m.nodes[i].parent is Some);
                }
                assert(m.stack[0] < m.nodes.len());
            },
            _ => {
                let kind = KindModel::Paragraph(seq![rem]);
                assert(kind_content_ok(kind)) by {
                    assert forall|j: int| 0 <= j < seq![rem].len() implies !all_whitespace(
                        #[trigger] seq![rem][j],
                    ) by {
                        assert(seq![rem][j] == rem);
                    }
                }
                lemma_push_child_shape(m, kind, true);
            },
        }
    }
}

/// Processing a line keeps the shape of the tree; every node that was
/// there keeps its kind, but for the paragraph at the top of the stack,
/// which may gain exactly one line.
pub proof fn lemma_process_line_shape(m: ParserModel, line: Seq<char>)
    requires
        parser_wf(m),
        tree_shape(m),
        m.stack.len() > 0,
    ensures
        tree_shape(spec_process_line(m, line)),
        spec_process_line(m, line).nodes.len() >= m.nodes.len(),
        forall|i: int|
            0 <= i < m.nodes.len() ==> (#[trigger] spec_process_line(m, line).nodes[i]).kind
                == m.nodes[i].kind || (i == m.stack.last() && m.nodes[i].kind is Paragraph
                && exists|l: Seq<char>|
                spec_process_line(m, line).nodes[i].kind == KindModel::Paragraph(
                    m.nodes[i].kind->Paragraph_0.push(l),
                )),
{
    let (depth, rem) = spec_match_open(m, 0, line);
    lemma_match_open_keeps_root(m, line);
    lemma_close_wf(m, depth);
    lemma_close_shape(m, depth);
    let m1 = spec_close_blocks_below(m, depth);
    assert(m.stack[m.stack.len() - 1] < m.nodes.len());
    if m1.nodes[m1.stack.last() as int].kind is Paragraph {
        if depth < m.stack.len() {
            assert(m1.stack[m1.stack.len() - 1] == m.stack[depth - 1]);
            assert(m.stack[depth - 1] < m.nodes.len());
            assert(!(m.nodes[m.stack[depth - 1] as int].kind is Paragraph));
        } else {
            assert(m1 == m);
            lemma_match_open_paragraph_top(m, 0, line);
        }
    }
    lemma_try_open_wf(m1, rem);
    lemma_try_open_shape(m1, rem);
    let (m2, rem2) = spec_try_open_new_blocks(m1, rem);
    lemma_append_shape(m2, rem2);
    let m3 = spec_append_text(m2, rem2);
    assert(m2.stack[m2.stack.len() - 1] < m2.nodes.len());
    assert forall|i: int| 0 <= i < m.nodes.len() implies (#[trigger] m3.nodes[i]).kind
        == m.nodes[i].kind || (i == m.stack.last() && m.nodes[i].kind is Paragraph && exists|
        l: Seq<char>,
    | m3.nodes[i].kind == KindModel::Paragraph(m.nodes[i].kind->Paragraph_0.push(l))) by {
        assert(m2.nodes[i].kind == m1.nodes[i].kind);
        assert(m1.nodes[i].kind == m.nodes[i].kind);
        if m3.nodes[i].kind != m2.nodes[i].kind {
            assert(i == m2.stack.last() && m2.nodes[i].kind is Paragraph);
            assert(m2 == m1);
            assert(m1 == m);
            assert(m3.nodes[i].kind == KindModel::Paragraph(
                m.nodes[i].kind->Paragraph_0.push(rem2),
            ));
        }
    }
}

} // verus!
