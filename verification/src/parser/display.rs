//! The text form of the parser's tree: one line per node, indented by two
//! spaces per level, a `*` after the name of each node that is still open.
use crate::block::parser::BlockParser;
use crate::parser::blocks::{
    arena_wf, strings_view, KindModel, ListKind, NodeModel, OpenBlock, OpenBlockKind, RawBlock,
};
use crate::parser::formatting::{
    bool_text, debug_chars, debug_indices, debug_opt_index, debug_opt_string, debug_str,
    debug_strings, decimal, join, push_debug_indices, push_debug_opt_index, push_bool,
    push_debug_opt_string, push_debug_strings, push_decimal,
};
use vstd::prelude::*;

verus! {

/// `n` spaces.
pub open spec fn spaces(n: nat) -> Seq<char> {
    Seq::new(n, |i: int| ' ')
}

/// A list kind as it prints itself, line break included.
pub open spec fn list_kind_text(k: ListKind) -> Seq<char> {
    match k {
        ListKind::Bullet => "[BULLET]\n"@,
        ListKind::Ordered => "[ORDERED]\n"@,
    }
}

/// The line that stands for one node at the given depth.
pub open spec fn node_line(n: NodeModel, depth: nat) -> Seq<char> {
    let indent = spaces(2 * depth);
    let mark = if n.is_open {
        "*"@
    } else {
        ""@
    };
    match n.kind {
        KindModel::Document => indent + "Document"@ + mark + "\n"@,
        KindModel::BlockQuote => indent + "BlockQuote"@ + mark + "\n"@,
        KindModel::List { kind, .. } => indent + "List"@ + mark + " (ordered: "@ + list_kind_text(
            kind,
        ) + ")\n"@,
        KindModel::ListItem => indent + "ListItem"@ + mark + "\n"@,
        KindModel::Paragraph(lines) => indent + "Paragraph"@ + mark + " "@ + debug_strings(lines)
            + "\n"@,
        KindModel::Heading { level, raw } => indent + "Heading"@ + mark + " (level "@ + decimal(
            level as nat,
        ) + ") "@ + debug_chars(raw) + "\n"@,
        KindModel::ThematicBreak => indent + "ThematicBreak\n"@,
        KindModel::CodeBlock { info, fenced, literal } => indent + "CodeBlock"@ + mark
            + " (fenced: "@ + bool_text(fenced) + ", info: "@ + debug_opt_string(info) + ") "@
            + debug_chars(literal) + "\n"@,
        KindModel::HtmlBlock(s) => indent + "HtmlBlock"@ + mark + " "@ + debug_chars(s) + "\n"@,
    }
}

/// The node's line, then the text of each of its children one level
/// deeper; nothing for an index outside the arena. `bound` limits the length
/// of the child paths walked: with a bound that every child path from `idx`
/// keeps (`paths_bounded`), this is the whole subtree under `idx`.
pub open spec fn render_node(nodes: Seq<NodeModel>, idx: int, depth: nat, bound: nat) -> Seq<char>
    decreases bound, 0nat,
{
    if bound == 0 || idx < 0 || idx >= nodes.len() {
        Seq::empty()
    } else {
        node_line(nodes[idx], depth) + render_children(
            nodes,
            nodes[idx].children,
            0,
            depth + 1,
            (bound - 1) as nat,
        )
    }
}

/// The text of the children from the `j`-th on.
pub open spec fn render_children(
    nodes: Seq<NodeModel>,
    children: Seq<nat>,
    j: int,
    depth: nat,
    bound: nat,
) -> Seq<char>
    decreases bound, children.len() - j + 1,
{
    if j < 0 || j >= children.len() {
        Seq::empty()
    } else {
        render_node(nodes, children[j] as int, depth, bound) + render_children(
            nodes,
            children,
            j + 1,
            depth,
            bound,
        )
    }
}

pub fn push_list_kind(out: &mut String, k: ListKind)
    ensures
        final(out)@ == old(out)@ + list_kind_text(k),
{
    match k {
        ListKind::Bullet => out.append("[BULLET]\n"),
        ListKind::Ordered => out.append("[ORDERED]\n"),
    }
}

impl ListKind {
    /// The text that `{}` prints for the list kind.
    pub fn to_string(&self) -> (s: String)
        ensures
            s@ == list_kind_text(*self),
    {
        let mut s = String::new();
        push_list_kind(&mut s, *self);
        s
    }
}

/// Appends two spaces per level of depth (`"  ".repeat(depth)`).
fn push_indent(out: &mut String, depth: usize)
    ensures
        final(out)@ == old(out)@ + spaces(2 * depth as nat),
{
    let ghost start = out@;
    let mut i: usize = 0;
    while i < depth
        invariant
            i <= depth,
            out@ == start + spaces(2 * i as nat),
        decreases depth - i,
    {
        out.append("  ");
        proof {
            reveal_strlit("  ");
        }
        i = i + 1;
        assert(out@ =~= start + spaces(2 * i as nat));
    }
}

/// `p` goes down the tree: each entry but the last is a node of the arena
/// that has the next entry among its children.
pub open spec fn is_child_path(nodes: Seq<NodeModel>, p: Seq<nat>) -> bool {
    &&& p.len() > 0
    &&& forall|k: int|
        0 <= k < p.len() - 1 ==> #[trigger] p[k] < nodes.len() && nodes[p[k] as int].children.contains(
            p[k + 1],
        )
}

/// Every child path from `root` has at most `n` entries.
pub open spec fn paths_bounded(nodes: Seq<NodeModel>, root: nat, n: nat) -> bool {
    forall|p: Seq<nat>| #[trigger] is_child_path(nodes, p) && p[0] == root ==> p.len() <= n
}

/// The subtree under `root` has no cycle: no child path from `root` is
/// longer than the arena's nodes and one index past them.
pub open spec fn subtree_acyclic(nodes: Seq<NodeModel>, root: nat) -> bool {
    paths_bounded(nodes, root, nodes.len() + 1)
}

/// The paths from a child are the paths from its parent without their
/// first entry.
pub proof fn lemma_paths_bounded_child(nodes: Seq<NodeModel>, idx: nat, n: nat, c: nat)
    requires
        paths_bounded(nodes, idx, n),
        idx < nodes.len(),
        nodes[idx as int].children.contains(c),
    ensures
        n >= 2,
        paths_bounded(nodes, c, (n - 1) as nat),
{
    let p2 = seq![idx, c];
    assert(p2[0] < nodes.len() && nodes[p2[0] as int].children.contains(p2[1]));
    assert(is_child_path(nodes, p2));
    assert forall|p: Seq<nat>| #[trigger] is_child_path(nodes, p) && p[0] == c implies p.len() <= n - 1 by {
        let q = seq![idx] + p;
        assert forall|k: int| 0 <= k < q.len() - 1 implies #[trigger] q[k] < nodes.len()
            && nodes[q[k] as int].children.contains(q[k + 1]) by {
            if k > 0 {
                assert(q[k] == p[k - 1]);
                assert(q[k + 1] == p[k]);
            } else {
                assert(q[1] == p[0]);
            }
        }
        assert(is_child_path(nodes, q));
    }
}

proof fn lemma_wf_path_grows(nodes: Seq<NodeModel>, p: Seq<nat>, k: int)
    requires
        arena_wf(nodes),
        is_child_path(nodes, p),
        0 <= k < p.len(),
    ensures
        p[k] >= p[0] + k,
        k > 0 ==> p[k] < nodes.len(),
    decreases k,
{
    if k > 0 {
        lemma_wf_path_grows(nodes, p, k - 1);
        assert(p[k - 1] < nodes.len() && nodes[p[k - 1] as int].children.contains(p[k]));
        let j = choose|j: int|
            0 <= j < nodes[p[k - 1] as int].children.len() && #[trigger] nodes[p[k - 1] as int].children[j]
                == p[k];
        assert(nodes[p[k - 1] as int].children[j] > p[k - 1]);
    }
}

/// In a well-formed arena child indices grow, so no subtree has a cycle.
pub proof fn lemma_wf_subtree_acyclic(nodes: Seq<NodeModel>, root: nat)
    requires
        arena_wf(nodes),
    ensures
        subtree_acyclic(nodes, root),
{
    assert forall|p: Seq<nat>| #[trigger] is_child_path(nodes, p) && p[0] == root implies p.len()
        <= nodes.len() + 1 by {
        if p.len() > 1 {
            lemma_wf_path_grows(nodes, p, p.len() - 1);
        }
    }
}

impl BlockParser {
    /// The text of the whole tree, from the document root down.
    pub fn to_string(&self) -> (s: String)
        requires
            subtree_acyclic(self@.nodes, 0),
        ensures
            s@ == render_node(self@.nodes, 0, 0, self@.nodes.len() + 1),
    {
        proof {
            self.arena.lemma_len_fits();
        }
        let mut s = String::new();
        self.fmt_node(&mut s, 0, 0, Ghost(self@.nodes.len() + 1));
        s
    }

    fn fmt_node(&self, f: &mut String, idx: usize, depth: usize, Ghost(bound): Ghost<nat>)
        requires
            paths_bounded(self@.nodes, idx as nat, bound),
            idx < self@.nodes.len() ==> depth + bound <= usize::MAX + 1,
        ensures
            final(f)@ == old(f)@ + render_node(self@.nodes, idx as int, depth as nat, bound),
        decreases bound,
    {
        let node = self.arena.get(idx);

        if let Some(node) = node {
            let ghost n = self@.nodes[idx as int];
            proof {
                assert(is_child_path(self@.nodes, seq![idx as nat]));
            }
            push_node_line(f, node, depth);

            let ghost line_end = f@;
            let mut j: usize = 0;
            while j < node.children.len()
                invariant
                    paths_bounded(self@.nodes, idx as nat, bound),
                    bound >= 1,
                    idx < self@.nodes.len(),
                    depth + bound <= usize::MAX + 1,
                    node@ == n,
                    n == self@.nodes[idx as int],
                    j <= node.children@.len(),
                    line_end + render_children(self@.nodes, n.children, 0, (depth + 1) as nat, (bound - 1) as nat)
                        == f@ + render_children(self@.nodes, n.children, j as int, (depth + 1) as nat, (bound - 1) as nat),
                decreases node.children@.len() - j,
            {
                let child_idx = node.children[j];
                assert(n.children[j as int] == child_idx as nat);
                proof {
                    lemma_paths_bounded_child(self@.nodes, idx as nat, bound, child_idx as nat);
                }
                self.fmt_node(f, child_idx, depth + 1, Ghost((bound - 1) as nat));
                j = j + 1;
            }
        }
    }
}

/// Appends the line of one node.
fn push_node_line(f: &mut String, node: &OpenBlock, depth: usize)
    ensures
        final(f)@ == old(f)@ + node_line(node@, depth as nat),
{
    let mut line = String::new();
    push_indent(&mut line, depth);
    assert(line@ =~= spaces(2 * depth as nat));
    let open_marker = if node.is_open {
        "*"
    } else {
        ""
    };
    match &node.kind {
        OpenBlockKind::Document => {
            line.append("Document");
            line.append(open_marker);
            line.append("\n");
        },
        OpenBlockKind::BlockQuote => {
            line.append("BlockQuote");
            line.append(open_marker);
            line.append("\n");
        },
        OpenBlockKind::List(data) => {
            line.append("List");
            line.append(open_marker);
            line.append(" (ordered: ");
            push_list_kind(&mut line, data.kind);
            line.append(")\n");
        },
        OpenBlockKind::ListItem => {
            line.append("ListItem");
            line.append(open_marker);
            line.append("\n");
        },
        OpenBlockKind::Paragraph(lines) => {
            line.append("Paragraph");
            line.append(open_marker);
            line.append(" ");
            push_debug_strings(&mut line, lines);
            line.append("\n");
        },
        OpenBlockKind::Heading { level, raw } => {
            line.append("Heading");
            line.append(open_marker);
            line.append(" (level ");
            push_decimal(&mut line, *level as usize);
            line.append(") ");
            let d = debug_str(raw.as_str());
            line.append(d.as_str());
            line.append("\n");
        },
        OpenBlockKind::ThematicBreak => {
            line.append("ThematicBreak\n");
        },
        OpenBlockKind::CodeBlock { info, fenced, literal } => {
            line.append("CodeBlock");
            line.append(open_marker);
            line.append(" (fenced: ");
            push_bool(&mut line, *fenced);
            line.append(", info: ");
            push_debug_opt_string(&mut line, info);
            line.append(") ");
            let d = debug_str(literal.as_str());
            line.append(d.as_str());
            line.append("\n");
        },
        OpenBlockKind::HtmlBlock(s) => {
            line.append("HtmlBlock");
            line.append(open_marker);
            line.append(" ");
            let d = debug_str(s.as_str());
            line.append(d.as_str());
            line.append("\n");
        },
    }
    f.append(line.as_str());
}

/// A raw block can print itself: it and every block nested in it are
/// block quotes, lists, list items or paragraphs.
pub open spec fn raw_displayable(b: RawBlock) -> bool
    decreases b,
{
    match b {
        RawBlock::BlockQuote(v) => forall|i: int|
            0 <= i < v@.len() ==> raw_displayable(#[trigger] v@[i]),
        RawBlock::List(data) => forall|i: int|
            0 <= i < data.items@.len() ==> raw_displayable(#[trigger] data.items@[i]),
        RawBlock::ListItem(v) => forall|i: int|
            0 <= i < v@.len() ==> raw_displayable(#[trigger] v@[i]),
        RawBlock::Paragraph(_) => true,
        _ => false,
    }
}

/// The text of a raw block: a nested block follows its container on a
/// new line, indented by two spaces; a list shows its items quoted; a
/// paragraph shows its lines, one per line.
pub open spec fn raw_text(b: RawBlock) -> Seq<char>
    decreases b, 0nat,
{
    match b {
        RawBlock::BlockQuote(v) => "[Block Quote]"@ + nested_text(v@),
        RawBlock::List(data) => "[Raw List (kind: "@ + list_kind_text(data.kind) + ", loose: "@
            + bool_text(data.loose) + ", items: "@ + debug_strings(raw_texts(data.items@))
            + ")]\n"@,
        RawBlock::ListItem(v) => "[List Item]"@ + nested_text(v@),
        RawBlock::Paragraph(lines) => join(strings_view(lines@), "\n"@) + "\n"@,
        _ => Seq::empty(),
    }
}

/// Each block on a new line after two spaces.
pub open spec fn nested_text(s: Seq<RawBlock>) -> Seq<char>
    decreases s, 1nat,
{
    if s.len() == 0 {
        Seq::empty()
    } else {
        nested_text(s.subrange(0, s.len() - 1)) + "\n  "@ + raw_text(s[s.len() - 1])
    }
}

/// The texts of the blocks.
pub open spec fn raw_texts(s: Seq<RawBlock>) -> Seq<Seq<char>>
    decreases s, 1nat,
{
    if s.len() == 0 {
        Seq::empty()
    } else {
        raw_texts(s.subrange(0, s.len() - 1)).push(raw_text(s[s.len() - 1]))
    }
}

impl RawBlock {
    /// The text that `{}` prints for the block.
    pub fn to_string(&self) -> (s: String)
        requires
            raw_displayable(*self),
        ensures
            s@ == raw_text(*self),
        decreases self,
    {
        match self {
            RawBlock::BlockQuote(blocks) => {
                let mut s = String::new();
                s.append("[Block Quote]");
                push_nested(&mut s, blocks);
                s
            },
            RawBlock::List(data) => {
                let items = raw_texts_of(&data.items);
                let mut s = String::new();
                s.append("[Raw List (kind: ");
                push_list_kind(&mut s, data.kind);
                s.append(", loose: ");
                push_bool(&mut s, data.loose);
                s.append(", items: ");
                push_debug_strings(&mut s, &items);
                s.append(")]\n");
                s
            },
            RawBlock::ListItem(items) => {
                let mut s = String::new();
                s.append("[List Item]");
                push_nested(&mut s, items);
                s
            },
            RawBlock::Paragraph(lines) => {
                let mut s = join_lines(lines);
                s.append("\n");
                s
            },
            _ => unreached(),
        }
    }
}

/// Appends each block on a new line after two spaces.
fn push_nested(out: &mut String, blocks: &Vec<RawBlock>)
    requires
        forall|i: int| 0 <= i < blocks@.len() ==> raw_displayable(#[trigger] blocks@[i]),
    ensures
        final(out)@ == old(out)@ + nested_text(blocks@),
    decreases blocks@, 0nat,
{
    let ghost start = out@;
    let mut i: usize = 0;
    assert(blocks@.subrange(0, 0) =~= Seq::<RawBlock>::empty());
    while i < blocks.len()
        invariant
            i <= blocks@.len(),
            forall|i: int| 0 <= i < blocks@.len() ==> raw_displayable(#[trigger] blocks@[i]),
            out@ == start + nested_text(blocks@.subrange(0, i as int)),
        decreases blocks@.len() - i,
    {
        let text = blocks[i].to_string();
        out.append("\n  ");
        out.append(text.as_str());
        proof {
            let next = blocks@.subrange(0, i + 1);
            assert(next.subrange(0, next.len() - 1) =~= blocks@.subrange(0, i as int));
            assert(out@ =~= start + nested_text(next));
        }
        i = i + 1;
    }
    assert(blocks@.subrange(0, blocks@.len() as int) =~= blocks@);
}

/// The texts of the blocks, in order.
fn raw_texts_of(blocks: &Vec<RawBlock>) -> (texts: Vec<String>)
    requires
        forall|i: int| 0 <= i < blocks@.len() ==> raw_displayable(#[trigger] blocks@[i]),
    ensures
        strings_view(texts@) == raw_texts(blocks@),
    decreases blocks@, 0nat,
{
    let mut texts: Vec<String> = Vec::new();
    let mut i: usize = 0;
    assert(blocks@.subrange(0, 0) =~= Seq::<RawBlock>::empty());
    assert(strings_view(texts@) =~= Seq::<Seq<char>>::empty());
    while i < blocks.len()
        invariant
            i <= blocks@.len(),
            forall|i: int| 0 <= i < blocks@.len() ==> raw_displayable(#[trigger] blocks@[i]),
            strings_view(texts@) == raw_texts(blocks@.subrange(0, i as int)),
        decreases blocks@.len() - i,
    {
        let ghost before = texts@;
        let text = blocks[i].to_string();
        texts.push(text);
        proof {
            let next = blocks@.subrange(0, i + 1);
            assert(next.subrange(0, next.len() - 1) =~= blocks@.subrange(0, i as int));
            assert(strings_view(texts@) =~= strings_view(before).push(text@));
        }
        i = i + 1;
    }
    assert(blocks@.subrange(0, blocks@.len() as int) =~= blocks@);
    texts
}

/// `lines.join("\n")`.
fn join_lines(lines: &Vec<String>) -> (s: String)
    ensures
        s@ == join(strings_view(lines@), "\n"@),
{
    let ghost views = strings_view(lines@);
    let mut s = String::new();
    let mut i: usize = 0;
    while i < lines.len()
        invariant
            i <= lines@.len(),
            views == strings_view(lines@),
            s@ == join(views.take(i as int), "\n"@),
        decreases lines@.len() - i,
    {
        if i > 0 {
            s.append("\n");
            s.append(lines[i].as_str());
            proof {
                let next = views.take(i + 1);
                assert(next.drop_last() =~= views.take(i as int));
            }
        } else {
            s.append(lines[i].as_str());
            assert(views.take(1) =~= seq![views[0]]);
            assert(s@ =~= lines@[0]@);
        }
        i = i + 1;
    }
    assert(views.take(lines@.len() as int) =~= views);
    s
}

/// The kinds of open block that can print themselves: the document, a
/// block quote, or a list whose items can.
pub open spec fn kind_displayable(k: KindModel) -> bool {
    match k {
        KindModel::Document => true,
        KindModel::BlockQuote => true,
        KindModel::List { items, .. } => forall|i: int|
            0 <= i < items.len() ==> raw_displayable(#[trigger] items[i]),
        _ => false,
    }
}

/// The text of a kind of open block, line break included.
pub open spec fn kind_text(k: KindModel) -> Seq<char> {
    match k {
        KindModel::Document => "[DOCUMENT]\n"@,
        KindModel::BlockQuote => "[BLOCK QUOTE]\n"@,
        KindModel::List { kind, loose, items } => "[LIST (kind: "@ + list_kind_text(kind)
            + ", loose: "@ + bool_text(loose) + ", items: "@ + debug_strings(raw_texts(items))
            + ")]\n"@,
        _ => Seq::empty(),
    }
}

/// The text of an open block: its kind, whether it is open, its parent
/// and its children, one to a line.
pub open spec fn open_block_text(n: NodeModel) -> Seq<char> {
    "OpenBlock {\n"@ + "   kind: "@ + kind_text(n.kind) + "\n"@ + "   is_open: "@ + bool_text(
        n.is_open,
    ) + "\n"@ + "   parent: "@ + debug_opt_index(n.parent) + "\n"@ + "   children: "@
        + debug_indices(n.children) + "\n"@ + "OpenBlock }\n"@
}

impl OpenBlockKind {
    /// The text that `{}` prints for the kind.
    pub fn to_string(&self) -> (s: String)
        requires
            kind_displayable(self@),
        ensures
            s@ == kind_text(self@),
    {
        let mut s = String::new();
        push_kind(&mut s, self);
        s
    }
}

fn push_kind(out: &mut String, kind: &OpenBlockKind)
    requires
        kind_displayable(kind@),
    ensures
        final(out)@ == old(out)@ + kind_text(kind@),
{
    match kind {
        OpenBlockKind::Document => out.append("[DOCUMENT]\n"),
        OpenBlockKind::BlockQuote => out.append("[BLOCK QUOTE]\n"),
        OpenBlockKind::List(data) => {
            assert forall|i: int| 0 <= i < data.items@.len() implies raw_displayable(
                #[trigger] data.items@[i],
            ) by {
                if let KindModel::List { items, .. } = kind@ {
                    assert(items[i] == data.items@[i]);
                }
            }
            let items = raw_texts_of(&data.items);
            let mut s = String::new();
            s.append("[LIST (kind: ");
            push_list_kind(&mut s, data.kind);
            s.append(", loose: ");
            push_bool(&mut s, data.loose);
            s.append(", items: ");
            push_debug_strings(&mut s, &items);
            s.append(")]\n");
            out.append(s.as_str());
        },
        _ => unreached(),
    }
}

impl OpenBlock {
    /// The text that `{}` prints for the block.
    pub fn to_string(&self) -> (s: String)
        requires
            kind_displayable(self.kind@),
        ensures
            s@ == open_block_text(self@),
    {
        let mut s = String::new();
        s.append("OpenBlock {\n");
        s.append("   kind: ");
        push_kind(&mut s, &self.kind);
        s.append("\n");
        s.append("   is_open: ");
        push_bool(&mut s, self.is_open);
        s.append("\n");
        s.append("   parent: ");
        push_debug_opt_index(&mut s, self.parent);
        s.append("\n");
        s.append("   children: ");
        push_debug_indices(&mut s, &self.children);
        s.append("\n");
        s.append("OpenBlock }\n");
        s
    }
}

} // verus!
