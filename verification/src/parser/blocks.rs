//! The block tree: the arena of open blocks that the parser mutates, and the
//! finished block types.
use vstd::prelude::*;

verus! {

/// The working structure the parser mutates: nodes are addressed by index,
/// and a node's parent always stands before it.
pub struct Arena {
    nodes: Vec<OpenBlock>,
}

/// What a node of the arena holds, as mathematical values.
pub struct NodeModel {
    pub kind: KindModel,
    pub parent: Option<nat>,
    pub children: Seq<nat>,
    pub is_open: bool,
}

/// The kind of a node, with its strings as sequences of characters.
pub enum KindModel {
    Document,
    BlockQuote,
    List { kind: ListKind, loose: bool, items: Seq<RawBlock> },
    ListItem,
    Paragraph(Seq<Seq<char>>),
    Heading { level: u8, raw: Seq<char> },
    ThematicBreak,
    CodeBlock { info: Option<Seq<char>>, fenced: bool, literal: Seq<char> },
    HtmlBlock(Seq<char>),
}

pub open spec fn strings_view(v: Seq<String>) -> Seq<Seq<char>> {
    v.map_values(|s: String| s@)
}

pub open spec fn opt_index_view(o: Option<usize>) -> Option<nat> {
    match o {
        Some(i) => Some(i as nat),
        None => None,
    }
}

pub open spec fn indices_view(v: Seq<usize>) -> Seq<nat> {
    v.map_values(|i: usize| i as nat)
}

pub open spec fn opt_string_view(o: Option<String>) -> Option<Seq<char>> {
    match o {
        Some(s) => Some(s@),
        None => None,
    }
}

impl View for OpenBlockKind {
    type V = KindModel;

    open spec fn view(&self) -> KindModel {
        match self {
            OpenBlockKind::Document => KindModel::Document,
            OpenBlockKind::BlockQuote => KindModel::BlockQuote,
            OpenBlockKind::List(data) => KindModel::List {
                kind: data.kind,
                loose: data.loose,
                items: data.items@,
            },
            OpenBlockKind::ListItem => KindModel::ListItem,
            OpenBlockKind::Paragraph(p) => KindModel::Paragraph(strings_view(p@)),
            OpenBlockKind::Heading { level, raw } => KindModel::Heading { level: *level, raw: raw@ },
            OpenBlockKind::ThematicBreak => KindModel::ThematicBreak,
            OpenBlockKind::CodeBlock { info, fenced, literal } => KindModel::CodeBlock {
                info: opt_string_view(*info),
                fenced: *fenced,
                literal: literal@,
            },
            OpenBlockKind::HtmlBlock(s) => KindModel::HtmlBlock(s@),
        }
    }
}

impl View for OpenBlock {
    type V = NodeModel;

    open spec fn view(&self) -> NodeModel {
        NodeModel {
            kind: self.kind@,
            parent: opt_index_view(self.parent),
            children: indices_view(self.children@),
            is_open: self.is_open,
        }
    }
}

impl View for Arena {
    type V = Seq<NodeModel>;

    closed spec fn view(&self) -> Seq<NodeModel> {
        self.nodes@.map_values(|b: OpenBlock| b@)
    }
}

/// The nodes after `node` is appended: its index is the old length, and
/// that index is appended to the children of its parent, if it has one.
pub open spec fn arena_push(nodes: Seq<NodeModel>, node: NodeModel) -> Seq<NodeModel> {
    let idx = nodes.len();
    let linked = match node.parent {
        Some(p) => nodes.update(p as int, NodeModel { children: nodes[p as int].children.push(idx), ..nodes[p as int] }),
        None => nodes,
    };
    linked.push(node)
}

/// The arena is a forest stored in order: each node's parent comes before
/// it, its children come after it, and parent links and child lists agree.
pub open spec fn arena_wf(nodes: Seq<NodeModel>) -> bool {
    &&& forall|i: int| #![trigger nodes[i].parent]
        0 <= i < nodes.len() ==> (nodes[i].parent matches Some(p) ==> p < i)
    &&& forall|i: int, k: int| #![trigger nodes[i].children[k]]
        0 <= i < nodes.len() && 0 <= k < nodes[i].children.len() ==> {
            let c = nodes[i].children[k];
            &&& i < c < nodes.len()
            &&& nodes[c as int].parent == Some(i as nat)
        }
    &&& forall|c: int| #![trigger nodes[c].parent]
        0 <= c < nodes.len() ==> (nodes[c].parent matches Some(p) ==> nodes[p as int].children.contains(c as nat))
}

impl Arena {
    pub fn new() -> (a: Self)
        ensures
            a@ == Seq::<NodeModel>::empty(),
    {
        let a = Self { nodes: Vec::new() };
        assert(a@ =~= Seq::<NodeModel>::empty());
        a
    }

    /// Inserts a node and returns its index; the index is also appended to
    /// the children of the node's parent.
    pub fn push(&mut self, block: OpenBlock) -> (idx: usize)
        requires
            block.parent matches Some(p) ==> p < old(self)@.len(),
        ensures
            idx == old(self)@.len(),
            final(self)@ == arena_push(old(self)@, block@),
    {
        let idx = self.nodes.len();
        let ghost old_nodes = self.nodes@;
        let ghost bv = block@;
        if let Some(parent_idx) = block.parent {
            let ghost before = self.nodes@[parent_idx as int].children@;
            self.nodes[parent_idx].children.push(idx);
            assert(indices_view(before.push(idx)) =~= indices_view(before).push(idx as nat));
        }
        self.nodes.push(block);
        proof {
            let m = old_nodes.map_values(|b: OpenBlock| b@);
            assert(self@ =~= arena_push(m, bv));
        }
        idx
    }

    /// An arena never holds more nodes than a `usize` counts.
    pub proof fn lemma_len_fits(&self)
        ensures
            self@.len() <= usize::MAX,
    {
        broadcast use vstd::std_specs::vec::axiom_spec_len;

        assert(self.nodes.len() == self.nodes@.len());
    }

    pub fn get(&self, idx: usize) -> (r: Option<&OpenBlock>)
        ensures
            r is Some <==> idx < self@.len(),
            r matches Some(b) ==> b@ == self@[idx as int],
    {
        if idx < self.nodes.len() {
            Some(&self.nodes[idx])
        } else {
            None
        }
    }

    pub fn get_mut(&mut self, idx: usize) -> (r: Option<&mut OpenBlock>)
        ensures
            r is Some <==> idx < old(self)@.len(),
            r is None ==> final(self)@ == old(self)@,
            r matches Some(b) ==> b@ == old(self)@[idx as int] && final(self)@ == old(self)@.update(
                idx as int,
                final(b)@,
            ),
    {
        if idx < self.nodes.len() {
            Some(&mut self.nodes[idx])
        } else {
            None
        }
    }
}

/// A node of the arena.
pub struct OpenBlock {
    pub kind: OpenBlockKind,
    pub parent: Option<usize>,
    /// Only meaningful for container kinds.
    pub children: Vec<usize>,
    pub is_open: bool,
}

impl OpenBlock {
    pub fn new(kind: OpenBlockKind, parent: Option<usize>) -> (b: Self)
        ensures
            b@ == (NodeModel {
                kind: kind@,
                parent: opt_index_view(parent),
                children: Seq::empty(),
                is_open: true,
            }),
    {
        let b = Self { kind, parent, children: Vec::new(), is_open: true };
        assert(indices_view(b.children@) =~= Seq::<nat>::empty());
        b
    }
}

pub enum OpenBlockKind {
    Document,
    BlockQuote,
    List(ListData<RawBlock>),
    ListItem,
    Paragraph(Vec<String>),
    Heading { level: u8, raw: String },
    ThematicBreak,
    CodeBlock { info: Option<String>, fenced: bool, literal: String },
    HtmlBlock(String),
}

/// A finished document.
pub struct Document<T> {
    pub children: Vec<T>,
}

impl<T> Document<T> {
    pub fn new() -> (d: Self)
        ensures
            d.children@.len() == 0,
    {
        Self { children: Vec::new() }
    }
}

#[derive(Clone, Copy, PartialEq, Eq, Structural)]
pub enum ListKind {
    Bullet,
    Ordered,
}

pub struct RawListData {
    pub kind: ListKind,
    pub loose: bool,
    pub items: Vec<RawBlock>,
}

pub enum RawBlock {
    BlockQuote(Vec<RawBlock>),
    List(RawListData),
    ListItem(Vec<RawBlock>),
    Paragraph(Vec<String>),
    Heading { level: u8, raw: String },
    ThematicBreak,
    CodeBlock { info: Option<String>, fenced: bool, literal: String },
    HtmlBlock(String),
}

pub enum Block {
    BlockQuote(Vec<Block>),
    List(ListData<Block>),
    ListItem(Vec<Block>),
    Paragraph(Vec<Inline>),
    Heading { level: u8, content: Vec<Inline> },
    ThematicBreak,
    CodeBlock { info: Option<String>, fenced: bool, literal: String },
    HtmlBlock(String),
}

pub struct ListData<T> {
    pub kind: ListKind,
    pub loose: bool,
    pub items: Vec<T>,
}

pub struct LinkContent {
    pub text: Option<String>,
    pub title: Option<String>,
    pub destination: Option<String>,
}

pub struct AutolinkContent {
    pub destination: String,
}

pub enum Inline {
    Codespan(String),
    Emph(String),
    Strong(String),
    Link(LinkContent),
    Image(LinkContent),
    Autolink(AutolinkContent),
    RawHTML(String),
    HardBreak,
    SoftBreak,
    Text(String),
}

} // verus!
