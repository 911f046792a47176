use lib::parser::blocks::{
    Arena, Document, ListData, ListKind, OpenBlock, OpenBlockKind, RawBlock, RawListData,
};

#[test]
fn arena_push_returns_index_and_links_parent() {
    let mut a = Arena::new();
    assert!(a.get(0).is_none());
    let root = a.push(OpenBlock::new(OpenBlockKind::Document, None));
    assert_eq!(root, 0);
    let child = a.push(OpenBlock::new(OpenBlockKind::BlockQuote, Some(root)));
    assert_eq!(child, 1);
    assert_eq!(a.get(0).unwrap().children, vec![1]);
    assert_eq!(a.get(1).unwrap().parent, Some(0));
    assert!(a.get(1).unwrap().is_open);
    assert!(a.get(2).is_none());
}

#[test]
fn arena_get_mut_changes_node() {
    let mut a = Arena::new();
    a.push(OpenBlock::new(OpenBlockKind::Document, None));
    a.get_mut(0).unwrap().is_open = false;
    assert!(!a.get(0).unwrap().is_open);
    assert!(a.get_mut(3).is_none());
}

#[test]
fn document_starts_empty() {
    let d: Document<RawBlock> = Document::new();
    assert!(d.children.is_empty());
}

#[test]
fn list_kind_text() {
    assert_eq!(ListKind::Bullet.to_string(), "[BULLET]\n");
    assert_eq!(ListKind::Ordered.to_string(), "[ORDERED]\n");
}

#[test]
fn open_block_kind_text() {
    assert_eq!(OpenBlockKind::Document.to_string(), "[DOCUMENT]\n");
    assert_eq!(OpenBlockKind::BlockQuote.to_string(), "[BLOCK QUOTE]\n");
    let list = OpenBlockKind::List(ListData {
        kind: ListKind::Bullet,
        loose: false,
        items: vec![RawBlock::Paragraph(vec!["x".to_string()])],
    });
    assert_eq!(
        list.to_string(),
        "[LIST (kind: [BULLET]\n, loose: false, items: [\"x\\n\"])]\n"
    );
}

#[test]
fn raw_list_text() {
    let b = RawBlock::List(RawListData {
        kind: ListKind::Ordered,
        loose: true,
        items: vec![RawBlock::Paragraph(vec!["a".to_string()])],
    });
    assert_eq!(
        b.to_string(),
        "[Raw List (kind: [ORDERED]\n, loose: true, items: [\"a\\n\"])]\n"
    );
}

#[test]
fn open_block_text() {
    let mut b = OpenBlock::new(OpenBlockKind::BlockQuote, Some(2));
    b.children = vec![3, 14];
    assert_eq!(
        b.to_string(),
        "OpenBlock {\n   kind: [BLOCK QUOTE]\n\n   is_open: true\n   parent: Some(2)\n   children: [3, 14]\nOpenBlock }\n"
    );
}
