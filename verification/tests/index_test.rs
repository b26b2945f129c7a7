use gix_trees::config::{Error, ParseNode};
use gix_trees::ext;
use gix_trees::index::{EntriesError, ExtensionsError, IndexEntry, State};
use gix_trees::oid::ObjectId;
use gix_trees::trace::Span;

fn node(name: &[u8], num_entries: u32, children: Vec<ext::Tree>) -> ext::Tree {
    ext::Tree {
        name: name.to_vec(),
        children,
        id: ObjectId::null(),
        num_entries,
    }
}

#[test]
fn size_of_tree() {
    assert_eq!(std::mem::size_of::<ext::Tree>(), 80);
}

#[test]
fn verify_accepts_consistent_tree() {
    let t = node(
        b"",
        10,
        vec![node(b"a", 4, vec![node(b"b", 2, vec![])]), node(b"c", 5, vec![])],
    );
    assert!(t.verify().is_ok());
}

#[test]
fn verify_rejects_named_root() {
    let t = node(b"oops", 0, vec![]);
    match t.verify() {
        Err(ext::VerifyError::RootWithName { name }) => assert_eq!(name, b"oops".to_vec()),
        other => panic!("expected a named-root error, got {:?}", other),
    }
}

#[test]
fn verify_rejects_overcounting_children() {
    // the two children declare 7 together, more than the root's 6
    let t = node(b"", 6, vec![node(b"a", 3, vec![]), node(b"b", 4, vec![])]);
    match t.verify() {
        Err(ext::VerifyError::EntriesCount { actual, expected }) => {
            assert_eq!(actual, 7);
            assert_eq!(expected, 6);
        },
        other => panic!("expected an entry-count error, got {:?}", other),
    }
}

#[test]
fn verify_rejects_deep_overcount() {
    let t = node(b"", 10, vec![node(b"a", 1, vec![node(b"b", 2, vec![])])]);
    match t.verify() {
        Err(ext::VerifyError::EntriesCount { actual, expected }) => {
            assert_eq!(actual, 2);
            assert_eq!(expected, 1);
        },
        other => panic!("expected an entry-count error, got {:?}", other),
    }
}

fn entry(path: &[u8], stage: u8) -> IndexEntry {
    IndexEntry { path: path.to_vec(), stage }
}

#[test]
fn verify_entries_accepts_sorted() {
    let s = State {
        entries: vec![entry(b"a", 0), entry(b"a", 1), entry(b"b", 0)],
        tree: None,
    };
    assert!(s.verify_entries().is_ok());
}

#[test]
fn verify_entries_rejects_out_of_order() {
    let s = State {
        entries: vec![entry(b"a", 0), entry(b"c", 0), entry(b"b", 2)],
        tree: None,
    };
    match s.verify_entries() {
        Err(EntriesError::OutOfOrder {
            current_index,
            current_path,
            current_stage,
            previous_path,
            previous_stage,
        }) => {
            assert_eq!(current_index, 2);
            assert_eq!(current_path, b"b".to_vec());
            assert_eq!(current_stage, 2);
            assert_eq!(previous_path, b"c".to_vec());
            assert_eq!(previous_stage, 0);
        },
        other => panic!("expected an out-of-order error, got {:?}", other),
    }
}

#[test]
fn verify_entries_rejects_equal_neighbours() {
    let s = State {
        entries: vec![entry(b"a", 1), entry(b"a", 1)],
        tree: None,
    };
    assert!(s.verify_entries().is_err());
}

#[test]
fn verify_extensions_without_tree() {
    let s = State { entries: vec![], tree: None };
    assert!(s.verify_extensions().is_ok());
}

#[test]
fn verify_extensions_passes_tree_failures_on() {
    let s = State {
        entries: vec![],
        tree: Some(node(b"bad", 0, vec![])),
    };
    match s.verify_extensions() {
        Err(ExtensionsError::Tree(ext::VerifyError::RootWithName { name })) => {
            assert_eq!(name, b"bad".to_vec())
        },
        other => panic!("expected the tree error, got {:?}", other),
    }
}

fn serialized(name: &[u8], entries: &[u8], subtrees: &[u8], id_byte: u8) -> Vec<u8> {
    let mut out = Vec::new();
    out.extend_from_slice(name);
    out.push(0);
    out.extend_from_slice(entries);
    out.push(b' ');
    out.extend_from_slice(subtrees);
    out.push(b'\n');
    out.extend_from_slice(&[id_byte; 20]);
    out
}

#[test]
fn decode_reads_a_nested_tree() {
    let mut data = serialized(b"", b"25", b"1", 0xaa);
    data.extend_from_slice(&serialized(b"sub", b"7", b"0", 0xbb));
    let t = ext::decode(&data, ext::HashKind::Sha1).expect("well-formed input decodes");
    assert_eq!(t.name, b"".to_vec());
    assert_eq!(t.num_entries, 25);
    assert_eq!(t.id.bytes, vec![0xaa; 20]);
    assert_eq!(t.children.len(), 1);
    assert_eq!(t.children[0].name, b"sub".to_vec());
    assert_eq!(t.children[0].num_entries, 7);
    assert_eq!(t.children[0].id.bytes, vec![0xbb; 20]);
    assert!(t.children[0].children.is_empty());
}

#[test]
fn decode_rejects_truncated_input() {
    let data = b"\x001 1\n".to_vec();
    assert!(ext::decode(&data, ext::HashKind::Sha1).is_none());
}

#[test]
fn decode_rejects_bad_counts() {
    let data = serialized(b"", b"x1", b"0", 0xaa);
    assert!(ext::decode(&data, ext::HashKind::Sha1).is_none());
}

#[test]
fn one_recursive_leaves_the_rest() {
    let mut data = serialized(b"", b"1", b"0", 0xaa);
    data.extend_from_slice(b"tail");
    let (t, rest) = ext::one_recursive(&data, 20).expect("the node itself is well-formed");
    assert_eq!(t.num_entries, 1);
    assert_eq!(rest, b"tail");
}

#[test]
fn parse_error_accessors() {
    let e = Error {
        line_number: 4,
        parsed_until: b"[core".to_vec(),
        last_attempted_parser: ParseNode::SectionHeader,
    };
    assert_eq!(e.line_number(), 5);
    assert_eq!(e.remaining_data(), b"[core");
    assert_eq!(e.last_attempted_parser, ParseNode::SectionHeader);
}

#[test]
fn span_is_cloneable() {
    let s = Span;
    let _t = s.clone();
}
