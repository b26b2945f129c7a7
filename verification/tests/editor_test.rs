use gix_trees::editor::Editor;
use gix_trees::oid::ObjectId;
use gix_trees::tree::{EntryKind, Tree};
use gix_trees::writer::MemoryWriter;

fn hex(id: &ObjectId) -> String {
    let mut s = String::new();
    for b in &id.bytes {
        s.push_str(&format!("{:02x}", b));
    }
    s
}

fn hex_oid(s: &str) -> ObjectId {
    let chars: Vec<u8> = s.bytes().collect();
    assert_eq!(chars.len(), 40);
    let mut bytes = Vec::new();
    for pair in chars.chunks(2) {
        let hi = (pair[0] as char).to_digit(16).unwrap() as u8;
        let lo = (pair[1] as char).to_digit(16).unwrap() as u8;
        bytes.push(hi * 16 + lo);
    }
    ObjectId { bytes }
}

fn empty_tree() -> ObjectId {
    hex_oid("4b825dc642cb6eb9a060e54bf8d69288fbee4904")
}

fn any_blob() -> ObjectId {
    hex_oid("bbbbbbbbbbbbbbbbbbbbbbbbbbbbbbbbbbbbbbbb")
}

fn paths(parts: &[&str]) -> Vec<Vec<u8>> {
    parts.iter().map(|p| p.as_bytes().to_vec()).collect()
}

fn octal(kind: EntryKind) -> &'static str {
    match kind {
        EntryKind::Tree => "40000",
        EntryKind::Blob => "100644",
        EntryKind::BlobExecutable => "100755",
        EntryKind::Link => "120000",
        EntryKind::Commit => "160000",
    }
}

fn render_children(tree: &Tree, storage: &MemoryWriter, prefix: &str, out: &mut String) {
    let n = tree.entries.len();
    for (i, e) in tree.entries.iter().enumerate() {
        let last = i + 1 == n;
        let connector = if last { "└── " } else { "├── " };
        let name = String::from_utf8(e.filename.clone()).unwrap();
        if matches!(e.mode, EntryKind::Tree) {
            let sub = storage.find_tree(&e.oid).expect("subtree is stored");
            let label = if sub.entries.is_empty() {
                format!("{} (empty)", name)
            } else {
                name
            };
            out.push_str(prefix);
            out.push_str(connector);
            out.push_str(&label);
            out.push('\n');
            let deeper = format!("{}{}", prefix, if last { "    " } else { "│   " });
            render_children(sub, storage, &deeper, out);
        } else {
            out.push_str(prefix);
            out.push_str(connector);
            out.push_str(&format!("{} {}.{}", name, hex(&e.oid), octal(e.mode)));
            out.push('\n');
        }
    }
}

fn display_tree(id: &ObjectId, storage: &MemoryWriter) -> String {
    let mut out = hex(id);
    out.push('\n');
    let tree = storage.find_tree(id).expect("root is stored");
    render_children(tree, storage, "", &mut out);
    out
}

#[test]
fn from_empty_add() {
    let mut edit = Editor::new(Tree::new());
    let mut write = MemoryWriter::new();

    let actual = edit.write(&mut write).expect("no changes are fine");
    assert_eq!(actual, empty_tree(), "empty stays empty");
    assert_eq!(write.len(), 1, "the empty tree was written");
    assert_eq!(
        display_tree(&actual, &write),
        "4b825dc642cb6eb9a060e54bf8d69288fbee4904\n"
    );

    edit.upsert(&paths(&["hi"]), EntryKind::Blob, &ObjectId::null())
        .unwrap();
    let actual = edit.write(&mut write).expect("effectively no changes are fine");
    assert_eq!(
        actual,
        empty_tree(),
        "null-ids are dropped automatically, they act as placeholders"
    );
    assert_eq!(write.len(), 1, "the empty tree was written, nothing new");

    edit.upsert(&paths(&["a", "b", "c"]), EntryKind::Blob, &ObjectId::null())
        .unwrap();
    edit.upsert(&paths(&["a", "b", "d", "e"]), EntryKind::Blob, &ObjectId::null())
        .unwrap();
    let actual = edit.write(&mut write).expect("effectively no changes are fine");
    assert_eq!(
        actual,
        empty_tree(),
        "null-ids are dropped automatically, recursively, they act as placeholders"
    );
    assert_eq!(write.len(), 1, "still nothing but empty trees");

    edit.upsert(&paths(&["a", "b"]), EntryKind::Tree, &empty_tree())
        .unwrap();
    edit.upsert(&paths(&["a", "b", "c"]), EntryKind::Tree, &empty_tree())
        .unwrap();
    edit.upsert(&paths(&["a", "b", "d", "e"]), EntryKind::Tree, &empty_tree())
        .unwrap();
    let actual = edit.write(&mut write).expect("it's OK to write empty trees");
    assert_eq!(
        display_tree(&actual, &write),
        "bf91a94ae659ac8a9da70d26acf42df1a36adb6e
└── a
    └── b
        ├── c (empty)
        └── d
            └── e (empty)
",
        "one can write through trees, and empty trees are also fine"
    );

    edit.upsert(&paths(&["a"]), EntryKind::Blob, &any_blob()).unwrap();
    edit.upsert(&paths(&["a", "b"]), EntryKind::Blob, &any_blob()).unwrap();
    edit.upsert(&paths(&["a", "b", "c"]), EntryKind::Blob, &any_blob())
        .unwrap();
    edit.upsert(&paths(&["b", "d"]), EntryKind::Blob, &any_blob()).unwrap();

    let actual = edit.write(&mut write).expect("writing made-up blobs is fine");
    assert_eq!(
        display_tree(&actual, &write),
        "bf18e0ec42a5a96e16b312e04a7a67a9710a54a3
├── a
│   └── b
│       └── c bbbbbbbbbbbbbbbbbbbbbbbbbbbbbbbbbbbbbbbb.100644
└── b
    └── d bbbbbbbbbbbbbbbbbbbbbbbbbbbbbbbbbbbbbbbb.100644
",
        "it's possible to write through previously added blobs"
    );

    edit.upsert(&paths(&["a", "b", "c"]), EntryKind::Blob, &any_blob())
        .unwrap();
    edit.upsert(&paths(&["a"]), EntryKind::Blob, &any_blob()).unwrap();

    let actual = edit.write(&mut write).unwrap();
    assert_eq!(
        display_tree(&actual, &write),
        "835a710bc8a649148c9094f6cad1f309ce33a4fa
├── a bbbbbbbbbbbbbbbbbbbbbbbbbbbbbbbbbbbbbbbb.100644
└── b
    └── d bbbbbbbbbbbbbbbbbbbbbbbbbbbbbbbbbbbbbbbb.100644
",
        "note that `b/d` is from the previouly written root-tree, which may be confusing"
    );

    edit.set_root(Tree::new());
    edit.upsert(&paths(&["a", "b", "c"]), EntryKind::Blob, &any_blob())
        .unwrap();
    edit.upsert(&paths(&["a"]), EntryKind::Blob, &any_blob()).unwrap();
    let actual = edit.write(&mut write).unwrap();
    assert_eq!(
        display_tree(&actual, &write),
        "077c77c8214a54bdaf8cafcc36c2f7f0e61a2e43
└── a bbbbbbbbbbbbbbbbbbbbbbbbbbbbbbbbbbbbbbbb.100644
",
        "now the root is back to a well-known state, so edits are more intuitive"
    );
}

#[test]
fn upsert_same_path_twice_keeps_last() {
    let mut edit = Editor::new(Tree::new());
    let mut write = MemoryWriter::new();
    let other = hex_oid("cccccccccccccccccccccccccccccccccccccccc");
    edit.upsert(&paths(&["p"]), EntryKind::Blob, &any_blob()).unwrap();
    edit.upsert(&paths(&["p"]), EntryKind::BlobExecutable, &other).unwrap();
    let actual = edit.write(&mut write).unwrap();
    let shown = display_tree(&actual, &write);
    assert_eq!(
        shown,
        format!(
            "{}\n└── p cccccccccccccccccccccccccccccccccccccccc.100755\n",
            hex(&{
                let mut e2 = Editor::new(Tree::new());
                let mut w2 = MemoryWriter::new();
                e2.upsert(&paths(&["p"]), EntryKind::BlobExecutable, &other).unwrap();
                e2.write(&mut w2).unwrap()
            })
        ),
        "only the last kind and id persist"
    );
}

#[test]
fn blob_then_tree_path_replaces_blob() {
    let mut edit = Editor::new(Tree::new());
    let mut write = MemoryWriter::new();
    edit.upsert(&paths(&["x"]), EntryKind::Blob, &any_blob()).unwrap();
    edit.upsert(&paths(&["x", "y"]), EntryKind::Blob, &any_blob()).unwrap();
    let actual = edit.write(&mut write).unwrap();
    let shown = display_tree(&actual, &write);
    assert!(
        shown.contains("└── x\n") && shown.contains("y bbbb"),
        "the blob became a tree chain: {shown}"
    );
}

#[test]
fn tree_then_blob_at_prefix_wins() {
    let mut edit = Editor::new(Tree::new());
    let mut write = MemoryWriter::new();
    edit.upsert(&paths(&["x", "y"]), EntryKind::Blob, &any_blob()).unwrap();
    edit.upsert(&paths(&["x"]), EntryKind::Blob, &any_blob()).unwrap();
    let actual = edit.write(&mut write).unwrap();
    assert_eq!(
        display_tree(&actual, &write),
        format!(
            "{}\n└── x bbbbbbbbbbbbbbbbbbbbbbbbbbbbbbbbbbbbbbbb.100644\n",
            hex(&actual)
        ),
        "the deeper entries are abandoned; the blob prevails"
    );
}

#[test]
fn written_root_reads_back_identically() {
    let mut edit = Editor::new(Tree::new());
    let mut write = MemoryWriter::new();
    edit.upsert(&paths(&["k"]), EntryKind::Blob, &any_blob()).unwrap();
    let id = edit.write(&mut write).unwrap();
    {
        let stored = write.find_tree(&id).expect("root stored under its id");
        assert_eq!(stored.entries.len(), 1);
        assert_eq!(stored.entries[0].filename, b"k".to_vec());
        assert_eq!(stored.entries[0].oid, any_blob());
    }
    let again = edit.write(&mut write).unwrap();
    assert_eq!(id, again, "an unchanged tree writes to the same identifier");
}

#[test]
fn entries_of_written_trees_ascend() {
    let mut edit = Editor::new(Tree::new());
    let mut write = MemoryWriter::new();
    // `b.c` sorts between the blob key `b` and the tree key `b/`
    edit.upsert(&paths(&["b.c"]), EntryKind::Blob, &any_blob()).unwrap();
    edit.upsert(&paths(&["b", "d"]), EntryKind::Blob, &any_blob()).unwrap();
    edit.upsert(&paths(&["a"]), EntryKind::Blob, &any_blob()).unwrap();
    let id = edit.write(&mut write).unwrap();
    let stored = write.find_tree(&id).expect("root stored");
    let names: Vec<&[u8]> = stored.entries.iter().map(|e| e.filename.as_slice()).collect();
    assert_eq!(names, vec![b"a".as_slice(), b"b.c".as_slice(), b"b".as_slice()]);
}
