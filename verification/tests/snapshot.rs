use git_objects::digest::Fingerprint;
use git_objects::error::Error;
use git_objects::object::{Entry, Mode, Object};
use git_objects::reader::{blob_content, list_entries, list_tree, pretty_print};
use git_objects::snapshot::{is_control_dir, Directory, Node};
use git_objects::store::ObjectStore;

fn file(content: &str) -> Node {
    Node::File { content: content.as_bytes().to_vec(), executable: false }
}

fn program(content: &str) -> Node {
    Node::File { content: content.as_bytes().to_vec(), executable: true }
}

fn dir(children: Vec<(&str, Node)>) -> Directory {
    let mut dir = Directory::new();
    for (name, node) in children {
        assert!(dir.add(name.as_bytes().to_vec(), node));
    }
    dir
}

fn sample() -> Directory {
    dir(vec![
        ("b", Node::Directory(dir(vec![("c.txt", file("y"))]))),
        ("a.txt", file("x")),
    ])
}

fn names(store: &ObjectStore, fp: &Fingerprint) -> String {
    let object = store.read_object(fp).unwrap();
    String::from_utf8(list_tree(&object, false).unwrap()).unwrap()
}

#[test]
fn build_gives_the_known_root_fingerprint() {
    let mut store = ObjectStore::new();
    let root = sample().build(&mut store).unwrap();
    assert_eq!(root.to_hex(), "6dbae85b8b7c9a8428868dde702f13ceac3bc5b0");
}

#[test]
fn built_tree_lists_its_names_in_sorted_order() {
    let mut store = ObjectStore::new();
    let root = sample().build(&mut store).unwrap();
    assert_eq!(names(&store, &root), "a.txt\nb\n");
    let sub = match store.read_object(&root).unwrap() {
        Object::Tree { entries } => entries[1].target,
        other => panic!("not a tree: {other:?}"),
    };
    assert_eq!(sub.to_hex(), "4bf505ab2c56cbee06f5160e84869a5cdd12f97d");
    assert_eq!(names(&store, &sub), "c.txt\n");
}

#[test]
fn build_writes_children_before_their_parent() {
    let mut store = ObjectStore::new();
    let root = sample().build(&mut store).unwrap();
    let order: Vec<String> =
        (0..store.len()).map(|i| store.object_at(i).fingerprint.to_hex()).collect();
    assert_eq!(
        order,
        vec![
            "e25f1814e51579d5f55c0f1fe0135ddb28a47f4a",
            "4bf505ab2c56cbee06f5160e84869a5cdd12f97d",
            "c1b0730e0133447badcfd47fd144e254807b06e1",
            "6dbae85b8b7c9a8428868dde702f13ceac3bc5b0",
        ]
    );
    assert_eq!(order.last().unwrap(), &root.to_hex());
}

#[test]
fn every_target_of_a_built_tree_is_in_the_store() {
    let mut store = ObjectStore::new();
    sample().build(&mut store).unwrap();
    for i in 0..store.len() {
        let at = store.object_at(i).fingerprint;
        if let Object::Tree { entries } = store.read_object(&at).unwrap() {
            for entry in entries {
                assert!(store.contains(&entry.target));
            }
        }
    }
}

#[test]
fn listing_order_does_not_change_the_fingerprint() {
    let forward = dir(vec![
        ("a.txt", file("x")),
        ("b", Node::Directory(dir(vec![("c.txt", file("y"))]))),
        ("zeta", program("z")),
    ]);
    let backward = dir(vec![
        ("zeta", program("z")),
        ("b", Node::Directory(dir(vec![("c.txt", file("y"))]))),
        ("a.txt", file("x")),
    ]);
    let mut one = ObjectStore::new();
    let mut two = ObjectStore::new();
    assert_eq!(forward.build(&mut one), backward.build(&mut two));
    assert_eq!(one.len(), two.len());
}

#[test]
fn names_are_sorted_byte_by_byte() {
    let listing = dir(vec![
        ("b", file("1")),
        ("a.txt", file("2")),
        ("B", file("3")),
        ("a", file("4")),
        ("a-b", file("5")),
        ("ab", file("6")),
    ]);
    let mut store = ObjectStore::new();
    let root = listing.build(&mut store).unwrap();
    assert_eq!(names(&store, &root), "B\na\na-b\na.txt\nab\nb\n");
}

#[test]
fn equal_files_under_different_names_share_a_blob() {
    let listing = dir(vec![("one", file("same")), ("two", file("same")), ("three", program("same"))]);
    let mut store = ObjectStore::new();
    let root = listing.build(&mut store).unwrap();
    assert_eq!(store.len(), 2);
    match store.read_object(&root).unwrap() {
        Object::Tree { entries } => {
            assert_eq!(entries.len(), 3);
            assert_eq!(entries[0].target, entries[1].target);
            assert_eq!(entries[1].target, entries[2].target);
        },
        other => panic!("not a tree: {other:?}"),
    }
}

#[test]
fn modes_follow_the_kind_of_node() {
    let listing = dir(vec![
        ("run", program("x")),
        ("to", Node::Symlink { target: b"a.txt".to_vec() }),
    ]);
    let mut store = ObjectStore::new();
    let root = listing.build(&mut store).unwrap();
    assert_eq!(root.to_hex(), "4424bb0ef6b5e4439aea6f35500144ab4f14351b");
    match store.read_object(&root).unwrap() {
        Object::Tree { entries } => {
            assert_eq!(entries[0].mode, Mode::ExecutableFile);
            assert_eq!(entries[1].mode, Mode::Symlink);
            assert_eq!(
                store.read_object(&entries[1].target),
                Ok(Object::Blob { content: b"a.txt".to_vec() })
            );
        },
        other => panic!("not a tree: {other:?}"),
    }
}

#[test]
fn the_control_directory_is_left_out() {
    let with = dir(vec![
        (".git", Node::Directory(dir(vec![("HEAD", file("ref: refs/heads/main\n"))]))),
        ("a.txt", file("x")),
        ("b", Node::Directory(dir(vec![
            ("c.txt", file("y")),
            (".git", Node::Directory(dir(vec![("config", file("z"))]))),
        ]))),
    ]);
    let mut store = ObjectStore::new();
    let root = with.build(&mut store).unwrap();
    assert_eq!(root.to_hex(), "6dbae85b8b7c9a8428868dde702f13ceac3bc5b0");
    assert_eq!(store.len(), 4);
}

#[test]
fn a_file_named_like_the_control_directory_is_kept() {
    let listing = dir(vec![(".git", file("gitdir: elsewhere\n"))]);
    let mut store = ObjectStore::new();
    let root = listing.build(&mut store).unwrap();
    assert_eq!(names(&store, &root), ".git\n");
}

#[test]
fn control_directory_name() {
    assert!(is_control_dir(b".git"));
    assert!(!is_control_dir(b".gitignore"));
    assert!(!is_control_dir(b".gi"));
    assert!(!is_control_dir(b".GIT"));
    assert!(!is_control_dir(b""));
}

#[test]
fn an_empty_directory_is_the_empty_tree() {
    let mut store = ObjectStore::new();
    let root = Directory::new().build(&mut store).unwrap();
    assert_eq!(root.to_hex(), "4b825dc642cb6eb9a060e54bf8d69288fbee4904");
    assert_eq!(store.len(), 1);
}

#[test]
fn a_special_file_is_refused_and_nothing_is_written() {
    let listing = dir(vec![
        ("a.txt", file("x")),
        ("b", Node::Directory(dir(vec![("pipe", Node::Special)]))),
    ]);
    assert!(!listing.is_storable());
    let mut store = ObjectStore::new();
    store.store_blob(b"already there");
    assert_eq!(listing.build(&mut store), Err(Error::UnsupportedEntryKind));
    assert_eq!(store.len(), 1);
}

#[test]
fn a_special_file_in_the_control_directory_does_not_count() {
    let listing = dir(vec![
        (".git", Node::Directory(dir(vec![("socket", Node::Special)]))),
        ("a.txt", file("x")),
    ]);
    assert!(listing.is_storable());
    let mut store = ObjectStore::new();
    assert!(listing.build(&mut store).is_ok());
}

#[test]
fn build_twice_changes_nothing_the_second_time() {
    let mut store = ObjectStore::new();
    let first = sample().build(&mut store).unwrap();
    let size = store.len();
    let second = sample().build(&mut store).unwrap();
    assert_eq!(first, second);
    assert_eq!(store.len(), size);
}

#[test]
fn add_refuses_bad_and_taken_names() {
    let mut listing = Directory::new();
    assert!(listing.add(b"a".to_vec(), file("1")));
    assert!(!listing.add(b"a".to_vec(), file("2")));
    assert!(!listing.add(b"".to_vec(), file("3")));
    assert!(!listing.add(b"x/y".to_vec(), file("4")));
    assert!(!listing.add(b"x\0".to_vec(), file("5")));
    assert!(listing.add(b"b".to_vec(), file("6")));
    assert_eq!(listing.len(), 2);
    assert!(listing.contains_name(b"a"));
    assert!(!listing.contains_name(b"c"));
    assert_eq!(listing.child(1).name(), &b"b".to_vec());
    match listing.child(0).node() {
        Node::File { content, executable } => {
            assert_eq!(content, &b"1".to_vec());
            assert!(!executable);
        },
        other => panic!("not a file: {other:?}"),
    }
}

#[test]
fn listing_a_blob_is_a_kind_mismatch() {
    let mut store = ObjectStore::new();
    let mut content = b"100644 a.txt\0".to_vec();
    content.extend_from_slice(&[7; 20]);
    let fp = store.store_blob(&content);
    let object = store.read_object(&fp).unwrap();
    assert_eq!(list_tree(&object, false), Err(Error::KindMismatch));
    assert_eq!(list_tree(&object, true), Err(Error::KindMismatch));
    assert_eq!(blob_content(&object), Ok(content));
}

#[test]
fn blob_content_of_a_tree_is_a_kind_mismatch() {
    let tree = Object::Tree { entries: Vec::new() };
    assert_eq!(blob_content(&tree), Err(Error::KindMismatch));
    assert_eq!(list_tree(&tree, false), Ok(Vec::new()));
}

#[test]
fn verbose_listing_shows_mode_name_and_fingerprint() {
    let entries = vec![
        Entry {
            mode: Mode::RegularFile,
            name: b"a.txt".to_vec(),
            target: Fingerprint::from_hex("c1b0730e0133447badcfd47fd144e254807b06e1").unwrap(),
        },
        Entry {
            mode: Mode::Directory,
            name: b"b".to_vec(),
            target: Fingerprint::from_hex("4bf505ab2c56cbee06f5160e84869a5cdd12f97d").unwrap(),
        },
    ];
    let expected = "100644 a.txt c1b0730e0133447badcfd47fd144e254807b06e1\n\
                    40000 b 4bf505ab2c56cbee06f5160e84869a5cdd12f97d\n";
    assert_eq!(list_entries(&entries, true), expected.as_bytes().to_vec());
    assert_eq!(list_entries(&entries, false), b"a.txt\nb\n".to_vec());
    assert_eq!(pretty_print(&Object::Tree { entries }), expected.as_bytes().to_vec());
}

#[test]
fn pretty_print_shows_a_blob_as_it_is() {
    let content = b"no newline at the end".to_vec();
    assert_eq!(pretty_print(&Object::Blob { content: content.clone() }), content);
    assert_eq!(pretty_print(&Object::Blob { content: Vec::new() }), Vec::<u8>::new());
}
