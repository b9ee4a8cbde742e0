use dirmap::aggregate::calc_size;
use dirmap::api::unmap;
use dirmap::builder::build_tree;
use dirmap::builder::Entry;
use dirmap::classify::recognize_file_type;
use dirmap::error::Error;
use dirmap::record::Dir;
use dirmap::record::File;
use dirmap::snapshot::Snapshot;

fn synthetic_entries() -> Vec<Entry> {
    // root -> { a, b }; a holds one file of 100 bytes; b holds one file of
    // 50 bytes and a child c holding one file of 25 bytes.
    vec![
        Entry::Dir { path: "root".to_string(), parent: None },
        Entry::Dir { path: "root/a".to_string(), parent: Some("root".to_string()) },
        Entry::Dir { path: "root/b".to_string(), parent: Some("root".to_string()) },
        Entry::Dir { path: "root/b/c".to_string(), parent: Some("root/b".to_string()) },
        Entry::File {
            parent: Some("root/a".to_string()),
            name: "one.png".to_string(),
            size: Some(100),
        },
        Entry::File {
            parent: Some("root/b".to_string()),
            name: "two.txt".to_string(),
            size: Some(50),
        },
        Entry::File {
            parent: Some("root/b/c".to_string()),
            name: "three.JPG".to_string(),
            size: Some(25),
        },
    ]
}

fn size_of(sizes: &Vec<(String, u64)>, key: &str) -> u64 {
    for (k, v) in sizes {
        if k == key {
            return *v;
        }
    }
    panic!("missing key {key}");
}

#[test]
fn classify_jpeg_upper_case() {
    assert_eq!(recognize_file_type("photo.JPG"), 1);
}

#[test]
fn classify_svg() {
    assert_eq!(recognize_file_type("icon.svg"), 3);
}

#[test]
fn classify_double_extension_is_other() {
    assert_eq!(recognize_file_type("archive.tar.gz"), 5);
}

#[test]
fn classify_no_extension_is_other() {
    assert_eq!(recognize_file_type("README"), 5);
}

#[test]
fn classify_table() {
    assert_eq!(recognize_file_type("a.png"), 0);
    assert_eq!(recognize_file_type("a.jpg"), 1);
    assert_eq!(recognize_file_type("a.jpeg"), 1);
    assert_eq!(recognize_file_type("a.JPEG"), 1);
    assert_eq!(recognize_file_type("a.webp"), 2);
    assert_eq!(recognize_file_type("a.gif"), 4);
    assert_eq!(recognize_file_type(".gif"), 5);
}

#[test]
fn dir_add_and_remove_file() {
    let mut d = Dir::default();
    d.add_file(File::new("a.png".to_string(), 10));
    d.add_file(File::new("b.txt".to_string(), 5));
    assert_eq!(d.size(), 15);
    assert_eq!(d.files().len(), 2);
    d.remove_file(vec!["a.png".to_string()]);
    assert_eq!(d.size(), 5);
    assert_eq!(d.files().len(), 1);
    assert_eq!(d.files()[0].name(), "b.txt");
}

#[test]
fn dir_add_and_remove_child() {
    let mut d = Dir::default();
    d.add_child("x".to_string());
    d.add_child("y".to_string());
    d.remove_child(vec!["x".to_string()]);
    assert_eq!(d.children().len(), 1);
    assert_eq!(d.children()[0], "y");
}

#[test]
fn build_registers_files_and_links() {
    let tree = build_tree(&synthetic_entries()).expect("build");
    let b = tree.get(&"root/b".to_string()).expect("root/b");
    assert_eq!(b.size(), 50);
    assert_eq!(b.files().len(), 1);
    assert_eq!(b.files()[0].name(), "two.txt");
    assert_eq!(b.children(), &vec!["root/b/c".to_string()]);
    let c = tree.get(&"root/b/c".to_string()).expect("root/b/c");
    assert_eq!(c.files()[0].typ(), 1);
    assert_eq!(c.files()[0].size(), 25);
}

#[test]
fn aggregation_totals() {
    let tree = build_tree(&synthetic_entries()).expect("build");
    let sizes = calc_size(&tree, "root").expect("aggregate");
    assert_eq!(size_of(&sizes, "root"), 175);
    assert_eq!(size_of(&sizes, "root/a"), 100);
    assert_eq!(size_of(&sizes, "root/b"), 75);
    assert_eq!(size_of(&sizes, "root/b/c"), 25);
}

#[test]
fn empty_directory_aggregates_to_zero() {
    let entries = vec![Entry::Dir { path: "lone".to_string(), parent: None }];
    let tree = build_tree(&entries).expect("build");
    let sizes = calc_size(&tree, "lone").expect("aggregate");
    assert_eq!(size_of(&sizes, "lone"), 0);
}

#[test]
fn missing_parent_is_detected() {
    let entries = vec![
        Entry::Dir { path: "root".to_string(), parent: None },
        Entry::File {
            parent: Some("root/ghost".to_string()),
            name: "lost.txt".to_string(),
            size: Some(1),
        },
    ];
    match build_tree(&entries) {
        Err(Error::MissingParent(p)) => assert_eq!(p, "root/ghost"),
        other => panic!("expected a missing-parent error, got {other:?}"),
    }
}

#[test]
fn metadata_failure_is_fatal() {
    let entries = vec![
        Entry::Dir { path: "root".to_string(), parent: None },
        Entry::File {
            parent: Some("root".to_string()),
            name: "broken.bin".to_string(),
            size: None,
        },
    ];
    match build_tree(&entries) {
        Err(Error::Metadata(n)) => assert_eq!(n, "broken.bin"),
        other => panic!("expected a metadata error, got {other:?}"),
    }
}

#[test]
fn missing_start_is_detected() {
    let tree = build_tree(&synthetic_entries()).expect("build");
    match calc_size(&tree, "elsewhere") {
        Err(Error::MissingDir(p)) => assert_eq!(p, "elsewhere"),
        other => panic!("expected a missing-directory error, got {other:?}"),
    }
}

#[test]
fn cycle_is_detected() {
    let entries = vec![
        Entry::Dir { path: "a".to_string(), parent: Some("b".to_string()) },
        Entry::Dir { path: "b".to_string(), parent: Some("a".to_string()) },
    ];
    let tree = build_tree(&entries).expect("build");
    match calc_size(&tree, "a") {
        Err(Error::Cycle(_)) => {},
        other => panic!("expected a cycle error, got {other:?}"),
    }
}

fn assert_same_dir(x: &Dir, y: &Dir) {
    assert_eq!(x.size(), y.size());
    assert_eq!(x.files().len(), y.files().len());
    for (fx, fy) in x.files().iter().zip(y.files().iter()) {
        assert_eq!(fx.typ(), fy.typ());
        assert_eq!(fx.name(), fy.name());
        assert_eq!(fx.size(), fy.size());
    }
    assert_eq!(x.children(), y.children());
}

fn assert_same_snapshot(x: &Snapshot, y: &Snapshot) {
    assert_eq!(x.len(), y.len());
    for i in 0..x.len() {
        let (key, dx) = x.entry_at(i);
        let dy = y.get(key).expect("key present in both");
        assert_same_dir(dx, dy);
    }
}

#[test]
fn round_trip_reconstructs_the_snapshot() {
    let entries = synthetic_entries();
    let bytes = dirmap::api::map(&entries, "root").expect("map");
    let snap = unmap(&bytes).expect("unmap");
    // the reconstructed mapping carries the aggregated sizes
    assert_eq!(snap.get(&"root".to_string()).unwrap().size(), 175);
    assert_eq!(snap.get(&"root/a".to_string()).unwrap().size(), 100);
    assert_eq!(snap.get(&"root/b".to_string()).unwrap().size(), 75);
    assert_eq!(snap.get(&"root/b/c".to_string()).unwrap().size(), 25);
    // and exactly the walked keys, files and children
    let a = snap.get(&"root/a".to_string()).unwrap();
    assert_eq!(a.files().len(), 1);
    assert_eq!(a.files()[0].name(), "one.png");
    assert_eq!(a.files()[0].typ(), 0);
    assert_eq!(a.files()[0].size(), 100);
    assert_eq!(snap.len(), 4);
    // a second round trip yields the same snapshot again
    let bytes2 = dirmap::api::map(&entries, "root").expect("map again");
    let snap2 = unmap(&bytes2).expect("unmap again");
    assert_same_snapshot(&snap, &snap2);
}

#[test]
fn unmap_rejects_garbage() {
    match unmap(&[1, 2, 3, 4, 5]) {
        Err(Error::Corrupt) => {},
        other => panic!("expected corrupt-bytes error, got {other:?}"),
    }
}

#[test]
fn unmap_rejects_truncated_frame() {
    let bytes = dirmap::api::map(&synthetic_entries(), "root").expect("map");
    let cut = &bytes[..bytes.len() - 1];
    assert!(unmap(cut).is_err());
}

#[test]
fn order_independence_of_the_walk() {
    let forward = synthetic_entries();
    let mut backward = synthetic_entries();
    backward.reverse();
    // phase ordering is internal: any entry order gives the same totals
    // and the same per-directory sets of files and children
    let t1 = build_tree(&forward).expect("build forward");
    let t2 = build_tree(&backward).expect("build backward");
    assert_eq!(t1.len(), t2.len());
    for i in 0..t1.len() {
        let (key, d1) = t1.entry_at(i);
        let d2 = t2.get(key).expect("same keys");
        assert_eq!(d1.size(), d2.size());
        let mut f1: Vec<(String, u64, u8)> =
            d1.files().iter().map(|f| (f.name().clone(), f.size(), f.typ())).collect();
        let mut f2: Vec<(String, u64, u8)> =
            d2.files().iter().map(|f| (f.name().clone(), f.size(), f.typ())).collect();
        f1.sort();
        f2.sort();
        assert_eq!(f1, f2);
        let mut c1 = d1.children().clone();
        let mut c2 = d2.children().clone();
        c1.sort();
        c2.sort();
        assert_eq!(c1, c2);
    }
    let s1 = calc_size(&t1, "root").expect("sizes forward");
    let s2 = calc_size(&t2, "root").expect("sizes backward");
    for key in ["root", "root/a", "root/b", "root/b/c"] {
        assert_eq!(size_of(&s1, key), size_of(&s2, key));
    }
}
