use yaromchecker::view::{
    build_source_tree, dat_member_rows, set_count_text, should_show_member_pane, source_title,
    SourceTreeNode,
};

#[test]
fn source_tree_supports_mixed_children_and_multiple_roots() {
    let paths = vec![
        "C:/DATs/Nintendo/NES.dat".to_owned(),
        "C:/DATs/Arcade.xml".to_owned(),
        "D:/TOSEC/Amiga.dat".to_owned(),
    ];

    let tree = build_source_tree(&paths);

    assert_eq!(tree.len(), 2);
    let SourceTreeNode::Folder {
        title, children, ..
    } = &tree[0]
    else {
        panic!("expected drive folder");
    };
    assert_eq!(title, "C:");
    let SourceTreeNode::Folder { children, .. } = &children[0] else {
        panic!("expected DATs folder");
    };
    assert!(matches!(
        children[0],
        SourceTreeNode::Dat { source_index: 1 }
    ));
    assert!(matches!(children[1], SourceTreeNode::Folder { .. }));
}

#[test]
fn source_tree_folder_paths_join_components() {
    let paths = vec!["C:/DATs/Nintendo/NES.dat".to_owned()];
    let tree = build_source_tree(&paths);
    let SourceTreeNode::Folder { path, children, .. } = &tree[0] else {
        panic!("expected drive folder");
    };
    assert_eq!(path, "C:");
    let SourceTreeNode::Folder { path, children, .. } = &children[0] else {
        panic!("expected DATs folder");
    };
    assert_eq!(path, "C:/DATs");
    let SourceTreeNode::Folder { path, title, children } = &children[0] else {
        panic!("expected Nintendo folder");
    };
    assert_eq!(path, "C:/DATs/Nintendo");
    assert_eq!(title, "Nintendo");
    assert_eq!(children, &vec![SourceTreeNode::Dat { source_index: 0 }]);
}

#[test]
fn source_tree_orders_folder_before_same_named_dat_and_keeps_index_order() {
    let paths = vec![
        "root/same".to_owned(),
        "root/same/inner.dat".to_owned(),
        "root/same".to_owned(),
        "".to_owned(),
        "/".to_owned(),
    ];
    let tree = build_source_tree(&paths);
    assert_eq!(tree.len(), 1);
    let SourceTreeNode::Folder { children, .. } = &tree[0] else {
        panic!("expected root folder");
    };
    assert_eq!(children.len(), 3);
    assert!(matches!(children[0], SourceTreeNode::Folder { .. }));
    assert_eq!(children[1], SourceTreeNode::Dat { source_index: 0 });
    assert_eq!(children[2], SourceTreeNode::Dat { source_index: 2 });
}

#[test]
fn source_tree_of_no_paths_is_empty() {
    assert!(build_source_tree(&[]).is_empty());
}

#[test]
fn hides_members_for_one_loose_file() {
    assert!(!should_show_member_pane(1, false));
}

#[test]
fn shows_members_for_archive_or_multi_file_set() {
    assert!(should_show_member_pane(1, true));
    assert!(should_show_member_pane(2, false));
}

#[test]
fn set_counts_are_blank_before_verify_and_include_zero_after_verify() {
    assert_eq!(set_count_text(false, 0), "");
    assert_eq!(set_count_text(false, 4), "");
    assert_eq!(set_count_text(true, 0), "0");
    assert_eq!(set_count_text(true, 4), "4");
}

#[test]
fn set_count_of_large_number() {
    assert_eq!(set_count_text(true, 1234567), "1234567");
}

#[test]
fn source_title_starts_at_zero_until_verified() {
    assert_eq!(
        source_title("Example DAT", Some(340), None),
        "Example DAT (0/340)"
    );
}

#[test]
fn source_title_shows_found_count() {
    assert_eq!(
        source_title("Example DAT", Some(340), Some(12)),
        "Example DAT (12/340)"
    );
}

#[test]
fn source_title_omits_counts_when_dat_did_not_load() {
    assert_eq!(source_title("missing.dat", None, None), "missing.dat");
}

#[test]
fn member_rows_include_dat_names_without_scan_hits() {
    let names = vec!["track-1.bin".to_owned(), "track-2.bin".to_owned()];
    let hits = vec![("track-1.bin".to_owned(), "disc.zip/track-1.bin".to_owned())];

    assert_eq!(
        dat_member_rows(&names, &hits),
        vec![
            ("track-1.bin".to_owned(), Some(0)),
            ("track-2.bin".to_owned(), None)
        ]
    );
}

#[test]
fn member_rows_take_the_first_hit_of_a_name() {
    let names = vec!["a.bin".to_owned()];
    let hits = vec![
        ("b.bin".to_owned(), "x/b.bin".to_owned()),
        ("a.bin".to_owned(), "x/a.bin".to_owned()),
        ("a.bin".to_owned(), "y/a.bin".to_owned()),
    ];
    assert_eq!(
        dat_member_rows(&names, &hits),
        vec![("a.bin".to_owned(), Some(1))]
    );
}
