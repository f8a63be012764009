use yaromchecker::sources::{bulk_add_sources, DatCandidate, DatLoad};
use yaromchecker::sources::{
    check_new_dat_sources, is_dat_path, paths_equal, sanitize_folder_name, source_from_dat, BulkAdd,
    BulkAddResult, NewDatsError, Source,
};

#[test]
fn bulk_source_joins_parent_with_sanitized_dat_name() {
    let source = source_from_dat(
        "C:/DATs/example.dat".to_owned(),
        "C:/DATs",
        "C:/Collections",
        Some("Nintendo (NES): Good Set"),
    );
    assert_eq!(source.collection, "C:/Collections/Nintendo (NES)_ Good Set");
}

#[test]
fn folder_name_sanitization_only_replaces_windows_illegal_characters_and_trailing_marks() {
    assert_eq!(
        sanitize_folder_name("Keep (these) spaces <bad>:chars.  "),
        "Keep (these) spaces _bad__chars"
    );
}

#[test]
fn bulk_source_uses_file_stem_when_header_name_is_missing() {
    let source = source_from_dat(
        "C:/DATs/Arcade Set.xml".to_owned(),
        "C:/DATs",
        "C:/Collections",
        None,
    );
    assert_eq!(source.collection, "C:/Collections/Arcade Set");
}

#[test]
fn bulk_source_sanitizes_each_relative_directory_segment() {
    let source = source_from_dat(
        "root/Bad<dir/Other:dir/example.dat".to_owned(),
        "root",
        "collections",
        Some("Example"),
    );

    assert_eq!(source.collection, "collections/Bad_dir/Other_dir/Example");
}

#[test]
fn bulk_source_outside_the_folder_goes_directly_under_the_parent() {
    let source = source_from_dat(
        "elsewhere/nested/example.dat".to_owned(),
        "root",
        "collections",
        Some("Example"),
    );
    assert_eq!(source.collection, "collections/Example");
    assert_eq!(source.dat, "elsewhere/nested/example.dat");
}

#[test]
fn check_new_dats_rejects_empty_collection_parent() {
    let result = check_new_dat_sources(&["dat-root".to_owned()], "  ");

    assert!(result.is_err());
}

#[test]
fn check_new_dats_rejects_empty_or_blank_roots() {
    for roots in [vec![], vec![String::new(), "  ".to_owned()]] {
        let result = check_new_dat_sources(&roots, "collections");
        assert!(result.is_err());
    }
}

#[test]
fn check_new_dats_errors_name_what_is_missing() {
    assert_eq!(
        check_new_dat_sources(&["root".to_owned()], ""),
        Err(NewDatsError::MissingCollectionParent)
    );
    assert_eq!(
        check_new_dat_sources(&[" ".to_owned()], "collections"),
        Err(NewDatsError::MissingDatRoot)
    );
    assert_eq!(
        NewDatsError::MissingCollectionParent.message(),
        "Collections parent is required"
    );
    assert_eq!(
        NewDatsError::MissingDatRoot.message(),
        "At least one DAT root is required"
    );
}

#[test]
fn check_new_dats_keeps_nonblank_roots_in_order() {
    let roots = vec![
        "first".to_owned(),
        "   ".to_owned(),
        "second".to_owned(),
    ];
    assert_eq!(
        check_new_dat_sources(&roots, "collections"),
        Ok(vec!["first".to_owned(), "second".to_owned()])
    );
}

#[test]
fn paths_compare_by_components() {
    assert!(paths_equal("a/b/", "a//b"));
    assert!(paths_equal("a/./b", "a\\b"));
    assert!(!paths_equal("/a/b", "a/b"));
    assert!(!paths_equal("a/b", "a/c"));
}

#[test]
fn bulk_add_skips_a_known_dat_and_counts_it() {
    let mut bulk = BulkAdd::new(
        vec!["/dats/example.dat".to_owned()],
        vec!["old-collection".to_owned()],
    );
    assert!(!bulk.claim_dat("/dats//example.dat".to_owned()));
    assert!(bulk.claim_dat("/dats/other.dat".to_owned()));
    assert!(!bulk.claim_dat("/dats/other.dat".to_owned()));
    let result = bulk.finish();
    assert!(result.sources.is_empty());
    assert_eq!(result.skipped, 2);
    assert!(result.errors.is_empty());
}

#[test]
fn bulk_add_reports_a_derived_collection_collision() {
    let mut bulk = BulkAdd::new(vec![], vec![]);
    let first = Source {
        dat: "one.dat".to_owned(),
        collection: "collections/Same Name".to_owned(),
    };
    let second = Source {
        dat: "two.xml".to_owned(),
        collection: "collections/Same Name".to_owned(),
    };
    bulk.add_source(first.clone(), "collections/Same Name".to_owned(), "one.dat");
    bulk.add_source(second, "collections/Same Name".to_owned(), "two.xml");
    bulk.add_load_error("bad.dat", "invalid XML");
    let result = bulk.finish();
    assert_eq!(result.sources, vec![first]);
    assert_eq!(
        result.errors,
        vec![
            "two.xml: derived collection already exists: collections/Same Name".to_owned(),
            "bad.dat: invalid XML".to_owned(),
        ]
    );
}

#[test]
fn bulk_add_results_of_several_roots_add_up() {
    let mut total = BulkAddResult::new();
    let mut first = BulkAddResult::new();
    first.skipped = 1;
    first.sources.push(Source {
        dat: "a.dat".to_owned(),
        collection: "c/A".to_owned(),
    });
    let mut second = BulkAddResult::new();
    second.skipped = 2;
    second.errors.push("b.dat: broken".to_owned());
    total.absorb(first);
    total.absorb(second);
    total.root_error("missing-root: not found".to_owned());
    assert_eq!(total.skipped, 3);
    assert_eq!(total.sources.len(), 1);
    assert_eq!(
        total.errors,
        vec!["b.dat: broken".to_owned(), "missing-root: not found".to_owned()]
    );
}

#[test]
fn only_dat_and_xml_files_are_loaded_as_dats() {
    assert!(is_dat_path("Nintendo consoles/NES/example.DAT"));
    assert!(is_dat_path("two.xml"));
    assert!(!is_dat_path("ignored.txt"));
    assert!(!is_dat_path(".dat"));
    assert!(!is_dat_path("folder/"));
}

#[test]
fn bulk_add_of_a_folder_sorts_paths_and_feeds_each_step() {
    let loaded = |path: &str, name: &str, collection: &str| DatCandidate {
        path: path.to_owned(),
        comparable: path.to_owned(),
        load: DatLoad::Loaded {
            header_name: Some(name.to_owned()),
            collection: collection.to_owned(),
        },
    };
    let candidates = vec![
        loaded("dats/two.xml", "Same Name", "collections/Same Name"),
        loaded("dats/Nintendo/NES/example.DAT", "Example/System", "collections/Nintendo/NES/Example_System"),
        loaded("dats/one.dat", "Same Name", "collections/Same Name"),
        loaded("dats/existing.dat", "Existing", "collections/Existing"),
        DatCandidate {
            path: "dats/broken.dat".to_owned(),
            comparable: "dats/broken.dat".to_owned(),
            load: DatLoad::Failed("invalid XML".to_owned()),
        },
    ];
    let result = bulk_add_sources(
        "dats",
        "collections",
        vec!["dats/existing.dat".to_owned()],
        vec![],
        &candidates,
    );
    assert_eq!(result.skipped, 1);
    assert_eq!(
        result.sources.iter().map(|s| s.dat.as_str()).collect::<Vec<_>>(),
        vec!["dats/Nintendo/NES/example.DAT", "dats/one.dat"]
    );
    assert_eq!(
        result.sources[0].collection,
        "collections/Nintendo/NES/Example_System"
    );
    assert_eq!(
        result.errors,
        vec![
            "dats/broken.dat: invalid XML".to_owned(),
            "dats/two.xml: derived collection already exists: collections/Same Name".to_owned(),
        ]
    );
}
