use devdocs::{
    download_batches, find_available, CachedDoc, DevDocsError, Doc, DocIndex, DocStore, Entry,
    CACHE_DURATION_SECS, DOWNLOAD_BATCH_SIZE,
};

fn doc(slug: &str, name: &str) -> Doc {
    Doc {
        name: name.to_string(),
        slug: slug.to_string(),
        doc_type: "lib".to_string(),
        links: None,
        mtime: 0,
        db_size: 0,
        attribution: None,
        alias: None,
    }
}

fn entry(name: &str, path: &str, ty: &str) -> Entry {
    Entry { name: name.to_string(), path: path.to_string(), entry_type: ty.to_string() }
}

fn cached(slug: &str, entries: Vec<Entry>, at: u64) -> CachedDoc {
    CachedDoc { doc: doc(slug, slug), index: DocIndex { entries, types: vec![] }, cached_at: at }
}

#[test]
fn install_then_installed() {
    let mut store = DocStore::new();
    assert!(!store.is_doc_installed("rust"));
    assert!(store.insert_doc("rust", cached("rust", vec![], 10)));
    assert!(store.is_doc_installed("rust"));
    assert_eq!(store.list_installed_docs(), vec!["rust".to_string()]);
}

#[test]
fn install_twice_is_noop() {
    let mut store = DocStore::new();
    store.insert_doc("rust", cached("rust", vec![entry("a", "a", "t")], 10));
    assert!(!store.insert_doc("rust", cached("rust", vec![], 99)));
    let results = store.search("a", None);
    assert_eq!(results.len(), 1);
    assert_eq!(store.list_installed_docs().len(), 1);
}

#[test]
fn remove_hides_slug_from_search() {
    let mut store = DocStore::new();
    store.insert_doc("one", cached("one", vec![entry("Widget", "w", "class")], 1));
    store.insert_doc("two", cached("two", vec![entry("Widget", "w", "class")], 1));
    assert_eq!(store.remove_doc("one"), Ok(()));
    assert!(!store.is_doc_installed("one"));
    assert!(store.is_doc_installed("two"));
    let results = store.search("Widget", None);
    assert_eq!(results.len(), 1);
    assert!(results.iter().all(|r| r.entry.doc_slug != "one"));
}

#[test]
fn remove_missing_is_not_found() {
    let mut store = DocStore::new();
    assert_eq!(store.remove_doc("nope"), Err(DevDocsError::DocNotFound("nope".to_string())));
}

#[test]
fn get_doc_info_found_and_missing() {
    let mut store = DocStore::new();
    store.insert_doc("rust", cached("rust", vec![], 1));
    assert_eq!(store.get_doc_info("rust").unwrap().slug, "rust");
    assert_eq!(store.get_doc_info("go"), Err(DevDocsError::DocNotFound("go".to_string())));
}

#[test]
fn update_record_replaces_installed_only() {
    let mut store = DocStore::new();
    assert_eq!(
        store.update_record("rust", cached("rust", vec![], 1)),
        Err(DevDocsError::DocNotFound("rust".to_string()))
    );
    assert!(!store.is_doc_installed("rust"));
    store.insert_doc("rust", cached("rust", vec![], 1));
    assert_eq!(store.update_record("rust", cached("rust", vec![entry("x", "x", "t")], 2)), Ok(()));
    assert_eq!(store.search("x", None).len(), 1);
}

#[test]
fn catalog_served_within_ttl() {
    let mut store = DocStore::new();
    assert!(store.cached_catalog(0).is_none());
    store.set_catalog(vec![doc("rust", "Rust")], 1000);
    assert_eq!(store.cached_catalog(1000).unwrap(), vec![doc("rust", "Rust")]);
    assert!(store.cached_catalog(1000 + CACHE_DURATION_SECS - 1).is_some());
    assert!(store.cached_catalog(1000 + CACHE_DURATION_SECS).is_none());
    assert!(store.cached_catalog(500).is_some());
    assert_eq!(CACHE_DURATION_SECS, 7 * 24 * 60 * 60);
}

#[test]
fn load_skips_corrupt_records() {
    let mut store = DocStore::new();
    store.load_records(vec![
        ("a".to_string(), Some(cached("a", vec![], 1))),
        ("b".to_string(), None),
        ("c".to_string(), Some(cached("c", vec![], 1))),
    ]);
    let mut installed = store.list_installed_docs();
    installed.sort();
    assert_eq!(installed, vec!["a".to_string(), "c".to_string()]);
    assert!(!store.is_doc_installed("b"));
}

#[test]
fn find_available_first_match() {
    let catalog = vec![doc("go", "Go"), doc("rust", "Rust"), doc("rust", "Other")];
    assert_eq!(find_available(&catalog, "rust").unwrap().name, "Rust");
    assert_eq!(
        find_available(&catalog, "zig"),
        Err(DevDocsError::DocNotFound("zig".to_string()))
    );
}

#[test]
fn pending_skips_installed() {
    let mut store = DocStore::new();
    store.insert_doc("go", cached("go", vec![], 1));
    let catalog = vec![doc("go", "Go"), doc("rust", "Rust"), doc("zig", "Zig")];
    assert_eq!(store.docs_to_download(&catalog), vec!["rust".to_string(), "zig".to_string()]);
}

#[test]
fn install_all_batches_of_five() {
    let slugs: Vec<String> = (0..12).map(|i| format!("s{i}")).collect();
    let batches = download_batches(&slugs, DOWNLOAD_BATCH_SIZE);
    assert_eq!(DOWNLOAD_BATCH_SIZE, 5);
    assert_eq!(batches.iter().map(|b| b.len()).collect::<Vec<_>>(), vec![5, 5, 2]);
    assert!(batches.iter().all(|b| b.len() <= 5));
    assert_eq!(batches.concat(), slugs);
    assert!(download_batches(&vec![], 5).is_empty());
}

#[test]
fn load_keeps_decoded_records_first_wins() {
    let mut store = DocStore::new();
    store.insert_doc("old", cached("old", vec![], 1));
    let mut first = cached("a", vec![entry("one", "1", "t")], 5);
    first.doc.name = "First".to_string();
    let mut second = cached("a", vec![], 6);
    second.doc.name = "Second".to_string();
    store.load_records(vec![
        ("a".to_string(), None),
        ("a".to_string(), Some(first)),
        ("a".to_string(), Some(second)),
    ]);
    assert_eq!(store.get_doc_info("a").unwrap().name, "First");
    assert_eq!(store.get_doc_info("old").unwrap().slug, "old");
    assert_eq!(store.search("one", None).len(), 1);
}

#[test]
fn update_leaves_other_records() {
    let mut store = DocStore::new();
    store.insert_doc("a", cached("a", vec![entry("x", "x", "t")], 1));
    store.insert_doc("b", cached("b", vec![entry("y", "y", "t")], 1));
    let mut fresh = cached("a", vec![], 2);
    fresh.doc.name = "New".to_string();
    assert_eq!(store.update_record("a", fresh), Ok(()));
    assert_eq!(store.get_doc_info("a").unwrap().name, "New");
    assert_eq!(store.get_doc_info("b").unwrap().name, "b");
    assert_eq!(store.search("y", None)[0].entry.doc_slug, "b");
}

#[test]
fn batches_full_but_last() {
    let slugs: Vec<String> = (0..10).map(|i| format!("s{i}")).collect();
    let sizes: Vec<usize> = download_batches(&slugs, 5).iter().map(|b| b.len()).collect();
    assert_eq!(sizes, vec![5, 5]);
    let sizes: Vec<usize> = download_batches(&slugs, 3).iter().map(|b| b.len()).collect();
    assert_eq!(sizes, vec![3, 3, 3, 1]);
}
