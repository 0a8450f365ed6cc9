use devdocs::{
    add_html_ext, rank_results, score_entries, CachedDoc, Doc, DocIndex, DocStore, Entry,
    SearchResult, SearchableEntry,
};

fn entry(name: &str, path: &str, ty: &str) -> Entry {
    Entry { name: name.to_string(), path: path.to_string(), entry_type: ty.to_string() }
}

fn install(store: &mut DocStore, slug: &str, entries: Vec<Entry>) {
    let doc = Doc {
        name: slug.to_uppercase(),
        slug: slug.to_string(),
        doc_type: "lib".to_string(),
        links: None,
        mtime: 0,
        db_size: 0,
        attribution: None,
        alias: None,
    };
    store.insert_doc(slug, CachedDoc { doc, index: DocIndex { entries, types: vec![] }, cached_at: 0 });
}

fn result(score: u16, name: &str) -> SearchResult {
    SearchResult {
        entry: SearchableEntry {
            entry: entry(name, name, "t"),
            doc_slug: "s".to_string(),
            doc_name: "S".to_string(),
        },
        score,
    }
}

#[test]
fn widget_scenario() {
    let mut store = DocStore::new();
    install(&mut store, "examplelib", vec![entry("Widget", "api/widget", "class")]);
    let results = store.search("Widget", Some(1));
    assert_eq!(results.len(), 1);
    assert_eq!(results[0].entry.doc_slug, "examplelib");
    assert_eq!(results[0].entry.doc_name, "EXAMPLELIB");
    assert_eq!(results[0].entry.entry.path, "api/widget");
    assert!(results[0].score > 0);
}

#[test]
fn empty_store_searches_nothing() {
    let store = DocStore::new();
    assert!(store.search("anything", None).is_empty());
}

#[test]
fn results_sorted_and_limited() {
    let mut store = DocStore::new();
    let entries: Vec<Entry> = (0..80).map(|i| entry(&format!("item{i}"), "p", "fn")).collect();
    install(&mut store, "a", entries);
    install(&mut store, "b", vec![entry("map", "m", "fn"), entry("mapping", "mm", "class")]);
    let results = store.search("map", None);
    assert_eq!(results.len(), 50);
    assert!(results.windows(2).all(|w| w[0].score >= w[1].score));
    assert!(results[0].score > 0);
    assert_eq!(store.search("map", Some(3)).len(), 3);
    assert!(store.search("map", Some(0)).is_empty());
}

#[test]
fn min_score_filters_zero() {
    let mut store = DocStore::new();
    install(&mut store, "b", vec![entry("map", "m", "fn"), entry("zzz", "z", "class")]);
    assert_eq!(store.search("map", None).len(), 2);
    let strict = store.search_with_min_score("map", 10, 1);
    assert_eq!(strict.len(), 1);
    assert_eq!(strict[0].entry.entry.name, "map");
}

#[test]
fn scoring_matches_name_and_type() {
    let es = vec![
        SearchableEntry { entry: entry("foo", "f", "class"), doc_slug: "s".into(), doc_name: "S".into() },
        SearchableEntry { entry: entry("qqq", "q", "qqq"), doc_slug: "s".into(), doc_name: "S".into() },
    ];
    let scored = score_entries(&es, "class");
    assert_eq!(scored.len(), 2);
    assert!(scored[0].score > 0);
    assert_eq!(scored[1].score, 0);
}

#[test]
fn rank_keeps_best_stable() {
    let rs = vec![result(3, "a"), result(9, "b"), result(3, "c"), result(0, "d"), result(7, "e")];
    let names: Vec<String> =
        rank_results(rs, 4, 0).into_iter().map(|r| r.entry.entry.name).collect();
    assert_eq!(names, vec!["b", "e", "a", "c"]);
    let rs = vec![result(3, "a"), result(0, "b")];
    assert_eq!(rank_results(rs, 10, 1).len(), 1);
}

#[test]
fn html_extension_added() {
    assert_eq!(add_html_ext("dir/page".to_string()), "dir/page.html");
    assert_eq!(add_html_ext("dir/trait.Iterator".to_string()), "dir/trait.Iterator.html");
}

#[test]
fn snapshot_tags_entries_in_order() {
    let mut store = DocStore::new();
    install(&mut store, "a", vec![entry("x", "px", "fn"), entry("y", "py", "fn")]);
    install(&mut store, "b", vec![entry("z", "pz", "class")]);
    let snap = store.snapshot();
    let tags: Vec<(String, String, String)> = snap
        .into_iter()
        .map(|e| (e.doc_slug, e.doc_name, e.entry.name))
        .collect();
    assert_eq!(
        tags,
        vec![
            ("a".to_string(), "A".to_string(), "x".to_string()),
            ("a".to_string(), "A".to_string(), "y".to_string()),
            ("b".to_string(), "B".to_string(), "z".to_string()),
        ]
    );
}

#[test]
fn score_entry_with_own_matcher() {
    let mut m = devdocs::FuzzyMatcher::new();
    let hit = SearchableEntry { entry: entry("Widget", "w", "class"), doc_slug: "s".into(), doc_name: "S".into() };
    let miss = SearchableEntry { entry: entry("abc", "a", "fn"), doc_slug: "s".into(), doc_name: "S".into() };
    let widget = devdocs::fold_query("Widget");
    assert_eq!(widget, vec!['w', 'i', 'd', 'g', 'e', 't']);
    assert!(devdocs::score_entry(&mut m, &hit, &widget) > 0);
    assert_eq!(devdocs::score_entry(&mut m, &miss, &widget), 0);
    let scattered = devdocs::fold_query("Wdt");
    assert!(
        devdocs::score_entry(&mut m, &hit, &widget) > devdocs::score_entry(&mut m, &hit, &scattered)
    );
}

#[test]
fn uppercase_queries_match() {
    let mut store = DocStore::new();
    install(&mut store, "k", vec![entry("HashMap", "h", "struct"), entry("Vec", "v", "struct")]);
    let results = store.search("HASHMAP", None);
    assert_eq!(results[0].entry.entry.name, "HashMap");
    assert!(results[0].score > 0);
    assert_eq!(store.search("Wdt", None).len(), 2);
    assert_eq!(devdocs::fold_query("ÉCOLE"), vec!['e', 'c', 'o', 'l', 'e']);
}

#[test]
fn clock_reads_after_epoch() {
    assert!(devdocs::current_timestamp().unwrap() > 1_600_000_000);
}

#[test]
fn equal_scores_keep_snapshot_order() {
    let mut store = DocStore::new();
    install(&mut store, "zeta", vec![entry("Widget", "z1", "class")]);
    install(&mut store, "alpha", vec![entry("Widget", "a1", "class"), entry("Widget", "a2", "class")]);
    let results = store.search("widget", None);
    let order: Vec<String> = results.iter().map(|r| r.entry.entry.path.clone()).collect();
    assert_eq!(order, vec!["z1", "a1", "a2"]);
    assert_eq!(results[0].score, results[2].score);
}

#[test]
fn repeated_results_not_duplicated() {
    let rs = vec![result(5, "a"), result(3, "b"), result(5, "a")];
    let names: Vec<String> =
        rank_results(rs, 3, 0).into_iter().map(|r| r.entry.entry.name).collect();
    assert_eq!(names, vec!["a", "a", "b"]);
}
