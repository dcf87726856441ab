use jef::hash::{get_hash, stack_hash};
use jef::indexer::{
    browser_filter, check_index, index_directories, index_single_dir, index_size, search_index,
    search_refresh_needed, FileEntry, FileMap,
};

fn entry(path: &str, name: &str, depth: u16) -> FileEntry {
    FileEntry { path: path.to_string(), name: name.to_string(), depth }
}

/// The walk of the tree {./a.txt, ./b/c.txt, ./b/cd.txt}.
fn sample_tree() -> Vec<FileEntry> {
    vec![
        entry("./a.txt", "a.txt", 1),
        entry("./b", "b", 1),
        entry("./b/c.txt", "c.txt", 2),
        entry("./b/cd.txt", "cd.txt", 2),
    ]
}

#[test]
fn new_file_map_is_empty() {
    let fm = FileMap::new();
    assert_eq!(fm.map.len(), 0);
    assert_eq!(fm.stack, 0);
    assert_eq!(fm.done_indexing, false);
    assert_eq!(index_size(&fm), 0);
}

#[test]
fn single_insert_is_found_under_every_prefix() {
    let mut fm = FileMap::new();
    let path = "./b/c.txt".to_string();
    index_single_dir(&mut fm, &path, "c.txt", 2);
    assert_eq!(fm.stack, 2);

    // one bucket per prefix of the name: "c", "c.", "c.t", "c.tx", "c.txt"
    for prefix in ["c", "c.", "c.t", "c.tx", "c.txt"] {
        let (num_c, rolling) = get_hash(prefix);
        let key = stack_hash(2, num_c, rolling);
        let mut hits: Vec<String> = Vec::new();
        check_index(&fm, &mut hits, &key, prefix);
        assert_eq!(hits, vec!["./b/c.txt".to_string()]);
    }
}

#[test]
fn search_finds_prefix_matches() {
    let mut fm = FileMap::new();
    index_directories(&mut fm, &sample_tree());
    assert!(fm.done_indexing);
    assert_eq!(fm.stack, 2);

    // the matching files sit at the deepest indexed level; the fan-out
    // reaches it
    let results = search_index(&fm, "c").expect("query fits the hash bound");
    assert_eq!(results.len(), 2);
    assert!(results.contains(&"./b/c.txt".to_string()));
    assert!(results.contains(&"./b/cd.txt".to_string()));
}

#[test]
fn search_narrows_with_a_longer_prefix() {
    let mut fm = FileMap::new();
    index_directories(&mut fm, &sample_tree());

    let results = search_index(&fm, "cd").expect("query fits the hash bound");
    assert_eq!(results, vec!["./b/cd.txt".to_string()]);
}

#[test]
fn search_is_case_insensitive() {
    let mut fm = FileMap::new();
    let entries = vec![entry("./MainFile.RS", "MainFile.RS", 1)];
    index_directories(&mut fm, &entries);

    for query in ["mainfile.rs", "Main", "MAINFILE"] {
        let results = search_index(&fm, query).expect("query fits the hash bound");
        assert_eq!(results, vec!["./MainFile.RS".to_string()], "query {}", query);
    }
}

#[test]
fn hash_collision_is_filtered_out() {
    // force a foreign path into the bucket the query probes: the post-filter
    // on the trailing segment must exclude it
    let mut fm = FileMap::new();
    let (num_c, rolling) = get_hash("c");
    let key = stack_hash(1, num_c, rolling);
    fm.map.insert(key, vec!["./zebra.txt".to_string()]);
    fm.stack = 1;

    let mut hits: Vec<String> = Vec::new();
    check_index(&fm, &mut hits, &key, "c");
    assert!(hits.is_empty());

    let results = search_index(&fm, "c").expect("query fits the hash bound");
    assert!(results.is_empty());
}

#[test]
fn rebuild_clears_the_previous_generation() {
    let mut fm = FileMap::new();
    index_directories(&mut fm, &vec![entry("./old.txt", "old.txt", 1)]);
    let results = search_index(&fm, "old").expect("query fits the hash bound");
    assert_eq!(results, vec!["./old.txt".to_string()]);

    // a directory change rebuilds the index from the new walk alone
    index_directories(&mut fm, &vec![entry("./new.txt", "new.txt", 1)]);
    let results = search_index(&fm, "old").expect("query fits the hash bound");
    assert!(results.is_empty());
    let results = search_index(&fm, "new").expect("query fits the hash bound");
    assert_eq!(results, vec!["./new.txt".to_string()]);
}

#[test]
fn empty_query_probes_no_indexed_bucket() {
    // names are indexed under their prefixes of length 1 and more, so the
    // empty query's hash state names no bucket at all
    let mut fm = FileMap::new();
    index_directories(&mut fm, &sample_tree());
    let results = search_index(&fm, "").expect("the empty query fits");
    assert!(results.is_empty());
}

#[test]
fn browser_keeps_matching_children_in_order() {
    let children = vec![entry("./a.txt", "a.txt", 1), entry("./b", "b", 1)];
    assert_eq!(
        browser_filter(&children, ""),
        vec!["./a.txt".to_string(), "./b".to_string()]
    );
    assert_eq!(browser_filter(&children, "c"), Vec::<String>::new());
    assert_eq!(browser_filter(&children, "A"), vec!["./a.txt".to_string()]);
}

#[test]
fn refresh_is_needed_exactly_on_change() {
    let last = "abc".to_string();
    let same = "abc".to_string();
    let other = "abd".to_string();
    assert!(!search_refresh_needed(&last, 7, &same, 7));
    assert!(search_refresh_needed(&last, 7, &other, 7));
    assert!(search_refresh_needed(&last, 7, &same, 8));
}
