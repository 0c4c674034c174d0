use prolly::common::TreeConfig;
use prolly::diff::{diff_trees, DiffEntry};
use prolly::error::ProllyError;
use prolly::store::ChunkStore;
use prolly::store::InMemoryStore;
use prolly::tree::prolly_tree::ProllyTree;
use prolly::tree::types::{HierarchyItem, HierarchyScanArgs, ScanArgs};

fn k(s: &str) -> Vec<u8> {
    s.as_bytes().to_vec()
}

fn new_tree() -> ProllyTree<InMemoryStore> {
    ProllyTree::new(InMemoryStore::new(), TreeConfig::default())
}

fn small_tree() -> ProllyTree<InMemoryStore> {
    let config = TreeConfig {
        target_fanout: 4,
        min_fanout: 2,
        cdc_min_size: 4096,
        cdc_avg_size: 16384,
        cdc_max_size: 65536,
        max_inline_value_size: 1024,
    };
    ProllyTree::new(InMemoryStore::new(), config)
}

fn twenty_items(tree: &mut ProllyTree<InMemoryStore>) {
    for i in 0..20 {
        let key = k(&format!("key_{:02}", i));
        let val = k(&format!("val_{}", i));
        tree.insert(key, val).unwrap();
    }
}

fn keys_of(items: &[(Vec<u8>, Vec<u8>)]) -> Vec<String> {
    items.iter().map(|(key, _)| String::from_utf8(key.clone()).unwrap()).collect()
}

#[test]
fn basic_insert_get_delete() {
    let mut tree = new_tree();
    tree.insert(k("hello"), k("world")).unwrap();
    tree.insert(k("prolly"), k("gunna")).unwrap();
    assert_eq!(tree.get(&k("hello")).unwrap(), Some(k("world")));
    assert!(tree.get_root_hash().is_some());
    assert_eq!(tree.delete(&k("prolly")).unwrap(), true);
    assert_eq!(tree.get(&k("prolly")).unwrap(), None);
    assert_eq!(tree.delete(&k("prolly")).unwrap(), false);
}

#[test]
fn empty_tree_reads() {
    let tree = new_tree();
    assert_eq!(tree.get_root_hash(), None);
    assert_eq!(tree.get(&k("a")).unwrap(), None);
    assert_eq!(tree.count_all_items().unwrap(), 0);
}

#[test]
fn sync_operations() {
    let mut tree = new_tree();
    tree.insert_sync(k("sync"), k("works!")).unwrap();
    assert_eq!(tree.get_sync(&k("sync")).unwrap(), Some(k("works!")));
    assert_eq!(tree.delete_sync(&k("sync")).unwrap(), true);
    assert_eq!(tree.get_sync(&k("sync")).unwrap(), None);
}

#[test]
fn insert_overwrites_value() {
    let mut tree = new_tree();
    tree.insert(k("a"), k("1")).unwrap();
    tree.insert(k("a"), k("2")).unwrap();
    assert_eq!(tree.get(&k("a")).unwrap(), Some(k("2")));
    assert_eq!(tree.count_all_items().unwrap(), 1);
}

#[test]
fn insert_batch_items() {
    let mut tree = new_tree();
    let batch = vec![(k("batch1"), k("val1")), (k("batch2"), k("val2"))];
    tree.insert_batch(batch).unwrap();
    assert_eq!(tree.get(&k("batch1")).unwrap(), Some(k("val1")));
    assert_eq!(tree.get(&k("batch2")).unwrap(), Some(k("val2")));
    assert_eq!(tree.count_all_items().unwrap(), 2);
}

#[test]
fn many_items_split_and_merge() {
    let mut tree = small_tree();
    for i in 0..200u32 {
        tree.insert(k(&format!("k{:04}", i)), k(&format!("v{}", i))).unwrap();
    }
    assert_eq!(tree.count_all_items().unwrap(), 200);
    for i in 0..200u32 {
        assert_eq!(tree.get(&k(&format!("k{:04}", i))).unwrap(), Some(k(&format!("v{}", i))));
    }
    for i in (0..200u32).step_by(2) {
        assert!(tree.delete(&k(&format!("k{:04}", i))).unwrap());
    }
    assert_eq!(tree.count_all_items().unwrap(), 100);
    for i in 0..200u32 {
        let got = tree.get(&k(&format!("k{:04}", i))).unwrap();
        if i % 2 == 0 {
            assert_eq!(got, None);
        } else {
            assert_eq!(got, Some(k(&format!("v{}", i))));
        }
    }
    for i in (1..200u32).step_by(2) {
        assert!(tree.delete(&k(&format!("k{:04}", i))).unwrap());
    }
    assert_eq!(tree.count_all_items().unwrap(), 0);
    assert_eq!(tree.get_root_hash(), None);
}

#[test]
fn large_value_is_chunked_and_read_back() {
    let mut tree = new_tree();
    let big: Vec<u8> = (0..50_000u32).map(|i| (i % 251) as u8).collect();
    tree.insert(k("big"), big.clone()).unwrap();
    assert_eq!(tree.get(&k("big")).unwrap(), Some(big));
}

#[test]
fn checkout_previous_version() {
    let mut tree = new_tree();
    tree.insert(k("a"), k("1")).unwrap();
    let hash_v1 = tree.get_root_hash();
    tree.insert(k("b"), k("2")).unwrap();
    assert_eq!(tree.get(&k("b")).unwrap(), Some(k("2")));
    assert_eq!(tree.checkout(hash_v1).unwrap(), true);
    assert_eq!(tree.get(&k("b")).unwrap(), None);
    assert_eq!(tree.get(&k("a")).unwrap(), Some(k("1")));
    assert_eq!(tree.checkout(hash_v1).unwrap(), false);
    assert_eq!(tree.checkout(None).unwrap(), true);
    assert_eq!(tree.get(&k("a")).unwrap(), None);
}

#[test]
fn checkout_missing_root_is_chunk_not_found() {
    let mut tree = new_tree();
    let r = tree.checkout(Some([7u8; 32]));
    assert!(matches!(r, Err(ProllyError::ChunkNotFound(_))));
}

#[test]
fn from_root_hash_missing_is_error() {
    let r = ProllyTree::from_root_hash([9u8; 32], InMemoryStore::new(), TreeConfig::default());
    assert!(matches!(r, Err(ProllyError::ChunkNotFound(_))));
}

#[test]
fn diff_between_versions() {
    let mut tree = new_tree();
    tree.insert(k("a"), k("1")).unwrap();
    tree.insert(k("b"), k("2")).unwrap();
    let hash_v1 = tree.get_root_hash();
    tree.delete(&k("a")).unwrap();
    tree.insert(k("b"), k("2_mod")).unwrap();
    tree.insert(k("c"), k("3")).unwrap();
    let hash_v2 = tree.get_root_hash();
    let diffs = diff_trees(hash_v1, hash_v2, &tree.store, &tree.config).unwrap();
    assert_eq!(diffs.len(), 3);
    assert_eq!(diffs[0].key, k("a"));
    assert_eq!(diffs[0].left_value, Some(k("1")));
    assert_eq!(diffs[0].right_value, None);
    assert_eq!(diffs[1].key, k("b"));
    assert_eq!(diffs[1].left_value, Some(k("2")));
    assert_eq!(diffs[1].right_value, Some(k("2_mod")));
    assert_eq!(diffs[2].key, k("c"));
    assert_eq!(diffs[2].left_value, None);
    assert_eq!(diffs[2].right_value, Some(k("3")));
}

#[test]
fn diff_of_same_root_is_empty() {
    let mut tree = new_tree();
    tree.insert(k("a"), k("1")).unwrap();
    let h = tree.get_root_hash();
    assert!(tree.diff(h).unwrap().is_empty());
}

#[test]
fn diff_against_empty_tree() {
    let mut tree = new_tree();
    tree.insert(k("x"), k("1")).unwrap();
    tree.insert(k("y"), k("2")).unwrap();
    let diffs = tree.diff(None).unwrap();
    assert_eq!(diffs.len(), 2);
    assert_eq!(diffs[0].key, k("x"));
    assert_eq!(diffs[0].left_value, Some(k("1")));
    assert_eq!(diffs[0].right_value, None);
}

#[test]
fn diff_entry_constructors() {
    let a = DiffEntry::addition(k("k"), k("v"));
    assert_eq!(a.left_value, None);
    assert_eq!(a.right_value, Some(k("v")));
    let d = DiffEntry::deletion(k("k"), k("v"));
    assert_eq!(d.left_value, Some(k("v")));
    assert_eq!(d.right_value, None);
    let m = DiffEntry::modification(k("k"), k("v1"), k("v2"));
    assert_eq!(m.left_value, Some(k("v1")));
    assert_eq!(m.right_value, Some(k("v2")));
}

#[test]
fn scan_first_page_with_limit() {
    let mut tree = new_tree();
    twenty_items(&mut tree);
    let mut args = ScanArgs::default();
    args.limit = Some(5);
    let page = tree.scan(args).unwrap();
    assert_eq!(keys_of(&page.items), vec!["key_00", "key_01", "key_02", "key_03", "key_04"]);
    assert!(page.has_next_page);
    assert_eq!(page.next_page_cursor, Some(k("key_05")));
    assert!(!page.has_previous_page);
    assert_eq!(page.previous_page_cursor, Some(k("key_00")));
    assert_eq!(page.items[0].1, k("val_0"));
}

#[test]
fn scan_bounded_range() {
    let mut tree = new_tree();
    twenty_items(&mut tree);
    let mut args = ScanArgs::default();
    args.start_bound = Some(k("key_05"));
    args.end_bound = Some(k("key_10"));
    let page = tree.scan(args).unwrap();
    assert_eq!(keys_of(&page.items), vec!["key_05", "key_06", "key_07", "key_08", "key_09"]);
    assert!(!page.has_next_page);
    assert!(page.has_previous_page);
}

#[test]
fn scan_reverse_last_three() {
    let mut tree = new_tree();
    twenty_items(&mut tree);
    let mut args = ScanArgs::default();
    args.reverse = true;
    args.limit = Some(3);
    let page = tree.scan(args).unwrap();
    assert_eq!(keys_of(&page.items), vec!["key_19", "key_18", "key_17"]);
    assert!(page.has_next_page);
    assert_eq!(page.next_page_cursor, Some(k("key_16")));
}

#[test]
fn scan_offset_and_exclusive_bounds() {
    let mut tree = new_tree();
    twenty_items(&mut tree);
    let mut args = ScanArgs::default();
    args.start_bound = Some(k("key_03"));
    args.start_inclusive = false;
    args.end_bound = Some(k("key_08"));
    args.end_inclusive = true;
    let page = tree.scan(args).unwrap();
    assert_eq!(keys_of(&page.items), vec!["key_04", "key_05", "key_06", "key_07", "key_08"]);

    let mut args = ScanArgs::default();
    args.offset = 17;
    let page = tree.scan(args).unwrap();
    assert_eq!(keys_of(&page.items), vec!["key_17", "key_18", "key_19"]);
    assert!(page.has_previous_page);

    let mut args = ScanArgs::default();
    args.offset = 25;
    let page = tree.scan(args).unwrap();
    assert!(page.items.is_empty());
    assert_eq!(page.previous_page_cursor, None);
}

#[test]
fn scan_reverse_with_bounds() {
    let mut tree = new_tree();
    twenty_items(&mut tree);
    let mut args = ScanArgs::default();
    args.reverse = true;
    args.start_bound = Some(k("key_12"));
    args.end_bound = Some(k("key_08"));
    args.end_inclusive = true;
    let page = tree.scan(args).unwrap();
    assert_eq!(keys_of(&page.items), vec!["key_12", "key_11", "key_10", "key_09", "key_08"]);

    let mut args = ScanArgs::default();
    args.reverse = true;
    args.start_bound = Some(k("key_12"));
    args.start_inclusive = false;
    args.limit = Some(2);
    let page = tree.scan(args).unwrap();
    assert_eq!(keys_of(&page.items), vec!["key_11", "key_10"]);
}

#[test]
fn scan_limit_zero_differs_between_scan_and_scan_sync() {
    let mut tree = new_tree();
    twenty_items(&mut tree);
    let mut args = ScanArgs::default();
    args.limit = Some(0);
    let page = tree.scan(args.clone()).unwrap();
    assert!(page.items.is_empty());
    assert!(!page.has_next_page);
    assert_eq!(page.previous_page_cursor, None);
    let page = tree.scan_sync(args).unwrap();
    assert!(page.items.is_empty());
    assert!(page.has_next_page);
    assert_eq!(page.next_page_cursor, Some(k("key_00")));
    assert_eq!(page.previous_page_cursor, Some(k("key_00")));
}

#[test]
fn scan_sync_pages() {
    let mut tree = new_tree();
    twenty_items(&mut tree);
    let mut args = ScanArgs::default();
    args.limit = Some(5);
    args.start_bound = Some(k("key_05"));
    let page = tree.scan_sync(args).unwrap();
    assert_eq!(keys_of(&page.items), vec!["key_05", "key_06", "key_07", "key_08", "key_09"]);
    assert!(page.has_next_page);
    assert_eq!(page.next_page_cursor, Some(k("key_10")));
    let page = tree.scan_sync(ScanArgs::default()).unwrap();
    assert_eq!(page.items.len(), 20);
    assert!(!page.has_next_page);
}

#[test]
fn scan_on_many_leaves() {
    let mut tree = small_tree();
    for i in 0..100u32 {
        tree.insert(k(&format!("k{:03}", i)), k(&format!("v{}", i))).unwrap();
    }
    let page = tree.scan(ScanArgs::default()).unwrap();
    assert_eq!(page.items.len(), 100);
    for (i, (key, val)) in page.items.iter().enumerate() {
        assert_eq!(key, &k(&format!("k{:03}", i)));
        assert_eq!(val, &k(&format!("v{}", i)));
    }
    let mut args = ScanArgs::default();
    args.reverse = true;
    args.offset = 10;
    args.limit = Some(3);
    let page = tree.scan(args).unwrap();
    assert_eq!(keys_of(&page.items), vec!["k089", "k088", "k087"]);
    let mut args = ScanArgs::default();
    args.start_bound = Some(k("k050"));
    args.offset = 7;
    args.limit = Some(2);
    let page = tree.scan(args).unwrap();
    assert_eq!(keys_of(&page.items), vec!["k057", "k058"]);
}

#[test]
fn cursor_walks_all_entries() {
    let mut tree = small_tree();
    for i in 0..50u32 {
        tree.insert(k(&format!("c{:02}", i)), k(&format!("{}", i))).unwrap();
    }
    let mut cursor = tree.cursor_start().unwrap();
    let mut seen = Vec::new();
    while let Some((key, _)) = cursor.next().unwrap() {
        seen.push(key);
    }
    assert_eq!(seen.len(), 50);
    assert_eq!(seen[0], k("c00"));
    assert_eq!(seen[49], k("c49"));
    assert_eq!(cursor.next().unwrap(), None);
}

#[test]
fn seek_positions_at_first_key_not_below() {
    let mut tree = small_tree();
    for i in (0..40u32).step_by(2) {
        tree.insert(k(&format!("s{:02}", i)), k("v")).unwrap();
    }
    let mut cursor = tree.seek(&k("s07")).unwrap();
    assert_eq!(cursor.next().unwrap().map(|(key, _)| key), Some(k("s08")));
    let mut cursor = tree.seek(&k("s10")).unwrap();
    assert_eq!(cursor.next().unwrap().map(|(key, _)| key), Some(k("s10")));
    let mut cursor = tree.seek(&k("zz")).unwrap();
    assert_eq!(cursor.next().unwrap(), None);
}

#[test]
fn gc_collects_unreferenced_chunks() {
    let mut tree = new_tree();
    tree.insert(k("a"), k("1")).unwrap();
    let hash_v1 = tree.get_root_hash().unwrap();
    tree.insert(k("b"), k("2")).unwrap();
    tree.insert(k("c"), k("3")).unwrap();
    let hash_v3 = tree.get_root_hash().unwrap();
    let before = tree.store.get_all_chunks_for_test().len();
    let collected = tree.gc(&[hash_v1, hash_v3]).unwrap();
    assert_eq!(collected, 1);
    assert_eq!(tree.store.get_all_chunks_for_test().len(), before - 1);
    assert_eq!(tree.get(&k("c")).unwrap(), Some(k("3")));
    tree.checkout(Some(hash_v1)).unwrap();
    assert_eq!(tree.get(&k("a")).unwrap(), Some(k("1")));
}

#[test]
fn store_put_get_roundtrip() {
    let mut store = InMemoryStore::new();
    let h = store.put(k("chunk bytes")).unwrap();
    assert_eq!(h, prolly::chunk::hash_bytes(b"chunk bytes"));
    assert_eq!(store.get(&h).unwrap(), Some(k("chunk bytes")));
    assert_eq!(store.contains_chunk(&h).unwrap(), true);
    store.delete_batch(&[h]).unwrap();
    assert_eq!(store.get(&h).unwrap(), None);
}

#[test]
fn hierarchy_scan_of_empty_tree() {
    let tree = new_tree();
    let page = tree.hierarchy_scan(HierarchyScanArgs::default()).unwrap();
    assert!(page.items.is_empty());
    assert!(!page.has_next_page);
    assert_eq!(page.next_page_cursor_token, None);
}

#[test]
fn hierarchy_scan_single_leaf() {
    let mut tree = new_tree();
    tree.insert(k("a"), k("1")).unwrap();
    tree.insert(k("b"), k("22")).unwrap();
    let root = tree.get_root_hash().unwrap();
    let page = tree.hierarchy_scan(HierarchyScanArgs::default()).unwrap();
    assert_eq!(page.items.len(), 3);
    assert!(!page.has_next_page);
    match &page.items[0] {
        HierarchyItem::Node { hash, level, is_leaf, num_entries, path_indices } => {
            assert_eq!(*hash, root);
            assert_eq!(*level, 0);
            assert!(*is_leaf);
            assert_eq!(*num_entries, 2);
            assert!(path_indices.is_empty());
        }
        other => panic!("expected a node, got {:?}", other),
    }
    match &page.items[2] {
        HierarchyItem::LeafEntryItem { parent_hash, entry_index, key, value_repr_type, value_hash, value_size } => {
            assert_eq!(*parent_hash, root);
            assert_eq!(*entry_index, 1);
            assert_eq!(*key, k("b"));
            assert_eq!(value_repr_type.as_str(), "Inline");
            assert_eq!(*value_hash, None);
            assert_eq!(*value_size, 2);
        }
        other => panic!("expected a leaf entry, got {:?}", other),
    }
}

#[test]
fn hierarchy_scan_walks_nodes_before_children() {
    let mut tree = small_tree();
    twenty_items(&mut tree);
    let page = tree.hierarchy_scan(HierarchyScanArgs::default()).unwrap();
    let mut leaf_keys: Vec<Vec<u8>> = Vec::new();
    let mut nodes = 0;
    for item in &page.items {
        match item {
            HierarchyItem::Node { .. } => nodes += 1,
            HierarchyItem::LeafEntryItem { key, .. } => leaf_keys.push(key.clone()),
            HierarchyItem::InternalEntryItem { .. } => {}
        }
    }
    let expected: Vec<Vec<u8>> = (0..20).map(|i| k(&format!("key_{:02}", i))).collect();
    assert_eq!(leaf_keys, expected);
    assert!(nodes > 1);
    match &page.items[0] {
        HierarchyItem::Node { is_leaf, level, path_indices, .. } => {
            assert!(!*is_leaf);
            assert!(*level > 0);
            assert!(path_indices.is_empty());
        }
        other => panic!("expected the root node, got {:?}", other),
    }
    match &page.items[1] {
        HierarchyItem::InternalEntryItem { entry_index, .. } => assert_eq!(*entry_index, 0),
        other => panic!("expected the root's first entry, got {:?}", other),
    }
}

#[test]
fn hierarchy_scan_max_depth_zero_is_root_only() {
    let mut tree = small_tree();
    twenty_items(&mut tree);
    let args = HierarchyScanArgs { max_depth: Some(0), offset: None, limit: None };
    let page = tree.hierarchy_scan(args).unwrap();
    let root_entries = match &page.items[0] {
        HierarchyItem::Node { num_entries, .. } => *num_entries,
        other => panic!("expected the root node, got {:?}", other),
    };
    assert_eq!(page.items.len(), 1 + root_entries);
}

#[test]
fn hierarchy_scan_pages_with_offset_and_limit() {
    let mut tree = small_tree();
    twenty_items(&mut tree);
    let all = tree.hierarchy_scan(HierarchyScanArgs::default()).unwrap().items;
    let total = all.len();
    let args = HierarchyScanArgs { max_depth: None, offset: Some(2), limit: Some(3) };
    let page = tree.hierarchy_scan(args).unwrap();
    assert_eq!(page.items.len(), 3);
    assert!(page.has_next_page);
    assert_eq!(format!("{:?}", page.items), format!("{:?}", &all[2..5]));
    let zero = HierarchyScanArgs { max_depth: None, offset: Some(total - 1), limit: Some(0) };
    let page = tree.hierarchy_scan(zero).unwrap();
    assert!(page.items.is_empty());
    assert!(page.has_next_page);
    let tail = HierarchyScanArgs { max_depth: None, offset: Some(total - 2), limit: Some(5) };
    let page = tree.hierarchy_scan(tail).unwrap();
    assert_eq!(page.items.len(), 2);
    assert!(!page.has_next_page);
    let past = HierarchyScanArgs { max_depth: None, offset: Some(total + 1), limit: Some(5) };
    let page = tree.hierarchy_scan(past).unwrap();
    assert!(page.items.is_empty());
    assert!(!page.has_next_page);
}

#[test]
fn hierarchy_scan_reports_chunked_values() {
    let mut tree = new_tree();
    let big = vec![7u8; 100_000];
    tree.insert(k("big"), big).unwrap();
    let page = tree.hierarchy_scan(HierarchyScanArgs::default()).unwrap();
    match &page.items[1] {
        HierarchyItem::LeafEntryItem { value_repr_type, value_hash, value_size, .. } => {
            assert!(value_repr_type.as_str() == "ChunkedSequence" || value_repr_type.as_str() == "Chunked");
            assert!(value_hash.is_some());
            assert_eq!(*value_size, 100_000);
        }
        other => panic!("expected a leaf entry, got {:?}", other),
    }
}

#[test]
fn cdc_settings_reject_average_above_maximum() {
    let mut config = TreeConfig::default();
    assert!(config.is_cdc_valid());
    config.cdc_min_size = 64;
    config.cdc_avg_size = 1 << 20;
    config.cdc_max_size = 1024;
    assert!(!config.is_cdc_valid());
}

#[test]
fn empty_tree_scans_and_cursors_succeed() {
    let tree = new_tree();
    let page = tree.scan(ScanArgs::default()).unwrap();
    assert!(page.items.is_empty());
    assert!(!page.has_next_page);
    let mut c = tree.cursor_start().unwrap();
    assert_eq!(c.next().unwrap(), None);
    let mut c = tree.seek(&k("a")).unwrap();
    assert_eq!(c.next().unwrap(), None);
}

#[test]
fn insert_batch_without_items_changes_nothing() {
    let mut tree = new_tree();
    tree.insert(k("a"), k("1")).unwrap();
    let root = tree.get_root_hash();
    assert_eq!(tree.insert_batch(Vec::new()).unwrap(), false);
    assert_eq!(tree.get_root_hash(), root);
}

#[test]
fn delete_of_missing_key_keeps_root() {
    let mut tree = new_tree();
    tree.insert(k("a"), k("1")).unwrap();
    let root = tree.get_root_hash();
    assert_eq!(tree.delete(&k("zzz")).unwrap(), false);
    assert_eq!(tree.get_root_hash(), root);
    assert_eq!(tree.get(&k("a")).unwrap(), Some(k("1")));
}

#[test]
fn diff_of_equal_roots_reads_nothing() {
    let tree = new_tree();
    let missing = Some([9u8; 32]);
    let ds = diff_trees(missing, missing, &tree.store, &tree.config).unwrap();
    assert!(ds.is_empty());
}

#[test]
fn insert_then_delete_gives_back_the_items() {
    let mut tree = small_tree();
    twenty_items(&mut tree);
    let before = tree.scan(ScanArgs::default()).unwrap().items;
    tree.insert(k("key_05a"), k("extra")).unwrap();
    assert_eq!(tree.count_all_items().unwrap(), 21);
    assert_eq!(tree.delete(&k("key_05a")).unwrap(), true);
    let after = tree.scan(ScanArgs::default()).unwrap().items;
    assert_eq!(after, before);
    assert_eq!(tree.count_all_items().unwrap(), 20);
}

#[test]
fn deleting_keys_keeps_the_rest_readable() {
    let mut tree = small_tree();
    twenty_items(&mut tree);
    for i in 0..15 {
        assert_eq!(tree.delete(&k(&format!("key_{:02}", i))).unwrap(), true);
    }
    let items = tree.scan(ScanArgs::default()).unwrap().items;
    assert_eq!(keys_of(&items), vec!["key_15", "key_16", "key_17", "key_18", "key_19"]);
    assert_eq!(tree.get(&k("key_18")).unwrap(), Some(k("val_18")));
}

#[test]
fn leaf_splits_past_target_fanout_at_the_midpoint() {
    let mut tree = small_tree();
    for key in ["a", "b", "c", "d"] {
        tree.insert(k(key), k("v")).unwrap();
    }
    let page = tree.hierarchy_scan(HierarchyScanArgs::default()).unwrap();
    match &page.items[0] {
        HierarchyItem::Node { is_leaf, num_entries, .. } => {
            assert!(*is_leaf);
            assert_eq!(*num_entries, 4);
        }
        other => panic!("expected a node, got {:?}", other),
    }
    tree.insert(k("e"), k("v")).unwrap();
    let page = tree.hierarchy_scan(HierarchyScanArgs::default()).unwrap();
    let mut sizes = Vec::new();
    for item in &page.items {
        if let HierarchyItem::Node { is_leaf, num_entries, level, .. } = item {
            if *is_leaf {
                sizes.push(*num_entries);
            } else {
                assert_eq!(*level, 1);
                assert_eq!(*num_entries, 2);
            }
        }
    }
    assert_eq!(sizes, vec![2, 3]);
}

fn leaf_sizes(tree: &ProllyTree<InMemoryStore>) -> Vec<usize> {
    let page = tree.hierarchy_scan(HierarchyScanArgs::default()).unwrap();
    let mut sizes = Vec::new();
    for item in &page.items {
        if let HierarchyItem::Node { is_leaf: true, num_entries, .. } = item {
            sizes.push(*num_entries);
        }
    }
    sizes
}

#[test]
fn underflowing_leaf_borrows_then_merges() {
    let mut tree = small_tree();
    for key in ["a", "b", "c", "d", "e"] {
        tree.insert(k(key), k("v")).unwrap();
    }
    assert_eq!(leaf_sizes(&tree), vec![2, 3]);
    assert!(tree.delete(&k("a")).unwrap());
    assert_eq!(leaf_sizes(&tree), vec![2, 2]);
    assert!(tree.delete(&k("b")).unwrap());
    assert_eq!(leaf_sizes(&tree), vec![3]);
    let page = tree.hierarchy_scan(HierarchyScanArgs::default()).unwrap();
    match &page.items[0] {
        HierarchyItem::Node { is_leaf, level, .. } => {
            assert!(*is_leaf);
            assert_eq!(*level, 0);
        }
        other => panic!("expected a node, got {:?}", other),
    }
}

#[test]
fn diff_of_swapped_roots_swaps_sides() {
    let mut tree = small_tree();
    twenty_items(&mut tree);
    let h1 = tree.get_root_hash();
    tree.insert(k("key_07"), k("changed")).unwrap();
    tree.insert(k("key_13"), k("changed too")).unwrap();
    let h2 = tree.get_root_hash();
    let forward = diff_trees(h1, h2, &tree.store, &tree.config).unwrap();
    let backward = diff_trees(h2, h1, &tree.store, &tree.config).unwrap();
    assert_eq!(forward.len(), 2);
    assert_eq!(forward[0].key, k("key_07"));
    assert_eq!(forward[0].left_value, Some(k("val_7")));
    assert_eq!(forward[0].right_value, Some(k("changed")));
    assert_eq!(forward[1].key, k("key_13"));
    assert_eq!(backward.len(), forward.len());
    for (f, b) in forward.iter().zip(backward.iter()) {
        assert_eq!(f.key, b.key);
        assert_eq!(f.left_value, b.right_value);
        assert_eq!(f.right_value, b.left_value);
    }
}
