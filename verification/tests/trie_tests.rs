use nkv::trie::Trie;

#[test]
fn test_insert_and_get_single_key() {
    let mut trie = Trie::new();
    let val: Box<[u8]> = Box::new([1, 2, 3]);
    trie.insert("service.function.key1", val.clone());

    let values = trie.get("service.function.key1");
    assert_eq!(values.len(), 1);
    assert_eq!(*values[0], val);
}

#[test]
fn test_get_with_wildcard() {
    let mut trie = Trie::new();
    let val1 = Box::new([1, 2, 3]);
    let val2 = Box::new([4, 5, 6]);
    let val3 = Box::new([7, 8, 9]);
    let val4 = Box::new([10, 11, 12]);
    let val5 = Box::new([13, 14, 15]);

    trie.insert("service.functionA.key1", val1.clone());
    trie.insert("service.functionA.key2", val2.clone());
    trie.insert("service.functionB.key1", val3.clone());
    trie.insert("service.functionB.key2", val4.clone());
    trie.insert("service.functionC.subfunction.key1", val5.clone());

    let values = trie.get("service.functionA.*");
    assert_eq!(values.len(), 2);
    assert!(values.iter().any(|v| **v == val1.clone()));
    assert!(values.iter().any(|v| **v == val2.clone()));

    let values = trie.get("service.functionB.*");
    assert_eq!(values.len(), 2);
    assert!(values.iter().any(|v| **v == val3.clone()));
    assert!(values.iter().any(|v| **v == val4.clone()));

    let values = trie.get("service.*");
    assert_eq!(values.len(), 5);
    assert!(values.iter().any(|v| **v == val1));
    assert!(values.iter().any(|v| **v == val2));
    assert!(values.iter().any(|v| **v == val3));
    assert!(values.iter().any(|v| **v == val4));
    assert!(values.iter().any(|v| **v == val5));
}

#[test]
fn test_get_non_existent_key() {
    let mut trie = Trie::new();
    trie.insert("serice.function.key1", Box::new([1, 2, 3]));

    let values = trie.get("service.function.key2");
    assert!(values.is_empty());
}

#[test]
fn test_get_empty_trie() {
    let trie: Trie<Box<[u8]>> = Trie::new();
    let values = trie.get("serice.function.*");
    assert!(values.is_empty());
}

#[test]
fn test_insert_overwrite() {
    let mut trie = Trie::new();
    let val = Box::new([4, 5, 6]);
    trie.insert("service.function.key1", Box::new([1, 2, 3]));
    trie.insert("service.function.key1", val.clone());

    let values = trie.get("service.function.key1");
    assert_eq!(values.len(), 1);
    assert_eq!(*values[0], val);
}

#[test]
fn test_get_with_multiple_levels() {
    let mut trie = Trie::new();
    let val1 = Box::new([1, 2, 3]);
    let val2 = Box::new([4, 5, 6]);
    trie.insert("level1.level2.level3.key1", val1.clone());
    trie.insert("level1.level2.key2", val2.clone());

    let values_level2 = trie.get("level1.level2.*");
    assert_eq!(values_level2.len(), 2);
    assert!(values_level2.iter().any(|v| **v == val1.clone()));
    assert!(values_level2.iter().any(|v| **v == val2));

    let values_level3 = trie.get("level1.level2.level3.*");
    assert_eq!(values_level3.len(), 1);
    assert_eq!(*values_level3[0], val1);
}

#[test]
fn test_remove() {
    let mut trie = Trie::new();
    let val1 = Box::new([1, 2, 3]);
    let val2 = Box::new([4, 5, 6]);
    let val3 = Box::new([7, 8, 9]);
    let val4 = Box::new([10, 11, 12]);

    trie.insert("service.functionA.key1", val1.clone());
    trie.insert("service.functionB.key1", val2.clone());
    trie.insert("service.functionB.key2", val3.clone());
    trie.insert("service.functionB.subfunction.key1", val4.clone());

    assert!(!trie.remove("service.functionA.key1"));
    let values = trie.get("service.function.key1");
    assert!(values.is_empty());

    assert!(!trie.remove("service.functionB"));
    let values = trie.get("service.functionB.*");
    println!("{:?}", values);
    assert!(!values.is_empty());
}

#[test]
fn insert_with_wildcard_is_refused_and_changes_nothing() {
    let mut trie = Trie::new();
    trie.insert("a.b", 1u8);
    assert!(trie.insert("a.*", 2u8).is_some());
    assert!(trie.insert("a.b*c", 3u8).is_some());
    let all = trie.get("*");
    assert_eq!(all, vec![&1u8]);
}

#[test]
fn remove_last_key_reports_empty() {
    let mut trie = Trie::new();
    trie.insert("a.b.c", 1u8);
    trie.insert("a.d", 2u8);
    assert!(!trie.remove("a.b.c"));
    assert!(trie.get("a.b.c").is_empty());
    assert_eq!(trie.get("a.d"), vec![&2u8]);
    assert!(trie.remove("a.d"));
    assert!(trie.get("*").is_empty());
}

#[test]
fn remove_of_missing_key_keeps_values() {
    let mut trie = Trie::new();
    trie.insert("x.y", 7u8);
    assert!(!trie.remove("x.z"));
    assert!(!trie.remove("q"));
    assert_eq!(trie.get("x.y"), vec![&7u8]);
}

#[test]
fn get_of_prefix_without_wildcard_is_exact() {
    let mut trie = Trie::new();
    trie.insert("a.b", 1u8);
    assert!(trie.get("a").is_empty());
    trie.insert("a", 5u8);
    assert_eq!(trie.get("a"), vec![&5u8]);
    let mut under: Vec<u8> = trie.get("a.*").into_iter().copied().collect();
    under.sort();
    assert_eq!(under, vec![1u8, 5u8]);
}

#[test]
fn star_inside_a_segment_matches_nothing() {
    let mut trie = Trie::new();
    trie.insert("a.b", 1u8);
    assert!(trie.get("a.b*").is_empty());
}

#[test]
fn iter_yields_every_key_once() {
    let mut trie = Trie::new();
    trie.insert("service.a", 1u8);
    trie.insert("service.b.c", 2u8);
    trie.insert("other", 3u8);
    let mut it = trie.iter();
    let mut seen: Vec<(String, u8)> = Vec::new();
    while let Some((k, v)) = it.next() {
        seen.push((k, *v));
    }
    seen.sort();
    assert_eq!(
        seen,
        vec![
            ("other".to_string(), 3u8),
            ("service.a".to_string(), 1u8),
            ("service.b.c".to_string(), 2u8)
        ]
    );
}

#[test]
fn trie_error_message() {
    assert_eq!(nkv::trie::TrieError::KeyContainsWildcard.message(), "Key contains wildcard");
}

#[test]
fn render_draws_one_line_per_node() {
    let mut trie = Trie::new();
    trie.insert("a.b", 1);
    trie.insert("c", 2);
    assert_eq!(trie.render(), "-> *\n|--> a\n-|---> b\n|--> c\n");
    let empty: Trie<u8> = Trie::new();
    assert_eq!(empty.render(), "-> *\n");
}
