use id_prefix::{ChangeId, HexPrefix, Id, IdIndex, PrefixResolution, common_hex_len};

fn sample_index() -> IdIndex<i32> {
    IdIndex::from_vec(vec![
        (ChangeId::from_hex("0000"), 0),
        (ChangeId::from_hex("0099"), 1),
        (ChangeId::from_hex("0099"), 2),
        (ChangeId::from_hex("0aaa"), 3),
        (ChangeId::from_hex("0aab"), 4),
    ])
}

#[test]
fn test_hex_prefix_rejects_non_hex() {
    assert!(HexPrefix::new("0g").is_none());
    assert!(HexPrefix::new(" 0").is_none());
    assert!(HexPrefix::new("-").is_none());
    assert!(HexPrefix::new("0aF9").is_some());
}

#[test]
fn test_empty_prefix_matches_everything() {
    let empty_query = HexPrefix::new("").unwrap();
    assert_eq!(
        sample_index().resolve_prefix(&empty_query),
        PrefixResolution::AmbiguousMatch,
    );
    let single_key = IdIndex::from_vec(vec![
        (ChangeId::from_hex("ff"), 1),
        (ChangeId::from_hex("ff"), 2),
    ]);
    // Order of values attached to one key carries no weight.
    match single_key.resolve_prefix(&empty_query) {
        PrefixResolution::SingleMatch(mut vs) => {
            vs.sort();
            assert_eq!(vs, vec![1, 2]);
        }
        other => panic!("expected SingleMatch, got {:?}", other),
    }
    let empty_index = IdIndex::from_vec(vec![] as Vec<(ChangeId, i32)>);
    assert_eq!(
        empty_index.resolve_prefix(&empty_query),
        PrefixResolution::NoMatch,
    );
}

#[test]
fn test_no_match_iff_empty_range() {
    let index = sample_index();
    for text in ["", "0", "00", "009", "0001", "f", "0aab"] {
        let query = HexPrefix::new(text).unwrap();
        let range_is_empty = index.resolve_prefix_range(&query).is_empty();
        let no_match = index.resolve_prefix(&query) == PrefixResolution::NoMatch;
        assert_eq!(no_match, range_is_empty, "query {:?}", text);
    }
}

#[test]
fn test_single_match_collects_run_in_order() {
    let index = sample_index();
    let query = HexPrefix::new("009").unwrap();
    let range = index.resolve_prefix_range(&query);
    assert_eq!(range.len(), 2);
    assert!(range.iter().all(|(key, _)| key == &ChangeId::from_hex("0099")));
    let values: Vec<i32> = range.iter().map(|(_, value)| *value).collect();
    match index.resolve_prefix(&query) {
        PrefixResolution::SingleMatch(vs) => assert_eq!(vs, values),
        other => panic!("expected SingleMatch, got {:?}", other),
    }
}

#[test]
fn test_two_distinct_keys_are_ambiguous() {
    let index = sample_index();
    let query = HexPrefix::new("0a").unwrap();
    let range = index.resolve_prefix_range(&query);
    let first_key = &range[0].0;
    assert!(range.iter().any(|(key, _)| key != first_key));
    assert_eq!(
        index.resolve_prefix(&query),
        PrefixResolution::AmbiguousMatch
    );
}

#[test]
fn test_shortest_unique_prefix_resolves_to_its_key() {
    let keys = ["a0", "ab", "acd0", "acf0", "ba"];
    let index = IdIndex::from_vec(
        keys.iter()
            .map(|hex| (ChangeId::from_hex(hex), ()))
            .collect(),
    );
    for hex in keys {
        let len = index.shortest_unique_prefix_len(&ChangeId::from_hex(hex));
        assert!(len <= hex.len());
        let query = HexPrefix::new(&hex[..len]).unwrap();
        let range = index.resolve_prefix_range(&query);
        assert!(!range.is_empty());
        assert!(range.iter().all(|(key, _)| key == &ChangeId::from_hex(hex)));
    }
}

#[test]
fn test_absent_key_depends_only_on_neighbors() {
    let near = IdIndex::from_vec(vec![
        (ChangeId::from_hex("ab"), ()),
        (ChangeId::from_hex("acd0"), ()),
        (ChangeId::from_hex("acf0"), ()),
        (ChangeId::from_hex("a0"), ()),
        (ChangeId::from_hex("ba"), ()),
    ]);
    // Adding keys farther from "c0" than its neighbor "ba" changes nothing.
    let with_far_keys = IdIndex::from_vec(vec![
        (ChangeId::from_hex("0000"), ()),
        (ChangeId::from_hex("ab"), ()),
        (ChangeId::from_hex("acd0"), ()),
        (ChangeId::from_hex("acf0"), ()),
        (ChangeId::from_hex("a0"), ()),
        (ChangeId::from_hex("ba"), ()),
        (ChangeId::from_hex("ffff"), ()),
    ]);
    let absent = ChangeId::from_hex("c0");
    assert_eq!(near.shortest_unique_prefix_len(&absent), 1);
    assert_eq!(with_far_keys.shortest_unique_prefix_len(&absent), 1);
}

#[test]
fn test_has_key_agrees_with_full_length_query() {
    let index = sample_index();
    for hex in ["0000", "0099", "0aaa", "0aab", "0001", "ffff"] {
        let key = ChangeId::from_hex(hex);
        let query = HexPrefix::new(hex).unwrap();
        assert_eq!(
            index.has_key(&key),
            !index.resolve_prefix_range(&query).is_empty(),
            "key {:?}",
            hex
        );
    }
}

#[test]
fn test_resolve_prefix_with_applies_mapper() {
    let index = sample_index();
    assert_eq!(
        index.resolve_prefix_with(&HexPrefix::new("000").unwrap(), |v: &i32| v + 10),
        PrefixResolution::SingleMatch(vec![10]),
    );
    assert_eq!(
        index.resolve_prefix_with(&HexPrefix::new("0aab").unwrap(), |v: &i32| *v * 2),
        PrefixResolution::SingleMatch(vec![8]),
    );
}

#[test]
fn test_exact_prefix_of_longer_key_overflows_length() {
    // "ab" is a strict digit-prefix of "abcd": even all of "ab" does not
    // disambiguate it, so the answer exceeds its own digit length.
    let index = IdIndex::from_vec(vec![
        (ChangeId::from_hex("ab"), ()),
        (ChangeId::from_hex("abcd"), ()),
    ]);
    assert_eq!(
        index.shortest_unique_prefix_len(&ChangeId::from_hex("ab")),
        3
    );
}

#[test]
fn test_odd_length_queries_match_high_nibble() {
    let index = IdIndex::from_vec(vec![
        (ChangeId::from_hex("0aab"), 0),
        (ChangeId::from_hex("0ab0"), 1),
    ]);
    assert_eq!(
        index.resolve_prefix(&HexPrefix::new("0aa").unwrap()),
        PrefixResolution::SingleMatch(vec![0]),
    );
    assert_eq!(
        index.resolve_prefix(&HexPrefix::new("0ab").unwrap()),
        PrefixResolution::SingleMatch(vec![1]),
    );
    assert_eq!(
        index.resolve_prefix(&HexPrefix::new("0a").unwrap()),
        PrefixResolution::AmbiguousMatch,
    );
}

#[test]
fn test_common_hex_len_counts_digits() {
    assert_eq!(common_hex_len(&[0xab, 0xcd], &[0xab, 0xcd]), 4);
    assert_eq!(common_hex_len(&[0xab, 0xcd], &[0xab, 0xc0]), 3);
    assert_eq!(common_hex_len(&[0xab, 0xcd], &[0xab, 0x0d]), 2);
    assert_eq!(common_hex_len(&[0xab], &[0xa0]), 1);
    assert_eq!(common_hex_len(&[0xab], &[0x0b]), 0);
    assert_eq!(common_hex_len(&[0xab, 0xcd], &[0xab]), 2);
    assert_eq!(common_hex_len(&[], &[0xab]), 0);
}

#[test]
fn test_from_hex_and_as_bytes() {
    let id = Id::from_hex("0aab");
    assert_eq!(id.as_bytes(), &[0x0a, 0xab]);
    let empty = Id::from_hex("");
    assert_eq!(empty.as_bytes(), &[] as &[u8]);
}

#[test]
fn test_min_prefix_bytes_pads_odd_digit() {
    assert_eq!(
        HexPrefix::new("0aa").unwrap().min_prefix_bytes(),
        vec![0x0a, 0xa0]
    );
    assert_eq!(
        HexPrefix::new("0aab").unwrap().min_prefix_bytes(),
        vec![0x0a, 0xab]
    );
    assert_eq!(HexPrefix::new("").unwrap().min_prefix_bytes(), vec![]);
}

#[test]
fn test_matches_handles_query_longer_than_key() {
    let query = HexPrefix::new("0aab00").unwrap();
    assert!(!query.matches(&Id::from_hex("0aab")));
    let full = HexPrefix::new("0aab").unwrap();
    assert!(full.matches(&Id::from_hex("0aab")));
}
