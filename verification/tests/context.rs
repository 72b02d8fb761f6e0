use id_prefix::{ChangeId, CommitId, HexPrefix, IdIndex, IdPrefixContext, PrefixResolution};

fn sample_context() -> IdPrefixContext {
    // Commits 1111, 2222, 2233; change aa00 diverged into 1111 and 2222,
    // change ab00 maps to 2233 alone.
    let commit_index = IdIndex::from_vec(vec![
        (CommitId::from_hex("1111"), ()),
        (CommitId::from_hex("2222"), ()),
        (CommitId::from_hex("2233"), ()),
    ]);
    let change_index = IdIndex::from_vec(vec![
        (ChangeId::from_hex("aa00"), CommitId::from_hex("1111")),
        (ChangeId::from_hex("aa00"), CommitId::from_hex("2222")),
        (ChangeId::from_hex("ab00"), CommitId::from_hex("2233")),
    ]);
    IdPrefixContext::new(commit_index, change_index)
}

#[test]
fn test_resolve_commit_prefix() {
    let context = sample_context();
    assert_eq!(
        context.resolve_commit_prefix(&HexPrefix::new("1").unwrap()),
        PrefixResolution::SingleMatch(CommitId::from_hex("1111")),
    );
    assert_eq!(
        context.resolve_commit_prefix(&HexPrefix::new("2").unwrap()),
        PrefixResolution::AmbiguousMatch,
    );
    assert_eq!(
        context.resolve_commit_prefix(&HexPrefix::new("223").unwrap()),
        PrefixResolution::SingleMatch(CommitId::from_hex("2233")),
    );
    assert_eq!(
        context.resolve_commit_prefix(&HexPrefix::new("3").unwrap()),
        PrefixResolution::NoMatch,
    );
}

#[test]
fn test_shortest_commit_prefix_len() {
    let context = sample_context();
    assert_eq!(
        context.shortest_commit_prefix_len(&CommitId::from_hex("1111")),
        1
    );
    assert_eq!(
        context.shortest_commit_prefix_len(&CommitId::from_hex("2222")),
        3
    );
    assert_eq!(
        context.shortest_commit_prefix_len(&CommitId::from_hex("2233")),
        3
    );
}

#[test]
fn test_resolve_change_prefix() {
    let context = sample_context();
    // The diverged change surfaces both commits together.
    match context.resolve_change_prefix(&HexPrefix::new("aa").unwrap()) {
        PrefixResolution::SingleMatch(commits) => {
            assert_eq!(commits.len(), 2);
            assert!(commits.contains(&CommitId::from_hex("1111")));
            assert!(commits.contains(&CommitId::from_hex("2222")));
        }
        other => panic!("expected SingleMatch, got {:?}", other),
    }
    assert_eq!(
        context.resolve_change_prefix(&HexPrefix::new("ab").unwrap()),
        PrefixResolution::SingleMatch(vec![CommitId::from_hex("2233")]),
    );
    // Duplicate keys alone are not ambiguity; distinct keys are.
    assert_eq!(
        context.resolve_change_prefix(&HexPrefix::new("a").unwrap()),
        PrefixResolution::AmbiguousMatch,
    );
    assert_eq!(
        context.resolve_change_prefix(&HexPrefix::new("b").unwrap()),
        PrefixResolution::NoMatch,
    );
}

#[test]
fn test_shortest_change_prefix_len() {
    let context = sample_context();
    assert_eq!(
        context.shortest_change_prefix_len(&ChangeId::from_hex("aa00")),
        2
    );
    assert_eq!(
        context.shortest_change_prefix_len(&ChangeId::from_hex("ab00")),
        2
    );
}
