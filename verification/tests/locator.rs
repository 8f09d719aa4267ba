use xor_pipeline::locator::{both_located, Locator, WorkItem};

fn file(name: &str, path: &str) -> WorkItem {
    WorkItem::File { name: name.to_string(), path: path.to_string() }
}

fn dir(path: &str) -> WorkItem {
    WorkItem::Dir { path: path.to_string() }
}

#[test]
fn test_locate_completeness() {
    // One file named "T" and one named "K", each at its own depth.
    let mut locator = Locator::new("root".to_string(), "T".to_string(), "K".to_string());
    let listed = locator.advance();
    assert_eq!(listed, Some("root".to_string()));
    locator.provide_listing(vec![dir("root/a"), file("K", "root/K")]);
    let listed = locator.advance();
    assert_eq!(listed, Some("root/a".to_string()));
    locator.provide_listing(vec![dir("root/a/b")]);
    let listed = locator.advance();
    assert_eq!(listed, Some("root/a/b".to_string()));
    locator.provide_listing(vec![file("T", "root/a/b/T")]);
    assert_eq!(locator.advance(), None);
    let located = locator.into_result();
    assert_eq!(located.0, Some("root/a/b/T".to_string()));
    assert_eq!(located.1, Some("root/K".to_string()));
}

#[test]
fn test_locate_depth_first_order() {
    // A subdirectory listed before a sibling file is fully walked first.
    let mut locator = Locator::new("root".to_string(), "T".to_string(), "K".to_string());
    assert_eq!(locator.advance(), Some("root".to_string()));
    locator.provide_listing(vec![dir("root/sub"), file("K", "root/K")]);
    // The subdirectory surfaces before the sibling file "K" is visited.
    assert_eq!(locator.advance(), Some("root/sub".to_string()));
    locator.provide_listing(vec![file("T", "root/sub/T")]);
    assert_eq!(locator.advance(), None);
    let located = locator.into_result();
    assert_eq!(located.0, Some("root/sub/T".to_string()));
    assert_eq!(located.1, Some("root/K".to_string()));
}

#[test]
fn test_locate_overwrite() {
    // Two files named "T", in subdirectories "a" and "b" enumerated in that
    // order: the later visit wins.
    let mut locator = Locator::new("root".to_string(), "T".to_string(), "K".to_string());
    assert_eq!(locator.advance(), Some("root".to_string()));
    locator.provide_listing(vec![dir("root/a"), dir("root/b")]);
    assert_eq!(locator.advance(), Some("root/a".to_string()));
    locator.provide_listing(vec![file("T", "root/a/T")]);
    assert_eq!(locator.advance(), Some("root/b".to_string()));
    locator.provide_listing(vec![file("T", "root/b/T")]);
    assert_eq!(locator.advance(), None);
    let located = locator.into_result();
    assert_eq!(located.0, Some("root/b/T".to_string()));
    assert_eq!(located.1, None);
}

#[test]
fn test_locate_partial_match_fails_closed() {
    // Only "T" exists: the target slot fills, the key slot stays empty,
    // and both_located refuses to let the pipeline proceed.
    let mut locator = Locator::new("root".to_string(), "T".to_string(), "K".to_string());
    assert_eq!(locator.advance(), Some("root".to_string()));
    locator.provide_listing(vec![file("T", "root/T"), file("other", "root/other")]);
    assert_eq!(locator.advance(), None);
    let located = locator.into_result();
    assert_eq!(located.0, Some("root/T".to_string()));
    assert_eq!(located.1, None);
    assert_eq!(both_located(located), None);
}

#[test]
fn test_locate_nothing_found() {
    let mut locator = Locator::new("root".to_string(), "T".to_string(), "K".to_string());
    assert_eq!(locator.advance(), Some("root".to_string()));
    locator.provide_listing(vec![file("x", "root/x"), file("y", "root/y")]);
    assert_eq!(locator.advance(), None);
    let located = locator.into_result();
    assert_eq!(located, (None, None));
    assert_eq!(both_located(located), None);
}

#[test]
fn test_locate_skips_unreadable_subtree() {
    // The caller cannot list "root/bad"; it hands back no listing for it and
    // the traversal continues with the siblings.
    let mut locator = Locator::new("root".to_string(), "T".to_string(), "K".to_string());
    assert_eq!(locator.advance(), Some("root".to_string()));
    locator.provide_listing(vec![dir("root/bad"), file("T", "root/T"), file("K", "root/K")]);
    assert_eq!(locator.advance(), Some("root/bad".to_string()));
    // No provide_listing call: the subtree is skipped.
    assert_eq!(locator.advance(), None);
    let located = locator.into_result();
    assert_eq!(located.0, Some("root/T".to_string()));
    assert_eq!(located.1, Some("root/K".to_string()));
}

#[test]
fn test_locate_same_name_fills_target_only() {
    // When both sought names are equal, a matching file always lands in the
    // target slot: the key slot is only ever offered what the target refused.
    let mut locator = Locator::new("root".to_string(), "T".to_string(), "T".to_string());
    assert_eq!(locator.advance(), Some("root".to_string()));
    locator.provide_listing(vec![file("T", "root/T")]);
    assert_eq!(locator.advance(), None);
    let located = locator.into_result();
    assert_eq!(located.0, Some("root/T".to_string()));
    assert_eq!(located.1, None);
}

#[test]
fn test_both_located_gate() {
    let some_t = Some("t".to_string());
    let some_k = Some("k".to_string());
    assert_eq!(
        both_located((some_t.clone(), some_k.clone())),
        Some(("t".to_string(), "k".to_string()))
    );
    assert_eq!(both_located((some_t.clone(), None)), None);
    assert_eq!(both_located((None, some_k)), None);
    assert_eq!(both_located((None, None)), None);
}
