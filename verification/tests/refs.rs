use nu_plugin_jj::heads::find_immutable_heads;
use nu_plugin_jj::jj::Bookmark;
use nu_plugin_jj::refs::{CommitId, CommitSet, LocalRef, RefTarget, RefView, RemoteRef};
use nu_plugin_jj::sync::check_remote_sync;

fn commit(n: u8) -> CommitId {
    CommitId { bytes: vec![n, n, n, n] }
}

fn at(n: u8) -> RefTarget {
    RefTarget::normal(commit(n))
}

fn conflicted(removed: u8, a: u8, b: u8) -> RefTarget {
    RefTarget { terms: vec![Some(commit(a)), Some(commit(removed)), Some(commit(b))] }
}

fn local(name: &str, target: RefTarget) -> LocalRef {
    LocalRef { name: name.to_string(), target }
}

fn remote(name: &str, remote: &str, target: RefTarget) -> RemoteRef {
    RemoteRef { name: name.to_string(), remote: remote.to_string(), target }
}

fn named(name: &str, distance: usize) -> Bookmark {
    Bookmark { name: name.to_string(), distance }
}

#[test]
fn commit_ids_match_by_bytes() {
    assert!(commit(1).matches(&commit(1)));
    assert!(!commit(1).matches(&commit(2)));
    assert!(!commit(1).matches(&CommitId { bytes: vec![1, 1, 1] }));
    assert!(CommitId { bytes: vec![] }.matches(&CommitId { bytes: vec![] }));
    assert_eq!(commit(7).duplicate().bytes, vec![7, 7, 7, 7]);
}

#[test]
fn targets_tell_what_they_point_to() {
    assert!(RefTarget::absent().is_absent());
    assert!(RefTarget::absent().as_normal().is_none());
    assert!(!at(3).is_absent());
    assert!(at(3).as_normal().unwrap().matches(&commit(3)));
    let moved = conflicted(1, 2, 3);
    assert!(!moved.is_absent());
    assert!(moved.as_normal().is_none());
    assert!(moved.adds(&commit(2)));
    assert!(moved.adds(&commit(3)));
    assert!(!moved.adds(&commit(1)));
    assert!(at(3).adds(&commit(3)));
    assert!(!RefTarget::absent().adds(&commit(3)));
    assert!(moved.matches(&conflicted(1, 2, 3)));
    assert!(!moved.matches(&conflicted(1, 3, 2)));
    assert!(!moved.matches(&at(2)));
    assert!(RefTarget::absent().matches(&RefTarget::absent()));
    assert!(!RefTarget::absent().matches(&at(0)));
}

#[test]
fn commit_set_holds_each_commit_once() {
    let mut set = CommitSet::new();
    assert_eq!(set.len(), 0);
    assert!(!set.contains(&commit(1)));
    assert!(set.insert(commit(1)));
    assert!(set.insert(commit(2)));
    assert!(!set.insert(commit(1)));
    assert_eq!(set.len(), 2);
    assert!(set.contains(&commit(1)));
    assert!(set.contains(&commit(2)));
    assert!(!set.contains(&commit(3)));
}

#[test]
fn local_lookup_takes_the_first_of_a_name() {
    let view = RefView {
        local_bookmarks: vec![local("a", at(1)), local("b", at(2)), local("a", at(3))],
        remote_bookmarks: vec![],
        tags: vec![],
    };
    assert_eq!(view.find_local("a"), Some(0));
    assert_eq!(view.find_local("b"), Some(1));
    assert_eq!(view.find_local("c"), None);
    assert!(!view.local_is_absent("a"));
    assert!(view.local_is_absent("c"));
}

#[test]
fn trunk_and_untracked_remotes_and_tags_are_immutable() {
    let view = RefView {
        local_bookmarks: vec![local("main", at(9)), local("feature", at(8))],
        remote_bookmarks: vec![
            remote("feature", "origin", at(1)),
            remote("main", "git", at(2)),
            remote("main", "origin", at(3)),
            remote("master", "upstream", at(4)),
            remote("other", "fork", at(5)),
            remote("trunk", "fork", at(6)),
            remote("gone", "origin", RefTarget::absent()),
            remote("torn", "origin", conflicted(20, 21, 22)),
            remote("untracked", "git", at(23)),
        ],
        tags: vec![
            local("v1", at(10)),
            local("v2", conflicted(11, 12, 13)),
            local("v3", RefTarget::absent()),
            local("v4", at(3)),
        ],
    };
    let heads = find_immutable_heads(&view);
    for n in [3, 4, 5, 6, 10] {
        assert!(heads.contains(&commit(n)), "{n}");
    }
    for n in [1, 2, 8, 9, 11, 12, 13, 20, 21, 22, 23] {
        assert!(!heads.contains(&commit(n)), "{n}");
    }
    assert_eq!(heads.len(), 5);
}

#[test]
fn a_trunk_needs_both_names() {
    let view = RefView {
        local_bookmarks: vec![local("main", at(9)), local("dev", at(9))],
        remote_bookmarks: vec![
            remote("main", "fork", at(1)),
            remote("dev", "origin", at(2)),
            remote("trunk", "upstream", at(3)),
        ],
        tags: vec![],
    };
    let heads = find_immutable_heads(&view);
    assert!(!heads.contains(&commit(1)));
    assert!(!heads.contains(&commit(2)));
    assert!(heads.contains(&commit(3)));
}

#[test]
fn no_references_no_immutable_commits() {
    let view = RefView { local_bookmarks: vec![], remote_bookmarks: vec![], tags: vec![] };
    assert_eq!(find_immutable_heads(&view).len(), 0);
}

#[test]
fn no_bookmarks_count_as_synced() {
    let view = RefView {
        local_bookmarks: vec![local("main", at(1))],
        remote_bookmarks: vec![remote("main", "origin", at(2))],
        tags: vec![],
    };
    assert_eq!(check_remote_sync(&view, &vec![]), (false, true));
}

#[test]
fn a_remote_at_the_same_commit_is_in_step() {
    let view = RefView {
        local_bookmarks: vec![local("main", at(1))],
        remote_bookmarks: vec![remote("main", "fork", at(2)), remote("main", "origin", at(1))],
        tags: vec![],
    };
    assert_eq!(check_remote_sync(&view, &vec![named("main", 0)]), (true, true));
}

#[test]
fn a_remote_elsewhere_is_out_of_step() {
    let view = RefView {
        local_bookmarks: vec![local("main", at(1))],
        remote_bookmarks: vec![remote("main", "origin", at(2)), remote("other", "origin", at(1))],
        tags: vec![],
    };
    assert_eq!(check_remote_sync(&view, &vec![named("main", 0)]), (true, false));
}

#[test]
fn the_internal_remote_is_no_remote() {
    let view = RefView {
        local_bookmarks: vec![local("main", at(1))],
        remote_bookmarks: vec![remote("main", "git", at(1))],
        tags: vec![],
    };
    assert_eq!(check_remote_sync(&view, &vec![named("main", 0)]), (false, true));
}

#[test]
fn only_the_first_bookmark_is_checked() {
    let view = RefView {
        local_bookmarks: vec![local("near", at(1)), local("far", at(2))],
        remote_bookmarks: vec![remote("far", "origin", at(3)), remote("near", "origin", at(1))],
        tags: vec![],
    };
    assert_eq!(
        check_remote_sync(&view, &vec![named("near", 0), named("far", 1)]),
        (true, true)
    );
    assert_eq!(
        check_remote_sync(&view, &vec![named("far", 1), named("near", 2)]),
        (true, false)
    );
}

#[test]
fn a_bookmark_without_a_local_target_matches_an_absent_remote() {
    let view = RefView {
        local_bookmarks: vec![],
        remote_bookmarks: vec![remote("ghost", "origin", RefTarget::absent())],
        tags: vec![],
    };
    assert_eq!(check_remote_sync(&view, &vec![named("ghost", 1)]), (true, true));
}

#[test]
fn conflicted_targets_are_compared_term_by_term() {
    let view = RefView {
        local_bookmarks: vec![local("main", conflicted(1, 2, 3))],
        remote_bookmarks: vec![remote("main", "origin", conflicted(1, 3, 2))],
        tags: vec![],
    };
    assert_eq!(check_remote_sync(&view, &vec![named("main", 0)]), (true, false));
    let view = RefView {
        local_bookmarks: vec![local("main", conflicted(1, 2, 3))],
        remote_bookmarks: vec![remote("main", "origin", conflicted(1, 2, 3))],
        tags: vec![],
    };
    assert_eq!(check_remote_sync(&view, &vec![named("main", 0)]), (true, true));
}
