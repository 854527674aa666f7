use nu_plugin_jj::ancestors::{AncestorSearch, Step};
use nu_plugin_jj::error::Error;
use nu_plugin_jj::graph::{find_ancestor_bookmarks, CommitGraph, CommitNode};
use nu_plugin_jj::jj::Bookmark;
use nu_plugin_jj::refs::{CommitId, CommitSet, LocalRef, RefTarget, RefView};

fn commit(n: u8) -> CommitId {
    CommitId { bytes: vec![n, 0xab] }
}

fn node(n: u8, parents: &[u8]) -> CommitNode {
    CommitNode { id: commit(n), parents: parents.iter().map(|p| commit(*p)).collect() }
}

fn graph(nodes: Vec<CommitNode>) -> CommitGraph {
    CommitGraph { nodes }
}

fn bookmarks(at: &[(&str, u8)]) -> RefView {
    RefView {
        local_bookmarks: at
            .iter()
            .map(|(name, n)| LocalRef {
                name: name.to_string(),
                target: RefTarget::normal(commit(*n)),
            })
            .collect(),
        remote_bookmarks: vec![],
        tags: vec![],
    }
}

fn set(ids: &[u8]) -> CommitSet {
    let mut set = CommitSet::new();
    for n in ids {
        set.insert(commit(*n));
    }
    set
}

fn pairs(found: &[Bookmark]) -> Vec<(String, usize)> {
    found.iter().map(|b| (b.name.clone(), b.distance)).collect()
}

fn named(name: &str, distance: usize) -> (String, usize) {
    (name.to_string(), distance)
}

/// Runs a search by hand and returns what it found with the commits whose
/// parents it asked for, in order.
fn drive(
    graph: &CommitGraph,
    view: &RefView,
    start: u8,
    heads: &CommitSet,
    max_depth: usize,
) -> (Vec<(String, usize)>, Vec<u8>) {
    let first = graph.find(&commit(start)).unwrap();
    let mut search = AncestorSearch::new(&graph.nodes[first].parents, max_depth);
    let mut asked = Vec::new();
    loop {
        match search.step(view, heads) {
            Step::Finished => break,
            Step::Passed => {}
            Step::Expand { id, depth } => {
                asked.push(id.bytes[0]);
                let at = graph.find(&id).unwrap();
                search.expand(&graph.nodes[at].parents, depth);
            }
        }
    }
    (pairs(&search.finish()), asked)
}

#[test]
fn a_chain_gives_each_bookmark_its_distance() {
    let g = graph(vec![node(0, &[1]), node(1, &[2]), node(2, &[3]), node(3, &[])]);
    let view = bookmarks(&[("far", 3), ("near", 1), ("here", 0)]);
    let found = find_ancestor_bookmarks(&g, &view, &commit(0), &set(&[]), 10).unwrap();
    assert_eq!(pairs(&found), vec![named("near", 1), named("far", 3)]);
}

#[test]
fn a_diamond_is_walked_once() {
    //   0 -> 1 -> 3 -> 4
    //   0 -> 2 -> 3
    let g = graph(vec![
        node(0, &[1, 2]),
        node(1, &[3]),
        node(2, &[3]),
        node(3, &[4]),
        node(4, &[]),
    ]);
    let view = bookmarks(&[("base", 3), ("root", 4), ("left", 1), ("right", 2)]);
    let (found, asked) = drive(&g, &view, 0, &set(&[]), 10);
    assert_eq!(asked, vec![1, 2, 3, 4]);
    let expected = vec![named("left", 1), named("right", 1), named("base", 2), named("root", 3)];
    assert_eq!(found, expected);
    let found = find_ancestor_bookmarks(&g, &view, &commit(0), &set(&[]), 10).unwrap();
    assert_eq!(pairs(&found), expected);
}

#[test]
fn the_shorter_of_two_ways_gives_the_distance() {
    // 5 is a parent of 0 and also three links up through 1 and 2.
    let g = graph(vec![
        node(0, &[1, 5]),
        node(1, &[2]),
        node(2, &[5]),
        node(5, &[6]),
        node(6, &[]),
    ]);
    let view = bookmarks(&[("target", 5), ("beyond", 6)]);
    let found = find_ancestor_bookmarks(&g, &view, &commit(0), &set(&[]), 10).unwrap();
    assert_eq!(pairs(&found), vec![named("target", 1), named("beyond", 2)]);
    // The order of the parents does not matter.
    let g = graph(vec![
        node(0, &[5, 1]),
        node(1, &[2]),
        node(2, &[5]),
        node(5, &[6]),
        node(6, &[]),
    ]);
    let found = find_ancestor_bookmarks(&g, &view, &commit(0), &set(&[]), 10).unwrap();
    assert_eq!(pairs(&found), vec![named("target", 1), named("beyond", 2)]);
}

#[test]
fn one_name_on_two_commits_keeps_the_nearer() {
    let g = graph(vec![node(0, &[1]), node(1, &[2]), node(2, &[])]);
    let view = RefView {
        local_bookmarks: vec![LocalRef {
            name: "split".to_string(),
            target: RefTarget { terms: vec![Some(commit(2)), Some(commit(9)), Some(commit(1))] },
        }],
        remote_bookmarks: vec![],
        tags: vec![],
    };
    let found = find_ancestor_bookmarks(&g, &view, &commit(0), &set(&[]), 10).unwrap();
    assert_eq!(pairs(&found), vec![named("split", 1)]);
}

#[test]
fn the_search_stops_at_an_immutable_commit() {
    let g = graph(vec![node(0, &[1]), node(1, &[2]), node(2, &[3]), node(3, &[])]);
    let view = bookmarks(&[("one", 1), ("two", 2), ("three", 3)]);
    let (found, asked) = drive(&g, &view, 0, &set(&[2]), 10);
    assert_eq!(found, vec![named("one", 1), named("two", 2)]);
    assert_eq!(asked, vec![1]);
}

#[test]
fn an_immutable_commit_is_passed_by_another_way() {
    // 3 stands behind the immutable 1, and also behind 2.
    let g = graph(vec![node(0, &[1, 2]), node(1, &[3]), node(2, &[4]), node(4, &[3]), node(3, &[])]);
    let view = bookmarks(&[("deep", 3)]);
    let found = find_ancestor_bookmarks(&g, &view, &commit(0), &set(&[1]), 10).unwrap();
    assert_eq!(pairs(&found), vec![named("deep", 3)]);
}

#[test]
fn an_immutable_working_copy_still_shows_its_parents() {
    let g = graph(vec![node(0, &[1]), node(1, &[])]);
    let view = bookmarks(&[("up", 1)]);
    let found = find_ancestor_bookmarks(&g, &view, &commit(0), &set(&[0]), 10).unwrap();
    assert_eq!(pairs(&found), vec![named("up", 1)]);
}

#[test]
fn the_search_stops_at_the_limit() {
    let g = graph(vec![node(0, &[1]), node(1, &[2]), node(2, &[3]), node(3, &[4]), node(4, &[])]);
    let view = bookmarks(&[("a", 1), ("b", 2), ("c", 3), ("d", 4)]);
    let (found, asked) = drive(&g, &view, 0, &set(&[]), 2);
    assert_eq!(found, vec![named("a", 1), named("b", 2)]);
    assert_eq!(asked, vec![1]);
    let found = find_ancestor_bookmarks(&g, &view, &commit(0), &set(&[]), 3).unwrap();
    assert_eq!(pairs(&found), vec![named("a", 1), named("b", 2), named("c", 3)]);
    let found = find_ancestor_bookmarks(&g, &view, &commit(0), &set(&[]), 0).unwrap();
    assert!(found.is_empty());
}

#[test]
fn commits_at_the_limit_need_not_be_in_the_graph() {
    let g = graph(vec![node(0, &[1]), node(1, &[2])]);
    let view = bookmarks(&[("edge", 2)]);
    let found = find_ancestor_bookmarks(&g, &view, &commit(0), &set(&[]), 2).unwrap();
    assert_eq!(pairs(&found), vec![named("edge", 2)]);
}

#[test]
fn a_commit_that_is_needed_and_missing_is_an_error() {
    let view = bookmarks(&[("edge", 2)]);
    let g = graph(vec![node(0, &[1]), node(1, &[2])]);
    let err = find_ancestor_bookmarks(&g, &view, &commit(0), &set(&[]), 3).unwrap_err();
    assert!(matches!(&err, Error::Jj(text) if text == "get commit: object not found"));
    assert_eq!(err.message(), "jj: get commit: object not found");
    // An immutable commit is not asked for.
    assert!(find_ancestor_bookmarks(&g, &view, &commit(0), &set(&[2]), 3).is_ok());
    // The working-copy commit itself is.
    let err = find_ancestor_bookmarks(&g, &view, &commit(7), &set(&[]), 3).unwrap_err();
    assert!(matches!(err, Error::Jj(_)));
}

#[test]
fn bookmarks_of_one_commit_come_in_the_order_of_the_view() {
    let g = graph(vec![node(0, &[1]), node(1, &[])]);
    let view = bookmarks(&[("zeta", 1), ("alpha", 1), ("mid", 1)]);
    let found = find_ancestor_bookmarks(&g, &view, &commit(0), &set(&[]), 10).unwrap();
    assert_eq!(pairs(&found), vec![named("zeta", 1), named("alpha", 1), named("mid", 1)]);
}

#[test]
fn a_root_commit_has_nothing_above_it() {
    let g = graph(vec![node(0, &[])]);
    let view = bookmarks(&[("here", 0)]);
    let found = find_ancestor_bookmarks(&g, &view, &commit(0), &set(&[]), 10).unwrap();
    assert!(found.is_empty());
}

#[test]
fn a_merge_with_a_shared_parent_asks_once() {
    // Both parents of 0 are 1; 1 has the parents 2 and 2.
    let g = graph(vec![node(0, &[1, 1]), node(1, &[2, 2]), node(2, &[])]);
    let view = bookmarks(&[("twice", 2)]);
    let (found, asked) = drive(&g, &view, 0, &set(&[]), 10);
    assert_eq!(asked, vec![1, 2]);
    assert_eq!(found, vec![named("twice", 2)]);
}

#[test]
fn the_first_node_of_an_identifier_counts() {
    let g = graph(vec![node(0, &[1]), node(1, &[2]), node(1, &[3]), node(2, &[]), node(3, &[])]);
    assert_eq!(g.find(&commit(1)), Some(1));
    assert_eq!(g.find(&commit(9)), None);
    let view = bookmarks(&[("kept", 2), ("dropped", 3)]);
    let found = find_ancestor_bookmarks(&g, &view, &commit(0), &set(&[]), 10).unwrap();
    assert_eq!(pairs(&found), vec![named("kept", 2)]);
}
