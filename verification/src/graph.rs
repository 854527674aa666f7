//! Commits with their parents, held in memory, and what the ancestor search
//! finds on them.

use vstd::prelude::*;
use vstd::set_lib::*;
use vstd::string::*;
use crate::ancestors::{
    after_expand, after_step, has_name, ids_of, is_move, lemma_looked_at_once, looks_at,
    named_at, wants_parents, AncestorSearch, SearchState, Step,
};
use crate::error::Error;
use crate::jj::{bookmark_entries, Bookmark};
use crate::refs::{CommitId, CommitSet, RefView};
use crate::search_proof::{
    depths_after, lemma_end, lemma_expand, lemma_start, lemma_step, search_inv,
};

verus! {

/// A commit and its parents, in the order in which the commit names them.
#[derive(Debug)]
pub struct CommitNode {
    pub id: CommitId,
    pub parents: Vec<CommitId>,
}

/// Commits by identifier. Where two nodes bear one identifier, the first
/// counts.
#[derive(Debug)]
pub struct CommitGraph {
    pub nodes: Vec<CommitNode>,
}

/// Whether the node at `place` is the one that counts for `id`.
pub open spec fn is_node_of(graph: &CommitGraph, id: Seq<u8>, place: int) -> bool {
    &&& 0 <= place < graph.nodes@.len()
    &&& graph.nodes@[place].id@ == id
    &&& forall|j: int| 0 <= j < place ==> (#[trigger] graph.nodes@[j]).id@ != id
}

/// The parents of `id`, where the graph holds the commit.
pub open spec fn parents_of(graph: &CommitGraph, id: Seq<u8>) -> Option<Seq<Seq<u8>>> {
    if exists|place: int| is_node_of(graph, id, place) {
        Some(ids_of(graph.nodes@[choose|place: int| is_node_of(graph, id, place)].parents@))
    } else {
        None
    }
}

/// Whether the graph holds `child` and names `parent` among its parents.
pub open spec fn is_parent(graph: &CommitGraph, child: Seq<u8>, parent: Seq<u8>) -> bool {
    match parents_of(graph, child) {
        Some(parents) => parents.contains(parent),
        None => false,
    }
}

/// Whether `id` stands `distance` parent links above `start` on a way that
/// passes no immutable commit between the two. The first link leaves
/// `start` whatever `start` is.
pub open spec fn reaches(
    graph: &CommitGraph,
    heads: Set<Seq<u8>>,
    start: Seq<u8>,
    id: Seq<u8>,
    distance: nat,
) -> bool
    decreases distance,
{
    if distance == 0 {
        false
    } else if distance == 1 {
        is_parent(graph, start, id)
    } else {
        exists|via: Seq<u8>|
            {
                &&& reaches(graph, heads, start, via, (distance - 1) as nat)
                &&& !heads.contains(via)
                &&& #[trigger] is_parent(graph, via, id)
            }
    }
}

/// Whether a bookmark called `name` is on a commit that stands `distance`
/// above `start`, within the limit.
pub open spec fn discoverable(
    graph: &CommitGraph,
    view: &RefView,
    heads: Set<Seq<u8>>,
    start: Seq<u8>,
    max_depth: nat,
    name: Seq<char>,
    distance: nat,
) -> bool {
    1 <= distance <= max_depth && exists|id: Seq<u8>|
        #[trigger] reaches(graph, heads, start, id, distance) && named_at(view, id, name)
}

/// Whether the search from `start` comes to a commit whose parents it needs
/// and which the graph does not hold.
pub open spec fn lacks_commit(
    graph: &CommitGraph,
    heads: Set<Seq<u8>>,
    start: Seq<u8>,
    max_depth: nat,
) -> bool {
    parents_of(graph, start) is None || exists|id: Seq<u8>, distance: nat|
        {
            &&& distance < max_depth
            &&& #[trigger] reaches(graph, heads, start, id, distance)
            &&& !heads.contains(id)
            &&& parents_of(graph, id) is None
        }
}

/// Two places that count for one identifier are one place.
pub proof fn lemma_node_unique(graph: &CommitGraph, id: Seq<u8>, a: int, b: int)
    requires
        is_node_of(graph, id, a),
        is_node_of(graph, id, b),
    ensures
        a == b,
{
    if a < b {
        assert(graph.nodes@[a].id@ != id);
    } else if b < a {
        assert(graph.nodes@[b].id@ != id);
    }
}

impl CommitGraph {
    /// The place of the node that counts for `id`.
    pub fn find(&self, id: &CommitId) -> (place: Option<usize>)
        ensures
            match place {
                Some(at) => is_node_of(self, id@, at as int) && parents_of(self, id@) == Some(
                    ids_of(self.nodes@[at as int].parents@),
                ),
                None => parents_of(self, id@) is None,
            },
    {
        let mut i: usize = 0;
        while i < self.nodes.len()
            invariant
                i <= self.nodes.len(),
                forall|j: int| 0 <= j < i ==> (#[trigger] self.nodes@[j]).id@ != id@,
            decreases self.nodes.len() - i,
        {
            if self.nodes[i].id.matches(id) {
                proof {
                    assert(is_node_of(self, id@, i as int));
                    let chosen = choose|place: int| is_node_of(self, id@, place);
                    lemma_node_unique(self, id@, chosen, i as int);
                }
                return Some(i);
            }
            i += 1;
        }
        assert(parents_of(self, id@) is None) by {
            if exists|place: int| is_node_of(self, id@, place) {
                let place = choose|place: int| is_node_of(self, id@, place);
                assert(self.nodes@[place].id@ != id@);
            }
        }
        None
    }
}

/// No name is held twice, and the depths do not fall.
pub open spec fn found_ordered(found: Seq<(Seq<char>, nat)>) -> bool {
    forall|k: int, l: int|
        0 <= k < l < found.len() ==> (#[trigger] found[k]).0 != (#[trigger] found[l]).0
            && found[k].1 <= found[l].1
}

/// The state in which a search starts: the parents of the working-copy
/// commit wait at depth 1.
pub open spec fn start_state(parents: Seq<Seq<u8>>, max_depth: nat) -> SearchState {
    SearchState {
        queue: Seq::new(parents.len(), |i: int| (parents[i], 1nat)),
        visited: Set::empty(),
        found: Seq::empty(),
        max_depth,
    }
}

/// Whether `after` follows `before` by one move of the search over
/// `graph`: a step, and then the parents that the graph names joining the
/// queue where the step asks for them.
pub open spec fn is_graph_move(
    before: SearchState,
    after: SearchState,
    graph: &CommitGraph,
    view: &RefView,
    heads: Set<Seq<u8>>,
) -> bool {
    if wants_parents(before, heads) {
        match parents_of(graph, before.queue[0].0) {
            Some(parents) => after == after_expand(
                after_step(before, view),
                parents,
                before.queue[0].1,
            ),
            None => false,
        }
    } else {
        after == after_step(before, view)
    }
}

/// Whether `run` is a whole search over `graph`: it starts from the parents
/// of `start`, goes on by one move at a time while commits wait, and ends
/// with none waiting.
pub open spec fn is_search_run(
    run: Seq<SearchState>,
    graph: &CommitGraph,
    view: &RefView,
    heads: Set<Seq<u8>>,
    start: Seq<u8>,
    max_depth: nat,
) -> bool {
    &&& run.len() >= 1
    &&& parents_of(graph, start) matches Some(parents) && run[0] == start_state(parents, max_depth)
    &&& moves_in_turn(run, graph, view, heads)
    &&& run.last().queue.len() == 0
}

/// Whether `found` is what the search over `graph` ends with, in the order
/// in which the search came to it.
pub open spec fn is_search_outcome(
    graph: &CommitGraph,
    view: &RefView,
    heads: Set<Seq<u8>>,
    start: Seq<u8>,
    max_depth: nat,
    found: Seq<(Seq<char>, nat)>,
) -> bool {
    exists|run: Seq<SearchState>| #[trigger]
        is_search_run(run, graph, view, heads, start, max_depth) && run.last().found == found
}

/// Whether each state of `run` but the last has commits waiting and is
/// followed by the one that a move over `graph` leads to.
pub open spec fn moves_in_turn(
    run: Seq<SearchState>,
    graph: &CommitGraph,
    view: &RefView,
    heads: Set<Seq<u8>>,
) -> bool {
    forall|i: int|
        0 <= i < run.len() - 1 ==> (#[trigger] run[i]).queue.len() > 0 && is_graph_move(
            run[i],
            run[i + 1],
            graph,
            view,
            heads,
        )
}

/// One move more at the end of a run.
proof fn lemma_run_goes_on(
    run: Seq<SearchState>,
    next: SearchState,
    graph: &CommitGraph,
    view: &RefView,
    heads: Set<Seq<u8>>,
)
    requires
        run.len() >= 1,
        moves_in_turn(run, graph, view, heads),
        run.last().queue.len() > 0,
        is_graph_move(run.last(), next, graph, view, heads),
    ensures
        moves_in_turn(run.push(next), graph, view, heads),
{
    let longer = run.push(next);
    assert forall|i: int| 0 <= i < longer.len() - 1 implies (#[trigger] longer[i]).queue.len() > 0
        && is_graph_move(longer[i], longer[i + 1], graph, view, heads) by {
        if i < run.len() - 1 {
            assert(longer[i] == run[i] && longer[i + 1] == run[i + 1]);
        } else {
            assert(longer[i] == run.last() && longer[i + 1] == next);
        }
    }
}

/// A move over a graph is a move of the search, with the parents that the
/// graph names.
pub proof fn lemma_graph_move_is_move(
    before: SearchState,
    after: SearchState,
    graph: &CommitGraph,
    view: &RefView,
    heads: Set<Seq<u8>>,
)
    requires
        is_graph_move(before, after, graph, view, heads),
    ensures
        is_move(before, after, view, heads),
{
    if wants_parents(before, heads) {
        let parents = parents_of(graph, before.queue[0].0)->0;
        assert(after_expand(after_step(before, view), parents, before.queue[0].1) == after);
    }
}

/// A search over a graph looks at no commit twice, however many ways lead
/// to the commit, and asks for the parents of no immutable commit.
pub proof fn lemma_search_looks_once(
    run: Seq<SearchState>,
    graph: &CommitGraph,
    view: &RefView,
    heads: Set<Seq<u8>>,
    start: Seq<u8>,
    max_depth: nat,
    i: int,
    j: int,
)
    requires
        is_search_run(run, graph, view, heads, start, max_depth),
        0 <= i < j < run.len(),
    ensures
        looks_at(run[i]) is Some ==> looks_at(run[j]) != looks_at(run[i]),
        wants_parents(run[i], heads) ==> !heads.contains(run[i].queue[0].0),
{
    assert forall|k: int| 0 <= k < run.len() - 1 implies is_move(
        #[trigger] run[k],
        run[k + 1],
        view,
        heads,
    ) by {
        lemma_graph_move_is_move(run[k], run[k + 1], graph, view, heads);
    }
    if looks_at(run[i]) is Some {
        lemma_looked_at_once(run, view, heads, i, j);
    }
}

/// Two searches over one graph agree at each move that both make.
proof fn lemma_runs_agree(
    a: Seq<SearchState>,
    b: Seq<SearchState>,
    graph: &CommitGraph,
    view: &RefView,
    heads: Set<Seq<u8>>,
    start: Seq<u8>,
    max_depth: nat,
    i: int,
)
    requires
        is_search_run(a, graph, view, heads, start, max_depth),
        is_search_run(b, graph, view, heads, start, max_depth),
        0 <= i < a.len(),
        i < b.len(),
    ensures
        a[i] == b[i],
    decreases i,
{
    if i > 0 {
        lemma_runs_agree(a, b, graph, view, heads, start, max_depth, i - 1);
        assert(is_graph_move(a[i - 1], a[i], graph, view, heads));
        assert(is_graph_move(b[i - 1], b[i], graph, view, heads));
    }
}

/// The search over a graph has one outcome: what it finds, and in what
/// order, follows from the graph, the references, the immutable commits and
/// the limit.
pub proof fn lemma_search_outcome_is_unique(
    graph: &CommitGraph,
    view: &RefView,
    heads: Set<Seq<u8>>,
    start: Seq<u8>,
    max_depth: nat,
    first: Seq<(Seq<char>, nat)>,
    second: Seq<(Seq<char>, nat)>,
)
    requires
        is_search_outcome(graph, view, heads, start, max_depth, first),
        is_search_outcome(graph, view, heads, start, max_depth, second),
    ensures
        first == second,
{
    let a = choose|run: Seq<SearchState>| #[trigger]
        is_search_run(run, graph, view, heads, start, max_depth) && run.last().found == first;
    let b = choose|run: Seq<SearchState>| #[trigger]
        is_search_run(run, graph, view, heads, start, max_depth) && run.last().found == second;
    if a.len() < b.len() {
        lemma_runs_agree(a, b, graph, view, heads, start, max_depth, a.len() - 1);
        assert(b[a.len() - 1].queue.len() > 0);
    } else if b.len() < a.len() {
        lemma_runs_agree(a, b, graph, view, heads, start, max_depth, b.len() - 1);
        assert(a[b.len() - 1].queue.len() > 0);
    } else {
        lemma_runs_agree(a, b, graph, view, heads, start, max_depth, a.len() - 1);
    }
}

/// What a finished search holds: each entry is a bookmark that can be
/// found at its distance and at no smaller one, each bookmark that can be
/// found has an entry, no name is held twice, and the nearest come first.
pub open spec fn is_search_result(
    graph: &CommitGraph,
    view: &RefView,
    heads: Set<Seq<u8>>,
    start: Seq<u8>,
    max_depth: nat,
    found: Seq<(Seq<char>, nat)>,
) -> bool {
    &&& found_ordered(found)
    &&& forall|k: int|
        0 <= k < found.len() ==> discoverable(
            graph,
            view,
            heads,
            start,
            max_depth,
            (#[trigger] found[k]).0,
            found[k].1,
        )
    &&& forall|k: int, distance: nat|
        0 <= k < found.len() && #[trigger] discoverable(
            graph,
            view,
            heads,
            start,
            max_depth,
            found[k].0,
            distance,
        ) ==> found[k].1 <= distance
    &&& forall|name: Seq<char>, distance: nat| #[trigger]
        discoverable(graph, view, heads, start, max_depth, name, distance) ==> has_name(
            found,
            name,
        )
}

/// The text of the error for a commit that the graph does not hold.
pub open spec fn missing_commit_text() -> Seq<char> {
    "get commit: object not found"@
}

/// Finds the bookmarks on the ancestors of the working-copy commit `wc_id`
/// in a graph held in memory, nearest first. A commit whose parents the
/// search needs and which the graph does not hold is an error.
pub fn find_ancestor_bookmarks(
    graph: &CommitGraph,
    view: &RefView,
    wc_id: &CommitId,
    immutable_heads: &CommitSet,
    max_depth: usize,
) -> (result: Result<Vec<Bookmark>, Error>)
    ensures
        match result {
            Ok(found) => {
                &&& !lacks_commit(graph, immutable_heads@, wc_id@, max_depth as nat)
                &&& is_search_outcome(
                    graph,
                    view,
                    immutable_heads@,
                    wc_id@,
                    max_depth as nat,
                    bookmark_entries(found@),
                )
                &&& is_search_result(
                    graph,
                    view,
                    immutable_heads@,
                    wc_id@,
                    max_depth as nat,
                    bookmark_entries(found@),
                )
            },
            Err(Error::Jj(text)) => {
                &&& lacks_commit(graph, immutable_heads@, wc_id@, max_depth as nat)
                &&& text@ == missing_commit_text()
            },
            Err(_) => false,
        },
{
    let first = match graph.find(wc_id) {
        Some(at) => at,
        None => {
            return Err(Error::Jj(String::from_str("get commit: object not found")));
        },
    };
    let mut search = AncestorSearch::new(&graph.nodes[first].parents, max_depth);
    let ghost mut depths = Map::<Seq<u8>, nat>::empty();
    let ghost mut level: nat = 0;
    let ghost mut expanded = Set::<int>::empty();
    let ghost places = set_int_range(0, graph.nodes@.len() as int);
    proof {
        lemma_start(
            graph,
            view,
            immutable_heads@,
            wc_id@,
            ids_of(graph.nodes@[first as int].parents@),
            max_depth as nat,
        );
        assert(search@.queue =~= Seq::new(
            ids_of(graph.nodes@[first as int].parents@).len(),
            |i: int| (ids_of(graph.nodes@[first as int].parents@)[i], 1nat),
        ));
        assert(search@ == start_state(
            ids_of(graph.nodes@[first as int].parents@),
            max_depth as nat,
        ));
        lemma_int_range(0, graph.nodes@.len() as int);
    }
    let ghost mut run: Seq<SearchState> = seq![search@];
    loop
        invariant
            search.well_formed(),
            search@.max_depth == max_depth,
            search_inv(graph, view, immutable_heads@, wc_id@, search@, depths, level, None),
            places == set_int_range(0, graph.nodes@.len() as int),
            places.finite(),
            places.len() == graph.nodes@.len(),
            expanded.subset_of(places),
            forall|k: int| #[trigger]
                expanded.contains(k) ==> search@.visited.contains(graph.nodes@[k].id@),
            run.len() >= 1,
            run.last() == search@,
            parents_of(graph, wc_id@) matches Some(parents) && run[0] == start_state(
                parents,
                max_depth as nat,
            ),
            moves_in_turn(run, graph, view, immutable_heads@),
        ensures
            search@.queue.len() == 0,
            search@.max_depth == max_depth,
            search_inv(graph, view, immutable_heads@, wc_id@, search@, depths, level, None),
            is_search_run(run, graph, view, immutable_heads@, wc_id@, max_depth as nat),
            run.last() == search@,
        decreases graph.nodes@.len() - expanded.len(), search@.queue.len(),
    {
        let ghost before = search@;
        proof {
            lemma_len_subset(expanded, places);
        }
        match search.step(view, immutable_heads) {
            Step::Finished => {
                break ;
            },
            Step::Passed => {
                proof {
                    lemma_step(graph, view, immutable_heads@, wc_id@, before, depths, level);
                    depths = depths_after(before, depths);
                    level = before.queue[0].1;
                    lemma_run_goes_on(run, search@, graph, view, immutable_heads@);
                    run = run.push(search@);
                }
            },
            Step::Expand { id, depth } => {
                proof {
                    lemma_step(graph, view, immutable_heads@, wc_id@, before, depths, level);
                    depths = depths_after(before, depths);
                    level = before.queue[0].1;
                    assert(reaches(graph, immutable_heads@, wc_id@, id@, depth as nat));
                }
                match graph.find(&id) {
                    None => {
                        return Err(Error::Jj(String::from_str("get commit: object not found")));
                    },
                    Some(at) => {
                        let ghost mid = search@;
                        search.expand(&graph.nodes[at].parents, depth);
                        proof {
                            lemma_expand(
                                graph,
                                view,
                                immutable_heads@,
                                wc_id@,
                                mid,
                                depths,
                                level,
                                id@,
                                ids_of(graph.nodes@[at as int].parents@),
                            );
                            assert(!expanded.contains(at as int));
                            assert(places.contains(at as int));
                            expanded = expanded.insert(at as int);
                            lemma_len_subset(expanded, places);
                            lemma_run_goes_on(run, search@, graph, view, immutable_heads@);
                            run = run.push(search@);
                        }
                    },
                }
            },
        }
    }
    proof {
        lemma_end(graph, view, immutable_heads@, wc_id@, search@, depths, level);
    }
    Ok(search.finish())
}

/// Where a bookmark can be found at two distances, by different ways, the
/// result holds it under one that is no larger than either.
pub proof fn lemma_nearer_distance_wins(
    graph: &CommitGraph,
    view: &RefView,
    heads: Set<Seq<u8>>,
    start: Seq<u8>,
    max_depth: nat,
    found: Seq<(Seq<char>, nat)>,
    name: Seq<char>,
    near: nat,
    far: nat,
)
    requires
        is_search_result(graph, view, heads, start, max_depth, found),
        discoverable(graph, view, heads, start, max_depth, name, near),
        discoverable(graph, view, heads, start, max_depth, name, far),
        near <= far,
    ensures
        exists|k: int|
            0 <= k < found.len() && (#[trigger] found[k]).0 == name && found[k].1 <= near
                && forall|l: int|
                0 <= l < found.len() && (#[trigger] found[l]).0 == name ==> l == k,
{
    assert(has_name(found, name));
    let k = choose|k: int| 0 <= k < found.len() && (#[trigger] found[k]).0 == name;
    assert(found[k].1 <= near);
    assert forall|l: int| 0 <= l < found.len() && (#[trigger] found[l]).0 == name implies l
        == k by {
        if l < k {
            assert(found[l].0 != found[k].0);
        } else if k < l {
            assert(found[k].0 != found[l].0);
        }
    }
}

} // verus!
