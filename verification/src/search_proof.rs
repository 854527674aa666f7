//! Why the ancestor search over a graph finds what it should: what holds
//! between two moves of the search, that each move keeps it, and what
//! follows from it once no commit waits any more.

use vstd::prelude::*;
use crate::ancestors::{
    after_expand, after_step, has_name, is_attached, named_at, recorded, wants_parents,
    SearchState,
};
use crate::graph::{
    discoverable, found_ordered, is_parent, is_search_result, lacks_commit, parents_of, reaches,
    start_state, CommitGraph,
};
use crate::refs::RefView;

verus! {

/// Whether `id` is dealt with at `depth`: looked at no deeper than that, or
/// waiting in the queue at that depth.
spec fn settled(state: SearchState, depths: Map<Seq<u8>, nat>, id: Seq<u8>, depth: nat) -> bool {
    (state.visited.contains(id) && depths[id] <= depth) || state.queue.contains((id, depth))
}

/// The queue holds commits that stand where it says, the nearest first, all
/// at `level` or one deeper.
spec fn queue_ok(
    graph: &CommitGraph,
    heads: Set<Seq<u8>>,
    start: Seq<u8>,
    state: SearchState,
    level: nat,
) -> bool {
    &&& forall|i: int|
        0 <= i < state.queue.len() ==> {
            &&& level <= (#[trigger] state.queue[i]).1 <= level + 1
            &&& 1 <= state.queue[i].1
            &&& (state.max_depth >= 1 ==> state.queue[i].1 <= state.max_depth)
            &&& reaches(graph, heads, start, state.queue[i].0, state.queue[i].1)
        }
    &&& forall|i: int, j: int|
        0 <= i < j < state.queue.len() ==> (#[trigger] state.queue[i]).1 <= (
        #[trigger] state.queue[j]).1
}

/// Each commit that was looked at stands at the depth noted for it, which
/// is within the limit and no deeper than `level`.
spec fn visited_ok(
    graph: &CommitGraph,
    heads: Set<Seq<u8>>,
    start: Seq<u8>,
    state: SearchState,
    depths: Map<Seq<u8>, nat>,
    level: nat,
) -> bool {
    &&& depths.dom() =~= state.visited
    &&& forall|id: Seq<u8>| #[trigger]
        state.visited.contains(id) ==> {
            &&& 1 <= depths[id] <= level
            &&& depths[id] <= state.max_depth
            &&& reaches(graph, heads, start, id, depths[id])
        }
}

/// Each parent of `start` is dealt with at depth 1.
spec fn starts_ok(
    graph: &CommitGraph,
    start: Seq<u8>,
    state: SearchState,
    depths: Map<Seq<u8>, nat>,
) -> bool {
    state.max_depth >= 1 ==> forall|q: Seq<u8>| #[trigger]
        is_parent(graph, start, q) ==> settled(state, depths, q, 1)
}

/// Each commit that was looked at, is not immutable and stands above the
/// limit is in the graph, and its parents are dealt with one deeper. The
/// commit `owed` is left out: its parents have not joined the queue yet.
spec fn closure_ok(
    graph: &CommitGraph,
    heads: Set<Seq<u8>>,
    state: SearchState,
    depths: Map<Seq<u8>, nat>,
    owed: Option<Seq<u8>>,
) -> bool {
    forall|c: Seq<u8>| #[trigger]
        state.visited.contains(c) && !heads.contains(c) && depths[c] < state.max_depth && owed
            != Some(c) ==> {
            &&& parents_of(graph, c) is Some
            &&& forall|q: Seq<u8>| #[trigger]
                is_parent(graph, c, q) ==> settled(state, depths, q, depths[c] + 1)
        }
}

/// Each entry of `found` is a bookmark on a commit that was looked at at
/// that depth.
spec fn found_sound(view: &RefView, state: SearchState, depths: Map<Seq<u8>, nat>, level: nat) -> bool {
    forall|k: int|
        0 <= k < state.found.len() ==> {
            &&& (#[trigger] state.found[k]).1 <= level
            &&& exists|c: Seq<u8>| #[trigger]
                state.visited.contains(c) && depths[c] == state.found[k].1 && named_at(
                    view,
                    c,
                    state.found[k].0,
                )
        }
}

/// Each bookmark on a commit that was looked at has an entry in `found`, no
/// deeper than the commit.
spec fn found_complete(view: &RefView, state: SearchState, depths: Map<Seq<u8>, nat>) -> bool {
    forall|c: Seq<u8>, name: Seq<char>|
        state.visited.contains(c) && #[trigger] named_at(view, c, name) ==> exists|k: int|
            0 <= k < state.found.len() && (#[trigger] state.found[k]).0 == name && state.found[k].1
                <= depths[c]
}

/// What holds of a search over `graph` between two steps.
pub(crate) closed spec fn search_inv(
    graph: &CommitGraph,
    view: &RefView,
    heads: Set<Seq<u8>>,
    start: Seq<u8>,
    state: SearchState,
    depths: Map<Seq<u8>, nat>,
    level: nat,
    owed: Option<Seq<u8>>,
) -> bool {
    &&& parents_of(graph, start) is Some
    &&& queue_ok(graph, heads, start, state, level)
    &&& visited_ok(graph, heads, start, state, depths, level)
    &&& starts_ok(graph, start, state, depths)
    &&& closure_ok(graph, heads, state, depths, owed)
    &&& found_ordered(state.found)
    &&& found_sound(view, state, depths, level)
    &&& found_complete(view, state, depths)
}

/// What noting the bookmarks on a commit does to `found`: what was there
/// stays in place, each new entry is a bookmark on the commit under
/// `depth`, each bookmark on the commit has an entry, and the order is kept.
proof fn lemma_recorded(
    found: Seq<(Seq<char>, nat)>,
    view: &RefView,
    id: Seq<u8>,
    depth: nat,
    upto: int,
)
    requires
        0 <= upto <= view.local_bookmarks@.len(),
        found_ordered(found),
        forall|k: int| 0 <= k < found.len() ==> (#[trigger] found[k]).1 <= depth,
    ensures
        ({
            let after = recorded(found, view, id, depth, upto);
            &&& after.len() >= found.len()
            &&& forall|k: int| 0 <= k < found.len() ==> #[trigger] after[k] == found[k]
            &&& forall|k: int|
                found.len() <= k < after.len() ==> (#[trigger] after[k]).1 == depth && named_at(
                    view,
                    id,
                    after[k].0,
                )
            &&& forall|place: int|
                0 <= place < upto && #[trigger] is_attached(view, place, id) ==> has_name(
                    after,
                    view.local_bookmarks@[place].name@,
                )
            &&& found_ordered(after)
        }),
    decreases upto,
{
    if upto > 0 {
        lemma_recorded(found, view, id, depth, upto - 1);
        let prior = recorded(found, view, id, depth, upto - 1);
        let after = recorded(found, view, id, depth, upto);
        let name = view.local_bookmarks@[upto - 1].name@;
        if is_attached(view, upto - 1, id) && !has_name(prior, name) {
            assert(after == prior.push((name, depth)));
            assert(after[prior.len() as int].0 == name);
            assert(has_name(after, name));
            assert forall|place: int|
                0 <= place < upto && #[trigger] is_attached(view, place, id) implies has_name(
                after,
                view.local_bookmarks@[place].name@,
            ) by {
                if place < upto - 1 {
                    let k = choose|k: int|
                        0 <= k < prior.len() && (#[trigger] prior[k]).0
                            == view.local_bookmarks@[place].name@;
                    assert(after[k].0 == view.local_bookmarks@[place].name@);
                }
            }
            assert forall|k: int, l: int| 0 <= k < l < after.len() implies (#[trigger] after[k]).0
                != (#[trigger] after[l]).0 && after[k].1 <= after[l].1 by {
                if l == prior.len() {
                    assert(prior[k].0 != name);
                    if k < found.len() {
                        assert(prior[k] == found[k]);
                    }
                } else {
                    assert(prior[k].0 != prior[l].0);
                }
            }
            assert forall|k: int| found.len() <= k < after.len() implies (#[trigger] after[k]).1
                == depth && named_at(view, id, after[k].0) by {
                if k == prior.len() {
                    assert(is_attached(view, upto - 1, id));
                } else {
                    assert(after[k] == prior[k]);
                }
            }
        } else {
            assert(after == prior);
            if is_attached(view, upto - 1, id) {
                assert(has_name(after, name));
            }
        }
    }
}

/// The depths noted after a step: the commit that the step looked at for
/// the first time gets the depth at which it stood in the queue.
pub(crate) open spec fn depths_after(state: SearchState, depths: Map<Seq<u8>, nat>) -> Map<Seq<u8>, nat> {
    if state.queue.len() > 0 && state.queue[0].1 <= state.max_depth && !state.visited.contains(
        state.queue[0].0,
    ) {
        depths.insert(state.queue[0].0, state.queue[0].1)
    } else {
        depths
    }
}

/// The commit whose parents are owed after a step.
spec fn owed_after(state: SearchState, heads: Set<Seq<u8>>) -> Option<Seq<u8>> {
    if wants_parents(state, heads) {
        Some(state.queue[0].0)
    } else {
        None
    }
}

/// One link more: what stands one parent link above a commit that is not
/// immutable stands one deeper.
proof fn lemma_reach_next(
    graph: &CommitGraph,
    heads: Set<Seq<u8>>,
    start: Seq<u8>,
    via: Seq<u8>,
    id: Seq<u8>,
    distance: nat,
)
    requires
        distance >= 1,
        reaches(graph, heads, start, via, distance),
        !heads.contains(via),
        is_parent(graph, via, id),
    ensures
        reaches(graph, heads, start, id, distance + 1),
{
    assert(reaches(graph, heads, start, via, ((distance + 1) - 1) as nat) && is_parent(
        graph,
        via,
        id,
    ));
}

/// The commit before the last on a way of two links or more.
proof fn lemma_reach_before(
    graph: &CommitGraph,
    heads: Set<Seq<u8>>,
    start: Seq<u8>,
    id: Seq<u8>,
    distance: nat,
) -> (via: Seq<u8>)
    requires
        distance >= 2,
        reaches(graph, heads, start, id, distance),
    ensures
        reaches(graph, heads, start, via, (distance - 1) as nat),
        !heads.contains(via),
        is_parent(graph, via, id),
{
    choose|via: Seq<u8>|
        {
            &&& reaches(graph, heads, start, via, (distance - 1) as nat)
            &&& !heads.contains(via)
            &&& #[trigger] is_parent(graph, via, id)
        }
}

/// Whether the step on `state` looks at a commit for the first time.
spec fn is_fresh(state: SearchState) -> bool {
    state.queue.len() > 0 && state.queue[0].1 <= state.max_depth && !state.visited.contains(
        state.queue[0].0,
    )
}

/// What was dealt with before a step is dealt with after it.
proof fn lemma_step_settled(
    graph: &CommitGraph,
    view: &RefView,
    heads: Set<Seq<u8>>,
    start: Seq<u8>,
    state: SearchState,
    depths: Map<Seq<u8>, nat>,
    level: nat,
    q: Seq<u8>,
    dd: nat,
)
    requires
        queue_ok(graph, heads, start, state, level),
        visited_ok(graph, heads, start, state, depths, level),
        state.queue.len() > 0,
        state.max_depth >= 1,
        settled(state, depths, q, dd),
    ensures
        settled(after_step(state, view), depths_after(state, depths), q, dd),
{
    let next = after_step(state, view);
    let nd = depths_after(state, depths);
    assert(next.queue == state.queue.drop_first());
    assert(state.queue[0].1 <= state.max_depth);
    assert(level <= state.queue[0].1);
    if state.visited.contains(q) && depths[q] <= dd {
        assert(next.visited.contains(q) && nd[q] == depths[q]);
    } else {
        let i = choose|i: int| 0 <= i < state.queue.len() && state.queue[i] == (q, dd);
        if i == 0 {
            if state.visited.contains(q) {
                assert(depths[q] <= level);
                assert(next.visited.contains(q) && nd[q] == depths[q]);
            } else {
                assert(is_fresh(state));
                assert(next.visited.contains(q) && nd[q] == dd);
            }
        } else {
            assert(next.queue[i - 1] == state.queue[i]);
            assert(next.queue.contains((q, dd)));
        }
    }
}

/// A step keeps the queue in order; the commit that left it gives the level.
proof fn lemma_step_queue(
    graph: &CommitGraph,
    view: &RefView,
    heads: Set<Seq<u8>>,
    start: Seq<u8>,
    state: SearchState,
    level: nat,
)
    requires
        queue_ok(graph, heads, start, state, level),
        state.queue.len() > 0,
    ensures
        queue_ok(graph, heads, start, after_step(state, view), state.queue[0].1),
        level <= state.queue[0].1,
{
    let next = after_step(state, view);
    let d = state.queue[0].1;
    assert(next.queue == state.queue.drop_first());
    assert forall|i: int| 0 <= i < next.queue.len() implies {
        &&& d <= (#[trigger] next.queue[i]).1 <= d + 1
        &&& 1 <= next.queue[i].1
        &&& (next.max_depth >= 1 ==> next.queue[i].1 <= next.max_depth)
        &&& reaches(graph, heads, start, next.queue[i].0, next.queue[i].1)
    } by {
        assert(next.queue[i] == state.queue[i + 1]);
        assert(state.queue[0].1 <= state.queue[i + 1].1);
    }
    assert forall|i: int, j: int| 0 <= i < j < next.queue.len() implies (
    #[trigger] next.queue[i]).1 <= (#[trigger] next.queue[j]).1 by {
        assert(next.queue[i] == state.queue[i + 1]);
        assert(next.queue[j] == state.queue[j + 1]);
        assert(state.queue[i + 1].1 <= state.queue[j + 1].1);
    }
}

/// A step keeps the depths right.
proof fn lemma_step_visited(
    graph: &CommitGraph,
    view: &RefView,
    heads: Set<Seq<u8>>,
    start: Seq<u8>,
    state: SearchState,
    depths: Map<Seq<u8>, nat>,
    level: nat,
)
    requires
        queue_ok(graph, heads, start, state, level),
        visited_ok(graph, heads, start, state, depths, level),
        state.queue.len() > 0,
    ensures
        visited_ok(
            graph,
            heads,
            start,
            after_step(state, view),
            depths_after(state, depths),
            state.queue[0].1,
        ),
{
    let next = after_step(state, view);
    let nd = depths_after(state, depths);
    let d = state.queue[0].1;
    assert(level <= d);
    assert(nd.dom() =~= next.visited);
    assert forall|c: Seq<u8>| #[trigger] next.visited.contains(c) implies {
        &&& 1 <= nd[c] <= d
        &&& nd[c] <= next.max_depth
        &&& reaches(graph, heads, start, c, nd[c])
    } by {
        if state.visited.contains(c) {
            assert(nd[c] == depths[c]);
        } else {
            assert(c == state.queue[0].0 && is_fresh(state));
            assert(nd[c] == d);
        }
    }
}

/// A step keeps the parents of `start` and of each expanded commit dealt
/// with; the commit that it looked at for the first time is owed.
proof fn lemma_step_closure(
    graph: &CommitGraph,
    view: &RefView,
    heads: Set<Seq<u8>>,
    start: Seq<u8>,
    state: SearchState,
    depths: Map<Seq<u8>, nat>,
    level: nat,
)
    requires
        queue_ok(graph, heads, start, state, level),
        visited_ok(graph, heads, start, state, depths, level),
        starts_ok(graph, start, state, depths),
        closure_ok(graph, heads, state, depths, None),
        state.queue.len() > 0,
    ensures
        starts_ok(graph, start, after_step(state, view), depths_after(state, depths)),
        closure_ok(
            graph,
            heads,
            after_step(state, view),
            depths_after(state, depths),
            owed_after(state, heads),
        ),
{
    let next = after_step(state, view);
    let nd = depths_after(state, depths);
    if state.max_depth >= 1 {
        assert forall|q: Seq<u8>| #[trigger] is_parent(graph, start, q) implies settled(
            next,
            nd,
            q,
            1,
        ) by {
            lemma_step_settled(graph, view, heads, start, state, depths, level, q, 1);
        }
    }
    assert forall|c: Seq<u8>| #[trigger]
        next.visited.contains(c) && !heads.contains(c) && nd[c] < next.max_depth && owed_after(
            state,
            heads,
        ) != Some(c) implies {
        &&& parents_of(graph, c) is Some
        &&& forall|q: Seq<u8>| #[trigger]
            is_parent(graph, c, q) ==> settled(next, nd, q, nd[c] + 1)
    } by {
        if state.visited.contains(c) {
            assert(nd[c] == depths[c]);
            assert forall|q: Seq<u8>| #[trigger] is_parent(graph, c, q) implies settled(
                next,
                nd,
                q,
                nd[c] + 1,
            ) by {
                assert(settled(state, depths, q, depths[c] + 1));
                lemma_step_settled(
                    graph,
                    view,
                    heads,
                    start,
                    state,
                    depths,
                    level,
                    q,
                    depths[c] + 1,
                );
            }
        } else {
            assert(c == state.queue[0].0 && is_fresh(state));
            assert(nd[c] == state.queue[0].1);
            assert(wants_parents(state, heads));
        }
    }
}

/// What a step does to `found`, where it looks at a commit for the first
/// time: the bookmarks on the commit are noted under its depth.
proof fn lemma_step_notes(view: &RefView, state: SearchState, level: nat)
    requires
        found_ordered(state.found),
        forall|k: int| 0 <= k < state.found.len() ==> (#[trigger] state.found[k]).1 <= level,
        state.queue.len() > 0,
        level <= state.queue[0].1,
    ensures
        ({
            let before = state.found;
            let after = after_step(state, view).found;
            &&& !is_fresh(state) ==> after == before
            &&& after.len() >= before.len()
            &&& forall|k: int| 0 <= k < before.len() ==> #[trigger] after[k] == before[k]
            &&& forall|k: int|
                before.len() <= k < after.len() ==> is_fresh(state) && (#[trigger] after[k]).1
                    == state.queue[0].1 && named_at(view, state.queue[0].0, after[k].0)
            &&& is_fresh(state) ==> forall|name: Seq<char>| #[trigger]
                named_at(view, state.queue[0].0, name) ==> has_name(after, name)
            &&& found_ordered(after)
        }),
{
    let id = state.queue[0].0;
    let d = state.queue[0].1;
    if is_fresh(state) {
        assert forall|k: int| 0 <= k < state.found.len() implies (#[trigger] state.found[k]).1
            <= d by {}
        lemma_recorded(state.found, view, id, d, view.local_bookmarks@.len() as int);
        let after = after_step(state, view).found;
        assert(after == recorded(state.found, view, id, d, view.local_bookmarks@.len() as int));
        assert forall|name: Seq<char>| #[trigger] named_at(view, id, name) implies has_name(
            after,
            name,
        ) by {
            let place = choose|place: int| #[trigger]
                is_attached(view, place, id) && view.local_bookmarks@[place].name@ == name;
            assert(has_name(after, view.local_bookmarks@[place].name@));
        }
    }
}

/// A step keeps each entry of `found` a bookmark on a commit that was
/// looked at at that depth.
proof fn lemma_step_found_sound(
    view: &RefView,
    state: SearchState,
    depths: Map<Seq<u8>, nat>,
    level: nat,
)
    requires
        found_ordered(state.found),
        found_sound(view, state, depths, level),
        state.queue.len() > 0,
        level <= state.queue[0].1,
    ensures
        found_ordered(after_step(state, view).found),
        found_sound(view, after_step(state, view), depths_after(state, depths), state.queue[0].1),
{
    let id = state.queue[0].0;
    let d = state.queue[0].1;
    let next = after_step(state, view);
    let nd = depths_after(state, depths);
    lemma_step_notes(view, state, level);
    assert forall|k: int| 0 <= k < next.found.len() implies {
        &&& (#[trigger] next.found[k]).1 <= d
        &&& exists|c: Seq<u8>| #[trigger]
            next.visited.contains(c) && nd[c] == next.found[k].1 && named_at(
                view,
                c,
                next.found[k].0,
            )
    } by {
        if k < state.found.len() {
            assert(next.found[k] == state.found[k]);
            let c = choose|c: Seq<u8>| #[trigger]
                state.visited.contains(c) && depths[c] == state.found[k].1 && named_at(
                    view,
                    c,
                    state.found[k].0,
                );
            assert(next.visited.contains(c) && nd[c] == next.found[k].1 && named_at(
                view,
                c,
                next.found[k].0,
            ));
        } else {
            assert(is_fresh(state));
            assert(next.visited.contains(id) && nd[id] == next.found[k].1 && named_at(
                view,
                id,
                next.found[k].0,
            ));
        }
    }
}

/// A step keeps an entry in `found` for each bookmark on a commit that was
/// looked at.
proof fn lemma_step_found_complete(
    view: &RefView,
    state: SearchState,
    depths: Map<Seq<u8>, nat>,
    level: nat,
)
    requires
        found_ordered(state.found),
        forall|k: int| 0 <= k < state.found.len() ==> (#[trigger] state.found[k]).1 <= level,
        found_complete(view, state, depths),
        state.queue.len() > 0,
        level <= state.queue[0].1,
    ensures
        found_complete(view, after_step(state, view), depths_after(state, depths)),
{
    let id = state.queue[0].0;
    let d = state.queue[0].1;
    let next = after_step(state, view);
    let nd = depths_after(state, depths);
    lemma_step_notes(view, state, level);
    assert forall|c: Seq<u8>, name: Seq<char>|
        next.visited.contains(c) && #[trigger] named_at(view, c, name) implies exists|k: int|
        0 <= k < next.found.len() && (#[trigger] next.found[k]).0 == name && next.found[k].1
            <= nd[c] by {
        if state.visited.contains(c) {
            let k = choose|k: int|
                0 <= k < state.found.len() && (#[trigger] state.found[k]).0 == name
                    && state.found[k].1 <= depths[c];
            assert(next.found[k] == state.found[k]);
            assert(nd[c] == depths[c]);
            assert(next.found[k].0 == name && next.found[k].1 <= nd[c]);
        } else {
            assert(c == id && is_fresh(state));
            assert(has_name(next.found, name));
            let k = choose|k: int|
                0 <= k < next.found.len() && (#[trigger] next.found[k]).0 == name;
            if k < state.found.len() {
                assert(next.found[k] == state.found[k]);
                assert(state.found[k].1 <= level);
            }
            assert(nd[c] == d);
            assert(next.found[k].0 == name && next.found[k].1 <= nd[c]);
        }
    }
}

/// A step keeps what holds of a search. The commit that left the queue
/// gives the new level.
pub(crate) proof fn lemma_step(
    graph: &CommitGraph,
    view: &RefView,
    heads: Set<Seq<u8>>,
    start: Seq<u8>,
    state: SearchState,
    depths: Map<Seq<u8>, nat>,
    level: nat,
)
    requires
        search_inv(graph, view, heads, start, state, depths, level, None),
        state.queue.len() > 0,
    ensures
        search_inv(
            graph,
            view,
            heads,
            start,
            after_step(state, view),
            depths_after(state, depths),
            state.queue[0].1,
            if wants_parents(state, heads) {
                Some(state.queue[0].0)
            } else {
                None
            },
        ),
        reaches(graph, heads, start, state.queue[0].0, state.queue[0].1),
{
    lemma_step_queue(graph, view, heads, start, state, level);
    lemma_step_visited(graph, view, heads, start, state, depths, level);
    lemma_step_closure(graph, view, heads, start, state, depths, level);
    lemma_step_found_sound(view, state, depths, level);
    lemma_step_found_complete(view, state, depths, level);
}

/// What was dealt with stays dealt with when commits join the queue.
proof fn lemma_expand_settled(
    state: SearchState,
    depths: Map<Seq<u8>, nat>,
    parents: Seq<Seq<u8>>,
    level: nat,
    q: Seq<u8>,
    dd: nat,
)
    requires
        settled(state, depths, q, dd),
    ensures
        settled(after_expand(state, parents, level), depths, q, dd),
{
    let next = after_expand(state, parents, level);
    if state.visited.contains(q) && depths[q] <= dd {
    } else {
        let i = choose|i: int| 0 <= i < state.queue.len() && state.queue[i] == (q, dd);
        assert(next.queue[i] == (q, dd));
    }
}

/// The parents of a commit at `level` join the queue in order.
proof fn lemma_expand_queue(
    graph: &CommitGraph,
    heads: Set<Seq<u8>>,
    start: Seq<u8>,
    state: SearchState,
    level: nat,
    id: Seq<u8>,
    parents: Seq<Seq<u8>>,
)
    requires
        queue_ok(graph, heads, start, state, level),
        reaches(graph, heads, start, id, level),
        1 <= level < state.max_depth,
        !heads.contains(id),
        parents_of(graph, id) == Some(parents),
    ensures
        queue_ok(graph, heads, start, after_expand(state, parents, level), level),
{
    let next = after_expand(state, parents, level);
    let old_len = state.queue.len() as int;
    assert forall|i: int| 0 <= i < next.queue.len() implies {
        &&& level <= (#[trigger] next.queue[i]).1 <= level + 1
        &&& 1 <= next.queue[i].1
        &&& (next.max_depth >= 1 ==> next.queue[i].1 <= next.max_depth)
        &&& reaches(graph, heads, start, next.queue[i].0, next.queue[i].1)
    } by {
        if i < old_len {
            assert(next.queue[i] == state.queue[i]);
        } else {
            let parent = parents[i - old_len];
            assert(next.queue[i] == (parent, (level + 1) as nat));
            assert(parents.contains(parent));
            assert(is_parent(graph, id, parent));
            lemma_reach_next(graph, heads, start, id, parent, level);
        }
    }
    assert forall|i: int, j: int| 0 <= i < j < next.queue.len() implies (
    #[trigger] next.queue[i]).1 <= (#[trigger] next.queue[j]).1 by {
        if j < old_len {
            assert(next.queue[i] == state.queue[i]);
            assert(next.queue[j] == state.queue[j]);
            assert(state.queue[i].1 <= state.queue[j].1);
        } else if i < old_len {
            assert(next.queue[i] == state.queue[i]);
            assert(state.queue[i].1 <= level + 1);
            assert(next.queue[j].1 == level + 1);
        } else {
            assert(next.queue[i].1 == level + 1);
            assert(next.queue[j].1 == level + 1);
        }
    }
}

/// With the parents of the owed commit in the queue, nothing is owed.
proof fn lemma_expand_closure(
    graph: &CommitGraph,
    heads: Set<Seq<u8>>,
    start: Seq<u8>,
    state: SearchState,
    depths: Map<Seq<u8>, nat>,
    level: nat,
    id: Seq<u8>,
    parents: Seq<Seq<u8>>,
)
    requires
        starts_ok(graph, start, state, depths),
        closure_ok(graph, heads, state, depths, Some(id)),
        depths[id] == level,
        parents_of(graph, id) == Some(parents),
    ensures
        starts_ok(graph, start, after_expand(state, parents, level), depths),
        closure_ok(graph, heads, after_expand(state, parents, level), depths, None),
{
    let next = after_expand(state, parents, level);
    let old_len = state.queue.len() as int;
    if state.max_depth >= 1 {
        assert forall|q: Seq<u8>| #[trigger] is_parent(graph, start, q) implies settled(
            next,
            depths,
            q,
            1,
        ) by {
            lemma_expand_settled(state, depths, parents, level, q, 1);
        }
    }
    assert forall|c: Seq<u8>| #[trigger]
        next.visited.contains(c) && !heads.contains(c) && depths[c] < next.max_depth implies {
        &&& parents_of(graph, c) is Some
        &&& forall|q: Seq<u8>| #[trigger]
            is_parent(graph, c, q) ==> settled(next, depths, q, depths[c] + 1)
    } by {
        if c == id {
            assert forall|q: Seq<u8>| #[trigger] is_parent(graph, c, q) implies settled(
                next,
                depths,
                q,
                depths[c] + 1,
            ) by {
                let j = choose|j: int| 0 <= j < parents.len() && parents[j] == q;
                assert(next.queue[old_len + j] == (q, (level + 1) as nat));
                assert(next.queue.contains((q, (level + 1) as nat)));
            }
        } else {
            assert(state.visited.contains(c));
            assert forall|q: Seq<u8>| #[trigger] is_parent(graph, c, q) implies settled(
                next,
                depths,
                q,
                depths[c] + 1,
            ) by {
                assert(settled(state, depths, q, depths[c] + 1));
                lemma_expand_settled(state, depths, parents, level, q, depths[c] + 1);
            }
        }
    }
}

/// The parents of the owed commit joining the queue keep what holds of a
/// search, and nothing is owed any more.
pub(crate) proof fn lemma_expand(
    graph: &CommitGraph,
    view: &RefView,
    heads: Set<Seq<u8>>,
    start: Seq<u8>,
    state: SearchState,
    depths: Map<Seq<u8>, nat>,
    level: nat,
    id: Seq<u8>,
    parents: Seq<Seq<u8>>,
)
    requires
        search_inv(graph, view, heads, start, state, depths, level, Some(id)),
        state.visited.contains(id),
        depths[id] == level,
        !heads.contains(id),
        level < state.max_depth,
        parents_of(graph, id) == Some(parents),
    ensures
        search_inv(
            graph,
            view,
            heads,
            start,
            after_expand(state, parents, level),
            depths,
            level,
            None,
        ),
{
    let next = after_expand(state, parents, level);
    assert(reaches(graph, heads, start, id, level) && 1 <= level);
    lemma_expand_queue(graph, heads, start, state, level, id, parents);
    lemma_expand_closure(graph, heads, start, state, depths, level, id, parents);
    assert(next.visited == state.visited && next.found == state.found && next.max_depth
        == state.max_depth);
}

/// Once the queue is empty, each commit that stands within the limit above
/// `start` was looked at, at that depth or nearer.
proof fn lemma_all_visited(
    graph: &CommitGraph,
    view: &RefView,
    heads: Set<Seq<u8>>,
    start: Seq<u8>,
    state: SearchState,
    depths: Map<Seq<u8>, nat>,
    level: nat,
    id: Seq<u8>,
    distance: nat,
)
    requires
        search_inv(graph, view, heads, start, state, depths, level, None),
        state.queue.len() == 0,
        1 <= distance <= state.max_depth,
        reaches(graph, heads, start, id, distance),
    ensures
        state.visited.contains(id),
        depths[id] <= distance,
    decreases distance,
{
    if distance == 1 {
        assert(is_parent(graph, start, id));
        assert(settled(state, depths, id, 1));
    } else {
        let via = lemma_reach_before(graph, heads, start, id, distance);
        lemma_all_visited(
            graph,
            view,
            heads,
            start,
            state,
            depths,
            level,
            via,
            (distance - 1) as nat,
        );
        assert(state.visited.contains(via));
        assert(is_parent(graph, via, id));
        assert(settled(state, depths, id, depths[via] + 1));
    }
}

/// What holds as a search starts.
pub(crate) proof fn lemma_start(
    graph: &CommitGraph,
    view: &RefView,
    heads: Set<Seq<u8>>,
    start: Seq<u8>,
    parents: Seq<Seq<u8>>,
    max_depth: nat,
)
    requires
        parents_of(graph, start) == Some(parents),
    ensures
        search_inv(
            graph,
            view,
            heads,
            start,
            start_state(parents, max_depth),
            Map::empty(),
            0,
            None,
        ),
{
    let state = start_state(parents, max_depth);
    let depths = Map::<Seq<u8>, nat>::empty();
    assert forall|i: int| 0 <= i < state.queue.len() implies reaches(
        graph,
        heads,
        start,
        (#[trigger] state.queue[i]).0,
        state.queue[i].1,
    ) by {
        assert(parents.contains(parents[i]));
    }
    assert(queue_ok(graph, heads, start, state, 0));
    assert(visited_ok(graph, heads, start, state, depths, 0));
    assert forall|q: Seq<u8>| #[trigger] is_parent(graph, start, q) implies settled(
        state,
        depths,
        q,
        1,
    ) by {
        let j = choose|j: int| 0 <= j < parents.len() && parents[j] == q;
        assert(state.queue[j] == (q, 1nat));
    }
}

/// Once the queue is empty, each entry of `found` is a bookmark that can
/// be found at its distance.
proof fn lemma_end_sound(
    graph: &CommitGraph,
    view: &RefView,
    heads: Set<Seq<u8>>,
    start: Seq<u8>,
    state: SearchState,
    depths: Map<Seq<u8>, nat>,
    level: nat,
    k: int,
)
    requires
        visited_ok(graph, heads, start, state, depths, level),
        found_sound(view, state, depths, level),
        0 <= k < state.found.len(),
    ensures
        discoverable(
            graph,
            view,
            heads,
            start,
            state.max_depth,
            state.found[k].0,
            state.found[k].1,
        ),
{
    let c = choose|c: Seq<u8>| #[trigger]
        state.visited.contains(c) && depths[c] == state.found[k].1 && named_at(
            view,
            c,
            state.found[k].0,
        );
    assert(reaches(graph, heads, start, c, state.found[k].1));
}

/// Once the queue is empty, a bookmark that can be found at a distance has
/// an entry in `found`, at that distance or nearer.
proof fn lemma_end_complete(
    graph: &CommitGraph,
    view: &RefView,
    heads: Set<Seq<u8>>,
    start: Seq<u8>,
    state: SearchState,
    depths: Map<Seq<u8>, nat>,
    level: nat,
    name: Seq<char>,
    distance: nat,
) -> (k: int)
    requires
        search_inv(graph, view, heads, start, state, depths, level, None),
        state.queue.len() == 0,
        discoverable(graph, view, heads, start, state.max_depth, name, distance),
    ensures
        0 <= k < state.found.len(),
        state.found[k].0 == name,
        state.found[k].1 <= distance,
{
    let id = choose|id: Seq<u8>| #[trigger]
        reaches(graph, heads, start, id, distance) && named_at(view, id, name);
    lemma_all_visited(graph, view, heads, start, state, depths, level, id, distance);
    choose|k: int|
        0 <= k < state.found.len() && (#[trigger] state.found[k]).0 == name && state.found[k].1
            <= depths[id]
}

/// Once the queue is empty, the graph holds each commit whose parents the
/// search needs.
proof fn lemma_end_known(
    graph: &CommitGraph,
    view: &RefView,
    heads: Set<Seq<u8>>,
    start: Seq<u8>,
    state: SearchState,
    depths: Map<Seq<u8>, nat>,
    level: nat,
)
    requires
        search_inv(graph, view, heads, start, state, depths, level, None),
        state.queue.len() == 0,
    ensures
        !lacks_commit(graph, heads, start, state.max_depth),
{
    assert forall|id: Seq<u8>, distance: nat|
        distance < state.max_depth && #[trigger] reaches(graph, heads, start, id, distance)
            && !heads.contains(id) implies parents_of(graph, id) is Some by {
        lemma_all_visited(graph, view, heads, start, state, depths, level, id, distance);
    }
}

/// What holds as a search ends.
pub(crate) proof fn lemma_end(
    graph: &CommitGraph,
    view: &RefView,
    heads: Set<Seq<u8>>,
    start: Seq<u8>,
    state: SearchState,
    depths: Map<Seq<u8>, nat>,
    level: nat,
)
    requires
        search_inv(graph, view, heads, start, state, depths, level, None),
        state.queue.len() == 0,
    ensures
        is_search_result(graph, view, heads, start, state.max_depth, state.found),
        !lacks_commit(graph, heads, start, state.max_depth),
{
    let found = state.found;
    let max_depth = state.max_depth;
    lemma_end_known(graph, view, heads, start, state, depths, level);
    assert forall|k: int| 0 <= k < found.len() implies discoverable(
        graph,
        view,
        heads,
        start,
        max_depth,
        (#[trigger] found[k]).0,
        found[k].1,
    ) by {
        lemma_end_sound(graph, view, heads, start, state, depths, level, k);
    }
    assert forall|k: int, distance: nat|
        0 <= k < found.len() && #[trigger] discoverable(
            graph,
            view,
            heads,
            start,
            max_depth,
            found[k].0,
            distance,
        ) implies found[k].1 <= distance by {
        let l = lemma_end_complete(
            graph,
            view,
            heads,
            start,
            state,
            depths,
            level,
            found[k].0,
            distance,
        );
        if l < k {
            assert(found[l].0 != found[k].0);
        } else if k < l {
            assert(found[k].0 != found[l].0);
        }
    }
    assert forall|name: Seq<char>, distance: nat| #[trigger]
        discoverable(graph, view, heads, start, max_depth, name, distance) implies has_name(
        found,
        name,
    ) by {
        let k = lemma_end_complete(
            graph,
            view,
            heads,
            start,
            state,
            depths,
            level,
            name,
            distance,
        );
        assert(found[k].0 == name);
    }
}

} // verus!
