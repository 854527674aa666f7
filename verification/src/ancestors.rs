//! The search for the nearest bookmarks among the ancestors of the
//! working-copy commit.
//!
//! The search goes breadth first over parent links. It looks at each commit
//! once, notes the bookmarks on it under the depth at which it stands, and
//! goes on to the parents of a commit only where the commit is not immutable
//! and the depth limit is not reached. The commits come from the caller one
//! at a time, so that a caller that reads them from a store reads only those
//! that the search asks for.

use vstd::prelude::*;
use std::collections::VecDeque;
use crate::jj::{bookmark_entries, Bookmark};
use crate::refs::{target_adds, CommitId, CommitSet, RefView};
use crate::text::same_text;

verus! {

/// The identifiers in `ids`, in order.
pub open spec fn ids_of(ids: Seq<CommitId>) -> Seq<Seq<u8>> {
    Seq::new(ids.len(), |i: int| ids[i]@)
}

/// Whether the local bookmark at `place` is on the commit `id`.
pub open spec fn is_attached(view: &RefView, place: int, id: Seq<u8>) -> bool {
    0 <= place < view.local_bookmarks@.len() && target_adds(
        view.local_bookmarks@[place].target@,
        id,
    )
}

/// Whether a local bookmark called `name` is on the commit `id`.
pub open spec fn named_at(view: &RefView, id: Seq<u8>, name: Seq<char>) -> bool {
    exists|place: int| #[trigger]
        is_attached(view, place, id) && view.local_bookmarks@[place].name@ == name
}

/// Whether `found` holds an entry for `name`.
pub open spec fn has_name(found: Seq<(Seq<char>, nat)>, name: Seq<char>) -> bool {
    exists|k: int| 0 <= k < found.len() && (#[trigger] found[k]).0 == name
}

/// `found` after the bookmarks on `id` among the first `upto` local
/// bookmarks were noted under `depth`: each name that `found` does not hold
/// yet is added at the end, and a name that it holds keeps its entry.
pub open spec fn recorded(
    found: Seq<(Seq<char>, nat)>,
    view: &RefView,
    id: Seq<u8>,
    depth: nat,
    upto: int,
) -> Seq<(Seq<char>, nat)>
    decreases upto,
{
    if upto <= 0 {
        found
    } else {
        let prior = recorded(found, view, id, depth, upto - 1);
        let name = view.local_bookmarks@[upto - 1].name@;
        if is_attached(view, upto - 1, id) && !has_name(prior, name) {
            prior.push((name, depth))
        } else {
            prior
        }
    }
}

/// What a search holds at one moment.
pub struct SearchState {
    /// Commits that wait to be looked at, each with its depth, first in
    /// first out.
    pub queue: Seq<(Seq<u8>, nat)>,
    /// Commits that were looked at.
    pub visited: Set<Seq<u8>>,
    /// Names found so far with their depths, in the order of finding.
    pub found: Seq<(Seq<char>, nat)>,
    pub max_depth: nat,
}

/// Whether the next step looks at a commit for the first time and then
/// needs its parents: the first commit in the queue is within the limit,
/// was not looked at before, is not immutable, and stands above the limit.
pub open spec fn wants_parents(state: SearchState, heads: Set<Seq<u8>>) -> bool {
    state.queue.len() > 0 && state.queue[0].1 < state.max_depth && !state.visited.contains(
        state.queue[0].0,
    ) && !heads.contains(state.queue[0].0)
}

/// The state after one step. The first commit leaves the queue. Where it
/// stands beyond the limit or was looked at before, nothing else changes;
/// else it counts as looked at and the bookmarks on it are noted.
pub open spec fn after_step(state: SearchState, view: &RefView) -> SearchState {
    if state.queue.len() == 0 {
        state
    } else {
        let id = state.queue[0].0;
        let depth = state.queue[0].1;
        if depth > state.max_depth || state.visited.contains(id) {
            SearchState {
                queue: state.queue.drop_first(),
                visited: state.visited,
                found: state.found,
                max_depth: state.max_depth,
            }
        } else {
            SearchState {
                queue: state.queue.drop_first(),
                visited: state.visited.insert(id),
                found: recorded(
                    state.found,
                    view,
                    id,
                    depth,
                    view.local_bookmarks@.len() as int,
                ),
                max_depth: state.max_depth,
            }
        }
    }
}

/// The state after the parents of a commit at `depth` joined the queue,
/// one deeper and in their order.
pub open spec fn after_expand(state: SearchState, parents: Seq<Seq<u8>>, depth: nat) -> SearchState {
    SearchState {
        queue: state.queue + Seq::new(parents.len(), |i: int| (parents[i], depth + 1)),
        visited: state.visited,
        found: state.found,
        max_depth: state.max_depth,
    }
}

/// What a step of the search came to.
#[derive(Debug)]
pub enum Step {
    /// Nothing waits any more: the search is over.
    Finished,
    /// A commit left the queue and nothing is owed.
    Passed,
    /// A commit was looked at for the first time. The caller owes the
    /// search the parents of `id`, which stands at `depth`.
    Expand { id: CommitId, depth: usize },
}

/// A search in progress. What was found is kept as a list, each name once
/// and in the order of finding, which is the order of the result.
pub struct AncestorSearch {
    queue: VecDeque<(CommitId, usize)>,
    visited: CommitSet,
    found: Vec<Bookmark>,
    max_depth: usize,
}

impl View for AncestorSearch {
    type V = SearchState;

    closed spec fn view(&self) -> SearchState {
        SearchState {
            queue: Seq::new(
                self.queue@.len(),
                |i: int| (self.queue@[i].0@, self.queue@[i].1 as nat),
            ),
            visited: self.visited@,
            found: bookmark_entries(self.found@),
            max_depth: self.max_depth as nat,
        }
    }
}

impl AncestorSearch {
    /// What the fields must keep for the search to go on.
    pub closed spec fn well_formed(&self) -> bool {
        self.visited.well_formed()
    }

    /// Starts a search from the parents of the working-copy commit, which
    /// stand at depth 1.
    pub fn new(parents: &Vec<CommitId>, max_depth: usize) -> (search: AncestorSearch)
        ensures
            search.well_formed(),
            search@ == (SearchState {
                queue: Seq::new(parents@.len(), |i: int| (parents@[i]@, 1nat)),
                visited: Set::empty(),
                found: Seq::empty(),
                max_depth: max_depth as nat,
            }),
    {
        let mut queue: VecDeque<(CommitId, usize)> = VecDeque::new();
        let mut i: usize = 0;
        while i < parents.len()
            invariant
                i <= parents.len(),
                queue@.len() == i,
                forall|j: int|
                    0 <= j < i ==> (#[trigger] queue@[j]).0@ == parents@[j]@ && queue@[j].1 == 1,
            decreases parents.len() - i,
        {
            queue.push_back((parents[i].duplicate(), 1));
            i += 1;
        }
        let search = AncestorSearch {
            queue,
            visited: CommitSet::new(),
            found: Vec::new(),
            max_depth,
        };
        assert(search@.queue =~= Seq::new(parents@.len(), |i: int| (parents@[i]@, 1nat)));
        assert(search@.found =~= Seq::empty());
        search
    }

    fn has_found(&self, name: &str) -> (held: bool)
        ensures
            held == has_name(bookmark_entries(self.found@), name@),
    {
        let mut k: usize = 0;
        while k < self.found.len()
            invariant
                k <= self.found.len(),
                forall|j: int| 0 <= j < k ==> (#[trigger] bookmark_entries(self.found@)[j]).0 != name@,
            decreases self.found.len() - k,
        {
            if same_text(self.found[k].name.as_str(), name) {
                assert(bookmark_entries(self.found@)[k as int].0 == name@);
                return true;
            }
            assert(bookmark_entries(self.found@)[k as int].0 != name@);
            k += 1;
        }
        false
    }

    fn record(&mut self, view: &RefView, id: &CommitId, depth: usize)
        ensures
            final(self).queue == old(self).queue,
            final(self).visited == old(self).visited,
            final(self).max_depth == old(self).max_depth,
            bookmark_entries(final(self).found@) == recorded(
                bookmark_entries(old(self).found@),
                view,
                id@,
                depth as nat,
                view.local_bookmarks@.len() as int,
            ),
    {
        let mut place: usize = 0;
        while place < view.local_bookmarks.len()
            invariant
                place <= view.local_bookmarks.len(),
                self.queue == old(self).queue,
                self.visited == old(self).visited,
                self.max_depth == old(self).max_depth,
                bookmark_entries(self.found@) == recorded(
                    bookmark_entries(old(self).found@),
                    view,
                    id@,
                    depth as nat,
                    place as int,
                ),
            decreases view.local_bookmarks.len() - place,
        {
            let entry = &view.local_bookmarks[place];
            if entry.target.adds(id) && !self.has_found(entry.name.as_str()) {
                let ghost before = bookmark_entries(self.found@);
                self.found.push(Bookmark { name: entry.name.clone(), distance: depth });
                assert(bookmark_entries(self.found@) =~= before.push((entry.name@, depth as nat)));
            }
            place += 1;
        }
    }

    /// Takes the next commit from the queue and looks at it.
    pub fn step(&mut self, view: &RefView, heads: &CommitSet) -> (outcome: Step)
        requires
            old(self).well_formed(),
        ensures
            final(self).well_formed(),
            final(self)@ == after_step(old(self)@, view),
            match outcome {
                Step::Finished => old(self)@.queue.len() == 0,
                Step::Passed => old(self)@.queue.len() > 0 && !wants_parents(old(self)@, heads@),
                Step::Expand { id, depth } => wants_parents(old(self)@, heads@) && (
                    id@,
                    depth as nat,
                ) == old(self)@.queue[0],
            },
            match outcome {
                Step::Expand { id, depth } => {
                    &&& !old(self)@.visited.contains(id@)
                    &&& final(self)@.visited.contains(id@)
                    &&& !heads@.contains(id@)
                    &&& depth < old(self)@.max_depth
                },
                _ => true,
            },
            old(self)@.visited.subset_of(final(self)@.visited),
    {
        let ghost before = self@;
        match self.queue.pop_front() {
            None => {
                assert(self@.queue =~= before.queue);
                Step::Finished
            },
            Some((id, depth)) => {
                assert(self@.queue =~= before.queue.drop_first());
                assert(before.queue[0] == (id@, depth as nat));
                if depth > self.max_depth || self.visited.contains(&id) {
                    return Step::Passed;
                }
                self.visited.insert(id.duplicate());
                self.record(view, &id, depth);
                if heads.contains(&id) || depth >= self.max_depth {
                    Step::Passed
                } else {
                    Step::Expand { id, depth }
                }
            },
        }
    }

    /// Puts the parents of a commit that stands at `depth` at the end of the
    /// queue, one deeper.
    pub fn expand(&mut self, parents: &Vec<CommitId>, depth: usize)
        requires
            old(self).well_formed(),
            depth < old(self)@.max_depth,
        ensures
            final(self).well_formed(),
            final(self)@ == after_expand(old(self)@, ids_of(parents@), depth as nat),
    {
        let ghost before = self@;
        let mut i: usize = 0;
        while i < parents.len()
            invariant
                i <= parents.len(),
                depth < usize::MAX,
                self.well_formed(),
                self@ == after_expand(before, ids_of(parents@).take(i as int), depth as nat),
            decreases parents.len() - i,
        {
            let ghost prior = self@;
            self.queue.push_back((parents[i].duplicate(), depth + 1));
            assert(self@.queue =~= prior.queue.push((parents@[i as int]@, (depth + 1) as nat)));
            assert(self@.queue =~= after_expand(
                before,
                ids_of(parents@).take(i as int + 1),
                depth as nat,
            ).queue);
            i += 1;
        }
        assert(ids_of(parents@).take(i as int) =~= ids_of(parents@));
    }

    /// Ends the search and hands out what it found, nearest first.
    pub fn finish(self) -> (found: Vec<Bookmark>)
        ensures
            bookmark_entries(found@) == self@.found,
    {
        self.found
    }
}

/// The commit that the step on `state` looks at for the first time, if it
/// looks at one.
pub open spec fn looks_at(state: SearchState) -> Option<Seq<u8>> {
    if state.queue.len() > 0 && state.queue[0].1 <= state.max_depth && !state.visited.contains(
        state.queue[0].0,
    ) {
        Some(state.queue[0].0)
    } else {
        None
    }
}

/// Whether `after` follows `before` by one move of the search: a step, and
/// then the parents of the commit joining the queue where the step asks for
/// them.
pub open spec fn is_move(
    before: SearchState,
    after: SearchState,
    view: &RefView,
    heads: Set<Seq<u8>>,
) -> bool {
    if wants_parents(before, heads) {
        exists|parents: Seq<Seq<u8>>| #[trigger]
            after_expand(after_step(before, view), parents, before.queue[0].1) == after
    } else {
        after == after_step(before, view)
    }
}

/// Whether each state of `run` follows the one before it by one move.
pub open spec fn is_run(run: Seq<SearchState>, view: &RefView, heads: Set<Seq<u8>>) -> bool {
    forall|i: int| 0 <= i < run.len() - 1 ==> is_move(#[trigger] run[i], run[i + 1], view, heads)
}

/// What was looked at stays looked at.
pub proof fn lemma_visited_grows(
    run: Seq<SearchState>,
    view: &RefView,
    heads: Set<Seq<u8>>,
    i: int,
    j: int,
)
    requires
        is_run(run, view, heads),
        0 <= i <= j < run.len(),
    ensures
        run[i].visited.subset_of(run[j].visited),
    decreases j - i,
{
    if i < j {
        lemma_visited_grows(run, view, heads, i, j - 1);
        assert(is_move(run[j - 1], run[j], view, heads));
        assert(run[j - 1].visited.subset_of(run[j].visited));
    }
}

/// No commit is looked at twice, by however many ways the search comes to
/// it: the commit that one move looks at for the first time is not what a
/// later move looks at.
pub proof fn lemma_looked_at_once(
    run: Seq<SearchState>,
    view: &RefView,
    heads: Set<Seq<u8>>,
    i: int,
    j: int,
)
    requires
        is_run(run, view, heads),
        0 <= i < j < run.len(),
        looks_at(run[i]) is Some,
    ensures
        looks_at(run[j]) != looks_at(run[i]),
{
    let id = looks_at(run[i])->0;
    assert(is_move(run[i], run[i + 1], view, heads));
    assert(run[i + 1].visited.contains(id));
    lemma_visited_grows(run, view, heads, i + 1, j);
    assert(run[j].visited.contains(id));
}

/// The search does not go past an immutable commit: a move that takes one
/// from the queue puts nothing into the queue.
pub proof fn lemma_stops_at_immutable(
    before: SearchState,
    after: SearchState,
    view: &RefView,
    heads: Set<Seq<u8>>,
)
    requires
        is_move(before, after, view, heads),
        before.queue.len() > 0,
        heads.contains(before.queue[0].0),
    ensures
        after.queue == before.queue.drop_first(),
{
}

/// The search does not go past the limit: a move that takes a commit at the
/// limit or beyond from the queue puts nothing into the queue.
pub proof fn lemma_stops_at_limit(
    before: SearchState,
    after: SearchState,
    view: &RefView,
    heads: Set<Seq<u8>>,
)
    requires
        is_move(before, after, view, heads),
        before.queue.len() > 0,
        before.queue[0].1 >= before.max_depth,
    ensures
        after.queue == before.queue.drop_first(),
{
}

} // verus!
