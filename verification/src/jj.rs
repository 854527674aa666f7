//! The status record of a working-copy commit.

use vstd::prelude::*;
use vstd::string::*;
use crate::change_id::{reverse_hex, stored_change_id, STORED_CHANGE_ID_LEN};
use crate::error::Error;
pub use crate::graph::find_ancestor_bookmarks;
use crate::graph::{
    is_search_outcome, is_search_result, lacks_commit, missing_commit_text, CommitGraph,
};
pub use crate::heads::find_immutable_heads;
use crate::heads::immutable_heads;
use crate::refs::{target_adds, CommitId, CommitSet, RefView};
pub use crate::sync::check_remote_sync;
use crate::sync::remote_sync;
use crate::text::clipped;

verus! {

/// A bookmark found on the working-copy commit or on one of its ancestors.
#[derive(Debug)]
pub struct Bookmark {
    pub name: String,
    /// Parent hops from the working-copy commit; 0 on the commit itself.
    pub distance: usize,
}

/// What a prompt shows of the working-copy commit.
#[derive(Debug)]
pub struct JjStatus {
    pub repo_root: String,
    /// The leading characters of the change identifier.
    pub change_id: String,
    /// How many leading characters of `change_id` tell it apart from every
    /// other change in the repository.
    pub change_id_prefix_len: usize,
    /// Nearest first.
    pub bookmarks: Vec<Bookmark>,
    /// First line of the commit message.
    pub description: String,
    pub empty: bool,
    pub conflict: bool,
    pub divergent: bool,
    pub hidden: bool,
    pub immutable: bool,
    pub has_remote: bool,
    pub is_synced: bool,
}

/// The names of `bookmarks`, in order.
pub open spec fn bookmark_names(bookmarks: Seq<Bookmark>) -> Seq<Seq<char>> {
    Seq::new(bookmarks.len(), |i: int| bookmarks[i].name@)
}

/// How many parent links `collect` follows above the working-copy commit.
pub const MAX_DEPTH: usize = 10;

/// What a bookmark list holds, as names and distances.
pub open spec fn bookmark_entries(bookmarks: Seq<Bookmark>) -> Seq<(Seq<char>, nat)> {
    Seq::new(bookmarks.len(), |i: int| (bookmarks[i].name@, bookmarks[i].distance as nat))
}

/// What a repository says of its working-copy commit.
#[derive(Debug)]
pub struct WorkingCopy {
    pub commit_id: CommitId,
    /// The change identifier as bytes.
    pub change_id: Vec<u8>,
    /// How many characters of the change identifier tell it apart from
    /// every other; nothing where the repository could not say.
    pub unique_prefix_len: Option<usize>,
    /// The commit changes nothing against its parents.
    pub empty: bool,
    pub conflict: bool,
    /// How many visible commits bear the change identifier; nothing where
    /// the repository could not say.
    pub visible_commits: Option<usize>,
    /// Whether the commit is outside the visible ones; nothing where the
    /// repository could not say.
    pub hidden: Option<bool>,
    /// The whole commit message.
    pub description: String,
}

/// The first line of a text, without its line ending: what stands before
/// the first line feed, less one carriage return just before it.
pub open spec fn first_line(text: Seq<char>) -> Seq<char> {
    match text.index_of_first('\n') {
        Some(at) => {
            let line = text.take(at);
            if line.len() > 0 && line.last() == '\r' {
                line.drop_last()
            } else {
                line
            }
        },
        None => text,
    }
}

/// The names of the local bookmarks on `id` among the first `upto`, in
/// order.
pub open spec fn names_on(view: &RefView, id: Seq<u8>, upto: int) -> Seq<Seq<char>>
    decreases upto,
{
    if upto <= 0 {
        Seq::empty()
    } else {
        let prior = names_on(view, id, upto - 1);
        if upto <= view.local_bookmarks@.len() && target_adds(
            view.local_bookmarks@[upto - 1].target@,
            id,
        ) {
            prior.push(view.local_bookmarks@[upto - 1].name@)
        } else {
            prior
        }
    }
}

/// The bookmarks of a status: those on the commit itself at distance 0, in
/// the order of the repository, and then those of its ancestors.
pub open spec fn status_bookmarks(
    view: &RefView,
    id: Seq<u8>,
    ancestors: Seq<(Seq<char>, nat)>,
) -> Seq<(Seq<char>, nat)> {
    let own = names_on(view, id, view.local_bookmarks@.len() as int);
    Seq::new(own.len(), |i: int| (own[i], 0nat)) + ancestors
}

/// The length of the unique part of the stored change identifier: what the
/// repository said, or 8 where it said nothing, and no more than is stored.
pub open spec fn stored_prefix_len(given: Option<usize>, stored: nat) -> nat {
    let wanted = match given {
        Some(len) => len as nat,
        None => 8nat,
    };
    if wanted < stored {
        wanted
    } else {
        stored
    }
}

/// Whether `status` is what follows from the facts of the working-copy
/// commit, the references, the immutable commits and the bookmarks found on
/// the ancestors.
pub open spec fn is_status_of(
    status: &JjStatus,
    repo_root: Seq<char>,
    commit: &WorkingCopy,
    view: &RefView,
    heads: Set<Seq<u8>>,
    ancestors: Seq<(Seq<char>, nat)>,
) -> bool {
    &&& status.repo_root@ == repo_root
    &&& status.change_id@ == clipped(
        reverse_hex(commit.change_id@),
        STORED_CHANGE_ID_LEN as int,
    )
    &&& status.change_id_prefix_len == stored_prefix_len(
        commit.unique_prefix_len,
        status.change_id@.len(),
    )
    &&& bookmark_entries(status.bookmarks@) == status_bookmarks(view, commit.commit_id@, ancestors)
    &&& status.description@ == first_line(commit.description@)
    &&& status.empty == commit.empty
    &&& status.conflict == commit.conflict
    &&& status.divergent == (commit.visible_commits matches Some(count) && count > 1)
    &&& status.hidden == (commit.hidden == Some(true))
    &&& status.immutable == heads.contains(commit.commit_id@)
    &&& (status.has_remote, status.is_synced) == remote_sync(view, status.bookmarks@)
}

/// Cuts a text down to its first line.
pub fn take_first_line(text: &str) -> (line: String)
    ensures
        line@ == first_line(text@),
{
    let len = text.unicode_len();
    let mut at: usize = 0;
    while at < len && text.get_char(at) != '\n'
        invariant
            at <= len,
            len == text@.len(),
            forall|j: int| 0 <= j < at ==> text@[j] != '\n',
        decreases len - at,
    {
        at += 1;
    }
    proof {
        text@.index_of_first_ensures('\n');
    }
    if at < len {
        assert(text@.index_of_first('\n') == Some(at as int)) by {
            text@.index_of_first_ensures('\n');
            assert(text@[at as int] == '\n');
        }
        assert(text@.take(at as int) =~= text@.subrange(0, at as int));
        if at > 0 && text.get_char(at - 1) == '\r' {
            assert(text@.take(at as int).drop_last() =~= text@.subrange(0, at as int - 1));
            String::from_str(text.substring_char(0, at - 1))
        } else {
            String::from_str(text.substring_char(0, at))
        }
    } else {
        assert(text@.index_of_first('\n') is None) by {
            text@.index_of_first_ensures('\n');
            if text@.contains('\n') {
                let j = choose|j: int| 0 <= j < text@.len() && text@[j] == '\n';
                assert(text@[j] != '\n');
            }
        }
        String::from_str(text)
    }
}

/// The bookmarks on the commit itself, each at distance 0.
fn own_bookmarks(view: &RefView, id: &CommitId) -> (found: Vec<Bookmark>)
    ensures
        bookmark_entries(found@) == status_bookmarks(view, id@, Seq::empty()),
{
    let mut found: Vec<Bookmark> = Vec::new();
    let mut place: usize = 0;
    while place < view.local_bookmarks.len()
        invariant
            place <= view.local_bookmarks.len(),
            found@.len() == names_on(view, id@, place as int).len(),
            forall|i: int|
                0 <= i < found@.len() ==> (#[trigger] found@[i]).name@ == names_on(
                    view,
                    id@,
                    place as int,
                )[i] && found@[i].distance == 0,
        decreases view.local_bookmarks.len() - place,
    {
        let entry = &view.local_bookmarks[place];
        if entry.target.adds(id) {
            found.push(Bookmark { name: entry.name.clone(), distance: 0 });
        }
        place += 1;
    }
    assert(bookmark_entries(found@) =~= status_bookmarks(view, id@, Seq::empty()));
    found
}

/// Puts a status together from the facts of the working-copy commit, the
/// references, the immutable commits and the bookmarks found on the
/// ancestors.
pub fn assemble_status(
    repo_root: &str,
    commit: &WorkingCopy,
    view: &RefView,
    immutable_heads: &CommitSet,
    ancestors: Vec<Bookmark>,
) -> (status: JjStatus)
    ensures
        is_status_of(
            &status,
            repo_root@,
            commit,
            view,
            immutable_heads@,
            bookmark_entries(ancestors@),
        ),
{
    let change_id = stored_change_id(&commit.change_id);
    let stored = change_id.as_str().unicode_len();
    let wanted = match commit.unique_prefix_len {
        Some(len) => len,
        None => 8,
    };
    let change_id_prefix_len = if wanted < stored {
        wanted
    } else {
        stored
    };
    let divergent = match commit.visible_commits {
        Some(count) => count > 1,
        None => false,
    };
    let hidden = match commit.hidden {
        Some(hidden) => hidden,
        None => false,
    };
    let immutable = immutable_heads.contains(&commit.commit_id);
    let description = take_first_line(commit.description.as_str());
    let mut bookmarks = own_bookmarks(view, &commit.commit_id);
    let ghost own = bookmark_entries(bookmarks@);
    let mut ancestors = ancestors;
    let ghost found = bookmark_entries(ancestors@);
    bookmarks.append(&mut ancestors);
    assert(bookmark_entries(bookmarks@) =~= own + found);
    assert(own + found =~= status_bookmarks(view, commit.commit_id@, found));
    let state = check_remote_sync(view, &bookmarks);
    JjStatus {
        repo_root: String::from_str(repo_root),
        change_id,
        change_id_prefix_len,
        bookmarks,
        description,
        empty: commit.empty,
        conflict: commit.conflict,
        divergent,
        hidden,
        immutable,
        has_remote: state.0,
        is_synced: state.1,
    }
}

/// A repository as far as a status needs it, held in memory.
#[derive(Debug)]
pub struct Repository {
    /// The directory that holds the repository.
    pub root: String,
    /// The working-copy commit, where the repository records one for the
    /// workspace.
    pub working_copy: Option<WorkingCopy>,
    pub view: RefView,
    pub graph: CommitGraph,
}

/// Whether `status` is the status of the working-copy commit `commit` of
/// `repository`: its bookmarks on the ancestors are what the search up to
/// `MAX_DEPTH` ends with, and the rest follows from the facts.
pub open spec fn is_collected(status: &JjStatus, repository: &Repository, commit: &WorkingCopy) -> bool {
    let heads = immutable_heads(&repository.view);
    let own = names_on(
        &repository.view,
        commit.commit_id@,
        repository.view.local_bookmarks@.len() as int,
    );
    let ancestors = bookmark_entries(status.bookmarks@).skip(own.len() as int);
    &&& own.len() <= status.bookmarks@.len()
    &&& is_search_outcome(
        &repository.graph,
        &repository.view,
        heads,
        commit.commit_id@,
        MAX_DEPTH as nat,
        ancestors,
    )
    &&& is_search_result(
        &repository.graph,
        &repository.view,
        heads,
        commit.commit_id@,
        MAX_DEPTH as nat,
        ancestors,
    )
    &&& is_status_of(status, repository.root@, commit, &repository.view, heads, ancestors)
}

/// Derives the status of the working-copy commit of a repository held in
/// memory. There is no status where there is no repository, or where the
/// repository records no working-copy commit. A commit that the ancestor
/// search needs and that the repository does not hold is an error.
pub fn collect(repository: Option<&Repository>) -> (result: Result<Option<JjStatus>, Error>)
    ensures
        match (repository, result) {
            (None, Ok(None)) => true,
            (Some(repository), Ok(None)) => repository.working_copy is None,
            (Some(repository), Ok(Some(status))) => {
                &&& repository.working_copy matches Some(commit)
                &&& !lacks_commit(
                    &repository.graph,
                    immutable_heads(&repository.view),
                    commit.commit_id@,
                    MAX_DEPTH as nat,
                )
                &&& is_collected(&status, repository, &commit)
            },
            (Some(repository), Err(Error::Jj(text))) => {
                &&& repository.working_copy matches Some(commit)
                &&& lacks_commit(
                    &repository.graph,
                    immutable_heads(&repository.view),
                    commit.commit_id@,
                    MAX_DEPTH as nat,
                )
                &&& text@ == missing_commit_text()
            },
            _ => false,
        },
{
    let repository = match repository {
        Some(repository) => repository,
        None => {
            return Ok(None);
        },
    };
    let commit = match &repository.working_copy {
        Some(commit) => commit,
        None => {
            return Ok(None);
        },
    };
    let heads = find_immutable_heads(&repository.view);
    match find_ancestor_bookmarks(
        &repository.graph,
        &repository.view,
        &commit.commit_id,
        &heads,
        MAX_DEPTH,
    ) {
        Ok(ancestors) => {
            let ghost found = bookmark_entries(ancestors@);
            let status = assemble_status(
                repository.root.as_str(),
                commit,
                &repository.view,
                &heads,
                ancestors,
            );
            proof {
                let own = names_on(
                    &repository.view,
                    commit.commit_id@,
                    repository.view.local_bookmarks@.len() as int,
                );
                assert(bookmark_entries(status.bookmarks@).skip(own.len() as int) =~= found);
            }
            Ok(Some(status))
        },
        Err(error) => Err(error),
    }
}

/// Finds the repository that a directory belongs to. `markers` says of the
/// directory and then of each directory above it, nearest first, whether it
/// holds a repository. The result is the place of the nearest that does.
pub fn find_repo_root(markers: &Vec<bool>) -> (root: Option<usize>)
    ensures
        match root {
            Some(at) => at < markers@.len() && markers@[at as int] && forall|j: int|
                0 <= j < at ==> !markers@[j],
            None => forall|j: int| 0 <= j < markers@.len() ==> !markers@[j],
        },
{
    let mut at: usize = 0;
    while at < markers.len()
        invariant
            at <= markers.len(),
            forall|j: int| 0 <= j < at ==> !markers@[j],
        decreases markers.len() - at,
    {
        if markers[at] {
            return Some(at);
        }
        at += 1;
    }
    None
}

/// The bookmarks of a status stand nearest first: those on the commit
/// itself before those of the ancestors, and these in the order of their
/// distances.
pub proof fn lemma_status_bookmarks_nearest_first(
    view: &RefView,
    id: Seq<u8>,
    ancestors: Seq<(Seq<char>, nat)>,
)
    requires
        forall|k: int, l: int|
            0 <= k < l < ancestors.len() ==> (#[trigger] ancestors[k]).1 <= (
            #[trigger] ancestors[l]).1,
    ensures
        ({
            let all = status_bookmarks(view, id, ancestors);
            forall|k: int, l: int|
                0 <= k < l < all.len() ==> (#[trigger] all[k]).1 <= (#[trigger] all[l]).1
        }),
{
    let own = names_on(view, id, view.local_bookmarks@.len() as int);
    let all = status_bookmarks(view, id, ancestors);
    assert forall|k: int, l: int| 0 <= k < l < all.len() implies (#[trigger] all[k]).1 <= (
    #[trigger] all[l]).1 by {
        if k < own.len() {
            assert(all[k].1 == 0);
        } else {
            assert(all[k] == ancestors[k - own.len()]);
            assert(all[l] == ancestors[l - own.len()]);
        }
    }
}

} // verus!
