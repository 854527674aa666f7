//! Whether the nearest bookmark is in step with the remotes that hold it.

use vstd::prelude::*;
use crate::text::same_text;
use crate::jj::Bookmark;
use crate::refs::{internal_remote, local_target, RefTarget, RefView};

verus! {

/// Whether the remote bookmark at `place` is a remote's copy of the
/// bookmark `name`; what the internal remote holds is none.
pub open spec fn tracks(view: &RefView, name: Seq<char>, place: int) -> bool {
    0 <= place < view.remote_bookmarks@.len() && view.remote_bookmarks@[place].name@ == name
        && view.remote_bookmarks@[place].remote@ != internal_remote()
}

/// Whether some remote holds the bookmark `name`.
pub open spec fn has_remote(view: &RefView, name: Seq<char>) -> bool {
    exists|i: int| #[trigger] tracks(view, name, i)
}

/// Whether some remote holds the bookmark `name` exactly where the local
/// bookmark stands.
pub open spec fn some_remote_agrees(view: &RefView, name: Seq<char>) -> bool {
    exists|i: int|
        #[trigger] tracks(view, name, i) && view.remote_bookmarks@[i].target@ == local_target(
            view,
            name,
        )
}

/// What is reported of a list of bookmarks: whether a remote holds the
/// first of them, and whether it is in step. With no bookmark, or with no
/// remote that holds the first, nothing can be out of step.
pub open spec fn remote_sync(view: &RefView, bookmarks: Seq<Bookmark>) -> (bool, bool) {
    if bookmarks.len() == 0 {
        (false, true)
    } else {
        let name = bookmarks[0].name@;
        (has_remote(view, name), some_remote_agrees(view, name) || !has_remote(view, name))
    }
}

/// Reports whether a remote holds the first of `bookmarks`, and whether one
/// holds it exactly where the local bookmark stands.
pub fn check_remote_sync(view: &RefView, bookmarks: &Vec<Bookmark>) -> (state: (bool, bool))
    ensures
        state == remote_sync(view, bookmarks@),
        bookmarks@.len() == 0 ==> state == (false, true),
{
    if bookmarks.len() == 0 {
        return (false, true);
    }
    let name = bookmarks[0].name.as_str();
    let place = view.find_local(name);
    let absent = RefTarget::absent();
    let local: &RefTarget = match place {
        Some(at) => &view.local_bookmarks[at].target,
        None => &absent,
    };
    assert(local@ == local_target(view, name@));
    let mut found = false;
    let mut i: usize = 0;
    while i < view.remote_bookmarks.len()
        invariant
            i <= view.remote_bookmarks.len(),
            bookmarks@.len() > 0,
            name@ == bookmarks@[0].name@,
            local@ == local_target(view, name@),
            found == (exists|k: int| k < i && #[trigger] tracks(view, name@, k)),
            forall|k: int|
                k < i && #[trigger] tracks(view, name@, k) ==> view.remote_bookmarks@[k].target@
                    != local@,
        decreases view.remote_bookmarks.len() - i,
    {
        let entry = &view.remote_bookmarks[i];
        if same_text(entry.name.as_str(), name) && !same_text(entry.remote.as_str(), "git") {
            assert(tracks(view, name@, i as int));
            if entry.target.matches(local) {
                return (true, true);
            }
            found = true;
        }
        i += 1;
    }
    assert(found == has_remote(view, name@)) by {
        if has_remote(view, name@) {
            let k = choose|k: int| #[trigger] tracks(view, name@, k);
            assert(k < i);
        }
    }
    assert(!some_remote_agrees(view, name@));
    (found, !found)
}

} // verus!
