//! Which commits count as immutable: those that a remote or a tag has
//! published.

use vstd::prelude::*;
use crate::text::same_text;
use crate::refs::{
    internal_remote, local_target, target_commit, target_is_absent, CommitSet, RefView,
};

verus! {

/// Whether a remote bookmark is the main line of an upstream: the remote is
/// `origin` or `upstream`, and the bookmark is `main`, `master` or `trunk`.
pub open spec fn is_trunk(remote: Seq<char>, name: Seq<char>) -> bool {
    (remote == "origin"@ || remote == "upstream"@) && (name == "main"@ || name == "master"@ || name
        == "trunk"@)
}

/// Whether the remote bookmark at `place` makes its commit immutable. One
/// of the internal remote never does. Another does where it is a trunk, or
/// where no local bookmark of its name exists.
pub open spec fn remote_counts(view: &RefView, place: int) -> bool {
    let entry = view.remote_bookmarks@[place];
    entry.remote@ != internal_remote() && (is_trunk(entry.remote@, entry.name@)
        || target_is_absent(local_target(view, entry.name@)))
}

/// Whether the remote bookmark at `place` makes `id` immutable.
pub open spec fn remote_head(view: &RefView, place: int, id: Seq<u8>) -> bool {
    0 <= place < view.remote_bookmarks@.len() && remote_counts(view, place) && target_commit(
        view.remote_bookmarks@[place].target@,
    ) == Some(id)
}

/// Whether the tag at `place` makes `id` immutable, as every tag does of
/// the one commit it points to.
pub open spec fn tag_head(view: &RefView, place: int, id: Seq<u8>) -> bool {
    0 <= place < view.tags@.len() && target_commit(view.tags@[place].target@) == Some(id)
}

/// The commits made immutable by the first `remotes` remote bookmarks and
/// the first `tags` tags.
pub open spec fn heads_among(view: &RefView, remotes: int, tags: int) -> Set<Seq<u8>> {
    Set::new(
        |id: Seq<u8>|
            (exists|i: int| i < remotes && #[trigger] remote_head(view, i, id)) || (exists|j: int|
                j < tags && #[trigger] tag_head(view, j, id)),
    )
}

/// The immutable commits of a repository.
pub open spec fn immutable_heads(view: &RefView) -> Set<Seq<u8>> {
    heads_among(view, view.remote_bookmarks@.len() as int, view.tags@.len() as int)
}

fn trunk_like(remote: &str, name: &str) -> (trunk: bool)
    ensures
        trunk == is_trunk(remote@, name@),
{
    (same_text(remote, "origin") || same_text(remote, "upstream")) && (same_text(name, "main")
        || same_text(name, "master") || same_text(name, "trunk"))
}

fn counts(view: &RefView, place: usize) -> (counted: bool)
    requires
        place < view.remote_bookmarks@.len(),
    ensures
        counted == remote_counts(view, place as int),
{
    let entry = &view.remote_bookmarks[place];
    if same_text(entry.remote.as_str(), "git") {
        return false;
    }
    trunk_like(entry.remote.as_str(), entry.name.as_str()) || view.local_is_absent(
        entry.name.as_str(),
    )
}

/// Collects the immutable commits of a repository.
pub fn find_immutable_heads(view: &RefView) -> (heads: CommitSet)
    ensures
        heads.well_formed(),
        heads@ == immutable_heads(view),
{
    let mut heads = CommitSet::new();
    assert(heads@ =~= heads_among(view, 0, 0));
    let mut i: usize = 0;
    while i < view.remote_bookmarks.len()
        invariant
            i <= view.remote_bookmarks.len(),
            heads.well_formed(),
            heads@ == heads_among(view, i as int, 0),
        decreases view.remote_bookmarks.len() - i,
    {
        let ghost before = heads@;
        let mut added: Ghost<Option<Seq<u8>>> = Ghost(None);
        if counts(view, i) {
            if let Some(id) = view.remote_bookmarks[i].target.as_normal() {
                heads.insert(id.duplicate());
                proof {
                    added@ = Some(id@);
                }
            }
        }
        assert(heads@ =~= heads_among(view, i as int + 1, 0)) by {
            assert forall|id: Seq<u8>| heads@.contains(id) == heads_among(
                view,
                i as int + 1,
                0,
            ).contains(id) by {
                if before.contains(id) {
                    let k = choose|k: int| k < i && #[trigger] remote_head(view, k, id);
                    assert(k < i + 1 && remote_head(view, k, id));
                }
                if added@ == Some(id) {
                    assert(remote_head(view, i as int, id));
                }
                if heads_among(view, i as int + 1, 0).contains(id) {
                    let k = choose|k: int| k < i + 1 && #[trigger] remote_head(view, k, id);
                    if k < i {
                        assert(before.contains(id));
                    }
                }
            }
        }
        i += 1;
    }
    let mut j: usize = 0;
    while j < view.tags.len()
        invariant
            j <= view.tags.len(),
            i == view.remote_bookmarks.len(),
            heads.well_formed(),
            heads@ == heads_among(view, i as int, j as int),
        decreases view.tags.len() - j,
    {
        let ghost before = heads@;
        let mut added: Ghost<Option<Seq<u8>>> = Ghost(None);
        if let Some(id) = view.tags[j].target.as_normal() {
            heads.insert(id.duplicate());
            proof {
                added@ = Some(id@);
            }
        }
        assert(heads@ =~= heads_among(view, i as int, j as int + 1)) by {
            assert forall|id: Seq<u8>| heads@.contains(id) == heads_among(
                view,
                i as int,
                j as int + 1,
            ).contains(id) by {
                if before.contains(id) {
                    if exists|k: int| k < i && #[trigger] remote_head(view, k, id) {
                    } else {
                        let k = choose|k: int| k < j && #[trigger] tag_head(view, k, id);
                        assert(k < j + 1 && tag_head(view, k, id));
                    }
                }
                if added@ == Some(id) {
                    assert(tag_head(view, j as int, id));
                }
                if heads_among(view, i as int, j as int + 1).contains(id) {
                    if exists|k: int| k < i && #[trigger] remote_head(view, k, id) {
                        assert(before.contains(id));
                    } else {
                        let k = choose|k: int| k < j + 1 && #[trigger] tag_head(view, k, id);
                        if k < j {
                            assert(before.contains(id));
                        }
                    }
                }
            }
        }
        j += 1;
    }
    heads
}

} // verus!
