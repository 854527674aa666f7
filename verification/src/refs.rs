//! Commit identifiers, reference targets and the references of a repository,
//! held as plain values.

use vstd::prelude::*;
use vstd::seq_lib::seq_to_set_is_finite;
use crate::text::same_text;

verus! {

/// Identifies a commit by its content. Two identifiers are the same commit
/// where their bytes agree.
#[derive(Debug)]
pub struct CommitId {
    pub bytes: Vec<u8>,
}

impl View for CommitId {
    type V = Seq<u8>;

    open spec fn view(&self) -> Seq<u8> {
        self.bytes@
    }
}

impl CommitId {
    /// Whether both identify the same commit.
    pub fn matches(&self, other: &CommitId) -> (same: bool)
        ensures
            same == (self@ == other@),
    {
        if self.bytes.len() != other.bytes.len() {
            return false;
        }
        let mut i: usize = 0;
        while i < self.bytes.len()
            invariant
                i <= self.bytes.len(),
                self.bytes.len() == other.bytes.len(),
                forall|j: int| 0 <= j < i ==> self.bytes@[j] == other.bytes@[j],
            decreases self.bytes.len() - i,
        {
            if self.bytes[i] != other.bytes[i] {
                return false;
            }
            i += 1;
        }
        assert(self@ =~= other@);
        true
    }

    /// Another identifier of the same commit.
    pub fn duplicate(&self) -> (copy: CommitId)
        ensures
            copy@ == self@,
    {
        let mut bytes: Vec<u8> = Vec::new();
        let mut i: usize = 0;
        while i < self.bytes.len()
            invariant
                i <= self.bytes.len(),
                bytes@ == self.bytes@.take(i as int),
            decreases self.bytes.len() - i,
        {
            bytes.push(self.bytes[i]);
            assert(self.bytes@.take(i as int).push(self.bytes@[i as int]) =~= self.bytes@.take(
                i as int + 1,
            ));
            i += 1;
        }
        assert(self.bytes@.take(i as int) =~= self.bytes@);
        CommitId { bytes }
    }
}

/// The commit that a term of a target names, if it names one.
pub open spec fn term_view(term: Option<CommitId>) -> Option<Seq<u8>> {
    match term {
        Some(id) => Some(id@),
        None => None,
    }
}

/// Where a reference points. A reference that was moved in two ways at once
/// holds several terms: those at even places were added, those at odd places
/// removed. A reference in agreement holds one term, a commit or nothing.
#[derive(Debug)]
pub struct RefTarget {
    pub terms: Vec<Option<CommitId>>,
}

impl View for RefTarget {
    type V = Seq<Option<Seq<u8>>>;

    open spec fn view(&self) -> Seq<Option<Seq<u8>>> {
        Seq::new(self.terms@.len(), |i: int| term_view(self.terms@[i]))
    }
}

/// The target of a reference that does not exist.
pub open spec fn absent_target() -> Seq<Option<Seq<u8>>> {
    seq![None]
}

/// Whether the target points to no commit.
pub open spec fn target_is_absent(target: Seq<Option<Seq<u8>>>) -> bool {
    target.len() == 1 && target[0] is None
}

/// The one commit that the target points to, if it is in agreement and
/// points to one.
pub open spec fn target_commit(target: Seq<Option<Seq<u8>>>) -> Option<Seq<u8>> {
    if target.len() == 1 {
        target[0]
    } else {
        None
    }
}

/// Whether `id` is among the commits that the target adds.
pub open spec fn target_adds(target: Seq<Option<Seq<u8>>>, id: Seq<u8>) -> bool {
    exists|i: int| 0 <= i < target.len() && i % 2 == 0 && #[trigger] target[i] == Some(id)
}

impl RefTarget {
    /// A target in agreement on one commit.
    pub fn normal(id: CommitId) -> (target: RefTarget)
        ensures
            target@ == seq![Some(id@)],
    {
        let mut terms: Vec<Option<CommitId>> = Vec::new();
        terms.push(Some(id));
        let target = RefTarget { terms };
        assert(target@ =~= seq![Some(id@)]);
        target
    }

    /// The target of a reference that does not exist.
    pub fn absent() -> (target: RefTarget)
        ensures
            target@ == absent_target(),
    {
        let mut terms: Vec<Option<CommitId>> = Vec::new();
        terms.push(None);
        let target = RefTarget { terms };
        assert(target@ =~= absent_target());
        target
    }

    /// Whether the target points to no commit.
    pub fn is_absent(&self) -> (absent: bool)
        ensures
            absent == target_is_absent(self@),
    {
        self.terms.len() == 1 && self.terms[0].is_none()
    }

    /// The one commit that the target points to, if it is in agreement and
    /// points to one.
    pub fn as_normal(&self) -> (id: Option<&CommitId>)
        ensures
            match id {
                Some(found) => target_commit(self@) == Some(found@),
                None => target_commit(self@) is None,
            },
    {
        if self.terms.len() == 1 {
            self.terms[0].as_ref()
        } else {
            None
        }
    }

    /// Whether `id` is among the commits that the target adds.
    pub fn adds(&self, id: &CommitId) -> (found: bool)
        ensures
            found == target_adds(self@, id@),
    {
        let mut i: usize = 0;
        while i < self.terms.len()
            invariant
                i <= self.terms.len(),
                i % 2 == 0,
                forall|j: int| 0 <= j < i && j % 2 == 0 ==> self@[j] != Some(id@),
            decreases self.terms.len() - i,
        {
            if let Some(term) = &self.terms[i] {
                if term.matches(id) {
                    assert(self@[i as int] == Some(id@));
                    return true;
                }
            }
            assert(self@[i as int] != Some(id@));
            if self.terms.len() - i < 2 {
                return false;
            }
            i += 2;
        }
        false
    }

    /// Whether both targets hold the same terms in the same order.
    pub fn matches(&self, other: &RefTarget) -> (same: bool)
        ensures
            same == (self@ == other@),
    {
        if self.terms.len() != other.terms.len() {
            return false;
        }
        let mut i: usize = 0;
        while i < self.terms.len()
            invariant
                i <= self.terms.len(),
                self.terms.len() == other.terms.len(),
                forall|j: int| 0 <= j < i ==> self@[j] == other@[j],
            decreases self.terms.len() - i,
        {
            let same = match (&self.terms[i], &other.terms[i]) {
                (Some(a), Some(b)) => a.matches(b),
                (None, None) => true,
                _ => false,
            };
            if !same {
                assert(self@[i as int] != other@[i as int]);
                return false;
            }
            i += 1;
        }
        assert(self@ =~= other@);
        true
    }
}

/// A set of commits. It is held as a list without repeats, so that what
/// it holds is decided by the bytes of the identifiers and by nothing else.
pub struct CommitSet {
    ids: Vec<CommitId>,
}

impl View for CommitSet {
    type V = Set<Seq<u8>>;

    closed spec fn view(&self) -> Set<Seq<u8>> {
        Set::new(|id: Seq<u8>| exists|i: int| 0 <= i < self.ids@.len() && self.ids@[i]@ == id)
    }
}

impl CommitSet {
    /// No commit is held twice.
    pub closed spec fn well_formed(&self) -> bool {
        forall|i: int, j: int|
            0 <= i < j < self.ids@.len() ==> self.ids@[i]@ != self.ids@[j]@
    }

    /// The empty set.
    pub fn new() -> (set: CommitSet)
        ensures
            set.well_formed(),
            set@ == Set::<Seq<u8>>::empty(),
    {
        let set = CommitSet { ids: Vec::new() };
        assert(set@ =~= Set::<Seq<u8>>::empty());
        set
    }

    /// Whether `id` is in the set.
    pub fn contains(&self, id: &CommitId) -> (found: bool)
        ensures
            found == self@.contains(id@),
    {
        let mut i: usize = 0;
        while i < self.ids.len()
            invariant
                i <= self.ids.len(),
                forall|j: int| 0 <= j < i ==> self.ids@[j]@ != id@,
            decreases self.ids.len() - i,
        {
            if self.ids[i].matches(id) {
                return true;
            }
            i += 1;
        }
        false
    }

    /// Puts `id` into the set. Returns whether it was new.
    pub fn insert(&mut self, id: CommitId) -> (fresh: bool)
        requires
            old(self).well_formed(),
        ensures
            final(self).well_formed(),
            final(self)@ == old(self)@.insert(id@),
            fresh == !old(self)@.contains(id@),
    {
        if self.contains(&id) {
            assert(self@ =~= old(self)@.insert(id@));
            false
        } else {
            let ghost before = self.ids@;
            self.ids.push(id);
            assert(forall|j: int| 0 <= j < before.len() ==> self.ids@[j] == before[j]);
            assert(self.ids@[before.len() as int]@ == id@);
            assert forall|other: Seq<u8>| self@.contains(other) == old(self)@.insert(
                id@,
            ).contains(other) by {
                if old(self)@.contains(other) {
                    let i = choose|i: int| 0 <= i < before.len() && before[i]@ == other;
                    assert(self.ids@[i]@ == other);
                }
                if other == id@ {
                    assert(self.ids@[before.len() as int]@ == other);
                }
            }
            assert(self@ =~= old(self)@.insert(id@));
            true
        }
    }

    /// How many commits the set holds.
    pub fn len(&self) -> (count: usize)
        requires
            self.well_formed(),
        ensures
            self@.finite(),
            count == self@.len(),
    {
        proof {
            let ids = Seq::new(self.ids@.len(), |i: int| self.ids@[i]@);
            assert(ids.no_duplicates());
            assert forall|id: Seq<u8>| self@.contains(id) == ids.to_set().contains(id) by {
                if self@.contains(id) {
                    let i = choose|i: int| 0 <= i < self.ids@.len() && self.ids@[i]@ == id;
                    assert(ids[i] == id);
                }
                if ids.contains(id) {
                    let i = choose|i: int| 0 <= i < ids.len() && ids[i] == id;
                    assert(self.ids@[i]@ == id);
                }
            }
            assert(self@ =~= ids.to_set());
            ids.unique_seq_to_set();
            seq_to_set_is_finite(ids);
        }
        self.ids.len()
    }
}

/// A bookmark or a tag of this repository.
#[derive(Debug)]
pub struct LocalRef {
    pub name: String,
    pub target: RefTarget,
}

/// A bookmark as a remote was last seen to hold it.
#[derive(Debug)]
pub struct RemoteRef {
    pub name: String,
    /// The remote's name.
    pub remote: String,
    pub target: RefTarget,
}

/// The references of a repository, each list in the order in which the
/// repository hands it out.
#[derive(Debug)]
pub struct RefView {
    pub local_bookmarks: Vec<LocalRef>,
    pub remote_bookmarks: Vec<RemoteRef>,
    pub tags: Vec<LocalRef>,
}

/// The name under which a repository keeps what its own storage tracks. It
/// is no remote that anyone works with.
pub open spec fn internal_remote() -> Seq<char> {
    "git"@
}

/// Whether the local bookmark at `place` is the first under `name`.
pub open spec fn is_first_local(view: &RefView, name: Seq<char>, place: int) -> bool {
    &&& 0 <= place < view.local_bookmarks@.len()
    &&& view.local_bookmarks@[place].name@ == name
    &&& forall|j: int| 0 <= j < place ==> (#[trigger] view.local_bookmarks@[j]).name@ != name
}

/// The target of the local bookmark `name`: that of the first entry under
/// the name, and the absent target where there is none.
pub open spec fn local_target(view: &RefView, name: Seq<char>) -> Seq<Option<Seq<u8>>> {
    if exists|place: int| is_first_local(view, name, place) {
        view.local_bookmarks@[choose|place: int| is_first_local(view, name, place)].target@
    } else {
        absent_target()
    }
}

impl RefView {
    /// The place of the first local bookmark under `name`.
    pub fn find_local(&self, name: &str) -> (place: Option<usize>)
        ensures
            match place {
                Some(at) => is_first_local(self, name@, at as int) && local_target(self, name@)
                    == self.local_bookmarks@[at as int].target@,
                None => local_target(self, name@) == absent_target() && forall|j: int|
                    0 <= j < self.local_bookmarks@.len() ==> (
                    #[trigger] self.local_bookmarks@[j]).name@ != name@,
            },
    {
        let mut i: usize = 0;
        while i < self.local_bookmarks.len()
            invariant
                i <= self.local_bookmarks.len(),
                forall|j: int| 0 <= j < i ==> (#[trigger] self.local_bookmarks@[j]).name@ != name@,
            decreases self.local_bookmarks.len() - i,
        {
            if same_text(self.local_bookmarks[i].name.as_str(), name) {
                proof {
                    assert(is_first_local(self, name@, i as int));
                    let chosen = choose|place: int| is_first_local(self, name@, place);
                    if chosen < i {
                        assert(self.local_bookmarks@[chosen].name@ != name@);
                    } else if i < chosen {
                        assert(self.local_bookmarks@[i as int].name@ != name@);
                    }
                }
                return Some(i);
            }
            i += 1;
        }
        assert(local_target(self, name@) == absent_target()) by {
            if exists|place: int| is_first_local(self, name@, place) {
                let place = choose|place: int| is_first_local(self, name@, place);
                assert(self.local_bookmarks@[place].name@ != name@);
            }
        }
        None
    }

    /// Whether the local bookmark `name` points to no commit, as it does
    /// where there is no such bookmark.
    pub fn local_is_absent(&self, name: &str) -> (absent: bool)
        ensures
            absent == target_is_absent(local_target(self, name@)),
    {
        match self.find_local(name) {
            Some(at) => self.local_bookmarks[at].target.is_absent(),
            None => true,
        }
    }
}

} // verus!
