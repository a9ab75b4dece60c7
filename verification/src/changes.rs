//! Pending local changes: user actions taken offline that a backend still
//! has to push to the remote service.

use vstd::prelude::*;

verus! {

/// One locally mutated attribute that has not yet been confirmed reconciled
/// with the remote service.
#[derive(Clone, Copy, PartialEq, Eq, Structural, Debug)]
pub enum Changes {
    Deleted,
    Starred,
    Archived,
}

/// The set of [`Changes`] flags an article carries, one flag per attribute.
#[derive(Clone, Copy, PartialEq, Eq, Structural, Debug)]
pub struct ChangeFlags {
    pub deleted: bool,
    pub starred: bool,
    pub archived: bool,
}

impl ChangeFlags {
    /// Whether the flag for `c` is set.
    pub open spec fn has(self, c: Changes) -> bool {
        match c {
            Changes::Deleted => self.deleted,
            Changes::Starred => self.starred,
            Changes::Archived => self.archived,
        }
    }

    /// The flags as a mathematical set.
    pub open spec fn to_set(self) -> Set<Changes> {
        Set::new(|c: Changes| self.has(c))
    }

    pub open spec fn is_empty(self) -> bool {
        !self.deleted && !self.starred && !self.archived
    }

    /// The empty flag set: nothing pending.
    pub fn none() -> (r: ChangeFlags)
        ensures
            r.is_empty(),
            r.to_set() == Set::<Changes>::empty(),
    {
        let r = ChangeFlags { deleted: false, starred: false, archived: false };
        proof {
            assert(r.to_set() =~= Set::<Changes>::empty());
        }
        r
    }

    /// Whether the flag for `c` is set.
    pub fn contains(&self, c: Changes) -> (r: bool)
        ensures
            r == self.has(c),
    {
        match c {
            Changes::Deleted => self.deleted,
            Changes::Starred => self.starred,
            Changes::Archived => self.archived,
        }
    }

    /// Whether no flag is set.
    pub fn empty(&self) -> (r: bool)
        ensures
            r == self.is_empty(),
    {
        !self.deleted && !self.starred && !self.archived
    }

    /// Records `c` as pending: adds exactly `c`, leaving every other flag as
    /// it was.
    pub fn record(&mut self, c: Changes)
        ensures
            *final(self) == (ChangeFlags {
                deleted: old(self).deleted || c is Deleted,
                starred: old(self).starred || c is Starred,
                archived: old(self).archived || c is Archived,
            }),
            final(self).has(c),
            forall|d: Changes| d != c ==> final(self).has(d) == old(self).has(d),
            final(self).to_set() == old(self).to_set().insert(c),
    {
        match c {
            Changes::Deleted => self.deleted = true,
            Changes::Starred => self.starred = true,
            Changes::Archived => self.archived = true,
        }
        proof {
            assert(self.to_set() =~= old(self).to_set().insert(c));
        }
    }

    /// Clears `c` once a backend confirms the corresponding change was pushed
    /// or superseded: removes exactly `c`, leaving every other flag as it was.
    pub fn confirm(&mut self, c: Changes)
        ensures
            *final(self) == (ChangeFlags {
                deleted: old(self).deleted && !(c is Deleted),
                starred: old(self).starred && !(c is Starred),
                archived: old(self).archived && !(c is Archived),
            }),
            !final(self).has(c),
            forall|d: Changes| d != c ==> final(self).has(d) == old(self).has(d),
            final(self).to_set() == old(self).to_set().remove(c),
    {
        match c {
            Changes::Deleted => self.deleted = false,
            Changes::Starred => self.starred = false,
            Changes::Archived => self.archived = false,
        }
        proof {
            assert(self.to_set() =~= old(self).to_set().remove(c));
        }
    }
}

} // verus!
