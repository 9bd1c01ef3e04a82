//! The rules by which a collection that is derived from another one follows
//! the changes of that one.

use vstd::prelude::*;

verus! {

/// What has happened to one entry of a map since it was looked at last.
#[derive(Copy, Clone, Eq, PartialEq, Structural, Debug)]
pub enum DiffKind {
    /// The entry is new.
    Add,
    /// The entry has a new value.
    Update,
    /// The entry is gone.
    Remove,
}

/// What to do with the entry of the same key in the derived map.
#[derive(Debug)]
pub enum Edit<T> {
    /// Put the value under the key.
    Insert(T),
    /// Take the key out.
    Remove,
    /// Leave the derived map as it is.
    Keep,
}

/// How a map that holds what a function keeps of another map follows one
/// change of that map. `mapped` is what the function makes of the new entry,
/// `present` says whether the derived map holds the key.
///
/// An entry that is new or changed is put into the derived map if the
/// function keeps it. A changed entry that the function does not keep is
/// taken out if it is there. An entry that is gone is taken out.
pub open spec fn filter_map_rule<T>(kind: DiffKind, mapped: Option<T>, present: bool) -> Edit<T> {
    match kind {
        DiffKind::Add => match mapped {
            Some(new) => Edit::Insert(new),
            None => Edit::Keep,
        },
        DiffKind::Update => match mapped {
            Some(new) => Edit::Insert(new),
            None => if present {
                Edit::Remove
            } else {
                Edit::Keep
            },
        },
        DiffKind::Remove => Edit::Remove,
    }
}

/// Decides what to do with the derived map for one change, and says whether
/// the derived map may have changed by it.
pub fn filter_map_edit<T>(kind: DiffKind, mapped: Option<T>, present: bool) -> (r: (
    Edit<T>,
    bool,
))
    ensures
        r.0 == filter_map_rule(kind, mapped, present),
        r.1 == !(r.0 is Keep),
{
    match kind {
        DiffKind::Add => match mapped {
            Some(new) => (Edit::Insert(new), true),
            None => (Edit::Keep, false),
        },
        DiffKind::Update => match mapped {
            Some(new) => (Edit::Insert(new), true),
            None => if present {
                (Edit::Remove, true)
            } else {
                (Edit::Keep, false)
            },
        },
        DiffKind::Remove => (Edit::Remove, true),
    }
}

} // verus!
