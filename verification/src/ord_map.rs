//! A map that holds what a function keeps of another map, and follows the
//! changes of that map one by one.

use vstd::prelude::*;
use crate::collections::{filter_map_edit, filter_map_rule, DiffKind, Edit};

verus! {

/// The ordered map of the `im` crate. Its inside is not known here; what a
/// map holds is `entries`.
#[verifier::external_type_specification]
#[verifier::external_body]
#[verifier::reject_recursive_types(K)]
#[verifier::reject_recursive_types(V)]
pub struct ExOrdMap<K, V>(im::OrdMap<K, V>);

/// The entries of a map from numbers to numbers.
pub uninterp spec fn entries(m: im::OrdMap<u64, u64>) -> Map<u64, u64>;

/// Calls `im::OrdMap::contains_key`, which tests for the presence of a key
/// in a map.
#[verifier::external_body]
pub(crate) fn has_key(m: &im::OrdMap<u64, u64>, key: u64) -> (r: bool)
    ensures
        r == entries(*m).contains_key(key),
{
    m.contains_key(&key)
}

/// Calls `im::OrdMap::insert`, which puts a value under a key and overwrites
/// the value that the key had, if it had one.
#[verifier::external_body]
pub(crate) fn put(m: &mut im::OrdMap<u64, u64>, key: u64, value: u64)
    ensures
        entries(*final(m)) == entries(*old(m)).insert(key, value),
{
    m.insert(key, value);
}

/// Calls `im::OrdMap::remove`, which takes a key and its value out of a map
/// if the key is there.
#[verifier::external_body]
pub(crate) fn take_out(m: &mut im::OrdMap<u64, u64>, key: u64)
    ensures
        entries(*final(m)) == entries(*old(m)).remove(key),
{
    m.remove(&key);
}

/// One difference between two maps: what has happened to the entry of
/// `key`. `value` is the value that the key has now, or for an entry that is
/// gone the value that it had.
#[derive(Copy, Clone, Eq, PartialEq, Structural, Debug)]
pub struct Change {
    pub kind: DiffKind,
    pub key: u64,
    pub value: u64,
}

/// Calls `im::OrdMap::new`, which makes a map without entries.
#[verifier::external_body]
pub(crate) fn empty_map() -> (made: im::OrdMap<u64, u64>)
    ensures
        forall|k: u64| !entries(made).contains_key(k),
{
    im::OrdMap::new()
}

/// Calls the `clone` of `im::OrdMap`, which makes a map with the same
/// entries.
#[verifier::external_body]
pub(crate) fn copy_of(m: &im::OrdMap<u64, u64>) -> (copy: im::OrdMap<u64, u64>)
    ensures
        entries(copy) == entries(*m),
{
    m.clone()
}

/// The function answers every question, and always the same to the same
/// question.
pub open spec fn is_function<F: Fn(u64, u64) -> Option<u64>>(f: F) -> bool {
    &&& forall|k: u64, v: u64| call_requires(f, (k, v))
    &&& forall|k: u64, v: u64, a: Option<u64>, b: Option<u64>|
        call_ensures(f, (k, v), a) && call_ensures(f, (k, v), b) ==> a == b
}

/// What the function makes of an entry.
pub open spec fn mapped_by<F: Fn(u64, u64) -> Option<u64>>(f: F, k: u64, v: u64) -> Option<u64> {
    choose|r: Option<u64>| call_ensures(f, (k, v), r)
}

/// The map after an edit of the entry of `key`.
pub open spec fn edited(m: Map<u64, u64>, key: u64, edit: Edit<u64>) -> Map<u64, u64> {
    match edit {
        Edit::Insert(v) => m.insert(key, v),
        Edit::Remove => m.remove(key),
        Edit::Keep => m,
    }
}

/// The edit that one change asks for in a derived map that holds `m`.
pub open spec fn edit_for<F: Fn(u64, u64) -> Option<u64>>(
    m: Map<u64, u64>,
    change: Change,
    f: F,
) -> Edit<u64> {
    filter_map_rule(
        change.kind,
        if change.kind == DiffKind::Remove {
            None
        } else {
            mapped_by(f, change.key, change.value)
        },
        m.contains_key(change.key),
    )
}

/// The derived map after the first `upto` changes, one after the other.
pub open spec fn folded<F: Fn(u64, u64) -> Option<u64>>(
    m: Map<u64, u64>,
    changes: Seq<Change>,
    f: F,
    upto: int,
) -> Map<u64, u64>
    decreases upto,
{
    if upto <= 0 {
        m
    } else {
        let before = folded(m, changes, f, upto - 1);
        edited(before, changes[upto - 1].key, edit_for(before, changes[upto - 1], f))
    }
}

/// One of the first `upto` changes asks for an edit.
pub open spec fn any_edit<F: Fn(u64, u64) -> Option<u64>>(
    m: Map<u64, u64>,
    changes: Seq<Change>,
    f: F,
    upto: int,
) -> bool
    decreases upto,
{
    if upto <= 0 {
        false
    } else {
        any_edit(m, changes, f, upto - 1) || !(edit_for(
            folded(m, changes, f, upto - 1),
            changes[upto - 1],
            f,
        ) is Keep)
    }
}

/// The map that holds what the function keeps of `m`: for each entry of `m`
/// of which the function makes a value, that value under the same key.
pub open spec fn filtered<F: Fn(u64, u64) -> Option<u64>>(m: Map<u64, u64>, f: F) -> Map<
    u64,
    u64,
> {
    Map::new(
        |k: u64| m.contains_key(k) && mapped_by(f, k, m[k]) is Some,
        |k: u64| mapped_by(f, k, m[k])->0,
    )
}

/// The two maps have the same entry under the key, or both have none.
pub open spec fn agree_at(a: Map<u64, u64>, b: Map<u64, u64>, k: u64) -> bool {
    a.contains_key(k) == b.contains_key(k) && (a.contains_key(k) ==> a[k] == b[k])
}

/// One of the first `upto` changes is a change of the key.
pub open spec fn touches(changes: Seq<Change>, upto: int, k: u64) -> bool {
    exists|i: int| 0 <= i < upto && i < changes.len() && (#[trigger] changes[i]).key == k
}

/// The changes say how to get from `last` to `this`: each key occurs once
/// at most, each change says what has happened to its key, and every key
/// whose entry differs has a change.
pub open spec fn describes(changes: Seq<Change>, last: Map<u64, u64>, this: Map<u64, u64>) -> bool {
    &&& forall|i: int, j: int|
        0 <= i < j < changes.len() ==> (#[trigger] changes[i]).key != (#[trigger] changes[j]).key
    &&& forall|i: int|
        0 <= i < changes.len() ==> {
            let c = #[trigger] changes[i];
            match c.kind {
                DiffKind::Add => !last.contains_key(c.key) && this.contains_key(c.key)
                    && this[c.key] == c.value,
                DiffKind::Update => last.contains_key(c.key) && this.contains_key(c.key)
                    && this[c.key] == c.value,
                DiffKind::Remove => last.contains_key(c.key) && !this.contains_key(c.key),
            }
        }
    &&& forall|k: u64| !agree_at(last, this, k) ==> touches(changes, changes.len() as int, k)
}

/// Calls `im::OrdMap::diff`, which lists the entries to add, to update and
/// to remove to get from one map to another: one item for each key whose
/// entry differs. Each item is handed on as a `Change`.
#[verifier::external_body]
pub(crate) fn differences(last: &im::OrdMap<u64, u64>, this: &im::OrdMap<u64, u64>) -> (r: Vec<
    Change,
>)
    ensures
        describes(r@, entries(*last), entries(*this)),
{
    let mut out = Vec::new();
    for item in last.diff(this) {
        out.push(match item {
            im::ordmap::DiffItem::Add(k, v) => Change { kind: DiffKind::Add, key: *k, value: *v },
            im::ordmap::DiffItem::Update { old: _, new } => Change { kind: DiffKind::Update,
                key: *new.0, value: *new.1 },
            im::ordmap::DiffItem::Remove(k, v) => Change { kind: DiffKind::Remove, key: *k,
                value: *v },
        });
    }
    out
}

/// After the first `upto` changes, the derived map holds what the function
/// keeps of `this` under the keys that have changed so far, and what it keeps
/// of `last` under all others.
proof fn lemma_folded_so_far<F: Fn(u64, u64) -> Option<u64>>(
    last: Map<u64, u64>,
    this: Map<u64, u64>,
    changes: Seq<Change>,
    f: F,
    upto: int,
)
    requires
        describes(changes, last, this),
        0 <= upto <= changes.len(),
    ensures
        forall|k: u64|
            agree_at(
                #[trigger] folded(filtered(last, f), changes, f, upto),
                if touches(changes, upto, k) {
                    filtered(this, f)
                } else {
                    filtered(last, f)
                },
                k,
            ),
    decreases upto,
{
    let start = filtered(last, f);
    if upto > 0 {
        lemma_folded_so_far(last, this, changes, f, upto - 1);
        let before = folded(start, changes, f, upto - 1);
        let after = folded(start, changes, f, upto);
        let c = changes[upto - 1];
        assert forall|k: u64|
            agree_at(
                after,
                if touches(changes, upto, k) {
                    filtered(this, f)
                } else {
                    filtered(last, f)
                },
                k,
            ) by {
            assert(agree_at(
                before,
                if touches(changes, upto - 1, k) {
                    filtered(this, f)
                } else {
                    filtered(last, f)
                },
                k,
            ));
            if k == c.key {
                assert(touches(changes, upto, k));
                assert(!touches(changes, upto - 1, k)) by {
                    if touches(changes, upto - 1, k) {
                        let i = choose|i: int|
                            0 <= i < upto - 1 && i < changes.len() && (#[trigger] changes[i]).key
                                == k;
                        assert(changes[i].key != changes[upto - 1].key);
                    }
                }
            } else {
                if touches(changes, upto, k) {
                    let i = choose|i: int|
                        0 <= i < upto && i < changes.len() && (#[trigger] changes[i]).key == k;
                    assert(i < upto - 1);
                    assert(touches(changes, upto - 1, k));
                }
                if touches(changes, upto - 1, k) {
                    let i = choose|i: int|
                        0 <= i < upto - 1 && i < changes.len() && (#[trigger] changes[i]).key
                            == k;
                    assert(touches(changes, upto, k));
                }
            }
        }
    } else {
        assert forall|k: u64| !touches(changes, 0, k) by {}
    }
}

/// A map that holds what the function keeps of `last`, brought up to date
/// with changes that say how to get from `last` to `this`, holds what the
/// function keeps of `this`.
pub proof fn folding_the_difference_gives_the_filtered_map<F: Fn(u64, u64) -> Option<u64>>(
    last: Map<u64, u64>,
    this: Map<u64, u64>,
    changes: Seq<Change>,
    f: F,
)
    requires
        describes(changes, last, this),
    ensures
        folded(filtered(last, f), changes, f, changes.len() as int) == filtered(this, f),
{
    let n = changes.len() as int;
    let end = folded(filtered(last, f), changes, f, n);
    lemma_folded_so_far(last, this, changes, f, n);
    assert forall|k: u64| agree_at(end, filtered(this, f), k) by {
        assert(agree_at(
            end,
            if touches(changes, n, k) {
                filtered(this, f)
            } else {
                filtered(last, f)
            },
            k,
        ));
        if !touches(changes, n, k) {
            assert(agree_at(last, this, k));
        }
    }
    let goal = filtered(this, f);
    assert forall|k: u64| #[trigger] end.dom().contains(k) == goal.dom().contains(k) by {
        assert(agree_at(end, goal, k));
    }
    assert forall|k: u64| #[trigger] end.dom().contains(k) implies end[k] == goal[k] by {
        assert(agree_at(end, goal, k));
    }
    assert(end.dom() =~= goal.dom());
    assert(end =~= goal);
}

/// Brings `out` up to date with one change of the map it is derived from.
/// Says whether `out` may have changed.
pub fn apply_change<F: Fn(u64, u64) -> Option<u64>>(
    out: &mut im::OrdMap<u64, u64>,
    change: &Change,
    f: &F,
) -> (changed: bool)
    requires
        is_function(*f),
    ensures
        entries(*final(out)) == edited(
            entries(*old(out)),
            change.key,
            edit_for(entries(*old(out)), *change, *f),
        ),
        changed == !(edit_for(entries(*old(out)), *change, *f) is Keep),
{
    let mapped = match change.kind {
        DiffKind::Remove => None,
        _ => f(change.key, change.value),
    };
    let present = has_key(out, change.key);
    let (edit, changed) = filter_map_edit(change.kind, mapped, present);
    match edit {
        Edit::Insert(new) => {
            put(out, change.key, new);
        },
        Edit::Remove => {
            take_out(out, change.key);
        },
        Edit::Keep => {},
    }
    changed
}

/// Brings `out` up to date with the changes of the map it is derived from,
/// one after the other. Says whether `out` may have changed.
pub fn fold_changes<F: Fn(u64, u64) -> Option<u64>>(
    out: &mut im::OrdMap<u64, u64>,
    changes: &Vec<Change>,
    f: &F,
) -> (did_update: bool)
    requires
        is_function(*f),
    ensures
        entries(*final(out)) == folded(entries(*old(out)), changes@, *f, changes@.len() as int),
        did_update == any_edit(entries(*old(out)), changes@, *f, changes@.len() as int),
{
    let mut did_update = false;
    let mut i: usize = 0;
    while i < changes.len()
        invariant
            i <= changes.len(),
            is_function(*f),
            entries(*out) == folded(entries(*old(out)), changes@, *f, i as int),
            did_update == any_edit(entries(*old(out)), changes@, *f, i as int),
        decreases changes.len() - i,
    {
        let changed = apply_change(out, &changes[i], f);
        if changed {
            did_update = true;
        }
        i += 1;
    }
    did_update
}

/// A map that holds what a function keeps of another map, together with
/// that other map as it was when it was last looked at.
pub struct Derived {
    /// The other map, as it was last seen.
    pub last: im::OrdMap<u64, u64>,
    /// What the function keeps of it.
    pub out: im::OrdMap<u64, u64>,
}

impl Derived {
    /// The derived map holds what `f` keeps of the map last seen.
    pub open spec fn follows<F: Fn(u64, u64) -> Option<u64>>(&self, f: F) -> bool {
        entries(self.out) == filtered(entries(self.last), f)
    }

    /// What a function keeps of a map without entries: nothing.
    pub fn new<F: Fn(u64, u64) -> Option<u64>>(f: &F) -> (r: Self)
        ensures
            entries(r.last) == Map::<u64, u64>::empty(),
            entries(r.out) == Map::<u64, u64>::empty(),
            r.follows(*f),
    {
        let r = Derived { last: empty_map(), out: empty_map() };
        proof {
            assert(entries(r.last) =~= Map::<u64, u64>::empty());
            assert(entries(r.out) =~= Map::<u64, u64>::empty());
        }
        proof {
            assert(filtered(Map::<u64, u64>::empty(), *f) =~= Map::<u64, u64>::empty());
        }
        r
    }

    /// Looks at the other map as it is now, `this`, and brings the derived
    /// map up to date with what has changed since it was last seen.
    /// Afterwards the derived map holds what `f` keeps of `this`. Says
    /// whether a change asked for an edit.
    pub fn follow<F: Fn(u64, u64) -> Option<u64>>(&mut self, this: &im::OrdMap<u64, u64>,
        f: &F) -> (did_update: bool)
        requires
            is_function(*f),
            old(self).follows(*f),
        ensures
            entries(final(self).last) == entries(*this),
            entries(final(self).out) == filtered(entries(*this), *f),
            final(self).follows(*f),
            exists|changes: Seq<Change>| #[trigger]
                describes(changes, entries(old(self).last), entries(*this)) && did_update
                    == any_edit(entries(old(self).out), changes, *f, changes.len() as int),
    {
        let changes = differences(&self.last, this);
        proof {
            folding_the_difference_gives_the_filtered_map(
                entries(self.last),
                entries(*this),
                changes@,
                *f,
            );
        }
        let did_update = fold_changes(&mut self.out, &changes, f);
        self.last = copy_of(this);
        did_update
    }
}

} // verus!
