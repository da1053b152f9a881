//! The installed-package records: lookup, insert-or-replace and removal by
//! name, with ASCII letter case ignored.

use vstd::prelude::*;
use crate::text::{eq_ignore_case, str_eq_ignore_ascii_case};
use crate::types::{InstalledPkg, InstalledState};

verus! {

/// The first record at or after `i` whose name matches `name`, ASCII letter
/// case ignored.
pub open spec fn installed_index_from(s: Seq<InstalledPkg>, name: Seq<char>, i: int) -> Option<int>
    decreases s.len() - i,
{
    if i < 0 || i >= s.len() {
        None
    } else if eq_ignore_case(s[i].name@, name) {
        Some(i)
    } else {
        installed_index_from(s, name, i + 1)
    }
}

/// The first record whose name matches `name`, ASCII letter case ignored.
pub open spec fn installed_index(s: Seq<InstalledPkg>, name: Seq<char>) -> Option<int> {
    installed_index_from(s, name, 0)
}

/// `installed_index_from` finds the first matching record.
pub proof fn lemma_installed_index_from(s: Seq<InstalledPkg>, name: Seq<char>, i: int)
    requires
        0 <= i,
    ensures
        installed_index_from(s, name, i) matches Some(j) ==> i <= j < s.len() && eq_ignore_case(
            s[j].name@,
            name,
        ) && forall|m: int| i <= m < j ==> !eq_ignore_case(#[trigger] s[m].name@, name),
        installed_index_from(s, name, i) is None <==> forall|m: int|
            i <= m < s.len() ==> !eq_ignore_case(#[trigger] s[m].name@, name),
    decreases s.len() - i,
{
    if i < s.len() && !eq_ignore_case(s[i].name@, name) {
        lemma_installed_index_from(s, name, i + 1);
    }
}

/// The position of the first record whose name matches `name`.
pub fn installed_position(state: &InstalledState, name: &str) -> (res: Option<usize>)
    ensures
        res matches Some(i) ==> installed_index(state.installed@, name@) == Some(i as int) && i
            < state.installed@.len(),
        res is None ==> installed_index(state.installed@, name@) is None,
{
    let mut i: usize = 0;
    while i < state.installed.len()
        invariant
            i <= state.installed.len(),
            installed_index(state.installed@, name@) == installed_index_from(
                state.installed@,
                name@,
                i as int,
            ),
        decreases state.installed.len() - i,
    {
        if str_eq_ignore_ascii_case(state.installed[i].name.as_str(), name) {
            return Some(i);
        }
        i = i + 1;
    }
    None
}

/// The installed record whose name matches `name`, ASCII letter case
/// ignored; the first one if several do.
pub fn find_installed<'a>(state: &'a InstalledState, name: &str) -> (res: Option<&'a InstalledPkg>)
    ensures
        res matches Some(p) ==> installed_index(state.installed@, name@) matches Some(i) && *p
            == state.installed@[i],
        res is None ==> installed_index(state.installed@, name@) is None,
{
    match installed_position(state, name) {
        Some(i) => Some(&state.installed[i]),
        None => None,
    }
}

/// The records after inserting `pkg`: it replaces the first record with a
/// matching name, or is added at the end.
pub open spec fn upserted(s: Seq<InstalledPkg>, pkg: InstalledPkg) -> Seq<InstalledPkg> {
    match installed_index(s, pkg.name@) {
        Some(i) => s.update(i, pkg),
        None => s.push(pkg),
    }
}

/// Record `pkg` as installed, replacing the record with a matching name.
pub fn upsert(state: &mut InstalledState, pkg: InstalledPkg)
    ensures
        final(state).schema_version == old(state).schema_version,
        final(state).installed@ == upserted(old(state).installed@, pkg),
{
    proof {
        lemma_installed_index_from(state.installed@, pkg.name@, 0);
    }
    match installed_position(state, pkg.name.as_str()) {
        Some(i) => {
            state.installed.set(i, pkg);
        },
        None => {
            state.installed.push(pkg);
        },
    }
}

/// The test that keeps a record whose name does not match `name`.
pub open spec fn other_name(name: Seq<char>) -> spec_fn(InstalledPkg) -> bool {
    |p: InstalledPkg| !eq_ignore_case(p.name@, name)
}

/// Forget every record whose name matches `name`. Returns whether any was
/// forgotten.
pub fn remove_by_name(state: &mut InstalledState, name: &str) -> (res: bool)
    ensures
        final(state).schema_version == old(state).schema_version,
        final(state).installed@ == old(state).installed@.filter(other_name(name@)),
        res == (final(state).installed@.len() != old(state).installed@.len()),
{
    let ghost orig = state.installed@;
    let ghost pred = other_name(name@);
    let before = state.installed.len();
    let mut kept: Vec<InstalledPkg> = Vec::new();
    let mut rest: Vec<InstalledPkg> = Vec::new();
    core::mem::swap(&mut rest, &mut state.installed);
    let mut n: usize = 0;
    proof {
        reveal(Seq::filter);
    }
    assert(kept@ =~= orig.take(0).filter(pred));
    assert(rest@ =~= orig.skip(0));
    while rest.len() > 0
        invariant
            pred == other_name(name@),
            orig.len() == before,
            n + rest@.len() == orig.len(),
            rest@ == orig.skip(n as int),
            kept@ == orig.take(n as int).filter(pred),
        decreases rest@.len(),
    {
        let p = rest.remove(0);
        assert(p == orig[n as int]);
        let keep = !str_eq_ignore_ascii_case(p.name.as_str(), name);
        proof {
            reveal(Seq::filter);
            assert(orig.take(n + 1).drop_last() =~= orig.take(n as int));
            assert(orig.take(n + 1).last() == orig[n as int]);
        }
        if keep {
            kept.push(p);
        }
        n = n + 1;
        assert(rest@ =~= orig.skip(n as int));
    }
    assert(orig.take(n as int) =~= orig);
    let changed = kept.len() != before;
    state.installed = kept;
    changed
}

/// A state read from a file: schema version 0 is read as 1.
pub fn normalize_state(state: &mut InstalledState)
    ensures
        final(state).schema_version == (if old(state).schema_version == 0 {
            1
        } else {
            old(state).schema_version
        }),
        final(state).installed@ == old(state).installed@,
{
    if state.schema_version == 0 {
        state.schema_version = 1;
    }
}

/// After recording `pkg`, looking up its name finds `pkg`.
pub proof fn law_upsert_then_find(s: Seq<InstalledPkg>, pkg: InstalledPkg)
    ensures
        installed_index(upserted(s, pkg), pkg.name@) matches Some(i) && upserted(s, pkg)[i] == pkg,
{
    let t = upserted(s, pkg);
    lemma_installed_index_from(s, pkg.name@, 0);
    lemma_installed_index_from(t, pkg.name@, 0);
    let j = match installed_index(s, pkg.name@) {
        Some(i) => i,
        None => s.len() as int,
    };
    assert(t[j] == pkg);
    assert(eq_ignore_case(t[j].name@, pkg.name@));
    assert forall|m: int| 0 <= m < j implies !eq_ignore_case(#[trigger] t[m].name@, pkg.name@) by {
        assert(t[m] == s[m]);
    }
    if installed_index(t, pkg.name@) is Some {
        let k = installed_index(t, pkg.name@)->0;
        if k < j {
            assert(!eq_ignore_case(t[k].name@, pkg.name@));
        }
        if k > j {
            assert(!eq_ignore_case(t[j].name@, pkg.name@));
        }
    }
}

/// Recording `pkg` leaves every record whose name does not match it as it was.
pub proof fn law_upsert_keeps_others(s: Seq<InstalledPkg>, pkg: InstalledPkg, i: int)
    requires
        0 <= i < s.len(),
        !eq_ignore_case(s[i].name@, pkg.name@),
    ensures
        upserted(s, pkg)[i] == s[i],
        upserted(s, pkg).len() == s.len() + (if installed_index(s, pkg.name@) is Some {
            0int
        } else {
            1int
        }),
{
    lemma_installed_index_from(s, pkg.name@, 0);
}

/// After forgetting `name`, no record matches it; forgetting reports `true`
/// exactly when a record matched before.
pub proof fn law_remove_then_absent(s: Seq<InstalledPkg>, name: Seq<char>)
    ensures
        installed_index(s.filter(other_name(name)), name) is None,
        (s.filter(other_name(name)).len() != s.len()) == (installed_index(s, name) is Some),
{
    let pred = other_name(name);
    let t = s.filter(pred);
    lemma_filter_all(s, pred);
    lemma_installed_index_from(t, name, 0);
    lemma_installed_index_from(s, name, 0);
    assert forall|m: int| 0 <= m < t.len() implies !eq_ignore_case(#[trigger] t[m].name@, name) by {
        assert(pred(t[m]));
    }
    if installed_index(s, name) is Some {
        let k = installed_index(s, name)->0;
        assert(!pred(s[k]));
    } else {
        assert forall|i: int| 0 <= i < s.len() implies pred(#[trigger] s[i]) by {
            assert(!eq_ignore_case(s[i].name@, name));
        }
    }
}

/// Lookup ignores ASCII letter case: names that match each other find the
/// same record.
pub proof fn law_lookup_ignores_case(s: Seq<InstalledPkg>, a: Seq<char>, b: Seq<char>)
    requires
        eq_ignore_case(a, b),
    ensures
        installed_index(s, a) == installed_index(s, b),
{
    lemma_same_index_from(s, a, b, 0);
}

proof fn lemma_same_index_from(s: Seq<InstalledPkg>, a: Seq<char>, b: Seq<char>, i: int)
    requires
        eq_ignore_case(a, b),
        0 <= i,
    ensures
        installed_index_from(s, a, i) == installed_index_from(s, b, i),
    decreases s.len() - i,
{
    if i < s.len() {
        lemma_same_index_from(s, a, b, i + 1);
    }
}

/// Filtering keeps every element exactly when it keeps as many elements.
proof fn lemma_filter_all(a: Seq<InstalledPkg>, pred: spec_fn(InstalledPkg) -> bool)
    ensures
        a.filter(pred).len() <= a.len(),
        a.filter(pred).len() == a.len() <==> forall|i: int| 0 <= i < a.len() ==> pred(#[trigger] a[i]),
        forall|i: int| 0 <= i < a.filter(pred).len() ==> pred(#[trigger] a.filter(pred)[i]),
    decreases a.len(),
{
    reveal(Seq::filter);
    if a.len() > 0 {
        let d = a.drop_last();
        lemma_filter_all(d, pred);
        if !pred(a.last()) {
            assert(!pred(a[a.len() - 1]));
        }
        if forall|i: int| 0 <= i < a.len() ==> pred(#[trigger] a[i]) {
            assert forall|i: int| 0 <= i < d.len() implies pred(#[trigger] d[i]) by {
                assert(d[i] == a[i]);
            }
            assert(pred(a[a.len() - 1]));
        }
        if a.filter(pred).len() == a.len() {
            assert forall|i: int| 0 <= i < a.len() implies pred(#[trigger] a[i]) by {
                if i < a.len() - 1 {
                    assert(d[i] == a[i]);
                }
            }
        }
        assert forall|i: int| 0 <= i < a.filter(pred).len() implies pred(#[trigger] a.filter(pred)[i]) by {
            if i < d.filter(pred).len() {
                assert(a.filter(pred)[i] == d.filter(pred)[i]);
            }
        }
    }
}

} // verus!
