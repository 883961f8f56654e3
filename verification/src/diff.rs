//! The diff engine.
//!
//! [`compare_state`] turns two snapshots into the ordered list of changes
//! between them: first, for every key of the initial snapshot in key order, a
//! `Removed` or `Modified` entry where the current snapshot lacks the key or
//! binds it to another value; then an `Added` entry for every new key, in key
//! order of the current snapshot. The list is pinned exactly by
//! [`spec_diff`], so it is deterministic in the two inputs.

use vstd::prelude::*;

use crate::state::pairs_map;
use crate::state::spec_insert;
use crate::state::spec_remove;
use crate::state::Pair;
use crate::state::State;

verus! {

/// One observed difference between two snapshots.
#[derive(Debug, Clone, PartialEq, Eq)]
pub enum Change {
    /// The key is new; carries the key and its value.
    Added(String, String),
    /// The key is gone; carries only the key.
    Removed(String),
    /// The key is still there with another value; carries the key and the
    /// new value.
    Modified(String, String),
}

/// The model of a change, over character sequences.
pub enum ChangeV {
    Added(Seq<char>, Seq<char>),
    Removed(Seq<char>),
    Modified(Seq<char>, Seq<char>),
}

impl View for Change {
    type V = ChangeV;

    open spec fn view(&self) -> ChangeV {
        match self {
            Change::Added(k, v) => ChangeV::Added(k@, v@),
            Change::Removed(k) => ChangeV::Removed(k@),
            Change::Modified(k, v) => ChangeV::Modified(k@, v@),
        }
    }
}

/// The key a change speaks of.
pub open spec fn change_key(c: ChangeV) -> Seq<char> {
    match c {
        ChangeV::Added(k, _) => k,
        ChangeV::Removed(k) => k,
        ChangeV::Modified(k, _) => k,
    }
}

/// The model of a list of changes.
pub open spec fn changes_view(s: Seq<Change>) -> Seq<ChangeV> {
    s.map_values(|c: Change| c@)
}

/// What one initial entry contributes to the diff, against the map of the
/// current snapshot.
pub open spec fn rm_case(p: Pair, cm: Map<Seq<char>, Seq<char>>) -> Seq<ChangeV> {
    if !cm.contains_key(p.0) {
        seq![ChangeV::Removed(p.0)]
    } else if cm[p.0] != p.1 {
        seq![ChangeV::Modified(p.0, cm[p.0])]
    } else {
        Seq::empty()
    }
}

/// The `Removed`/`Modified` part of the diff, in key order of the initial
/// snapshot.
pub open spec fn spec_rm(prev: Seq<Pair>, cm: Map<Seq<char>, Seq<char>>) -> Seq<ChangeV>
    decreases prev.len(),
{
    if prev.len() == 0 {
        Seq::empty()
    } else {
        spec_rm(prev.drop_last(), cm) + rm_case(prev.last(), cm)
    }
}

/// What one current entry contributes to the diff, against the map of the
/// initial snapshot.
pub open spec fn add_case(p: Pair, pm: Map<Seq<char>, Seq<char>>) -> Seq<ChangeV> {
    if pm.contains_key(p.0) {
        Seq::empty()
    } else {
        seq![ChangeV::Added(p.0, p.1)]
    }
}

/// The `Added` part of the diff, in key order of the current snapshot.
pub open spec fn spec_add(cur: Seq<Pair>, pm: Map<Seq<char>, Seq<char>>) -> Seq<ChangeV>
    decreases cur.len(),
{
    if cur.len() == 0 {
        Seq::empty()
    } else {
        spec_add(cur.drop_last(), pm) + add_case(cur.last(), pm)
    }
}

/// The full ordered diff between two snapshots.
pub open spec fn spec_diff(prev: Seq<Pair>, cur: Seq<Pair>) -> Seq<ChangeV> {
    spec_rm(prev, pairs_map(cur)) + spec_add(cur, pairs_map(prev))
}

/// Computes the ordered changes that lead from `initial` to `current`.
#[verifier::loop_isolation(false)]
pub fn compare_state(initial: &State, current: &State) -> (r: Vec<Change>)
    requires
        initial.wf(),
        current.wf(),
    ensures
        changes_view(r@) == spec_diff(initial@, current@),
{
    let mut changes: Vec<Change> = Vec::new();
    let ghost cm = pairs_map(current@);
    let ghost pm = pairs_map(initial@);
    proof {
        assert(initial@.take(0) =~= Seq::<Pair>::empty());
        assert(changes_view(changes@) =~= Seq::<ChangeV>::empty());
    }
    let n = initial.len();
    let mut i: usize = 0;
    while i < n
        invariant
            i <= n,
            changes_view(changes@) =~= spec_rm(initial@.take(i as int), cm),
        decreases n - i,
    {
        let e = initial.entry_at(i);
        let ghost prev_changes = changes@;
        match current.get(&e.key) {
            None => {
                changes.push(Change::Removed(e.key.clone()));
                proof {
                    assert(changes@.drop_last() =~= prev_changes);
                    assert(changes@.last()@ == ChangeV::Removed(initial@[i as int].0));
                }
            },
            Some(cval) => {
                if !(*cval == e.value) {
                    changes.push(Change::Modified(e.key.clone(), cval.clone()));
                    proof {
                        assert(changes@.drop_last() =~= prev_changes);
                        assert(changes@.last()@ == ChangeV::Modified(
                            initial@[i as int].0,
                            cm[initial@[i as int].0],
                        ));
                    }
                }
            },
        }
        proof {
            let t = initial@.take(i + 1);
            assert(t.drop_last() =~= initial@.take(i as int));
            assert(t.last() == initial@[i as int]);
            assert(changes_view(changes@) =~= spec_rm(initial@.take(i as int), cm) + rm_case(
                initial@[i as int],
                cm,
            ));
        }
        i = i + 1;
    }
    proof {
        assert(initial@.take(n as int) =~= initial@);
        assert(current@.take(0) =~= Seq::<Pair>::empty());
        assert(changes_view(changes@) =~= spec_rm(initial@, cm) + spec_add(current@.take(0), pm));
    }
    let m = current.len();
    let mut j: usize = 0;
    while j < m
        invariant
            j <= m,
            changes_view(changes@) =~= spec_rm(initial@, cm) + spec_add(current@.take(j as int), pm),
        decreases m - j,
    {
        let e = current.entry_at(j);
        let ghost prev_changes = changes@;
        match initial.get(&e.key) {
            None => {
                changes.push(Change::Added(e.key.clone(), e.value.clone()));
                proof {
                    assert(changes@.drop_last() =~= prev_changes);
                    assert(changes@.last()@ == ChangeV::Added(
                        current@[j as int].0,
                        current@[j as int].1,
                    ));
                    assert(!pm.contains_key(current@[j as int].0));
                    assert(add_case(current@[j as int], pm) =~= seq![
                        ChangeV::Added(current@[j as int].0, current@[j as int].1),
                    ]);
                    assert(changes_view(changes@) =~= changes_view(prev_changes) + seq![
                        ChangeV::Added(current@[j as int].0, current@[j as int].1),
                    ]);
                    assert(changes_view(prev_changes) + seq![
                        ChangeV::Added(current@[j as int].0, current@[j as int].1),
                    ] =~= spec_rm(initial@, cm) + (spec_add(current@.take(j as int), pm)
                        + add_case(current@[j as int], pm)));
                    assert(changes_view(changes@) =~= spec_rm(initial@, cm) + (spec_add(
                        current@.take(j as int),
                        pm,
                    ) + add_case(current@[j as int], pm)));
                }
            },
            Some(_) => {
                proof {
                    assert(pm.contains_key(current@[j as int].0));
                    assert(add_case(current@[j as int], pm) =~= Seq::<ChangeV>::empty());
                    assert(changes_view(changes@) =~= spec_rm(initial@, cm) + (spec_add(
                        current@.take(j as int),
                        pm,
                    ) + add_case(current@[j as int], pm)));
                }
            },
        }
        proof {
            let t = current@.take(j + 1);
            assert(t.drop_last() =~= current@.take(j as int));
            assert(t.last() == current@[j as int]);
            assert(spec_rm(initial@, cm) + (spec_add(current@.take(j as int), pm) + add_case(
                current@[j as int],
                pm,
            )) =~= spec_rm(initial@, cm) + spec_add(t, pm));
        }
        j = j + 1;
    }
    proof {
        assert(current@.take(m as int) =~= current@);
    }
    changes
}

/// How many changes of the list are `Added`.
pub open spec fn count_added(s: Seq<ChangeV>) -> nat
    decreases s.len(),
{
    if s.len() == 0 {
        0
    } else {
        count_added(s.drop_last()) + (if s.last() is Added {
            1nat
        } else {
            0nat
        })
    }
}

/// How many changes of the list are `Removed`.
pub open spec fn count_removed(s: Seq<ChangeV>) -> nat
    decreases s.len(),
{
    if s.len() == 0 {
        0
    } else {
        count_removed(s.drop_last()) + (if s.last() is Removed {
            1nat
        } else {
            0nat
        })
    }
}

/// How many changes of the list are `Modified`.
pub open spec fn count_modified(s: Seq<ChangeV>) -> nat
    decreases s.len(),
{
    if s.len() == 0 {
        0
    } else {
        count_modified(s.drop_last()) + (if s.last() is Modified {
            1nat
        } else {
            0nat
        })
    }
}

/// Counts the changes of each kind: `(added, removed, modified)`.
#[verifier::loop_isolation(false)]
pub fn change_counts(changes: &Vec<Change>) -> (r: (usize, usize, usize))
    ensures
        r.0 == count_added(changes_view(changes@)),
        r.1 == count_removed(changes_view(changes@)),
        r.2 == count_modified(changes_view(changes@)),
{
    let mut a: usize = 0;
    let mut rm: usize = 0;
    let mut md: usize = 0;
    let n = changes.len();
    let mut i: usize = 0;
    proof {
        assert(changes_view(changes@).take(0) =~= Seq::<ChangeV>::empty());
    }
    while i < n
        invariant
            i <= n,
            a == count_added(changes_view(changes@).take(i as int)),
            rm == count_removed(changes_view(changes@).take(i as int)),
            md == count_modified(changes_view(changes@).take(i as int)),
            a <= i,
            rm <= i,
            md <= i,
        decreases n - i,
    {
        proof {
            let t = changes_view(changes@).take(i + 1);
            assert(t.drop_last() =~= changes_view(changes@).take(i as int));
            assert(t.last() == changes@[i as int]@);
        }
        match &changes[i] {
            Change::Added(_, _) => {
                a = a + 1;
            },
            Change::Removed(_) => {
                rm = rm + 1;
            },
            Change::Modified(_, _) => {
                md = md + 1;
            },
        }
        i = i + 1;
    }
    proof {
        assert(changes_view(changes@).take(n as int) =~= changes_view(changes@));
    }
    (a, rm, md)
}

/// The effect of one change on a snapshot model.
pub open spec fn apply_change(s: Seq<Pair>, c: ChangeV) -> Seq<Pair> {
    match c {
        ChangeV::Added(k, v) => spec_insert(s, k, v),
        ChangeV::Modified(k, v) => spec_insert(s, k, v),
        ChangeV::Removed(k) => spec_remove(s, k),
    }
}

/// The effect of a list of changes, applied left to right.
pub open spec fn spec_apply(s: Seq<Pair>, cs: Seq<ChangeV>) -> Seq<Pair>
    decreases cs.len(),
{
    if cs.len() == 0 {
        s
    } else {
        apply_change(spec_apply(s, cs.drop_last()), cs.last())
    }
}

/// Applies a list of changes to a snapshot, yielding the changed snapshot.
#[verifier::loop_isolation(false)]
pub fn apply_changes(base: &State, changes: &Vec<Change>) -> (r: State)
    requires
        base.wf(),
    ensures
        r.wf(),
        r@ == spec_apply(base@, changes_view(changes@)),
{
    let mut st = base.duplicate();
    let n = changes.len();
    let mut i: usize = 0;
    proof {
        assert(changes_view(changes@).take(0) =~= Seq::<ChangeV>::empty());
    }
    while i < n
        invariant
            i <= n,
            st.wf(),
            st@ == spec_apply(base@, changes_view(changes@).take(i as int)),
        decreases n - i,
    {
        proof {
            let t = changes_view(changes@).take(i + 1);
            assert(t.drop_last() =~= changes_view(changes@).take(i as int));
            assert(t.last() == changes@[i as int]@);
        }
        match &changes[i] {
            Change::Added(k, v) => {
                st.insert(k.clone(), v.clone());
            },
            Change::Removed(k) => {
                st.remove(k);
            },
            Change::Modified(k, v) => {
                st.insert(k.clone(), v.clone());
            },
        }
        i = i + 1;
    }
    proof {
        assert(changes_view(changes@).take(n as int) =~= changes_view(changes@));
    }
    st
}

} // verus!
