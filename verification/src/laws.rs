//! Laws of the diff engine.
//!
//! These proof functions state, once and for all inputs, what the diff is
//! good for: a snapshot diffed with itself gives no change; applying the
//! diff of two snapshots to the first reproduces the second exactly; the
//! output is a function of the two snapshots alone; and against an empty
//! current snapshot the diff is one `Removed` per former entry, in key
//! order.

use vstd::prelude::*;

use crate::order::lex_lt;
use crate::diff::add_case;
use crate::diff::change_key;
use crate::diff::rm_case;
use crate::diff::spec_add;
use crate::diff::spec_apply;
use crate::diff::spec_diff;
use crate::diff::spec_rm;
use crate::diff::ChangeV;
use crate::state::lemma_insert_map;
use crate::state::lemma_insert_sorted;
use crate::state::lemma_map_contains;
use crate::state::lemma_map_unsnoc;
use crate::state::lemma_map_value;
use crate::state::lemma_remove_map;
use crate::state::lemma_remove_sorted;
use crate::state::lemma_sorted_canonical;
use crate::state::pairs_map;
use crate::state::sorted_keys;
use crate::state::Pair;

verus! {

/// Diffing a snapshot against itself yields no change at all.
pub proof fn lemma_diff_self(a: Seq<Pair>)
    requires
        sorted_keys(a),
    ensures
        spec_diff(a, a) =~= Seq::<ChangeV>::empty(),
{
    assert forall|i: int| 0 <= i < a.len() implies pairs_map(a).contains_key((#[trigger] a[i]).0)
        && pairs_map(a)[a[i].0] == a[i].1 by {
        lemma_map_value(a, i);
    }
    lemma_rm_all_same(a, pairs_map(a));
    lemma_add_all_present(a, pairs_map(a));
    assert(spec_diff(a, a) =~= spec_rm(a, pairs_map(a)) + spec_add(a, pairs_map(a)));
}

/// The diff is a function of the two snapshots alone: the same inputs give
/// the same ordered output, every time.
pub proof fn lemma_diff_deterministic(a1: Seq<Pair>, b1: Seq<Pair>, a2: Seq<Pair>, b2: Seq<Pair>)
    requires
        a1 == a2,
        b1 == b2,
    ensures
        spec_diff(a1, b1) == spec_diff(a2, b2),
{
}

/// Applying the diff of two snapshots to the first reproduces the second,
/// entry for entry and in the same order.
pub proof fn lemma_diff_round_trip(a: Seq<Pair>, b: Seq<Pair>)
    requires
        sorted_keys(a),
        sorted_keys(b),
    ensures
        spec_apply(a, spec_diff(a, b)) =~= b,
{
    let ma = pairs_map(a);
    let mb = pairs_map(b);
    let d = spec_diff(a, b);
    lemma_apply_map(a, d);
    let r = spec_apply(a, d);
    assert forall|k: Seq<char>|
        #![trigger pairs_map(r).dom().contains(k)]
        #![trigger mb.dom().contains(k)]
        (pairs_map(r).contains_key(k) <==> mb.contains_key(k)) && (pairs_map(r).contains_key(k)
            && mb.contains_key(k) ==> pairs_map(r)[k] == mb[k]) by {
        lemma_map_apply_at(ma, d, k);
        lemma_last_concat(spec_rm(a, mb), spec_add(b, ma), k);
        lemma_last_rm(a, mb, k);
        lemma_last_add(b, ma, k);
    }
    assert(pairs_map(r) =~= mb);
    lemma_sorted_canonical(r, b);
}

/// The diff's order: the `Removed`/`Modified` part walks keys of the
/// initial snapshot in strictly increasing key order, the `Added` part
/// walks keys of the current snapshot, strictly increasing as well and
/// none of them a key of the initial snapshot; the full diff is the first
/// part followed by the second.
pub proof fn lemma_diff_ordered(p: Seq<Pair>, c: Seq<Pair>)
    requires
        sorted_keys(p),
        sorted_keys(c),
    ensures
        spec_diff(p, c) == spec_rm(p, pairs_map(c)) + spec_add(c, pairs_map(p)),
        forall|i: int|
            0 <= i < spec_rm(p, pairs_map(c)).len() ==> pairs_map(p).contains_key(
                change_key(#[trigger] spec_rm(p, pairs_map(c))[i]),
            ),
        forall|i: int, j: int|
            0 <= i < j < spec_rm(p, pairs_map(c)).len() ==> lex_lt(
                change_key(#[trigger] spec_rm(p, pairs_map(c))[i]),
                change_key(#[trigger] spec_rm(p, pairs_map(c))[j]),
            ),
        forall|i: int|
            0 <= i < spec_add(c, pairs_map(p)).len() ==> pairs_map(c).contains_key(
                change_key(#[trigger] spec_add(c, pairs_map(p))[i]),
            ) && !pairs_map(p).contains_key(change_key(spec_add(c, pairs_map(p))[i])),
        forall|i: int, j: int|
            0 <= i < j < spec_add(c, pairs_map(p)).len() ==> lex_lt(
                change_key(#[trigger] spec_add(c, pairs_map(p))[i]),
                change_key(#[trigger] spec_add(c, pairs_map(p))[j]),
            ),
{
    lemma_rm_keys(p, pairs_map(c));
    lemma_add_keys(c, pairs_map(p));
}

/// The `Removed`/`Modified` part walks keys of the initial snapshot, in
/// strictly increasing key order.
proof fn lemma_rm_keys(p: Seq<Pair>, cm: Map<Seq<char>, Seq<char>>)
    requires
        sorted_keys(p),
    ensures
        forall|i: int|
            0 <= i < spec_rm(p, cm).len() ==> pairs_map(p).contains_key(
                change_key(#[trigger] spec_rm(p, cm)[i]),
            ),
        forall|i: int, j: int|
            0 <= i < j < spec_rm(p, cm).len() ==> lex_lt(
                change_key(#[trigger] spec_rm(p, cm)[i]),
                change_key(#[trigger] spec_rm(p, cm)[j]),
            ),
    decreases p.len(),
{
    if p.len() > 0 {
        let d = p.drop_last();
        let x = p.last();
        lemma_map_unsnoc(p);
        lemma_rm_keys(d, cm);
        let rd = spec_rm(d, cm);
        let rc = rm_case(x, cm);
        let r = spec_rm(p, cm);
        assert(r == rd + rc);
        assert(rc.len() > 0 ==> change_key(rc[0]) == x.0);
        assert forall|i: int| 0 <= i < r.len() implies pairs_map(p).contains_key(
            change_key(#[trigger] r[i]),
        ) by {
            if i < rd.len() {
                assert(r[i] == rd[i]);
                assert(pairs_map(d).contains_key(change_key(rd[i])));
            } else {
                assert(r[i] == rc[i - rd.len()]);
                assert(change_key(r[i]) == x.0);
            }
        }
        assert forall|i: int, j: int| 0 <= i < j < r.len() implies lex_lt(
            change_key(#[trigger] r[i]),
            change_key(#[trigger] r[j]),
        ) by {
            if j < rd.len() {
                assert(r[i] == rd[i]);
                assert(r[j] == rd[j]);
            } else {
                assert(i < rd.len());
                assert(r[i] == rd[i]);
                assert(r[j] == rc[j - rd.len()]);
                assert(pairs_map(d).contains_key(change_key(rd[i])));
                lemma_map_contains(d, change_key(rd[i]));
                let m = choose|m: int| 0 <= m < d.len() && (#[trigger] d[m]).0 == change_key(rd[i]);
                assert(d[m] == p[m]);
                assert(lex_lt(p[m].0, p[p.len() - 1].0));
            }
        }
    }
}

/// The `Added` part walks keys of the current snapshot that the initial one
/// lacks, in strictly increasing key order.
proof fn lemma_add_keys(c: Seq<Pair>, pm: Map<Seq<char>, Seq<char>>)
    requires
        sorted_keys(c),
    ensures
        forall|i: int|
            0 <= i < spec_add(c, pm).len() ==> pairs_map(c).contains_key(
                change_key(#[trigger] spec_add(c, pm)[i]),
            ) && !pm.contains_key(change_key(spec_add(c, pm)[i])),
        forall|i: int, j: int|
            0 <= i < j < spec_add(c, pm).len() ==> lex_lt(
                change_key(#[trigger] spec_add(c, pm)[i]),
                change_key(#[trigger] spec_add(c, pm)[j]),
            ),
    decreases c.len(),
{
    if c.len() > 0 {
        let d = c.drop_last();
        let x = c.last();
        lemma_map_unsnoc(c);
        lemma_add_keys(d, pm);
        let rd = spec_add(d, pm);
        let rc = add_case(x, pm);
        let r = spec_add(c, pm);
        assert(r == rd + rc);
        assert(rc.len() > 0 ==> change_key(rc[0]) == x.0 && !pm.contains_key(x.0));
        assert forall|i: int| 0 <= i < r.len() implies pairs_map(c).contains_key(
            change_key(#[trigger] r[i]),
        ) && !pm.contains_key(change_key(r[i])) by {
            if i < rd.len() {
                assert(r[i] == rd[i]);
                assert(pairs_map(d).contains_key(change_key(rd[i])));
            } else {
                assert(r[i] == rc[i - rd.len()]);
                assert(change_key(r[i]) == x.0);
            }
        }
        assert forall|i: int, j: int| 0 <= i < j < r.len() implies lex_lt(
            change_key(#[trigger] r[i]),
            change_key(#[trigger] r[j]),
        ) by {
            if j < rd.len() {
                assert(r[i] == rd[i]);
                assert(r[j] == rd[j]);
            } else {
                assert(i < rd.len());
                assert(r[i] == rd[i]);
                assert(r[j] == rc[j - rd.len()]);
                assert(pairs_map(d).contains_key(change_key(rd[i])));
                lemma_map_contains(d, change_key(rd[i]));
                let m = choose|m: int| 0 <= m < d.len() && (#[trigger] d[m]).0 == change_key(rd[i]);
                assert(d[m] == c[m]);
                assert(lex_lt(c[m].0, c[c.len() - 1].0));
            }
        }
    }
}

/// Against an empty current snapshot the diff is exactly one `Removed` per
/// former entry, in key order.
pub proof fn lemma_diff_to_empty(p: Seq<Pair>)
    ensures
        spec_diff(p, Seq::<Pair>::empty()) =~= p.map_values(|pr: Pair| ChangeV::Removed(pr.0)),
{
    lemma_rm_to_empty(p);
    assert(spec_add(Seq::<Pair>::empty(), pairs_map(p)) =~= Seq::<ChangeV>::empty());
    assert(spec_diff(p, Seq::<Pair>::empty()) =~= spec_rm(
        p,
        pairs_map(Seq::<Pair>::empty()),
    ) + spec_add(Seq::<Pair>::empty(), pairs_map(p)));
}

/// Every entry holds its key and value in the given map: no `Removed` or
/// `Modified` entry arises.
proof fn lemma_rm_all_same(p: Seq<Pair>, m: Map<Seq<char>, Seq<char>>)
    requires
        forall|i: int|
            0 <= i < p.len() ==> m.contains_key((#[trigger] p[i]).0) && m[p[i].0] == p[i].1,
    ensures
        spec_rm(p, m) =~= Seq::<ChangeV>::empty(),
    decreases p.len(),
{
    if p.len() > 0 {
        assert forall|i: int| 0 <= i < p.drop_last().len() implies m.contains_key(
            (#[trigger] p.drop_last()[i]).0,
        ) && m[p.drop_last()[i].0] == p.drop_last()[i].1 by {
            assert(p.drop_last()[i] == p[i]);
        }
        lemma_rm_all_same(p.drop_last(), m);
        assert(p.last() == p[p.len() - 1]);
        assert(rm_case(p.last(), m) =~= Seq::<ChangeV>::empty());
        assert(spec_rm(p, m) =~= spec_rm(p.drop_last(), m) + rm_case(p.last(), m));
    }
}

/// Every key is already in the given map: no `Added` entry arises.
proof fn lemma_add_all_present(c: Seq<Pair>, m: Map<Seq<char>, Seq<char>>)
    requires
        forall|i: int| 0 <= i < c.len() ==> m.contains_key((#[trigger] c[i]).0),
    ensures
        spec_add(c, m) =~= Seq::<ChangeV>::empty(),
    decreases c.len(),
{
    if c.len() > 0 {
        assert forall|i: int| 0 <= i < c.drop_last().len() implies m.contains_key(
            (#[trigger] c.drop_last()[i]).0,
        ) by {
            assert(c.drop_last()[i] == c[i]);
        }
        lemma_add_all_present(c.drop_last(), m);
        assert(c.last() == c[c.len() - 1]);
        assert(add_case(c.last(), m) =~= Seq::<ChangeV>::empty());
        assert(spec_add(c, m) =~= spec_add(c.drop_last(), m) + add_case(c.last(), m));
    }
}

/// With an empty map as the current side, every entry becomes `Removed`.
proof fn lemma_rm_to_empty(p: Seq<Pair>)
    ensures
        spec_rm(p, Map::<Seq<char>, Seq<char>>::empty()) =~= p.map_values(
            |pr: Pair| ChangeV::Removed(pr.0),
        ),
    decreases p.len(),
{
    if p.len() > 0 {
        lemma_rm_to_empty(p.drop_last());
        assert(rm_case(p.last(), Map::<Seq<char>, Seq<char>>::empty()) =~= seq![
            ChangeV::Removed(p.last().0),
        ]);
        assert(spec_rm(p, Map::<Seq<char>, Seq<char>>::empty()) =~= spec_rm(
            p.drop_last(),
            Map::<Seq<char>, Seq<char>>::empty(),
        ) + rm_case(p.last(), Map::<Seq<char>, Seq<char>>::empty()));
        assert(p.map_values(|pr: Pair| ChangeV::Removed(pr.0)) =~= p.drop_last().map_values(
            |pr: Pair| ChangeV::Removed(pr.0),
        ) + seq![ChangeV::Removed(p.last().0)]);
    }
}

/// The effect of one change on the denoted map.
pub open spec fn map_change(m: Map<Seq<char>, Seq<char>>, c: ChangeV) -> Map<Seq<char>, Seq<char>> {
    match c {
        ChangeV::Added(k, v) => m.insert(k, v),
        ChangeV::Modified(k, v) => m.insert(k, v),
        ChangeV::Removed(k) => m.remove(k),
    }
}

/// The effect of a list of changes on the denoted map, left to right.
pub open spec fn map_apply(m: Map<Seq<char>, Seq<char>>, cs: Seq<ChangeV>) -> Map<
    Seq<char>,
    Seq<char>,
>
    decreases cs.len(),
{
    if cs.len() == 0 {
        m
    } else {
        map_change(map_apply(m, cs.drop_last()), cs.last())
    }
}

/// Applying changes to a sorted snapshot tracks applying them to its map.
pub proof fn lemma_apply_map(s: Seq<Pair>, cs: Seq<ChangeV>)
    requires
        sorted_keys(s),
    ensures
        sorted_keys(spec_apply(s, cs)),
        pairs_map(spec_apply(s, cs)) =~= map_apply(pairs_map(s), cs),
    decreases cs.len(),
{
    if cs.len() > 0 {
        lemma_apply_map(s, cs.drop_last());
        let prev = spec_apply(s, cs.drop_last());
        match cs.last() {
            ChangeV::Added(k, v) => {
                lemma_insert_sorted(prev, k, v);
                lemma_insert_map(prev, k, v);
            },
            ChangeV::Modified(k, v) => {
                lemma_insert_sorted(prev, k, v);
                lemma_insert_map(prev, k, v);
            },
            ChangeV::Removed(k) => {
                lemma_remove_sorted(prev, k);
                lemma_remove_map(prev, k);
            },
        }
    }
}

/// The last change of the list that speaks of key `k`, if any.
pub open spec fn last_change(cs: Seq<ChangeV>, k: Seq<char>) -> Option<ChangeV>
    decreases cs.len(),
{
    if cs.len() == 0 {
        None
    } else if change_key(cs.last()) == k {
        Some(cs.last())
    } else {
        last_change(cs.drop_last(), k)
    }
}

/// What a list of changes does to one key of the map: the last change that
/// speaks of the key decides; no change leaves it as it was.
pub proof fn lemma_map_apply_at(m: Map<Seq<char>, Seq<char>>, cs: Seq<ChangeV>, k: Seq<char>)
    ensures
        match last_change(cs, k) {
            None => map_apply(m, cs).contains_key(k) == m.contains_key(k) && (m.contains_key(k)
                ==> map_apply(m, cs)[k] == m[k]),
            Some(c) => match c {
                ChangeV::Added(_, v) => map_apply(m, cs).contains_key(k) && map_apply(m, cs)[k]
                    == v,
                ChangeV::Modified(_, v) => map_apply(m, cs).contains_key(k) && map_apply(m, cs)[k]
                    == v,
                ChangeV::Removed(_) => !map_apply(m, cs).contains_key(k),
            },
        },
    decreases cs.len(),
{
    if cs.len() > 0 {
        lemma_map_apply_at(m, cs.drop_last(), k);
    }
}

/// The last change of a concatenation for a key: the second part decides if
/// it speaks of the key at all, else the first part does.
pub proof fn lemma_last_concat(c1: Seq<ChangeV>, c2: Seq<ChangeV>, k: Seq<char>)
    ensures
        last_change(c1 + c2, k) == (if last_change(c2, k) is Some {
            last_change(c2, k)
        } else {
            last_change(c1, k)
        }),
    decreases c2.len(),
{
    if c2.len() == 0 {
        assert(c1 + c2 =~= c1);
    } else {
        assert((c1 + c2).last() == c2.last());
        assert((c1 + c2).drop_last() =~= c1 + c2.drop_last());
        lemma_last_concat(c1, c2.drop_last(), k);
    }
}

/// Which change the `Removed`/`Modified` part holds for a key, in terms of
/// the two snapshots' maps.
pub proof fn lemma_last_rm(p: Seq<Pair>, cm: Map<Seq<char>, Seq<char>>, k: Seq<char>)
    requires
        sorted_keys(p),
    ensures
        pairs_map(p).contains_key(k) ==> last_change(spec_rm(p, cm), k) == (if !cm.contains_key(k) {
            Some(ChangeV::Removed(k))
        } else if cm[k] != pairs_map(p)[k] {
            Some(ChangeV::Modified(k, cm[k]))
        } else {
            Option::<ChangeV>::None
        }),
        !pairs_map(p).contains_key(k) ==> last_change(spec_rm(p, cm), k) is None,
    decreases p.len(),
{
    if p.len() == 0 {
        assert(!pairs_map(p).contains_key(k));
        assert(last_change(spec_rm(p, cm), k) is None);
    } else {
        let x = p.last();
        let d = p.drop_last();
        lemma_map_unsnoc(p);
        lemma_last_rm(d, cm, k);
        lemma_last_concat(spec_rm(d, cm), rm_case(x, cm), k);
        lemma_last_singleton(rm_case(x, cm), k);
        assert(spec_rm(p, cm) == spec_rm(d, cm) + rm_case(x, cm));
        if x.0 == k {
            assert(pairs_map(p).contains_key(k));
            assert(pairs_map(p)[k] == x.1);
            if cm.contains_key(k) && cm[k] == x.1 {
                assert(rm_case(x, cm) =~= Seq::<ChangeV>::empty());
                assert(last_change(rm_case(x, cm), k) is None);
                assert(!pairs_map(d).contains_key(k));
            }
        } else {
            assert(pairs_map(p).contains_key(k) == pairs_map(d).contains_key(k));
            if pairs_map(d).contains_key(k) {
                assert(pairs_map(p)[k] == pairs_map(d)[k]);
            }
            assert(rm_case(x, cm).len() > 0 ==> change_key(rm_case(x, cm)[0]) == x.0);
            assert(last_change(rm_case(x, cm), k) is None);
        }
    }
}

/// Which change the `Added` part holds for a key, in terms of the two
/// snapshots' maps.
pub proof fn lemma_last_add(c: Seq<Pair>, pm: Map<Seq<char>, Seq<char>>, k: Seq<char>)
    requires
        sorted_keys(c),
    ensures
        (pairs_map(c).contains_key(k) && !pm.contains_key(k)) ==> last_change(spec_add(c, pm), k)
            == Some(ChangeV::Added(k, pairs_map(c)[k])),
        !(pairs_map(c).contains_key(k) && !pm.contains_key(k)) ==> last_change(spec_add(c, pm), k)
            is None,
    decreases c.len(),
{
    if c.len() == 0 {
        assert(!pairs_map(c).contains_key(k));
        assert(last_change(spec_add(c, pm), k) is None);
    } else {
        let x = c.last();
        let d = c.drop_last();
        lemma_map_unsnoc(c);
        lemma_last_add(d, pm, k);
        lemma_last_concat(spec_add(d, pm), add_case(x, pm), k);
        lemma_last_singleton(add_case(x, pm), k);
        assert(spec_add(c, pm) == spec_add(d, pm) + add_case(x, pm));
        if x.0 == k {
            assert(pairs_map(c).contains_key(k));
            assert(pairs_map(c)[k] == x.1);
            if pm.contains_key(k) {
                assert(add_case(x, pm) =~= Seq::<ChangeV>::empty());
                assert(last_change(add_case(x, pm), k) is None);
            }
        } else {
            assert(pairs_map(c).contains_key(k) == pairs_map(d).contains_key(k));
            if pairs_map(d).contains_key(k) {
                assert(pairs_map(c)[k] == pairs_map(d)[k]);
            }
            assert(add_case(x, pm).len() > 0 ==> change_key(add_case(x, pm)[0]) == x.0);
            assert(last_change(add_case(x, pm), k) is None);
        }
    }
}

/// The last change of a list of at most one entry.
proof fn lemma_last_singleton(cs: Seq<ChangeV>, k: Seq<char>)
    requires
        cs.len() <= 1,
    ensures
        cs.len() == 0 ==> last_change(cs, k) is None,
        cs.len() == 1 && change_key(cs[0]) == k ==> last_change(cs, k) == Some(cs[0]),
        cs.len() == 1 && change_key(cs[0]) != k ==> last_change(cs, k) is None,
{
    if cs.len() == 1 {
        assert(cs.last() == cs[0]);
        assert(cs.drop_last() =~= Seq::<ChangeV>::empty());
        assert(last_change(Seq::<ChangeV>::empty(), k) is None);
    }
}

} // verus!
