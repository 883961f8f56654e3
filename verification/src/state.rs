//! Snapshots of the monitored store.
//!
//! A [`State`] is an ordered mapping from key to value: its entries are kept
//! strictly sorted by key, so two snapshots with the same pairs are equal as
//! values, and walking the entries is deterministic. The mathematical model
//! is a sequence of key/value pairs ([`View`]) together with the finite map
//! it denotes ([`pairs_map`]).

use vstd::prelude::*;

use crate::order::lemma_lex_asym;
use crate::order::lemma_lex_connected;
use crate::order::lemma_lex_irrefl;
use crate::order::lemma_lex_trans;
use crate::order::lex_lt;
use crate::order::str_lt;

verus! {

/// The model of one entry: a key and a value.
pub type Pair = (Seq<char>, Seq<char>);

/// One key/value pair of a snapshot.
#[derive(Debug, Clone)]
pub struct Entry {
    pub key: String,
    pub value: String,
}

impl View for Entry {
    type V = Pair;

    open spec fn view(&self) -> Pair {
        (self.key@, self.value@)
    }
}

/// The keys of `s` are strictly increasing, hence also distinct.
pub open spec fn sorted_keys(s: Seq<Pair>) -> bool {
    forall|i: int, j: int| 0 <= i < j < s.len() ==> lex_lt(#[trigger] s[i].0, #[trigger] s[j].0)
}

/// The finite map denoted by a sequence of pairs; an earlier entry wins
/// over a later one with the same key (sorted sequences have no such pair).
pub open spec fn pairs_map(s: Seq<Pair>) -> Map<Seq<char>, Seq<char>>
    decreases s.len(),
{
    if s.len() == 0 {
        Map::empty()
    } else {
        pairs_map(s.skip(1)).insert(s[0].0, s[0].1)
    }
}

/// Insertion into a sorted sequence of pairs: overwrites the entry with the
/// same key if there is one, else places the new pair in key order.
pub open spec fn spec_insert(s: Seq<Pair>, k: Seq<char>, v: Seq<char>) -> Seq<Pair>
    decreases s.len(),
{
    if s.len() == 0 {
        seq![(k, v)]
    } else if lex_lt(s[0].0, k) {
        seq![s[0]] + spec_insert(s.skip(1), k, v)
    } else if s[0].0 == k {
        seq![(k, v)] + s.skip(1)
    } else {
        seq![(k, v)] + s
    }
}

/// Removal from a sequence of pairs: drops the first entry with key `k`.
pub open spec fn spec_remove(s: Seq<Pair>, k: Seq<char>) -> Seq<Pair>
    decreases s.len(),
{
    if s.len() == 0 {
        s
    } else if s[0].0 == k {
        s.skip(1)
    } else {
        seq![s[0]] + spec_remove(s.skip(1), k)
    }
}

/// A key is in the map iff some entry carries it.
pub proof fn lemma_map_contains(s: Seq<Pair>, k: Seq<char>)
    ensures
        pairs_map(s).contains_key(k) <==> exists|i: int| 0 <= i < s.len() && (#[trigger] s[i]).0
            == k,
    decreases s.len(),
{
    if s.len() > 0 {
        lemma_map_contains(s.skip(1), k);
        if pairs_map(s).contains_key(k) {
            if s[0].0 == k {
                assert(0 <= 0 < s.len() && s[0].0 == k);
            } else {
                let i = choose|i: int| 0 <= i < s.skip(1).len() && (#[trigger] s.skip(1)[i]).0 == k;
                assert(s[i + 1].0 == k);
            }
        }
        if exists|i: int| 0 <= i < s.len() && (#[trigger] s[i]).0 == k {
            let i = choose|i: int| 0 <= i < s.len() && (#[trigger] s[i]).0 == k;
            if i > 0 {
                assert(s.skip(1)[i - 1].0 == k);
            }
        }
    }
}

/// In a sorted sequence each entry gives the value of its key in the map.
pub proof fn lemma_map_value(s: Seq<Pair>, i: int)
    requires
        sorted_keys(s),
        0 <= i < s.len(),
    ensures
        pairs_map(s).contains_key(s[i].0),
        pairs_map(s)[s[i].0] == s[i].1,
    decreases s.len(),
{
    if i == 0 {
    } else {
        assert(sorted_keys(s.skip(1))) by {
            assert forall|a: int, b: int| 0 <= a < b < s.skip(1).len() implies lex_lt(
                #[trigger] s.skip(1)[a].0,
                #[trigger] s.skip(1)[b].0,
            ) by {
                assert(lex_lt(s[a + 1].0, s[b + 1].0));
            }
        }
        assert(s.skip(1)[i - 1] == s[i]);
        lemma_map_value(s.skip(1), i - 1);
        assert(lex_lt(s[0].0, s[i].0));
        lemma_lex_irrefl(s[0].0);
        lemma_lex_asym(s[0].0, s[i].0);
        if s[0].0 == s[i].0 {
            assert(lex_lt(s[0].0, s[0].0));
            assert(false);
        }
    }
}

/// Dropping the first entry of a sorted sequence keeps it sorted.
pub proof fn lemma_sorted_skip(s: Seq<Pair>)
    requires
        sorted_keys(s),
        s.len() > 0,
    ensures
        sorted_keys(s.skip(1)),
{
    assert forall|a: int, b: int| 0 <= a < b < s.skip(1).len() implies lex_lt(
        #[trigger] s.skip(1)[a].0,
        #[trigger] s.skip(1)[b].0,
    ) by {
        assert(lex_lt(s[a + 1].0, s[b + 1].0));
    }
}

/// A sorted sequence read from the back: the map is the map of the front
/// part with the last pair added, and the front part does not hold its key.
pub proof fn lemma_map_unsnoc(s: Seq<Pair>)
    requires
        sorted_keys(s),
        s.len() > 0,
    ensures
        sorted_keys(s.drop_last()),
        !pairs_map(s.drop_last()).contains_key(s.last().0),
        pairs_map(s) =~= pairs_map(s.drop_last()).insert(s.last().0, s.last().1),
    decreases s.len(),
{
    assert(sorted_keys(s.drop_last()));
    lemma_map_contains(s.drop_last(), s.last().0);
    assert forall|i: int| 0 <= i < s.drop_last().len() implies (#[trigger] s.drop_last()[i]).0
        != s.last().0 by {
        assert(lex_lt(s[i].0, s.last().0));
        lemma_lex_irrefl(s[i].0);
    }
    if s.len() == 1 {
        assert(s.skip(1).len() == 0);
        assert(pairs_map(s.skip(1)) =~= Map::<Seq<char>, Seq<char>>::empty());
        assert(s.drop_last() =~= Seq::<Pair>::empty());
        assert(pairs_map(s) =~= pairs_map(s.drop_last()).insert(s.last().0, s.last().1));
    } else {
        let t = s.skip(1);
        lemma_sorted_skip(s);
        lemma_map_unsnoc(t);
        assert(t.last() == s.last());
        assert(t.drop_last() =~= s.drop_last().skip(1));
        assert(pairs_map(s.drop_last()) == pairs_map(s.drop_last().skip(1)).insert(s[0].0, s[0].1));
        assert(lex_lt(s[0].0, s.last().0));
        lemma_lex_irrefl(s[0].0);
        assert(s[0].0 != s.last().0);
        assert(pairs_map(s) == pairs_map(t).insert(s[0].0, s[0].1));
        assert(pairs_map(t) =~= pairs_map(t.drop_last()).insert(t.last().0, t.last().1));
        assert(pairs_map(s) =~= pairs_map(s.drop_last()).insert(s.last().0, s.last().1));
    }
}

/// Every key of an inserted sequence is the new key or one of the old keys.
pub proof fn lemma_insert_keys(s: Seq<Pair>, k: Seq<char>, v: Seq<char>)
    ensures
        forall|i: int|
            0 <= i < spec_insert(s, k, v).len() ==> (#[trigger] spec_insert(s, k, v)[i]).0 == k
                || exists|j: int| 0 <= j < s.len() && (#[trigger] s[j]).0 == spec_insert(s, k, v)[i].0,
    decreases s.len(),
{
    if s.len() == 0 {
    } else if lex_lt(s[0].0, k) {
        lemma_insert_keys(s.skip(1), k, v);
        let r = spec_insert(s, k, v);
        let rt = spec_insert(s.skip(1), k, v);
        assert forall|i: int| 0 <= i < r.len() implies (#[trigger] r[i]).0 == k || exists|j: int|
            0 <= j < s.len() && (#[trigger] s[j]).0 == r[i].0 by {
            if i == 0 {
                assert(s[0].0 == r[0].0);
            } else {
                assert(r[i] == rt[i - 1]);
                if rt[i - 1].0 != k {
                    let j = choose|j: int|
                        0 <= j < s.skip(1).len() && (#[trigger] s.skip(1)[j]).0 == rt[i - 1].0;
                    assert(s[j + 1].0 == r[i].0);
                }
            }
        }
    } else if s[0].0 == k {
        let r = spec_insert(s, k, v);
        assert forall|i: int| 0 <= i < r.len() implies (#[trigger] r[i]).0 == k || exists|j: int|
            0 <= j < s.len() && (#[trigger] s[j]).0 == r[i].0 by {
            if i > 0 {
                assert(s[i].0 == r[i].0);
            }
        }
    } else {
        let r = spec_insert(s, k, v);
        assert forall|i: int| 0 <= i < r.len() implies (#[trigger] r[i]).0 == k || exists|j: int|
            0 <= j < s.len() && (#[trigger] s[j]).0 == r[i].0 by {
            if i > 0 {
                assert(s[i - 1].0 == r[i].0);
            }
        }
    }
}

/// Inserting into a sorted sequence keeps it sorted.
pub proof fn lemma_insert_sorted(s: Seq<Pair>, k: Seq<char>, v: Seq<char>)
    requires
        sorted_keys(s),
    ensures
        sorted_keys(spec_insert(s, k, v)),
    decreases s.len(),
{
    let r = spec_insert(s, k, v);
    if s.len() == 0 {
    } else if lex_lt(s[0].0, k) {
        lemma_sorted_skip(s);
        lemma_insert_sorted(s.skip(1), k, v);
        lemma_insert_keys(s.skip(1), k, v);
        let rt = spec_insert(s.skip(1), k, v);
        assert forall|i: int, j: int| 0 <= i < j < r.len() implies lex_lt(
            #[trigger] r[i].0,
            #[trigger] r[j].0,
        ) by {
            if i == 0 {
                assert(r[j] == rt[j - 1]);
                if rt[j - 1].0 == k {
                    assert(lex_lt(s[0].0, k));
                } else {
                    let m = choose|m: int|
                        0 <= m < s.skip(1).len() && (#[trigger] s.skip(1)[m]).0 == rt[j - 1].0;
                    assert(lex_lt(s[0].0, s[m + 1].0));
                }
            } else {
                assert(r[i] == rt[i - 1]);
                assert(r[j] == rt[j - 1]);
            }
        }
    } else if s[0].0 == k {
        lemma_sorted_skip(s);
        assert forall|i: int, j: int| 0 <= i < j < r.len() implies lex_lt(
            #[trigger] r[i].0,
            #[trigger] r[j].0,
        ) by {
            if i == 0 {
                assert(r[j] == s.skip(1)[j - 1]);
                assert(lex_lt(s[0].0, s[j].0));
            } else {
                assert(lex_lt(s[i].0, s[j].0));
            }
        }
    } else {
        if !lex_lt(k, s[0].0) {
            lemma_lex_connected(s[0].0, k);
            assert(false);
        }
        assert(lex_lt(k, s[0].0));
        assert forall|i: int, j: int| 0 <= i < j < r.len() implies lex_lt(
            #[trigger] r[i].0,
            #[trigger] r[j].0,
        ) by {
            if i == 0 {
                assert(r[j] == s[j - 1]);
                if j > 1 {
                    assert(lex_lt(s[0].0, s[j - 1].0));
                    lemma_lex_trans(k, s[0].0, s[j - 1].0);
                }
            } else {
                assert(lex_lt(s[i - 1].0, s[j - 1].0));
            }
        }
    }
}

/// Insertion means map update.
pub proof fn lemma_insert_map(s: Seq<Pair>, k: Seq<char>, v: Seq<char>)
    requires
        sorted_keys(s),
    ensures
        pairs_map(spec_insert(s, k, v)) =~= pairs_map(s).insert(k, v),
    decreases s.len(),
{
    if s.len() == 0 {
        assert(seq![(k, v)].skip(1) =~= Seq::<Pair>::empty());
        assert(pairs_map(seq![(k, v)].skip(1)) =~= Map::<Seq<char>, Seq<char>>::empty());
        assert(seq![(k, v)][0] == (k, v));
        assert(pairs_map(seq![(k, v)]) == pairs_map(seq![(k, v)].skip(1)).insert(k, v));
    } else if lex_lt(s[0].0, k) {
        lemma_sorted_skip(s);
        lemma_insert_map(s.skip(1), k, v);
        let rt = spec_insert(s.skip(1), k, v);
        assert((seq![s[0]] + rt).skip(1) =~= rt);
        assert((seq![s[0]] + rt)[0] == s[0]);
        lemma_lex_irrefl(s[0].0);
        assert(s[0].0 != k);
        assert(pairs_map(seq![s[0]] + rt) == pairs_map(rt).insert(s[0].0, s[0].1));
        assert(pairs_map(s) == pairs_map(s.skip(1)).insert(s[0].0, s[0].1));
        assert(pairs_map(rt).insert(s[0].0, s[0].1) =~= pairs_map(s).insert(k, v));
    } else if s[0].0 == k {
        assert((seq![(k, v)] + s.skip(1)).skip(1) =~= s.skip(1));
        assert((seq![(k, v)] + s.skip(1))[0] == (k, v));
        assert(pairs_map(seq![(k, v)] + s.skip(1)) == pairs_map(s.skip(1)).insert(k, v));
        assert(pairs_map(s) == pairs_map(s.skip(1)).insert(s[0].0, s[0].1));
        assert(pairs_map(s.skip(1)).insert(k, v) =~= pairs_map(s).insert(k, v));
    } else {
        assert((seq![(k, v)] + s).skip(1) =~= s);
        assert((seq![(k, v)] + s)[0] == (k, v));
        assert(pairs_map(seq![(k, v)] + s) == pairs_map(s).insert(k, v));
    }
}

/// Every key of a removed sequence is one of the old keys.
pub proof fn lemma_remove_keys(s: Seq<Pair>, k: Seq<char>)
    ensures
        forall|i: int|
            0 <= i < spec_remove(s, k).len() ==> exists|j: int|
                0 <= j < s.len() && (#[trigger] s[j]).0 == (#[trigger] spec_remove(s, k)[i]).0,
    decreases s.len(),
{
    let r = spec_remove(s, k);
    if s.len() == 0 {
    } else if s[0].0 == k {
        assert forall|i: int| 0 <= i < r.len() implies exists|j: int|
            0 <= j < s.len() && (#[trigger] s[j]).0 == (#[trigger] r[i]).0 by {
            assert(s[i + 1].0 == r[i].0);
        }
    } else {
        lemma_remove_keys(s.skip(1), k);
        let rt = spec_remove(s.skip(1), k);
        assert forall|i: int| 0 <= i < r.len() implies exists|j: int|
            0 <= j < s.len() && (#[trigger] s[j]).0 == (#[trigger] r[i]).0 by {
            if i == 0 {
                assert(s[0].0 == r[0].0);
            } else {
                assert(r[i] == rt[i - 1]);
                let j = choose|j: int|
                    0 <= j < s.skip(1).len() && (#[trigger] s.skip(1)[j]).0 == rt[i - 1].0;
                assert(s[j + 1].0 == r[i].0);
            }
        }
    }
}

/// Removing from a sorted sequence keeps it sorted.
pub proof fn lemma_remove_sorted(s: Seq<Pair>, k: Seq<char>)
    requires
        sorted_keys(s),
    ensures
        sorted_keys(spec_remove(s, k)),
    decreases s.len(),
{
    let r = spec_remove(s, k);
    if s.len() == 0 {
    } else if s[0].0 == k {
        lemma_sorted_skip(s);
    } else {
        lemma_sorted_skip(s);
        lemma_remove_sorted(s.skip(1), k);
        lemma_remove_keys(s.skip(1), k);
        let rt = spec_remove(s.skip(1), k);
        assert forall|i: int, j: int| 0 <= i < j < r.len() implies lex_lt(
            #[trigger] r[i].0,
            #[trigger] r[j].0,
        ) by {
            if i == 0 {
                assert(r[j] == rt[j - 1]);
                let m = choose|m: int|
                    0 <= m < s.skip(1).len() && (#[trigger] s.skip(1)[m]).0 == rt[j - 1].0;
                assert(lex_lt(s[0].0, s[m + 1].0));
            } else {
                assert(r[i] == rt[i - 1]);
                assert(r[j] == rt[j - 1]);
            }
        }
    }
}

/// Removal means map removal.
pub proof fn lemma_remove_map(s: Seq<Pair>, k: Seq<char>)
    requires
        sorted_keys(s),
    ensures
        pairs_map(spec_remove(s, k)) =~= pairs_map(s).remove(k),
    decreases s.len(),
{
    if s.len() == 0 {
    } else if s[0].0 == k {
        lemma_sorted_skip(s);
        lemma_map_contains(s.skip(1), k);
        assert forall|j: int| 0 <= j < s.skip(1).len() implies (#[trigger] s.skip(1)[j]).0 != k by {
            assert(lex_lt(s[0].0, s[j + 1].0));
            lemma_lex_irrefl(s[0].0);
        }
        assert(!pairs_map(s.skip(1)).contains_key(k));
        assert(pairs_map(s) == pairs_map(s.skip(1)).insert(s[0].0, s[0].1));
        assert(pairs_map(spec_remove(s, k)) =~= pairs_map(s).remove(k));
    } else {
        lemma_sorted_skip(s);
        lemma_remove_map(s.skip(1), k);
        let rt = spec_remove(s.skip(1), k);
        assert((seq![s[0]] + rt).skip(1) =~= rt);
        assert((seq![s[0]] + rt)[0] == s[0]);
        assert(pairs_map(seq![s[0]] + rt) == pairs_map(rt).insert(s[0].0, s[0].1));
        assert(pairs_map(s) == pairs_map(s.skip(1)).insert(s[0].0, s[0].1));
        assert(pairs_map(rt).insert(s[0].0, s[0].1) =~= pairs_map(s).remove(k));
    }
}

/// Two sorted sequences denoting the same map are the same sequence.
pub proof fn lemma_sorted_canonical(a: Seq<Pair>, b: Seq<Pair>)
    requires
        sorted_keys(a),
        sorted_keys(b),
        pairs_map(a) =~= pairs_map(b),
    ensures
        a =~= b,
    decreases a.len(),
{
    if a.len() > 0 {
        lemma_map_contains(b, a.last().0);
    }
    if b.len() > 0 {
        lemma_map_contains(a, b.last().0);
    }
    if a.len() == 0 && b.len() == 0 {
    } else if a.len() == 0 {
        lemma_map_unsnoc(b);
        assert(pairs_map(b).contains_key(b.last().0));
        assert(false);
    } else if b.len() == 0 {
        lemma_map_unsnoc(a);
        assert(pairs_map(a).contains_key(a.last().0));
        assert(false);
    } else {
        lemma_map_unsnoc(a);
        lemma_map_unsnoc(b);
        // The two last keys are mutual upper bounds, hence equal.
        assert(pairs_map(b).contains_key(a.last().0));
        let ib = choose|i: int| 0 <= i < b.len() && (#[trigger] b[i]).0 == a.last().0;
        assert(pairs_map(a).contains_key(b.last().0));
        let ia = choose|i: int| 0 <= i < a.len() && (#[trigger] a[i]).0 == b.last().0;
        if a.last().0 != b.last().0 {
            assert(ib < b.len() - 1);
            assert(lex_lt(b[ib].0, b.last().0));
            assert(ia < a.len() - 1);
            assert(lex_lt(a[ia].0, a.last().0));
            lemma_lex_trans(a.last().0, b.last().0, a.last().0);
            lemma_lex_irrefl(a.last().0);
            assert(false);
        }
        lemma_map_value(a, a.len() - 1);
        lemma_map_value(b, b.len() - 1);
        assert(a.last().1 == b.last().1);
        assert(pairs_map(a.drop_last()) =~= pairs_map(a).remove(a.last().0));
        assert(pairs_map(b.drop_last()) =~= pairs_map(b).remove(b.last().0));
        lemma_sorted_canonical(a.drop_last(), b.drop_last());
        assert(a =~= a.drop_last().push(a.last()));
        assert(b =~= b.drop_last().push(b.last()));
    }
}

/// An ordered snapshot of the store: entries strictly sorted by key.
pub struct State {
    entries: Vec<Entry>,
}

impl View for State {
    type V = Seq<Pair>;

    closed spec fn view(&self) -> Seq<Pair> {
        self.entries@.map_values(|e: Entry| e@)
    }
}

impl State {
    /// The snapshot is well formed: its keys are strictly sorted.
    pub open spec fn wf(&self) -> bool {
        sorted_keys(self@)
    }

    /// The finite map this snapshot denotes.
    pub open spec fn as_map(&self) -> Map<Seq<char>, Seq<char>> {
        pairs_map(self@)
    }

    /// The empty snapshot.
    pub fn new() -> (r: State)
        ensures
            r@ =~= Seq::<Pair>::empty(),
            r.wf(),
    {
        State { entries: Vec::new() }
    }

    /// How many entries the snapshot holds.
    pub fn len(&self) -> (r: usize)
        ensures
            r == self@.len(),
    {
        self.entries.len()
    }

    /// Whether the snapshot holds no entry.
    pub fn is_empty(&self) -> (r: bool)
        ensures
            r == (self@.len() == 0),
    {
        self.entries.len() == 0
    }

    /// The entry at position `i`, in key order.
    pub fn entry_at(&self, i: usize) -> (r: &Entry)
        requires
            i < self@.len(),
        ensures
            r@ == self@[i as int],
    {
        &self.entries[i]
    }

    /// Looks a key up, as in the denoted map.
    pub fn get<'a>(&'a self, key: &String) -> (r: Option<&'a String>)
        requires
            self.wf(),
        ensures
            match r {
                Some(v) => self.as_map().contains_key(key@) && self.as_map()[key@] == v@,
                None => !self.as_map().contains_key(key@),
            },
    {
        proof {
            lemma_map_contains(self@, key@);
            assert forall|j: int| 0 <= j < self@.len() && (#[trigger] self@[j]).0
                == key@ implies self.as_map()[key@] == self@[j].1 by {
                lemma_map_value(self@, j);
            }
        }
        let n = self.entries.len();
        let mut i: usize = 0;
        while i < n
            invariant
                n == self@.len(),
                i <= n,
                forall|j: int| 0 <= j < i ==> (#[trigger] self@[j]).0 != key@,
                self.as_map().contains_key(key@) <==> exists|j: int|
                    0 <= j < n && (#[trigger] self@[j]).0 == key@,
                forall|j: int|
                    0 <= j < n && (#[trigger] self@[j]).0 == key@ ==> self.as_map()[key@]
                        == self@[j].1,
            decreases n - i,
        {
            if self.entries[i].key == *key {
                proof {
                    assert(self@[i as int].0 == key@);
                    assert(self@[i as int].1 == self.entries@[i as int].value@);
                }
                return Some(&self.entries[i].value);
            }
            i = i + 1;
        }
        None
    }

    /// A copy of this snapshot with the same entries.
    pub fn duplicate(&self) -> (r: State)
        ensures
            r@ =~= self@,
    {
        let n = self.entries.len();
        let mut out: Vec<Entry> = Vec::new();
        let mut i: usize = 0;
        while i < n
            invariant
                n == self.entries@.len(),
                i <= n,
                out@ =~= self.entries@.take(i as int),
            decreases n - i,
        {
            let e = Entry { key: self.entries[i].key.clone(), value: self.entries[i].value.clone() };
            assert(e == self.entries@[i as int]);
            out.push(e);
            proof {
                assert(out@ =~= self.entries@.take(i + 1));
            }
            i = i + 1;
        }
        assert(self.entries@.take(n as int) =~= self.entries@);
        let r = State { entries: out };
        assert(r@ =~= self@);
        r
    }

    /// Inserts a pair, keeping the entries sorted; a pair with the same key
    /// is overwritten.
    pub fn insert(&mut self, key: String, value: String)
        requires
            old(self).wf(),
        ensures
            final(self).wf(),
            final(self)@ == spec_insert(old(self)@, key@, value@),
            final(self).as_map() =~= old(self).as_map().insert(key@, value@),
    {
        proof {
            lemma_insert_sorted(old(self)@, key@, value@);
            lemma_insert_map(old(self)@, key@, value@);
        }
        let ghost s = self@;
        let n = self.entries.len();
        let mut i: usize = 0;
        while i < n && str_lt(self.entries[i].key.as_str(), key.as_str())
            invariant
                self == old(self),
                s == self@,
                n == self@.len(),
                i <= n,
                forall|j: int| 0 <= j < i ==> lex_lt((#[trigger] s[j]).0, key@),
            decreases n - i,
        {
            i = i + 1;
        }
        proof {
            lemma_insert_prefix(s, key@, value@, i as int);
        }
        if i < n && self.entries[i].key == key {
            self.entries.remove(i);
            self.entries.insert(i, Entry { key, value });
            proof {
                assert(s.skip(i as int).len() > 0);
                assert(s.skip(i as int)[0] == s[i as int]);
                lemma_lex_irrefl(s[i as int].0);
                assert(spec_insert(s.skip(i as int), key@, value@) =~= seq![(key@, value@)]
                    + s.skip(i as int).skip(1));
                assert(s.skip(i as int).skip(1) =~= s.skip(i + 1));
                assert(self@ =~= s.take(i as int) + seq![(key@, value@)] + s.skip(i + 1));
                assert(self@ =~= spec_insert(s, key@, value@));
            }
        } else {
            self.entries.insert(i, Entry { key, value });
            proof {
                if i < n {
                    assert(s.skip(i as int)[0] == s[i as int]);
                    assert(!lex_lt(s[i as int].0, key@));
                    assert(s[i as int].0 != key@);
                    assert(spec_insert(s.skip(i as int), key@, value@) =~= seq![(key@, value@)]
                        + s.skip(i as int));
                } else {
                    assert(s.skip(i as int).len() == 0);
                    assert(spec_insert(s.skip(i as int), key@, value@) =~= seq![(key@, value@)]);
                    assert(s.skip(i as int) =~= Seq::<Pair>::empty());
                }
                assert(self@ =~= s.take(i as int) + seq![(key@, value@)] + s.skip(i as int));
                assert(self@ =~= spec_insert(s, key@, value@));
            }
        }
    }

    /// Removes the entry with this key, if there is one.
    pub fn remove(&mut self, key: &String)
        requires
            old(self).wf(),
        ensures
            final(self).wf(),
            final(self)@ == spec_remove(old(self)@, key@),
            final(self).as_map() =~= old(self).as_map().remove(key@),
    {
        let ghost s = self@;
        let n = self.entries.len();
        let mut i: usize = 0;
        while i < n
            invariant
                self == old(self),
                s == self@,
                sorted_keys(s),
                n == self@.len(),
                i <= n,
                forall|j: int| 0 <= j < i ==> (#[trigger] s[j]).0 != key@,
            decreases n - i,
        {
            if self.entries[i].key == *key {
                proof {
                    assert(self@[i as int].0 == key@);
                }
                self.entries.remove(i);
                proof {
                    assert(s[i as int].0 == key@);
                    lemma_remove_prefix(s, key@, i as int);
                    assert(s.skip(i as int).len() > 0);
                    assert(s.skip(i as int)[0] == s[i as int]);
                    assert(spec_remove(s.skip(i as int), key@) =~= s.skip(i as int).skip(1));
                    assert(s.skip(i as int).skip(1) =~= s.skip(i + 1));
                    assert(self@ =~= s.take(i as int) + s.skip(i + 1));
                    assert(self@ =~= spec_remove(s, key@));
                    lemma_remove_sorted(s, key@);
                    lemma_remove_map(s, key@);
                    assert(sorted_keys(self@));
                    assert(pairs_map(self@) =~= pairs_map(old(self)@).remove(key@));
                }
                return ;
            }
            i = i + 1;
        }
        proof {
            lemma_remove_prefix(s, key@, n as int);
            assert(s.skip(n as int).len() == 0);
            assert(s.take(n as int) =~= s);
            assert(spec_remove(s, key@) =~= s);
            lemma_remove_sorted(s, key@);
            lemma_remove_map(s, key@);
        }
    }
}

/// Unfolds an insertion past a prefix of keys below the new one.
proof fn lemma_insert_prefix(s: Seq<Pair>, k: Seq<char>, v: Seq<char>, i: int)
    requires
        0 <= i <= s.len(),
        forall|j: int| 0 <= j < i ==> lex_lt((#[trigger] s[j]).0, k),
    ensures
        spec_insert(s, k, v) =~= s.take(i) + spec_insert(s.skip(i), k, v),
    decreases i,
{
    if i == 0 {
        assert(s.skip(0) =~= s);
        assert(s.take(0) =~= Seq::<Pair>::empty());
    } else {
        assert(lex_lt(s[0].0, k));
        lemma_insert_prefix(s.skip(1), k, v, i - 1);
        assert(s.skip(1).take(i - 1) =~= s.take(i).skip(1));
        assert(s.skip(1).skip(i - 1) =~= s.skip(i));
        assert(spec_insert(s, k, v) == seq![s[0]] + spec_insert(s.skip(1), k, v));
        assert(spec_insert(s, k, v) =~= s.take(i) + spec_insert(s.skip(i), k, v));
    }
}

/// Unfolds a removal past a prefix of keys other than the removed one.
proof fn lemma_remove_prefix(s: Seq<Pair>, k: Seq<char>, i: int)
    requires
        0 <= i <= s.len(),
        forall|j: int| 0 <= j < i ==> (#[trigger] s[j]).0 != k,
    ensures
        spec_remove(s, k) =~= s.take(i) + spec_remove(s.skip(i), k),
    decreases i,
{
    if i == 0 {
        assert(s.skip(0) =~= s);
        assert(s.take(0) =~= Seq::<Pair>::empty());
    } else {
        lemma_remove_prefix(s.skip(1), k, i - 1);
        assert(s.skip(1).take(i - 1) =~= s.take(i).skip(1));
        assert(s.skip(1).skip(i - 1) =~= s.skip(i));
        assert(spec_remove(s, k) == seq![s[0]] + spec_remove(s.skip(1), k));
        assert(spec_remove(s, k) =~= s.take(i) + spec_remove(s.skip(i), k));
    }
}

} // verus!
