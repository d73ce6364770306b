use vstd::prelude::*;

use crate::codec::{
    append_entry, entries_result, field_tok_at, header, parse_entry_list, parse_file,
    parse_more_entries, parse_pair_exec, render_entry, render_file, render_more, skip_ws_exec,
};
use crate::errors::Error;
use crate::strutil::{
    lemma_lex_connex, lemma_lex_irrefl, lemma_lex_trans, lex_lt, str_eq, str_lt,
};

verus! {

/// A key/value pair of the registry, at the model level: the key's and the
/// URL's characters.
pub type Kv = (Seq<char>, Seq<char>);

/// The keys are strictly increasing, so each key occurs once.
pub open spec fn sorted_kvs(kvs: Seq<Kv>) -> bool {
    forall|i: int, j: int|
        #![trigger kvs[i], kvs[j]]
        0 <= i < j < kvs.len() ==> lex_lt(kvs[i].0, kvs[j].0)
}

/// Some pair of `kvs` has key `k`.
pub open spec fn has_key(kvs: Seq<Kv>, k: Seq<char>) -> bool {
    exists|i: int| 0 <= i < kvs.len() && (#[trigger] kvs[i]).0 == k
}

/// The mapping a pair sequence denotes; on duplicate keys the later pair
/// wins.
pub open spec fn map_of(kvs: Seq<Kv>) -> Map<Seq<char>, Seq<char>>
    decreases kvs.len(),
{
    if kvs.len() == 0 {
        Map::empty()
    } else {
        map_of(kvs.drop_last()).insert(kvs.last().0, kvs.last().1)
    }
}

/// Insertion of `(k, v)` into a key-sorted pair sequence: replaces the pair
/// with key `k` if one exists, else splices the new pair in at its ordered
/// position.
pub open spec fn upsert_kvs(kvs: Seq<Kv>, k: Seq<char>, v: Seq<char>) -> Seq<Kv>
    decreases kvs.len(),
{
    if kvs.len() == 0 {
        seq![(k, v)]
    } else if lex_lt(k, kvs[0].0) {
        seq![(k, v)] + kvs
    } else if k == kvs[0].0 {
        seq![(k, v)] + kvs.skip(1)
    } else {
        seq![kvs[0]] + upsert_kvs(kvs.skip(1), k, v)
    }
}

/// The registry obtained by upserting a pair list into an empty registry, in
/// order.
pub open spec fn build_kvs(pairs: Seq<Kv>) -> Seq<Kv>
    decreases pairs.len(),
{
    if pairs.len() == 0 {
        Seq::empty()
    } else {
        upsert_kvs(build_kvs(pairs.drop_last()), pairs.last().0, pairs.last().1)
    }
}

pub proof fn lemma_lex_ne(a: Seq<char>, b: Seq<char>)
    requires
        lex_lt(a, b),
    ensures
        a != b,
{
    if a == b {
        lemma_lex_irrefl(a);
    }
}

pub proof fn lemma_lex_asym(a: Seq<char>, b: Seq<char>)
    requires
        lex_lt(a, b),
    ensures
        !lex_lt(b, a),
{
    if lex_lt(b, a) {
        lemma_lex_trans(a, b, a);
        lemma_lex_irrefl(a);
    }
}

/// The domain of `map_of` is exactly the key set of the pair sequence.
pub proof fn lemma_map_of_keys(kvs: Seq<Kv>)
    ensures
        forall|x: Seq<char>| #[trigger] map_of(kvs).contains_key(x) <==> has_key(kvs, x),
    decreases kvs.len(),
{
    if kvs.len() == 0 {
        assert(map_of(kvs) =~= Map::<Seq<char>, Seq<char>>::empty());
    } else {
        let front = kvs.drop_last();
        lemma_map_of_keys(front);
        assert forall|x: Seq<char>| #[trigger] map_of(kvs).contains_key(x) implies has_key(
            kvs,
            x,
        ) by {
            if x == kvs.last().0 {
                assert((kvs[kvs.len() - 1]).0 == x);
            } else {
                assert(map_of(front).contains_key(x));
                assert(has_key(front, x));
                let i = choose|i: int| 0 <= i < front.len() && (#[trigger] front[i]).0 == x;
                assert(front[i] == kvs[i]);
                assert((kvs[i]).0 == x);
            }
        }
        assert forall|x: Seq<char>| has_key(kvs, x) implies #[trigger] map_of(kvs).contains_key(
            x,
        ) by {
            let i = choose|i: int| 0 <= i < kvs.len() && (#[trigger] kvs[i]).0 == x;
            if i < kvs.len() - 1 {
                assert((front[i]).0 == x);
                assert(has_key(front, x));
            }
        }
    }
}

/// In a key-sorted sequence every pair's key looks its value up.
pub proof fn lemma_map_of_values(kvs: Seq<Kv>)
    requires
        sorted_kvs(kvs),
    ensures
        forall|i: int|
            0 <= i < kvs.len() ==> map_of(kvs)[(#[trigger] kvs[i]).0] == kvs[i].1,
    decreases kvs.len(),
{
    if kvs.len() > 0 {
        let front = kvs.drop_last();
        let l = kvs.last();
        assert(sorted_kvs(front)) by {
            assert(forall|i: int, j: int|
                #![trigger front[i], front[j]]
                0 <= i < j < front.len() ==> front[i] == kvs[i] && front[j] == kvs[j]);
        }
        lemma_map_of_values(front);
        assert forall|i: int|
            0 <= i < kvs.len() implies map_of(kvs)[(#[trigger] kvs[i]).0] == kvs[i].1 by {
            if i < kvs.len() - 1 {
                assert(lex_lt(kvs[i].0, l.0));
                lemma_lex_ne(kvs[i].0, l.0);
                assert(front[i] == kvs[i]);
                assert(map_of(front)[front[i].0] == front[i].1);
            }
        }
    }
}

/// Prepending a pair whose key occurs nowhere in `rest` inserts it into the
/// denoted mapping.
pub proof fn lemma_cons_map(x: Kv, rest: Seq<Kv>)
    requires
        forall|i: int| 0 <= i < rest.len() ==> (#[trigger] rest[i]).0 != x.0,
    ensures
        map_of(seq![x] + rest) == map_of(rest).insert(x.0, x.1),
    decreases rest.len(),
{
    if rest.len() == 0 {
        let single = seq![x] + rest;
        assert(single.len() == 1);
        assert(single.last() == x);
        assert(single.drop_last() =~= rest);
        assert(map_of(single) == map_of(single.drop_last()).insert(single.last().0,
            single.last().1));
        assert(map_of(rest) == Map::<Seq<char>, Seq<char>>::empty());
    } else {
        let f = rest.drop_last();
        let l = rest.last();
        assert((seq![x] + rest).drop_last() =~= seq![x] + f);
        assert((seq![x] + rest).last() == l);
        assert(forall|i: int| 0 <= i < f.len() ==> (#[trigger] f[i]).0 != x.0) by {
            assert(forall|i: int| 0 <= i < f.len() ==> f[i] == (#[trigger] rest[i]));
        }
        lemma_cons_map(x, f);
        assert(rest[rest.len() - 1] == l);
        assert(l.0 != x.0);
        assert(map_of(f).insert(x.0, x.1).insert(l.0, l.1) =~= map_of(f).insert(l.0, l.1).insert(
            x.0,
            x.1,
        ));
    }
}

/// What upserting does to a key-sorted sequence: order is kept, the denoted
/// mapping gains `(k, v)`, and every pair of the result is the new pair or a
/// kept pair with a different key.
pub proof fn lemma_upsert_props(kvs: Seq<Kv>, k: Seq<char>, v: Seq<char>)
    requires
        sorted_kvs(kvs),
    ensures
        sorted_kvs(upsert_kvs(kvs, k, v)),
        map_of(upsert_kvs(kvs, k, v)) == map_of(kvs).insert(k, v),
        forall|x: Kv|
            #[trigger] upsert_kvs(kvs, k, v).contains(x) ==> x == (k, v) || (kvs.contains(x)
                && x.0 != k),
    decreases kvs.len(),
{
    let up = upsert_kvs(kvs, k, v);
    if kvs.len() == 0 {
        assert(up == seq![(k, v)]);
        assert(up.len() == 1);
        assert(up.last() == (k, v));
        assert(up.drop_last() =~= kvs);
        assert(map_of(up) == map_of(up.drop_last()).insert(up.last().0, up.last().1));
        assert(map_of(up) == map_of(kvs).insert(k, v));
        assert forall|x: Kv| #[trigger] up.contains(x) implies x == (k, v) || (kvs.contains(x)
            && x.0 != k) by {
            let i = choose|i: int| 0 <= i < up.len() && up[i] == x;
            assert(up[0] == (k, v));
        }
    } else if lex_lt(k, kvs[0].0) {
        assert(up == seq![(k, v)] + kvs);
        assert forall|i: int, j: int|
            #![trigger up[i], up[j]]
            0 <= i < j < up.len() implies lex_lt(up[i].0, up[j].0) by {
            if i == 0 {
                assert(up[j] == kvs[j - 1]);
                if j > 1 {
                    lemma_lex_trans(k, kvs[0].0, kvs[j - 1].0);
                }
            } else {
                assert(up[i] == kvs[i - 1] && up[j] == kvs[j - 1]);
            }
        }
        assert(forall|i: int| 0 <= i < kvs.len() ==> (#[trigger] kvs[i]).0 != k) by {
            assert forall|i: int| 0 <= i < kvs.len() implies (#[trigger] kvs[i]).0 != k by {
                if i > 0 {
                    lemma_lex_trans(k, kvs[0].0, kvs[i].0);
                }
                lemma_lex_ne(k, kvs[i].0);
            }
        }
        lemma_cons_map((k, v), kvs);
        assert forall|x: Kv| #[trigger] up.contains(x) implies x == (k, v) || (kvs.contains(x)
            && x.0 != k) by {
            let i = choose|i: int| 0 <= i < up.len() && up[i] == x;
            if i > 0 {
                assert(x == kvs[i - 1]);
                assert(kvs.contains(x));
            }
        }
    } else if k == kvs[0].0 {
        let tail = kvs.skip(1);
        assert(up == seq![(k, v)] + tail);
        assert(forall|i: int| 0 <= i < tail.len() ==> tail[i] == (#[trigger] kvs[i + 1]));
        assert forall|i: int, j: int|
            #![trigger up[i], up[j]]
            0 <= i < j < up.len() implies lex_lt(up[i].0, up[j].0) by {
            if i == 0 {
                assert(up[j] == kvs[j]);
            } else {
                assert(up[i] == kvs[i] && up[j] == kvs[j]);
            }
        }
        assert(forall|i: int| 0 <= i < tail.len() ==> (#[trigger] tail[i]).0 != k) by {
            assert forall|i: int| 0 <= i < tail.len() implies (#[trigger] tail[i]).0 != k by {
                assert(tail[i] == kvs[i + 1]);
                lemma_lex_ne(kvs[0].0, kvs[i + 1].0);
            }
        }
        lemma_cons_map((k, v), tail);
        assert(kvs =~= seq![kvs[0]] + tail);
        lemma_cons_map(kvs[0], tail);
        assert(map_of(tail).insert(kvs[0].0, kvs[0].1).insert(k, v) =~= map_of(tail).insert(
            k,
            v,
        ));
        assert forall|x: Kv| #[trigger] up.contains(x) implies x == (k, v) || (kvs.contains(x)
            && x.0 != k) by {
            let i = choose|i: int| 0 <= i < up.len() && up[i] == x;
            if i > 0 {
                assert(x == kvs[i]);
                assert(kvs.contains(x));
                lemma_lex_ne(kvs[0].0, kvs[i].0);
            }
        }
    } else {
        assert(lex_lt(kvs[0].0, k)) by {
            if !lex_lt(kvs[0].0, k) {
                lemma_lex_connex(k, kvs[0].0);
            }
        }
        let tail = kvs.skip(1);
        assert(forall|i: int| 0 <= i < tail.len() ==> tail[i] == (#[trigger] kvs[i + 1]));
        assert(sorted_kvs(tail));
        lemma_upsert_props(tail, k, v);
        let ut = upsert_kvs(tail, k, v);
        assert(up == seq![kvs[0]] + ut);
        assert forall|i: int, j: int|
            #![trigger up[i], up[j]]
            0 <= i < j < up.len() implies lex_lt(up[i].0, up[j].0) by {
            if i == 0 {
                assert(up[j] == ut[j - 1]);
                assert(ut.contains(ut[j - 1]));
                let x = ut[j - 1];
                if x == (k, v) {
                    assert(lex_lt(kvs[0].0, k));
                } else {
                    assert(tail.contains(x));
                    let m = choose|m: int| 0 <= m < tail.len() && tail[m] == x;
                    assert(x == kvs[m + 1]);
                }
            } else {
                assert(up[i] == ut[i - 1] && up[j] == ut[j - 1]);
            }
        }
        assert(forall|i: int| 0 <= i < ut.len() ==> (#[trigger] ut[i]).0 != kvs[0].0) by {
            assert forall|i: int| 0 <= i < ut.len() implies (#[trigger] ut[i]).0 != kvs[0].0 by {
                assert(ut.contains(ut[i]));
                let x = ut[i];
                if x == (k, v) {
                    lemma_lex_ne(kvs[0].0, k);
                } else {
                    assert(tail.contains(x));
                    let m = choose|m: int| 0 <= m < tail.len() && tail[m] == x;
                    assert(x == kvs[m + 1]);
                    lemma_lex_ne(kvs[0].0, kvs[m + 1].0);
                }
            }
        }
        lemma_cons_map(kvs[0], ut);
        assert(kvs =~= seq![kvs[0]] + tail);
        assert(forall|i: int| 0 <= i < tail.len() ==> (#[trigger] tail[i]).0 != kvs[0].0) by {
            assert forall|i: int| 0 <= i < tail.len() implies (#[trigger] tail[i]).0 != kvs[0].0
                by {
                assert(tail[i] == kvs[i + 1]);
                lemma_lex_ne(kvs[0].0, kvs[i + 1].0);
            }
        }
        lemma_cons_map(kvs[0], tail);
        lemma_lex_ne(kvs[0].0, k);
        assert(map_of(tail).insert(k, v).insert(kvs[0].0, kvs[0].1) =~= map_of(tail).insert(
            kvs[0].0,
            kvs[0].1,
        ).insert(k, v));
        assert forall|x: Kv| #[trigger] up.contains(x) implies x == (k, v) || (kvs.contains(x)
            && x.0 != k) by {
            let i = choose|i: int| 0 <= i < up.len() && up[i] == x;
            if i == 0 {
                assert(x == kvs[0]);
                assert(kvs.contains(x));
            } else {
                assert(x == ut[i - 1]);
                assert(ut.contains(x));
                if x != (k, v) {
                    assert(tail.contains(x));
                    let m = choose|m: int| 0 <= m < tail.len() && tail[m] == x;
                    assert(x == kvs[m + 1]);
                    assert(kvs.contains(x));
                }
            }
        }
    }
}

/// Where the scan for the first key not below `k` stops determines the exact
/// shape of the upsert: a replacement at that slot, or a splice before it.
pub proof fn lemma_upsert_at(kvs: Seq<Kv>, k: Seq<char>, v: Seq<char>, idx: int)
    requires
        sorted_kvs(kvs),
        0 <= idx <= kvs.len(),
        forall|i: int| 0 <= i < idx ==> lex_lt((#[trigger] kvs[i]).0, k),
        idx < kvs.len() ==> !lex_lt(kvs[idx].0, k),
    ensures
        idx < kvs.len() && kvs[idx].0 == k ==> upsert_kvs(kvs, k, v) == kvs.subrange(0, idx)
            + seq![(k, v)] + kvs.skip(idx + 1),
        !(idx < kvs.len() && kvs[idx].0 == k) ==> upsert_kvs(kvs, k, v) == kvs.subrange(0, idx)
            + seq![(k, v)] + kvs.skip(idx),
        has_key(kvs, k) == (idx < kvs.len() && kvs[idx].0 == k),
    decreases idx,
{
    if idx == 0 {
        if kvs.len() == 0 {
            assert(upsert_kvs(kvs, k, v) =~= kvs.subrange(0, 0) + seq![(k, v)] + kvs.skip(0));
            assert(!has_key(kvs, k));
        } else if kvs[0].0 == k {
            assert(upsert_kvs(kvs, k, v) == seq![(k, v)] + kvs.skip(1));
            assert(upsert_kvs(kvs, k, v) =~= kvs.subrange(0, 0) + seq![(k, v)] + kvs.skip(1));
            assert(has_key(kvs, k));
        } else {
            assert(lex_lt(k, kvs[0].0)) by {
                if !lex_lt(k, kvs[0].0) {
                    lemma_lex_connex(k, kvs[0].0);
                }
            }
            assert(upsert_kvs(kvs, k, v) == seq![(k, v)] + kvs);
            assert(upsert_kvs(kvs, k, v) =~= kvs.subrange(0, 0) + seq![(k, v)] + kvs.skip(0));
            assert(!has_key(kvs, k)) by {
                if has_key(kvs, k) {
                    let i = choose|i: int| 0 <= i < kvs.len() && (#[trigger] kvs[i]).0 == k;
                    if i > 0 {
                        lemma_lex_trans(k, kvs[0].0, kvs[i].0);
                    }
                    lemma_lex_ne(k, kvs[i].0);
                }
            }
        }
    } else {
        let tail = kvs.skip(1);
        assert(forall|i: int| 0 <= i < tail.len() ==> tail[i] == (#[trigger] kvs[i + 1]));
        assert(sorted_kvs(tail));
        assert(lex_lt(kvs[0].0, k));
        lemma_lex_asym(kvs[0].0, k);
        lemma_lex_ne(kvs[0].0, k);
        assert(upsert_kvs(kvs, k, v) == seq![kvs[0]] + upsert_kvs(tail, k, v));
        lemma_upsert_at(tail, k, v, idx - 1);
        if idx < kvs.len() && kvs[idx].0 == k {
            assert(tail[idx - 1].0 == k);
            assert(seq![kvs[0]] + (tail.subrange(0, idx - 1) + seq![(k, v)] + tail.skip(idx))
                =~= kvs.subrange(0, idx) + seq![(k, v)] + kvs.skip(idx + 1));
            assert(has_key(kvs, k));
        } else {
            assert(!(idx - 1 < tail.len() && tail[idx - 1].0 == k));
            assert(seq![kvs[0]] + (tail.subrange(0, idx - 1) + seq![(k, v)] + tail.skip(idx - 1))
                =~= kvs.subrange(0, idx) + seq![(k, v)] + kvs.skip(idx));
            assert(!has_key(kvs, k)) by {
                if has_key(kvs, k) {
                    let i = choose|i: int| 0 <= i < kvs.len() && (#[trigger] kvs[i]).0 == k;
                    if i == 0 {
                        assert(kvs[0].0 == k);
                    } else {
                        assert(tail[i - 1].0 == k);
                        assert(has_key(tail, k));
                    }
                }
            }
        }
    }
}

/// Upserting a key above every key of a sorted sequence appends the pair.
pub proof fn lemma_upsert_append(kvs: Seq<Kv>, k: Seq<char>, v: Seq<char>)
    requires
        sorted_kvs(kvs),
        forall|i: int| 0 <= i < kvs.len() ==> lex_lt((#[trigger] kvs[i]).0, k),
    ensures
        upsert_kvs(kvs, k, v) == kvs + seq![(k, v)],
    decreases kvs.len(),
{
    if kvs.len() == 0 {
        assert(upsert_kvs(kvs, k, v) =~= kvs + seq![(k, v)]);
    } else {
        lemma_lex_asym(kvs[0].0, k);
        lemma_lex_ne(kvs[0].0, k);
        let tail = kvs.skip(1);
        assert(forall|i: int| 0 <= i < tail.len() ==> tail[i] == (#[trigger] kvs[i + 1]));
        assert(sorted_kvs(tail));
        lemma_upsert_append(tail, k, v);
        assert(seq![kvs[0]] + (tail + seq![(k, v)]) =~= kvs + seq![(k, v)]);
    }
}

/// Upserting the pairs of a sorted sequence into an empty registry, in
/// order, rebuilds that sequence exactly.
pub proof fn lemma_build_sorted_id(pairs: Seq<Kv>)
    requires
        sorted_kvs(pairs),
    ensures
        build_kvs(pairs) == pairs,
    decreases pairs.len(),
{
    if pairs.len() > 0 {
        let f = pairs.drop_last();
        let l = pairs.last();
        assert(forall|i: int| 0 <= i < f.len() ==> f[i] == (#[trigger] pairs[i]));
        assert(sorted_kvs(f));
        lemma_build_sorted_id(f);
        assert(pairs[pairs.len() - 1] == l);
        assert(forall|i: int| 0 <= i < f.len() ==> lex_lt((#[trigger] f[i]).0, l.0));
        lemma_upsert_append(f, l.0, l.1);
        assert(f + seq![l] =~= pairs);
    }
}

/// Building a registry from a pair list keeps it sorted and denotes the same
/// mapping as the list itself (later pairs winning).
pub proof fn lemma_build_props(pairs: Seq<Kv>)
    ensures
        sorted_kvs(build_kvs(pairs)),
        map_of(build_kvs(pairs)) == map_of(pairs),
    decreases pairs.len(),
{
    if pairs.len() == 0 {
        assert(build_kvs(pairs) == Seq::<Kv>::empty());
    } else {
        let f = pairs.drop_last();
        let l = pairs.last();
        lemma_build_props(f);
        lemma_upsert_props(build_kvs(f), l.0, l.1);
    }
}

/// One shortcut: a key and the URL it abbreviates.
#[derive(Debug)]
pub struct Entry {
    pub key: String,
    pub url: String,
}

/// The shortcut registry: a mapping from short keys to URLs, held as a
/// key-sorted list of entries.
#[derive(Debug)]
pub struct UrlsMap {
    entries: Vec<Entry>,
}

impl UrlsMap {
    /// The registry's pairs, in storage order.
    pub closed spec fn kvs(&self) -> Seq<Kv> {
        self.entries@.map(|i: int, e: Entry| (e.key@, e.url@))
    }

    /// Entries are strictly sorted by key.
    pub open spec fn wf(&self) -> bool {
        sorted_kvs(self.kvs())
    }

    /// The mapping the registry denotes.
    pub open spec fn as_map(&self) -> Map<Seq<char>, Seq<char>> {
        map_of(self.kvs())
    }

    /// An empty registry.
    pub fn new() -> (r: UrlsMap)
        ensures
            r.wf(),
            r.kvs() == Seq::<Kv>::empty(),
            r.as_map() == Map::<Seq<char>, Seq<char>>::empty(),
    {
        let r = UrlsMap { entries: Vec::new() };
        proof {
            assert(r.kvs() =~= Seq::<Kv>::empty());
            assert(r.as_map() =~= Map::<Seq<char>, Seq<char>>::empty());
        }
        r
    }

    /// How many shortcuts the registry holds.
    pub fn len(&self) -> (n: usize)
        ensures
            n == self.kvs().len(),
    {
        self.entries.len()
    }

    /// Exact-match lookup; no normalization of the key.
    pub fn get(&self, key: &str) -> (r: Option<&String>)
        requires
            self.wf(),
        ensures
            match r {
                Some(u) => self.as_map().contains_key(key@) && u@ == self.as_map()[key@],
                None => !self.as_map().contains_key(key@),
            },
    {
        let n = self.entries.len();
        let mut i: usize = 0;
        while i < n
            invariant
                self.wf(),
                n == self.kvs().len(),
                n == self.entries@.len(),
                0 <= i <= n,
                forall|j: int| 0 <= j < i ==> (#[trigger] self.kvs()[j]).0 != key@,
            decreases n - i,
        {
            if str_eq(self.entries[i].key.as_str(), key) {
                proof {
                    lemma_map_of_keys(self.kvs());
                    lemma_map_of_values(self.kvs());
                }
                assert(self.kvs()[i as int] == (self.entries@[i as int].key@,
                    self.entries@[i as int].url@));
                assert(self.kvs()[i as int].0 == key@);
                assert(has_key(self.kvs(), key@));
                assert(self.as_map()[key@] == self.kvs()[i as int].1);
                return Some(&self.entries[i].url);
            }
            i += 1;
        }
        proof {
            lemma_map_of_keys(self.kvs());
        }
        assert(!has_key(self.kvs(), key@));
        None
    }

    /// The slot where `key` belongs: the first index whose key is not below
    /// `key`.
    fn find_slot(&self, key: &str) -> (idx: usize)
        requires
            self.wf(),
        ensures
            0 <= idx <= self.kvs().len(),
            forall|i: int| 0 <= i < idx ==> lex_lt((#[trigger] self.kvs()[i]).0, key@),
            idx < self.kvs().len() ==> !lex_lt(self.kvs()[idx as int].0, key@),
    {
        let n = self.entries.len();
        let mut idx: usize = 0;
        loop
            invariant
                n == self.kvs().len(),
                n == self.entries@.len(),
                0 <= idx <= n,
                self.wf(),
                forall|i: int| 0 <= i < idx ==> lex_lt((#[trigger] self.kvs()[i]).0, key@),
            decreases n - idx,
        {
            if idx >= n {
                return idx;
            }
            if !str_lt(self.entries[idx].key.as_str(), key) {
                assert(!lex_lt(self.kvs()[idx as int].0, key@));
                return idx;
            }
            assert(lex_lt(self.kvs()[idx as int].0, key@));
            idx += 1;
        }
    }

    /// Inserts or replaces the URL for `key`; reports whether the key was
    /// already present.
    pub fn upsert(&mut self, key: String, url: String) -> (was_update: bool)
        requires
            old(self).wf(),
        ensures
            final(self).wf(),
            final(self).kvs() == upsert_kvs(old(self).kvs(), key@, url@),
            final(self).as_map() == old(self).as_map().insert(key@, url@),
            was_update == old(self).as_map().contains_key(key@),
    {
        proof {
            lemma_map_of_keys(old(self).kvs());
            lemma_upsert_props(old(self).kvs(), key@, url@);
        }
        let idx = self.find_slot(key.as_str());
        proof {
            lemma_upsert_at(old(self).kvs(), key@, url@, idx as int);
        }
        let n = self.entries.len();
        if idx < n && str_eq(self.entries[idx].key.as_str(), key.as_str()) {
            assert(old(self).kvs()[idx as int].0 == key@);
            self.entries.remove(idx);
            self.entries.insert(idx, Entry { key, url });
            proof {
                let old_kvs = old(self).kvs();
                assert(self.kvs() =~= old_kvs.subrange(0, idx as int) + seq![(key@, url@)]
                    + old_kvs.skip(idx + 1));
            }
            true
        } else {
            assert(!(idx < n && old(self).kvs()[idx as int].0 == key@));
            self.entries.insert(idx, Entry { key, url });
            proof {
                let old_kvs = old(self).kvs();
                assert(self.kvs() =~= old_kvs.subrange(0, idx as int) + seq![(key@, url@)]
                    + old_kvs.skip(idx as int));
            }
            false
        }
    }

    /// The shortcuts in ascending key order.
    pub fn list_sorted(&self) -> (r: Vec<Entry>)
        requires
            self.wf(),
        ensures
            r@.map(|i: int, e: Entry| (e.key@, e.url@)) == self.kvs(),
            sorted_kvs(r@.map(|i: int, e: Entry| (e.key@, e.url@))),
    {
        let n = self.entries.len();
        let mut out: Vec<Entry> = Vec::new();
        let mut i: usize = 0;
        while i < n
            invariant
                n == self.entries@.len(),
                0 <= i <= n,
                out@.len() == i,
                forall|j: int|
                    0 <= j < i ==> (#[trigger] out@[j]).key@ == self.kvs()[j].0 && out@[j].url@
                        == self.kvs()[j].1,
            decreases n - i,
        {
            let e = Entry { key: self.entries[i].key.clone(), url: self.entries[i].url.clone() };
            out.push(e);
            i += 1;
        }
        proof {
            assert(out@.map(|i: int, e: Entry| (e.key@, e.url@)) =~= self.kvs());
        }
        out
    }

    /// Serializes the registry to the text its backing file holds.
    pub fn to_file_text(&self) -> (r: String)
        requires
            self.wf(),
        ensures
            r@ == render_file(self.kvs()),
    {
        let mut out = String::from_str("{\n  \"url_map\": {");
        proof {
            reveal_strlit("{\n  \"url_map\": {");
            assert(out@ =~= header());
        }
        let n = self.entries.len();
        let ghost target = render_file(self.kvs());
        if n > 0 {
            out.append("\n");
            proof {
                reveal_strlit("\n");
                assert("\n"@ =~= seq!['\n']);
            }
            append_entry(&mut out, self.entries[0].key.as_str(), self.entries[0].url.as_str());
            proof {
                assert(self.kvs()[0] == (self.entries@[0].key@, self.entries@[0].url@));
                assert(out@ + render_more(self.kvs().skip(1)) + seq!['\n', ' ', ' '] + seq![
                    '}',
                    '\n',
                    '}',
                    '\n',
                ] =~= target);
            }
            let mut k: usize = 1;
            while k < n
                invariant
                    n == self.entries@.len(),
                    n == self.kvs().len(),
                    1 <= k <= n,
                    target == render_file(self.kvs()),
                    out@ + render_more(self.kvs().skip(k as int)) + seq!['\n', ' ', ' '] + seq![
                        '}',
                        '\n',
                        '}',
                        '\n',
                    ] == target,
                decreases n - k,
            {
                out.append(",\n");
                proof {
                    reveal_strlit(",\n");
                    assert(",\n"@ =~= seq![',', '\n']);
                }
                let ghost before = out@;
                append_entry(&mut out, self.entries[k].key.as_str(), self.entries[k].url.as_str());
                proof {
                    assert(self.kvs()[k as int] == (self.entries@[k as int].key@,
                        self.entries@[k as int].url@));
                    assert(self.kvs().skip(k as int)[0] == self.kvs()[k as int]);
                    assert(self.kvs().skip(k as int).skip(1) =~= self.kvs().skip(k + 1));
                    assert(render_more(self.kvs().skip(k as int)) == seq![',', '\n'] + render_entry(
                        self.kvs()[k as int].0,
                        self.kvs()[k as int].1,
                    ) + render_more(self.kvs().skip(k + 1)));
                    assert(out@ + render_more(self.kvs().skip(k + 1)) + seq!['\n', ' ', ' '] + seq![
                        '}',
                        '\n',
                        '}',
                        '\n',
                    ] =~= target);
                }
                k += 1;
            }
            out.append("\n  ");
            out.append("}\n}\n");
            proof {
                reveal_strlit("\n  ");
                reveal_strlit("}\n}\n");
                assert("\n  "@ =~= seq!['\n', ' ', ' ']);
                assert("}\n}\n"@ =~= seq!['}', '\n', '}', '\n']);
                assert(self.kvs().skip(n as int).len() == 0);
                assert(out@ =~= target);
            }
        } else {
            out.append("}\n}\n");
            proof {
                reveal_strlit("}\n}\n");
                assert("}\n}\n"@ =~= seq!['}', '\n', '}', '\n']);
                assert(out@ =~= target);
            }
        }
        out
    }

    /// Deserializes a registry from its backing file's text. Text that does
    /// not parse as the expected mapping format is `MalformedRegistry`.
    pub fn from_file_text(text: &str) -> (r: Result<UrlsMap, Error>)
        ensures
            parse_file(text@) matches Some(pairs) ==> (r matches Ok(m) && m.wf() && m.kvs()
                == build_kvs(pairs) && m.as_map() == map_of(pairs)),
            parse_file(text@) is None ==> r == Err::<UrlsMap, Error>(Error::MalformedRegistry),
    {
        let len = text.unicode_len();
        proof {
            assert(text@.skip(0) =~= text@);
        }
        let j1 = skip_ws_exec(text, 0);
        if j1 >= len {
            assert(text@.skip(j1 as int).len() == 0);
            return Err(Error::MalformedRegistry);
        }
        assert(text@.skip(j1 as int)[0] == text@[j1 as int]);
        if text.get_char(j1) != '{' {
            return Err(Error::MalformedRegistry);
        }
        proof {
            assert(text@.skip(j1 as int).skip(1) =~= text@.skip(j1 + 1));
        }
        let j2 = skip_ws_exec(text, j1 + 1);
        if !field_tok_at(text, j2) {
            return Err(Error::MalformedRegistry);
        }
        proof {
            assert(text@.skip(j2 as int).skip(9) =~= text@.skip(j2 + 9));
            assert(text@.skip(j2 as int).len() >= 9);
        }
        let j3 = skip_ws_exec(text, j2 + 9);
        if j3 >= len {
            assert(text@.skip(j3 as int).len() == 0);
            return Err(Error::MalformedRegistry);
        }
        assert(text@.skip(j3 as int)[0] == text@[j3 as int]);
        if text.get_char(j3) != ':' {
            return Err(Error::MalformedRegistry);
        }
        proof {
            assert(text@.skip(j3 as int).skip(1) =~= text@.skip(j3 + 1));
        }
        let j4 = skip_ws_exec(text, j3 + 1);
        if j4 >= len {
            assert(text@.skip(j4 as int).len() == 0);
            return Err(Error::MalformedRegistry);
        }
        assert(text@.skip(j4 as int)[0] == text@[j4 as int]);
        if text.get_char(j4) != '{' {
            return Err(Error::MalformedRegistry);
        }
        proof {
            assert(text@.skip(j4 as int).skip(1) =~= text@.skip(j4 + 1));
        }
        let mut reg = UrlsMap::new();
        let jend;
        match parse_entries_into(text, j4 + 1, &mut reg) {
            None => {
                return Err(Error::MalformedRegistry);
            },
            Some(j) => {
                jend = j;
            },
        }
        let j6 = skip_ws_exec(text, jend);
        if j6 >= len {
            assert(text@.skip(j6 as int).len() == 0);
            return Err(Error::MalformedRegistry);
        }
        assert(text@.skip(j6 as int)[0] == text@[j6 as int]);
        if text.get_char(j6) != '}' {
            return Err(Error::MalformedRegistry);
        }
        proof {
            assert(text@.skip(j6 as int).skip(1) =~= text@.skip(j6 + 1));
        }
        let j7 = skip_ws_exec(text, j6 + 1);
        if j7 < len {
            assert(text@.skip(j7 as int).len() > 0);
            return Err(Error::MalformedRegistry);
        }
        proof {
            assert(text@.skip(j7 as int).len() == 0);
            let pairs = parse_entry_list(text@.skip(j4 + 1))->Some_0.0;
            lemma_build_props(pairs);
        }
        Ok(reg)
    }

    /// Loads a registry from the backing file's contents; an absent file
    /// (`None`) is an empty registry, not an error.
    pub fn load_from(contents: Option<&str>) -> (r: Result<UrlsMap, Error>)
        ensures
            contents is None ==> (r matches Ok(m) && m.wf() && m.kvs() == Seq::<Kv>::empty()
                && m.as_map() == Map::<Seq<char>, Seq<char>>::empty()),
            contents matches Some(t) ==> {
                &&& parse_file(t@) matches Some(pairs) ==> (r matches Ok(m) && m.wf() && m.kvs()
                    == build_kvs(pairs) && m.as_map() == map_of(pairs))
                &&& parse_file(t@) is None ==> r == Err::<UrlsMap, Error>(Error::MalformedRegistry)
            },
    {
        match contents {
            None => Ok(UrlsMap::new()),
            Some(t) => UrlsMap::from_file_text(t),
        }
    }
}

/// Reads the mapping's entries from just after its opening brace through its
/// closing brace, upserting each into `reg`; yields the index after the
/// closing brace.
fn parse_entries_into(text: &str, start: usize, reg: &mut UrlsMap) -> (r: Option<usize>)
    requires
        start <= text@.len(),
        old(reg).wf(),
        old(reg).kvs().len() == 0,
    ensures
        match r {
            Some(jend) => jend <= text@.len() && (parse_entry_list(text@.skip(start as int))
                matches Some(q) && q.1 == text@.skip(jend as int) && final(reg).wf()
                && final(reg).kvs() == build_kvs(q.0)),
            None => parse_entry_list(text@.skip(start as int)) is None,
        },
{
    let len = text.unicode_len();
    proof {
        assert(old(reg).kvs() =~= Seq::<Kv>::empty());
    }
    let ghost mut pairs: Seq<Kv> = Seq::empty();
    let j5 = skip_ws_exec(text, start);
    if j5 < len && text.get_char(j5) == '}' {
        proof {
            assert(text@.skip(j5 as int)[0] == text@[j5 as int]);
            assert(text@.skip(j5 as int).skip(1) =~= text@.skip(j5 + 1));
            assert(build_kvs(Seq::<Kv>::empty()) == Seq::<Kv>::empty());
        }
        return Some(j5 + 1);
    }
    proof {
        if j5 < len {
            assert(text@.skip(j5 as int)[0] == text@[j5 as int]);
        } else {
            assert(text@.skip(j5 as int).len() == 0);
        }
    }
    let mut jcur;
    match parse_pair_exec(text, start) {
        None => {
            return None;
        },
        Some(p) => {
            let (k, v, jp) = p;
            proof {
                pairs = seq![(k@, v@)];
            }
            reg.upsert(k, v);
            proof {
                assert(pairs.len() == 1);
                assert(pairs.drop_last() =~= Seq::<Kv>::empty());
                assert(build_kvs(pairs.drop_last()) == Seq::<Kv>::empty());
                assert(pairs.last() == (k@, v@));
                assert(build_kvs(pairs) == upsert_kvs(Seq::<Kv>::empty(), k@, v@));
                assert(reg.kvs() == build_kvs(pairs));
            }
            jcur = jp;
        },
    }
    loop
        invariant
            len == text@.len(),
            start <= text@.len(),
            jcur <= len,
            reg.wf(),
            reg.kvs() == build_kvs(pairs),
            parse_entry_list(text@.skip(start as int)) == entries_result(
                pairs,
                parse_more_entries(text@.skip(jcur as int)),
            ),
        decreases len - jcur,
    {
        let jw = skip_ws_exec(text, jcur);
        if jw >= len {
            assert(text@.skip(jw as int).len() == 0);
            return None;
        }
        let c = text.get_char(jw);
        assert(text@.skip(jw as int)[0] == text@[jw as int]);
        if c == '}' {
            proof {
                assert(text@.skip(jw as int).skip(1) =~= text@.skip(jw + 1));
                assert(parse_more_entries(text@.skip(jcur as int)) == Some(
                    (Seq::<Kv>::empty(), text@.skip(jw + 1)),
                ));
                assert(pairs + Seq::<Kv>::empty() =~= pairs);
            }
            return Some(jw + 1);
        }
        if c != ',' {
            return None;
        }
        proof {
            assert(text@.skip(jw as int).skip(1) =~= text@.skip(jw + 1));
        }
        match parse_pair_exec(text, jw + 1) {
            None => {
                return None;
            },
            Some(p) => {
                let (k, v, jn) = p;
                let ghost old_pairs = pairs;
                let ghost old_kvs = reg.kvs();
                proof {
                    pairs = pairs.push((k@, v@));
                }
                reg.upsert(k, v);
                proof {
                    assert(build_kvs(pairs) == upsert_kvs(build_kvs(old_pairs), k@, v@)) by {
                        assert(pairs.drop_last() =~= old_pairs);
                        assert(pairs.last() == (k@, v@));
                    }
                    assert(parse_entry_list(text@.skip(start as int)) == entries_result(
                        pairs,
                        parse_more_entries(text@.skip(jn as int)),
                    )) by {
                        assert(parse_more_entries(text@.skip(jcur as int)) == (
                        match parse_more_entries(text@.skip(jn as int)) {
                            Some(q) => Some((seq![(k@, v@)] + q.0, q.1)),
                            None => None,
                        }));
                        match parse_more_entries(text@.skip(jn as int)) {
                            Some(q) => {
                                assert(old_pairs + (seq![(k@, v@)] + q.0) =~= pairs + q.0);
                            },
                            None => {},
                        }
                    }
                }
                jcur = jn;
            },
        }
    }
}

} // verus!
