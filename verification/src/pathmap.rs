use vstd::prelude::*;
use crate::index::{entries_view, IndexEntry};
use crate::order::{bytes_le, lemma_lex_antisym, lemma_lex_total, lemma_lex_trans, lex_le, lex_lt};
use crate::text::{bytes_eq, slice_to_vec};

verus! {

/// Keys in strictly increasing byte-wise order (so each key once).
pub open spec fn keys_ascending(s: Seq<(Seq<u8>, Seq<u8>)>) -> bool {
    forall|i: int, j: int| 0 <= i < j < s.len() ==> lex_lt(#[trigger] s[i].0, #[trigger] s[j].0)
}

/// The pairs of `s` read as a map; when keys are unique each pair gives
/// one binding.
pub open spec fn pairs_map(s: Seq<(Seq<u8>, Seq<u8>)>) -> Map<Seq<u8>, Seq<u8>> {
    Map::new(
        |k: Seq<u8>| exists|i: int| 0 <= i < s.len() && #[trigger] s[i].0 == k,
        |k: Seq<u8>| s[choose|i: int| 0 <= i < s.len() && #[trigger] s[i].0 == k].1,
    )
}

/// With ascending keys, the binding of the key at `i` is the value at `i`.
pub proof fn lemma_pairs_map_at(s: Seq<(Seq<u8>, Seq<u8>)>, i: int)
    requires
        keys_ascending(s),
        0 <= i < s.len(),
    ensures
        pairs_map(s).contains_key(s[i].0),
        pairs_map(s)[s[i].0] == s[i].1,
{
    let k = s[i].0;
    assert(s[i].0 == k);
    let j = choose|j: int| 0 <= j < s.len() && #[trigger] s[j].0 == k;
    if j != i {
        if j < i {
            assert(lex_lt(s[j].0, s[i].0));
        } else {
            assert(lex_lt(s[i].0, s[j].0));
        }
    }
}

/// A map from byte-string keys to byte-string values, kept in ascending
/// key order (it stands for an ordered map of strings).
pub struct PathMap {
    items: Vec<IndexEntry>,
}

impl PathMap {
    /// The bindings in ascending key order.
    pub closed spec fn pairs(&self) -> Seq<(Seq<u8>, Seq<u8>)> {
        entries_view(self.items@)
    }

    /// Keys stay ascending.
    pub open spec fn wf(&self) -> bool {
        keys_ascending(self.pairs())
    }

    /// The bindings as a map.
    pub open spec fn contents(&self) -> Map<Seq<u8>, Seq<u8>> {
        pairs_map(self.pairs())
    }

    /// An empty map.
    pub fn new() -> (r: PathMap)
        ensures
            r.wf(),
            r.pairs() == Seq::<(Seq<u8>, Seq<u8>)>::empty(),
            r.contents() == Map::<Seq<u8>, Seq<u8>>::empty(),
    {
        let r = PathMap { items: Vec::new() };
        assert(r.pairs() =~= Seq::<(Seq<u8>, Seq<u8>)>::empty());
        assert(r.contents() =~= Map::<Seq<u8>, Seq<u8>>::empty());
        r
    }

    /// The number of bindings.
    pub fn len(&self) -> (n: usize)
        ensures
            n == self.pairs().len(),
    {
        self.items.len()
    }

    /// The key of the `i`-th binding.
    pub fn key_at(&self, i: usize) -> (k: &Vec<u8>)
        requires
            i < self.pairs().len(),
        ensures
            k@ == self.pairs()[i as int].0,
    {
        &self.items[i].path
    }

    /// The value of the `i`-th binding.
    pub fn value_at(&self, i: usize) -> (v: &Vec<u8>)
        requires
            i < self.pairs().len(),
        ensures
            v@ == self.pairs()[i as int].1,
    {
        &self.items[i].blob_id
    }

    /// The value bound to `key`.
    pub fn get(&self, key: &[u8]) -> (r: Option<&Vec<u8>>)
        requires
            self.wf(),
        ensures
            match r {
                Some(v) => self.contents().contains_key(key@) && self.contents()[key@] == v@,
                None => !self.contents().contains_key(key@),
            },
    {
        let mut i: usize = 0;
        while i < self.items.len()
            invariant
                i <= self.pairs().len(),
                self.wf(),
                self.pairs() == entries_view(self.items@),
                forall|k: int| 0 <= k < i ==> #[trigger] self.pairs()[k].0 != key@,
            decreases self.pairs().len() - i,
        {
            assert(self.pairs()[i as int] == self.items@[i as int]@);
            if bytes_eq(self.items[i].path.as_slice(), key) {
                proof {
                    lemma_pairs_map_at(self.pairs(), i as int);
                }
                return Some(&self.items[i].blob_id);
            }
            i = i + 1;
        }
        None
    }

    /// Binds `key` to `value`, replacing an earlier binding of `key`.
    pub fn insert(&mut self, key: Vec<u8>, value: Vec<u8>)
        requires
            old(self).wf(),
        ensures
            final(self).wf(),
            final(self).contents() == old(self).contents().insert(key@, value@),
    {
        let ghost s = self.pairs();
        let ghost kv = (key@, value@);
        let mut j: usize = 0;
        loop
            invariant
                j <= s.len(),
                s == entries_view(self.items@),
                keys_ascending(s),
                forall|k: int| 0 <= k < j ==> lex_lt(#[trigger] s[k].0, key@),
            ensures
                j <= s.len(),
                s == entries_view(self.items@),
                forall|k: int| 0 <= k < j ==> lex_lt(#[trigger] s[k].0, key@),
                j < s.len() ==> lex_le(key@, s[j as int].0),
            decreases s.len() - j,
        {
            if j == self.items.len() {
                break;
            }
            assert(s[j as int] == self.items@[j as int]@);
            if bytes_le(key.as_slice(), self.items[j].path.as_slice()) {
                break;
            }
            proof {
                lemma_lex_total(key@, s[j as int].0);
            }
            j = j + 1;
        }
        let same = j < self.items.len() && bytes_eq(self.items[j].path.as_slice(), key.as_slice());
        assert(j < s.len() ==> s[j as int] == self.items@[j as int]@);
        let e = IndexEntry { path: key, blob_id: value };
        if same {
            self.items.set(j, e);
            let ghost t = self.pairs();
            assert(t =~= s.update(j as int, kv));
            assert(keys_ascending(t)) by {
                assert forall|a: int, b: int| 0 <= a < b < t.len() implies lex_lt(#[trigger] t[a].0, #[trigger] t[b].0) by {
                    assert(lex_lt(s[a].0, s[b].0));
                }
            }
            assert(self.contents() =~= pairs_map(s).insert(kv.0, kv.1)) by {
                self.lemma_same_keys_insert(s, j as int, kv);
            }
        } else {
            self.items.insert(j, e);
            let ghost t = self.pairs();
            assert(t =~= s.insert(j as int, kv));
            assert(keys_ascending(t)) by {
                assert forall|a: int, b: int| 0 <= a < b < t.len() implies lex_lt(#[trigger] t[a].0, #[trigger] t[b].0) by {
                    if a < j && b == j {
                    } else if a == j && b > j {
                        assert(t[b] == s[b - 1]);
                        if b - 1 > j {
                            assert(lex_lt(s[j as int].0, s[b - 1].0));
                            lemma_lex_trans(key@, s[j as int].0, s[b - 1].0);
                            if key@ == s[b - 1].0 {
                                lemma_lex_antisym(s[j as int].0, s[b - 1].0);
                            }
                        }
                    } else if a < j && b > j {
                        assert(t[b] == s[b - 1]);
                        if b - 1 > a {
                            assert(lex_lt(s[a].0, s[b - 1].0));
                        }
                    } else if a > j {
                        assert(t[a] == s[a - 1] && t[b] == s[b - 1]);
                        assert(lex_lt(s[a - 1].0, s[b - 1].0));
                    } else {
                        assert(lex_lt(s[a].0, s[b].0));
                    }
                }
            }
            assert forall|k: int| 0 <= k < s.len() implies #[trigger] s[k].0 != kv.0 by {
                if k < j {
                    assert(lex_lt(s[k].0, key@));
                } else {
                    assert(s[j as int].0 != kv.0);
                    if k > j && s[k].0 == kv.0 {
                        assert(lex_lt(s[j as int].0, s[k].0));
                        lemma_lex_antisym(s[j as int].0, kv.0);
                    }
                }
            }
            assert(self.contents() =~= pairs_map(s).insert(kv.0, kv.1)) by {
                self.lemma_fresh_insert(s, j as int, kv);
            }
        }
    }

    proof fn lemma_same_keys_insert(&self, s: Seq<(Seq<u8>, Seq<u8>)>, j: int, kv: (Seq<u8>, Seq<u8>))
        requires
            keys_ascending(s),
            0 <= j < s.len(),
            s[j].0 == kv.0,
            self.pairs() == s.update(j, kv),
            keys_ascending(self.pairs()),
        ensures
            self.contents() =~= pairs_map(s).insert(kv.0, kv.1),
    {
        let t = self.pairs();
        assert forall|k: Seq<u8>| #[trigger] self.contents().contains_key(k) <==> pairs_map(s).insert(kv.0, kv.1).contains_key(k) by {
            if self.contents().contains_key(k) {
                let i = choose|i: int| 0 <= i < t.len() && #[trigger] t[i].0 == k;
                if i != j {
                    assert(s[i].0 == k);
                }
            }
            if pairs_map(s).contains_key(k) {
                let i = choose|i: int| 0 <= i < s.len() && #[trigger] s[i].0 == k;
                assert(t[i].0 == k);
            }
            if k == kv.0 {
                assert(t[j].0 == k);
            }
        }
        assert forall|k: Seq<u8>| #[trigger] self.contents().contains_key(k) implies self.contents()[k] == pairs_map(s).insert(kv.0, kv.1)[k] by {
            let i = choose|i: int| 0 <= i < t.len() && #[trigger] t[i].0 == k;
            lemma_pairs_map_at(t, i);
            if i != j {
                assert(s[i] == t[i]);
                lemma_pairs_map_at(s, i);
            }
        }
    }

    proof fn lemma_fresh_insert(&self, s: Seq<(Seq<u8>, Seq<u8>)>, j: int, kv: (Seq<u8>, Seq<u8>))
        requires
            keys_ascending(s),
            0 <= j <= s.len(),
            forall|k: int| 0 <= k < s.len() ==> #[trigger] s[k].0 != kv.0,
            self.pairs() == s.insert(j, kv),
            keys_ascending(self.pairs()),
        ensures
            self.contents() =~= pairs_map(s).insert(kv.0, kv.1),
    {
        let t = self.pairs();
        assert forall|k: Seq<u8>| #[trigger] self.contents().contains_key(k) <==> pairs_map(s).insert(kv.0, kv.1).contains_key(k) by {
            if self.contents().contains_key(k) {
                let i = choose|i: int| 0 <= i < t.len() && #[trigger] t[i].0 == k;
                if i < j {
                    assert(s[i].0 == k);
                } else if i > j {
                    assert(s[i - 1].0 == k);
                }
            }
            if pairs_map(s).contains_key(k) {
                let i = choose|i: int| 0 <= i < s.len() && #[trigger] s[i].0 == k;
                if i < j {
                    assert(t[i].0 == k);
                } else {
                    assert(t[i + 1].0 == k);
                }
            }
            if k == kv.0 {
                assert(t[j].0 == k);
            }
        }
        assert forall|k: Seq<u8>| #[trigger] self.contents().contains_key(k) implies self.contents()[k] == pairs_map(s).insert(kv.0, kv.1)[k] by {
            let i = choose|i: int| 0 <= i < t.len() && #[trigger] t[i].0 == k;
            lemma_pairs_map_at(t, i);
            if i < j {
                assert(s[i] == t[i]);
                lemma_pairs_map_at(s, i);
            } else if i > j {
                assert(s[i - 1] == t[i]);
                lemma_pairs_map_at(s, i - 1);
            }
        }
    }
}

} // verus!
