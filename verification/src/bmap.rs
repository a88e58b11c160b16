//! An association table keyed by byte strings, kept sorted in
//! byte-lexicographic order so that iteration is deterministic. Backs both
//! the path table of a filesystem and the xattr table of an entry.

use vstd::prelude::*;

use crate::order::bytes_cmp;
use crate::order::lemma_lex_trichotomy;
use crate::order::lemma_lex_transitive;
use crate::order::lex_lt;
use crate::order::Rel;

verus! {

/// What a sorted association list associates with a key: the value of the
/// first pair whose key matches, if any.
pub open spec fn assoc_get<V>(s: Seq<(Vec<u8>, V)>, k: Seq<u8>) -> Option<V>
    decreases s.len(),
{
    if s.len() == 0 {
        None
    } else if s[0].0@ == k {
        Some(s[0].1)
    } else {
        assoc_get(s.drop_first(), k)
    }
}

/// `assoc_get` misses exactly when no pair has the key.
pub proof fn lemma_assoc_get_none<V>(s: Seq<(Vec<u8>, V)>, k: Seq<u8>)
    ensures
        (assoc_get(s, k) is None) <==> (forall|i: int| 0 <= i < s.len() ==> s[i].0@ != k),
    decreases s.len(),
{
    if s.len() > 0 {
        lemma_assoc_get_none(s.drop_first(), k);
        assert(forall|i: int| 1 <= i < s.len() ==> s.drop_first()[i - 1] == s[i]);
    }
}

/// `assoc_get` distributes over concatenation: the left half wins.
pub proof fn lemma_assoc_get_concat<V>(a: Seq<(Vec<u8>, V)>, b: Seq<(Vec<u8>, V)>, k: Seq<u8>)
    ensures
        assoc_get(a + b, k) == if assoc_get(a, k) is Some {
            assoc_get(a, k)
        } else {
            assoc_get(b, k)
        },
    decreases a.len(),
{
    if a.len() == 0 {
        assert(a + b =~= b);
    } else {
        assert((a + b)[0] == a[0]);
        assert((a + b).drop_first() =~= a.drop_first() + b);
        lemma_assoc_get_concat(a.drop_first(), b, k);
    }
}

/// In a table whose keys all match some index, `assoc_get` finds that value.
pub proof fn lemma_assoc_get_at<V>(s: Seq<(Vec<u8>, V)>, i: int)
    requires
        0 <= i < s.len(),
        forall|p: int, q: int| 0 <= p < q < s.len() ==> s[p].0@ != s[q].0@,
    ensures
        assoc_get(s, s[i].0@) == Some(s[i].1),
    decreases s.len(),
{
    if i > 0 {
        assert(forall|j: int| 1 <= j < s.len() ==> s.drop_first()[j - 1] == s[j]);
        lemma_assoc_get_at(s.drop_first(), i - 1);
    }
}

/// A successful lookup has a witness pair in the table.
pub proof fn lemma_assoc_get_index<V>(s: Seq<(Vec<u8>, V)>, k: Seq<u8>)
    requires
        assoc_get(s, k) is Some,
    ensures
        exists|i: int|
            0 <= i < s.len() && (#[trigger] s[i]).0@ == k && s[i].1 == assoc_get(s, k)->Some_0,
    decreases s.len(),
{
    if s.len() > 0 {
        if s[0].0@ == k {
        } else {
            lemma_assoc_get_index(s.drop_first(), k);
            let i = choose|i: int|
                0 <= i < s.drop_first().len() && (#[trigger] s.drop_first()[i]).0@ == k
                    && s.drop_first()[i].1 == assoc_get(s.drop_first(), k)->Some_0;
            assert(s[i + 1] == s.drop_first()[i]);
        }
    }
}

/// Lookup in a one-pair table.
pub proof fn lemma_assoc_get_singleton<V>(p: (Vec<u8>, V), k: Seq<u8>)
    ensures
        assoc_get(seq![p], k) == if p.0@ == k {
            Some(p.1)
        } else {
            None::<V>
        },
{
    assert(seq![p].drop_first() =~= Seq::<(Vec<u8>, V)>::empty());
    assert(assoc_get(Seq::<(Vec<u8>, V)>::empty(), k) is None);
}

/// A mapping from byte-string keys to values, stored as a vector of pairs
/// sorted by key.
pub struct BMap<V> {
    pub entries: Vec<(Vec<u8>, V)>,
}

impl<V> BMap<V> {
    /// The underlying key-sorted sequence of pairs.
    pub open spec fn seq(&self) -> Seq<(Vec<u8>, V)> {
        self.entries@
    }

    /// Keys strictly increase, so they are unique.
    pub open spec fn wf(&self) -> bool {
        forall|i: int, j: int|
            0 <= i < j < self.entries@.len() ==> lex_lt(
                #[trigger] self.entries@[i].0@,
                #[trigger] self.entries@[j].0@,
            )
    }

    /// What the table associates with `k`.
    pub open spec fn get_spec(&self, k: Seq<u8>) -> Option<V> {
        assoc_get(self.entries@, k)
    }

    /// Whether `k` has an association.
    pub open spec fn contains_spec(&self, k: Seq<u8>) -> bool {
        self.get_spec(k) is Some
    }

    /// The table as a mathematical map.
    pub open spec fn as_map(&self) -> Map<Seq<u8>, V> {
        Map::new(|k: Seq<u8>| self.contains_spec(k), |k: Seq<u8>| self.get_spec(k)->Some_0)
    }

    /// Sorted keys are pairwise distinct.
    pub proof fn lemma_distinct(&self)
        requires
            self.wf(),
        ensures
            forall|p: int, q: int|
                0 <= p < q < self.seq().len() ==> #[trigger] self.seq()[p].0@
                    != #[trigger] self.seq()[q].0@,
    {
        assert forall|p: int, q: int|
            0 <= p < q < self.seq().len() implies #[trigger] self.seq()[p].0@
            != #[trigger] self.seq()[q].0@ by {
            lemma_lex_trichotomy(self.seq()[p].0@, self.seq()[q].0@);
        }
    }

    /// Each stored pair is what lookup on its key returns.
    pub proof fn lemma_get_at(&self, i: int)
        requires
            self.wf(),
            0 <= i < self.seq().len(),
        ensures
            self.get_spec(self.seq()[i].0@) == Some(self.seq()[i].1),
    {
        self.lemma_distinct();
        lemma_assoc_get_at(self.entries@, i);
    }

    pub fn new() -> (r: Self)
        ensures
            r.wf(),
            r.seq() == Seq::<(Vec<u8>, V)>::empty(),
            r.as_map() == Map::<Seq<u8>, V>::empty(),
    {
        let r = BMap { entries: Vec::new() };
        proof {
            assert(r.as_map() =~= Map::<Seq<u8>, V>::empty());
        }
        r
    }

    pub fn len(&self) -> (r: usize)
        ensures
            r == self.seq().len(),
    {
        self.entries.len()
    }

    /// The pair at position `i` in key order.
    pub fn idx(&self, i: usize) -> (r: (&Vec<u8>, &V))
        requires
            i < self.seq().len(),
        ensures
            *r.0 == self.seq()[i as int].0,
            *r.1 == self.seq()[i as int].1,
    {
        let pair = &self.entries[i];
        (&pair.0, &pair.1)
    }

    /// A successful lookup has a witness position in the table.
    pub proof fn lemma_get_index(&self, k: Seq<u8>)
        requires
            self.get_spec(k) is Some,
        ensures
            exists|i: int|
                0 <= i < self.seq().len() && (#[trigger] self.seq()[i]).0@ == k
                    && self.seq()[i].1 == self.get_spec(k)->Some_0,
    {
        lemma_assoc_get_index(self.entries@, k);
        let i = choose|i: int|
            0 <= i < self.entries@.len() && (#[trigger] self.entries@[i]).0@ == k
                && self.entries@[i].1 == assoc_get(self.entries@, k)->Some_0;
        assert(0 <= i < self.seq().len() && (self.seq()[i]).0@ == k && self.seq()[i].1
            == self.get_spec(k)->Some_0);
    }

    /// After a lower-bound scan, no position other than `pos` can hold `k`.
    proof fn lemma_only_pos(&self, pos: int, k: Seq<u8>)
        requires
            self.wf(),
            0 <= pos <= self.seq().len(),
            forall|i: int| 0 <= i < pos ==> lex_lt(#[trigger] self.seq()[i].0@, k),
            forall|i: int| pos <= i < self.seq().len() ==> !lex_lt(#[trigger] self.seq()[i].0@, k),
        ensures
            forall|i: int|
                0 <= i < self.seq().len() && i != pos ==> #[trigger] self.seq()[i].0@ != k,
    {
        assert forall|i: int|
            0 <= i < self.seq().len() && i != pos implies #[trigger] self.seq()[i].0@ != k by {
            lemma_lex_trichotomy(self.seq()[i].0@, k);
            if i > pos && self.seq()[i].0@ == k {
                assert(lex_lt(self.seq()[pos].0@, self.seq()[i].0@));
            }
        }
    }

    /// The number of entries whose key sorts strictly before `k`.
    fn lower_bound(&self, k: &[u8]) -> (pos: usize)
        requires
            self.wf(),
        ensures
            pos <= self.seq().len(),
            forall|i: int| 0 <= i < pos ==> lex_lt(#[trigger] self.seq()[i].0@, k@),
            forall|i: int|
                pos <= i < self.seq().len() ==> !lex_lt(#[trigger] self.seq()[i].0@, k@),
    {
        let n = self.entries.len();
        let mut i: usize = 0;
        while i < n
            invariant
                self.wf(),
                n == self.seq().len(),
                i <= n,
                forall|j: int| 0 <= j < i ==> lex_lt(#[trigger] self.seq()[j].0@, k@),
            decreases n - i,
        {
            match bytes_cmp(self.entries[i].0.as_slice(), k) {
                Rel::Before => {
                    i = i + 1;
                }
                _ => {
                    proof {
                        assert forall|j: int|
                            i <= j < self.seq().len() implies !lex_lt(
                            #[trigger] self.seq()[j].0@,
                            k@,
                        ) by {
                            lemma_lex_trichotomy(self.seq()[j].0@, k@);
                            if j > i && lex_lt(self.seq()[j].0@, k@) {
                                lemma_lex_transitive(
                                    self.seq()[i as int].0@,
                                    self.seq()[j].0@,
                                    k@,
                                );
                                lemma_lex_trichotomy(self.seq()[i as int].0@, k@);
                            }
                        }
                    }
                    return i;
                }
            }
        }
        i
    }

    /// Look up the value for `k`.
    pub fn get(&self, k: &[u8]) -> (r: Option<&V>)
        requires
            self.wf(),
        ensures
            match r {
                Some(v) => self.get_spec(k@) == Some(*v),
                None => self.get_spec(k@) is None,
            },
    {
        let pos = self.lower_bound(k);
        proof {
            self.lemma_distinct();
            lemma_assoc_get_none(self.entries@, k@);
        }
        if pos < self.entries.len() {
            match bytes_cmp(self.entries[pos].0.as_slice(), k) {
                Rel::Same => {
                    proof {
                        self.lemma_get_at(pos as int);
                    }
                    return Some(&self.entries[pos].1);
                }
                _ => {
                    proof {
                        self.lemma_only_pos(pos as int, k@);
                    }
                    return None;
                }
            }
        }
        proof {
            self.lemma_only_pos(pos as int, k@);
        }
        None
    }

    pub fn contains_key(&self, k: &[u8]) -> (r: bool)
        requires
            self.wf(),
        ensures
            r == self.contains_spec(k@),
    {
        match self.get(k) {
            Some(_) => true,
            None => false,
        }
    }

    /// Associate `k` with `v`, replacing any existing association.
    pub fn insert(&mut self, k: Vec<u8>, v: V)
        requires
            old(self).wf(),
        ensures
            final(self).wf(),
            final(self).as_map() == old(self).as_map().insert(k@, v),
            forall|k2: Seq<u8>| k2 != k@ ==> final(self).get_spec(k2) == old(self).get_spec(k2),
            final(self).get_spec(k@) == Some(v),
            old(self).contains_spec(k@) ==> final(self).seq().len() == old(self).seq().len(),
            !old(self).contains_spec(k@) ==> final(self).seq().len() == old(self).seq().len() + 1,
            forall|i: int|
                0 <= i < final(self).seq().len() ==> ((#[trigger] final(self).seq()[i]).0@ == k@
                    && final(self).seq()[i].1 == v) || old(self).seq().contains(
                    final(self).seq()[i],
                ),
    {
        let ghost old_seq = self.entries@;
        let pos = self.lower_bound(k.as_slice());
        let found = if pos < self.entries.len() {
            match bytes_cmp(self.entries[pos].0.as_slice(), k.as_slice()) {
                Rel::Same => true,
                _ => false,
            }
        } else {
            false
        };
        proof {
            lemma_assoc_get_none(old_seq, k@);
            self.lemma_only_pos(pos as int, k@);
        }
        if found {
            self.entries.remove(pos);
        }
        self.entries.insert(pos, (k, v));
        proof {
            self.lemma_insert_shape(old_seq, pos as int, k@, v, found);
            let new_seq = self.entries@;
            assert forall|i: int|
                0 <= i < new_seq.len() implies ((#[trigger] new_seq[i]).0@ == k@ && new_seq[i].1
                == v) || old_seq.contains(new_seq[i]) by {
                if i < pos {
                    assert(new_seq[i] == old_seq[i]);
                } else if i > pos {
                    let off: int = if found {
                        0
                    } else {
                        1
                    };
                    assert(new_seq[i] == old_seq[i - off]);
                }
            }
        }
    }

    /// The sequence surgery done by `insert` yields the updated map.
    proof fn lemma_insert_shape(
        &self,
        old_seq: Seq<(Vec<u8>, V)>,
        pos: int,
        k: Seq<u8>,
        v: V,
        replaced: bool,
    )
        requires
            0 <= pos <= old_seq.len(),
            replaced ==> pos < old_seq.len() && old_seq[pos].0@ == k,
            forall|i: int| 0 <= i < pos ==> lex_lt(#[trigger] old_seq[i].0@, k),
            forall|i: int| pos <= i < old_seq.len() ==> !lex_lt(#[trigger] old_seq[i].0@, k),
            !replaced ==> forall|i: int| 0 <= i < old_seq.len() ==> #[trigger] old_seq[i].0@ != k,
            forall|i: int, j: int|
                0 <= i < j < old_seq.len() ==> lex_lt(
                    #[trigger] old_seq[i].0@,
                    #[trigger] old_seq[j].0@,
                ),
            self.seq().len() == old_seq.len() + (if replaced {
                0int
            } else {
                1int
            }),
            self.seq()[pos].0@ == k,
            self.seq()[pos].1 == v,
            forall|i: int| 0 <= i < pos ==> #[trigger] self.seq()[i] == old_seq[i],
            forall|i: int|
                pos < i < self.seq().len() ==> #[trigger] self.seq()[i] == old_seq[i - (
                if replaced {
                    0int
                } else {
                    1int
                })],
        ensures
            self.wf(),
            self.as_map() == Map::new(
                |k2: Seq<u8>| assoc_get(old_seq, k2) is Some,
                |k2: Seq<u8>| assoc_get(old_seq, k2)->Some_0,
            ).insert(k, v),
            forall|k2: Seq<u8>|
                k2 != k ==> #[trigger] self.get_spec(k2) == assoc_get(old_seq, k2),
            self.get_spec(k) == Some(v),
    {
        let off: int = if replaced {
            0
        } else {
            1
        };
        let new_seq = self.seq();
        assert forall|i: int, j: int|
            0 <= i < j < new_seq.len() implies lex_lt(
            #[trigger] new_seq[i].0@,
            #[trigger] new_seq[j].0@,
        ) by {
            if i == pos && j > pos {
                let m = j - off;
                assert(new_seq[j] == old_seq[m]);
                assert(!lex_lt(old_seq[m].0@, k));
                lemma_lex_trichotomy(old_seq[m].0@, k);
                if old_seq[m].0@ == k {
                    if replaced {
                        assert(lex_lt(old_seq[pos].0@, old_seq[m].0@));
                        lemma_lex_trichotomy(old_seq[pos].0@, old_seq[m].0@);
                    }
                }
            }
        }
        assert forall|k2: Seq<u8>| #[trigger] assoc_get(new_seq, k2) == (if k2 == k {
            Some(v)
        } else {
            assoc_get(old_seq, k2)
        }) by {
            let pre_old = old_seq.subrange(0, pos);
            let tail = old_seq.subrange(pos, old_seq.len() as int);
            let post_old = old_seq.subrange(pos + off_src(replaced), old_seq.len() as int);
            let mid = seq![new_seq[pos]];
            assert(new_seq =~= (pre_old + mid) + post_old);
            assert(assoc_get(new_seq, k2) == assoc_get((pre_old + mid) + post_old, k2));
            lemma_assoc_get_concat(pre_old + mid, post_old, k2);
            lemma_assoc_get_concat(pre_old, mid, k2);
            lemma_assoc_get_singleton(new_seq[pos], k2);
            assert(old_seq =~= pre_old + tail);
            assert(assoc_get(old_seq, k2) == assoc_get(pre_old + tail, k2));
            lemma_assoc_get_concat(pre_old, tail, k2);
            if replaced {
                assert(tail =~= seq![old_seq[pos]] + post_old);
                lemma_assoc_get_concat(seq![old_seq[pos]], post_old, k2);
                lemma_assoc_get_singleton(old_seq[pos], k2);
            } else {
                assert(tail =~= post_old);
            }
            if k2 == k {
                lemma_assoc_get_none(pre_old, k2);
                assert forall|i: int| 0 <= i < pre_old.len() implies #[trigger] pre_old[i].0@
                    != k2 by {
                    lemma_lex_trichotomy(pre_old[i].0@, k2);
                }
            }
        }
        assert(self.as_map() =~= Map::new(
            |k2: Seq<u8>| assoc_get(old_seq, k2) is Some,
            |k2: Seq<u8>| assoc_get(old_seq, k2)->Some_0,
        ).insert(k, v));
    }

    /// Remove the association for `k`, returning its value if it was present.
    pub fn remove(&mut self, k: &[u8]) -> (r: Option<V>)
        requires
            old(self).wf(),
        ensures
            final(self).wf(),
            r == old(self).get_spec(k@),
            final(self).as_map() == old(self).as_map().remove(k@),
            forall|k2: Seq<u8>| k2 != k@ ==> final(self).get_spec(k2) == old(self).get_spec(k2),
            final(self).get_spec(k@) is None,
            (r is Some) ==> final(self).seq().len() == old(self).seq().len() - 1,
            (r is None) ==> final(self).seq() == old(self).seq(),
            forall|i: int|
                0 <= i < final(self).seq().len() ==> old(self).seq().contains(
                    #[trigger] final(self).seq()[i],
                ),
    {
        let ghost old_seq = self.entries@;
        let pos = self.lower_bound(k);
        proof {
            lemma_assoc_get_none(old_seq, k@);
            self.lemma_only_pos(pos as int, k@);
        }
        let found = if pos < self.entries.len() {
            match bytes_cmp(self.entries[pos].0.as_slice(), k) {
                Rel::Same => true,
                _ => false,
            }
        } else {
            false
        };
        if !found {
            proof {
                assert forall|i: int| 0 <= i < old_seq.len() implies old_seq[i].0@ != k@ by {
                    lemma_lex_trichotomy(old_seq[i].0@, k@);
                }
                assert(self.as_map() =~= old(self).as_map().remove(k@));
                assert(forall|i: int|
                    0 <= i < old_seq.len() ==> old_seq.contains(#[trigger] old_seq[i]));
            }
            return None;
        }
        proof {
            self.lemma_get_at(pos as int);
        }
        let (_, val) = self.entries.remove(pos);
        proof {
            let new_seq = self.entries@;
            let pre = old_seq.subrange(0, pos as int);
            let post = old_seq.subrange(pos as int + 1, old_seq.len() as int);
            assert(new_seq =~= pre + post);
            assert forall|i: int, j: int|
                0 <= i < j < new_seq.len() implies lex_lt(
                #[trigger] new_seq[i].0@,
                #[trigger] new_seq[j].0@,
            ) by {}
            assert forall|k2: Seq<u8>| #[trigger] assoc_get(new_seq, k2) == (if k2 == k@ {
                None::<V>
            } else {
                assoc_get(old_seq, k2)
            }) by {
                assert(assoc_get(new_seq, k2) == assoc_get(pre + post, k2));
                lemma_assoc_get_concat(pre, post, k2);
                assert(old_seq =~= pre + (seq![old_seq[pos as int]] + post));
                assert(assoc_get(old_seq, k2) == assoc_get(
                    pre + (seq![old_seq[pos as int]] + post),
                    k2,
                ));
                lemma_assoc_get_concat(pre, seq![old_seq[pos as int]] + post, k2);
                lemma_assoc_get_concat(seq![old_seq[pos as int]], post, k2);
                lemma_assoc_get_singleton(old_seq[pos as int], k2);
                if k2 == k@ {
                    lemma_assoc_get_none(pre, k2);
                    lemma_assoc_get_none(post, k2);
                    assert forall|i: int| 0 <= i < pre.len() implies #[trigger] pre[i].0@
                        != k2 by {
                        assert(pre[i] == old_seq[i]);
                    }
                    assert forall|i: int| 0 <= i < post.len() implies #[trigger] post[i].0@
                        != k2 by {
                        assert(post[i] == old_seq[pos + 1 + i]);
                    }
                }
            }
            assert(self.as_map() =~= old(self).as_map().remove(k@));
            assert forall|i: int| 0 <= i < new_seq.len() implies old_seq.contains(
                #[trigger] new_seq[i],
            ) by {
                if i < pos {
                    assert(new_seq[i] == old_seq[i]);
                } else {
                    assert(new_seq[i] == old_seq[i + 1]);
                }
            }
        }
        Some(val)
    }
}

/// Position of the first pair of the old sequence displaced by an insert.
pub open spec fn off_src(replaced: bool) -> int {
    if replaced {
        1
    } else {
        0
    }
}

/// The keys of a table, in order.
pub open spec fn keys_of<V>(s: Seq<(Vec<u8>, V)>) -> Seq<Seq<u8>> {
    s.map_values(|p: (Vec<u8>, V)| p.0@)
}

/// Whether some pair of the table has key `k`.
pub open spec fn has_key<V>(s: Seq<(Vec<u8>, V)>, k: Seq<u8>) -> bool {
    exists|i: int| 0 <= i < s.len() && (#[trigger] s[i]).0@ == k
}

/// Two sorted tables with the same key set list their keys identically:
/// the sorted order is canonical.
pub proof fn lemma_sorted_keys_canonical<V, W>(a: Seq<(Vec<u8>, V)>, b: Seq<(Vec<u8>, W)>)
    requires
        forall|i: int, j: int|
            0 <= i < j < a.len() ==> lex_lt(#[trigger] a[i].0@, #[trigger] a[j].0@),
        forall|i: int, j: int|
            0 <= i < j < b.len() ==> lex_lt(#[trigger] b[i].0@, #[trigger] b[j].0@),
        forall|k: Seq<u8>| has_key(a, k) <==> has_key(b, k),
    ensures
        keys_of(a) == keys_of(b),
    decreases a.len(),
{
    if a.len() == 0 {
        if b.len() > 0 {
            assert(has_key(b, b[0].0@));
            assert(false);
        }
        assert(keys_of(a) =~= keys_of(b));
    } else if b.len() == 0 {
        assert(has_key(a, a[0].0@));
        assert(false);
    } else {
        assert(a[0].0@ == b[0].0@) by {
            lemma_lex_trichotomy(a[0].0@, b[0].0@);
            if lex_lt(a[0].0@, b[0].0@) {
                assert(has_key(a, a[0].0@));
                assert(has_key(b, a[0].0@));
                let j = choose|j: int| 0 <= j < b.len() && (#[trigger] b[j]).0@ == a[0].0@;
                if j > 0 {
                    assert(lex_lt(b[0].0@, b[j].0@));
                    lemma_lex_transitive(a[0].0@, b[0].0@, b[j].0@);
                    lemma_lex_trichotomy(a[0].0@, b[j].0@);
                }
            } else if lex_lt(b[0].0@, a[0].0@) {
                assert(has_key(b, b[0].0@));
                assert(has_key(a, b[0].0@));
                let j = choose|j: int| 0 <= j < a.len() && (#[trigger] a[j]).0@ == b[0].0@;
                if j > 0 {
                    assert(lex_lt(a[0].0@, a[j].0@));
                    lemma_lex_transitive(b[0].0@, a[0].0@, a[j].0@);
                    lemma_lex_trichotomy(b[0].0@, a[j].0@);
                }
            }
        }
        let ta = a.drop_first();
        let tb = b.drop_first();
        assert(forall|i: int| 0 <= i < ta.len() ==> #[trigger] ta[i] == a[i + 1]);
        assert(forall|i: int| 0 <= i < tb.len() ==> #[trigger] tb[i] == b[i + 1]);
        assert forall|k: Seq<u8>| has_key(ta, k) <==> has_key(tb, k) by {
            assert(has_key(ta, k) <==> (has_key(a, k) && k != a[0].0@)) by {
                if has_key(ta, k) {
                    let i = choose|i: int| 0 <= i < ta.len() && (#[trigger] ta[i]).0@ == k;
                    assert(a[i + 1].0@ == k);
                    assert(lex_lt(a[0].0@, a[i + 1].0@));
                    lemma_lex_trichotomy(a[0].0@, k);
                }
                if has_key(a, k) && k != a[0].0@ {
                    let i = choose|i: int| 0 <= i < a.len() && (#[trigger] a[i]).0@ == k;
                    assert(i > 0);
                    assert(ta[i - 1].0@ == k);
                }
            }
            assert(has_key(tb, k) <==> (has_key(b, k) && k != b[0].0@)) by {
                if has_key(tb, k) {
                    let i = choose|i: int| 0 <= i < tb.len() && (#[trigger] tb[i]).0@ == k;
                    assert(b[i + 1].0@ == k);
                    assert(lex_lt(b[0].0@, b[i + 1].0@));
                    lemma_lex_trichotomy(b[0].0@, k);
                }
                if has_key(b, k) && k != b[0].0@ {
                    let i = choose|i: int| 0 <= i < b.len() && (#[trigger] b[i]).0@ == k;
                    assert(i > 0);
                    assert(tb[i - 1].0@ == k);
                }
            }
        }
        lemma_sorted_keys_canonical(ta, tb);
        assert(keys_of(ta) =~= keys_of(a).drop_first());
        assert(keys_of(tb) =~= keys_of(b).drop_first());
        assert(keys_of(a) =~= keys_of(b)) by {
            assert(keys_of(a)[0] == a[0].0@);
            assert(keys_of(b)[0] == b[0].0@);
            assert(forall|i: int|
                1 <= i < keys_of(a).len() ==> #[trigger] keys_of(a)[i] == keys_of(
                    a,
                ).drop_first()[i - 1]);
            assert(forall|i: int|
                1 <= i < keys_of(b).len() ==> #[trigger] keys_of(b)[i] == keys_of(
                    b,
                ).drop_first()[i - 1]);
        }
    }
}

} // verus!
