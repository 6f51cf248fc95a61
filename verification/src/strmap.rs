//! An ordered string-to-strings multimap with case-insensitive key lookup,
//! used for headers and query parameters.  Insertion order among distinct
//! keys is preserved; a repeated key accumulates its values in order.

use vstd::prelude::*;
use crate::ascii::{key_eq, eq_ignore_case};

verus! {

/// The model of a map: entries in insertion order, each a key with the
/// values accumulated under it.
pub type MapModel = Seq<(Seq<char>, Seq<Seq<char>>)>;

/// The views of a sequence of strings.
pub open spec fn seq_views(s: Seq<String>) -> Seq<Seq<char>> {
    Seq::new(s.len(), |i: int| s[i]@)
}

/// The index of the first entry whose key matches `k` up to ASCII case, or
/// -1 when no entry matches.
pub open spec fn spec_find(es: MapModel, k: Seq<char>) -> int
    decreases es.len(),
{
    if es.len() == 0 {
        -1
    } else if key_eq(es[0].0, k) {
        0
    } else {
        let r = spec_find(es.drop_first(), k);
        if r < 0 {
            -1
        } else {
            r + 1
        }
    }
}

/// All values under the key matching `k`, in insertion order; empty when
/// the key is absent.
pub open spec fn spec_get_all(es: MapModel, k: Seq<char>) -> Seq<Seq<char>> {
    if spec_find(es, k) < 0 {
        Seq::empty()
    } else {
        es[spec_find(es, k)].1
    }
}

/// The first value under the key matching `k`, or `None` when absent.
pub open spec fn spec_get(es: MapModel, k: Seq<char>) -> Option<Seq<char>> {
    if spec_get_all(es, k).len() == 0 {
        None
    } else {
        Some(spec_get_all(es, k)[0])
    }
}

/// Insertion: append the value to the matching entry's list, or append a
/// fresh entry at the end when no key matches.
pub open spec fn spec_insert(es: MapModel, k: Seq<char>, v: Seq<char>) -> MapModel {
    let f = spec_find(es, k);
    if f < 0 {
        es.push((k, seq![v]))
    } else {
        es.update(f, (es[f].0, es[f].1.push(v)))
    }
}

/// `spec_find` returns the first matching index, and -1 exactly when no
/// entry matches.
pub proof fn lemma_spec_find(es: MapModel, k: Seq<char>)
    ensures
        spec_find(es, k) < 0 ==> forall|i: int| 0 <= i < es.len() ==> !key_eq(es[i].0, k),
        spec_find(es, k) >= 0 ==> 0 <= spec_find(es, k) < es.len() && key_eq(
            es[spec_find(es, k)].0,
            k,
        ) && forall|i: int| 0 <= i < spec_find(es, k) ==> !key_eq(es[i].0, k),
    decreases es.len(),
{
    if es.len() == 0 {
    } else if key_eq(es[0].0, k) {
    } else {
        let t = es.drop_first();
        lemma_spec_find(t, k);
        let f = spec_find(es, k);
        if spec_find(t, k) < 0 {
            assert forall|i: int| 0 <= i < es.len() implies !key_eq(es[i].0, k) by {
                if i > 0 {
                    assert(es[i] == t[i - 1]);
                    assert(!key_eq(t[i - 1].0, k));
                }
            }
        } else {
            let g = spec_find(t, k);
            assert(f == g + 1);
            assert(es[f] == t[g]);
            assert forall|i: int| 0 <= i < f implies !key_eq(es[i].0, k) by {
                if i > 0 {
                    assert(es[i] == t[i - 1]);
                    assert(!key_eq(t[i - 1].0, k));
                }
            }
        }
    }
}

/// `spec_find` depends only on the keys of the entries.
pub proof fn lemma_find_same_keys(es1: MapModel, es2: MapModel, k: Seq<char>)
    requires
        es1.len() == es2.len(),
        forall|i: int| 0 <= i < es1.len() ==> (#[trigger] es1[i]).0 == es2[i].0,
    ensures
        spec_find(es1, k) == spec_find(es2, k),
    decreases es1.len(),
{
    if es1.len() > 0 {
        assert(forall|i: int|
            0 <= i < es1.drop_first().len() ==> es1.drop_first()[i] == es1[i + 1]);
        assert(forall|i: int|
            0 <= i < es2.drop_first().len() ==> es2.drop_first()[i] == es2[i + 1]);
        lemma_find_same_keys(es1.drop_first(), es2.drop_first(), k);
    }
}

/// Law: inserting `v` under `k` appends `v` to the values seen under any
/// case-variant of `k`, and leaves every other key's values unchanged.
pub proof fn lemma_insert_get_all(es: MapModel, k: Seq<char>, v: Seq<char>, k2: Seq<char>)
    ensures
        key_eq(k2, k) ==> spec_get_all(spec_insert(es, k, v), k2) == spec_get_all(es, k2).push(v),
        !key_eq(k2, k) ==> spec_get_all(spec_insert(es, k, v), k2) == spec_get_all(es, k2),
{
    let f = spec_find(es, k);
    let es2 = spec_insert(es, k, v);
    lemma_spec_find(es, k);
    lemma_spec_find(es, k2);
    lemma_spec_find(es2, k2);
    if f < 0 {
        // es2 is es with a fresh entry (k, [v]) at the end
        let f2 = spec_find(es2, k2);
        if key_eq(k2, k) {
            assert(key_eq(es2[es.len() as int].0, k2));
            assert(f2 >= 0);
            assert(f2 == es.len() as int);
            assert(spec_get_all(es, k2) =~= Seq::<Seq<char>>::empty());
            assert(spec_get_all(es2, k2) =~= Seq::<Seq<char>>::empty().push(v));
        } else {
            if f2 >= 0 {
                assert(f2 < es.len());
                assert(spec_find(es, k2) == f2) by {
                    if spec_find(es, k2) < 0 {
                        assert(!key_eq(es[f2].0, k2));
                    } else {
                        let g = spec_find(es, k2);
                        assert(key_eq(es2[g].0, k2));
                    }
                }
            } else {
                assert(spec_find(es, k2) < 0) by {
                    if spec_find(es, k2) >= 0 {
                        let g = spec_find(es, k2);
                        assert(key_eq(es2[g].0, k2));
                    }
                }
            }
        }
    } else {
        // es2 updates entry f in place, keys unchanged
        assert(forall|i: int| 0 <= i < es.len() ==> (#[trigger] es[i]).0 == es2[i].0);
        lemma_find_same_keys(es, es2, k2);
        let f2 = spec_find(es2, k2);
        if key_eq(k2, k) {
            assert(spec_find(es, k2) == f) by {
                if spec_find(es, k2) != f {
                    let g = spec_find(es, k2);
                    assert(key_eq(es[g].0, k2));
                    assert(key_eq(es[f].0, k));
                    if g < f {
                        assert(!key_eq(es[g].0, k));
                    } else {
                        assert(!key_eq(es[f].0, k2));
                    }
                }
            }
            assert(spec_get_all(es2, k2) == es[f].1.push(v));
        } else {
            if f2 >= 0 {
                assert(f2 != f) by {
                    if f2 == f {
                        assert(key_eq(es2[f2].0, k2));
                        assert(key_eq(es[f].0, k));
                    }
                }
                assert(spec_get_all(es2, k2) == es[f2].1);
            }
        }
    }
}

/// Law: after inserting `v` under a key `k` that was absent, looking the key
/// up under any ASCII case-variant returns `v`.
pub proof fn lemma_insert_get(es: MapModel, k: Seq<char>, v: Seq<char>, k2: Seq<char>)
    requires
        key_eq(k2, k),
        spec_find(es, k) < 0,
    ensures
        spec_get(spec_insert(es, k, v), k2) == Some(v),
{
    lemma_insert_get_all(es, k, v, k2);
    lemma_spec_find(es, k);
    lemma_spec_find(es, k2);
    assert(spec_find(es, k2) < 0) by {
        if spec_find(es, k2) >= 0 {
            let g = spec_find(es, k2);
            assert(key_eq(es[g].0, k2));
        }
    }
    assert(spec_get_all(spec_insert(es, k, v), k2) == Seq::<Seq<char>>::empty().push(v));
    assert(Seq::<Seq<char>>::empty().push(v)[0] == v);
}

/// Law: inserting `v1` under a fresh key `k1` and then `v2` under a
/// case-variant `k2` makes a lookup under any case-variant `k3` see both
/// values, in insertion order.
pub proof fn lemma_insert_insert_get_all(
    es: MapModel,
    k1: Seq<char>,
    v1: Seq<char>,
    k2: Seq<char>,
    v2: Seq<char>,
    k3: Seq<char>,
)
    requires
        key_eq(k2, k1),
        key_eq(k3, k1),
        spec_find(es, k1) < 0,
    ensures
        spec_get_all(spec_insert(spec_insert(es, k1, v1), k2, v2), k3) == seq![v1, v2],
{
    let es1 = spec_insert(es, k1, v1);
    lemma_insert_get_all(es, k1, v1, k3);
    lemma_insert_get_all(es1, k2, v2, k3);
    lemma_spec_find(es, k1);
    lemma_spec_find(es, k3);
    assert(spec_find(es, k3) < 0) by {
        if spec_find(es, k3) >= 0 {
            let g = spec_find(es, k3);
            assert(key_eq(es[g].0, k3));
        }
    }
    assert(spec_get_all(es, k3) =~= Seq::<Seq<char>>::empty());
    assert(Seq::<Seq<char>>::empty().push(v1).push(v2) =~= seq![v1, v2]);
}

/// An ordered multimap from strings to strings with ASCII case-insensitive
/// key lookup.
pub struct StrMap {
    entries: Vec<(String, Vec<String>)>,
}

impl View for StrMap {
    type V = MapModel;

    closed spec fn view(&self) -> MapModel {
        Seq::new(
            self.entries@.len(),
            |i: int| (self.entries@[i].0@, seq_views(self.entries@[i].1@)),
        )
    }
}

impl StrMap {
    /// Every key occurs once (up to ASCII case) and every entry holds at
    /// least one value.
    pub open spec fn wf(&self) -> bool {
        &&& forall|i: int, j: int|
            0 <= i < j < self@.len() ==> !key_eq(
                (#[trigger] self@[i]).0,
                (#[trigger] self@[j]).0,
            )
        &&& forall|i: int| 0 <= i < self@.len() ==> (#[trigger] self@[i]).1.len() > 0
    }

    /// An empty map.
    pub fn new() -> (r: StrMap)
        ensures
            r@ == Seq::<(Seq<char>, Seq<Seq<char>>)>::empty(),
            r.wf(),
    {
        let r = StrMap { entries: Vec::new() };
        proof {
            assert(r@ =~= Seq::<(Seq<char>, Seq<Seq<char>>)>::empty());
        }
        r
    }

    /// The index of the entry whose key matches `k` up to ASCII case.
    fn find(&self, k: &str) -> (r: Option<usize>)
        ensures
            match r {
                Some(i) => spec_find(self@, k@) == i as int && i < self@.len(),
                None => spec_find(self@, k@) < 0,
            },
    {
        let n = self.entries.len();
        let mut i: usize = 0;
        while i < n
            invariant
                n == self.entries@.len(),
                n == self@.len(),
                i <= n,
                forall|j: int| 0 <= j < i ==> !key_eq((#[trigger] self@[j]).0, k@),
            decreases n - i,
        {
            if eq_ignore_case(self.entries[i].0.as_str(), k) {
                proof {
                    lemma_spec_find(self@, k@);
                    let f = spec_find(self@, k@);
                    assert(key_eq(self@[i as int].0, k@));
                    if f < 0 {
                        assert(!key_eq(self@[i as int].0, k@));
                    }
                    if f < i as int {
                        assert(!key_eq(self@[f].0, k@));
                    }
                    if f > i as int {
                        assert(!key_eq(self@[i as int].0, k@));
                    }
                }
                return Some(i);
            }
            i += 1;
        }
        proof {
            lemma_spec_find(self@, k@);
            let f = spec_find(self@, k@);
            if f >= 0 {
                assert(!key_eq(self@[f].0, k@));
            }
        }
        None
    }

    /// Append `v` under `k`: accumulate when a case-variant of `k` is
    /// present, append a fresh entry otherwise.
    pub fn insert(&mut self, k: String, v: String)
        requires
            old(self).wf(),
        ensures
            final(self)@ == spec_insert(old(self)@, k@, v@),
            final(self).wf(),
    {
        let ghost es = self@;
        proof {
            lemma_spec_find(es, k@);
        }
        match self.find(k.as_str()) {
            Some(i) => {
                self.entries[i].1.push(v);
                proof {
                    let f = i as int;
                    assert(seq_views(self.entries@[f].1@) =~= es[f].1.push(v@));
                    assert(self@ =~= es.update(f, (es[f].0, es[f].1.push(v@))));
                    assert forall|a: int, b: int| 0 <= a < b < self@.len() implies !key_eq(
                        (self@[a]).0,
                        (self@[b]).0,
                    ) by {
                        assert(self@[a].0 == es[a].0);
                        assert(self@[b].0 == es[b].0);
                    }
                }
            },
            None => {
                let mut vs: Vec<String> = Vec::new();
                vs.push(v);
                self.entries.push((k, vs));
                proof {
                    let f = es.len() as int;
                    assert(seq_views(vs@) =~= seq![v@]);
                    assert(self@ =~= es.push((k@, seq![v@])));
                    lemma_spec_find(es, k@);
                    assert forall|a: int, b: int| 0 <= a < b < self@.len() implies !key_eq(
                        (self@[a]).0,
                        (self@[b]).0,
                    ) by {
                        if b < f {
                            assert(self@[a].0 == es[a].0);
                            assert(self@[b].0 == es[b].0);
                        } else {
                            assert(self@[a].0 == es[a].0);
                            assert(self@[b].0 == k@);
                            assert(!key_eq(es[a].0, k@));
                        }
                    }
                }
            },
        }
    }

    /// All values under `k` (any ASCII case), in insertion order.
    pub fn get_all(&self, k: &str) -> (r: Vec<String>)
        ensures
            seq_views(r@) == spec_get_all(self@, k@),
    {
        match self.find(k) {
            Some(i) => {
                let r = self.entries[i].1.clone();
                proof {
                    assert(seq_views(r@) =~= spec_get_all(self@, k@));
                }
                r
            },
            None => {
                let r: Vec<String> = Vec::new();
                proof {
                    assert(seq_views(r@) =~= spec_get_all(self@, k@));
                }
                r
            },
        }
    }

    /// The first value under `k` (any ASCII case), or `None` when absent.
    pub fn get(&self, k: &str) -> (r: Option<&String>)
        requires
            self.wf(),
        ensures
            match r {
                Some(s) => spec_get(self@, k@) == Some(s@),
                None => spec_get(self@, k@) == None::<Seq<char>>,
            },
    {
        match self.find(k) {
            Some(i) => {
                proof {
                    assert(self@[i as int].1.len() > 0);
                    assert(self@[i as int].1[0] == self.entries@[i as int].1@[0]@);
                }
                Some(&self.entries[i].1[0])
            },
            None => None,
        }
    }

    /// The number of distinct keys.
    pub fn len(&self) -> (r: usize)
        ensures
            r == self@.len(),
    {
        self.entries.len()
    }

    /// The key of the entry at `i`, in insertion order.
    pub fn key_at(&self, i: usize) -> (r: &String)
        requires
            i < self@.len(),
        ensures
            r@ == self@[i as int].0,
    {
        &self.entries[i].0
    }

    /// The values of the entry at `i`, in insertion order.
    pub fn values_at(&self, i: usize) -> (r: &Vec<String>)
        requires
            i < self@.len(),
        ensures
            seq_views(r@) == self@[i as int].1,
    {
        &self.entries[i].1
    }
}

} // verus!
