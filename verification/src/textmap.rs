//! A map keyed by text, kept in ascending key order.
use vstd::prelude::*;

use crate::text::{
    is_text_le, law_text_le_antisymmetric, law_text_le_total, law_text_le_transitive, same_text,
    text_le,
};

verus! {

/// Entries with strictly ascending keys.
#[derive(Debug, PartialEq, Eq)]
pub struct TextMap<V: View> {
    entries: Vec<(String, V)>,
}

/// Whether the keys of `s` are strictly ascending, so that none occurs twice.
pub open spec fn keys_ascend<B>(s: Seq<(Seq<char>, B)>) -> bool {
    forall|i: int, j: int|
        #![trigger s[i], s[j]]
        0 <= i < j < s.len() ==> text_le(s[i].0, s[j].0) && s[i].0 != s[j].0
}

/// The entries of a map after `key` has been bound to `value`.
pub open spec fn bound<B>(s: Seq<(Seq<char>, B)>, key: Seq<char>, value: B) -> Seq<(Seq<char>, B)>
    decreases s.len(),
{
    if s.len() == 0 {
        seq![(key, value)]
    } else if s.last().0 == key {
        s.drop_last().push((key, value))
    } else if text_le(s.last().0, key) {
        s.push((key, value))
    } else {
        bound(s.drop_last(), key, value).push(s.last())
    }
}

/// Binding a key keeps the keys strictly ascending.
pub proof fn law_bound_keeps_order<B>(s: Seq<(Seq<char>, B)>, key: Seq<char>, value: B)
    requires
        keys_ascend(s),
    ensures
        keys_ascend(bound(s, key, value)),
        forall|i: int|
            #![trigger bound(s, key, value)[i]]
            0 <= i < bound(s, key, value).len() ==> bound(s, key, value)[i] == (key, value) || s.contains(
                bound(s, key, value)[i],
            ),
    decreases s.len(),
{
    let r = bound(s, key, value);
    if s.len() == 0 {
    } else if s.last().0 == key {
        let t = s.drop_last();
        assert forall|i: int, j: int|
            #![trigger r[i], r[j]]
            0 <= i < j < r.len() implies text_le(r[i].0, r[j].0) && r[i].0 != r[j].0 by {
            assert(r[i].0 == s[i].0);
            assert(r[j].0 == s[j].0);
        }
        assert forall|i: int| #![trigger r[i]] 0 <= i < r.len() implies r[i] == (key, value)
            || s.contains(r[i]) by {
            if i < t.len() {
                assert(r[i] == s[i]);
            }
        }
    } else if text_le(s.last().0, key) {
        assert forall|i: int, j: int|
            #![trigger r[i], r[j]]
            0 <= i < j < r.len() implies text_le(r[i].0, r[j].0) && r[i].0 != r[j].0 by {
            assert(r[i] == s[i]);
            if j == s.len() {
                if i < s.len() - 1 {
                    assert(text_le(s[i].0, s[s.len() - 1].0));
                    law_text_le_transitive(s[i].0, s.last().0, key);
                    if s[i].0 == key {
                        law_text_le_antisymmetric(s[i].0, s.last().0);
                    }
                }
            } else {
                assert(r[j] == s[j]);
            }
        }
        assert forall|i: int| #![trigger r[i]] 0 <= i < r.len() implies r[i] == (key, value)
            || s.contains(r[i]) by {
            if i < s.len() {
                assert(r[i] == s[i]);
            }
        }
    } else {
        let t = s.drop_last();
        let q = bound(t, key, value);
        assert forall|i: int, j: int|
            #![trigger t[i], t[j]]
            0 <= i < j < t.len() implies text_le(t[i].0, t[j].0) && t[i].0 != t[j].0 by {
            assert(t[i] == s[i]);
            assert(t[j] == s[j]);
        }
        law_bound_keeps_order(t, key, value);
        law_text_le_total(key, s.last().0);
        assert forall|i: int, j: int|
            #![trigger r[i], r[j]]
            0 <= i < j < r.len() implies text_le(r[i].0, r[j].0) && r[i].0 != r[j].0 by {
            assert(r[i] == q[i]);
            if j < q.len() {
                assert(r[j] == q[j]);
            } else if q[i] != (key, value) {
                let k = t.index_of(q[i]);
                assert(t[k] == s[k]);
                assert(s[k] == q[i]);
                assert(text_le(s[k].0, s[s.len() - 1].0));
            }
        }
        assert forall|i: int| #![trigger r[i]] 0 <= i < r.len() implies r[i] == (key, value)
            || s.contains(r[i]) by {
            if i < q.len() {
                assert(r[i] == q[i]);
                if q[i] != (key, value) {
                    let k = t.index_of(q[i]);
                    assert(s[k] == q[i]);
                }
            } else {
                assert(s[s.len() - 1] == r[i]);
            }
        }
    }
}

/// The entry list of a map, each key and value taken by its view.
pub open spec fn entry_models<V: View>(s: Seq<(String, V)>) -> Seq<(Seq<char>, V::V)> {
    s.map_values(|e: (String, V)| (e.0@, e.1@))
}

impl<V: View> View for TextMap<V> {
    type V = Seq<(Seq<char>, V::V)>;

    closed spec fn view(&self) -> Seq<(Seq<char>, V::V)> {
        entry_models(self.entries@)
    }
}

impl<V: View> TextMap<V> {
    #[verifier::type_invariant]
    spec fn ordered(self) -> bool {
        keys_ascend(entry_models(self.entries@))
    }

    /// The empty map.
    pub fn new() -> (r: TextMap<V>)
        ensures
            r@ == Seq::<(Seq<char>, V::V)>::empty(),
    {
        let r = TextMap { entries: Vec::new() };
        assert(r@ =~= Seq::<(Seq<char>, V::V)>::empty());
        r
    }

    /// How many entries there are. Their keys are strictly ascending, whatever
    /// the map holds.
    pub fn len(&self) -> (r: usize)
        ensures
            r == self@.len(),
            keys_ascend(self@),
    {
        proof {
            use_type_invariant(self);
        }
        self.entries.len()
    }

    /// The `i`-th key in ascending order.
    pub fn key(&self, i: usize) -> (r: &str)
        requires
            i < self@.len(),
        ensures
            r@ == self@[i as int].0,
    {
        self.entries[i].0.as_str()
    }

    /// The value under the `i`-th key in ascending order.
    pub fn value(&self, i: usize) -> (r: &V)
        requires
            i < self@.len(),
        ensures
            r@ == self@[i as int].1,
    {
        &self.entries[i].1
    }

    /// Binds `key` to `value`, in place of an earlier value if there is one.
    pub fn insert(&mut self, key: String, value: V)
        ensures
            final(self)@ == bound(old(self)@, key@, value@),
    {
        proof {
            use_type_invariant(&*self);
        }
        let mut entries: Vec<(String, V)> = Vec::new();
        std::mem::swap(&mut entries, &mut self.entries);
        let ghost all = entry_models(entries@);
        let ghost k0 = key@;
        let ghost v0 = value@;
        let mut k: usize = entries.len();
        let ghost tail = Seq::<(Seq<char>, V::V)>::empty();
        proof {
            assert(all.take(all.len() as int) == all);
            assert(all.skip(all.len() as int) =~= Seq::empty());
        }
        while k > 0 && !is_text_le(entries[k - 1].0.as_str(), key.as_str())
            invariant
                k <= entries.len(),
                all == entry_models(entries@),
                k0 == key@,
                bound(all, k0, v0) == bound(all.take(k as int), k0, v0) + all.skip(k as int),
            decreases k,
        {
            proof {
                let t = all.take(k as int);
                assert(t.last() == all[k - 1]);
                assert(t.drop_last() == all.take(k - 1));
                law_text_le_total(k0, k0);
                assert(bound(t, k0, v0) == bound(t.drop_last(), k0, v0).push(t.last()));
                assert(bound(all, k0, v0) =~= bound(all.take(k - 1), k0, v0) + all.skip(k - 1));
            }
            k -= 1;
        }
        proof {
            let t = all.take(k as int);
            if k > 0 {
                assert(t.last() == all[k - 1]);
            }
        }
        if k > 0 && same_text(entries[k - 1].0.as_str(), key.as_str()) {
            let ghost t = all.take(k as int);
            entries[k - 1] = (key, value);
            proof {
                assert(entry_models(entries@) =~= t.drop_last().push((k0, v0)) + all.skip(k as int));
            }
        } else {
            entries.insert(k, (key, value));
            proof {
                assert(entry_models(entries@) =~= all.take(k as int).push((k0, v0)) + all.skip(k as int));
                if k == 0 {
                    assert(all.take(0) =~= Seq::empty());
                }
            }
        }
        proof {
            law_bound_keeps_order(all, k0, v0);
        }
        self.entries = entries;
    }
}

impl<V: View> Default for TextMap<V> {
    fn default() -> (r: TextMap<V>)
        ensures
            r@ == Seq::<(Seq<char>, V::V)>::empty(),
    {
        TextMap::new()
    }
}

impl Clone for TextMap<String> {
    fn clone(&self) -> (r: TextMap<String>)
        ensures
            r@ == self@,
    {
        proof {
            use_type_invariant(self);
        }
        let mut entries: Vec<(String, String)> = Vec::new();
        for i in 0..self.entries.len()
            invariant
                entry_models(entries@) == entry_models(self.entries@).take(i as int),
        {
            let ghost before = entry_models(entries@);
            entries.push((self.entries[i].0.clone(), self.entries[i].1.clone()));
            proof {
                let e = entry_models(self.entries@)[i as int];
                assert(entry_models(entries@) =~= before.push(e));
                assert(entry_models(self.entries@).take(i + 1) =~= before.push(e));
            }
        }
        proof {
            assert(entry_models(self.entries@).take(self.entries@.len() as int) == entry_models(self.entries@));
        }
        TextMap { entries }
    }
}

} // verus!
