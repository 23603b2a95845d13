//! A map from text to text that iterates in key order: the shape of the
//! per-language release notes (`{"en": "...", "ru": "..."}`), where which
//! language comes first is part of what the notes mean.
//!
//! Held as its entries sorted strictly by key, so the model is exactly what
//! iterating it yields.
use vstd::prelude::*;
use crate::order::{lemma_lex_asymmetric, lemma_lex_irreflexive, lemma_lex_total, lemma_lex_transitive, lex_less, lex_lt};
use crate::text::{chars_eq, chars_of};

verus! {

/// Entries in the order a map of this kind yields them.
pub type Entries = Seq<(Seq<char>, Seq<char>)>;

/// Every key sorts strictly before the keys after it.
pub open spec fn sorted_keys(s: Entries) -> bool {
    forall|i: int, j: int| 0 <= i < j < s.len() ==> lex_lt(#[trigger] s[i].0, #[trigger] s[j].0)
}

/// The entries after `k` is set to `v`: its value replaced when the key is
/// there, otherwise a new entry in key order.
pub open spec fn map_insert(s: Entries, k: Seq<char>, v: Seq<char>) -> Entries
    decreases s.len(),
{
    if s.len() == 0 {
        seq![(k, v)]
    } else if s[0].0 == k {
        seq![(k, v)] + s.drop_first()
    } else if lex_lt(k, s[0].0) {
        seq![(k, v)] + s
    } else {
        seq![s[0]] + map_insert(s.drop_first(), k, v)
    }
}

/// The value stored under `k`, if any.
pub open spec fn lookup(s: Entries, k: Seq<char>) -> Option<Seq<char>>
    decreases s.len(),
{
    if s.len() == 0 {
        None
    } else if s[0].0 == k {
        Some(s[0].1)
    } else {
        lookup(s.drop_first(), k)
    }
}

proof fn lemma_insert_lower_bound(s: Entries, k: Seq<char>, v: Seq<char>, x: Seq<char>)
    requires
        lex_lt(x, k),
        forall|m: int| 0 <= m < s.len() ==> lex_lt(x, #[trigger] s[m].0),
    ensures
        forall|j: int|
            0 <= j < map_insert(s, k, v).len() ==> lex_lt(x, #[trigger] map_insert(s, k, v)[j].0),
    decreases s.len(),
{
    if s.len() > 0 && s[0].0 != k && !lex_lt(k, s[0].0) {
        let t = s.drop_first();
        assert forall|m: int| 0 <= m < t.len() implies lex_lt(x, #[trigger] t[m].0) by {
            assert(t[m] == s[m + 1]);
        }
        lemma_insert_lower_bound(t, k, v, x);
        let r = map_insert(s, k, v);
        assert forall|j: int| 0 <= j < r.len() implies lex_lt(x, #[trigger] r[j].0) by {
            if j > 0 {
                assert(r[j] == map_insert(t, k, v)[j - 1]);
            }
        }
    }
}

/// Setting a key keeps the keys sorted.
pub proof fn lemma_insert_sorted(s: Entries, k: Seq<char>, v: Seq<char>)
    requires
        sorted_keys(s),
    ensures
        sorted_keys(map_insert(s, k, v)),
        map_insert(s, k, v).len() > 0,
    decreases s.len(),
{
    let r = map_insert(s, k, v);
    if s.len() == 0 {
    } else if s[0].0 == k {
        assert forall|i: int, j: int| 0 <= i < j < r.len() implies lex_lt(
            #[trigger] r[i].0,
            #[trigger] r[j].0,
        ) by {
            assert(r[j] == s[j]);
            if i > 0 {
                assert(r[i] == s[i]);
            }
        }
    } else if lex_lt(k, s[0].0) {
        assert forall|i: int, j: int| 0 <= i < j < r.len() implies lex_lt(
            #[trigger] r[i].0,
            #[trigger] r[j].0,
        ) by {
            assert(r[j] == s[j - 1]);
            if i > 0 {
                assert(r[i] == s[i - 1]);
            } else if j - 1 > 0 {
                lemma_lex_transitive(k, s[0].0, s[j - 1].0);
            }
        }
    } else {
        let t = s.drop_first();
        assert(sorted_keys(t)) by {
            assert forall|i: int, j: int| 0 <= i < j < t.len() implies lex_lt(
                #[trigger] t[i].0,
                #[trigger] t[j].0,
            ) by {
                assert(t[i] == s[i + 1]);
                assert(t[j] == s[j + 1]);
            }
        }
        lemma_insert_sorted(t, k, v);
        lemma_lex_total(s[0].0, k);
        assert forall|m: int| 0 <= m < t.len() implies lex_lt(s[0].0, #[trigger] t[m].0) by {
            assert(t[m] == s[m + 1]);
        }
        lemma_insert_lower_bound(t, k, v, s[0].0);
        let rt = map_insert(t, k, v);
        assert forall|i: int, j: int| 0 <= i < j < r.len() implies lex_lt(
            #[trigger] r[i].0,
            #[trigger] r[j].0,
        ) by {
            assert(r[j] == rt[j - 1]);
            if i > 0 {
                assert(r[i] == rt[i - 1]);
            }
        }
    }
}

/// After `k` is set to `v`, looking `k` up gives `v`, and every other key
/// gives what it gave before.
pub proof fn lemma_lookup_after_insert(s: Entries, k: Seq<char>, v: Seq<char>, other: Seq<char>)
    ensures
        lookup(map_insert(s, k, v), k) == Some(v),
        other != k ==> lookup(map_insert(s, k, v), other) == lookup(s, other),
    decreases s.len(),
{
    let r = map_insert(s, k, v);
    if s.len() == 0 {
        assert(r[0] == (k, v));
        assert(r.drop_first() =~= Seq::<(Seq<char>, Seq<char>)>::empty());
    } else if s[0].0 == k {
        assert(r[0] == (k, v));
        assert(r.drop_first() =~= s.drop_first());
    } else if lex_lt(k, s[0].0) {
        assert(r[0] == (k, v));
        assert(r.drop_first() =~= s);
    } else {
        lemma_lookup_after_insert(s.drop_first(), k, v, other);
        assert(r[0] == s[0]);
        assert(r.drop_first() =~= map_insert(s.drop_first(), k, v));
        if other != k {
            if s[0].0 == other {
                assert(lookup(r, other) == Some(s[0].1));
            } else {
                assert(lookup(r, other) == lookup(r.drop_first(), other));
            }
        }
    }
}

/// A text-to-text map that iterates in key order.
pub struct TextMap {
    entries: Vec<(String, String)>,
}

impl View for TextMap {
    type V = Entries;

    closed spec fn view(&self) -> Entries {
        self.entries@.map_values(|e: (String, String)| (e.0@, e.1@))
    }
}

impl TextMap {
    /// The map's entries stay sorted strictly by key.
    #[verifier::type_invariant]
    spec fn sorted(&self) -> bool {
        sorted_keys(self@)
    }

    /// An empty map.
    pub fn new() -> (m: Self)
        ensures
            m@ == Seq::<(Seq<char>, Seq<char>)>::empty(),
    {
        let m = TextMap { entries: Vec::new() };
        proof {
            assert(m@ =~= Seq::<(Seq<char>, Seq<char>)>::empty());
        }
        m
    }

    /// How many entries the map holds.
    pub fn len(&self) -> (n: usize)
        ensures
            n == self@.len(),
    {
        self.entries.len()
    }

    /// Whether the map holds nothing.
    pub fn is_empty(&self) -> (b: bool)
        ensures
            b == (self@.len() == 0),
    {
        self.entries.len() == 0
    }

    /// The `i`-th entry in key order.
    pub fn entry(&self, i: usize) -> (e: (&String, &String))
        requires
            i < self@.len(),
        ensures
            e.0@ == self@[i as int].0,
            e.1@ == self@[i as int].1,
    {
        let e = &self.entries[i];
        (&e.0, &e.1)
    }

    /// Set `key` to `value`: replaces the value of a key that is there, and
    /// otherwise adds the entry in key order.
    pub fn insert(&mut self, key: String, value: String)
        ensures
            sorted_keys(final(self)@),
            final(self)@ == map_insert(old(self)@, key@, value@),
    {
        proof {
            use_type_invariant(&*self);
        }
        let ghost s = self@;
        let ghost k = key@;
        let ghost v = value@;
        let kc = chars_of(key.as_str());
        let mut i: usize = 0;
        proof {
            assert(s.take(0) + s.skip(0) =~= s);
        }
        while i < self.entries.len() && lex_less(&chars_of(self.entries[i].0.as_str()), &kc)
            invariant
                i <= self.entries.len() == s.len(),
                self@ == s,
                sorted_keys(s),
                kc@ == k,
                forall|j: int| 0 <= j < i ==> lex_lt(#[trigger] s[j].0, k),
                map_insert(s, k, v) == s.take(i as int) + map_insert(s.skip(i as int), k, v),
            decreases s.len() - i,
        {
            proof {
                let t = s.skip(i as int);
                assert(t[0] == s[i as int]);
                lemma_lex_asymmetric(s[i as int].0, k);
                lemma_lex_irreflexive(k);
                assert(t.drop_first() =~= s.skip(i + 1));
                assert(s.take(i as int) + seq![s[i as int]] =~= s.take(i + 1));
                assert(map_insert(t, k, v) == seq![t[0]] + map_insert(t.drop_first(), k, v));
                assert(s.take(i as int) + (seq![s[i as int]] + map_insert(s.skip(i + 1), k, v))
                    =~= s.take(i + 1) + map_insert(s.skip(i + 1), k, v));
            }
            i += 1;
        }
        let ghost f = |e: (String, String)| (e.0@, e.1@);
        let mut entries: Vec<(String, String)> = Vec::new();
        std::mem::swap(&mut entries, &mut self.entries);
        assert(entries@.map_values(|e: (String, String)| (e.0@, e.1@)) == s);
        if i < entries.len() && chars_eq(&chars_of(entries[i].0.as_str()), &kc) {
            proof {
                let t = s.skip(i as int);
                assert(t[0] == s[i as int]);
                assert(t.drop_first() =~= s.skip(i + 1));
                assert(s.take(i as int) + (seq![(k, v)] + s.skip(i + 1)) =~= s.update(
                    i as int,
                    (k, v),
                ));
            }
            entries.set(i, (key, value));
            proof {
                assert(entries@.map_values(|e: (String, String)| (e.0@, e.1@)) =~= s.update(i as int, (k, v)));
                lemma_insert_sorted(s, k, v);
            }
            self.entries = entries;
        } else {
            proof {
                let t = s.skip(i as int);
                if i < s.len() {
                    assert(t[0] == s[i as int]);
                    lemma_lex_total(s[i as int].0, k);
                    assert(lex_lt(k, t[0].0));
                    assert(s.take(i as int) + (seq![(k, v)] + t) =~= s.insert(i as int, (k, v)));
                } else {
                    assert(t.len() == 0);
                    assert(s.take(i as int) + seq![(k, v)] =~= s.insert(i as int, (k, v)));
                }
            }
            entries.insert(i, (key, value));
            proof {
                assert(entries@.map_values(|e: (String, String)| (e.0@, e.1@)) =~= s.insert(i as int, (k, v)));
                lemma_insert_sorted(s, k, v);
            }
            self.entries = entries;
        }
    }

    /// The value stored under `key`, if any.
    pub fn get(&self, key: &[char]) -> (r: Option<&String>)
        ensures
            match r {
                Some(val) => lookup(self@, key@) == Some(val@),
                None => lookup(self@, key@) is None,
            },
    {
        let ghost s = self@;
        let mut i: usize = 0;
        proof {
            assert(s.skip(0) =~= s);
        }
        while i < self.entries.len()
            invariant
                i <= self.entries.len() == s.len(),
                self@ == s,
                lookup(s, key@) == lookup(s.skip(i as int), key@),
            decreases s.len() - i,
        {
            proof {
                let t = s.skip(i as int);
                assert(t[0] == s[i as int]);
                assert(t.drop_first() =~= s.skip(i + 1));
            }
            if chars_eq(&chars_of(self.entries[i].0.as_str()), key) {
                return Some(&self.entries[i].1);
            }
            i += 1;
        }
        None
    }
}

} // verus!
