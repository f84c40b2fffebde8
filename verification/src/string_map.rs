//! An ordered association of string keys to string values.
//!
//! This is the in-memory shape of both the decrypted secret map and a
//! resolved environment. Entries are kept strictly sorted by key in
//! lexicographic order, which makes keys unique, listing deterministic and
//! the byte encoding of a map canonical. The abstract value of a map is a
//! `Map<Seq<char>, Seq<char>>`, reached through `view` (`@`).

use vstd::prelude::*;
use vstd::pervasive::VecAdditionalExecFns;
use vstd::string::StringExecFns;
use crate::order::{lex_lt, lemma_lex_trichotomy, lemma_lex_trans, string_lt, str_eq_string};

verus! {

/// The mathematical map described by two parallel columns of entries.
pub open spec fn seq_map(keys: Seq<Seq<char>>, vals: Seq<Seq<char>>) -> Map<Seq<char>, Seq<char>>
    decreases keys.len(),
{
    if keys.len() == 0 || vals.len() == 0 {
        Map::empty()
    } else {
        seq_map(keys.drop_last(), vals.drop_last()).insert(keys.last(), vals.last())
    }
}

/// No key occurs twice.
pub open spec fn distinct_keys(keys: Seq<Seq<char>>) -> bool {
    forall|i: int, j: int| 0 <= i < j < keys.len() ==> keys[i] != keys[j]
}

/// Keys grow strictly in lexicographic order.
pub open spec fn strictly_sorted(keys: Seq<Seq<char>>) -> bool {
    forall|i: int, j: int| 0 <= i < j < keys.len() ==> lex_lt(keys[i], keys[j])
}

/// Strictly sorted columns have no repeated key.
pub proof fn lemma_sorted_distinct(keys: Seq<Seq<char>>)
    requires
        strictly_sorted(keys),
    ensures
        distinct_keys(keys),
{
    assert forall|i: int, j: int| 0 <= i < j < keys.len() implies keys[i] != keys[j] by {
        lemma_lex_trichotomy(keys[i], keys[j]);
    }
}

/// What `seq_map` holds, entry by entry: its domain is exactly the keys
/// column, and each key maps to the value beside it.
pub proof fn lemma_seq_map_entries(keys: Seq<Seq<char>>, vals: Seq<Seq<char>>)
    requires
        keys.len() == vals.len(),
        distinct_keys(keys),
    ensures
        forall|k: Seq<char>|
            seq_map(keys, vals).contains_key(k) <==> exists|i: int|
                0 <= i < keys.len() && keys[i] == k,
        forall|i: int|
            0 <= i < keys.len() ==> seq_map(keys, vals).contains_key(keys[i]) && seq_map(
                keys,
                vals,
            )[keys[i]] == vals[i],
    decreases keys.len(),
{
    if keys.len() > 0 {
        lemma_seq_map_entries(keys.drop_last(), vals.drop_last());
        assert forall|k: Seq<char>| seq_map(keys, vals).contains_key(k) implies exists|i: int|
            0 <= i < keys.len() && keys[i] == k by {
            if k == keys.last() {
                assert(keys[keys.len() - 1] == k);
            } else {
                assert(seq_map(keys.drop_last(), vals.drop_last()).contains_key(k));
                let i = choose|i: int| 0 <= i < keys.drop_last().len() && keys.drop_last()[i] == k;
                assert(keys.drop_last()[i] == keys[i]);
                assert(keys[i] == k);
            }
        }
        assert forall|i: int| 0 <= i < keys.len() implies seq_map(keys, vals).contains_key(keys[i])
            && seq_map(keys, vals)[keys[i]] == vals[i] by {
            if i < keys.len() - 1 {
                assert(keys.drop_last()[i] == keys[i]);
                assert(vals.drop_last()[i] == vals[i]);
                assert(seq_map(keys.drop_last(), vals.drop_last()).contains_key(
                    keys.drop_last()[i],
                ));
                assert(seq_map(keys.drop_last(), vals.drop_last())[keys.drop_last()[i]]
                    == vals.drop_last()[i]);
                assert(keys[i] != keys.last());
            }
        }
        assert forall|k: Seq<char>|
            (exists|i: int| 0 <= i < keys.len() && keys[i] == k) implies seq_map(
            keys,
            vals,
        ).contains_key(k) by {
            let i = choose|i: int| 0 <= i < keys.len() && keys[i] == k;
            if i < keys.len() - 1 {
                assert(keys.drop_last()[i] == k);
                assert(seq_map(keys.drop_last(), vals.drop_last()).contains_key(k));
            }
        }
    }
}

/// An ordered map from secret names to secret values.
#[derive(Debug)]
pub struct StringMap {
    keys: Vec<String>,
    vals: Vec<String>,
}

impl View for StringMap {
    type V = Map<Seq<char>, Seq<char>>;

    closed spec fn view(&self) -> Map<Seq<char>, Seq<char>> {
        seq_map(self.key_seq(), self.val_seq())
    }
}

impl StringMap {
    /// The keys column, as character sequences.
    pub closed spec fn key_seq(&self) -> Seq<Seq<char>> {
        self.keys@.map_values(|k: String| k@)
    }

    /// The values column, as character sequences.
    pub closed spec fn val_seq(&self) -> Seq<Seq<char>> {
        self.vals@.map_values(|v: String| v@)
    }

    /// Well-formed: one value per key, keys strictly sorted.
    pub closed spec fn wf(&self) -> bool {
        &&& self.keys@.len() == self.vals@.len()
        &&& strictly_sorted(self.key_seq())
    }

    /// The shape facts a well-formed map guarantees.
    pub proof fn lemma_wf_facts(&self)
        requires
            self.wf(),
        ensures
            self.key_seq().len() == self.val_seq().len(),
            strictly_sorted(self.key_seq()),
            distinct_keys(self.key_seq()),
            self@ == seq_map(self.key_seq(), self.val_seq()),
    {
        lemma_sorted_distinct(self.key_seq());
    }

    /// Every entry of a well-formed map is in its abstract value.
    pub proof fn lemma_entries(&self)
        requires
            self.wf(),
        ensures
            forall|k: Seq<char>|
                self@.contains_key(k) <==> exists|i: int|
                    0 <= i < self.key_seq().len() && self.key_seq()[i] == k,
            forall|i: int|
                0 <= i < self.key_seq().len() ==> self@.contains_key(self.key_seq()[i])
                    && self@[self.key_seq()[i]] == self.val_seq()[i],
    {
        lemma_sorted_distinct(self.key_seq());
        lemma_seq_map_entries(self.key_seq(), self.val_seq());
    }

    /// A fresh, empty map.
    pub fn new() -> (r: StringMap)
        ensures
            r.wf(),
            r@ == Map::<Seq<char>, Seq<char>>::empty(),
            r.key_seq().len() == 0,
    {
        let r = StringMap { keys: Vec::new(), vals: Vec::new() };
        proof {
            assert(r.key_seq() =~= Seq::<Seq<char>>::empty());
            assert(r.val_seq() =~= Seq::<Seq<char>>::empty());
        }
        r
    }

    /// How many entries the map holds.
    pub fn len(&self) -> (n: usize)
        requires
            self.wf(),
        ensures
            n == self.key_seq().len(),
            n == self@.dom().len(),
    {
        proof {
            self.lemma_dom_len();
        }
        self.keys.len()
    }

    /// The abstract domain is exactly as large as the keys column.
    pub proof fn lemma_dom_len(&self)
        requires
            self.wf(),
        ensures
            self@.dom().len() == self.key_seq().len(),
            self@.dom().finite(),
    {
        lemma_sorted_distinct(self.key_seq());
        lemma_seq_map_dom_len(self.key_seq(), self.val_seq());
    }

    /// The key at an entry position.
    pub fn key_at(&self, i: usize) -> (k: &String)
        requires
            self.wf(),
            i < self.key_seq().len(),
        ensures
            k@ == self.key_seq()[i as int],
    {
        &self.keys[i]
    }

    /// The value at an entry position.
    pub fn val_at(&self, i: usize) -> (v: &String)
        requires
            self.wf(),
            i < self.key_seq().len(),
        ensures
            v@ == self.val_seq()[i as int],
    {
        &self.vals[i]
    }

    /// The position of a key, if the map holds it.
    fn find(&self, key: &str) -> (r: Option<usize>)
        requires
            self.wf(),
        ensures
            match r {
                Some(i) => i < self.key_seq().len() && self.key_seq()[i as int] == key@,
                None => forall|i: int| 0 <= i < self.key_seq().len() ==> self.key_seq()[i] != key@,
            },
    {
        let n = self.keys.len();
        let mut i: usize = 0;
        while i < n
            invariant
                0 <= i <= n,
                n == self.keys@.len(),
                self.wf(),
                forall|j: int| 0 <= j < i ==> self.key_seq()[j] != key@,
            decreases n - i,
        {
            if str_eq_string(key, &self.keys[i]) {
                return Some(i);
            }
            i = i + 1;
        }
        None
    }

    /// Looks a key up; `Some` exactly when the map holds it.
    pub fn get(&self, key: &str) -> (r: Option<&String>)
        requires
            self.wf(),
        ensures
            match r {
                Some(v) => self@.contains_key(key@) && v@ == self@[key@],
                None => !self@.contains_key(key@),
            },
    {
        proof {
            self.lemma_entries();
        }
        match self.find(key) {
            Some(i) => {
                proof {
                    assert(self@.contains_key(key@));
                    assert(self@[self.key_seq()[i as int]] == self.val_seq()[i as int]);
                }
                Some(&self.vals[i])
            },
            None => {
                proof {
                    if self@.contains_key(key@) {
                        let i = choose|i: int|
                            0 <= i < self.key_seq().len() && self.key_seq()[i] == key@;
                        assert(self.key_seq()[i] == key@);
                    }
                }
                None
            },
        }
    }

    /// Whether the map holds a key.
    pub fn contains(&self, key: &str) -> (r: bool)
        requires
            self.wf(),
        ensures
            r == self@.contains_key(key@),
    {
        match self.get(key) {
            Some(_) => true,
            None => false,
        }
    }

    /// Binds a key to a value, replacing any previous binding.
    pub fn insert(&mut self, key: String, value: String)
        requires
            old(self).wf(),
        ensures
            final(self).wf(),
            final(self)@ == old(self)@.insert(key@, value@),
    {
        proof {
            self.lemma_entries();
        }
        let ghost old_keys = self.key_seq();
        let ghost old_vals = self.val_seq();
        let n = self.keys.len();
        let mut i: usize = 0;
        while i < n && string_lt(&self.keys[i], &key)
            invariant
                0 <= i <= n,
                n == self.keys@.len(),
                self.wf(),
                self.key_seq() == old_keys,
                self.val_seq() == old_vals,
                forall|j: int| 0 <= j < i ==> lex_lt(self.key_seq()[j], key@),
            decreases n - i,
        {
            i = i + 1;
        }
        // here: every key before position i is below `key`, and if i is a
        // real position, keys[i] is not below `key`.
        if i < n && str_eq_string(key.as_str(), &self.keys[i]) {
            self.vals.set(i, value);
            proof {
                assert(self.key_seq() =~= old_keys);
                assert(self.val_seq() =~= old_vals.update(i as int, value@));
                lemma_sorted_distinct(old_keys);
                lemma_seq_map_entries(self.key_seq(), self.val_seq());
                assert forall|k: Seq<char>| #[trigger] old(self)@.insert(key@, value@).contains_key(
                    k,
                ) implies self@.contains_key(k) by {
                    if k == key@ {
                        assert(self.key_seq()[i as int] == k);
                    } else {
                        let j = choose|j: int| 0 <= j < old_keys.len() && old_keys[j] == k;
                        assert(self.key_seq()[j] == k);
                    }
                }
                assert forall|k: Seq<char>| #[trigger] self@.contains_key(k) implies old(
                    self,
                )@.insert(key@, value@).contains_key(k) && self@[k] == old(self)@.insert(
                    key@,
                    value@,
                )[k] by {
                    let j = choose|j: int|
                        0 <= j < self.key_seq().len() && self.key_seq()[j] == k;
                    if j == i {
                        assert(k == key@);
                        assert(self@[k] == self.val_seq()[j]);
                        assert(self.val_seq()[j] == value@);
                    } else {
                        assert(old_keys[j] == k);
                        assert(old_keys[i as int] == key@);
                        assert(k != key@);
                        assert(old(self)@[k] == old_vals[j]);
                        assert(self@[k] == self.val_seq()[j]);
                        assert(self.val_seq()[j] == old_vals[j]);
                    }
                }
                assert(self@ =~= old(self)@.insert(key@, value@));
            }
        } else {
            proof {
                old_keys.insert_ensures(i as int, key@);
                old_vals.insert_ensures(i as int, value@);
                if i < n {
                    assert(key@ != old_keys[i as int]);
                    lemma_lex_trichotomy(old_keys[i as int], key@);
                    assert(lex_lt(key@, old_keys[i as int]));
                }
                assert forall|j: int| i <= j < old_keys.len() implies lex_lt(
                    key@,
                    #[trigger] old_keys[j],
                ) by {
                    if j > i {
                        lemma_lex_trans(key@, old_keys[i as int], old_keys[j]);
                    }
                }
            }
            self.keys.insert(i, key);
            self.vals.insert(i, value);
            proof {
                assert(self.key_seq() =~= old_keys.insert(i as int, key@));
                assert(self.val_seq() =~= old_vals.insert(i as int, value@));
                let ks = self.key_seq();
                assert forall|p: int, q: int| 0 <= p < q < ks.len() implies lex_lt(
                    ks[p],
                    ks[q],
                ) by {
                    if q < i {
                        assert(ks[p] == old_keys[p] && ks[q] == old_keys[q]);
                    } else if q == i {
                        assert(ks[p] == old_keys[p] && ks[q] == key@);
                    } else if p < i {
                        assert(ks[p] == old_keys[p] && ks[q] == old_keys[q - 1]);
                        if p < q - 1 {
                            assert(lex_lt(old_keys[p], old_keys[q - 1]));
                        }
                    } else if p == i {
                        assert(ks[p] == key@ && ks[q] == old_keys[q - 1]);
                    } else {
                        assert(ks[p] == old_keys[p - 1] && ks[q] == old_keys[q - 1]);
                    }
                }
                lemma_sorted_distinct(ks);
                lemma_seq_map_entries(self.key_seq(), self.val_seq());
                lemma_sorted_distinct(old_keys);
                assert forall|k: Seq<char>| #[trigger] old(self)@.insert(key@, value@).contains_key(
                    k,
                ) implies self@.contains_key(k) by {
                    if k == key@ {
                        assert(self.key_seq()[i as int] == k);
                    } else {
                        let j = choose|j: int| 0 <= j < old_keys.len() && old_keys[j] == k;
                        if j < i {
                            assert(self.key_seq()[j] == k);
                        } else {
                            assert(self.key_seq()[j + 1] == k);
                        }
                    }
                }
                assert forall|k: Seq<char>| #[trigger] self@.contains_key(k) implies old(
                    self,
                )@.insert(key@, value@).contains_key(k) && self@[k] == old(self)@.insert(
                    key@,
                    value@,
                )[k] by {
                    let j = choose|j: int|
                        0 <= j < self.key_seq().len() && self.key_seq()[j] == k;
                    if j == i {
                        assert(k == key@);
                        assert(self@[k] == self.val_seq()[j]);
                        assert(self.val_seq()[j] == value@);
                    } else if j < i {
                        assert(old_keys[j] == k);
                        lemma_lex_trichotomy(old_keys[j], key@);
                        assert(k != key@);
                        assert(old(self)@[k] == old_vals[j]);
                        assert(self@[k] == self.val_seq()[j]);
                        assert(self.val_seq()[j] == old_vals[j]);
                    } else {
                        assert(old_keys[j - 1] == k);
                        lemma_lex_trichotomy(key@, old_keys[j - 1]);
                        assert(k != key@);
                        assert(old(self)@[k] == old_vals[j - 1]);
                        assert(self@[k] == self.val_seq()[j]);
                        assert(self.val_seq()[j] == old_vals[j - 1]);
                    }
                }
                assert(self@ =~= old(self)@.insert(key@, value@));
            }
        }
    }

    /// Unbinds a key; reports whether the map held it.
    pub fn remove(&mut self, key: &str) -> (r: bool)
        requires
            old(self).wf(),
        ensures
            final(self).wf(),
            r == old(self)@.contains_key(key@),
            final(self)@ == old(self)@.remove(key@),
    {
        proof {
            self.lemma_entries();
        }
        let ghost old_keys = self.key_seq();
        let ghost old_vals = self.val_seq();
        match self.find(key) {
            Some(i) => {
                self.keys.remove(i);
                self.vals.remove(i);
                proof {
                    assert(self.key_seq() =~= old_keys.remove(i as int));
                    assert(self.val_seq() =~= old_vals.remove(i as int));
                    assert forall|p: int, q: int|
                        0 <= p < q < self.key_seq().len() implies lex_lt(
                        self.key_seq()[p],
                        self.key_seq()[q],
                    ) by {
                        assert(self.key_seq()[p] == old_keys[if p < i {
                            p
                        } else {
                            p + 1
                        }]);
                        assert(self.key_seq()[q] == old_keys[if q < i {
                            q
                        } else {
                            q + 1
                        }]);
                    }
                    lemma_sorted_distinct(self.key_seq());
                    lemma_seq_map_entries(self.key_seq(), self.val_seq());
                    lemma_sorted_distinct(old_keys);
                    assert forall|k: Seq<char>| #[trigger] self@.contains_key(k) implies old(
                        self,
                    )@.remove(key@).contains_key(k) && self@[k] == old(self)@.remove(key@)[k] by {
                        let j = choose|j: int|
                            0 <= j < self.key_seq().len() && self.key_seq()[j] == k;
                        let jo: int = if j < i {
                            j
                        } else {
                            j + 1
                        };
                        assert(old_keys[jo] == k);
                        assert(k != key@);
                        assert(old(self)@[k] == old_vals[jo]);
                        assert(self@[k] == self.val_seq()[j]);
                    }
                    assert forall|k: Seq<char>| #[trigger] old(self)@.remove(key@).contains_key(
                        k,
                    ) implies self@.contains_key(k) by {
                        let j = choose|j: int|
                            0 <= j < old_keys.len() && old_keys[j] == k;
                        assert(j != i);
                        if j < i {
                            assert(self.key_seq()[j] == k);
                        } else {
                            assert(self.key_seq()[j - 1] == k);
                        }
                    }
                    assert(self@ =~= old(self)@.remove(key@));
                }
                true
            },
            None => {
                proof {
                    assert(!old(self)@.contains_key(key@));
                    assert(self@ =~= old(self)@.remove(key@));
                }
                false
            },
        }
    }

    /// All keys, in their stored (strictly ascending) order.
    pub fn keys_sorted(&self) -> (r: Vec<String>)
        requires
            self.wf(),
        ensures
            r@.len() == self.key_seq().len(),
            forall|i: int| 0 <= i < r@.len() ==> r@[i]@ == self.key_seq()[i],
            forall|i: int, j: int| 0 <= i < j < r@.len() ==> lex_lt(r@[i]@, r@[j]@),
            forall|i: int| 0 <= i < r@.len() ==> self@.contains_key(r@[i]@),
            forall|k: Seq<char>|
                self@.contains_key(k) ==> exists|i: int| 0 <= i < r@.len() && r@[i]@ == k,
    {
        proof {
            self.lemma_entries();
        }
        let n = self.keys.len();
        let mut r: Vec<String> = Vec::new();
        let mut i: usize = 0;
        while i < n
            invariant
                0 <= i <= n,
                n == self.keys@.len(),
                self.wf(),
                r@.len() == i,
                forall|j: int| 0 <= j < i ==> r@[j]@ == self.key_seq()[j],
            decreases n - i,
        {
            r.push(self.keys[i].clone());
            i = i + 1;
        }
        proof {
            assert forall|p: int, q: int| 0 <= p < q < r@.len() implies lex_lt(r@[p]@, r@[q]@) by {
                assert(r@[p]@ == self.key_seq()[p]);
                assert(r@[q]@ == self.key_seq()[q]);
            }
            assert forall|p: int| 0 <= p < r@.len() implies self@.contains_key(r@[p]@) by {
                assert(self@.contains_key(self.key_seq()[p]));
            }
            assert forall|k: Seq<char>| self@.contains_key(k) implies exists|j: int|
                0 <= j < r@.len() && r@[j]@ == k by {
                let j = choose|j: int|
                    0 <= j < self.key_seq().len() && self.key_seq()[j] == k;
                assert(r@[j]@ == k);
            }
        }
        r
    }

    /// An independent copy with the same entries.
    pub fn duplicate(&self) -> (r: StringMap)
        requires
            self.wf(),
        ensures
            r.wf(),
            r@ == self@,
            r.key_seq() == self.key_seq(),
            r.val_seq() == self.val_seq(),
    {
        let n = self.keys.len();
        let mut keys: Vec<String> = Vec::new();
        let mut vals: Vec<String> = Vec::new();
        let mut i: usize = 0;
        while i < n
            invariant
                0 <= i <= n,
                n == self.keys@.len(),
                self.wf(),
                keys@.len() == i,
                vals@.len() == i,
                forall|j: int| 0 <= j < i ==> keys@[j]@ == self.key_seq()[j],
                forall|j: int| 0 <= j < i ==> vals@[j]@ == self.val_seq()[j],
            decreases n - i,
        {
            keys.push(self.keys[i].clone());
            vals.push(self.vals[i].clone());
            i = i + 1;
        }
        let r = StringMap { keys, vals };
        proof {
            assert(r.key_seq() =~= self.key_seq());
            assert(r.val_seq() =~= self.val_seq());
        }
        r
    }

    /// Rebuilds a map from its two columns, accepting exactly the
    /// well-formed ones: equal lengths and strictly ascending keys.
    pub fn from_columns(keys: Vec<String>, vals: Vec<String>) -> (r: Option<StringMap>)
        ensures
            match r {
                Some(m) => {
                    &&& m.wf()
                    &&& m.key_seq() == keys@.map_values(|k: String| k@)
                    &&& m.val_seq() == vals@.map_values(|v: String| v@)
                },
                None => keys@.len() != vals@.len() || !strictly_sorted(
                    keys@.map_values(|k: String| k@),
                ),
            },
    {
        if keys.len() != vals.len() {
            return None;
        }
        let ghost ks = keys@.map_values(|k: String| k@);
        let n = keys.len();
        if n > 1 {
            let mut i: usize = 0;
            while i < n - 1
                invariant
                    0 <= i <= n - 1,
                    n >= 1,
                    n == keys@.len(),
                    ks == keys@.map_values(|k: String| k@),
                    forall|j: int| 0 <= j < i ==> lex_lt(#[trigger] ks[j], ks[j + 1]),
                decreases n - i,
            {
                if !string_lt(&keys[i], &keys[i + 1]) {
                    proof {
                        if strictly_sorted(ks) {
                            assert(lex_lt(ks[i as int], ks[i as int + 1]));
                        }
                    }
                    return None;
                }
                i = i + 1;
            }
        }
        proof {
            lemma_adjacent_sorted(ks);
        }
        let m = StringMap { keys, vals };
        proof {
            assert(m.key_seq() =~= ks);
            assert(m.val_seq() =~= vals@.map_values(|v: String| v@));
        }
        Some(m)
    }
}

/// Adjacent order over a whole column gives the pairwise order.
proof fn lemma_adjacent_sorted(keys: Seq<Seq<char>>)
    requires
        forall|j: int| 0 <= j < keys.len() - 1 ==> lex_lt(#[trigger] keys[j], keys[j + 1]),
    ensures
        strictly_sorted(keys),
{
    assert forall|i: int, j: int| 0 <= i < j < keys.len() implies lex_lt(keys[i], keys[j]) by {
        lemma_lex_chain(keys, i, j);
    }
}

/// Order carries along a chain of adjacent comparisons.
proof fn lemma_lex_chain(keys: Seq<Seq<char>>, i: int, j: int)
    requires
        forall|p: int| 0 <= p < keys.len() - 1 ==> lex_lt(#[trigger] keys[p], keys[p + 1]),
        0 <= i < j < keys.len(),
    ensures
        lex_lt(keys[i], keys[j]),
    decreases j - i,
{
    if j == i + 1 {
    } else {
        lemma_lex_chain(keys, i, j - 1);
        lemma_lex_trans(keys[i], keys[j - 1], keys[j]);
    }
}

/// The domain of `seq_map` over distinct columns is exactly one key per
/// entry.
proof fn lemma_seq_map_dom_len(keys: Seq<Seq<char>>, vals: Seq<Seq<char>>)
    requires
        keys.len() == vals.len(),
        distinct_keys(keys),
    ensures
        seq_map(keys, vals).dom().finite(),
        seq_map(keys, vals).dom().len() == keys.len(),
    decreases keys.len(),
{
    if keys.len() > 0 {
        lemma_seq_map_dom_len(keys.drop_last(), vals.drop_last());
        lemma_seq_map_entries(keys.drop_last(), vals.drop_last());
        assert(!seq_map(keys.drop_last(), vals.drop_last()).contains_key(keys.last()));
    }
}

} // verus!
