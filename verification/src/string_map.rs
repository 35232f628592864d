//! Maps keyed by strings, kept in the order of their keys.

use vstd::prelude::*;

use crate::text;

verus! {

/// Whether a sequence of texts is in strictly ascending order.
pub open spec fn ascending(keys: Seq<Seq<char>>) -> bool {
    forall|i: int, j: int|
        0 <= i < j < keys.len() ==> text::lex_lt(#[trigger] keys[i], #[trigger] keys[j])
}

/// A map from strings to values.
pub struct StringMap<V> {
    keys: Vec<String>,
    values: Vec<V>,
}

impl<V> View for StringMap<V> {
    type V = Map<Seq<char>, V>;

    closed spec fn view(&self) -> Map<Seq<char>, V> {
        Map::new(
            |k: Seq<char>| text::texts(self.keys@).contains(k),
            |k: Seq<char>| self.values@[text::texts(self.keys@).index_of(k)],
        )
    }
}

impl<V> StringMap<V> {
    /// The keys in ascending order.
    pub closed spec fn key_seq(self) -> Seq<Seq<char>> {
        text::texts(self.keys@)
    }

    #[verifier::type_invariant]
    spec fn is_sorted(self) -> bool {
        self.keys@.len() == self.values@.len() && ascending(text::texts(self.keys@))
    }

    /// The keys are those of the map, each once, in ascending order.
    pub open spec fn keys_agree(self) -> bool {
        &&& ascending(self.key_seq())
        &&& self.key_seq().no_duplicates()
        &&& forall|k: Seq<char>| #[trigger]
            self@.contains_key(k) <==> self.key_seq().contains(k)
    }

    proof fn lemma_keys_agree(self)
        requires
            self.is_sorted(),
        ensures
            self.keys_agree(),
            forall|i: int|
                0 <= i < self.keys@.len() ==> self@[#[trigger] self.key_seq()[i]]
                    == self.values@[i],
    {
        let keys = self.key_seq();
        assert forall|i: int, j: int| 0 <= i < j < keys.len() implies keys[i] != keys[j] by {
            text::lex_lt_irreflexive(keys[i]);
        }
        assert forall|i: int| 0 <= i < keys.len() implies self@[#[trigger] keys[i]]
            == self.values@[i] by {
            assert(keys.contains(keys[i]));
            let k = keys.index_of(keys[i]);
            assert(keys[k] == keys[i]);
        }
    }

    /// A map without entries.
    pub fn new() -> (map: StringMap<V>)
        ensures
            map@ == Map::<Seq<char>, V>::empty(),
            map.key_seq() == Seq::<Seq<char>>::empty(),
    {
        let map = StringMap { keys: Vec::new(), values: Vec::new() };
        assert(map.key_seq() =~= Seq::<Seq<char>>::empty());
        assert(map@ =~= Map::<Seq<char>, V>::empty());
        map
    }

    /// How many entries there are.
    pub fn len(&self) -> (n: usize)
        ensures
            n == self.key_seq().len(),
            self.keys_agree(),
    {
        proof {
            use_type_invariant(self);
            self.lemma_keys_agree();
        }
        self.keys.len()
    }

    /// The key at a position in the order of the keys.
    pub fn key_at(&self, i: usize) -> (key: &String)
        requires
            i < self.key_seq().len(),
        ensures
            key@ == self.key_seq()[i as int],
            self@.contains_key(key@),
            self.keys_agree(),
    {
        proof {
            use_type_invariant(self);
            self.lemma_keys_agree();
            assert(self.key_seq().contains(self.key_seq()[i as int]));
        }
        &self.keys[i]
    }

    /// The value of the key at a position in the order of the keys.
    pub fn value_at(&self, i: usize) -> (value: &V)
        requires
            i < self.key_seq().len(),
        ensures
            *value == self@[self.key_seq()[i as int]],
            self@.contains_key(self.key_seq()[i as int]),
            self.keys_agree(),
    {
        proof {
            use_type_invariant(self);
            self.lemma_keys_agree();
            assert(self.key_seq().contains(self.key_seq()[i as int]));
        }
        &self.values[i]
    }

    /// The position of `key`, or where it would have to be put.
    fn locate(&self, key: &str) -> (r: (usize, bool))
        requires
            self.is_sorted(),
        ensures
            r.0 <= self.keys@.len(),
            forall|j: int| 0 <= j < r.0 ==> text::lex_lt(#[trigger] self.key_seq()[j], key@),
            r.1 ==> r.0 < self.keys@.len() && self.key_seq()[r.0 as int] == key@,
            !r.1 ==> forall|j: int|
                r.0 <= j < self.keys@.len() ==> text::lex_lt(key@, #[trigger] self.key_seq()[j]),
    {
        let ghost keys = self.key_seq();
        let mut i: usize = 0;
        while i < self.keys.len() && text::precedes(self.keys[i].as_str(), key)
            invariant
                i <= self.keys@.len(),
                keys == self.key_seq(),
                forall|j: int| 0 <= j < i ==> text::lex_lt(#[trigger] keys[j], key@),
            decreases self.keys@.len() - i,
        {
            assert(keys[i as int] == self.keys@[i as int]@);
            i += 1;
        }
        if i < self.keys.len() && text::same_text(self.keys[i].as_str(), key) {
            assert(keys[i as int] == self.keys@[i as int]@);
            return (i, true);
        }
        proof {
            if i < self.keys@.len() {
                assert(keys[i as int] == self.keys@[i as int]@);
                text::lex_lt_total(keys[i as int], key@);
                assert forall|j: int| i <= j < keys.len() implies text::lex_lt(
                    key@,
                    #[trigger] keys[j],
                ) by {
                    if j > i {
                        text::lex_lt_transitive(key@, keys[i as int], keys[j]);
                    }
                }
            }
        }
        (i, false)
    }

    /// The value of `key`.
    pub fn get(&self, key: &str) -> (value: Option<&V>)
        ensures
            match value {
                Some(v) => self@.contains_key(key@) && *v == self@[key@],
                None => !self@.contains_key(key@),
            },
    {
        proof {
            use_type_invariant(self);
            self.lemma_keys_agree();
        }
        let (i, found) = self.locate(key);
        if found {
            assert(self.key_seq().contains(self.key_seq()[i as int]));
            Some(&self.values[i])
        } else {
            proof {
                self.lemma_not_located(key@, i as int);
            }
            None
        }
    }

    proof fn lemma_not_located(self, key: Seq<char>, i: int)
        requires
            0 <= i <= self.key_seq().len(),
            forall|j: int| 0 <= j < i ==> text::lex_lt(#[trigger] self.key_seq()[j], key),
            forall|j: int|
                i <= j < self.key_seq().len() ==> text::lex_lt(key, #[trigger] self.key_seq()[j]),
        ensures
            !self.key_seq().contains(key),
    {
        text::lex_lt_irreflexive(key);
    }

    /// Whether `key` has a value.
    pub fn contains_key(&self, key: &str) -> (found: bool)
        ensures
            found == self@.contains_key(key@),
    {
        self.get(key).is_some()
    }

    /// Gives `key` a value and returns the one that it had.
    pub fn insert(&mut self, key: String, value: V) -> (previous: Option<V>)
        ensures
            final(self)@ == old(self)@.insert(key@, value),
            match previous {
                Some(v) => old(self)@.contains_key(key@) && v == old(self)@[key@],
                None => !old(self)@.contains_key(key@),
            },
    {
        proof {
            use_type_invariant(&*self);
            self.lemma_keys_agree();
        }
        let ghost before = *self;
        let ghost keys = self.key_seq();
        let (i, found) = self.locate(key.as_str());
        let mut taken: StringMap<V> = StringMap { keys: Vec::new(), values: Vec::new() };
        std::mem::swap(&mut taken, self);
        let mut new_keys: Vec<String> = taken.keys;
        let mut new_values: Vec<V> = taken.values;
        if found {
            let mut value = value;
            let ghost wanted = value;
            std::mem::swap(&mut new_values[i], &mut value);
            *self = StringMap { keys: new_keys, values: new_values };
            proof {
                assert(keys.contains(keys[i as int]));
                self.lemma_keys_agree();
                assert(self.key_seq() == keys);
                assert(self@ =~= before@.insert(key@, wanted)) by {
                    assert forall|k: Seq<char>| keys.contains(k) implies self@[k] == before@.insert(
                        key@,
                        wanted,
                    )[k] by {
                        let j = keys.index_of(k);
                        assert(self@[keys[j]] == self.values@[j]);
                        assert(before@[keys[j]] == before.values@[j]);
                        if j != i {
                            assert(keys[j] != keys[i as int]);
                        }
                    }
                }
            }
            Some(value)
        } else {
            let ghost name = key@;
            new_keys.insert(i, key);
            new_values.insert(i, value);
            let ghost now = text::texts(new_keys@);
            proof {
                before.lemma_not_located(name, i as int);
                assert(now =~= keys.insert(i as int, name));
                assert forall|a: int, b: int| 0 <= a < b < now.len() implies text::lex_lt(
                    #[trigger] now[a],
                    #[trigger] now[b],
                ) by {
                    if a < i && b > i {
                        assert(now[a] == keys[a] && now[b] == keys[b - 1]);
                    } else if a < i && b < i {
                        assert(now[a] == keys[a] && now[b] == keys[b]);
                    } else if a > i {
                        assert(now[a] == keys[a - 1] && now[b] == keys[b - 1]);
                    } else if a == i {
                        assert(now[b] == keys[b - 1]);
                    } else {
                        assert(now[a] == keys[a]);
                    }
                }
            }
            *self = StringMap { keys: new_keys, values: new_values };
            proof {
                self.lemma_keys_agree();
                assert forall|k: Seq<char>| now.contains(k) <==> (keys.contains(k) || k == name) by {
                    if now.contains(k) {
                        let j = now.index_of(k);
                        if j < i {
                            assert(keys[j] == k);
                        } else if j > i {
                            assert(keys[j - 1] == k);
                        }
                    }
                    if keys.contains(k) {
                        let j = keys.index_of(k);
                        if j < i {
                            assert(now[j] == k);
                        } else {
                            assert(now[j + 1] == k);
                        }
                    }
                    if k == name {
                        assert(now[i as int] == k);
                    }
                }
                assert(self@ =~= before@.insert(name, value)) by {
                    assert forall|k: Seq<char>| now.contains(k) implies self@[k] == before@.insert(
                        name,
                        value,
                    )[k] by {
                        let j = now.index_of(k);
                        assert(self@[now[j]] == self.values@[j]);
                        if j < i {
                            assert(before@[keys[j]] == before.values@[j]);
                            assert(keys.contains(keys[j]));
                        } else if j > i {
                            assert(before@[keys[j - 1]] == before.values@[j - 1]);
                            assert(keys.contains(keys[j - 1]));
                        }
                    }
                }
            }
            None
        }
    }

    /// Takes `key` and its value out.
    pub fn remove(&mut self, key: &str) -> (previous: Option<V>)
        ensures
            final(self)@ == old(self)@.remove(key@),
            match previous {
                Some(v) => old(self)@.contains_key(key@) && v == old(self)@[key@],
                None => !old(self)@.contains_key(key@),
            },
    {
        proof {
            use_type_invariant(&*self);
            self.lemma_keys_agree();
        }
        let ghost before = *self;
        let ghost keys = self.key_seq();
        let (i, found) = self.locate(key);
        if !found {
            proof {
                self.lemma_not_located(key@, i as int);
                assert(self@.remove(key@) =~= self@);
            }
            return None;
        }
        let mut taken: StringMap<V> = StringMap { keys: Vec::new(), values: Vec::new() };
        std::mem::swap(&mut taken, self);
        let mut new_keys: Vec<String> = taken.keys;
        let mut new_values: Vec<V> = taken.values;
        let _ = new_keys.remove(i);
        let value: V = new_values.remove(i);
        let ghost now = text::texts(new_keys@);
        proof {
            assert(now =~= keys.remove(i as int));
            assert forall|a: int, b: int| 0 <= a < b < now.len() implies text::lex_lt(
                #[trigger] now[a],
                #[trigger] now[b],
            ) by {
                let x = if a < i { a } else { a + 1 };
                let y = if b < i { b } else { b + 1 };
                assert(now[a] == keys[x] && now[b] == keys[y]);
            }
            assert(keys.contains(keys[i as int]));
        }
        *self = StringMap { keys: new_keys, values: new_values };
        proof {
            self.lemma_keys_agree();
            assert forall|k: Seq<char>| now.contains(k) <==> (keys.contains(k) && k != key@) by {
                if now.contains(k) {
                    let j = now.index_of(k);
                    let x = if j < i { j } else { j + 1 };
                    assert(keys[x] == k);
                }
                if keys.contains(k) && k != key@ {
                    let j = keys.index_of(k);
                    if j < i {
                        assert(now[j] == k);
                    } else {
                        assert(now[j - 1] == k);
                    }
                }
            }
            assert(self@ =~= before@.remove(key@)) by {
                assert forall|k: Seq<char>| now.contains(k) implies self@[k] == before@[k] by {
                    let j = now.index_of(k);
                    let x = if j < i { j } else { j + 1 };
                    assert(self@[now[j]] == self.values@[j]);
                    assert(before@[keys[x]] == before.values@[x]);
                }
            }
        }
        Some(value)
    }
}

/// A map of strings, by the texts of its values.
pub open spec fn text_map(map: Map<Seq<char>, String>) -> Map<Seq<char>, Seq<char>> {
    map.map_values(|s: String| s@)
}

/// Gives `key` the value `value` in a map of strings.
pub fn put_text(map: &mut StringMap<String>, key: &str, value: &str)
    ensures
        text_map(final(map)@) == text_map(old(map)@).insert(key@, value@),
{
    let ghost before = map@;
    let _ = map.insert(key.to_owned(), value.to_owned());
    assert(text_map(map@) =~= text_map(before).insert(key@, value@));
}

/// Takes `key` out of a map of strings.
pub fn drop_text(map: &mut StringMap<String>, key: &str)
    ensures
        text_map(final(map)@) == text_map(old(map)@).remove(key@),
{
    let ghost before = map@;
    let _ = map.remove(key);
    assert(text_map(map@) =~= text_map(before).remove(key@));
}

/// A map without the keys that have the value `value`.
pub open spec fn without_value(
    map: Map<Seq<char>, Seq<char>>,
    value: Seq<char>,
) -> Map<Seq<char>, Seq<char>> {
    Map::new(|k: Seq<char>| map.contains_key(k) && map[k] != value, |k: Seq<char>| map[k])
}

/// Takes the keys out that have the value `value`.
pub fn drop_value(map: &mut StringMap<String>, value: &str)
    ensures
        text_map(final(map)@) == without_value(text_map(old(map)@), value@),
{
    let ghost before = text_map(map@);
    let mut kept: StringMap<String> = StringMap::new();
    let n: usize = map.len();
    let ghost keys = map.key_seq();
    let mut i: usize = 0;
    while i < n
        invariant
            i <= n == keys.len(),
            keys == map.key_seq(),
            map.keys_agree(),
            before == text_map(map@),
            forall|k: Seq<char>| #[trigger]
                kept@.contains_key(k) <==> keys.take(i as int).contains(k) && before[k] != value@,
            forall|k: Seq<char>| #[trigger] kept@.contains_key(k) ==> kept@[k]@ == before[k],
        decreases n - i,
    {
        let key: &String = map.key_at(i);
        let held: &String = map.value_at(i);
        assert(before[keys[i as int]] == held@);
        proof {
            text::lemma_take_one_more(keys, i as int);
        }
        if !text::same_text(held.as_str(), value) {
            let _ = kept.insert(key.clone(), held.clone());
        }
        i += 1;
    }
    proof {
        assert(keys.take(n as int) =~= keys);
        assert forall|k: Seq<char>| before.contains_key(k) <==> keys.contains(k) by {
            assert(map@.contains_key(k) <==> keys.contains(k));
        }
        assert(text_map(kept@) =~= without_value(before, value@));
    }
    *map = kept;
}

/// A copy of a map of strings.
pub fn clone_text_map(map: &StringMap<String>) -> (copy: StringMap<String>)
    ensures
        text_map(copy@) == text_map(map@),
{
    let mut copy: StringMap<String> = StringMap::new();
    let n: usize = map.len();
    let ghost keys = map.key_seq();
    let mut i: usize = 0;
    while i < n
        invariant
            i <= n == keys.len(),
            keys == map.key_seq(),
            map.keys_agree(),
            forall|k: Seq<char>| #[trigger]
                copy@.contains_key(k) <==> keys.take(i as int).contains(k),
            forall|k: Seq<char>| #[trigger] copy@.contains_key(k) ==> copy@[k]@ == map@[k]@,
        decreases n - i,
    {
        let key: String = map.key_at(i).clone();
        let value: String = map.value_at(i).clone();
        copy.insert(key, value);
        proof {
            text::lemma_take_one_more(keys, i as int);
        }
        i += 1;
    }
    proof {
        assert(keys.take(n as int) =~= keys);
        assert(text_map(copy@) =~= text_map(map@));
    }
    copy
}

} // verus!
