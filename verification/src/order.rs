//! Text order, and sets and maps that keep their texts in that order.
use crate::text::{text_before, text_less, views};
use vstd::prelude::*;

verus! {

/// No text sorts before itself.
pub proof fn text_less_irreflexive(a: Seq<char>)
    ensures
        !text_less(a, a),
    decreases a.len(),
{
    if a.len() > 0 {
        text_less_irreflexive(a.drop_first());
    }
}

/// Text order is transitive.
pub proof fn text_less_transitive(a: Seq<char>, b: Seq<char>, c: Seq<char>)
    requires
        text_less(a, b),
        text_less(b, c),
    ensures
        text_less(a, c),
    decreases a.len(),
{
    if a.len() > 0 && a[0] == b[0] && b[0] == c[0] {
        text_less_transitive(a.drop_first(), b.drop_first(), c.drop_first());
    }
}

/// Two different texts are ordered one way or the other.
pub proof fn text_less_total(a: Seq<char>, b: Seq<char>)
    ensures
        a == b || text_less(a, b) || text_less(b, a),
    decreases a.len(),
{
    if a.len() > 0 && b.len() > 0 && a[0] == b[0] {
        text_less_total(a.drop_first(), b.drop_first());
        if a.drop_first() == b.drop_first() {
            assert(a =~= b) by {
                assert forall|i: int| 0 <= i < a.len() implies a[i] == b[i] by {
                    if i > 0 {
                        assert(a.drop_first()[i - 1] == b.drop_first()[i - 1]);
                    }
                }
                assert(a.drop_first().len() == b.drop_first().len());
            }
        }
    } else if a.len() == 0 && b.len() == 0 {
        assert(a =~= b);
    }
}

/// Each text sorts before all that follow it.
pub open spec fn sorted(texts: Seq<Seq<char>>) -> bool {
    forall|i: int, j: int|
        0 <= i < j < texts.len() ==> text_less(#[trigger] texts[i], #[trigger] texts[j])
}

/// Where `key` belongs: everything before sorts before it, nothing after does.
pub open spec fn belongs_at(texts: Seq<Seq<char>>, key: Seq<char>, i: int) -> bool {
    &&& 0 <= i <= texts.len()
    &&& forall|j: int| 0 <= j < i ==> text_less(#[trigger] texts[j], key)
    &&& forall|j: int| i <= j < texts.len() ==> !text_less(#[trigger] texts[j], key)
}

/// In sorted texts a key that is not where it belongs is nowhere.
pub proof fn sorted_lookup(texts: Seq<Seq<char>>, key: Seq<char>, i: int)
    requires
        sorted(texts),
        belongs_at(texts, key, i),
    ensures
        texts.contains(key) <==> i < texts.len() && texts[i] == key,
        forall|j: int| 0 <= j < texts.len() && #[trigger] texts[j] == key ==> j == i,
{
    text_less_irreflexive(key);
    assert forall|j: int| 0 <= j < texts.len() && #[trigger] texts[j] == key implies j == i by {
        if j > i {
            assert(text_less(texts[i], texts[j]));
            assert(!text_less(texts[i], key));
        }
    }
    if texts.contains(key) {
        let j = choose|j: int| 0 <= j < texts.len() && texts[j] == key;
        assert(texts[j] == key);
    }
}

/// Inserting a new key where it belongs keeps texts sorted.
pub proof fn insert_keeps_sorted(texts: Seq<Seq<char>>, key: Seq<char>, i: int)
    requires
        sorted(texts),
        belongs_at(texts, key, i),
        !texts.contains(key),
    ensures
        sorted(texts.insert(i, key)),
        forall|k: Seq<char>| #[trigger]
            texts.insert(i, key).contains(k) <==> texts.contains(k) || k == key,
{
    let after = texts.insert(i, key);
    assert forall|a: int, b: int| 0 <= a < b < after.len() implies text_less(
        #[trigger] after[a],
        #[trigger] after[b],
    ) by {
        if b < i {
            assert(after[a] == texts[a] && after[b] == texts[b]);
        } else if b == i {
            assert(after[a] == texts[a]);
        } else if a == i {
            assert(after[b] == texts[b - 1]);
            text_less_total(key, texts[b - 1]);
            assert(!text_less(texts[b - 1], key));
            if texts[b - 1] == key {
                assert(texts.contains(key));
            }
        } else if a < i {
            assert(after[a] == texts[a] && after[b] == texts[b - 1]);
        } else {
            assert(after[a] == texts[a - 1] && after[b] == texts[b - 1]);
        }
    }
    assert forall|k: Seq<char>| #[trigger] after.contains(k) <==> texts.contains(k) || k == key by {
        if after.contains(k) {
            let j = choose|j: int| 0 <= j < after.len() && after[j] == k;
            if j < i {
                assert(texts[j] == k);
            } else if j > i {
                assert(texts[j - 1] == k);
            }
        }
        if texts.contains(k) {
            let j = choose|j: int| 0 <= j < texts.len() && texts[j] == k;
            if j < i {
                assert(after[j] == k);
            } else {
                assert(after[j + 1] == k);
            }
        }
        assert(after[i] == key);
    }
}

/// Removing a text keeps the others sorted.
pub proof fn remove_keeps_sorted(texts: Seq<Seq<char>>, i: int)
    requires
        sorted(texts),
        0 <= i < texts.len(),
    ensures
        sorted(texts.remove(i)),
        forall|k: Seq<char>| #[trigger]
            texts.remove(i).contains(k) <==> texts.contains(k) && k != texts[i],
{
    let after = texts.remove(i);
    assert forall|a: int, b: int| 0 <= a < b < after.len() implies text_less(
        #[trigger] after[a],
        #[trigger] after[b],
    ) by {
        let p = if a < i {
            a
        } else {
            a + 1
        };
        let q = if b < i {
            b
        } else {
            b + 1
        };
        assert(after[a] == texts[p] && after[b] == texts[q]);
    }
    assert forall|k: Seq<char>| #[trigger] after.contains(k) <==> texts.contains(k) && k
        != texts[i] by {
        if after.contains(k) {
            let j = choose|j: int| 0 <= j < after.len() && after[j] == k;
            let p = if j < i {
                j
            } else {
                j + 1
            };
            assert(texts[p] == k);
            text_less_irreflexive(k);
            if p < i {
                assert(text_less(texts[p], texts[i]));
            } else {
                assert(text_less(texts[i], texts[p]));
            }
        }
        if texts.contains(k) && k != texts[i] {
            let j = choose|j: int| 0 <= j < texts.len() && texts[j] == k;
            if j < i {
                assert(after[j] == k);
            } else {
                assert(after[j - 1] == k);
            }
        }
    }
}

/// One entry of a text map.
#[derive(Debug, PartialEq, Eq)]
pub struct TextEntry<V> {
    pub key: String,
    pub value: V,
}

/// The keys of entries, in order.
pub open spec fn entry_keys<V>(entries: Seq<TextEntry<V>>) -> Seq<Seq<char>> {
    Seq::new(entries.len(), |i: int| entries[i].key@)
}

/// `i` holds the entry of `key`.
pub open spec fn entry_at<V>(entries: Seq<TextEntry<V>>, key: Seq<char>, i: int) -> bool {
    0 <= i < entries.len() && entries[i].key@ == key
}

/// Entries as a map.
pub open spec fn entries_map<V>(entries: Seq<TextEntry<V>>) -> Map<Seq<char>, V> {
    Map::new(
        |key: Seq<char>| exists|i: int| #[trigger] entry_at(entries, key, i),
        |key: Seq<char>| entries[choose|i: int| #[trigger] entry_at(entries, key, i)].value,
    )
}

/// A map from texts that is walked in text order.
#[derive(Debug, PartialEq, Eq)]
pub struct TextMap<V> {
    pub entries: Vec<TextEntry<V>>,
}

impl<V> View for TextMap<V> {
    type V = Map<Seq<char>, V>;

    open spec fn view(&self) -> Map<Seq<char>, V> {
        entries_map(self.entries@)
    }
}

/// Sorted entries map each key to its own value.
pub proof fn entries_facts<V>(entries: Seq<TextEntry<V>>)
    requires
        sorted(entry_keys(entries)),
    ensures
        forall|i: int|
            0 <= i < entries.len() ==> entries_map(entries).dom().contains(
                (#[trigger] entries[i]).key@,
            ) && entries_map(entries)[entries[i].key@] == entries[i].value,
        forall|key: Seq<char>| #[trigger]
            entries_map(entries).dom().contains(key) ==> exists|i: int| #[trigger]
                entry_at(entries, key, i),
        forall|key: Seq<char>| #[trigger]
            entries_map(entries).dom().contains(key) <==> entry_keys(entries).contains(key),
{
    let keys = entry_keys(entries);
    assert forall|i: int| 0 <= i < entries.len() implies entries_map(entries).dom().contains(
        (#[trigger] entries[i]).key@,
    ) && entries_map(entries)[entries[i].key@] == entries[i].value by {
        let key = entries[i].key@;
        assert(entry_at(entries, key, i));
        let k = choose|k: int| #[trigger] entry_at(entries, key, k);
        text_less_irreflexive(key);
        assert(keys[i] == key && keys[k] == key);
        if k < i {
            assert(text_less(keys[k], keys[i]));
        }
        if i < k {
            assert(text_less(keys[i], keys[k]));
        }
    }
    assert forall|key: Seq<char>| #[trigger]
        entries_map(entries).dom().contains(key) <==> keys.contains(key) by {
        if entries_map(entries).dom().contains(key) {
            let i = choose|i: int| #[trigger] entry_at(entries, key, i);
            assert(keys[i] == key);
        }
        if keys.contains(key) {
            let i = choose|i: int| 0 <= i < keys.len() && keys[i] == key;
            assert(entry_at(entries, key, i));
        }
    }
}

impl<V> TextMap<V> {
    pub open spec fn wf(&self) -> bool {
        sorted(entry_keys(self.entries@))
    }

    pub fn new() -> (r: TextMap<V>)
        ensures
            r.wf(),
            r@ == Map::<Seq<char>, V>::empty(),
            r.entries@.len() == 0,
    {
        let r = TextMap { entries: Vec::new() };
        proof {
            assert(r@ =~= Map::<Seq<char>, V>::empty());
        }
        r
    }

    pub fn len(&self) -> (r: usize)
        ensures
            r == self.entries@.len(),
    {
        self.entries.len()
    }

    /// Where a key is, or belongs.
    fn position(&self, key: &str) -> (r: (usize, bool))
        requires
            self.wf(),
        ensures
            r.0 <= self.entries.len(),
            belongs_at(entry_keys(self.entries@), key@, r.0 as int),
            r.1 == self@.dom().contains(key@),
            r.1 == entry_at(self.entries@, key@, r.0 as int),
            r.1 == entry_keys(self.entries@).contains(key@),
    {
        let ghost keys = entry_keys(self.entries@);
        let mut i: usize = 0;
        while i < self.entries.len() && text_before(self.entries[i].key.as_str(), key)
            invariant
                self.wf(),
                keys == entry_keys(self.entries@),
                i <= self.entries.len(),
                forall|j: int| 0 <= j < i ==> text_less(#[trigger] keys[j], key@),
            decreases self.entries.len() - i,
        {
            proof {
                assert(keys[i as int] == self.entries@[i as int].key@);
            }
            i = i + 1;
        }
        proof {
            assert forall|j: int| i <= j < keys.len() implies !text_less(
                #[trigger] keys[j],
                key@,
            ) by {
                assert(keys[i as int] == self.entries@[i as int].key@);
                if j > i && text_less(keys[j], key@) {
                    assert(text_less(keys[i as int], keys[j]));
                    text_less_transitive(keys[i as int], keys[j], key@);
                }
            }
            sorted_lookup(keys, key@, i as int);
            entries_facts(self.entries@);
        }
        let found = if i < self.entries.len() {
            proof {
                assert(keys[i as int] == self.entries@[i as int].key@);
            }
            same_text(self.entries[i].key.as_str(), key)
        } else {
            false
        };
        (i, found)
    }

    pub fn contains_key(&self, key: &str) -> (r: bool)
        requires
            self.wf(),
        ensures
            r == self@.dom().contains(key@),
    {
        self.position(key).1
    }

    pub fn get(&self, key: &str) -> (r: Option<&V>)
        requires
            self.wf(),
        ensures
            match r {
                Some(value) => self@.dom().contains(key@) && self@[key@] == *value,
                None => !self@.dom().contains(key@),
            },
    {
        let (i, found) = self.position(key);
        if found {
            proof {
                entries_facts(self.entries@);
                assert(self.entries@[i as int].key@ == key@);
            }
            Some(&self.entries[i].value)
        } else {
            None
        }
    }

    /// Maps `key` to `value` and returns what it mapped to before.
    pub fn insert(&mut self, key: String, value: V) -> (r: Option<V>)
        requires
            old(self).wf(),
        ensures
            final(self).wf(),
            final(self)@ == old(self)@.insert(key@, value),
            match r {
                Some(previous) => old(self)@.dom().contains(key@) && old(self)@[key@] == previous,
                None => !old(self)@.dom().contains(key@),
            },
    {
        let (i, found) = self.position(key.as_str());
        let ghost before = self.entries@;
        let ghost keys = entry_keys(before);
        proof {
            entries_facts(before);
        }
        if found {
            let mut fresh = TextEntry { key, value };
            std::mem::swap(&mut self.entries[i], &mut fresh);
            proof {
                let after = self.entries@;
                assert(after =~= before.update(i as int, TextEntry { key, value }));
                assert(entry_keys(after) =~= keys);
                entries_facts(after);
                assert(entries_map(after) =~= entries_map(before).insert(key@, value)) by {
                    assert forall|k: Seq<char>|
                        entries_map(after).dom().contains(k) implies entries_map(after)[k]
                        == #[trigger] entries_map(before).insert(key@, value)[k] by {
                        let p = choose|p: int| #[trigger] entry_at(after, k, p);
                        assert(entries_map(after)[after[p].key@] == after[p].value);
                        if p != i {
                            assert(before[p] == after[p]);
                            assert(entries_map(before)[before[p].key@] == before[p].value);
                            assert(keys[p] == k && keys[i as int] == key@);
                            sorted_lookup(keys, key@, i as int);
                        }
                    }
                    assert forall|k: Seq<char>| #[trigger]
                        entries_map(after).dom().contains(k) <==> entries_map(before).insert(
                            key@,
                            value,
                        ).dom().contains(k) by {
                        assert(keys.contains(k) <==> entries_map(before).dom().contains(k));
                        assert(entry_keys(after).contains(k) <==> entries_map(
                            after,
                        ).dom().contains(k));
                    }
                }
            }
            Some(fresh.value)
        } else {
            self.entries.insert(i, TextEntry { key, value });
            proof {
                let after = self.entries@;
                insert_keeps_sorted(keys, key@, i as int);
                assert(entry_keys(after) =~= keys.insert(i as int, key@));
                entries_facts(after);
                assert(entries_map(after) =~= entries_map(before).insert(key@, value)) by {
                    assert forall|k: Seq<char>| #[trigger]
                        entries_map(after).dom().contains(k) <==> entries_map(before).insert(
                            key@,
                            value,
                        ).dom().contains(k) by {
                        assert(keys.contains(k) <==> entries_map(before).dom().contains(k));
                        assert(entry_keys(after).contains(k) <==> entries_map(
                            after,
                        ).dom().contains(k));
                    }
                    assert forall|k: Seq<char>|
                        entries_map(after).dom().contains(k) implies entries_map(after)[k]
                        == #[trigger] entries_map(before).insert(key@, value)[k] by {
                        let p = choose|p: int| #[trigger] entry_at(after, k, p);
                        assert(entries_map(after)[after[p].key@] == after[p].value);
                        if p < i {
                            assert(before[p] == after[p]);
                            assert(entries_map(before)[before[p].key@] == before[p].value);
                            assert(keys[p] == k);
                            text_less_irreflexive(k);
                        } else if p > i {
                            assert(before[p - 1] == after[p]);
                            assert(entries_map(before)[before[p - 1].key@] == before[p - 1].value);
                            assert(keys[p - 1] == k);
                            assert(keys.contains(k));
                        }
                    }
                }
            }
            None
        }
    }

    /// Removes `key` and returns what it mapped to.
    pub fn remove(&mut self, key: &str) -> (r: Option<V>)
        requires
            old(self).wf(),
        ensures
            final(self).wf(),
            final(self)@ == old(self)@.remove(key@),
            match r {
                Some(previous) => old(self)@.dom().contains(key@) && old(self)@[key@] == previous,
                None => !old(self)@.dom().contains(key@),
            },
    {
        let (i, found) = self.position(key);
        let ghost before = self.entries@;
        let ghost keys = entry_keys(before);
        proof {
            entries_facts(before);
        }
        if found {
            let entry = self.entries.remove(i);
            proof {
                let after = self.entries@;
                assert(keys[i as int] == key@);
                remove_keeps_sorted(keys, i as int);
                assert(entry_keys(after) =~= keys.remove(i as int));
                entries_facts(after);
                assert(entries_map(after) =~= entries_map(before).remove(key@)) by {
                    assert forall|k: Seq<char>| #[trigger]
                        entries_map(after).dom().contains(k) <==> entries_map(before).remove(
                            key@,
                        ).dom().contains(k) by {
                        assert(keys.contains(k) <==> entries_map(before).dom().contains(k));
                        assert(entry_keys(after).contains(k) <==> entries_map(
                            after,
                        ).dom().contains(k));
                    }
                    assert forall|k: Seq<char>|
                        entries_map(after).dom().contains(k) implies entries_map(after)[k]
                        == #[trigger] entries_map(before).remove(key@)[k] by {
                        let p = choose|p: int| #[trigger] entry_at(after, k, p);
                        assert(entries_map(after)[after[p].key@] == after[p].value);
                        let q = if p < i {
                            p
                        } else {
                            p + 1
                        };
                        assert(before[q] == after[p]);
                        assert(entries_map(before)[before[q].key@] == before[q].value);
                        assert(entry_keys(after)[p] == k);
                        assert(entry_keys(after).contains(k));
                    }
                }
            }
            Some(entry.value)
        } else {
            proof {
                assert(entries_map(before) =~= entries_map(before).remove(key@));
            }
            None
        }
    }
}

/// Compares two texts.
pub fn same_text(a: &str, b: &str) -> (r: bool)
    ensures
        r == (a@ == b@),
{
    if text_before(a, b) {
        proof {
            if a@ == b@ {
                text_less_irreflexive(a@);
            }
        }
        false
    } else if text_before(b, a) {
        proof {
            if a@ == b@ {
                text_less_irreflexive(a@);
            }
        }
        false
    } else {
        proof {
            text_less_total(a@, b@);
        }
        true
    }
}

/// A set of texts that is walked in text order.
#[derive(Debug, PartialEq, Eq)]
pub struct TextSet {
    pub items: Vec<String>,
}

impl View for TextSet {
    type V = Set<Seq<char>>;

    open spec fn view(&self) -> Set<Seq<char>> {
        views(self.items@).to_set()
    }
}

impl TextSet {
    pub open spec fn wf(&self) -> bool {
        sorted(views(self.items@))
    }

    pub fn new() -> (r: TextSet)
        ensures
            r.wf(),
            r@ == Set::<Seq<char>>::empty(),
            r.items@.len() == 0,
    {
        let r = TextSet { items: Vec::new() };
        proof {
            assert(r@ =~= Set::<Seq<char>>::empty());
        }
        r
    }

    fn position(&self, text: &str) -> (r: (usize, bool))
        requires
            self.wf(),
        ensures
            r.0 <= self.items.len(),
            belongs_at(views(self.items@), text@, r.0 as int),
            r.1 == self@.contains(text@),
            r.1 == views(self.items@).contains(text@),
            r.1 ==> r.0 < self.items.len() && self.items@[r.0 as int]@ == text@,
    {
        let ghost keys = views(self.items@);
        let mut i: usize = 0;
        while i < self.items.len() && text_before(self.items[i].as_str(), text)
            invariant
                self.wf(),
                keys == views(self.items@),
                i <= self.items.len(),
                forall|j: int| 0 <= j < i ==> text_less(#[trigger] keys[j], text@),
            decreases self.items.len() - i,
        {
            proof {
                assert(keys[i as int] == self.items@[i as int]@);
            }
            i = i + 1;
        }
        proof {
            assert forall|j: int| i <= j < keys.len() implies !text_less(
                #[trigger] keys[j],
                text@,
            ) by {
                assert(keys[i as int] == self.items@[i as int]@);
                if j > i && text_less(keys[j], text@) {
                    assert(text_less(keys[i as int], keys[j]));
                    text_less_transitive(keys[i as int], keys[j], text@);
                }
            }
            sorted_lookup(keys, text@, i as int);
        }
        let found = if i < self.items.len() {
            proof {
                assert(keys[i as int] == self.items@[i as int]@);
            }
            same_text(self.items[i].as_str(), text)
        } else {
            false
        };
        (i, found)
    }

    pub fn contains(&self, text: &str) -> (r: bool)
        requires
            self.wf(),
        ensures
            r == self@.contains(text@),
    {
        self.position(text).1
    }

    pub fn len(&self) -> (r: usize)
        requires
            self.wf(),
        ensures
            r == self.items@.len(),
            self@.finite(),
            r == self@.len(),
    {
        proof {
            let keys = views(self.items@);
            assert(keys.no_duplicates()) by {
                assert forall|i: int, j: int|
                    0 <= i < keys.len() && 0 <= j < keys.len() && i != j implies keys[i]
                    != keys[j] by {
                    text_less_irreflexive(keys[i]);
                    if i < j {
                        assert(text_less(keys[i], keys[j]));
                    } else {
                        assert(text_less(keys[j], keys[i]));
                    }
                }
            }
            keys.unique_seq_to_set();
        }
        self.items.len()
    }

    /// Adds a text and tells whether it is new.
    pub fn insert(&mut self, text: String) -> (r: bool)
        requires
            old(self).wf(),
        ensures
            final(self).wf(),
            final(self)@ == old(self)@.insert(text@),
            r == !old(self)@.contains(text@),
    {
        let (i, found) = self.position(text.as_str());
        let ghost keys = views(self.items@);
        if found {
            proof {
                assert(self@ =~= self@.insert(text@));
            }
            false
        } else {
            self.items.insert(i, text);
            proof {
                insert_keeps_sorted(keys, text@, i as int);
                assert(views(self.items@) =~= keys.insert(i as int, text@));
                assert(self@ =~= keys.to_set().insert(text@)) by {
                    assert forall|k: Seq<char>| #[trigger] self@.contains(k) <==> keys.to_set().insert(
                        text@,
                    ).contains(k) by {
                        assert(views(self.items@).contains(k) <==> keys.contains(k) || k == text@);
                    }
                }
            }
            true
        }
    }

    /// Removes a text.
    pub fn remove(&mut self, text: &str)
        requires
            old(self).wf(),
        ensures
            final(self).wf(),
            final(self)@ == old(self)@.remove(text@),
    {
        let (i, found) = self.position(text);
        let ghost keys = views(self.items@);
        if found {
            let _ = self.items.remove(i);
            proof {
                remove_keeps_sorted(keys, i as int);
                assert(views(self.items@) =~= keys.remove(i as int));
                assert(self@ =~= keys.to_set().remove(text@)) by {
                    assert forall|k: Seq<char>| #[trigger] self@.contains(k) <==> keys.to_set().remove(
                        text@,
                    ).contains(k) by {
                        assert(views(self.items@).contains(k) <==> keys.contains(k) && k
                            != keys[i as int]);
                    }
                }
            }
        } else {
            proof {
                assert(self@ =~= self@.remove(text@));
            }
        }
    }
}

/// The same texts in order are the same sequence.
pub proof fn sorted_unique(a: Seq<Seq<char>>, b: Seq<Seq<char>>)
    requires
        sorted(a),
        sorted(b),
        forall|k: Seq<char>| a.contains(k) <==> #[trigger] b.contains(k),
    ensures
        a == b,
    decreases a.len(),
{
    if a.len() == 0 {
        if b.len() > 0 {
            assert(b.contains(b[0]));
            assert(a.contains(b[0]));
        }
        assert(a =~= b);
    } else {
        assert(a.contains(a[0]));
        assert(b.contains(a[0]));
        assert(b.contains(b[0]));
        assert(a.contains(b[0]));
        let i = choose|i: int| 0 <= i < b.len() && b[i] == a[0];
        let j = choose|j: int| 0 <= j < a.len() && a[j] == b[0];
        if i > 0 && j > 0 {
            assert(text_less(b[0], b[i]));
            assert(text_less(a[0], a[j]));
            text_less_transitive(a[0], b[0], a[0]);
            text_less_irreflexive(a[0]);
        }
        assert(a[0] == b[0]);
        let x = a.drop_first();
        let y = b.drop_first();
        assert(x =~= a.remove(0));
        assert(y =~= b.remove(0));
        remove_keeps_sorted(a, 0);
        remove_keeps_sorted(b, 0);
        assert forall|k: Seq<char>| x.contains(k) <==> #[trigger] y.contains(k) by {
            assert(x.contains(k) <==> a.contains(k) && k != a[0]);
            assert(y.contains(k) <==> b.contains(k) && k != b[0]);
            assert(a.contains(k) <==> b.contains(k));
        }
        sorted_unique(x, y);
        assert(a =~= b) by {
            assert forall|k: int| 0 <= k < a.len() implies a[k] == b[k] by {
                if k > 0 {
                    assert(x[k - 1] == y[k - 1]);
                }
            }
            assert(x.len() == y.len());
        }
    }
}

/// Values that can be compared and copied by content.
pub trait Plain: View + Sized {
    fn same(&self, other: &Self) -> (r: bool)
        ensures
            r == (self@ == other@),
    ;

    fn duplicate(&self) -> (r: Self)
        ensures
            r@ == self@,
    ;
}

/// The contents of a map's values.
pub open spec fn contents<V: View>(map: Map<Seq<char>, V>) -> Map<Seq<char>, V::V> {
    Map::new(|key: Seq<char>| map.dom().contains(key), |key: Seq<char>| map[key]@)
}

/// Setting a key sets its content.
pub proof fn contents_insert<V: View>(map: Map<Seq<char>, V>, key: Seq<char>, value: V)
    ensures
        contents(map.insert(key, value)) == contents(map).insert(key, value@),
{
    assert(contents(map.insert(key, value)) =~= contents(map).insert(key, value@));
}

/// Removing a key removes its content.
pub proof fn contents_remove<V: View>(map: Map<Seq<char>, V>, key: Seq<char>)
    ensures
        contents(map.remove(key)) == contents(map).remove(key),
{
    assert(contents(map.remove(key)) =~= contents(map).remove(key));
}

impl<V: Plain> TextMap<V> {
    /// Whether both maps have the same keys with the same contents.
    pub fn same(&self, other: &TextMap<V>) -> (r: bool)
        requires
            self.wf(),
            other.wf(),
        ensures
            r == (contents(self@) == contents(other@)),
    {
        let ghost a = self.entries@;
        let ghost b = other.entries@;
        proof {
            entries_facts(a);
            entries_facts(b);
            if contents(self@) == contents(other@) {
                equal_contents(a, b);
            }
        }
        if self.entries.len() != other.entries.len() {
            return false;
        }
        let mut i: usize = 0;
        while i < self.entries.len()
            invariant
                self.wf(),
                other.wf(),
                a == self.entries@,
                b == other.entries@,
                a.len() == b.len(),
                i <= a.len(),
                contents(self@) == contents(other@) ==> forall|k: int|
                    0 <= k < a.len() ==> (#[trigger] a[k]).key@ == b[k].key@ && a[k].value@
                        == b[k].value@,
                forall|k: int|
                    0 <= k < i ==> (#[trigger] a[k]).key@ == b[k].key@ && a[k].value@
                        == b[k].value@,
            decreases a.len() - i,
        {
            if self.entries[i].key != other.entries[i].key || !self.entries[i].value.same(
                &other.entries[i].value,
            ) {
                proof {
                    assert(!(a[i as int].key@ == b[i as int].key@ && a[i as int].value@
                        == b[i as int].value@));
                }
                return false;
            }
            i = i + 1;
        }
        proof {
            entries_facts(a);
            entries_facts(b);
            assert(entry_keys(a) =~= entry_keys(b));
            assert forall|key: Seq<char>| #[trigger]
                contents(self@).dom().contains(key) <==> contents(other@).dom().contains(key) by {
                assert(self@.dom().contains(key) <==> entry_keys(a).contains(key));
                assert(other@.dom().contains(key) <==> entry_keys(b).contains(key));
            }
            assert forall|key: Seq<char>| #[trigger]
                contents(self@).dom().contains(key) implies contents(self@)[key] == contents(
                other@,
            )[key] by {
                let k = choose|k: int| #[trigger] entry_at(a, key, k);
                assert(self@[a[k].key@] == a[k].value);
                assert(other@[b[k].key@] == b[k].value);
            }
            assert(contents(self@) =~= contents(other@));
        }
        true
    }

    pub fn duplicate(&self) -> (r: TextMap<V>)
        requires
            self.wf(),
        ensures
            r.wf(),
            contents(r@) == contents(self@),
            entry_keys(r.entries@) == entry_keys(self.entries@),
    {
        let ghost a = self.entries@;
        let mut entries: Vec<TextEntry<V>> = Vec::new();
        let mut i: usize = 0;
        while i < self.entries.len()
            invariant
                a == self.entries@,
                i <= a.len(),
                entries@.len() == i,
                forall|k: int|
                    0 <= k < i ==> (#[trigger] entries@[k]).key@ == a[k].key@ && entries@[k].value@
                        == a[k].value@,
            decreases a.len() - i,
        {
            entries.push(
                TextEntry {
                    key: self.entries[i].key.clone(),
                    value: self.entries[i].value.duplicate(),
                },
            );
            i = i + 1;
        }
        let r = TextMap { entries };
        proof {
            let b = r.entries@;
            assert(entry_keys(b) =~= entry_keys(a));
            entries_facts(a);
            entries_facts(b);
            assert forall|key: Seq<char>| #[trigger]
                contents(r@).dom().contains(key) <==> contents(self@).dom().contains(key) by {
                assert(self@.dom().contains(key) <==> entry_keys(a).contains(key));
                assert(r@.dom().contains(key) <==> entry_keys(b).contains(key));
            }
            assert forall|key: Seq<char>| #[trigger]
                contents(r@).dom().contains(key) implies contents(r@)[key] == contents(
                self@,
            )[key] by {
                let k = choose|k: int| #[trigger] entry_at(b, key, k);
                assert(r@[b[k].key@] == b[k].value);
                assert(self@[a[k].key@] == a[k].value);
            }
            assert(contents(r@) =~= contents(self@));
        }
        r
    }
}

/// Equal contents mean equal entries.
proof fn equal_contents<V: View>(a: Seq<TextEntry<V>>, b: Seq<TextEntry<V>>)
    requires
        sorted(entry_keys(a)),
        sorted(entry_keys(b)),
        contents(entries_map(a)) == contents(entries_map(b)),
    ensures
        a.len() == b.len(),
        forall|k: int|
            0 <= k < a.len() ==> (#[trigger] a[k]).key@ == b[k].key@ && a[k].value@ == b[k].value@,
{
    entries_facts(a);
    entries_facts(b);
    let x = entry_keys(a);
    let y = entry_keys(b);
    assert forall|k: Seq<char>| x.contains(k) <==> #[trigger] y.contains(k) by {
        assert(x.contains(k) <==> entries_map(a).dom().contains(k));
        assert(y.contains(k) <==> entries_map(b).dom().contains(k));
        let p = contents(entries_map(a));
        let q = contents(entries_map(b));
        assert(p.dom().contains(k) <==> entries_map(a).dom().contains(k));
        assert(q.dom().contains(k) <==> entries_map(b).dom().contains(k));
    }
    sorted_unique(x, y);
    assert(x.len() == a.len() && y.len() == b.len());
    assert forall|k: int| 0 <= k < a.len() implies (#[trigger] a[k]).key@ == b[k].key@
        && a[k].value@ == b[k].value@ by {
        assert(x[k] == a[k].key@);
        assert(y[k] == b[k].key@);
        assert(entries_map(a)[a[k].key@] == a[k].value);
        assert(entries_map(b)[b[k].key@] == b[k].value);
        assert(contents(entries_map(a))[a[k].key@] == a[k].value@);
        assert(contents(entries_map(b))[b[k].key@] == b[k].value@);
    }
}

/// The texts of a set in order.
pub open spec fn in_text_order(texts: Set<Seq<char>>) -> Seq<Seq<char>> {
    choose|keys: Seq<Seq<char>>| #[trigger]
        sorted(keys) && (forall|k: Seq<char>| keys.contains(k) <==> #[trigger] texts.contains(k))
}

/// The keys of a map's entries are its domain in order.
pub proof fn keys_in_order<V>(entries: Seq<TextEntry<V>>)
    requires
        sorted(entry_keys(entries)),
    ensures
        in_text_order(entries_map(entries).dom()) == entry_keys(entries),
{
    entries_facts(entries);
    let texts = entries_map(entries).dom();
    let keys = entry_keys(entries);
    assert forall|k: Seq<char>| keys.contains(k) <==> #[trigger] texts.contains(k) by {
        assert(entries_map(entries).dom().contains(k) <==> keys.contains(k));
    }
    assert(sorted(keys));
    let chosen = in_text_order(texts);
    assert forall|k: Seq<char>| chosen.contains(k) <==> #[trigger] keys.contains(k) by {
        assert(texts.contains(k) <==> keys.contains(k));
    }
    sorted_unique(chosen, keys);
}

} // verus!
