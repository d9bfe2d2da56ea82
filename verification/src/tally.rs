//! Counts kept under text keys, in the order of the keys.
use crate::text::{compare_text, lemma_text_relations, text_relation, Relation};
use vstd::prelude::*;

verus! {

/// What is kept under one key.
pub struct Entry<T> {
    pub key: Seq<char>,
    pub count: nat,
    pub item: T,
}

/// A stored entry.
#[derive(Debug)]
pub struct Tallied<T> {
    pub key: String,
    pub count: usize,
    pub item: T,
}

pub open spec fn entry_of<T>(stored: Tallied<T>) -> Entry<T> {
    Entry { key: stored.key@, count: stored.count as nat, item: stored.item }
}

pub open spec fn entries_of<T>(stored: Seq<Tallied<T>>) -> Seq<Entry<T>> {
    Seq::new(stored.len(), |i: int| entry_of(stored[i]))
}

/// Behind every entry with a smaller key.
pub open spec fn key_place<T>(entries: Seq<Entry<T>>, key: Seq<char>) -> int
    decreases entries.len(),
{
    if entries.len() == 0 {
        0
    } else if text_relation(entries.last().key, key) is Before {
        entries.len() as int
    } else {
        key_place(entries.drop_last(), key)
    }
}

/// A sum that stops at the largest machine count.
pub open spec fn capped_sum(a: nat, b: nat) -> nat {
    if a + b <= usize::MAX {
        a + b
    } else {
        usize::MAX as nat
    }
}

/// Adds `count` under `key`; a new key keeps `item`, a known one its first item.
pub open spec fn entered<T>(entries: Seq<Entry<T>>, key: Seq<char>, count: nat, item: T) -> Seq<
    Entry<T>,
> {
    let p = key_place(entries, key);
    if p < entries.len() && entries[p].key == key {
        entries.update(
            p,
            Entry { key, count: capped_sum(entries[p].count, count), item: entries[p].item },
        )
    } else {
        entries.insert(p, Entry { key, count, item })
    }
}

/// How often each of the given keys occurs.
pub open spec fn tallied(keys: Seq<Seq<char>>) -> Seq<Entry<()>>
    decreases keys.len(),
{
    if keys.len() == 0 {
        Seq::empty()
    } else {
        entered(tallied(keys.drop_last()), keys.last(), 1, ())
    }
}

pub proof fn lemma_key_place<T>(entries: Seq<Entry<T>>, key: Seq<char>)
    ensures
        0 <= key_place(entries, key) <= entries.len(),
    decreases entries.len(),
{
    if entries.len() > 0 {
        lemma_key_place(entries.drop_last(), key);
    }
}

/// Adds `count` under `key`.
pub fn enter<T>(entries: &mut Vec<Tallied<T>>, key: &str, count: usize, item: T)
    ensures
        entries_of(final(entries)@) == entered(
            entries_of(old(entries)@),
            key@,
            count as nat,
            item,
        ),
{
    let mut p: usize = entries.len();
    let ghost before = entries_of(entries@);
    proof {
        assert(before.take(p as int) =~= before);
    }
    while p > 0 && !matches!(compare_text(entries[p - 1].key.as_str(), key), Relation::Before)
        invariant
            p <= entries@.len(),
            before == entries_of(entries@),
            entries@ == old(entries)@,
            key_place(before, key@) == key_place(before.take(p as int), key@),
        decreases p,
    {
        proof {
            assert(before.take(p as int).drop_last() =~= before.take(p - 1));
        }
        p = p - 1;
    }
    proof {
        assert(p > 0 ==> before.take(p as int).last() == before[p - 1]);
        assert(key_place(before, key@) == p);
    }
    if p < entries.len() && matches!(compare_text(entries[p].key.as_str(), key), Relation::Same) {
        proof {
            lemma_text_relations(before[p as int].key, key@, key@);
        }
        let stored: Tallied<T> = entries.remove(p);
        let total: usize = stored.count.saturating_add(count);
        entries.insert(p, Tallied { key: stored.key, count: total, item: stored.item });
        proof {
            let after = entries_of(entries@);
            assert(after =~= before.update(p as int, after[p as int]));
        }
    } else {
        proof {
            if p < entries@.len() {
                lemma_text_relations(before[p as int].key, key@, key@);
            }
        }
        entries.insert(p, Tallied { key: key.to_owned(), count, item });
        proof {
            let after = entries_of(entries@);
            assert(after =~= before.insert(p as int, after[p as int]));
        }
    }
}

/// The keys follow each other in text order, each once.
pub open spec fn keys_ascend<T>(entries: Seq<Entry<T>>) -> bool {
    forall|i: int, j: int|
        0 <= i < j < entries.len() ==> text_relation(
            #[trigger] entries[i].key,
            #[trigger] entries[j].key,
        ) is Before
}

pub open spec fn occurrences(keys: Seq<Seq<char>>, key: Seq<char>) -> nat
    decreases keys.len(),
{
    if keys.len() == 0 {
        0
    } else {
        occurrences(keys.drop_last(), key) + if keys.last() == key {
            1nat
        } else {
            0
        }
    }
}

pub open spec fn total_count<T>(entries: Seq<Entry<T>>) -> nat
    decreases entries.len(),
{
    if entries.len() == 0 {
        0
    } else {
        total_count(entries.drop_last()) + entries.last().count
    }
}

/// In ascending entries the place of a key parts the smaller keys from the others.
proof fn lemma_place_parts<T>(entries: Seq<Entry<T>>, key: Seq<char>)
    requires
        keys_ascend(entries),
    ensures
        0 <= key_place(entries, key) <= entries.len(),
        forall|i: int|
            0 <= i < key_place(entries, key) ==> text_relation(
                (#[trigger] entries[i]).key,
                key,
            ) is Before,
        forall|i: int|
            key_place(entries, key) <= i < entries.len() ==> !(text_relation(
                (#[trigger] entries[i]).key,
                key,
            ) is Before),
    decreases entries.len(),
{
    if entries.len() > 0 {
        let n = entries.len() - 1;
        if text_relation(entries.last().key, key) is Before {
            assert forall|i: int| 0 <= i < entries.len() implies text_relation(
                (#[trigger] entries[i]).key,
                key,
            ) is Before by {
                if i < n {
                    lemma_text_relations(entries[i].key, entries[n].key, key);
                }
            }
        } else {
            lemma_place_parts(entries.drop_last(), key);
            let p = key_place(entries, key);
            assert forall|i: int| 0 <= i < p implies text_relation(
                (#[trigger] entries[i]).key,
                key,
            ) is Before by {
                assert(entries.drop_last()[i] == entries[i]);
            }
            assert forall|i: int| p <= i < entries.len() implies !(text_relation(
                (#[trigger] entries[i]).key,
                key,
            ) is Before) by {
                if i < n {
                    assert(entries.drop_last()[i] == entries[i]);
                }
            }
        }
    }
}

/// Entering keeps the keys in order.
pub proof fn lemma_entered_ascends<T>(entries: Seq<Entry<T>>, key: Seq<char>, count: nat, item: T)
    requires
        keys_ascend(entries),
    ensures
        keys_ascend(entered(entries, key, count, item)),
{
    lemma_place_parts(entries, key);
    let p = key_place(entries, key);
    let r = entered(entries, key, count, item);
    if p < entries.len() && entries[p].key == key {
        assert forall|i: int, j: int| 0 <= i < j < r.len() implies text_relation(
            #[trigger] r[i].key,
            #[trigger] r[j].key,
        ) is Before by {
            assert(r[i].key == entries[i].key && r[j].key == entries[j].key);
        }
    } else {
        assert forall|i: int, j: int| 0 <= i < j < r.len() implies text_relation(
            #[trigger] r[i].key,
            #[trigger] r[j].key,
        ) is Before by {
            let a = if i < p {
                i
            } else {
                i - 1
            };
            let b = if j < p {
                j
            } else {
                j - 1
            };
            if i == p {
                assert(r[j] == entries[b]);
                lemma_text_relations(entries[b].key, key, key);
                lemma_text_relations(key, entries[b].key, key);
                if p < b {
                    assert(text_relation(entries[p].key, entries[b].key) is Before);
                }
                lemma_text_relations(key, entries[p].key, entries[b].key);
            } else if j == p {
                assert(r[i] == entries[a]);
            } else {
                assert(r[i] == entries[a] && r[j] == entries[b]);
            }
        }
    }
}

proof fn lemma_total_insert<T>(entries: Seq<Entry<T>>, p: int, e: Entry<T>)
    requires
        0 <= p <= entries.len(),
    ensures
        total_count(entries.insert(p, e)) == total_count(entries) + e.count,
    decreases entries.len(),
{
    let r = entries.insert(p, e);
    if p == entries.len() {
        assert(r.drop_last() =~= entries);
    } else {
        lemma_total_insert(entries.drop_last(), p, e);
        assert(r.drop_last() =~= entries.drop_last().insert(p, e));
    }
}

proof fn lemma_total_update<T>(entries: Seq<Entry<T>>, p: int, e: Entry<T>)
    requires
        0 <= p < entries.len(),
    ensures
        total_count(entries.update(p, e)) + entries[p].count == total_count(entries) + e.count,
        entries[p].count <= total_count(entries),
    decreases entries.len(),
{
    let r = entries.update(p, e);
    if p == entries.len() - 1 {
        assert(r.drop_last() =~= entries.drop_last());
    } else {
        lemma_total_update(entries.drop_last(), p, e);
        assert(r.drop_last() =~= entries.drop_last().update(p, e));
    }
}

pub open spec fn has_key<T>(entries: Seq<Entry<T>>, key: Seq<char>) -> bool {
    exists|i: int| 0 <= i < entries.len() && (#[trigger] entries[i]).key == key
}

/// A tally lists each key that occurs once, in text order, with the number of its
/// occurrences; together the counts make up all the keys.
pub proof fn law_tally(keys: Seq<Seq<char>>)
    requires
        keys.len() <= usize::MAX,
    ensures
        keys_ascend(tallied(keys)),
        total_count(tallied(keys)) == keys.len(),
        forall|i: int|
            0 <= i < tallied(keys).len() ==> (#[trigger] tallied(keys)[i]).count == occurrences(
                keys,
                tallied(keys)[i].key,
            ),
        forall|i: int|
            0 <= i < tallied(keys).len() ==> keys.contains((#[trigger] tallied(keys)[i]).key),
        forall|j: int| 0 <= j < keys.len() ==> has_key(tallied(keys), #[trigger] keys[j]),
    decreases keys.len(),
{
    if keys.len() > 0 {
        let (front, key) = (keys.drop_last(), keys.last());
        let entries = tallied(front);
        law_tally(front);
        lemma_entered_ascends(entries, key, 1, ());
        lemma_tally_counts(front, entries, key);
        let r = tallied(keys);
        assert forall|i: int| 0 <= i < r.len() implies (#[trigger] r[i]).count == occurrences(
            keys,
            r[i].key,
        ) by {
            assert(r[i].count == occurrences(front, r[i].key) + if r[i].key == key {
                1nat
            } else {
                0
            });
        }
        assert forall|i: int| 0 <= i < r.len() implies keys.contains((#[trigger] r[i]).key) by {
            lemma_key_place(entries, key);
            if r[i].key == key {
                assert(keys[keys.len() - 1] == key);
            } else {
                let p = key_place(entries, key);
                let h = if r.len() == entries.len() || i < p {
                    i
                } else {
                    i - 1
                };
                assert(r[i] == entries[h]);
                let j = choose|j: int| 0 <= j < front.len() && front[j] == entries[h].key;
                assert(keys[j] == front[j]);
            }
        }
        assert forall|j: int| 0 <= j < keys.len() implies has_key(r, #[trigger] keys[j]) by {
            if j < front.len() {
                assert(front[j] == keys[j]);
                lemma_entered_keeps(entries, key, keys[j]);
            } else {
                lemma_entered_keeps(entries, key, key);
            }
        }
    }
}

/// Entering a key keeps the keys that are there and adds the new one.
proof fn lemma_entered_keeps(entries: Seq<Entry<()>>, key: Seq<char>, other: Seq<char>)
    requires
        has_key(entries, other) || other == key,
    ensures
        has_key(entered(entries, key, 1, ()), other),
{
    lemma_key_place(entries, key);
    let p = key_place(entries, key);
    let r = entered(entries, key, 1, ());
    if other == key {
        assert(r[p].key == key);
    } else {
        let i = choose|i: int| 0 <= i < entries.len() && (#[trigger] entries[i]).key == other;
        if r.len() == entries.len() || i < p {
            assert(r[i].key == other);
        } else {
            assert(r[i + 1].key == other);
        }
    }
}

/// Entering a key once more raises its own count alone.
proof fn lemma_tally_counts(keys: Seq<Seq<char>>, entries: Seq<Entry<()>>, key: Seq<char>)
    requires
        keys.len() < usize::MAX,
        keys_ascend(entries),
        total_count(entries) == keys.len(),
        forall|i: int|
            0 <= i < entries.len() ==> (#[trigger] entries[i]).count == occurrences(
                keys,
                entries[i].key,
            ),
        forall|j: int| 0 <= j < keys.len() ==> has_key(entries, #[trigger] keys[j]),
    ensures
        total_count(entered(entries, key, 1, ())) == keys.len() + 1,
        forall|i: int|
            0 <= i < entered(entries, key, 1, ()).len() ==> (#[trigger] entered(
                entries,
                key,
                1,
                (),
            )[i]).count == occurrences(keys, entered(entries, key, 1, ())[i].key) + if entered(
                entries,
                key,
                1,
                (),
            )[i].key == key {
                1nat
            } else {
                0
            },
{
    lemma_place_parts(entries, key);
    let p = key_place(entries, key);
    let r = entered(entries, key, 1, ());
    assert forall|i: int| 0 <= i < entries.len() && i != p implies (#[trigger] entries[i]).key
        != key by {
        lemma_text_relations(entries[i].key, key, key);
        if i > p {
            assert(text_relation(entries[p].key, entries[i].key) is Before);
        }
    }
    if p < entries.len() && entries[p].key == key {
        lemma_total_update(entries, p, r[p]);
        assert forall|i: int| 0 <= i < r.len() implies (#[trigger] r[i]).count == occurrences(
            keys,
            r[i].key,
        ) + if r[i].key == key {
            1nat
        } else {
            0
        } by {
            assert(entries[i].key == r[i].key);
        }
    } else {
        lemma_total_insert(entries, p, r[p]);
        assert(!has_key(entries, key));
        lemma_absent(keys, entries, key);
        assert forall|i: int| 0 <= i < r.len() implies (#[trigger] r[i]).count == occurrences(
            keys,
            r[i].key,
        ) + if r[i].key == key {
            1nat
        } else {
            0
        } by {
            if i < p {
                assert(r[i] == entries[i]);
            } else if i > p {
                assert(r[i] == entries[i - 1]);
            }
        }
    }
}

/// A key that no entry has does not occur.
proof fn lemma_absent(keys: Seq<Seq<char>>, entries: Seq<Entry<()>>, key: Seq<char>)
    requires
        forall|j: int| 0 <= j < keys.len() ==> has_key(entries, #[trigger] keys[j]),
        !has_key(entries, key),
    ensures
        occurrences(keys, key) == 0,
    decreases keys.len(),
{
    if keys.len() > 0 {
        let front = keys.drop_last();
        assert forall|j: int| 0 <= j < front.len() implies has_key(
            entries,
            #[trigger] front[j],
        ) by {
            assert(keys[j] == front[j]);
        }
        lemma_absent(front, entries, key);
        assert(keys[keys.len() - 1] == keys.last());
    }
}

} // verus!
