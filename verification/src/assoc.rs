//! A string-keyed association vector with a `Map` view.
//!
//! The store's in-memory index and compaction's transient last-action table
//! are both instances of this structure.

use vstd::prelude::*;

verus! {

/// One binding of a key to a value.
#[derive(Debug)]
pub struct Keyed<V> {
    /// The binding's key.
    pub key: String,
    /// The bound value.
    pub v: V,
}

/// The mapping an entry sequence denotes; later entries win.
pub open spec fn assoc_map<V>(s: Seq<Keyed<V>>) -> Map<Seq<char>, V>
    decreases s.len(),
{
    if s.len() == 0 {
        Map::empty()
    } else {
        assoc_map(s.drop_last()).insert(s.last().key@, s.last().v)
    }
}

/// No two entries share a key.
pub open spec fn assoc_distinct<V>(s: Seq<Keyed<V>>) -> bool {
    forall|i: int, j: int|
        0 <= i < j < s.len() ==> (#[trigger] s[i]).key@ != (#[trigger] s[j]).key@
}

/// A key is in the mapping exactly when some entry holds it.
pub proof fn lemma_assoc_map_domain<V>(s: Seq<Keyed<V>>, k: Seq<char>)
    ensures
        assoc_map(s).dom().contains(k) <==> exists|i: int|
            0 <= i < s.len() && (#[trigger] s[i]).key@ == k,
    decreases s.len(),
{
    if s.len() == 0 {
    } else {
        lemma_assoc_map_domain(s.drop_last(), k);
        if s.last().key@ == k {
            assert((#[trigger] s[s.len() - 1]).key@ == k);
        } else {
            if assoc_map(s).dom().contains(k) {
                let i = choose|i: int| 0 <= i < s.drop_last().len() && (#[trigger] s.drop_last()[i]).key@
                    == k;
                assert(s[i].key@ == k);
            }
            if exists|i: int| 0 <= i < s.len() && (#[trigger] s[i]).key@ == k {
                let i = choose|i: int| 0 <= i < s.len() && (#[trigger] s[i]).key@ == k;
                assert(s.drop_last()[i].key@ == k);
            }
        }
    }
}

/// With distinct keys, entry `i` gives the mapping's value at its key.
pub proof fn lemma_assoc_map_at<V>(s: Seq<Keyed<V>>, i: int)
    requires
        assoc_distinct(s),
        0 <= i < s.len(),
    ensures
        assoc_map(s).dom().contains(s[i].key@),
        assoc_map(s)[s[i].key@] == s[i].v,
    decreases s.len(),
{
    if i == s.len() - 1 {
    } else {
        assert(s[i].key@ != s[s.len() - 1].key@);
        lemma_assoc_map_at(s.drop_last(), i);
        assert(s.drop_last()[i] == s[i]);
    }
}

/// Replacing the value of entry `i`, keeping its key, inserts over the key.
pub proof fn lemma_assoc_map_update<V>(s1: Seq<Keyed<V>>, s2: Seq<Keyed<V>>, i: int)
    requires
        assoc_distinct(s1),
        0 <= i < s1.len(),
        s2.len() == s1.len(),
        forall|j: int| 0 <= j < s1.len() && j != i ==> s2[j] == s1[j],
        s2[i].key@ == s1[i].key@,
    ensures
        assoc_distinct(s2),
        assoc_map(s2) == assoc_map(s1).insert(s1[i].key@, s2[i].v),
    decreases s1.len(),
{
    assert(assoc_distinct(s2));
    if i == s1.len() - 1 {
        assert(s2.drop_last() =~= s1.drop_last());
        assert(assoc_map(s2) =~= assoc_map(s1).insert(s1[i].key@, s2[i].v));
    } else {
        lemma_assoc_map_update(s1.drop_last(), s2.drop_last(), i);
        assert(s1.drop_last()[i] == s1[i]);
        assert(s2.drop_last()[i] == s2[i]);
        assert(s2.last() == s1.last());
        assert(s1[i].key@ != s1.last().key@);
        assert(assoc_map(s2) =~= assoc_map(s1).insert(s1[i].key@, s2[i].v));
    }
}

/// Removing entry `i` removes exactly its key from the mapping.
pub proof fn lemma_assoc_map_remove<V>(s: Seq<Keyed<V>>, i: int)
    requires
        assoc_distinct(s),
        0 <= i < s.len(),
    ensures
        assoc_distinct(s.remove(i)),
        assoc_map(s.remove(i)) == assoc_map(s).remove(s[i].key@),
    decreases s.len(),
{
    lemma_assoc_map_domain(s.drop_last(), s[i].key@);
    if i == s.len() - 1 {
        assert(s.remove(i) =~= s.drop_last());
        assert(forall|j: int|
            0 <= j < s.drop_last().len() ==> (#[trigger] s.drop_last()[j]).key@ != s[i].key@);
        assert(!assoc_map(s.drop_last()).dom().contains(s[i].key@));
        assert(assoc_map(s.remove(i)) =~= assoc_map(s).remove(s[i].key@));
    } else {
        lemma_assoc_map_remove(s.drop_last(), i);
        assert(s.remove(i).drop_last() =~= s.drop_last().remove(i));
        assert(s.remove(i).last() == s.last());
        assert(s.drop_last()[i] == s[i]);
        assert(s[i].key@ != s.last().key@);
        assert(assoc_map(s.remove(i)) =~= assoc_map(s).remove(s[i].key@));
    }
}

/// Find the position of `key` among the entries, if any.
pub fn assoc_find<V>(entries: &Vec<Keyed<V>>, key: &String) -> (r: Option<usize>)
    ensures
        match r {
            Some(i) => i < entries@.len() && entries@[i as int].key@ == key@,
            None => forall|i: int|
                0 <= i < entries@.len() ==> (#[trigger] entries@[i]).key@ != key@,
        },
{
    let mut i: usize = 0;
    while i < entries.len()
        invariant
            i <= entries@.len(),
            forall|j: int| 0 <= j < i ==> (#[trigger] entries@[j]).key@ != key@,
        decreases entries@.len() - i,
    {
        if entries[i].key == *key {
            return Some(i);
        }
        i = i + 1;
    }
    None
}

/// Look the value for `key` up.
pub fn assoc_get<'a, V>(entries: &'a Vec<Keyed<V>>, key: &String) -> (r: Option<&'a V>)
    requires
        assoc_distinct(entries@),
    ensures
        match r {
            Some(v) => assoc_map(entries@).dom().contains(key@) && *v == assoc_map(entries@)[key@],
            None => !assoc_map(entries@).dom().contains(key@),
        },
{
    match assoc_find(entries, key) {
        Some(i) => {
            proof {
                lemma_assoc_map_at(entries@, i as int);
            }
            Some(&entries[i].v)
        },
        None => {
            proof {
                lemma_assoc_map_domain(entries@, key@);
            }
            None
        },
    }
}

/// Bind `key` to `v`, replacing any earlier binding.
pub fn assoc_put<V>(entries: &mut Vec<Keyed<V>>, key: String, v: V)
    requires
        assoc_distinct(old(entries)@),
    ensures
        assoc_distinct(final(entries)@),
        assoc_map(final(entries)@) == assoc_map(old(entries)@).insert(key@, v),
{
    match assoc_find(entries, &key) {
        Some(i) => {
            proof {
                lemma_assoc_map_at(entries@, i as int);
            }
            let ghost s1 = entries@;
            entries[i] = Keyed { key, v };
            proof {
                lemma_assoc_map_update(s1, entries@, i as int);
            }
        },
        None => {
            let ghost s1 = entries@;
            entries.push(Keyed { key, v });
            proof {
                assert(entries@.drop_last() =~= s1);
            }
        },
    }
}

/// Erase any binding of `key`; report whether one was there.
pub fn assoc_del<V>(entries: &mut Vec<Keyed<V>>, key: &String) -> (found: bool)
    requires
        assoc_distinct(old(entries)@),
    ensures
        assoc_distinct(final(entries)@),
        assoc_map(final(entries)@) == assoc_map(old(entries)@).remove(key@),
        found == assoc_map(old(entries)@).dom().contains(key@),
{
    proof {
        lemma_assoc_map_domain(entries@, key@);
    }
    match assoc_find(entries, key) {
        Some(i) => {
            let ghost s1 = entries@;
            entries.remove(i);
            proof {
                lemma_assoc_map_remove(s1, i as int);
            }
            true
        },
        None => {
            proof {
                assert(assoc_map(entries@).remove(key@) =~= assoc_map(entries@));
            }
            false
        },
    }
}

} // verus!
