use vstd::prelude::*;

verus! {

// Lists of entries keyed by name, with each name at most once, and the maps
// they stand for.

/// The map that a list of named entries stands for, where names are unique.
pub open spec fn entries_map<V>(entries: Seq<(String, V)>) -> Map<Seq<char>, V> {
    Map::new(
        |k: Seq<char>| exists|i: int| 0 <= i < entries.len() && entries[i].0@ == k,
        |k: Seq<char>| entries[choose|i: int| 0 <= i < entries.len() && entries[i].0@ == k].1,
    )
}

/// No name occurs twice among the entries.
pub open spec fn names_unique<V>(entries: Seq<(String, V)>) -> bool {
    forall|i: int, j: int|
        0 <= i < entries.len() && 0 <= j < entries.len() && i != j ==> entries[i].0@ != entries[j].0@
}

pub proof fn lemma_entry_in_map<V>(entries: Seq<(String, V)>, i: int)
    requires
        names_unique(entries),
        0 <= i < entries.len(),
    ensures
        entries_map(entries).contains_key(entries[i].0@),
        entries_map(entries)[entries[i].0@] == entries[i].1,
{
    let k = entries[i].0@;
    assert(exists|j: int| 0 <= j < entries.len() && entries[j].0@ == k);
}

pub proof fn lemma_map_after_update<V>(entries: Seq<(String, V)>, i: int, e: (String, V))
    requires
        names_unique(entries),
        0 <= i < entries.len(),
        entries[i].0@ == e.0@,
    ensures
        names_unique(entries.update(i, e)),
        entries_map(entries.update(i, e)) == entries_map(entries).insert(e.0@, e.1),
{
    let n = entries.update(i, e);
    lemma_entry_in_map(n, i);
    assert forall|k: Seq<char>| #[trigger] entries_map(n).contains_key(k) implies
        entries_map(entries).insert(e.0@, e.1).contains_key(k)
        && entries_map(n)[k] == entries_map(entries).insert(e.0@, e.1)[k] by {
        let j = choose|j: int| 0 <= j < n.len() && n[j].0@ == k;
        lemma_entry_in_map(n, j);
        if j != i {
            lemma_entry_in_map(entries, j);
        }
    }
    assert forall|k: Seq<char>| #[trigger] entries_map(entries).insert(e.0@, e.1).contains_key(k)
        implies entries_map(n).contains_key(k) by {
        if k != e.0@ {
            let j = choose|j: int| 0 <= j < entries.len() && entries[j].0@ == k;
            lemma_entry_in_map(n, j);
        }
    }
    assert(entries_map(n) =~= entries_map(entries).insert(e.0@, e.1));
}

pub proof fn lemma_map_after_push<V>(entries: Seq<(String, V)>, e: (String, V))
    requires
        names_unique(entries),
        !entries_map(entries).contains_key(e.0@),
    ensures
        names_unique(entries.push(e)),
        entries_map(entries.push(e)) == entries_map(entries).insert(e.0@, e.1),
{
    let n = entries.push(e);
    assert forall|j: int| 0 <= j < entries.len() implies #[trigger] entries[j].0@ != e.0@ by {
        lemma_entry_in_map(entries, j);
    }
    assert(names_unique(n));
    lemma_entry_in_map(n, entries.len() as int);
    assert forall|k: Seq<char>| #[trigger] entries_map(n).contains_key(k) implies
        entries_map(entries).insert(e.0@, e.1).contains_key(k)
        && entries_map(n)[k] == entries_map(entries).insert(e.0@, e.1)[k] by {
        let j = choose|j: int| 0 <= j < n.len() && n[j].0@ == k;
        lemma_entry_in_map(n, j);
        if j < entries.len() {
            lemma_entry_in_map(entries, j);
        }
    }
    assert forall|k: Seq<char>| #[trigger] entries_map(entries).insert(e.0@, e.1).contains_key(k)
        implies entries_map(n).contains_key(k) by {
        if k != e.0@ {
            let j = choose|j: int| 0 <= j < entries.len() && entries[j].0@ == k;
            lemma_entry_in_map(n, j);
        }
    }
    assert(entries_map(n) =~= entries_map(entries).insert(e.0@, e.1));
}

pub proof fn lemma_map_after_remove<V>(entries: Seq<(String, V)>, i: int)
    requires
        names_unique(entries),
        0 <= i < entries.len(),
    ensures
        names_unique(entries.remove(i)),
        entries_map(entries.remove(i)) == entries_map(entries).remove(entries[i].0@),
{
    let n = entries.remove(i);
    let key = entries[i].0@;
    assert forall|a: int, b: int| 0 <= a < n.len() && 0 <= b < n.len() && a != b implies
        n[a].0@ != n[b].0@ by {
        let a2 = if a < i { a } else { a + 1 };
        let b2 = if b < i { b } else { b + 1 };
        assert(n[a] == entries[a2]);
        assert(n[b] == entries[b2]);
    }
    assert forall|k: Seq<char>| #[trigger] entries_map(n).contains_key(k) implies
        entries_map(entries).remove(key).contains_key(k)
        && entries_map(n)[k] == entries_map(entries).remove(key)[k] by {
        let j = choose|j: int| 0 <= j < n.len() && n[j].0@ == k;
        lemma_entry_in_map(n, j);
        let j2 = if j < i { j } else { j + 1 };
        assert(n[j] == entries[j2]);
        lemma_entry_in_map(entries, j2);
    }
    assert forall|k: Seq<char>| #[trigger] entries_map(entries).remove(key).contains_key(k)
        implies entries_map(n).contains_key(k) by {
        let j = choose|j: int| 0 <= j < entries.len() && entries[j].0@ == k;
        assert(j != i);
        let j2 = if j < i { j } else { j - 1 };
        assert(n[j2] == entries[j]);
        lemma_entry_in_map(n, j2);
    }
    assert(entries_map(n) =~= entries_map(entries).remove(key));
}

} // verus!
