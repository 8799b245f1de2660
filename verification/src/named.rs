//! Lists of named entries, looked up by name.
use vstd::prelude::*;

verus! {

/// Where `name` stands in `entries`; the last place where it stands twice.
pub open spec fn entry_index<T>(entries: Seq<(Seq<char>, T)>, name: Seq<char>) -> Option<int>
    decreases entries.len(),
{
    if entries.len() == 0 {
        None
    } else if entries.last().0 == name {
        Some(entries.len() - 1)
    } else {
        entry_index(entries.drop_last(), name)
    }
}

/// What `entries` holds under `name`.
pub open spec fn find_entry<T>(entries: Seq<(Seq<char>, T)>, name: Seq<char>) -> Option<T> {
    match entry_index(entries, name) {
        Some(i) => Some(entries[i].1),
        None => None,
    }
}

/// `entries` with `value` under `name`: in the place of the old value where
/// there is one, at the end where there is none.
pub open spec fn put_entry<T>(entries: Seq<(Seq<char>, T)>, name: Seq<char>, value: T) -> Seq<
    (Seq<char>, T),
> {
    match entry_index(entries, name) {
        Some(i) => entries.update(i, (name, value)),
        None => entries.push((name, value)),
    }
}

/// No name stands twice.
pub open spec fn distinct_names<T>(entries: Seq<(Seq<char>, T)>) -> bool {
    forall|i: int, j: int|
        0 <= i < j < entries.len() ==> (#[trigger] entries[i]).0 != (#[trigger] entries[j]).0
}

pub proof fn lemma_entry_index<T>(entries: Seq<(Seq<char>, T)>, name: Seq<char>)
    ensures
        match entry_index(entries, name) {
            Some(i) => 0 <= i < entries.len() && entries[i].0 == name,
            None => forall|i: int| 0 <= i < entries.len() ==> (#[trigger] entries[i]).0 != name,
        },
    decreases entries.len(),
{
    if entries.len() > 0 && entries.last().0 != name {
        lemma_entry_index(entries.drop_last(), name);
        if entry_index(entries, name) is None {
            assert forall|i: int| 0 <= i < entries.len() implies (#[trigger] entries[i]).0
                != name by {
                if i < entries.len() - 1 {
                    assert(entries.drop_last()[i] == entries[i]);
                }
            }
        }
    }
}

/// Among distinct names the place of a name is the only one it stands at.
pub proof fn lemma_entry_index_unique<T>(
    entries: Seq<(Seq<char>, T)>,
    name: Seq<char>,
    i: int,
)
    requires
        distinct_names(entries),
        0 <= i < entries.len(),
        entries[i].0 == name,
    ensures
        entry_index(entries, name) == Some(i),
{
    lemma_entry_index(entries, name);
    let k = entry_index(entries, name)->0;
    if k < i {
        assert(entries[k].0 != entries[i].0);
    } else if i < k {
        assert(entries[i].0 != entries[k].0);
    }
}

pub proof fn lemma_put_distinct<T>(entries: Seq<(Seq<char>, T)>, name: Seq<char>, value: T)
    requires
        distinct_names(entries),
    ensures
        distinct_names(put_entry(entries, name, value)),
{
    lemma_entry_index(entries, name);
    let after = put_entry(entries, name, value);
    assert forall|i: int, j: int| 0 <= i < j < after.len() implies (#[trigger] after[i]).0 != (
    #[trigger] after[j]).0 by {
        if j < entries.len() {
            assert(entries[i].0 != entries[j].0);
            assert(after[i].0 == entries[i].0);
            assert(after[j].0 == entries[j].0);
        } else {
            assert(after[i] == entries[i]);
        }
    }
}

/// What was put under a name is found under it, and under every other name is
/// found what was there before.
pub proof fn law_what_was_put_is_found<T>(
    entries: Seq<(Seq<char>, T)>,
    name: Seq<char>,
    value: T,
    other: Seq<char>,
)
    requires
        distinct_names(entries),
    ensures
        find_entry(put_entry(entries, name, value), name) == Some(value),
        other != name ==> find_entry(put_entry(entries, name, value), other) == find_entry(
            entries,
            other,
        ),
{
    let after = put_entry(entries, name, value);
    lemma_put_distinct(entries, name, value);
    lemma_entry_index(entries, name);
    match entry_index(entries, name) {
        Some(i) => {
            lemma_entry_index_unique(after, name, i);
        },
        None => {
            lemma_entry_index_unique(after, name, entries.len() as int);
        },
    }
    if other != name {
        lemma_entry_index(entries, other);
        lemma_entry_index(after, other);
        match entry_index(entries, other) {
            Some(i) => {
                assert(after[i] == entries[i]);
                lemma_entry_index_unique(after, other, i);
            },
            None => {
                if entry_index(after, other) is Some {
                    let i = entry_index(after, other)->0;
                    if i < entries.len() {
                        assert(after[i].0 == entries[i].0);
                    }
                    assert(false);
                }
            },
        }
    }
}

/// Looking up commutes with a change of the values.
pub proof fn lemma_entry_index_same_names<T, U>(
    a: Seq<(Seq<char>, T)>,
    b: Seq<(Seq<char>, U)>,
    name: Seq<char>,
)
    requires
        a.len() == b.len(),
        forall|i: int| 0 <= i < a.len() ==> (#[trigger] a[i]).0 == b[i].0,
    ensures
        entry_index(a, name) == entry_index(b, name),
    decreases a.len(),
{
    if a.len() > 0 {
        assert(a[a.len() - 1].0 == b[a.len() - 1].0);
        assert forall|i: int| 0 <= i < a.drop_last().len() implies (#[trigger] a.drop_last()[i]).0
            == b.drop_last()[i].0 by {
            assert(a[i].0 == b[i].0);
        }
        lemma_entry_index_same_names(a.drop_last(), b.drop_last(), name);
    }
}

/// A list of entries with each name taken by its characters.
pub open spec fn keyed<T>(entries: Seq<(String, T)>) -> Seq<(Seq<char>, T)> {
    Seq::new(entries.len(), |i: int| (entries[i].0@, entries[i].1))
}

/// Where `name` stands.
pub fn position<T>(entries: &Vec<(String, T)>, name: &str) -> (r: Option<usize>)
    ensures
        match (r, entry_index(keyed(entries@), name@)) {
            (Some(i), Some(j)) => i == j && i < entries@.len(),
            (None, None) => true,
            _ => false,
        },
{
    let ghost all = keyed(entries@);
    let mut i: usize = entries.len();
    assert(all.take(i as int) =~= all);
    while i > 0
        invariant
            all == keyed(entries@),
            i <= entries@.len(),
            entry_index(all, name@) == entry_index(all.take(i as int), name@),
        decreases i,
    {
        assert(all.take(i as int).last() == all[i - 1]);
        assert(all.take(i as int).drop_last() =~= all.take(i - 1));
        i = i - 1;
        if *entries[i].0.as_str() == *name {
            return Some(i);
        }
    }
    None
}

/// What stands under `name`.
pub fn find<'a, T>(entries: &'a Vec<(String, T)>, name: &str) -> (r: Option<&'a T>)
    ensures
        match (r, find_entry(keyed(entries@), name@)) {
            (Some(v), Some(w)) => *v == w,
            (None, None) => true,
            _ => false,
        },
{
    match position(entries, name) {
        Some(i) => Some(&entries[i].1),
        None => None,
    }
}

/// Puts `value` under `name`, over the value that was there.
pub fn put<T>(entries: &mut Vec<(String, T)>, name: String, value: T)
    ensures
        keyed(final(entries)@) == put_entry(keyed(old(entries)@), name@, value),
{
    proof {
        lemma_entry_index(keyed(entries@), name@);
    }
    match position(entries, name.as_str()) {
        Some(i) => {
            entries.set(i, (name, value));
        },
        None => {
            entries.push((name, value));
        },
    }
    assert(keyed(entries@) =~= put_entry(keyed(old(entries)@), name@, value));
}

} // verus!
