//! Lists of `(name, count)` entries with unique names: the per-element counts
//! of a formula and the coefficients of an equation side.
use vstd::prelude::*;

verus! {

/// A list of entries seen as names and counts.
pub open spec fn entries_view(v: Seq<(String, u64)>) -> Seq<(Seq<char>, nat)> {
    v.map_values(|e: (String, u64)| (e.0@, e.1 as nat))
}

/// The names of a list of entries, in order.
pub open spec fn keys_of(es: Seq<(Seq<char>, nat)>) -> Seq<Seq<char>> {
    es.map_values(|e: (Seq<char>, nat)| e.0)
}

/// No name occurs twice.
pub open spec fn unique_keys(es: Seq<(Seq<char>, nat)>) -> bool {
    forall|a: int, b: int|
        0 <= a < es.len() && 0 <= b < es.len() && a != b ==> (#[trigger] es[a]).0 != (
        #[trigger] es[b]).0
}

/// Where the last entry named `k` stands, or -1 where none is.
pub open spec fn key_index(es: Seq<(Seq<char>, nat)>, k: Seq<char>) -> int
    decreases es.len(),
{
    if es.len() == 0 {
        -1
    } else if es.last().0 == k {
        es.len() - 1
    } else {
        key_index(es.drop_last(), k)
    }
}

/// The count under the name `k`, or 0 where there is none.
pub open spec fn count_of(es: Seq<(Seq<char>, nat)>, k: Seq<char>) -> nat {
    let i = key_index(es, k);
    if i >= 0 {
        es[i].1
    } else {
        0
    }
}

/// The list with the count under `k` set to `v`: in place where `k` is there,
/// else at the end.
pub open spec fn insert_entry(es: Seq<(Seq<char>, nat)>, k: Seq<char>, v: nat) -> Seq<
    (Seq<char>, nat),
> {
    let i = key_index(es, k);
    if i >= 0 {
        es.update(i, (k, v))
    } else {
        es.push((k, v))
    }
}

pub proof fn lemma_key_index_range(es: Seq<(Seq<char>, nat)>, k: Seq<char>)
    ensures
        -1 <= key_index(es, k) < es.len(),
        key_index(es, k) >= 0 ==> es[key_index(es, k)].0 == k,
        key_index(es, k) == -1 ==> forall|i: int| 0 <= i < es.len() ==> (#[trigger] es[i]).0 != k,
    decreases es.len(),
{
    if es.len() > 0 && es.last().0 != k {
        lemma_key_index_range(es.drop_last(), k);
        if key_index(es, k) == -1 {
            assert forall|i: int| 0 <= i < es.len() implies (#[trigger] es[i]).0 != k by {
                if i < es.len() - 1 {
                    assert(es[i] == es.drop_last()[i]);
                }
            }
        }
    }
}

/// With unique names, the entry named `es[i].0` is the one at `i`.
pub proof fn lemma_key_index_unique(es: Seq<(Seq<char>, nat)>, i: int)
    requires
        unique_keys(es),
        0 <= i < es.len(),
    ensures
        key_index(es, es[i].0) == i,
{
    lemma_key_index_range(es, es[i].0);
}

/// Two lists with the same names find every name at the same place.
pub proof fn lemma_key_index_same_keys(
    es: Seq<(Seq<char>, nat)>,
    fs: Seq<(Seq<char>, nat)>,
    k: Seq<char>,
)
    requires
        keys_of(es) == keys_of(fs),
    ensures
        key_index(es, k) == key_index(fs, k),
    decreases es.len(),
{
    assert(es.len() == keys_of(es).len());
    assert(fs.len() == keys_of(fs).len());
    if es.len() > 0 {
        assert(es.last().0 == keys_of(es).last());
        assert(fs.last().0 == keys_of(fs).last());
        assert(keys_of(es.drop_last()) =~= keys_of(es).drop_last());
        assert(keys_of(fs.drop_last()) =~= keys_of(fs).drop_last());
        lemma_key_index_same_keys(es.drop_last(), fs.drop_last(), k);
    }
}

/// What `insert_entry` does to names and counts.
pub proof fn lemma_insert_entry(es: Seq<(Seq<char>, nat)>, k: Seq<char>, v: nat)
    requires
        unique_keys(es),
    ensures
        unique_keys(insert_entry(es, k, v)),
        count_of(insert_entry(es, k, v), k) == v,
        forall|j: Seq<char>| j != k ==> count_of(insert_entry(es, k, v), j) == count_of(es, j),
        key_index(es, k) >= 0 ==> keys_of(insert_entry(es, k, v)) == keys_of(es),
        key_index(es, k) == -1 ==> keys_of(insert_entry(es, k, v)) == keys_of(es).push(k),
{
    let fs = insert_entry(es, k, v);
    lemma_key_index_range(es, k);
    let i = key_index(es, k);
    if i >= 0 {
        assert(keys_of(fs) =~= keys_of(es));
        assert forall|j: Seq<char>| j != k implies count_of(fs, j) == count_of(es, j) by {
            lemma_key_index_same_keys(fs, es, j);
            lemma_key_index_range(es, j);
        }
        lemma_key_index_same_keys(fs, es, k);
    } else {
        assert(keys_of(fs) =~= keys_of(es).push(k));
        assert(fs.drop_last() =~= es);
        assert forall|j: Seq<char>| j != k implies count_of(fs, j) == count_of(es, j) by {
            lemma_key_index_range(es, j);
        }
    }
}

/// Where the entry named `key` stands.
pub fn find_key(es: &Vec<(String, u64)>, key: &String) -> (r: Option<usize>)
    ensures
        r matches Some(i) ==> key_index(entries_view(es@), key@) == i,
        r is None ==> key_index(entries_view(es@), key@) == -1,
{
    let mut k = es.len();
    assert(entries_view(es@).subrange(0, k as int) =~= entries_view(es@));
    while k > 0
        invariant
            k <= es.len(),
            key_index(entries_view(es@), key@) == key_index(
                entries_view(es@).subrange(0, k as int),
                key@,
            ),
        decreases k,
    {
        let ghost pre = entries_view(es@).subrange(0, k as int);
        assert(pre.last() == entries_view(es@)[k - 1]);
        if es[k - 1].0 == *key {
            return Some(k - 1);
        }
        assert(pre.drop_last() =~= entries_view(es@).subrange(0, k - 1));
        k -= 1;
    }
    None
}

/// The count under the name `key`, or 0 where there is none.
pub fn count_in(es: &Vec<(String, u64)>, name: &str) -> (r: u64)
    ensures
        r == count_of(entries_view(es@), name@),
{
    let key = name.to_owned();
    proof {
        lemma_key_index_range(entries_view(es@), key@);
    }
    match find_key(es, &key) {
        Some(i) => es[i].1,
        None => 0,
    }
}

} // verus!
