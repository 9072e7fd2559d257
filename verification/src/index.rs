//! The in-memory index: each key's slot id, the offset of its latest log
//! record, and its deleted flag.

use vstd::prelude::*;

verus! {

/// Where a key's latest state lives: its slot in the vector file, the byte
/// offset of its defining record in the data log, and whether it is deleted.
#[derive(Debug, Clone)]
pub struct IndexEntry {
    /// Slot id in the vector file (index into the flat component array).
    pub id: u32,
    /// Byte offset of the record in the data log.
    pub data_offset: u64,
    /// Whether the key is logically deleted.
    pub deleted: bool,
}

/// An index entry in its mathematical form.
pub struct EntryView {
    pub id: u32,
    pub off: int,
    pub deleted: bool,
}

impl IndexEntry {
    pub open spec fn view(self) -> EntryView {
        EntryView { id: self.id, off: self.data_offset as int, deleted: self.deleted }
    }
}

/// One key with its entry: an element of the index vector.
#[derive(Debug, Clone)]
pub struct KeyedEntry {
    pub key: String,
    pub entry: IndexEntry,
}

/// The index holds each key at most once.
pub open spec fn unique_keys(es: Seq<KeyedEntry>) -> bool {
    forall|i: int, j: int| 0 <= i < j < es.len() ==> es[i].key@ != es[j].key@
}

/// The mapping an index vector stands for. Later entries win, though with
/// unique keys the order never matters.
pub open spec fn index_map(es: Seq<KeyedEntry>) -> Map<Seq<char>, EntryView>
    decreases es.len(),
{
    if es.len() == 0 {
        Map::empty()
    } else {
        index_map(es.drop_last()).insert(es.last().key@, es.last().entry.view())
    }
}

/// With unique keys, each element of the index vector is what the map holds
/// for its key.
pub proof fn lemma_index_map_at(es: Seq<KeyedEntry>, i: int)
    requires
        unique_keys(es),
        0 <= i < es.len(),
    ensures
        index_map(es).dom().contains(es[i].key@),
        index_map(es)[es[i].key@] == es[i].entry.view(),
    decreases es.len(),
{
    if i < es.len() - 1 {
        assert(unique_keys(es.drop_last()));
        lemma_index_map_at(es.drop_last(), i);
        assert(es[es.len() - 1].key@ != es[i].key@);
    }
}

/// A key no element of the index vector carries is outside the map's domain.
pub proof fn lemma_index_map_absent(es: Seq<KeyedEntry>, k: Seq<char>)
    requires
        forall|i: int| 0 <= i < es.len() ==> es[i].key@ != k,
    ensures
        !index_map(es).dom().contains(k),
    decreases es.len(),
{
    if es.len() > 0 {
        lemma_index_map_absent(es.drop_last(), k);
    }
}

/// Appending one element inserts its key into the map.
pub proof fn lemma_index_map_push(es: Seq<KeyedEntry>, e: KeyedEntry)
    ensures
        index_map(es.push(e)) == index_map(es).insert(e.key@, e.entry.view()),
{
    assert(es.push(e).drop_last() =~= es);
    assert(es.push(e).last() == e);
}

/// Replacing the element that holds key `k` updates the map at `k` alone.
pub proof fn lemma_index_map_update(es: Seq<KeyedEntry>, i: int, e: KeyedEntry)
    requires
        unique_keys(es),
        0 <= i < es.len(),
        es[i].key@ == e.key@,
    ensures
        index_map(es.update(i, e)) == index_map(es).insert(e.key@, e.entry.view()),
    decreases es.len(),
{
    let es2 = es.update(i, e);
    if i == es.len() - 1 {
        assert(es2.drop_last() =~= es.drop_last());
        assert(es2.last() == e);
        assert(index_map(es2) =~= index_map(es).insert(e.key@, e.entry.view())) by {
            assert(index_map(es2) == index_map(es.drop_last()).insert(e.key@, e.entry.view()));
            assert(index_map(es) == index_map(es.drop_last()).insert(
                es.last().key@,
                es.last().entry.view(),
            ));
            assert(es.last().key@ == e.key@);
        }
    } else {
        assert(unique_keys(es.drop_last()));
        assert(es2.drop_last() =~= es.drop_last().update(i, e));
        lemma_index_map_update(es.drop_last(), i, e);
        assert(es2.last() == es.last());
        assert(es.last().key@ != e.key@);
        assert(index_map(es2) =~= index_map(es).insert(e.key@, e.entry.view()));
    }
}

/// The map's domain is exactly the set of keys the index vector carries.
pub proof fn lemma_index_map_dom(es: Seq<KeyedEntry>, k: Seq<char>)
    ensures
        index_map(es).dom().contains(k) <==> exists|i: int|
            0 <= i < es.len() && es[i].key@ == k,
    decreases es.len(),
{
    if es.len() > 0 {
        lemma_index_map_dom(es.drop_last(), k);
        if index_map(es).dom().contains(k) {
            if es.last().key@ == k {
                assert(es[es.len() - 1].key@ == k);
            } else {
                let i = choose|i: int| 0 <= i < es.drop_last().len() && es.drop_last()[i].key@
                    == k;
                assert(es[i].key@ == k);
            }
        }
        if exists|i: int| 0 <= i < es.len() && es[i].key@ == k {
            let i = choose|i: int| 0 <= i < es.len() && es[i].key@ == k;
            if i < es.len() - 1 {
                assert(es.drop_last()[i].key@ == k);
            }
        }
    }
}

/// Finds the position of `key` in the index vector.
pub fn find_entry(es: &Vec<KeyedEntry>, key: &String) -> (r: Option<usize>)
    ensures
        match r {
            Some(i) => i < es@.len() && es@[i as int].key@ == key@,
            None => forall|i: int| 0 <= i < es@.len() ==> es@[i].key@ != key@,
        },
{
    let n = es.len();
    let mut i: usize = 0;
    while i < n
        invariant
            i <= n,
            n == es@.len(),
            forall|j: int| 0 <= j < i ==> es@[j].key@ != key@,
        decreases n - i,
    {
        if es[i].key == *key {
            return Some(i);
        }
        i = i + 1;
    }
    None
}

} // verus!
