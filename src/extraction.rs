use vstd::prelude::*;

use crate::entry_path::{entry_plan, ExtractError};

verus! {

/// One entry of a container as extraction sees it: its name, whether it
/// marks a directory, and the bytes its stream yields.
pub type EntryModel = (Seq<u8>, bool, Seq<u8>);

/// Entry `e` is written to the relative path `k`.
pub open spec fn writes_to(e: EntryModel, k: Seq<Seq<u8>>) -> bool {
    entry_plan(e.0, e.1) == Ok::<Option<Seq<Seq<u8>>>, ExtractError>(Some(k))
}

/// No entry of the container is refused, so a run does not abort.
pub open spec fn all_planned(entries: Seq<EntryModel>) -> bool {
    forall|i: int| 0 <= i < entries.len() ==> (#[trigger] entry_plan(entries[i].0, entries[i].1)) is Ok
}

/// No two file entries resolve to the same output path.
pub open spec fn distinct_file_paths(entries: Seq<EntryModel>) -> bool {
    forall|i: int, j: int, k: Seq<Seq<u8>>|
        0 <= i < entries.len() && 0 <= j < entries.len() && i != j && #[trigger] writes_to(
            entries[i],
            k,
        ) ==> !#[trigger] writes_to(entries[j], k)
}

/// The number of entries that are not directory markers.
pub open spec fn file_count(entries: Seq<EntryModel>) -> nat
    decreases entries.len(),
{
    if entries.len() == 0 {
        0
    } else {
        file_count(entries.drop_last()) + if entries.last().1 {
            0nat
        } else {
            1nat
        }
    }
}

/// The file tree that extracting `entries` in this order leaves below the
/// output root: each file entry's bytes at its enclosed path.
pub open spec fn extracted_tree(entries: Seq<EntryModel>) -> Map<Seq<Seq<u8>>, Seq<u8>>
    decreases entries.len(),
{
    if entries.len() == 0 {
        Map::empty()
    } else {
        let t = extracted_tree(entries.drop_last());
        let e = entries.last();
        match entry_plan(e.0, e.1) {
            Ok(Some(k)) => t.insert(k, e.2),
            _ => t,
        }
    }
}

proof fn lemma_tree_keys(entries: Seq<EntryModel>)
    ensures
        extracted_tree(entries).dom().finite(),
        forall|k: Seq<Seq<u8>>|
            #[trigger] extracted_tree(entries).contains_key(k) <==> exists|i: int|
                0 <= i < entries.len() && #[trigger] writes_to(entries[i], k),
    decreases entries.len(),
{
    if entries.len() > 0 {
        let prefix = entries.drop_last();
        lemma_tree_keys(prefix);
        let last = entries.len() - 1;
        assert forall|k: Seq<Seq<u8>>|
            #[trigger] extracted_tree(entries).contains_key(k) <==> exists|i: int|
                0 <= i < entries.len() && #[trigger] writes_to(entries[i], k) by {
            if extracted_tree(entries).contains_key(k) {
                if extracted_tree(prefix).contains_key(k) {
                    let i = choose|i: int| 0 <= i < prefix.len() && #[trigger] writes_to(prefix[i], k);
                    assert(entries[i] == prefix[i]);
                } else {
                    assert(writes_to(entries[last], k));
                }
            }
            if exists|i: int| 0 <= i < entries.len() && #[trigger] writes_to(entries[i], k) {
                let i = choose|i: int| 0 <= i < entries.len() && #[trigger] writes_to(entries[i], k);
                if i < last {
                    assert(prefix[i] == entries[i]);
                    assert(writes_to(prefix[i], k));
                }
            }
        }
    }
}

/// Every file entry's bytes come out unchanged at its enclosed path, and the
/// tree holds nothing but those files.
pub proof fn lemma_extracted_bytes_round_trip(entries: Seq<EntryModel>)
    requires
        distinct_file_paths(entries),
    ensures
        forall|k: Seq<Seq<u8>>|
            #[trigger] extracted_tree(entries).contains_key(k) <==> exists|i: int|
                0 <= i < entries.len() && #[trigger] writes_to(entries[i], k),
        forall|i: int, k: Seq<Seq<u8>>|
            0 <= i < entries.len() && #[trigger] writes_to(entries[i], k) ==> extracted_tree(
                entries,
            )[k] == entries[i].2,
    decreases entries.len(),
{
    lemma_tree_keys(entries);
    if entries.len() > 0 {
        let prefix = entries.drop_last();
        let last = entries.len() - 1;
        assert(distinct_file_paths(prefix)) by {
            assert forall|i: int, j: int, k: Seq<Seq<u8>>|
                0 <= i < prefix.len() && 0 <= j < prefix.len() && i != j && #[trigger] writes_to(
                    prefix[i],
                    k,
                ) implies !#[trigger] writes_to(prefix[j], k) by {
                assert(prefix[i] == entries[i] && prefix[j] == entries[j]);
            }
        }
        lemma_extracted_bytes_round_trip(prefix);
        assert forall|i: int, k: Seq<Seq<u8>>|
            0 <= i < entries.len() && #[trigger] writes_to(entries[i], k) implies extracted_tree(
            entries,
        )[k] == entries[i].2 by {
            if i < last {
                assert(prefix[i] == entries[i]);
                assert(!writes_to(entries[last], k));
            }
        }
    }
}

/// With no refused entry and no two files at one path, the tree holds
/// exactly one file per file entry: directory markers add none.
pub proof fn lemma_one_file_per_file_entry(entries: Seq<EntryModel>)
    requires
        all_planned(entries),
        distinct_file_paths(entries),
    ensures
        extracted_tree(entries).dom().finite(),
        extracted_tree(entries).dom().len() == file_count(entries),
    decreases entries.len(),
{
    lemma_tree_keys(entries);
    if entries.len() > 0 {
        let prefix = entries.drop_last();
        let last = entries.len() - 1;
        assert(all_planned(prefix)) by {
            assert forall|i: int| 0 <= i < prefix.len() implies (#[trigger] entry_plan(
                prefix[i].0,
                prefix[i].1,
            )) is Ok by {
                assert(prefix[i] == entries[i]);
            }
        }
        assert(distinct_file_paths(prefix)) by {
            assert forall|i: int, j: int, k: Seq<Seq<u8>>|
                0 <= i < prefix.len() && 0 <= j < prefix.len() && i != j && #[trigger] writes_to(
                    prefix[i],
                    k,
                ) implies !#[trigger] writes_to(prefix[j], k) by {
                assert(prefix[i] == entries[i] && prefix[j] == entries[j]);
            }
        }
        lemma_one_file_per_file_entry(prefix);
        lemma_tree_keys(prefix);
        let e = entries.last();
        assert(entry_plan(e.0, e.1) is Ok);
        if !e.1 {
            let k = entry_plan(e.0, e.1)->Ok_0->Some_0;
            assert(writes_to(entries[last], k));
            if extracted_tree(prefix).contains_key(k) {
                let i = choose|i: int| 0 <= i < prefix.len() && #[trigger] writes_to(prefix[i], k);
                assert(prefix[i] == entries[i]);
                assert(false);
            }
            assert(extracted_tree(entries).dom() == extracted_tree(prefix).dom().insert(k));
        }
    }
}

/// The tree does not depend on the order in which entries are extracted:
/// two runs that go through the same entries, in any two orders, leave
/// identical trees.
pub proof fn lemma_extraction_order_irrelevant(a: Seq<EntryModel>, b: Seq<EntryModel>)
    requires
        distinct_file_paths(a),
        distinct_file_paths(b),
        forall|i: int| 0 <= i < a.len() ==> b.contains(#[trigger] a[i]),
        forall|j: int| 0 <= j < b.len() ==> a.contains(#[trigger] b[j]),
    ensures
        extracted_tree(a) == extracted_tree(b),
{
    lemma_extracted_bytes_round_trip(a);
    lemma_extracted_bytes_round_trip(b);
    let ta = extracted_tree(a);
    let tb = extracted_tree(b);
    assert forall|k: Seq<Seq<u8>>| #[trigger] ta.contains_key(k) implies tb.contains_key(k)
        && ta[k] == tb[k] by {
        let i = choose|i: int| 0 <= i < a.len() && #[trigger] writes_to(a[i], k);
        assert(b.contains(a[i]));
        let j = choose|j: int| 0 <= j < b.len() && b[j] == a[i];
        assert(writes_to(b[j], k));
    }
    assert forall|k: Seq<Seq<u8>>| #[trigger] tb.contains_key(k) implies ta.contains_key(k) by {
        let j = choose|j: int| 0 <= j < b.len() && #[trigger] writes_to(b[j], k);
        assert(a.contains(b[j]));
        let i = choose|i: int| 0 <= i < a.len() && a[i] == b[j];
        assert(writes_to(a[i], k));
    }
    assert(ta =~= tb);
}

} // verus!
