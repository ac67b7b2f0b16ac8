use vstd::prelude::*;

use crate::entry::Entry;
use crate::entry::FileRecord;
use crate::entry::RecordView;

verus! {

/// The pre-order flattening of one node: the node itself, then its children,
/// each flattened in turn, in their stored order.
pub open spec fn flat_of(e: Entry) -> Seq<RecordView>
    decreases e,
{
    seq![e.record()] + flat_of_seq(e.children@)
}

/// The concatenated flattenings of a sequence of sibling nodes.
pub open spec fn flat_of_seq(s: Seq<Entry>) -> Seq<RecordView>
    decreases s,
{
    if s.len() == 0 {
        Seq::empty()
    } else {
        flat_of(s[0]) + flat_of_seq(s.drop_first())
    }
}

/// The views of a sequence of flattened records.
pub open spec fn records_view(s: Seq<FileRecord>) -> Seq<RecordView> {
    s.map_values(|r: FileRecord| r@)
}

/// How many nodes a tree holds.
pub open spec fn node_count(e: Entry) -> nat
    decreases e,
{
    1 + node_count_seq(e.children@)
}

/// How many nodes a sequence of sibling trees holds.
pub open spec fn node_count_seq(s: Seq<Entry>) -> nat
    decreases s,
{
    if s.len() == 0 {
        0
    } else {
        node_count(s[0]) + node_count_seq(s.drop_first())
    }
}

/// How many file leaves a tree holds.
pub open spec fn file_count(e: Entry) -> nat
    decreases e,
{
    (if e.is_file {
        1nat
    } else {
        0nat
    }) + file_count_seq(e.children@)
}

/// How many file leaves a sequence of sibling trees holds.
pub open spec fn file_count_seq(s: Seq<Entry>) -> nat
    decreases s,
{
    if s.len() == 0 {
        0
    } else {
        file_count(s[0]) + file_count_seq(s.drop_first())
    }
}

/// Flattening visits every reachable node exactly once: the flat list is
/// exactly as long as the tree has nodes.
pub proof fn lemma_flatten_visits_all(e: Entry)
    ensures
        flat_of(e).len() == node_count(e),
    decreases e,
{
    lemma_flatten_visits_all_seq(e.children@);
}

/// Flattening a forest visits every node of every tree exactly once.
pub proof fn lemma_flatten_visits_all_seq(s: Seq<Entry>)
    ensures
        flat_of_seq(s).len() == node_count_seq(s),
    decreases s,
{
    if s.len() > 0 {
        lemma_flatten_visits_all(s[0]);
        lemma_flatten_visits_all_seq(s.drop_first());
    }
}

/// Flattening visits every reachable file exactly once: the flat list holds
/// exactly one file record per file leaf of the tree.
pub proof fn lemma_flatten_visits_all_files(e: Entry)
    ensures
        flat_of(e).filter(|r: RecordView| r.is_file).len() == file_count(e),
    decreases e,
{
    let p = |r: RecordView| r.is_file;
    let single = seq![e.record()];
    lemma_flatten_visits_all_files_seq(e.children@);
    Seq::filter_distributes_over_add(single, flat_of_seq(e.children@), p);
    reveal_with_fuel(Seq::filter, 2);
    assert(single.drop_last() =~= Seq::<RecordView>::empty());
    assert(single.filter(p).len() == (if e.is_file {
        1int
    } else {
        0int
    }));
}

/// Flattening a forest visits every file of every tree exactly once.
pub proof fn lemma_flatten_visits_all_files_seq(s: Seq<Entry>)
    ensures
        flat_of_seq(s).filter(|r: RecordView| r.is_file).len() == file_count_seq(s),
    decreases s,
{
    let p = |r: RecordView| r.is_file;
    if s.len() == 0 {
        reveal(Seq::filter);
    } else {
        lemma_flatten_visits_all_files(s[0]);
        lemma_flatten_visits_all_files_seq(s.drop_first());
        Seq::filter_distributes_over_add(flat_of(s[0]), flat_of_seq(s.drop_first()), p);
    }
}

/// Appends the pre-order flattening of `parent` to `flat_list`, consuming
/// the tree: the node itself first, then every descendant, in order.
#[verifier::loop_isolation(false)]
pub fn create_flat_list(flat_list: &mut Vec<FileRecord>, parent: Entry)
    ensures
        records_view(final(flat_list)@) == records_view(old(flat_list)@) + flat_of(parent),
    decreases parent,
{
    let ghost p = parent;
    let Entry { is_file, path, name, children, level, hash } = parent;
    let rec = FileRecord { is_file, name, path, level, hash };
    proof {
        assert(rec@ == p.record());
    }
    flat_list.push(rec);
    proof {
        assert(records_view(flat_list@) =~= records_view(old(flat_list)@) + seq![p.record()]);
    }
    let ghost pre = records_view(flat_list@);
    let mut rest = children;
    let ghost all = p.children@;
    let ghost mut k: int = 0;
    proof {
        assert(decreases_to!(p => p.children));
        assert(decreases_to!(p.children => p.children@));
        assert(rest@ =~= all.subrange(0, all.len() as int));
    }
    while rest.len() > 0
        invariant
            0 <= k <= all.len(),
            rest@ == all.subrange(k, all.len() as int),
            records_view(flat_list@) + flat_of_seq(rest@) == pre + flat_of_seq(all),
            decreases_to!(p => all),
        decreases rest@.len(),
    {
        let ghost before = rest@;
        let child = rest.remove(0);
        proof {
            assert(child == all[k]);
            assert(decreases_to!(all => all[k]));
            assert(rest@ =~= all.subrange(k + 1, all.len() as int));
            assert(before[0] == child);
            assert(before.drop_first() =~= rest@);
            assert(flat_of_seq(before) == flat_of(child) + flat_of_seq(rest@));
        }
        let ghost fl_before = records_view(flat_list@);
        proof {
            assert(decreases_to!(p => child));
        }
        create_flat_list(flat_list, child);
        proof {
            assert(records_view(flat_list@) == fl_before + flat_of(child));
            assert((fl_before + flat_of(child)) + flat_of_seq(rest@) =~= fl_before + (flat_of(
                child,
            ) + flat_of_seq(rest@)));
            k = k + 1;
        }
    }
    proof {
        assert(rest@ =~= Seq::<Entry>::empty());
        assert(flat_of_seq(rest@) =~= Seq::<RecordView>::empty());
        assert(records_view(flat_list@) + flat_of_seq(rest@) =~= records_view(flat_list@));
        assert(pre + flat_of_seq(all) =~= records_view(old(flat_list)@) + flat_of(p));
    }
}

} // verus!
