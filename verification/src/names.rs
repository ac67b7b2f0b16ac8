use vstd::prelude::*;

use crate::engine::Match;
use crate::engine::MatchView;
use crate::engine::dup_groups;
use crate::engine::group_by_hash;
use crate::engine::flatten_forest;
use crate::engine::lemma_filter_push;
use crate::entry::Entry;
use crate::entry::FileRecord;
use crate::entry::RecordView;
use crate::fingerprint::Fingerprint;
use crate::flatten::flat_of_seq;
use crate::flatten::records_view;

verus! {

/// The UTF-8 bytes of the uppercase form of a piece of text, as the
/// standard library computes it. It is a pure function of the characters
/// alone; nothing else is assumed of its value.
pub uninterp spec fn upper_of(s: Seq<char>) -> Seq<u8>;

/// Relies on str::to_uppercase: the uppercase mapping depends on the
/// characters alone, and an empty text stays empty; String::into_bytes
/// hands out the UTF-8 bytes of the result.
#[verifier::external_body]
fn to_upper_bytes(s: &String) -> (r: Vec<u8>)
    ensures
        r@ == upper_of(s@),
        s@.len() == 0 ==> r@.len() == 0,
{
    s.to_uppercase().into_bytes()
}

/// Whether `needle` occurs contiguously somewhere in `hay`.
pub open spec fn contains_seq(hay: Seq<u8>, needle: Seq<u8>) -> bool {
    exists|k: int|
        0 <= k && k + needle.len() <= hay.len() && #[trigger] hay.subrange(
            k,
            k + needle.len() as int,
        ) == needle
}

/// Whether `needle` occurs in `hay` starting exactly at position `k`.
fn matches_at(hay: &Vec<u8>, needle: &Vec<u8>, k: usize) -> (r: bool)
    requires
        k + needle@.len() <= hay@.len(),
    ensures
        r == (hay@.subrange(k as int, k + needle@.len()) == needle@),
{
    let m = needle.len();
    let hay_len = hay.len();
    let mut t: usize = 0;
    while t < m
        invariant
            m == needle@.len(),
            hay_len == hay@.len(),
            k + m <= hay@.len(),
            0 <= t <= m,
            forall|x: int| 0 <= x < t ==> hay@[k + x] == needle@[x],
        decreases m - t,
    {
        if hay[k + t] != needle[t] {
            proof {
                assert(hay@.subrange(k as int, k + needle@.len())[t as int] == hay@[k + t]);
            }
            return false;
        }
        t = t + 1;
    }
    proof {
        assert(hay@.subrange(k as int, k + needle@.len()) =~= needle@);
    }
    true
}

/// Whether one byte text contains another, decided by a left-to-right scan.
pub fn contains_bytes(hay: &Vec<u8>, needle: &Vec<u8>) -> (r: bool)
    ensures
        r == contains_seq(hay@, needle@),
{
    let n = hay.len();
    let m = needle.len();
    if m > n {
        return false;
    }
    if m == 0 {
        proof {
            assert(hay@.subrange(0, 0 + needle@.len() as int) =~= needle@);
        }
        return true;
    }
    let mut k: usize = 0;
    while k <= n - m
        invariant
            n == hay@.len(),
            m == needle@.len(),
            1 <= m <= n,
            0 <= k <= n - m + 1,
            forall|x: int|
                0 <= x < k ==> #[trigger] hay@.subrange(x, x + needle@.len()) != needle@,
        decreases n - m + 1 - k,
    {
        if matches_at(hay, needle, k) {
            proof {
                assert(hay@.subrange(k as int, k + needle@.len()) == needle@);
            }
            return true;
        }
        k = k + 1;
    }
    false
}

/// Whether a file name passes the case-insensitive substring test for the
/// query `q`: the uppercase form of the name contains the uppercase form
/// of the query.
pub open spec fn name_matched(name: Seq<char>, q: Seq<char>) -> bool {
    contains_seq(upper_of(name), upper_of(q))
}

/// Holds of the records that a name search for `q` keeps: those that carry
/// a fingerprint and whose name passes the case-insensitive test. Records
/// without a fingerprint are excluded so that grouping never reads an
/// absent fingerprint.
pub open spec fn keeps(q: Seq<char>) -> spec_fn(RecordView) -> bool {
    |r: RecordView| r.hash is Some && name_matched(r.name, q)
}

/// The records a name search for `q` retains, in flattening order.
pub open spec fn retained(fl: Seq<RecordView>, q: Seq<char>) -> Seq<RecordView> {
    fl.filter(keeps(q))
}

/// The groups a name search for `q` reports: the retained records grouped
/// by fingerprint exactly as a duplicate search groups them, so a group of
/// a single retained file is still suppressed.
pub open spec fn name_groups(fl: Seq<RecordView>, q: Seq<char>) -> Seq<MatchView> {
    dup_groups(retained(fl, q))
}

/// Finds the sets of files whose names contain `key` case-insensitively and
/// that share content: the tree is flattened in pre-order, entries without
/// a fingerprint or with a non-matching name are dropped, and the rest are
/// grouped by fingerprint as in a duplicate search.
pub fn find_matching_files(tree: Vec<Entry>, key: String) -> (r: Option<Vec<Match>>)
    ensures
        r is Some,
        r matches Some(groups) ==> crate::engine::match_views(groups@) == name_groups(
            flat_of_seq(tree@),
            key@,
        ),
{
    let flat_list = flatten_forest(tree);
    let ghost fl = records_view(flat_list@);
    let value = to_upper_bytes(&key);
    let mut kept: Vec<FileRecord> = Vec::new();
    let n = flat_list.len();
    let mut j: usize = 0;
    proof {
        assert(fl.take(0) =~= Seq::<RecordView>::empty());
        reveal(Seq::filter);
        assert(records_view(kept@) =~= retained(fl.take(0), key@));
    }
    while j < n
        invariant
            n == flat_list@.len(),
            fl == records_view(flat_list@),
            value@ == upper_of(key@),
            0 <= j <= n,
            records_view(kept@) == retained(fl.take(j as int), key@),
        decreases n - j,
    {
        let entry = &flat_list[j];
        let ghost rv = fl[j as int];
        proof {
            assert(fl.take(j + 1) =~= fl.take(j as int).push(rv));
            lemma_filter_push(fl.take(j as int), rv, keeps(key@));
        }
        let upper_name = to_upper_bytes(&entry.name);
        let matched = contains_bytes(&upper_name, &value);
        let keep = matched && entry.hash.is_some();
        if keep {
            let ghost ks = records_view(kept@);
            let hash = match &entry.hash {
                Some(f) => Some(f.duplicate()),
                None => None,
            };
            kept.push(
                FileRecord {
                    is_file: entry.is_file,
                    name: entry.name.clone(),
                    path: entry.path.clone(),
                    level: entry.level,
                    hash,
                },
            );
            proof {
                assert(kept@[kept@.len() - 1]@ == rv);
                assert(records_view(kept@) =~= ks.push(rv));
            }
        } else {
            proof {
                assert(!keeps(key@)(rv));
            }
        }
        j = j + 1;
    }
    proof {
        assert(fl.take(n as int) =~= fl);
    }
    let groups = group_by_hash(&kept);
    Some(groups)
}

} // verus!
