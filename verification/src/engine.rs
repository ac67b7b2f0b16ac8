use vstd::prelude::*;

use crate::entry::Entry;
use crate::entry::FileRecord;
use crate::entry::RecordView;
use crate::fingerprint::Fingerprint;
use crate::flatten::create_flat_list;
use crate::flatten::flat_of;
use crate::flatten::flat_of_seq;
use crate::flatten::records_view;

verus! {

/// One member of a match group: the name and full path of a file.
pub struct MatchEntry {
    pub name: String,
    pub path: String,
}

/// The spec-level content of a match group member.
pub struct MatchEntryView {
    pub name: Seq<char>,
    pub path: Seq<char>,
}

impl View for MatchEntry {
    type V = MatchEntryView;

    open spec fn view(&self) -> MatchEntryView {
        MatchEntryView { name: self.name@, path: self.path@ }
    }
}

/// A group of entries that share one fingerprint.
pub struct Match {
    pub hash: Option<Fingerprint>,
    pub matches: Vec<MatchEntry>,
}

/// The spec-level content of a match group.
pub struct MatchView {
    pub hash: Option<Seq<u8>>,
    pub matches: Seq<MatchEntryView>,
}

impl View for Match {
    type V = MatchView;

    open spec fn view(&self) -> MatchView {
        MatchView {
            hash: match self.hash {
                Some(f) => Some(f@),
                None => None,
            },
            matches: self.matches@.map_values(|m: MatchEntry| m@),
        }
    }
}

impl Match {
    /// An empty group, as a starting point for builders.
    pub fn new() -> (r: Match)
        ensures
            r@.hash is None,
            r@.matches.len() == 0,
    {
        Match { hash: None, matches: Vec::new() }
    }
}

/// The views of a sequence of match groups.
pub open spec fn match_views(groups: Seq<Match>) -> Seq<MatchView> {
    groups.map_values(|g: Match| g@)
}

/// The member derived from one flattened record.
pub open spec fn entry_of(r: RecordView) -> MatchEntryView {
    MatchEntryView { name: r.name, path: r.path }
}

/// Holds of the records carrying exactly the fingerprint `h`.
pub open spec fn same_hash(h: Seq<u8>) -> spec_fn(RecordView) -> bool {
    |r: RecordView| r.hash == Some(h)
}

/// The records of `fl` whose fingerprint is `h`, in their order in `fl`.
pub open spec fn with_hash(fl: Seq<RecordView>, h: Seq<u8>) -> Seq<RecordView> {
    fl.filter(same_hash(h))
}

/// The members of the group keyed by `h`: every record of `fl` carrying
/// that fingerprint, in flattening order.
pub open spec fn members_of(fl: Seq<RecordView>, h: Seq<u8>) -> Seq<MatchEntryView> {
    with_hash(fl, h).map_values(|r: RecordView| entry_of(r))
}

/// The full group keyed by `h` over the records `fl`.
pub open spec fn group_of(fl: Seq<RecordView>, h: Seq<u8>) -> MatchView {
    MatchView { hash: Some(h), matches: members_of(fl, h) }
}

/// The distinct fingerprints observed in `fl`, in first-seen order;
/// records without a fingerprint contribute nothing.
pub open spec fn seen_keys(fl: Seq<RecordView>) -> Seq<Seq<u8>>
    decreases fl.len(),
{
    if fl.len() == 0 {
        Seq::empty()
    } else {
        let pre = seen_keys(fl.drop_last());
        match fl.last().hash {
            Some(h) => if pre.contains(h) {
                pre
            } else {
                pre.push(h)
            },
            None => pre,
        }
    }
}

/// Holds of the fingerprints that at least two records of `fl` carry.
pub open spec fn is_dup(fl: Seq<RecordView>) -> spec_fn(Seq<u8>) -> bool {
    |h: Seq<u8>| with_hash(fl, h).len() >= 2
}

/// The fingerprints shared by two or more records, in first-seen order.
pub open spec fn dup_keys(fl: Seq<RecordView>) -> Seq<Seq<u8>> {
    seen_keys(fl).filter(is_dup(fl))
}

/// Maps a fingerprint to its full group over the records `fl`.
pub open spec fn group_fn(fl: Seq<RecordView>) -> spec_fn(Seq<u8>) -> MatchView {
    |h: Seq<u8>| group_of(fl, h)
}

/// The duplicate groups of the records `fl`: one group per fingerprint that
/// two or more records carry, keyed groups in first-seen order, members in
/// flattening order. Records without a fingerprint are in no group.
pub open spec fn dup_groups(fl: Seq<RecordView>) -> Seq<MatchView> {
    dup_keys(fl).map_values(group_fn(fl))
}

/// The duplicate groups keyed by the fingerprints seen among the first `i`
/// records, with groups and duplicate counts drawn from the whole list.
pub open spec fn groups_upto(fl: Seq<RecordView>, i: int) -> Seq<MatchView> {
    seen_keys(fl.take(i)).filter(is_dup(fl)).map_values(group_fn(fl))
}

/// A group sequence and its views have the same length.
pub proof fn lemma_match_views_len(groups: Seq<Match>)
    ensures
        match_views(groups).len() == groups.len(),
{
}

/// A group's members are read off record by record.
pub proof fn lemma_members_index(fl: Seq<RecordView>, h: Seq<u8>, mi: int)
    requires
        0 <= mi < with_hash(fl, h).len(),
    ensures
        members_of(fl, h).len() == with_hash(fl, h).len(),
        members_of(fl, h)[mi] == entry_of(with_hash(fl, h)[mi]),
{
}

/// The views of a group sequence are read off group by group.
pub proof fn lemma_match_views_index(groups: Seq<Match>, j: int)
    requires
        0 <= j < groups.len(),
    ensures
        match_views(groups).len() == groups.len(),
        match_views(groups)[j] == groups[j]@,
{
}

/// A mapped key sequence is read off key by key.
pub proof fn lemma_group_map_index(fl: Seq<RecordView>, ks: Seq<Seq<u8>>, j: int)
    requires
        0 <= j < ks.len(),
    ensures
        ks.map_values(group_fn(fl)).len() == ks.len(),
        ks.map_values(group_fn(fl))[j] == group_of(fl, ks[j]),
{
}

/// Filtering after appending one element keeps the old result and appends
/// the element exactly when it satisfies the predicate.
pub proof fn lemma_filter_push<A>(s: Seq<A>, x: A, p: spec_fn(A) -> bool)
    ensures
        s.push(x).filter(p) == (if p(x) {
            s.filter(p).push(x)
        } else {
            s.filter(p)
        }),
{
    reveal(Seq::filter);
    assert(s.push(x).drop_last() =~= s);
    assert(s.push(x).last() == x);
}

/// Every element of a filtered sequence occurs in the original and
/// satisfies the predicate.
pub proof fn lemma_filter_is_subset<A>(s: Seq<A>, p: spec_fn(A) -> bool, i: int)
    requires
        0 <= i < s.filter(p).len(),
    ensures
        s.contains(s.filter(p)[i]),
        p(s.filter(p)[i]),
    decreases s.len(),
{
    reveal(Seq::filter);
    if s.len() > 0 {
        let pre = s.drop_last().filter(p);
        let x = s.filter(p)[i];
        if i < pre.len() {
            lemma_filter_is_subset(s.drop_last(), p, i);
            let j = choose|j: int| 0 <= j < s.drop_last().len() && s.drop_last()[j] == x;
            assert(s[j] == x);
        } else {
            assert(x == s.last());
            assert(s[s.len() - 1] == x);
        }
    }
}

/// Builds the flat list of a whole forest, consuming it: each tree is
/// flattened in pre-order, trees in their given order.
pub fn flatten_forest(tree: Vec<Entry>) -> (r: Vec<FileRecord>)
    ensures
        records_view(r@) == flat_of_seq(tree@),
{
    let ghost t = tree@;
    let mut flat_list: Vec<FileRecord> = Vec::new();
    let mut rest = tree;
    let ghost mut k: int = 0;
    proof {
        assert(rest@ =~= t.subrange(0, t.len() as int));
        assert(records_view(flat_list@) =~= Seq::<RecordView>::empty());
    }
    while rest.len() > 0
        invariant
            0 <= k <= t.len(),
            rest@ == t.subrange(k, t.len() as int),
            records_view(flat_list@) + flat_of_seq(rest@) == flat_of_seq(t),
        decreases rest@.len(),
    {
        let ghost before = rest@;
        let e = rest.remove(0);
        proof {
            assert(rest@ =~= t.subrange(k + 1, t.len() as int));
            assert(before[0] == e);
            assert(before.drop_first() =~= rest@);
            assert(flat_of_seq(before) == flat_of(e) + flat_of_seq(rest@));
        }
        let ghost fl_before = records_view(flat_list@);
        create_flat_list(&mut flat_list, e);
        proof {
            assert((fl_before + flat_of(e)) + flat_of_seq(rest@) =~= fl_before + (flat_of(e)
                + flat_of_seq(rest@)));
            k = k + 1;
        }
    }
    proof {
        assert(flat_of_seq(rest@) =~= Seq::<RecordView>::empty());
        assert(records_view(flat_list@) + flat_of_seq(rest@) =~= records_view(flat_list@));
    }
    flat_list
}

/// Whether some already collected group is keyed by this fingerprint.
fn contains_hash(groups: &Vec<Match>, h: &Fingerprint) -> (r: bool)
    ensures
        r == exists|j: int| 0 <= j < groups@.len() && (#[trigger] groups@[j]@.hash) == Some(h@),
{
    let n = groups.len();
    let mut i: usize = 0;
    while i < n
        invariant
            n == groups@.len(),
            0 <= i <= n,
            forall|j: int| 0 <= j < i ==> (#[trigger] groups@[j]@.hash) != Some(h@),
        decreases n - i,
    {
        match &groups[i].hash {
            Some(f) => {
                if f.same(h) {
                    proof {
                        assert(groups@[i as int]@.hash == Some(h@));
                    }
                    return true;
                }
            },
            None => {},
        }
        i = i + 1;
    }
    false
}

/// Collects every record of `items` that carries the fingerprint `hash`
/// into one group, in list order; the group is only materialized when it
/// has at least two members, since a unique file is no duplicate of itself.
pub fn get_items_by_hash(hash: &Fingerprint, items: &Vec<FileRecord>) -> (r: Option<Match>)
    ensures
        (r is Some <==> with_hash(records_view(items@), hash@).len() >= 2),
        (r matches Some(m) ==> m@ == group_of(records_view(items@), hash@)),
{
    let ghost fl = records_view(items@);
    let mut duplicate = Match::new();
    let key = hash.duplicate();
    duplicate.hash = Some(key);
    let n = items.len();
    let mut j: usize = 0;
    proof {
        assert(fl.take(0) =~= Seq::<RecordView>::empty());
        reveal(Seq::filter);
        assert(duplicate@.matches =~= members_of(fl.take(0), hash@));
    }
    while j < n
        invariant
            n == items@.len(),
            fl == records_view(items@),
            0 <= j <= n,
            duplicate@.hash == Some(hash@),
            duplicate@.matches == members_of(fl.take(j as int), hash@),
        decreases n - j,
    {
        let entry = &items[j];
        let ghost rv = fl[j as int];
        proof {
            assert(fl.take(j + 1) =~= fl.take(j as int).push(rv));
            lemma_filter_push(fl.take(j as int), rv, same_hash(hash@));
        }
        match &entry.hash {
            Some(f) => {
                if f.same(hash) {
                    let ghost ms = duplicate@.matches;
                    duplicate.matches.push(
                        MatchEntry { name: entry.name.clone(), path: entry.path.clone() },
                    );
                    proof {
                        assert(duplicate@.matches =~= ms.push(entry_of(rv)));
                        assert(with_hash(fl.take(j + 1), hash@) =~= with_hash(
                            fl.take(j as int),
                            hash@,
                        ).push(rv));
                        assert(duplicate@.matches =~= members_of(fl.take(j + 1), hash@));
                    }
                } else {
                    proof {
                        assert(rv.hash != Some(hash@));
                    }
                }
            },
            None => {
                proof {
                    assert(rv.hash is None);
                }
            },
        }
        j = j + 1;
    }
    proof {
        assert(fl.take(n as int) =~= fl);
    }
    // a group needs at least two members, the queried file being one of them
    if duplicate.matches.len() > 1 {
        Some(duplicate)
    } else {
        None
    }
}

/// Groups the given records by fingerprint: one group per fingerprint that
/// at least two records carry, groups in first-seen order, members in list
/// order. Records without a fingerprint never participate.
pub fn group_by_hash(items: &Vec<FileRecord>) -> (r: Vec<Match>)
    ensures
        match_views(r@) == dup_groups(records_view(items@)),
{
    let ghost fl = records_view(items@);
    let mut duplicates: Vec<Match> = Vec::new();
    let n = items.len();
    let mut i: usize = 0;
    proof {
        assert(fl.take(0) =~= Seq::<RecordView>::empty());
        reveal(Seq::filter);
        assert(match_views(duplicates@) =~= groups_upto(fl, 0));
    }
    while i < n
        invariant
            n == items@.len(),
            fl == records_view(items@),
            0 <= i <= n,
            match_views(duplicates@) == groups_upto(fl, i as int),
        decreases n - i,
    {
        let ghost pre_keys = seen_keys(fl.take(i as int));
        let ghost dk = pre_keys.filter(is_dup(fl));
        let ghost rv = fl[i as int];
        proof {
            assert(fl.take(i + 1) =~= fl.take(i as int).push(rv));
            assert(fl.take(i + 1).drop_last() =~= fl.take(i as int));
            assert(fl.take(i + 1).last() == rv);
            lemma_match_views_len(duplicates@);
            assert(dk.map_values(group_fn(fl)).len() == dk.len());
        }
        let entry = &items[i];
        match &entry.hash {
            Some(f) => {
                proof {
                    assert(rv.hash == Some(f@));
                }
                if !contains_hash(&duplicates, f) {
                    proof {
                        // no collected group is keyed by this fingerprint, so
                        // either it was never seen, or it is no duplicate
                        if pre_keys.contains(f@) && is_dup(fl)(f@) {
                            let ki = choose|ki: int|
                                0 <= ki < pre_keys.len() && pre_keys[ki] == f@;
                            Seq::lemma_filter_contains(pre_keys, is_dup(fl), ki);
                            let gi = choose|gi: int| 0 <= gi < dk.len() && dk[gi] == f@;
                            lemma_group_map_index(fl, dk, gi);
                            lemma_match_views_index(duplicates@, gi);
                            assert(duplicates@[gi]@.hash == Some(f@));
                        }
                    }
                    match get_items_by_hash(f, items) {
                        Some(m) => {
                            let ghost gs = match_views(duplicates@);
                            duplicates.push(m);
                            proof {
                                assert(!pre_keys.contains(f@));
                                assert(seen_keys(fl.take(i + 1)) == pre_keys.push(f@));
                                lemma_filter_push(pre_keys, f@, is_dup(fl));
                                assert(match_views(duplicates@) =~= gs.push(m@));
                                assert(dk.push(f@).map_values(group_fn(fl)) =~= dk.map_values(
                                    group_fn(fl),
                                ).push(group_of(fl, f@))) by {
                                    lemma_group_map_index(fl, dk.push(f@), dk.len() as int);
                                    assert forall|x: int| 0 <= x < dk.len() implies dk.push(
                                        f@,
                                    ).map_values(group_fn(fl))[x] == dk.map_values(group_fn(fl))[x] by {
                                        lemma_group_map_index(fl, dk.push(f@), x);
                                        lemma_group_map_index(fl, dk, x);
                                    }
                                }
                                assert(match_views(duplicates@) == groups_upto(fl, i + 1));
                            }
                        },
                        None => {
                            proof {
                                if !pre_keys.contains(f@) {
                                    assert(seen_keys(fl.take(i + 1)) == pre_keys.push(f@));
                                    lemma_filter_push(pre_keys, f@, is_dup(fl));
                                } else {
                                    assert(seen_keys(fl.take(i + 1)) == pre_keys);
                                }
                                assert(match_views(duplicates@) == groups_upto(fl, i + 1));
                            }
                        },
                    }
                } else {
                    proof {
                        // a collected group is keyed by it, so it was seen
                        let j = choose|j: int|
                            0 <= j < duplicates@.len() && (#[trigger] duplicates@[j]@.hash)
                                == Some(f@);
                        lemma_match_views_index(duplicates@, j);
                        lemma_group_map_index(fl, dk, j);
                        assert(group_of(fl, dk[j]).hash == Some(dk[j]));
                        assert(dk[j] == f@);
                        lemma_filter_is_subset(pre_keys, is_dup(fl), j);
                        assert(pre_keys.contains(f@));
                        assert(seen_keys(fl.take(i + 1)) == pre_keys);
                        assert(match_views(duplicates@) == groups_upto(fl, i + 1));
                    }
                }
            },
            None => {
                proof {
                    assert(rv.hash is None);
                    assert(seen_keys(fl.take(i + 1)) == pre_keys);
                    assert(match_views(duplicates@) == groups_upto(fl, i + 1));
                }
            },
        }
        i = i + 1;
    }
    proof {
        assert(fl.take(n as int) =~= fl);
        assert(groups_upto(fl, n as int) == dup_groups(fl));
    }
    duplicates
}

/// Finds every set of files of the tree that share content: the tree is
/// flattened in pre-order and its records grouped by fingerprint; a group
/// is returned exactly for each fingerprint carried by two or more entries,
/// groups in first-seen order, members in flattening order. Directories and
/// unreadable files carry no fingerprint and are in no group.
pub fn find_duplicate_files(tree: Vec<Entry>) -> (r: Option<Vec<Match>>)
    ensures
        r is Some,
        r matches Some(groups) ==> match_views(groups@) == dup_groups(flat_of_seq(tree@)),
{
    let flat_list = flatten_forest(tree);
    let duplicates = group_by_hash(&flat_list);
    Some(duplicates)
}

/// Every group of a duplicate search has at least two members, carries a
/// fingerprint as its key, and each of its members is a record of the
/// searched list whose fingerprint equals that key.
pub proof fn lemma_groups_wf(fl: Seq<RecordView>, gi: int)
    requires
        0 <= gi < dup_groups(fl).len(),
    ensures
        dup_groups(fl)[gi].matches.len() >= 2,
        dup_groups(fl)[gi].hash is Some,
        forall|mi: int|
            0 <= mi < dup_groups(fl)[gi].matches.len() ==> exists|ri: int|
                0 <= ri < fl.len() && fl[ri].hash == dup_groups(fl)[gi].hash && entry_of(fl[ri])
                    == #[trigger] dup_groups(fl)[gi].matches[mi],
{
    let keys = dup_keys(fl);
    assert(dup_groups(fl).len() == keys.len());
    let h = keys[gi];
    lemma_group_map_index(fl, keys, gi);
    let g = dup_groups(fl)[gi];
    assert(g == group_of(fl, h));
    lemma_filter_is_subset(seen_keys(fl), is_dup(fl), gi);
    assert(is_dup(fl)(h));
    assert(g.matches.len() == with_hash(fl, h).len()) by {
        if with_hash(fl, h).len() > 0 {
            lemma_members_index(fl, h, 0);
        }
    }
    assert forall|mi: int| 0 <= mi < g.matches.len() implies exists|ri: int|
        0 <= ri < fl.len() && fl[ri].hash == g.hash && entry_of(fl[ri]) == #[trigger] g.matches[mi] by {
        lemma_members_index(fl, h, mi);
        lemma_filter_is_subset(fl, same_hash(h), mi);
        let r = with_hash(fl, h)[mi];
        let ri = choose|ri: int| 0 <= ri < fl.len() && fl[ri] == r;
        assert(fl[ri].hash == g.hash && entry_of(fl[ri]) == g.matches[mi]);
    }
}

/// Any sequence whose elements are pairwise different.
pub open spec fn all_different<A>(s: Seq<A>) -> bool {
    forall|i: int, j: int| 0 <= i < j < s.len() ==> s[i] != s[j]
}

/// The first-seen key list never repeats a fingerprint.
pub proof fn lemma_seen_keys_all_different(fl: Seq<RecordView>)
    ensures
        all_different(seen_keys(fl)),
    decreases fl.len(),
{
    if fl.len() > 0 {
        let pre = seen_keys(fl.drop_last());
        lemma_seen_keys_all_different(fl.drop_last());
        match fl.last().hash {
            Some(h) => {
                if !pre.contains(h) {
                    let s = pre.push(h);
                    assert forall|i: int, j: int| 0 <= i < j < s.len() implies s[i] != s[j] by {
                        if j == s.len() - 1 {
                            assert(pre[i] == s[i]);
                            if s[i] == h {
                                assert(pre.contains(h));
                            }
                        }
                    }
                }
            },
            None => {},
        }
    }
}

/// Filtering keeps elements pairwise different.
pub proof fn lemma_filter_all_different<A>(s: Seq<A>, p: spec_fn(A) -> bool)
    requires
        all_different(s),
    ensures
        all_different(s.filter(p)),
{
    assert forall|i: int, j: int| 0 <= i < j < s.filter(p).len() implies s.filter(p)[i]
        != s.filter(p)[j] by {
        lemma_filter_ordered_pair(s, p, i, j);
    }
}

/// Two positions of a filtered sequence stem from two ordered positions of
/// the original.
proof fn lemma_filter_ordered_pair<A>(s: Seq<A>, p: spec_fn(A) -> bool, i: int, j: int)
    requires
        0 <= i < j < s.filter(p).len(),
    ensures
        exists|oi: int, oj: int|
            0 <= oi < oj < s.len() && s[oi] == s.filter(p)[i] && s[oj] == #[trigger] s.filter(p)[j],
    decreases s.len(),
{
    reveal(Seq::filter);
    let pre = s.drop_last().filter(p);
    if j < pre.len() {
        lemma_filter_ordered_pair(s.drop_last(), p, i, j);
        let (oi, oj) = choose|oi: int, oj: int|
            0 <= oi < oj < s.drop_last().len() && s.drop_last()[oi] == pre[i] && s.drop_last()[oj]
                == pre[j];
        assert(s[oi] == s.filter(p)[i] && s[oj] == s.filter(p)[j]);
    } else {
        assert(p(s.last()) && j == pre.len());
        assert(s.filter(p)[j] == s.last());
        lemma_filter_is_subset(s.drop_last(), p, i);
        let oi = choose|oi: int| 0 <= oi < s.drop_last().len() && s.drop_last()[oi] == pre[i];
        let oj = s.len() - 1;
        assert(s[oi] == s.filter(p)[i] && s[oj] == s.filter(p)[j]);
    }
}

/// A duplicate search reports one group per fingerprint: two groups never
/// share a key.
pub proof fn lemma_group_keys_distinct(fl: Seq<RecordView>, i: int, j: int)
    requires
        0 <= i < j < dup_groups(fl).len(),
    ensures
        dup_groups(fl)[i].hash != dup_groups(fl)[j].hash,
{
    let keys = dup_keys(fl);
    assert(dup_groups(fl).len() == keys.len());
    lemma_seen_keys_all_different(fl);
    lemma_filter_all_different(seen_keys(fl), is_dup(fl));
    lemma_group_map_index(fl, keys, i);
    lemma_group_map_index(fl, keys, j);
    assert(keys[i] != keys[j]);
}

/// A fingerprint carried by some record is among the first-seen keys.
pub proof fn lemma_seen_keys_complete(fl: Seq<RecordView>, ri: int, h: Seq<u8>)
    requires
        0 <= ri < fl.len(),
        fl[ri].hash == Some(h),
    ensures
        seen_keys(fl).contains(h),
    decreases fl.len(),
{
    let pre = seen_keys(fl.drop_last());
    if ri == fl.len() - 1 {
        if pre.contains(h) {
        } else {
            assert(seen_keys(fl) == pre.push(h));
            assert(seen_keys(fl)[pre.len() as int] == h);
        }
    } else {
        lemma_seen_keys_complete(fl.drop_last(), ri, h);
        let k = choose|k: int| 0 <= k < pre.len() && pre[k] == h;
        match fl.last().hash {
            Some(h2) => {
                if !pre.contains(h2) {
                    assert(seen_keys(fl)[k] == h);
                } else {
                    assert(seen_keys(fl)[k] == h);
                }
            },
            None => {
                assert(seen_keys(fl)[k] == h);
            },
        }
    }
}

/// Every record whose fingerprint at least two records carry appears as a
/// member of a reported group keyed by that fingerprint.
pub proof fn lemma_duplicated_record_is_grouped(fl: Seq<RecordView>, ri: int, h: Seq<u8>)
    requires
        0 <= ri < fl.len(),
        fl[ri].hash == Some(h),
        with_hash(fl, h).len() >= 2,
    ensures
        exists|gi: int|
            0 <= gi < dup_groups(fl).len() && (#[trigger] dup_groups(fl)[gi]).hash == Some(h)
                && dup_groups(fl)[gi].matches.contains(entry_of(fl[ri])),
{
    lemma_seen_keys_complete(fl, ri, h);
    let si = choose|si: int| 0 <= si < seen_keys(fl).len() && seen_keys(fl)[si] == h;
    Seq::lemma_filter_contains(seen_keys(fl), is_dup(fl), si);
    let keys = dup_keys(fl);
    let gi = choose|gi: int| 0 <= gi < keys.len() && keys[gi] == h;
    assert(dup_groups(fl).len() == keys.len());
    lemma_group_map_index(fl, keys, gi);
    assert(dup_groups(fl)[gi] == group_of(fl, h));
    Seq::lemma_filter_contains(fl, same_hash(h), ri);
    let mi = choose|mi: int| 0 <= mi < with_hash(fl, h).len() && with_hash(fl, h)[mi] == fl[ri];
    lemma_members_index(fl, h, mi);
    assert(dup_groups(fl)[gi].matches[mi] == entry_of(fl[ri]));
    assert(dup_groups(fl)[gi].matches.contains(entry_of(fl[ri])));
}

/// Running the duplicate search twice over one unchanged flattened record
/// list yields identical groups with identical membership.
pub proof fn lemma_duplicate_search_idempotent(
    fl: Seq<RecordView>,
    g1: Seq<MatchView>,
    g2: Seq<MatchView>,
)
    requires
        g1 == dup_groups(fl),
        g2 == dup_groups(fl),
    ensures
        g1 == g2,
{
}

} // verus!
