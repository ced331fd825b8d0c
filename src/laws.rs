//! What holds of the engine for every input: every file is accounted for,
//! equal contents share a group, distinct contents stay single, and the
//! grouping does not depend on the order in which results arrive.
use vstd::prelude::*;
use vstd::multiset::Multiset;
use crate::digest::digest_of;
use crate::engine::{
    duplicate_groups, entries_nonempty, failures_of, grouping, index_of,
    lemma_grouping_wf, lemma_index_of, outcome_of, Entry, IoCause, Outcome,
};

verus! {

broadcast use vstd::seq_lib::group_to_multiset_ensures, vstd::multiset::lemma_multiset_empty_len;

/// The paths of the files that were fingerprinted to digest `d`, in order.
pub open spec fn paths_with(rs: Seq<Outcome>, d: Seq<char>) -> Seq<Seq<char>>
    decreases rs.len(),
{
    if rs.len() == 0 {
        Seq::empty()
    } else {
        let ps = paths_with(rs.drop_last(), d);
        match rs.last() {
            Outcome::Hashed { path, digest } => if digest == d {
                ps.push(path)
            } else {
                ps
            },
            Outcome::Unreadable { .. } => ps,
        }
    }
}

/// The entry of `gs` for digest `d`, as the multiset of its paths; empty
/// where `d` has no entry.
pub open spec fn entry_paths(gs: Seq<Entry>, d: Seq<char>) -> Multiset<Seq<char>> {
    if index_of(gs, d) >= 0 {
        gs[index_of(gs, d)].1.to_multiset()
    } else {
        Multiset::empty()
    }
}

/// Each entry of the table holds exactly the files fingerprinted to its
/// digest, in the order of their results; a digest that no file has gets
/// no entry.
pub proof fn lemma_grouping_paths(rs: Seq<Outcome>)
    ensures
        forall|k: int| 0 <= k < grouping(rs).len() ==>
            #[trigger] grouping(rs)[k].1 == paths_with(rs, grouping(rs)[k].0),
        forall|d: Seq<char>| index_of(grouping(rs), d) == -1 ==> #[trigger] paths_with(rs, d) == Seq::<Seq<char>>::empty(),
    decreases rs.len(),
{
    if rs.len() > 0 {
        let prev = rs.drop_last();
        let gs = grouping(prev);
        lemma_grouping_paths(prev);
        lemma_grouping_wf(prev);
        match rs.last() {
            Outcome::Hashed { path, digest } => {
                lemma_index_of(gs, digest);
                let ng = grouping(rs);
                lemma_grouping_wf(rs);
                assert forall|k: int| 0 <= k < ng.len() implies #[trigger] ng[k].1 == paths_with(rs, ng[k].0) by {
                    if ng[k].0 != digest {
                        assert(ng[k] == gs[k]);
                    } else if index_of(gs, digest) >= 0 {
                        assert(k == index_of(gs, digest));
                    } else {
                        assert(k == gs.len());
                        assert(paths_with(prev, digest) == Seq::<Seq<char>>::empty());
                        assert(paths_with(rs, digest) =~= seq![path]);
                    }
                }
                assert forall|d: Seq<char>| index_of(ng, d) == -1 implies #[trigger] paths_with(rs, d) == Seq::<Seq<char>>::empty() by {
                    lemma_index_of(ng, d);
                    lemma_index_of(gs, d);
                    if d == digest {
                        lemma_index_of(ng, digest);
                        if index_of(gs, digest) >= 0 {
                            assert(ng[index_of(gs, digest)].0 == d);
                        } else {
                            assert(ng[gs.len() as int].0 == d);
                        }
                    } else {
                        if index_of(gs, d) >= 0 {
                            assert(ng[index_of(gs, d)].0 == d);
                        }
                        assert(paths_with(prev, d) == Seq::<Seq<char>>::empty());
                        assert(paths_with(rs, d) == paths_with(prev, d));
                    }
                }
            },
            Outcome::Unreadable { .. } => {
                assert forall|d: Seq<char>| index_of(grouping(rs), d) == -1 implies #[trigger] paths_with(rs, d) == Seq::<Seq<char>>::empty() by {
                    assert(paths_with(prev, d) == Seq::<Seq<char>>::empty());
                }
                assert forall|k: int| 0 <= k < grouping(rs).len() implies #[trigger] grouping(rs)[k].1 == paths_with(rs, grouping(rs)[k].0) by {
                    assert(gs[k].1 == paths_with(prev, gs[k].0));
                }
            },
        }
    } else {
        assert forall|d: Seq<char>| index_of(grouping(rs), d) == -1 implies #[trigger] paths_with(rs, d) == Seq::<Seq<char>>::empty() by {}
    }
}

/// How often path `p` sits under digest `d` is how often the results hold
/// `p` fingerprinted to `d`.
pub proof fn lemma_paths_with_count(rs: Seq<Outcome>, d: Seq<char>, p: Seq<char>)
    ensures
        paths_with(rs, d).to_multiset().count(p) == rs.to_multiset().count(Outcome::Hashed { path: p, digest: d }),
    decreases rs.len(),
{
    if rs.len() > 0 {
        lemma_paths_with_count(rs.drop_last(), d, p);
        assert(rs =~= rs.drop_last().push(rs.last()));
    }
}

/// How often `(p, c)` is among the failures is how often the results hold
/// it as a failure.
pub proof fn lemma_failures_count(rs: Seq<Outcome>, p: Seq<char>, c: IoCause)
    ensures
        failures_of(rs).to_multiset().count((p, c)) == rs.to_multiset().count(Outcome::Unreadable { path: p, cause: c }),
    decreases rs.len(),
{
    if rs.len() > 0 {
        lemma_failures_count(rs.drop_last(), p, c);
        assert(rs =~= rs.drop_last().push(rs.last()));
    }
}

/// The multiset of paths under digest `d` in the table is the multiset of
/// files fingerprinted to `d`.
pub proof fn lemma_entry_paths(rs: Seq<Outcome>, d: Seq<char>)
    ensures
        entry_paths(grouping(rs), d) == paths_with(rs, d).to_multiset(),
        index_of(grouping(rs), d) >= 0 <==> paths_with(rs, d).len() > 0,
{
    let gs = grouping(rs);
    lemma_grouping_paths(rs);
    lemma_grouping_wf(rs);
    lemma_index_of(gs, d);
    if index_of(gs, d) >= 0 {
        assert(gs[index_of(gs, d)].1 == paths_with(rs, d));
    } else {
        assert(paths_with(rs, d) == Seq::<Seq<char>>::empty());
    }
}

/// The grouping depends on which results came in, not on their order: two
/// runs whose results are the same multiset give every digest the same
/// files, and report the same failures.
pub proof fn lemma_order_independent(rs1: Seq<Outcome>, rs2: Seq<Outcome>)
    requires
        rs1.to_multiset() == rs2.to_multiset(),
    ensures
        forall|d: Seq<char>| #[trigger] entry_paths(grouping(rs1), d) == entry_paths(grouping(rs2), d),
        forall|d: Seq<char>|
            index_of(grouping(rs1), d) >= 0 <==> #[trigger] index_of(grouping(rs2), d) >= 0,
        failures_of(rs1).to_multiset() == failures_of(rs2).to_multiset(),
{
    assert forall|d: Seq<char>| #[trigger] entry_paths(grouping(rs1), d) == entry_paths(grouping(rs2), d) by {
        lemma_entry_paths(rs1, d);
        lemma_entry_paths(rs2, d);
        assert forall|p: Seq<char>| paths_with(rs1, d).to_multiset().count(p) == paths_with(rs2, d).to_multiset().count(p) by {
            lemma_paths_with_count(rs1, d, p);
            lemma_paths_with_count(rs2, d, p);
        }
        assert(paths_with(rs1, d).to_multiset() =~= paths_with(rs2, d).to_multiset());
    }
    assert forall|d: Seq<char>| index_of(grouping(rs1), d) >= 0 <==> #[trigger] index_of(grouping(rs2), d) >= 0 by {
        lemma_entry_paths(rs1, d);
        lemma_entry_paths(rs2, d);
        assert(entry_paths(grouping(rs1), d) == entry_paths(grouping(rs2), d));
        assert(paths_with(rs1, d).to_multiset().len() == paths_with(rs1, d).len());
        assert(paths_with(rs2, d).to_multiset().len() == paths_with(rs2, d).len());
    }
    assert forall|f: (Seq<char>, IoCause)| failures_of(rs1).to_multiset().count(f) == failures_of(rs2).to_multiset().count(f) by {
        lemma_failures_count(rs1, f.0, f.1);
        lemma_failures_count(rs2, f.0, f.1);
    }
    assert(failures_of(rs1).to_multiset() =~= failures_of(rs2).to_multiset());
}

/// The path of the file that a result is about.
pub open spec fn outcome_path(o: Outcome) -> Seq<char> {
    match o {
        Outcome::Hashed { path, .. } => path,
        Outcome::Unreadable { path, .. } => path,
    }
}

/// The paths of all results, in order.
pub open spec fn input_paths(rs: Seq<Outcome>) -> Seq<Seq<char>> {
    rs.map_values(|o: Outcome| outcome_path(o))
}

/// The paths of the failed files, in order.
pub open spec fn failed_paths(rs: Seq<Outcome>) -> Seq<Seq<char>> {
    failures_of(rs).map_values(|f: (Seq<char>, IoCause)| f.0)
}

/// The path lists of all entries, in table order.
pub open spec fn entry_lists(gs: Seq<Entry>) -> Seq<Seq<Seq<char>>> {
    gs.map_values(|e: Entry| e.1)
}

/// The paths of the entries that hold a single file, in table order.
pub open spec fn singletons(gs: Seq<Entry>) -> Seq<Seq<char>>
    decreases gs.len(),
{
    if gs.len() == 0 {
        Seq::empty()
    } else {
        let ss = singletons(gs.drop_last());
        if gs.last().1.len() == 1 {
            ss.push(gs.last().1[0])
        } else {
            ss
        }
    }
}

/// All paths of a list of path lists, counted with multiplicity.
pub open spec fn flatten_paths(ls: Seq<Seq<Seq<char>>>) -> Multiset<Seq<char>>
    decreases ls.len(),
{
    if ls.len() == 0 {
        Multiset::empty()
    } else {
        flatten_paths(ls.drop_last()).add(ls.last().to_multiset())
    }
}

proof fn lemma_flatten_update(ls: Seq<Seq<Seq<char>>>, k: int, x: Seq<Seq<char>>)
    requires
        0 <= k < ls.len(),
    ensures
        flatten_paths(ls.update(k, x)).add(ls[k].to_multiset()) == flatten_paths(ls).add(x.to_multiset()),
    decreases ls.len(),
{
    let us = ls.update(k, x);
    if k == ls.len() - 1 {
        assert(us.drop_last() =~= ls.drop_last());
        assert(us.last() == x);
    } else {
        assert(us.drop_last() =~= ls.drop_last().update(k, x));
        assert(us.last() == ls.last());
        assert(ls.drop_last()[k] == ls[k]);
        lemma_flatten_update(ls.drop_last(), k, x);
    }
    let a = flatten_paths(us.drop_last());
    let b = flatten_paths(ls.drop_last());
    assert(flatten_paths(us) == a.add(us.last().to_multiset()));
    assert(flatten_paths(ls) == b.add(ls.last().to_multiset()));
    if k == ls.len() - 1 {
        assert(a == b);
        assert(ls.last() == ls[k]);
    } else {
        assert(a.add(ls[k].to_multiset()) == b.add(x.to_multiset()));
    }
    assert forall|v: Seq<char>| #[trigger] flatten_paths(us).add(ls[k].to_multiset()).count(v) == flatten_paths(ls).add(x.to_multiset()).count(v) by {
        if k != ls.len() - 1 {
            assert(a.add(ls[k].to_multiset()).count(v) == b.add(x.to_multiset()).count(v));
        }
    }
    assert(flatten_paths(us).add(ls[k].to_multiset()) =~= flatten_paths(ls).add(x.to_multiset()));
}

proof fn lemma_split_entries(gs: Seq<Entry>)
    requires
        entries_nonempty(gs),
    ensures
        flatten_paths(duplicate_groups(gs)).add(singletons(gs).to_multiset()) == flatten_paths(entry_lists(gs)),
    decreases gs.len(),
{
    if gs.len() > 0 {
        let prev = gs.drop_last();
        assert(entries_nonempty(prev)) by {
            assert forall|i: int| 0 <= i < prev.len() implies #[trigger] prev[i].1.len() > 0 by {
                assert(prev[i] == gs[i]);
            }
        }
        lemma_split_entries(prev);
        assert(entry_lists(gs).drop_last() =~= entry_lists(prev));
        let last = gs.last().1;
        assert(gs[gs.len() - 1].1.len() > 0);
        assert(entry_lists(gs).last() == last);
        assert(flatten_paths(entry_lists(gs)) == flatten_paths(entry_lists(prev)).add(last.to_multiset()));
        if last.len() == 1 {
            assert(last =~= Seq::<Seq<char>>::empty().push(last[0]));
            assert(Seq::<Seq<char>>::empty().to_multiset().len() == 0);
            assert(singletons(gs) == singletons(prev).push(last[0]));
            assert(duplicate_groups(gs) == duplicate_groups(prev));
        } else {
            assert(singletons(gs) == singletons(prev));
            assert(duplicate_groups(gs) == duplicate_groups(prev).push(last));
            assert(duplicate_groups(prev).push(last).drop_last() =~= duplicate_groups(prev));
            assert(flatten_paths(duplicate_groups(gs)) == flatten_paths(duplicate_groups(prev)).add(last.to_multiset()));
        }
        assert(flatten_paths(duplicate_groups(gs)).add(singletons(gs).to_multiset())
            =~= flatten_paths(entry_lists(gs)));
    }
}

proof fn lemma_grouping_accounts(rs: Seq<Outcome>)
    ensures
        flatten_paths(entry_lists(grouping(rs))).add(failed_paths(rs).to_multiset()) == input_paths(rs).to_multiset(),
    decreases rs.len(),
{
    if rs.len() > 0 {
        let prev = rs.drop_last();
        lemma_grouping_accounts(prev);
        assert(input_paths(rs) =~= input_paths(prev).push(outcome_path(rs.last())));
        let gs = grouping(prev);
        match rs.last() {
            Outcome::Hashed { path, digest } => {
                assert(failed_paths(rs) =~= failed_paths(prev));
                lemma_index_of(gs, digest);
                let k = index_of(gs, digest);
                let f0 = flatten_paths(entry_lists(gs));
                let nl = entry_lists(grouping(rs));
                if k >= 0 {
                    assert(nl =~= entry_lists(gs).update(k, gs[k].1.push(path)));
                    lemma_flatten_update(entry_lists(gs), k, gs[k].1.push(path));
                    assert(entry_lists(gs)[k] == gs[k].1);
                    assert(gs[k].1.push(path).to_multiset() == gs[k].1.to_multiset().insert(path));
                    assert forall|v: Seq<char>| #[trigger] flatten_paths(nl).count(v) == f0.count(v) + (if v == path { 1int } else { 0 }) by {
                        assert(flatten_paths(nl).add(gs[k].1.to_multiset()).count(v)
                            == f0.add(gs[k].1.to_multiset().insert(path)).count(v));
                    }
                } else {
                    assert(nl =~= entry_lists(gs).push(seq![path]));
                    assert(nl.drop_last() =~= entry_lists(gs));
                    assert(seq![path] =~= Seq::<Seq<char>>::empty().push(path));
                    assert(Seq::<Seq<char>>::empty().to_multiset().len() == 0);
                    assert(flatten_paths(nl) == flatten_paths(nl.drop_last()).add(nl.last().to_multiset()));
                    assert forall|v: Seq<char>| #[trigger] flatten_paths(nl).count(v) == f0.count(v) + (if v == path { 1int } else { 0 }) by {}
                }
                assert(input_paths(rs).to_multiset() == input_paths(prev).to_multiset().insert(path));
                assert forall|v: Seq<char>| #[trigger] flatten_paths(nl).add(failed_paths(rs).to_multiset()).count(v)
                    == input_paths(rs).to_multiset().count(v) by {
                    assert(f0.add(failed_paths(prev).to_multiset()).count(v) == input_paths(prev).to_multiset().count(v));
                }
                assert(flatten_paths(entry_lists(grouping(rs))).add(failed_paths(rs).to_multiset())
                    =~= input_paths(rs).to_multiset());
            },
            Outcome::Unreadable { path, cause } => {
                assert(failed_paths(rs) =~= failed_paths(prev).push(path));
                assert(flatten_paths(entry_lists(grouping(rs))).add(failed_paths(rs).to_multiset())
                    =~= input_paths(rs).to_multiset());
            },
        }
    } else {
        assert(input_paths(rs).len() == 0);
        assert(failed_paths(rs).len() == 0);
    }
}

/// Every input file is accounted for exactly once: the paths of the
/// duplicate groups, of the single files and of the failures together are
/// the input paths, each as often as it was given.
pub proof fn lemma_every_file_accounted(rs: Seq<Outcome>)
    ensures
        flatten_paths(duplicate_groups(grouping(rs))).add(singletons(grouping(rs)).to_multiset()).add(
            failed_paths(rs).to_multiset(),
        ) == input_paths(rs).to_multiset(),
{
    lemma_grouping_wf(rs);
    lemma_split_entries(grouping(rs));
    lemma_grouping_accounts(rs);
}

/// A candidate file and what reading it gave: its content, or the cause of
/// the failure.
pub type Read = (Seq<char>, Result<Seq<u8>, IoCause>);

/// The results of fingerprinting each read, in order.
pub open spec fn fingerprint_all(reads: Seq<Read>) -> Seq<Outcome> {
    reads.map_values(|r: Read| outcome_of(r.0, r.1))
}

proof fn lemma_paths_with_one(rs: Seq<Outcome>, d: Seq<char>, i: int)
    requires
        0 <= i < rs.len(),
        rs[i] is Hashed,
        rs[i]->Hashed_digest == d,
    ensures
        paths_with(rs, d).contains(rs[i]->Hashed_path),
    decreases rs.len(),
{
    let p = rs[i]->Hashed_path;
    if i < rs.len() - 1 {
        assert(rs.drop_last()[i] == rs[i]);
        lemma_paths_with_one(rs.drop_last(), d, i);
        let ps = paths_with(rs.drop_last(), d);
        let k = choose|k: int| 0 <= k < ps.len() && ps[k] == p;
        assert(paths_with(rs, d)[k] == p);
    } else {
        assert(paths_with(rs, d).last() == p);
    }
}

proof fn lemma_paths_with_two(rs: Seq<Outcome>, d: Seq<char>, i: int, j: int)
    requires
        0 <= i < j < rs.len(),
        rs[i] is Hashed,
        rs[j] is Hashed,
        rs[i]->Hashed_digest == d,
        rs[j]->Hashed_digest == d,
    ensures
        paths_with(rs, d).len() >= 2,
        paths_with(rs, d).contains(rs[i]->Hashed_path),
        paths_with(rs, d).contains(rs[j]->Hashed_path),
    decreases rs.len(),
{
    let prev = rs.drop_last();
    lemma_paths_with_one(rs, d, i);
    lemma_paths_with_one(rs, d, j);
    assert(prev[i] == rs[i]);
    if j < rs.len() - 1 {
        assert(prev[j] == rs[j]);
        lemma_paths_with_two(prev, d, i, j);
    } else {
        lemma_paths_with_one(prev, d, i);
    }
}

proof fn lemma_paths_with_member(rs: Seq<Outcome>, d: Seq<char>, p: Seq<char>)
    requires
        paths_with(rs, d).contains(p),
    ensures
        exists|j: int| 0 <= j < rs.len() && rs[j] == (Outcome::Hashed { path: p, digest: d }),
    decreases rs.len(),
{
    let prev = rs.drop_last();
    if rs.len() > 0 {
        let last = rs.last();
        if last == (Outcome::Hashed { path: p, digest: d }) {
            assert(rs[rs.len() - 1] == last);
        } else {
            assert(paths_with(rs, d) == paths_with(prev, d) || paths_with(rs, d) == paths_with(prev, d).push(
                outcome_path(last),
            ));
            if paths_with(rs, d) != paths_with(prev, d) {
                let ps = paths_with(prev, d);
                let k = choose|k: int| 0 <= k < ps.len() + 1 && ps.push(outcome_path(last))[k] == p;
                assert(k < ps.len());
                assert(ps[k] == p);
            }
            lemma_paths_with_member(prev, d, p);
            let j = choose|j: int| 0 <= j < prev.len() && prev[j] == (Outcome::Hashed { path: p, digest: d });
            assert(rs[j] == prev[j]);
        }
    }
}

proof fn lemma_paths_with_only(rs: Seq<Outcome>, d: Seq<char>, i: int)
    requires
        0 <= i < rs.len(),
        rs[i] is Hashed,
        rs[i]->Hashed_digest == d,
        forall|j: int| 0 <= j < rs.len() && j != i && rs[j] is Hashed ==> rs[j]->Hashed_digest != d,
    ensures
        paths_with(rs, d) == seq![rs[i]->Hashed_path],
    decreases rs.len(),
{
    let prev = rs.drop_last();
    if i < rs.len() - 1 {
        assert(prev[i] == rs[i]);
        assert forall|j: int| 0 <= j < prev.len() && j != i && prev[j] is Hashed implies prev[j]->Hashed_digest != d by {
            assert(prev[j] == rs[j]);
        }
        lemma_paths_with_only(prev, d, i);
        assert(rs[rs.len() - 1] == rs.last());
    } else {
        assert forall|p: Seq<char>| !paths_with(prev, d).contains(p) by {
            if paths_with(prev, d).contains(p) {
                lemma_paths_with_member(prev, d, p);
                let j = choose|j: int| 0 <= j < prev.len() && prev[j] == (Outcome::Hashed { path: p, digest: d });
                assert(rs[j] == prev[j]);
            }
        }
        if paths_with(prev, d).len() > 0 {
            assert(paths_with(prev, d).contains(paths_with(prev, d)[0]));
        }
        assert(paths_with(rs, d) =~= seq![rs[i]->Hashed_path]);
    }
}

proof fn lemma_duplicate_of_entry(gs: Seq<Entry>, k: int)
    requires
        0 <= k < gs.len(),
        gs[k].1.len() > 1,
    ensures
        exists|m: int| 0 <= m < duplicate_groups(gs).len() && duplicate_groups(gs)[m] == gs[k].1,
    decreases gs.len(),
{
    if k == gs.len() - 1 {
        let m = duplicate_groups(gs).len() - 1;
        assert(duplicate_groups(gs)[m] == gs[k].1);
    } else {
        assert(gs.drop_last()[k] == gs[k]);
        lemma_duplicate_of_entry(gs.drop_last(), k);
        let ds = duplicate_groups(gs.drop_last());
        let m = choose|m: int| 0 <= m < ds.len() && ds[m] == gs[k].1;
        assert(duplicate_groups(gs)[m] == gs[k].1);
    }
}

proof fn lemma_entry_of_duplicate(gs: Seq<Entry>, m: int)
    requires
        0 <= m < duplicate_groups(gs).len(),
    ensures
        exists|k: int| 0 <= k < gs.len() && #[trigger] gs[k].1 == duplicate_groups(gs)[m],
    decreases gs.len(),
{
    let ds = duplicate_groups(gs.drop_last());
    if m < ds.len() {
        lemma_entry_of_duplicate(gs.drop_last(), m);
        let k = choose|k: int| 0 <= k < gs.drop_last().len() && #[trigger] gs.drop_last()[k].1 == ds[m];
        assert(gs[k] == gs.drop_last()[k]);
        assert(duplicate_groups(gs)[m] == ds[m]);
    } else {
        assert(gs[gs.len() - 1].1 == duplicate_groups(gs)[m]);
    }
}

/// Files whose content is the same byte for byte land in one duplicate
/// group, whatever else was read.
pub proof fn lemma_equal_content_grouped(reads: Seq<Read>, i: int, j: int)
    requires
        0 <= i < reads.len(),
        0 <= j < reads.len(),
        i != j,
        reads[i].1 is Ok,
        reads[j].1 == reads[i].1,
    ensures
        exists|m: int|
            0 <= m < duplicate_groups(grouping(fingerprint_all(reads))).len()
                && (#[trigger] duplicate_groups(grouping(fingerprint_all(reads)))[m]).contains(reads[i].0)
                && duplicate_groups(grouping(fingerprint_all(reads)))[m].contains(reads[j].0),
{
    let rs = fingerprint_all(reads);
    let gs = grouping(rs);
    let d = digest_of_read(reads[i]);
    if i < j {
        lemma_paths_with_two(rs, d, i, j);
    } else {
        lemma_paths_with_two(rs, d, j, i);
    }
    lemma_entry_paths(rs, d);
    lemma_grouping_paths(rs);
    lemma_index_of(gs, d);
    let k = index_of(gs, d);
    assert(gs[k].1 == paths_with(rs, d));
    lemma_duplicate_of_entry(gs, k);
}

/// A file whose digest no other file shares (its content differs from all
/// others, hash collisions aside) is in no duplicate group. The same path
/// must not have been read a second time with other content.
pub proof fn lemma_distinct_content_single(reads: Seq<Read>, i: int)
    requires
        0 <= i < reads.len(),
        reads[i].1 is Ok,
        forall|j: int|
            0 <= j < reads.len() && j != i && #[trigger] reads[j].1 is Ok ==> digest_of_read(reads[j])
                != digest_of_read(reads[i]) && reads[j].0 != reads[i].0,
    ensures
        forall|m: int|
            0 <= m < duplicate_groups(grouping(fingerprint_all(reads))).len() ==> !(
            #[trigger] duplicate_groups(grouping(fingerprint_all(reads)))[m]).contains(reads[i].0),
{
    let rs = fingerprint_all(reads);
    let gs = grouping(rs);
    let p = reads[i].0;
    let d = digest_of_read(reads[i]);
    assert forall|j: int| 0 <= j < rs.len() && j != i && rs[j] is Hashed implies rs[j]->Hashed_digest != d by {
        assert(reads[j].1 is Ok);
    }
    lemma_paths_with_only(rs, d, i);
    lemma_grouping_paths(rs);
    assert forall|m: int| 0 <= m < duplicate_groups(gs).len() implies !(#[trigger] duplicate_groups(gs)[m]).contains(p) by {
        lemma_entry_of_duplicate(gs, m);
        let k = choose|k: int| 0 <= k < gs.len() && #[trigger] gs[k].1 == duplicate_groups(gs)[m];
        let dk = gs[k].0;
        assert(gs[k].1 == paths_with(rs, dk));
        lemma_dup_long(gs, m);
        if paths_with(rs, dk).contains(p) {
            lemma_paths_with_member(rs, dk, p);
            let j = choose|j: int| 0 <= j < rs.len() && rs[j] == (Outcome::Hashed { path: p, digest: dk });
            if j != i {
                assert(reads[j].1 is Ok);
            }
            assert(dk == d);
            assert(paths_with(rs, dk).len() == 1);
        }
    }
}

proof fn lemma_dup_long(gs: Seq<Entry>, m: int)
    requires
        0 <= m < duplicate_groups(gs).len(),
    ensures
        duplicate_groups(gs)[m].len() > 1,
    decreases gs.len(),
{
    let ds = duplicate_groups(gs.drop_last());
    if m < ds.len() {
        lemma_dup_long(gs.drop_last(), m);
        assert(duplicate_groups(gs)[m] == ds[m]);
    }
}

/// The digest that a successful read gives.
pub open spec fn digest_of_read(r: Read) -> Seq<char> {
    digest_of(r.1->Ok_0)
}

/// No input gives no entries and no failures; one file gives no duplicate
/// group; one unreadable file gives exactly its failure and no entry.
pub proof fn lemma_boundaries(r: Outcome)
    ensures
        grouping(Seq::empty()).len() == 0,
        failures_of(Seq::empty()).len() == 0,
        duplicate_groups(grouping(seq![r])).len() == 0,
        r is Unreadable ==> grouping(seq![r]).len() == 0 && failures_of(seq![r]) == seq![
            (r->Unreadable_path, r->Unreadable_cause),
        ],
{
    let s = seq![r];
    assert(s.drop_last() =~= Seq::<Outcome>::empty());
    let gs = grouping(s);
    assert(s.last() == r);
    assert(grouping(Seq::<Outcome>::empty()) == Seq::<Entry>::empty());
    assert(grouping(s.drop_last()) == Seq::<Entry>::empty());
    assert(duplicate_groups(Seq::<Entry>::empty()).len() == 0);
    if let Outcome::Hashed { path, digest } = r {
        lemma_index_of(Seq::<Entry>::empty(), digest);
        assert(gs == Seq::<Entry>::empty().push((digest, seq![path])));
        assert(gs.drop_last() =~= Seq::<Entry>::empty());
        assert(gs.last().1.len() == 1);
    }
    assert(failures_of(s.drop_last()) == Seq::<(Seq<char>, IoCause)>::empty());
    if r is Unreadable {
        assert(failures_of(s) =~= seq![(r->Unreadable_path, r->Unreadable_cause)]);
    }
}

} // verus!
