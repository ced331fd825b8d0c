//! The fingerprinting and grouping engine: one result per candidate file,
//! a table from digest to the files that share it, and the duplicate sets.
use vstd::prelude::*;
use crate::digest::{digest_of, fingerprint};

verus! {

/// Why a file could not be read.
#[derive(Clone, Copy, Debug, PartialEq, Eq, Structural)]
pub enum IoCause {
    NotFound,
    PermissionDenied,
    Interrupted,
    Other,
}

/// The outcome of one read attempt on a candidate file: its whole content,
/// or the reason it could not be read.
pub struct FileRead {
    pub path: String,
    pub content: Result<Vec<u8>, IoCause>,
}

/// What became of one candidate file.
pub enum FingerprintResult {
    Success { path: String, digest: String },
    Failure { path: String, cause: IoCause },
}

/// A file that could not be fingerprinted, for the failure report.
pub struct FileFailure {
    pub path: String,
    pub cause: IoCause,
}

/// The files that share one digest, in the order their results came in.
pub struct DigestGroup {
    pub digest: String,
    pub paths: Vec<String>,
}

/// Every fingerprinted file under its digest, and every file that failed.
pub struct GroupingTable {
    pub groups: Vec<DigestGroup>,
    pub failures: Vec<FileFailure>,
}

/// A fingerprint result as plain values.
pub enum Outcome {
    Hashed { path: Seq<char>, digest: Seq<char> },
    Unreadable { path: Seq<char>, cause: IoCause },
}

/// A table entry as plain values: a digest and the paths under it.
pub type Entry = (Seq<char>, Seq<Seq<char>>);

impl View for FingerprintResult {
    type V = Outcome;

    open spec fn view(&self) -> Outcome {
        match self {
            FingerprintResult::Success { path, digest } => Outcome::Hashed {
                path: path@,
                digest: digest@,
            },
            FingerprintResult::Failure { path, cause } => Outcome::Unreadable {
                path: path@,
                cause: *cause,
            },
        }
    }
}

impl View for DigestGroup {
    type V = Entry;

    open spec fn view(&self) -> Entry {
        (self.digest@, self.paths.deep_view())
    }
}

impl View for FileFailure {
    type V = (Seq<char>, IoCause);

    open spec fn view(&self) -> (Seq<char>, IoCause) {
        (self.path@, self.cause)
    }
}

/// The results of a sequence of fingerprint attempts, as plain values.
pub open spec fn outcomes(rs: Seq<FingerprintResult>) -> Seq<Outcome> {
    rs.map_values(|r: FingerprintResult| r@)
}

/// What fingerprinting one read outcome gives.
pub open spec fn outcome_of(path: Seq<char>, content: Result<Seq<u8>, IoCause>) -> Outcome {
    match content {
        Ok(bytes) => Outcome::Hashed { path, digest: digest_of(bytes) },
        Err(cause) => Outcome::Unreadable { path, cause },
    }
}

/// The position of the entry for digest `d`, or -1 where there is none.
pub open spec fn index_of(gs: Seq<Entry>, d: Seq<char>) -> int
    decreases gs.len(),
{
    if gs.len() == 0 {
        -1
    } else if gs.last().0 == d {
        gs.len() - 1
    } else {
        index_of(gs.drop_last(), d)
    }
}

/// Files `p` under digest `d`: appended to the entry for `d`, or in a new
/// entry at the end where `d` has none yet.
pub open spec fn add_path(gs: Seq<Entry>, d: Seq<char>, p: Seq<char>) -> Seq<Entry> {
    let k = index_of(gs, d);
    if k >= 0 {
        gs.update(k, (d, gs[k].1.push(p)))
    } else {
        gs.push((d, seq![p]))
    }
}

/// The table entries that a sequence of results gives, folded in order.
pub open spec fn grouping(rs: Seq<Outcome>) -> Seq<Entry>
    decreases rs.len(),
{
    if rs.len() == 0 {
        Seq::empty()
    } else {
        let gs = grouping(rs.drop_last());
        match rs.last() {
            Outcome::Hashed { path, digest } => add_path(gs, digest, path),
            Outcome::Unreadable { .. } => gs,
        }
    }
}

/// The failed files of a sequence of results, in order.
pub open spec fn failures_of(rs: Seq<Outcome>) -> Seq<(Seq<char>, IoCause)>
    decreases rs.len(),
{
    if rs.len() == 0 {
        Seq::empty()
    } else {
        let fs = failures_of(rs.drop_last());
        match rs.last() {
            Outcome::Hashed { .. } => fs,
            Outcome::Unreadable { path, cause } => fs.push((path, cause)),
        }
    }
}

/// No two entries share a digest.
pub open spec fn keys_distinct(gs: Seq<Entry>) -> bool {
    forall|i: int, j: int| 0 <= i < j < gs.len() ==> #[trigger] gs[i].0 != #[trigger] gs[j].0
}

/// Every entry holds at least one path.
pub open spec fn entries_nonempty(gs: Seq<Entry>) -> bool {
    forall|i: int| 0 <= i < gs.len() ==> #[trigger] gs[i].1.len() > 0
}

/// The path lists of the entries with more than one path, in table order.
pub open spec fn duplicate_groups(gs: Seq<Entry>) -> Seq<Seq<Seq<char>>>
    decreases gs.len(),
{
    if gs.len() == 0 {
        Seq::empty()
    } else {
        let ds = duplicate_groups(gs.drop_last());
        if gs.last().1.len() > 1 {
            ds.push(gs.last().1)
        } else {
            ds
        }
    }
}

impl GroupingTable {
    pub open spec fn entries(&self) -> Seq<Entry> {
        self.groups@.map_values(|g: DigestGroup| g@)
    }

    pub open spec fn failed(&self) -> Seq<(Seq<char>, IoCause)> {
        self.failures@.map_values(|f: FileFailure| f@)
    }

    /// Digests are unique and every entry names at least one file.
    pub open spec fn wf(&self) -> bool {
        keys_distinct(self.entries()) && entries_nonempty(self.entries())
    }
}

/// `index_of` finds the entry for a digest exactly where there is one.
pub proof fn lemma_index_of(gs: Seq<Entry>, d: Seq<char>)
    ensures
        -1 <= index_of(gs, d) < gs.len(),
        index_of(gs, d) >= 0 ==> gs[index_of(gs, d)].0 == d,
        index_of(gs, d) == -1 <==> forall|k: int| 0 <= k < gs.len() ==> gs[k].0 != d,
        keys_distinct(gs) ==> forall|k: int| 0 <= k < gs.len() && gs[k].0 == d ==> index_of(gs, d) == k,
    decreases gs.len(),
{
    if gs.len() > 0 {
        lemma_index_of(gs.drop_last(), d);
        assert forall|k: int| 0 <= k < gs.len() - 1 implies gs.drop_last()[k] == gs[k] by {}
    }
}

/// Folding in a result keeps digests unique and entries non-empty.
pub proof fn lemma_add_path_wf(gs: Seq<Entry>, d: Seq<char>, p: Seq<char>)
    requires
        keys_distinct(gs),
        entries_nonempty(gs),
    ensures
        keys_distinct(add_path(gs, d, p)),
        entries_nonempty(add_path(gs, d, p)),
{
    lemma_index_of(gs, d);
    let ng = add_path(gs, d, p);
    if index_of(gs, d) >= 0 {
        assert forall|i: int| 0 <= i < ng.len() implies #[trigger] ng[i].0 == gs[i].0 by {}
    } else {
        assert forall|i: int| 0 <= i < gs.len() implies #[trigger] ng[i] == gs[i] by {}
    }
}

/// The entries that any sequence of results gives are well formed.
pub proof fn lemma_grouping_wf(rs: Seq<Outcome>)
    ensures
        keys_distinct(grouping(rs)),
        entries_nonempty(grouping(rs)),
    decreases rs.len(),
{
    if rs.len() > 0 {
        lemma_grouping_wf(rs.drop_last());
        match rs.last() {
            Outcome::Hashed { path, digest } => lemma_add_path_wf(grouping(rs.drop_last()), digest, path),
            Outcome::Unreadable { .. } => {},
        }
    }
}

/// Fingerprints one read outcome: the digest of the content that was read,
/// or a failure that keeps the path and the cause.
pub fn fingerprint_file(read: FileRead) -> (r: FingerprintResult)
    ensures
        r@ == outcome_of(read.path@, match read.content {
            Ok(bytes) => Ok(bytes@),
            Err(cause) => Err(cause),
        }),
{
    match read.content {
        Ok(bytes) => FingerprintResult::Success { path: read.path, digest: fingerprint(&bytes) },
        Err(cause) => FingerprintResult::Failure { path: read.path, cause },
    }
}

fn position(groups: &Vec<DigestGroup>, digest: &String) -> (k: usize)
    ensures
        k <= groups@.len(),
        k < groups@.len() ==> groups@[k as int].digest@ == digest@,
        k == groups@.len() ==> forall|i: int| 0 <= i < groups@.len() ==> groups@[i].digest@ != digest@,
{
    let mut k: usize = 0;
    while k < groups.len()
        invariant
            k <= groups@.len(),
            forall|i: int| 0 <= i < k ==> groups@[i].digest@ != digest@,
        decreases groups@.len() - k,
    {
        if groups[k].digest == *digest {
            return k;
        }
        k += 1;
    }
    k
}

/// Folds the results into a table from digest to the files that share it,
/// in the order the results are given, and sets the failures apart.
pub fn group(results: Vec<FingerprintResult>) -> (t: GroupingTable)
    ensures
        t.wf(),
        t.entries() == grouping(outcomes(results@)),
        t.failed() == failures_of(outcomes(results@)),
{
    let ghost rs = outcomes(results@);
    let mut groups: Vec<DigestGroup> = Vec::new();
    let mut failures: Vec<FileFailure> = Vec::new();
    let mut i: usize = 0;
    while i < results.len()
        invariant
            i <= results@.len(),
            rs == outcomes(results@),
            groups@.map_values(|g: DigestGroup| g@) == grouping(rs.subrange(0, i as int)),
            failures@.map_values(|f: FileFailure| f@) == failures_of(rs.subrange(0, i as int)),
        decreases results@.len() - i,
    {
        let ghost before = rs.subrange(0, i as int);
        let ghost gs = groups@.map_values(|g: DigestGroup| g@);
        let ghost old_groups = groups@;
        proof {
            let s = rs.subrange(0, i + 1);
            assert(s.drop_last() =~= before);
            assert(s.last() == results@[i as int]@);
            lemma_grouping_wf(before);
        }
        match &results[i] {
            FingerprintResult::Success { path, digest } => {
                let k = position(&groups, digest);
                proof {
                    lemma_index_of(gs, digest@);
                }
                if k < groups.len() {
                    groups[k].paths.push(path.clone());
                    proof {
                        assert(groups@[k as int].paths.deep_view() =~= old_groups[k as int].paths.deep_view().push(path@));
                        assert(groups@.map_values(|g: DigestGroup| g@) =~= gs.update(
                            k as int,
                            (digest@, gs[k as int].1.push(path@)),
                        ));
                    }
                } else {
                    let paths = vec![path.clone()];
                    proof {
                        assert(paths.deep_view() =~= seq![path@]);
                    }
                    groups.push(DigestGroup { digest: digest.clone(), paths });
                    proof {
                        assert(groups@.map_values(|g: DigestGroup| g@) =~= gs.push((digest@, seq![path@])));
                    }
                }
            },
            FingerprintResult::Failure { path, cause } => {
                failures.push(FileFailure { path: path.clone(), cause: *cause });
                proof {
                    assert(failures@.map_values(|f: FileFailure| f@) =~= failures_of(before).push(
                        (path@, *cause),
                    ));
                }
            },
        }
        i += 1;
    }
    proof {
        assert(rs.subrange(0, i as int) =~= rs);
        lemma_grouping_wf(rs);
    }
    GroupingTable { groups, failures }
}

/// The duplicate sets of a table: the path lists of the digests that more
/// than one file shares, in table order. Single files are left out.
pub fn find_duplicates(checksums: GroupingTable) -> (r: Vec<Vec<String>>)
    ensures
        r.deep_view() == duplicate_groups(checksums.entries()),
{
    let ghost gs = checksums.entries();
    let mut groups = checksums.groups;
    let mut r: Vec<Vec<String>> = Vec::new();
    let mut i: usize = 0;
    while i < groups.len()
        invariant
            i <= groups@.len(),
            gs.len() == groups@.len(),
            forall|j: int| i <= j < gs.len() ==> #[trigger] groups@[j]@ == gs[j],
            r.deep_view() == duplicate_groups(gs.subrange(0, i as int)),
        decreases groups@.len() - i,
    {
        let ghost before = groups@;
        proof {
            let s = gs.subrange(0, i + 1);
            assert(s.drop_last() =~= gs.subrange(0, i as int));
            assert(s.last() == gs[i as int]);
            assert(groups@[i as int]@ == gs[i as int]);
            assert(groups@[i as int].paths.deep_view() == gs[i as int].1);
            assert(groups@[i as int].paths@.len() == gs[i as int].1.len());
        }
        let ghost old_r = r.deep_view();
        if groups[i].paths.len() > 1 {
            let mut paths: Vec<String> = Vec::new();
            std::mem::swap(&mut paths, &mut groups[i].paths);
            r.push(paths);
            proof {
                assert(r.deep_view() =~= old_r.push(gs[i as int].1));
                assert(r.deep_view() =~= duplicate_groups(gs.subrange(0, i + 1)));
            }
        }
        proof {
            assert forall|j: int| i < j < gs.len() implies #[trigger] groups@[j]@ == gs[j] by {
                assert(groups@[j] == before[j]);
            }
        }
        i += 1;
    }
    proof {
        assert(gs.subrange(0, i as int) =~= gs);
    }
    r
}

/// The digest at position `i` is shared by another position.
pub open spec fn shared_at(ds: Seq<Seq<char>>, i: int) -> bool {
    exists|j: int| 0 <= j < ds.len() && j != i && #[trigger] ds[j] == ds[i]
}

/// For each file's digest, whether another file has the same digest, which
/// makes both duplicates.
pub fn duplicate_flags(digests: &Vec<String>) -> (r: Vec<bool>)
    ensures
        r@.len() == digests@.len(),
        forall|i: int| 0 <= i < r@.len() ==> r@[i] == shared_at(digests.deep_view(), i),
{
    let ghost ds = digests.deep_view();
    let mut r: Vec<bool> = Vec::new();
    let mut i: usize = 0;
    while i < digests.len()
        invariant
            i <= digests@.len(),
            ds == digests.deep_view(),
            r@.len() == i,
            forall|k: int| 0 <= k < i ==> r@[k] == shared_at(ds, k),
        decreases digests@.len() - i,
    {
        let mut shared = false;
        let mut j: usize = 0;
        while j < digests.len()
            invariant
                i < digests@.len(),
                j <= digests@.len(),
                ds == digests.deep_view(),
                shared == exists|k: int| 0 <= k < j && k != i && #[trigger] ds[k] == ds[i as int],
            decreases digests@.len() - j,
        {
            proof {
                assert(ds[j as int] == digests@[j as int]@);
                assert(ds[i as int] == digests@[i as int]@);
            }
            if j != i && digests[j] == digests[i] {
                shared = true;
            }
            proof {
                if !shared {
                    assert forall|k: int| 0 <= k < j + 1 && k != i implies #[trigger] ds[k] != ds[i as int] by {}
                }
            }
            j += 1;
        }
        r.push(shared);
        i += 1;
    }
    r
}

} // verus!
