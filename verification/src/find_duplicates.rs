//! The detection pipeline: identity deduplication, size partitioning, hash
//! partitioning, ranking and the status summary.

use vstd::prelude::*;

use crate::file_info::by_digest;
use crate::file_info::by_identity;
use crate::file_info::by_path;
use crate::file_info::by_size;
use crate::file_info::file_views;
use crate::file_info::group_views;
use crate::file_info::hashed_group_views;
use crate::file_info::hashed_views;
use crate::file_info::FileInfo;
use crate::file_info::FileView;
use crate::file_info::HashedFile;
use crate::file_info::HashedView;
use crate::grouping::dedup_keep_last;
use crate::grouping::differ_key;
use crate::grouping::first_repeats;
use crate::grouping::head_class;
use crate::grouping::lemma_filter_push;
use crate::grouping::match_key;
use crate::grouping::partition_by;
use crate::grouping::split_by;
use crate::grouping::tail_rest;
use vstd::multiset::Multiset;

verus! {

/// The key by which [`unique_by`] collapses directory entries.
pub enum UniqueKey {
    /// The `(device, inode)` pair: entries naming the same physical file.
    Identity,
    /// The full path: repeated directory entries.
    Path,
}

/// The key predicate that a [`UniqueKey`] selects.
pub open spec fn unique_key_of(key: UniqueKey) -> spec_fn(FileView, FileView) -> bool {
    match key {
        UniqueKey::Identity => by_identity(),
        UniqueKey::Path => by_path(),
    }
}

/// Whether two descriptors agree on the chosen key.
fn key_matches(key: &UniqueKey, a: &FileInfo, b: &FileInfo) -> (r: bool)
    ensures
        r == unique_key_of(*key)(a@, b@),
{
    match key {
        UniqueKey::Identity => a.device == b.device && a.inode == b.inode,
        UniqueKey::Path => a.path == b.path,
    }
}

/// Removes entries that share the chosen key with a later entry, so that for
/// every key exactly the last entry bearing it survives.
pub fn unique_by(files: Vec<FileInfo>, key: UniqueKey) -> (r: Vec<FileInfo>)
    ensures
        file_views(r@) == dedup_keep_last(file_views(files@), unique_key_of(key)),
{
    let ghost s = file_views(files@);
    let ghost eq = unique_key_of(key);
    let n = files.len();
    let mut r: Vec<FileInfo> = Vec::new();
    assert(s.skip(0) =~= s);
    for j in 0..n
        invariant
            n == files.len(),
            s == file_views(files@),
            eq == unique_key_of(key),
            file_views(r@) + dedup_keep_last(s.skip(j as int), eq) == dedup_keep_last(s, eq),
    {
        let mut dup_later = false;
        for k in (j + 1)..n
            invariant
                j < k <= n,
                n == files.len(),
                s == file_views(files@),
                eq == unique_key_of(key),
                dup_later <==> exists|t: int| j < t < k && #[trigger] eq(s[t], s[j as int]),
        {
            if key_matches(&key, &files[k], &files[j]) {
                proof {
                    assert(eq(s[k as int], s[j as int]));
                }
                dup_later = true;
            }
        }
        let ghost sj = s.skip(j as int);
        proof {
            assert(sj.drop_first() =~= s.skip(j as int + 1));
            assert(sj[0] == s[j as int]);
            assert(first_repeats(sj, eq) <==> dup_later) by {
                if dup_later {
                    let t = choose|t: int| j < t < n && #[trigger] eq(s[t], s[j as int]);
                    assert(sj[t - j] == s[t]);
                    assert(1 <= t - j < sj.len() && eq(sj[t - j], sj[0]));
                }
                if first_repeats(sj, eq) {
                    let k = choose|k: int| 1 <= k < sj.len() && #[trigger] eq(sj[k], sj[0]);
                    assert(sj[k] == s[k + j]);
                    assert(eq(s[k + j], s[j as int]));
                }
            }
        }
        if !dup_later {
            let kept = files[j].clone();
            proof {
                assert(file_views(r@.push(kept)) =~= file_views(r@) + seq![s[j as int]]);
                assert(file_views(r@) + seq![s[j as int]] + dedup_keep_last(s.skip(j as int + 1), eq)
                    =~= file_views(r@) + (seq![sj[0]] + dedup_keep_last(sj.drop_first(), eq)));
            }
            r.push(kept);
        }
    }
    proof {
        assert(s.skip(n as int) =~= Seq::<FileView>::empty());
        assert(file_views(r@) + dedup_keep_last(s.skip(n as int), eq) =~= file_views(r@));
    }
    r
}

/// Partitions descriptors into classes of equal byte length, in order of
/// first occurrence; classes with fewer than two members are dropped, since
/// a lone file of some size cannot have a duplicate.
pub fn group_by_size(files: Vec<FileInfo>) -> (r: Vec<Vec<FileInfo>>)
    ensures
        group_views(r@) == partition_by(file_views(files@), by_size()),
    decreases files@.len(),
{
    let ghost s = file_views(files@);
    let ghost eq = by_size();
    if files.len() == 0 {
        let r: Vec<Vec<FileInfo>> = Vec::new();
        proof {
            assert(group_views(r@) =~= partition_by(s, eq));
        }
        return r;
    }
    let n = files.len();
    let ghost pivot = s[0];
    let ghost keep = match_key(eq, pivot);
    let ghost drop = differ_key(eq, pivot);
    let first_size = files[0].size;
    let mut g: Vec<FileInfo> = Vec::new();
    let mut rest: Vec<FileInfo> = Vec::new();
    g.push(files[0].clone());
    proof {
        assert(s.drop_first().subrange(0, 0) =~= Seq::<FileView>::empty());
        reveal(Seq::filter);
        assert(file_views(g@) =~= seq![pivot] + s.drop_first().subrange(0, 0).filter(keep));
        assert(file_views(rest@) =~= s.drop_first().subrange(0, 0).filter(drop));
    }
    for i in 1..n
        invariant
            n == files.len(),
            s == file_views(files@),
            eq == by_size(),
            pivot == s[0],
            keep == match_key(eq, pivot),
            drop == differ_key(eq, pivot),
            first_size == s[0].size,
            1 <= i <= n,
            file_views(g@) == seq![pivot] + s.drop_first().subrange(0, i - 1).filter(keep),
            file_views(rest@) == s.drop_first().subrange(0, i - 1).filter(drop),
    {
        let ghost pre = s.drop_first().subrange(0, i - 1);
        proof {
            assert(s.drop_first().subrange(0, i as int) =~= pre.push(s[i as int]));
            lemma_filter_push(pre, keep, s[i as int]);
            lemma_filter_push(pre, drop, s[i as int]);
        }
        let f = files[i].clone();
        if f.size == first_size {
            proof {
                assert(file_views(g@.push(f)) =~= file_views(g@).push(f@));
            }
            g.push(f);
        } else {
            proof {
                assert(file_views(rest@.push(f)) =~= file_views(rest@).push(f@));
            }
            rest.push(f);
        }
    }
    proof {
        assert(s.drop_first().subrange(0, n - 1) =~= s.drop_first());
        assert(file_views(g@) == head_class(s, eq));
        assert(file_views(rest@) == tail_rest(s, eq));
        s.drop_first().lemma_filter_len(drop);
    }
    let mut sub = group_by_size(rest);
    if g.len() >= 2 {
        let mut r: Vec<Vec<FileInfo>> = Vec::new();
        r.push(g);
        r.append(&mut sub);
        proof {
            assert(group_views(r@) =~= seq![head_class(s, eq)] + partition_by(tail_rest(s, eq), eq));
        }
        r
    } else {
        proof {
            assert(head_class(s, eq).len() < 2);
        }
        sub
    }
}

/// Applies the size partition to every group and concatenates the results.
/// Partitioning is idempotent, so a second pass over the output of
/// [`group_by_size`] is a provable no-op; it is kept as the defensive second
/// stage of the pipeline.
pub fn split_by_size(groups: Vec<Vec<FileInfo>>) -> (r: Vec<Vec<FileInfo>>)
    ensures
        group_views(r@) == split_by(group_views(groups@), by_size()),
    decreases groups@.len(),
{
    let ghost gs = group_views(groups@);
    let mut rem = groups;
    if rem.len() == 0 {
        let r: Vec<Vec<FileInfo>> = Vec::new();
        proof {
            assert(group_views(r@) =~= split_by(gs, by_size()));
        }
        return r;
    }
    let first = rem.remove(0);
    proof {
        assert(group_views(rem@) =~= gs.drop_first());
    }
    let mut r = group_by_size(first);
    let mut sub = split_by_size(rem);
    r.append(&mut sub);
    proof {
        assert(group_views(r@) =~= partition_by(gs[0], by_size()) + split_by(
            gs.drop_first(),
            by_size(),
        ));
    }
    r
}

/// The entries that survive both deduplication passes: one entry per physical
/// file, then one per path.
pub open spec fn surviving(files: Seq<FileView>) -> Seq<FileView> {
    dedup_keep_last(identity_survivors(files), by_path())
}

/// What the candidate stage produces: the surviving entries partitioned by
/// size, with the partition applied twice.
pub open spec fn spec_candidate_groups(files: Seq<FileView>) -> Seq<Seq<FileView>> {
    split_by(partition_by(surviving(files), by_size()), by_size())
}

/// The cheap half of the pipeline: collapses entries naming one physical
/// file, then entries with one path, and partitions the survivors by byte
/// length, twice.  Every resulting group holds at least two files of one
/// size; only those files need hashing.
pub fn prepare_candidates(files: Vec<FileInfo>) -> (r: Vec<Vec<FileInfo>>)
    ensures
        group_views(r@) == spec_candidate_groups(file_views(files@)),
{
    let files = unique_by_identity(files);
    let files = unique_by_path(files);
    let groups = group_by_size(files);
    split_by_size(groups)
}

/// Whether two digests are byte-for-byte equal.
fn digest_eq(a: &Vec<u8>, b: &Vec<u8>) -> (r: bool)
    ensures
        r == (a@ == b@),
{
    if a.len() != b.len() {
        return false;
    }
    let n = a.len();
    for i in 0..n
        invariant
            n == a.len() == b.len(),
            forall|j: int| 0 <= j < i ==> a@[j] == b@[j],
    {
        if a[i] != b[i] {
            return false;
        }
    }
    proof {
        assert(a@ =~= b@);
    }
    true
}

/// Partitions hashed descriptors into classes of equal digest, in order of
/// first occurrence; classes with fewer than two members are dropped.
pub fn group_by_hash(files: Vec<HashedFile>) -> (r: Vec<Vec<HashedFile>>)
    ensures
        hashed_group_views(r@) == partition_by(hashed_views(files@), by_digest()),
    decreases files@.len(),
{
    let ghost s = hashed_views(files@);
    let ghost eq = by_digest();
    if files.len() == 0 {
        let r: Vec<Vec<HashedFile>> = Vec::new();
        proof {
            assert(hashed_group_views(r@) =~= partition_by(s, eq));
        }
        return r;
    }
    let n = files.len();
    let ghost pivot = s[0];
    let ghost keep = match_key(eq, pivot);
    let ghost drop = differ_key(eq, pivot);
    let mut g: Vec<HashedFile> = Vec::new();
    let mut rest: Vec<HashedFile> = Vec::new();
    g.push(files[0].clone());
    proof {
        assert(s.drop_first().subrange(0, 0) =~= Seq::<HashedView>::empty());
        reveal(Seq::filter);
        assert(hashed_views(g@) =~= seq![pivot] + s.drop_first().subrange(0, 0).filter(keep));
        assert(hashed_views(rest@) =~= s.drop_first().subrange(0, 0).filter(drop));
    }
    for i in 1..n
        invariant
            n == files.len(),
            s == hashed_views(files@),
            eq == by_digest(),
            pivot == s[0],
            keep == match_key(eq, pivot),
            drop == differ_key(eq, pivot),
            1 <= i <= n,
            hashed_views(g@) == seq![pivot] + s.drop_first().subrange(0, i - 1).filter(keep),
            hashed_views(rest@) == s.drop_first().subrange(0, i - 1).filter(drop),
    {
        let ghost pre = s.drop_first().subrange(0, i - 1);
        proof {
            assert(s.drop_first().subrange(0, i as int) =~= pre.push(s[i as int]));
            lemma_filter_push(pre, keep, s[i as int]);
            lemma_filter_push(pre, drop, s[i as int]);
        }
        let f = files[i].clone();
        if digest_eq(&f.digest, &files[0].digest) {
            proof {
                assert(hashed_views(g@.push(f)) =~= hashed_views(g@).push(f@));
            }
            g.push(f);
        } else {
            proof {
                assert(hashed_views(rest@.push(f)) =~= hashed_views(rest@).push(f@));
            }
            rest.push(f);
        }
    }
    proof {
        assert(s.drop_first().subrange(0, n - 1) =~= s.drop_first());
        assert(hashed_views(g@) == head_class(s, eq));
        assert(hashed_views(rest@) == tail_rest(s, eq));
        s.drop_first().lemma_filter_len(drop);
    }
    let mut sub = group_by_hash(rest);
    if g.len() >= 2 {
        let mut r: Vec<Vec<HashedFile>> = Vec::new();
        r.push(g);
        r.append(&mut sub);
        proof {
            assert(hashed_group_views(r@) =~= seq![head_class(s, eq)] + partition_by(
                tail_rest(s, eq),
                eq,
            ));
        }
        r
    } else {
        proof {
            assert(head_class(s, eq).len() < 2);
        }
        sub
    }
}

/// Applies the digest partition to every size class and concatenates the
/// results.
pub fn split_by_hash(groups: Vec<Vec<HashedFile>>) -> (r: Vec<Vec<HashedFile>>)
    ensures
        hashed_group_views(r@) == split_by(hashed_group_views(groups@), by_digest()),
    decreases groups@.len(),
{
    let ghost gs = hashed_group_views(groups@);
    let mut rem = groups;
    if rem.len() == 0 {
        let r: Vec<Vec<HashedFile>> = Vec::new();
        proof {
            assert(hashed_group_views(r@) =~= split_by(gs, by_digest()));
        }
        return r;
    }
    let first = rem.remove(0);
    proof {
        assert(hashed_group_views(rem@) =~= gs.drop_first());
    }
    let mut r = group_by_hash(first);
    let mut sub = split_by_hash(rem);
    r.append(&mut sub);
    proof {
        assert(hashed_group_views(r@) =~= partition_by(gs[0], by_digest()) + split_by(
            gs.drop_first(),
            by_digest(),
        ));
    }
    r
}

/// A set of at least two descriptors that passed every stage: same size,
/// same full-content digest, distinct physical identity.
pub struct DuplicatesGroup {
    pub files: Vec<FileInfo>,
}

impl View for DuplicatesGroup {
    type V = Seq<FileView>;

    open spec fn view(&self) -> Seq<FileView> {
        file_views(self.files@)
    }
}

/// The views of a sequence of duplicate groups.
pub open spec fn dgroup_views(s: Seq<DuplicatesGroup>) -> Seq<Seq<FileView>> {
    s.map_values(|d: DuplicatesGroup| d@)
}

/// The wasted bytes a group stands for: the shared size times the member
/// count.  This counts the full replicated size, not `size * (count - 1)`;
/// the summary's redundant-file count uses the other convention.
pub open spec fn waste_of(g: Seq<FileView>) -> int {
    g[0].size * g.len()
}

/// The group list is ordered by waste, largest first.
pub open spec fn ranked(gs: Seq<Seq<FileView>>) -> bool {
    forall|i: int, j: int| 0 <= i <= j < gs.len() ==> waste_of(gs[i]) >= waste_of(gs[j])
}

impl DuplicatesGroup {
    /// The group is non-empty and its waste fits the machine word.
    pub open spec fn waste_fits(&self) -> bool {
        self@.len() >= 1 && waste_of(self@) <= u64::MAX
    }

    /// The byte length shared by the members, recorded once per group.
    pub fn size(&self) -> (r: u64)
        requires
            self@.len() >= 1,
        ensures
            r == self@[0].size,
    {
        self.files[0].size
    }

    /// The wasted bytes: the shared size times the member count.
    pub fn waste(&self) -> (r: u64)
        requires
            self.waste_fits(),
        ensures
            r == waste_of(self@),
    {
        self.files[0].size * (self.files.len() as u64)
    }
}

/// The descriptor of each hashed entry, digest dropped.
pub open spec fn strip_group(g: Seq<HashedView>) -> Seq<FileView> {
    g.map_values(|h: HashedView| h.file)
}

/// [`strip_group`] applied to every group.
pub open spec fn strip_groups(gs: Seq<Seq<HashedView>>) -> Seq<Seq<FileView>> {
    gs.map_values(|g: Seq<HashedView>| strip_group(g))
}

/// Wraps each hashed class as a [`DuplicatesGroup`], dropping the digests.
pub fn make_groups(groups: Vec<Vec<HashedFile>>) -> (r: Vec<DuplicatesGroup>)
    ensures
        dgroup_views(r@) == strip_groups(hashed_group_views(groups@)),
{
    let ghost gs = hashed_group_views(groups@);
    let n = groups.len();
    let mut r: Vec<DuplicatesGroup> = Vec::new();
    for i in 0..n
        invariant
            n == groups.len(),
            gs == hashed_group_views(groups@),
            dgroup_views(r@) == strip_groups(gs.subrange(0, i as int)),
    {
        let g = &groups[i];
        let m = g.len();
        let mut files: Vec<FileInfo> = Vec::new();
        for k in 0..m
            invariant
                m == g.len(),
                g == groups@[i as int],
                i < n == groups.len(),
                gs == hashed_group_views(groups@),
                file_views(files@) == strip_group(gs[i as int]).subrange(0, k as int),
        {
            let f = g[k].file.clone();
            proof {
                assert(file_views(files@.push(f)) =~= file_views(files@).push(f@));
                assert(strip_group(gs[i as int]).subrange(0, k + 1) =~= strip_group(
                    gs[i as int],
                ).subrange(0, k as int).push(gs[i as int][k as int].file));
            }
            files.push(f);
        }
        proof {
            assert(strip_group(gs[i as int]).subrange(0, m as int) =~= strip_group(gs[i as int]));
        }
        let group = DuplicatesGroup { files };
        proof {
            assert(dgroup_views(r@.push(group)) =~= dgroup_views(r@).push(group@));
            assert(strip_groups(gs.subrange(0, i + 1)) =~= strip_groups(
                gs.subrange(0, i as int),
            ).push(strip_group(gs[i as int])));
        }
        r.push(group);
    }
    proof {
        assert(gs.subrange(0, n as int) =~= gs);
    }
    r
}

/// Orders groups by waste, largest first, by insertion into an already
/// ordered list; the result is a permutation of the input.  The order among
/// groups of equal waste is left open.
pub fn rank_groups(groups: Vec<DuplicatesGroup>) -> (r: Vec<DuplicatesGroup>)
    requires
        forall|i: int| 0 <= i < groups@.len() ==> (#[trigger] groups@[i]).waste_fits(),
    ensures
        dgroup_views(r@).to_multiset() == dgroup_views(groups@).to_multiset(),
        ranked(dgroup_views(r@)),
        forall|i: int| 0 <= i < r@.len() ==> (#[trigger] r@[i]).waste_fits(),
{
    broadcast use vstd::seq_lib::group_to_multiset_ensures;

    let ghost all = dgroup_views(groups@);
    let mut rem = groups;
    let mut out: Vec<DuplicatesGroup> = Vec::new();
    while rem.len() > 0
        invariant
            forall|i: int| 0 <= i < rem@.len() ==> (#[trigger] rem@[i]).waste_fits(),
            forall|i: int| 0 <= i < out@.len() ==> (#[trigger] out@[i]).waste_fits(),
            ranked(dgroup_views(out@)),
            dgroup_views(out@).to_multiset().add(dgroup_views(rem@).to_multiset())
                == all.to_multiset(),
        decreases rem@.len(),
    {
        let ghost rem0 = dgroup_views(rem@);
        let ghost out0 = dgroup_views(out@);
        let g = rem.remove(0);
        proof {
            broadcast use vstd::multiset::group_multiset_axioms;

            assert(dgroup_views(rem@) =~= rem0.remove(0));
            assert(rem0[0] == g@);
            assert(rem0.contains(g@));
            vstd::seq_lib::to_multiset_remove(rem0, 0);
        }
        let w = g.waste();
        let pos = insertion_point(&out, w);
        proof {
            broadcast use vstd::multiset::group_multiset_axioms;

            assert(dgroup_views(out@.insert(pos as int, g)) =~= out0.insert(pos as int, g@));
            let newv = out0.insert(pos as int, g@);
            assert(newv.len() == out0.len() + 1);
            assert forall|k: int| 0 <= k < newv.len() implies newv[k] == (if k < pos {
                out0[k]
            } else if k == pos {
                g@
            } else {
                out0[k - 1]
            }) by {}
            assert(ranked(newv)) by {
                assert forall|i: int, j: int| 0 <= i <= j < newv.len() implies waste_of(newv[i])
                    >= waste_of(newv[j]) by {
                    assert(forall|k: int| 0 <= k < out0.len() ==> out0[k] == (#[trigger] out@[k])@);
                    if j < pos {
                    } else if i < pos && j == pos {
                        assert(waste_of(out0[i]) >= w);
                    } else if i < pos && j > pos {
                        assert(waste_of(out0[i]) >= waste_of(out0[j - 1]));
                    } else if i == pos && j > pos {
                        assert(pos < out0.len());
                        assert(waste_of(out0[pos as int]) < w);
                        assert(waste_of(out0[pos as int]) >= waste_of(out0[j - 1]));
                    } else if i > pos {
                        assert(waste_of(out0[i - 1]) >= waste_of(out0[j - 1]));
                    }
                }
            }
            vstd::seq_lib::to_multiset_insert(out0, pos as int, g@);
        }
        out.insert(pos, g);
        proof {
            broadcast use vstd::multiset::group_multiset_axioms;

            assert(rem0.contains(g@));
            vstd::seq_lib::to_multiset_contains(rem0, g@);
            assert(rem0.to_multiset().count(g@) > 0);
            assert(dgroup_views(out@) =~= out0.insert(pos as int, g@));
            assert(dgroup_views(out@).to_multiset() == out0.to_multiset().insert(g@));
            assert(dgroup_views(rem@).to_multiset() == rem0.to_multiset().remove(g@));
            assert(dgroup_views(out@).to_multiset().add(dgroup_views(rem@).to_multiset())
                =~= all.to_multiset());
        }
    }
    proof {
        assert(dgroup_views(rem@) =~= Seq::<Seq<FileView>>::empty());
        assert(Seq::<Seq<FileView>>::empty().to_multiset() =~= Multiset::<Seq<FileView>>::empty());
        assert(dgroup_views(out@).to_multiset() =~= all.to_multiset());
    }
    out
}

/// What the walk does with one directory entry.
pub enum WalkAction {
    /// An exclusion pattern matches the entry's path: do not report it and do
    /// not descend into it.
    Skip,
    /// A directory to walk into.
    Recurse,
    /// A regular file at or above the size threshold: a candidate.
    Admit,
    /// Anything else: a directory with recursion off, a symlink or other
    /// special entry, or a file below the threshold.
    Ignore,
}

/// The walker's rule for one directory entry.  Exclusion is decided first,
/// on the full path, before any metadata is consulted; a directory is
/// entered only when `recurse` holds; a regular file is admitted exactly
/// when its size reaches `min_size` (the boundary is inclusive); everything
/// else — symlinks and other special entries included — is silently ignored.
pub fn walk_decision(
    excluded: bool,
    is_dir: bool,
    is_file: bool,
    size: u64,
    min_size: u64,
    recurse: bool,
) -> (a: WalkAction)
    ensures
        a is Skip <==> excluded,
        a is Recurse <==> !excluded && is_dir && recurse,
        a is Admit <==> !excluded && !is_dir && is_file && size >= min_size,
        a is Ignore <==> !excluded && !(is_dir && recurse) && !(!is_dir && is_file && size
            >= min_size),
{
    if excluded {
        WalkAction::Skip
    } else if is_dir {
        if recurse {
            WalkAction::Recurse
        } else {
            WalkAction::Ignore
        }
    } else if is_file && size >= min_size {
        WalkAction::Admit
    } else {
        WalkAction::Ignore
    }
}

/// A size class as the hash stage receives it: non-empty, all members of one
/// byte length, and the class waste small enough for the machine word.
pub open spec fn size_class_wf(g: Seq<HashedView>) -> bool {
    &&& g.len() >= 1
    &&& forall|i: int| 0 <= i < g.len() ==> (#[trigger] g[i]).file.size == g[0].file.size
    &&& g[0].file.size * g.len() <= u64::MAX
}

/// A finished duplicate group: at least two files, all of one byte length.
pub open spec fn group_wf(g: Seq<FileView>) -> bool {
    g.len() >= 2 && forall|i: int| 0 <= i < g.len() ==> (#[trigger] g[i]).size == g[0].size
}

/// The expensive half of the pipeline: partitions every size class by the
/// full-content digest, wraps the classes of at least two files as duplicate
/// groups, and ranks them by waste, largest first.
pub fn collect_groups(groups: Vec<Vec<HashedFile>>) -> (r: Vec<DuplicatesGroup>)
    requires
        forall|i: int|
            0 <= i < groups@.len() ==> size_class_wf(#[trigger] hashed_group_views(groups@)[i]),
    ensures
        dgroup_views(r@).to_multiset() == strip_groups(
            split_by(hashed_group_views(groups@), by_digest()),
        ).to_multiset(),
        ranked(dgroup_views(r@)),
        forall|i: int| 0 <= i < r@.len() ==> group_wf((#[trigger] r@[i])@),
{
    let ghost gs = hashed_group_views(groups@);
    let parts = split_by_hash(groups);
    let wrapped = make_groups(parts);
    proof {
        crate::file_info::lemma_keys_are_equivalences();
        crate::grouping::lemma_split_class_origin(gs, by_digest());
        crate::grouping::lemma_split_wf(gs, by_digest());
        let classes = split_by(gs, by_digest());
        assert(dgroup_views(wrapped@) == strip_groups(classes));
        assert(strip_groups(classes).len() == classes.len());
        assert(dgroup_views(wrapped@).len() == wrapped@.len());
        assert forall|i: int| 0 <= i < wrapped@.len() implies (
        #[trigger] wrapped@[i]).waste_fits() && group_wf((wrapped@[i])@) by {
            assert(0 <= i < classes.len());
            let c = classes[i];
            assert(wrapped@[i]@ == dgroup_views(wrapped@)[i]);
            assert(strip_groups(classes)[i] == strip_group(c));
            let k = choose|k: int|
                0 <= k < gs.len() && crate::grouping::seq_subset(classes[i], #[trigger] gs[k])
                    && classes[i].len() <= gs[k].len();
            assert(c.len() >= 2);
            assert(c.contains(c[0]));
            assert(gs[k].contains(c[0]));
            let m = choose|m: int| 0 <= m < gs[k].len() && gs[k][m] == c[0];
            assert(c[0].file.size == gs[k][0].file.size);
            assert(strip_group(c)[0] == c[0].file);
            assert(waste_of(strip_group(c)) == c[0].file.size * c.len());
            vstd::arithmetic::mul::lemma_mul_inequality(
                c.len() as int,
                gs[k].len() as int,
                c[0].file.size as int,
            );
            vstd::arithmetic::mul::lemma_mul_is_commutative(
                c.len() as int,
                c[0].file.size as int,
            );
            vstd::arithmetic::mul::lemma_mul_is_commutative(
                gs[k].len() as int,
                c[0].file.size as int,
            );
            assert(c[0].file.size * c.len() <= gs[k][0].file.size * gs[k].len());
            assert(group_wf(strip_group(c))) by {
                assert forall|m: int| 0 <= m < strip_group(c).len() implies (
                #[trigger] strip_group(c)[m]).size == strip_group(c)[0].size by {
                    assert(strip_group(c)[m] == c[m].file);
                    assert(c.contains(c[m]));
                    assert(gs[k].contains(c[m]));
                    let mm = choose|mm: int| 0 <= mm < gs[k].len() && gs[k][mm] == c[m];
                    assert(c[m].file.size == gs[k][0].file.size);
                }
            }
            assert((wrapped@[i])@ == strip_group(c));
        }
    }
    let ranked_out = rank_groups(wrapped);
    proof {
        broadcast use vstd::seq_lib::group_to_multiset_ensures;

        assert forall|i: int| 0 <= i < ranked_out@.len() implies group_wf((
        #[trigger] ranked_out@[i])@) by {
            let v = (ranked_out@[i])@;
            assert(dgroup_views(ranked_out@)[i] == v);
            assert(dgroup_views(ranked_out@).contains(v));
            vstd::seq_lib::to_multiset_contains(dgroup_views(ranked_out@), v);
            vstd::seq_lib::to_multiset_contains(dgroup_views(wrapped@), v);
            assert(dgroup_views(wrapped@).contains(v));
            let j = choose|j: int|
                0 <= j < dgroup_views(wrapped@).len() && dgroup_views(wrapped@)[j] == v;
            assert(group_wf((wrapped@[j])@));
        }
    }
    ranked_out
}

/// A descriptor with the digest that `dg` assigns to it.
pub open spec fn attach_digest(dg: spec_fn(FileView) -> Seq<u8>, f: FileView) -> HashedView {
    HashedView { file: f, digest: dg(f) }
}

/// One candidate group with digests attached.
pub open spec fn attach_group(g: Seq<FileView>, dg: spec_fn(FileView) -> Seq<u8>) -> Seq<
    HashedView,
> {
    g.map_values(|f: FileView| attach_digest(dg, f))
}

/// All candidate groups with digests attached.
pub open spec fn attach_groups(gs: Seq<Seq<FileView>>, dg: spec_fn(FileView) -> Seq<u8>) -> Seq<
    Seq<HashedView>,
> {
    gs.map_values(|g: Seq<FileView>| attach_group(g, dg))
}

/// The whole pipeline, before ranking: the candidate groups, with the digest
/// `dg` assigns to each surviving descriptor, partitioned by digest.
pub open spec fn spec_duplicate_groups(
    files: Seq<FileView>,
    dg: spec_fn(FileView) -> Seq<u8>,
) -> Seq<Seq<HashedView>> {
    split_by(attach_groups(spec_candidate_groups(files), dg), by_digest())
}

/// Attaching digests changes membership of no group.
proof fn lemma_attach_same_group(
    gs: Seq<Seq<FileView>>,
    dg: spec_fn(FileView) -> Seq<u8>,
    x: FileView,
    y: FileView,
)
    ensures
        crate::grouping::same_group(attach_groups(gs, dg), attach_digest(dg, x), attach_digest(dg, y))
            <==> crate::grouping::same_group(gs, x, y),
{
    assert forall|j: int, f: FileView| 0 <= j < gs.len() implies (#[trigger] attach_group(
        gs[j],
        dg,
    ).contains(attach_digest(dg, f))) <==> gs[j].contains(f) by {
        lemma_attach_contains(gs[j], dg, f);
    }
    if crate::grouping::same_group(gs, x, y) {
        let j = choose|j: int| 0 <= j < gs.len() && gs[j].contains(x) && gs[j].contains(y);
        assert(attach_groups(gs, dg)[j] == attach_group(gs[j], dg));
    }
    if crate::grouping::same_group(attach_groups(gs, dg), attach_digest(dg, x), attach_digest(dg, y)) {
        let j = choose|j: int|
            0 <= j < attach_groups(gs, dg).len() && attach_groups(gs, dg)[j].contains(
                attach_digest(dg, x),
            ) && attach_groups(gs, dg)[j].contains(attach_digest(dg, y));
        assert(attach_groups(gs, dg)[j] == attach_group(gs[j], dg));
    }
}

/// A digest-carrying descriptor lies in an attached group exactly when its
/// bare descriptor lies in the bare group.
proof fn lemma_attach_contains(g: Seq<FileView>, dg: spec_fn(FileView) -> Seq<u8>, f: FileView)
    ensures
        attach_group(g, dg).contains(attach_digest(dg, f)) <==> g.contains(f),
{
    if g.contains(f) {
        let i = choose|i: int| 0 <= i < g.len() && g[i] == f;
        assert(attach_group(g, dg)[i] == attach_digest(dg, f));
    }
    if attach_group(g, dg).contains(attach_digest(dg, f)) {
        let i = choose|i: int|
            0 <= i < attach_group(g, dg).len() && attach_group(g, dg)[i] == attach_digest(dg, f);
        assert(attach_group(g, dg)[i] == attach_digest(dg, g[i]));
        assert(g[i] == f);
    }
}

/// Law: two distinct descriptors land in one and the same duplicate group
/// exactly when both survive deduplication and they agree on byte length and
/// on full-content digest.
pub proof fn lemma_grouped_iff(
    files: Seq<FileView>,
    dg: spec_fn(FileView) -> Seq<u8>,
    x: FileView,
    y: FileView,
)
    requires
        x != y,
    ensures
        crate::grouping::same_group(
            spec_duplicate_groups(files, dg),
            attach_digest(dg, x),
            attach_digest(dg, y),
        ) <==> (surviving(files).contains(x) && surviving(files).contains(y) && x.size == y.size
            && dg(x) == dg(y)),
{
    crate::file_info::lemma_keys_are_equivalences();
    let hx = attach_digest(dg, x);
    let hy = attach_digest(dg, y);
    assert(hx != hy);
    let surv = surviving(files);
    let cand = spec_candidate_groups(files);
    crate::grouping::lemma_split_same_group(attach_groups(cand, dg), by_digest(), hx, hy);
    lemma_attach_same_group(cand, dg, x, y);
    crate::grouping::lemma_split_same_group(partition_by(surv, by_size()), by_size(), x, y);
    crate::grouping::lemma_partition_same_group(surv, by_size(), x, y);
}

/// Law: being grouped together is symmetric.
pub proof fn lemma_grouped_symmetric(
    files: Seq<FileView>,
    dg: spec_fn(FileView) -> Seq<u8>,
    x: FileView,
    y: FileView,
)
    ensures
        crate::grouping::same_group(
            spec_duplicate_groups(files, dg),
            attach_digest(dg, x),
            attach_digest(dg, y),
        ) <==> crate::grouping::same_group(
            spec_duplicate_groups(files, dg),
            attach_digest(dg, y),
            attach_digest(dg, x),
        ),
{
}

/// Law: being grouped together carries over chains — three pairwise distinct
/// descriptors of which two pairs are grouped all share one group.
pub proof fn lemma_grouped_transitive(
    files: Seq<FileView>,
    dg: spec_fn(FileView) -> Seq<u8>,
    x: FileView,
    y: FileView,
    z: FileView,
)
    requires
        x != y,
        y != z,
        x != z,
        crate::grouping::same_group(
            spec_duplicate_groups(files, dg),
            attach_digest(dg, x),
            attach_digest(dg, y),
        ),
        crate::grouping::same_group(
            spec_duplicate_groups(files, dg),
            attach_digest(dg, y),
            attach_digest(dg, z),
        ),
    ensures
        crate::grouping::same_group(
            spec_duplicate_groups(files, dg),
            attach_digest(dg, x),
            attach_digest(dg, z),
        ),
{
    lemma_grouped_iff(files, dg, x, y);
    lemma_grouped_iff(files, dg, y, z);
    lemma_grouped_iff(files, dg, x, z);
}

/// Law: the pipeline's second size pass is a no-op — partitioning an already
/// partitioned list by the same key returns it unchanged.
pub proof fn lemma_size_pass_idempotent(s: Seq<FileView>)
    ensures
        split_by(partition_by(s, by_size()), by_size()) == partition_by(s, by_size()),
{
    crate::file_info::lemma_keys_are_equivalences();
    crate::grouping::lemma_split_partition_idempotent(s, by_size());
}

/// Law: the candidate stage equals a single size partition of the surviving
/// entries; keeping the second pass changes nothing.
pub proof fn lemma_candidates_single_pass(files: Seq<FileView>)
    ensures
        spec_candidate_groups(files) == partition_by(surviving(files), by_size()),
{
    lemma_size_pass_idempotent(surviving(files));
}

/// Law: two distinct zero-byte files that survive deduplication always share
/// a duplicate group, whatever their paths — every empty file bears the
/// digest of the empty input.
pub proof fn lemma_empty_files_grouped(
    files: Seq<FileView>,
    dg: spec_fn(FileView) -> Seq<u8>,
    x: FileView,
    y: FileView,
)
    requires
        x != y,
        surviving(files).contains(x),
        surviving(files).contains(y),
        x.size == 0,
        y.size == 0,
        dg(x) == crate::digest::sha256_of(Seq::<u8>::empty()),
        dg(y) == crate::digest::sha256_of(Seq::<u8>::empty()),
    ensures
        crate::grouping::same_group(
            spec_duplicate_groups(files, dg),
            attach_digest(dg, x),
            attach_digest(dg, y),
        ),
{
    lemma_grouped_iff(files, dg, x, y);
}

/// Law: two directory entries for one physical file never share a duplicate
/// group — whichever of them survives, the other does not.
pub proof fn lemma_hardlinks_never_grouped(
    files: Seq<FileView>,
    dg: spec_fn(FileView) -> Seq<u8>,
    x: FileView,
    y: FileView,
)
    requires
        x != y,
        crate::grouping::same_group(
            spec_duplicate_groups(files, dg),
            attach_digest(dg, x),
            attach_digest(dg, y),
        ),
    ensures
        !(x.device == y.device && x.inode == y.inode),
{
    crate::file_info::lemma_keys_are_equivalences();
    lemma_grouped_iff(files, dg, x, y);
    crate::grouping::lemma_dedup_subset(identity_survivors(files), by_path());
    crate::grouping::lemma_dedup_distinct_keys(files, by_identity());
    assert(identity_survivors(files).contains(x));
    assert(identity_survivors(files).contains(y));
    assert(!by_identity()(x, y));
}

/// The entries surviving the identity pass alone.
pub open spec fn identity_survivors(files: Seq<FileView>) -> Seq<FileView> {
    dedup_keep_last(files, by_identity())
}

/// Law: collapsing hardlinks loses no physical file — every walked entry has
/// an entry for the same `(device, inode)` among the identity survivors.
pub proof fn lemma_physical_file_represented(files: Seq<FileView>, x: FileView)
    requires
        files.contains(x),
    ensures
        exists|y: FileView|
            #[trigger] identity_survivors(files).contains(y) && x.device == y.device && x.inode
                == y.inode,
{
    crate::file_info::lemma_keys_are_equivalences();
    crate::grouping::lemma_dedup_key_represented(files, by_identity());
    let y = choose|y: FileView|
        #[trigger] identity_survivors(files).contains(y) && by_identity()(x, y);
    assert(identity_survivors(files).contains(y) && x.device == y.device && x.inode == y.inode);
}

/// The waste of a whole group list.
pub open spec fn spec_total_waste(gs: Seq<Seq<FileView>>) -> int
    decreases gs.len(),
{
    if gs.len() == 0 {
        0
    } else {
        waste_of(gs[0]) + spec_total_waste(gs.drop_first())
    }
}

/// The redundant files of a whole group list: all members but one per group.
/// Note the convention differs from [`waste_of`], which counts every member.
pub open spec fn spec_total_redundant(gs: Seq<Seq<FileView>>) -> int
    decreases gs.len(),
{
    if gs.len() == 0 {
        0
    } else {
        (gs[0].len() - 1) + spec_total_redundant(gs.drop_first())
    }
}

/// Both totals are sums of non-negative terms.
proof fn lemma_totals_nonneg(gs: Seq<Seq<FileView>>)
    requires
        forall|i: int| 0 <= i < gs.len() ==> (#[trigger] gs[i]).len() >= 1,
    ensures
        spec_total_waste(gs) >= 0,
        spec_total_redundant(gs) >= 0,
    decreases gs.len(),
{
    if gs.len() != 0 {
        assert forall|i: int| 0 <= i < gs.drop_first().len() implies (#[trigger] gs.drop_first()[
            i
        ]).len() >= 1 by {
            assert(gs.drop_first()[i] == gs[i + 1]);
        }
        lemma_totals_nonneg(gs.drop_first());
        vstd::arithmetic::mul::lemma_mul_nonnegative(gs[0][0].size as int, gs[0].len() as int);
    }
}

/// The one-line summary of a run's outcome.
pub open spec fn spec_status_text(gs: Seq<Seq<FileView>>) -> Seq<char> {
    crate::format_number::decimal_size_of(spec_total_waste(gs) as u64) + " wasted in "@
        + crate::format_number::dec_digits(spec_total_redundant(gs)) + " files (in "@
        + crate::format_number::dec_digits(gs.len() as int) + " groups)"@
}

/// The human-readable one-line summary of a group list: total wasted bytes in
/// decimal units, the redundant-file count (all but one per group), and the
/// group count.
pub fn duplication_status(dups: &Vec<DuplicatesGroup>) -> (r: String)
    requires
        forall|i: int| 0 <= i < dups@.len() ==> (#[trigger] dups@[i]).waste_fits(),
        spec_total_waste(dgroup_views(dups@)) <= u64::MAX,
        spec_total_redundant(dgroup_views(dups@)) <= u64::MAX,
    ensures
        r@ == spec_status_text(dgroup_views(dups@)),
{
    let ghost gs = dgroup_views(dups@);
    let n = dups.len();
    let mut waste_bytes: u64 = 0;
    let mut waste_count: u64 = 0;
    proof {
        assert(gs.skip(0) =~= gs);
        assert forall|i: int| 0 <= i < gs.len() implies (#[trigger] gs[i]).len() >= 1 by {
            assert(gs[i] == (#[trigger] dups@[i])@);
        }
    }
    for i in 0..n
        invariant
            n == dups.len(),
            gs == dgroup_views(dups@),
            forall|k: int| 0 <= k < dups@.len() ==> (#[trigger] dups@[k]).waste_fits(),
            forall|k: int| 0 <= k < gs.len() ==> (#[trigger] gs[k]).len() >= 1,
            spec_total_waste(gs) <= u64::MAX,
            spec_total_redundant(gs) <= u64::MAX,
            waste_bytes + spec_total_waste(gs.skip(i as int)) == spec_total_waste(gs),
            waste_count + spec_total_redundant(gs.skip(i as int)) == spec_total_redundant(gs),
    {
        let ghost tail = gs.skip(i as int);
        proof {
            assert(tail.drop_first() =~= gs.skip(i + 1));
            assert(tail[0] == gs[i as int]);
            assert forall|k: int| 0 <= k < tail.drop_first().len() implies (
            #[trigger] tail.drop_first()[k]).len() >= 1 by {
                assert(tail.drop_first()[k] == gs[i + 1 + k]);
            }
            lemma_totals_nonneg(tail.drop_first());
            vstd::arithmetic::mul::lemma_mul_nonnegative(
                gs[i as int][0].size as int,
                gs[i as int].len() as int,
            );
            assert(gs[i as int] == dups@[i as int]@);
        }
        let w = dups[i].waste();
        waste_bytes = waste_bytes + w;
        let c = dups[i].files.len() - 1;
        waste_count = waste_count + (c as u64);
    }
    proof {
        assert(gs.skip(n as int) =~= Seq::<Seq<FileView>>::empty());
        assert(gs.len() == dups@.len());
    }
    let mut r = crate::format_number::format_size_decimal(waste_bytes);
    r.append(" wasted in ");
    let count_text = crate::format_number::u64_to_string(waste_count);
    r.append(count_text.as_str());
    r.append(" files (in ");
    let group_text = crate::format_number::u64_to_string(n as u64);
    r.append(group_text.as_str());
    r.append(" groups)");
    r
}

/// The first position whose group wastes less than `w`; insertion there
/// keeps the list ordered.
fn insertion_point(out: &Vec<DuplicatesGroup>, w: u64) -> (pos: usize)
    requires
        forall|i: int| 0 <= i < out@.len() ==> (#[trigger] out@[i]).waste_fits(),
    ensures
        pos <= out@.len(),
        forall|j: int| 0 <= j < pos ==> waste_of((#[trigger] out@[j])@) >= w,
        pos < out@.len() ==> waste_of(out@[pos as int]@) < w,
{
    let n = out.len();
    for pos in 0..n
        invariant
            n == out.len(),
            forall|i: int| 0 <= i < out@.len() ==> (#[trigger] out@[i]).waste_fits(),
            forall|j: int| 0 <= j < pos ==> waste_of((#[trigger] out@[j])@) >= w,
    {
        if out[pos].waste() < w {
            return pos;
        }
    }
    n
}

/// Collapses hardlinks: of all entries naming one physical file, the last
/// survives.
pub fn unique_by_identity(files: Vec<FileInfo>) -> (r: Vec<FileInfo>)
    ensures
        file_views(r@) == dedup_keep_last(file_views(files@), by_identity()),
{
    unique_by(files, UniqueKey::Identity)
}

/// Collapses repeated directory entries: of all entries with one path, the
/// last survives.
pub fn unique_by_path(files: Vec<FileInfo>) -> (r: Vec<FileInfo>)
    ensures
        file_views(r@) == dedup_keep_last(file_views(files@), by_path()),
{
    unique_by(files, UniqueKey::Path)
}

} // verus!
