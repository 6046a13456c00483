//! Indexing of the selected sources: which walked entries a scan considers,
//! in what order, and with what size.
use vstd::prelude::*;
use crate::classify::{classified, classify};
use crate::model::{IndexedFile, SelectionType};
use crate::path::{
    FilePath, PartKey, compare_paths, lemma_parts_lt_asymmetric, lemma_parts_lt_irreflexive,
    lemma_parts_lt_total, lemma_parts_lt_transitive, parts_lt, path_starts_with, same_path,
    starts_with, Precedence,
};
use crate::sort::{Ranked, into_deque, is_ranked, rank_sort};

verus! {

/// An entry met while walking a source: its canonical path (or its own
/// path where it has none) and whether it is a regular file.
#[derive(Debug, Clone)]
pub struct ScannedEntry {
    pub path: FilePath,
    pub is_file: bool,
}

/// A file that the scan will consider, before its size is read.
#[derive(Debug, Clone)]
pub struct EligibleFile {
    pub path: FilePath,
    pub media_kind: String,
}

/// A regular file outside the application's own data directory.
pub open spec fn eligible(e: ScannedEntry, app_data: Seq<PartKey>) -> bool {
    e.is_file && !path_starts_with(e.path@, app_data)
}

/// Entry `i` is eligible and of a selected category.
pub open spec fn admissible(
    entries: Seq<ScannedEntry>,
    i: int,
    app_data: Seq<PartKey>,
    selected: Seq<SelectionType>,
) -> bool {
    eligible(entries[i], app_data) && classified(entries[i].path@, selected) is Some
}

/// Entry `i` is admissible, and no eligible entry before it has the same path.
pub open spec fn first_admissible(
    entries: Seq<ScannedEntry>,
    i: int,
    app_data: Seq<PartKey>,
    selected: Seq<SelectionType>,
) -> bool {
    &&& admissible(entries, i, app_data, selected)
    &&& forall|j: int|
        0 <= j < i && eligible(#[trigger] entries[j], app_data) ==> entries[j].path@ != entries[i].path@
}

struct Pending {
    path: FilePath,
    media_kind: String,
    position: usize,
}

#[verifier::opaque]
spec fn pending_before(a: Pending, b: Pending) -> bool {
    ||| parts_lt(a.path@, b.path@)
    ||| a.path@ == b.path@ && a.position < b.position
}

impl Ranked for Pending {
    closed spec fn ranks_before(&self, other: &Self) -> bool {
        pending_before(*self, *other)
    }

    proof fn lemma_ranks_before_irreflexive(a: &Self) {
        reveal(pending_before);
        lemma_parts_lt_irreflexive(a.path@);
    }

    proof fn lemma_ranks_before_transitive(a: &Self, b: &Self, c: &Self) {
        reveal(pending_before);
        if parts_lt(a.path@, b.path@) && parts_lt(b.path@, c.path@) {
            lemma_parts_lt_transitive(a.path@, b.path@, c.path@);
        }
    }

    proof fn lemma_not_ranks_before_transitive(a: &Self, b: &Self, c: &Self) {
        reveal(pending_before);
        lemma_parts_lt_total(a.path@, b.path@);
        lemma_parts_lt_total(b.path@, c.path@);
        lemma_parts_lt_total(a.path@, c.path@);
        lemma_parts_lt_irreflexive(a.path@);
        if parts_lt(c.path@, a.path@) {
            if parts_lt(a.path@, b.path@) {
                lemma_parts_lt_transitive(c.path@, a.path@, b.path@);
                lemma_parts_lt_asymmetric(c.path@, b.path@);
            }
            if parts_lt(b.path@, c.path@) {
                lemma_parts_lt_transitive(b.path@, c.path@, a.path@);
                lemma_parts_lt_asymmetric(b.path@, a.path@);
            }
        }
    }

    fn precedes(&self, other: &Self) -> (r: bool) {
        reveal(pending_before);
        match compare_paths(&self.path, &other.path) {
            Precedence::Before => true,
            Precedence::Same => self.position < other.position,
            Precedence::After => {
                proof { lemma_parts_lt_asymmetric(other.path@, self.path@); }
                false
            },
        }
    }
}

/// In a ranked sequence, elements with equal paths stand together.
proof fn lemma_runs_contiguous(s: Seq<Pending>, m: int, j: int, k: int)
    requires
        is_ranked(s),
        0 <= m <= j <= k < s.len(),
        s[m].path@ == s[k].path@,
    ensures
        s[j].path@ == s[m].path@,
{
    reveal(pending_before);
    if m < j {
        assert(!s[j].ranks_before(&s[m]));
    }
    if j < k {
        assert(!s[k].ranks_before(&s[j]));
    }
    lemma_parts_lt_total(s[j].path@, s[m].path@);
}

/// `f` is the first occurrence, among the walked entries, of an eligible
/// file of a selected category, with that file's media kind.
pub open spec fn first_occurrence_of(
    entries: Seq<ScannedEntry>,
    app_data: Seq<PartKey>,
    selected: Seq<SelectionType>,
    f: EligibleFile,
) -> bool {
    exists|i: int|
        #![trigger entries[i]]
        0 <= i < entries.len() && first_admissible(entries, i, app_data, selected) && f.path
            == entries[i].path && classified(entries[i].path@, selected) == Some(f.media_kind@)
}

/// A run starts at `m`: nothing before it in a ranked sequence has its
/// path, and everything after it with that path has a later position.
proof fn lemma_run_start_minimal(s: Seq<Pending>, m: int, j: int)
    requires
        is_ranked(s),
        0 <= m < s.len(),
        0 <= j < s.len(),
        m == 0 || s[m - 1].path@ != s[m].path@,
        s[j].path@ == s[m].path@,
    ensures
        s[m].position <= s[j].position,
{
    reveal(pending_before);
    if j < m {
        lemma_runs_contiguous(s, j, m - 1, m);
    } else if j > m {
        assert(!s[j].ranks_before(&s[m]));
    }
}

/// Keeps the first element of each run of equal paths in a ranked sequence.
/// `idx` gives, for each kept element, its index in the input; `cover`
/// gives, for each input element, the kept element with its path.
#[verifier::rlimit(30)]
fn first_of_runs(sorted: Vec<Pending>) -> (r: (Vec<EligibleFile>, Ghost<Seq<int>>, Ghost<Seq<int>>))
    requires
        is_ranked(sorted@),
    ensures
        r.1@.len() == r.0@.len(),
        r.2@.len() == sorted@.len(),
        forall|a: int, b: int|
            #![trigger r.0@[a], r.0@[b]]
            0 <= a < b < r.0@.len() ==> parts_lt(r.0@[a].path@, r.0@[b].path@),
        forall|c: int|
            #![trigger r.0@[c]]
            #![trigger r.1@[c]]
            0 <= c < r.0@.len() ==> {
                &&& 0 <= r.1@[c] < sorted@.len()
                &&& r.0@[c].path == sorted@[r.1@[c]].path
                &&& r.0@[c].media_kind == sorted@[r.1@[c]].media_kind
                &&& (r.1@[c] == 0 || sorted@[r.1@[c] - 1].path@ != sorted@[r.1@[c]].path@)
            },
        forall|m: int|
            #![trigger r.2@[m]]
            0 <= m < sorted@.len() ==> 0 <= r.2@[m] < r.0@.len() && r.0@[r.2@[m]].path@ == sorted@[m].path@,
{
    let ghost s = sorted@;
    let total = sorted.len();
    let mut sd = into_deque(sorted);
    let mut out: Vec<EligibleFile> = Vec::new();
    let ghost mut idx: Seq<int> = Seq::empty();
    let ghost mut cover: Seq<int> = Seq::empty();
    let mut k: usize = 0;
    while sd.len() > 0
        invariant
            s.len() == total,
            sd@ == s.subrange(k as int, s.len() as int),
            k <= s.len(),
            is_ranked(s),
            idx.len() == out@.len(),
            cover.len() == k,
            forall|a: int, b: int|
                #![trigger out@[a], out@[b]]
                0 <= a < b < out@.len() ==> parts_lt(out@[a].path@, out@[b].path@),
            k > 0 ==> out@.len() > 0 && out@[out@.len() - 1].path@ == s[k - 1].path@,
            k == 0 ==> out@.len() == 0,
            forall|c: int|
                #![trigger out@[c]]
                #![trigger idx[c]]
                0 <= c < out@.len() ==> {
                    &&& 0 <= idx[c] < k
                    &&& out@[c].path == s[idx[c]].path
                    &&& out@[c].media_kind == s[idx[c]].media_kind
                    &&& (idx[c] == 0 || s[idx[c] - 1].path@ != s[idx[c]].path@)
                },
            forall|m: int|
                #![trigger cover[m]]
                0 <= m < k ==> 0 <= cover[m] < out@.len() && out@[cover[m]].path@ == s[m].path@,
        decreases s.len() - k,
    {
        let ghost o0 = out@;
        let cur = sd.pop_front().unwrap();
        assert(cur == s[k as int]);
        assert(sd@ =~= s.subrange(k + 1, s.len() as int));
        let n_out = out.len();
        let keep = if n_out == 0 {
            true
        } else {
            !same_path(&out[n_out - 1].path, &cur.path)
        };
        if keep {
            assert(k == 0 || s[k - 1].path@ != s[k as int].path@);
            proof {
                if k > 0 {
                    lemma_adjacent_order(s, k - 1);
                    lemma_parts_lt_transitive_all(o0, cur.path@);
                }
            }
            out.push(EligibleFile { path: cur.path, media_kind: cur.media_kind });
            proof {
                idx = idx.push(k as int);
                cover = cover.push(o0.len() as int);
                assert forall|a: int, b: int|
                    #![trigger out@[a], out@[b]]
                    0 <= a < b < out@.len() implies parts_lt(out@[a].path@, out@[b].path@) by {
                    assert(out@[a] == o0[a]);
                    if b < o0.len() {
                        assert(out@[b] == o0[b]);
                    }
                }
                assert forall|c: int|
                    #![trigger out@[c]]
                    0 <= c < out@.len() implies {
                        &&& 0 <= idx[c] < k + 1
                        &&& out@[c].path == s[idx[c]].path
                        &&& out@[c].media_kind == s[idx[c]].media_kind
                        &&& (idx[c] == 0 || s[idx[c] - 1].path@ != s[idx[c]].path@)
                    } by {
                    if c < o0.len() {
                        assert(out@[c] == o0[c]);
                    }
                }
                assert forall|m: int|
                    #![trigger cover[m]]
                    0 <= m < k + 1 implies 0 <= cover[m] < out@.len() && out@[cover[m]].path@ == s[m].path@ by {
                    if m < k {
                        assert(out@[cover[m]] == o0[cover[m]]);
                    }
                }
            }
        } else {
            proof {
                cover = cover.push(n_out - 1);
            }
        }
        k = k + 1;
    }
    assert(k == s.len());
    (out, Ghost(idx), Ghost(cover))
}

/// Two neighbours in a ranked sequence: equal paths, or the first path before the second.
proof fn lemma_adjacent_order(s: Seq<Pending>, m: int)
    requires
        is_ranked(s),
        0 <= m < s.len() - 1,
    ensures
        s[m].path@ == s[m + 1].path@ || parts_lt(s[m].path@, s[m + 1].path@),
{
    reveal(pending_before);
    assert(!s[m + 1].ranks_before(&s[m]));
    lemma_parts_lt_total(s[m].path@, s[m + 1].path@);
}

/// If the last path of a strictly sorted sequence comes before `p`, all do.
proof fn lemma_parts_lt_transitive_all(o: Seq<EligibleFile>, p: Seq<PartKey>)
    requires
        o.len() > 0,
        parts_lt(o[o.len() - 1].path@, p),
        forall|a: int, b: int| #![trigger o[a], o[b]] 0 <= a < b < o.len() ==> parts_lt(o[a].path@, o[b].path@),
    ensures
        forall|a: int| #![trigger o[a]] 0 <= a < o.len() ==> parts_lt(o[a].path@, p),
{
    assert forall|a: int| #![trigger o[a]] 0 <= a < o.len() implies parts_lt(o[a].path@, p) by {
        if a < o.len() - 1 {
            assert(parts_lt(o[a].path@, o[o.len() - 1].path@));
            lemma_parts_lt_transitive(o[a].path@, o[o.len() - 1].path@, p);
        }
    }
}

/// The files that a scan considers, sorted by path: of each eligible file of
/// a selected category, its first occurrence among the walked entries.
#[verifier::rlimit(60)]
pub fn eligible_files(
    entries: Vec<ScannedEntry>,
    app_data: &FilePath,
    selected: &Vec<SelectionType>,
) -> (r: Vec<EligibleFile>)
    ensures
        forall|a: int, b: int|
            #![trigger r@[a], r@[b]]
            0 <= a < b < r@.len() ==> parts_lt(r@[a].path@, r@[b].path@),
        forall|k: int|
            0 <= k < r@.len() ==> first_occurrence_of(entries@, app_data@, selected@, #[trigger] r@[k]),
        forall|i: int|
            0 <= i < entries@.len() && first_admissible(entries@, i, app_data@, selected@)
                ==> exists|k: int| 0 <= k < r@.len() && (#[trigger] r@[k]).path@ == entries@[i].path@,
{
    let ghost e = entries@;
    let total = entries.len();
    let pending = admissible_entries(entries, app_data, selected);
    let sorted = rank_sort(pending);
    let ghost s = sorted@;
    proof {
        broadcast use vstd::seq_lib::group_to_multiset_ensures;
        assert forall|m: int| 0 <= m < s.len() implies pending@.contains(#[trigger] s[m]) by {
            assert(s.contains(s[m]));
            assert(s.to_multiset().count(s[m]) > 0);
        }
        assert forall|q: int| 0 <= q < pending@.len() implies s.contains(#[trigger] pending@[q]) by {
            assert(pending@.contains(pending@[q]));
            assert(pending@.to_multiset().count(pending@[q]) > 0);
        }
    }
    let (out, Ghost(idx), Ghost(cover)) = first_of_runs(sorted);
    proof {
        assert forall|k2: int|
            0 <= k2 < out@.len() implies first_occurrence_of(e, app_data@, selected@, #[trigger] out@[k2]) by {
            let m = idx[k2];
            assert(pending@.contains(s[m]));
            let qm = choose|q: int| 0 <= q < pending@.len() && pending@[q] == s[m];
            let i = s[m].position as int;
            assert(pending@[qm].position == i);
            assert forall|j: int|
                0 <= j < i && eligible(#[trigger] e[j], app_data@) implies e[j].path@ != e[i].path@ by {
                if e[j].path@ == e[i].path@ {
                    assert(admissible(e, j, app_data@, selected@));
                    let q = choose|q: int| 0 <= q < pending@.len() && (#[trigger] pending@[q]).position == j;
                    assert(s.contains(pending@[q]));
                    let mj = choose|mj: int| 0 <= mj < s.len() && s[mj] == pending@[q];
                    lemma_run_start_minimal(s, m, mj);
                }
            }
            assert(pending@[qm] == s[m]);
            assert(first_admissible(e, i, app_data@, selected@));
            assert(out@[k2].path == e[i].path);
            assert(classified(e[i].path@, selected@) == Some(out@[k2].media_kind@));
            assert(0 <= i < e.len());
            assert(e[i] == e[i]);
        }
        assert forall|i: int|
            0 <= i < e.len() && first_admissible(e, i, app_data@, selected@) implies exists|k2: int|
                0 <= k2 < out@.len() && (#[trigger] out@[k2]).path@ == e[i].path@ by {
            let q = choose|q: int| 0 <= q < pending@.len() && (#[trigger] pending@[q]).position == i;
            assert(s.contains(pending@[q]));
            let m = choose|m: int| 0 <= m < s.len() && s[m] == pending@[q];
            assert(out@[cover[m]].path@ == e[i].path@);
        }
    }
    out
}

/// The eligible entries of a selected category, each with its position.
fn admissible_entries(
    entries: Vec<ScannedEntry>,
    app_data: &FilePath,
    selected: &Vec<SelectionType>,
) -> (pending: Vec<Pending>)
    ensures
        forall|q: int|
            #![trigger pending@[q]]
            0 <= q < pending@.len() ==> {
                let p = pending@[q];
                &&& p.position < entries@.len()
                &&& p.path == entries@[p.position as int].path
                &&& admissible(entries@, p.position as int, app_data@, selected@)
                &&& classified(entries@[p.position as int].path@, selected@) == Some(p.media_kind@)
            },
        forall|i: int|
            0 <= i < entries@.len() && admissible(entries@, i, app_data@, selected@) ==> exists|q: int|
                0 <= q < pending@.len() && (#[trigger] pending@[q]).position == i,
{
    let ghost e = entries@;
    let total = entries.len();
    let mut d = into_deque(entries);
    let mut pending: Vec<Pending> = Vec::new();
    let mut pos: usize = 0;
    while d.len() > 0
        invariant
            d@ == e.subrange(pos as int, e.len() as int),
            pos <= e.len(),
            e.len() == total,
            forall|q: int|
                #![trigger pending@[q]]
                0 <= q < pending@.len() ==> {
                    let p = pending@[q];
                    &&& p.position < pos
                    &&& p.path == e[p.position as int].path
                    &&& admissible(e, p.position as int, app_data@, selected@)
                    &&& classified(e[p.position as int].path@, selected@) == Some(p.media_kind@)
                },
            forall|i: int|
                0 <= i < pos && admissible(e, i, app_data@, selected@) ==> exists|q: int|
                    0 <= q < pending@.len() && (#[trigger] pending@[q]).position == i,
        decreases e.len() - pos,
    {
        let ghost p0 = pending@;
        let entry = d.pop_front().unwrap();
        assert(entry == e[pos as int]);
        assert(d@ =~= e.subrange(pos + 1, e.len() as int));
        if entry.is_file && !starts_with(&entry.path, app_data) {
            match classify(&entry.path, selected) {
                Some(kind) => {
                    pending.push(Pending { path: entry.path, media_kind: kind, position: pos });
                    proof {
                        assert forall|i: int|
                            0 <= i < pos + 1 && admissible(e, i, app_data@, selected@) implies exists|q: int|
                            0 <= q < pending@.len() && (#[trigger] pending@[q]).position == i by {
                            if i < pos {
                                let q = choose|q: int| 0 <= q < p0.len() && (#[trigger] p0[q]).position == i;
                                assert(pending@[q] == p0[q]);
                            } else {
                                assert(pending@[p0.len() as int].position == i);
                            }
                        }
                        assert forall|q: int| #![trigger pending@[q]] 0 <= q < pending@.len() implies {
                            let p = pending@[q];
                            &&& p.position < pos + 1
                            &&& p.path == e[p.position as int].path
                            &&& admissible(e, p.position as int, app_data@, selected@)
                            &&& classified(e[p.position as int].path@, selected@) == Some(p.media_kind@)
                        } by {
                            if q < p0.len() {
                                assert(pending@[q] == p0[q]);
                            }
                        }
                    }
                },
                None => {},
            }
        }
        pos = pos + 1;
    }
    pending
}

/// Each eligible file whose size could be read, with that size, in order.
pub open spec fn with_sizes(files: Seq<EligibleFile>, sizes: Seq<Option<u64>>) -> Seq<IndexedFile>
    decreases files.len(),
{
    if files.len() == 0 {
        Seq::empty()
    } else {
        let rest = with_sizes(files.drop_last(), sizes.drop_last());
        match sizes.last() {
            Some(bytes) => rest.push(
                IndexedFile { path: files.last().path, media_kind: files.last().media_kind, bytes },
            ),
            None => rest,
        }
    }
}

/// Every file whose size was read is indexed with exactly that size, its
/// path and its category; and every indexed file is such a file.
pub proof fn lemma_sizes_kept(files: Seq<EligibleFile>, sizes: Seq<Option<u64>>)
    requires
        sizes.len() == files.len(),
    ensures
        forall|i: int|
            0 <= i < files.len() && #[trigger] sizes[i] is Some ==> exists|k: int|
                0 <= k < with_sizes(files, sizes).len() && #[trigger] with_sizes(files, sizes)[k] == (
                IndexedFile { path: files[i].path, media_kind: files[i].media_kind, bytes: sizes[i]->0 }),
        forall|f: IndexedFile|
            #[trigger] with_sizes(files, sizes).contains(f) ==> exists|i: int|
                0 <= i < files.len() && #[trigger] sizes[i] == Some(f.bytes) && f.path == files[i].path
                    && f.media_kind == files[i].media_kind,
    decreases files.len(),
{
    if files.len() > 0 {
        let fs = files.drop_last();
        let ss = sizes.drop_last();
        let rest = with_sizes(fs, ss);
        let last = files.len() - 1;
        lemma_sizes_kept(fs, ss);
        assert(forall|k: int| 0 <= k < rest.len() ==> with_sizes(files, sizes)[k] == rest[k]);
        assert forall|i: int|
            0 <= i < files.len() && #[trigger] sizes[i] is Some implies exists|k: int|
                0 <= k < with_sizes(files, sizes).len() && #[trigger] with_sizes(files, sizes)[k] == (
                IndexedFile { path: files[i].path, media_kind: files[i].media_kind, bytes: sizes[i]->0 }) by {
            let n = sizes[i]->0;
            if i < last {
                assert(ss[i] == sizes[i]);
                assert(fs[i] == files[i]);
                let k = choose|k: int|
                    0 <= k < rest.len() && #[trigger] rest[k] == (
                    IndexedFile { path: fs[i].path, media_kind: fs[i].media_kind, bytes: n });
                assert(with_sizes(files, sizes)[k] == rest[k]);
            } else {
                assert(with_sizes(files, sizes)[rest.len() as int] == (
                IndexedFile { path: files[i].path, media_kind: files[i].media_kind, bytes: n }));
            }
        }
        assert forall|f: IndexedFile| #[trigger] with_sizes(files, sizes).contains(f) implies exists|i: int|
            0 <= i < files.len() && #[trigger] sizes[i] == Some(f.bytes) && f.path == files[i].path
                && f.media_kind == files[i].media_kind by {
            let k = choose|k: int| 0 <= k < with_sizes(files, sizes).len() && with_sizes(files, sizes)[k] == f;
            if k < rest.len() {
                assert(rest.contains(f));
                let i = choose|i: int|
                    0 <= i < fs.len() && #[trigger] ss[i] == Some(f.bytes) && f.path == fs[i].path
                        && f.media_kind == fs[i].media_kind;
                assert(ss[i] == sizes[i]);
                assert(fs[i] == files[i]);
            } else {
                assert(sizes[last] == Some(f.bytes));
            }
        }
    } else {
        assert(with_sizes(files, sizes).len() == 0);
    }
}

/// The indexed files: each eligible file whose size could be read, with that size.
pub fn source_files(files: Vec<EligibleFile>, sizes: Vec<Option<u64>>) -> (r: Vec<IndexedFile>)
    requires
        sizes@.len() == files@.len(),
    ensures
        r@ == with_sizes(files@, sizes@),
{
    let ghost f = files@;
    let total = sizes.len();
    let mut fd = into_deque(files);
    let mut out: Vec<IndexedFile> = Vec::new();
    let mut i: usize = 0;
    assert(f.take(0) =~= Seq::<EligibleFile>::empty());
    while fd.len() > 0
        invariant
            fd@ == f.subrange(i as int, f.len() as int),
            i <= f.len(),
            sizes@.len() == f.len(),
            f.len() == total,
            out@ == with_sizes(f.take(i as int), sizes@.take(i as int)),
        decreases f.len() - i,
    {
        let file = fd.pop_front().unwrap();
        assert(file == f[i as int]);
        assert(fd@ =~= f.subrange(i + 1, f.len() as int));
        assert(f.take(i + 1).drop_last() =~= f.take(i as int));
        assert(sizes@.take(i + 1).drop_last() =~= sizes@.take(i as int));
        match sizes[i] {
            Some(bytes) => {
                out.push(IndexedFile { path: file.path, media_kind: file.media_kind, bytes });
            },
            None => {},
        }
        i = i + 1;
    }
    assert(f.take(f.len() as int) =~= f);
    assert(sizes@.take(f.len() as int) =~= sizes@);
    out
}

} // verus!
