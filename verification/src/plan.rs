//! The resolution plan: the evidence of each copy, the audit records, and
//! the ranking of each exact group into a plan entry.
use vstd::prelude::*;
use crate::group::{KeyedFile, same_key};
use crate::model::{
    Candidate, Disposition, DuplicateGroup, IndexedFile, QualityEvidence, QUEUED_FOR_QUARANTINE, RETAIN,
};
use crate::path::{
    FilePath, compare_paths, display_name, lemma_parts_lt_asymmetric, lemma_parts_lt_irreflexive,
    lemma_parts_lt_total, lemma_parts_lt_transitive, parts_lt, shows_name, Precedence,
};
use crate::runtime::{new_id, uuid_text, Stamp};
use crate::sort::{Ranked, into_deque, rank_sort};
use crate::text::{decimal, owned, push_decimal};

verus! {

pub const EXACT_BYTES_SUFFIX: &'static str = " exact-content bytes";
pub const TIE_REASON: &'static str = "Full SHA-256 proof is the action gate; equal content ties are resolved deterministically by path.";

/// The evidence recorded for a copy of `bytes` bytes: its size, and the two
/// reasons (its exact-content size, and the tie rule).
pub open spec fn is_evidence(q: QualityEvidence, bytes: u64) -> bool {
    &&& q.width is None
    &&& q.height is None
    &&& q.pixel_count == 0
    &&& q.bitrate is None
    &&& q.bit_depth is None
    &&& q.duration_millis is None
    &&& q.file_size_bytes == bytes
    &&& q.reasons@.len() == 2
    &&& q.reasons@[0]@ == decimal(bytes as nat) + EXACT_BYTES_SUFFIX@
    &&& q.reasons@[1]@ == TIE_REASON@
}

/// The evidence on which a copy is ranked.
pub fn evidence(file: &IndexedFile) -> (q: QualityEvidence)
    ensures
        is_evidence(q, file.bytes),
{
    let mut first = String::new();
    push_decimal(&mut first, file.bytes);
    first.append(EXACT_BYTES_SUFFIX);
    let mut reasons: Vec<String> = Vec::new();
    reasons.push(first);
    reasons.push(owned(TIE_REASON));
    QualityEvidence {
        width: None,
        height: None,
        pixel_count: 0,
        bitrate: None,
        bit_depth: None,
        duration_millis: None,
        file_size_bytes: file.bytes,
        reasons,
    }
}

/// `d` records `kind` for the file at `path`, with `detail`.
pub open spec fn records(d: Disposition, path: FilePath, kind: Seq<char>, detail: Seq<char>) -> bool {
    &&& d.file_path@ == path.text@
    &&& shows_name(path, d.display_name@)
    &&& d.disposition@ == kind
    &&& d.detail@ == detail
}

/// Appends an audit record, dated `occurred_at`.
pub fn append_disposition(
    dispositions: &mut Vec<Disposition>,
    path: &FilePath,
    disposition: &str,
    detail: String,
    occurred_at: String,
)
    ensures
        final(dispositions)@.len() == old(dispositions)@.len() + 1,
        final(dispositions)@.drop_last() == old(dispositions)@,
        records(final(dispositions)@.last(), *path, disposition@, detail@),
        final(dispositions)@.last().occurred_at == occurred_at,
{
    let d = Disposition {
        occurred_at,
        file_path: path.text.clone(),
        display_name: display_name(path),
        disposition: owned(disposition),
        detail,
    };
    dispositions.push(d);
    assert(dispositions@.drop_last() =~= old(dispositions)@);
}

/// A copy ranks before another: larger first, then by path, then by the
/// order in which the copies were verified.
#[verifier::opaque]
pub open spec fn contends_before(a: KeyedFile, b: KeyedFile) -> bool {
    ||| a.file.bytes > b.file.bytes
    ||| a.file.bytes == b.file.bytes && parts_lt(a.file.path@, b.file.path@)
    ||| a.file.bytes == b.file.bytes && a.file.path@ == b.file.path@ && a.position < b.position
}

struct Contender {
    keyed: KeyedFile,
}

impl Ranked for Contender {
    closed spec fn ranks_before(&self, other: &Self) -> bool {
        contends_before(self.keyed, other.keyed)
    }

    proof fn lemma_ranks_before_irreflexive(a: &Self) {
        reveal(contends_before);
        lemma_parts_lt_irreflexive(a.keyed.file.path@);
    }

    proof fn lemma_ranks_before_transitive(a: &Self, b: &Self, c: &Self) {
        reveal(contends_before);
        let (pa, pb, pc) = (a.keyed.file.path@, b.keyed.file.path@, c.keyed.file.path@);
        lemma_parts_lt_irreflexive(pa);
        lemma_parts_lt_irreflexive(pb);
        if parts_lt(pa, pb) && parts_lt(pb, pc) {
            lemma_parts_lt_transitive(pa, pb, pc);
        }
    }

    proof fn lemma_not_ranks_before_transitive(a: &Self, b: &Self, c: &Self) {
        reveal(contends_before);
        let (pa, pb, pc) = (a.keyed.file.path@, b.keyed.file.path@, c.keyed.file.path@);
        lemma_parts_lt_total(pa, pb);
        lemma_parts_lt_total(pb, pc);
        lemma_parts_lt_total(pa, pc);
        lemma_parts_lt_irreflexive(pa);
        if parts_lt(pc, pa) {
            if parts_lt(pa, pb) {
                lemma_parts_lt_transitive(pc, pa, pb);
                lemma_parts_lt_asymmetric(pc, pb);
            }
            if parts_lt(pb, pc) {
                lemma_parts_lt_transitive(pb, pc, pa);
                lemma_parts_lt_asymmetric(pb, pa);
            }
        }
    }

    fn precedes(&self, other: &Self) -> (r: bool) {
        reveal(contends_before);
        let (a, b) = (&self.keyed, &other.keyed);
        if a.file.bytes > b.file.bytes {
            return true;
        }
        if a.file.bytes < b.file.bytes {
            return false;
        }
        match compare_paths(&a.file.path, &b.file.path) {
            Precedence::Before => true,
            Precedence::Same => a.position < b.position,
            Precedence::After => {
                proof { lemma_parts_lt_asymmetric(b.file.path@, a.file.path@); }
                false
            },
        }
    }
}

/// Sorts copies from the one to retain down, and gives them back.
fn rank_copies(files: Vec<KeyedFile>) -> (ranked: Vec<KeyedFile>)
    ensures
        ranked@.len() == files@.len(),
        forall|i: int| 0 <= i < ranked@.len() ==> files@.contains(#[trigger] ranked@[i]),
        forall|j: int| 0 <= j < files@.len() ==> ranked@.contains(#[trigger] files@[j]),
        forall|i: int, j: int|
            #![trigger ranked@[i], ranked@[j]]
            0 <= i < j < ranked@.len() ==> !contends_before(ranked@[j], ranked@[i]),
{
    let ghost f = files@;
    let mut wrapped: Vec<Contender> = Vec::new();
    let mut d = into_deque(files);
    let ghost mut taken: int = 0;
    while d.len() > 0
        invariant
            0 <= taken <= f.len(),
            d@ == f.subrange(taken, f.len() as int),
            wrapped@.len() == taken,
            forall|i: int| #![trigger wrapped@[i]] 0 <= i < taken ==> wrapped@[i].keyed == f[i],
        decreases f.len() - taken,
    {
        let k = d.pop_front().unwrap();
        assert(k == f[taken]);
        wrapped.push(Contender { keyed: k });
        proof { taken = taken + 1; }
        assert(d@ =~= f.subrange(taken, f.len() as int));
    }
    let ghost w = wrapped@;
    let sorted = rank_sort(wrapped);
    let ghost s = sorted@;
    let mut out: Vec<KeyedFile> = Vec::new();
    let mut sd = into_deque(sorted);
    let ghost mut k: int = 0;
    while sd.len() > 0
        invariant
            0 <= k <= s.len(),
            sd@ == s.subrange(k, s.len() as int),
            out@ == s.take(k).map_values(|c: Contender| c.keyed),
        decreases s.len() - k,
    {
        let c = sd.pop_front().unwrap();
        assert(c == s[k]);
        out.push(c.keyed);
        proof { k = k + 1; }
        assert(sd@ =~= s.subrange(k, s.len() as int));
        assert(out@ =~= s.take(k).map_values(|c: Contender| c.keyed));
    }
    assert(s.take(s.len() as int) =~= s);
    proof {
        broadcast use vstd::seq_lib::group_to_multiset_ensures;
        assert forall|i: int| 0 <= i < out@.len() implies f.contains(#[trigger] out@[i]) by {
            assert(s.contains(s[i]));
            assert(s.to_multiset().count(s[i]) > 0);
            assert(w.contains(s[i]));
            let j = choose|j: int| 0 <= j < w.len() && w[j] == s[i];
            assert(f[j] == out@[i]);
        }
        assert forall|j: int| 0 <= j < f.len() implies out@.contains(#[trigger] f[j]) by {
            assert(w.contains(w[j]));
            assert(w.to_multiset().count(w[j]) > 0);
            assert(s.contains(w[j]));
            let i = choose|i: int| 0 <= i < s.len() && s[i] == w[j];
            assert(out@[i] == f[j]);
        }
        assert forall|i: int, j: int|
            #![trigger out@[i], out@[j]]
            0 <= i < j < out@.len() implies !contends_before(out@[j], out@[i]) by {
            assert(!s[j].ranks_before(&s[i]));
        }
    }
    out
}

pub const RETAIN_DETAIL: &'static str = "Exact-content tie resolved deterministically; this copy remains in place.";
pub const QUEUED_DETAIL: &'static str = "Lower-ranked exact duplicate. It will move only after your approval.";

/// `c` describes the verified copy `k`: its path, name, kind, digest, size
/// and evidence, not yet quarantined.
pub open spec fn describes(c: Candidate, k: KeyedFile) -> bool {
    &&& c.file_path@ == k.file.path.text@
    &&& shows_name(k.file.path, c.display_name@)
    &&& c.media_kind == k.file.media_kind
    &&& c.exact_hash@ == k.digest@
    &&& c.quality_score == k.file.bytes
    &&& is_evidence(c.quality, k.file.bytes)
    &&& c.quarantine_path is None
}

/// The copy ranked first is retained; every other copy is queued for quarantine.
pub open spec fn disposed(c: Candidate, first: bool) -> bool {
    if first {
        c.disposition@ == RETAIN@ && c.disposition_detail@ == RETAIN_DETAIL@
    } else {
        c.disposition@ == QUEUED_FOR_QUARANTINE@ && c.disposition_detail@ == QUEUED_DETAIL@
    }
}

/// The bytes of the copies after the first.
pub open spec fn queued_bytes(cs: Seq<Candidate>) -> nat
    decreases cs.len(),
{
    if cs.len() <= 1 {
        0
    } else {
        queued_bytes(cs.drop_last()) + cs.last().quality.file_size_bytes as nat
    }
}

/// The number of copies after the first.
pub open spec fn queued_count(cs: Seq<Candidate>) -> nat {
    if cs.len() == 0 {
        0
    } else {
        (cs.len() - 1) as nat
    }
}

/// A count held at the largest `u64`.
pub open spec fn clamp(n: nat) -> u64 {
    if n > u64::MAX {
        u64::MAX
    } else {
        n as u64
    }
}

/// `g` is the group built from the ranked copies `ranked`: one candidate per
/// copy in rank order, the first one retained and its id the winner's, every
/// other one queued, and the queued bytes as reclaimable.
pub open spec fn ranked_group(g: DuplicateGroup, ranked: Seq<KeyedFile>) -> bool {
    &&& g.candidates@.len() == ranked.len()
    &&& ranked.len() >= 1
    &&& g.exact_hash@ == ranked[0].digest@
    &&& g.winner_id == g.candidates@[0].id
    &&& forall|i: int|
        #![trigger g.candidates@[i]]
        0 <= i < ranked.len() ==> describes(g.candidates@[i], ranked[i]) && disposed(g.candidates@[i], i == 0)
    &&& g.reclaimable_bytes == clamp(queued_bytes(g.candidates@))
}

/// The audit records of a group: one per candidate, in rank order.
pub open spec fn group_records(ds: Seq<Disposition>, g: DuplicateGroup, ranked: Seq<KeyedFile>) -> bool {
    &&& ds.len() == ranked.len()
    &&& forall|i: int|
        #![trigger ds[i]]
        0 <= i < ds.len() ==> records(
            ds[i],
            ranked[i].file.path,
            g.candidates@[i].disposition@,
            g.candidates@[i].disposition_detail@,
        )
}

proof fn lemma_queued_push(cs: Seq<Candidate>, c: Candidate)
    ensures
        queued_bytes(cs.push(c)) == queued_bytes(cs) + if cs.len() >= 1 {
            c.quality.file_size_bytes as nat
        } else {
            0
        },
{
    assert(cs.push(c).drop_last() =~= cs);
}

/// Ranks an exact group and builds its plan entry: copies from the one to
/// retain down, the first one retained and its id the winner's, the others
/// queued for quarantine; one audit record per copy is appended. Copy `i`
/// is identified and its record dated by `stamps[i]`, the group identified
/// by the last stamp. Also gives the ranked copies and the number of queued
/// copies.
#[verifier::rlimit(60)]
pub fn rank_group(files: Vec<KeyedFile>, dispositions: &mut Vec<Disposition>, stamps: &Vec<Stamp>) -> (r: (
    DuplicateGroup,
    Ghost<Seq<KeyedFile>>,
    u64,
))
    requires
        files@.len() >= 1,
        stamps@.len() == files@.len() + 1,
        forall|j: int| #![trigger files@[j]] 0 <= j < files@.len() ==> same_key(files@[j], files@[0]),
    ensures
        ranked_group(r.0, r.1@),
        r.1@.len() == files@.len(),
        forall|i: int| 0 <= i < r.1@.len() ==> files@.contains(#[trigger] r.1@[i]),
        forall|j: int| 0 <= j < files@.len() ==> r.1@.contains(#[trigger] files@[j]),
        forall|i: int, j: int|
            #![trigger r.1@[i], r.1@[j]]
            0 <= i < j < r.1@.len() ==> !contends_before(r.1@[j], r.1@[i]),
        forall|i: int| #![trigger r.0.candidates@[i]] 0 <= i < r.0.candidates@.len() ==> r.0.candidates@[i].exact_hash@ == r.0.exact_hash@,
        r.2 as nat == queued_count(r.0.candidates@),
        r.0.id@ == uuid_text(stamps@[files@.len() as int].random),
        forall|i: int|
            #![trigger r.0.candidates@[i]]
            0 <= i < r.0.candidates@.len() ==> r.0.candidates@[i].id@ == uuid_text(stamps@[i].random),
        forall|i: int|
            0 <= i < files@.len() ==> (#[trigger] final(dispositions)@[old(dispositions)@.len() + i]).occurred_at
                == stamps@[i].time,
        final(dispositions)@.len() == old(dispositions)@.len() + files@.len(),
        final(dispositions)@.take(old(dispositions)@.len() as int) == old(dispositions)@,
        group_records(final(dispositions)@.skip(old(dispositions)@.len() as int), r.0, r.1@),
{
    let ghost f = files@;
    let n = files.len();
    let ranked = rank_copies(files);
    let ghost rk = ranked@;
    proof {
        assert(f.contains(rk[0]));
        assert forall|i: int| 0 <= i < rk.len() implies (#[trigger] rk[i]).digest@ == rk[0].digest@ by {
            assert(f.contains(rk[i]));
        }
    }
    let ghost start = dispositions@;
    let mut candidates: Vec<Candidate> = Vec::new();
    let mut reclaimable: u64 = 0;
    let mut queued: u64 = 0;
    let mut d = into_deque(ranked);
    let mut i: usize = 0;
    while d.len() > 0
        invariant
            rk.len() == n,
            i <= n,
            d@ == rk.subrange(i as int, n as int),
            candidates@.len() == i,
            forall|m: int| 0 <= m < rk.len() ==> (#[trigger] rk[m]).digest@ == rk[0].digest@,
            stamps@.len() == n + 1,
            forall|m: int|
                #![trigger candidates@[m]]
                0 <= m < i ==> describes(candidates@[m], rk[m]) && disposed(candidates@[m], m == 0)
                    && candidates@[m].id@ == uuid_text(stamps@[m].random),
            reclaimable == clamp(queued_bytes(candidates@)),
            queued as nat == queued_count(candidates@),
            queued <= i,
            forall|m: int|
                0 <= m < i ==> (#[trigger] dispositions@[start.len() + m]).occurred_at == stamps@[m].time,
            dispositions@.len() == start.len() + i,
            dispositions@.take(start.len() as int) == start,
            forall|m: int|
                #![trigger dispositions@[start.len() + m]]
                0 <= m < i ==> records(
                    dispositions@[start.len() + m],
                    rk[m].file.path,
                    candidates@[m].disposition@,
                    candidates@[m].disposition_detail@,
                ),
        decreases n - i,
    {
        let ghost c0 = candidates@;
        let ghost d0 = dispositions@;
        let k = d.pop_front().unwrap();
        assert(k == rk[i as int]);
        assert(d@ =~= rk.subrange(i + 1, n as int));
        let id = new_id(stamps[i].random);
        let is_winner = i == 0;
        let quality = evidence(&k.file);
        let shown = display_name(&k.file.path);
        let (disposition, detail) = if is_winner {
            (RETAIN, RETAIN_DETAIL)
        } else {
            (QUEUED_FOR_QUARANTINE, QUEUED_DETAIL)
        };
        if !is_winner {
            reclaimable = reclaimable.saturating_add(quality.file_size_bytes);
            queued = queued + 1;
        }
        append_disposition(dispositions, &k.file.path, disposition, owned(detail), stamps[i].time.clone());
        let c = Candidate {
            id,
            file_path: k.file.path.text,
            display_name: shown,
            media_kind: k.file.media_kind,
            exact_hash: k.digest,
            quality_score: quality.file_size_bytes,
            quality,
            disposition: owned(disposition),
            disposition_detail: owned(detail),
            quarantine_path: None,
        };
        candidates.push(c);
        proof {
            lemma_queued_push(c0, c);
            assert(candidates@ =~= c0.push(c));
            assert forall|m: int|
                #![trigger candidates@[m]]
                0 <= m < i + 1 implies describes(candidates@[m], rk[m]) && disposed(candidates@[m], m == 0)
                    && candidates@[m].id@ == uuid_text(stamps@[m].random) by {
                if m < i {
                    assert(candidates@[m] == c0[m]);
                }
            }
            assert forall|m: int| 0 <= m < i + 1 implies (#[trigger] dispositions@[start.len() + m]).occurred_at
                == stamps@[m].time by {
                if m < i {
                    assert(dispositions@[start.len() + m] == d0[start.len() + m]);
                }
            }
            assert(dispositions@.take(start.len() as int) =~= start) by {
                assert(d0.take(start.len() as int) == start);
                assert(dispositions@.drop_last() == d0);
            }
            assert forall|m: int|
                #![trigger dispositions@[start.len() + m]]
                0 <= m < i + 1 implies records(
                    dispositions@[start.len() + m],
                    rk[m].file.path,
                    candidates@[m].disposition@,
                    candidates@[m].disposition_detail@,
                ) by {
                if m < i {
                    assert(dispositions@[start.len() + m] == d0[start.len() + m]);
                    assert(candidates@[m] == c0[m]);
                }
            }
        }
        i = i + 1;
    }
    let winner_id = candidates[0].id.clone();
    let group = DuplicateGroup {
        id: new_id(stamps[n].random),
        exact_hash: candidates[0].exact_hash.clone(),
        winner_id,
        reclaimable_bytes: reclaimable,
        candidates,
    };
    proof {
        assert(dispositions@.skip(start.len() as int).len() == n);
        assert forall|m: int|
            #![trigger dispositions@.skip(start.len() as int)[m]]
            0 <= m < n implies records(
                dispositions@.skip(start.len() as int)[m],
                rk[m].file.path,
                group.candidates@[m].disposition@,
                group.candidates@[m].disposition_detail@,
            ) by {
            assert(dispositions@.skip(start.len() as int)[m] == dispositions@[start.len() + m]);
        }
    }
    (group, Ghost(rk), queued)
}

/// In a ranked group exactly one copy is retained: the first, ranked
/// highest, whose id is the winner's; every other copy is queued for
/// quarantine.
pub proof fn lemma_one_retained(g: DuplicateGroup, ranked: Seq<KeyedFile>)
    requires
        ranked_group(g, ranked),
    ensures
        g.candidates@[0].disposition@ == RETAIN@,
        g.candidates@[0].id == g.winner_id,
        forall|i: int|
            #![trigger g.candidates@[i]]
            1 <= i < g.candidates@.len() ==> g.candidates@[i].disposition@ == QUEUED_FOR_QUARANTINE@,
{
    assert(disposed(g.candidates@[0], true));
    assert forall|i: int| #![trigger g.candidates@[i]] 1 <= i < g.candidates@.len() implies g.candidates@[i].disposition@
        == QUEUED_FOR_QUARANTINE@ by {
        assert(disposed(g.candidates@[i], i == 0));
    }
}

/// The copy ranked first is at least as large as every other copy, and
/// among copies of its size no path comes before its own.
pub proof fn lemma_retained_outranks(ranked: Seq<KeyedFile>)
    requires
        ranked.len() >= 1,
        forall|i: int, j: int|
            #![trigger ranked[i], ranked[j]]
            0 <= i < j < ranked.len() ==> !contends_before(ranked[j], ranked[i]),
    ensures
        forall|j: int|
            #![trigger ranked[j]]
            0 <= j < ranked.len() ==> ranked[0].file.bytes >= ranked[j].file.bytes && (ranked[0].file.bytes
                == ranked[j].file.bytes ==> !parts_lt(ranked[j].file.path@, ranked[0].file.path@)),
{
    reveal(contends_before);
    assert forall|j: int| #![trigger ranked[j]] 0 <= j < ranked.len() implies ranked[0].file.bytes >= ranked[j].file.bytes
        && (ranked[0].file.bytes == ranked[j].file.bytes ==> !parts_lt(ranked[j].file.path@, ranked[0].file.path@)) by {
        if j > 0 {
            assert(!contends_before(ranked[j], ranked[0]));
        } else {
            lemma_parts_lt_irreflexive(ranked[0].file.path@);
        }
    }
}

} // verus!
