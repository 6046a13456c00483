//! The three phases of a scan as steps that the application drives between
//! its reads: sampling every indexed file, verifying the full digest of
//! every sampled collision, and ranking every exact group into the plan.
use vstd::prelude::*;
use std::collections::VecDeque;
use crate::apply::{lemma_plan_queued_is_queued, queued_total};
use crate::group::{
    KeyedFile, group_by_key, groups_items_by_key, in_groups, key_lt, lemma_key_lt_differs, numbered, same_key,
    total_len,
};
use crate::model::{
    Disposition, DuplicateGroup, IndexedFile, ResolutionPlan, SelectionType, SKIPPED, STATUS_READY,
};
use crate::path::{FilePath, parts_lt};
use crate::plan::{
    append_disposition, contends_before, group_records, lemma_retained_outranks, queued_count,
    rank_group, ranked_group, records,
};
use crate::runtime::{
    Runtime, Stamp, cancel_plan, cancelled_with, new_id, scanning_progress, update_progress, uuid_text,
};
use crate::sort::into_deque;
use crate::digest::{sample_hash, sample_input, sha256, FullHash};
use crate::text::{decimal, hex_lower, owned, push_decimal};

verus! {

/// The keyed copies of the files whose digest was computed, numbered in
/// order; keyed by size and digest, or by digest alone.
pub open spec fn keyed_outcomes(
    files: Seq<IndexedFile>,
    outcomes: Seq<Result<String, String>>,
    by_size: bool,
) -> Seq<KeyedFile>
    decreases outcomes.len(),
{
    if outcomes.len() == 0 || files.len() == 0 {
        Seq::empty()
    } else {
        let prev = keyed_outcomes(files.drop_last(), outcomes.drop_last(), by_size);
        match outcomes.last() {
            Ok(digest) => prev.push(
                KeyedFile {
                    size: if by_size { files.last().bytes } else { 0 },
                    digest,
                    position: prev.len() as usize,
                    file: files.last(),
                },
            ),
            Err(_) => prev,
        }
    }
}

/// The files whose digest could not be computed, with the error.
pub open spec fn failures(files: Seq<IndexedFile>, outcomes: Seq<Result<String, String>>) -> Seq<(FilePath, String)>
    decreases outcomes.len(),
{
    if outcomes.len() == 0 || files.len() == 0 {
        Seq::empty()
    } else {
        let prev = failures(files.drop_last(), outcomes.drop_last());
        match outcomes.last() {
            Ok(_) => prev,
            Err(e) => prev.push((files.last().path, e)),
        }
    }
}

/// `ds` records each failure as a skipped file, in order.
pub open spec fn records_failures(ds: Seq<Disposition>, fails: Seq<(FilePath, String)>) -> bool {
    &&& ds.len() == fails.len()
    &&& forall|i: int| #![trigger ds[i]] 0 <= i < ds.len() ==> records(ds[i], fails[i].0, SKIPPED@, fails[i].1@)
}

/// The groups that hold more than one file, in order.
pub open spec fn shared_groups(groups: Seq<Vec<KeyedFile>>) -> Seq<Vec<KeyedFile>>
    decreases groups.len(),
{
    if groups.len() == 0 {
        Seq::empty()
    } else {
        let rest = shared_groups(groups.drop_last());
        if groups.last()@.len() >= 2 {
            rest.push(groups.last())
        } else {
            rest
        }
    }
}

/// The files of the groups, group after group.
pub open spec fn files_of(groups: Seq<Vec<KeyedFile>>) -> Seq<IndexedFile>
    decreases groups.len(),
{
    if groups.len() == 0 {
        Seq::empty()
    } else {
        files_of(groups.drop_last()) + groups.last()@.map_values(|k: KeyedFile| k.file)
    }
}

proof fn lemma_keyed_step(files: Seq<IndexedFile>, outcomes: Seq<Result<String, String>>, by_size: bool, n: int)
    requires
        0 <= n < files.len(),
        outcomes.len() == n + 1,
    ensures
        keyed_outcomes(files.take(n + 1), outcomes, by_size) == {
            let prev = keyed_outcomes(files.take(n), outcomes.drop_last(), by_size);
            match outcomes.last() {
                Ok(digest) => prev.push(
                    KeyedFile {
                        size: if by_size { files[n].bytes } else { 0 },
                        digest,
                        position: prev.len() as usize,
                        file: files[n],
                    },
                ),
                Err(_) => prev,
            }
        },
        failures(files.take(n + 1), outcomes) == {
            let prev = failures(files.take(n), outcomes.drop_last());
            match outcomes.last() {
                Ok(_) => prev,
                Err(e) => prev.push((files[n].path, e)),
            }
        },
{
    assert(files.take(n + 1).drop_last() =~= files.take(n));
}

proof fn lemma_keyed_len(files: Seq<IndexedFile>, outcomes: Seq<Result<String, String>>, by_size: bool)
    requires
        outcomes.len() <= usize::MAX,
    ensures
        keyed_outcomes(files, outcomes, by_size).len() <= outcomes.len(),
        numbered(keyed_outcomes(files, outcomes, by_size)),
    decreases outcomes.len(),
{
    if outcomes.len() > 0 && files.len() > 0 {
        lemma_keyed_len(files.drop_last(), outcomes.drop_last(), by_size);
    }
}

/// Records one digest outcome for `file`: a keyed copy on success (numbered
/// after the others), a skipped record on failure.
fn record_outcome(
    keyed: &mut Vec<KeyedFile>,
    dispositions: &mut Vec<Disposition>,
    file: IndexedFile,
    outcome: Result<String, String>,
    by_size: bool,
    occurred_at: String,
)
    requires
        old(keyed)@.len() < usize::MAX,
    ensures
        match outcome {
            Ok(digest) => {
                &&& final(keyed)@ == old(keyed)@.push(
                    KeyedFile {
                        size: if by_size { file.bytes } else { 0 },
                        digest,
                        position: old(keyed)@.len() as usize,
                        file,
                    },
                )
                &&& final(dispositions)@ == old(dispositions)@
            },
            Err(e) => {
                &&& final(keyed)@ == old(keyed)@
                &&& final(dispositions)@.len() == old(dispositions)@.len() + 1
                &&& final(dispositions)@.drop_last() == old(dispositions)@
                &&& records(final(dispositions)@.last(), file.path, SKIPPED@, e@)
                &&& final(dispositions)@.last().occurred_at == occurred_at
            },
        },
{
    match outcome {
        Ok(digest) => {
            let position = keyed.len();
            let size = if by_size { file.bytes } else { 0 };
            keyed.push(KeyedFile { size, digest, position, file });
        },
        Err(e) => {
            append_disposition(dispositions, &file.path, SKIPPED, e, occurred_at);
        },
    }
}

/// The groups among `groups` that hold more than one file.
fn keep_shared(groups: Vec<Vec<KeyedFile>>) -> (r: Vec<Vec<KeyedFile>>)
    ensures
        r@ == shared_groups(groups@),
{
    let ghost g = groups@;
    let mut d = into_deque(groups);
    let mut out: Vec<Vec<KeyedFile>> = Vec::new();
    let ghost mut i: int = 0;
    assert(g.take(0) =~= Seq::<Vec<KeyedFile>>::empty());
    while d.len() > 0
        invariant
            0 <= i <= g.len(),
            d@ == g.subrange(i, g.len() as int),
            out@ == shared_groups(g.take(i)),
        decreases g.len() - i,
    {
        let x = d.pop_front().unwrap();
        assert(x == g[i]);
        assert(g.take(i + 1).drop_last() =~= g.take(i));
        if x.len() >= 2 {
            out.push(x);
        }
        proof { i = i + 1; }
        assert(d@ =~= g.subrange(i, g.len() as int));
    }
    assert(g.take(g.len() as int) =~= g);
    out
}

/// The files of the groups, in order.
fn flatten_files(groups: Vec<Vec<KeyedFile>>) -> (r: VecDeque<IndexedFile>)
    ensures
        r@ == files_of(groups@),
{
    let ghost g = groups@;
    let mut d = into_deque(groups);
    let mut out: VecDeque<IndexedFile> = VecDeque::new();
    let ghost mut i: int = 0;
    assert(g.take(0) =~= Seq::<Vec<KeyedFile>>::empty());
    while d.len() > 0
        invariant
            0 <= i <= g.len(),
            d@ == g.subrange(i, g.len() as int),
            out@ == files_of(g.take(i)),
        decreases g.len() - i,
    {
        let group = d.pop_front().unwrap();
        assert(group == g[i]);
        assert(g.take(i + 1).drop_last() =~= g.take(i));
        let ghost o0 = out@;
        let ghost gv = group@;
        let mut inner = into_deque(group);
        let ghost mut j: int = 0;
        while inner.len() > 0
            invariant
                0 <= j <= gv.len(),
                inner@ == gv.subrange(j, gv.len() as int),
                out@ == o0 + gv.take(j).map_values(|k: KeyedFile| k.file),
            decreases gv.len() - j,
        {
            let k = inner.pop_front().unwrap();
            assert(k == gv[j]);
            out.push_back(k.file);
            proof { j = j + 1; }
            assert(inner@ =~= gv.subrange(j, gv.len() as int));
            assert(out@ =~= o0 + gv.take(j).map_values(|k: KeyedFile| k.file));
        }
        assert(gv.take(gv.len() as int) =~= gv);
        proof { i = i + 1; }
        assert(d@ =~= g.subrange(i, g.len() as int));
    }
    assert(g.take(g.len() as int) =~= g);
    out
}

/// A share of `span` percentage points for `done` of `total` steps, after `base`.
fn phase_percentage(base: u8, span: u8, done: u64, total: u64) -> (p: u8)
    requires
        total > 0,
        done <= total,
        base as int + span as int <= 100,
    ensures
        p as int == base as int + (done as int * span as int) / total as int,
{
    assert((done as u128) * (span as u128) <= 0xffff_ffff_ffff_ffffu128 * 0xffu128) by (nonlinear_arith)
        requires
            done <= 0xffff_ffff_ffff_ffffu64,
            span <= 0xffu8,
    ;
    let share: u128 = (done as u128) * (span as u128) / (total as u128);
    assert((done as int * span as int) / total as int <= span as int) by (nonlinear_arith)
        requires
            done as int <= total as int,
            total as int > 0,
            span as int >= 0,
    {
        assert(done as int * span as int <= total as int * span as int);
        vstd::arithmetic::div_mod::lemma_div_is_ordered(done as int * span as int, total as int * span as int, total as int);
        vstd::arithmetic::div_mod::lemma_div_by_multiple(span as int, total as int);
    }
    base + (share as u8)
}

pub const SAMPLING_PHASE: &'static str = "Sampling content";
pub const SAMPLING_MESSAGE: &'static str = "Building collision candidates without changing any files.";

/// The first phase: a sampled digest of every indexed file, in order.
pub struct Sampling {
    remaining: VecDeque<IndexedFile>,
    all: Ghost<Seq<IndexedFile>>,
    outcomes: Ghost<Seq<Result<String, String>>>,
    sampled: Vec<KeyedFile>,
    dispositions: Vec<Disposition>,
    selected_types: Vec<SelectionType>,
    total: u64,
}

impl Sampling {
    /// The indexed files.
    pub closed spec fn files(&self) -> Seq<IndexedFile> {
        self.all@
    }

    /// The outcomes recorded so far, one per file in order.
    pub closed spec fn outcomes(&self) -> Seq<Result<String, String>> {
        self.outcomes@
    }

    /// The categories that the owner selected.
    pub closed spec fn selected(&self) -> Seq<SelectionType> {
        self.selected_types@
    }

    /// The copies sampled so far, keyed by size and sampled digest.
    pub closed spec fn sampled(&self) -> Seq<KeyedFile> {
        self.sampled@
    }

    /// The audit records so far.
    pub closed spec fn dispositions(&self) -> Seq<Disposition> {
        self.dispositions@
    }

    pub closed spec fn wf(&self) -> bool {
        &&& self.all@.len() == self.total
        &&& self.all@.len() <= usize::MAX
        &&& self.outcomes@.len() <= self.all@.len()
        &&& self.remaining@ == self.all@.subrange(self.outcomes@.len() as int, self.all@.len() as int)
        &&& self.sampled@ == keyed_outcomes(self.all@.take(self.outcomes@.len() as int), self.outcomes@, true)
        &&& records_failures(self.dispositions@, failures(self.all@.take(self.outcomes@.len() as int), self.outcomes@))
    }

    /// Starts sampling the indexed files.
    pub fn new(files: Vec<IndexedFile>, selected_types: Vec<SelectionType>) -> (s: Self)
        ensures
            s.wf(),
            s.files() == files@,
            s.outcomes().len() == 0,
            s.selected() == selected_types@,
    {
        let ghost all = files@;
        let total = files.len() as u64;
        let remaining = into_deque(files);
        assert(all.take(0) =~= Seq::<IndexedFile>::empty());
        assert(all.subrange(0, all.len() as int) =~= all);
        Sampling {
            remaining,
            all: Ghost(all),
            outcomes: Ghost(Seq::empty()),
            sampled: Vec::new(),
            dispositions: Vec::new(),
            selected_types,
            total,
        }
    }

    /// The file to sample next, if any remains.
    pub fn current(&self) -> (f: Option<&IndexedFile>)
        requires
            self.wf(),
        ensures
            f is Some <==> self.outcomes().len() < self.files().len(),
            f matches Some(x) ==> *x == self.files()[self.outcomes().len() as int],
    {
        if self.remaining.len() > 0 {
            Some(&self.remaining[0])
        } else {
            None
        }
    }

    /// Reports that the next file is being sampled.
    fn report_progress(&self, runtime: &mut Runtime)
        requires
            self.wf(),
            self.outcomes().len() < self.files().len(),
        ensures
            scanning_progress(old(runtime).progress, final(runtime).progress, SAMPLING_PHASE@,
                (self.outcomes().len() + 1) as u64, self.files().len() as u64,
                ((self.outcomes().len() + 1) as int * 60 / self.files().len() as int) as u8,
                Some(self.files()[self.outcomes().len() as int].path.text), SAMPLING_MESSAGE@),
            final(runtime).plan == old(runtime).plan,
            final(runtime).cancel_requested == old(runtime).cancel_requested,
            final(runtime).source_scope == old(runtime).source_scope,
    {
        let done = self.total - self.remaining.len() as u64;
        let p = phase_percentage(0, 60, done + 1, self.total);
        let path = self.remaining[0].path.text.clone();
        update_progress(runtime, SAMPLING_PHASE, done + 1, self.total, p, Some(path), SAMPLING_MESSAGE);
    }

    /// Records the sampled digest of the next file, from the bytes read at
    /// its start and (for a long file) at its end; a failure to read is
    /// recorded as skipped, dated `occurred_at`.
    pub fn record(&mut self, read: Result<(Vec<u8>, Vec<u8>), String>, occurred_at: String)
        requires
            old(self).wf(),
            old(self).outcomes().len() < old(self).files().len(),
        ensures
            final(self).wf(),
            final(self).files() == old(self).files(),
            final(self).selected() == old(self).selected(),
            final(self).outcomes().drop_last() == old(self).outcomes(),
            final(self).outcomes().len() == old(self).outcomes().len() + 1,
            read matches Err(e) ==> final(self).outcomes().last() == Err::<String, String>(e),
            read matches Err(e) ==> final(self).dispositions().last().occurred_at == occurred_at,
            read matches Ok(bytes) ==> (final(self).outcomes().last() matches Ok(d) && d@ == hex_lower(
                sha256(sample_input(old(self).files()[old(self).outcomes().len() as int].bytes, bytes.0@, bytes.1@)),
            )),
    {
        let outcome = match read {
            Ok((head, tail)) => Ok(sample_hash(self.remaining[0].bytes, head.as_slice(), tail.as_slice())),
            Err(e) => Err(e),
        };
        self.record_digest(outcome, occurred_at);
    }

    fn record_digest(&mut self, outcome: Result<String, String>, occurred_at: String)
        requires
            old(self).wf(),
            old(self).outcomes().len() < old(self).files().len(),
        ensures
            outcome is Err ==> final(self).dispositions().last().occurred_at == occurred_at,
            final(self).wf(),
            final(self).files() == old(self).files(),
            final(self).outcomes() == old(self).outcomes().push(outcome),
            final(self).selected() == old(self).selected(),
    {
        let ghost n = self.outcomes@.len() as int;
        let ghost all = self.all@;
        let ghost o0 = self.outcomes@;
        let file = self.remaining.pop_front().unwrap();
        assert(file == all[n]);
        proof {
            lemma_keyed_len(all.take(n), o0, true);
            self.outcomes = Ghost(o0.push(outcome));
            lemma_keyed_step(all, self.outcomes@, true, n);
            assert(self.outcomes@.drop_last() == o0);
        }
        let ghost d0 = self.dispositions@;
        let ghost out = outcome;
        record_outcome(&mut self.sampled, &mut self.dispositions, file, outcome, true, occurred_at);
        proof {
            assert(self.remaining@ =~= all.subrange(n + 1, all.len() as int));
            let fails = failures(all.take(n + 1), self.outcomes@);
            if let Err(e) = out {
                assert forall|i: int| #![trigger self.dispositions@[i]] 0 <= i < self.dispositions@.len()
                    implies records(self.dispositions@[i], fails[i].0, SKIPPED@, fails[i].1@) by {
                    if i < d0.len() {
                        assert(self.dispositions@[i] == d0[i]);
                    }
                }
            }
        }
    }

    /// Before the next file: where the owner asked to cancel, the scan
    /// ends with a cancelled plan identified and dated by `stamp`, and
    /// nothing is given back; otherwise the next file is reported and
    /// sampling goes on.
    pub fn proceed(self, runtime: &mut Runtime, stamp: Stamp) -> (r: Option<Sampling>)
        requires
            self.wf(),
            self.outcomes().len() < self.files().len(),
        ensures
            old(runtime).cancel_requested ==> (r is None),
            old(runtime).cancel_requested ==> cancelled_with(*old(runtime), *final(runtime), self.dispositions(),
                self.selected(), stamp),
            !old(runtime).cancel_requested ==> r == Some(self),
            !old(runtime).cancel_requested ==> scanning_progress(old(runtime).progress, final(runtime).progress,
                SAMPLING_PHASE@, (self.outcomes().len() + 1) as u64, self.files().len() as u64,
                ((self.outcomes().len() + 1) as int * 60 / self.files().len() as int) as u8,
                Some(self.files()[self.outcomes().len() as int].path.text), SAMPLING_MESSAGE@),
            !old(runtime).cancel_requested ==> final(runtime).plan == old(runtime).plan,
            final(runtime).cancel_requested == old(runtime).cancel_requested,
            final(runtime).source_scope == old(runtime).source_scope,
    {
        if runtime.cancel_requested {
            cancel_plan(runtime, self.dispositions, self.selected_types, stamp);
            return None;
        }
        self.report_progress(runtime);
        Some(self)
    }

    /// Ends sampling: the files whose size and sampled digest another file
    /// shares become the candidates for full verification, grouped by key.
    pub fn finish(self) -> (v: Verifying)
        requires
            self.wf(),
            self.outcomes().len() == self.files().len(),
        ensures
            v.wf(),
            v.outcomes().len() == 0,
            v.files() == files_of(v.sample_groups()),
            v.sample_groups() == shared_groups(v.all_sample_groups()),
            groups_items_by_key(self.sampled(), v.all_sample_groups()),
            v.earlier() == self.dispositions(),
            v.selected() == self.selected(),
            v.indexed() == self.files().len(),
    {
        let ghost sampled = self.sampled@;
        proof {
            assert(self.all@.take(self.all@.len() as int) =~= self.all@);
            lemma_keyed_len(self.all@, self.outcomes@, true);
        }
        let groups = group_by_key(self.sampled);
        let ghost all_groups = groups@;
        let shared = keep_shared(groups);
        let ghost shared_v = shared@;
        let candidates = flatten_files(shared);
        let ghost cands = candidates@;
        let verification_total = candidates.len() as u64;
        let dispositions = self.dispositions;
        proof {
            assert(cands.take(0) =~= Seq::<IndexedFile>::empty());
            assert(cands.subrange(0, cands.len() as int) =~= cands);
            let ds = dispositions@;
            assert(ds.take(ds.len() as int) =~= ds);
            assert(ds.skip(ds.len() as int) =~= Seq::<Disposition>::empty());
            assert(keyed_outcomes(cands.take(0), Seq::empty(), false) =~= Seq::<KeyedFile>::empty());
            assert(failures(cands.take(0), Seq::empty()) =~= Seq::<(FilePath, String)>::empty());
        }
        Verifying {
            remaining: candidates,
            all: Ghost(cands),
            outcomes: Ghost(Seq::empty()),
            verified: Vec::new(),
            earlier: Ghost(dispositions@),
            dispositions,
            selected_types: self.selected_types,
            total: self.total,
            verification_total,
            sample_groups: Ghost(shared_v),
            all_sample_groups: Ghost(all_groups),
        }
    }
}

pub const VERIFYING_PHASE: &'static str = "Verifying exact matches";
pub const VERIFYING_MESSAGE: &'static str = "Calculating full SHA-256 digests before a file may enter a resolution plan.";

/// The second phase: a full digest of every candidate, in order.
pub struct Verifying {
    remaining: VecDeque<IndexedFile>,
    all: Ghost<Seq<IndexedFile>>,
    outcomes: Ghost<Seq<Result<String, String>>>,
    verified: Vec<KeyedFile>,
    dispositions: Vec<Disposition>,
    earlier: Ghost<Seq<Disposition>>,
    selected_types: Vec<SelectionType>,
    total: u64,
    verification_total: u64,
    sample_groups: Ghost<Seq<Vec<KeyedFile>>>,
    all_sample_groups: Ghost<Seq<Vec<KeyedFile>>>,
}

impl Verifying {
    /// The candidates, group after group.
    pub closed spec fn files(&self) -> Seq<IndexedFile> {
        self.all@
    }

    /// The full-digest outcomes recorded so far, one per candidate in order.
    pub closed spec fn outcomes(&self) -> Seq<Result<String, String>> {
        self.outcomes@
    }

    /// The sampled groups of more than one file.
    pub closed spec fn sample_groups(&self) -> Seq<Vec<KeyedFile>> {
        self.sample_groups@
    }

    /// All sampled groups.
    pub closed spec fn all_sample_groups(&self) -> Seq<Vec<KeyedFile>> {
        self.all_sample_groups@
    }

    /// The audit records from sampling.
    pub closed spec fn earlier(&self) -> Seq<Disposition> {
        self.earlier@
    }

    /// The audit records so far.
    pub closed spec fn dispositions(&self) -> Seq<Disposition> {
        self.dispositions@
    }

    /// The copies verified so far, keyed by full digest.
    pub closed spec fn verified(&self) -> Seq<KeyedFile> {
        self.verified@
    }

    pub closed spec fn selected(&self) -> Seq<SelectionType> {
        self.selected_types@
    }

    /// How many files were indexed.
    pub closed spec fn indexed(&self) -> u64 {
        self.total
    }

    pub closed spec fn wf(&self) -> bool {
        &&& self.all@.len() == self.verification_total
        &&& self.all@.len() <= usize::MAX
        &&& self.outcomes@.len() <= self.all@.len()
        &&& self.remaining@ == self.all@.subrange(self.outcomes@.len() as int, self.all@.len() as int)
        &&& self.verified@ == keyed_outcomes(self.all@.take(self.outcomes@.len() as int), self.outcomes@, false)
        &&& self.dispositions@.len() >= self.earlier@.len()
        &&& self.dispositions@.take(self.earlier@.len() as int) == self.earlier@
        &&& records_failures(
            self.dispositions@.skip(self.earlier@.len() as int),
            failures(self.all@.take(self.outcomes@.len() as int), self.outcomes@),
        )
    }

    /// The candidate to verify next, if any remains.
    pub fn current(&self) -> (f: Option<&IndexedFile>)
        requires
            self.wf(),
        ensures
            f is Some <==> self.outcomes().len() < self.files().len(),
            f matches Some(x) ==> *x == self.files()[self.outcomes().len() as int],
    {
        if self.remaining.len() > 0 {
            Some(&self.remaining[0])
        } else {
            None
        }
    }

    /// Reports that the next candidate is being verified.
    fn report_progress(&self, runtime: &mut Runtime)
        requires
            self.wf(),
            self.outcomes().len() < self.files().len(),
        ensures
            scanning_progress(old(runtime).progress, final(runtime).progress, VERIFYING_PHASE@,
                (self.outcomes().len() + 1) as u64, self.files().len() as u64,
                (60 + (self.outcomes().len() + 1) as int * 30 / self.files().len() as int) as u8,
                Some(self.files()[self.outcomes().len() as int].path.text), VERIFYING_MESSAGE@),
            final(runtime).plan == old(runtime).plan,
            final(runtime).cancel_requested == old(runtime).cancel_requested,
            final(runtime).source_scope == old(runtime).source_scope,
    {
        let done = self.verification_total - self.remaining.len() as u64;
        let p = phase_percentage(60, 30, done + 1, self.verification_total);
        let path = self.remaining[0].path.text.clone();
        update_progress(runtime, VERIFYING_PHASE, done + 1, self.verification_total, p, Some(path), VERIFYING_MESSAGE);
    }

    /// Records the full digest of the next candidate, from its content as
    /// fed to `read`; a failure to read is recorded as skipped, dated
    /// `occurred_at`.
    pub fn record(&mut self, read: Result<FullHash, String>, occurred_at: String)
        requires
            old(self).wf(),
            old(self).outcomes().len() < old(self).files().len(),
        ensures
            final(self).wf(),
            final(self).files() == old(self).files(),
            final(self).outcomes().drop_last() == old(self).outcomes(),
            final(self).outcomes().len() == old(self).outcomes().len() + 1,
            read matches Err(e) ==> final(self).outcomes().last() == Err::<String, String>(e),
            read matches Err(e) ==> final(self).dispositions().last().occurred_at == occurred_at,
            read matches Ok(h) ==> (final(self).outcomes().last() matches Ok(d) && d@ == hex_lower(sha256(h.absorbed()))),
            final(self).sample_groups() == old(self).sample_groups(),
            final(self).all_sample_groups() == old(self).all_sample_groups(),
            final(self).earlier() == old(self).earlier(),
            final(self).selected() == old(self).selected(),
            final(self).indexed() == old(self).indexed(),
    {
        let outcome = match read {
            Ok(h) => Ok(h.finish()),
            Err(e) => Err(e),
        };
        self.record_digest(outcome, occurred_at);
    }

    fn record_digest(&mut self, outcome: Result<String, String>, occurred_at: String)
        requires
            old(self).wf(),
            old(self).outcomes().len() < old(self).files().len(),
        ensures
            outcome is Err ==> final(self).dispositions().last().occurred_at == occurred_at,
            final(self).wf(),
            final(self).files() == old(self).files(),
            final(self).outcomes() == old(self).outcomes().push(outcome),
            final(self).sample_groups() == old(self).sample_groups(),
            final(self).all_sample_groups() == old(self).all_sample_groups(),
            final(self).earlier() == old(self).earlier(),
            final(self).selected() == old(self).selected(),
            final(self).indexed() == old(self).indexed(),
    {
        let ghost n = self.outcomes@.len() as int;
        let ghost all = self.all@;
        let ghost o0 = self.outcomes@;
        let ghost e = self.earlier@;
        let file = self.remaining.pop_front().unwrap();
        assert(file == all[n]);
        proof {
            lemma_keyed_len(all.take(n), o0, false);
            self.outcomes = Ghost(o0.push(outcome));
            lemma_keyed_step(all, self.outcomes@, false, n);
            assert(self.outcomes@.drop_last() == o0);
        }
        let ghost d0 = self.dispositions@;
        let ghost out = outcome;
        record_outcome(&mut self.verified, &mut self.dispositions, file, outcome, false, occurred_at);
        proof {
            assert(self.remaining@ =~= all.subrange(n + 1, all.len() as int));
            let fails = failures(all.take(n + 1), self.outcomes@);
            if let Err(err) = out {
                assert(self.dispositions@.take(e.len() as int) =~= e) by {
                    assert(d0.take(e.len() as int) == e);
                }
                assert(self.dispositions@.skip(e.len() as int) =~= d0.skip(e.len() as int).push(self.dispositions@.last()));
                let s = self.dispositions@.skip(e.len() as int);
                assert forall|i: int| #![trigger s[i]] 0 <= i < s.len()
                    implies records(s[i], fails[i].0, SKIPPED@, fails[i].1@) by {
                    if i < s.len() - 1 {
                        assert(s[i] == d0.skip(e.len() as int)[i]);
                    }
                }
            }
        }
    }

    /// Before the next candidate: where the owner asked to cancel, the scan
    /// ends with a cancelled plan identified and dated by `stamp`, and
    /// nothing is given back; otherwise the next candidate is reported and
    /// verification goes on.
    pub fn proceed(self, runtime: &mut Runtime, stamp: Stamp) -> (r: Option<Verifying>)
        requires
            self.wf(),
            self.outcomes().len() < self.files().len(),
        ensures
            old(runtime).cancel_requested ==> (r is None),
            old(runtime).cancel_requested ==> cancelled_with(*old(runtime), *final(runtime), self.dispositions(),
                self.selected(), stamp),
            !old(runtime).cancel_requested ==> r == Some(self),
            !old(runtime).cancel_requested ==> scanning_progress(old(runtime).progress, final(runtime).progress,
                VERIFYING_PHASE@, (self.outcomes().len() + 1) as u64, self.files().len() as u64,
                (60 + (self.outcomes().len() + 1) as int * 30 / self.files().len() as int) as u8,
                Some(self.files()[self.outcomes().len() as int].path.text), VERIFYING_MESSAGE@),
            !old(runtime).cancel_requested ==> final(runtime).plan == old(runtime).plan,
            final(runtime).cancel_requested == old(runtime).cancel_requested,
            final(runtime).source_scope == old(runtime).source_scope,
    {
        if runtime.cancel_requested {
            cancel_plan(runtime, self.dispositions, self.selected_types, stamp);
            return None;
        }
        self.report_progress(runtime);
        Some(self)
    }

    /// Ends verification: the verified copies whose full digest another copy
    /// shares become the exact groups, grouped by digest.
    pub fn finish(self) -> (r: Ranking)
        requires
            self.wf(),
            self.outcomes().len() == self.files().len(),
        ensures
            r.wf(),
            r.ranked_count() == 0,
            r.exact() == shared_groups(r.all_groups()),
            groups_items_by_key(self.verified(), r.all_groups()),
            total_len(r.all_groups()) == self.verified().len(),
            r.verified() == self.verified(),
            r.earlier() == self.dispositions(),
            r.selected() == self.selected(),
            r.indexed() == self.indexed(),
    {
        proof {
            assert(self.all@.take(self.all@.len() as int) =~= self.all@);
            lemma_keyed_len(self.all@, self.outcomes@, false);
            lemma_keyed_unsized(self.all@, self.outcomes@);
        }
        let ghost verified = self.verified@;
        let verified_count = self.verified.len();
        let groups = group_by_key(self.verified);
        let ghost all_groups = groups@;
        let exact = keep_shared(groups);
        let ghost ex = exact@;
        let exact_total = exact.len() as u64;
        let remaining = into_deque(exact);
        let dispositions = self.dispositions;
        proof {
            lemma_shared_total(all_groups);
            lemma_shared_members(all_groups);
            assert(ex.take(0) =~= Seq::<Vec<KeyedFile>>::empty());
            assert(ex.subrange(0, ex.len() as int) =~= ex);
            assert forall|g: int| #![trigger ex[g]] 0 <= g < ex.len() implies ex[g]@.len() >= 2
                && forall|j: int| #![trigger ex[g]@[j]] 0 <= j < ex[g]@.len() ==> same_key(ex[g]@[j], ex[g]@[0]) by {
                let h = choose|h: int| 0 <= h < all_groups.len() && all_groups[h] == ex[g];
                assert forall|j: int| #![trigger ex[g]@[j]] 0 <= j < ex[g]@.len() implies same_key(ex[g]@[j], ex[g]@[0]) by {
                    assert(all_groups[h]@[j] == ex[g]@[j]);
                }
            }
            let ds = dispositions@;
            assert(ds.take(ds.len() as int) =~= ds);
            assert(ds.skip(ds.len() as int) =~= Seq::<Disposition>::empty());
            assert(ex.take(0) =~= Seq::<Vec<KeyedFile>>::empty());
        }
        Ranking {
            remaining,
            exact: Ghost(ex),
            all_groups: Ghost(all_groups),
            exact_total,
            groups: Vec::new(),
            ranked: Ghost(Seq::empty()),
            earlier: Ghost(dispositions@),
            dispositions,
            reclaimable: 0,
            queued: 0,
            selected_types: self.selected_types,
            total: self.total,
            verified: Ghost(verified),
        }
    }
}

proof fn lemma_keyed_unsized(files: Seq<IndexedFile>, outcomes: Seq<Result<String, String>>)
    ensures
        forall|i: int|
            #![trigger keyed_outcomes(files, outcomes, false)[i]]
            0 <= i < keyed_outcomes(files, outcomes, false).len() ==> keyed_outcomes(files, outcomes, false)[i].size
                == 0,
    decreases outcomes.len(),
{
    if outcomes.len() > 0 && files.len() > 0 {
        lemma_keyed_unsized(files.drop_last(), outcomes.drop_last());
        let prev = keyed_outcomes(files.drop_last(), outcomes.drop_last(), false);
        let k = keyed_outcomes(files, outcomes, false);
        assert forall|i: int| #![trigger k[i]] 0 <= i < k.len() implies k[i].size == 0 by {
            if i < prev.len() {
                assert(k[i] == prev[i]);
            }
        }
    }
}

proof fn lemma_shared_members(groups: Seq<Vec<KeyedFile>>)
    ensures
        forall|g: int| #![trigger shared_groups(groups)[g]] 0 <= g < shared_groups(groups).len() ==> {
            &&& shared_groups(groups)[g]@.len() >= 2
            &&& exists|h: int| 0 <= h < groups.len() && groups[h] == shared_groups(groups)[g]
        },
    decreases groups.len(),
{
    if groups.len() > 0 {
        let prev = groups.drop_last();
        lemma_shared_members(prev);
        let rest = shared_groups(prev);
        let sh = shared_groups(groups);
        assert forall|g: int| #![trigger sh[g]] 0 <= g < sh.len() implies {
            &&& sh[g]@.len() >= 2
            &&& exists|h: int| 0 <= h < groups.len() && groups[h] == sh[g]
        } by {
            if g < rest.len() {
                assert(sh[g] == rest[g]);
                let h = choose|h: int| 0 <= h < prev.len() && prev[h] == rest[g];
                assert(groups[h] == prev[h]);
            } else {
                assert(sh[g] == groups.last());
                assert(groups[groups.len() - 1] == sh[g]);
            }
        }
    }
}

proof fn lemma_shared_total(groups: Seq<Vec<KeyedFile>>)
    ensures
        total_len(shared_groups(groups)) <= total_len(groups),
    decreases groups.len(),
{
    if groups.len() > 0 {
        lemma_shared_total(groups.drop_last());
        let rest = shared_groups(groups.drop_last());
        if groups.last()@.len() >= 2 {
            assert(rest.push(groups.last()).drop_last() =~= rest);
        }
    }
}

/// The plan's reclaimable bytes: the groups' reclaimable bytes, added with
/// saturation in order.
pub open spec fn plan_reclaimable(groups: Seq<DuplicateGroup>) -> u64
    decreases groups.len(),
{
    if groups.len() == 0 {
        0
    } else {
        let r = plan_reclaimable(groups.drop_last());
        if r + groups.last().reclaimable_bytes > u64::MAX {
            u64::MAX
        } else {
            (r + groups.last().reclaimable_bytes) as u64
        }
    }
}

/// The number of copies queued for quarantine over all the groups.
pub open spec fn plan_queued(groups: Seq<DuplicateGroup>) -> nat
    decreases groups.len(),
{
    if groups.len() == 0 {
        0
    } else {
        plan_queued(groups.drop_last()) + queued_count(groups.last().candidates@)
    }
}

/// The audit records of the groups, group after group.
pub open spec fn plan_records(ds: Seq<Disposition>, groups: Seq<DuplicateGroup>, ranked: Seq<Seq<KeyedFile>>) -> bool
    decreases groups.len(),
{
    if groups.len() == 0 {
        ds.len() == 0
    } else {
        let n = ranked.last().len();
        &&& ds.len() >= n
        &&& group_records(ds.skip(ds.len() - n), groups.last(), ranked.last())
        &&& plan_records(ds.take(ds.len() - n), groups.drop_last(), ranked.drop_last())
    }
}

pub const RANKING_PHASE: &'static str = "Ranking retained copies";
pub const RANKING_MESSAGE: &'static str = "Exact content has equal source quality. Applying deterministic evidence and a stable path tie-break.";
pub const REVIEW_PHASE: &'static str = "Review ready";
pub const REVIEW_GROUPS_SUFFIX: &'static str = " exact duplicate groups are ready for review. ";
pub const REVIEW_QUEUED_SUFFIX: &'static str = " files are queued for quarantine.";

/// The third phase: every exact group ranked into the plan, in order.
pub struct Ranking {
    remaining: VecDeque<Vec<KeyedFile>>,
    exact: Ghost<Seq<Vec<KeyedFile>>>,
    all_groups: Ghost<Seq<Vec<KeyedFile>>>,
    exact_total: u64,
    groups: Vec<DuplicateGroup>,
    ranked: Ghost<Seq<Seq<KeyedFile>>>,
    dispositions: Vec<Disposition>,
    earlier: Ghost<Seq<Disposition>>,
    reclaimable: u64,
    queued: u64,
    selected_types: Vec<SelectionType>,
    total: u64,
    verified: Ghost<Seq<KeyedFile>>,
}

impl Ranking {
    /// The exact groups: verified copies of one full digest, more than one each.
    pub closed spec fn exact(&self) -> Seq<Vec<KeyedFile>> {
        self.exact@
    }

    /// All groups of verified copies.
    pub closed spec fn all_groups(&self) -> Seq<Vec<KeyedFile>> {
        self.all_groups@
    }

    /// The verified copies, keyed by full digest, in order.
    pub closed spec fn verified(&self) -> Seq<KeyedFile> {
        self.verified@
    }

    /// How many exact groups are ranked.
    pub closed spec fn ranked_count(&self) -> nat {
        self.groups@.len()
    }

    /// The plan entries built so far.
    pub closed spec fn groups(&self) -> Seq<DuplicateGroup> {
        self.groups@
    }

    /// For each entry, the copies in rank order.
    pub closed spec fn ranked(&self) -> Seq<Seq<KeyedFile>> {
        self.ranked@
    }

    /// The audit records from sampling and verification.
    pub closed spec fn earlier(&self) -> Seq<Disposition> {
        self.earlier@
    }

    /// The audit records so far.
    pub closed spec fn dispositions(&self) -> Seq<Disposition> {
        self.dispositions@
    }

    pub closed spec fn selected(&self) -> Seq<SelectionType> {
        self.selected_types@
    }

    pub closed spec fn indexed(&self) -> u64 {
        self.total
    }

    /// The bytes that the plan reclaims so far.
    pub closed spec fn reclaimable(&self) -> u64 {
        self.reclaimable
    }

    /// The number of copies queued so far.
    pub closed spec fn queued(&self) -> u64 {
        self.queued
    }

    pub closed spec fn wf(&self) -> bool {
        let done = self.groups@.len() as int;
        &&& self.exact@.len() == self.exact_total
        &&& done <= self.exact@.len()
        &&& self.remaining@ == self.exact@.subrange(done, self.exact@.len() as int)
        &&& self.ranked@.len() == done
        &&& forall|g: int| #![trigger self.exact@[g]] 0 <= g < self.exact@.len() ==> self.exact@[g]@.len() >= 2
            && forall|j: int| #![trigger self.exact@[g]@[j]] 0 <= j < self.exact@[g]@.len() ==> same_key(self.exact@[g]@[j], self.exact@[g]@[0])
        &&& forall|g: int|
            #![trigger self.groups@[g]]
            0 <= g < done ==> {
                &&& ranked_group(self.groups@[g], self.ranked@[g])
                &&& self.ranked@[g].len() == self.exact@[g]@.len()
                &&& forall|i: int| 0 <= i < self.ranked@[g].len() ==> self.exact@[g]@.contains(#[trigger] self.ranked@[g][i])
                &&& forall|j: int| 0 <= j < self.exact@[g]@.len() ==> self.ranked@[g].contains(#[trigger] self.exact@[g]@[j])
                &&& forall|i: int, j: int|
                    #![trigger self.ranked@[g][i], self.ranked@[g][j]]
                    0 <= i < j < self.ranked@[g].len() ==> !contends_before(self.ranked@[g][j], self.ranked@[g][i])
                &&& forall|i: int| #![trigger self.groups@[g].candidates@[i]] 0 <= i < self.groups@[g].candidates@.len()
                    ==> self.groups@[g].candidates@[i].exact_hash@ == self.groups@[g].exact_hash@
            }
        &&& self.reclaimable == plan_reclaimable(self.groups@)
        &&& self.queued as nat == plan_queued(self.groups@)
        &&& self.queued as nat <= total_len(self.exact@.take(done))
        &&& total_len(self.exact@) <= self.verified@.len()
        &&& self.verified@.len() <= usize::MAX
        &&& self.exact@ == shared_groups(self.all_groups@)
        &&& groups_items_by_key(self.verified@, self.all_groups@)
        &&& forall|i: int| #![trigger self.verified@[i]] 0 <= i < self.verified@.len() ==> self.verified@[i].size == 0
        &&& numbered(self.verified@)
        &&& self.dispositions@.len() >= self.earlier@.len()
        &&& self.dispositions@.take(self.earlier@.len() as int) == self.earlier@
        &&& plan_records(self.dispositions@.skip(self.earlier@.len() as int), self.groups@, self.ranked@)
    }

    /// Whether an exact group remains to rank.
    pub fn has_next(&self) -> (r: bool)
        requires
            self.wf(),
        ensures
            r == (self.ranked_count() < self.exact().len()),
    {
        self.remaining.len() > 0
    }

    /// The number of copies in the next exact group.
    pub fn next_group_len(&self) -> (n: usize)
        requires
            self.wf(),
            self.ranked_count() < self.exact().len(),
        ensures
            n == self.exact()[self.ranked_count() as int]@.len(),
    {
        self.remaining[0].len()
    }

    /// Ranks the next exact group into the plan, and reports it. Copy `i`
    /// of the group is identified and its record dated by `stamps[i]`, the
    /// group identified by the last stamp.
    #[verifier::rlimit(60)]
    pub fn rank_next(&mut self, runtime: &mut Runtime, stamps: &Vec<Stamp>)
        requires
            old(self).wf(),
            old(self).ranked_count() < old(self).exact().len(),
            stamps@.len() == old(self).exact()[old(self).ranked_count() as int]@.len() + 1,
        ensures
            final(self).wf(),
            final(self).ranked_count() == old(self).ranked_count() + 1,
            final(self).exact() == old(self).exact(),
            final(self).all_groups() == old(self).all_groups(),
            final(self).earlier() == old(self).earlier(),
            final(self).selected() == old(self).selected(),
            final(self).indexed() == old(self).indexed(),
            final(self).groups().drop_last() == old(self).groups(),
            final(self).ranked().drop_last() == old(self).ranked(),
            scanning_progress(old(runtime).progress, final(runtime).progress, RANKING_PHASE@,
                (old(self).ranked_count() + 1) as u64, old(self).exact().len() as u64,
                (90 + (old(self).ranked_count() + 1) as int * 9 / old(self).exact().len() as int) as u8,
                None, RANKING_MESSAGE@),
            final(runtime).plan == old(runtime).plan,
            final(runtime).cancel_requested == old(runtime).cancel_requested,
            final(runtime).source_scope == old(runtime).source_scope,
    {
        let ghost done = self.groups@.len() as int;
        let ghost ex = self.exact@;
        let ghost g0 = self.groups@;
        let ghost rk0 = self.ranked@;
        let ghost d0 = self.dispositions@;
        let ghost e = self.earlier@;
        let index = self.groups.len() as u64;
        let p = phase_percentage(90, 9, index + 1, self.exact_total);
        update_progress(runtime, RANKING_PHASE, index + 1, self.exact_total, p, None, RANKING_MESSAGE);
        let files = self.remaining.pop_front().unwrap();
        assert(files == ex[done]);
        assert(self.remaining@ =~= ex.subrange(done + 1, ex.len() as int));
        proof {
            lemma_total_take(ex, done);
            lemma_total_bound(ex, done + 1);
        }
        let (group, Ghost(ranked), queued) = rank_group(files, &mut self.dispositions, stamps);
        proof {
            lemma_queued_bound(group);
            assert(queued as nat <= ex[done]@.len());
            assert(self.queued as nat + queued as nat <= total_len(ex.take(done + 1)));
            assert(total_len(ex.take(done + 1)) <= usize::MAX);
        }
        self.reclaimable = self.reclaimable.saturating_add(group.reclaimable_bytes);
        self.queued = self.queued + queued;
        self.groups.push(group);
        proof {
            self.ranked = Ghost(rk0.push(ranked));
            assert(self.groups@.drop_last() =~= g0);
            assert(self.ranked@.drop_last() =~= rk0);
            assert forall|g: int|
                #![trigger self.groups@[g]]
                0 <= g < done + 1 implies {
                    &&& ranked_group(self.groups@[g], self.ranked@[g])
                    &&& self.ranked@[g].len() == self.exact@[g]@.len()
                    &&& forall|i: int| 0 <= i < self.ranked@[g].len() ==> self.exact@[g]@.contains(#[trigger] self.ranked@[g][i])
                    &&& forall|j: int| 0 <= j < self.exact@[g]@.len() ==> self.ranked@[g].contains(#[trigger] self.exact@[g]@[j])
                    &&& forall|i: int, j: int|
                        #![trigger self.ranked@[g][i], self.ranked@[g][j]]
                        0 <= i < j < self.ranked@[g].len() ==> !contends_before(self.ranked@[g][j], self.ranked@[g][i])
                    &&& forall|i: int| #![trigger self.groups@[g].candidates@[i]] 0 <= i < self.groups@[g].candidates@.len()
                        ==> self.groups@[g].candidates@[i].exact_hash@ == self.groups@[g].exact_hash@
                } by {
                if g < done {
                    assert(self.groups@[g] == g0[g]);
                    assert(self.ranked@[g] == rk0[g]);
                }
            }
            let s = self.dispositions@.skip(e.len() as int);
            let n = ranked.len() as int;
            assert(self.dispositions@.take(e.len() as int) =~= e) by {
                assert(d0.take(e.len() as int) == e);
                assert(self.dispositions@.take(d0.len() as int) == d0);
            }
            assert(s.skip(s.len() - n) =~= self.dispositions@.skip(d0.len() as int));
            assert(s.take(s.len() - n) =~= d0.skip(e.len() as int));
        }
    }

    /// Ends the scan: the plan, identified and dated by `stamp`, is ready for
    /// review; its reclaimable bytes are the groups' added with saturation,
    /// its queued count the number of queued copies, and its audit records
    /// those of sampling and verification followed by one per ranked copy,
    /// group by group; the report counts the groups and the queued copies.
    pub fn finish(self, runtime: &mut Runtime, stamp: Stamp)
        requires
            self.wf(),
            self.ranked_count() == self.exact().len(),
        ensures
            final(runtime).plan matches Some(p) && {
                &&& p.status@ == STATUS_READY@
                &&& p.id@ == uuid_text(stamp.random)
                &&& p.created_at == stamp.time
                &&& p.selected_types@ == self.selected()
                &&& p.groups@ == self.groups()
                &&& p.reclaimable_bytes == self.reclaimable()
                &&& p.reclaimable_bytes == plan_reclaimable(p.groups@)
                &&& p.queued_file_count == self.queued()
                &&& p.queued_file_count as nat == plan_queued(p.groups@)
                &&& p.dispositions@ == self.dispositions()
                &&& p.dispositions@.take(self.earlier().len() as int) == self.earlier()
                &&& plan_records(p.dispositions@.skip(self.earlier().len() as int), p.groups@, self.ranked())
            },
            !final(runtime).progress.scanning,
            final(runtime).progress.phase@ == REVIEW_PHASE@,
            final(runtime).progress.current == self.indexed(),
            final(runtime).progress.total == self.indexed(),
            final(runtime).progress.percentage == 100,
            final(runtime).progress.current_path is None,
            final(runtime).progress.files_considered == self.indexed(),
            final(runtime).progress.message@ == decimal(self.groups().len()) + REVIEW_GROUPS_SUFFIX@
                + decimal(self.queued() as nat) + REVIEW_QUEUED_SUFFIX@,
            final(runtime).progress.error is None,
            final(runtime).cancel_requested == old(runtime).cancel_requested,
            final(runtime).source_scope == old(runtime).source_scope,
    {
        let group_count = self.groups.len() as u64;
        let mut message = String::new();
        push_decimal(&mut message, group_count);
        message.append(REVIEW_GROUPS_SUFFIX);
        push_decimal(&mut message, self.queued);
        message.append(REVIEW_QUEUED_SUFFIX);
        let plan = ResolutionPlan {
            id: new_id(stamp.random),
            status: owned(STATUS_READY),
            selected_types: self.selected_types,
            created_at: stamp.time,
            groups: self.groups,
            reclaimable_bytes: self.reclaimable,
            queued_file_count: self.queued,
            dispositions: self.dispositions,
        };
        runtime.progress = crate::model::ScanProgress {
            scanning: false,
            phase: owned(REVIEW_PHASE),
            current: self.total,
            total: self.total,
            percentage: 100,
            current_path: None,
            files_considered: self.total,
            message,
            error: None,
        };
        runtime.plan = Some(plan);
    }

    /// Before the next exact group: where the owner asked to cancel, the
    /// scan ends with a cancelled plan identified and dated by `stamp`, and
    /// nothing is given back; otherwise ranking goes on.
    pub fn proceed(self, runtime: &mut Runtime, stamp: Stamp) -> (r: Option<Ranking>)
        requires
            self.wf(),
        ensures
            old(runtime).cancel_requested ==> (r is None),
            old(runtime).cancel_requested ==> cancelled_with(*old(runtime), *final(runtime), self.dispositions(),
                self.selected(), stamp),
            !old(runtime).cancel_requested ==> r == Some(self) && *final(runtime) == *old(runtime),
    {
        if runtime.cancel_requested {
            cancel_plan(runtime, self.dispositions, self.selected_types, stamp);
            return None;
        }
        Some(self)
    }
}

proof fn lemma_total_take(groups: Seq<Vec<KeyedFile>>, n: int)
    requires
        0 <= n < groups.len(),
    ensures
        total_len(groups.take(n + 1)) == total_len(groups.take(n)) + groups[n]@.len(),
{
    assert(groups.take(n + 1).drop_last() =~= groups.take(n));
}

proof fn lemma_total_bound(groups: Seq<Vec<KeyedFile>>, n: int)
    requires
        0 <= n <= groups.len(),
    ensures
        total_len(groups.take(n)) <= total_len(groups),
    decreases groups.len() - n,
{
    if n < groups.len() {
        lemma_total_take(groups, n);
        lemma_total_bound(groups, n + 1);
    } else {
        assert(groups.take(n) =~= groups);
    }
}

proof fn lemma_queued_bound(g: DuplicateGroup)
    ensures
        queued_count(g.candidates@) <= g.candidates@.len(),
{
}

/// Every entry of a plan under construction is an exact group: at least two
/// copies, every one of the group's full digest, ranked from the copy to
/// retain down, the retained copy at least as large as every other copy
/// and, among copies of its size, of the first path.
pub proof fn lemma_plan_groups_exact(r: Ranking)
    requires
        r.wf(),
    ensures
        r.ranked().len() == r.groups().len(),
        forall|g: int|
            #![trigger r.groups()[g]]
            0 <= g < r.groups().len() ==> {
                &&& r.groups()[g].candidates@.len() >= 2
                &&& forall|c: int|
                    #![trigger r.groups()[g].candidates@[c]]
                    0 <= c < r.groups()[g].candidates@.len() ==> r.groups()[g].candidates@[c].exact_hash@
                        == r.groups()[g].exact_hash@
                &&& ranked_group(r.groups()[g], r.ranked()[g])
                &&& forall|j: int|
                    #![trigger r.ranked()[g][j]]
                    0 <= j < r.ranked()[g].len() ==> r.ranked()[g][0].file.bytes >= r.ranked()[g][j].file.bytes && (
                        r.ranked()[g][0].file.bytes == r.ranked()[g][j].file.bytes ==> !parts_lt(
                            r.ranked()[g][j].file.path@,
                            r.ranked()[g][0].file.path@,
                        ))
            },
{
    assert forall|g: int| #![trigger r.groups()[g]] 0 <= g < r.groups().len() implies {
        &&& r.groups()[g].candidates@.len() >= 2
        &&& forall|c: int|
            #![trigger r.groups()[g].candidates@[c]]
            0 <= c < r.groups()[g].candidates@.len() ==> r.groups()[g].candidates@[c].exact_hash@
                == r.groups()[g].exact_hash@
        &&& ranked_group(r.groups()[g], r.ranked()[g])
        &&& forall|j: int|
            #![trigger r.ranked()[g][j]]
            0 <= j < r.ranked()[g].len() ==> r.ranked()[g][0].file.bytes >= r.ranked()[g][j].file.bytes && (
                r.ranked()[g][0].file.bytes == r.ranked()[g][j].file.bytes ==> !parts_lt(
                    r.ranked()[g][j].file.path@,
                    r.ranked()[g][0].file.path@,
                ))
    } by {
        assert(r.exact@[g]@.len() >= 2);
        lemma_retained_outranks(r.ranked@[g]);
    }
}

/// The candidates for full verification collide: each group kept for it
/// holds at least two files, all of one key (size and sampled digest).
pub proof fn lemma_shared_groups_collide(items: Seq<KeyedFile>, groups: Seq<Vec<KeyedFile>>)
    requires
        groups_items_by_key(items, groups),
    ensures
        forall|g: int|
            #![trigger shared_groups(groups)[g]]
            0 <= g < shared_groups(groups).len() ==> shared_groups(groups)[g]@.len() >= 2 && forall|j: int|
                #![trigger shared_groups(groups)[g]@[j]]
                0 <= j < shared_groups(groups)[g]@.len() ==> same_key(
                    shared_groups(groups)[g]@[j],
                    shared_groups(groups)[g]@[0],
                ),
{
    lemma_shared_members(groups);
    let sh = shared_groups(groups);
    assert forall|g: int| #![trigger sh[g]] 0 <= g < sh.len() implies sh[g]@.len() >= 2 && forall|j: int|
        #![trigger sh[g]@[j]]
        0 <= j < sh[g]@.len() ==> same_key(sh[g]@[j], sh[g]@[0]) by {
        let h = choose|h: int| 0 <= h < groups.len() && groups[h] == sh[g];
        assert forall|j: int| #![trigger sh[g]@[j]] 0 <= j < sh[g]@.len() implies same_key(sh[g]@[j], sh[g]@[0]) by {
            assert(groups[h]@[j] == sh[g]@[j]);
        }
    }
}

/// The queued count of a plan under construction is the number of its
/// copies that are queued for quarantine.
pub proof fn lemma_queued_file_count(r: Ranking)
    requires
        r.wf(),
    ensures
        r.queued() as nat == queued_total(r.groups()),
{
    lemma_plan_groups_exact(r);
    lemma_plan_queued_is_queued(r.groups(), r.ranked());
}

/// What sampling holds at every step: the copies sampled so far are the
/// files whose sample was taken, in order, keyed by size and sampled digest
/// and numbered; the audit records are one skipped record per failed
/// sample, in order.
pub proof fn lemma_sampling_holds(s: Sampling)
    requires
        s.wf(),
    ensures
        s.outcomes().len() <= s.files().len(),
        s.sampled() == keyed_outcomes(s.files().take(s.outcomes().len() as int), s.outcomes(), true),
        records_failures(s.dispositions(), failures(s.files().take(s.outcomes().len() as int), s.outcomes())),
{
}

/// What verification holds at every step: the copies verified so far are
/// the candidates whose full digest was computed, in order, keyed by that
/// digest and numbered; the audit records are those of sampling followed by
/// one skipped record per failed full digest, in order.
pub proof fn lemma_verifying_holds(v: Verifying)
    requires
        v.wf(),
    ensures
        v.outcomes().len() <= v.files().len(),
        v.verified() == keyed_outcomes(v.files().take(v.outcomes().len() as int), v.outcomes(), false),
        v.dispositions().take(v.earlier().len() as int) == v.earlier(),
        records_failures(
            v.dispositions().skip(v.earlier().len() as int),
            failures(v.files().take(v.outcomes().len() as int), v.outcomes()),
        ),
{
}

proof fn lemma_shared_order(groups: Seq<Vec<KeyedFile>>)
    ensures
        forall|g1: int, g2: int|
            #![trigger shared_groups(groups)[g1], shared_groups(groups)[g2]]
            0 <= g1 < g2 < shared_groups(groups).len() ==> exists|h1: int, h2: int|
                0 <= h1 < h2 < groups.len() && groups[h1] == shared_groups(groups)[g1] && groups[h2]
                    == shared_groups(groups)[g2],
    decreases groups.len(),
{
    if groups.len() > 0 {
        let prev = groups.drop_last();
        lemma_shared_order(prev);
        lemma_shared_members(prev);
        let rest = shared_groups(prev);
        let sh = shared_groups(groups);
        assert forall|g1: int, g2: int|
            #![trigger sh[g1], sh[g2]]
            0 <= g1 < g2 < sh.len() implies exists|h1: int, h2: int|
                0 <= h1 < h2 < groups.len() && groups[h1] == sh[g1] && groups[h2] == sh[g2] by {
            if g2 < rest.len() {
                assert(sh[g1] == rest[g1] && sh[g2] == rest[g2]);
                let (h1, h2) = choose|h1: int, h2: int|
                    0 <= h1 < h2 < prev.len() && prev[h1] == rest[g1] && prev[h2] == rest[g2];
                assert(groups[h1] == prev[h1] && groups[h2] == prev[h2]);
            } else {
                assert(sh[g1] == rest[g1]);
                assert(sh[g2] == groups.last());
                let h1 = choose|h: int| 0 <= h < prev.len() && prev[h] == rest[g1];
                assert(groups[h1] == prev[h1]);
                assert(groups[groups.len() - 1] == sh[g2]);
            }
        }
    }
}

proof fn lemma_shared_complete(groups: Seq<Vec<KeyedFile>>)
    ensures
        forall|h: int|
            #![trigger groups[h]]
            0 <= h < groups.len() && groups[h]@.len() >= 2 ==> exists|g: int|
                0 <= g < shared_groups(groups).len() && shared_groups(groups)[g] == groups[h],
    decreases groups.len(),
{
    if groups.len() > 0 {
        let prev = groups.drop_last();
        lemma_shared_complete(prev);
        let rest = shared_groups(prev);
        let sh = shared_groups(groups);
        assert forall|h: int|
            #![trigger groups[h]]
            0 <= h < groups.len() && groups[h]@.len() >= 2 implies exists|g: int| 0 <= g < sh.len() && sh[g] == groups[h] by {
            if h < prev.len() {
                assert(groups[h] == prev[h]);
                let g = choose|g: int| 0 <= g < rest.len() && rest[g] == prev[h];
                assert(sh[g] == rest[g]);
            } else {
                assert(sh[rest.len() as int] == groups.last());
            }
        }
    }
}

/// The digests of a plan's groups differ: no two groups of a plan hold
/// copies of one full digest.
pub proof fn lemma_plan_digests_distinct(r: Ranking)
    requires
        r.wf(),
    ensures
        forall|g1: int, g2: int|
            #![trigger r.groups()[g1], r.groups()[g2]]
            0 <= g1 < g2 < r.groups().len() ==> r.groups()[g1].exact_hash@ != r.groups()[g2].exact_hash@,
{
    let ex = r.exact@;
    let all = r.all_groups@;
    lemma_shared_order(all);
    assert forall|g: int| 0 <= g < r.groups().len() implies (#[trigger] r.groups()[g]).exact_hash@ == ex[g]@[0].digest@ by {
        let rk = r.ranked@[g];
        assert(ranked_group(r.groups@[g], rk));
        assert(ex[g]@.contains(rk[0]));
        let j = choose|j: int| 0 <= j < ex[g]@.len() && ex[g]@[j] == rk[0];
        assert(same_key(ex[g]@[j], ex[g]@[0]));
    }
    assert forall|g1: int, g2: int|
        #![trigger r.groups()[g1], r.groups()[g2]]
        0 <= g1 < g2 < r.groups().len() implies r.groups()[g1].exact_hash@ != r.groups()[g2].exact_hash@ by {
        assert(ex[g1] == shared_groups(all)[g1] && ex[g2] == shared_groups(all)[g2]);
        let (h1, h2) = choose|h1: int, h2: int|
            0 <= h1 < h2 < all.len() && all[h1] == shared_groups(all)[g1] && all[h2] == shared_groups(all)[g2];
        assert(key_lt(all[h1]@[0], all[h2]@[0]));
        let a = all[h1]@[0];
        let b = all[h2]@[0];
        assert(r.verified@[a.position as int] == a);
        assert(r.verified@[b.position as int] == b);
        assert(a.size == 0 && b.size == 0);
        lemma_key_lt_differs(a, b);
    }
}

/// Every two verified copies of one full digest are in one exact group, and
/// once every group is ranked, in one group of the plan.
pub proof fn lemma_equal_digests_share_a_group(r: Ranking)
    requires
        r.wf(),
    ensures
        forall|i: int, j: int|
            #![trigger r.verified()[i], r.verified()[j]]
            0 <= i < j < r.verified().len() && r.verified()[i].digest@ == r.verified()[j].digest@ ==> exists|g: int|
                #![trigger r.exact()[g]]
                0 <= g < r.exact().len() && r.exact()[g]@.contains(r.verified()[i]) && r.exact()[g]@.contains(
                    r.verified()[j],
                ) && (g < r.groups().len() ==> r.ranked()[g].contains(r.verified()[i]) && r.ranked()[g].contains(
                    r.verified()[j],
                )),
{
    let v = r.verified();
    let all = r.all_groups();
    let ex = r.exact();
    lemma_shared_complete(all);
    assert forall|i: int, j: int|
        #![trigger r.verified()[i], r.verified()[j]]
        0 <= i < j < r.verified().len() && r.verified()[i].digest@ == r.verified()[j].digest@ implies exists|g: int|
            #![trigger r.exact()[g]]
            0 <= g < r.exact().len() && r.exact()[g]@.contains(r.verified()[i]) && r.exact()[g]@.contains(
                r.verified()[j],
            ) && (g < r.groups().len() ==> r.ranked()[g].contains(r.verified()[i]) && r.ranked()[g].contains(
                r.verified()[j],
            )) by {
        assert(in_groups(all, v[i]));
        assert(in_groups(all, v[j]));
        let (hi, ki) = choose|g: int, k: int| 0 <= g < all.len() && 0 <= k < all[g]@.len() && #[trigger] all[g]@[k] == v[i];
        let (hj, kj) = choose|g: int, k: int| 0 <= g < all.len() && 0 <= k < all[g]@.len() && #[trigger] all[g]@[k] == v[j];
        assert(same_key(all[hi]@[ki], all[hi]@[0]));
        assert(same_key(all[hj]@[kj], all[hj]@[0]));
        assert(same_key(v[i], v[j]));
        if hi != hj {
            if hi < hj {
                assert(key_lt(all[hi]@[0], all[hj]@[0]));
                lemma_key_lt_differs(all[hi]@[0], all[hj]@[0]);
            } else {
                assert(key_lt(all[hj]@[0], all[hi]@[0]));
                lemma_key_lt_differs(all[hj]@[0], all[hi]@[0]);
            }
        }
        assert(v[i].position == i && v[j].position == j);
        assert(ki != kj);
        assert(all[hi]@.len() >= 2);
        let g = choose|g: int| 0 <= g < shared_groups(all).len() && shared_groups(all)[g] == all[hi];
        assert(ex[g]@[ki] == v[i]);
        assert(ex[g]@[kj] == v[j]);
        assert(ex[g]@.contains(v[i]));
        assert(ex[g]@.contains(v[j]));
        if g < r.groups().len() {
            assert(ranked_group(r.groups@[g], r.ranked@[g]));
            assert(r.ranked@[g].contains(ex[g]@[ki]));
            assert(r.ranked@[g].contains(ex[g]@[kj]));
        }
        assert(0 <= g < r.exact().len() && r.exact()[g]@.contains(v[i]) && r.exact()[g]@.contains(v[j]) && (g
            < r.groups().len() ==> r.ranked()[g].contains(v[i]) && r.ranked()[g].contains(v[j])));
    }
}

/// Only shared content reaches a plan: every ranked copy is a verified copy
/// whose full digest another verified copy shares.
pub proof fn lemma_only_shared_content(r: Ranking)
    requires
        r.wf(),
    ensures
        forall|g: int, m: int|
            #![trigger r.ranked()[g][m]]
            0 <= g < r.ranked().len() && 0 <= m < r.ranked()[g].len() ==> exists|i: int, j: int|
                0 <= i < r.verified().len() && 0 <= j < r.verified().len() && i != j && r.verified()[i] == r.ranked()[g][m]
                    && r.verified()[j].digest@ == r.ranked()[g][m].digest@,
{
    let v = r.verified();
    let all = r.all_groups();
    let ex = r.exact();
    lemma_shared_members(all);
    assert forall|g: int, m: int|
        #![trigger r.ranked()[g][m]]
        0 <= g < r.ranked().len() && 0 <= m < r.ranked()[g].len() implies exists|i: int, j: int|
            0 <= i < r.verified().len() && 0 <= j < r.verified().len() && i != j && r.verified()[i] == r.ranked()[g][m]
                && r.verified()[j].digest@ == r.ranked()[g][m].digest@ by {
        let x = r.ranked@[g][m];
        assert(ranked_group(r.groups@[g], r.ranked@[g]));
        assert(ex[g]@.contains(x));
        let k = choose|k: int| 0 <= k < ex[g]@.len() && ex[g]@[k] == x;
        let h = choose|h: int| 0 <= h < all.len() && all[h] == shared_groups(all)[g];
        assert(all[h] == ex[g]);
        let k2 = if k == 0 { 1int } else { 0int };
        let y = all[h]@[k2];
        assert(all[h]@[k] == x);
        assert(same_key(x, all[h]@[0]) && same_key(y, all[h]@[0]));
        assert(v[x.position as int] == x);
        assert(v[y.position as int] == y);
        if k < k2 {
            assert(all[h]@[k].position < all[h]@[k2].position);
        } else {
            assert(all[h]@[k2].position < all[h]@[k].position);
        }
        assert(v[y.position as int].digest@ == x.digest@);
        let (i, j) = (x.position as int, y.position as int);
        assert(0 <= i < v.len() && 0 <= j < v.len() && i != j && v[i] == r.ranked()[g][m] && v[j].digest@
            == r.ranked()[g][m].digest@);
    }
}

} // verus!
