//! Applying a reviewed plan: each copy queued for quarantine is checked
//! against its reviewed digest, given a free name in the quarantine
//! directory and moved there, or left in place with the reason; the plan
//! then records what happened. The application does the file work between
//! the steps.
use vstd::prelude::*;
use vstd::utf8::{decode_utf8, valid_utf8};
use crate::group::KeyedFile;
use crate::model::{
    Candidate, DuplicateGroup, ResolutionPlan, FAILED, QUARANTINED, QUEUED_FOR_QUARANTINE, RETAIN,
    STATUS_APPLIED, STATUS_PARTIAL, STATUS_READY,
};
use crate::path::{FilePath, file_name, extension_of_name, file_name_of, name_extension, name_stem, stem_of_name};
use crate::phases::plan_queued;
use crate::plan::{append_disposition, clamp, disposed, queued_count, ranked_group, records};
use crate::runtime::Runtime;
use crate::text::{decimal, owned, push_decimal, str_eq, utf8_text};

verus! {

/// Where a copy goes in the quarantine directory.
#[derive(Debug, Clone)]
pub enum Destination {
    /// Under its own file name.
    SameName,
    /// Under a numbered name.
    Renamed(String),
}

pub const NO_NAME_PREFIX: &'static str = "Source path has no name: ";
pub const NO_DESTINATION: &'static str = "Unable to allocate a unique quarantine destination.";
pub const FALLBACK_STEM: &'static str = "duplicate";
pub const NUMBER_OPEN: &'static str = " (";
pub const NUMBER_CLOSE: &'static str = ")";
pub const EXTENSION_DOT: &'static str = ".";
/// The highest number that a renamed copy takes.
pub const MAX_RENAMES: u32 = 10000;

/// The text of `bytes` where they are valid UTF-8.
pub open spec fn utf8_of(bytes: Seq<u8>) -> Option<Seq<char>> {
    if valid_utf8(bytes) {
        Some(decode_utf8(bytes))
    } else {
        None
    }
}

/// The `n`-th numbered name for a file named `name`: its stem as text (or
/// `duplicate` where the stem is not text), ` (n)`, and a dot and the
/// extension where the name has an extension that is non-empty text.
pub open spec fn numbered_name(name: Seq<u8>, n: nat) -> Seq<char> {
    let stem = match utf8_of(name_stem(name)) {
        Some(t) => t,
        None => FALLBACK_STEM@,
    };
    let base = stem + NUMBER_OPEN@ + decimal(n) + NUMBER_CLOSE@;
    match name_extension(name) {
        Some(e) => match utf8_of(e) {
            Some(t) => if t.len() > 0 {
                base + EXTENSION_DOT@ + t
            } else {
                base
            },
            None => base,
        },
        None => base,
    }
}

proof fn lemma_decode_empty(bytes: Seq<u8>)
    requires
        valid_utf8(bytes),
    ensures
        (decode_utf8(bytes).len() == 0) == (bytes.len() == 0),
{
    if bytes.len() > 0 {
        assert(decode_utf8(bytes).len() >= 1);
    }
}

/// The name to try at the `attempt`-th try of placing `source` in the
/// quarantine directory: its own file name first, then the numbered names
/// up to `MAX_RENAMES`; a path without a file name has no destination.
pub fn unique_destination(source: &FilePath, attempt: u32) -> (r: Result<Destination, String>)
    ensures
        file_name_of(source@) is None ==> (r matches Err(e) && e@ == NO_NAME_PREFIX@ + source.text@),
        file_name_of(source@) is Some && attempt == 0 ==> (r matches Ok(Destination::SameName)),
        file_name_of(source@) is Some && 1 <= attempt <= MAX_RENAMES ==> (r matches Ok(Destination::Renamed(t))
            && t@ == numbered_name(file_name_of(source@)->0, attempt as nat)),
        file_name_of(source@) is Some && attempt > MAX_RENAMES ==> (r matches Err(e) && e@ == NO_DESTINATION@),
{
    let name = match file_name(source) {
        Some(n) => n,
        None => {
            let mut e = owned(NO_NAME_PREFIX);
            e.append(source.text.as_str());
            return Err(e);
        },
    };
    if attempt == 0 {
        return Ok(Destination::SameName);
    }
    if attempt > MAX_RENAMES {
        return Err(owned(NO_DESTINATION));
    }
    let stem = stem_of_name(&name);
    let mut out = match utf8_text(stem.as_slice()) {
        Some(t) => t,
        None => owned(FALLBACK_STEM),
    };
    out.append(NUMBER_OPEN);
    push_decimal(&mut out, attempt as u64);
    out.append(NUMBER_CLOSE);
    match extension_of_name(&name) {
        Some(e) => {
            match utf8_text(e.as_slice()) {
                Some(t) => {
                    proof {
                        lemma_decode_empty(e@);
                    }
                    if e.len() > 0 {
                        out.append(EXTENSION_DOT);
                        out.append(t.as_str());
                    }
                },
                None => {},
            }
        },
        None => {},
    }
    Ok(Destination::Renamed(out))
}

pub const OVERWRITE_REFUSED: &'static str = "LumaSift refused to overwrite an existing quarantine file.";
pub const COPY_FAILED_PREFIX: &'static str = "Could not move ";
pub const COPY_FAILED_MIDDLE: &'static str = " (";
pub const COPY_FAILED_SUFFIX: &'static str = "); copy fallback failed: ";
pub const REMOVE_FAILED_PREFIX: &'static str = "Copied ";
pub const REMOVE_FAILED_SUFFIX: &'static str = " but could not remove its original: ";

/// What the file system reported of the last step of a move.
#[derive(Debug)]
pub enum MoveEvent {
    /// Whether something already exists at the destination.
    DestinationChecked { exists: bool },
    /// The rename of the source to the destination.
    Renamed(Result<(), String>),
    /// The copy of the source to the destination, after the rename failed with `rename_error`.
    Copied { rename_error: String, result: Result<(), String> },
    /// The removal of the source after it was copied.
    SourceRemoved(Result<(), String>),
}

/// What to do next in a move.
#[derive(Debug)]
pub enum MoveStep {
    /// Rename the source to the destination.
    Rename,
    /// Copy the source to the destination (the rename failed with `rename_error`).
    Copy { rename_error: String },
    /// Remove the source, now copied.
    RemoveSource,
    /// Remove the copy, then fail with the error.
    RemoveCopy(String),
    /// The move is over, with this outcome.
    Finish(Result<(), String>),
}

/// `step` follows `event` in moving the file shown as `source` into the
/// quarantine: never over an existing file; a rename where it works, else a
/// copy and the removal of the original; a copy whose original cannot be
/// removed is itself removed.
pub open spec fn follows(source: Seq<char>, event: MoveEvent, step: MoveStep) -> bool {
    match event {
        MoveEvent::DestinationChecked { exists } => if exists {
            step matches MoveStep::Finish(Err(e)) && e@ == OVERWRITE_REFUSED@
        } else {
            step is Rename
        },
        MoveEvent::Renamed(Ok(_)) => step matches MoveStep::Finish(Ok(_)),
        MoveEvent::Renamed(Err(e)) => step matches MoveStep::Copy { rename_error } && rename_error == e,
        MoveEvent::Copied { rename_error, result } => match result {
            Ok(_) => step is RemoveSource,
            Err(c) => step matches MoveStep::Finish(Err(m)) && m@ == COPY_FAILED_PREFIX@ + source + COPY_FAILED_MIDDLE@
                + rename_error@ + COPY_FAILED_SUFFIX@ + c@,
        },
        MoveEvent::SourceRemoved(Ok(_)) => step matches MoveStep::Finish(Ok(_)),
        MoveEvent::SourceRemoved(Err(r)) => step matches MoveStep::RemoveCopy(m) && m@ == REMOVE_FAILED_PREFIX@ + source
            + REMOVE_FAILED_SUFFIX@ + r@,
    }
}

/// The step that follows `event` in moving the file shown as `source` into
/// the quarantine.
pub fn move_step(source: &str, event: MoveEvent) -> (step: MoveStep)
    ensures
        follows(source@, event, step),
{
    match event {
        MoveEvent::DestinationChecked { exists } => {
            if exists {
                MoveStep::Finish(Err(owned(OVERWRITE_REFUSED)))
            } else {
                MoveStep::Rename
            }
        },
        MoveEvent::Renamed(Ok(())) => MoveStep::Finish(Ok(())),
        MoveEvent::Renamed(Err(e)) => MoveStep::Copy { rename_error: e },
        MoveEvent::Copied { rename_error, result } => match result {
            Ok(()) => MoveStep::RemoveSource,
            Err(c) => {
                let mut m = owned(COPY_FAILED_PREFIX);
                m.append(source);
                m.append(COPY_FAILED_MIDDLE);
                m.append(rename_error.as_str());
                m.append(COPY_FAILED_SUFFIX);
                m.append(c.as_str());
                MoveStep::Finish(Err(m))
            },
        },
        MoveEvent::SourceRemoved(Ok(())) => MoveStep::Finish(Ok(())),
        MoveEvent::SourceRemoved(Err(r)) => {
            let mut m = owned(REMOVE_FAILED_PREFIX);
            m.append(source);
            m.append(REMOVE_FAILED_SUFFIX);
            m.append(r.as_str());
            MoveStep::RemoveCopy(m)
        },
    }
}

pub const NO_PLAN: &'static str = "No LumaSift plan is ready for review.";
pub const STALE_PLAN: &'static str = "This LumaSift plan is stale or no longer eligible for application.";
pub const CONTENT_CHANGED: &'static str = "Content changed since review; the file was left in place.";
pub const QUARANTINED_DETAIL: &'static str = "Moved to LumaSift quarantine. It has not been permanently deleted.";
pub const APPLIED_PREFIX: &'static str = "LumaSift quarantined ";
pub const APPLIED_MIDDLE: &'static str = " file(s); ";
pub const APPLIED_SUFFIX: &'static str = " file(s) remained in place.";

/// The copy is queued for quarantine.
pub open spec fn is_queued(c: Candidate) -> bool {
    c.disposition@ == QUEUED_FOR_QUARANTINE@
}

/// The number of copies queued for quarantine.
pub open spec fn queued_in(cs: Seq<Candidate>) -> nat
    decreases cs.len(),
{
    if cs.len() == 0 {
        0
    } else {
        queued_in(cs.drop_last()) + if is_queued(cs.last()) {
            1nat
        } else {
            0
        }
    }
}

/// The number of copies queued for quarantine over all the groups.
pub open spec fn queued_total(gs: Seq<DuplicateGroup>) -> nat
    decreases gs.len(),
{
    if gs.len() == 0 {
        0
    } else {
        queued_total(gs.drop_last()) + queued_in(gs.last().candidates@)
    }
}

proof fn lemma_queued_in_update(cs: Seq<Candidate>, i: int, x: Candidate)
    requires
        0 <= i < cs.len(),
    ensures
        queued_in(cs.update(i, x)) + (if is_queued(cs[i]) { 1nat } else { 0nat }) == queued_in(cs) + (if is_queued(x) {
            1nat
        } else {
            0nat
        }),
    decreases cs.len(),
{
    if i < cs.len() - 1 {
        lemma_queued_in_update(cs.drop_last(), i, x);
        assert(cs.update(i, x).drop_last() =~= cs.drop_last().update(i, x));
    } else {
        assert(cs.update(i, x).drop_last() =~= cs.drop_last());
    }
}

proof fn lemma_queued_total_update(gs: Seq<DuplicateGroup>, i: int, y: DuplicateGroup)
    requires
        0 <= i < gs.len(),
    ensures
        queued_total(gs.update(i, y)) + queued_in(gs[i].candidates@) == queued_total(gs) + queued_in(y.candidates@),
    decreases gs.len(),
{
    if i < gs.len() - 1 {
        lemma_queued_total_update(gs.drop_last(), i, y);
        assert(gs.update(i, y).drop_last() =~= gs.drop_last().update(i, y));
    } else {
        assert(gs.update(i, y).drop_last() =~= gs.drop_last());
    }
}

proof fn lemma_none_queued_in(cs: Seq<Candidate>)
    requires
        forall|i: int| 0 <= i < cs.len() ==> !is_queued(#[trigger] cs[i]),
    ensures
        queued_in(cs) == 0,
    decreases cs.len(),
{
    if cs.len() > 0 {
        lemma_none_queued_in(cs.drop_last());
    }
}

proof fn lemma_none_queued_total(gs: Seq<DuplicateGroup>)
    requires
        forall|g: int, c: int|
            0 <= g < gs.len() && 0 <= c < gs[g].candidates@.len() ==> !is_queued(#[trigger] gs[g].candidates@[c]),
    ensures
        queued_total(gs) == 0,
    decreases gs.len(),
{
    if gs.len() > 0 {
        lemma_none_queued_total(gs.drop_last());
        let cs = gs.last().candidates@;
        assert forall|c: int| 0 <= c < cs.len() implies !is_queued(#[trigger] cs[c]) by {
            assert(cs[c] == gs[gs.len() - 1].candidates@[c]);
        }
        lemma_none_queued_in(cs);
    }
}

proof fn lemma_settled_not_queued(new: Candidate, old: Candidate)
    requires
        settled(new, old),
        !is_queued(old) ==> !is_queued(new),
    ensures
        !is_queued(new),
{
    reveal_strlit("quarantined");
    reveal_strlit("failed");
    reveal_strlit("queued_for_quarantine");
    assert(QUARANTINED@.len() == 11);
    assert(FAILED@.len() == 6);
    assert(QUEUED_FOR_QUARANTINE@.len() == 21);
}

/// The number of copies queued for quarantine in the groups, held at the
/// largest `u64`.
pub fn count_queued(groups: &Vec<DuplicateGroup>) -> (n: u64)
    ensures
        n == clamp(queued_total(groups@)),
{
    let mut n: u64 = 0;
    let mut g: usize = 0;
    while g < groups.len()
        invariant
            g <= groups@.len(),
            n == clamp(queued_total(groups@.take(g as int))),
        decreases groups@.len() - g,
    {
        let cs = &groups[g].candidates;
        let ghost before_group = queued_total(groups@.take(g as int));
        let mut c: usize = 0;
        while c < cs.len()
            invariant
                c <= cs@.len(),
                n == clamp(before_group + queued_in(cs@.take(c as int))),
            decreases cs@.len() - c,
        {
            assert(cs@.take(c + 1).drop_last() =~= cs@.take(c as int));
            if str_eq(cs[c].disposition.as_str(), QUEUED_FOR_QUARANTINE) {
                n = n.saturating_add(1);
            }
            c = c + 1;
        }
        assert(cs@.take(cs@.len() as int) =~= cs@);
        assert(groups@.take(g + 1).drop_last() =~= groups@.take(g as int));
        g = g + 1;
    }
    assert(groups@.take(groups@.len() as int) =~= groups@);
    n
}

/// Two candidates describe the same copy: they differ at most in their
/// disposition, its detail and the quarantine path.
pub open spec fn same_copy(a: Candidate, b: Candidate) -> bool {
    &&& a.id == b.id
    &&& a.file_path == b.file_path
    &&& a.display_name == b.display_name
    &&& a.media_kind == b.media_kind
    &&& a.exact_hash == b.exact_hash
    &&& a.quality_score == b.quality_score
    &&& a.quality == b.quality
}

/// `new` is `old` moved to the quarantine path `destination`.
pub open spec fn moved(new: Candidate, old: Candidate, destination: String) -> bool {
    &&& same_copy(new, old)
    &&& new.disposition@ == QUARANTINED@
    &&& new.disposition_detail@ == QUARANTINED_DETAIL@
    &&& new.quarantine_path == Some(destination)
}

/// `new` is `old` left in place for `error`.
pub open spec fn left_in_place(new: Candidate, old: Candidate, error: String) -> bool {
    &&& same_copy(new, old)
    &&& new.disposition@ == FAILED@
    &&& new.disposition_detail == error
    &&& new.quarantine_path == old.quarantine_path
}

/// A queued copy has been moved or left in place; any other copy is untouched.
pub open spec fn settled(new: Candidate, old: Candidate) -> bool {
    if is_queued(old) {
        (new.quarantine_path matches Some(d) && moved(new, old, d)) || left_in_place(new, old, new.disposition_detail)
    } else {
        new == old
    }
}

/// Position `(g, c)` comes before `(h, d)`: group by group, copy by copy.
pub open spec fn before(g: int, c: int, h: int, d: int) -> bool {
    g < h || (g == h && c < d)
}

/// The copy at position `(g, c)`.
pub open spec fn copy_at(p: ResolutionPlan, g: int, c: int) -> Candidate {
    p.groups@[g].candidates@[c]
}

/// Position `(g, c)` holds a copy.
pub open spec fn valid_at(p: ResolutionPlan, g: int, c: int) -> bool {
    0 <= g < p.groups@.len() && 0 <= c < p.groups@[g].candidates@.len()
}

/// `p` is `o` with the same groups and copies, each group's own fields kept.
pub open spec fn same_shape(p: ResolutionPlan, o: ResolutionPlan) -> bool {
    &&& p.id == o.id
    &&& p.selected_types == o.selected_types
    &&& p.created_at == o.created_at
    &&& p.reclaimable_bytes == o.reclaimable_bytes
    &&& p.groups@.len() == o.groups@.len()
    &&& forall|g: int|
        #![trigger p.groups@[g]]
        0 <= g < p.groups@.len() ==> {
            &&& p.groups@[g].id == o.groups@[g].id
            &&& p.groups@[g].exact_hash == o.groups@[g].exact_hash
            &&& p.groups@[g].winner_id == o.groups@[g].winner_id
            &&& p.groups@[g].reclaimable_bytes == o.groups@[g].reclaimable_bytes
            &&& p.groups@[g].candidates@.len() == o.groups@[g].candidates@.len()
        }
}

/// `p` is `o` with every copy before `(g0, c0)` settled and every other copy untouched.
pub open spec fn settled_before(p: ResolutionPlan, o: ResolutionPlan, g0: int, c0: int) -> bool {
    &&& same_shape(p, o)
    &&& forall|g: int, c: int|
        #![trigger copy_at(p, g, c)]
        valid_at(o, g, c) ==> if before(g, c, g0, c0) {
            settled(copy_at(p, g, c), copy_at(o, g, c))
        } else {
            copy_at(p, g, c) == copy_at(o, g, c)
        }
}

/// Every position from `(g0, c0)` up to `(g1, c1)` holds no queued copy of `p`.
pub open spec fn none_queued_between(p: ResolutionPlan, g0: int, c0: int, g1: int, c1: int) -> bool {
    forall|g: int, c: int|
        #![trigger copy_at(p, g, c)]
        valid_at(p, g, c) && !before(g, c, g0, c0) && before(g, c, g1, c1) ==> !is_queued(copy_at(p, g, c))
}

/// The application of a reviewed plan, copy by copy.
pub struct Applying {
    plan: ResolutionPlan,
    original: Ghost<ResolutionPlan>,
    group: usize,
    candidate: usize,
    quarantined: u64,
    failed: u64,
    moved_count: Ghost<nat>,
    failed_count: Ghost<nat>,
    checked: Ghost<bool>,
}

impl Applying {
    /// The plan as applied so far.
    pub closed spec fn plan(&self) -> ResolutionPlan {
        self.plan
    }

    /// The plan as it was reviewed.
    pub closed spec fn original(&self) -> ResolutionPlan {
        self.original@
    }

    /// The position of the next queued copy, or past the last group.
    pub closed spec fn position(&self) -> (int, int) {
        (self.group as int, self.candidate as int)
    }

    /// How many copies were moved to the quarantine.
    pub closed spec fn moved_count(&self) -> nat {
        self.moved_count@
    }

    /// How many copies were left in place.
    pub closed spec fn failed_count(&self) -> nat {
        self.failed_count@
    }

    /// The next queued copy's content was checked and found unchanged.
    pub closed spec fn content_checked(&self) -> bool {
        self.checked@
    }

    /// Every queued copy has been handled.
    pub open spec fn is_done(&self) -> bool {
        self.position().0 >= self.plan().groups@.len()
    }

    /// The next queued copy.
    pub open spec fn current_copy(&self) -> Candidate {
        copy_at(self.plan(), self.position().0, self.position().1)
    }

    spec fn cursor_ok(&self) -> bool {
        let (g, c) = (self.group as int, self.candidate as int);
        &&& g <= self.plan.groups@.len()
        &&& g < self.plan.groups@.len() ==> c < self.plan.groups@[g].candidates@.len() && is_queued(copy_at(self.plan, g, c))
        &&& g == self.plan.groups@.len() ==> c == 0
    }

    spec fn counts_ok(&self) -> bool {
        let (p, o) = (self.plan, self.original@);
        &&& p.status == o.status
        &&& p.queued_file_count == o.queued_file_count
        &&& p.dispositions@.len() == o.dispositions@.len() + self.moved_count@ + self.failed_count@
        &&& p.dispositions@.take(o.dispositions@.len() as int) == o.dispositions@
        &&& queued_total(p.groups@) + self.moved_count@ + self.failed_count@ == queued_total(o.groups@)
        &&& self.quarantined == self.moved_count@
        &&& self.failed == self.failed_count@
    }

    pub closed spec fn wf(&self) -> bool {
        &&& self.cursor_ok()
        &&& self.counts_ok()
        &&& settled_before(self.plan, self.original@, self.group as int, self.candidate as int)
    }
}

impl Applying {
    /// Moves to the first queued copy at or after the position.
    fn advance(&mut self)
        requires
            old(self).counts_ok(),
            settled_before(old(self).plan, old(self).original@, old(self).group as int, old(self).candidate as int),
            old(self).group <= old(self).plan.groups@.len(),
            old(self).group < old(self).plan.groups@.len() ==> old(self).candidate
                <= old(self).plan.groups@[old(self).group as int].candidates@.len(),
            old(self).group == old(self).plan.groups@.len() ==> old(self).candidate == 0,
        ensures
            final(self).wf(),
            final(self).plan == old(self).plan,
            final(self).original@ == old(self).original@,
            final(self).moved_count@ == old(self).moved_count@,
            final(self).failed_count@ == old(self).failed_count@,
            final(self).quarantined == old(self).quarantined,
            final(self).failed == old(self).failed,
            final(self).checked@ == old(self).checked@,
            !before(final(self).group as int, final(self).candidate as int, old(self).group as int, old(self).candidate as int),
            none_queued_between(old(self).plan, old(self).group as int, old(self).candidate as int,
                final(self).group as int, final(self).candidate as int),
    {
        let ghost (g0, c0) = (self.group as int, self.candidate as int);
        let n = self.plan.groups.len();
        while self.group < n
            invariant
                n == self.plan.groups@.len(),
                self.plan == old(self).plan,
                self.original@ == old(self).original@,
                self.moved_count@ == old(self).moved_count@,
                self.failed_count@ == old(self).failed_count@,
                self.quarantined == old(self).quarantined,
                self.failed == old(self).failed,
                self.checked@ == old(self).checked@,
                self.counts_ok(),
                settled_before(self.plan, self.original@, self.group as int, self.candidate as int),
                self.group <= n,
                self.group < n ==> self.candidate <= self.plan.groups@[self.group as int].candidates@.len(),
                self.group == n ==> self.candidate == 0,
                !before(self.group as int, self.candidate as int, g0, c0),
                none_queued_between(self.plan, g0, c0, self.group as int, self.candidate as int),
                g0 == old(self).group as int,
                c0 == old(self).candidate as int,
            decreases n - self.group,
        {
            let g = self.group;
            let m = self.plan.groups[g].candidates.len();
            while self.candidate < m
                invariant
                    n == self.plan.groups@.len(),
                    g == self.group,
                    g < n,
                    m == self.plan.groups@[g as int].candidates@.len(),
                    self.plan == old(self).plan,
                    self.original@ == old(self).original@,
                    self.moved_count@ == old(self).moved_count@,
                    self.failed_count@ == old(self).failed_count@,
                    self.quarantined == old(self).quarantined,
                    self.failed == old(self).failed,
                    self.checked@ == old(self).checked@,
                    self.counts_ok(),
                    settled_before(self.plan, self.original@, g as int, self.candidate as int),
                    self.candidate <= m,
                    !before(g as int, self.candidate as int, g0, c0),
                    none_queued_between(self.plan, g0, c0, g as int, self.candidate as int),
                    g0 == old(self).group as int,
                    c0 == old(self).candidate as int,
                decreases m - self.candidate,
            {
                let c = self.candidate;
                if str_eq(self.plan.groups[g].candidates[c].disposition.as_str(), QUEUED_FOR_QUARANTINE) {
                    return;
                }
                proof {
                    let (p, o) = (self.plan, self.original@);
                    assert(copy_at(p, g as int, c as int) == copy_at(o, g as int, c as int));
                    assert forall|h: int, d: int|
                        #![trigger copy_at(p, h, d)]
                        valid_at(o, h, d) implies if before(h, d, g as int, c + 1) {
                            settled(copy_at(p, h, d), copy_at(o, h, d))
                        } else {
                            copy_at(p, h, d) == copy_at(o, h, d)
                        } by {
                        if h == g && d == c {
                        }
                    }
                    assert forall|h: int, d: int|
                        #![trigger copy_at(p, h, d)]
                        valid_at(p, h, d) && !before(h, d, g0, c0) && before(h, d, g as int, c + 1) implies !is_queued(
                            copy_at(p, h, d),
                        ) by {
                        if h == g && d == c {
                        }
                    }
                }
                self.candidate = c + 1;
            }
            proof {
                let (p, o) = (self.plan, self.original@);
                assert forall|h: int, d: int|
                    #![trigger copy_at(p, h, d)]
                    valid_at(o, h, d) implies if before(h, d, g + 1, 0) {
                        settled(copy_at(p, h, d), copy_at(o, h, d))
                    } else {
                        copy_at(p, h, d) == copy_at(o, h, d)
                    } by {
                    assert(same_shape(p, o));
                    if h == g {
                        assert(p.groups@[h].candidates@.len() == o.groups@[h].candidates@.len());
                    }
                }
                assert forall|h: int, d: int|
                    #![trigger copy_at(p, h, d)]
                    valid_at(p, h, d) && !before(h, d, g0, c0) && before(h, d, g + 1, 0) implies !is_queued(
                        copy_at(p, h, d),
                    ) by {
                    if h == g {
                    }
                }
            }
            self.group = g + 1;
            self.candidate = 0;
        }
    }

    /// The next queued copy, if any remains.
    pub fn current(&self) -> (c: Option<&Candidate>)
        requires
            self.wf(),
        ensures
            c is Some <==> !self.is_done(),
            c matches Some(x) ==> *x == self.current_copy(),
    {
        if self.group < self.plan.groups.len() {
            Some(&self.plan.groups[self.group].candidates[self.candidate])
        } else {
            None
        }
    }

    /// Checks the digest of the next queued copy as it now is against the
    /// digest under which it was reviewed; a copy may be moved only after
    /// this check passed.
    pub fn verify_content(&mut self, digest: &str) -> (r: Result<(), String>)
        requires
            old(self).wf(),
            !old(self).is_done(),
        ensures
            r is Ok <==> digest@ == old(self).current_copy().exact_hash@,
            r matches Err(e) ==> e@ == CONTENT_CHANGED@,
            final(self).content_checked() == (r is Ok),
            final(self).wf(),
            final(self).plan() == old(self).plan(),
            final(self).original() == old(self).original(),
            final(self).position() == old(self).position(),
            final(self).moved_count() == old(self).moved_count(),
            final(self).failed_count() == old(self).failed_count(),
    {
        let same = str_eq(digest, self.plan.groups[self.group].candidates[self.candidate].exact_hash.as_str());
        proof {
            self.checked = Ghost(same);
        }
        if same {
            Ok(())
        } else {
            Err(owned(CONTENT_CHANGED))
        }
    }
}

/// Starts applying the current plan: there must be one, with the reviewed
/// id, ready for review. The application starts at the first queued copy.
pub fn begin_apply(current: Option<ResolutionPlan>, plan_id: &str) -> (r: Result<Applying, String>)
    ensures
        current is None ==> (r matches Err(e) && e@ == NO_PLAN@),
        current matches Some(p) && !(p.id@ == plan_id@ && p.status@ == STATUS_READY@) ==> (r matches Err(e) && e@
            == STALE_PLAN@),
        current is Some && current->0.id@ == plan_id@ && current->0.status@ == STATUS_READY@ ==> (r matches Ok(a) && {
            &&& a.wf()
            &&& a.original() == current->0
            &&& a.plan() == current->0
            &&& a.moved_count() == 0
            &&& a.failed_count() == 0
            &&& !a.content_checked()
            &&& none_queued_between(current->0, 0, 0, a.position().0, a.position().1)
        }),
{
    let plan = match current {
        Some(p) => p,
        None => return Err(owned(NO_PLAN)),
    };
    if !(str_eq(plan.id.as_str(), plan_id) && str_eq(plan.status.as_str(), STATUS_READY)) {
        return Err(owned(STALE_PLAN));
    }
    let ghost o = plan;
    let mut a = Applying {
        plan,
        original: Ghost(o),
        group: 0,
        candidate: 0,
        quarantined: 0,
        failed: 0,
        moved_count: Ghost(0),
        failed_count: Ghost(0),
        checked: Ghost(false),
    };
    proof {
        assert(o.dispositions@.take(o.dispositions@.len() as int) =~= o.dispositions@);
    }
    a.advance();
    Ok(a)
}

impl Applying {
    /// Records what happened to the next queued copy: moved to
    /// `destination`, or left in place for an error. Either way an audit
    /// record for `source`, the copy's path, is appended, and the
    /// application moves on to the following queued copy.
    #[verifier::rlimit(40)]
    pub fn record(&mut self, outcome: Result<String, String>, source: &FilePath, occurred_at: String)
        requires
            old(self).wf(),
            !old(self).is_done(),
            source.text@ == old(self).current_copy().file_path@,
            outcome is Ok ==> old(self).content_checked(),
        ensures
            !final(self).content_checked(),
            final(self).wf(),
            final(self).original() == old(self).original(),
            same_shape(final(self).plan(), old(self).plan()),
            forall|g: int, c: int|
                #![trigger copy_at(final(self).plan(), g, c)]
                valid_at(old(self).plan(), g, c) && (g, c) != old(self).position() ==> copy_at(final(self).plan(), g, c)
                    == copy_at(old(self).plan(), g, c),
            match outcome {
                Ok(d) => {
                    &&& moved(copy_at(final(self).plan(), old(self).position().0, old(self).position().1), old(self).current_copy(), d)
                    &&& final(self).moved_count() == old(self).moved_count() + 1
                    &&& final(self).failed_count() == old(self).failed_count()
                    &&& records(final(self).plan().dispositions@.last(), *source, QUARANTINED@, QUARANTINED_DETAIL@)
                },
                Err(e) => {
                    &&& left_in_place(copy_at(final(self).plan(), old(self).position().0, old(self).position().1), old(self).current_copy(), e)
                    &&& final(self).moved_count() == old(self).moved_count()
                    &&& final(self).failed_count() == old(self).failed_count() + 1
                    &&& records(final(self).plan().dispositions@.last(), *source, FAILED@, e@)
                },
            },
            final(self).plan().dispositions@.drop_last() == old(self).plan().dispositions@,
            final(self).plan().dispositions@.last().occurred_at == occurred_at,
            final(self).plan().dispositions@.len() == old(self).plan().dispositions@.len() + 1,
            before(old(self).position().0, old(self).position().1, final(self).position().0, final(self).position().1),
            none_queued_between(final(self).plan(), old(self).position().0, old(self).position().1 + 1,
                final(self).position().0, final(self).position().1),
    {
        let g = self.group;
        let c = self.candidate;
        let m = self.plan.groups[g].candidates.len();
        let ghost p0 = self.plan;
        let ghost o = self.original@;
        let ghost old_copy = copy_at(p0, g as int, c as int);
        let ghost d0 = self.plan.dispositions@;
        let ghost out = outcome;
        let ghost moved0 = self.moved_count@;
        let ghost failed0 = self.failed_count@;
        match outcome {
            Ok(destination) => {
                let copy = &mut self.plan.groups[g].candidates[c];
                copy.disposition = owned(QUARANTINED);
                copy.disposition_detail = owned(QUARANTINED_DETAIL);
                copy.quarantine_path = Some(destination);
                append_disposition(&mut self.plan.dispositions, source, QUARANTINED, owned(QUARANTINED_DETAIL), occurred_at);
                let recorded = self.plan.dispositions.len();
                assert(recorded as nat == self.plan.dispositions@.len());
                self.quarantined = self.quarantined + 1;
                proof {
                    self.moved_count = Ghost(moved0 + 1);
                }
            },
            Err(error) => {
                let copy = &mut self.plan.groups[g].candidates[c];
                copy.disposition = owned(FAILED);
                copy.disposition_detail = error.clone();
                append_disposition(&mut self.plan.dispositions, source, FAILED, error, occurred_at);
                let recorded = self.plan.dispositions.len();
                assert(recorded as nat == self.plan.dispositions@.len());
                self.failed = self.failed + 1;
                proof {
                    self.failed_count = Ghost(failed0 + 1);
                }
            },
        }
        proof {
            let p = self.plan;
            let new_copy = copy_at(p, g as int, c as int);
            let new_group = p.groups@[g as int];
            assert(p.groups@ == p0.groups@.update(g as int, new_group));
            assert(new_group.candidates@ == p0.groups@[g as int].candidates@.update(c as int, new_copy));
            lemma_queued_in_update(p0.groups@[g as int].candidates@, c as int, new_copy);
            lemma_queued_total_update(p0.groups@, g as int, new_group);
            lemma_settled_not_queued(new_copy, old_copy);
            assert(settled(new_copy, old_copy));
            assert(p.dispositions@.take(o.dispositions@.len() as int) =~= o.dispositions@) by {
                assert(p0.dispositions@.take(o.dispositions@.len() as int) == o.dispositions@);
                assert(p.dispositions@.drop_last() == p0.dispositions@);
                assert(p.dispositions@.take(o.dispositions@.len() as int) =~= p0.dispositions@.take(o.dispositions@.len() as int));
            }
            assert forall|h: int, d: int|
                #![trigger copy_at(p, h, d)]
                valid_at(o, h, d) implies if before(h, d, g as int, c + 1) {
                    settled(copy_at(p, h, d), copy_at(o, h, d))
                } else {
                    copy_at(p, h, d) == copy_at(o, h, d)
                } by {
                if h != g || d != c {
                    assert(copy_at(p, h, d) == copy_at(p0, h, d));
                }
            }
        }
        self.candidate = c + 1;
        proof {
            self.checked = Ghost(false);
        }
        self.advance();
    }

    /// Ends the application: the plan is applied to the quarantine, or
    /// partially applied where a copy was left in place; the queued copies
    /// are counted again; the runtime reports the numbers of moved and
    /// left copies and holds the plan.
    pub fn finish(self, runtime: &mut Runtime)
        requires
            self.wf(),
            self.is_done(),
        ensures
            final(runtime).plan matches Some(p) && {
                &&& p.status@ == if self.failed_count() == 0 {
                    STATUS_APPLIED@
                } else {
                    STATUS_PARTIAL@
                }
                &&& p.queued_file_count == 0
                &&& p.id == self.plan().id
                &&& p.selected_types == self.plan().selected_types
                &&& p.created_at == self.plan().created_at
                &&& p.groups == self.plan().groups
                &&& p.reclaimable_bytes == self.plan().reclaimable_bytes
                &&& p.dispositions == self.plan().dispositions
            },
            final(runtime).progress.message@ == APPLIED_PREFIX@ + decimal(self.moved_count()) + APPLIED_MIDDLE@
                + decimal(self.failed_count()) + APPLIED_SUFFIX@,
            final(runtime).progress.scanning == old(runtime).progress.scanning,
            final(runtime).progress.phase == old(runtime).progress.phase,
            final(runtime).progress.current == old(runtime).progress.current,
            final(runtime).progress.total == old(runtime).progress.total,
            final(runtime).progress.percentage == old(runtime).progress.percentage,
            final(runtime).progress.current_path == old(runtime).progress.current_path,
            final(runtime).progress.files_considered == old(runtime).progress.files_considered,
            final(runtime).progress.error == old(runtime).progress.error,
            final(runtime).cancel_requested == old(runtime).cancel_requested,
            final(runtime).source_scope == old(runtime).source_scope,
    {
        let ghost p0 = self.plan;
        let ghost o = self.original@;
        proof {
            assert forall|g: int, c: int|
                0 <= g < p0.groups@.len() && 0 <= c < p0.groups@[g].candidates@.len() implies !is_queued(
                    #[trigger] p0.groups@[g].candidates@[c],
                ) by {
                assert(valid_at(o, g, c));
                assert(settled(copy_at(p0, g, c), copy_at(o, g, c)));
                lemma_settled_not_queued(copy_at(p0, g, c), copy_at(o, g, c));
            }
            lemma_none_queued_total(p0.groups@);
        }
        let mut plan = self.plan;
        plan.status = if self.failed == 0 {
            owned(STATUS_APPLIED)
        } else {
            owned(STATUS_PARTIAL)
        };
        plan.queued_file_count = count_queued(&plan.groups);
        let mut message = owned(APPLIED_PREFIX);
        push_decimal(&mut message, self.quarantined);
        message.append(APPLIED_MIDDLE);
        push_decimal(&mut message, self.failed);
        message.append(APPLIED_SUFFIX);
        runtime.progress.message = message;
        runtime.plan = Some(plan);
    }
}

/// Once every queued copy has been handled, each copy that was queued has
/// been moved or left in place, every other copy is as it was, none remains
/// queued, and the moved and the left copies together are exactly the
/// copies that were queued.
pub proof fn lemma_application_settles_every_copy(a: Applying)
    requires
        a.wf(),
        a.is_done(),
    ensures
        same_shape(a.plan(), a.original()),
        forall|g: int, c: int|
            #![trigger copy_at(a.plan(), g, c)]
            valid_at(a.original(), g, c) ==> settled(copy_at(a.plan(), g, c), copy_at(a.original(), g, c)),
        queued_total(a.plan().groups@) == 0,
        a.moved_count() + a.failed_count() == queued_total(a.original().groups@),
{
    let (p, o) = (a.plan, a.original@);
    assert forall|g: int, c: int|
        0 <= g < p.groups@.len() && 0 <= c < p.groups@[g].candidates@.len() implies !is_queued(
            #[trigger] p.groups@[g].candidates@[c],
        ) by {
        assert(valid_at(o, g, c));
        assert(settled(copy_at(p, g, c), copy_at(o, g, c)));
        lemma_settled_not_queued(copy_at(p, g, c), copy_at(o, g, c));
    }
    lemma_none_queued_total(p.groups@);
}

/// In a group ranked into a plan every copy after the first is queued for
/// quarantine and the first is not: the number of copies after the first is
/// the number of queued copies.
pub proof fn lemma_queued_count_is_queued(g: DuplicateGroup, ranked: Seq<KeyedFile>)
    requires
        ranked_group(g, ranked),
    ensures
        queued_count(g.candidates@) == queued_in(g.candidates@),
{
    reveal_strlit("retain");
    reveal_strlit("queued_for_quarantine");
    assert(RETAIN@.len() == 6);
    assert(QUEUED_FOR_QUARANTINE@.len() == 21);
    lemma_counts_agree(g.candidates@, g.candidates@.len() as int);
    assert(g.candidates@.take(g.candidates@.len() as int) =~= g.candidates@);
}

proof fn lemma_counts_agree(cs: Seq<Candidate>, n: int)
    requires
        RETAIN@ != QUEUED_FOR_QUARANTINE@,
        0 <= n <= cs.len(),
        forall|i: int| #![trigger cs[i]] 0 <= i < cs.len() ==> disposed(cs[i], i == 0),
    ensures
        queued_in(cs.take(n)) == if n == 0 { 0 } else { n - 1 },
    decreases n,
{
    if n > 0 {
        lemma_counts_agree(cs, n - 1);
        assert(cs.take(n).drop_last() =~= cs.take(n - 1));
        assert(disposed(cs[n - 1], n - 1 == 0));
    } else {
        assert(cs.take(0) =~= Seq::<Candidate>::empty());
    }
}

/// The queued count of a plan built by ranking is the number of copies
/// that the plan queues for quarantine.
pub proof fn lemma_plan_queued_is_queued(groups: Seq<DuplicateGroup>, ranked: Seq<Seq<KeyedFile>>)
    requires
        groups.len() == ranked.len(),
        forall|g: int| #![trigger groups[g]] 0 <= g < groups.len() ==> ranked_group(groups[g], ranked[g]),
    ensures
        plan_queued(groups) == queued_total(groups),
    decreases groups.len(),
{
    if groups.len() > 0 {
        let n = groups.len() - 1;
        lemma_plan_queued_is_queued(groups.drop_last(), ranked.drop_last());
        assert(ranked_group(groups[n], ranked[n]));
        lemma_queued_count_is_queued(groups[n], ranked[n]);
    }
}

} // verus!
