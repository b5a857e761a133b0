//! The apply loop's decisions.
//!
//! Per item, in this order, and the order is the safety property:
//!
//! 1. the directory is pinned;
//! 2. the entry now at the source name must still be the entry the walk saw;
//! 3. nothing new may occupy the destination;
//! 4. an `intent` record is made durable -- never a rename before it;
//! 5. the no-clobber rename, then `done` or `failed`.
//!
//! The binary performs each step; the functions here take each step's answer
//! and say what comes next, and keep the batch's tally.

use vstd::prelude::*;
use crate::fsops::{RenameErr, err_text, same_entry, same_entry_spec};
use crate::journal::{UndoItem, UndoView, inverse_item, undo_views};
use crate::plan::{
    Ident, ItemView, PlanItem, Resolution, dir_view, item_views, path_bytes, path_text, push_path,
    push_path_bytes,
};
use crate::report::{escape_bytes, escape_spec};
use crate::text::{chars_of, push_all, string_of};

verus! {

/// What happened to one item.
#[derive(Debug, Clone, PartialEq, Eq)]
pub enum ItemResult {
    /// Renamed on disk, and recorded as such in the journal.
    Renamed,
    /// Not a `Rename` in the plan, or the batch ended before reaching it.
    NotAttempted,
    /// Attempted and refused, with the reason as reported.
    Failed(String),
}

pub enum ResultView {
    Renamed,
    NotAttempted,
    Failed(Seq<char>),
}

impl View for ItemResult {
    type V = ResultView;

    open spec fn view(&self) -> ResultView {
        match self {
            ItemResult::Renamed => ResultView::Renamed,
            ItemResult::NotAttempted => ResultView::NotAttempted,
            ItemResult::Failed(s) => ResultView::Failed(s@),
        }
    }
}

pub open spec fn result_views(v: Seq<ItemResult>) -> Seq<ResultView> {
    v.map_values(|r: ItemResult| r@)
}

/// How many outcomes are renames.
pub open spec fn count_renamed(v: Seq<ResultView>) -> nat
    decreases v.len(),
{
    if v.len() == 0 {
        0
    } else {
        count_renamed(v.drop_last()) + if v.last() is Renamed {
            1nat
        } else {
            0nat
        }
    }
}

/// How many outcomes are failures.
pub open spec fn count_failed(v: Seq<ResultView>) -> nat
    decreases v.len(),
{
    if v.len() == 0 {
        0
    } else {
        count_failed(v.drop_last()) + if v.last() is Failed {
            1nat
        } else {
            0nat
        }
    }
}

/// How many outcomes are not yet decided.
pub open spec fn count_open(v: Seq<ResultView>) -> nat
    decreases v.len(),
{
    if v.len() == 0 {
        0
    } else {
        count_open(v.drop_last()) + if v.last() is NotAttempted {
            1nat
        } else {
            0nat
        }
    }
}

proof fn lemma_counts_sum(v: Seq<ResultView>)
    ensures
        count_renamed(v) + count_failed(v) + count_open(v) == v.len(),
    decreases v.len(),
{
    if v.len() > 0 {
        lemma_counts_sum(v.drop_last());
    }
}

/// Replacing an open outcome by `r` moves one count.
proof fn lemma_counts_update(v: Seq<ResultView>, i: int, r: ResultView)
    requires
        0 <= i < v.len(),
        v[i] is NotAttempted,
    ensures
        count_open(v.update(i, r)) + 1 == count_open(v) + (if r is NotAttempted {
            1int
        } else {
            0int
        }),
        count_renamed(v.update(i, r)) == count_renamed(v) + (if r is Renamed {
            1int
        } else {
            0int
        }),
        count_failed(v.update(i, r)) == count_failed(v) + (if r is Failed {
            1int
        } else {
            0int
        }),
    decreases v.len(),
{
    let u = v.update(i, r);
    if i == v.len() - 1 {
        assert(u.drop_last() =~= v.drop_last());
    } else {
        lemma_counts_update(v.drop_last(), i, r);
        assert(u.drop_last() =~= v.drop_last().update(i, r));
    }
}

/// What the apply loop does next, given whether the batch has ended and the
/// item's resolution.
pub open spec fn next_spec(ended: bool, resolution: Resolution) -> Next {
    if ended {
        Next::Stop
    } else if resolution != Resolution::Rename {
        Next::Skip
    } else {
        Next::Attempt
    }
}

/// Why the batch ended, after recording one more outcome: a failure that
/// ends the batch says so, and nothing else changes the answer.
pub open spec fn aborted_after(before: Option<String>, r: Result<(), Failure>) -> Option<String> {
    match r {
        Err(Failure::Batch(why)) => Some(why),
        _ => before,
    }
}

/// One message, not one per entry: once a failure has ended the batch, no
/// later item is attempted, whatever is recorded after it.
pub proof fn law_an_ended_batch_attempts_nothing(
    before: Option<String>,
    r: Result<(), Failure>,
    resolution: Resolution,
)
    requires
        before is Some || r matches Err(Failure::Batch(_)),
    ensures
        aborted_after(before, r) is Some,
        next_spec(aborted_after(before, r) is Some, resolution) == Next::Stop,
{
}

/// What happened to the batch.
#[derive(Debug)]
pub struct Summary {
    /// One entry per input item, in the input's order.
    pub outcomes: Vec<ItemResult>,
    /// How many renames happened.
    pub renamed: usize,
    /// How many items were attempted and refused.
    pub failed: usize,
    /// Why the rest of the batch was skipped, if it was.
    pub aborted: Option<String>,
}

impl Summary {
    /// The tally agrees with the outcomes.
    pub open spec fn wf(&self) -> bool {
        &&& self.renamed as nat == count_renamed(result_views(self.outcomes@))
        &&& self.failed as nat == count_failed(result_views(self.outcomes@))
    }

    /// A batch of `n` items, none attempted yet.
    pub fn new(n: usize) -> (s: Self)
        ensures
            s.wf(),
            s.outcomes@.len() == n,
            forall|i: int| 0 <= i < n ==> #[trigger] s.outcomes@[i]@ is NotAttempted,
            s.renamed == 0,
            s.failed == 0,
            s.aborted is None,
    {
        let mut outcomes: Vec<ItemResult> = Vec::new();
        let mut i: usize = 0;
        while i < n
            invariant
                0 <= i <= n,
                outcomes@.len() == i,
                forall|j: int| 0 <= j < i ==> #[trigger] outcomes@[j]@ is NotAttempted,
                count_renamed(result_views(outcomes@)) == 0,
                count_failed(result_views(outcomes@)) == 0,
            decreases n - i,
        {
            let ghost before = outcomes@;
            outcomes.push(ItemResult::NotAttempted);
            assert(result_views(outcomes@).drop_last() =~= result_views(before));
            i += 1;
        }
        Summary { outcomes, renamed: 0, failed: 0, aborted: None }
    }

    /// `0` when every attempted item succeeded and nothing aborted, `1`
    /// otherwise. (`2` is for usage, walk and plan errors, which happen before
    /// a batch exists.)
    pub fn exit_code(&self) -> (c: u8)
        ensures
            c == (if self.failed > 0 || self.aborted is Some {
                1u8
            } else {
                0u8
            }),
    {
        if self.failed > 0 || self.aborted.is_some() {
            1
        } else {
            0
        }
    }

    /// What to do with the next item: stop once the batch has ended, leave
    /// alone anything the plan does not rename, attempt the rest.
    pub fn next(&self, item: &PlanItem) -> (n: Next)
        ensures
            n == next_spec(self.aborted is Some, item.resolution),
    {
        if self.aborted.is_some() {
            Next::Stop
        } else if item.resolution != Resolution::Rename {
            Next::Skip
        } else {
            Next::Attempt
        }
    }

    /// Record the outcome of attempting item `i`.
    pub fn record(&mut self, i: usize, r: Result<(), Failure>)
        requires
            old(self).wf(),
            i < old(self).outcomes@.len(),
            old(self).outcomes@[i as int]@ is NotAttempted,
        ensures
            final(self).wf(),
            final(self).outcomes@.len() == old(self).outcomes@.len(),
            forall|j: int|
                0 <= j < old(self).outcomes@.len() && j != i ==> #[trigger] final(self).outcomes@[j]
                    == old(self).outcomes@[j],
            final(self).outcomes@[i as int]@ == (match r {
                Ok(()) => ResultView::Renamed,
                Err(Failure::Item(why)) => ResultView::Failed(why@),
                Err(Failure::Batch(why)) => ResultView::Failed(why@),
            }),
            final(self).aborted == aborted_after(old(self).aborted, r),
    {
        let ghost v = result_views(self.outcomes@);
        let _len = self.outcomes.len();
        proof {
            lemma_counts_sum(v);
            assert(v[i as int] is NotAttempted);
            lemma_counts_update(v, i as int, ResultView::Renamed);
        }
        let res = match &r {
            Ok(()) => ItemResult::Renamed,
            Err(Failure::Item(why)) => ItemResult::Failed(why.clone()),
            Err(Failure::Batch(why)) => ItemResult::Failed(why.clone()),
        };
        let ghost rv = res@;
        proof {
            lemma_counts_update(v, i as int, rv);
        }
        match &r {
            Ok(()) => {
                self.renamed = self.renamed + 1;
            },
            _ => {
                self.failed = self.failed + 1;
            },
        }
        self.outcomes.set(i, res);
        assert(result_views(self.outcomes@) =~= v.update(i as int, rv));
        match r {
            Err(Failure::Batch(why)) => {
                self.aborted = Some(why);
            },
            _ => {},
        }
    }
}

/// What the apply loop does with an item.
#[derive(Debug, Clone, Copy, PartialEq, Eq, Structural)]
pub enum Next {
    /// The batch has ended: attempt nothing more.
    Stop,
    /// Leave this item alone: the plan does not rename it.
    Skip,
    /// Attempt this item's rename.
    Attempt,
}

/// A per-item failure, or one that ends the batch.
#[derive(Debug, Clone, PartialEq, Eq)]
pub enum Failure {
    /// This item failed; the batch goes on.
    Item(String),
    /// This item failed, and so would every remaining one.
    Batch(String),
}

/// Where an item's attempt stands after its last answer.
#[derive(Debug, Clone, PartialEq, Eq)]
pub enum Step {
    /// Look up the entry now at the source name.
    CheckSource,
    /// Look up what, if anything, now occupies the destination.
    CheckDest,
    /// Write the intent record, durably.
    WriteIntent,
    /// Rename, without clobbering.
    Rename,
    /// Record `done` and report the line: the item is renamed.
    Renamed,
    /// Record `failed` with this error; the item failed this way.
    RecordFailure(RenameErr, Failure),
    /// The item failed this way; nothing to record.
    Failed(Failure),
}

pub enum FailureView {
    Item(Seq<char>),
    Batch(Seq<char>),
}

impl View for Failure {
    type V = FailureView;

    open spec fn view(&self) -> FailureView {
        match self {
            Failure::Item(s) => FailureView::Item(s@),
            Failure::Batch(s) => FailureView::Batch(s@),
        }
    }
}

pub enum StepView {
    CheckSource,
    CheckDest,
    WriteIntent,
    Rename,
    Renamed,
    RecordFailure(RenameErr, FailureView),
    Failed(FailureView),
}

impl View for Step {
    type V = StepView;

    open spec fn view(&self) -> StepView {
        match self {
            Step::CheckSource => StepView::CheckSource,
            Step::CheckDest => StepView::CheckDest,
            Step::WriteIntent => StepView::WriteIntent,
            Step::Rename => StepView::Rename,
            Step::Renamed => StepView::Renamed,
            Step::RecordFailure(e, f) => StepView::RecordFailure(*e, f@),
            Step::Failed(f) => StepView::Failed(f@),
        }
    }
}

fn lit_then(a: &str, b: &String) -> (r: String)
    ensures
        r@ == a@ + b@,
{
    let mut out = chars_of(a);
    let bc = chars_of(b.as_str());
    push_all(&mut out, &bc);
    string_of(&out)
}

fn then_lit(b: &String, c: &str) -> (r: String)
    ensures
        r@ == b@ + c@,
{
    let mut out = chars_of(b.as_str());
    let cc = chars_of(c);
    push_all(&mut out, &cc);
    string_of(&out)
}

fn text_then(a: &str, b: &String, c: &str) -> (r: String)
    ensures
        r@ == a@ + b@ + c@,
{
    let mut out = chars_of(a);
    let bc = chars_of(b.as_str());
    push_all(&mut out, &bc);
    let cc = chars_of(c);
    push_all(&mut out, &cc);
    string_of(&out)
}

/// The step after pinning the directory.
pub open spec fn open_step(r: Result<(), RenameErr>) -> StepView {
    match r {
        Ok(()) => StepView::CheckSource,
        Err(e) => StepView::Failed(
            FailureView::Item("cannot open the containing directory: "@ + err_text(e)),
        ),
    }
}

/// After pinning the directory.
pub fn after_open(r: Result<(), RenameErr>) -> (s: Step)
    ensures
        s@ == open_step(r),
{
    match r {
        Ok(()) => Step::CheckSource,
        Err(e) => Step::Failed(
            Failure::Item(lit_then("cannot open the containing directory: ", &e.message())),
        ),
    }
}

/// The step after looking up the source name.
pub open spec fn source_step(recorded: Ident, r: Result<Ident, RenameErr>) -> StepView {
    match r {
        Err(e) => StepView::Failed(
            FailureView::Item("no longer readable since the preview: "@ + err_text(e)),
        ),
        Ok(fresh) => if same_entry_spec(fresh, recorded) {
            StepView::CheckDest
        } else {
            StepView::Failed(
                FailureView::Item(
                    "changed since the preview (a different file now has this name); not renamed"@,
                ),
            )
        },
    }
}

/// The source check is by identity, device and inode, alone: the entry the
/// walk recorded passes whatever its modification time or link count now
/// is (renaming a directory's child changes the directory's mtime; an undo
/// item carries no mtime at all), and any other entry, or a failed lookup,
/// stops the item before its intent is written.
pub proof fn law_source_is_checked_by_dev_and_ino(
    recorded: Ident,
    fresh: Ident,
    e: RenameErr,
)
    ensures
        source_step(recorded, Ok(fresh)) == StepView::CheckDest <==> (fresh.dev == recorded.dev
            && fresh.ino == recorded.ino),
        source_step(recorded, Ok(fresh)) != StepView::CheckDest ==> source_step(
            recorded,
            Ok(fresh),
        ) is Failed,
        source_step(recorded, Err(e)) is Failed,
{
}

/// After looking up the source name: it must still be the entry the walk
/// recorded, or something else now has this name.
pub fn after_source(recorded: Ident, r: Result<Ident, RenameErr>) -> (s: Step)
    ensures
        s@ == source_step(recorded, r),
{
    match r {
        Err(e) => Step::Failed(
            Failure::Item(lit_then("no longer readable since the preview: ", &e.message())),
        ),
        Ok(fresh) => if same_entry(fresh, recorded) {
            Step::CheckDest
        } else {
            Step::Failed(
                Failure::Item(
                    String::from_str(
                        "changed since the preview (a different file now has this name); not renamed",
                    ),
                ),
            )
        },
    }
}

/// The step after looking up the destination.
pub open spec fn dest_step(item: ItemView, occupant: Option<Ident>) -> StepView {
    match occupant {
        Some(o) => if same_entry_spec(o, item.ident) {
            StepView::WriteIntent
        } else {
            StepView::Failed(
                FailureView::Item(escape_spec(item.to) + " appeared since the preview; not renamed"@),
            )
        },
        None => StepView::WriteIntent,
    }
}

/// The destination check is by identity too: nothing there, or the entry
/// itself under another spelling (same device and inode, whatever its
/// mtime or link count), lets the intent be written; anything else stops
/// the item.
pub proof fn law_dest_is_checked_by_dev_and_ino(item: ItemView, o: Ident)
    ensures
        dest_step(item, None) == StepView::WriteIntent,
        dest_step(item, Some(o)) == StepView::WriteIntent <==> (o.dev == item.ident.dev && o.ino
            == item.ident.ino),
        dest_step(item, Some(o)) != StepView::WriteIntent ==> dest_step(item, Some(o)) is Failed,
{
}

/// After looking up the destination: anything there that is not the entry
/// itself appeared since the walk. (A same-entry respell -- case only, or
/// NFD to NFC -- is no occupant.) `None` means nothing answered there.
pub fn after_dest(item: &PlanItem, occupant: Option<Ident>) -> (s: Step)
    ensures
        s@ == dest_step(item@, occupant),
{
    match occupant {
        Some(o) => if same_entry(o, item.ident) {
            Step::WriteIntent
        } else {
            let shown = escape_bytes(&item.to);
            Step::Failed(Failure::Item(then_lit(&shown, " appeared since the preview; not renamed")))
        },
        None => Step::WriteIntent,
    }
}

/// The step after writing the intent record; `Err` holds the write error's
/// text.
pub open spec fn intent_step(r: Result<(), Seq<char>>) -> StepView {
    match r {
        Ok(()) => StepView::Rename,
        Err(e) => StepView::Failed(
            FailureView::Batch(
                "cannot record the undo journal ("@ + e
                    + "); the batch stops here rather than renaming something it could not record. Nothing was renamed for this item."@,
            ),
        ),
    }
}

/// After writing the intent record. A journal that cannot be written ends the
/// batch before anything moves: an unjournaled rename is the one thing undo
/// cannot reverse. `Err` carries the write error's text.
pub fn after_intent(r: &Result<(), String>) -> (s: Step)
    ensures
        s@ == intent_step(
            match r {
                Ok(()) => Ok(()),
                Err(e) => Err(e@),
            },
        ),
        s@ is Rename <==> r is Ok,
{
    match r {
        Ok(()) => Step::Rename,
        Err(e) => Step::Failed(
            Failure::Batch(
                text_then(
                    "cannot record the undo journal (",
                    e,
                    "); the batch stops here rather than renaming something it could not record. Nothing was renamed for this item.",
                ),
            ),
        ),
    }
}

/// The step after the rename.
pub open spec fn rename_step(r: Result<(), RenameErr>) -> StepView {
    match r {
        Ok(()) => StepView::Renamed,
        Err(e) => StepView::RecordFailure(
            e,
            if e == RenameErr::ReadOnlyFilesystem || e == RenameErr::NoSpace {
                FailureView::Batch(
                    err_text(e)
                        + "; every remaining item would fail the same way, so the rest of the batch was not attempted"@,
                )
            } else {
                FailureView::Item(err_text(e))
            },
        ),
    }
}

/// The journal protocol's order, which is the apply loop's safety property:
/// the rename is reached only from a successfully written intent record,
/// nothing before that point can lead to it, and whatever the rename answers
/// is recorded (`done` after `Renamed`, `failed` after `RecordFailure`).
/// Checks fail before the intent, so a refused item leaves no record.
pub proof fn law_intent_before_rename(
    opened: Result<(), RenameErr>,
    recorded: Ident,
    source: Result<Ident, RenameErr>,
    item: ItemView,
    occupant: Option<Ident>,
    intent: Result<(), Seq<char>>,
    renamed: Result<(), RenameErr>,
)
    ensures
        open_step(opened) is CheckSource || open_step(opened) is Failed,
        source_step(recorded, source) is CheckDest || source_step(recorded, source) is Failed,
        dest_step(item, occupant) is WriteIntent || dest_step(item, occupant) is Failed,
        intent_step(intent) is Rename <==> intent is Ok,
        intent_step(intent) is Rename || intent_step(intent) is Failed,
        rename_step(renamed) is Renamed <==> renamed is Ok,
        rename_step(renamed) is Renamed || rename_step(renamed) is RecordFailure,
{
}

/// After the rename. A failure is recorded, and ends the batch when every
/// remaining item would fail the same way.
pub fn after_rename(r: Result<(), RenameErr>) -> (s: Step)
    ensures
        s@ == rename_step(r),
{
    match r {
        Ok(()) => Step::Renamed,
        Err(e) => {
            let why = e.message();
            if e.aborts_batch() {
                Step::RecordFailure(
                    e,
                    Failure::Batch(
                        then_lit(
                            &why,
                            "; every remaining item would fail the same way, so the rest of the batch was not attempted",
                        ),
                    ),
                )
            } else {
                Step::RecordFailure(e, Failure::Item(why))
            }
        },
    }
}

/// The path an item names: its directory joined with its current name.
pub open spec fn item_path(item: ItemView) -> Seq<u8> {
    push_path(path_bytes(item.dir), item.from)
}

/// The line the report prints for a completed rename.
pub fn progress_line(item: &PlanItem) -> (r: String)
    ensures
        r@ == escape_spec(item_path(item@)) + "  ->  "@ + escape_spec(item.to@),
{
    let dir = path_text(&item.dir);
    let path = push_path_bytes(dir, &item.from);
    let a = escape_bytes(&path);
    let b = escape_bytes(&item.to);
    let mut out = chars_of(a.as_str());
    let mid = chars_of("  ->  ");
    push_all(&mut out, &mid);
    let bc = chars_of(b.as_str());
    push_all(&mut out, &bc);
    string_of(&out)
}

/// The diagnostic for a failed item: a per-item failure names the path, a
/// batch-ending one stands alone.
pub fn failure_line(item: &PlanItem, f: &Failure) -> (r: String)
    ensures
        r@ == (match f@ {
            FailureView::Item(why) => "detoxrs: "@ + escape_spec(item_path(item@)) + ": "@ + why,
            FailureView::Batch(why) => "detoxrs: "@ + why,
        }),
{
    match f {
        Failure::Item(why) => {
            let dir = path_text(&item.dir);
            let path = push_path_bytes(dir, &item.from);
            let shown = escape_bytes(&path);
            let mut out = chars_of("detoxrs: ");
            let sc = chars_of(shown.as_str());
            push_all(&mut out, &sc);
            let sep = chars_of(": ");
            push_all(&mut out, &sep);
            let wc = chars_of(why.as_str());
            push_all(&mut out, &wc);
            string_of(&out)
        },
        Failure::Batch(why) => lit_then("detoxrs: ", why),
    }
}

/// The plan an undo runs: every recorded rename, inverted, in the order the
/// journal gives them. An undo goes through the same loop, the same recheck
/// and the same no-clobber rename as a forward run.
pub fn undo_plan(items: &[UndoItem]) -> (r: Vec<PlanItem>)
    ensures
        item_views(r@) == undo_views(items@).map_values(|u: UndoView| inverse_item(u)),
{
    let mut out: Vec<PlanItem> = Vec::new();
    let mut i: usize = 0;
    while i < items.len()
        invariant
            0 <= i <= items@.len(),
            item_views(out@) == undo_views(items@.take(i as int)).map_values(
                |u: UndoView| inverse_item(u),
            ),
        decreases items@.len() - i,
    {
        let ghost before = out@;
        let p = items[i].as_plan_item();
        out.push(p);
        proof {
            assert(item_views(out@) =~= item_views(before).push(p@));
            assert(undo_views(items@.take(i + 1)) =~= undo_views(items@.take(i as int)).push(
                items@[i as int]@,
            ));
            assert(item_views(out@) =~= undo_views(items@.take(i + 1)).map_values(
                |u: UndoView| inverse_item(u),
            ));
        }
        i += 1;
    }
    assert(items@.take(items@.len() as int) =~= items@);
    out
}

} // verus!
