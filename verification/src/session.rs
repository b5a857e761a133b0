//! What a run says and which exit code it ends with, around the plan and the
//! apply loop: the message for a refused plan, the notes an undo prints about
//! a journal that does not add up, and which batch `undo --last` means.

use vstd::prelude::*;
use crate::journal::{Replay, ReplayView, UndoView};
use crate::plan::{PlanError, PlanItem, Resolution, item_views, ItemView};
use crate::report::{escape_bytes, escape_spec};
use crate::text::{chars_of, decimal, decimal_chars, push_all, string_of};

verus! {

/// Does the plan rename anything? A run with nothing to rename opens no
/// journal.
pub fn has_renames(items: &[PlanItem]) -> (r: bool)
    ensures
        r == exists|i: int| 0 <= i < items@.len() && #[trigger] items@[i].resolution == Resolution::Rename,
{
    let mut i: usize = 0;
    while i < items.len()
        invariant
            0 <= i <= items@.len(),
            forall|j: int| 0 <= j < i ==> #[trigger] items@[j].resolution != Resolution::Rename,
        decreases items@.len() - i,
    {
        if items[i].resolution == Resolution::Rename {
            return true;
        }
        i += 1;
    }
    false
}

pub open spec fn refusal_text(e: PlanError) -> Seq<char> {
    match e {
        PlanError::BatchRefused(_) => "batch refused by --on-collision fail: the conflicts above were found, and nothing was planned. Re-run with --on-collision number or skip."@,
        PlanError::InternalInconsistency(what) => "internal inconsistency, please report this: "@ + what@,
    }
}

/// Why there is no plan, as the run reports it. (A refused batch's
/// conflicting items are listed first, on their own.)
pub fn refusal_message(e: &PlanError) -> (s: String)
    ensures
        s@ == refusal_text(*e),
{
    match e {
        PlanError::BatchRefused(_) => String::from_str(
            "batch refused by --on-collision fail: the conflicts above were found, and nothing was planned. Re-run with --on-collision number or skip.",
        ),
        PlanError::InternalInconsistency(what) => {
            let mut out = chars_of("internal inconsistency, please report this: ");
            let w = chars_of(what.as_str());
            push_all(&mut out, &w);
            string_of(&out)
        },
    }
}

/// Does this journal need a second look? It did not finish, an item's
/// outcome is unknown, or something in it does not add up.
pub open spec fn suspect_spec(r: ReplayView) -> bool {
    !r.complete || r.interrupted is Some || r.anomalies.len() > 0
}

pub fn is_suspect(r: &Replay) -> (b: bool)
    ensures
        b == suspect_spec(r@),
{
    !r.complete || r.interrupted.is_some() || r.anomalies.len() > 0
}

/// The diagnostics an undo prints before doing anything: each anomaly, the
/// interrupted item (left alone: its outcome was never recorded), and a
/// batch with no completion record. `batch` is the batch's id as shown.
pub open spec fn undo_notes_spec(r: ReplayView, batch: Seq<char>) -> Seq<Seq<char>> {
    r.anomalies.map_values(|a: Seq<char>| "detoxrs: journal problem: "@ + a) + (match r.interrupted {
        Some(u) => seq![
            "detoxrs: note: batch was interrupted while renaming "@ + escape_spec(u.original)
                + " -> "@ + escape_spec(u.current)
                + "; its outcome was never recorded, so it is left alone. Check that name by hand."@,
        ],
        None => Seq::empty(),
    }) + (if !r.complete {
        seq![
            "detoxrs: warning: batch "@ + batch
                + " has no completion record, so it either crashed or is still running. If a detoxrs run is still in progress, its remaining items will not be reverted and the tree will be left half-cleaned."@,
        ]
    } else {
        Seq::empty()
    })
}

pub open spec fn texts(v: Seq<String>) -> Seq<Seq<char>> {
    v.map_values(|s: String| s@)
}

fn push_text(out: &mut Vec<String>, s: String)
    ensures
        texts(final(out)@) == texts(old(out)@).push(s@),
{
    out.push(s);
    assert(texts(out@) =~= texts(old(out)@).push(s@));
}

pub fn undo_notes(r: &Replay, batch: &str) -> (lines: Vec<String>)
    ensures
        texts(lines@) == undo_notes_spec(r@, batch@),
{
    let mut out: Vec<String> = Vec::new();
    let mut i: usize = 0;
    while i < r.anomalies.len()
        invariant
            0 <= i <= r.anomalies@.len(),
            texts(out@) == r@.anomalies.take(i as int).map_values(
                |a: Seq<char>| "detoxrs: journal problem: "@ + a,
            ),
        decreases r.anomalies@.len() - i,
    {
        let mut l = chars_of("detoxrs: journal problem: ");
        let a = chars_of(r.anomalies[i].as_str());
        push_all(&mut l, &a);
        push_text(&mut out, string_of(&l));
        i += 1;
        assert(texts(out@) =~= r@.anomalies.take(i as int).map_values(
            |a: Seq<char>| "detoxrs: journal problem: "@ + a,
        ));
    }
    assert(r@.anomalies.take(r@.anomalies.len() as int) =~= r@.anomalies);
    let ghost head = texts(out@);
    match &r.interrupted {
        Some(u) => {
            let mut l = chars_of("detoxrs: note: batch was interrupted while renaming ");
            let o = escape_bytes(&u.original);
            let oc = chars_of(o.as_str());
            push_all(&mut l, &oc);
            let arrow = chars_of(" -> ");
            push_all(&mut l, &arrow);
            let c = escape_bytes(&u.current);
            let cc = chars_of(c.as_str());
            push_all(&mut l, &cc);
            let tail = chars_of(
                "; its outcome was never recorded, so it is left alone. Check that name by hand.",
            );
            push_all(&mut l, &tail);
            push_text(&mut out, string_of(&l));
        },
        None => {},
    }
    let ghost mid = texts(out@);
    if !r.complete {
        let mut l = chars_of("detoxrs: warning: batch ");
        let b = chars_of(batch);
        push_all(&mut l, &b);
        let tail = chars_of(
            " has no completion record, so it either crashed or is still running. If a detoxrs run is still in progress, its remaining items will not be reverted and the tree will be left half-cleaned.",
        );
        push_all(&mut l, &tail);
        push_text(&mut out, string_of(&l));
    }
    proof {
        let im = match r@.interrupted {
            Some(u) => seq![
                "detoxrs: note: batch was interrupted while renaming "@ + escape_spec(u.original)
                    + " -> "@ + escape_spec(u.current)
                    + "; its outcome was never recorded, so it is left alone. Check that name by hand."@,
            ],
            None => Seq::<Seq<char>>::empty(),
        };
        assert(mid =~= head + im);
        let cm = if !r@.complete {
            seq![
                "detoxrs: warning: batch "@ + batch@
                    + " has no completion record, so it either crashed or is still running. If a detoxrs run is still in progress, its remaining items will not be reverted and the tree will be left half-cleaned."@,
            ]
        } else {
            Seq::<Seq<char>>::empty()
        };
        assert(texts(out@) =~= mid + cm);
    }
    out
}

pub open spec fn nothing_to_undo_spec(lost: nat) -> Seq<char> {
    if lost > 0 {
        "nothing to undo in that batch: "@ + decimal(lost) + " renamed item"@ + (if lost == 1 {
            ""@
        } else {
            "s"@
        }) + " could not be undone at all."@
    } else {
        "nothing to undo in that batch."@
    }
}

/// What an undo says when the batch holds nothing it can put back.
pub fn nothing_to_undo(lost: usize) -> (s: String)
    ensures
        s@ == nothing_to_undo_spec(lost as nat),
{
    if lost > 0 {
        let mut out = chars_of("nothing to undo in that batch: ");
        let d = decimal_chars(lost as u64);
        push_all(&mut out, &d);
        let m = chars_of(" renamed item");
        push_all(&mut out, &m);
        let pl = if lost == 1 {
            chars_of("")
        } else {
            chars_of("s")
        };
        push_all(&mut out, &pl);
        let tail = chars_of(" could not be undone at all.");
        push_all(&mut out, &tail);
        string_of(&out)
    } else {
        String::from_str("nothing to undo in that batch.")
    }
}

pub open spec fn undo_closing_spec(renamed: nat, failed: nat, lost: nat, id: Seq<char>) -> Seq<char> {
    decimal(renamed) + " reverted, "@ + decimal(failed) + " refused"@ + (if lost > 0 {
        ", "@ + decimal(lost) + " could not be undone at all"@
    } else {
        Seq::empty()
    }) + ". This undo is itself batch "@ + id + "."@
}

/// An undo's closing line: what was reverted and refused, what could never
/// be undone, and the batch that undoes the undo.
pub fn undo_closing(renamed: usize, failed: usize, lost: usize, id: &str) -> (s: String)
    ensures
        s@ == undo_closing_spec(renamed as nat, failed as nat, lost as nat, id@),
{
    let mut out = decimal_chars(renamed as u64);
    let a = chars_of(" reverted, ");
    push_all(&mut out, &a);
    let f = decimal_chars(failed as u64);
    push_all(&mut out, &f);
    let b = chars_of(" refused");
    push_all(&mut out, &b);
    let ghost head = out@;
    if lost > 0 {
        let c = chars_of(", ");
        push_all(&mut out, &c);
        let l = decimal_chars(lost as u64);
        push_all(&mut out, &l);
        let d = chars_of(" could not be undone at all");
        push_all(&mut out, &d);
    }
    let ghost mid = out@;
    let e = chars_of(". This undo is itself batch ");
    push_all(&mut out, &e);
    let ic = chars_of(id);
    push_all(&mut out, &ic);
    let g = chars_of(".");
    push_all(&mut out, &g);
    proof {
        let ln = if lost > 0 {
            ", "@ + decimal(lost as nat) + " could not be undone at all"@
        } else {
            Seq::<char>::empty()
        };
        assert(mid =~= head + ln);
    }
    string_of(&out)
}

/// An undo's exit code: `1` for a journal that needs a second look, else
/// the apply loop's own.
pub fn undo_exit(suspect: bool, apply_exit: u8) -> (c: u8)
    ensures
        c == (if suspect {
            1u8
        } else {
            apply_exit
        }),
{
    if suspect {
        1
    } else {
        apply_exit
    }
}

/// The newest useful batch.
pub open spec fn newest_useful(useful: Seq<bool>) -> Option<int>
    decreases useful.len(),
{
    if useful.len() == 0 {
        None
    } else if useful.last() {
        Some(useful.len() - 1)
    } else {
        newest_useful(useful.drop_last())
    }
}

/// `undo --last`: the newest batch with something to undo, or the newest
/// batch when none has; `None` when there are no batches.
pub fn pick_last(useful: &[bool]) -> (r: Option<usize>)
    ensures
        match newest_useful(useful@) {
            Some(i) => r == Some(i as usize),
            None => if useful@.len() == 0 {
                r is None
            } else {
                r == Some((useful@.len() - 1) as usize)
            },
        },
{
    let mut i: usize = useful.len();
    assert(useful@.take(i as int) =~= useful@);
    while i > 0
        invariant
            0 <= i <= useful@.len(),
            forall|j: int| i <= j < useful@.len() ==> !useful@[j],
            newest_useful(useful@) == newest_useful(useful@.take(i as int)),
        decreases i,
    {
        assert(useful@.take(i as int).drop_last() =~= useful@.take(i - 1));
        if useful[i - 1] {
            return Some(i - 1);
        }
        i -= 1;
    }
    assert(useful@.take(0) =~= Seq::<bool>::empty());
    if useful.len() == 0 {
        None
    } else {
        Some(useful.len() - 1)
    }
}

/// Can `undo --last` land on this batch? It has a rename to put back, or an
/// interrupted one whose outcome nobody knows. A batch with neither (all
/// failed, all refused, or nothing written yet) is skipped.
pub open spec fn worth_undoing_spec(r: ReplayView) -> bool {
    r.items.len() > 0 || r.interrupted is Some
}

pub fn worth_undoing(r: &Replay) -> (b: bool)
    ensures
        b == worth_undoing_spec(r@),
{
    r.items.len() > 0 || r.interrupted.is_some()
}

/// Does the plan leave a conflict unresolved? An applying run that does has
/// not done everything it was asked, even though it never attempted that
/// item.
pub fn has_conflicts(items: &[PlanItem]) -> (r: bool)
    ensures
        r == exists|i: int| 0 <= i < items@.len() && #[trigger] items@[i].resolution is Conflict,
{
    let mut i: usize = 0;
    while i < items.len()
        invariant
            0 <= i <= items@.len(),
            forall|j: int| 0 <= j < i ==> !(#[trigger] items@[j].resolution is Conflict),
        decreases items@.len() - i,
    {
        if let Resolution::Conflict(_) = items[i].resolution {
            return true;
        }
        i += 1;
    }
    false
}

/// The symlinks a batch left dangling: those whose target resolved before the
/// batch and no longer does. A link that was already dangling is not this
/// batch's doing.
pub fn newly_dangling(before: &[bool], after: &[bool]) -> (r: Vec<usize>)
    requires
        before@.len() == after@.len(),
    ensures
        forall|k: int| 0 <= k < r@.len() ==> #[trigger] r@[k] < before@.len() && before@[r@[k] as int]
            && !after@[r@[k] as int],
        forall|a: int, b: int| 0 <= a < b < r@.len() ==> r@[a] < r@[b],
        forall|x: int| 0 <= x < before@.len() && before@[x] && !after@[x] ==> r@.contains(x as usize),
{
    let mut out: Vec<usize> = Vec::new();
    let mut i: usize = 0;
    while i < before.len()
        invariant
            0 <= i <= before@.len() == after@.len(),
            forall|k: int| 0 <= k < out@.len() ==> #[trigger] out@[k] < i && before@[out@[k] as int]
                && !after@[out@[k] as int],
            forall|a: int, b: int| 0 <= a < b < out@.len() ==> out@[a] < out@[b],
            forall|x: int| 0 <= x < i && before@[x] && !after@[x] ==> out@.contains(x as usize),
        decreases before@.len() - i,
    {
        if before[i] && !after[i] {
            let ghost old_out = out@;
            out.push(i);
            proof {
                assert forall|x: int| 0 <= x < i + 1 && before@[x] && !after@[x] implies out@.contains(
                    x as usize,
                ) by {
                    if x < i {
                        let k = choose|k: int| 0 <= k < old_out.len() && old_out[k] == x as usize;
                        assert(out@[k] == x as usize);
                    } else {
                        assert(out@[old_out.len() as int] == i);
                    }
                }
            }
        }
        i += 1;
    }
    out
}

/// The warning for a symlink the batch left dangling; `path` is the link's
/// path now.
pub open spec fn dangling_note_spec(path: Seq<u8>) -> Seq<char> {
    "detoxrs: warning: "@ + escape_spec(path)
        + " is now a dangling symlink: this batch renamed what it pointed to"@
}

pub fn dangling_note(path: &[u8]) -> (s: String)
    ensures
        s@ == dangling_note_spec(path@),
{
    let mut out = chars_of("detoxrs: warning: ");
    let shown = escape_bytes(path);
    let sc = chars_of(shown.as_str());
    push_all(&mut out, &sc);
    let tail = chars_of(" is now a dangling symlink: this batch renamed what it pointed to");
    push_all(&mut out, &tail);
    string_of(&out)
}

/// A forward run's exit code: the apply loop's own, raised to `1` when the
/// run did not do everything it was asked (an applying run that left a
/// conflict unresolved or a symlink newly dangling), when a subtree could not
/// be read, or when the closing report could not be written. A preview's
/// apply code is `0`, and a conflict it merely reports is not a failure.
pub open spec fn forward_exit_spec(apply_exit: u8, unfinished: bool, unreadable: bool, report_written: bool) -> u8 {
    if apply_exit > 0 || unfinished || unreadable || !report_written {
        if apply_exit > 1 {
            apply_exit
        } else {
            1
        }
    } else {
        0
    }
}

pub fn forward_exit(apply_exit: u8, unfinished: bool, unreadable: bool, report_written: bool) -> (c: u8)
    ensures
        c == forward_exit_spec(apply_exit, unfinished, unreadable, report_written),
        c >= apply_exit,
        unfinished ==> c >= 1,
        unreadable ==> c >= 1,
        !report_written ==> c >= 1,
{
    if (unfinished || unreadable || !report_written) && apply_exit < 1 {
        1
    } else {
        apply_exit
    }
}

} // verus!
