//! The undo journal's logic: the records a batch writes, and what a journal
//! read back says happened.
//!
//! The protocol the design is staked on: per item, an `intent` record is made
//! durable *before* the rename, then `done` or `failed` after it. A crash at
//! any point leaves a journal from which the interrupted item is knowable: it
//! is the one `intent` with no outcome. Writing, syncing and JSON encoding are
//! the binary's; this module decides what each record holds, and what a
//! sequence of records read back means. A record's contents are untrusted
//! input: `from` and `to` must each be a single plain name, and `dir` must be
//! absolute, or the record is refused rather than sanitized.

use vstd::prelude::*;
use vstd::utf8::{valid_utf8, decode_utf8, encode_utf8};
use crate::plan::{
    EntryKind, Ident, ItemView, PartView, PathPart, PlanItem, Resolution, copy_bytes, copy_dir,
    dir_view,
};
use crate::text::{
    chars_of, chars_eq, decimal, decimal_chars, lossy_of, lossy_text, push_all, string_of, zero_pad,
    zero_padded,
};
use crate::unicode::utf8_text;
use crate::order::{key_views, lemma_push_contains, lex_lt, sort_indices};

verus! {

// ---- entry kinds ------------------------------------------------------------------

/// How a record spells an entry kind.
pub open spec fn kind_text(k: EntryKind) -> Seq<char> {
    match k {
        EntryKind::File => "file"@,
        EntryKind::Dir => "dir"@,
        EntryKind::Symlink => "symlink"@,
        EntryKind::Other => "other"@,
    }
}

/// How a record's spelling reads back: anything unknown is a file.
pub open spec fn kind_of_text(t: Option<Seq<char>>) -> EntryKind {
    if t == Some("dir"@) {
        EntryKind::Dir
    } else if t == Some("symlink"@) {
        EntryKind::Symlink
    } else if t == Some("other"@) {
        EntryKind::Other
    } else {
        EntryKind::File
    }
}

/// The record spelling of an entry kind.
pub fn kind_str(k: EntryKind) -> (s: &'static str)
    ensures
        s@ == kind_text(k),
{
    match k {
        EntryKind::File => "file",
        EntryKind::Dir => "dir",
        EntryKind::Symlink => "symlink",
        EntryKind::Other => "other",
    }
}

fn text_is(t: &String, lit: &str) -> (r: bool)
    ensures
        r == (t@ == lit@),
{
    let a = chars_of(t.as_str());
    let b = chars_of(lit);
    chars_eq(&a, &b)
}

fn kind_from(t: &Option<String>) -> (k: EntryKind)
    ensures
        k == kind_of_text(opt_text(*t)),
{
    match t {
        Some(s) => if text_is(s, "dir") {
            EntryKind::Dir
        } else if text_is(s, "symlink") {
            EntryKind::Symlink
        } else if text_is(s, "other") {
            EntryKind::Other
        } else {
            EntryKind::File
        },
        None => EntryKind::File,
    }
}

// ---- records ----------------------------------------------------------------------

/// One journal record, as the fields this program reads and writes. A field
/// is `None` when the record lacks it or it has the wrong shape.
#[derive(Debug)]
pub struct Record {
    /// `"intent"`, `"done"`, `"failed"` or `"end"`.
    pub op: Option<String>,
    /// Device number of the entry.
    pub dev: Option<u64>,
    /// Inode number of the entry: what an outcome names to close its intent.
    pub ino: Option<u64>,
    /// The entry kind, spelled as [`kind_str`] spells it.
    pub kind: Option<String>,
    /// Modification time, in whole seconds since the Unix epoch.
    pub mtime: Option<u64>,
    /// The containing directory, as its components.
    pub dir: Option<Vec<PathPart>>,
    /// The name before the rename.
    pub from: Option<Vec<u8>>,
    /// The name after the rename.
    pub to: Option<Vec<u8>>,
    /// Why a rename failed.
    pub why: Option<String>,
}

pub struct RecordView {
    pub op: Option<Seq<char>>,
    pub dev: Option<u64>,
    pub ino: Option<u64>,
    pub kind: Option<Seq<char>>,
    pub mtime: Option<u64>,
    pub dir: Option<Seq<PartView>>,
    pub from: Option<Seq<u8>>,
    pub to: Option<Seq<u8>>,
    pub why: Option<Seq<char>>,
}

pub open spec fn opt_text(t: Option<String>) -> Option<Seq<char>> {
    match t {
        Some(s) => Some(s@),
        None => None,
    }
}

pub open spec fn opt_bytes(b: Option<Vec<u8>>) -> Option<Seq<u8>> {
    match b {
        Some(v) => Some(v@),
        None => None,
    }
}

pub open spec fn opt_dir(d: Option<Vec<PathPart>>) -> Option<Seq<PartView>> {
    match d {
        Some(v) => Some(dir_view(v@)),
        None => None,
    }
}

impl View for Record {
    type V = RecordView;

    open spec fn view(&self) -> RecordView {
        RecordView {
            op: opt_text(self.op),
            dev: self.dev,
            ino: self.ino,
            kind: opt_text(self.kind),
            mtime: self.mtime,
            dir: opt_dir(self.dir),
            from: opt_bytes(self.from),
            to: opt_bytes(self.to),
            why: opt_text(self.why),
        }
    }
}

/// One line of a journal file, as read back.
#[derive(Debug)]
pub enum JournalLine {
    /// The line is not valid UTF-8.
    NotUtf8,
    /// The line is UTF-8 but not valid JSON.
    NotJson,
    /// A record.
    Record(Record),
}

pub enum LineView {
    NotUtf8,
    NotJson,
    Record(RecordView),
}

impl View for JournalLine {
    type V = LineView;

    open spec fn view(&self) -> LineView {
        match self {
            JournalLine::NotUtf8 => LineView::NotUtf8,
            JournalLine::NotJson => LineView::NotJson,
            JournalLine::Record(r) => LineView::Record(r@),
        }
    }
}

pub open spec fn line_views(lines: Seq<JournalLine>) -> Seq<LineView> {
    lines.map_values(|l: JournalLine| l@)
}

fn empty_record() -> (r: Record)
    ensures
        r@.op is None && r@.dev is None && r@.ino is None && r@.kind is None && r@.mtime is None
            && r@.dir is None && r@.from is None && r@.to is None && r@.why is None,
{
    Record {
        op: None,
        dev: None,
        ino: None,
        kind: None,
        mtime: None,
        dir: None,
        from: None,
        to: None,
        why: None,
    }
}

/// The record written before a rename: everything needed to put it back.
/// `dir` is the containing directory made absolute.
pub open spec fn intent_view(item: ItemView, dir: Seq<PartView>) -> RecordView {
    RecordView {
        op: Some("intent"@),
        dev: Some(item.ident.dev),
        ino: Some(item.ident.ino),
        kind: Some(kind_text(item.kind)),
        mtime: Some(item.ident.mtime),
        dir: Some(dir),
        from: Some(item.from),
        to: Some(item.to),
        why: None,
    }
}

/// The record written after a rename that happened.
pub open spec fn done_view(item: ItemView) -> RecordView {
    RecordView {
        op: Some("done"@),
        dev: None,
        ino: Some(item.ident.ino),
        kind: None,
        mtime: None,
        dir: None,
        from: None,
        to: None,
        why: None,
    }
}

/// The record that closes a batch that ran to completion.
pub open spec fn end_view() -> RecordView {
    RecordView {
        op: Some("end"@),
        dev: None,
        ino: None,
        kind: None,
        mtime: None,
        dir: None,
        from: None,
        to: None,
        why: None,
    }
}

/// The `intent` record for `item`, whose directory made absolute is `dir`.
pub fn intent_record(item: &PlanItem, dir: &[PathPart]) -> (r: Record)
    ensures
        r@ == intent_view(item@, dir_view(dir@)),
{
    Record {
        op: Some(String::from_str("intent")),
        dev: Some(item.ident.dev),
        ino: Some(item.ident.ino),
        kind: Some(String::from_str(kind_str(item.kind))),
        mtime: Some(item.ident.mtime),
        dir: Some(copy_dir(dir)),
        from: Some(copy_bytes(&item.from)),
        to: Some(copy_bytes(&item.to)),
        why: None,
    }
}

/// The `done` record for `item`.
pub fn done_record(item: &PlanItem) -> (r: Record)
    ensures
        r@ == done_view(item@),
{
    let mut r = empty_record();
    r.op = Some(String::from_str("done"));
    r.ino = Some(item.ident.ino);
    r
}

/// The `failed` record for `item`, with the reason it failed.
pub fn failed_record(item: &PlanItem, why: &str) -> (r: Record)
    ensures
        r@.op == Some("failed"@),
        r@.ino == Some(item.ident.ino),
        r@.why == Some(why@),
        r@.dev is None && r@.kind is None && r@.mtime is None && r@.dir is None && r@.from is None
            && r@.to is None,
{
    let mut r = empty_record();
    r.op = Some(String::from_str("failed"));
    r.ino = Some(item.ident.ino);
    r.why = Some(String::from_str(why));
    r
}

/// The `end` record.
pub fn end_record() -> (r: Record)
    ensures
        r@ == end_view(),
{
    let mut r = empty_record();
    r.op = Some(String::from_str("end"));
    r
}

// ---- what an intent record undoes ----------------------------------------------------

/// One rename to put back.
#[derive(Debug)]
pub struct UndoItem {
    /// The directory it lives in. Renames never cross directories, so this is
    /// the same for both names.
    pub dir: Vec<PathPart>,
    /// The name it has now: the forward run's destination.
    pub current: Vec<u8>,
    /// The name to put back: the forward run's source.
    pub original: Vec<u8>,
    /// Identity as the forward run recorded it.
    pub ident: Ident,
    /// What kind of entry it was, for the report only.
    pub kind: EntryKind,
}

pub struct UndoView {
    pub dir: Seq<PartView>,
    pub current: Seq<u8>,
    pub original: Seq<u8>,
    pub ident: Ident,
    pub kind: EntryKind,
}

impl View for UndoItem {
    type V = UndoView;

    open spec fn view(&self) -> UndoView {
        UndoView {
            dir: dir_view(self.dir@),
            current: self.current@,
            original: self.original@,
            ident: self.ident,
            kind: self.kind,
        }
    }
}

pub open spec fn undo_views(v: Seq<UndoItem>) -> Seq<UndoView> {
    v.map_values(|u: UndoItem| u@)
}

/// The inverse rename, as a plan item, so undo goes through the same apply
/// loop, the same identity recheck and the same no-clobber rename as a
/// forward run.
pub open spec fn inverse_item(u: UndoView) -> ItemView {
    ItemView {
        dir: u.dir,
        from: u.current,
        to: u.original,
        kind: u.kind,
        ident: u.ident,
        depth: 0,
        resolution: Resolution::Rename,
        truncated: false,
    }
}

impl UndoItem {
    /// The inverse rename, shaped as a plan item. An undo replays a completed
    /// rename verbatim; it never re-runs `transform`.
    pub fn as_plan_item(&self) -> (r: PlanItem)
        ensures
            r@ == inverse_item(self@),
    {
        PlanItem {
            dir: copy_dir(&self.dir),
            from: copy_bytes(&self.current),
            to: copy_bytes(&self.original),
            kind: self.kind,
            ident: self.ident,
            depth: 0,
            resolution: Resolution::Rename,
            truncated: false,
        }
    }
}

/// A single, ordinary path component: not empty, not `.` or `..`, and free of
/// `/`. (`\` is an ordinary byte in a name here: `renameat` never treats it as
/// a separator.)
pub open spec fn plain_basename(b: Seq<u8>) -> bool {
    &&& b.len() > 0
    &&& b != seq![46u8]
    &&& b != seq![46u8, 46u8]
    &&& !b.contains(47u8)
}

/// Is `name` usable as a single, ordinary path component?
pub fn is_plain_basename(name: &[u8]) -> (r: bool)
    ensures
        r == plain_basename(name@),
{
    if name.len() == 0 {
        return false;
    }
    if name.len() == 1 && name[0] == 46 {
        assert(name@ =~= seq![46u8]);
        return false;
    }
    if name.len() == 2 && name[0] == 46 && name[1] == 46 {
        assert(name@ =~= seq![46u8, 46u8]);
        return false;
    }
    let mut i: usize = 0;
    while i < name.len()
        invariant
            0 <= i <= name@.len(),
            forall|j: int| 0 <= j < i ==> name@[j] != 47u8,
        decreases name@.len() - i,
    {
        if name[i] == 47 {
            assert(name@.contains(47u8));
            return false;
        }
        i += 1;
    }
    proof {
        if name@ == seq![46u8] {
            assert(name@.len() == 1);
        }
        if name@ == seq![46u8, 46u8] {
            assert(name@.len() == 2);
        }
        if name@.contains(47u8) {
            let k = choose|k: int| 0 <= k < name@.len() && name@[k] == 47u8;
        }
    }
    true
}

/// Why an intent record cannot be undone.
#[derive(Debug, Clone, Copy, PartialEq, Eq, Structural)]
pub enum IntentFault {
    /// A field it needs is missing or has the wrong shape.
    Missing,
    /// `from` is not a plain name.
    BadFrom,
    /// `to` is not a plain name.
    BadTo,
    /// `dir` is not absolute.
    RelativeDir,
}

pub open spec fn fault_text(f: IntentFault) -> Seq<char> {
    match f {
        IntentFault::Missing => "is an intent record missing a field it needs; the item it describes cannot be undone"@,
        IntentFault::BadFrom => "has a 'from' that is not a plain filename (a path separator, `.`, `..`, or empty); refusing rather than risking a rename outside the pinned directory"@,
        IntentFault::BadTo => "has a 'to' that is not a plain filename (a path separator, `.`, `..`, or empty); refusing rather than risking a rename outside the pinned directory"@,
        IntentFault::RelativeDir => "has a 'dir' that is not an absolute path; refusing rather than opening an unknown location"@,
    }
}

impl IntentFault {
    /// What the anomaly report says about this fault.
    pub fn reason(&self) -> (s: &'static str)
        ensures
            s@ == fault_text(*self),
    {
        match self {
            IntentFault::Missing => "is an intent record missing a field it needs; the item it describes cannot be undone",
            IntentFault::BadFrom => "has a 'from' that is not a plain filename (a path separator, `.`, `..`, or empty); refusing rather than risking a rename outside the pinned directory",
            IntentFault::BadTo => "has a 'to' that is not a plain filename (a path separator, `.`, `..`, or empty); refusing rather than risking a rename outside the pinned directory",
            IntentFault::RelativeDir => "has a 'dir' that is not an absolute path; refusing rather than opening an unknown location",
        }
    }
}

/// A directory path is absolute when it starts at the root.
pub open spec fn is_absolute(d: Seq<PartView>) -> bool {
    d.len() > 0 && d[0] is RootDir
}

/// One `intent` record as an undoable item, or why it is not one. Identity
/// keeps `(dev, ino)` only: the recheck compares nothing else.
pub open spec fn parse_intent_spec(r: RecordView) -> Result<UndoView, IntentFault> {
    if r.dir is None || r.from is None || r.to is None || r.dev is None || r.ino is None {
        Err(IntentFault::Missing)
    } else if !plain_basename(r.from->0) {
        Err(IntentFault::BadFrom)
    } else if !plain_basename(r.to->0) {
        Err(IntentFault::BadTo)
    } else if !is_absolute(r.dir->0) {
        Err(IntentFault::RelativeDir)
    } else {
        Ok(
            UndoView {
                dir: r.dir->0,
                current: r.to->0,
                original: r.from->0,
                ident: Ident { dev: r.dev->0, ino: r.ino->0, nlink: 1, mtime: 0 },
                kind: kind_of_text(r.kind),
            },
        )
    }
}

/// One `intent` record as an undoable item, or the reason it must be treated
/// as an anomaly instead.
pub fn parse_intent(rec: &Record) -> (r: Result<UndoItem, IntentFault>)
    ensures
        match r {
            Ok(u) => parse_intent_spec(rec@) == Ok::<UndoView, IntentFault>(u@),
            Err(f) => parse_intent_spec(rec@) == Err::<UndoView, IntentFault>(f),
        },
{
    let (dir, from, to, dev, ino) = match (&rec.dir, &rec.from, &rec.to, rec.dev, rec.ino) {
        (Some(d), Some(f), Some(t), Some(dv), Some(i)) => (d, f, t, dv, i),
        _ => return Err(IntentFault::Missing),
    };
    if !is_plain_basename(from) {
        return Err(IntentFault::BadFrom);
    }
    if !is_plain_basename(to) {
        return Err(IntentFault::BadTo);
    }
    let absolute = dir.len() > 0 && match &dir[0] {
        PathPart::RootDir => true,
        _ => false,
    };
    if !absolute {
        return Err(IntentFault::RelativeDir);
    }
    Ok(
        UndoItem {
            dir: copy_dir(dir),
            current: copy_bytes(to),
            original: copy_bytes(from),
            ident: Ident { dev, ino, nlink: 1, mtime: 0 },
            kind: kind_from(&rec.kind),
        },
    )
}


// ---- reading a journal back ---------------------------------------------------------

/// Something about a journal that does not add up. Line numbers count from 1.
pub enum AnomalyView {
    /// A line that is not the last one is not UTF-8.
    NotUtf8(nat),
    /// A line that is not the last one is not JSON.
    NotJson(nat),
    /// A new intent starts while the named item (or `?`, when its own intent
    /// could not be read) with the given inode has no outcome.
    Unclosed(nat, Seq<char>, u64),
    /// An intent record that cannot be undone, and why.
    BadIntent(nat, IntentFault),
    /// A `done` closes an intent that could not be read: a rename this batch
    /// can never undo.
    Lost(nat, u64),
    /// An outcome (`op`, the inode it claims or none) closes an intent for a
    /// different inode, whose item is named, or `None` when it could not be
    /// read.
    Mismatch(nat, Seq<char>, Option<u64>, u64, Option<Seq<char>>),
    /// An outcome with no intent before it.
    Orphan(nat, Seq<char>),
}

/// The report lines for a sequence of anomalies.
pub open spec fn anomaly_texts(an: Seq<AnomalyView>) -> Seq<Seq<char>> {
    an.map_values(|a: AnomalyView| anomaly_text(a))
}

pub open spec fn inode_text(i: Option<u64>) -> Seq<char> {
    match i {
        Some(n) => decimal(n as nat),
        None => "?"@,
    }
}

/// The report line for an anomaly.
pub open spec fn anomaly_text(a: AnomalyView) -> Seq<char> {
    match a {
        AnomalyView::NotUtf8(n) => "line "@ + decimal(n) + " is not valid UTF-8 and was ignored"@,
        AnomalyView::NotJson(n) => "line "@ + decimal(n) + " is not valid JSON and was ignored"@,
        AnomalyView::Unclosed(n, name, ino) => "line "@ + decimal(n) + ": a new intent starts while "@
            + name + " (inode "@ + decimal(ino as nat)
            + ") has no recorded outcome; that item cannot be undone and must be checked by hand"@,
        AnomalyView::BadIntent(n, f) => "line "@ + decimal(n) + " "@ + fault_text(f),
        AnomalyView::Lost(n, ino) => "line "@ + decimal(n) + ": inode "@ + decimal(ino as nat)
            + " was renamed by this batch, but its intent record could not be read, so it cannot be undone and must be checked by hand"@,
        AnomalyView::Mismatch(n, op, claimed, ino, name) => match name {
            Some(t) => "line "@ + decimal(n) + ": a '"@ + op + "' for inode "@ + inode_text(claimed)
                + " closes an intent for inode "@ + decimal(ino as nat) + " ("@ + t
                + "); neither is trusted and neither will be undone"@,
            None => "line "@ + decimal(n) + ": a '"@ + op + "' for inode "@ + inode_text(claimed)
                + " closes an intent for inode "@ + decimal(ino as nat)
                + " that could not be read; neither is trusted and neither will be undone"@,
        },
        AnomalyView::Orphan(n, op) => "line "@ + decimal(n) + ": a '"@ + op + "' with no intent before it"@,
    }
}

/// Where a journal read stands after some of its lines: the completed
/// renames in journal order, the anomalies so far, whether the batch closed,
/// how many completed renames could not be undone, and the intent still
/// waiting for an outcome (its inode, and its item when it could be read).
pub struct ReplayState {
    pub items: Seq<UndoView>,
    pub anomalies: Seq<AnomalyView>,
    pub complete: bool,
    pub lost: nat,
    pub pending: Option<(u64, Option<UndoView>)>,
}

pub open spec fn initial_state() -> ReplayState {
    ReplayState {
        items: Seq::empty(),
        anomalies: Seq::empty(),
        complete: false,
        lost: 0,
        pending: None,
    }
}

/// The name a pending intent goes by in a report.
pub open spec fn pending_name(item: Option<UndoView>) -> Seq<char> {
    match item {
        Some(u) => lossy_of(u.original),
        None => "?"@,
    }
}

/// The `n`-th line (from 0) of a journal of `total` lines, read in state `st`.
/// Only the last line may be half-written, so only earlier bad lines are
/// anomalies.
pub open spec fn step_spec(st: ReplayState, line: LineView, n: nat, total: nat) -> ReplayState {
    match line {
        LineView::NotUtf8 => if n + 1 < total {
            ReplayState { anomalies: st.anomalies.push(AnomalyView::NotUtf8(n + 1)), ..st }
        } else {
            st
        },
        LineView::NotJson => if n + 1 < total {
            ReplayState { anomalies: st.anomalies.push(AnomalyView::NotJson(n + 1)), ..st }
        } else {
            st
        },
        LineView::Record(rec) => if rec.op == Some("intent"@) {
            let an = match st.pending {
                Some((ino, prev)) => st.anomalies.push(
                    AnomalyView::Unclosed(n + 1, pending_name(prev), ino),
                ),
                None => st.anomalies,
            };
            match parse_intent_spec(rec) {
                Ok(item) => ReplayState {
                    anomalies: an,
                    pending: Some((item.ident.ino, Some(item))),
                    ..st
                },
                Err(f) => ReplayState {
                    anomalies: an.push(AnomalyView::BadIntent(n + 1, f)),
                    pending: match rec.ino {
                        Some(ino) => Some((ino, None::<UndoView>)),
                        None => None,
                    },
                    ..st
                },
            }
        } else if rec.op == Some("done"@) || rec.op == Some("failed"@) {
            let op = rec.op->0;
            let done = rec.op == Some("done"@);
            let closed = ReplayState { pending: None, ..st };
            match st.pending {
                Some((ino, Some(item))) => if rec.ino == Some(ino) {
                    if done {
                        ReplayState { items: st.items.push(item), ..closed }
                    } else {
                        closed
                    }
                } else {
                    ReplayState {
                        anomalies: st.anomalies.push(
                            AnomalyView::Mismatch(n + 1, op, rec.ino, ino, Some(lossy_of(item.original))),
                        ),
                        ..closed
                    }
                },
                Some((ino, None)) => if rec.ino == Some(ino) {
                    if done {
                        ReplayState {
                            lost: st.lost + 1,
                            anomalies: st.anomalies.push(AnomalyView::Lost(n + 1, ino)),
                            ..closed
                        }
                    } else {
                        closed
                    }
                } else {
                    ReplayState {
                        anomalies: st.anomalies.push(
                            AnomalyView::Mismatch(n + 1, op, rec.ino, ino, None),
                        ),
                        ..closed
                    }
                },
                None => ReplayState {
                    anomalies: st.anomalies.push(AnomalyView::Orphan(n + 1, op)),
                    ..closed
                },
            }
        } else if rec.op == Some("end"@) {
            ReplayState { complete: true, ..st }
        } else {
            st
        },
    }
}

/// The state after the first `k` lines.
pub open spec fn replay_upto(lines: Seq<LineView>, k: nat) -> ReplayState
    decreases k,
{
    if k == 0 {
        initial_state()
    } else {
        step_spec(replay_upto(lines, (k - 1) as nat), lines[k - 1], (k - 1) as nat, lines.len())
    }
}

/// Is this line a `done` record?
pub open spec fn is_done_line(l: LineView) -> bool {
    l matches LineView::Record(r) && r.op == Some("done"@)
}

/// Each line adds at most one completed rename, and only a `done` does.
proof fn lemma_items_within_dones(lines: Seq<LineView>, k: nat)
    requires
        k <= lines.len(),
    ensures
        replay_upto(lines, k).items.len() + replay_upto(lines, k).lost <= lines.take(k as int).filter(
            |l: LineView| is_done_line(l),
        ).len(),
    decreases k,
{
    reveal(Seq::filter);
    if k > 0 {
        lemma_items_within_dones(lines, (k - 1) as nat);
        assert(lines.take(k as int).drop_last() =~= lines.take(k - 1));
        assert(lines.take(k as int).last() == lines[k - 1]);
    }
}

/// Replay undoes only renames the journal records as done: the items to
/// undo, together with the completed renames lost to an unreadable intent,
/// never outnumber the `done` records. A journal with none -- every intent
/// closed by `failed`, say -- leaves nothing to undo.
pub proof fn law_replay_undoes_only_done_renames(lines: Seq<LineView>)
    ensures
        replay_spec(lines).items.len() + replay_spec(lines).lost <= lines.filter(
            |l: LineView| is_done_line(l),
        ).len(),
        lines.filter(|l: LineView| is_done_line(l)).len() == 0 ==> replay_spec(lines).items.len()
            == 0,
{
    lemma_items_within_dones(lines, lines.len());
    assert(lines.take(lines.len() as int) =~= lines);
}

/// One rename's intent, closed by an outcome for its inode, replays to that
/// rename to undo exactly when the outcome is `done`; after `failed` there is
/// nothing to undo. Either way nothing is left interrupted or anomalous.
pub proof fn law_replay_of_one_rename(intent: RecordView, outcome: RecordView, item: UndoView)
    requires
        intent.op == Some("intent"@),
        parse_intent_spec(intent) == Ok::<UndoView, IntentFault>(item),
        outcome.op == Some("done"@) || outcome.op == Some("failed"@),
        outcome.ino == Some(item.ident.ino),
    ensures
        replay_spec(seq![LineView::Record(intent), LineView::Record(outcome)]).items == (if outcome.op
            == Some("done"@) {
            seq![item]
        } else {
            Seq::<UndoView>::empty()
        }),
        replay_spec(seq![LineView::Record(intent), LineView::Record(outcome)]).interrupted is None,
        replay_spec(seq![LineView::Record(intent), LineView::Record(outcome)]).anomalies.len() == 0,
        replay_spec(seq![LineView::Record(intent), LineView::Record(outcome)]).lost == 0,
{
    reveal_strlit("intent");
    reveal_strlit("done");
    reveal_strlit("failed");
    assert("done"@ != "intent"@) by {
        assert("done"@[0] != "intent"@[0]);
    }
    assert("failed"@ != "intent"@) by {
        assert("failed"@[0] != "intent"@[0]);
    }
    assert("failed"@ != "done"@) by {
        assert("failed"@[0] != "done"@[0]);
    }
    let lines = seq![LineView::Record(intent), LineView::Record(outcome)];
    let s1 = replay_upto(lines, 1);
    assert(replay_upto(lines, 0) == initial_state());
    assert(lines[0] == LineView::Record(intent));
    assert(s1.pending == Some((item.ident.ino, Some(item))));
    assert(s1.items.len() == 0);
    assert(lines[1] == LineView::Record(outcome));
    let s2 = replay_upto(lines, 2);
    if outcome.op == Some("done"@) {
        assert(s2.items =~= seq![item]);
        assert(s2.items.reverse() =~= seq![item]);
    } else {
        assert(s2.items.len() == 0);
        assert(s2.items.reverse() =~= Seq::<UndoView>::empty());
    }
    assert(s2.anomalies.len() == 0);
    assert(anomaly_texts(s2.anomalies).len() == 0);
}

/// What the first `k` lines leave to undo, lose or wait on does not depend
/// on the lines after them.
proof fn lemma_replay_prefix(a: Seq<LineView>, b: Seq<LineView>, k: nat)
    requires
        k <= a.len(),
        k <= b.len(),
        a.take(k as int) == b.take(k as int),
    ensures
        replay_upto(a, k).items == replay_upto(b, k).items,
        replay_upto(a, k).lost == replay_upto(b, k).lost,
        replay_upto(a, k).pending == replay_upto(b, k).pending,
    decreases k,
{
    if k > 0 {
        assert(a.take(k - 1) =~= a.take(k as int).take(k - 1));
        assert(b.take(k - 1) =~= b.take(k as int).take(k - 1));
        lemma_replay_prefix(a, b, (k - 1) as nat);
        assert(a[k - 1] == a.take(k as int)[k - 1]);
        assert(b[k - 1] == b.take(k as int)[k - 1]);
    }
}

/// A rename recorded after everything before it was closed adds itself to
/// what undo must put back, first in line (undo runs in reverse), exactly
/// when its outcome is `done`; a `failed` rename adds nothing.
pub proof fn law_replay_appends_a_done_rename(
    lines: Seq<LineView>,
    intent: RecordView,
    outcome: RecordView,
    item: UndoView,
)
    requires
        replay_upto(lines, lines.len()).pending is None,
        intent.op == Some("intent"@),
        parse_intent_spec(intent) == Ok::<UndoView, IntentFault>(item),
        outcome.op == Some("done"@) || outcome.op == Some("failed"@),
        outcome.ino == Some(item.ident.ino),
    ensures
        replay_spec(lines + seq![LineView::Record(intent), LineView::Record(outcome)]).items == (if outcome.op
            == Some("done"@) {
            seq![item] + replay_spec(lines).items
        } else {
            replay_spec(lines).items
        }),
{
    reveal_strlit("intent");
    reveal_strlit("done");
    reveal_strlit("failed");
    assert("done"@ != "intent"@) by {
        assert("done"@[0] != "intent"@[0]);
    }
    assert("failed"@ != "intent"@) by {
        assert("failed"@[0] != "intent"@[0]);
    }
    assert("failed"@ != "done"@) by {
        assert("failed"@[0] != "done"@[0]);
    }
    let n = lines.len();
    let all = lines + seq![LineView::Record(intent), LineView::Record(outcome)];
    assert(all.take(n as int) =~= lines.take(n as int));
    lemma_replay_prefix(all, lines, n);
    assert(all[n as int] == LineView::Record(intent));
    assert(all[n as int + 1] == LineView::Record(outcome));
    let s0 = replay_upto(all, n);
    let s1 = replay_upto(all, n + 1);
    assert(s1.pending == Some((item.ident.ino, Some(item))));
    assert(s1.items == s0.items);
    let s2 = replay_upto(all, n + 2);
    assert(all.len() == n + 2);
    if outcome.op == Some("done"@) {
        assert(s2.items == s0.items.push(item));
        assert(s0.items.push(item).reverse() =~= seq![item] + s0.items.reverse());
    } else {
        assert(s2.items == s0.items);
    }
}

/// What a journal says happened.
pub struct ReplayView {
    /// The completed renames in the order undo must apply them: reverse of
    /// the forward run, so a directory is put back before the entries in it.
    pub items: Seq<UndoView>,
    /// The item whose outcome is unknown.
    pub interrupted: Option<UndoView>,
    /// Did the batch record that it finished?
    pub complete: bool,
    /// Everything that does not add up, as report lines.
    pub anomalies: Seq<Seq<char>>,
    /// Completed renames that cannot be undone.
    pub lost: nat,
}

pub open spec fn replay_spec(lines: Seq<LineView>) -> ReplayView {
    let st = replay_upto(lines, lines.len());
    ReplayView {
        items: st.items.reverse(),
        interrupted: match st.pending {
            Some((_, Some(u))) => Some(u),
            _ => None,
        },
        complete: st.complete,
        anomalies: anomaly_texts(st.anomalies),
        lost: st.lost,
    }
}

/// What a journal file says happened.
#[derive(Debug)]
pub struct Replay {
    /// The completed renames, in the order undo must apply them.
    pub items: Vec<UndoItem>,
    /// The item whose outcome is unknown: an intent with neither `done` nor
    /// `failed` after it.
    pub interrupted: Option<UndoItem>,
    /// Did the batch record that it finished? `false` means it crashed or is
    /// still running, and the caller must say so.
    pub complete: bool,
    /// Everything about this journal that does not add up.
    pub anomalies: Vec<String>,
    /// Renames the forward run completed whose own intent record could not be
    /// read, so no undo item could be built for them.
    pub lost: usize,
}

pub open spec fn strings_view(v: Seq<String>) -> Seq<Seq<char>> {
    v.map_values(|s: String| s@)
}

impl View for Replay {
    type V = ReplayView;

    open spec fn view(&self) -> ReplayView {
        ReplayView {
            items: undo_views(self.items@),
            interrupted: match self.interrupted {
                Some(u) => Some(u@),
                None => None,
            },
            complete: self.complete,
            anomalies: strings_view(self.anomalies@),
            lost: self.lost as nat,
        }
    }
}

fn push_str(out: &mut Vec<char>, s: &str)
    ensures
        final(out)@ == old(out)@ + s@,
{
    let c = chars_of(s);
    push_all(out, &c);
}

fn push_num(out: &mut Vec<char>, n: u64)
    ensures
        final(out)@ == old(out)@ + decimal(n as nat),
{
    let c = decimal_chars(n);
    push_all(out, &c);
}

fn inode_chars(out: &mut Vec<char>, i: Option<u64>)
    ensures
        final(out)@ == old(out)@ + inode_text(i),
{
    match i {
        Some(n) => push_num(out, n),
        None => push_str(out, "?"),
    }
}

fn line_head(n: usize) -> (r: Vec<char>)
    ensures
        r@ == "line "@ + decimal(n as nat),
{
    let mut out: Vec<char> = Vec::new();
    push_str(&mut out, "line ");
    push_num(&mut out, n as u64);
    out
}

fn not_utf8_message(n: usize) -> (r: String)
    ensures
        r@ == anomaly_text(AnomalyView::NotUtf8(n as nat)),
{
    let mut out = line_head(n);
    push_str(&mut out, " is not valid UTF-8 and was ignored");
    string_of(&out)
}

fn not_json_message(n: usize) -> (r: String)
    ensures
        r@ == anomaly_text(AnomalyView::NotJson(n as nat)),
{
    let mut out = line_head(n);
    push_str(&mut out, " is not valid JSON and was ignored");
    string_of(&out)
}

fn unclosed_message(n: usize, prev: &Option<UndoItem>, ino: u64) -> (r: String)
    ensures
        r@ == anomaly_text(
            AnomalyView::Unclosed(
                n as nat,
                pending_name(
                    match *prev {
                        Some(u) => Some(u@),
                        None => None,
                    },
                ),
                ino,
            ),
        ),
{
    let mut out = line_head(n);
    push_str(&mut out, ": a new intent starts while ");
    match prev {
        Some(u) => {
            let name = lossy_text(&u.original);
            push_str(&mut out, name.as_str());
        },
        None => push_str(&mut out, "?"),
    }
    push_str(&mut out, " (inode ");
    push_num(&mut out, ino);
    push_str(
        &mut out,
        ") has no recorded outcome; that item cannot be undone and must be checked by hand",
    );
    string_of(&out)
}

fn bad_intent_message(n: usize, f: IntentFault) -> (r: String)
    ensures
        r@ == anomaly_text(AnomalyView::BadIntent(n as nat, f)),
{
    let mut out = line_head(n);
    push_str(&mut out, " ");
    push_str(&mut out, f.reason());
    string_of(&out)
}

fn lost_message(n: usize, ino: u64) -> (r: String)
    ensures
        r@ == anomaly_text(AnomalyView::Lost(n as nat, ino)),
{
    let mut out = line_head(n);
    push_str(&mut out, ": inode ");
    push_num(&mut out, ino);
    push_str(
        &mut out,
        " was renamed by this batch, but its intent record could not be read, so it cannot be undone and must be checked by hand",
    );
    string_of(&out)
}

fn mismatch_message(n: usize, op: &String, claimed: Option<u64>, ino: u64, item: &Option<UndoItem>) -> (r: String)
    ensures
        r@ == anomaly_text(
            AnomalyView::Mismatch(
                n as nat,
                op@,
                claimed,
                ino,
                match *item {
                    Some(u) => Some(lossy_of(u.original@)),
                    None => None,
                },
            ),
        ),
{
    let mut out = line_head(n);
    push_str(&mut out, ": a '");
    push_str(&mut out, op.as_str());
    push_str(&mut out, "' for inode ");
    inode_chars(&mut out, claimed);
    push_str(&mut out, " closes an intent for inode ");
    push_num(&mut out, ino);
    match item {
        Some(u) => {
            push_str(&mut out, " (");
            let name = lossy_text(&u.original);
            push_str(&mut out, name.as_str());
            push_str(&mut out, "); neither is trusted and neither will be undone");
        },
        None => {
            push_str(&mut out, " that could not be read; neither is trusted and neither will be undone");
        },
    }
    string_of(&out)
}

fn orphan_message(n: usize, op: &String) -> (r: String)
    ensures
        r@ == anomaly_text(AnomalyView::Orphan(n as nat, op@)),
{
    let mut out = line_head(n);
    push_str(&mut out, ": a '");
    push_str(&mut out, op.as_str());
    push_str(&mut out, "' with no intent before it");
    string_of(&out)
}


pub open spec fn pending_view(p: Option<(u64, Option<UndoItem>)>) -> Option<(u64, Option<UndoView>)> {
    match p {
        Some((ino, Some(u))) => Some((ino, Some(u@))),
        Some((ino, None)) => Some((ino, None)),
        None => None,
    }
}

/// The executable state agrees with `st`.
pub open spec fn state_matches(
    items: Seq<UndoItem>,
    anomalies: Seq<String>,
    complete: bool,
    lost: usize,
    pending: Option<(u64, Option<UndoItem>)>,
    st: ReplayState,
) -> bool {
    &&& undo_views(items) == st.items
    &&& strings_view(anomalies) == anomaly_texts(st.anomalies)
    &&& complete == st.complete
    &&& lost as nat == st.lost
    &&& pending_view(pending) == st.pending
}

fn push_anomaly(
    anomalies: &mut Vec<String>,
    m: String,
    Ghost(an): Ghost<Seq<AnomalyView>>,
    Ghost(a): Ghost<AnomalyView>,
)
    requires
        strings_view(old(anomalies)@) == anomaly_texts(an),
        m@ == anomaly_text(a),
    ensures
        strings_view(final(anomalies)@) == anomaly_texts(an.push(a)),
{
    let ghost old_v = anomalies@;
    anomalies.push(m);
    assert(anomalies@ == old_v.push(m));
    assert(old_v.len() == an.len()) by {
        assert(strings_view(old_v).len() == anomaly_texts(an).len());
    }
    assert forall|j: int| 0 <= j < anomalies@.len() implies strings_view(anomalies@)[j]
        == anomaly_texts(an.push(a))[j] by {
        if j < old_v.len() {
            assert(strings_view(old_v)[j] == anomaly_texts(an)[j]);
            assert(an.push(a)[j] == an[j]);
        } else {
            assert(an.push(a)[j] == a);
        }
    }
    assert(strings_view(anomalies@) =~= anomaly_texts(an.push(a)));
}

fn same_ino(claimed: Option<u64>, ino: u64) -> (r: bool)
    ensures
        r == (claimed == Some(ino)),
{
    match claimed {
        Some(c) => c == ino,
        None => false,
    }
}

/// Read a journal back, line by line.
///
/// A bad final line is expected rather than exceptional -- the file is
/// append-only and a crash can cut it mid-write -- so it is ignored. Anything
/// else that does not add up is an anomaly, reported rather than skipped: an
/// outcome must name the intent it closes, or neither is trusted.
pub fn replay(lines: &[JournalLine]) -> (r: Replay)
    ensures
        r@ == replay_spec(line_views(lines@)),
{
    let ghost lv = line_views(lines@);
    let total = lines.len();
    let mut items: Vec<UndoItem> = Vec::new();
    let mut anomalies: Vec<String> = Vec::new();
    let mut complete = false;
    let mut lost: usize = 0;
    let mut pending: Option<(u64, Option<UndoItem>)> = None;
    let mut n: usize = 0;
    proof {
        assert(undo_views(items@) =~= Seq::<UndoView>::empty());
        assert(strings_view(anomalies@) =~= anomaly_texts(Seq::<AnomalyView>::empty()));
    }
    while n < total
        invariant
            0 <= n <= total == lines@.len() == lv.len(),
            lv == line_views(lines@),
            state_matches(items@, anomalies@, complete, lost, pending, replay_upto(lv, n as nat)),
            lost <= n,
        decreases total - n,
    {
        let ghost st = replay_upto(lv, n as nat);
        let ghost before_items = items@;
        let ghost before_an = anomalies@;
        assert(lv[n as int] == lines@[n as int]@);
        match &lines[n] {
            JournalLine::NotUtf8 => {
                if n + 1 < total {
                    let m = not_utf8_message(n + 1);
                    push_anomaly(&mut anomalies, m, Ghost(st.anomalies), Ghost(AnomalyView::NotUtf8((n + 1) as nat)));
                }
            },
            JournalLine::NotJson => {
                if n + 1 < total {
                    let m = not_json_message(n + 1);
                    push_anomaly(&mut anomalies, m, Ghost(st.anomalies), Ghost(AnomalyView::NotJson((n + 1) as nat)));
                }
            },
            JournalLine::Record(rec) => {
                let (is_intent, is_done, is_failed, is_end) = match &rec.op {
                    Some(op) => (
                        text_is(op, "intent"),
                        text_is(op, "done"),
                        text_is(op, "failed"),
                        text_is(op, "end"),
                    ),
                    None => (false, false, false, false),
                };
                if is_intent {
                    let prev = pending;
                    pending = None;
                    let ghost mut an = st.anomalies;
                    match prev {
                        Some((ino, p)) => {
                            let m = unclosed_message(n + 1, &p, ino);
                            let ghost a = AnomalyView::Unclosed(
                                (n + 1) as nat,
                                pending_name(
                                    match p {
                                        Some(u) => Some(u@),
                                        None => None,
                                    },
                                ),
                                ino,
                            );
                            push_anomaly(&mut anomalies, m, Ghost(an), Ghost(a));
                            proof {
                                an = an.push(a);
                            }
                        },
                        None => {},
                    }
                    match parse_intent(rec) {
                        Ok(item) => {
                            let ino = item.ident.ino;
                            pending = Some((ino, Some(item)));
                        },
                        Err(f) => {
                            let m = bad_intent_message(n + 1, f);
                            push_anomaly(&mut anomalies, m, Ghost(an), Ghost(AnomalyView::BadIntent((n + 1) as nat, f)));
                            pending = match rec.ino {
                                Some(ino) => Some((ino, None)),
                                None => None,
                            };
                        },
                    }
                } else if is_done || is_failed {
                    let op = match &rec.op {
                        Some(op) => op,
                        None => {
                            assert(false);
                            return Replay {
                                items,
                                interrupted: None,
                                complete,
                                anomalies,
                                lost,
                            };
                        },
                    };
                    let prev = pending;
                    pending = None;
                    match prev {
                        Some((ino, Some(item))) => {
                            if same_ino(rec.ino, ino) {
                                if is_done {
                                    items.push(item);
                                }
                            } else {
                                let ghost name = lossy_of(item.original@);
                                let it = Some(item);
                                let m = mismatch_message(n + 1, op, rec.ino, ino, &it);
                                push_anomaly(
                                    &mut anomalies,
                                    m,
                                    Ghost(st.anomalies),
                                    Ghost(AnomalyView::Mismatch((n + 1) as nat, op@, rec.ino, ino, Some(name))),
                                );
                            }
                        },
                        Some((ino, None)) => {
                            if same_ino(rec.ino, ino) {
                                if is_done {
                                    lost = lost + 1;
                                    let m = lost_message(n + 1, ino);
                                    push_anomaly(&mut anomalies, m, Ghost(st.anomalies), Ghost(AnomalyView::Lost((n + 1) as nat, ino)));
                                }
                            } else {
                                let m = mismatch_message(n + 1, op, rec.ino, ino, &None);
                                push_anomaly(
                                    &mut anomalies,
                                    m,
                                    Ghost(st.anomalies),
                                    Ghost(AnomalyView::Mismatch((n + 1) as nat, op@, rec.ino, ino, None)),
                                );
                            }
                        },
                        None => {
                            let m = orphan_message(n + 1, op);
                            push_anomaly(&mut anomalies, m, Ghost(st.anomalies), Ghost(AnomalyView::Orphan((n + 1) as nat, op@)));
                        },
                    }
                } else if is_end {
                    complete = true;
                }
            },
        }
        proof {
            let nx = replay_upto(lv, (n + 1) as nat);
            assert(nx == step_spec(st, lv[n as int], n as nat, lv.len()));
            assert(undo_views(items@) =~= nx.items);
            assert(strings_view(anomalies@) =~= anomaly_texts(nx.anomalies));
        }
        n += 1;
    }
    let interrupted = match pending {
        Some((_, Some(u))) => Some(u),
        _ => None,
    };
    let ghost fwd = undo_views(items@);
    let mut rev: Vec<UndoItem> = Vec::new();
    while items.len() > 0
        invariant
            fwd.len() == items@.len() + rev@.len(),
            undo_views(items@) == fwd.take(items@.len() as int),
            undo_views(rev@) == fwd.reverse().take(rev@.len() as int),
        decreases items@.len(),
    {
        let ghost k = items@.len();
        let ghost before_rev = rev@;
        let ghost xv = items@[k - 1]@;
        assert(xv == fwd[k - 1]) by {
            assert(undo_views(items@)[k - 1] == fwd.take(k as int)[k - 1]);
        }
        let x = items.pop().unwrap();
        rev.push(x);
        proof {
            assert(undo_views(items@) =~= fwd.take(items@.len() as int));
            assert(fwd.reverse()[rev@.len() - 1] == fwd[k - 1]);
            assert(undo_views(rev@) =~= fwd.reverse().take(rev@.len() as int));
        }
    }
    assert(fwd.reverse().take(fwd.len() as int) =~= fwd.reverse());
    Replay { items: rev, interrupted, complete, anomalies, lost }
}

// ---- lines ------------------------------------------------------------------------

/// The pieces of `b` between newlines: one more than there are newlines.
pub open spec fn split_all(b: Seq<u8>) -> Seq<Seq<u8>>
    decreases b.len(),
{
    if b.len() == 0 {
        seq![Seq::<u8>::empty()]
    } else {
        let pre = split_all(b.drop_last());
        if b.last() == 10u8 {
            pre.push(Seq::empty())
        } else {
            pre.update(pre.len() - 1, pre.last().push(b.last()))
        }
    }
}

/// A file's lines, the way `str::lines` would have them minus the UTF-8
/// requirement: split on newlines, without the empty piece a trailing newline
/// leaves. An empty file has no lines.
pub open spec fn lines_spec(b: Seq<u8>) -> Seq<Seq<u8>> {
    if b.len() == 0 {
        Seq::empty()
    } else if split_all(b).last().len() == 0 {
        split_all(b).drop_last()
    } else {
        split_all(b)
    }
}

proof fn lemma_split_all_nonempty(b: Seq<u8>)
    ensures
        split_all(b).len() >= 1,
    decreases b.len(),
{
    if b.len() > 0 {
        lemma_split_all_nonempty(b.drop_last());
    }
}

pub open spec fn byte_lines(v: Seq<Vec<u8>>) -> Seq<Seq<u8>> {
    v.map_values(|l: Vec<u8>| l@)
}

/// One journal line as text: `None` exactly when its bytes are not UTF-8,
/// which makes it a line that cannot be parsed.
pub fn line_text(line: &[u8]) -> (r: Option<String>)
    ensures
        r is Some <==> valid_utf8(line@),
        r matches Some(t) ==> t@ == decode_utf8(line@),
{
    match utf8_text(line) {
        Some(v) => Some(string_of(&v)),
        None => None,
    }
}

/// Split a journal file's bytes into lines, so each line's UTF-8 can be
/// checked on its own: one bad byte costs one line, not the whole file.
pub fn split_lines(bytes: &[u8]) -> (r: Vec<Vec<u8>>)
    ensures
        byte_lines(r@) == lines_spec(bytes@),
{
    if bytes.len() == 0 {
        proof {
            assert(byte_lines(Seq::<Vec<u8>>::empty()) =~= Seq::<Seq<u8>>::empty());
        }
        return Vec::new();
    }
    let mut lines: Vec<Vec<u8>> = Vec::new();
    let mut cur: Vec<u8> = Vec::new();
    let mut i: usize = 0;
    proof {
        assert(bytes@.take(0) =~= Seq::<u8>::empty());
        assert(byte_lines(lines@).push(cur@) =~= split_all(bytes@.take(0)));
    }
    while i < bytes.len()
        invariant
            0 <= i <= bytes@.len(),
            byte_lines(lines@).push(cur@) == split_all(bytes@.take(i as int)),
        decreases bytes@.len() - i,
    {
        let ghost before = byte_lines(lines@);
        let ghost cur0 = cur@;
        assert(bytes@.take(i + 1).drop_last() =~= bytes@.take(i as int));
        assert(bytes@.take(i + 1).last() == bytes@[i as int]);
        if bytes[i] == 10 {
            let done = cur;
            cur = Vec::new();
            lines.push(done);
            assert(byte_lines(lines@) =~= before.push(cur0));
            assert(byte_lines(lines@).push(cur@) =~= split_all(bytes@.take(i + 1)));
        } else {
            cur.push(bytes[i]);
            assert(byte_lines(lines@).push(cur@) =~= before.push(cur0).update(
                before.len() as int,
                cur0.push(bytes@[i as int]),
            ));
        }
        i += 1;
    }
    assert(bytes@.take(bytes@.len() as int) =~= bytes@);
    let ghost all = split_all(bytes@);
    if cur.len() == 0 {
        assert(byte_lines(lines@) =~= all.drop_last());
    } else {
        lines.push(cur);
        assert(byte_lines(lines@) =~= all);
    }
    lines
}


// ---- what a read gives back of a write ------------------------------------------------

/// What a forward run that completes writes for its renames `items`, each
/// with its directory made absolute in `dirs`: per item an intent then a
/// done, then the end.
pub open spec fn clean_journal(items: Seq<ItemView>, dirs: Seq<Seq<PartView>>) -> Seq<LineView> {
    Seq::new(
        2 * items.len() + 1,
        |x: int|
            if x == 2 * items.len() {
                LineView::Record(end_view())
            } else if x % 2 == 0 {
                LineView::Record(intent_view(items[x / 2], dirs[x / 2]))
            } else {
                LineView::Record(done_view(items[x / 2]))
            },
    )
}

/// The undo item an intent for `item` in `dir` reads back as.
pub open spec fn undo_of(item: ItemView, dir: Seq<PartView>) -> UndoView {
    UndoView {
        dir,
        current: item.to,
        original: item.from,
        ident: Ident { dev: item.ident.dev, ino: item.ident.ino, nlink: 1, mtime: 0 },
        kind: item.kind,
    }
}

proof fn lemma_kind_round_trip(k: EntryKind)
    ensures
        kind_of_text(Some(kind_text(k))) == k,
{
    reveal_strlit("file");
    reveal_strlit("dir");
    reveal_strlit("symlink");
    reveal_strlit("other");
    assert("file"@.len() == 4);
    assert("dir"@.len() == 3);
    assert("symlink"@.len() == 7);
    assert("other"@.len() == 5);
}

proof fn lemma_ops_differ()
    ensures
        "intent"@ != "done"@,
        "intent"@ != "failed"@,
        "intent"@ != "end"@,
        "done"@ != "end"@,
        "failed"@ != "end"@,
{
    reveal_strlit("intent");
    reveal_strlit("done");
    reveal_strlit("failed");
    reveal_strlit("end");
    assert("intent"@.len() == 6);
    assert("done"@.len() == 4);
    assert("failed"@.len() == 6);
    assert("end"@.len() == 3);
    assert("intent"@[0] == 'i');
    assert("failed"@[0] == 'f');
}

proof fn lemma_clean_prefix(items: Seq<ItemView>, dirs: Seq<Seq<PartView>>, j: nat)
    requires
        items.len() == dirs.len(),
        j <= items.len(),
        forall|i: int|
            0 <= i < items.len() ==> plain_basename(#[trigger] items[i].from) && plain_basename(
                items[i].to,
            ) && is_absolute(dirs[i]),
    ensures
        replay_upto(clean_journal(items, dirs), 2 * j) == (ReplayState {
            items: Seq::new(j, |i: int| undo_of(items[i], dirs[i])),
            anomalies: Seq::empty(),
            complete: false,
            lost: 0,
            pending: None,
        }),
    decreases j,
{
    let lines = clean_journal(items, dirs);
    if j == 0 {
        assert(Seq::new(0, |i: int| undo_of(items[i], dirs[i])) =~= Seq::<UndoView>::empty());
    } else {
        let k = (j - 1) as nat;
        lemma_clean_prefix(items, dirs, k);
        lemma_ops_differ();
        lemma_kind_round_trip(items[k as int].kind);
        let st0 = replay_upto(lines, 2 * k);
        assert(lines[2 * k as int] == LineView::Record(intent_view(items[k as int], dirs[k as int])));
        assert(lines[2 * k as int + 1] == LineView::Record(done_view(items[k as int])));
        let u = undo_of(items[k as int], dirs[k as int]);
        assert(parse_intent_spec(intent_view(items[k as int], dirs[k as int])) == Ok::<
            UndoView,
            IntentFault,
        >(u));
        let st1 = replay_upto(lines, 2 * k + 1);
        assert(st1 == step_spec(st0, lines[2 * k as int], 2 * k, lines.len()));
        assert(st1.pending == Some((u.ident.ino, Some(u))));
        assert(st1.items == st0.items);
        assert(st1.anomalies == st0.anomalies);
        let st2 = replay_upto(lines, 2 * k + 2);
        assert(st2 == step_spec(st1, lines[2 * k as int + 1], 2 * k + 1, lines.len()));
        assert(Seq::new(j, |i: int| undo_of(items[i], dirs[i])) =~= Seq::new(
            k,
            |i: int| undo_of(items[i], dirs[i]),
        ).push(u));
    }
}

/// A journal read gives back what the write recorded: replaying the journal
/// of a forward run that completed yields exactly its renames as undo items,
/// in reverse order, with nothing interrupted, nothing lost and no anomaly.
/// (Each rename's names are plain basenames and its directory is absolute,
/// as every record this program writes has them.)
pub proof fn law_clean_journal_replays(items: Seq<ItemView>, dirs: Seq<Seq<PartView>>)
    requires
        items.len() == dirs.len(),
        forall|i: int|
            0 <= i < items.len() ==> plain_basename(#[trigger] items[i].from) && plain_basename(
                items[i].to,
            ) && is_absolute(dirs[i]),
    ensures
        replay_spec(clean_journal(items, dirs)) == (ReplayView {
            items: Seq::new(items.len(), |i: int| undo_of(items[i], dirs[i])).reverse(),
            interrupted: None,
            complete: true,
            anomalies: Seq::empty(),
            lost: 0,
        }),
{
    let lines = clean_journal(items, dirs);
    let n = items.len();
    lemma_clean_prefix(items, dirs, n);
    lemma_ops_differ();
    assert(lines[2 * n as int] == LineView::Record(end_view()));
    assert(lines.len() == 2 * n + 1);
    let st = replay_upto(lines, 2 * n);
    assert(replay_upto(lines, lines.len()) == step_spec(st, lines[2 * n as int], 2 * n, lines.len()));
    assert(anomaly_texts(Seq::<AnomalyView>::empty()) =~= Seq::<Seq<char>>::empty());
}

/// Undo puts every rename back: the plan an undo runs, built from the
/// journal of a completed forward run, renames each destination back to its
/// source in the same directory, newest rename first, and rechecks the same
/// entry the forward run renamed.
pub proof fn law_undo_reverses_the_batch(items: Seq<ItemView>, dirs: Seq<Seq<PartView>>)
    requires
        items.len() == dirs.len(),
        forall|i: int|
            0 <= i < items.len() ==> plain_basename(#[trigger] items[i].from) && plain_basename(
                items[i].to,
            ) && is_absolute(dirs[i]),
    ensures
        ({
            let back = replay_spec(clean_journal(items, dirs)).items.map_values(
                |u: UndoView| inverse_item(u),
            );
            &&& back.len() == items.len()
            &&& forall|k: int|
                0 <= k < items.len() ==> {
                    let fwd = items[items.len() - 1 - k];
                    &&& (#[trigger] back[k]).from == fwd.to
                    &&& back[k].to == fwd.from
                    &&& back[k].dir == dirs[items.len() - 1 - k]
                    &&& back[k].ident.dev == fwd.ident.dev
                    &&& back[k].ident.ino == fwd.ident.ino
                    &&& back[k].resolution == Resolution::Rename
                }
        }),
{
    law_clean_journal_replays(items, dirs);
}


// ---- batch names ------------------------------------------------------------------------

/// The bytes of `b` before its first `-`.
pub open spec fn first_token(b: Seq<u8>) -> Seq<u8>
    decreases b.len(),
{
    if b.len() == 0 {
        Seq::empty()
    } else if b[0] == 45u8 {
        Seq::empty()
    } else {
        seq![b[0]] + first_token(b.drop_first())
    }
}

pub open spec fn is_digit(x: u8) -> bool {
    48u8 <= x <= 57u8
}

pub open spec fn all_digits(d: Seq<u8>) -> bool {
    forall|i: int| 0 <= i < d.len() ==> is_digit(#[trigger] d[i])
}

/// The number ASCII digits `d` spell.
pub open spec fn digits_value(d: Seq<u8>) -> nat
    decreases d.len(),
{
    if d.len() == 0 {
        0
    } else {
        digits_value(d.drop_last()) * 10 + (d.last() - 48) as nat
    }
}

/// `str::parse::<u64>`: an optional `+`, then one or more digits, with a
/// value that fits.
pub open spec fn parse_u64_spec(t: Seq<u8>) -> Option<u64> {
    let d = if t.len() > 0 && t[0] == 43u8 {
        t.drop_first()
    } else {
        t
    };
    if d.len() > 0 && all_digits(d) && digits_value(d) <= u64::MAX {
        Some(digits_value(d) as u64)
    } else {
        None
    }
}

/// The leading number of a journal file name: the batch order. `None` for a
/// name this program could not have written.
pub open spec fn parse_seq_spec(name: Seq<u8>) -> Option<u64> {
    if valid_utf8(name) {
        parse_u64_spec(first_token(name))
    } else {
        None
    }
}

proof fn lemma_digits_mono(d: Seq<u8>, i: int)
    requires
        0 <= i <= d.len(),
        all_digits(d),
    ensures
        digits_value(d.take(i)) <= digits_value(d),
    decreases d.len() - i,
{
    if i < d.len() {
        lemma_digits_mono(d, i + 1);
        assert(d.take(i + 1).drop_last() =~= d.take(i));
        assert(is_digit(d[i]));
    } else {
        assert(d.take(i) =~= d);
    }
}

fn parse_u64(t: &[u8]) -> (r: Option<u64>)
    ensures
        r == parse_u64_spec(t@),
{
    let start: usize = if t.len() > 0 && t[0] == 43 {
        1
    } else {
        0
    };
    let ghost d = if t@.len() > 0 && t@[0] == 43u8 {
        t@.drop_first()
    } else {
        t@
    };
    assert(d =~= t@.skip(start as int));
    if t.len() == start {
        return None;
    }
    let mut v: u64 = 0;
    let mut i: usize = start;
    while i < t.len()
        invariant
            start <= i <= t@.len(),
            d == t@.skip(start as int),
            d == (if t@.len() > 0 && t@[0] == 43u8 {
                t@.drop_first()
            } else {
                t@
            }),
            v == digits_value(d.take(i - start)),
            all_digits(d.take(i - start)),
        decreases t@.len() - i,
    {
        let x = t[i];
        let ghost k = i - start;
        assert(d[k] == x);
        assert(d.take(k + 1).drop_last() =~= d.take(k));
        assert(d.take(k + 1).last() == x);
        if x < 48 || x > 57 {
            assert(!is_digit(d[k]));
            assert(!all_digits(d));
            return None;
        }
        assert(digits_value(d.take(k + 1)) == v * 10 + (x - 48) as nat);
        assert(all_digits(d.take(k + 1)));
        let ten = v.checked_mul(10);
        match ten {
            None => {
                proof {
                    if all_digits(d) {
                        lemma_digits_mono(d, k + 1);
                    }
                }
                return None;
            },
            Some(tv) => {
                match tv.checked_add((x - 48) as u64) {
                    None => {
                        proof {
                            if all_digits(d) {
                                lemma_digits_mono(d, k + 1);
                            }
                        }
                        return None;
                    },
                    Some(nv) => {
                        v = nv;
                    },
                }
            },
        }
        i += 1;
    }
    assert(d.take(d.len() as int) =~= d);
    Some(v)
}

/// The leading `<seq>` token of a journal file name, as the total order
/// batches are created in.
pub fn parse_seq(file_name: &[u8]) -> (r: Option<u64>)
    ensures
        r == parse_seq_spec(file_name@),
{
    match utf8_text(file_name) {
        None => None,
        Some(_) => {
            let mut i: usize = 0;
            while i < file_name.len() && file_name[i] != 45
                invariant
                    0 <= i <= file_name@.len(),
                    forall|j: int| 0 <= j < i ==> file_name@[j] != 45u8,
                decreases file_name@.len() - i,
            {
                i += 1;
            }
            proof {
                lemma_first_token(file_name@, i as int);
            }
            let tok = copy_bytes_range(file_name, i);
            parse_u64(&tok)
        },
    }
}

proof fn lemma_first_token(b: Seq<u8>, i: int)
    requires
        0 <= i <= b.len(),
        forall|j: int| 0 <= j < i ==> b[j] != 45u8,
        i == b.len() || b[i] == 45u8,
    ensures
        first_token(b) == b.take(i),
    decreases b.len(),
{
    if b.len() > 0 && i > 0 {
        lemma_first_token(b.drop_first(), i - 1);
        assert(b.take(i) =~= seq![b[0]] + b.drop_first().take(i - 1));
    } else if b.len() > 0 {
        assert(b.take(0) =~= Seq::<u8>::empty());
    } else {
        assert(b.take(i) =~= Seq::<u8>::empty());
    }
}

fn copy_bytes_range(b: &[u8], n: usize) -> (r: Vec<u8>)
    requires
        n <= b@.len(),
    ensures
        r@ == b@.take(n as int),
{
    let mut r: Vec<u8> = Vec::new();
    let mut i: usize = 0;
    while i < n
        invariant
            0 <= i <= n <= b@.len(),
            r@ == b@.take(i as int),
        decreases n - i,
    {
        r.push(b[i]);
        i += 1;
        assert(r@ =~= b@.take(i as int));
    }
    r
}

/// The largest of `seqs`, or 0.
pub open spec fn max_seq(seqs: Seq<u64>) -> u64
    decreases seqs.len(),
{
    if seqs.len() == 0 {
        0
    } else if seqs.last() > max_seq(seqs.drop_last()) {
        seqs.last()
    } else {
        max_seq(seqs.drop_last())
    }
}

/// One past the highest sequence number already used, given the sequence
/// numbers parsed from the journal directory's file names. `None` when that
/// would overflow: the directory holds a name at the highest possible number,
/// and refusing keeps the order from ever going backwards.
pub fn next_seq(seqs: &[u64]) -> (r: Option<u64>)
    ensures
        r == (if max_seq(seqs@) < u64::MAX {
            Some((max_seq(seqs@) + 1) as u64)
        } else {
            None::<u64>
        }),
{
    let mut max: u64 = 0;
    let mut i: usize = 0;
    while i < seqs.len()
        invariant
            0 <= i <= seqs@.len(),
            max == max_seq(seqs@.take(i as int)),
        decreases seqs@.len() - i,
    {
        assert(seqs@.take(i + 1).drop_last() =~= seqs@.take(i as int));
        if seqs[i] > max {
            max = seqs[i];
        }
        i += 1;
    }
    assert(seqs@.take(seqs@.len() as int) =~= seqs@);
    max.checked_add(1)
}

/// A batch's id, which is also its file's stem: the sequence number to at
/// least six digits, then the stamp.
pub open spec fn batch_id_spec(seq: u64, stamp: Seq<char>) -> Seq<char> {
    zero_pad(decimal(seq as nat), 6) + "-"@ + stamp
}

pub fn batch_id(seq: u64, stamp: &str) -> (r: String)
    ensures
        r@ == batch_id_spec(seq, stamp@),
{
    let mut out = zero_padded(seq, 6);
    push_str(&mut out, "-");
    push_str(&mut out, stamp);
    string_of(&out)
}

/// What `format!("{id:?}")` makes of `id`.
pub uninterp spec fn debug_quoted(s: Seq<char>) -> Seq<char>;

/// Wraps `format!("{:?}", s)`: `s` quoted and escaped as Rust's `Debug`
/// renders a string. Claims only that the result is `debug_quoted(s)`.
#[verifier::external_body]
pub(crate) fn quoted(s: &str) -> (r: String)
    ensures
        r@ == debug_quoted(s@),
{
    format!("{s:?}")
}

/// An id is refused when it could name anything but one file inside the
/// journal directory.
pub open spec fn bad_batch_id(id: Seq<char>) -> bool {
    id.len() == 0 || id.contains('/') || id.contains('\\') || exists|i: int|
        0 <= i < id.len() - 1 && #[trigger] dot_dot_at(id, i)
}

/// `..` starts at `i`.
pub open spec fn dot_dot_at(id: Seq<char>, i: int) -> bool {
    id[i] == '.' && id[i + 1] == '.'
}

/// The path of a batch named by id, inside `journal_dir`. The id comes from
/// the command line, so it is validated rather than trusted.
pub open spec fn path_of_spec(journal_dir: Seq<u8>, id: Seq<char>) -> Result<Seq<u8>, Seq<char>> {
    if bad_batch_id(id) {
        Err(debug_quoted(id) + " is not a batch id; ids look like 000001-20260803T184819Z"@)
    } else {
        let sep = if journal_dir.len() > 0 && journal_dir.last() != 47u8 {
            seq![47u8]
        } else {
            Seq::empty()
        };
        Ok(journal_dir + sep + encode_utf8(id) + encode_utf8(".jsonl"@))
    }
}

fn has_dot_dot(id: &[char]) -> (r: bool)
    ensures
        r == exists|i: int| 0 <= i < id@.len() - 1 && #[trigger] dot_dot_at(id@, i),
{
    let mut i: usize = 0;
    while i < id.len()
        invariant
            0 <= i,
            i <= id@.len(),
            forall|j: int| 0 <= j < i && j < id@.len() - 1 ==> !#[trigger] dot_dot_at(id@, j),
        decreases id@.len() - i,
    {
        if i + 1 < id.len() && id[i] == '.' && id[i + 1] == '.' {
            assert(dot_dot_at(id@, i as int));
            return true;
        }
        i += 1;
    }
    false
}

fn contains_char(s: &[char], c: char) -> (r: bool)
    ensures
        r == s@.contains(c),
{
    let mut i: usize = 0;
    while i < s.len()
        invariant
            0 <= i <= s@.len(),
            forall|j: int| 0 <= j < i ==> s@[j] != c,
        decreases s@.len() - i,
    {
        if s[i] == c {
            return true;
        }
        i += 1;
    }
    false
}

/// The path of a batch named by id: `<journal_dir>/<id>.jsonl`, or the
/// message refusing the id.
pub fn path_of(journal_dir: &[u8], id: &str) -> (r: Result<Vec<u8>, String>)
    ensures
        match r {
            Ok(p) => path_of_spec(journal_dir@, id@) == Ok::<Seq<u8>, Seq<char>>(p@),
            Err(m) => path_of_spec(journal_dir@, id@) == Err::<Seq<u8>, Seq<char>>(m@),
        },
{
    let c = chars_of(id);
    if c.len() == 0 || contains_char(&c, '/') || contains_char(&c, '\\') || has_dot_dot(&c) {
        let mut out = chars_of(quoted(id).as_str());
        push_str(&mut out, " is not a batch id; ids look like 000001-20260803T184819Z");
        return Err(string_of(&out));
    }
    let mut out = copy_bytes(journal_dir);
    if journal_dir.len() > 0 && journal_dir[journal_dir.len() - 1] != 47 {
        out.push(47);
    }
    let ghost head = out@;
    let idb = copy_bytes(id.as_bytes());
    let ext = copy_bytes(".jsonl".as_bytes());
    let mut i: usize = 0;
    while i < idb.len()
        invariant
            0 <= i <= idb@.len(),
            out@ == head + idb@.take(i as int),
        decreases idb@.len() - i,
    {
        out.push(idb[i]);
        i += 1;
        assert(out@ =~= head + idb@.take(i as int));
    }
    assert(idb@.take(idb@.len() as int) =~= idb@);
    let ghost mid = out@;
    let mut j: usize = 0;
    while j < ext.len()
        invariant
            0 <= j <= ext@.len(),
            out@ == mid + ext@.take(j as int),
        decreases ext@.len() - j,
    {
        out.push(ext[j]);
        j += 1;
        assert(out@ =~= mid + ext@.take(j as int));
    }
    assert(ext@.take(ext@.len() as int) =~= ext@);
    proof {
        let sep = if journal_dir@.len() > 0 && journal_dir@.last() != 47u8 {
            seq![47u8]
        } else {
            Seq::<u8>::empty()
        };
        assert(head =~= journal_dir@ + sep);
        assert(idb@ == encode_utf8(id@));
        assert(ext@ == encode_utf8(".jsonl"@));
        assert(!bad_batch_id(id@));
        assert(out@ =~= journal_dir@ + sep + encode_utf8(id@) + encode_utf8(".jsonl"@));
    }
    Ok(out)
}


// ---- the UTC stamp ----------------------------------------------------------------------

/// Days since 1970-01-01 to a proleptic Gregorian `(year, month, day)`, by
/// Hinnant's `civil_from_days`. (`/` and `%` here are floor division and its
/// remainder.)
pub open spec fn civil_spec(z: int) -> (int, u32, u32) {
    let z1 = z + 719468;
    let era = z1 / 146097;
    let doe = z1 % 146097;
    let yoe = (doe - doe / 1460 + doe / 36524 - doe / 146096) / 365;
    let y = yoe + era * 400;
    let doy = doe - (365 * yoe + yoe / 4 - yoe / 100);
    let mp = (5 * doy + 2) / 153;
    let d = doy - (153 * mp + 2) / 5 + 1;
    let m = if mp < 10 {
        mp + 3
    } else {
        mp - 9
    };
    (if m <= 2 {
        y + 1
    } else {
        y
    }, m as u32, d as u32)
}

/// The ranges Hinnant's intermediate values stay in.
proof fn lemma_civil_ranges(doe: int)
    requires
        0 <= doe < 146097,
    ensures
        ({
            let yoe = (doe - doe / 1460 + doe / 36524 - doe / 146096) / 365;
            let doy = doe - (365 * yoe + yoe / 4 - yoe / 100);
            let mp = (5 * doy + 2) / 153;
            let d = doy - (153 * mp + 2) / 5 + 1;
            &&& 0 <= yoe <= 399
            &&& 0 <= doy <= 365
            &&& 0 <= mp <= 11
            &&& 1 <= d <= 31
        }),
{
}

/// Days since 1970-01-01 to `(year, month, day)`, exact for every date this
/// program can see.
pub fn civil_from_days(z: i64) -> (r: (i64, u32, u32))
    requires
        z <= i64::MAX - 719468,
    ensures
        r.0 == civil_spec(z as int).0,
        r.1 == civil_spec(z as int).1,
        r.2 == civil_spec(z as int).2,
        1 <= r.1 <= 12,
        1 <= r.2 <= 31,
{
    let z1: i64 = z + 719468;
    let era: i64;
    let doe: u64;
    if z1 >= 0 {
        let u = z1 as u64;
        era = (u / 146097) as i64;
        doe = u % 146097;
    } else {
        let u: u64 = (-(z1 + 1)) as u64 + 1;
        let q: u64 = (u + 146096) / 146097;
        era = -(q as i64);
        doe = q * 146097 - u;
        assert(z1 as int == era * 146097 + doe) by (nonlinear_arith)
            requires
                u == -(z1 as int),
                era == -(q as int),
                doe == q * 146097 - u,
        ;
        assert(z1 as int / 146097 == era && z1 as int % 146097 == doe as int) by (nonlinear_arith)
            requires
                z1 as int == era * 146097 + doe,
                0 <= doe < 146097,
        ;
    }
    assert(era as int == (z as int + 719468) / 146097);
    assert(doe as int == (z as int + 719468) % 146097);
    proof {
        lemma_civil_ranges(doe as int);
    }
    let yoe: u64 = (doe - doe / 1460 + doe / 36524 - doe / 146096) / 365;
    let y: i64 = yoe as i64 + era * 400;
    let doy: u64 = doe - (365 * yoe + yoe / 4 - yoe / 100);
    let mp: u64 = (5 * doy + 2) / 153;
    let d: u32 = (doy - (153 * mp + 2) / 5 + 1) as u32;
    let m: u32 = if mp < 10 {
        (mp + 3) as u32
    } else {
        (mp - 9) as u32
    };
    let year = if m <= 2 {
        y + 1
    } else {
        y
    };
    (year, m, d)
}

/// `n` as two digits, `0`-padded.
fn push_two(out: &mut Vec<char>, n: u64)
    requires
        n < 100,
    ensures
        final(out)@ == old(out)@ + zero_pad(decimal(n as nat), 2),
{
    let p = zero_padded(n, 2);
    push_all(out, &p);
}

/// `YYYYMMDDTHHMMSSZ`, UTC, for a time `secs` seconds after the epoch.
pub open spec fn utc_stamp_spec(secs: u64) -> Seq<char> {
    let days = secs / 86400;
    let sod = secs % 86400;
    let c = civil_spec(days as int);
    zero_pad(decimal(c.0 as nat), 4) + zero_pad(decimal(c.1 as nat), 2) + zero_pad(
        decimal(c.2 as nat),
        2,
    ) + "T"@ + zero_pad(decimal((sod / 3600) as nat), 2) + zero_pad(
        decimal(((sod % 3600) / 60) as nat),
        2,
    ) + zero_pad(decimal((sod % 60) as nat), 2) + "Z"@
}

/// The UTC stamp in a journal's file name: sortable, and readable by a human.
pub fn utc_stamp(secs: u64) -> (r: String)
    ensures
        r@ == utc_stamp_spec(secs),
{
    let days = (secs / 86400) as i64;
    let sod = secs % 86400;
    let (y, m, d) = civil_from_days(days);
    assert(y >= 0) by {
        lemma_civil_ranges((days as int + 719468) % 146097);
    }
    let mut out = zero_padded(y as u64, 4);
    let md = zero_padded(m as u64, 2);
    push_all(&mut out, &md);
    let dd = zero_padded(d as u64, 2);
    push_all(&mut out, &dd);
    push_str(&mut out, "T");
    push_two(&mut out, sod / 3600);
    push_two(&mut out, (sod % 3600) / 60);
    push_two(&mut out, sod % 60);
    push_str(&mut out, "Z");
    string_of(&out)
}

// ---- which files are batches, in which order ------------------------------------

/// The stem of a journal file name: `x.jsonl` gives `x`. `None` when the name
/// has no `jsonl` extension; a leading dot is never an extension's, so
/// `.jsonl` has none.
pub open spec fn jsonl_stem(name: Seq<u8>) -> Option<Seq<u8>> {
    if name.len() > 6 && name.skip(name.len() - 6) == seq![46u8, 106u8, 115u8, 111u8, 110u8, 108u8] {
        Some(name.take(name.len() - 6))
    } else {
        None
    }
}

/// The batch sequence number a file in the journal directory carries, if it
/// is a batch at all: a `.jsonl` file whose stem starts with a number.
pub open spec fn batch_seq(name: Seq<u8>) -> Option<u64> {
    match jsonl_stem(name) {
        Some(st) => parse_seq_spec(st),
        None => None,
    }
}

/// Does batch `a` (at position `i` of the listing) come before batch `b` (at
/// `j`)? By sequence number; a tie keeps the listing's order.
pub open spec fn batch_before(a: u64, i: int, b: u64, j: int) -> bool {
    a < b || (a == b && i < j)
}

fn ends_with_jsonl(name: &[u8]) -> (r: bool)
    ensures
        r == (name@.len() > 6 && name@.skip(name@.len() - 6) == seq![46u8, 106u8, 115u8, 111u8, 110u8, 108u8]),
{
    let n = name.len();
    if n <= 6 {
        return false;
    }
    let ghost t = seq![46u8, 106u8, 115u8, 111u8, 110u8, 108u8];
    let r = name[n - 6] == 46 && name[n - 5] == 106 && name[n - 4] == 115 && name[n - 3] == 111
        && name[n - 2] == 110 && name[n - 1] == 108;
    proof {
        let tail = name@.skip(n - 6);
        if r {
            assert(tail =~= t);
        } else {
            assert(tail[0] != t[0] || tail[1] != t[1] || tail[2] != t[2] || tail[3] != t[3]
                || tail[4] != t[4] || tail[5] != t[5]);
        }
    }
    r
}

/// The sequence number of one listed file, if it is a batch.
pub fn batch_seq_of(name: &[u8]) -> (r: Option<u64>)
    ensures
        r == batch_seq(name@),
{
    if !ends_with_jsonl(name) {
        return None;
    }
    let stem = copy_bytes_range(name, name.len() - 6);
    parse_seq(&stem)
}

/// The batches among the files of the journal directory, oldest first: the
/// positions of the `.jsonl` files whose name starts with a sequence number,
/// ordered by that number, not by the bytes of the name (`1000000-…` comes
/// after `999999-…`).
pub fn batch_order(names: &[Vec<u8>]) -> (r: Vec<usize>)
    ensures
        r@.no_duplicates(),
        forall|x: usize| r@.contains(x) <==> (x < names@.len() && batch_seq(names@[x as int]@) is Some),
        forall|i: int, j: int|
            0 <= i < j < r@.len() ==> batch_before(
                batch_seq(names@[r@[i] as int]@)->0,
                r@[i] as int,
                batch_seq(names@[r@[j] as int]@)->0,
                r@[j] as int,
            ),
{
    let mut pos: Vec<usize> = Vec::new();
    let mut keys: Vec<Vec<u64>> = Vec::new();
    let mut i: usize = 0;
    while i < names.len()
        invariant
            0 <= i <= names@.len(),
            pos@.len() == keys@.len(),
            forall|k: int| 0 <= k < pos@.len() ==> #[trigger] pos@[k] < i,
            forall|k: int, l: int| 0 <= k < l < pos@.len() ==> pos@[k] < pos@[l],
            forall|k: int|
                0 <= k < pos@.len() ==> batch_seq(names@[#[trigger] pos@[k] as int]@) is Some
                    && keys@[k]@ == seq![batch_seq(names@[pos@[k] as int]@)->0, pos@[k] as u64],
            forall|x: usize| x < i && batch_seq(names@[x as int]@) is Some ==> pos@.contains(x),
        decreases names@.len() - i,
    {
        match batch_seq_of(&names[i]) {
            Some(q) => {
                let ghost old_pos = pos@;
                pos.push(i);
                keys.push(vec![q, i as u64]);
                proof {
                    assert forall|x: usize| x < i + 1 && batch_seq(names@[x as int]@) is Some implies pos@.contains(
                        x,
                    ) by {
                        lemma_push_contains(old_pos, i, x);
                    }
                }
            },
            None => {},
        }
        i += 1;
    }
    proof {
        assert forall|a: int, b: int|
            0 <= a < keys@.len() && 0 <= b < keys@.len() && a != b implies key_views(keys@)[a]
            != key_views(keys@)[b] by {
            assert(key_views(keys@)[a] == keys@[a]@);
            assert(key_views(keys@)[b] == keys@[b]@);
            assert(keys@[a]@[1] == pos@[a] as u64);
            assert(keys@[b]@[1] == pos@[b] as u64);
            if a < b {
                assert(pos@[a] < pos@[b]);
            } else {
                assert(pos@[b] < pos@[a]);
            }
        }
    }
    let order = sort_indices(&keys);
    let mut out: Vec<usize> = Vec::new();
    let mut k: usize = 0;
    while k < order.len()
        invariant
            0 <= k <= order@.len() == keys@.len() == pos@.len(),
            out@.len() == k,
            forall|t: int| 0 <= t < k ==> out@[t] == pos@[#[trigger] order@[t] as int],
            forall|x: usize| order@.contains(x) <==> x < keys@.len(),
        decreases order@.len() - k,
    {
        assert(order@.contains(order@[k as int]));
        out.push(pos[order[k]]);
        k += 1;
    }
    proof {
        let ks = key_views(keys@);
        assert forall|a: int, b: int| 0 <= a < b < out@.len() implies batch_before(
            batch_seq(names@[out@[a] as int]@)->0,
            out@[a] as int,
            batch_seq(names@[out@[b] as int]@)->0,
            out@[b] as int,
        ) by {
            let oa = order@[a] as int;
            let ob = order@[b] as int;
            assert(order@.contains(order@[a]));
            assert(order@.contains(order@[b]));
            assert(lex_lt(ks[oa], ks[ob]));
            assert(ks[oa] == keys@[oa]@);
            assert(ks[ob] == keys@[ob]@);
            lemma_lex_pair(ks[oa], ks[ob]);
        }
        assert forall|a: int, b: int| 0 <= a < b < out@.len() implies out@[a] != out@[b] by {
            let oa = order@[a] as int;
            let ob = order@[b] as int;
            assert(order@.contains(order@[a]));
            assert(order@.contains(order@[b]));
            assert(order@[a] != order@[b]);
            if oa < ob {
                assert(pos@[oa] < pos@[ob]);
            } else {
                assert(pos@[ob] < pos@[oa]);
            }
        }
        assert forall|x: usize| x < names@.len() && batch_seq(names@[x as int]@) is Some implies out@.contains(
            x,
        ) by {
            {
                assert(pos@.contains(x));
                let k = choose|k: int| 0 <= k < pos@.len() && pos@[k] == x;
                let ku = k as usize;
                assert(ku < keys@.len());
                assert(order@.contains(ku));
                let t = choose|t: int| 0 <= t < order@.len() && order@[t] == ku;
                assert(out@[t] == pos@[order@[t] as int]);
                assert(out@[t] == x);
            }
        }
        assert forall|x: usize| out@.contains(x) implies x < names@.len() && batch_seq(
            names@[x as int]@,
        ) is Some by {
            {
                let t = choose|t: int| 0 <= t < out@.len() && out@[t] == x;
                assert(order@.contains(order@[t]));
                assert(pos@[order@[t] as int] == x);
            }
        }
    }
    out
}

proof fn lemma_lex_pair(a: Seq<u64>, b: Seq<u64>)
    requires
        a.len() == 2,
        b.len() == 2,
        lex_lt(a, b),
    ensures
        a[0] < b[0] || (a[0] == b[0] && a[1] < b[1]),
{
    reveal_with_fuel(lex_lt, 3);
    if a[0] == b[0] {
        assert(a.drop_first().drop_first().len() == 0);
        assert(lex_lt(a.drop_first(), b.drop_first()));
    }
}

} // verus!
