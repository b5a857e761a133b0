//! The rename entry point's decisions: the error taxonomy, which errors end
//! a batch, and the ladder from the atomic no-clobber rename down to
//! check-then-rename.
//!
//! Everything that changes a name on disk goes through one no-clobber rename
//! inside one pinned directory; the system calls are the binary's. What
//! happens after each answer is decided here.

use vstd::prelude::*;
use crate::plan::Ident;
use crate::text::{chars_of, decimal, decimal_chars, push_all, string_of};

verus! {

/// Why a rename did not happen. Every variant is a per-item error;
/// `ReadOnlyFilesystem` and `NoSpace` also end the batch, because every
/// remaining item would fail the same way.
#[derive(Debug, Clone, Copy, PartialEq, Eq, Structural)]
pub enum RenameErr {
    /// `EEXIST`: the destination was taken between the walk and the rename.
    AlreadyExists,
    /// `EACCES`/`EPERM`.
    PermissionDenied,
    /// `EROFS`. Ends the batch.
    ReadOnlyFilesystem,
    /// `ENOSPC`/`EDQUOT`. Ends the batch.
    NoSpace,
    /// `ENAMETOOLONG`: the detected length limit was wrong.
    NameTooLong,
    /// `ENOENT`: raced away since the walk.
    NotFound,
    /// The no-replace flag is not supported here: triggers the demotion.
    Unsupported,
    /// Any other errno, carried verbatim.
    Other(i32),
}

/// A signed number in decimal.
pub open spec fn signed_decimal(n: int) -> Seq<char> {
    if n < 0 {
        "-"@ + decimal((-n) as nat)
    } else {
        decimal(n as nat)
    }
}

/// What the report says about a rename error.
pub open spec fn err_text(e: RenameErr) -> Seq<char> {
    match e {
        RenameErr::AlreadyExists => "destination already exists (EEXIST)"@,
        RenameErr::PermissionDenied => "permission denied (EACCES/EPERM)"@,
        RenameErr::ReadOnlyFilesystem => "read-only filesystem (EROFS)"@,
        RenameErr::NoSpace => "no space or quota exceeded (ENOSPC/EDQUOT)"@,
        RenameErr::NameTooLong => "name too long (ENAMETOOLONG); the detected length limit was wrong"@,
        RenameErr::NotFound => "no longer there (ENOENT)"@,
        RenameErr::Unsupported => "atomic no-clobber rename unsupported here"@,
        RenameErr::Other(n) => "rename failed (errno "@ + signed_decimal(n as int) + ")"@,
    }
}

impl RenameErr {
    /// Does this error mean every remaining item will fail too?
    pub fn aborts_batch(self) -> (r: bool)
        ensures
            r == (self == RenameErr::ReadOnlyFilesystem || self == RenameErr::NoSpace),
    {
        match self {
            RenameErr::ReadOnlyFilesystem | RenameErr::NoSpace => true,
            _ => false,
        }
    }

    /// The error as the report words it.
    pub fn message(&self) -> (s: String)
        ensures
            s@ == err_text(*self),
    {
        match self {
            RenameErr::AlreadyExists => String::from_str("destination already exists (EEXIST)"),
            RenameErr::PermissionDenied => String::from_str("permission denied (EACCES/EPERM)"),
            RenameErr::ReadOnlyFilesystem => String::from_str("read-only filesystem (EROFS)"),
            RenameErr::NoSpace => String::from_str("no space or quota exceeded (ENOSPC/EDQUOT)"),
            RenameErr::NameTooLong => String::from_str(
                "name too long (ENAMETOOLONG); the detected length limit was wrong",
            ),
            RenameErr::NotFound => String::from_str("no longer there (ENOENT)"),
            RenameErr::Unsupported => String::from_str("atomic no-clobber rename unsupported here"),
            RenameErr::Other(n) => {
                let mut out = chars_of("rename failed (errno ");
                if *n < 0 {
                    let head = chars_of("-");
                    push_all(&mut out, &head);
                    let m: u64 = (-(*n as i64)) as u64;
                    let d = decimal_chars(m);
                    push_all(&mut out, &d);
                } else {
                    let d = decimal_chars(*n as u64);
                    push_all(&mut out, &d);
                }
                let tail = chars_of(")");
                push_all(&mut out, &tail);
                string_of(&out)
            },
        }
    }
}

/// Which guarantee a run had: the atomic no-clobber rename, or the demoted
/// check-then-rename with its documented window. Only Unix has the atomic
/// path, and only until a filesystem refuses it.
pub open spec fn atomicity_text(unix: bool, demoted: bool) -> Seq<char> {
    if unix && !demoted {
        "renameat-noreplace"@
    } else {
        "check-then-rename"@
    }
}

/// What `--json` reports about the guarantee this run actually had.
pub fn atomicity(unix: bool, demoted: bool) -> (s: &'static str)
    ensures
        s@ == atomicity_text(unix, demoted),
{
    if unix && !demoted {
        "renameat-noreplace"
    } else {
        "check-then-rename"
    }
}

/// Is this the same directory entry? `(dev, ino)` only: a rename changes
/// neither, while an ordinary write changes `mtime` and a new hardlink
/// changes `nlink`.
pub open spec fn same_entry_spec(a: Ident, b: Ident) -> bool {
    a.dev == b.dev && a.ino == b.ino
}

pub fn same_entry(fresh: Ident, recorded: Ident) -> (r: bool)
    ensures
        r == same_entry_spec(fresh, recorded),
{
    fresh.dev == recorded.dev && fresh.ino == recorded.ino
}

/// What the rename entry point does after the atomic no-clobber rename
/// answered.
#[derive(Debug, Clone, Copy, PartialEq, Eq, Structural)]
pub enum NoReplaceNext {
    /// The rename happened.
    Done,
    /// `EEXIST`: look whether source and destination are one entry (a
    /// respell of a name onto itself); if so, rename plainly.
    CheckSameEntry,
    /// The flag is unsupported: demote the run to check-then-rename.
    Demote,
    /// The rename failed.
    Fail(RenameErr),
}

pub fn after_noreplace(r: Result<(), RenameErr>) -> (n: NoReplaceNext)
    ensures
        n == (match r {
            Ok(()) => NoReplaceNext::Done,
            Err(RenameErr::AlreadyExists) => NoReplaceNext::CheckSameEntry,
            Err(RenameErr::Unsupported) => NoReplaceNext::Demote,
            Err(e) => NoReplaceNext::Fail(e),
        }),
{
    match r {
        Ok(()) => NoReplaceNext::Done,
        Err(RenameErr::AlreadyExists) => NoReplaceNext::CheckSameEntry,
        Err(RenameErr::Unsupported) => NoReplaceNext::Demote,
        Err(e) => NoReplaceNext::Fail(e),
    }
}

/// On the check-then-rename path: may the plain rename go ahead? Not when
/// anything at all occupies the destination (a dangling symlink too), unless
/// it is the source itself.
pub fn may_rename_plainly(destination_taken: bool, same_entry: bool) -> (r: Result<(), RenameErr>)
    ensures
        r == (if destination_taken && !same_entry {
            Err::<(), RenameErr>(RenameErr::AlreadyExists)
        } else {
            Ok::<(), RenameErr>(())
        }),
{
    if destination_taken && !same_entry {
        Err(RenameErr::AlreadyExists)
    } else {
        Ok(())
    }
}

/// What a run's rename entry point remembers between items: whether it has
/// given up on the atomic path, and which one-time warnings it has printed.
/// Demotion lasts for the rest of the run.
pub struct PlatformRenameOps {
    unix: bool,
    demoted: bool,
    warned_demoted: bool,
    warned_same_inode: bool,
}

/// The run's rename state as plain values.
pub struct RenameState {
    pub unix: bool,
    pub demoted: bool,
    pub warned_demoted: bool,
    pub warned_same_inode: bool,
}

impl View for PlatformRenameOps {
    type V = RenameState;

    closed spec fn view(&self) -> RenameState {
        RenameState {
            unix: self.unix,
            demoted: self.demoted,
            warned_demoted: self.warned_demoted,
            warned_same_inode: self.warned_same_inode,
        }
    }
}

/// How the rename entry point starts on an item.
#[derive(Debug, Clone, Copy, PartialEq, Eq, Structural)]
pub enum RenameRoute {
    /// The atomic no-clobber rename, then [`after_noreplace`].
    NoReplace,
    /// Check the destination, then rename plainly: the demoted path, and the
    /// only one off Unix.
    CheckThenRename,
}

/// The warning printed, once, when a run demotes.
pub open spec fn demoted_warning_text() -> Seq<char> {
    "detoxrs: warning: this filesystem does not support atomic no-clobber rename; falling back to check-then-rename for the rest of this run. Renames still never overwrite an existing file."@
}

/// The warning printed, once, the first time a rename of a name onto itself
/// is refused as an existing destination.
pub open spec fn same_inode_warning_text() -> Seq<char> {
    "detoxrs: warning: this filesystem reported an existing destination for a rename of a name onto itself; using a plain rename for that item. Please report this: it is a filesystem behaviour detoxrs has not measured."@
}

pub fn demoted_warning() -> (s: &'static str)
    ensures
        s@ == demoted_warning_text(),
{
    let s = "detoxrs: warning: this filesystem does not support atomic no-clobber rename; falling back to check-then-rename for the rest of this run. Renames still never overwrite an existing file.";
    s
}

pub fn same_inode_warning() -> (s: &'static str)
    ensures
        s@ == same_inode_warning_text(),
{
    let s = "detoxrs: warning: this filesystem reported an existing destination for a rename of a name onto itself; using a plain rename for that item. Please report this: it is a filesystem behaviour detoxrs has not measured.";
    s
}

impl PlatformRenameOps {
    /// A run's state before its first rename: not demoted, nothing warned.
    pub fn new(unix: bool) -> (ops: Self)
        ensures
            ops@ == (RenameState {
                unix,
                demoted: false,
                warned_demoted: false,
                warned_same_inode: false,
            }),
    {
        PlatformRenameOps { unix, demoted: false, warned_demoted: false, warned_same_inode: false }
    }

    /// Has this run already given up on the atomic path?
    pub fn is_demoted(&self) -> (r: bool)
        ensures
            r == self@.demoted,
    {
        self.demoted
    }

    /// Give up on the atomic path for the rest of the run. The result says
    /// whether to print [`demoted_warning`]: only the first time.
    pub fn demote(&mut self) -> (warn: bool)
        ensures
            warn == !old(self)@.warned_demoted,
            final(self)@ == (RenameState { demoted: true, warned_demoted: true, ..old(self)@ }),
    {
        let warn = !self.warned_demoted;
        self.demoted = true;
        self.warned_demoted = true;
        warn
    }

    /// Note a rename of a name onto itself that the atomic call refused. The
    /// result says whether to print [`same_inode_warning`]: only the first
    /// time.
    pub fn warn_same_inode_once(&mut self) -> (warn: bool)
        ensures
            warn == !old(self)@.warned_same_inode,
            final(self)@ == (RenameState { warned_same_inode: true, ..old(self)@ }),
    {
        let warn = !self.warned_same_inode;
        self.warned_same_inode = true;
        warn
    }

    /// Where a rename starts: atomically on Unix until demoted, else by
    /// checking first. A demoted run does not pay again for a call known to
    /// fail.
    pub fn route(&self) -> (r: RenameRoute)
        ensures
            r == (if self@.unix && !self@.demoted {
                RenameRoute::NoReplace
            } else {
                RenameRoute::CheckThenRename
            }),
    {
        if self.unix && !self.demoted {
            RenameRoute::NoReplace
        } else {
            RenameRoute::CheckThenRename
        }
    }

    /// The guarantee this run actually had, as `--json` reports it.
    pub fn atomicity(&self) -> (s: &'static str)
        ensures
            s@ == atomicity_text(self@.unix, self@.demoted),
    {
        atomicity(self.unix, self.demoted)
    }
}

/// Once demoted, a run stays demoted, and its warning is not printed again.
pub proof fn law_demotion_is_sticky(before: RenameState, after: RenameState, warn: bool)
    requires
        before.demoted,
        before.warned_demoted,
        warn == !before.warned_demoted,
        after == (RenameState { demoted: true, warned_demoted: true, ..before }),
    ensures
        !warn,
        after == before,
        !(after.unix && !after.demoted),
{
}

/// Are `from` and `to` the very same file, as two lookups through the pinned
/// directory saw them? Both lookups must have succeeded, and `(dev, ino)`
/// must agree. Two hardlinks to one file also answer `true`, which is safe: a
/// rename between two names of one file does nothing.
pub fn same_inode(from: Result<Ident, RenameErr>, to: Result<Ident, RenameErr>) -> (r: bool)
    ensures
        r == (match (from, to) {
            (Ok(a), Ok(b)) => same_entry_spec(a, b),
            _ => false,
        }),
{
    match (from, to) {
        (Ok(a), Ok(b)) => a.dev == b.dev && a.ino == b.ino,
        _ => false,
    }
}

} // verus!
