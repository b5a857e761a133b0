//! The command line, as plain data: what the binary's argument parser fills
//! in, and the decisions that read it.

use vstd::prelude::*;
use crate::plan::OnCollision;

verus! {

/// `--on-collision`, as spelled on the command line.
#[derive(Debug, Clone, Copy, PartialEq, Eq, Structural)]
pub enum CollisionArg {
    /// Insert `-N` before the extension, smallest free `N >= 2`.
    Number,
    /// Leave every colliding entry alone and report it.
    Skip,
    /// Refuse the entire batch.
    Fail,
}

pub open spec fn collision_policy(a: CollisionArg) -> OnCollision {
    match a {
        CollisionArg::Number => OnCollision::Number,
        CollisionArg::Skip => OnCollision::Skip,
        CollisionArg::Fail => OnCollision::Fail,
    }
}

impl From<CollisionArg> for OnCollision {
    fn from(a: CollisionArg) -> (r: Self) {
        match a {
            CollisionArg::Number => OnCollision::Number,
            CollisionArg::Skip => OnCollision::Skip,
            CollisionArg::Fail => OnCollision::Fail,
        }
    }
}

impl vstd::std_specs::convert::FromSpecImpl<CollisionArg> for OnCollision {
    open spec fn obeys_from_spec() -> bool {
        true
    }

    open spec fn from_spec(a: CollisionArg) -> OnCollision {
        collision_policy(a)
    }
}

/// The planner's collision policy for an `--on-collision` value.
pub fn on_collision(a: CollisionArg) -> (r: OnCollision)
    ensures
        r == collision_policy(a),
{
    OnCollision::from(a)
}

/// A forward run's arguments.
#[derive(Debug)]
pub struct Cli {
    /// Files and directories to clean, as raw bytes.
    pub paths: Vec<Vec<u8>>,
    /// Perform the renames, recording an undo journal.
    pub execute: bool,
    /// Preview only; the explicit form of the default.
    pub dry_run: bool,
    /// Descend into directories; without it a directory argument has only its
    /// own name cleaned.
    pub recursive: bool,
    /// What to do when two names want the same destination.
    pub on_collision: CollisionArg,
    /// List unchanged entries too.
    pub verbose: u8,
    /// Errors only.
    pub quiet: bool,
    /// JSON on stdout, diagnostics on stderr.
    pub json: bool,
    /// Anything that is not a forward run.
    pub command: Option<Command>,
}

impl Cli {
    /// Does the preview list unchanged entries?
    pub fn show_unchanged(&self) -> (r: bool)
        ensures
            r == (self.verbose > 0),
    {
        self.verbose > 0
    }
}

/// Everything that is not a forward run.
#[derive(Debug)]
pub enum Command {
    /// Put a recorded batch of renames back.
    Undo(Undo),
}

/// `detoxrs undo`.
#[derive(Debug)]
pub struct Undo {
    /// The batch to revert, as `--list` prints it.
    pub batch_id: Option<String>,
    /// Revert the most recent batch.
    pub last: bool,
    /// Show the recorded batches and exit.
    pub list: bool,
}

/// What an `undo` invocation asks for.
#[derive(Debug, Clone, PartialEq, Eq)]
pub enum UndoTarget {
    /// List the recorded batches.
    List,
    /// The most recent batch with something to undo.
    Last,
    /// The batch with this id.
    Batch(String),
    /// Neither an id nor `--last`: a usage error.
    Missing,
}

impl Undo {
    /// What this invocation asks for: `--list` first, then `--last`, then an
    /// id.
    pub fn target(&self) -> (t: UndoTarget)
        ensures
            self.list ==> t == UndoTarget::List,
            !self.list && self.last ==> t == UndoTarget::Last,
            !self.list && !self.last ==> t == (match self.batch_id {
                Some(id) => UndoTarget::Batch(id),
                None => UndoTarget::Missing,
            }),
    {
        if self.list {
            UndoTarget::List
        } else if self.last {
            UndoTarget::Last
        } else {
            match &self.batch_id {
                Some(id) => UndoTarget::Batch(id.clone()),
                None => UndoTarget::Missing,
            }
        }
    }
}

} // verus!
