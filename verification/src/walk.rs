//! The snapshot walk's decisions.
//!
//! The walk itself is I/O and belongs to the binary: it runs to completion
//! before anything else happens, so the list of entries is frozen before any
//! name is decided. What it decides along the way is here: which names are
//! candidates at all, what is skipped while recursing, what kind an entry is,
//! which destination must be looked up beside a named argument, and what a
//! case-flipped lookup says about the volume.

use vstd::prelude::*;
use vstd::utf8::{valid_utf8, decode_utf8};
use crate::fsops::{same_entry, same_entry_spec};
use crate::pipeline::{TransformResult, TransformView, transform, transform_spec};
use crate::plan::{EntryKind, Ident, VolumeCase, copy_bytes};
use crate::policy::Policy;
use crate::text::{chars_of, push_all, string_of};
use crate::unicode::utf8_text;

verus! {

/// Why there is no snapshot. Both end the run before any output: a walk that
/// could not see what it was asked to see does not get to print a partial
/// preview.
#[derive(Debug, Clone, PartialEq, Eq)]
pub enum WalkError {
    /// A path named on the command line could not be inspected at all: the
    /// path as shown, and the error's text.
    Unreadable(String, String),
    /// Descriptor exhaustion, with the error's text. Continuing would produce
    /// a silently short list.
    OutOfDescriptors(String),
}

pub enum WalkErrorView {
    Unreadable(Seq<char>, Seq<char>),
    OutOfDescriptors(Seq<char>),
}

impl View for WalkError {
    type V = WalkErrorView;

    open spec fn view(&self) -> WalkErrorView {
        match self {
            WalkError::Unreadable(p, e) => WalkErrorView::Unreadable(p@, e@),
            WalkError::OutOfDescriptors(e) => WalkErrorView::OutOfDescriptors(e@),
        }
    }
}

pub open spec fn walk_error_text(e: WalkErrorView) -> Seq<char> {
    match e {
        WalkErrorView::Unreadable(p, err) => "cannot read "@ + p + ": "@ + err,
        WalkErrorView::OutOfDescriptors(err) => "out of file descriptors ("@ + err
            + "); refusing to plan from an incomplete walk"@,
    }
}

impl WalkError {
    /// The error as the report words it.
    pub fn message(&self) -> (s: String)
        ensures
            s@ == walk_error_text(self@),
    {
        match self {
            WalkError::Unreadable(p, e) => {
                let mut out = chars_of("cannot read ");
                let pc = chars_of(p.as_str());
                push_all(&mut out, &pc);
                let sep = chars_of(": ");
                push_all(&mut out, &sep);
                let ec = chars_of(e.as_str());
                push_all(&mut out, &ec);
                string_of(&out)
            },
            WalkError::OutOfDescriptors(e) => {
                let mut out = chars_of("out of file descriptors (");
                let ec = chars_of(e.as_str());
                push_all(&mut out, &ec);
                let tail = chars_of("); refusing to plan from an incomplete walk");
                push_all(&mut out, &tail);
                string_of(&out)
            },
        }
    }
}

/// `.` and `..` have no basename to clean: they are good walk roots, never
/// candidates themselves.
pub open spec fn candidate_name(name: Seq<u8>) -> bool {
    name != seq![46u8] && name != seq![46u8, 46u8]
}

pub fn is_candidate_name(name: &[u8]) -> (r: bool)
    ensures
        r == candidate_name(name@),
{
    if name.len() == 1 && name[0] == 46 {
        assert(name@ =~= seq![46u8]);
        false
    } else if name.len() == 2 && name[0] == 46 && name[1] == 46 {
        assert(name@ =~= seq![46u8, 46u8]);
        false
    } else {
        proof {
            if name@ == seq![46u8] {
                assert(name@.len() == 1);
            }
            if name@ == seq![46u8, 46u8] {
                assert(name@.len() == 2);
            }
        }
        true
    }
}

/// Dotfiles are skipped while recursing (and processed when named).
pub fn is_dotfile(name: &[u8]) -> (r: bool)
    ensures
        r == (name@.len() > 0 && name@[0] == 46u8),
{
    name.len() > 0 && name[0] == 46
}

/// `.git`, `.hg` and `.svn`, as bytes.
pub open spec fn vcs_names() -> Seq<Seq<u8>> {
    seq![seq![46u8, 103u8, 105u8, 116u8], seq![46u8, 104u8, 103u8], seq![46u8, 115u8, 118u8, 110u8]]
}

/// A version-control directory: skipped while recursing, unconditionally.
pub open spec fn vcs_dir(is_dir: bool, name: Seq<u8>) -> bool {
    is_dir && vcs_names().contains(name)
}

fn bytes_equal(a: &[u8], b: &[u8]) -> (r: bool)
    ensures
        r == (a@ == b@),
{
    if a.len() != b.len() {
        return false;
    }
    let mut i: usize = 0;
    while i < a.len()
        invariant
            a@.len() == b@.len(),
            0 <= i <= a@.len(),
            forall|j: int| 0 <= j < i ==> a@[j] == b@[j],
        decreases a@.len() - i,
    {
        if a[i] != b[i] {
            return false;
        }
        i += 1;
    }
    assert(a@ =~= b@);
    true
}

pub fn is_vcs_dir(is_dir: bool, name: &[u8]) -> (r: bool)
    ensures
        r == vcs_dir(is_dir, name@),
{
    if !is_dir {
        return false;
    }
    let git: [u8; 4] = [46, 103, 105, 116];
    let hg: [u8; 3] = [46, 104, 103];
    let svn: [u8; 4] = [46, 115, 118, 110];
    let r = bytes_equal(name, &git) || bytes_equal(name, &hg) || bytes_equal(name, &svn);
    proof {
        let ns = vcs_names();
        assert(git@ =~= ns[0]);
        assert(hg@ =~= ns[1]);
        assert(svn@ =~= ns[2]);
        if ns.contains(name@) {
            let k = choose|k: int| 0 <= k < ns.len() && ns[k] == name@;
        }
        if r {
            if name@ == ns[0] {
                assert(ns.contains(ns[0]));
            } else if name@ == ns[1] {
                assert(ns.contains(ns[1]));
            } else {
                assert(ns.contains(ns[2]));
            }
        }
    }
    r
}

/// `EMFILE` (24) or `ENFILE` (23): the walk cannot go on without producing a
/// silently short list.
pub fn is_descriptor_exhaustion(raw_os_error: Option<i32>) -> (r: bool)
    ensures
        r == (raw_os_error == Some(23i32) || raw_os_error == Some(24i32)),
{
    match raw_os_error {
        Some(n) => n == 23 || n == 24,
        None => false,
    }
}

/// What an entry is, from its own (never followed) file type.
pub fn kind_from(is_symlink: bool, is_dir: bool, is_file: bool) -> (k: EntryKind)
    ensures
        k == (if is_symlink {
            EntryKind::Symlink
        } else if is_dir {
            EntryKind::Dir
        } else if is_file {
            EntryKind::File
        } else {
            EntryKind::Other
        }),
{
    if is_symlink {
        EntryKind::Symlink
    } else if is_dir {
        EntryKind::Dir
    } else if is_file {
        EntryKind::File
    } else {
        EntryKind::Other
    }
}

/// The destination a named argument wants, when it wants one: the name
/// decodes, the pipeline has an output for it, and that output differs. A
/// file already there beside it must be frozen into the snapshot too, since
/// the planner only sees the snapshot.
pub open spec fn wanted_destination_spec(name: Seq<u8>, p: Policy) -> Option<Seq<char>> {
    if !valid_utf8(name) {
        None
    } else {
        match transform_spec(decode_utf8(name), p) {
            TransformView::Name { text, truncated } => if text == decode_utf8(name) {
                None
            } else {
                Some(text)
            },
            TransformView::Unrepresentable(_) => None,
        }
    }
}

pub fn wanted_destination(name: &[u8], p: &Policy) -> (r: Option<String>)
    ensures
        match r {
            Some(t) => wanted_destination_spec(name@, *p) == Some(t@),
            None => wanted_destination_spec(name@, *p) is None,
        },
{
    match utf8_text(name) {
        None => None,
        Some(chars) => {
            let text = string_of(&chars);
            match transform(text.as_str(), p) {
                TransformResult::Name(o) => {
                    let a = chars_of(o.text.as_str());
                    if crate::text::chars_eq(&a, &chars) {
                        None
                    } else {
                        Some(o.text)
                    }
                },
                TransformResult::Unrepresentable(_) => None,
            }
        },
    }
}

/// Is the entry found at a named argument's destination a second occupant?
/// Not when it is the argument itself, seen again under its destination's
/// spelling (a lookup that folds NFD and NFC together does that), and only
/// when both identities are known.
pub fn is_other_occupant(own: Option<(u64, u64)>, found: Option<(u64, u64)>) -> (r: bool)
    ensures
        r == !(own is Some && found is Some && own == found),
{
    match (own, found) {
        (Some(a), Some(b)) => !(a.0 == b.0 && a.1 == b.1),
        _ => true,
    }
}

// ---- case sensitivity ---------------------------------------------------------------------

pub open spec fn ascii_alpha(c: char) -> bool {
    ('a' <= c && c <= 'z') || ('A' <= c && c <= 'Z')
}

/// `c` with its ASCII case flipped; anything else unchanged.
pub open spec fn flip_char(c: char) -> char {
    if 'A' <= c && c <= 'Z' {
        ((c as u32) + 32) as char
    } else if 'a' <= c && c <= 'z' {
        ((c as u32) - 32) as char
    } else {
        c
    }
}

/// `s` with every ASCII letter's case flipped, or `None` when it has no
/// ASCII letter. ASCII only: a Unicode-aware flip can change the length.
pub open spec fn ascii_case_flipped_spec(s: Seq<char>) -> Option<Seq<char>> {
    if exists|i: int| 0 <= i < s.len() && #[trigger] ascii_alpha(s[i]) {
        Some(s.map_values(|c: char| flip_char(c)))
    } else {
        None
    }
}

fn flip(c: char) -> (r: char)
    ensures
        r == flip_char(c),
{
    if 'A' <= c && c <= 'Z' {
        let u = (c as u32) + 32;
        assert(u < 128);
        (u as u8) as char
    } else if 'a' <= c && c <= 'z' {
        let u = (c as u32) - 32;
        assert(u < 128);
        (u as u8) as char
    } else {
        c
    }
}

pub fn ascii_case_flipped(s: &str) -> (r: Option<String>)
    ensures
        match r {
            Some(t) => ascii_case_flipped_spec(s@) == Some(t@),
            None => ascii_case_flipped_spec(s@) is None,
        },
{
    let c = chars_of(s);
    let mut any = false;
    let mut out: Vec<char> = Vec::new();
    let mut i: usize = 0;
    while i < c.len()
        invariant
            0 <= i <= c@.len(),
            c@ == s@,
            out@ == c@.take(i as int).map_values(|x: char| flip_char(x)),
            any == exists|j: int| 0 <= j < i && #[trigger] ascii_alpha(c@[j]),
        decreases c@.len() - i,
    {
        let x = c[i];
        if ('a' <= x && x <= 'z') || ('A' <= x && x <= 'Z') {
            assert(ascii_alpha(c@[i as int]));
            any = true;
        }
        out.push(flip(x));
        i += 1;
        assert(out@ =~= c@.take(i as int).map_values(|x: char| flip_char(x)));
    }
    assert(c@.take(c@.len() as int) =~= c@);
    if any {
        Some(string_of(&out))
    } else {
        None
    }
}

/// What looking up a name's case-flipped spelling found.
#[derive(Debug, Clone, Copy, PartialEq, Eq, Structural)]
pub enum Probe {
    /// An entry, with its identity.
    Found(Ident),
    /// Nothing by that spelling.
    NotFound,
    /// Some other error, which says nothing about case folding.
    Unknown,
}

/// What one lookup says about the volume: the same entry means the volume
/// folded the two spellings together; a different entry, or none, means it
/// keeps them apart; any other error says nothing.
pub fn case_verdict(own: Ident, probe: Probe) -> (r: Option<VolumeCase>)
    ensures
        r == (match probe {
            Probe::Found(other) => if same_entry_spec(other, own) {
                Some(VolumeCase::Insensitive)
            } else {
                Some(VolumeCase::Sensitive)
            },
            Probe::NotFound => Some(VolumeCase::Sensitive),
            Probe::Unknown => None,
        }),
{
    match probe {
        Probe::Found(other) => if same_entry(other, own) {
            Some(VolumeCase::Insensitive)
        } else {
            Some(VolumeCase::Sensitive)
        },
        Probe::NotFound => Some(VolumeCase::Sensitive),
        Probe::Unknown => None,
    }
}

/// The spelling to probe for an entry's name: its ASCII case flipped, when
/// the name is text with an ASCII letter in it.
pub fn probe_name(name: &[u8]) -> (r: Option<String>)
    ensures
        match r {
            Some(t) => valid_utf8(name@) && ascii_case_flipped_spec(decode_utf8(name@)) == Some(t@),
            None => !valid_utf8(name@) || ascii_case_flipped_spec(decode_utf8(name@)) is None,
        },
{
    match utf8_text(name) {
        None => None,
        Some(chars) => {
            let text = string_of(&chars);
            ascii_case_flipped(text.as_str())
        },
    }
}

} // verus!
