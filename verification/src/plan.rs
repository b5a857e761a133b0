//! The collision engine: a pure function of a frozen walk snapshot.
//!
//! `plan()` performs no I/O. Every destination is decided before anything is
//! written, and the allocation order is a total order over the source names
//! rather than the walk order.
//!
//! Two collision layers live here: intra-batch (two sources in one directory
//! want one destination) and pre-existing destination (against the snapshot's
//! own entries). The comparison key is always NFC and is case-folded only
//! when the caller says the volume is case-insensitive.

use vstd::prelude::*;
use vstd::utf8::{
    valid_utf8, decode_utf8, encode_utf8, encode_utf8_valid_utf8, encode_utf8_decode_utf8,
};
use crate::decode::{Decoded, decode};
use crate::order::{
    lex_lt, sorted_by, distinct_keys, key_views, sort_indices, is_sorted_perm, lemma_sorted_perm_unique,
};
use crate::pipeline::{
    TransformResult, TransformView, Unrepresentable, transform, transform_spec,
};
use crate::policy::Policy;
use crate::text::{
    decimal, decimal_chars,
    byte_len, unit_len, chars_of, chars_eq, chars_range, string_of, push_all, lens_of, lemma_len_concat,
    lossy_of, lossy_text,
};
use crate::journal::debug_quoted;
use crate::truncate::{
    Limits, fits_spec, split_extension_spec, truncate_graphemes_spec, split_extension_chars,
    truncate_graphemes_chars,
};
use crate::unicode::{nfc_of, lowercase_of, nfc, to_lowercase, utf8_text};

verus! {

/// What a snapshot entry is. Nothing here changes the transform; the binary
/// needs it to pick the right syscall and the report to print a trailing `/`.
#[derive(Debug, Clone, Copy, PartialEq, Eq, Structural)]
pub enum EntryKind {
    /// A regular file.
    File,
    /// A directory. Renaming one must never happen before an entry inside it.
    Dir,
    /// A symlink. Renamed as the link itself, never followed.
    Symlink,
    /// FIFO, socket, device, or anything else.
    Other,
}

/// Identity captured at walk time, so the binary can verify that the entry it
/// is about to rename is still the entry that was planned.
#[derive(Debug, Clone, Copy, PartialEq, Eq, Structural)]
pub struct Ident {
    /// Device number.
    pub dev: u64,
    /// Inode number.
    pub ino: u64,
    /// Link count, which is how a hardlink is recognised.
    pub nlink: u64,
    /// Modification time, in whole seconds since the Unix epoch.
    pub mtime: u64,
}

/// A containing directory's identity: `(dev, ino)`, or a path hash when
/// identity is unavailable.
pub type DirIdent = (u64, u64);

/// One component of a directory path, as `Path::components` yields them.
#[derive(Debug, Clone, PartialEq, Eq)]
pub enum PathPart {
    /// The root directory, `/`.
    RootDir,
    /// A leading `.`.
    CurDir,
    /// `..`.
    ParentDir,
    /// An ordinary name, as raw bytes.
    Normal(Vec<u8>),
}

/// The mathematical form of a [`PathPart`].
pub enum PartView {
    RootDir,
    CurDir,
    ParentDir,
    Normal(Seq<u8>),
}

impl View for PathPart {
    type V = PartView;

    open spec fn view(&self) -> PartView {
        match self {
            PathPart::RootDir => PartView::RootDir,
            PathPart::CurDir => PartView::CurDir,
            PathPart::ParentDir => PartView::ParentDir,
            PathPart::Normal(b) => PartView::Normal(b@),
        }
    }
}

/// A directory path as its components.
pub open spec fn dir_view(d: Seq<PathPart>) -> Seq<PartView> {
    d.map_values(|p: PathPart| p@)
}

/// One frozen directory entry: the input to `plan()`.
///
/// `name` is raw bytes, not text: a name that is not valid UTF-8 must survive
/// planning unharmed so it can be reported and skipped.
#[derive(Debug)]
pub struct Entry {
    /// The directory holding this entry, as its components. Never changes:
    /// only a basename is ever rewritten.
    pub dir: Vec<PathPart>,
    /// The entry's current name.
    pub name: Vec<u8>,
    /// What kind of entry it is.
    pub kind: EntryKind,
    /// Identity at walk time.
    pub ident: Ident,
    /// Identity of `dir` itself. Two spellings of one directory compare equal
    /// here even when `dir` does not, which is what puts both spellings in
    /// one collision universe.
    pub dir_ident: DirIdent,
    /// Depth below the walk root, carried for the report. Ordering does not
    /// trust it: it uses `dir`'s component count instead.
    pub depth: u32,
}

/// The mathematical form of an [`Entry`].
pub struct EntryView {
    pub dir: Seq<PartView>,
    pub name: Seq<u8>,
    pub kind: EntryKind,
    pub ident: Ident,
    pub dir_ident: DirIdent,
    pub depth: u32,
}

impl View for Entry {
    type V = EntryView;

    open spec fn view(&self) -> EntryView {
        EntryView {
            dir: dir_view(self.dir@),
            name: self.name@,
            kind: self.kind,
            ident: self.ident,
            dir_ident: self.dir_ident,
            depth: self.depth,
        }
    }
}

/// Why an entry is left alone.
#[derive(Debug, Clone, Copy, PartialEq, Eq, Structural)]
pub enum SkipReason {
    /// The name is not valid UTF-8. Skipped and reported, never repaired.
    NotUtf8,
    /// The pipeline had no representable output.
    Unrepresentable(Unrepresentable),
}

/// Why a destination could not be used.
#[derive(Debug, Clone, Copy, PartialEq, Eq, Structural)]
pub enum Conflict {
    /// Two or more sources in this directory want this same destination.
    IntraBatch,
    /// The destination is already taken by a different entry in the snapshot.
    PreExisting,
    /// Renumbering exhausted its bound: every `-N` for `N` in `2..=999` was
    /// either taken or too long to fit the limit.
    Unresolvable,
}

/// What the plan will do with an entry.
#[derive(Debug, Clone, Copy, PartialEq, Eq, Structural)]
pub enum Resolution {
    /// Rename `from` to `to`.
    Rename,
    /// Already clean. `to` equals `from`.
    Unchanged,
    /// Left alone with a reason. `to` equals `from`.
    Skipped(SkipReason),
    /// Wanted a destination it may not have. `to` equals `from`: a conflicted
    /// item is never renamed to a guessed-at name.
    Conflict(Conflict),
}

/// `--on-collision`.
#[derive(Debug, Clone, Copy, PartialEq, Eq, Structural)]
pub enum OnCollision {
    /// Insert `-N` before the extension, smallest free `N >= 2`, bounded.
    Number,
    /// Leave every colliding entry alone and report it.
    Skip,
    /// Refuse the entire batch before renaming anything.
    Fail,
}

impl Default for OnCollision {
    /// `Number` is the default.
    fn default() -> (r: Self)
        ensures
            r == OnCollision::Number,
    {
        OnCollision::Number
    }
}

/// Whether the volume folds case when comparing names. An input rather than
/// a per-OS assumption: case-sensitive APFS exists.
#[derive(Debug, Clone, Copy, PartialEq, Eq, Structural)]
pub enum VolumeCase {
    /// `A.txt` and `a.txt` are two different names.
    Sensitive,
    /// `A.txt` and `a.txt` are the same name.
    Insensitive,
}

/// One decided entry.
#[derive(Debug, Clone, PartialEq, Eq)]
pub struct PlanItem {
    /// The containing directory.
    pub dir: Vec<PathPart>,
    /// The current name.
    pub from: Vec<u8>,
    /// The intended name. Equal to `from` for everything but `Rename`.
    pub to: Vec<u8>,
    /// What kind of entry it is.
    pub kind: EntryKind,
    /// Identity at walk time.
    pub ident: Ident,
    /// Depth below the walk root.
    pub depth: u32,
    /// What will happen.
    pub resolution: Resolution,
    /// Whether stage 12 shortened `to` to fit the length limit: the one
    /// rewrite that destroys information rather than rearranging it. Only
    /// ever set on a `Rename`.
    pub truncated: bool,
}

/// The mathematical form of a [`PlanItem`].
pub struct ItemView {
    pub dir: Seq<PartView>,
    pub from: Seq<u8>,
    pub to: Seq<u8>,
    pub kind: EntryKind,
    pub ident: Ident,
    pub depth: u32,
    pub resolution: Resolution,
    pub truncated: bool,
}

impl View for PlanItem {
    type V = ItemView;

    open spec fn view(&self) -> ItemView {
        ItemView {
            dir: dir_view(self.dir@),
            from: self.from@,
            to: self.to@,
            kind: self.kind,
            ident: self.ident,
            depth: self.depth,
            resolution: self.resolution,
            truncated: self.truncated,
        }
    }
}

pub open spec fn item_views(items: Seq<PlanItem>) -> Seq<ItemView> {
    items.map_values(|i: PlanItem| i@)
}

pub open spec fn entry_views(entries: Seq<Entry>) -> Seq<EntryView> {
    entries.map_values(|e: Entry| e@)
}

/// The whole decision, in apply order: deepest first.
#[derive(Debug, Clone, PartialEq, Eq)]
pub struct Plan {
    /// Every snapshot entry, in the order the binary must process them.
    pub items: Vec<PlanItem>,
}

/// Why there is no plan at all.
#[derive(Debug, Clone, PartialEq, Eq)]
pub enum PlanError {
    /// `--on-collision fail` with at least one collision. The conflicting
    /// items travel with the error so the report can still show them.
    BatchRefused(Vec<PlanItem>),
    /// The sibling-chain assertion fired: `transform` stopped being
    /// idempotent. Refuses the whole batch.
    InternalInconsistency(String),
}

// ---- copying ---------------------------------------------------------------

pub fn copy_bytes(b: &[u8]) -> (r: Vec<u8>)
    ensures
        r@ == b@,
{
    let mut r: Vec<u8> = Vec::new();
    let mut i: usize = 0;
    while i < b.len()
        invariant
            0 <= i <= b@.len(),
            r@ == b@.take(i as int),
        decreases b@.len() - i,
    {
        r.push(b[i]);
        i += 1;
        assert(r@ =~= b@.take(i as int));
    }
    assert(b@.take(b@.len() as int) =~= b@);
    r
}

fn copy_part(p: &PathPart) -> (r: PathPart)
    ensures
        r@ == p@,
{
    match p {
        PathPart::RootDir => PathPart::RootDir,
        PathPart::CurDir => PathPart::CurDir,
        PathPart::ParentDir => PathPart::ParentDir,
        PathPart::Normal(b) => PathPart::Normal(copy_bytes(b)),
    }
}

pub fn copy_dir(d: &[PathPart]) -> (r: Vec<PathPart>)
    ensures
        dir_view(r@) == dir_view(d@),
{
    let mut r: Vec<PathPart> = Vec::new();
    let mut i: usize = 0;
    while i < d.len()
        invariant
            0 <= i <= d@.len(),
            r@.len() == i,
            dir_view(r@) == dir_view(d@.take(i as int)),
        decreases d@.len() - i,
    {
        let ghost old_r = r@;
        let part = copy_part(&d[i]);
        assert(part@ == d@[i as int]@);
        r.push(part);
        proof {
            assert(r@ == old_r.push(part));
            assert forall|j: int| 0 <= j < r@.len() implies #[trigger] dir_view(r@)[j] == dir_view(
                d@.take(i + 1),
            )[j] by {
                if j < i {
                    assert(dir_view(old_r)[j] == dir_view(d@.take(i as int))[j]);
                    assert(r@[j] == old_r[j]);
                    assert(d@.take(i + 1)[j] == d@.take(i as int)[j]);
                } else {
                    assert(r@[j] == part);
                    assert(d@.take(i + 1)[j] == d@[i as int]);
                }
            }
        }
        i += 1;
        assert(dir_view(r@) =~= dir_view(d@.take(i as int)));
    }
    assert(d@.take(d@.len() as int) =~= d@);
    r
}

fn bytes_eq(a: &[u8], b: &[u8]) -> (r: bool)
    ensures
        r == (a@ == b@),
{
    if a.len() != b.len() {
        return false;
    }
    let mut i: usize = 0;
    while i < a.len()
        invariant
            a@.len() == b@.len(),
            0 <= i <= a@.len(),
            forall|j: int| 0 <= j < i ==> a@[j] == b@[j],
        decreases a@.len() - i,
    {
        if a[i] != b[i] {
            return false;
        }
        i += 1;
    }
    assert(a@ =~= b@);
    true
}

fn part_eq(a: &PathPart, b: &PathPart) -> (r: bool)
    ensures
        r == (a@ == b@),
{
    match (a, b) {
        (PathPart::RootDir, PathPart::RootDir) => true,
        (PathPart::CurDir, PathPart::CurDir) => true,
        (PathPart::ParentDir, PathPart::ParentDir) => true,
        (PathPart::Normal(x), PathPart::Normal(y)) => bytes_eq(x, y),
        _ => false,
    }
}

pub fn dir_eq(a: &[PathPart], b: &[PathPart]) -> (r: bool)
    ensures
        r == (dir_view(a@) == dir_view(b@)),
{
    if a.len() != b.len() {
        assert(dir_view(a@).len() != dir_view(b@).len());
        return false;
    }
    let mut i: usize = 0;
    while i < a.len()
        invariant
            a@.len() == b@.len(),
            0 <= i <= a@.len(),
            forall|j: int| 0 <= j < i ==> a@[j]@ == b@[j]@,
        decreases a@.len() - i,
    {
        if !part_eq(&a[i], &b[i]) {
            assert(dir_view(a@)[i as int] != dir_view(b@)[i as int]);
            return false;
        }
        i += 1;
    }
    assert(dir_view(a@) =~= dir_view(b@));
    true
}

// ---- paths as bytes -----------------------------------------------------------

/// How a component reads in a path.
pub open spec fn part_bytes(q: PartView) -> Seq<u8> {
    match q {
        PartView::RootDir => seq![47u8],
        PartView::CurDir => seq![46u8],
        PartView::ParentDir => seq![46u8, 46u8],
        PartView::Normal(b) => b,
    }
}

/// `PathBuf::push` on bytes: an absolute part replaces the path; otherwise a
/// `/` goes between unless the path is empty or already ends in one.
pub open spec fn push_path(base: Seq<u8>, part: Seq<u8>) -> Seq<u8> {
    if part.len() > 0 && part[0] == 47u8 {
        part
    } else if base.len() > 0 && base.last() != 47u8 {
        base + seq![47u8] + part
    } else {
        base + part
    }
}

/// A directory's path, as its components collected into a `PathBuf` read it.
pub open spec fn path_bytes(d: Seq<PartView>) -> Seq<u8>
    decreases d.len(),
{
    if d.len() == 0 {
        Seq::empty()
    } else {
        push_path(path_bytes(d.drop_last()), part_bytes(d.last()))
    }
}

fn part_text(q: &PathPart) -> (r: Vec<u8>)
    ensures
        r@ == part_bytes(q@),
{
    match q {
        PathPart::RootDir => {
            let mut v: Vec<u8> = Vec::new();
            v.push(47);
            assert(v@ =~= seq![47u8]);
            v
        },
        PathPart::CurDir => {
            let mut v: Vec<u8> = Vec::new();
            v.push(46);
            assert(v@ =~= seq![46u8]);
            v
        },
        PathPart::ParentDir => {
            let mut v: Vec<u8> = Vec::new();
            v.push(46);
            v.push(46);
            assert(v@ =~= seq![46u8, 46u8]);
            v
        },
        PathPart::Normal(b) => copy_bytes(b),
    }
}

/// Append `b` to `out`.
pub fn push_bytes(out: &mut Vec<u8>, b: &[u8])
    ensures
        final(out)@ == old(out)@ + b@,
{
    let mut i: usize = 0;
    while i < b.len()
        invariant
            0 <= i <= b@.len(),
            out@ == old(out)@ + b@.take(i as int),
        decreases b@.len() - i,
    {
        out.push(b[i]);
        i += 1;
        assert(out@ =~= old(out)@ + b@.take(i as int));
    }
    assert(b@.take(b@.len() as int) =~= b@);
}

/// `PathBuf::push` on bytes.
pub fn push_path_bytes(base: Vec<u8>, part: &[u8]) -> (r: Vec<u8>)
    ensures
        r@ == push_path(base@, part@),
{
    if part.len() > 0 && part[0] == 47 {
        return copy_bytes(part);
    }
    let mut out = base;
    if out.len() > 0 && out[out.len() - 1] != 47 {
        out.push(47);
    }
    push_bytes(&mut out, part);
    out
}

/// A directory's path, as bytes.
pub fn path_text(d: &[PathPart]) -> (r: Vec<u8>)
    ensures
        r@ == path_bytes(dir_view(d@)),
{
    let mut out: Vec<u8> = Vec::new();
    let mut i: usize = 0;
    while i < d.len()
        invariant
            0 <= i <= d@.len(),
            out@ == path_bytes(dir_view(d@.take(i as int))),
        decreases d@.len() - i,
    {
        let p = part_text(&d[i]);
        out = push_path_bytes(out, &p);
        proof {
            let dv = dir_view(d@.take(i + 1));
            assert(dv.drop_last() =~= dir_view(d@.take(i as int)));
            assert(dv.last() == d@[i as int]@);
        }
        i += 1;
    }
    assert(d@.take(d@.len() as int) =~= d@);
    out
}

// ---- comparison keys -------------------------------------------------------

/// A name's comparison key: the key of its text, or its raw bytes when it is
/// not text. The two key spaces are disjoint.
pub enum NameKey {
    Text(Seq<char>),
    Opaque(Seq<u8>),
}

/// The comparison key for a decoded name: always NFC, and case-folded (by
/// lowercasing, then NFC again) only on a case-insensitive volume.
pub open spec fn comparison_key_spec(text: Seq<char>, case: VolumeCase) -> Seq<char> {
    match case {
        VolumeCase::Sensitive => nfc_of(text),
        VolumeCase::Insensitive => nfc_of(lowercase_of(nfc_of(text))),
    }
}

pub open spec fn key_of_text_spec(text: Seq<char>, case: VolumeCase) -> NameKey {
    NameKey::Text(comparison_key_spec(text, case))
}

/// The comparison key for a raw name, decoded or not. An undecodable name is
/// never renamed, but it does occupy a name, so it needs a key.
pub open spec fn key_of_name_spec(name: Seq<u8>, case: VolumeCase) -> NameKey {
    if valid_utf8(name) {
        key_of_text_spec(decode_utf8(name), case)
    } else {
        NameKey::Opaque(name)
    }
}

/// A [`NameKey`], executable.
pub enum Key {
    Text(Vec<char>),
    Opaque(Vec<u8>),
}

impl View for Key {
    type V = NameKey;

    open spec fn view(&self) -> NameKey {
        match self {
            Key::Text(t) => NameKey::Text(t@),
            Key::Opaque(b) => NameKey::Opaque(b@),
        }
    }
}

fn key_eq(a: &Key, b: &Key) -> (r: bool)
    ensures
        r == (a@ == b@),
{
    match (a, b) {
        (Key::Text(x), Key::Text(y)) => chars_eq(x, y),
        (Key::Opaque(x), Key::Opaque(y)) => bytes_eq(x, y),
        _ => false,
    }
}

fn comparison_key(text: &[char], case: VolumeCase) -> (r: Vec<char>)
    ensures
        r@ == comparison_key_spec(text@, case),
{
    let n = nfc(text);
    match case {
        VolumeCase::Sensitive => n,
        VolumeCase::Insensitive => {
            let lower = to_lowercase(&n);
            nfc(&lower)
        },
    }
}

fn key_of_text(text: &[char], case: VolumeCase) -> (r: Key)
    ensures
        r@ == key_of_text_spec(text@, case),
{
    Key::Text(comparison_key(text, case))
}

fn key_of_name(name: &[u8], case: VolumeCase) -> (r: Key)
    ensures
        r@ == key_of_name_spec(name@, case),
{
    match utf8_text(name) {
        Some(t) => key_of_text(&t, case),
        None => Key::Opaque(copy_bytes(name)),
    }
}

// ---- what each entry wants -------------------------------------------------

/// What an entry wants, before any other entry is considered.
#[derive(Debug, Clone, PartialEq, Eq)]
pub enum Desired {
    /// Already a fixed point of `transform`.
    Keep,
    /// No representable output, or no text at all.
    Skip(SkipReason),
    /// This name, if it can be had.
    /// This name, if it can be had, and whether stage 12 shortened it.
    Rename(String, bool),
}

pub enum DesiredView {
    Keep,
    Skip(SkipReason),
    Rename(Seq<char>, bool),
}

impl View for Desired {
    type V = DesiredView;

    open spec fn view(&self) -> DesiredView {
        match self {
            Desired::Keep => DesiredView::Keep,
            Desired::Skip(r) => DesiredView::Skip(*r),
            Desired::Rename(t, tr) => DesiredView::Rename(t@, *tr),
        }
    }
}

/// Decoding and the pipeline for one name, and nothing else.
pub open spec fn desired_spec(name: Seq<u8>, p: Policy) -> DesiredView {
    if !valid_utf8(name) {
        DesiredView::Skip(SkipReason::NotUtf8)
    } else {
        let text = decode_utf8(name);
        match transform_spec(text, p) {
            TransformView::Unrepresentable(r) => DesiredView::Skip(SkipReason::Unrepresentable(r)),
            TransformView::Name { text: t, truncated } => if t == text {
                DesiredView::Keep
            } else {
                DesiredView::Rename(t, truncated)
            },
        }
    }
}

fn desired_for(name: &[u8], p: &Policy) -> (r: Desired)
    ensures
        r@ == desired_spec(name@, *p),
        r@ matches DesiredView::Rename(t, _) ==> fits_spec(t, p.limits_spec()),
{
    match decode(name) {
        Decoded::Opaque => Desired::Skip(SkipReason::NotUtf8),
        Decoded::Utf8(text) => match transform(text.as_str(), p) {
            TransformResult::Unrepresentable(r) => Desired::Skip(SkipReason::Unrepresentable(r)),
            TransformResult::Name(o) => {
                let a = chars_of(o.text.as_str());
                let b = chars_of(text.as_str());
                if chars_eq(&a, &b) {
                    Desired::Keep
                } else {
                    Desired::Rename(o.text, o.truncated)
                }
            },
        },
    }
}

// ---- apply order ------------------------------------------------------------

/// Bytes, each shifted up by two, then a 1 terminator: sequences of these
/// compare like the bytes, with a proper prefix first. No element is 0, which
/// is kept for the separator before the position in [`sort_key_spec`].
pub open spec fn enc_bytes(b: Seq<u8>) -> Seq<u64> {
    b.map_values(|x: u8| (x + 2) as u64).push(1)
}

/// A path component: its variant's rank, then its bytes for a normal name.
pub open spec fn enc_part(p: PartView) -> Seq<u64> {
    match p {
        PartView::RootDir => seq![2u64],
        PartView::CurDir => seq![3u64],
        PartView::ParentDir => seq![4u64],
        PartView::Normal(b) => seq![5u64] + enc_bytes(b),
    }
}

pub open spec fn enc_parts(d: Seq<PartView>) -> Seq<u64>
    decreases d.len(),
{
    if d.len() == 0 {
        Seq::empty()
    } else {
        enc_parts(d.drop_last()) + enc_part(d.last())
    }
}

/// A directory: its components in order, then a 1 terminator, so that paths
/// compare component by component.
pub open spec fn enc_dir(d: Seq<PartView>) -> Seq<u64> {
    enc_parts(d).push(1)
}

/// A comparison key: text before undecodable bytes, text by code point (which
/// is UTF-8 byte order), bytes by byte.
pub open spec fn enc_key(k: NameKey) -> Seq<u64> {
    match k {
        NameKey::Text(t) => seq![2u64] + t.map_values(|c: char| ((c as u32) + 2) as u64).push(1),
        NameKey::Opaque(b) => seq![3u64] + enc_bytes(b),
    }
}

/// The apply-order key of the entry at input position `i`: deepest first
/// (by component count), then the directory, then the NFC key of the name,
/// then the raw name bytes, then the input position (reachable only for two
/// entries with one directory and one raw name, which no real snapshot has).
pub open spec fn sort_key_spec(e: EntryView, i: int) -> Seq<u64> {
    base_key(e) + seq![0u64, i as u64]
}

/// The apply-order key of an entry, without the position: every element but
/// the first is at least 1.
pub open spec fn base_key(e: EntryView) -> Seq<u64> {
    seq![(u64::MAX - e.dir.len()) as u64] + enc_dir(e.dir) + enc_key(
        key_of_name_spec(e.name, VolumeCase::Sensitive),
    ) + enc_bytes(e.name)
}

pub open spec fn sort_keys(es: Seq<EntryView>) -> Seq<Seq<u64>> {
    Seq::new(es.len(), |i: int| sort_key_spec(es[i], i))
}

/// The order in which the plan lists, and the binary applies, the entries:
/// their positions in increasing [`sort_key_spec`] order. There is exactly
/// one such order (`lemma_sorted_perm_unique`).
pub open spec fn apply_order(entries: Seq<EntryView>) -> Seq<usize> {
    choose|o: Seq<usize>| is_sorted_perm(o, sort_keys(entries))
}

pub(crate) fn push_enc_bytes(out: &mut Vec<u64>, b: &[u8])
    ensures
        final(out)@ == old(out)@ + enc_bytes(b@),
{
    let mut i: usize = 0;
    while i < b.len()
        invariant
            0 <= i <= b@.len(),
            out@ == old(out)@ + b@.take(i as int).map_values(|x: u8| (x + 2) as u64),
        decreases b@.len() - i,
    {
        out.push(b[i] as u64 + 2);
        i += 1;
        assert(b@.take(i as int).map_values(|x: u8| (x + 2) as u64) =~= b@.take(i - 1).map_values(
            |x: u8| (x + 2) as u64,
        ).push((b@[i - 1] + 2) as u64));
        assert(out@ =~= old(out)@ + b@.take(i as int).map_values(|x: u8| (x + 2) as u64));
    }
    assert(b@.take(b@.len() as int) =~= b@);
    out.push(1);
    assert(out@ =~= old(out)@ + enc_bytes(b@));
}

fn push_enc_part(out: &mut Vec<u64>, p: &PathPart)
    ensures
        final(out)@ == old(out)@ + enc_part(p@),
{
    match p {
        PathPart::RootDir => {
            out.push(2);
            assert(out@ =~= old(out)@ + seq![2u64]);
        },
        PathPart::CurDir => {
            out.push(3);
            assert(out@ =~= old(out)@ + seq![3u64]);
        },
        PathPart::ParentDir => {
            out.push(4);
            assert(out@ =~= old(out)@ + seq![4u64]);
        },
        PathPart::Normal(b) => {
            out.push(5);
            push_enc_bytes(out, b);
            assert(out@ =~= old(out)@ + (seq![5u64] + enc_bytes(b@)));
        },
    }
}

fn push_enc_dir(out: &mut Vec<u64>, d: &[PathPart])
    ensures
        final(out)@ == old(out)@ + enc_dir(dir_view(d@)),
{
    let mut i: usize = 0;
    while i < d.len()
        invariant
            0 <= i <= d@.len(),
            out@ == old(out)@ + enc_parts(dir_view(d@.take(i as int))),
        decreases d@.len() - i,
    {
        let ghost before = out@;
        push_enc_part(out, &d[i]);
        proof {
            let dv = dir_view(d@.take(i + 1));
            assert(dv.drop_last() =~= dir_view(d@.take(i as int)));
            assert(dv.last() == d@[i as int]@);
            assert(out@ =~= old(out)@ + enc_parts(dv));
        }
        i += 1;
    }
    assert(d@.take(d@.len() as int) =~= d@);
    out.push(1);
    assert(out@ =~= old(out)@ + enc_dir(dir_view(d@)));
}

fn push_enc_key(out: &mut Vec<u64>, k: &Key)
    ensures
        final(out)@ == old(out)@ + enc_key(k@),
{
    match k {
        Key::Text(t) => {
            out.push(2);
            let ghost mid = out@;
            let mut i: usize = 0;
            while i < t.len()
                invariant
                    0 <= i <= t@.len(),
                    out@ == mid + t@.take(i as int).map_values(|c: char| ((c as u32) + 2) as u64),
                decreases t@.len() - i,
            {
                out.push((t[i] as u32) as u64 + 2);
                i += 1;
                assert(t@.take(i as int).map_values(|c: char| ((c as u32) + 2) as u64) =~= t@.take(
                    i - 1,
                ).map_values(|c: char| ((c as u32) + 2) as u64).push(((t@[i - 1] as u32) + 2) as u64));
                assert(out@ =~= mid + t@.take(i as int).map_values(
                    |c: char| ((c as u32) + 2) as u64,
                ));
            }
            assert(t@.take(t@.len() as int) =~= t@);
            out.push(1);
            assert(out@ =~= old(out)@ + (seq![2u64] + t@.map_values(
                |c: char| ((c as u32) + 2) as u64,
            ).push(1)));
        },
        Key::Opaque(b) => {
            out.push(3);
            push_enc_bytes(out, b);
            assert(out@ =~= old(out)@ + (seq![3u64] + enc_bytes(b@)));
        },
    }
}

fn sort_key(e: &Entry, i: usize) -> (r: Vec<u64>)
    ensures
        r@ == sort_key_spec(e@, i as int),
{
    let mut out: Vec<u64> = Vec::new();
    out.push(u64::MAX - e.dir.len() as u64);
    assert(dir_view(e.dir@).len() == e.dir@.len());
    push_enc_dir(&mut out, &e.dir);
    let k = key_of_name(&e.name, VolumeCase::Sensitive);
    push_enc_key(&mut out, &k);
    push_enc_bytes(&mut out, &e.name);
    out.push(0);
    out.push(i as u64);
    assert(out@ =~= sort_key_spec(e@, i as int));
    out
}

/// Apply order: positions of `entries`, deepest first, then by directory,
/// then by the NFC bytes of the name, then by its raw bytes.
pub fn deterministic_order(entries: &[Entry]) -> (order: Vec<usize>)
    ensures
        is_sorted_perm(order@, sort_keys(entry_views(entries@))),
        order@ == apply_order(entry_views(entries@)),
{
    let ghost ks = sort_keys(entry_views(entries@));
    let mut keys: Vec<Vec<u64>> = Vec::new();
    let mut i: usize = 0;
    while i < entries.len()
        invariant
            0 <= i <= entries@.len(),
            ks == sort_keys(entry_views(entries@)),
            keys@.len() == i,
            forall|j: int| 0 <= j < i ==> #[trigger] keys@[j]@ == ks[j],
        decreases entries@.len() - i,
    {
        let k = sort_key(&entries[i], i);
        keys.push(k);
        i += 1;
    }
    assert(key_views(keys@) =~= ks);
    assert forall|a: int, b: int| 0 <= a < ks.len() && 0 <= b < ks.len() && a != b implies ks[a]
        != ks[b] by {
        assert(ks[a].last() == a as u64);
        assert(ks[b].last() == b as u64);
    }
    let order = sort_indices(&keys);
    proof {
        assert(is_sorted_perm(order@, ks));
        lemma_sorted_perm_unique(order@, apply_order(entry_views(entries@)), ks);
    }
    order
}

// ---- the sibling-chain assertion -------------------------------------------

/// The NFC spelling of a name, or nothing when it is not text.
pub open spec fn nfc_name(name: Seq<u8>) -> Seq<char> {
    if valid_utf8(name) {
        nfc_of(decode_utf8(name))
    } else {
        Seq::empty()
    }
}

/// Does the entry at `pos` move off its own NFC spelling? (A rename that
/// only respells its own name vacates nothing.)
pub open spec fn vacates(es: Seq<EntryView>, ds: Seq<DesiredView>, pos: int) -> bool {
    &&& ds[pos] is Rename
    &&& nfc_name(es[pos].name) != ds[pos]->Rename_0
}

/// The last position before `n` that vacates `name` in `dir`, or -1.
pub open spec fn last_vacator(
    es: Seq<EntryView>,
    ds: Seq<DesiredView>,
    dir: Seq<PartView>,
    name: Seq<char>,
    n: int,
) -> int
    decreases n,
{
    if n <= 0 {
        -1
    } else if vacates(es, ds, n - 1) && es[n - 1].dir == dir && nfc_name(es[n - 1].name) == name {
        n - 1
    } else {
        last_vacator(es, ds, dir, name, n - 1)
    }
}

/// The entry at `pos` wants a name another renamed entry in its directory is
/// leaving: a rename chain.
pub open spec fn chain_at(es: Seq<EntryView>, ds: Seq<DesiredView>, pos: int) -> bool {
    &&& ds[pos] is Rename
    &&& last_vacator(es, ds, es[pos].dir, ds[pos]->Rename_0, es.len() as int) >= 0
    &&& last_vacator(es, ds, es[pos].dir, ds[pos]->Rename_0, es.len() as int) != pos
}

pub open spec fn has_chain(es: Seq<EntryView>, ds: Seq<DesiredView>) -> bool {
    exists|pos: int| 0 <= pos < es.len() && chain_at(es, ds, pos)
}

/// The entries in the order given by `order`.
pub open spec fn arranged(entries: Seq<EntryView>, order: Seq<usize>) -> Seq<EntryView> {
    order.map_values(|i: usize| entries[i as int])
}

pub open spec fn desired_views(ds: Seq<Desired>) -> Seq<DesiredView> {
    ds.map_values(|d: Desired| d@)
}

fn nfc_of_name(name: &[u8]) -> (r: Vec<char>)
    ensures
        r@ == nfc_name(name@),
{
    match utf8_text(name) {
        Some(t) => nfc(&t),
        None => Vec::new(),
    }
}

/// `s` quoted and escaped as `Debug` renders a string.
fn debug_chars(s: &[char]) -> (r: Vec<char>)
    ensures
        r@ == debug_quoted(s@),
{
    let text = string_of(s);
    chars_of(crate::journal::quoted(text.as_str()).as_str())
}

/// The first position with a rename chain.
pub open spec fn first_chain(es: Seq<EntryView>, ds: Seq<DesiredView>) -> int {
    choose|pos: int|
        0 <= pos < es.len() && chain_at(es, ds, pos) && forall|j: int| 0 <= j < pos ==> !chain_at(es, ds, j)
}

/// What the refusal says about the chain at `pos`: the directory, as a path
/// displays it, the name that wants to move, where it wants to go, and the
/// renamed entry already leaving that name.
pub open spec fn chain_message(es: Seq<EntryView>, ds: Seq<DesiredView>, pos: int) -> Seq<char> {
    let to = ds[pos]->Rename_0;
    let other = last_vacator(es, ds, es[pos].dir, to, es.len() as int);
    "sibling rename chain in "@ + lossy_of(path_bytes(es[pos].dir)) + ": "@ + debug_quoted(nfc_name(es[pos].name)) + " -> "@ + debug_quoted(to) + ", but "@
        + debug_quoted(nfc_name(es[other].name))
        + " is itself renamed. transform is not idempotent, so the no-swap proof no longer holds; refusing the whole batch rather than renaming anything"@
}

/// The first chain is the one at `pos`, when `pos` has one and nothing
/// before it does.
proof fn lemma_first_chain(es: Seq<EntryView>, ds: Seq<DesiredView>, pos: int)
    requires
        0 <= pos < es.len(),
        chain_at(es, ds, pos),
        forall|j: int| 0 <= j < pos ==> !chain_at(es, ds, j),
    ensures
        first_chain(es, ds) == pos,
{
    let f = first_chain(es, ds);
    assert(0 <= f < es.len() && chain_at(es, ds, f) && forall|j: int| 0 <= j < f ==> !chain_at(es, ds, j));
    if f < pos {
        assert(!chain_at(es, ds, f));
    } else if f > pos {
        assert(!chain_at(es, ds, pos));
    }
}

/// The sibling-chain assertion, on the desired destinations rather than the
/// final ones: if any rename's destination is the NFC name another rename in
/// the same directory is leaving, `transform` is not idempotent and the
/// whole batch is refused. A rename that only respells its own name is
/// excluded: it vacates nothing.
pub fn check_no_sibling_chains(entries: &[Entry], order: &[usize], desired: &[Desired]) -> (r:
    Result<(), PlanError>)
    requires
        order@.len() == desired@.len(),
        forall|i: int| 0 <= i < order@.len() ==> order@[i] < entries@.len(),
    ensures
        r is Ok <==> !has_chain(arranged(entry_views(entries@), order@), desired_views(desired@)),
        r matches Err(e) ==> e is InternalInconsistency,
        r matches Err(PlanError::InternalInconsistency(m)) ==> m@ == chain_message(
            arranged(entry_views(entries@), order@),
            desired_views(desired@),
            first_chain(arranged(entry_views(entries@), order@), desired_views(desired@)),
        ),
{
    let ghost es = arranged(entry_views(entries@), order@);
    let ghost ds = desired_views(desired@);
    let n = order.len();
    let mut names: Vec<Vec<char>> = Vec::new();
    let mut i: usize = 0;
    while i < n
        invariant
            0 <= i <= n == order@.len(),
            es == arranged(entry_views(entries@), order@),
            forall|j: int| 0 <= j < order@.len() ==> order@[j] < entries@.len(),
            names@.len() == i,
            forall|j: int| 0 <= j < i ==> #[trigger] names@[j]@ == nfc_name(es[j].name),
        decreases n - i,
    {
        names.push(nfc_of_name(&entries[order[i]].name));
        i += 1;
    }
    let mut pos: usize = 0;
    while pos < n
        invariant
            0 <= pos <= n == order@.len() == desired@.len() == es.len() == ds.len(),
            es == arranged(entry_views(entries@), order@),
            ds == desired_views(desired@),
            forall|j: int| 0 <= j < order@.len() ==> order@[j] < entries@.len(),
            names@.len() == n,
            forall|j: int| 0 <= j < n ==> #[trigger] names@[j]@ == nfc_name(es[j].name),
            forall|j: int| 0 <= j < pos ==> !chain_at(es, ds, j),
        decreases n - pos,
    {
        if let Desired::Rename(to, _) = &desired[pos] {
            let to_chars = chars_of(to.as_str());
            let dir = &entries[order[pos]].dir;
            assert(ds[pos as int] == desired@[pos as int]@);
            let mut k: usize = n;
            let mut found: Option<usize> = None;
            while k > 0
                invariant
                    0 <= k <= n == es.len() == ds.len() == order@.len(),
                    es == arranged(entry_views(entries@), order@),
                    ds == desired_views(desired@),
                    forall|j: int| 0 <= j < order@.len() ==> order@[j] < entries@.len(),
                    names@.len() == n,
                    forall|j: int| 0 <= j < n ==> #[trigger] names@[j]@ == nfc_name(es[j].name),
                    dir_view(dir@) == es[pos as int].dir,
                    found is None ==> last_vacator(es, ds, es[pos as int].dir, to_chars@, n as int)
                        == last_vacator(es, ds, es[pos as int].dir, to_chars@, k as int),
                    found matches Some(o) ==> last_vacator(es, ds, es[pos as int].dir, to_chars@, n as int)
                        == o,
                    found is Some ==> k == 0,
                    found matches Some(o) ==> o < n,
                    pos < n,
                decreases k,
            {
                let c = k - 1;
                let vac = match &desired[c] {
                    Desired::Rename(t, _) => {
                        let tc = chars_of(t.as_str());
                        assert(ds[c as int] == desired@[c as int]@);
                        !chars_eq(&names[c], &tc)
                    },
                    _ => {
                        assert(ds[c as int] == desired@[c as int]@);
                        false
                    },
                };
                assert(vac == vacates(es, ds, c as int));
                if vac && dir_eq(&entries[order[c]].dir, dir) && chars_eq(&names[c], &to_chars) {
                    found = Some(c);
                    k = 0;
                } else {
                    k = c;
                }
            }
            if let Some(other) = found {
                if other != pos {
                    let dir_shown = lossy_text(&path_text(dir));
                    let mut msg = chars_of("sibling rename chain in ");
                    push_all(&mut msg, &chars_of(dir_shown.as_str()));
                    push_all(&mut msg, &chars_of(": "));
                    push_all(&mut msg, &debug_chars(&names[pos]));
                    push_all(&mut msg, &chars_of(" -> "));
                    push_all(&mut msg, &debug_chars(&to_chars));
                    push_all(&mut msg, &chars_of(", but "));
                    push_all(&mut msg, &debug_chars(&names[other]));
                    push_all(
                        &mut msg,
                        &chars_of(
                            " is itself renamed. transform is not idempotent, so the no-swap proof no longer holds; refusing the whole batch rather than renaming anything",
                        ),
                    );
                    assert(chain_at(es, ds, pos as int));
                    proof {
                        lemma_first_chain(es, ds, pos as int);
                        assert(to_chars@ == ds[pos as int]->Rename_0);
                        assert(msg@ =~= chain_message(es, ds, pos as int));
                    }
                    return Err(PlanError::InternalInconsistency(string_of(&msg)));
                }
            }
        } else {
            assert(ds[pos as int] == desired@[pos as int]@);
        }
        pos += 1;
    }
    Ok(())
}

// ---- numbering ------------------------------------------------------------

/// First `-N` suffix tried.
pub const FIRST_NUMBER: u32 = 2;
/// Last `-N` suffix tried: `2..=999` is 998 candidate probes per source.
pub const LAST_NUMBER: u32 = 999;

/// `want` with `-N` inserted before the extension, the stem truncated so
/// the whole fits both limits; `None` when no `-N` form fits at all.
pub open spec fn numbered_spec(want: Seq<char>, n: nat, l: Limits) -> Option<Seq<char>> {
    let stem = split_extension_spec(want).0;
    let ext = split_extension_spec(want).1;
    let suffix = seq!['-'] + decimal(n);
    if byte_len(suffix) + byte_len(ext) > l.bytes || unit_len(suffix) + unit_len(ext) > l.utf16 {
        None
    } else {
        let budget = Limits {
            bytes: (l.bytes - (byte_len(suffix) + byte_len(ext))) as usize,
            utf16: (l.utf16 - (unit_len(suffix) + unit_len(ext))) as usize,
        };
        let kept = truncate_graphemes_spec(stem, budget);
        if kept.len() == 0 {
            None
        } else {
            Some(kept + suffix + ext)
        }
    }
}

/// [`numbered`] over characters.
pub fn numbered_chars(want: &[char], n: u32, limits: &Limits) -> (r: Option<Vec<char>>)
    ensures
        match r {
            Some(c) => numbered_spec(want@, n as nat, *limits) == Some(c@) && fits_spec(c@, *limits),
            None => numbered_spec(want@, n as nat, *limits) is None,
        },
{
    let (stem, ext) = split_extension_chars(want);
    let mut suffix: Vec<char> = Vec::new();
    suffix.push('-');
    let digits = decimal_chars(n as u64);
    push_all(&mut suffix, &digits);
    assert(suffix@ =~= seq!['-'] + decimal(n as nat));
    let sl = suffix.len();
    let el = ext.len();
    let (sb, su) = lens_of(&suffix);
    let (eb, eu) = lens_of(&ext);
    if sb + eb > limits.bytes as u128 || su + eu > limits.utf16 as u128 {
        return None;
    }
    let budget = Limits {
        bytes: (limits.bytes as u128 - (sb + eb)) as usize,
        utf16: (limits.utf16 as u128 - (su + eu)) as usize,
    };
    let kept = truncate_graphemes_chars(&stem, &budget);
    if kept.len() == 0 {
        return None;
    }
    let mut out = kept;
    let ghost k = out@;
    push_all(&mut out, &suffix);
    push_all(&mut out, &ext);
    proof {
        lemma_len_concat(k, suffix@);
        lemma_len_concat(k + suffix@, ext@);
    }
    Some(out)
}

/// `want` with `-N` inserted before the extension, truncated to fit both
/// limits. `None` when no `-N` form fits at all: the suffix and extension
/// alone exhaust the budget, or truncating the stem to make room would empty
/// it. The numbering is never dropped to fit, and the limit never exceeded.
pub fn numbered(want: &str, n: u32, limits: &Limits) -> (r: Option<String>)
    ensures
        match r {
            Some(c) => numbered_spec(want@, n as nat, *limits) == Some(c@) && fits_spec(c@, *limits),
            None => numbered_spec(want@, n as nat, *limits) is None,
        },
{
    let w = chars_of(want);
    match numbered_chars(&w, n, limits) {
        Some(c) => Some(string_of(&c)),
        None => None,
    }
}

/// `candidate` is already what `transform` makes of it.
pub open spec fn is_fixed_point_spec(candidate: Seq<char>, p: Policy) -> bool {
    transform_spec(candidate, p) matches TransformView::Name { text, truncated } && text == candidate
}

fn is_fixed_point(candidate: &[char], p: &Policy) -> (r: bool)
    ensures
        r == is_fixed_point_spec(candidate@, *p),
{
    let s = string_of(candidate);
    match transform(s.as_str(), p) {
        TransformResult::Name(o) => {
            let t = chars_of(o.text.as_str());
            chars_eq(&t, candidate)
        },
        TransformResult::Unrepresentable(_) => false,
    }
}

// ---- destination allocation -------------------------------------------------

/// A name in a directory, as a comparison key.
pub struct Slot {
    pub dir: DirIdent,
    pub key: Key,
}

impl View for Slot {
    type V = (DirIdent, NameKey);

    open spec fn view(&self) -> (DirIdent, NameKey) {
        (self.dir, self.key@)
    }
}

pub open spec fn slot_views(v: Seq<Slot>) -> Seq<(DirIdent, NameKey)> {
    v.map_values(|s: Slot| s@)
}

/// Every entry's current name, by position: what layer 2 treats as occupied.
pub open spec fn occupancy(es: Seq<EntryView>, case: VolumeCase) -> Seq<(DirIdent, NameKey)> {
    Seq::new(es.len(), |i: int| (es[i].dir_ident, key_of_name_spec(es[i].name, case)))
}

/// Is `(d, k)` available to the entry at `owner`? Not already promised, and
/// held by no entry but `owner` itself (a respell of its own name is free).
pub open spec fn is_free_spec(
    occ: Seq<(DirIdent, NameKey)>,
    alloc: Seq<(DirIdent, NameKey)>,
    d: DirIdent,
    k: NameKey,
    owner: int,
) -> bool {
    &&& !alloc.contains((d, k))
    &&& forall|pos: int| 0 <= pos < occ.len() && occ[pos] == (d, k) ==> pos == owner
}

/// The smallest free fixed-point numbered candidate from `n` on.
pub open spec fn probe_spec(
    occ: Seq<(DirIdent, NameKey)>,
    alloc: Seq<(DirIdent, NameKey)>,
    d: DirIdent,
    want: Seq<char>,
    owner: int,
    p: Policy,
    case: VolumeCase,
    n: nat,
) -> Option<Seq<char>>
    decreases 1000 - n,
{
    if n > 999 {
        None
    } else {
        match numbered_spec(want, n, p.limits_spec()) {
            None => None,
            Some(c) => if is_fixed_point_spec(c, p) && is_free_spec(
                occ,
                alloc,
                d,
                key_of_text_spec(c, case),
                owner,
            ) {
                Some(c)
            } else {
                probe_spec(occ, alloc, d, want, owner, p, case, n + 1)
            },
        }
    }
}

/// The destination the entry at `owner` gets for `want`: `want` itself when
/// free, else the smallest free numbered alternative.
pub open spec fn take_spec(
    occ: Seq<(DirIdent, NameKey)>,
    alloc: Seq<(DirIdent, NameKey)>,
    d: DirIdent,
    want: Seq<char>,
    owner: int,
    p: Policy,
    case: VolumeCase,
) -> Option<Seq<char>> {
    if is_free_spec(occ, alloc, d, key_of_text_spec(want, case), owner) {
        Some(want)
    } else {
        probe_spec(occ, alloc, d, want, owner, p, case, 2)
    }
}

fn same_dir_ident(a: DirIdent, b: DirIdent) -> (r: bool)
    ensures
        r == (a == b),
{
    a.0 == b.0 && a.1 == b.1
}

fn is_free(occ: &Vec<Slot>, alloc: &Vec<Slot>, d: DirIdent, key: &Key, owner: usize) -> (r: bool)
    ensures
        r == is_free_spec(slot_views(occ@), slot_views(alloc@), d, key@, owner as int),
{
    let ghost av = slot_views(alloc@);
    let ghost ov = slot_views(occ@);
    let mut i: usize = 0;
    while i < alloc.len()
        invariant
            0 <= i <= alloc@.len(),
            av == slot_views(alloc@),
            forall|j: int| 0 <= j < i ==> av[j] != (d, key@),
        decreases alloc@.len() - i,
    {
        if same_dir_ident(alloc[i].dir, d) && key_eq(&alloc[i].key, key) {
            assert(av[i as int] == (d, key@));
            return false;
        }
        i += 1;
    }
    let mut j: usize = 0;
    while j < occ.len()
        invariant
            0 <= j <= occ@.len(),
            ov == slot_views(occ@),
            forall|t: int| 0 <= t < j && ov[t] == (d, key@) ==> t == owner,
        decreases occ@.len() - j,
    {
        if j != owner && same_dir_ident(occ[j].dir, d) && key_eq(&occ[j].key, key) {
            assert(ov[j as int] == (d, key@));
            return false;
        }
        j += 1;
    }
    true
}

fn take(
    occ: &Vec<Slot>,
    alloc: &mut Vec<Slot>,
    d: DirIdent,
    want: &[char],
    owner: usize,
    p: &Policy,
    case: VolumeCase,
) -> (r: Option<Vec<char>>)
    ensures
        match r {
            Some(c) => take_spec(slot_views(occ@), slot_views(old(alloc)@), d, want@, owner as int, *p, case)
                == Some(c@) && slot_views(final(alloc)@) == slot_views(old(alloc)@).push(
                (d, key_of_text_spec(c@, case)),
            ),
            None => take_spec(slot_views(occ@), slot_views(old(alloc)@), d, want@, owner as int, *p, case)
                is None && slot_views(final(alloc)@) == slot_views(old(alloc)@),
        },
        r matches Some(c) ==> c@ == want@ || fits_spec(c@, p.limits_spec()),
{
    let ghost ov = slot_views(occ@);
    let ghost av = slot_views(alloc@);
    let key = key_of_text(want, case);
    if is_free(occ, alloc, d, &key, owner) {
        let ghost kv = key@;
        alloc.push(Slot { dir: d, key });
        assert(slot_views(alloc@) =~= av.push((d, kv)));
        let c = chars_range(want, 0, want.len());
        assert(want@.subrange(0, want@.len() as int) =~= want@);
        return Some(c);
    }
    let limits = p.limits();
    let mut n: u32 = FIRST_NUMBER;
    while n <= LAST_NUMBER
        invariant
            2 <= n <= 1000,
            av == slot_views(alloc@),
            av == slot_views(old(alloc)@),
            ov == slot_views(occ@),
            limits == p.limits_spec(),
            take_spec(ov, av, d, want@, owner as int, *p, case) == probe_spec(
                ov,
                av,
                d,
                want@,
                owner as int,
                *p,
                case,
                n as nat,
            ),
        decreases 1000 - n,
    {
        let candidate = match numbered_chars(want, n, &limits) {
            Some(c) => c,
            None => return None,
        };
        if is_fixed_point(&candidate, p) {
            let ck = key_of_text(&candidate, case);
            if is_free(occ, alloc, d, &ck, owner) {
                let ghost kv = ck@;
                alloc.push(Slot { dir: d, key: ck });
                assert(slot_views(alloc@) =~= av.push((d, kv)));
                return Some(candidate);
            }
        }
        n += 1;
    }
    None
}


// ---- the plan ----------------------------------------------------------------

/// What each entry, in apply order, wants.
pub open spec fn desired_of(es: Seq<EntryView>, p: Policy) -> Seq<DesiredView> {
    es.map_values(|e: EntryView| desired_spec(e.name, p))
}

/// The slot each wanted rename among the first `n` entries asks for, in
/// order: what layer 1 counts.
pub open spec fn want_slots(
    es: Seq<EntryView>,
    ds: Seq<DesiredView>,
    case: VolumeCase,
    n: int,
) -> Seq<(DirIdent, NameKey)>
    decreases n,
{
    if n <= 0 {
        Seq::empty()
    } else {
        let prev = want_slots(es, ds, case, n - 1);
        match ds[n - 1] {
            DesiredView::Rename(t, _) => prev.push((es[n - 1].dir_ident, key_of_text_spec(t, case))),
            _ => prev,
        }
    }
}

/// How many times `x` occurs in `s`.
pub open spec fn count_in(s: Seq<(DirIdent, NameKey)>, x: (DirIdent, NameKey)) -> nat
    decreases s.len(),
{
    if s.len() == 0 {
        0
    } else {
        count_in(s.drop_last(), x) + if s.last() == x {
            1nat
        } else {
            0nat
        }
    }
}

/// The decision for one entry at apply position `pos`, given what earlier
/// entries were promised (`alloc`): its destination, its resolution, and what
/// is promised afterwards.
pub open spec fn decide_spec(
    e: EntryView,
    want: DesiredView,
    pos: int,
    occ: Seq<(DirIdent, NameKey)>,
    wants: Seq<(DirIdent, NameKey)>,
    alloc: Seq<(DirIdent, NameKey)>,
    p: Policy,
    oc: OnCollision,
    case: VolumeCase,
) -> (Seq<u8>, Resolution, Seq<(DirIdent, NameKey)>) {
    match want {
        DesiredView::Keep => (e.name, Resolution::Unchanged, alloc),
        DesiredView::Skip(r) => (e.name, Resolution::Skipped(r), alloc),
        DesiredView::Rename(t, _) => match oc {
            OnCollision::Number => match take_spec(occ, alloc, e.dir_ident, t, pos, p, case) {
                Some(c) => (
                    encode_utf8(c),
                    Resolution::Rename,
                    alloc.push((e.dir_ident, key_of_text_spec(c, case))),
                ),
                None => (e.name, Resolution::Conflict(Conflict::Unresolvable), alloc),
            },
            _ => if !is_free_spec(occ, alloc, e.dir_ident, key_of_text_spec(t, case), pos) {
                (e.name, Resolution::Conflict(Conflict::PreExisting), alloc)
            } else if count_in(wants, (e.dir_ident, key_of_text_spec(t, case))) > 1 {
                (e.name, Resolution::Conflict(Conflict::IntraBatch), alloc)
            } else {
                (encode_utf8(t), Resolution::Rename, alloc)
            },
        },
    }
}

/// Whether a decision renames to a name stage 12 shortened.
pub open spec fn truncated_of(want: DesiredView, resolution: Resolution) -> bool {
    &&& resolution == Resolution::Rename
    &&& (want matches DesiredView::Rename(_, tr) && tr)
}

/// The item for an entry, with its destination and resolution.
pub open spec fn item_of(e: EntryView, to: Seq<u8>, resolution: Resolution, truncated: bool) -> ItemView {
    ItemView {
        dir: e.dir,
        from: e.name,
        to,
        kind: e.kind,
        ident: e.ident,
        depth: e.depth,
        resolution,
        truncated,
    }
}

/// The items for the first `n` entries in apply order, and what they were
/// promised.
pub open spec fn decisions(
    es: Seq<EntryView>,
    ds: Seq<DesiredView>,
    p: Policy,
    oc: OnCollision,
    case: VolumeCase,
    n: nat,
) -> (Seq<ItemView>, Seq<(DirIdent, NameKey)>)
    decreases n,
{
    if n == 0 {
        (Seq::empty(), Seq::empty())
    } else {
        let prev = decisions(es, ds, p, oc, case, (n - 1) as nat);
        let d = decide_spec(
            es[n - 1],
            ds[n - 1],
            n - 1,
            occupancy(es, case),
            want_slots(es, ds, case, es.len() as int),
            prev.1,
            p,
            oc,
            case,
        );
        (prev.0.push(item_of(es[n - 1], d.0, d.1, truncated_of(ds[n - 1], d.1))), d.2)
    }
}

/// The conflicted items, in order.
pub open spec fn conflicts_of(items: Seq<ItemView>) -> Seq<ItemView>
    decreases items.len(),
{
    if items.len() == 0 {
        Seq::empty()
    } else if items.last().resolution is Conflict {
        conflicts_of(items.drop_last()).push(items.last())
    } else {
        conflicts_of(items.drop_last())
    }
}

/// What planning a snapshot comes to.
pub enum PlanView {
    /// Every entry, decided, in apply order.
    Planned(Seq<ItemView>),
    /// `fail` and at least one conflict: the conflicted items.
    Refused(Seq<ItemView>),
    /// The sibling-chain assertion fired, with its message.
    Inconsistent(Seq<char>),
}

pub open spec fn outcome_view(r: Result<Plan, PlanError>) -> PlanView {
    match r {
        Ok(pl) => PlanView::Planned(item_views(pl.items@)),
        Err(PlanError::BatchRefused(v)) => PlanView::Refused(item_views(v@)),
        Err(PlanError::InternalInconsistency(m)) => PlanView::Inconsistent(m@),
    }
}

/// The snapshot in apply order: a plan's `i`-th item decides the `i`-th of
/// these.
pub open spec fn planned_entries(entries: Seq<EntryView>) -> Seq<EntryView> {
    arranged(entries, apply_order(entries))
}

/// Every entry, decided, in apply order.
pub open spec fn planned_items(
    entries: Seq<EntryView>,
    p: Policy,
    oc: OnCollision,
    case: VolumeCase,
) -> Seq<ItemView> {
    let es = planned_entries(entries);
    decisions(es, desired_of(es, p), p, oc, case, es.len()).0
}

/// The whole plan for a snapshot.
pub open spec fn plan_spec(entries: Seq<EntryView>, p: Policy, oc: OnCollision, case: VolumeCase) -> PlanView {
    let es = planned_entries(entries);
    let ds = desired_of(es, p);
    if has_chain(es, ds) {
        PlanView::Inconsistent(chain_message(es, ds, first_chain(es, ds)))
    } else {
        let items = planned_items(entries, p, oc, case);
        if oc == OnCollision::Fail && conflicts_of(items).len() > 0 {
            PlanView::Refused(conflicts_of(items))
        } else {
            PlanView::Planned(items)
        }
    }
}

fn bytes_of_chars(c: &[char]) -> (r: Vec<u8>)
    ensures
        r@ == encode_utf8(c@),
{
    let s = string_of(c);
    copy_bytes(s.as_str().as_bytes())
}

fn count_slots(ws: &Vec<Slot>, d: DirIdent, k: &Key) -> (c: usize)
    ensures
        c == count_in(slot_views(ws@), (d, k@)),
{
    let ghost v = slot_views(ws@);
    let mut c: usize = 0;
    let mut i: usize = 0;
    while i < ws.len()
        invariant
            0 <= i <= ws@.len(),
            v == slot_views(ws@),
            c == count_in(v.take(i as int), (d, k@)),
            c <= i,
        decreases ws@.len() - i,
    {
        assert(v.take(i + 1).drop_last() =~= v.take(i as int));
        if same_dir_ident(ws[i].dir, d) && key_eq(&ws[i].key, k) {
            c += 1;
        }
        i += 1;
    }
    assert(v.take(v.len() as int) =~= v);
    c
}

fn copy_item(i: &PlanItem) -> (r: PlanItem)
    ensures
        r@ == i@,
{
    PlanItem {
        dir: copy_dir(&i.dir),
        from: copy_bytes(&i.from),
        to: copy_bytes(&i.to),
        kind: i.kind,
        ident: i.ident,
        depth: i.depth,
        resolution: i.resolution,
        truncated: i.truncated,
    }
}

fn decide(
    e: &Entry,
    want: &Desired,
    pos: usize,
    occ: &Vec<Slot>,
    ws: &Vec<Slot>,
    alloc: &mut Vec<Slot>,
    p: &Policy,
    oc: OnCollision,
    case: VolumeCase,
) -> (r: (Vec<u8>, Resolution))
    requires
        want@ matches DesiredView::Rename(t, _) ==> fits_spec(t, p.limits_spec()),
    ensures
        r.1 == Resolution::Rename ==> valid_utf8(r.0@) && fits_spec(
            decode_utf8(r.0@),
            p.limits_spec(),
        ),
        r.1 != Resolution::Rename ==> r.0@ == e.name@,
        r.0@ == decide_spec(e@, want@, pos as int, slot_views(occ@), slot_views(ws@), slot_views(old(alloc)@), *p, oc, case).0,
        r.1 == decide_spec(e@, want@, pos as int, slot_views(occ@), slot_views(ws@), slot_views(old(alloc)@), *p, oc, case).1,
        slot_views(final(alloc)@) == decide_spec(e@, want@, pos as int, slot_views(occ@), slot_views(ws@), slot_views(old(alloc)@), *p, oc, case).2,
{
    match want {
        Desired::Keep => (copy_bytes(&e.name), Resolution::Unchanged),
        Desired::Skip(r) => (copy_bytes(&e.name), Resolution::Skipped(*r)),
        Desired::Rename(text, _) => {
            let t = chars_of(text.as_str());
            match oc {
                OnCollision::Number => match take(occ, alloc, e.dir_ident, &t, pos, p, case) {
                    Some(c) => {
                        proof {
                            encode_utf8_valid_utf8(c@);
                            encode_utf8_decode_utf8(c@);
                        }
                        (bytes_of_chars(&c), Resolution::Rename)
                    },
                    None => (copy_bytes(&e.name), Resolution::Conflict(Conflict::Unresolvable)),
                },
                _ => {
                    let key = key_of_text(&t, case);
                    if !is_free(occ, alloc, e.dir_ident, &key, pos) {
                        (copy_bytes(&e.name), Resolution::Conflict(Conflict::PreExisting))
                    } else if count_slots(ws, e.dir_ident, &key) > 1 {
                        (copy_bytes(&e.name), Resolution::Conflict(Conflict::IntraBatch))
                    } else {
                        proof {
                            encode_utf8_valid_utf8(t@);
                            encode_utf8_decode_utf8(t@);
                        }
                        (bytes_of_chars(&t), Resolution::Rename)
                    }
                },
            }
        },
    }
}

/// Every entry's decision, in apply order, and (under `fail`) the
/// conflicted ones.
fn decide_all(
    entries: &[Entry],
    order: &Vec<usize>,
    desired: &Vec<Desired>,
    occ: &Vec<Slot>,
    ws: &Vec<Slot>,
    p: &Policy,
    on_collision: OnCollision,
    case: VolumeCase,
) -> (r: (Vec<PlanItem>, Vec<PlanItem>))
    requires
        order@.len() == entries@.len() == desired@.len(),
        forall|j: int| 0 <= j < order@.len() ==> order@[j] < entries@.len(),
        desired_views(desired@) == desired_of(arranged(entry_views(entries@), order@), *p),
        slot_views(occ@) == occupancy(arranged(entry_views(entries@), order@), case),
        slot_views(ws@) == want_slots(
            arranged(entry_views(entries@), order@),
            desired_views(desired@),
            case,
            order@.len() as int,
        ),
        forall|j: int|
            0 <= j < desired@.len() ==> (#[trigger] desired@[j]@ matches DesiredView::Rename(t, _)
                ==> fits_spec(t, p.limits_spec())),
    ensures
        item_views(r.0@) == decisions(
            arranged(entry_views(entries@), order@),
            desired_views(desired@),
            *p,
            on_collision,
            case,
            order@.len(),
        ).0,
        on_collision == OnCollision::Fail ==> item_views(r.1@) == conflicts_of(item_views(r.0@)),
        on_collision != OnCollision::Fail ==> r.1@.len() == 0,
        forall|j: int|
            0 <= j < r.0@.len() && #[trigger] r.0@[j].resolution == Resolution::Rename ==> valid_utf8(
                r.0@[j].to@,
            ) && fits_spec(decode_utf8(r.0@[j].to@), p.limits_spec()),
{
    let ghost es = arranged(entry_views(entries@), order@);
    let ghost ds = desired_views(desired@);
    let n = order.len();
    let mut alloc: Vec<Slot> = Vec::new();
    let mut items: Vec<PlanItem> = Vec::new();
    let mut refused: Vec<PlanItem> = Vec::new();
    let mut pos: usize = 0;
    assert(item_views(items@) =~= Seq::<ItemView>::empty());
    assert(slot_views(alloc@) =~= Seq::<(DirIdent, NameKey)>::empty());
    while pos < n
        invariant
            0 <= pos <= n == order@.len() == entries@.len() == desired@.len() == es.len(),
            es == arranged(entry_views(entries@), order@),
            ds == desired_views(desired@),
            forall|j: int| 0 <= j < n ==> order@[j] < entries@.len(),
            slot_views(occ@) == occupancy(es, case),
            slot_views(ws@) == want_slots(es, ds, case, n as int),
            items@.len() == pos,
            item_views(items@) == decisions(es, ds, *p, on_collision, case, pos as nat).0,
            slot_views(alloc@) == decisions(es, ds, *p, on_collision, case, pos as nat).1,
            on_collision == OnCollision::Fail ==> item_views(refused@) == conflicts_of(
                item_views(items@),
            ),
            on_collision != OnCollision::Fail ==> refused@.len() == 0,
            forall|j: int|
                0 <= j < n ==> (#[trigger] desired@[j]@ matches DesiredView::Rename(t, _) ==> fits_spec(
                    t,
                    p.limits_spec(),
                )),
            forall|j: int|
                0 <= j < pos && #[trigger] items@[j].resolution == Resolution::Rename ==> valid_utf8(
                    items@[j].to@,
                ) && fits_spec(decode_utf8(items@[j].to@), p.limits_spec()),
        decreases n - pos,
    {
        let e = &entries[order[pos]];
        assert(e@ == es[pos as int]);
        assert(desired@[pos as int]@ == ds[pos as int]);
        let ghost before = item_views(items@);
        let ghost before_items = items@;
        let (to, resolution) = decide(
            e,
            &desired[pos],
            pos,
            occ,
            ws,
            &mut alloc,
            p,
            on_collision,
            case,
        );
        let item = PlanItem {
            dir: copy_dir(&e.dir),
            from: copy_bytes(&e.name),
            to,
            kind: e.kind,
            ident: e.ident,
            depth: e.depth,
            resolution,
            truncated: match (&desired[pos], resolution) {
                (Desired::Rename(_, tr), Resolution::Rename) => *tr,
                _ => false,
            },
        };
        let conflicted = match resolution {
            Resolution::Conflict(_) => true,
            _ => false,
        };
        if on_collision == OnCollision::Fail && conflicted {
            refused.push(copy_item(&item));
        }
        items.push(item);
        proof {
            assert(items@ == before_items.push(item));
            assert(item_views(items@) =~= before.push(item@));
            assert(item_views(items@).drop_last() =~= before);
            if on_collision == OnCollision::Fail {
                assert(item_views(refused@) =~= conflicts_of(item_views(items@)));
            }
            assert forall|j: int|
                0 <= j < pos + 1 && #[trigger] items@[j].resolution == Resolution::Rename
                    implies valid_utf8(items@[j].to@) && fits_spec(
                decode_utf8(items@[j].to@),
                p.limits_spec(),
            ) by {
                if j < pos {
                    assert(items@[j] == before_items[j]);
                }
            }
        }
        pos += 1;
    }
    (items, refused)
}

/// Build a plan. No I/O, no filesystem access of any kind.
///
/// Items come back in apply order: deepest first, ties broken by directory,
/// then by the NFC bytes of the source name, then by its raw bytes -- never
/// the input order.
///
/// `Err(BatchRefused)` when `on_collision` is `Fail` and at least one
/// destination collides; `Err(InternalInconsistency)` when the sibling-chain
/// assertion fires, which means `transform` stopped being idempotent.
#[verifier::rlimit(80)]
#[verifier::spinoff_prover]
pub fn plan(entries: &[Entry], p: &Policy, on_collision: OnCollision, case: VolumeCase) -> (r:
    Result<Plan, PlanError>)
    ensures
        outcome_view(r) == plan_spec(entry_views(entries@), *p, on_collision, case),
        outcome_view(r) matches PlanView::Planned(items) ==> forall|i: int|
            0 <= i < items.len() && #[trigger] items[i].resolution == Resolution::Rename
                ==> valid_utf8(items[i].to) && fits_spec(decode_utf8(items[i].to), p.limits_spec()),
{
    let order = deterministic_order(entries);
    let ghost es = arranged(entry_views(entries@), order@);
    let n = order.len();
    proof {
        assert forall|j: int| 0 <= j < n implies order@[j] < entries@.len() by {
            assert(order@.contains(order@[j]));
        }
    }
    let mut desired: Vec<Desired> = Vec::new();
    let mut pos: usize = 0;
    while pos < n
        invariant
            0 <= pos <= n == order@.len() == entries@.len(),
            es == arranged(entry_views(entries@), order@),
            forall|j: int| 0 <= j < n ==> order@[j] < entries@.len(),
            desired@.len() == pos,
            forall|j: int| 0 <= j < pos ==> #[trigger] desired@[j]@ == desired_spec(es[j].name, *p),
            forall|j: int|
                0 <= j < pos ==> (#[trigger] desired@[j]@ matches DesiredView::Rename(t, _) ==> fits_spec(
                    t,
                    p.limits_spec(),
                )),
        decreases n - pos,
    {
        desired.push(desired_for(&entries[order[pos]].name, p));
        pos += 1;
    }
    let ghost ds = desired_views(desired@);
    assert(ds =~= desired_of(es, *p));
    match check_no_sibling_chains(entries, &order, &desired) {
        Err(e) => return Err(e),
        Ok(()) => {},
    }
    let mut occ: Vec<Slot> = Vec::new();
    let mut ws: Vec<Slot> = Vec::new();
    pos = 0;
    while pos < n
        invariant
            0 <= pos <= n == order@.len() == entries@.len() == desired@.len() == es.len(),
            es == arranged(entry_views(entries@), order@),
            ds == desired_views(desired@),
            forall|j: int| 0 <= j < n ==> order@[j] < entries@.len(),
            slot_views(occ@) == occupancy(es, case).take(pos as int),
            slot_views(ws@) == want_slots(es, ds, case, pos as int),
        decreases n - pos,
    {
        let e = &entries[order[pos]];
        assert(e@ == es[pos as int]);
        let k = key_of_name(&e.name, case);
        let ghost before_occ = slot_views(occ@);
        let ghost kv = k@;
        occ.push(Slot { dir: e.dir_ident, key: k });
        assert(slot_views(occ@) =~= before_occ.push((e.dir_ident, kv)));
        assert(slot_views(occ@) =~= occupancy(es, case).take(pos + 1));
        assert(desired@[pos as int]@ == ds[pos as int]);
        if let Desired::Rename(text, _) = &desired[pos] {
            let t = chars_of(text.as_str());
            let wk = key_of_text(&t, case);
            ws.push(Slot { dir: e.dir_ident, key: wk });
        }
        assert(slot_views(ws@) =~= want_slots(es, ds, case, pos + 1));
        pos += 1;
    }
    assert(slot_views(occ@) =~= occupancy(es, case));
    let (items, refused) = decide_all(entries, &order, &desired, &occ, &ws, p, on_collision, case);
    proof {
        if !(on_collision == OnCollision::Fail && refused@.len() > 0) {
            assert forall|i: int|
                0 <= i < item_views(items@).len() && #[trigger] item_views(items@)[i].resolution
                    == Resolution::Rename implies valid_utf8(item_views(items@)[i].to) && fits_spec(
                decode_utf8(item_views(items@)[i].to),
                p.limits_spec(),
            ) by {
                assert(item_views(items@)[i] == items@[i]@);
            }
        }
    }
    if on_collision == OnCollision::Fail && refused.len() > 0 {
        Err(PlanError::BatchRefused(refused))
    } else {
        Ok(Plan { items })
    }
}

} // verus!
