//! The preview and the machine-readable report, as text and data.
//!
//! The rule this module enforces: an undecodable name is never shown raw.
//! Invalid bytes become `<hh>`, and so does every character that could
//! mislead a reader of the preview -- controls, bidi overrides, zero-width
//! characters, Tags, line and paragraph separators, and spaces other than
//! U+0020 -- so no file name can drive the terminal it is shown on, reorder
//! the text around it, or forge an extra report row. A literal `<` is escaped
//! too, so every `<` shown starts a genuine escape and the rendering is
//! reversible.

use vstd::prelude::*;
use vstd::utf8::{
    valid_first_scalar, decode_first_scalar, length_of_first_scalar, is_leading_byte_width_1,
    is_leading_byte_width_2, is_leading_byte_width_3, is_leading_byte_width_4,
    is_continuation_byte, valid_utf8, decode_utf8, char_u32_cast,
};
use crate::classes::{is_control_char, is_control};
use crate::invisible::{invisible, is_invisible};
use crate::text::{
    chars_of, decimal, decimal_chars, hex, hex_chars, pad_zeros, push_all, string_of, zero_pad,
};
use crate::pipeline::Unrepresentable;
use crate::plan::{
    Conflict, EntryKind, ItemView, PartView, PlanItem, Resolution, SkipReason, item_views,
    path_bytes, path_text, dir_eq, dir_view,
};
use crate::apply::{ItemResult, ResultView, result_views, count_renamed, count_failed};
use crate::journal::{kind_text, kind_str};

verus! {

// ---- escaping -----------------------------------------------------------------------

/// Unicode `Zs` (space separator), minus plain U+0020.
pub open spec fn unusual_space(c: char) -> bool {
    let u = c as u32;
    u == 0xa0 || u == 0x1680 || (0x2000 <= u && u <= 0x200a) || u == 0x202f || u == 0x205f || u
        == 0x3000
}

/// Could showing `c` raw mislead a reader of the preview? Invisible or
/// reordering (`Cc`, the invisible-stripping stage's named set, and the
/// Arabic letter mark U+061C, a bidi mark), row forging (U+2028, U+2029),
/// mistaken for formatting (unusual spaces), or a literal `<`, which would
/// look like the start of an escape.
pub open spec fn needs_escape_spec(c: char) -> bool {
    is_control_char(c) || c == '<' || invisible(c) || c == '\u{61c}' || c == '\u{2028}' || c
        == '\u{2029}' || unusual_space(c)
}

/// How one character is shown.
pub open spec fn escape_char_spec(c: char) -> Seq<char> {
    if c == '<' {
        "<3c>"@
    } else if !needs_escape_spec(c) {
        seq![c]
    } else if (c as u32) < 0x80 {
        "<"@ + zero_pad(hex(c as nat), 2) + ">"@
    } else {
        "<u+"@ + zero_pad(hex(c as nat), 4) + ">"@
    }
}

/// How a byte that starts no valid UTF-8 sequence is shown.
pub open spec fn byte_escape(b: u8) -> Seq<char> {
    "<"@ + zero_pad(hex(b as nat), 2) + ">"@
}

/// How a name's bytes are shown: each valid UTF-8 character as
/// [`escape_char_spec`] shows it, every other byte as `<hh>`.
pub open spec fn escape_spec(b: Seq<u8>) -> Seq<char>
    decreases b.len(),
{
    if b.len() == 0 {
        Seq::empty()
    } else if valid_first_scalar(b) {
        escape_char_spec(decode_first_scalar(b) as char) + escape_spec(
            b.skip(length_of_first_scalar(b)),
        )
    } else {
        byte_escape(b[0]) + escape_spec(b.drop_first())
    }
}

/// Unicode `Zs`, minus U+0020.
pub fn is_unusual_space(c: char) -> (r: bool)
    ensures
        r == unusual_space(c),
{
    let u = c as u32;
    u == 0xa0 || u == 0x1680 || (0x2000 <= u && u <= 0x200a) || u == 0x202f || u == 0x205f || u
        == 0x3000
}

/// Does showing `c` raw risk misleading the reader?
pub fn needs_escape(c: char) -> (r: bool)
    ensures
        r == needs_escape_spec(c),
{
    is_control(c) || c == '<' || is_invisible(c) || c == '\u{61c}' || c == '\u{2028}' || c
        == '\u{2029}' || is_unusual_space(c)
}

fn push_hex(out: &mut Vec<char>, u: u32, w: usize)
    ensures
        final(out)@ == old(out)@ + zero_pad(hex(u as nat), w as nat),
{
    let h = hex_chars(u);
    let p = pad_zeros(&h, w);
    push_all(out, &p);
}

fn push_lit(out: &mut Vec<char>, s: &str)
    ensures
        final(out)@ == old(out)@ + s@,
{
    let c = crate::text::chars_of(s);
    push_all(out, &c);
}

fn push_escaped_char(out: &mut Vec<char>, c: char)
    ensures
        final(out)@ == old(out)@ + escape_char_spec(c),
{
    if c == '<' {
        push_lit(out, "<3c>");
    } else if !needs_escape(c) {
        out.push(c);
        assert(out@ =~= old(out)@ + seq![c]);
    } else if (c as u32) < 0x80 {
        push_lit(out, "<");
        push_hex(out, c as u32, 2);
        push_lit(out, ">");
    } else {
        push_lit(out, "<u+");
        push_hex(out, c as u32, 4);
        push_lit(out, ">");
    }
}

/// Wraps `char::from_u32`. Claims what its documentation says: `Some`
/// exactly for a Unicode scalar value, holding the character with that code.
#[verifier::external_body]
fn char_of(u: u32) -> (r: Option<char>)
    ensures
        r is Some <==> (u <= 0x10ffff && !(0xd800 <= u && u <= 0xdfff)),
        r matches Some(c) ==> c as u32 == u,
{
    char::from_u32(u)
}

/// The character whose UTF-8 encoding starts at `b[i]`, and its length in
/// bytes, or `None` when no valid encoding starts there.
fn first_scalar(b: &[u8], i: usize) -> (r: Option<(char, usize)>)
    requires
        i < b@.len(),
    ensures
        r is Some <==> valid_first_scalar(b@.skip(i as int)),
        r matches Some((c, l)) ==> c == decode_first_scalar(b@.skip(i as int)) as char && l
            == length_of_first_scalar(b@.skip(i as int)) && 1 <= l <= 4,
{
    let ghost s = b@.skip(i as int);
    let b0 = b[i];
    assert(s[0] == b0);
    let n = b.len() - i;
    if b0 <= 0x7f {
        let cp: u32 = (b0 & 0x7F) as u32;
        assert(cp <= 0x7f) by (bit_vector)
            requires
                cp == (b0 & 0x7F) as u32,
        ;
        let c = char_of(cp).unwrap();
        proof {
            char_u32_cast(c, cp);
        }
        return Some((c, 1));
    }
    if 0xc0 <= b0 && b0 <= 0xdf {
        if n < 2 || !(0x80 <= b[i + 1] && b[i + 1] <= 0xbf) {
            proof {
                if n >= 2 {
                    assert(s[1] == b[i + 1]);
                }
            }
            return None;
        }
        let b1 = b[i + 1];
        assert(s[1] == b1);
        let cp: u32 = (((b0 & 0x1F) as u32) << 6) | ((b1 & 0x3F) as u32);
        assert(cp <= 0x7ff) by (bit_vector)
            requires
                cp == (((b0 & 0x1F) as u32) << 6) | ((b1 & 0x3F) as u32),
        ;
        if cp < 0x80 {
            return None;
        }
        let c = char_of(cp).unwrap();
        proof {
            char_u32_cast(c, cp);
        }
        return Some((c, 2));
    }
    if 0xe0 <= b0 && b0 <= 0xef {
        if n < 3 || !(0x80 <= b[i + 1] && b[i + 1] <= 0xbf) || !(0x80 <= b[i + 2] && b[i + 2]
            <= 0xbf) {
            proof {
                if n >= 3 {
                    assert(s[1] == b[i + 1]);
                    assert(s[2] == b[i + 2]);
                }
            }
            return None;
        }
        let b1 = b[i + 1];
        let b2 = b[i + 2];
        assert(s[1] == b1);
        assert(s[2] == b2);
        let cp: u32 = (((b0 & 0x0F) as u32) << 12) | (((b1 & 0x3F) as u32) << 6) | ((b2
            & 0x3F) as u32);
        assert(cp <= 0xffff) by (bit_vector)
            requires
                cp == (((b0 & 0x0F) as u32) << 12) | (((b1 & 0x3F) as u32) << 6) | ((b2
                    & 0x3F) as u32),
        ;
        if cp < 0x800 || (0xd800 <= cp && cp <= 0xdfff) {
            return None;
        }
        let c = char_of(cp).unwrap();
        proof {
            char_u32_cast(c, cp);
        }
        return Some((c, 3));
    }
    if 0xf0 <= b0 && b0 <= 0xf7 {
        if n < 4 || !(0x80 <= b[i + 1] && b[i + 1] <= 0xbf) || !(0x80 <= b[i + 2] && b[i + 2]
            <= 0xbf) || !(0x80 <= b[i + 3] && b[i + 3] <= 0xbf) {
            proof {
                if n >= 4 {
                    assert(s[1] == b[i + 1]);
                    assert(s[2] == b[i + 2]);
                    assert(s[3] == b[i + 3]);
                }
            }
            return None;
        }
        let b1 = b[i + 1];
        let b2 = b[i + 2];
        let b3 = b[i + 3];
        assert(s[1] == b1);
        assert(s[2] == b2);
        assert(s[3] == b3);
        let cp: u32 = (((b0 & 0x07) as u32) << 18) | (((b1 & 0x3F) as u32) << 12) | (((b2
            & 0x3F) as u32) << 6) | ((b3 & 0x3F) as u32);
        if cp < 0x10000 || cp > 0x10ffff {
            return None;
        }
        let c = char_of(cp).unwrap();
        proof {
            char_u32_cast(c, cp);
        }
        return Some((c, 4));
    }
    None
}

/// Render a name's bytes for display: exact text where it is text and
/// harmless, `<hh>` for a byte that is not part of valid UTF-8, and
/// `<hh>`/`<u+XXXX>` for any character that could mislead a reader.
pub fn escape_bytes(b: &[u8]) -> (r: String)
    ensures
        r@ == escape_spec(b@),
{
    let mut out: Vec<char> = Vec::new();
    let mut i: usize = 0;
    assert(b@.skip(0) =~= b@);
    while i < b.len()
        invariant
            0 <= i <= b@.len(),
            out@ + escape_spec(b@.skip(i as int)) == escape_spec(b@),
        decreases b@.len() - i,
    {
        let ghost s = b@.skip(i as int);
        let ghost before = out@;
        match first_scalar(b, i) {
            Some((c, l)) => {
                push_escaped_char(&mut out, c);
                assert(s.skip(l as int) =~= b@.skip(i + l));
                assert(out@ + escape_spec(b@.skip(i + l)) =~= before + escape_spec(s));
                i += l;
            },
            None => {
                push_lit(&mut out, "<");
                push_hex(&mut out, b[i] as u32, 2);
                push_lit(&mut out, ">");
                assert(s[0] == b[i as int]);
                assert(s.drop_first() =~= b@.skip(i + 1));
                assert(out@ + escape_spec(b@.skip(i + 1)) =~= before + escape_spec(s));
                i += 1;
            },
        }
    }
    assert(b@.skip(b@.len() as int) =~= Seq::<u8>::empty());
    assert(out@ =~= escape_spec(b@));
    string_of(&out)
}


/// Render a name's bytes for display, as [`escape_bytes`] does.
pub fn escape(name: &[u8]) -> (r: String)
    ensures
        r@ == escape_spec(name@),
{
    escape_bytes(name)
}

// ---- notes ------------------------------------------------------------------------------

/// The entry kind, for anything that is not a regular file or directory:
/// instead of silently refusing to touch a symlink or a FIFO, say what it is.
pub open spec fn kind_note_spec(k: EntryKind) -> Option<Seq<char>> {
    match k {
        EntryKind::File | EntryKind::Dir => None,
        EntryKind::Symlink => Some("symlink"@),
        EntryKind::Other => Some("special"@),
    }
}

pub fn kind_note(k: EntryKind) -> (r: Option<&'static str>)
    ensures
        match r {
            Some(s) => kind_note_spec(k) == Some(s@),
            None => kind_note_spec(k) is None,
        },
{
    match k {
        EntryKind::File | EntryKind::Dir => None,
        EntryKind::Symlink => Some("symlink"),
        EntryKind::Other => Some("special"),
    }
}

pub open spec fn skip_note_spec(r: SkipReason) -> Seq<char> {
    match r {
        SkipReason::NotUtf8 => "name is not valid UTF-8; detoxrs does not guess encodings"@,
        SkipReason::Unrepresentable(Unrepresentable::ReducesToEmpty) => "nothing safe would remain"@,
        SkipReason::Unrepresentable(Unrepresentable::ReducesToDotOrDotDot) => "would become . or .."@,
        SkipReason::Unrepresentable(Unrepresentable::NotConverged) => "transform did not reach a fixed point"@,
    }
}

/// Why an entry is left alone, as the report says it.
pub fn skip_note(r: SkipReason) -> (s: &'static str)
    ensures
        s@ == skip_note_spec(r),
{
    match r {
        SkipReason::NotUtf8 => "name is not valid UTF-8; detoxrs does not guess encodings",
        SkipReason::Unrepresentable(Unrepresentable::ReducesToEmpty) => "nothing safe would remain",
        SkipReason::Unrepresentable(Unrepresentable::ReducesToDotOrDotDot) => "would become . or ..",
        SkipReason::Unrepresentable(Unrepresentable::NotConverged) => "transform did not reach a fixed point",
    }
}

pub open spec fn conflict_note_spec(c: Conflict) -> Seq<char> {
    match c {
        Conflict::IntraBatch => "another entry in this directory wants the same name"@,
        Conflict::PreExisting => "that name is already taken"@,
        Conflict::Unresolvable => "no free -N suffix below 1000"@,
    }
}

/// Why a destination could not be used, as the report says it.
pub fn conflict_note(c: Conflict) -> (s: &'static str)
    ensures
        s@ == conflict_note_spec(c),
{
    match c {
        Conflict::IntraBatch => "another entry in this directory wants the same name",
        Conflict::PreExisting => "that name is already taken",
        Conflict::Unresolvable => "no free -N suffix below 1000",
    }
}

// ---- the tally ---------------------------------------------------------------------------

/// Counts for the summary line.
#[derive(Debug, Clone, Copy, PartialEq, Eq, Structural)]
pub struct Tally {
    pub rename: usize,
    pub unchanged: usize,
    pub skipped: usize,
    pub conflicts: usize,
    pub not_utf8: usize,
}

/// `(rename, unchanged, skipped, conflicts, not_utf8)` over `items`.
pub open spec fn tally_spec(items: Seq<ItemView>) -> (nat, nat, nat, nat, nat)
    decreases items.len(),
{
    if items.len() == 0 {
        (0, 0, 0, 0, 0)
    } else {
        let t = tally_spec(items.drop_last());
        match items.last().resolution {
            Resolution::Rename => (t.0 + 1, t.1, t.2, t.3, t.4),
            Resolution::Unchanged => (t.0, t.1 + 1, t.2, t.3, t.4),
            Resolution::Skipped(r) => (t.0, t.1, t.2 + 1, t.3, if r == SkipReason::NotUtf8 {
                t.4 + 1
            } else {
                t.4
            }),
            Resolution::Conflict(_) => (t.0, t.1, t.2, t.3 + 1, t.4),
        }
    }
}

proof fn lemma_tally_bound(items: Seq<ItemView>)
    ensures
        tally_spec(items).0 + tally_spec(items).1 + tally_spec(items).2 + tally_spec(items).3
            == items.len(),
        tally_spec(items).4 <= tally_spec(items).2,
    decreases items.len(),
{
    if items.len() > 0 {
        lemma_tally_bound(items.drop_last());
    }
}

/// Is the item a rename?
pub open spec fn is_rename(i: ItemView) -> bool {
    i.resolution == Resolution::Rename
}

/// Is the item left as it is?
pub open spec fn is_unchanged(i: ItemView) -> bool {
    i.resolution == Resolution::Unchanged
}

/// Is the item skipped, for any reason?
pub open spec fn is_skipped(i: ItemView) -> bool {
    i.resolution is Skipped
}

/// Is the item in conflict, of any kind?
pub open spec fn is_conflict(i: ItemView) -> bool {
    i.resolution is Conflict
}

/// Is the item skipped because its name is not UTF-8?
pub open spec fn is_not_utf8(i: ItemView) -> bool {
    i.resolution == Resolution::Skipped(SkipReason::NotUtf8)
}

/// The tally counts each resolution: the renames, the unchanged, the
/// skipped and the conflicted items are exactly those of `items` with that
/// resolution, and the names that are not UTF-8 are those skipped for it.
pub proof fn law_tally_counts_each_resolution(items: Seq<ItemView>)
    ensures
        tally_spec(items).0 == items.filter(|i: ItemView| is_rename(i)).len(),
        tally_spec(items).1 == items.filter(|i: ItemView| is_unchanged(i)).len(),
        tally_spec(items).2 == items.filter(|i: ItemView| is_skipped(i)).len(),
        tally_spec(items).3 == items.filter(|i: ItemView| is_conflict(i)).len(),
        tally_spec(items).4 == items.filter(|i: ItemView| is_not_utf8(i)).len(),
    decreases items.len(),
{
    reveal(Seq::filter);
    if items.len() > 0 {
        law_tally_counts_each_resolution(items.drop_last());
    }
}

impl Tally {
    pub open spec fn matches(&self, items: Seq<ItemView>) -> bool {
        let t = tally_spec(items);
        &&& self.rename as nat == t.0
        &&& self.unchanged as nat == t.1
        &&& self.skipped as nat == t.2
        &&& self.conflicts as nat == t.3
        &&& self.not_utf8 as nat == t.4
    }

    /// Count the items by resolution.
    pub fn of(items: &[PlanItem]) -> (t: Tally)
        ensures
            t.matches(item_views(items@)),
    {
        let mut t = Tally { rename: 0, unchanged: 0, skipped: 0, conflicts: 0, not_utf8: 0 };
        let mut i: usize = 0;
        while i < items.len()
            invariant
                0 <= i <= items@.len(),
                t.matches(item_views(items@.take(i as int))),
            decreases items@.len() - i,
        {
            let ghost pre = item_views(items@.take(i as int));
            proof {
                assert(item_views(items@.take(i + 1)).drop_last() =~= pre);
                assert(item_views(items@.take(i + 1)).last() == items@[i as int]@);
                lemma_tally_bound(pre);
            }
            match items[i].resolution {
                Resolution::Rename => {
                    t.rename = t.rename + 1;
                },
                Resolution::Unchanged => {
                    t.unchanged = t.unchanged + 1;
                },
                Resolution::Skipped(r) => {
                    t.skipped = t.skipped + 1;
                    if r == SkipReason::NotUtf8 {
                        t.not_utf8 = t.not_utf8 + 1;
                    }
                },
                Resolution::Conflict(_) => {
                    t.conflicts = t.conflicts + 1;
                },
            }
            i += 1;
        }
        assert(items@.take(items@.len() as int) =~= items@);
        t
    }
}

// ---- item lines --------------------------------------------------------------------------

/// A name as shown: escaped, with a trailing `/` for a directory.
pub open spec fn display_spec(name: Seq<u8>, kind: EntryKind) -> Seq<char> {
    if kind == EntryKind::Dir {
        escape_spec(name) + "/"@
    } else {
        escape_spec(name)
    }
}

pub fn display_name(name: &[u8], kind: EntryKind) -> (r: Vec<char>)
    ensures
        r@ == display_spec(name@, kind),
{
    let e = escape_bytes(name);
    let mut out = chars_of(e.as_str());
    if kind == EntryKind::Dir {
        push_lit(&mut out, "/");
    }
    out
}

/// `n` spaces.
pub open spec fn spaces(n: nat) -> Seq<char> {
    Seq::new(n, |i: int| ' ')
}

/// The arrow and the right-hand column of an item line.
pub open spec fn arrow_and_rest(item: ItemView) -> (Seq<char>, Seq<char>) {
    match item.resolution {
        Resolution::Rename => ("->"@, display_spec(item.to, item.kind)),
        Resolution::Unchanged => ("= "@, "(unchanged)"@),
        Resolution::Skipped(r) => ("- "@, "skipped ("@ + skip_note_spec(r) + ")"@),
        Resolution::Conflict(c) => ("! "@, "conflict ("@ + conflict_note_spec(c) + ")"@),
    }
}

/// The notes after an item line: what kind of entry it is when that is
/// unusual, a name that was shortened, and a file with other hardlinks
/// (renaming one link renames one directory entry; the others keep the old
/// name).
pub open spec fn notes_spec(item: ItemView) -> Seq<char> {
    (match kind_note_spec(item.kind) {
        Some(k) => " ["@ + k + "]"@,
        None => Seq::empty(),
    }) + (if item.truncated {
        " [name shortened to fit the length limit]"@
    } else {
        Seq::empty()
    }) + (if item.kind == EntryKind::File && item.ident.nlink > 1 {
        " [hardlink, nlink="@ + decimal(item.ident.nlink as nat) + "]"@
    } else {
        Seq::empty()
    })
}

/// One item line, without its indent: the source column padded to `width`
/// characters, the arrow, the destination or reason, then the notes.
pub open spec fn line_spec(item: ItemView, width: nat) -> Seq<char> {
    let from = display_spec(item.from, item.kind);
    let pad = if width > from.len() {
        (width - from.len()) as nat
    } else {
        0
    };
    from + spaces(pad) + "  "@ + arrow_and_rest(item).0 + "  "@ + arrow_and_rest(item).1
        + notes_spec(item)
}

fn push_spaces(out: &mut Vec<char>, n: usize)
    ensures
        final(out)@ == old(out)@ + spaces(n as nat),
{
    let mut k: usize = 0;
    while k < n
        invariant
            0 <= k <= n,
            out@ == old(out)@ + spaces(k as nat),
        decreases n - k,
    {
        out.push(' ');
        k += 1;
        assert(out@ =~= old(out)@ + spaces(k as nat));
    }
}

fn head_chars(item: &PlanItem, width: usize) -> (r: Vec<char>)
    ensures
        r@ == ({
            let from = display_spec(item.from@, item.kind);
            let pad = if width > from.len() {
                (width - from.len()) as nat
            } else {
                0
            };
            from + spaces(pad) + "  "@ + arrow_and_rest(item@).0 + "  "@ + arrow_and_rest(item@).1
        }),
{
    let mut out = display_name(&item.from, item.kind);
    let flen = out.len();
    let pad = if width > flen {
        width - flen
    } else {
        0
    };
    push_spaces(&mut out, pad);
    push_lit(&mut out, "  ");
    match item.resolution {
        Resolution::Rename => {
            push_lit(&mut out, "->");
            push_lit(&mut out, "  ");
            let to = display_name(&item.to, item.kind);
            push_all(&mut out, &to);
        },
        Resolution::Unchanged => {
            push_lit(&mut out, "= ");
            push_lit(&mut out, "  ");
            push_lit(&mut out, "(unchanged)");
        },
        Resolution::Skipped(r) => {
            push_lit(&mut out, "- ");
            push_lit(&mut out, "  ");
            let ghost m = out@;
            push_lit(&mut out, "skipped (");
            push_lit(&mut out, skip_note(r));
            push_lit(&mut out, ")");
            assert(out@ =~= m + ("skipped ("@ + skip_note_spec(r) + ")"@));
        },
        Resolution::Conflict(c) => {
            push_lit(&mut out, "! ");
            push_lit(&mut out, "  ");
            let ghost m = out@;
            push_lit(&mut out, "conflict (");
            push_lit(&mut out, conflict_note(c));
            push_lit(&mut out, ")");
            assert(out@ =~= m + ("conflict ("@ + conflict_note_spec(c) + ")"@));
        },
    }
    out
}

fn notes_chars(item: &PlanItem) -> (r: Vec<char>)
    ensures
        r@ == notes_spec(item@),
{
    let mut out: Vec<char> = Vec::new();
    match kind_note(item.kind) {
        Some(k) => {
            push_lit(&mut out, " [");
            push_lit(&mut out, k);
            push_lit(&mut out, "]");
        },
        None => {},
    }
    let ghost k1 = out@;
    if item.truncated {
        push_lit(&mut out, " [name shortened to fit the length limit]");
    }
    let ghost k2 = out@;
    if item.kind == EntryKind::File && item.ident.nlink > 1 {
        push_lit(&mut out, " [hardlink, nlink=");
        let d = decimal_chars(item.ident.nlink);
        push_all(&mut out, &d);
        push_lit(&mut out, "]");
    }
    proof {
        let kn = match kind_note_spec(item.kind) {
            Some(k) => " ["@ + k + "]"@,
            None => Seq::<char>::empty(),
        };
        let tn = if item.truncated {
            " [name shortened to fit the length limit]"@
        } else {
            Seq::<char>::empty()
        };
        let hn = if item.kind == EntryKind::File && item.ident.nlink > 1 {
            " [hardlink, nlink="@ + decimal(item.ident.nlink as nat) + "]"@
        } else {
            Seq::<char>::empty()
        };
        assert(k1 =~= kn);
        assert(k2 =~= kn + tn);
        assert(out@ =~= kn + tn + hn);
    }
    out
}

/// One item line, without its indent.
pub fn line(item: &PlanItem, width: usize) -> (r: String)
    ensures
        r@ == line_spec(item@, width as nat),
{
    let mut out = head_chars(item, width);
    let n = notes_chars(item);
    push_all(&mut out, &n);
    string_of(&out)
}


// ---- listings ------------------------------------------------------------------------------

/// The items a listing shows: all of them, or all but the unchanged ones.
pub open spec fn shown_of(items: Seq<ItemView>, show_unchanged: bool) -> Seq<ItemView>
    decreases items.len(),
{
    if items.len() == 0 {
        Seq::empty()
    } else {
        let pre = shown_of(items.drop_last(), show_unchanged);
        if show_unchanged || items.last().resolution != Resolution::Unchanged {
            pre.push(items.last())
        } else {
            pre
        }
    }
}

/// Does the item at `i` start a new directory group?
pub open spec fn starts_group(s: Seq<ItemView>, i: int) -> bool {
    i == 0 || s[i].dir != s[i - 1].dir
}

/// Where the directory group holding `i` starts.
pub open spec fn group_start(s: Seq<ItemView>, i: int) -> int
    decreases i,
{
    if i <= 0 || s[i].dir != s[i - 1].dir {
        i
    } else {
        group_start(s, i - 1)
    }
}

/// Where the run of items in directory `d` from `j` on ends.
pub open spec fn run_end(s: Seq<ItemView>, d: Seq<PartView>, j: int) -> int
    decreases s.len() - j,
{
    if j < 0 || j >= s.len() || s[j].dir != d {
        j
    } else {
        run_end(s, d, j + 1)
    }
}

/// The widest shown source name among the items `k..e`.
pub open spec fn run_max(s: Seq<ItemView>, k: int, e: int) -> nat
    decreases e - k,
{
    if e <= k {
        0
    } else {
        let m = run_max(s, k, e - 1);
        let w = display_spec(s[e - 1].from, s[e - 1].kind).len();
        if w > m {
            w
        } else {
            m
        }
    }
}

/// The source column's width for the item at `i`: the widest source name in
/// its directory group, so the arrows line up per directory.
pub open spec fn width_at(s: Seq<ItemView>, i: int) -> nat {
    let k = group_start(s, i);
    run_max(s, k, run_end(s, s[k].dir, k))
}

/// A directory group's header: its path, escaped, or `.` for the empty
/// parent of a bare relative argument.
pub open spec fn header_spec(d: Seq<PartView>) -> Seq<char> {
    if path_bytes(d).len() == 0 {
        "."@
    } else {
        escape_spec(path_bytes(d))
    }
}

/// The lines for the item at `i`: its group's header first when it starts
/// one, then the item, indented.
pub open spec fn item_block(s: Seq<ItemView>, i: int) -> Seq<Seq<char>> {
    let l = "  "@ + line_spec(s[i], width_at(s, i));
    if starts_group(s, i) {
        seq![header_spec(s[i].dir), l]
    } else {
        seq![l]
    }
}

pub open spec fn blocks_upto(s: Seq<ItemView>, n: nat) -> Seq<Seq<char>>
    decreases n,
{
    if n == 0 {
        Seq::empty()
    } else {
        blocks_upto(s, (n - 1) as nat) + item_block(s, n - 1)
    }
}

/// The item lines, grouped under a header per directory.
pub open spec fn items_spec(items: Seq<ItemView>, show_unchanged: bool) -> Seq<Seq<char>> {
    let s = shown_of(items, show_unchanged);
    blocks_upto(s, s.len())
}

pub open spec fn strings_of(v: Seq<String>) -> Seq<Seq<char>> {
    v.map_values(|x: String| x@)
}

fn push_line(lines: &mut Vec<String>, l: String)
    ensures
        strings_of(final(lines)@) == strings_of(old(lines)@).push(l@),
{
    lines.push(l);
    assert(strings_of(lines@) =~= strings_of(old(lines)@).push(l@));
}

/// The shown items' positions in `items`.
fn shown_positions(items: &[PlanItem], show_unchanged: bool) -> (r: Vec<usize>)
    ensures
        r@.len() == shown_of(item_views(items@), show_unchanged).len(),
        forall|k: int|
            0 <= k < r@.len() ==> #[trigger] r@[k] < items@.len() && items@[r@[k] as int]@ == shown_of(
                item_views(items@),
                show_unchanged,
            )[k],
{
    let mut r: Vec<usize> = Vec::new();
    let mut i: usize = 0;
    while i < items.len()
        invariant
            0 <= i <= items@.len(),
            r@.len() == shown_of(item_views(items@.take(i as int)), show_unchanged).len(),
            forall|k: int|
                0 <= k < r@.len() ==> #[trigger] r@[k] < i && items@[r@[k] as int]@ == shown_of(
                    item_views(items@.take(i as int)),
                    show_unchanged,
                )[k],
        decreases items@.len() - i,
    {
        let ghost pre = item_views(items@.take(i as int));
        let ghost before = r@;
        assert(item_views(items@.take(i + 1)).drop_last() =~= pre);
        assert(item_views(items@.take(i + 1)).last() == items@[i as int]@);
        if show_unchanged || items[i].resolution != Resolution::Unchanged {
            r.push(i);
            assert forall|k: int| 0 <= k < r@.len() implies #[trigger] r@[k] < i + 1 && items@[r@[k] as int]@
                == shown_of(item_views(items@.take(i + 1)), show_unchanged)[k] by {
                if k < before.len() {
                    assert(r@[k] == before[k]);
                }
            }
        }
        i += 1;
    }
    assert(items@.take(items@.len() as int) =~= items@);
    r
}

proof fn lemma_group_start(s: Seq<ItemView>, i: int)
    requires
        0 <= i < s.len(),
    ensures
        0 <= group_start(s, i) <= i,
        s[group_start(s, i)].dir == s[i].dir,
        starts_group(s, i) ==> group_start(s, i) == i,
        !starts_group(s, i) ==> group_start(s, i) == group_start(s, i - 1),
    decreases i,
{
    if i > 0 && s[i].dir == s[i - 1].dir {
        lemma_group_start(s, i - 1);
    }
}

/// The item lines, grouped under a header per directory. Each line is
/// returned without its newline.
pub fn items(list: &[PlanItem], show_unchanged: bool) -> (r: Vec<String>)
    ensures
        strings_of(r@) == items_spec(item_views(list@), show_unchanged),
{
    let pos = shown_positions(list, show_unchanged);
    let ghost s = shown_of(item_views(list@), show_unchanged);
    let mut out: Vec<String> = Vec::new();
    let mut width: usize = 0;
    let mut k: usize = 0;
    assert(strings_of(out@) =~= blocks_upto(s, 0));
    while k < pos.len()
        invariant
            0 <= k <= pos@.len() == s.len(),
            s == shown_of(item_views(list@), show_unchanged),
            forall|t: int|
                0 <= t < pos@.len() ==> #[trigger] pos@[t] < list@.len() && list@[pos@[t] as int]@
                    == s[t],
            strings_of(out@) == blocks_upto(s, k as nat),
            k > 0 ==> width == width_at(s, k - 1),
        decreases pos@.len() - k,
    {
        let item = &list[pos[k]];
        assert(item@ == s[k as int]);
        proof {
            lemma_group_start(s, k as int);
        }
        let new_group = k == 0 || !dir_eq(&item.dir, &list[pos[k - 1]].dir);
        assert(new_group == starts_group(s, k as int));
        if new_group {
            let mut w: usize = 0;
            let mut j: usize = k;
            while j < pos.len() && dir_eq(&list[pos[j]].dir, &item.dir)
                invariant
                    k <= j <= pos@.len() == s.len(),
                    forall|t: int|
                        0 <= t < pos@.len() ==> #[trigger] pos@[t] < list@.len() && list@[pos@[t] as int]@
                            == s[t],
                    item@ == s[k as int],
                    w == run_max(s, k as int, j as int),
                    run_end(s, s[k as int].dir, k as int) == run_end(s, s[k as int].dir, j as int),
                decreases pos@.len() - j,
            {
                let d = display_name(&list[pos[j]].from, list[pos[j]].kind);
                assert(list@[pos@[j as int] as int]@ == s[j as int]);
                if d.len() > w {
                    w = d.len();
                }
                j += 1;
            }
            width = w;
            let dir = path_text(&item.dir);
            let header = if dir.len() == 0 {
                String::from_str(".")
            } else {
                escape_bytes(&dir)
            };
            push_line(&mut out, header);
        } else {
            assert(width_at(s, k as int) == width_at(s, k - 1));
        }
        let body = line(item, width);
        let mut l = chars_of("  ");
        let bc = chars_of(body.as_str());
        push_all(&mut l, &bc);
        push_line(&mut out, string_of(&l));
        proof {
            assert(blocks_upto(s, (k + 1) as nat) == blocks_upto(s, k as nat) + item_block(s, k as int));
            assert(strings_of(out@) =~= blocks_upto(s, (k + 1) as nat));
        }
        k += 1;
    }
    out
}

// ---- the two reports -----------------------------------------------------------------------

pub open spec fn not_utf8_hint(n: nat) -> Seq<Seq<char>> {
    if n > 0 {
        seq![
            decimal(n)
                + " name(s) were skipped as not-valid-UTF-8: fix the encoding with convmv, then re-run."@,
        ]
    } else {
        Seq::empty()
    }
}

/// The preview: the item lines, a blank line, the counts, a footer stating
/// plainly that nothing was changed, and the hint for undecodable names.
pub open spec fn preview_spec(items: Seq<ItemView>, show_unchanged: bool) -> Seq<Seq<char>> {
    let t = tally_spec(items);
    items_spec(items, show_unchanged) + seq![
        Seq::empty(),
        decimal(t.0) + " to rename, "@ + decimal(t.1) + " unchanged, "@ + decimal(t.2) + " skipped, "@
            + decimal(t.3) + " conflicts."@,
        "Nothing was changed. Re-run with -x to apply."@,
    ] + not_utf8_hint(t.4)
}

fn push_count(out: &mut Vec<char>, n: usize, s: &str)
    ensures
        final(out)@ == old(out)@ + decimal(n as nat) + s@,
{
    let d = decimal_chars(n as u64);
    push_all(out, &d);
    push_lit(out, s);
}

fn push_hint(lines: &mut Vec<String>, n: usize)
    ensures
        strings_of(final(lines)@) == strings_of(old(lines)@) + not_utf8_hint(n as nat),
{
    if n > 0 {
        let mut l: Vec<char> = Vec::new();
        push_count(
            &mut l,
            n,
            " name(s) were skipped as not-valid-UTF-8: fix the encoding with convmv, then re-run.",
        );
        push_line(lines, string_of(&l));
    } else {
        assert(strings_of(lines@) =~= strings_of(lines@) + Seq::<Seq<char>>::empty());
    }
}

/// The whole preview, as lines.
pub fn preview(items: &[PlanItem], show_unchanged: bool) -> (r: Vec<String>)
    ensures
        strings_of(r@) == preview_spec(item_views(items@), show_unchanged),
{
    let mut out = crate::report::items(items, show_unchanged);
    let ghost head = strings_of(out@);
    let t = Tally::of(items);
    push_line(&mut out, String::new());
    let mut l: Vec<char> = Vec::new();
    push_count(&mut l, t.rename, " to rename, ");
    push_count(&mut l, t.unchanged, " unchanged, ");
    push_count(&mut l, t.skipped, " skipped, ");
    push_count(&mut l, t.conflicts, " conflicts.");
    push_line(&mut out, string_of(&l));
    push_line(&mut out, String::from_str("Nothing was changed. Re-run with -x to apply."));
    let ghost mid = strings_of(out@);
    push_hint(&mut out, t.not_utf8);
    proof {
        let tt = tally_spec(item_views(items@));
        let sl = decimal(tt.0) + " to rename, "@ + decimal(tt.1) + " unchanged, "@ + decimal(tt.2)
            + " skipped, "@ + decimal(tt.3) + " conflicts."@;
        assert(l@ =~= sl);
        assert(mid =~= head + seq![Seq::<char>::empty(), sl, "Nothing was changed. Re-run with -x to apply."@]);
    }
    out
}

/// The items an applied run still lists: those it was never going to rename.
pub open spec fn untouched_of(items: Seq<ItemView>) -> Seq<ItemView>
    decreases items.len(),
{
    if items.len() == 0 {
        Seq::empty()
    } else {
        let pre = untouched_of(items.drop_last());
        if items.last().resolution is Rename || items.last().resolution is Unchanged {
            pre
        } else {
            pre.push(items.last())
        }
    }
}

/// The closing report of an applying run: why each untouched item was left
/// alone, the counts (with `failed` appended), why the batch stopped early if
/// it did, the one command that undoes it and where its journal is (when a
/// journal was opened), and the hint for undecodable names.
pub open spec fn applied_spec(
    items: Seq<ItemView>,
    renamed: nat,
    failed: nat,
    aborted: Option<Seq<char>>,
    journal: Option<(Seq<char>, Seq<char>)>,
) -> Seq<Seq<char>> {
    let t = tally_spec(items);
    items_spec(untouched_of(items), false) + seq![
        Seq::empty(),
        decimal(renamed) + " renamed, "@ + decimal(t.1) + " unchanged, "@ + decimal(t.2) + " skipped, "@
            + decimal(t.3) + " conflicts, "@ + decimal(failed) + " failed."@,
    ] + (match aborted {
        Some(why) => seq!["The batch stopped early: "@ + why],
        None => Seq::empty(),
    }) + (match journal {
        Some((batch, path)) => seq!["Undo with: detoxrs undo "@ + batch, "Journal: "@ + path],
        None => Seq::empty(),
    }) + not_utf8_hint(t.4)
}

fn copy_item_of(i: &PlanItem) -> (r: PlanItem)
    ensures
        r@ == i@,
{
    PlanItem {
        dir: crate::plan::copy_dir(&i.dir),
        from: crate::plan::copy_bytes(&i.from),
        to: crate::plan::copy_bytes(&i.to),
        kind: i.kind,
        ident: i.ident,
        depth: i.depth,
        resolution: i.resolution,
        truncated: i.truncated,
    }
}

fn untouched(items: &[PlanItem]) -> (r: Vec<PlanItem>)
    ensures
        item_views(r@) == untouched_of(item_views(items@)),
{
    let mut r: Vec<PlanItem> = Vec::new();
    let mut i: usize = 0;
    while i < items.len()
        invariant
            0 <= i <= items@.len(),
            item_views(r@) == untouched_of(item_views(items@.take(i as int))),
        decreases items@.len() - i,
    {
        let ghost pre = item_views(items@.take(i as int));
        let ghost before = item_views(r@);
        assert(item_views(items@.take(i + 1)).drop_last() =~= pre);
        assert(item_views(items@.take(i + 1)).last() == items@[i as int]@);
        match items[i].resolution {
            Resolution::Rename | Resolution::Unchanged => {},
            _ => {
                let c = copy_item_of(&items[i]);
                r.push(c);
                assert(item_views(r@) =~= before.push(items@[i as int]@));
            },
        }
        i += 1;
    }
    assert(items@.take(items@.len() as int) =~= items@);
    r
}

/// The closing report of an applying run, as lines. `journal` is the batch
/// id and the journal's path, when the run opened one.
pub fn applied(
    items: &[PlanItem],
    renamed: usize,
    failed: usize,
    aborted: &Option<String>,
    journal: Option<(&str, &str)>,
) -> (r: Vec<String>)
    ensures
        strings_of(r@) == applied_spec(
            item_views(items@),
            renamed as nat,
            failed as nat,
            match aborted {
                Some(w) => Some(w@),
                None => None,
            },
            match journal {
                Some((b, p)) => Some((b@, p@)),
                None => None,
            },
        ),
{
    let t = Tally::of(items);
    let left = untouched(items);
    let mut out = crate::report::items(&left, false);
    let ghost head = strings_of(out@);
    push_line(&mut out, String::new());
    let mut l: Vec<char> = Vec::new();
    push_count(&mut l, renamed, " renamed, ");
    push_count(&mut l, t.unchanged, " unchanged, ");
    push_count(&mut l, t.skipped, " skipped, ");
    push_count(&mut l, t.conflicts, " conflicts, ");
    push_count(&mut l, failed, " failed.");
    let ghost counts = l@;
    push_line(&mut out, string_of(&l));
    let ghost a = strings_of(out@);
    match aborted {
        Some(why) => {
            let mut m = chars_of("The batch stopped early: ");
            let w = chars_of(why.as_str());
            push_all(&mut m, &w);
            push_line(&mut out, string_of(&m));
        },
        None => {},
    }
    let ghost b = strings_of(out@);
    match journal {
        Some((batch, path)) => {
            let mut m = chars_of("Undo with: detoxrs undo ");
            let bc = chars_of(batch);
            push_all(&mut m, &bc);
            push_line(&mut out, string_of(&m));
            let mut n = chars_of("Journal: ");
            let pc = chars_of(path);
            push_all(&mut n, &pc);
            push_line(&mut out, string_of(&n));
        },
        None => {},
    }
    let ghost c = strings_of(out@);
    push_hint(&mut out, t.not_utf8);
    proof {
        let tt = tally_spec(item_views(items@));
        let cl = decimal(renamed as nat) + " renamed, "@ + decimal(tt.1) + " unchanged, "@ + decimal(tt.2)
            + " skipped, "@ + decimal(tt.3) + " conflicts, "@ + decimal(failed as nat) + " failed."@;
        assert(counts =~= cl);
        assert(a =~= head + seq![Seq::<char>::empty(), cl]);
        let ab = match aborted {
            Some(w) => seq!["The batch stopped early: "@ + w@],
            None => Seq::<Seq<char>>::empty(),
        };
        assert(b =~= a + ab);
        let jb = match journal {
            Some((bt, pt)) => seq!["Undo with: detoxrs undo "@ + bt@, "Journal: "@ + pt@],
            None => Seq::<Seq<char>>::empty(),
        };
        assert(c =~= b + jb);
    }
    out
}


// ---- the machine-readable form ---------------------------------------------------------

/// One item of the machine-readable report.
#[derive(Debug)]
pub struct JsonItem {
    /// `renamed`, `not_attempted` or `failed` after a run; `None` in a preview.
    pub result: Option<&'static str>,
    /// Why a failed item failed.
    pub error: Option<String>,
    /// The directory, escaped.
    pub dir: String,
    /// The current name, escaped.
    pub from: String,
    /// The intended name, escaped.
    pub to: String,
    /// Whether `from` is the exact name or an escaped rendering of one.
    pub utf8: bool,
    /// `file`, `dir`, `symlink` or `other`.
    pub kind: &'static str,
    pub depth: u32,
    pub nlink: u64,
    /// Whether stage 12 shortened `to`.
    pub truncated: bool,
    /// `rename`, `unchanged`, `skipped` or `conflict`.
    pub resolution: &'static str,
    /// Why an item is skipped or in conflict.
    pub note: Option<&'static str>,
}

pub struct JsonItemView {
    pub result: Option<Seq<char>>,
    pub error: Option<Seq<char>>,
    pub dir: Seq<char>,
    pub from: Seq<char>,
    pub to: Seq<char>,
    pub utf8: bool,
    pub kind: Seq<char>,
    pub depth: u32,
    pub nlink: u64,
    pub truncated: bool,
    pub resolution: Seq<char>,
    pub note: Option<Seq<char>>,
}

pub open spec fn opt_str(o: Option<&'static str>) -> Option<Seq<char>> {
    match o {
        Some(s) => Some(s@),
        None => None,
    }
}

pub open spec fn opt_string(o: Option<String>) -> Option<Seq<char>> {
    match o {
        Some(s) => Some(s@),
        None => None,
    }
}

impl View for JsonItem {
    type V = JsonItemView;

    open spec fn view(&self) -> JsonItemView {
        JsonItemView {
            result: opt_str(self.result),
            error: opt_string(self.error),
            dir: self.dir@,
            from: self.from@,
            to: self.to@,
            utf8: self.utf8,
            kind: self.kind@,
            depth: self.depth,
            nlink: self.nlink,
            truncated: self.truncated,
            resolution: self.resolution@,
            note: opt_str(self.note),
        }
    }
}

pub open spec fn resolution_text(r: Resolution) -> Seq<char> {
    match r {
        Resolution::Rename => "rename"@,
        Resolution::Unchanged => "unchanged"@,
        Resolution::Skipped(_) => "skipped"@,
        Resolution::Conflict(_) => "conflict"@,
    }
}

pub open spec fn result_text(r: ResultView) -> Seq<char> {
    match r {
        ResultView::Renamed => "renamed"@,
        ResultView::NotAttempted => "not_attempted"@,
        ResultView::Failed(_) => "failed"@,
    }
}

/// An outcome's result text names its kind: `renamed` exactly for a
/// rename that happened, `failed` exactly for one that failed, and
/// `not_attempted` exactly for one never tried; so two outcomes of different
/// kinds never read alike, and a reported item carries an `error` exactly
/// when it failed.
pub proof fn law_result_text_names_the_outcome(item: ItemView, o: ResultView, other: ResultView)
    ensures
        result_text(o) == "renamed"@ <==> o is Renamed,
        result_text(o) == "failed"@ <==> o is Failed,
        result_text(o) == "not_attempted"@ <==> o is NotAttempted,
        result_text(o) == result_text(other) ==> (o is Renamed <==> other is Renamed) && (
        o is Failed <==> other is Failed),
        json_item_spec(item, Some(o)).result == Some(result_text(o)),
        json_item_spec(item, Some(o)).error is Some <==> o is Failed,
        json_item_spec(item, None).result is None,
{
    reveal_strlit("renamed");
    reveal_strlit("failed");
    reveal_strlit("not_attempted");
    assert("renamed"@ != "failed"@) by {
        assert("renamed"@.len() != "failed"@.len());
    }
    assert("renamed"@ != "not_attempted"@) by {
        assert("renamed"@.len() != "not_attempted"@.len());
    }
    assert("failed"@ != "not_attempted"@) by {
        assert("failed"@.len() != "not_attempted"@.len());
    }
}

/// One item as the machine-readable report gives it, with its outcome
/// after a run.
pub open spec fn json_item_spec(item: ItemView, outcome: Option<ResultView>) -> JsonItemView {
    JsonItemView {
        result: match outcome {
            Some(o) => Some(result_text(o)),
            None => None,
        },
        error: match outcome {
            Some(ResultView::Failed(why)) => Some(why),
            _ => None,
        },
        dir: escape_spec(path_bytes(item.dir)),
        from: escape_spec(item.from),
        to: escape_spec(item.to),
        utf8: valid_utf8(item.from),
        kind: kind_text(item.kind),
        depth: item.depth,
        nlink: item.ident.nlink,
        truncated: item.truncated,
        resolution: resolution_text(item.resolution),
        note: match item.resolution {
            Resolution::Skipped(r) => Some(skip_note_spec(r)),
            Resolution::Conflict(c) => Some(conflict_note_spec(c)),
            _ => None,
        },
    }
}

/// The machine-readable report. Data on stdout; nothing else goes there.
#[derive(Debug)]
pub struct JsonDoc {
    /// `false` for a preview, so a consumer can never read one as a run.
    pub applied: bool,
    /// The batch id, when this run opened a journal.
    pub batch: Option<String>,
    /// The journal's path, when this run opened one.
    pub journal: Option<String>,
    /// Which rename guarantee the run had.
    pub atomicity: String,
    pub to_rename: usize,
    pub unchanged: usize,
    pub skipped: usize,
    pub conflicts: usize,
    /// After a run: how many were renamed.
    pub renamed: Option<usize>,
    /// After a run: how many failed.
    pub failed: Option<usize>,
    pub items: Vec<JsonItem>,
}

pub open spec fn json_views(v: Seq<JsonItem>) -> Seq<JsonItemView> {
    v.map_values(|j: JsonItem| j@)
}

pub struct JsonDocView {
    pub applied: bool,
    pub batch: Option<Seq<char>>,
    pub journal: Option<Seq<char>>,
    pub atomicity: Seq<char>,
    pub to_rename: nat,
    pub unchanged: nat,
    pub skipped: nat,
    pub conflicts: nat,
    pub renamed: Option<nat>,
    pub failed: Option<nat>,
    pub items: Seq<JsonItemView>,
}

impl View for JsonDoc {
    type V = JsonDocView;

    open spec fn view(&self) -> JsonDocView {
        JsonDocView {
            applied: self.applied,
            batch: opt_string(self.batch),
            journal: opt_string(self.journal),
            atomicity: self.atomicity@,
            to_rename: self.to_rename as nat,
            unchanged: self.unchanged as nat,
            skipped: self.skipped as nat,
            conflicts: self.conflicts as nat,
            renamed: match self.renamed {
                Some(n) => Some(n as nat),
                None => None,
            },
            failed: match self.failed {
                Some(n) => Some(n as nat),
                None => None,
            },
            items: json_views(self.items@),
        }
    }
}

/// The outcome reported for item `n`: none in a preview, or when the run
/// recorded fewer outcomes than there are items.
pub open spec fn outcome_at(outcomes: Option<Seq<ResultView>>, n: int) -> Option<ResultView> {
    match outcomes {
        Some(o) => if 0 <= n < o.len() {
            Some(o[n])
        } else {
            None
        },
        None => None,
    }
}

pub open spec fn json_spec(
    items: Seq<ItemView>,
    outcomes: Option<Seq<ResultView>>,
    journal: Option<(Seq<char>, Seq<char>)>,
    atomicity: Seq<char>,
) -> JsonDocView {
    let t = tally_spec(items);
    JsonDocView {
        applied: outcomes is Some,
        batch: match journal {
            Some((b, _)) => Some(b),
            None => None,
        },
        journal: match journal {
            Some((_, p)) => Some(p),
            None => None,
        },
        atomicity,
        to_rename: t.0,
        unchanged: t.1,
        skipped: t.2,
        conflicts: t.3,
        renamed: match outcomes {
            Some(o) => Some(count_renamed(o)),
            None => None,
        },
        failed: match outcomes {
            Some(o) => Some(count_failed(o)),
            None => None,
        },
        items: Seq::new(items.len(), |n: int| json_item_spec(items[n], outcome_at(outcomes, n))),
    }
}

fn json_item(item: &PlanItem, outcome: Option<&ItemResult>) -> (r: JsonItem)
    ensures
        r@ == json_item_spec(
            item@,
            match outcome {
                Some(o) => Some(o@),
                None => None,
            },
        ),
{
    let dir = path_text(&item.dir);
    JsonItem {
        result: match outcome {
            Some(ItemResult::Renamed) => Some("renamed"),
            Some(ItemResult::NotAttempted) => Some("not_attempted"),
            Some(ItemResult::Failed(_)) => Some("failed"),
            None => None,
        },
        error: match outcome {
            Some(ItemResult::Failed(why)) => Some(why.clone()),
            _ => None,
        },
        dir: escape_bytes(&dir),
        from: escape_bytes(&item.from),
        to: escape_bytes(&item.to),
        utf8: crate::unicode::utf8_text(&item.from).is_some(),
        kind: kind_str(item.kind),
        depth: item.depth,
        nlink: item.ident.nlink,
        truncated: item.truncated,
        resolution: match item.resolution {
            Resolution::Rename => "rename",
            Resolution::Unchanged => "unchanged",
            Resolution::Skipped(_) => "skipped",
            Resolution::Conflict(_) => "conflict",
        },
        note: match item.resolution {
            Resolution::Skipped(r) => Some(skip_note(r)),
            Resolution::Conflict(c) => Some(conflict_note(c)),
            _ => None,
        },
    }
}

fn count_outcomes(o: &[ItemResult]) -> (r: (usize, usize))
    ensures
        r.0 as nat == count_renamed(result_views(o@)),
        r.1 as nat == count_failed(result_views(o@)),
{
    let mut renamed: usize = 0;
    let mut failed: usize = 0;
    let mut i: usize = 0;
    while i < o.len()
        invariant
            0 <= i <= o@.len(),
            renamed as nat == count_renamed(result_views(o@.take(i as int))),
            failed as nat == count_failed(result_views(o@.take(i as int))),
            renamed + failed <= i,
        decreases o@.len() - i,
    {
        assert(result_views(o@.take(i + 1)).drop_last() =~= result_views(o@.take(i as int)));
        assert(result_views(o@.take(i + 1)).last() == o@[i as int]@);
        match &o[i] {
            ItemResult::Renamed => {
                renamed = renamed + 1;
            },
            ItemResult::Failed(_) => {
                failed = failed + 1;
            },
            ItemResult::NotAttempted => {},
        }
        i += 1;
    }
    assert(o@.take(o@.len() as int) =~= o@);
    (renamed, failed)
}

/// The machine-readable report: a preview when `outcomes` is `None`, a run's
/// when it holds one outcome per item. `journal` is the batch id and journal
/// path, when the run opened one; `atomicity` is the guarantee the run had.
pub fn json(
    items: &[PlanItem],
    outcomes: Option<&[ItemResult]>,
    journal: Option<(&str, &str)>,
    atomicity: &str,
) -> (r: JsonDoc)
    ensures
        r@ == json_spec(
            item_views(items@),
            match outcomes {
                Some(o) => Some(result_views(o@)),
                None => None,
            },
            match journal {
                Some((b, p)) => Some((b@, p@)),
                None => None,
            },
            atomicity@,
        ),
{
    let ghost ov = match outcomes {
        Some(o) => Some(result_views(o@)),
        None => None::<Seq<ResultView>>,
    };
    let t = Tally::of(items);
    let mut out: Vec<JsonItem> = Vec::new();
    let mut n: usize = 0;
    while n < items.len()
        invariant
            0 <= n <= items@.len(),
            ov == (match outcomes {
                Some(o) => Some(result_views(o@)),
                None => None::<Seq<ResultView>>,
            }),
            json_views(out@) == Seq::new(
                n as nat,
                |k: int| json_item_spec(item_views(items@)[k], outcome_at(ov, k)),
            ),
        decreases items@.len() - n,
    {
        let o = match outcomes {
            Some(v) => if n < v.len() {
                Some(&v[n])
            } else {
                None
            },
            None => None,
        };
        let ji = json_item(&items[n], o);
        let ghost before = out@;
        let ghost jv = ji@;
        assert(json_views(before).len() == n);
        out.push(ji);
        proof {
            assert(item_views(items@)[n as int] == items@[n as int]@);
            assert(out@ == before.push(ji));
            assert(jv == json_item_spec(item_views(items@)[n as int], outcome_at(ov, n as int)));
            assert(json_views(out@) =~= Seq::new(
                (n + 1) as nat,
                |k: int| json_item_spec(item_views(items@)[k], outcome_at(ov, k)),
            )) by {
                assert forall|k: int| 0 <= k < n + 1 implies #[trigger] json_views(out@)[k]
                    == json_item_spec(item_views(items@)[k], outcome_at(ov, k)) by {
                    if k < n {
                        assert(out@[k] == before[k]);
                        assert(json_views(before)[k] == before[k]@);
                    } else {
                        assert(out@[k] == ji);
                    }
                }
            }
        }
        n += 1;
    }
    let (renamed, failed) = match outcomes {
        Some(v) => {
            let (r, f) = count_outcomes(v);
            (Some(r), Some(f))
        },
        None => (None, None),
    };
    JsonDoc {
        applied: outcomes.is_some(),
        batch: match journal {
            Some((b, _)) => Some(String::from_str(b)),
            None => None,
        },
        journal: match journal {
            Some((_, p)) => Some(String::from_str(p)),
            None => None,
        },
        atomicity: String::from_str(atomicity),
        to_rename: t.rename,
        unchanged: t.unchanged,
        skipped: t.skipped,
        conflicts: t.conflicts,
        renamed,
        failed,
        items: out,
    }
}

} // verus!
