//! The resolved transform policy.
//!
//! Every field is concrete by the time it reaches `transform`: there is no
//! `0 = auto` sentinel, because resolving `auto` into a number is a walk-time
//! concern.

use vstd::prelude::*;
use crate::classes::{CharClass, class_of, classify};
use crate::truncate::Limits;
use crate::unicode::{nfc, nfc_of};

verus! {

/// A fully resolved policy.
///
/// Two length fields, because one scalar cannot express "255 bytes on ext4 AND
/// 255 UTF-16 units on APFS" at once; both are always checked.
///
/// The separator is a [`Separator`], whose character only this crate can
/// set, so that the only ways to build a policy, [`Policy::new`] and
/// [`Policy::default`], both keep it in the Keep class: a `/` separator would
/// manufacture a path separator inside one name.
#[derive(Debug, Clone, Copy, PartialEq, Eq, Structural)]
pub struct Policy {
    /// Replacement for separator-class characters; read it with
    /// [`Policy::separator`].
    pub separator: Separator,
    /// Maximum name length in UTF-8 bytes.
    pub max_len_bytes: usize,
    /// Maximum name length in UTF-16 code units.
    pub max_len_utf16: usize,
}

/// A policy's separator character. Its character is private to this crate,
/// so a separator comes only from a policy that checked it.
#[derive(Debug, Clone, Copy, PartialEq, Eq, Structural)]
pub struct Separator(pub(crate) char);

/// The limit the tool starts from, in both units: ext4's bytes and APFS's
/// UTF-16 units are each exactly 255.
pub const M1_MAX_LEN: usize = 255;

impl Policy {
    /// The replacement character for separator-class characters.
    pub closed spec fn sep(&self) -> char {
        self.separator.0
    }

    /// The byte limit.
    pub open spec fn max_bytes(&self) -> usize {
        self.max_len_bytes
    }

    /// The UTF-16 limit.
    pub open spec fn max_utf16(&self) -> usize {
        self.max_len_utf16
    }

    /// Both limits as one budget.
    pub open spec fn limits_spec(&self) -> Limits {
        Limits { bytes: self.max_bytes(), utf16: self.max_utf16() }
    }

    /// Both limits as one budget.
    pub fn limits(&self) -> (l: Limits)
        ensures
            l == self.limits_spec(),
    {
        Limits { bytes: self.max_len_bytes, utf16: self.max_len_utf16 }
    }

    /// The policy's invariant: its separator is Keep-class.
    pub open spec fn wf(&self) -> bool {
        class_of(self.sep()) == CharClass::Keep
    }

    /// Build a policy, rejecting a separator that is not Keep-class, or that
    /// NFC would turn into something else (U+037E becomes `;`): the fixed-point
    /// rounds re-normalize the separators they find, so such a separator would
    /// come back as a separator-class character.
    ///
    /// # Errors
    ///
    /// Returns `separator` unchanged if it is not `CharClass::Keep` or NFC
    /// does not leave it as it is.
    pub fn new(separator: char, max_len_bytes: usize, max_len_utf16: usize) -> (r: Result<
        Self,
        char,
    >)
        ensures
            match r {
                Ok(p) => class_of(separator) == CharClass::Keep && nfc_of(seq![separator])
                    == seq![separator] && p.sep() == separator && p.max_len_bytes == max_len_bytes
                    && p.max_len_utf16 == max_len_utf16 && p.wf(),
                Err(c) => (class_of(separator) != CharClass::Keep || nfc_of(seq![separator])
                    != seq![separator]) && c == separator,
            },
    {
        if classify(separator) != CharClass::Keep {
            return Err(separator);
        }
        let one: Vec<char> = vec![separator];
        let normal = nfc(one.as_slice());
        assert(one@ =~= seq![separator]);
        if normal.len() == 1 && normal[0] == separator {
            assert(normal@ =~= seq![separator]);
            Ok(Self { separator: Separator(separator), max_len_bytes, max_len_utf16 })
        } else {
            Err(separator)
        }
    }

    /// The resolved separator character.
    pub fn separator(&self) -> (c: char)
        ensures
            c == self.sep(),
    {
        self.separator.0
    }

    /// The default policy for a target: `_` as separator, and only the
    /// platform's own axis bound at [`M1_MAX_LEN`] (UTF-16 units on macOS,
    /// bytes elsewhere); the other axis is `usize::MAX`, so a limit that is not
    /// the filesystem's own never binds first.
    pub fn for_target(macos: bool) -> (p: Self)
        ensures
            p.sep() == '_',
            p.max_len_bytes == default_max_len_bytes_spec(macos),
            p.max_len_utf16 == default_max_len_utf16_spec(macos),
            p.wf(),
    {
        Self {
            separator: Separator('_'),
            max_len_bytes: default_max_len_bytes(macos),
            max_len_utf16: default_max_len_utf16(macos),
        }
    }
}

/// Byte limit by target: `usize::MAX` on macOS, [`M1_MAX_LEN`] elsewhere.
pub open spec fn default_max_len_bytes_spec(macos: bool) -> usize {
    if macos {
        usize::MAX
    } else {
        M1_MAX_LEN
    }
}

/// UTF-16 limit by target: [`M1_MAX_LEN`] on macOS, `usize::MAX` elsewhere.
pub open spec fn default_max_len_utf16_spec(macos: bool) -> usize {
    if macos {
        M1_MAX_LEN
    } else {
        usize::MAX
    }
}

fn default_max_len_bytes(macos: bool) -> (n: usize)
    ensures
        n == default_max_len_bytes_spec(macos),
{
    if macos {
        usize::MAX
    } else {
        M1_MAX_LEN
    }
}

fn default_max_len_utf16(macos: bool) -> (n: usize)
    ensures
        n == default_max_len_utf16_spec(macos),
{
    if macos {
        M1_MAX_LEN
    } else {
        usize::MAX
    }
}

impl Default for Policy {
    /// The policy for a target other than macOS; use [`Policy::for_target`]
    /// to choose the target.
    fn default() -> (p: Self)
        ensures
            p.sep() == '_',
            p.max_len_bytes == M1_MAX_LEN,
            p.max_len_utf16 == usize::MAX,
            p.wf(),
    {
        Self::for_target(false)
    }
}

} // verus!
