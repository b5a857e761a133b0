//! The safe-character policy: three classes, defined by rule rather than by a
//! shipped table.

use vstd::prelude::*;

verus! {

/// What the safe map does with a character.
#[derive(Debug, Clone, Copy, PartialEq, Eq, Structural)]
pub enum CharClass {
    /// Removed with no replacement. Control characters only.
    Delete,
    /// Each run becomes one separator.
    Separator,
    /// Kept verbatim, including every Unicode letter, mark and digit.
    Keep,
}

/// Unicode general category `Cc`: U+0000..U+001F and U+007F..U+009F.
pub open spec fn is_control_char(c: char) -> bool {
    (c as u32) <= 0x1f || (0x7f <= (c as u32) && (c as u32) <= 0x9f)
}

/// ASCII space plus the shell-metacharacter and path set.
///
/// `[` and `]` are here and `{` `}` are not: a bracket expression is the one
/// glob construct that can silently match a different file, while brace
/// expansion is a shell extension and not filename globbing at all.
pub open spec fn is_separator_class(c: char) -> bool {
    c == ' ' || c == '"' || c == '\'' || c == '`' || c == '$' || c == '!' || c == '*'
        || c == '?' || c == '[' || c == ']' || c == '<' || c == '>' || c == '|' || c == ';'
        || c == '&' || c == ':' || c == '\\' || c == '/' || c == '(' || c == ')'
}

/// The class of one character.
pub open spec fn class_of(c: char) -> CharClass {
    if is_control_char(c) {
        CharClass::Delete
    } else if is_separator_class(c) {
        CharClass::Separator
    } else {
        CharClass::Keep
    }
}

/// The shell metacharacters are Separator-class: ASCII space, both quotes
/// and the backtick, `$`, `!`, the glob characters `*` `?` `[` `]`, the
/// redirections `<` `>`, `|`, `;`, `&`, `:`, both slashes and both
/// parentheses. Each becomes the policy's separator, never survives as is.
pub proof fn law_shell_metacharacters_are_separators(c: char)
    requires
        c == ' ' || c == '"' || c == '\'' || c == '`' || c == '$' || c == '!' || c == '*'
            || c == '?' || c == '[' || c == ']' || c == '<' || c == '>' || c == '|' || c == ';'
            || c == '&' || c == ':' || c == '\\' || c == '/' || c == '(' || c == ')',
    ensures
        class_of(c) == CharClass::Separator,
{
}

/// Every other character is kept as it is: letters, marks and digits of any
/// script, `.`, `-`, `_`, `+`, `,`, `=`, `@`, `#`, `%`, `~`, braces and the rest.
pub proof fn law_everything_else_is_kept(c: char)
    requires
        !((c as u32) < 0x20 || (0x7f <= (c as u32) && (c as u32) < 0xa0)),
        !(c == ' ' || c == '"' || c == '\'' || c == '`' || c == '$' || c == '!' || c == '*'
            || c == '?' || c == '[' || c == ']' || c == '<' || c == '>' || c == '|' || c == ';'
            || c == '&' || c == ':' || c == '\\' || c == '/' || c == '(' || c == ')'),
    ensures
        class_of(c) == CharClass::Keep,
{
}

/// Exactly the control characters are deleted; nothing printable is.
pub proof fn law_only_controls_are_deleted(c: char)
    ensures
        class_of(c) == CharClass::Delete <==> ((c as u32) < 0x20 || (0x7f <= (c as u32) && (c as u32)
            < 0xa0)),
{
}

/// Is `c` a control character (Unicode `Cc`)?
pub fn is_control(c: char) -> (r: bool)
    ensures
        r == is_control_char(c),
{
    let u = c as u32;
    u <= 0x1f || (0x7f <= u && u <= 0x9f)
}

fn is_separator(c: char) -> (r: bool)
    ensures
        r == is_separator_class(c),
{
    c == ' ' || c == '"' || c == '\'' || c == '`' || c == '$' || c == '!' || c == '*' || c
        == '?' || c == '[' || c == ']' || c == '<' || c == '>' || c == '|' || c == ';' || c
        == '&' || c == ':' || c == '\\' || c == '/' || c == '(' || c == ')'
}

/// Classify one character.
///
/// The delete class is Unicode `Cc` and nothing else. It deliberately does
/// not include the invisibles (bidi controls, zero-width characters, Tags):
/// those are the invisible-stripping stage's business alone.
pub fn classify(c: char) -> (r: CharClass)
    ensures
        r == class_of(c),
{
    if is_control(c) {
        CharClass::Delete
    } else if is_separator(c) {
        CharClass::Separator
    } else {
        CharClass::Keep
    }
}

} // verus!
