//! Player names: trimming them, and typing them in a text field.

use vstd::prelude::*;
use vstd::utf8::encode_utf8;

verus! {

/// A character of the Unicode `White_Space` property: tab to carriage
/// return, space, next line, no-break space, ogham space mark, the spaces
/// from en quad to hair space, line and paragraph separators, narrow
/// no-break space, medium mathematical space and ideographic space.
pub open spec fn is_white_space(c: char) -> bool {
    let v = c as u32;
    ||| 0x9 <= v <= 0xD
    ||| v == 0x20
    ||| v == 0x85
    ||| v == 0xA0
    ||| v == 0x1680
    ||| 0x2000 <= v <= 0x200A
    ||| v == 0x2028
    ||| v == 0x2029
    ||| v == 0x202F
    ||| v == 0x205F
    ||| v == 0x3000
}

/// `s` without its leading white space.
pub open spec fn trim_start(s: Seq<char>) -> Seq<char>
    decreases s.len(),
{
    if s.len() > 0 && is_white_space(s[0]) {
        trim_start(s.drop_first())
    } else {
        s
    }
}

/// `s` without its trailing white space.
pub open spec fn trim_end(s: Seq<char>) -> Seq<char>
    decreases s.len(),
{
    if s.len() > 0 && is_white_space(s.last()) {
        trim_end(s.drop_last())
    } else {
        s
    }
}

/// `s` without its leading and trailing white space.
pub open spec fn trimmed(s: Seq<char>) -> Seq<char> {
    trim_end(trim_start(s))
}

/// Calls `str::trim` and copies the result into a new `String`. The standard
/// library documents the result as the string with its leading and trailing
/// white space removed, white space being the characters of the Unicode
/// `White_Space` property.
#[verifier::external_body]
pub fn trim_name(s: &String) -> (r: String)
    ensures
        r@ == trimmed(s@),
{
    s.trim().to_string()
}

/// What `char::is_alphanumeric` returns: whether the character has the
/// Unicode `Alphabetic` property or a numeric general category.
pub uninterp spec fn alphanumeric(c: char) -> bool;

/// Calls `char::is_alphanumeric`; its result depends on the Unicode tables
/// of the standard library and is named by `alphanumeric`.
#[verifier::external_body]
fn char_is_alphanumeric(c: char) -> (r: bool)
    ensures
        r == alphanumeric(c),
{
    c.is_alphanumeric()
}

/// Calls `String::push`, which the standard library documents as appending
/// the character to the end of the string.
#[verifier::external_body]
fn push_char(s: &mut String, c: char)
    ensures
        final(s)@ == old(s)@.push(c),
{
    s.push(c);
}

/// Calls `String::pop`, which the standard library documents as removing
/// the last character and returning it, or returning `None` for an empty
/// string.
#[verifier::external_body]
fn pop_char(s: &mut String) -> (r: Option<char>)
    ensures
        old(s)@.len() == 0 ==> r is None && final(s)@ == old(s)@,
        old(s)@.len() > 0 ==> r == Some(old(s)@.last()) && final(s)@ == old(s)@.drop_last(),
{
    s.pop()
}

/// A field a name is typed into, at most `max_len` bytes long. The first
/// update after it appears only throws away the keys pressed before.
#[derive(Clone, Debug)]
pub struct TextInput {
    pub content: String,
    pub max_len: usize,
    /// Whether the keys pressed before the field appeared were thrown away.
    pub cleared: bool,
}

/// Whether a typed character goes into a field holding `content` of at
/// most `max_len` bytes: letters, digits and spaces, while the field has
/// room.
pub open spec fn accepts(content: Seq<char>, max_len: nat, c: char) -> bool {
    (alphanumeric(c) || c == ' ') && encode_utf8(content).len() < max_len
}

impl TextInput {
    /// A field holding `initial_content`.
    pub fn new(max_len: usize, initial_content: String) -> (t: TextInput)
        ensures
            t.content == initial_content,
            t.max_len == max_len,
            !t.cleared,
    {
        TextInput { content: initial_content, max_len, cleared: false }
    }

    /// Starts an update. Returns false on the first update, whose keys are
    /// to be thrown away, and true from then on.
    pub fn begin_update(&mut self) -> (ready: bool)
        ensures
            ready == old(self).cleared,
            final(self).cleared,
            final(self).content == old(self).content,
            final(self).max_len == old(self).max_len,
    {
        if !self.cleared {
            self.cleared = true;
            return false;
        }
        true
    }

    /// Adds a typed character if the field takes it.
    pub fn type_char(&mut self, c: char)
        requires
            encode_utf8(old(self).content@).len() <= usize::MAX,
        ensures
            final(self).content@ == if accepts(old(self).content@, old(self).max_len as nat, c) {
                old(self).content@.push(c)
            } else {
                old(self).content@
            },
            final(self).max_len == old(self).max_len,
            final(self).cleared == old(self).cleared,
    {
        if (char_is_alphanumeric(c) || c == ' ') && self.content.as_str().len() < self.max_len {
            push_char(&mut self.content, c);
        }
    }

    /// Removes the last character, if any.
    pub fn backspace(&mut self)
        ensures
            final(self).content@ == if old(self).content@.len() > 0 {
                old(self).content@.drop_last()
            } else {
                old(self).content@
            },
            final(self).max_len == old(self).max_len,
            final(self).cleared == old(self).cleared,
    {
        pop_char(&mut self.content);
    }
}

/// A backspace takes back a character the field accepted.
pub proof fn lemma_backspace_undoes_typing(content: Seq<char>, max_len: nat, c: char)
    requires
        accepts(content, max_len, c),
    ensures
        content.push(c).len() > 0,
        content.push(c).drop_last() == content,
{
    assert(content.push(c).drop_last() =~= content);
}

} // verus!
