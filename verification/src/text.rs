//! Character classes and string helpers shared by the title processing code.

use vstd::prelude::*;

verus! {

/// A character in the ASCII range (`char::is_ascii`).
pub open spec fn spec_is_ascii(c: char) -> bool {
    (c as u32) < 128
}

/// An ASCII punctuation character (`char::is_ascii_punctuation`):
/// one of `! " # $ % & ' ( ) * + , - . /`, `: ; < = > ? @`, `[ \ ] ^ _ `` ` and `{ | } ~`.
pub open spec fn spec_is_ascii_punctuation(c: char) -> bool {
    let u = c as u32;
    ||| 0x21 <= u <= 0x2f
    ||| 0x3a <= u <= 0x40
    ||| 0x5b <= u <= 0x60
    ||| 0x7b <= u <= 0x7e
}

/// The characters that survive title cleaning.
pub open spec fn kept_in_title(c: char) -> bool {
    spec_is_ascii(c) && !spec_is_ascii_punctuation(c)
}

/// The characters of `s` that survive title cleaning, in their original order.
pub open spec fn clean_chars(s: Seq<char>) -> Seq<char>
    decreases s.len(),
{
    if s.len() == 0 {
        Seq::empty()
    } else {
        let rest = clean_chars(s.drop_last());
        if kept_in_title(s.last()) {
            rest.push(s.last())
        } else {
            rest
        }
    }
}

pub fn is_ascii(c: char) -> (r: bool)
    ensures
        r == spec_is_ascii(c),
{
    (c as u32) < 128
}

pub fn is_ascii_punctuation(c: char) -> (r: bool)
    ensures
        r == spec_is_ascii_punctuation(c),
{
    let u = c as u32;
    (0x21 <= u && u <= 0x2f) || (0x3a <= u && u <= 0x40) || (0x5b <= u && u <= 0x60) || (
    0x7b <= u && u <= 0x7e)
}

/// `String::push`: appends one character at the end of the string.
#[verifier::external_body]
pub(crate) fn push_char(s: &mut String, c: char)
    ensures
        final(s)@ == old(s)@.push(c),
{
    s.push(c);
}

/// Keeps the ASCII, non-punctuation characters of `s`, in order.
pub fn clean_title_text(s: &str) -> (r: String)
    ensures
        r@ == clean_chars(s@),
{
    let mut out = String::new();
    let n = s.unicode_len();
    let mut i: usize = 0;
    while i < n
        invariant
            n == s@.len(),
            i <= n,
            out@ == clean_chars(s@.take(i as int)),
        decreases n - i,
    {
        let c = s.get_char(i);
        proof {
            assert(s@.take(i + 1).drop_last() =~= s@.take(i as int));
        }
        if is_ascii(c) && !is_ascii_punctuation(c) {
            push_char(&mut out, c);
        }
        i = i + 1;
    }
    assert(s@.take(n as int) =~= s@);
    out
}

/// A cleaned title holds only ASCII characters that are not punctuation,
/// and cleaning it again changes nothing.
pub proof fn lemma_clean_chars_is_clean(s: Seq<char>)
    ensures
        forall|i: int| 0 <= i < clean_chars(s).len() ==> kept_in_title(#[trigger] clean_chars(s)[i]),
        clean_chars(s).len() <= s.len(),
        clean_chars(clean_chars(s)) == clean_chars(s),
    decreases s.len(),
{
    if s.len() > 0 {
        let prefix = s.drop_last();
        lemma_clean_chars_is_clean(prefix);
        let rest = clean_chars(prefix);
        if kept_in_title(s.last()) {
            assert(rest.push(s.last()).drop_last() =~= rest);
            assert forall|i: int| 0 <= i < clean_chars(s).len() implies kept_in_title(
                #[trigger] clean_chars(s)[i],
            ) by {
                if i < rest.len() {
                    assert(clean_chars(s)[i] == rest[i]);
                }
            }
        }
    }
}

/// Title cleaning keeps a character exactly when it is ASCII and not one of
/// the thirty-two ASCII punctuation characters
/// ``! " # $ % & ' ( ) * + , - . / : ; < = > ? @ [ \ ] ^ _ ` { | } ~``;
/// in particular digits, letters, the space and the control characters are kept.
pub proof fn lemma_kept_characters(c: char)
    ensures
        kept_in_title(c) <==> ((c as u32) < 128 && !(c == '!' || c == '"' || c == '#' || c == '$'
            || c == '%' || c == '&' || c == '\'' || c == '(' || c == ')' || c == '*' || c == '+'
            || c == ',' || c == '-' || c == '.' || c == '/' || c == ':' || c == ';' || c == '<'
            || c == '=' || c == '>' || c == '?' || c == '@' || c == '[' || c == '\\' || c == ']'
            || c == '^' || c == '_' || c == '`' || c == '{' || c == '|' || c == '}' || c == '~')),
{
}

/// A text made only of ASCII letters, digits and spaces is left unchanged by cleaning.
pub proof fn lemma_clean_keeps_plain_text(s: Seq<char>)
    requires
        forall|i: int|
            0 <= i < s.len() ==> ('a' <= #[trigger] s[i] <= 'z' || 'A' <= s[i] <= 'Z' || '0' <= s[i]
                <= '9' || s[i] == ' '),
    ensures
        clean_chars(s) == s,
    decreases s.len(),
{
    if s.len() > 0 {
        let prefix = s.drop_last();
        assert forall|i: int| 0 <= i < prefix.len() implies ('a' <= #[trigger] prefix[i] <= 'z'
            || 'A' <= prefix[i] <= 'Z' || '0' <= prefix[i] <= '9' || prefix[i] == ' ') by {
            assert(prefix[i] == s[i]);
        }
        lemma_clean_keeps_plain_text(prefix);
        let c = s.last();
        assert(s[s.len() - 1] == c);
        lemma_kept_characters(c);
        assert(kept_in_title(c));
        assert(prefix.push(c) =~= s);
    }
}

} // verus!
