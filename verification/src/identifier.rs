//! Fixed-width identifier encoding.
//!
//! Replacement identifiers are padded to a minimum width before they are
//! written over a token of that width, so that a substitution never changes
//! the byte length of the buffer it is applied to.

use vstd::prelude::*;
use vstd::string::StrSliceExecFns;
use vstd::string::StringExecFns;

verus! {

/// A run of `count` copies of `character`.
pub open spec fn pad_seq(character: char, count: nat) -> Seq<char> {
    Seq::new(count, |i| character)
}

/// What `elongate` returns: the input unchanged when it already reaches
/// `length`, otherwise the input padded with `character` up to `length`,
/// on the leading or the trailing side.
pub open spec fn elongate_spec(s: Seq<char>, character: char, length: nat, leading: bool) -> Seq<
    char,
> {
    if s.len() >= length {
        s
    } else if leading {
        pad_seq(character, (length - s.len()) as nat) + s
    } else {
        s + pad_seq(character, (length - s.len()) as nat)
    }
}

/// Relies on `String::push`: appends one character at the end of the string.
#[verifier::external_body]
fn push_char(s: &mut String, c: char)
    ensures
        final(s)@ == old(s)@.push(c),
{
    s.push(c);
}

/// Relies on `String::insert`: at byte index 0 the character becomes the
/// first character of the string.
#[verifier::external_body]
fn insert_char_front(s: &mut String, c: char)
    ensures
        final(s)@ == seq![c] + old(s)@,
{
    s.insert(0, c);
}

/// Pads `string` with `character` until it is at least `length` characters
/// long; a string already at or above `length` is returned unchanged, never
/// truncated. `leading` selects the side the padding goes on. Lengths here
/// count characters, which for the ASCII identifiers and tokens this
/// encoder serves is exactly their byte width.
pub fn elongate(string: &str, character: char, length: usize, leading: bool) -> (r: String)
    ensures
        r@ == elongate_spec(string@, character, length as nat, leading),
        r@.len() >= length,
{
    let mut result = String::from_str(string);
    let mut n: usize = string.unicode_len();
    while n < length
        invariant
            n == result@.len(),
            n >= string@.len(),
            string@.len() >= length ==> result@ == string@,
            string@.len() < length ==> n <= length,
            string@.len() < length && leading ==> result@ == pad_seq(
                character,
                (n - string@.len()) as nat,
            ) + string@,
            string@.len() < length && !leading ==> result@ == string@ + pad_seq(
                character,
                (n - string@.len()) as nat,
            ),
        decreases length - n,
    {
        if leading {
            insert_char_front(&mut result, character);
            proof {
                let k = (n - string@.len()) as nat;
                assert(seq![character] + (pad_seq(character, k) + string@) =~= pad_seq(
                    character,
                    k + 1,
                ) + string@);
            }
        } else {
            push_char(&mut result, character);
            proof {
                let k = (n - string@.len()) as nat;
                assert((string@ + pad_seq(character, k)).push(character) =~= string@ + pad_seq(
                    character,
                    k + 1,
                ));
            }
        }
        n = n + 1;
    }
    proof {
        if string@.len() < length {
            assert(n == length);
        } else {
            assert(result@ =~= elongate_spec(string@, character, length as nat, leading));
        }
    }
    result
}

/// The encoder is idempotent: encoding a string that is already correctly
/// padded (in particular, any output of the encoder itself) returns it
/// unchanged.
pub proof fn lemma_elongate_idempotent(s: Seq<char>, character: char, length: nat, leading: bool)
    ensures
        elongate_spec(elongate_spec(s, character, length, leading), character, length, leading)
            == elongate_spec(s, character, length, leading),
{
    let once = elongate_spec(s, character, length, leading);
    assert(once.len() >= length);
}

} // verus!
