use vstd::prelude::*;
use vstd::std_specs::iter::IteratorSpec;

use crate::speffz::ExTryFromSliceError;

verus! {

/// Whether `c` has the Unicode `White_Space` property, which is what
/// `char::is_whitespace` tests: tab, line feed, vertical tab, form feed,
/// carriage return and space among ASCII characters, and beyond them next
/// line, no-break space, the Ogham space mark, the spaces from en quad to
/// hair space, the line and paragraph separators, the narrow no-break
/// space, the medium mathematical space and the ideographic space.
pub open spec fn white_space(c: char) -> bool {
    ||| c == ' '
    ||| ('\t' <= c && c <= '\r')
    ||| c == '\u{85}'
    ||| c == '\u{a0}'
    ||| c == '\u{1680}'
    ||| ('\u{2000}' <= c && c <= '\u{200a}')
    ||| c == '\u{2028}'
    ||| c == '\u{2029}'
    ||| c == '\u{202f}'
    ||| c == '\u{205f}'
    ||| c == '\u{3000}'
}

/// `char::is_whitespace`: whether `c` has the Unicode `White_Space`
/// property, spelled out by `white_space`.
#[verifier::external_body]
pub(crate) fn is_whitespace(c: char) -> (r: bool)
    ensures
        r == white_space(c),
{
    c.is_whitespace()
}

/// `String::push`: appends the character `c` at the end of `s`.
#[verifier::external_body]
pub(crate) fn push_char(s: &mut String, c: char)
    ensures
        final(s)@ == old(s)@.push(c),
{
    s.push(c)
}

/// `<[T; N]>::try_from(&[T])`: copies the slice into an array when its
/// length is `N`, and fails otherwise.
#[verifier::external_body]
pub(crate) fn array_from_slice<T: Copy, const N: usize>(v: &[T]) -> (r: Result<[T; N], std::array::TryFromSliceError>)
    ensures
        match r {
            Ok(a) => v@.len() == N && a@ == v@,
            Err(_) => v@.len() != N,
        },
{
    <[T; N]>::try_from(v)
}

/// The characters of `s`, in order.
pub fn str_chars(s: &str) -> (r: Vec<char>)
    ensures
        r@ == s@,
{
    broadcast use vstd::string::group_string_axioms;
    let mut it = s.chars();
    let mut out: Vec<char> = Vec::new();
    loop
        invariant
            out@ + it.remaining() == s@,
        ensures
            out@ == s@,
        decreases s@.len() - out@.len(),
    {
        let ghost rem = it.remaining();
        match it.next() {
            None => {
                assert(out@ == s@);
                break;
            },
            Some(c) => {
                proof {
                    assert(rem.len() > 0);
                    assert(out@.push(c) + rem.drop_first() =~= out@ + rem);
                }
                out.push(c);
            },
        }
    }
    out
}

} // verus!
