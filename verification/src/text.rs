//! Small text utilities shared by the loaders and the tokenizer: whitespace
//! classification and splitting, decimal parsing and rendering, and string
//! comparison.

use vstd::prelude::*;
use vstd::string::*;
use crate::alphabet_translator::hex_digit_char;

verus! {

/// Relies on `String::push`: appends the given character to the end of the
/// string.
pub assume_specification[ String::push ](s: &mut String, c: char)
    ensures
        final(s)@ == old(s)@.push(c),
;

/// A whitespace character: the code points of Unicode's White_Space
/// property, which is what whitespace means to `char::is_whitespace` and
/// `str::split_whitespace`.
pub open spec fn is_space(c: char) -> bool {
    let u = c as u32;
    ||| u == 9
    ||| u == 10
    ||| u == 11
    ||| u == 12
    ||| u == 13
    ||| u == 32
    ||| u == 133
    ||| u == 160
    ||| u == 5760
    ||| (8192 <= u && u <= 8202)
    ||| u == 8232
    ||| u == 8233
    ||| u == 8239
    ||| u == 8287
    ||| u == 12288
}

/// Executable check matching [`is_space`].
pub fn is_space_char(c: char) -> (r: bool)
    ensures
        r == is_space(c),
{
    let u = c as u32;
    u == 32 || u == 9 || u == 10 || u == 11 || u == 12 || u == 13 || u == 133 || u == 160 || u
        == 5760 || (8192 <= u && u <= 8202) || u == 8232 || u == 8233 || u == 8239 || u == 8287
        || u == 12288
}

/// The fields of `s`, prefixed by the pending field `cur`: fields are maximal
/// runs of non-whitespace characters.
pub open spec fn spec_split_ws_from(s: Seq<char>, cur: Seq<char>) -> Seq<Seq<char>>
    decreases s.len(),
{
    if s.len() == 0 {
        if cur.len() == 0 {
            Seq::empty()
        } else {
            seq![cur]
        }
    } else if is_space(s[0]) {
        if cur.len() == 0 {
            spec_split_ws_from(s.drop_first(), Seq::empty())
        } else {
            seq![cur] + spec_split_ws_from(s.drop_first(), Seq::empty())
        }
    } else {
        spec_split_ws_from(s.drop_first(), cur.push(s[0]))
    }
}

/// The whitespace-separated fields of `s`, in order.
pub open spec fn spec_split_ws(s: Seq<char>) -> Seq<Seq<char>> {
    spec_split_ws_from(s, Seq::empty())
}

/// Split a string into its whitespace-separated fields, as
/// [`spec_split_ws`] describes.
pub fn split_ws(s: &str) -> (r: Vec<String>)
    ensures
        r.deep_view() == spec_split_ws(s@),
{
    let n = s.unicode_len();
    let mut r: Vec<String> = Vec::new();
    let mut cur = String::new();
    let mut i: usize = 0;
    proof {
        assert(s@.skip(0) =~= s@);
        assert(r.deep_view() =~= Seq::<Seq<char>>::empty());
        assert(r.deep_view() + spec_split_ws_from(s@, cur@) =~= spec_split_ws_from(s@, cur@));
    }
    while i < n
        invariant
            n == s@.len(),
            0 <= i <= n,
            spec_split_ws(s@) == r.deep_view() + spec_split_ws_from(s@.skip(i as int), cur@),
        decreases n - i,
    {
        let c = s.get_char(i);
        proof {
            assert(s@.skip(i as int)[0] == s@[i as int]);
            assert(s@.skip(i as int).drop_first() =~= s@.skip(i + 1));
        }
        if is_space_char(c) {
            if cur.unicode_len() > 0 {
                let ghost prev = r.deep_view();
                let ghost curv = cur@;
                r.push(cur);
                cur = String::new();
                proof {
                    assert(r.deep_view() =~= prev.push(curv));
                    let rest = spec_split_ws_from(s@.skip(i + 1), Seq::empty());
                    assert(spec_split_ws_from(s@.skip(i as int), curv) == seq![curv] + rest);
                    assert(prev.push(curv) + rest =~= prev + (seq![curv] + rest));
                }
            } else {
                proof {
                    assert(cur@ =~= Seq::<char>::empty());
                }
            }
        } else {
            proof {
                let ghost curv = cur@;
                assert(spec_split_ws_from(s@.skip(i as int), curv) == spec_split_ws_from(
                    s@.skip(i + 1),
                    curv.push(s@[i as int]),
                ));
            }
            cur.push(c);
        }
        i = i + 1;
    }
    proof {
        assert(s@.skip(n as int) =~= Seq::<char>::empty());
    }
    if cur.unicode_len() > 0 {
        let ghost prev = r.deep_view();
        let ghost curv = cur@;
        r.push(cur);
        proof {
            assert(r.deep_view() =~= prev.push(curv));
            assert(prev.push(curv) =~= prev + seq![curv]);
        }
    } else {
        proof {
            assert(r.deep_view() + Seq::<Seq<char>>::empty() =~= r.deep_view());
        }
    }
    r
}

/// A decimal digit character.
pub open spec fn is_dec_digit(c: char) -> bool {
    '0' as u32 <= c as u32 && c as u32 <= '9' as u32
}

/// A non-empty string of decimal digits.
pub open spec fn is_dec_str(s: Seq<char>) -> bool {
    s.len() > 0 && forall|i: int| 0 <= i < s.len() ==> is_dec_digit(#[trigger] s[i])
}

/// The number written in decimal by `s` (meaningful when `is_dec_str(s)`).
pub open spec fn dec_val(s: Seq<char>) -> int
    decreases s.len(),
{
    if s.len() == 0 {
        0
    } else {
        10 * dec_val(s.drop_last()) + (s.last() as u32 - '0' as u32)
    }
}

/// On a digit string the decimal value is non-negative and grows (weakly) as
/// digits are appended.
pub proof fn lemma_dec_val_prefix(s: Seq<char>, i: int)
    requires
        forall|k: int| 0 <= k < s.len() ==> is_dec_digit(#[trigger] s[k]),
        0 <= i <= s.len(),
    ensures
        0 <= dec_val(s.take(i)) <= dec_val(s),
    decreases s.len(),
{
    if s.len() == 0 {
        assert(s.take(i) =~= s);
    } else if i == s.len() {
        assert(s.take(i) =~= s);
        lemma_dec_val_prefix(s.drop_last(), s.len() - 1);
        assert(s.drop_last().take(s.len() - 1) =~= s.drop_last());
    } else {
        assert(s.take(i) =~= s.drop_last().take(i));
        lemma_dec_val_prefix(s.drop_last(), i);
    }
}

/// Parse a string as an unsigned decimal number. Returns `None` exactly when
/// the string is not a non-empty run of decimal digits or its value does not
/// fit in `usize`.
pub fn parse_usize(s: &str) -> (r: Option<usize>)
    ensures
        match r {
            Some(v) => is_dec_str(s@) && v as int == dec_val(s@),
            None => !is_dec_str(s@) || dec_val(s@) > usize::MAX,
        },
{
    let n = s.unicode_len();
    if n == 0 {
        return None;
    }
    let mut acc: usize = 0;
    let mut i: usize = 0;
    while i < n
        invariant
            n == s@.len(),
            0 <= i <= n,
            forall|k: int| 0 <= k < i ==> is_dec_digit(#[trigger] s@[k]),
            acc as int == dec_val(s@.take(i as int)),
        decreases n - i,
    {
        let c = s.get_char(i);
        let u = c as u32;
        if !(48 <= u && u <= 57) {
            return None;
        }
        let d = (u - 48) as usize;
        let step = match acc.checked_mul(10) {
            Some(t) => t.checked_add(d),
            None => None,
        };
        proof {
            assert(s@.take(i + 1).drop_last() =~= s@.take(i as int));
            assert(s@.take(i + 1).last() == s@[i as int]);
        }
        match step {
            Some(t) => {
                acc = t;
            },
            None => {
                proof {
                    if is_dec_str(s@) {
                        lemma_dec_val_prefix(s@, i + 1);
                    }
                }
                return None;
            },
        }
        i = i + 1;
    }
    proof {
        assert(s@.take(n as int) =~= s@);
    }
    Some(acc)
}

/// The decimal form of a number, most significant digit first.
pub open spec fn spec_dec_str(n: int) -> Seq<char>
    decreases n,
{
    if n < 10 {
        seq![hex_digit_char(n)]
    } else {
        spec_dec_str(n / 10) + seq![hex_digit_char(n % 10)]
    }
}

/// Write a number in decimal.
pub fn usize_to_string(n: usize) -> (r: String)
    ensures
        r@ == spec_dec_str(n as int),
    decreases n,
{
    if n < 10 {
        let mut r = String::new();
        r.push(crate::alphabet_translator::hex_val_to_digit(n as u8));
        proof {
            assert(r@ =~= spec_dec_str(n as int));
        }
        r
    } else {
        let mut r = usize_to_string(n / 10);
        r.push(crate::alphabet_translator::hex_val_to_digit((n % 10) as u8));
        proof {
            assert(r@ =~= spec_dec_str(n as int));
        }
        r
    }
}

/// Compare two string slices character by character.
pub fn str_eq(a: &str, b: &str) -> (r: bool)
    ensures
        r == (a@ == b@),
{
    let na = a.unicode_len();
    let nb = b.unicode_len();
    if na != nb {
        return false;
    }
    let mut i: usize = 0;
    while i < na
        invariant
            na == a@.len(),
            na == b@.len(),
            0 <= i <= na,
            forall|k: int| 0 <= k < i ==> a@[k] == b@[k],
        decreases na - i,
    {
        if a.get_char(i) != b.get_char(i) {
            return false;
        }
        i = i + 1;
    }
    proof {
        assert(a@ =~= b@);
    }
    true
}

} // verus!
