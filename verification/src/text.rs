//! Small verified helpers on UTF-8 strings, and the std calls they rest on.

use vstd::prelude::*;
use vstd::string::*;
use vstd::utf8::*;

verus! {

broadcast use vstd::utf8::group_utf8_lib;

/// Two character sequences are equal exactly when their UTF-8 encodings are.
pub proof fn lemma_encode_utf8_injective(a: Seq<char>, b: Seq<char>)
    ensures
        (encode_utf8(a) == encode_utf8(b)) <==> (a == b),
{
    if encode_utf8(a) == encode_utf8(b) {
        encode_utf8_decode_utf8(a);
        encode_utf8_decode_utf8(b);
    }
}

/// Compares two byte slices element by element.
pub fn bytes_eq(a: &[u8], b: &[u8]) -> (r: bool)
    ensures
        r == (a@ == b@),
{
    if a.len() != b.len() {
        return false;
    }
    let mut i: usize = 0;
    while i < a.len()
        invariant
            a@.len() == b@.len(),
            0 <= i <= a@.len(),
            forall|j: int| 0 <= j < i ==> a@[j] == b@[j],
        decreases a@.len() - i,
    {
        if a[i] != b[i] {
            return false;
        }
        i = i + 1;
    }
    assert(a@ =~= b@);
    true
}

/// Whether two string slices hold the same characters.
pub fn str_eq(a: &str, b: &str) -> (r: bool)
    ensures
        r == (a@ == b@),
{
    let ab = a.as_bytes();
    let bb = b.as_bytes();
    let r = bytes_eq(ab, bb);
    proof {
        lemma_encode_utf8_injective(a@, b@);
    }
    r
}

/// The lower-case form of a character sequence, as `str::to_lowercase` of
/// the standard library computes it (Unicode's lowercase mapping).
pub uninterp spec fn lowercase_of(s: Seq<char>) -> Seq<char>;

/// Calls `str::to_lowercase`. Claimed: the result's characters are
/// `lowercase_of` the argument's characters, the same for the same input.
#[verifier::external_body]
pub(crate) fn to_lowercase(s: &str) -> (r: String)
    ensures
        r@ == lowercase_of(s@),
{
    s.to_lowercase()
}

/// Calls `std::str::from_utf8`, keeping the success value. Claimed, as its
/// documentation says: it succeeds exactly on valid UTF-8 input, and the
/// string it returns is made of exactly the given bytes.
#[verifier::external_body]
pub(crate) fn str_from_utf8(v: &[u8]) -> (r: Option<&str>)
    ensures
        r is Some <==> valid_utf8(v@),
        r matches Some(s) ==> s.spec_bytes() == v@,
{
    std::str::from_utf8(v).ok()
}

/// The value of a run of decimal digits.
pub open spec fn decimal_value(d: Seq<char>) -> int
    decreases d.len(),
{
    if d.len() == 0 {
        0
    } else {
        decimal_value(d.drop_last()) * 10 + (d.last() as u32 - 0x30)
    }
}

/// A non-empty run of the ASCII digits `0` to `9`.
pub open spec fn is_decimal_digits(d: Seq<char>) -> bool {
    d.len() > 0 && forall|i: int| 0 <= i < d.len() ==> 0x30 <= (#[trigger] d[i]) as u32 <= 0x39
}

/// What `str::parse::<u32>` gives: an optional `+` followed by at least one
/// decimal digit and nothing else, whose value fits a `u32`.
pub open spec fn parsed_u32(s: Seq<char>) -> Option<u32> {
    let d = if s.len() > 0 && s[0] == '+' {
        s.drop_first()
    } else {
        s
    };
    if is_decimal_digits(d) && decimal_value(d) <= u32::MAX {
        Some(decimal_value(d) as u32)
    } else {
        None
    }
}

/// The value of a run of digits is at least that of any of its prefixes,
/// and never negative.
proof fn lemma_decimal_value_prefix(d: Seq<char>, k: int)
    requires
        0 <= k <= d.len(),
        forall|i: int| 0 <= i < d.len() ==> 0x30 <= (#[trigger] d[i]) as u32 <= 0x39,
    ensures
        0 <= decimal_value(d.take(k)) <= decimal_value(d),
    decreases d.len(),
{
    if d.len() > 0 {
        assert(forall|i: int| 0 <= i < d.drop_last().len() ==> d.drop_last()[i] == d[i]);
        assert(0x30 <= d[d.len() - 1] as u32);
        assert(d.last() as u32 - 0x30 >= 0);
    }
    if k == d.len() {
        assert(d.take(k) =~= d);
        if d.len() > 0 {
            lemma_decimal_value_prefix(d.drop_last(), k - 1);
            assert(d.drop_last().take(k - 1) =~= d.drop_last());
        }
    } else {
        lemma_decimal_value_prefix(d.drop_last(), k);
        assert(d.drop_last().take(k) =~= d.take(k));
        lemma_decimal_value_prefix(d.drop_last(), d.len() - 1);
        assert(d.drop_last().take(d.len() - 1) =~= d.drop_last());
    }
}

/// Reads an unsigned decimal number as `str::parse::<u32>` does: an
/// optional `+`, then at least one ASCII digit and nothing else, whose value
/// fits a `u32`.
pub fn parse_u32(s: &str) -> (r: Option<u32>)
    ensures
        r == parsed_u32(s@),
{
    let n = s.unicode_len();
    let start: usize = if n > 0 && s.get_char(0) == '+' {
        1
    } else {
        0
    };
    let ghost d = if s@.len() > 0 && s@[0] == '+' {
        s@.drop_first()
    } else {
        s@
    };
    proof {
        assert(d =~= s@.subrange(start as int, n as int));
    }
    if start >= n {
        return None;
    }
    let mut v: u32 = 0;
    let mut i: usize = start;
    while i < n
        invariant
            start < n,
            start <= i <= n,
            n == s@.len(),
            d == s@.subrange(start as int, n as int),
            d == (if s@.len() > 0 && s@[0] == '+' {
                s@.drop_first()
            } else {
                s@
            }),
            forall|k: int| start <= k < i ==> 0x30 <= (#[trigger] s@[k]) as u32 <= 0x39,
            v == decimal_value(s@.subrange(start as int, i as int)),
        decreases n - i,
    {
        let c = s.get_char(i);
        let cv = c as u32;
        if cv < 0x30 || cv > 0x39 {
            proof {
                assert(d[i - start] == c);
                assert(!is_decimal_digits(d));
            }
            return None;
        }
        let ghost pre = s@.subrange(start as int, i as int);
        let ghost post = s@.subrange(start as int, i + 1);
        proof {
            assert(post.drop_last() =~= pre);
            assert(post.last() == c);
        }
        let digit = cv - 0x30;
        if v > (u32::MAX - digit) / 10 {
            proof {
                assert(decimal_value(post) == v * 10 + digit);
                assert(forall|k: int| 0 <= k < post.len() ==> #[trigger] post[k] == s@[start + k]);
                if is_decimal_digits(d) {
                    lemma_decimal_value_prefix(d, i + 1 - start);
                    assert(d.take(i + 1 - start) =~= post);
                }
                assert(decimal_value(post) > u32::MAX) by (nonlinear_arith)
                    requires
                        decimal_value(post) == v * 10 + digit,
                        v > (u32::MAX - digit) / 10,
                        0 <= digit <= 9,
                ;
            }
            return None;
        }
        proof {
            assert(v * 10 + digit <= u32::MAX) by (nonlinear_arith)
                requires
                    v <= (u32::MAX - digit) / 10,
                    0 <= digit <= 9,
            ;
        }
        v = v * 10 + digit;
        i = i + 1;
    }
    proof {
        assert(s@.subrange(start as int, n as int) =~= d);
        assert forall|k: int| 0 <= k < d.len() implies 0x30 <= (#[trigger] d[k]) as u32 <= 0x39 by {
            assert(d[k] == s@[start + k]);
        }
    }
    Some(v)
}

} // verus!
