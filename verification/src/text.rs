//! Conversions between bytes, characters and strings.

use vstd::prelude::*;
use vstd::string::{StringExecFns, StringSliceAdditionalSpecFns};
use vstd::utf8::{decode_utf8, encode_utf8_decode_utf8, is_char_boundary, valid_utf8};

verus! {

/// `std::str::from_utf8`: the bytes as a string slice when they are valid
/// UTF-8. The claim taken on trust is that std accepts exactly the byte
/// strings that `valid_utf8` describes, and decodes them as `decode_utf8` does.
#[verifier::external_body]
pub fn utf8_str(b: &[u8]) -> (r: Option<&str>)
    ensures
        r is Some <==> valid_utf8(b@),
        r matches Some(s) ==> s@ == decode_utf8(b@),
{
    std::str::from_utf8(b).ok()
}

/// `String::from_iter` over characters: the string made of these characters,
/// in order.
#[verifier::external_body]
pub fn string_from_chars(c: &[char]) -> (r: String)
    ensures
        r@ == c@,
{
    String::from_iter(c.iter())
}

/// The characters of a string slice, in order.
pub fn chars_of(s: &str) -> (r: Vec<char>)
    ensures
        r@ == s@,
{
    broadcast use vstd::string::group_string_axioms;

    let mut r: Vec<char> = Vec::new();
    for c in it: s.chars()
        invariant
            it.seq() == s@,
            r@ == s@.take(it.index() as int),
    {
        r.push(c);
    }
    r
}

/// The first position at or after `from` that holds `c`, or the end.
pub open spec fn find_char(s: Seq<char>, from: int, c: char) -> int
    decreases s.len() - from,
{
    if from < 0 || from >= s.len() {
        s.len() as int
    } else if s[from] == c {
        from
    } else {
        find_char(s, from + 1, c)
    }
}

/// The first position at or after `from` that holds `c`, or the end.
pub fn find_char_exec(s: &[char], from: usize, c: char) -> (r: usize)
    requires
        from <= s@.len(),
    ensures
        r == find_char(s@, from as int, c),
        from <= r <= s@.len(),
{
    let mut i = from;
    while i < s.len()
        invariant
            from <= i <= s@.len(),
            find_char(s@, from as int, c) == find_char(s@, i as int, c),
        decreases s@.len() - i,
    {
        if s[i] == c {
            return i;
        }
        i += 1;
    }
    i
}

/// Whether two character strings are equal.
pub fn chars_eq(a: &[char], b: &[char]) -> (r: bool)
    ensures
        r == (a@ == b@),
{
    if a.len() != b.len() {
        return false;
    }
    let mut i: usize = 0;
    while i < a.len()
        invariant
            a@.len() == b@.len(),
            i <= a@.len(),
            forall|k: int| 0 <= k < i ==> a@[k] == b@[k],
        decreases a@.len() - i,
    {
        if a[i] != b[i] {
            return false;
        }
        i += 1;
    }
    assert(a@ =~= b@);
    true
}

/// A text cut to at most `max_len` bytes: unchanged when it fits, else its
/// first `max_len - 3` bytes followed by `...`.
pub fn truncate(s: &str, max_len: usize) -> (r: String)
    requires
        s.spec_bytes().len() > max_len ==> max_len >= 3 && is_char_boundary(
            s.spec_bytes(),
            max_len - 3,
        ),
    ensures
        s.spec_bytes().len() <= max_len ==> r@ == s@,
        s.spec_bytes().len() > max_len ==> r@ == decode_utf8(
            s.spec_bytes().subrange(0, max_len - 3),
        ) + "..."@,
{
    if s.as_bytes().len() <= max_len {
        s.to_owned()
    } else {
        let (head, _) = s.split_at(max_len - 3);
        proof {
            encode_utf8_decode_utf8(head@);
            assert(head.spec_bytes() =~= s.spec_bytes().subrange(0, max_len - 3));
            assert(decode_utf8(s.spec_bytes().subrange(0, max_len - 3)) == head@);
        }
        let r = String::from_str(head).concat("...");
        r
    }
}

/// The decimal digits of `n`.
pub open spec fn spec_decimal(n: nat) -> Seq<char>
    decreases n,
{
    if n < 10 {
        seq![(48 + n) as char]
    } else {
        spec_decimal(n / 10) + seq![(48 + n % 10) as char]
    }
}

/// Append the decimal digits of `n`.
pub fn push_decimal(out: &mut Vec<char>, n: u64)
    ensures
        final(out)@ == old(out)@ + spec_decimal(n as nat),
    decreases n,
{
    if n >= 10 {
        push_decimal(out, n / 10);
    }
    out.push((48 + (n % 10) as u8) as char);
    assert(final(out)@ =~= old(out)@ + spec_decimal(n as nat)) by {
        if n >= 10 {
            assert(old(out)@ + spec_decimal(n as nat) =~= old(out)@ + spec_decimal((n / 10) as nat)
                + seq![(48 + n % 10) as char]);
        }
    }
}

/// Append the characters of a text.
pub fn push_str(out: &mut Vec<char>, s: &str)
    ensures
        final(out)@ == old(out)@ + s@,
{
    let c = chars_of(s);
    let ghost start = out@;
    let mut i: usize = 0;
    while i < c.len()
        invariant
            i <= c@.len(),
            c@ == s@,
            out@ == start + c@.take(i as int),
        decreases c@.len() - i,
    {
        out.push(c[i]);
        assert(out@ =~= start + c@.take(i + 1));
        i += 1;
    }
    assert(c@.take(i as int) =~= c@);
}

} // verus!
