//! The command fingerprint.
//!
//! A command identity is the 64-bit FNV-1a hash of a canonical byte encoding
//! of the command spec (argument vector, working directory, selected
//! environment), rendered as sixteen lowercase hex digits.  The same spec
//! always maps to the same fingerprint; the canonical encoding doubles as
//! the side file that lets a later run detect a fingerprint collision.

use vstd::prelude::*;

use crate::codec::{dec_digits, push_dec};

verus! {

/// The FNV-1a offset basis.
pub open spec fn fnv_offset() -> u64 {
    0xcbf29ce484222325u64
}

/// The FNV-1a prime.
pub open spec fn fnv_prime() -> u64 {
    0x100000001b3u64
}

/// Multiplication modulo 2^64.
pub open spec fn mul64(a: u64, b: u64) -> u64 {
    (((a as int) * (b as int)) % 0x10000000000000000) as u64
}

/// The FNV-1a hash of a byte string.
pub open spec fn fnv1a(s: Seq<u8>) -> u64
    decreases s.len(),
{
    if s.len() == 0 {
        fnv_offset()
    } else {
        mul64(fnv1a(s.drop_last()) ^ (s.last() as u64), fnv_prime())
    }
}

/// One length-prefixed field of the canonical encoding: the field length in
/// decimal, a colon, the bytes.
pub open spec fn field_bytes(b: Seq<u8>) -> Seq<u8> {
    dec_digits(b.len() as int) + seq![58u8] + b
}

/// Length-prefixed fields, concatenated.
pub open spec fn fields_bytes(bs: Seq<Seq<u8>>) -> Seq<u8>
    decreases bs.len(),
{
    if bs.len() == 0 {
        Seq::empty()
    } else {
        field_bytes(bs[0]) + fields_bytes(bs.skip(1))
    }
}

/// The lowercase hex digit of a 4-bit value.
pub open spec fn hex_digit(v: int) -> u8 {
    if v < 10 {
        (48 + v) as u8
    } else {
        (87 + v) as u8
    }
}

/// The lowest `n` hex digits of `h`, most significant first.
pub open spec fn hex_of(h: u64, n: nat) -> Seq<u8>
    decreases n,
{
    if n == 0 {
        Seq::empty()
    } else {
        hex_of(h / 16, (n - 1) as nat).push(hex_digit((h % 16) as int))
    }
}

/// The bytes of an ASCII string, as characters.
pub open spec fn chars_of(bs: Seq<u8>) -> Seq<char> {
    bs.map_values(|b: u8| b as char)
}

/// Appending one field extends the canonical field region at the end.
pub proof fn lemma_fields_bytes_snoc(bs: Seq<Seq<u8>>, b: Seq<u8>)
    ensures
        fields_bytes(bs.push(b)) == fields_bytes(bs) + field_bytes(b),
    decreases bs.len(),
{
    if bs.len() == 0 {
        assert(bs.push(b)[0] == b);
        assert(bs.push(b).skip(1) =~= Seq::<Seq<u8>>::empty());
        assert(fields_bytes(Seq::<Seq<u8>>::empty()) == Seq::<u8>::empty());
        assert(fields_bytes(bs.push(b)) =~= fields_bytes(bs) + field_bytes(b));
    } else {
        assert(bs.push(b).skip(1) =~= bs.skip(1).push(b));
        lemma_fields_bytes_snoc(bs.skip(1), b);
        assert(bs.push(b)[0] == bs[0]);
        assert(field_bytes(bs[0]) + (fields_bytes(bs.skip(1)) + field_bytes(b))
            =~= (field_bytes(bs[0]) + fields_bytes(bs.skip(1))) + field_bytes(b));
    }
}

/// Writes one length-prefixed field at the end of `out`.
pub fn push_field(out: &mut Vec<u8>, b: &Vec<u8>)
    ensures
        final(out)@ == old(out)@ + field_bytes(b@),
{
    push_dec(out, b.len() as u64);
    out.push(58);
    let ghost mid = out@;
    let n = b.len();
    let mut i: usize = 0;
    while i < n
        invariant
            i <= n,
            n == b@.len(),
            out@ == mid + b@.take(i as int),
        decreases n - i,
    {
        out.push(b[i]);
        proof {
            assert(out@ =~= mid + b@.take(i as int + 1));
        }
        i = i + 1;
    }
    proof {
        assert(b@.take(n as int) =~= b@);
        assert(out@ =~= old(out)@ + field_bytes(b@));
    }
}

/// Computes the FNV-1a hash of a byte string.
pub fn fnv1a_bytes(s: &Vec<u8>) -> (r: u64)
    ensures
        r == fnv1a(s@),
{
    let mut h: u64 = 0xcbf29ce484222325;
    let n = s.len();
    let mut i: usize = 0;
    while i < n
        invariant
            i <= n,
            n == s@.len(),
            h == fnv1a(s@.take(i as int)),
        decreases n - i,
    {
        let x = h ^ (s[i] as u64);
        let wide = (x as u128) * 0x100000001b3u128;
        let m = (wide % 0x10000000000000000u128) as u64;
        proof {
            let t = s@.take(i as int + 1);
            assert(t.drop_last() =~= s@.take(i as int));
            assert(t.last() == s@[i as int]);
            assert(wide as int == (x as int) * 0x100000001b3);
            assert(m as int == ((x as int) * 0x100000001b3) % 0x10000000000000000);
            assert(m == mul64(x, fnv_prime()));
        }
        h = m;
        i = i + 1;
    }
    proof {
        assert(s@.take(n as int) =~= s@);
    }
    h
}

/// Renders a 64-bit value as sixteen lowercase hex digits.
pub fn hex16(h: u64) -> (r: Vec<u8>)
    ensures
        r@ == hex_of(h, 16),
{
    hex_rec(h, 16)
}

/// The lowest `n` hex digits of `h`, most significant first.
fn hex_rec(h: u64, n: u8) -> (r: Vec<u8>)
    ensures
        r@ == hex_of(h, n as nat),
    decreases n,
{
    if n == 0 {
        let r: Vec<u8> = Vec::new();
        proof {
            assert(r@ =~= hex_of(h, 0));
        }
        r
    } else {
        let mut r = hex_rec(h / 16, n - 1);
        let d = (h % 16) as u8;
        if d < 10 {
            r.push(48 + d);
        } else {
            r.push(87 + d);
        }
        r
    }
}

/// Turns ASCII bytes into the string of the same code points.
///
/// Relies on `String::from_utf8`: a vector of bytes below 128 is valid
/// UTF-8, and each byte becomes the character with that code point.
#[verifier::external_body]
pub fn ascii_to_string(b: Vec<u8>) -> (r: String)
    requires
        forall|i: int| 0 <= i < b@.len() ==> b@[i] < 128,
    ensures
        r@ == chars_of(b@),
{
    match String::from_utf8(b) {
        Ok(s) => s,
        Err(_) => String::new(),
    }
}

/// Hex digits are ASCII.
proof fn lemma_hex_ascii(h: u64, n: nat)
    ensures
        forall|i: int| 0 <= i < hex_of(h, n).len() ==> hex_of(h, n)[i] < 128,
    decreases n,
{
    if n > 0 {
        lemma_hex_ascii(h / 16, (n - 1) as nat);
        assert forall|i: int| 0 <= i < hex_of(h, n).len() implies hex_of(h, n)[i] < 128 by {
            if i < hex_of(h, n).len() - 1 {
                assert(hex_of(h, n)[i] == hex_of(h / 16, (n - 1) as nat)[i]);
            }
        }
    }
}

/// The fingerprint string of a canonical command encoding: the FNV-1a hash
/// of the bytes, in sixteen lowercase hex digits.
pub fn hash_bytes(canon: &Vec<u8>) -> (r: String)
    ensures
        r@ == chars_of(hex_of(fnv1a(canon@), 16)),
{
    let h = fnv1a_bytes(canon);
    let digits = hex16(h);
    proof {
        lemma_hex_ascii(h, 16);
    }
    ascii_to_string(digits)
}

} // verus!
