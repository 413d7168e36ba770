//! The trace file format.
//!
//! A stored trace is a text file: a version header, a `total` line, then one
//! line per recorded entry holding its duration in decimal milliseconds and
//! its content in base64, so arbitrary binary output is representable:
//!
//! ```text
//! bptrace 1
//! total 6200
//! 310 bWtkaXIgYnVpbGQ=
//! 5890 Y2MgLW8gbWFpbiBtYWluLmM=
//! ```
//!
//! `enc_trace` fixes the canonical bytes of a trace; `parse_trace` is the
//! strict grammar, accepting exactly the canonical encodings; anything else
//! is surfaced as a corrupt trace, never silently treated as no history.

use vstd::prelude::*;

use crate::b64::{b64_decode, b64_encode, b64_val_of, pad_byte};
use crate::b64::{lemma_b64_encode_text, lemma_b64_round_trip};
use crate::diff::{bytes_eq, pair_durs};
use crate::trace::{lemma_sum_durs_monotone, lemma_sum_durs_split, lemma_sum_equal_prefix};
use crate::trace::{line_durs_of, line_pairs_of, sum_durs, Line, OutputData};
use crate::Error;

verus! {

/// The version header line, `bptrace 1` and a newline.
pub open spec fn header_bytes() -> Seq<u8> {
    seq![98u8, 112u8, 116u8, 114u8, 97u8, 99u8, 101u8, 32u8, 49u8, 10u8]
}

/// The label of the total line, `total` and a space.
pub open spec fn total_label() -> Seq<u8> {
    seq![116u8, 111u8, 116u8, 97u8, 108u8, 32u8]
}

/// Whether a byte is a decimal digit.
pub open spec fn is_digit(c: u8) -> bool {
    48 <= c <= 57
}

/// The canonical decimal digits of a non-negative number, most significant
/// first, with no leading zero.
pub open spec fn dec_digits(v: int) -> Seq<u8>
    decreases v,
{
    if v < 10 {
        seq![(48 + if v >= 0 { v } else { 0 }) as u8]
    } else {
        dec_digits(v / 10).push((48 + v % 10) as u8)
    }
}

/// The number denoted by a digit string, most significant first.
pub open spec fn dec_val(ds: Seq<u8>) -> int
    decreases ds.len(),
{
    if ds.len() == 0 {
        0
    } else {
        dec_val(ds.drop_last()) * 10 + (ds.last() - 48)
    }
}

/// The length of the run of decimal digits at the front of `s`.
pub open spec fn digits_len(s: Seq<u8>) -> nat
    decreases s.len(),
{
    if s.len() > 0 && is_digit(s[0]) {
        (1 + digits_len(s.skip(1))) as nat
    } else {
        0
    }
}

/// The position of the first newline in `s`, or `s.len()` if there is none.
pub open spec fn nl_pos(s: Seq<u8>) -> nat
    decreases s.len(),
{
    if s.len() == 0 {
        0
    } else if s[0] == 10 {
        0
    } else {
        (1 + nl_pos(s.skip(1))) as nat
    }
}

/// Strict parsing of a canonical decimal number at the front of `s`: the
/// run of digits must be non-empty, carry no leading zero, and fit in a
/// `u64`; returns the value and the number of bytes consumed.
pub open spec fn parse_dec(s: Seq<u8>) -> Option<(u64, int)> {
    let k = digits_len(s) as int;
    if k == 0 {
        None
    } else if k > 1 && s[0] == 48 {
        None
    } else if dec_val(s.take(k)) > u64::MAX {
        None
    } else {
        Some((dec_val(s.take(k)) as u64, k))
    }
}

/// One entry line (without its newline): decimal duration, one space, then
/// base64 content covering the rest of the line.
pub open spec fn parse_entry_line(line: Seq<u8>) -> Option<(Seq<u8>, u64)> {
    match parse_dec(line) {
        None => None,
        Some((v, k)) => if k >= line.len() || line[k] != 32 {
            None
        } else {
            match b64_decode(line.skip(k + 1)) {
                None => None,
                Some(data) => Some((data, v)),
            }
        },
    }
}

/// The entry region: zero or more newline-terminated entry lines covering
/// all of `s`.
pub open spec fn parse_entries(s: Seq<u8>) -> Option<Seq<(Seq<u8>, u64)>>
    decreases s.len(),
{
    if s.len() == 0 {
        Some(Seq::empty())
    } else {
        let m = nl_pos(s) as int;
        if m >= s.len() {
            None
        } else {
            match parse_entry_line(s.take(m)) {
                None => None,
                Some(p) => match parse_entries(s.skip(m + 1)) {
                    None => None,
                    Some(ps) => Some(seq![p] + ps),
                },
            }
        }
    }
}

/// The whole trace file: header, total line, entry lines.
pub open spec fn parse_trace(s: Seq<u8>) -> Option<(Seq<(Seq<u8>, u64)>, u64)> {
    if s.len() < 10 || s.take(10) != header_bytes() {
        None
    } else {
        let s1 = s.skip(10);
        if s1.len() < 6 || s1.take(6) != total_label() {
            None
        } else {
            let s2 = s1.skip(6);
            match parse_dec(s2) {
                None => None,
                Some((v, k)) => if k >= s2.len() || s2[k] != 10 {
                    None
                } else {
                    match parse_entries(s2.skip(k + 1)) {
                        None => None,
                        Some(ps) => Some((ps, v)),
                    }
                },
            }
        }
    }
}

/// The canonical bytes of one entry line, newline included.
pub open spec fn enc_entry(p: (Seq<u8>, u64)) -> Seq<u8> {
    dec_digits(p.1 as int) + seq![32u8] + b64_encode(p.0) + seq![10u8]
}

/// The canonical bytes of the entry region.
pub open spec fn enc_entries(ps: Seq<(Seq<u8>, u64)>) -> Seq<u8>
    decreases ps.len(),
{
    if ps.len() == 0 {
        Seq::empty()
    } else {
        enc_entry(ps[0]) + enc_entries(ps.skip(1))
    }
}

/// The canonical bytes of a whole trace file.
pub open spec fn enc_trace(ps: Seq<(Seq<u8>, u64)>, total: u64) -> Seq<u8> {
    header_bytes() + total_label() + dec_digits(total as int) + seq![10u8] + enc_entries(ps)
}

/// Appending one entry extends the canonical entry region at the end.
proof fn lemma_enc_entries_snoc(ps: Seq<(Seq<u8>, u64)>, p: (Seq<u8>, u64))
    ensures
        enc_entries(ps.push(p)) == enc_entries(ps) + enc_entry(p),
    decreases ps.len(),
{
    if ps.len() == 0 {
        assert(ps.push(p)[0] == p);
        assert(ps.push(p).skip(1) =~= Seq::<(Seq<u8>, u64)>::empty());
        assert(enc_entries(Seq::<(Seq<u8>, u64)>::empty()) == Seq::<u8>::empty());
        assert(enc_entries(ps.push(p)) =~= enc_entries(ps) + enc_entry(p));
    } else {
        assert(ps.push(p).skip(1) =~= ps.skip(1).push(p));
        lemma_enc_entries_snoc(ps.skip(1), p);
        assert(ps.push(p)[0] == ps[0]);
        assert(enc_entry(ps[0]) + (enc_entries(ps.skip(1)) + enc_entry(p))
            =~= (enc_entry(ps[0]) + enc_entries(ps.skip(1))) + enc_entry(p));
    }
}

/// Writes the canonical decimal digits of `v` at the end of `out`.
pub fn push_dec(out: &mut Vec<u8>, v: u64)
    ensures
        final(out)@ == old(out)@ + dec_digits(v as int),
    decreases v,
{
    if v < 10 {
        out.push(48 + (v % 10) as u8);
        proof {
            assert(v % 10 == v as int);
            assert(final(out)@ =~= old(out)@ + dec_digits(v as int));
        }
    } else {
        push_dec(out, v / 10);
        out.push(48 + (v % 10) as u8);
        proof {
            assert(final(out)@ =~= old(out)@ + dec_digits(v as int));
        }
    }
}

/// Serializes a trace into its canonical file bytes.
pub fn encode_trace(d: &crate::trace::OutputData) -> (r: Vec<u8>)
    ensures
        r@ == enc_trace(d.pairs(), d.total),
{
    let mut out: Vec<u8> = Vec::new();
    out.push(98);
    out.push(112);
    out.push(116);
    out.push(114);
    out.push(97);
    out.push(99);
    out.push(101);
    out.push(32);
    out.push(49);
    out.push(10);
    proof {
        assert(out@ =~= header_bytes());
    }
    out.push(116);
    out.push(111);
    out.push(116);
    out.push(97);
    out.push(108);
    out.push(32);
    proof {
        assert(out@ =~= header_bytes() + total_label());
    }
    push_dec(&mut out, d.total);
    out.push(10);
    let ghost head = out@;
    proof {
        assert(head =~= header_bytes() + total_label() + dec_digits(d.total as int)
            + seq![10u8]);
        assert(out@ =~= head + enc_entries(d.pairs().take(0)));
    }
    let n = d.lines.len();
    let mut i: usize = 0;
    while i < n
        invariant
            i <= n,
            n == d.lines@.len(),
            out@ == head + enc_entries(d.pairs().take(i as int)),
        decreases n - i,
    {
        let ghost pairs_before = d.pairs().take(i as int);
        push_dec(&mut out, d.lines[i].dur);
        out.push(32);
        let mut e = crate::b64::encode_bytes(&d.lines[i].data);
        out.append(&mut e);
        out.push(10);
        proof {
            let p = d.pairs()[i as int];
            assert(p == (d.lines@[i as int].data@, d.lines@[i as int].dur));
            lemma_enc_entries_snoc(pairs_before, p);
            assert(d.pairs().take(i as int + 1) =~= pairs_before.push(p));
            assert(out@ =~= head + enc_entries(d.pairs().take(i as int + 1)));
        }
        i = i + 1;
    }
    proof {
        assert(d.pairs().take(n as int) =~= d.pairs());
        assert(out@ =~= enc_trace(d.pairs(), d.total));
    }
    out
}

/// Shape of canonical decimals: non-empty, digits only, no leading zero
/// except for the single digit of zero itself.
proof fn lemma_dec_digits_shape(v: int)
    requires
        v >= 0,
    ensures
        dec_digits(v).len() >= 1,
        forall|i: int| 0 <= i < dec_digits(v).len() ==> is_digit(#[trigger] dec_digits(v)[i]),
        v >= 10 <==> dec_digits(v).len() > 1,
        v >= 1 ==> dec_digits(v)[0] != 48,
    decreases v,
{
    if v >= 10 {
        lemma_dec_digits_shape(v / 10);
        assert(dec_digits(v) == dec_digits(v / 10).push((48 + v % 10) as u8));
    }
}

/// The denoted value of the canonical digits is the number itself.
proof fn lemma_dec_val_round(v: int)
    requires
        v >= 0,
    ensures
        dec_val(dec_digits(v)) == v,
    decreases v,
{
    if v < 10 {
        assert(dec_digits(v) == seq![(48 + v) as u8]);
        assert(dec_digits(v).drop_last() =~= Seq::<u8>::empty());
        assert(dec_val(Seq::<u8>::empty()) == 0);
        assert(dec_val(dec_digits(v)) == dec_val(dec_digits(v).drop_last()) * 10
            + (dec_digits(v).last() - 48));
    } else {
        lemma_dec_val_round(v / 10);
        let ds = dec_digits(v);
        assert(ds == dec_digits(v / 10).push((48 + v % 10) as u8));
        assert(ds.drop_last() =~= dec_digits(v / 10));
        assert(ds.last() == (48 + v % 10) as u8);
        assert(v == (v / 10) * 10 + v % 10) by (nonlinear_arith);
        assert(dec_val(ds) == dec_val(dec_digits(v / 10)) * 10 + (v % 10));
    }
}

/// The digit run of a digit string followed by a non-digit is exactly the
/// digit string.
proof fn lemma_digits_len_of(ds: Seq<u8>, rest: Seq<u8>)
    requires
        forall|i: int| 0 <= i < ds.len() ==> is_digit(#[trigger] ds[i]),
        rest.len() == 0 || !is_digit(rest[0]),
    ensures
        digits_len(ds + rest) == ds.len(),
    decreases ds.len(),
{
    if ds.len() == 0 {
        assert(ds + rest =~= rest);
        if rest.len() > 0 {
            assert(!is_digit((ds + rest)[0]));
        }
    } else {
        assert((ds + rest)[0] == ds[0]);
        assert((ds + rest).skip(1) =~= ds.skip(1) + rest);
        assert(forall|i: int| 0 <= i < ds.skip(1).len() ==> is_digit(#[trigger] ds.skip(1)[i]));
        lemma_digits_len_of(ds.skip(1), rest);
    }
}

/// Parsing a canonical decimal followed by a non-digit yields the number
/// and consumes exactly its digits.
proof fn lemma_parse_dec_of(v: int, rest: Seq<u8>)
    requires
        0 <= v <= u64::MAX,
        rest.len() == 0 || !is_digit(rest[0]),
    ensures
        parse_dec(dec_digits(v) + rest) == Some((v as u64, dec_digits(v).len() as int)),
    decreases v,
{
    let ds = dec_digits(v);
    lemma_dec_digits_shape(v);
    lemma_dec_val_round(v);
    lemma_digits_len_of(ds, rest);
    let s = ds + rest;
    let k = digits_len(s) as int;
    assert(k == ds.len());
    assert(s.take(k) =~= ds);
    if k > 1 {
        assert(v >= 10);
        assert(s[0] == ds[0]);
    }
}

/// The first newline of a newline-free prefix followed by a newline sits
/// exactly at the end of the prefix.
proof fn lemma_nl_pos_of(a: Seq<u8>, b: Seq<u8>)
    requires
        forall|i: int| 0 <= i < a.len() ==> #[trigger] a[i] != 10,
        b.len() > 0,
        b[0] == 10,
    ensures
        nl_pos(a + b) == a.len(),
    decreases a.len(),
{
    if a.len() == 0 {
        assert(a + b =~= b);
    } else {
        assert((a + b)[0] == a[0]);
        assert((a + b).skip(1) =~= a.skip(1) + b);
        assert(forall|i: int| 0 <= i < a.skip(1).len() ==> #[trigger] a.skip(1)[i] != 10);
        lemma_nl_pos_of(a.skip(1), b);
    }
}

/// An encoded entry line holds no newline byte.
proof fn lemma_entry_line_clean(p: (Seq<u8>, u64))
    ensures
        forall|i: int|
            0 <= i < (dec_digits(p.1 as int) + seq![32u8] + b64_encode(p.0)).len()
                ==> #[trigger] (dec_digits(p.1 as int) + seq![32u8] + b64_encode(p.0))[i] != 10,
{
    let ds = dec_digits(p.1 as int);
    let e = b64_encode(p.0);
    let line = ds + seq![32u8] + e;
    lemma_dec_digits_shape(p.1 as int);
    lemma_b64_encode_text(p.0);
    assert forall|i: int| 0 <= i < line.len() implies #[trigger] line[i] != 10 by {
        if i < ds.len() {
            assert(line[i] == ds[i]);
        } else if i == ds.len() {
            assert(line[i] == 32);
        } else {
            assert(line[i] == e[i - ds.len() - 1]);
            assert(b64_val_of(e[i - ds.len() - 1]) >= 0 || e[i - ds.len() - 1] == pad_byte());
        }
    }
}

/// Parsing the canonical entry region yields the entries themselves.
#[verifier::rlimit(100)]
#[verifier::spinoff_prover]
proof fn lemma_parse_entries_round(ps: Seq<(Seq<u8>, u64)>)
    ensures
        parse_entries(enc_entries(ps)) == Some(ps),
    decreases ps.len(),
{
    if ps.len() == 0 {
        assert(parse_entries(enc_entries(ps)) == Some(Seq::<(Seq<u8>, u64)>::empty()));
        assert(Seq::<(Seq<u8>, u64)>::empty() =~= ps);
    } else {
        let p = ps[0];
        let ds = dec_digits(p.1 as int);
        let e = b64_encode(p.0);
        let line = ds + seq![32u8] + e;
        let tail = enc_entries(ps.skip(1));
        let s = enc_entries(ps);
        assert(s == enc_entry(p) + tail);
        assert(enc_entry(p) == line + seq![10u8]) by {
            assert(ds + seq![32u8] + e + seq![10u8] =~= (ds + seq![32u8] + e) + seq![10u8]);
        }
        assert(s =~= line + (seq![10u8] + tail));
        lemma_entry_line_clean(p);
        lemma_nl_pos_of(line, seq![10u8] + tail);
        let m = nl_pos(s) as int;
        assert(m == line.len());
        assert(m < s.len());
        assert(s.take(m) =~= line);
        assert(s.skip(m + 1) =~= tail);
        // the entry line parses back to the entry
        lemma_dec_digits_shape(p.1 as int);
        lemma_parse_dec_of(p.1 as int, seq![32u8] + e);
        assert(line =~= ds + (seq![32u8] + e));
        let k = ds.len() as int;
        assert(parse_dec(line) == Some((p.1, k)));
        assert(line[k] == 32);
        assert(line.skip(k + 1) =~= e);
        lemma_b64_round_trip(p.0);
        assert(parse_entry_line(line) == Some(p));
        lemma_parse_entries_round(ps.skip(1));
        assert(seq![p] + ps.skip(1) =~= ps);
    }
}

/// Characterization of the digit run: it covers digits only and stops at
/// the first non-digit.
proof fn lemma_digits_len_char(s: Seq<u8>)
    ensures
        digits_len(s) <= s.len(),
        forall|i: int| 0 <= i < digits_len(s) ==> is_digit(#[trigger] s[i]),
        digits_len(s) < s.len() ==> !is_digit(s[digits_len(s) as int]),
    decreases s.len(),
{
    if s.len() > 0 && is_digit(s[0]) {
        lemma_digits_len_char(s.skip(1));
        assert forall|i: int| 0 <= i < digits_len(s) implies is_digit(#[trigger] s[i]) by {
            if i > 0 {
                assert(is_digit(s.skip(1)[i - 1]));
            }
        }
    }
}

/// A digit string denotes a non-negative number.
proof fn lemma_dec_val_nonneg(ds: Seq<u8>)
    requires
        forall|i: int| 0 <= i < ds.len() ==> is_digit(#[trigger] ds[i]),
    ensures
        dec_val(ds) >= 0,
    decreases ds.len(),
{
    if ds.len() > 0 {
        assert(forall|i: int|
            0 <= i < ds.drop_last().len() ==> is_digit(#[trigger] ds.drop_last()[i]));
        lemma_dec_val_nonneg(ds.drop_last());
    }
}

/// Extending a digit string on the right never decreases its value.
proof fn lemma_dec_val_extend(ds: Seq<u8>, m: int)
    requires
        forall|i: int| 0 <= i < ds.len() ==> is_digit(#[trigger] ds[i]),
        0 <= m <= ds.len(),
    ensures
        dec_val(ds) >= dec_val(ds.take(m)),
    decreases ds.len() - m,
{
    if m == ds.len() {
        assert(ds.take(m) =~= ds);
    } else {
        assert(ds.drop_last().take(m) =~= ds.take(m));
        assert(forall|i: int|
            0 <= i < ds.drop_last().len() ==> is_digit(#[trigger] ds.drop_last()[i]));
        lemma_dec_val_extend(ds.drop_last(), m);
        lemma_dec_val_nonneg(ds.drop_last());
    }
}

/// Truncating right after the digit run (at any non-digit boundary) does
/// not change what the decimal parser sees.
proof fn lemma_parse_dec_prefix(t: Seq<u8>, m: int)
    requires
        0 <= m <= t.len(),
        m == t.len() || !is_digit(t[m]),
    ensures
        parse_dec(t.take(m)) == parse_dec(t),
{
    lemma_digits_len_char(t);
    let e = digits_len(t) as int;
    assert(e <= m);
    assert(forall|i: int| 0 <= i < e ==> is_digit(#[trigger] t.take(e)[i]));
    assert(t.take(m) =~= t.take(e) + t.subrange(e, m));
    if e < m {
        assert(t.subrange(e, m)[0] == t[e]);
        assert(!is_digit(t[e]));
    }
    lemma_digits_len_of(t.take(e), t.subrange(e, m));
    assert(digits_len(t.take(m)) == e);
    assert(t.take(m).take(e) =~= t.take(e));
    assert(t.take(e) =~= t.take(e) + t.skip(e).take(0));
    assert(t =~= t.take(e) + t.skip(e));
    if e < t.len() {
        assert(t.skip(e)[0] == t[e]);
    }
    lemma_digits_len_of(t.take(e), t.skip(e));
    assert(digits_len(t) == e);
    assert(t.take(e) =~= t.take(digits_len(t) as int));
    if e >= 1 {
        assert(t.take(m)[0] == t[0]);
    }
}

/// A newline-free byte string has its first-newline position at its end.
proof fn lemma_nl_pos_none(a: Seq<u8>)
    requires
        forall|i: int| 0 <= i < a.len() ==> #[trigger] a[i] != 10,
    ensures
        nl_pos(a) == a.len(),
    decreases a.len(),
{
    if a.len() > 0 {
        assert(forall|i: int| 0 <= i < a.skip(1).len() ==> #[trigger] a.skip(1)[i] != 10);
        lemma_nl_pos_none(a.skip(1));
    }
}

/// Parses a canonical decimal starting at byte `pos`.
fn parse_dec_at(s: &Vec<u8>, pos: usize) -> (r: Option<(u64, usize)>)
    requires
        pos <= s@.len(),
    ensures
        match r {
            Some(p) => pos < p.1 <= s@.len()
                && parse_dec(s@.skip(pos as int)) == Some((p.0, p.1 - pos as int)),
            None => parse_dec(s@.skip(pos as int)) is None,
        },
{
    let n = s.len();
    let mut j = pos;
    let mut v: u64 = 0;
    let mut overflow = false;
    while j < n && 48 <= s[j] && s[j] <= 57
        invariant
            pos <= j <= n,
            n == s@.len(),
            forall|i: int| pos as int <= i < j as int ==> is_digit(#[trigger] s@[i]),
            !overflow ==> v == dec_val(s@.subrange(pos as int, j as int)),
            overflow ==> dec_val(s@.subrange(pos as int, j as int)) > u64::MAX,
        decreases n - j,
    {
        let d = s[j] - 48;
        let ghost before = s@.subrange(pos as int, j as int);
        let ghost after = s@.subrange(pos as int, j as int + 1);
        proof {
            assert(after.drop_last() =~= before);
            assert(after.last() == s@[j as int]);
            assert(dec_val(after) == dec_val(before) * 10 + d);
        }
        if !overflow {
            if v > (u64::MAX - d as u64) / 10 {
                overflow = true;
                proof {
                    let m = u64::MAX - d;
                    assert(m == (m / 10) * 10 + m % 10) by (nonlinear_arith);
                    assert(v as int * 10 >= (m / 10) * 10 + 10) by (nonlinear_arith)
                        requires
                            v as int >= m / 10 + 1,
                    ;
                    assert(dec_val(after) > u64::MAX);
                }
            } else {
                proof {
                    let m = u64::MAX - d;
                    assert(m == (m / 10) * 10 + m % 10) by (nonlinear_arith);
                    assert(v as int * 10 <= (m / 10) * 10) by (nonlinear_arith)
                        requires
                            v as int <= m / 10,
                    ;
                }
                v = v * 10 + d as u64;
            }
        } else {
            proof {
                lemma_dec_val_nonneg(before);
            }
        }
        j = j + 1;
    }
    let ghost t = s@.skip(pos as int);
    let ghost run = s@.subrange(pos as int, j as int);
    proof {
        assert(t =~= run + s@.skip(j as int));
        if j < n {
            assert(s@.skip(j as int)[0] == s@[j as int]);
            assert(!is_digit(s@[j as int]));
        }
        lemma_digits_len_of(run, s@.skip(j as int));
        assert(digits_len(t) == j - pos);
        assert(t.take(j - pos) =~= run);
    }
    if j == pos {
        return None;
    }
    if j > pos + 1 && s[pos] == 48 {
        proof {
            assert(t[0] == s@[pos as int]);
        }
        return None;
    }
    if overflow {
        return None;
    }
    proof {
        if j - pos > 1 {
            assert(t[0] == s@[pos as int]);
            assert(t[0] != 48);
        }
    }
    Some((v, j))
}

/// Whether parsed entries and a total form a valid trace: contents unique
/// and the total covering the sum of the durations.
pub open spec fn trace_pairs_wf(ps: Seq<(Seq<u8>, u64)>, total: u64) -> bool {
    &&& forall|a: int, b: int| 0 <= a < b < ps.len() ==> ps[a].0 != ps[b].0
    &&& sum_durs(pair_durs(ps), 0, ps.len() as int) <= total
}

/// Copies the bytes of `s` with index in `[from, to)`.
fn copy_range(s: &Vec<u8>, from: usize, to: usize) -> (r: Vec<u8>)
    requires
        from <= to <= s@.len(),
    ensures
        r@ == s@.subrange(from as int, to as int),
{
    let mut r: Vec<u8> = Vec::new();
    let mut i = from;
    while i < to
        invariant
            from <= i <= to <= s@.len(),
            r@ == s@.subrange(from as int, i as int),
        decreases to - i,
    {
        r.push(s[i]);
        proof {
            assert(r@ =~= s@.subrange(from as int, i as int + 1));
        }
        i = i + 1;
    }
    r
}

/// Deserializes a stored trace, strictly: returns the trace exactly when
/// the bytes are a canonical encoding of a valid trace, and reports a
/// corrupt trace otherwise.
#[verifier::loop_isolation(false)]
#[verifier::rlimit(100)]
pub fn decode_trace(s: &Vec<u8>) -> (r: Result<OutputData, Error>)
    ensures
        match r {
            Ok(d) => {
                &&& parse_trace(s@) == Some((d.pairs(), d.total))
                &&& d.wf()
            },
            Err(e) => {
                &&& e == Error::TraceCorrupt
                &&& match parse_trace(s@) {
                    None => true,
                    Some(pt) => !trace_pairs_wf(pt.0, pt.1),
                }
            },
        },
{
    let n = s.len();
    if n < 16 {
        return Err(Error::TraceCorrupt);
    }
    if s[0] != 98 || s[1] != 112 || s[2] != 116 || s[3] != 114 || s[4] != 97 || s[5] != 99
        || s[6] != 101 || s[7] != 32 || s[8] != 49 || s[9] != 10 {
        proof {
            assert(forall|i: int| 0 <= i < 10 ==> s@.take(10)[i] == s@[i]);
        }
        return Err(Error::TraceCorrupt);
    }
    proof {
        assert(s@.take(10) =~= header_bytes());
    }
    let ghost s1 = s@.skip(10);
    if s[10] != 116 || s[11] != 111 || s[12] != 116 || s[13] != 97 || s[14] != 108
        || s[15] != 32 {
        proof {
            assert(forall|i: int| 0 <= i < 6 ==> s1.take(6)[i] == s@[10 + i]);
        }
        return Err(Error::TraceCorrupt);
    }
    proof {
        assert(s1.take(6) =~= total_label());
        assert(s1.skip(6) =~= s@.skip(16));
    }
    let ghost s2 = s@.skip(16);
    let (total, dend) = match parse_dec_at(s, 16) {
        Some(p) => p,
        None => {
            return Err(Error::TraceCorrupt);
        },
    };
    let ghost kk = dend as int - 16;
    if dend == n {
        return Err(Error::TraceCorrupt);
    }
    if s[dend] != 10 {
        proof {
            assert(s2[kk] == s@[dend as int]);
        }
        return Err(Error::TraceCorrupt);
    }
    proof {
        assert(s2[kk] == s@[dend as int]);
    }
    let start = dend + 1;
    proof {
        assert(s2.skip(kk + 1) =~= s@.skip(start as int));
    }
    let mut out_lines: Vec<Line> = Vec::new();
    let mut pos = start;
    proof {
        assert(line_pairs_of(out_lines@) =~= Seq::<(Seq<u8>, u64)>::empty());
        assert(forall|ps: Seq<(Seq<u8>, u64)>|
            Seq::<(Seq<u8>, u64)>::empty() + ps =~= #[trigger] (Seq::<(Seq<u8>, u64)>::empty()
                + ps));
    }
    while pos < n
        invariant
            start <= pos <= n,
            parse_entries(s@.skip(start as int)) == (match parse_entries(s@.skip(pos as int)) {
                None => None::<Seq<(Seq<u8>, u64)>>,
                Some(ps) => Some(line_pairs_of(out_lines@) + ps),
            }),
        decreases n - pos,
    {
        let ghost rem = s@.skip(pos as int);
        let mut j = pos;
        while j < n && s[j] != 10
            invariant
                pos <= j <= n,
                forall|i: int| pos as int <= i < j as int ==> s@[i] != 10,
            decreases n - j,
        {
            j = j + 1;
        }
        if j == n {
            proof {
                assert(forall|i: int| 0 <= i < rem.len() ==> #[trigger] rem[i] != 10);
                lemma_nl_pos_none(rem);
            }
            return Err(Error::TraceCorrupt);
        }
        let ghost m = j as int - pos as int;
        let ghost line = rem.take(m);
        proof {
            assert(forall|i: int| 0 <= i < m ==> #[trigger] line[i] != 10);
            assert(rem.skip(m)[0] == s@[j as int]);
            assert(rem =~= line + rem.skip(m));
            lemma_nl_pos_of(line, rem.skip(m));
            assert(nl_pos(rem) == m);
            assert(!is_digit(rem[m]));
            lemma_parse_dec_prefix(rem, m);
            lemma_digits_len_char(rem);
        }
        let dec = parse_dec_at(s, pos);
        let (dur, dend2) = match dec {
            Some(p) => p,
            None => {
                return Err(Error::TraceCorrupt);
            },
        };
        let ghost k = dend2 as int - pos as int;
        proof {
            assert(digits_len(rem) == k);
            if k > m {
                assert(is_digit(rem[m]));
            }
            assert(k <= m);
        }
        if dend2 == j {
            return Err(Error::TraceCorrupt);
        }
        if s[dend2] != 32 {
            proof {
                assert(line[k] == rem[k]);
                assert(rem[k] == s@[dend2 as int]);
            }
            return Err(Error::TraceCorrupt);
        }
        proof {
            assert(line[k] == rem[k]);
            assert(rem[k] == s@[dend2 as int]);
        }
        let content = copy_range(s, dend2 + 1, j);
        proof {
            assert(line.skip(k + 1) =~= content@);
        }
        let data = match crate::b64::decode_bytes(&content) {
            Some(d) => d,
            None => {
                return Err(Error::TraceCorrupt);
            },
        };
        let ghost p = (data@, dur);
        let ghost before_lines = out_lines@;
        out_lines.push(Line { data, dur });
        proof {
            assert(parse_entry_line(line) == Some(p));
            assert(rem.skip(m + 1) =~= s@.skip(j as int + 1));
            assert(line_pairs_of(out_lines@) =~= line_pairs_of(before_lines).push(p));
            assert forall|ps: Seq<(Seq<u8>, u64)>|
                #[trigger] (line_pairs_of(before_lines) + (seq![p] + ps))
                    == line_pairs_of(out_lines@) + ps by {
                assert(line_pairs_of(before_lines) + (seq![p] + ps)
                    =~= line_pairs_of(out_lines@) + ps);
            }
        }
        pos = j + 1;
    }
    proof {
        assert(s@.skip(n as int) =~= Seq::<u8>::empty());
        assert(parse_entries(Seq::<u8>::empty()) == Some(Seq::<(Seq<u8>, u64)>::empty()));
        assert(line_pairs_of(out_lines@) + Seq::<(Seq<u8>, u64)>::empty()
            =~= line_pairs_of(out_lines@));
        assert(parse_entries(s@.skip(start as int)) == Some(line_pairs_of(out_lines@)));
        assert(parse_trace(s@) == Some((line_pairs_of(out_lines@), total)));
    }
    // validate the data model: unique contents
    let ghost ps = line_pairs_of(out_lines@);
    let ln = out_lines.len();
    let mut a: usize = 0;
    while a < ln
        invariant
            a <= ln,
            forall|x: int, y: int|
                0 <= x < y < ln as int && x < a as int
                    ==> out_lines@[x].data@ != out_lines@[y].data@,
        decreases ln - a,
    {
        let mut b = a + 1;
        while b < ln
            invariant
                a < ln,
                a < b <= ln,
                forall|y: int| (a as int) < y < b as int ==> out_lines@[a as int].data@
                    != out_lines@[y].data@,
            decreases ln - b,
        {
            if bytes_eq(&out_lines[a].data, &out_lines[b].data) {
                proof {
                    assert(ps[a as int].0 == ps[b as int].0);
                }
                return Err(Error::TraceCorrupt);
            }
            b = b + 1;
        }
        a = a + 1;
    }
    // validate the data model: the total covers the recorded durations
    let mut acc: u64 = 0;
    let mut i: usize = 0;
    proof {
        assert(pair_durs(ps) =~= line_durs_of(out_lines@));
    }
    while i < ln
        invariant
            i <= ln,
            acc == sum_durs(line_durs_of(out_lines@), 0, i as int),
            acc <= total,
        decreases ln - i,
    {
        let dur = out_lines[i].dur;
        let ghost ds = line_durs_of(out_lines@);
        proof {
            lemma_sum_durs_split(ds, 0, i as int, i as int + 1);
            assert(sum_durs(ds, i as int + 1, i as int + 1) == 0);
            assert(sum_durs(ds, i as int, i as int + 1) == ds[i as int]);
            assert(ds[i as int] == dur);
        }
        if dur > total - acc {
            proof {
                lemma_sum_durs_monotone(ds, 0, i as int + 1, ln as int);
            }
            return Err(Error::TraceCorrupt);
        }
        acc = acc + dur;
        i = i + 1;
    }
    let d = OutputData { lines: out_lines, total };
    proof {
        assert(d.pairs() == ps);
        assert(d.wf());
    }
    Ok(d)
}

/// Round trip at the trace level: a well-formed trace's canonical encoding
/// parses back to exactly its pairs and total, and passes validation — so
/// deserializing what `encode_trace` wrote yields byte-identical contents,
/// equal durations and an equal total.
pub proof fn lemma_trace_round_trip(d: OutputData)
    requires
        d.wf(),
    ensures
        parse_trace(enc_trace(d.pairs(), d.total)) == Some((d.pairs(), d.total)),
        trace_pairs_wf(d.pairs(), d.total),
{
    lemma_parse_trace_round(d.pairs(), d.total);
    assert(pair_durs(d.pairs()) =~= d.durs());
    lemma_sum_equal_prefix(pair_durs(d.pairs()), d.durs(), 0, d.lines@.len() as int);
    assert forall|a: int, b: int|
        0 <= a < b < d.pairs().len() implies d.pairs()[a].0 != d.pairs()[b].0 by {
        assert(d.pairs()[a].0 == d.lines@[a].data@);
        assert(d.pairs()[b].0 == d.lines@[b].data@);
    }
}

/// Round trip: parsing the canonical encoding of a trace yields exactly its
/// entries and total, for every trace.
#[verifier::rlimit(100)]
#[verifier::spinoff_prover]
pub proof fn lemma_parse_trace_round(ps: Seq<(Seq<u8>, u64)>, total: u64)
    ensures
        parse_trace(enc_trace(ps, total)) == Some((ps, total)),
{
    let ds = dec_digits(total as int);
    let entries = enc_entries(ps);
    let s = enc_trace(ps, total);
    assert(s =~= header_bytes() + (total_label() + (ds + (seq![10u8] + entries))));
    assert(s.len() >= 10);
    assert(s.take(10) =~= header_bytes());
    let s1 = s.skip(10);
    assert(s1 =~= total_label() + (ds + (seq![10u8] + entries)));
    assert(s1.len() >= 6);
    assert(s1.take(6) =~= total_label());
    let s2 = s1.skip(6);
    assert(s2 =~= ds + (seq![10u8] + entries));
    lemma_parse_dec_of(total as int, seq![10u8] + entries);
    let k = ds.len() as int;
    assert(parse_dec(s2) == Some((total, k)));
    assert(s2[k] == 10);
    assert(k < s2.len());
    assert(s2.skip(k + 1) =~= entries);
    lemma_parse_entries_round(ps);
}

} // verus!
