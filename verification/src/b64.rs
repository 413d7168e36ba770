//! Base64 (standard alphabet, padded) as used by the trace file format.
//!
//! The encoding is fixed mathematically by `b64_encode`; the executable
//! encoder defers to an outside implementation of the same standard
//! encoding, while the decoder is implemented and verified here as part of
//! the trace file parser.  `lemma_b64_round_trip` shows that decoding
//! inverts encoding.

use vstd::prelude::*;

verus! {

/// The alphabet byte for a 6-bit value `v` in `[0, 64)`.
pub open spec fn b64_char_of(v: int) -> u8 {
    if 0 <= v < 26 {
        (65 + v) as u8  // 'A'..='Z'
    } else if 26 <= v < 52 {
        (97 + v - 26) as u8  // 'a'..='z'
    } else if 52 <= v < 62 {
        (48 + v - 52) as u8  // '0'..='9'
    } else if v == 62 {
        43u8  // '+'
    } else {
        47u8  // '/'
    }
}

/// The 6-bit value of an alphabet byte, or -1 for a byte outside the
/// alphabet (the padding byte '=' included).
pub open spec fn b64_val_of(c: u8) -> int {
    if 65 <= c <= 90 {
        c - 65
    } else if 97 <= c <= 122 {
        c - 97 + 26
    } else if 48 <= c <= 57 {
        c - 48 + 52
    } else if c == 43 {
        62
    } else if c == 47 {
        63
    } else {
        -1
    }
}

/// The padding byte '='.
pub open spec fn pad_byte() -> u8 {
    61u8
}

/// Standard base64 with padding: each full 3-byte group becomes 4 alphabet
/// bytes; a trailing group of 1 or 2 bytes is padded with '='.
pub open spec fn b64_encode(s: Seq<u8>) -> Seq<u8>
    decreases s.len(),
{
    if s.len() == 0 {
        Seq::empty()
    } else if s.len() == 1 {
        let b0 = s[0] as int;
        seq![
            b64_char_of(b0 / 4),
            b64_char_of((b0 % 4) * 16),
            pad_byte(),
            pad_byte(),
        ]
    } else if s.len() == 2 {
        let b0 = s[0] as int;
        let b1 = s[1] as int;
        seq![
            b64_char_of(b0 / 4),
            b64_char_of((b0 % 4) * 16 + b1 / 16),
            b64_char_of((b1 % 16) * 4),
            pad_byte(),
        ]
    } else {
        let b0 = s[0] as int;
        let b1 = s[1] as int;
        let b2 = s[2] as int;
        seq![
            b64_char_of(b0 / 4),
            b64_char_of((b0 % 4) * 16 + b1 / 16),
            b64_char_of((b1 % 16) * 4 + b2 / 64),
            b64_char_of(b2 % 64),
        ] + b64_encode(s.skip(3))
    }
}

/// Strict decoding of padded base64: rejects input whose length is not a
/// multiple of four, bytes outside the alphabet, padding anywhere but at the
/// very end, and padding whose unused bits are not zero.
pub open spec fn b64_decode(s: Seq<u8>) -> Option<Seq<u8>>
    decreases s.len(),
{
    if s.len() == 0 {
        Some(Seq::empty())
    } else if s.len() < 4 {
        None
    } else {
        let v0 = b64_val_of(s[0]);
        let v1 = b64_val_of(s[1]);
        if v0 < 0 || v1 < 0 {
            None
        } else if s[3] == pad_byte() {
            if s.len() != 4 {
                None
            } else if s[2] == pad_byte() {
                if v1 % 16 == 0 {
                    Some(seq![(v0 * 4 + v1 / 16) as u8])
                } else {
                    None
                }
            } else {
                let v2 = b64_val_of(s[2]);
                if v2 < 0 || v2 % 4 != 0 {
                    None
                } else {
                    Some(seq![(v0 * 4 + v1 / 16) as u8, ((v1 % 16) * 16 + v2 / 4) as u8])
                }
            }
        } else {
            let v2 = b64_val_of(s[2]);
            let v3 = b64_val_of(s[3]);
            if v2 < 0 || v3 < 0 {
                None
            } else {
                match b64_decode(s.skip(4)) {
                    None => None,
                    Some(rest) => Some(
                        seq![
                            (v0 * 4 + v1 / 16) as u8,
                            ((v1 % 16) * 16 + v2 / 4) as u8,
                            ((v2 % 4) * 64 + v3) as u8,
                        ] + rest,
                    ),
                }
            }
        }
    }
}

/// Whether every byte of `s` is in the base64 alphabet or is padding: the
/// shape of every encoder output.
pub open spec fn is_b64_text(s: Seq<u8>) -> bool {
    forall|i: int| 0 <= i < s.len() ==> b64_val_of(#[trigger] s[i]) >= 0 || s[i] == pad_byte()
}

/// The alphabet byte for a 6-bit value.
fn enc_char(v: u8) -> (r: u8)
    requires
        v < 64,
    ensures
        r == b64_char_of(v as int),
{
    if v < 26 {
        65 + v
    } else if v < 52 {
        97 + (v - 26)
    } else if v < 62 {
        48 + (v - 52)
    } else if v == 62 {
        43
    } else {
        47
    }
}

/// The 6-bit value of an alphabet byte, if it is one.
fn dec_char(c: u8) -> (r: Option<u8>)
    ensures
        match r {
            Some(v) => b64_val_of(c) == v as int,
            None => b64_val_of(c) < 0,
        },
{
    if 65 <= c && c <= 90 {
        Some(c - 65)
    } else if 97 <= c && c <= 122 {
        Some(c - 97 + 26)
    } else if 48 <= c && c <= 57 {
        Some(c - 48 + 52)
    } else if c == 43 {
        Some(62)
    } else if c == 47 {
        Some(63)
    } else {
        None
    }
}

/// Encodes a byte string as padded standard base64.
pub fn encode_bytes(s: &Vec<u8>) -> (r: Vec<u8>)
    ensures
        r@ == b64_encode(s@),
{
    let mut out: Vec<u8> = Vec::new();
    let n = s.len();
    let mut i: usize = 0;
    proof {
        assert(s@.skip(0) =~= s@);
        assert(out@ + b64_encode(s@) =~= b64_encode(s@));
    }
    while n - i >= 3
        invariant
            i <= n,
            n == s@.len(),
            b64_encode(s@) == out@ + b64_encode(s@.skip(i as int)),
        decreases n - i,
    {
        let ghost out_before = out@;
        let ghost rem = s@.skip(i as int);
        let b0 = s[i];
        let b1 = s[i + 1];
        let b2 = s[i + 2];
        out.push(enc_char(b0 / 4));
        out.push(enc_char((b0 % 4) * 16 + b1 / 16));
        out.push(enc_char((b1 % 16) * 4 + b2 / 64));
        out.push(enc_char(b2 % 64));
        proof {
            assert(rem[0] == b0 && rem[1] == b1 && rem[2] == b2);
            assert(rem.skip(3) =~= s@.skip(i as int + 3));
            assert(out@ =~= out_before + seq![
                b64_char_of(b0 as int / 4),
                b64_char_of((b0 as int % 4) * 16 + b1 as int / 16),
                b64_char_of((b1 as int % 16) * 4 + b2 as int / 64),
                b64_char_of(b2 as int % 64),
            ]);
            assert(b64_encode(s@) =~= out@ + b64_encode(s@.skip(i as int + 3)));
        }
        i = i + 3;
    }
    let ghost rem = s@.skip(i as int);
    if n - i == 1 {
        let ghost out_before = out@;
        let b0 = s[i];
        out.push(enc_char(b0 / 4));
        out.push(enc_char((b0 % 4) * 16));
        out.push(61);
        out.push(61);
        proof {
            assert(rem.len() == 1 && rem[0] == b0);
            assert(out@ =~= out_before + b64_encode(rem));
            assert(out@ =~= b64_encode(s@));
        }
    } else if n - i == 2 {
        let ghost out_before = out@;
        let b0 = s[i];
        let b1 = s[i + 1];
        out.push(enc_char(b0 / 4));
        out.push(enc_char((b0 % 4) * 16 + b1 / 16));
        out.push(enc_char((b1 % 16) * 4));
        out.push(61);
        proof {
            assert(rem.len() == 2 && rem[0] == b0 && rem[1] == b1);
            assert(out@ =~= out_before + b64_encode(rem));
            assert(out@ =~= b64_encode(s@));
        }
    } else {
        proof {
            assert(rem.len() == 0);
            assert(out@ =~= out@ + b64_encode(rem));
        }
    }
    out
}

/// Decodes padded standard base64, strictly: `None` exactly where the
/// mathematical decoder rejects.
pub fn decode_bytes(s: &Vec<u8>) -> (r: Option<Vec<u8>>)
    ensures
        match r {
            Some(v) => b64_decode(s@) == Some(v@),
            None => b64_decode(s@) is None,
        },
{
    let mut out: Vec<u8> = Vec::new();
    let n = s.len();
    let mut i: usize = 0;
    proof {
        assert(s@.skip(0) =~= s@);
        if b64_decode(s@) is Some {
            assert(out@ + b64_decode(s@).unwrap() =~= b64_decode(s@).unwrap());
        }
    }
    while i < n
        invariant
            i <= n,
            n == s@.len(),
            b64_decode(s@) == (match b64_decode(s@.skip(i as int)) {
                None => None::<Seq<u8>>,
                Some(rest) => Some(out@ + rest),
            }),
        decreases n - i,
    {
        let ghost rem = s@.skip(i as int);
        if n - i < 4 {
            proof {
                assert(0 < rem.len() < 4);
            }
            return None;
        }
        let c0 = s[i];
        let c1 = s[i + 1];
        let c2 = s[i + 2];
        let c3 = s[i + 3];
        proof {
            assert(rem[0] == c0 && rem[1] == c1 && rem[2] == c2 && rem[3] == c3);
        }
        let v0 = match dec_char(c0) {
            Some(v) => v,
            None => {
                return None;
            },
        };
        let v1 = match dec_char(c1) {
            Some(v) => v,
            None => {
                return None;
            },
        };
        if c3 == 61 {
            if i + 4 != n {
                return None;
            }
            if c2 == 61 {
                if v1 % 16 != 0 {
                    return None;
                }
                let ghost out_before = out@;
                out.push(v0 * 4 + v1 / 16);
                proof {
                    assert(b64_decode(rem) == Some(seq![(v0 as int * 4 + v1 as int / 16) as u8]));
                    assert(out@ =~= out_before + seq![(v0 as int * 4 + v1 as int / 16) as u8]);
                }
                return Some(out);
            } else {
                let v2 = match dec_char(c2) {
                    Some(v) => v,
                    None => {
                        return None;
                    },
                };
                if v2 % 4 != 0 {
                    return None;
                }
                let ghost out_before = out@;
                out.push(v0 * 4 + v1 / 16);
                out.push((v1 % 16) * 16 + v2 / 4);
                proof {
                    assert(b64_decode(rem) == Some(seq![
                        (v0 as int * 4 + v1 as int / 16) as u8,
                        ((v1 as int % 16) * 16 + v2 as int / 4) as u8,
                    ]));
                    assert(out@ =~= out_before + seq![
                        (v0 as int * 4 + v1 as int / 16) as u8,
                        ((v1 as int % 16) * 16 + v2 as int / 4) as u8,
                    ]);
                }
                return Some(out);
            }
        } else {
            let v2 = match dec_char(c2) {
                Some(v) => v,
                None => {
                    return None;
                },
            };
            let v3 = match dec_char(c3) {
                Some(v) => v,
                None => {
                    return None;
                },
            };
            let ghost out_before = out@;
            out.push(v0 * 4 + v1 / 16);
            out.push((v1 % 16) * 16 + v2 / 4);
            out.push((v2 % 4) * 64 + v3);
            proof {
                let ghost group = seq![
                    (v0 as int * 4 + v1 as int / 16) as u8,
                    ((v1 as int % 16) * 16 + v2 as int / 4) as u8,
                    ((v2 as int % 4) * 64 + v3 as int) as u8,
                ];
                assert(rem.skip(4) =~= s@.skip(i as int + 4));
                assert(out@ =~= out_before + group);
                assert forall|rest: Seq<u8>| true implies (out_before + (group + rest))
                    == (out_before + group) + rest by {
                    assert(out_before + (group + rest) =~= (out_before + group) + rest);
                }
            }
            i = i + 4;
        }
    }
    proof {
        assert(s@.skip(n as int) =~= Seq::<u8>::empty());
        assert(b64_decode(Seq::<u8>::empty()) == Some(Seq::<u8>::empty()));
        assert(out@ + Seq::<u8>::empty() =~= out@);
    }
    Some(out)
}

/// Alphabet bytes decode back to the value they encode.
proof fn lemma_char_val(v: int)
    requires
        0 <= v < 64,
    ensures
        b64_val_of(b64_char_of(v)) == v,
        b64_char_of(v) != pad_byte(),
{
}

/// The encoder only emits alphabet and padding bytes.
pub proof fn lemma_b64_encode_text(s: Seq<u8>)
    ensures
        is_b64_text(b64_encode(s)),
    decreases s.len(),
{
    if s.len() == 0 {
    } else if s.len() == 1 {
        let b0 = s[0] as int;
        lemma_char_val(b0 / 4);
        lemma_char_val((b0 % 4) * 16);
    } else if s.len() == 2 {
        let b0 = s[0] as int;
        let b1 = s[1] as int;
        lemma_char_val(b0 / 4);
        lemma_char_val((b0 % 4) * 16 + b1 / 16);
        lemma_char_val((b1 % 16) * 4);
    } else {
        let b0 = s[0] as int;
        let b1 = s[1] as int;
        let b2 = s[2] as int;
        lemma_char_val(b0 / 4);
        lemma_char_val((b0 % 4) * 16 + b1 / 16);
        lemma_char_val((b1 % 16) * 4 + b2 / 64);
        lemma_char_val(b2 % 64);
        lemma_b64_encode_text(s.skip(3));
        assert forall|i: int| 0 <= i < b64_encode(s).len() implies
            b64_val_of(#[trigger] b64_encode(s)[i]) >= 0 || b64_encode(s)[i] == pad_byte() by {
            if i >= 4 {
                assert(b64_encode(s)[i] == b64_encode(s.skip(3))[i - 4]);
            }
        }
    }
}

/// Round trip: strict decoding inverts encoding, for every byte string.
pub proof fn lemma_b64_round_trip(s: Seq<u8>)
    ensures
        b64_decode(b64_encode(s)) == Some(s),
    decreases s.len(),
{
    let e = b64_encode(s);
    if s.len() == 0 {
        assert(b64_decode(e) == Some(Seq::<u8>::empty()));
        assert(Seq::<u8>::empty() =~= s);
    } else if s.len() == 1 {
        let b0 = s[0] as int;
        lemma_char_val(b0 / 4);
        lemma_char_val((b0 % 4) * 16);
        assert(((b0 % 4) * 16) % 16 == 0) by (nonlinear_arith);
        assert((b0 / 4) * 4 + ((b0 % 4) * 16) / 16 == b0) by (nonlinear_arith);
        assert(b64_decode(e) == Some(seq![(b0 / 4 * 4 + ((b0 % 4) * 16) / 16) as u8]));
        assert(seq![s[0]] =~= s);
    } else if s.len() == 2 {
        let b0 = s[0] as int;
        let b1 = s[1] as int;
        let v0 = b0 / 4;
        let v1 = (b0 % 4) * 16 + b1 / 16;
        let v2 = (b1 % 16) * 4;
        lemma_char_val(v0);
        lemma_char_val(v1);
        lemma_char_val(v2);
        assert(v2 % 4 == 0) by (nonlinear_arith)
            requires
                v2 == (b1 % 16) * 4,
                0 <= b1 < 256,
        ;
        assert(v0 * 4 + v1 / 16 == b0) by (nonlinear_arith)
            requires
                v0 == b0 / 4,
                v1 == (b0 % 4) * 16 + b1 / 16,
                0 <= b0 < 256,
                0 <= b1 < 256,
        ;
        assert((v1 % 16) * 16 + v2 / 4 == b1) by (nonlinear_arith)
            requires
                v1 == (b0 % 4) * 16 + b1 / 16,
                v2 == (b1 % 16) * 4,
                0 <= b0 < 256,
                0 <= b1 < 256,
        ;
        assert(seq![s[0], s[1]] =~= s);
    } else {
        let b0 = s[0] as int;
        let b1 = s[1] as int;
        let b2 = s[2] as int;
        let v0 = b0 / 4;
        let v1 = (b0 % 4) * 16 + b1 / 16;
        let v2 = (b1 % 16) * 4 + b2 / 64;
        let v3 = b2 % 64;
        lemma_char_val(v0);
        lemma_char_val(v1);
        lemma_char_val(v2);
        lemma_char_val(v3);
        lemma_b64_round_trip(s.skip(3));
        assert(e.skip(4) =~= b64_encode(s.skip(3)));
        assert(v0 * 4 + v1 / 16 == b0) by (nonlinear_arith)
            requires
                v0 == b0 / 4,
                v1 == (b0 % 4) * 16 + b1 / 16,
                0 <= b0 < 256,
                0 <= b1 < 256,
        ;
        assert((v1 % 16) * 16 + v2 / 4 == b1) by (nonlinear_arith)
            requires
                v1 == (b0 % 4) * 16 + b1 / 16,
                v2 == (b1 % 16) * 4 + b2 / 64,
                0 <= b0 < 256,
                0 <= b1 < 256,
                0 <= b2 < 256,
        ;
        assert((v2 % 4) * 64 + v3 == b2) by (nonlinear_arith)
            requires
                v2 == (b1 % 16) * 4 + b2 / 64,
                v3 == b2 % 64,
                0 <= b1 < 256,
                0 <= b2 < 256,
        ;
        assert(seq![s[0], s[1], s[2]] + s.skip(3) =~= s);
    }
}

} // verus!
