//! Base64 (standard alphabet, `=` padding) encoding and decoding of binary
//! bodies, verified against a mathematical model of the codec.  Decoding is
//! canonical: it accepts exactly the strings that `spec_b64_encode` produces.

use vstd::prelude::*;

verus! {

/// The alphabet byte for a 6-bit value (values 64 and above are never used).
pub open spec fn b64_char(v: u8) -> u8 {
    if v < 26 {
        (v + 65) as u8  // 'A'..='Z'
    } else if v < 52 {
        (v + 71) as u8  // 'a'..='z'
    } else if v < 62 {
        (v - 4) as u8  // '0'..='9'
    } else if v == 62 {
        43u8  // '+'
    } else {
        47u8  // '/'
    }
}

/// The 6-bit value of an alphabet byte, or -1 for a byte outside the alphabet
/// (the padding byte `=` is outside the alphabet).
pub open spec fn b64_val(c: u8) -> int {
    if 65 <= c && c <= 90 {
        c - 65
    } else if 97 <= c && c <= 122 {
        c - 97 + 26
    } else if 48 <= c && c <= 57 {
        c - 48 + 52
    } else if c == 43 {
        62
    } else if c == 47 {
        63
    } else {
        -1
    }
}

/// The four alphabet bytes encoding a full three-byte group.
pub open spec fn enc_group(b0: u8, b1: u8, b2: u8) -> Seq<u8> {
    seq![
        b64_char(b0 >> 2),
        b64_char(((b0 & 3) << 4) | (b1 >> 4)),
        b64_char(((b1 & 15) << 2) | (b2 >> 6)),
        b64_char(b2 & 63),
    ]
}

/// The base64 encoding of a byte sequence: full groups of three bytes, then a
/// padded final group for one or two leftover bytes.
pub open spec fn spec_b64_encode(s: Seq<u8>) -> Seq<u8>
    decreases s.len(),
{
    if s.len() == 0 {
        Seq::empty()
    } else if s.len() == 1 {
        seq![b64_char(s[0] >> 2), b64_char((s[0] & 3) << 4), 61u8, 61u8]
    } else if s.len() == 2 {
        seq![
            b64_char(s[0] >> 2),
            b64_char(((s[0] & 3) << 4) | (s[1] >> 4)),
            b64_char((s[1] & 15) << 2),
            61u8,
        ]
    } else {
        enc_group(s[0], s[1], s[2]) + spec_b64_encode(s.skip(3))
    }
}

/// First decoded byte of a group.
pub open spec fn dec1(v0: u8, v1: u8) -> u8 {
    (v0 << 2) | (v1 >> 4)
}

/// Second decoded byte of a group.
pub open spec fn dec2(v1: u8, v2: u8) -> u8 {
    ((v1 & 15) << 4) | (v2 >> 2)
}

/// Third decoded byte of a group.
pub open spec fn dec3(v2: u8, v3: u8) -> u8 {
    ((v2 & 3) << 6) | v3
}

/// Canonical base64 decoding: `Some` exactly on the sequences that
/// `spec_b64_encode` produces, `None` on everything else (wrong length,
/// bytes outside the alphabet, misplaced padding, nonzero trailing bits).
pub open spec fn spec_b64_decode(s: Seq<u8>) -> Option<Seq<u8>>
    decreases s.len(),
{
    if s.len() == 0 {
        Some(Seq::empty())
    } else if s.len() < 4 {
        None
    } else {
        let v0 = b64_val(s[0]);
        let v1 = b64_val(s[1]);
        if v0 < 0 || v1 < 0 {
            None
        } else if s.len() == 4 && s[2] == 61 && s[3] == 61 {
            if (v1 as u8) & 15 == 0 {
                Some(seq![dec1(v0 as u8, v1 as u8)])
            } else {
                None
            }
        } else if s.len() == 4 && s[3] == 61 {
            let v2 = b64_val(s[2]);
            if v2 >= 0 && (v2 as u8) & 3 == 0 {
                Some(seq![dec1(v0 as u8, v1 as u8), dec2(v1 as u8, v2 as u8)])
            } else {
                None
            }
        } else {
            let v2 = b64_val(s[2]);
            let v3 = b64_val(s[3]);
            if v2 < 0 || v3 < 0 {
                None
            } else {
                match spec_b64_decode(s.skip(4)) {
                    Some(rest) => Some(
                        seq![
                            dec1(v0 as u8, v1 as u8),
                            dec2(v1 as u8, v2 as u8),
                            dec3(v2 as u8, v3 as u8),
                        ] + rest,
                    ),
                    None => None,
                }
            }
        }
    }
}

/// Every 6-bit value decodes back from its alphabet byte, and no alphabet
/// byte is the padding byte `=` or outside seven-bit ASCII.
pub proof fn lemma_b64_char_val()
    ensures
        forall|v: u8| v < 64 ==> b64_val(#[trigger] b64_char(v)) == v as int,
        forall|v: u8| (#[trigger] b64_char(v)) != 61,
        forall|v: u8| (#[trigger] b64_char(v)) < 128,
{
}

/// A sequence whose length is not a multiple of four is not a valid encoding.
pub proof fn lemma_b64_decode_len(s: Seq<u8>)
    requires
        s.len() % 4 != 0,
    ensures
        spec_b64_decode(s) == None::<Seq<u8>>,
    decreases s.len(),
{
    if s.len() >= 4 {
        lemma_b64_decode_len(s.skip(4));
    }
}

/// Decoding inverts encoding: every byte sequence is recovered exactly from
/// its base64 encoding.
pub proof fn lemma_b64_round_trip(s: Seq<u8>)
    ensures
        spec_b64_decode(spec_b64_encode(s)) == Some(s),
    decreases s.len(),
{
    lemma_b64_char_val();
    let e = spec_b64_encode(s);
    if s.len() == 0 {
        assert(s =~= Seq::<u8>::empty());
    } else if s.len() == 1 {
        let b0 = s[0];
        assert((b0 >> 2) < 64 && ((b0 & 3) << 4) < 64) by (bit_vector);
        assert((((b0 & 3) << 4) & 15) == 0) by (bit_vector);
        assert((((b0 >> 2) << 2) | (((b0 & 3) << 4) >> 4)) == b0) by (bit_vector);
        assert(spec_b64_decode(e) == Some(seq![b0]));
        assert(seq![b0] =~= s);
    } else if s.len() == 2 {
        let b0 = s[0];
        let b1 = s[1];
        assert((b0 >> 2) < 64 && (((b0 & 3) << 4) | (b1 >> 4)) < 64 && ((b1 & 15) << 2) < 64)
            by (bit_vector);
        assert((((b1 & 15) << 2) & 3) == 0) by (bit_vector);
        assert((((b0 >> 2) << 2) | ((((b0 & 3) << 4) | (b1 >> 4)) >> 4)) == b0) by (bit_vector);
        assert((((((b0 & 3) << 4) | (b1 >> 4)) & 15) << 4 | (((b1 & 15) << 2) >> 2)) == b1)
            by (bit_vector);
        assert(spec_b64_decode(e) == Some(seq![b0, b1]));
        assert(seq![b0, b1] =~= s);
    } else {
        let b0 = s[0];
        let b1 = s[1];
        let b2 = s[2];
        let rest = spec_b64_encode(s.skip(3));
        assert(e == enc_group(b0, b1, b2) + rest);
        assert((b0 >> 2) < 64 && (((b0 & 3) << 4) | (b1 >> 4)) < 64 && ((
        (b1 & 15) << 2) | (b2 >> 6)) < 64 && (b2 & 63) < 64) by (bit_vector);
        assert(e.len() == 4 + rest.len());
        assert(e[0] == b64_char(b0 >> 2));
        assert(e[1] == b64_char(((b0 & 3) << 4) | (b1 >> 4)));
        assert(e[2] == b64_char(((b1 & 15) << 2) | (b2 >> 6)));
        assert(e[3] == b64_char(b2 & 63));
        assert((((b0 >> 2) << 2) | ((((b0 & 3) << 4) | (b1 >> 4)) >> 4)) == b0) by (bit_vector);
        assert((((((b0 & 3) << 4) | (b1 >> 4)) & 15) << 4 | ((((b1 & 15) << 2) | (b2 >> 6)) >> 2))
            == b1) by (bit_vector);
        assert(((((((b1 & 15) << 2) | (b2 >> 6)) & 3) << 6) | (b2 & 63)) == b2) by (bit_vector);
        lemma_b64_round_trip(s.skip(3));
        assert(e.skip(4) =~= rest);
        assert(spec_b64_decode(e) == Some(seq![b0, b1, b2] + s.skip(3)));
        assert(seq![b0, b1, b2] + s.skip(3) =~= s);
    }
}

/// Every byte of an encoding is seven-bit ASCII, so the encoding of a binary
/// body is always a valid UTF-8 string.
pub proof fn lemma_b64_encode_ascii(s: Seq<u8>)
    ensures
        forall|i: int|
            0 <= i < spec_b64_encode(s).len() ==> (#[trigger] spec_b64_encode(s)[i]) < 128,
    decreases s.len(),
{
    lemma_b64_char_val();
    let e = spec_b64_encode(s);
    if s.len() == 0 {
    } else if s.len() <= 2 {
        assert forall|i: int| 0 <= i < e.len() implies e[i] < 128 by {
            assert(e[3] == 61);
        }
    } else {
        lemma_b64_encode_ascii(s.skip(3));
        assert forall|i: int| 0 <= i < e.len() implies e[i] < 128 by {
            assert(e == enc_group(s[0], s[1], s[2]) + spec_b64_encode(s.skip(3)));
            if i >= 4 {
                assert(e[i] == spec_b64_encode(s.skip(3))[i - 4]);
            }
        }
    }
}

/// The encoding of any byte sequence is valid UTF-8, being seven-bit ASCII.
pub proof fn lemma_b64_encode_valid_utf8(s: Seq<u8>)
    ensures
        vstd::utf8::valid_utf8(spec_b64_encode(s)),
{
    lemma_b64_encode_ascii(s);
    let e = spec_b64_encode(s);
    assert(vstd::utf8::partial_valid_utf8(e, 0)) by {
        assert(e.subrange(0, 0) =~= Seq::<u8>::empty());
    }
    vstd::utf8::partial_valid_utf8_extend_ascii_block(e, 0, e.len() as int);
    assert(e.subrange(0, e.len() as int) =~= e);
}

/// The 6-bit value of one byte, `None` outside the alphabet.
fn b64_val_exec(c: u8) -> (r: Option<u8>)
    ensures
        match r {
            Some(v) => b64_val(c) == v as int && v < 64,
            None => b64_val(c) < 0,
        },
{
    if 65 <= c && c <= 90 {
        Some(c - 65)
    } else if 97 <= c && c <= 122 {
        Some(c - 97 + 26)
    } else if 48 <= c && c <= 57 {
        Some(c - 48 + 52)
    } else if c == 43 {
        Some(62)
    } else if c == 47 {
        Some(63)
    } else {
        None
    }
}

/// The alphabet byte of a 6-bit value.
fn b64_char_exec(v: u8) -> (r: u8)
    requires
        v < 64,
    ensures
        r == b64_char(v),
{
    if v < 26 {
        v + 65
    } else if v < 52 {
        v + 71
    } else if v < 62 {
        v - 4
    } else if v == 62 {
        43
    } else {
        47
    }
}

/// Base64-encode a byte sequence.
pub fn encode(s: &Vec<u8>) -> (r: Vec<u8>)
    ensures
        r@ == spec_b64_encode(s@),
{
    let n = s.len();
    let mut out: Vec<u8> = Vec::new();
    let mut i: usize = 0;
    proof {
        assert(s@.skip(0) =~= s@);
        assert(out@ + spec_b64_encode(s@) =~= spec_b64_encode(s@));
    }
    while n - i >= 3
        invariant
            i <= n == s@.len(),
            out@ + spec_b64_encode(s@.skip(i as int)) == spec_b64_encode(s@),
        decreases n - i,
    {
        let b0 = s[i];
        let b1 = s[i + 1];
        let b2 = s[i + 2];
        proof {
            let t = s@.skip(i as int);
            assert(t.len() >= 3);
            assert(t[0] == b0 && t[1] == b1 && t[2] == b2);
            assert((b0 >> 2) < 64 && (((b0 & 3) << 4) | (b1 >> 4)) < 64 && ((
            (b1 & 15) << 2) | (b2 >> 6)) < 64 && (b2 & 63) < 64) by (bit_vector);
            assert(t.skip(3) =~= s@.skip(i as int + 3));
        }
        let ghost old_out = out@;
        out.push(b64_char_exec(b0 >> 2));
        out.push(b64_char_exec(((b0 & 3) << 4) | (b1 >> 4)));
        out.push(b64_char_exec(((b1 & 15) << 2) | (b2 >> 6)));
        out.push(b64_char_exec(b2 & 63));
        proof {
            assert(out@ =~= old_out + enc_group(b0, b1, b2));
            assert(out@ + spec_b64_encode(s@.skip(i as int + 3)) =~= spec_b64_encode(s@));
        }
        i += 3;
    }
    let ghost old_out = out@;
    if n - i == 1 {
        let b0 = s[i];
        proof {
            let t = s@.skip(i as int);
            assert(t.len() == 1 && t[0] == b0);
            assert((b0 >> 2) < 64 && ((b0 & 3) << 4) < 64) by (bit_vector);
        }
        out.push(b64_char_exec(b0 >> 2));
        out.push(b64_char_exec((b0 & 3) << 4));
        out.push(61);
        out.push(61);
        proof {
            assert(out@ =~= old_out + spec_b64_encode(s@.skip(i as int)));
        }
    } else if n - i == 2 {
        let b0 = s[i];
        let b1 = s[i + 1];
        proof {
            let t = s@.skip(i as int);
            assert(t.len() == 2 && t[0] == b0 && t[1] == b1);
            assert((b0 >> 2) < 64 && (((b0 & 3) << 4) | (b1 >> 4)) < 64 && ((b1 & 15) << 2) < 64)
                by (bit_vector);
        }
        out.push(b64_char_exec(b0 >> 2));
        out.push(b64_char_exec(((b0 & 3) << 4) | (b1 >> 4)));
        out.push(b64_char_exec((b1 & 15) << 2));
        out.push(61);
        proof {
            assert(out@ =~= old_out + spec_b64_encode(s@.skip(i as int)));
        }
    } else {
        proof {
            assert(s@.skip(i as int).len() == 0);
            assert(out@ =~= old_out + spec_b64_encode(s@.skip(i as int)));
        }
    }
    out
}

/// Base64-decode a byte sequence; `None` when it is not a canonical encoding.
pub fn decode(s: &Vec<u8>) -> (r: Option<Vec<u8>>)
    ensures
        match r {
            Some(v) => spec_b64_decode(s@) == Some(v@),
            None => spec_b64_decode(s@) == None::<Seq<u8>>,
        },
{
    let n = s.len();
    if n % 4 != 0 {
        proof {
            lemma_b64_decode_len(s@);
        }
        return None;
    }
    let mut out: Vec<u8> = Vec::new();
    let mut i: usize = 0;
    proof {
        assert(s@.skip(0) =~= s@);
        if let Some(t) = spec_b64_decode(s@) {
            assert(out@ + t =~= t);
        }
    }
    while n - i >= 8
        invariant
            i <= n == s@.len(),
            n % 4 == 0,
            i % 4 == 0,
            match spec_b64_decode(s@.skip(i as int)) {
                Some(t) => spec_b64_decode(s@) == Some(out@ + t),
                None => spec_b64_decode(s@) == None::<Seq<u8>>,
            },
        decreases n - i,
    {
        proof {
            let t = s@.skip(i as int);
            assert(t.len() >= 8);
            assert(t[0] == s@[i as int] && t[1] == s@[i as int + 1] && t[2] == s@[i as int + 2]
                && t[3] == s@[i as int + 3]);
            assert(t.skip(4) =~= s@.skip(i as int + 4));
        }
        let v0 = match b64_val_exec(s[i]) {
            Some(v) => v,
            None => {
                return None;
            },
        };
        let v1 = match b64_val_exec(s[i + 1]) {
            Some(v) => v,
            None => {
                return None;
            },
        };
        let v2 = match b64_val_exec(s[i + 2]) {
            Some(v) => v,
            None => {
                return None;
            },
        };
        let v3 = match b64_val_exec(s[i + 3]) {
            Some(v) => v,
            None => {
                return None;
            },
        };
        let ghost old_out = out@;
        out.push((v0 << 2) | (v1 >> 4));
        out.push(((v1 & 15) << 4) | (v2 >> 2));
        out.push(((v2 & 3) << 6) | v3);
        proof {
            let g = seq![dec1(v0, v1), dec2(v1, v2), dec3(v2, v3)];
            assert(out@ =~= old_out + g);
            let t = s@.skip(i as int);
            assert(spec_b64_decode(t) == match spec_b64_decode(s@.skip(i as int + 4)) {
                Some(rest) => Some(g + rest),
                None => None::<Seq<u8>>,
            });
            if let Some(rest) = spec_b64_decode(s@.skip(i as int + 4)) {
                assert(old_out + (g + rest) =~= out@ + rest);
            }
        }
        i += 4;
    }
    if n - i == 0 {
        proof {
            assert(s@.skip(i as int).len() == 0);
            assert(out@ + Seq::<u8>::empty() =~= out@);
        }
        return Some(out);
    }
    // exactly one group is left
    proof {
        assert((n - i) % 4 == 0) by (nonlinear_arith)
            requires
                n % 4 == 0,
                i % 4 == 0,
                i <= n,
        ;
        assert(n - i == 4);
        let t = s@.skip(i as int);
        assert(t.len() == 4);
        assert(t[0] == s@[i as int] && t[1] == s@[i as int + 1] && t[2] == s@[i as int + 2] && t[3]
            == s@[i as int + 3]);
    }
    let ghost t = s@.skip(i as int);
    let ghost old_out = out@;
    let v0 = match b64_val_exec(s[i]) {
        Some(v) => v,
        None => {
            proof {
                assert(spec_b64_decode(t) == None::<Seq<u8>>);
            }
            return None;
        },
    };
    let v1 = match b64_val_exec(s[i + 1]) {
        Some(v) => v,
        None => {
            proof {
                assert(spec_b64_decode(t) == None::<Seq<u8>>);
            }
            return None;
        },
    };
    let c2 = s[i + 2];
    let c3 = s[i + 3];
    if c2 == 61 && c3 == 61 {
        if v1 & 15 == 0 {
            out.push((v0 << 2) | (v1 >> 4));
            proof {
                assert(spec_b64_decode(t) == Some(seq![dec1(v0, v1)]));
                assert(out@ =~= old_out + seq![dec1(v0, v1)]);
            }
            Some(out)
        } else {
            proof {
                assert(spec_b64_decode(t) == None::<Seq<u8>>);
            }
            None
        }
    } else if c3 == 61 {
        match b64_val_exec(c2) {
            Some(v2) => {
                if v2 & 3 == 0 {
                    out.push((v0 << 2) | (v1 >> 4));
                    out.push(((v1 & 15) << 4) | (v2 >> 2));
                    proof {
                        assert(spec_b64_decode(t) == Some(seq![dec1(v0, v1), dec2(v1, v2)]));
                        assert(out@ =~= old_out + seq![dec1(v0, v1), dec2(v1, v2)]);
                    }
                    Some(out)
                } else {
                    proof {
                        assert(spec_b64_decode(t) == None::<Seq<u8>>);
                    }
                    None
                }
            },
            None => {
                proof {
                    assert(spec_b64_decode(t) == None::<Seq<u8>>);
                }
                None
            },
        }
    } else {
        let v2 = match b64_val_exec(c2) {
            Some(v) => v,
            None => {
                proof {
                    assert(spec_b64_decode(t) == None::<Seq<u8>>);
                }
                return None;
            },
        };
        let v3 = match b64_val_exec(c3) {
            Some(v) => v,
            None => {
                proof {
                    assert(spec_b64_decode(t) == None::<Seq<u8>>);
                }
                return None;
            },
        };
        out.push((v0 << 2) | (v1 >> 4));
        out.push(((v1 & 15) << 4) | (v2 >> 2));
        out.push(((v2 & 3) << 6) | v3);
        proof {
            let g = seq![dec1(v0, v1), dec2(v1, v2), dec3(v2, v3)];
            assert(t.skip(4) =~= s@.skip(i as int + 4));
            assert(s@.skip(i as int + 4).len() == 0);
            assert(spec_b64_decode(t.skip(4)) == Some(Seq::<u8>::empty()));
            assert(spec_b64_decode(t) == Some(g + Seq::<u8>::empty()));
            assert(g + Seq::<u8>::empty() =~= g);
            assert(out@ =~= old_out + g);
        }
        Some(out)
    }
}

} // verus!
