//! The calls into outside crates that the verified logic rests on. Each item here is trusted: its contract is believed, not proved.
use vstd::prelude::*;

use base64::Engine;
use sha2::Digest;

verus! {

/// One step of the CRC-16 shift register: shift left by one bit, and xor the
/// polynomial 0x1021 in when a one bit leaves the register.
pub open spec fn crc16_shift(c: u16) -> u16 {
    if c >= 0x8000 {
        (((c as int) * 2 - 0x10000) as u16) ^ 0x1021u16
    } else {
        ((c as int) * 2) as u16
    }
}

/// `k` steps of the CRC-16 shift register.
pub open spec fn crc16_shifts(c: u16, k: nat) -> u16
    decreases k,
{
    if k == 0 {
        c
    } else {
        crc16_shift(crc16_shifts(c, (k - 1) as nat))
    }
}

/// The CRC-16/XMODEM checksum of a byte sequence, with the parameters of the
/// `crc` crate's catalog: width 16, polynomial 0x1021, initial value 0, no
/// reflection of input or output, no final xor. Each byte, most significant
/// bit first, enters the top of the register, which then shifts eight times.
#[verifier::opaque]
pub open spec fn crc16_xmodem(data: Seq<u8>) -> u16
    decreases data.len(),
{
    if data.len() == 0 {
        0
    } else {
        crc16_shifts(
            crc16_xmodem(data.drop_last()) ^ (((data.last() as int) * 256) as u16),
            8,
        )
    }
}

/// The standard base64 symbol of a six-bit value: `A`-`Z`, `a`-`z`, `0`-`9`,
/// `+`, `/`.
pub open spec fn base64_symbol(v: int) -> u8 {
    if v < 26 {
        (65 + v) as u8
    } else if v < 52 {
        (97 + v - 26) as u8
    } else if v < 62 {
        (48 + v - 52) as u8
    } else if v == 62 {
        0x2b
    } else {
        0x2f
    }
}

/// The standard, padded base64 text (RFC 4648) of a byte sequence: every
/// group of three bytes becomes four symbols of six bits each; a last group
/// of one or two bytes is padded with zero bits and `=` to four symbols.
#[verifier::opaque]
pub open spec fn base64_encoded(data: Seq<u8>) -> Seq<u8>
    decreases data.len(),
{
    if data.len() == 0 {
        Seq::empty()
    } else if data.len() == 1 {
        let a = data[0] as int;
        seq![base64_symbol(a / 4), base64_symbol((a % 4) * 16), 0x3du8, 0x3du8]
    } else if data.len() == 2 {
        let a = data[0] as int;
        let b = data[1] as int;
        seq![
            base64_symbol(a / 4),
            base64_symbol((a % 4) * 16 + b / 16),
            base64_symbol((b % 16) * 4),
            0x3du8,
        ]
    } else {
        let a = data[0] as int;
        let b = data[1] as int;
        let c = data[2] as int;
        seq![
            base64_symbol(a / 4),
            base64_symbol((a % 4) * 16 + b / 16),
            base64_symbol((b % 16) * 4 + c / 64),
            base64_symbol(c % 64),
        ] + base64_encoded(data.skip(3))
    }
}

/// What the `base64` crate's `STANDARD` engine decodes from a text. That
/// decoder is strict (padding required and canonical, trailing bits
/// refused), so it accepts exactly the texts that the standard padded
/// encoding writes, and gives back the bytes they encode; `None` for any
/// other text.
#[verifier::opaque]
pub open spec fn base64_decoded(text: Seq<u8>) -> Option<Seq<u8>> {
    if exists|d: Seq<u8>| base64_encoded(d) == text {
        Some(choose|d: Seq<u8>| base64_encoded(d) == text)
    } else {
        None
    }
}

/// The SHA-256 digest of a byte sequence, as the `sha2` crate computes it.
pub uninterp spec fn sha256(data: Seq<u8>) -> Seq<u8>;

/// A byte of the standard base64 alphabet, or the padding byte `=`.
pub open spec fn is_base64_symbol(b: u8) -> bool {
    ||| 0x41 <= b <= 0x5a
    ||| 0x61 <= b <= 0x7a
    ||| 0x30 <= b <= 0x39
    ||| b == 0x2b
    ||| b == 0x2f
    ||| b == 0x3d
}

proof fn lemma_base64_symbol(v: int)
    requires
        0 <= v < 64,
    ensures
        is_base64_symbol(base64_symbol(v)),
{
}

/// The standard encoding has four symbols for every started group of three
/// bytes, each a symbol of the alphabet or the padding `=`.
pub proof fn lemma_base64_encoded_shape(data: Seq<u8>)
    ensures
        base64_encoded(data).len() == 4 * ((data.len() + 2) / 3),
        forall|i: int|
            0 <= i < base64_encoded(data).len() ==> is_base64_symbol(
                #[trigger] base64_encoded(data)[i],
            ),
    decreases data.len(),
{
    reveal(base64_encoded);
    let e = base64_encoded(data);
    if data.len() == 0 {
    } else if data.len() == 1 {
        let a = data[0] as int;
        lemma_base64_symbol(a / 4);
        lemma_base64_symbol((a % 4) * 16);
        assert forall|i: int| 0 <= i < e.len() implies is_base64_symbol(#[trigger] e[i]) by {}
    } else if data.len() == 2 {
        let a = data[0] as int;
        let b = data[1] as int;
        lemma_base64_symbol(a / 4);
        lemma_base64_symbol((a % 4) * 16 + b / 16);
        lemma_base64_symbol((b % 16) * 4);
        assert forall|i: int| 0 <= i < e.len() implies is_base64_symbol(#[trigger] e[i]) by {}
    } else {
        let a = data[0] as int;
        let b = data[1] as int;
        let c = data[2] as int;
        lemma_base64_symbol(a / 4);
        lemma_base64_symbol((a % 4) * 16 + b / 16);
        lemma_base64_symbol((b % 16) * 4 + c / 64);
        lemma_base64_symbol(c % 64);
        let tail = data.skip(3);
        lemma_base64_encoded_shape(tail);
        let head = seq![
            base64_symbol(a / 4),
            base64_symbol((a % 4) * 16 + b / 16),
            base64_symbol((b % 16) * 4 + c / 64),
            base64_symbol(c % 64),
        ];
        assert(e == head + base64_encoded(tail));
        assert forall|i: int| 0 <= i < e.len() implies is_base64_symbol(#[trigger] e[i]) by {
            if i >= 4 {
                assert(e[i] == base64_encoded(tail)[i - 4]);
            }
        }
    }
}

proof fn lemma_base64_symbol_injective(v: int, w: int)
    requires
        0 <= v < 64,
        0 <= w < 64,
        base64_symbol(v) == base64_symbol(w),
    ensures
        v == w,
{
}

proof fn lemma_group_bytes(a: int, b: int, c: int, a2: int, b2: int, c2: int)
    requires
        0 <= a < 256,
        0 <= b < 256,
        0 <= c < 256,
        0 <= a2 < 256,
        0 <= b2 < 256,
        0 <= c2 < 256,
        a / 4 == a2 / 4,
        (a % 4) * 16 + b / 16 == (a2 % 4) * 16 + b2 / 16,
        (b % 16) * 4 + c / 64 == (b2 % 16) * 4 + c2 / 64,
        c % 64 == c2 % 64,
    ensures
        a == a2,
        b == b2,
        c == c2,
{
    assert(a % 4 == a2 % 4 && b / 16 == b2 / 16);
    assert(b % 16 == b2 % 16 && c / 64 == c2 / 64);
}

proof fn lemma_group_lengths(a: Seq<u8>, b: Seq<u8>)
    requires
        a.len() > 0,
        b.len() > 0,
        base64_encoded(a) == base64_encoded(b),
    ensures
        (a.len() == 1) == (b.len() == 1),
        (a.len() == 2) == (b.len() == 2),
{
    let e = base64_encoded(a);
    let x = a[0] as int;
    let y = b[0] as int;
    lemma_base64_shape_head(a);
    lemma_base64_shape_head(b);
}

/// The third symbol is `=` exactly for a one-byte last group, the fourth
/// exactly for a group of fewer than three bytes.
proof fn lemma_base64_shape_head(d: Seq<u8>)
    requires
        d.len() > 0,
    ensures
        base64_encoded(d).len() >= 4,
        (base64_encoded(d)[2] == 0x3d) == (d.len() == 1),
        (base64_encoded(d)[3] == 0x3d) == (d.len() <= 2),
{
    reveal(base64_encoded);
    lemma_base64_encoded_shape(d);
    if d.len() == 2 {
        let b = d[1] as int;
        assert(0 <= (b % 16) * 4 < 64);
    } else if d.len() >= 3 {
        let b = d[1] as int;
        let c = d[2] as int;
        assert(0 <= (b % 16) * 4 + c / 64 < 64);
        assert(0 <= c % 64 < 64);
        let tail = base64_encoded(d.skip(3));
        assert(base64_encoded(d)[2] == base64_symbol((b % 16) * 4 + c / 64));
        assert(base64_encoded(d)[3] == base64_symbol(c % 64));
    }
}

/// Different byte sequences have different standard encodings.
pub proof fn lemma_base64_injective(a: Seq<u8>, b: Seq<u8>)
    requires
        base64_encoded(a) == base64_encoded(b),
    ensures
        a == b,
    decreases a.len(),
{
    reveal(base64_encoded);
    lemma_base64_encoded_shape(a);
    lemma_base64_encoded_shape(b);
    if a.len() == 0 || b.len() == 0 {
        assert(a.len() == 0 && b.len() == 0);
        assert(a =~= b);
    } else {
        lemma_group_lengths(a, b);
        let e = base64_encoded(a);
        let f = base64_encoded(b);
        let a0 = a[0] as int;
        let b0 = b[0] as int;
        if a.len() == 1 {
            assert(e[0] == base64_symbol(a0 / 4) && f[0] == base64_symbol(b0 / 4));
            assert(e[1] == base64_symbol((a0 % 4) * 16) && f[1] == base64_symbol((b0 % 4) * 16));
            lemma_base64_symbol_injective(a0 / 4, b0 / 4);
            lemma_base64_symbol_injective((a0 % 4) * 16, (b0 % 4) * 16);
            lemma_group_bytes(a0, 0, 0, b0, 0, 0);
            assert(a =~= b);
        } else if a.len() == 2 {
            let a1 = a[1] as int;
            let b1 = b[1] as int;
            assert(e[0] == base64_symbol(a0 / 4) && f[0] == base64_symbol(b0 / 4));
            assert(e[1] == base64_symbol((a0 % 4) * 16 + a1 / 16) && f[1] == base64_symbol(
                (b0 % 4) * 16 + b1 / 16,
            ));
            assert(e[2] == base64_symbol((a1 % 16) * 4) && f[2] == base64_symbol((b1 % 16) * 4));
            lemma_base64_symbol_injective(a0 / 4, b0 / 4);
            lemma_base64_symbol_injective((a0 % 4) * 16 + a1 / 16, (b0 % 4) * 16 + b1 / 16);
            lemma_base64_symbol_injective((a1 % 16) * 4, (b1 % 16) * 4);
            lemma_group_bytes(a0, a1, 0, b0, b1, 0);
            assert(a =~= b);
        } else {
            let a1 = a[1] as int;
            let b1 = b[1] as int;
            let a2 = a[2] as int;
            let b2 = b[2] as int;
            let ha = seq![
                base64_symbol(a0 / 4),
                base64_symbol((a0 % 4) * 16 + a1 / 16),
                base64_symbol((a1 % 16) * 4 + a2 / 64),
                base64_symbol(a2 % 64),
            ];
            let hb = seq![
                base64_symbol(b0 / 4),
                base64_symbol((b0 % 4) * 16 + b1 / 16),
                base64_symbol((b1 % 16) * 4 + b2 / 64),
                base64_symbol(b2 % 64),
            ];
            let ta = base64_encoded(a.skip(3));
            let tb = base64_encoded(b.skip(3));
            assert(e == ha + ta);
            assert(f == hb + tb);
            assert(e[0] == ha[0] && e[1] == ha[1] && e[2] == ha[2] && e[3] == ha[3]);
            assert(f[0] == hb[0] && f[1] == hb[1] && f[2] == hb[2] && f[3] == hb[3]);
            lemma_base64_symbol_injective(a0 / 4, b0 / 4);
            lemma_base64_symbol_injective((a0 % 4) * 16 + a1 / 16, (b0 % 4) * 16 + b1 / 16);
            lemma_base64_symbol_injective((a1 % 16) * 4 + a2 / 64, (b1 % 16) * 4 + b2 / 64);
            lemma_base64_symbol_injective(a2 % 64, b2 % 64);
            lemma_group_bytes(a0, a1, a2, b0, b1, b2);
            assert(ta =~= e.skip(4));
            assert(tb =~= f.skip(4));
            lemma_base64_injective(a.skip(3), b.skip(3));
            assert(a.len() == b.len());
            assert forall|i: int| 0 <= i < a.len() implies a[i] == b[i] by {
                if i >= 3 {
                    assert(a[i] == a.skip(3)[i - 3]);
                    assert(b[i] == b.skip(3)[i - 3]);
                }
            }
            assert(a =~= b);
        }
    }
}

/// The standard decoder gives back what the standard encoder wrote.
pub proof fn lemma_base64_roundtrip(d: Seq<u8>)
    ensures
        base64_decoded(base64_encoded(d)) == Some(d),
{
    reveal(base64_decoded);
    let t = base64_encoded(d);
    assert(exists|x: Seq<u8>| base64_encoded(x) == t);
    let c = choose|x: Seq<u8>| base64_encoded(x) == t;
    lemma_base64_injective(c, d);
}

/// A decoded text holds at least as many symbols as it gives bytes.
pub proof fn lemma_base64_decoded_len(t: Seq<u8>)
    ensures
        base64_decoded(t) matches Some(d) ==> d.len() <= t.len(),
{
    reveal(base64_decoded);
    if let Some(d) = base64_decoded(t) {
        lemma_base64_encoded_shape(d);
    }
}

#[verifier::external_type_specification]
#[verifier::external_body]
pub struct ExDecodeError(base64::DecodeError);

/// Calls `crc::Crc::<u16>::checksum` on a `Crc` made from
/// `crc::CRC_16_XMODEM`. Claimed: the result is the CRC-16/XMODEM of `data`
/// as `crc16_xmodem` states it from the catalog's parameters.
#[verifier::external_body]
pub(crate) fn crc16_checksum(data: &[u8]) -> (r: u16)
    ensures
        r == crc16_xmodem(data@),
{
    crc::Crc::<u16>::new(&crc::CRC_16_XMODEM).checksum(data)
}

/// Calls `base64::Engine::encode` of `base64::prelude::BASE64_STANDARD`
/// and returns the bytes of the text. Claimed, as the crate's source shows:
/// the text is the standard padded encoding `base64_encoded`.
#[verifier::external_body]
pub(crate) fn base64_encode(data: &[u8]) -> (r: Vec<u8>)
    requires
        data@.len() <= 0x1000_0000,
    ensures
        r@ == base64_encoded(data@),
{
    base64::prelude::BASE64_STANDARD.encode(data).into_bytes()
}

/// Calls `base64::Engine::decode` of `base64::prelude::BASE64_STANDARD`.
/// Claimed: it succeeds exactly when the text is a standard padded encoding
/// (`base64_decoded` is defined), and then returns the encoded bytes.
#[verifier::external_body]
pub(crate) fn base64_decode(text: &[u8]) -> (r: Result<Vec<u8>, base64::DecodeError>)
    ensures
        match r {
            Ok(v) => base64_decoded(text@) == Some(v@),
            Err(_) => base64_decoded(text@) is None,
        },
{
    base64::prelude::BASE64_STANDARD.decode(text)
}

/// Calls `sha2::Sha256::digest`. Claimed: the result is the named digest of
/// `data`, 32 bytes long.
#[verifier::external_body]
pub(crate) fn sha256_digest(data: &[u8]) -> (r: [u8; 32])
    ensures
        r@ == sha256(data@),
{
    sha2::Sha256::digest(data).into()
}

} // verus!
