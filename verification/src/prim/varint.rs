//! Protocol buffer varints:
//! https://developers.google.com/protocol-buffers/docs/encoding#varints
use vstd::prelude::*;
use vstd::arithmetic::power2::*;

use crate::error::{fails_with, ErrorKind, FormatContext, FormatError};
use crate::prim::write::Cursor as WriteCursor;

verus! {

/// Decodes the rest of a varint whose first bytes have already been folded
/// into `acc`, the next byte standing at bit offset `shift`.
///
/// The low seven bits of every byte are placed at the next seven bits of the
/// result; a byte below `0x80` ends the varint. Bits shifted past the 64 bits
/// of a `u64` are dropped, and a byte that would start at bit 64 or later is
/// an error.
pub open spec fn varint_decode_from(s: Seq<u8>, shift: u64, acc: u64) -> Result<(u64, nat), ErrorKind>
    decreases s.len(),
{
    if s.len() == 0 {
        Err(ErrorKind::VarintUnexpectedEof)
    } else if s[0] < 128 {
        if shift >= 64 {
            Err(ErrorKind::VarintTooManyContinuationBytes)
        } else {
            Ok((acc | ((s[0] as u64) << shift), 1))
        }
    } else if shift >= 64 {
        Err(ErrorKind::VarintTooManyBytes)
    } else {
        match varint_decode_from(s.drop_first(), (shift + 7) as u64, acc | (((s[0] & 127u8) as u64) << shift)) {
            Ok((v, n)) => Ok((v, n + 1)),
            Err(k) => Err(k),
        }
    }
}

/// The varint at the start of `s`: its value and the number of bytes it
/// occupies, or the reason why `s` does not start with one.
pub open spec fn varint_decode(s: Seq<u8>) -> Result<(u64, nat), ErrorKind> {
    if s.len() == 0 {
        Err(ErrorKind::VarintEmpty)
    } else {
        varint_decode_from(s, 0, 0)
    }
}

/// The varint encoding of `n`: seven bits per byte, least significant group
/// first, with the high bit set on every byte but the last.
pub open spec fn varint_encode(n: u64) -> Seq<u8>
    decreases n,
{
    if n < 128 {
        seq![n as u8]
    } else {
        proof {
            assert(n >= 128 ==> (n >> 7) < n) by (bit_vector);
        }
        seq![(n as u8) | 128u8] + varint_encode(n >> 7)
    }
}

/// The low `shift` bits of `n`.
pub open spec fn low_bits(n: u64, shift: u64) -> u64 {
    n & !(0xffff_ffff_ffff_ffffu64 << shift)
}

proof fn lemma_decode_encode_from(n: u64, shift: u64, rest: Seq<u8>)
    requires
        shift < 64,
    ensures
        varint_decode_from(varint_encode(n >> shift) + rest, shift, low_bits(n, shift))
            == Ok::<(u64, nat), ErrorKind>((n, varint_encode(n >> shift).len())),
    decreases 64 - shift,
{
    let m = n >> shift;
    let s = varint_encode(m) + rest;
    if m < 128 {
        assert(s[0] == m as u8);
        assert(shift < 64 && m == n >> shift && m < 128 ==> (n & !(0xffff_ffff_ffff_ffffu64 << shift))
            | (((m as u8) as u64) << shift) == n) by (bit_vector);
    } else {
        let b = (m as u8) | 128u8;
        assert(shift < 64 && m == n >> shift && m >= 128 ==> {
            &&& shift + 7 < 64
            &&& m >> 7 == n >> ((shift + 7) as u64)
            &&& ((m as u8) | 128u8) >= 128
            &&& (n & !(0xffff_ffff_ffff_ffffu64 << shift)) | (((((m as u8) | 128u8) & 127u8) as u64)
                << shift) == n & !(0xffff_ffff_ffff_ffffu64 << ((shift + 7) as u64))
        }) by (bit_vector);
        let next = (shift + 7) as u64;
        assert(s[0] == b);
        assert(s.drop_first() =~= varint_encode(n >> next) + rest);
        lemma_decode_encode_from(n, next, rest);
    }
}

/// A varint takes one byte for every seven bits of its value, and at least
/// one: the number of its bytes is the least `k >= 1` with `n < 2^(7k)`,
/// which is at most ten for a `u64`.
pub proof fn lemma_varint_len(n: u64)
    ensures
        1 <= varint_encode(n).len() <= 10,
        n < pow2((7 * varint_encode(n).len()) as nat),
        varint_encode(n).len() > 1 ==> pow2((7 * (varint_encode(n).len() - 1)) as nat) <= n,
    decreases n,
{
    lemma2_to64();
    lemma2_to64_rest();
    if n >= 128 {
        let m = n >> 7;
        assert(n >= 128 ==> m < n && m == n / 128 && m < 0x200_0000_0000_0000) by (bit_vector)
            requires
                m == n >> 7,
        ;
        lemma_varint_len(m);
        let k = varint_encode(m).len();
        assert(varint_encode(n) == seq![(n as u8) | 128u8] + varint_encode(m));
        assert(varint_encode(n).len() == k + 1);
        lemma_pow2_adds(7, (7 * k) as nat);
        assert((7 * (k + 1)) as nat == 7 + (7 * k) as nat);
        let p = pow2((7 * k) as nat);
        assert(n < 128 * p) by (nonlinear_arith)
            requires
                m < p,
                m == n / 128,
        ;
        if k > 1 {
            let p1 = pow2((7 * (k - 1)) as nat);
            lemma_pow2_adds(7, (7 * (k - 1)) as nat);
            assert((7 * k) as nat == 7 + (7 * (k - 1)) as nat);
            assert(128 * p1 <= n) by (nonlinear_arith)
                requires
                    p1 <= m,
                    m == n / 128,
            ;
            if k == 10 {
                assert(pow2(63) <= m);
                assert(false);
            }
        }
    }
}

/// Bit `j` of the value of a varint whose bytes are the first `k` of `s`:
/// bit `j % 7` of byte `j / 7`, and nothing beyond those bytes.
pub open spec fn varint_bits(v: u64, s: Seq<u8>, k: int) -> bool {
    forall|j: u64|
        j < 64 ==> #[trigger] ((v >> j) & 1) == if (j / 7) < k {
            ((s[(j / 7) as int] as u64) >> (j % 7)) & 1
        } else {
            0
        }
}

/// Or-ing seven bits `b` in at bit `sh` sets bit `j` exactly where `b` has
/// bit `j - sh`.
proof fn lemma_bit_or_shift(acc: u64, b: u64, sh: u64, j: u64)
    requires
        b < 128,
        sh < 64,
        j < 64,
    ensures
        ((acc | (b << sh)) >> j) & 1 == ((acc >> j) & 1) | (if sh <= j && j < sh + 7 {
            (b >> ((j - sh) as u64)) & 1
        } else {
            0
        }),
{
    assert(b < 128 && sh < 64 && j < 64 ==> ((acc | (b << sh)) >> j) & 1 == ((acc >> j) & 1) | (if sh <= j && j
        < sh + 7 {
        (b >> ((j - sh) as u64)) & 1
    } else {
        0
    })) by (bit_vector);
}

proof fn lemma_decode_from_bits(s: Seq<u8>, i: nat, acc: u64)
    requires
        i <= 10,
        i <= s.len(),
        varint_bits(acc, s, i as int),
        forall|t: int| 0 <= t < i ==> #[trigger] s[t] >= 128,
    ensures
        match varint_decode_from(s.skip(i as int), (7 * i) as u64, acc) {
            Ok((v, k)) => {
                &&& i + k <= 10
                &&& i + k <= s.len()
                &&& k >= 1
                &&& s[i + k - 1] < 128
                &&& forall|t: int| 0 <= t < i + k - 1 ==> #[trigger] s[t] >= 128
                &&& varint_bits(v, s, (i + k) as int)
            },
            Err(e) => {
                &&& forall|t: int| 0 <= t < s.len() && t < 10 ==> #[trigger] s[t] >= 128
                &&& e == if s.len() <= 10 {
                    ErrorKind::VarintUnexpectedEof
                } else if s[10] < 128 {
                    ErrorKind::VarintTooManyContinuationBytes
                } else {
                    ErrorKind::VarintTooManyBytes
                }
            },
        },
    decreases s.len() - i,
{
    let rest = s.skip(i as int);
    let sh = (7 * i) as u64;
    if i < s.len() {
        let b = s[i as int];
        assert(rest[0] == b);
        if i < 10 {
            let c: u8 = if b < 128 {
                b
            } else {
                b & 127u8
            };
            assert(c < 128) by (bit_vector)
                requires
                    c == if b < 128 {
                        b
                    } else {
                        b & 127u8
                    },
            ;
            let acc2 = acc | ((c as u64) << sh);
            assert(varint_bits(acc2, s, (i + 1) as int)) by {
                assert forall|j: u64| j < 64 implies #[trigger] ((acc2 >> j) & 1) == if (j / 7) < i + 1 {
                    ((s[(j / 7) as int] as u64) >> (j % 7)) & 1
                } else {
                    0
                } by {
                    lemma_bit_or_shift(acc, c as u64, sh, j);
                    assert(((acc >> j) & 1) == if (j / 7) < i {
                        ((s[(j / 7) as int] as u64) >> (j % 7)) & 1
                    } else {
                        0
                    });
                    if sh <= j && j < sh + 7 {
                        let r = (j - sh) as u64;
                        assert(r < 7 ==> ((c as u64) >> r) & 1 == ((b as u64) >> r) & 1) by (bit_vector)
                            requires
                                c == if b < 128 {
                                    b
                                } else {
                                    b & 127u8
                                },
                        ;
                        assert(j / 7 == i);
                        assert(j % 7 == j - sh);
                        assert(((acc >> j) & 1) == 0);
                        assert(0u64 | ((c as u64) >> ((j - sh) as u64)) & 1 == ((c as u64) >> ((j - sh) as u64)) & 1)
                            by (bit_vector);
                    } else {
                        assert(j / 7 != i);
                        assert(((acc >> j) & 1) | 0 == ((acc >> j) & 1)) by (bit_vector);
                    }
                }
            }
            if b < 128 {
                assert(acc2 == acc | ((rest[0] as u64) << sh));
            } else {
                assert(acc2 == acc | (((rest[0] & 127u8) as u64) << sh));
                assert(rest.drop_first() =~= s.skip((i + 1) as int));
                assert((7 * (i + 1)) as u64 == (sh + 7) as u64);
                lemma_decode_from_bits(s, i + 1, acc2);
            }
        }
    } else {
        assert(rest.len() == 0);
    }
}

/// Decoding a varint: it ends at the first byte below `0x80`, which must
/// come within the first ten bytes, and bit `j` of its value is bit `j % 7`
/// of its byte `j / 7`. Without such a byte, decoding fails: on no bytes,
/// on bytes that end first, or on an eleventh byte, which ends the varint
/// too late or continues it.
pub proof fn lemma_varint_decode_bits(s: Seq<u8>)
    ensures
        varint_decode(s) is Ok <==> exists|k: int| 0 <= k < 10 && k < s.len() && #[trigger] s[k] < 128,
        varint_decode(s) matches Ok((v, k)) ==> {
            &&& 1 <= k <= 10
            &&& k <= s.len()
            &&& s[k - 1] < 128
            &&& forall|i: int| 0 <= i < k - 1 ==> #[trigger] s[i] >= 128
            &&& forall|j: u64|
                j < 64 ==> #[trigger] ((v >> j) & 1) == if (j / 7) < k {
                    ((s[(j / 7) as int] as u64) >> (j % 7)) & 1
                } else {
                    0
                }
        },
        varint_decode(s) matches Err(e) ==> e == if s.len() == 0 {
            ErrorKind::VarintEmpty
        } else if s.len() <= 10 {
            ErrorKind::VarintUnexpectedEof
        } else if s[10] < 128 {
            ErrorKind::VarintTooManyContinuationBytes
        } else {
            ErrorKind::VarintTooManyBytes
        },
{
    if s.len() > 0 {
        assert(varint_bits(0, s, 0)) by {
            assert forall|j: u64| j < 64 implies #[trigger] ((0u64 >> j) & 1) == 0 by {
                assert((0u64 >> j) & 1 == 0) by (bit_vector);
            }
        }
        assert(s.skip(0) =~= s);
        lemma_decode_from_bits(s, 0, 0);
        if let Ok((v, k)) = varint_decode(s) {
            assert(s[k - 1] < 128);
        }
    }
}

/// Every byte of the varint of `n` carries the next seven bits of `n`,
/// least significant first, and has its high bit set exactly when more
/// bytes follow.
pub proof fn lemma_varint_encode_bytes(n: u64)
    ensures
        forall|i: int|
            0 <= i < varint_encode(n).len() ==> {
                &&& #[trigger] varint_encode(n)[i] & 127u8 == ((n >> ((7 * i) as u64)) & 127u64) as u8
                &&& (varint_encode(n)[i] >= 128u8 <==> i + 1 < varint_encode(n).len())
            },
    decreases n,
{
    lemma_varint_len(n);
    if n < 128 {
        assert(n < 128 ==> (n as u8) & 127u8 == ((n >> 0u64) & 127u64) as u8 && (n as u8) < 128u8) by (bit_vector);
    } else {
        let m = n >> 7;
        assert(n >= 128 ==> m < n) by (bit_vector)
            requires
                m == n >> 7,
        ;
        lemma_varint_encode_bytes(m);
        lemma_varint_len(m);
        let e = varint_encode(n);
        let em = varint_encode(m);
        assert(e == seq![(n as u8) | 128u8] + em);
        assert forall|i: int| 0 <= i < e.len() implies {
            &&& #[trigger] e[i] & 127u8 == ((n >> ((7 * i) as u64)) & 127u64) as u8
            &&& (e[i] >= 128u8 <==> i + 1 < e.len())
        } by {
            if i == 0 {
                assert(((n as u8) | 128u8) & 127u8 == ((n >> 0u64) & 127u64) as u8 && ((n as u8) | 128u8) >= 128u8)
                    by (bit_vector);
            } else {
                assert(e[i] == em[i - 1]);
                let sh = (7 * (i - 1)) as u64;
                assert(sh <= 56);
                assert(sh <= 56 ==> (n >> 7u64) >> sh == n >> ((sh + 7) as u64)) by (bit_vector);
                assert((7 * i) as u64 == (sh + 7) as u64);
            }
        }
    }
}

/// Decoding the encoding of `n`, whatever bytes follow it, gives back `n`
/// and the length of the encoding.
pub proof fn lemma_varint_roundtrip(n: u64, rest: Seq<u8>)
    ensures
        varint_decode(varint_encode(n) + rest) == Ok::<(u64, nat), ErrorKind>((n, varint_encode(n).len())),
{
    assert(n >> 0u64 == n && n & !(0xffff_ffff_ffff_ffffu64 << 0u64) == 0) by (bit_vector);
    lemma_decode_encode_from(n, 0, rest);
    assert((varint_encode(n) + rest).len() > 0);
}

proof fn lemma_decode_from_len(s: Seq<u8>, shift: u64, acc: u64)
    ensures
        varint_decode_from(s, shift, acc) matches Ok((v, k)) ==> 1 <= k <= s.len(),
    decreases s.len(),
{
    if s.len() > 0 && s[0] >= 128 && shift < 64 {
        lemma_decode_from_len(s.drop_first(), (shift + 7) as u64, acc | (((s[0] & 127u8) as u64) << shift));
    }
}

/// A varint occupies at least one byte, and no more bytes than there are.
pub proof fn lemma_decode_len(s: Seq<u8>)
    ensures
        varint_decode(s) matches Ok((v, k)) ==> 1 <= k <= s.len(),
{
    if s.len() > 0 {
        lemma_decode_from_len(s, 0, 0);
    }
}

/// Read a varint from the beginning of `bytes`, returning its value and the
/// number of bytes it occupies.
pub fn read_u64(bytes: &[u8]) -> (r: Result<(u64, usize), FormatError>)
    ensures
        match varint_decode(bytes@) {
            Ok((v, n)) => r matches Ok((v2, n2)) && v2 == v && n2 == n,
            Err(k) => fails_with(r, k, Seq::empty()),
        },
{
    if bytes.len() == 0 {
        return Err(FormatError::from_kind(ErrorKind::VarintEmpty));
    }
    let mut n: u64 = 0;
    let mut shift: u64 = 0;
    let mut i: usize = 0;
    assert(bytes@.skip(0) =~= bytes@);
    while i < bytes.len()
        invariant
            0 < bytes@.len(),
            i <= bytes@.len(),
            shift == 7 * i,
            shift < 64 + 7,
            match varint_decode_from(bytes@.skip(i as int), shift, n) {
                Ok((v, k)) => varint_decode(bytes@) == Ok::<(u64, nat), ErrorKind>((v, k + i as nat)),
                Err(e) => varint_decode(bytes@) == Err::<(u64, nat), ErrorKind>(e),
            },
        decreases bytes.len() - i,
    {
        let b = bytes[i];
        proof {
            assert(bytes@.skip(i as int)[0] == b);
            assert(bytes@.skip(i as int).drop_first() =~= bytes@.skip(i + 1));
        }
        if b < 0b1000_0000 {
            if shift >= 64 {
                return Err(FormatError::from_kind(ErrorKind::VarintTooManyContinuationBytes));
            }
            return Ok((n | ((b as u64) << shift), i + 1));
        }
        if shift >= 64 {
            return Err(FormatError::from_kind(ErrorKind::VarintTooManyBytes));
        }
        n = n | (((b & 0b0111_1111) as u64) << shift);
        shift = shift + 7;
        i = i + 1;
    }
    proof {
        assert(bytes@.skip(i as int).len() == 0);
    }
    Err(FormatError::from_kind(ErrorKind::VarintUnexpectedEof))
}

/// Write the varint encoding of `n` to `wtr`, one byte at a time, and
/// return the number of bytes written.
///
/// This fails only when the position of the cursor would overflow; the
/// bytes up to and including the one that failed have then reached the
/// buffer.
pub fn write_u64(wtr: &mut WriteCursor, n: u64) -> (r: Result<usize, FormatError>)
    ensures
        r is Ok <==> old(wtr).position() + varint_encode(n).len() <= usize::MAX,
        r matches Ok(count) ==> {
            &&& count == varint_encode(n).len()
            &&& final(wtr).buffer() == old(wtr).buffer() + varint_encode(n)
            &&& final(wtr).position() == old(wtr).position() + count
        },
        r is Err ==> {
            let written = (usize::MAX - old(wtr).position() + 1) as int;
            &&& fails_with(r, ErrorKind::PositionOverflow { pos: usize::MAX, amount: 1 }, seq![
                if written == varint_encode(n).len() {
                    "failed to write final varint byte"@
                } else {
                    "failed to write varint continuation byte"@
                },
            ])
            &&& final(wtr).buffer() == old(wtr).buffer() + varint_encode(n).take(written)
            &&& final(wtr).position() == usize::MAX
        },
{
    let mut m = n;
    let mut i: usize = 0;
    let ghost mut written: Seq<u8> = Seq::empty();
    while m >= 0b1000_0000
        invariant
            varint_encode(n) == written + varint_encode(m),
            wtr.buffer() == old(wtr).buffer() + written,
            wtr.position() == old(wtr).position() + written.len(),
            i == written.len(),
        decreases m,
    {
        let byte: u8 = (#[verifier::truncate] (m as u8)) | 0b1000_0000;
        let bytes = [byte];
        assert(bytes@ =~= seq![byte]);
        let res = wtr.write_all(&bytes).context("failed to write varint continuation byte".to_owned());
        proof {
            assert(varint_encode(m) =~= seq![byte] + varint_encode(m >> 7));
            assert(varint_encode(n) =~= (written + seq![byte]) + varint_encode(m >> 7));
        }
        if let Err(e) = res {
            assert(old(wtr).position() + written.len() + 1 > usize::MAX);
            assert(varint_encode(n).len() > written.len() + 1) by {
                assert(varint_encode(m >> 7).len() > 0);
            }
            assert(varint_encode(n).take(written.len() + 1int) =~= written + seq![byte]);
            assert(e.message_chain() =~= seq![(ErrorKind::PositionOverflow { pos: usize::MAX, amount: 1 }).text()]
                + seq!["failed to write varint continuation byte"@]);
            return Err(e);
        }
        proof {
            written = written + seq![byte];
        }
        assert(m >= 128 ==> (m >> 7) < m) by (bit_vector);
        m = m >> 7;
        i = i + 1;
    }
    let byte: u8 = m as u8;
    let bytes = [byte];
    assert(bytes@ =~= seq![byte]);
    let res = wtr.write_all(&bytes).context("failed to write final varint byte".to_owned());
    proof {
        assert(varint_encode(m) =~= seq![byte]);
    }
    match res {
        Err(e) => {
            assert(varint_encode(n).take(written.len() + 1int) =~= written + seq![byte]);
            assert(varint_encode(n) =~= written + seq![byte]);
            assert(e.message_chain() =~= seq![(ErrorKind::PositionOverflow { pos: usize::MAX, amount: 1 }).text()]
                + seq!["failed to write final varint byte"@]);
            Err(e)
        },
        Ok(()) => {
            assert(varint_encode(n) =~= written + seq![byte]);
            Ok(i + 1)
        },
    }
}

} // verus!
