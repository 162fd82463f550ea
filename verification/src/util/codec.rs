//! Byte codecs: big-endian integers and the order-keeping encoding of keys.

use byteorder::{BigEndian, ByteOrder};
use vstd::prelude::*;

verus! {

/// What can go wrong while decoding.
#[derive(Clone, Copy, Debug, PartialEq, Eq, Structural)]
pub enum Error {
    /// The input ends before the value does.
    KeyLength,
    /// A group of an encoded key carries a wrong marker or padding.
    KeyPadding,
}

/// Length of an encoded `u64`.
pub const U64_SIZE: usize = 8;

/// Length of a group of the key encoding, without its marker.
pub const ENC_GROUP_SIZE: usize = 8;

/// Marker of a full group that is followed by another.
pub const ENC_MARKER: u8 = 0xFF;

/// The byte that fills the last group.
pub const ENC_PAD: u8 = 0x0;

/// The number that a byte string stands for when its first byte is the most significant.
pub open spec fn be_value(s: Seq<u8>) -> nat
    decreases s.len(),
{
    if s.len() == 0 {
        0
    } else {
        be_value(s.drop_last()) * 256 + s.last() as nat
    }
}

/// The `len` low bytes of `n`, most significant first.
pub open spec fn be_seq(n: nat, len: nat) -> Seq<u8>
    decreases len,
{
    if len == 0 {
        Seq::<u8>::empty()
    } else {
        be_seq(n / 256, (len - 1) as nat).push((n % 256) as u8)
    }
}

/// The eight bytes of `n`, most significant first.
pub open spec fn be_bytes(n: u64) -> Seq<u8> {
    be_seq(n as nat, 8)
}

/// The number whose big-endian form is the first eight bytes of `s`.
pub open spec fn be_u64(s: Seq<u8>) -> u64 {
    be_value(s.subrange(0, 8)) as u64
}

/// The first number that `len` bytes cannot hold.
pub open spec fn be_limit(len: nat) -> nat
    decreases len,
{
    if len == 0 {
        1
    } else {
        256 * be_limit((len - 1) as nat)
    }
}

proof fn lemma_be_seq_len(n: nat, len: nat)
    ensures
        be_seq(n, len).len() == len,
    decreases len,
{
    if len > 0 {
        lemma_be_seq_len(n / 256, (len - 1) as nat);
    }
}

proof fn lemma_be_value_bound(s: Seq<u8>)
    ensures
        be_value(s) < be_limit(s.len()),
    decreases s.len(),
{
    if s.len() > 0 {
        lemma_be_value_bound(s.drop_last());
    }
}

proof fn lemma_be_value_of_seq(n: nat, len: nat)
    requires
        n < be_limit(len),
    ensures
        be_value(be_seq(n, len)) == n,
    decreases len,
{
    if len > 0 {
        lemma_be_value_of_seq(n / 256, (len - 1) as nat);
        lemma_be_seq_len(n / 256, (len - 1) as nat);
        let s = be_seq(n, len);
        assert(s.drop_last() =~= be_seq(n / 256, (len - 1) as nat));
    }
}

proof fn lemma_be_seq_of_value(s: Seq<u8>)
    ensures
        be_seq(be_value(s), s.len()) == s,
    decreases s.len(),
{
    if s.len() > 0 {
        lemma_be_seq_of_value(s.drop_last());
        assert(be_seq(be_value(s), s.len()) =~= s);
    }
}

proof fn lemma_be_limit_8()
    ensures
        be_limit(8) == 0x1_0000_0000_0000_0000,
{
    reveal_with_fuel(be_limit, 10);
}

/// Decoding undoes encoding.
pub proof fn lemma_be_roundtrip(n: u64)
    ensures
        be_bytes(n).len() == 8,
        be_u64(be_bytes(n)) == n,
{
    lemma_be_limit_8();
    lemma_be_seq_len(n as nat, 8);
    lemma_be_value_of_seq(n as nat, 8);
    assert(be_bytes(n).subrange(0, 8) =~= be_bytes(n));
}

/// Encoding undoes decoding.
pub proof fn lemma_be_bytes_of_value(s: Seq<u8>)
    requires
        s.len() == 8,
    ensures
        be_bytes(be_u64(s)) == s,
{
    lemma_be_limit_8();
    lemma_be_value_bound(s);
    lemma_be_seq_of_value(s);
    assert(s.subrange(0, 8) =~= s);
}

proof fn lemma_lex_last(a: Seq<u8>, b: Seq<u8>, i: int)
    requires
        a.len() == b.len(),
        a.len() > 0,
        0 <= i < a.len(),
        crate::util::order::agree_before(a, b, i),
    ensures
        crate::util::order::lex_lt_from(a, b, i) == (crate::util::order::lex_lt_from(
            a.drop_last(),
            b.drop_last(),
            i,
        ) || (a.drop_last() == b.drop_last() && a.last() < b.last())),
    decreases a.len() - i,
{
    let a0 = a.drop_last();
    let b0 = b.drop_last();
    reveal_with_fuel(crate::util::order::lex_lt_from, 3);
    if i == a.len() - 1 {
        assert(a0 =~= b0);
    } else {
        assert(a0[i] == a[i]);
        assert(b0[i] == b[i]);
        if a[i] == b[i] {
            lemma_lex_last(a, b, i + 1);
        } else {
            assert(a0 != b0);
        }
    }
}

proof fn lemma_be_value_order(a: Seq<u8>, b: Seq<u8>)
    requires
        a.len() == b.len(),
    ensures
        crate::util::order::lex_lt(a, b) == (be_value(a) < be_value(b)),
        (a == b) == (be_value(a) == be_value(b)),
    decreases a.len(),
{
    if a.len() == 0 {
        assert(a =~= b);
    } else {
        lemma_be_value_order(a.drop_last(), b.drop_last());
        lemma_lex_last(a, b, 0);
        if a.drop_last() == b.drop_last() && a.last() == b.last() {
            assert(a =~= a.drop_last().push(a.last()));
            assert(b =~= b.drop_last().push(b.last()));
        }
    }
}

/// Big-endian byte strings are ordered as the numbers they stand for.
pub proof fn lemma_be_order(a: u64, b: u64)
    ensures
        crate::util::order::lex_lt(be_bytes(a), be_bytes(b)) == (a < b),
        crate::util::order::lex_le(be_bytes(a), be_bytes(b)) == (a <= b),
{
    lemma_be_limit_8();
    lemma_be_seq_len(a as nat, 8);
    lemma_be_seq_len(b as nat, 8);
    lemma_be_value_of_seq(a as nat, 8);
    lemma_be_value_of_seq(b as nat, 8);
    lemma_be_value_order(be_bytes(a), be_bytes(b));
}

/// `byteorder::BigEndian::read_u64`: reads the first eight bytes of `buf` as a big-endian
/// number. It panics on a shorter buffer, which `requires` leaves out.
#[verifier::external_body]
fn read_u64_be(buf: &[u8]) -> (n: u64)
    requires
        buf@.len() >= 8,
    ensures
        n == be_u64(buf@.subrange(0, 8)),
{
    BigEndian::read_u64(buf)
}

/// `byteorder::BigEndian::write_u64`: overwrites the first eight bytes of `buf` with the
/// big-endian form of `n` and leaves the rest alone. It panics on a shorter buffer, which
/// `requires` leaves out.
#[verifier::external_body]
fn write_u64_be(buf: &mut Vec<u8>, n: u64)
    requires
        old(buf)@.len() >= 8,
    ensures
        final(buf)@ == be_bytes(n) + old(buf)@.skip(8),
{
    BigEndian::write_u64(buf, n)
}

/// The big-endian form of `n`.
pub fn encode_u64(n: u64) -> (r: Vec<u8>)
    ensures
        r@ == be_bytes(n),
        r@.len() == 8,
{
    let mut buf: Vec<u8> = vec![0u8, 0u8, 0u8, 0u8, 0u8, 0u8, 0u8, 0u8];
    write_u64_be(&mut buf, n);
    proof {
        lemma_be_roundtrip(n);
        assert(buf@ =~= be_bytes(n));
    }
    buf
}

/// Appends the big-endian form of `n` to `buf`.
pub fn append_u64(buf: &mut Vec<u8>, n: u64)
    ensures
        final(buf)@ == old(buf)@ + be_bytes(n),
{
    let bytes = encode_u64(n);
    let mut i: usize = 0;
    assert(buf@ =~= old(buf)@ + bytes@.subrange(0, 0));
    while i < 8
        invariant
            i <= 8,
            bytes@.len() == 8,
            bytes@ == be_bytes(n),
            buf@ == old(buf)@ + bytes@.subrange(0, i as int),
        decreases 8 - i,
    {
        buf.push(bytes[i]);
        i += 1;
        assert(buf@ =~= old(buf)@ + bytes@.subrange(0, i as int));
    }
    assert(bytes@.subrange(0, 8) =~= bytes@);
}

/// Reads a big-endian `u64` from the front of `buf`.
pub fn decode_u64(buf: &[u8]) -> (r: Result<u64, Error>)
    ensures
        buf@.len() < 8 ==> r == Err::<u64, Error>(Error::KeyLength),
        buf@.len() >= 8 ==> r == Ok::<u64, Error>(be_u64(buf@.subrange(0, 8))),
{
    if buf.len() < U64_SIZE {
        return Err(Error::KeyLength);
    }
    Ok(read_u64_be(buf))
}

/// Reads the big-endian `u64` that stands in the last eight bytes of `buf`.
pub fn decode_u64_tail(buf: &[u8]) -> (r: u64)
    requires
        buf@.len() >= 8,
    ensures
        r == be_u64(buf@.subrange(buf@.len() - 8, buf@.len() as int)),
{
    let n: usize = buf.len();
    let tail = vstd::slice::slice_subrange(buf, n - 8, n);
    assert(tail@.subrange(0, 8) =~= tail@);
    read_u64_be(tail)
}

/// `n` bytes of padding.
pub open spec fn padding(n: int) -> Seq<u8> {
    Seq::new(n as nat, |i: int| ENC_PAD)
}

/// The encoded form of a key: groups of eight bytes, each followed by a marker. A full
/// group that another follows has the marker `0xFF`; the last group is filled with zero
/// bytes and its marker is `0xFF` less the number of fill bytes. Encoded keys are ordered
/// as the keys are.
pub open spec fn encoded_bytes(s: Seq<u8>) -> Seq<u8>
    decreases s.len(),
{
    if s.len() >= 8 {
        s.subrange(0, 8).push(ENC_MARKER) + encoded_bytes(s.skip(8))
    } else {
        (s + padding(8 - s.len())).push((0xFF - (8 - s.len())) as u8)
    }
}

/// Length of the encoded form of a key of `n` bytes.
pub open spec fn encoded_len(n: int) -> int {
    (n / 8 + 1) * 9
}

/// The key at the front of `b` and the number of bytes that its encoded form takes, or
/// the reason why `b` starts with no encoded key.
pub open spec fn decoded_bytes(b: Seq<u8>) -> Result<(Seq<u8>, int), Error>
    decreases b.len(),
{
    if b.len() < 9 {
        Err(Error::KeyLength)
    } else if b[8] == ENC_MARKER {
        match decoded_bytes(b.skip(9)) {
            Ok((rest, n)) => Ok((b.subrange(0, 8) + rest, n + 9)),
            Err(e) => Err(e),
        }
    } else {
        let pad = 0xFF - b[8];
        if pad > 8 {
            Err(Error::KeyPadding)
        } else if b.subrange(8 - pad, 8) != padding(pad) {
            Err(Error::KeyPadding)
        } else {
            Ok((b.subrange(0, 8 - pad), 9))
        }
    }
}

/// The encoded form has the stated length.
pub proof fn lemma_encoded_len(s: Seq<u8>)
    ensures
        encoded_bytes(s).len() == encoded_len(s.len() as int),
    decreases s.len(),
{
    if s.len() >= 8 {
        lemma_encoded_len(s.skip(8));
    }
}

/// Decoding an encoded key gives the key back, whatever follows it.
pub proof fn lemma_encode_decode(s: Seq<u8>, tail: Seq<u8>)
    ensures
        decoded_bytes(encoded_bytes(s) + tail) == Ok::<(Seq<u8>, int), Error>(
            (s, encoded_len(s.len() as int)),
        ),
    decreases s.len(),
{
    let e = encoded_bytes(s) + tail;
    if s.len() >= 8 {
        let rest = encoded_bytes(s.skip(8)) + tail;
        lemma_encode_decode(s.skip(8), tail);
        assert(e.skip(9) =~= rest);
        assert(e[8] == ENC_MARKER);
        assert(e.subrange(0, 8) =~= s.subrange(0, 8));
        assert(s.subrange(0, 8) + s.skip(8) =~= s);
    } else {
        let pad = 8 - s.len();
        assert(e[8] == (0xFF - pad) as u8);
        assert(e.subrange(8 - pad, 8) =~= padding(pad));
        assert(e.subrange(0, 8 - pad) =~= s);
    }
}

/// The first group of an encoded key: the first bytes of the key, zero bytes where the
/// key has fewer than eight, and the marker. Behind a full group stands the encoded form of
/// the rest.
pub proof fn lemma_encoded_head(s: Seq<u8>)
    ensures
        encoded_bytes(s).len() >= 9,
        forall|j: int| 0 <= j < 8 && j < s.len() ==> encoded_bytes(s)[j] == s[j],
        forall|j: int| s.len() <= j < 8 ==> encoded_bytes(s)[j] == 0,
        s.len() >= 8 ==> encoded_bytes(s)[8] == ENC_MARKER && encoded_bytes(s).skip(9)
            == encoded_bytes(s.skip(8)),
        s.len() < 8 ==> encoded_bytes(s)[8] == 0xFF - (8 - s.len()) && encoded_bytes(s).len() == 9,
{
    lemma_encoded_len(s);
    if s.len() >= 8 {
        assert(encoded_bytes(s).skip(9) =~= encoded_bytes(s.skip(8)));
    }
}

proof fn lemma_first_nonzero(b: Seq<u8>, from: int, to: int) -> (j: int)
    requires
        0 <= from <= to <= b.len(),
    ensures
        from <= j <= to,
        forall|k: int| from <= k < j ==> b[k] == 0,
        j < to ==> b[j] != 0,
    decreases to - from,
{
    if from == to || b[from] != 0 {
        from
    } else {
        lemma_first_nonzero(b, from + 1, to)
    }
}

/// Encoded keys are ordered as the keys are.
pub proof fn lemma_encode_keeps_order(a: Seq<u8>, b: Seq<u8>)
    requires
        crate::util::order::lex_lt(a, b),
    ensures
        crate::util::order::lex_lt(encoded_bytes(a), encoded_bytes(b)),
        !crate::util::order::has_prefix(encoded_bytes(b), encoded_bytes(a)),
    decreases a.len(),
{
    let ea = encoded_bytes(a);
    let eb = encoded_bytes(b);
    lemma_encoded_head(a);
    lemma_encoded_head(b);
    let i = crate::util::order::lemma_lex_first_diff(a, b);
    if i >= 8 {
        let p = a.subrange(0, 8).push(ENC_MARKER);
        assert(a.subrange(0, 8) =~= b.subrange(0, 8));
        assert(a =~= a.subrange(0, 8) + a.skip(8));
        assert(b =~= a.subrange(0, 8) + b.skip(8));
        crate::util::order::lemma_lex_common_prefix(a.subrange(0, 8), a.skip(8), b.skip(8));
        lemma_encode_keeps_order(a.skip(8), b.skip(8));
        crate::util::order::lemma_lex_common_prefix(
            p,
            encoded_bytes(a.skip(8)),
            encoded_bytes(b.skip(8)),
        );
        assert(ea =~= p + encoded_bytes(a.skip(8)));
        assert(eb =~= p + encoded_bytes(b.skip(8)));
        if crate::util::order::has_prefix(eb, ea) {
            assert(eb.subrange(0, ea.len() as int).skip(9) =~= eb.skip(9).subrange(
                0,
                ea.len() - 9,
            ));
            assert(ea.skip(9) =~= encoded_bytes(a.skip(8)));
            assert(eb.skip(9) =~= encoded_bytes(b.skip(8)));
        }
    } else {
        let j = if i < a.len() {
            i
        } else {
            let upto = if b.len() < 8 {
                b.len() as int
            } else {
                8
            };
            let k = lemma_first_nonzero(b, i, upto);
            if k < upto {
                k
            } else {
                8
            }
        };
        assert(crate::util::order::agree_before(ea, eb, j)) by {
            assert forall|k: int| 0 <= k < j implies ea[k] == eb[k] by {
                if k < i {
                    assert(a[k] == b[k]);
                }
            }
        }
        assert(ea[j] < eb[j]);
        crate::util::order::lemma_lex_by_diff(ea, eb, j);
        if crate::util::order::has_prefix(eb, ea) {
            assert(eb.subrange(0, ea.len() as int)[j] == eb[j]);
        }
    }
}

/// Encoding keeps the order both ways.
pub proof fn lemma_encode_order(a: Seq<u8>, b: Seq<u8>)
    ensures
        crate::util::order::lex_lt(encoded_bytes(a), encoded_bytes(b)) == crate::util::order::lex_lt(
            a,
            b,
        ),
        crate::util::order::lex_le(encoded_bytes(a), encoded_bytes(b)) == crate::util::order::lex_le(
            a,
            b,
        ),
{
    crate::util::order::lemma_lex_total(a, b);
    crate::util::order::lemma_lex_total(encoded_bytes(a), encoded_bytes(b));
    if crate::util::order::lex_lt(a, b) {
        lemma_encode_keeps_order(a, b);
    }
    if crate::util::order::lex_lt(b, a) {
        lemma_encode_keeps_order(b, a);
    }
    if encoded_bytes(a) == encoded_bytes(b) {
        lemma_encode_injective(a, b);
    }
}

/// No encoded key is the start of another, whatever follows that one.
pub proof fn lemma_encode_prefix_free(a: Seq<u8>, b: Seq<u8>, tail: Seq<u8>)
    requires
        crate::util::order::has_prefix(encoded_bytes(b) + tail, encoded_bytes(a)),
    ensures
        a == b,
{
    let x = encoded_bytes(b) + tail;
    let rest = x.skip(encoded_bytes(a).len() as int);
    assert(x =~= encoded_bytes(a) + rest);
    lemma_encode_decode(a, rest);
    lemma_encode_decode(b, tail);
}

/// What decodes to a key starts with the encoded form of that key.
pub proof fn lemma_decode_encode(x: Seq<u8>)
    requires
        decoded_bytes(x) is Ok,
    ensures
        0 <= decoded_bytes(x)->Ok_0.1 <= x.len(),
        x.take(decoded_bytes(x)->Ok_0.1) == encoded_bytes(decoded_bytes(x)->Ok_0.0),
    decreases x.len(),
{
    let k = decoded_bytes(x)->Ok_0.0;
    let n = decoded_bytes(x)->Ok_0.1;
    if x[8] == ENC_MARKER {
        lemma_decode_encode(x.skip(9));
        let rest = decoded_bytes(x.skip(9))->Ok_0.0;
        let m = decoded_bytes(x.skip(9))->Ok_0.1;
        assert(k == x.subrange(0, 8) + rest);
        assert(k.subrange(0, 8) =~= x.subrange(0, 8));
        assert(k.skip(8) =~= rest);
        assert(x.take(n) =~= x.subrange(0, 8).push(ENC_MARKER) + x.skip(9).take(m));
    } else {
        let pad = 0xFF - x[8];
        assert(x.take(9) =~= (k + padding(pad)).push((0xFF - pad) as u8)) by {
            assert forall|j: int| 8 - pad <= j < 8 implies x[j] == ENC_PAD by {
                assert(x.subrange(8 - pad, 8)[j - (8 - pad)] == padding(pad)[j - (8 - pad)]);
            }
        }
    }
}

/// The encoding is one to one.
pub proof fn lemma_encode_injective(a: Seq<u8>, b: Seq<u8>)
    requires
        encoded_bytes(a) == encoded_bytes(b),
    ensures
        a == b,
{
    lemma_encode_decode(a, Seq::<u8>::empty());
    lemma_encode_decode(b, Seq::<u8>::empty());
}

/// Encodes a key so that encoded keys compare as the keys do.
pub fn encode_bytes(key: &[u8]) -> (r: Vec<u8>)
    ensures
        r@ == encoded_bytes(key@),
{
    let mut out: Vec<u8> = Vec::new();
    let mut i: usize = 0;
    let n: usize = key.len();
    assert(out@ + encoded_bytes(key@.skip(0)) =~= encoded_bytes(key@)) by {
        assert(key@.skip(0) =~= key@);
    }
    while n - i >= ENC_GROUP_SIZE
        invariant
            i <= n,
            n == key@.len(),
            encoded_bytes(key@) == out@ + encoded_bytes(key@.skip(i as int)),
        decreases n - i,
    {
        let ghost before = out@;
        let ghost rest = key@.skip(i as int);
        let mut j: usize = 0;
        while j < ENC_GROUP_SIZE
            invariant
                j <= 8,
                i + 8 <= n,
                n == key@.len(),
                out@ == before + key@.subrange(i as int, i + j),
            decreases 8 - j,
        {
            out.push(key[i + j]);
            j += 1;
            assert(out@ =~= before + key@.subrange(i as int, i + j));
        }
        out.push(ENC_MARKER);
        i += ENC_GROUP_SIZE;
        proof {
            assert(rest.subrange(0, 8) =~= key@.subrange(i - 8, i as int));
            assert(rest.skip(8) =~= key@.skip(i as int));
            assert(out@ + encoded_bytes(key@.skip(i as int)) =~= before + encoded_bytes(rest));
        }
    }
    let ghost before = out@;
    let ghost rest = key@.skip(i as int);
    let pad: usize = ENC_GROUP_SIZE - (n - i);
    let mut j: usize = i;
    while j < n
        invariant
            i <= j <= n,
            n == key@.len(),
            out@ == before + key@.subrange(i as int, j as int),
        decreases n - j,
    {
        out.push(key[j]);
        j += 1;
        assert(out@ =~= before + key@.subrange(i as int, j as int));
    }
    let mut k: usize = 0;
    while k < pad
        invariant
            k <= pad,
            out@ == before + rest + padding(k as int),
            rest == key@.skip(i as int),
        decreases pad - k,
    {
        out.push(ENC_PAD);
        k += 1;
        assert(out@ =~= before + rest + padding(k as int));
    }
    out.push(ENC_MARKER - (pad as u8));
    assert(out@ =~= before + encoded_bytes(rest));
    out
}

/// Decodes the key at the front of `b`. Returns the key and the number of bytes read.
pub fn decode_bytes(b: &[u8]) -> (r: Result<(Vec<u8>, usize), Error>)
    ensures
        match decoded_bytes(b@) {
            Ok((k, n)) => r matches Ok((key, used)) && key@ == k && used == n,
            Err(e) => r == Err::<(Vec<u8>, usize), Error>(e),
        },
{
    let mut out: Vec<u8> = Vec::new();
    let mut off: usize = 0;
    let n: usize = b.len();
    proof {
        assert(b@.skip(0) =~= b@);
        match decoded_bytes(b@) {
            Ok((k, used)) => {
                assert(out@ + k =~= k);
            },
            Err(e) => {},
        }
    }
    loop
        invariant
            off <= n,
            n == b@.len(),
            decoded_bytes(b@) == match decoded_bytes(b@.skip(off as int)) {
                Ok((k, used)) => Ok::<(Seq<u8>, int), Error>((out@ + k, used + off)),
                Err(e) => Err::<(Seq<u8>, int), Error>(e),
            },
        decreases n - off,
    {
        let ghost cur = b@.skip(off as int);
        if n - off < ENC_GROUP_SIZE + 1 {
            return Err(Error::KeyLength);
        }
        let marker: u8 = b[off + ENC_GROUP_SIZE];
        assert(cur[8] == marker);
        let pad: usize = (ENC_MARKER - marker) as usize;
        if pad > ENC_GROUP_SIZE {
            return Err(Error::KeyPadding);
        }
        let ghost before = out@;
        let kept: usize = ENC_GROUP_SIZE - pad;
        let mut j: usize = 0;
        while j < kept
            invariant
                j <= kept <= 8,
                off + 9 <= n,
                n == b@.len(),
                out@ == before + b@.subrange(off as int, off + j),
            decreases kept - j,
        {
            out.push(b[off + j]);
            j += 1;
            assert(out@ =~= before + b@.subrange(off as int, off + j));
        }
        assert(b@.subrange(off as int, off + kept) =~= cur.subrange(0, kept as int));
        if pad == 0 {
            off += ENC_GROUP_SIZE + 1;
            proof {
                assert(cur.skip(9) =~= b@.skip(off as int));
                match decoded_bytes(b@.skip(off as int)) {
                    Ok((k, used)) => {
                        assert(before + (cur.subrange(0, 8) + k) =~= out@ + k);
                    },
                    Err(e) => {},
                }
            }
        } else {
            let mut k: usize = kept;
            while k < ENC_GROUP_SIZE
                invariant
                    kept <= k <= 8,
                    off + 9 <= n,
                    n == b@.len(),
                    forall|t: int| off + kept <= t < off + k ==> b@[t] == ENC_PAD,
                    cur == b@.skip(off as int),
                    pad == 8 - kept,
                    decoded_bytes(cur) is Err ==> decoded_bytes(b@) is Err,
                    decoded_bytes(cur) is Err ==> decoded_bytes(b@)->Err_0 == decoded_bytes(
                        cur,
                    )->Err_0,
                    cur[8] != ENC_MARKER,
                    0xFF - cur[8] == pad,
                decreases 8 - k,
            {
                if b[off + k] != ENC_PAD {
                    proof {
                        assert(cur.subrange(8 - pad, 8)[k - kept] == b@[off + k]);
                        assert(padding(pad as int)[k - kept] == ENC_PAD);
                    }
                    return Err(Error::KeyPadding);
                }
                k += 1;
            }
            proof {
                let fill = cur.subrange(8 - pad, 8);
                assert forall|t: int| 0 <= t < pad implies #[trigger] fill[t] == ENC_PAD by {
                    assert(fill[t] == b@[off + kept + t]);
                }
                assert(fill =~= padding(pad as int));
            }
            return Ok((out, off + ENC_GROUP_SIZE + 1));
        }
    }
}

} // verus!
