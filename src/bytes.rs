//! Byte-level encodings: fixed-width integers, 256-bit words and hex text.
use vstd::prelude::*;

verus! {

/// True when every byte of `s` is zero.
pub open spec fn all_zero(s: Seq<u8>) -> bool {
    forall|i: int| 0 <= i < s.len() ==> s[i] == 0
}

/// The `n` low bytes of `x`, most significant first.
pub open spec fn be_bytes(x: nat, n: nat) -> Seq<u8>
    decreases n,
{
    if n == 0 {
        Seq::empty()
    } else {
        be_bytes(x / 256, (n - 1) as nat).push((x % 256) as u8)
    }
}

/// Big-endian encodings have the requested length.
pub proof fn lemma_be_bytes_len(x: nat, n: nat)
    ensures
        be_bytes(x, n).len() == n,
    decreases n,
{
    if n > 0 {
        lemma_be_bytes_len(x / 256, (n - 1) as nat);
    }
}

/// The `n` low bytes of `x`, least significant first.
pub open spec fn le_bytes(x: nat, n: nat) -> Seq<u8>
    decreases n,
{
    if n == 0 {
        Seq::empty()
    } else {
        seq![(x % 256) as u8] + le_bytes(x / 256, (n - 1) as nat)
    }
}

/// The number that the bytes `s` spell, least significant first.
pub open spec fn le_value(s: Seq<u8>) -> nat
    decreases s.len(),
{
    if s.len() == 0 {
        0
    } else {
        s[0] as nat + 256 * le_value(s.drop_first())
    }
}

/// Reading back the little-endian bytes of a number that fits gives it back.
pub proof fn lemma_le_value_of_bytes(x: nat, n: nat)
    requires
        x < pow256(n),
    ensures
        le_bytes(x, n).len() == n,
        le_value(le_bytes(x, n)) == x,
    decreases n,
{
    if n > 0 {
        assert(x / 256 < pow256((n - 1) as nat)) by (nonlinear_arith)
            requires x < 256 * pow256((n - 1) as nat);
        lemma_le_value_of_bytes(x / 256, (n - 1) as nat);
        let s = le_bytes(x, n);
        assert(s.drop_first() == le_bytes(x / 256, (n - 1) as nat));
        assert(x == x % 256 + 256 * (x / 256)) by (nonlinear_arith);
    }
}

/// `256` to the power `n`.
pub open spec fn pow256(n: nat) -> nat
    decreases n,
{
    if n == 0 {
        1
    } else {
        256 * pow256((n - 1) as nat)
    }
}

/// Relies on `u16::to_le_bytes`: the memory representation in little-endian order.
#[verifier::external_body]
pub(crate) fn u16_le(x: u16) -> (r: [u8; 2])
    ensures
        r@ == le_bytes(x as nat, 2),
{
    x.to_le_bytes()
}

/// Relies on `u64::to_le_bytes`: the memory representation in little-endian order.
#[verifier::external_body]
pub(crate) fn u64_le(x: u64) -> (r: [u8; 8])
    ensures
        r@ == le_bytes(x as nat, 8),
{
    x.to_le_bytes()
}

/// Relies on `u64::to_be_bytes`: the memory representation in big-endian order.
#[verifier::external_body]
pub(crate) fn u64_be(x: u64) -> (r: [u8; 8])
    ensures
        r@ == be_bytes(x as nat, 8),
{
    x.to_be_bytes()
}

/// Relies on `u16::from_le_bytes`: the value of a little-endian representation.
#[verifier::external_body]
pub(crate) fn u16_from_le(b: [u8; 2]) -> (r: u16)
    ensures
        r as nat == le_value(b@),
{
    u16::from_le_bytes(b)
}

/// Relies on `u64::from_le_bytes`: the value of a little-endian representation.
#[verifier::external_body]
pub(crate) fn u64_from_le(b: [u8; 8]) -> (r: u64)
    ensures
        r as nat == le_value(b@),
{
    u64::from_le_bytes(b)
}

/// An unsigned 256-bit integer as four 64-bit limbs, least significant first.
#[derive(Debug, Clone, Copy, PartialEq, Eq)]
pub struct Uint256 {
    pub limbs: [u64; 4],
}

/// The number a word stands for.
pub open spec fn word_value(w: Uint256) -> nat {
    w.limbs[0] as nat + w.limbs[1] as nat * 0x1_0000_0000_0000_0000 + w.limbs[2] as nat
        * 0x1_0000_0000_0000_0000_0000_0000_0000_0000 + w.limbs[3] as nat
        * 0x1_0000_0000_0000_0000_0000_0000_0000_0000_0000_0000_0000_0000
}

/// The 32 big-endian bytes of a word.
pub open spec fn word_be(w: Uint256) -> Seq<u8> {
    be_bytes(w.limbs[3] as nat, 8) + be_bytes(w.limbs[2] as nat, 8) + be_bytes(w.limbs[1] as nat, 8)
        + be_bytes(w.limbs[0] as nat, 8)
}

/// True of the word zero.
pub open spec fn word_is_zero(w: Uint256) -> bool {
    w.limbs[0] == 0 && w.limbs[1] == 0 && w.limbs[2] == 0 && w.limbs[3] == 0
}

impl Uint256 {
    /// The word holding `x`.
    pub fn from_u64(x: u64) -> (r: Uint256)
        ensures
            word_value(r) == x,
            r.limbs@ == seq![x, 0u64, 0u64, 0u64],
    {
        Uint256 { limbs: [x, 0, 0, 0] }
    }

    /// Whether the word is zero.
    pub fn is_zero(&self) -> (r: bool)
        ensures
            r == word_is_zero(*self),
            r == (word_value(*self) == 0),
    {
        self.limbs[0] == 0 && self.limbs[1] == 0 && self.limbs[2] == 0 && self.limbs[3] == 0
    }

    /// The 32 big-endian bytes of the word.
    pub fn to_big_endian(&self) -> (r: [u8; 32])
        ensures
            r@ == word_be(*self),
    {
        let mut buf = [0u8; 32];
        proof {
            lemma_be_bytes_len(self.limbs[0] as nat, 8);
            lemma_be_bytes_len(self.limbs[1] as nat, 8);
            lemma_be_bytes_len(self.limbs[2] as nat, 8);
            lemma_be_bytes_len(self.limbs[3] as nat, 8);
        }
        let mut i: usize = 0;
        while i < 4
            invariant
                0 <= i <= 4,
                buf@.len() == 32,
                word_be(*self).len() == 32,
                buf@.subrange(0, 8 * i as int) == word_be(*self).subrange(0, 8 * i as int),
            decreases 4 - i,
        {
            let b = u64_be(self.limbs[3 - i]);
            let ghost before = buf@;
            let mut j: usize = 0;
            while j < 8
                invariant
                    0 <= j <= 8,
                    0 <= i < 4,
                    buf@.len() == 32,
                    before.len() == 32,
                    b@.len() == 8,
                    buf@.subrange(0, 8 * i as int) == before.subrange(0, 8 * i as int),
                    forall|k: int| 0 <= k < j ==> buf@[8 * i + k] == b@[k],
                decreases 8 - j,
            {
                buf[8 * i + j] = b[j];
                j = j + 1;
            }
            proof {
                lemma_be_bytes_len(self.limbs[0] as nat, 8);
                lemma_be_bytes_len(self.limbs[1] as nat, 8);
                lemma_be_bytes_len(self.limbs[2] as nat, 8);
                lemma_be_bytes_len(self.limbs[3] as nat, 8);
                let w = word_be(*self);
                let top = be_bytes(self.limbs[3] as nat, 8);
                let upper = be_bytes(self.limbs[2] as nat, 8);
                let lower = be_bytes(self.limbs[1] as nat, 8);
                let bottom = be_bytes(self.limbs[0] as nat, 8);
                assert(w.len() == 32);
                assert(w.subrange(0, 8) =~= top);
                assert(w.subrange(8, 16) =~= upper);
                assert(w.subrange(16, 24) =~= lower);
                assert(w.subrange(24, 32) =~= bottom);
                assert(w.subrange(8 * i as int, 8 * i + 8) == be_bytes(self.limbs[3 - i as int] as nat, 8));
                assert(buf@.subrange(0, 8 * (i + 1) as int) =~= w.subrange(0, 8 * (i + 1) as int)) by {
                    assert forall|k: int| 0 <= k < 8 * (i + 1) implies buf@[k] == w[k] by {
                        if k < 8 * i {
                            assert(buf@[k] == buf@.subrange(0, 8 * i as int)[k]);
                            assert(w[k] == w.subrange(0, 8 * i as int)[k]);
                        } else {
                            assert(buf@[k] == b@[k - 8 * i]);
                            assert(w[k] == w.subrange(8 * i as int, 8 * i + 8)[k - 8 * i]);
                        }
                    }
                }
            }
            i = i + 1;
        }
        proof {
            assert(buf@ =~= buf@.subrange(0, 32));
        }
        buf
    }
}

/// The sixteen lower-case hex digits.
pub open spec fn hex_alphabet() -> Seq<char> {
    seq!['0', '1', '2', '3', '4', '5', '6', '7', '8', '9', 'a', 'b', 'c', 'd', 'e', 'f']
}

/// Lower-case hex text of `b`: two digits per byte, high nibble first.
pub open spec fn hex_lower(b: Seq<u8>) -> Seq<char>
    decreases b.len(),
{
    if b.len() == 0 {
        Seq::empty()
    } else {
        seq![hex_alphabet()[b[0] as int / 16], hex_alphabet()[b[0] as int % 16]] + hex_lower(b.drop_first())
    }
}

/// True of the ASCII codes of `0`-`9`, `a`-`f` and `A`-`F`.
pub open spec fn is_hex_digit(c: u8) -> bool {
    (48 <= c <= 57) || (97 <= c <= 102) || (65 <= c <= 70)
}

/// The value of a hex digit.
pub open spec fn hex_digit_value(c: u8) -> int {
    if 48 <= c <= 57 {
        c - 48
    } else if 97 <= c <= 102 {
        c - 87
    } else {
        c - 55
    }
}

/// True of hex text that decodes: an even number of hex digits.
pub open spec fn is_hex_text(s: Seq<u8>) -> bool {
    s.len() % 2 == 0 && forall|i: int| 0 <= i < s.len() ==> is_hex_digit(#[trigger] s[i])
}

/// The bytes that hex text spells, two digits per byte.
pub open spec fn hex_bytes(s: Seq<u8>) -> Seq<u8>
    decreases s.len(),
{
    if s.len() < 2 {
        Seq::empty()
    } else {
        seq![(hex_digit_value(s[0]) * 16 + hex_digit_value(s[1])) as u8] + hex_bytes(s.subrange(2, s.len() as int))
    }
}

/// Relies on `hex::encode`: two lower-case digits per byte.
#[verifier::external_body]
pub(crate) fn hex_encode(data: &[u8]) -> (r: String)
    ensures
        r@ == hex_lower(data@),
{
    hex::encode(data)
}

/// Relies on `hex::decode`: an even number of digits of either case is
/// required, and each pair gives one byte, high nibble first.
#[verifier::external_body]
pub(crate) fn hex_decode(data: &[u8]) -> (r: Option<Vec<u8>>)
    ensures
        r is Some <==> is_hex_text(data@),
        r is Some ==> r->Some_0@ == hex_bytes(data@),
{
    hex::decode(data).ok()
}

/// Relies on `String::push_str`: appends `tail` to `s`.
#[verifier::external_body]
pub(crate) fn push_str(s: &mut String, tail: &str)
    ensures
        final(s)@ == old(s)@ + tail@,
{
    s.push_str(tail)
}

/// `0x` followed by the lower-case hex text of `b`.
pub open spec fn prefixed_hex(b: Seq<u8>) -> Seq<char> {
    seq!['0', 'x'] + hex_lower(b)
}

/// `0x` followed by the lower-case hex text of `b`.
pub fn to_prefixed_hex(b: &[u8]) -> (r: String)
    ensures
        r@ == prefixed_hex(b@),
{
    let mut out = "0x".to_owned();
    proof {
        reveal_strlit("0x");
    }
    let digits = hex_encode(b);
    push_str(&mut out, digits.as_str());
    assert(out@ =~= prefixed_hex(b@));
    out
}

/// `b` with every leading `0x` removed.
pub open spec fn strip_hex_prefixes(b: Seq<u8>) -> Seq<u8>
    decreases b.len(),
{
    if b.len() >= 2 && b[0] == 48 && b[1] == 120 {
        strip_hex_prefixes(b.subrange(2, b.len() as int))
    } else {
        b
    }
}

/// Where the text after the leading `0x` prefixes of `b` starts.
pub fn hex_prefix_end(b: &[u8]) -> (r: usize)
    ensures
        r <= b@.len(),
        b@.subrange(r as int, b@.len() as int) == strip_hex_prefixes(b@),
{
    let n = b.len();
    let mut i: usize = 0;
    assert(b@.subrange(0, n as int) =~= b@);
    while n - i >= 2 && b[i] == 48 && b[i + 1] == 120
        invariant
            i <= n,
            n == b@.len(),
            strip_hex_prefixes(b@.subrange(i as int, n as int)) == strip_hex_prefixes(b@),
        decreases n - i,
    {
        let ghost t = b@.subrange(i as int, n as int);
        assert(t.subrange(2, t.len() as int) =~= b@.subrange(i + 2, n as int));
        i = i + 2;
    }
    i
}

/// The ASCII code of the lower-case hex digit for `n`.
pub open spec fn hex_code(n: int) -> u8 {
    if n < 10 {
        (48 + n) as u8
    } else {
        (87 + n) as u8
    }
}

/// The ASCII codes of the lower-case hex text of `b`.
pub open spec fn hex_codes(b: Seq<u8>) -> Seq<u8>
    decreases b.len(),
{
    if b.len() == 0 {
        Seq::empty()
    } else {
        seq![hex_code(b[0] as int / 16), hex_code(b[0] as int % 16)] + hex_codes(b.drop_first())
    }
}

proof fn lemma_hex_alphabet_codes(n: int)
    requires
        0 <= n < 16,
    ensures
        '\0' <= hex_alphabet()[n] <= '\u{7f}',
        hex_alphabet()[n] as u8 == hex_code(n),
{
}

/// Lower-case hex text is ASCII, and its bytes are `hex_codes`.
pub proof fn lemma_hex_lower_codes(b: Seq<u8>)
    ensures
        hex_lower(b).len() == hex_codes(b).len(),
        hex_codes(b).len() == 2 * b.len(),
        forall|i: int| 0 <= i < hex_lower(b).len() ==> '\0' <= #[trigger] hex_lower(b)[i] <= '\u{7f}',
        forall|i: int| 0 <= i < hex_lower(b).len() ==> #[trigger] hex_lower(b)[i] as u8 == hex_codes(b)[i],
    decreases b.len(),
{
    if b.len() > 0 {
        lemma_hex_lower_codes(b.drop_first());
        lemma_hex_alphabet_codes(b[0] as int / 16);
        lemma_hex_alphabet_codes(b[0] as int % 16);
        let h = hex_lower(b);
        let t = hex_lower(b.drop_first());
        assert forall|i: int| 0 <= i < h.len() implies '\0' <= #[trigger] h[i] <= '\u{7f}' && h[i] as u8 == hex_codes(b)[i] by {
            if i >= 2 {
                assert(h[i] == t[i - 2]);
            }
        }
    }
}

/// Decoding the hex codes of `b` gives `b` back.
pub proof fn lemma_hex_codes_decode(b: Seq<u8>)
    ensures
        is_hex_text(hex_codes(b)),
        hex_bytes(hex_codes(b)) == b,
    decreases b.len(),
{
    if b.len() > 0 {
        lemma_hex_codes_decode(b.drop_first());
        let c = hex_codes(b);
        assert(c.subrange(2, c.len() as int) =~= hex_codes(b.drop_first()));
        let hi = b[0] as int / 16;
        let lo = b[0] as int % 16;
        assert(hex_digit_value(hex_code(hi)) == hi);
        assert(hex_digit_value(hex_code(lo)) == lo);
        assert(hi * 16 + lo == b[0]);
        assert(b =~= seq![b[0]] + b.drop_first());
        assert forall|i: int| 0 <= i < c.len() implies is_hex_digit(#[trigger] c[i]) by {
            if i >= 2 {
                assert(c[i] == hex_codes(b.drop_first())[i - 2]);
            }
        }
    } else {
        assert(hex_bytes(hex_codes(b)) =~= b);
    }
}

} // verus!
