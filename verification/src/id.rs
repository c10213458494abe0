//! The opaque 128-bit work id: two `u64` halves, zero meaning unset.

use vstd::prelude::*;
use crate::text::{chars_of, lemma_trim_keeps, push_char, trim, trim_bounds};

verus! {

/// Wire id: two `u64` halves. Zero is unset / mint.
#[derive(Clone, Copy, Debug, PartialEq, Eq, Structural, PartialOrd, Ord, Hash)]
pub struct WorkId {
    pub hi: u64,
    pub lo: u64,
}

/// `2^64`.
pub open spec fn two64() -> nat {
    0x1_0000_0000_0000_0000
}

/// The lowercase hex digit for a value below sixteen.
pub open spec fn hex_digit(n: u64) -> char {
    if n < 10 {
        ((n + 48) as u8) as char
    } else {
        ((n + 87) as u8) as char
    }
}

/// The `i`th four-bit group of `x`, most significant first.
pub open spec fn nibble(x: u64, i: int) -> u64 {
    (x >> ((60 - 4 * i) as u64)) & 0xf
}

/// `x` as sixteen lowercase hex digits (`{:016x}`).
pub open spec fn hex_u64(x: u64) -> Seq<char> {
    Seq::new(16, |i: int| hex_digit(nibble(x, i)))
}

/// The value of a hex digit in either case, as `from_str_radix(_, 16)` reads it.
pub open spec fn digit_value(c: char) -> Option<u64> {
    if '0' <= c && c <= '9' {
        Some((c as u64 - 48) as u64)
    } else if 'a' <= c && c <= 'f' {
        Some((c as u64 - 87) as u64)
    } else if 'A' <= c && c <= 'F' {
        Some((c as u64 - 55) as u64)
    } else {
        None
    }
}

/// Every character is a hex digit.
pub open spec fn all_hex(s: Seq<char>) -> bool {
    forall|i: int| 0 <= i < s.len() ==> (#[trigger] digit_value(s[i])) is Some
}

/// The number a run of hex digits spells, most significant first.
pub open spec fn hex_value(s: Seq<char>) -> nat
    decreases s.len(),
{
    if s.len() == 0 {
        0
    } else {
        hex_value(s.drop_last()) * 16 + digit_value(s.last()).unwrap_or(0) as nat
    }
}

/// One or more hex digits, and nothing else, whose value fits a `u64`.
pub open spec fn radix16(s: Seq<char>) -> Option<u64> {
    if s.len() == 0 || !all_hex(s) || hex_value(s) >= two64() {
        None
    } else {
        Some(hex_value(s) as u64)
    }
}

/// `WorkId::from_hex`: the trimmed text is exactly 32 hex digits, in either
/// case; the first sixteen are the high half.
pub open spec fn parse_hex(s: Seq<char>) -> Option<WorkId> {
    let t = trim(s);
    if t.len() != 32 {
        None
    } else {
        match (radix16(t.subrange(0, 16)), radix16(t.subrange(16, 32))) {
            (Some(hi), Some(lo)) => Some(WorkId { hi, lo }),
            _ => None,
        }
    }
}

/// Big-endian bytes of a `u64`.
pub open spec fn be_bytes(x: u64) -> Seq<u8> {
    Seq::new(8, |i: int| ((x >> ((56 - 8 * i) as u64)) & 0xff) as u8)
}

/// Little-endian bytes of a `u64`.
pub open spec fn le_bytes(x: u64) -> Seq<u8> {
    Seq::new(8, |i: int| ((x >> ((8 * i) as u64)) & 0xff) as u8)
}

impl WorkId {
    /// The unset id.
    pub fn zero() -> (r: WorkId)
        ensures
            r.nil(),
    {
        WorkId { hi: 0, lo: 0 }
    }

    /// Whether both halves are zero.
    pub open spec fn nil(self) -> bool {
        self.hi == 0 && self.lo == 0
    }

    /// The id as one 128-bit number.
    pub open spec fn value(self) -> nat {
        self.hi as nat * two64() + self.lo as nat
    }

    /// The 32 lowercase hex characters of the id.
    pub open spec fn hex(self) -> Seq<char> {
        hex_u64(self.hi) + hex_u64(self.lo)
    }

    /// Id order: by the high half, then the low half.
    pub open spec fn lt(self, other: WorkId) -> bool {
        self.hi < other.hi || (self.hi == other.hi && self.lo < other.lo)
    }

    /// An id is its 128-bit number: two ids with the same number are the
    /// same id, and only the zero id is zero. So `from_u128` and `to_u128`
    /// undo each other.
    pub proof fn lemma_value_unique(self, other: WorkId)
        ensures
            self.value() == other.value() ==> self == other,
            self.nil() <==> self.value() == 0,
            self.value() < two64() * two64(),
    {
        let t = two64();
        assert(t == 0x1_0000_0000_0000_0000nat);
        let (a, b, c, d) = (self.hi as int, self.lo as int, other.hi as int, other.lo as int);
        assert(a * t + b == c * t + d ==> a == c && b == d) by (nonlinear_arith)
            requires
                0 <= b < t,
                0 <= d < t,
                t > 0,
        {
            if a * t + b == c * t + d {
                if a < c {
                    assert(a * t + t <= c * t);
                } else if a > c {
                    assert(c * t + t <= a * t);
                }
            }
        }
        assert(a * t + b == 0 ==> a == 0 && b == 0) by (nonlinear_arith)
            requires
                0 <= a,
                0 <= b < t,
                t > 0,
        {
            if a > 0 {
                assert(a * t >= t);
            }
        }
        assert(a * t + b < t * t) by (nonlinear_arith)
            requires
                0 <= a < t,
                0 <= b < t,
        {
            assert(a * t <= (t - 1) * t);
        }
    }

    /// Reading back what `to_hex` writes gives the same id.
    pub proof fn lemma_hex_roundtrip(self)
        ensures
            parse_hex(self.hex()) == Some(self),
    {
        let h = self.hex();
        lemma_hex_u64_value(self.hi);
        lemma_hex_u64_value(self.lo);
        assert(h.subrange(0, 16) =~= hex_u64(self.hi));
        assert(h.subrange(16, 32) =~= hex_u64(self.lo));
        assert forall|i: int| 0 <= i < 32 implies !crate::text::is_white(#[trigger] h[i]) && (h[i] as u32) < 0x80 by {
            if i < 16 {
                assert(h[i] == hex_u64(self.hi)[i]);
            } else {
                assert(h[i] == hex_u64(self.lo)[i - 16]);
            }
        }
        lemma_trim_keeps(h);
    }

    pub fn is_zero(self) -> (r: bool)
        ensures
            r == self.nil(),
    {
        self.hi == 0 && self.lo == 0
    }

    /// Whether this id orders before another.
    pub fn less(self, other: WorkId) -> (r: bool)
        ensures
            r == self.lt(other),
    {
        self.hi < other.hi || (self.hi == other.hi && self.lo < other.lo)
    }

    /// 32 lowercase hex chars. Off-disk / CLI only.
    pub fn to_hex(self) -> (s: String)
        ensures
            s@ == self.hex(),
    {
        let mut s = String::new();
        push_hex_u64(&mut s, self.hi);
        push_hex_u64(&mut s, self.lo);
        s
    }

    /// Parse 32 hex characters, surrounding whitespace ignored; anything
    /// else is no id.
    pub fn from_hex(s: &str) -> (r: Option<WorkId>)
        ensures
            r == parse_hex(s@),
    {
        let cs = chars_of(s);
        let (a, b) = trim_bounds(cs.as_slice());
        if b - a != 32 {
            return None;
        }
        let ghost t = cs@.subrange(a as int, b as int);
        let hi = parse_radix16(cs.as_slice(), a, a + 16);
        let lo = parse_radix16(cs.as_slice(), a + 16, b);
        assert(t.subrange(0, 16) == cs@.subrange(a as int, a + 16));
        assert(t.subrange(16, 32) == cs@.subrange(a + 16, b as int));
        match (hi, lo) {
            (Some(hi), Some(lo)) => Some(WorkId { hi, lo }),
            _ => None,
        }
    }

    /// The sixteen big-endian bytes: high half, then low half.
    pub fn to_be_bytes(self) -> (out: [u8; 16])
        ensures
            out@ == be_bytes(self.hi) + be_bytes(self.lo),
    {
        let h = self.hi;
        let l = self.lo;
        let out = [
            ((h >> 56u64) & 0xff) as u8,
            ((h >> 48u64) & 0xff) as u8,
            ((h >> 40u64) & 0xff) as u8,
            ((h >> 32u64) & 0xff) as u8,
            ((h >> 24u64) & 0xff) as u8,
            ((h >> 16u64) & 0xff) as u8,
            ((h >> 8u64) & 0xff) as u8,
            ((h >> 0u64) & 0xff) as u8,
            ((l >> 56u64) & 0xff) as u8,
            ((l >> 48u64) & 0xff) as u8,
            ((l >> 40u64) & 0xff) as u8,
            ((l >> 32u64) & 0xff) as u8,
            ((l >> 24u64) & 0xff) as u8,
            ((l >> 16u64) & 0xff) as u8,
            ((l >> 8u64) & 0xff) as u8,
            ((l >> 0u64) & 0xff) as u8,
        ];
        assert(out@ =~= be_bytes(self.hi) + be_bytes(self.lo));
        out
    }

    pub fn from_u128(v: u128) -> (r: WorkId)
        ensures
            r.hi == v as nat / two64(),
            r.lo == v as nat % two64(),
            r.value() == v,
    {
        let hi = (v >> 64u128) as u64;
        let lo = v as u64;
        assert(hi == v / 0x1_0000_0000_0000_0000u128) by (bit_vector)
            requires hi == (v >> 64u128) as u64;
        assert(lo == v % 0x1_0000_0000_0000_0000u128) by (bit_vector)
            requires lo == v as u64;
        WorkId { hi, lo }
    }

    pub fn to_u128(self) -> (r: u128)
        ensures
            r == self.value(),
    {
        let h = self.hi;
        let l = self.lo;
        let r = ((h as u128) << 64u128) | (l as u128);
        assert(r == h as u128 * 0x1_0000_0000_0000_0000u128 + l as u128) by (bit_vector)
            requires r == ((h as u128) << 64u128) | (l as u128);
        r
    }
}

/// Append the sixteen hex digits of `x`.
fn push_hex_u64(s: &mut String, x: u64)
    ensures
        final(s)@ == old(s)@ + hex_u64(x),
{
    let ghost start = s@;
    let mut i: u64 = 0;
    while i < 16
        invariant
            i <= 16,
            s@ == start + hex_u64(x).take(i as int),
        decreases 16 - i,
    {
        let sh: u64 = 60 - 4 * i;
        let n = (x >> sh) & 0xf;
        assert(n < 16) by (bit_vector)
            requires n == (x >> sh) & 0xf;
        let c = if n < 10 {
            ((n + 48) as u8) as char
        } else {
            ((n + 87) as u8) as char
        };
        push_char(s, c);
        assert(hex_u64(x).take(i + 1) == hex_u64(x).take(i as int).push(c));
        i = i + 1;
    }
    assert(hex_u64(x).take(16) == hex_u64(x));
}

/// `u64::from_str_radix(&cs[from..to], 16)`.
fn parse_radix16(cs: &[char], from: usize, to: usize) -> (r: Option<u64>)
    requires
        from <= to <= cs@.len(),
        to - from <= 16,
    ensures
        r == radix16(cs@.subrange(from as int, to as int)),
{
    let ghost s = cs@.subrange(from as int, to as int);
    let start = from;
    let ghost digits = cs@.subrange(start as int, to as int);
    if start == to {
        return None;
    }
    let mut v: u64 = 0;
    let mut i = start;
    while i < to
        invariant
            from <= start <= i <= to <= cs@.len(),
            to - start <= 16,
            digits == cs@.subrange(start as int, to as int),
            s == cs@.subrange(from as int, to as int),
            digits == s,
            all_hex(cs@.subrange(start as int, i as int)),
            v == hex_value(cs@.subrange(start as int, i as int)),
            hex_value(cs@.subrange(start as int, i as int)) < pow16((i - start) as nat),
        decreases to - i,
    {
        let c = cs[i];
        let d: u64 = if '0' <= c && c <= '9' {
            c as u64 - 48
        } else if 'a' <= c && c <= 'f' {
            c as u64 - 87
        } else if 'A' <= c && c <= 'F' {
            c as u64 - 55
        } else {
            assert(!all_hex(digits)) by {
                assert(digits[i - start] == c);
                assert(digit_value(digits[i - start]) is None);
            }
            assert(radix16(s) is None);
            return None;
        };
        let ghost pre = cs@.subrange(start as int, i as int);
        let ghost post = cs@.subrange(start as int, i + 1);
        assert(post.drop_last() == pre);
        assert(post.last() == c);
        proof {
            lemma_pow16_step((i - start) as nat);
            lemma_pow16_mono((i - start) as nat, 15);
        }
        v = v * 16 + d;
        i = i + 1;
        assert(all_hex(post)) by {
            assert forall|k: int| 0 <= k < post.len() implies (#[trigger] digit_value(post[k])) is Some by {
                if k < pre.len() {
                    assert(post[k] == pre[k]);
                }
            }
        }
    }
    assert(hex_value(digits) < two64()) by {
        lemma_pow16_mono((to - start) as nat, 16);
    }
    Some(v)
}

proof fn lemma_digit_roundtrip(n: u64)
    requires
        n < 16,
    ensures
        digit_value(hex_digit(n)) == Some(n),
        !crate::text::is_white(hex_digit(n)),
        hex_digit(n) != '+',
        (hex_digit(n) as u32) < 0x80,
{
}

proof fn lemma_shift_step(x: u64, s: u64)
    requires
        4 <= s <= 60,
    ensures
        (x >> s) * 16 + ((x >> ((s - 4) as u64)) & 0xf) == x >> ((s - 4) as u64),
        x >> s < 0x1000_0000_0000_0000,
{
    assert((x >> s) * 16 + ((x >> ((s - 4) as u64)) & 0xf) == x >> ((s - 4) as u64)
        && x >> s < 0x1000_0000_0000_0000) by (bit_vector)
        requires
            4 <= s <= 60,
    ;
}

proof fn lemma_hex_char(x: u64, i: int)
    requires
        0 <= i < 16,
    ensures
        nibble(x, i) < 16,
        hex_u64(x)[i] == hex_digit(nibble(x, i)),
        digit_value(hex_u64(x)[i]) == Some(nibble(x, i)),
        !crate::text::is_white(hex_u64(x)[i]),
        (hex_u64(x)[i] as u32) < 0x80,
        hex_u64(x)[i] != '+',
{
    let n = nibble(x, i);
    let sh = (60 - 4 * i) as u64;
    assert(n == (x >> sh) & 0xf);
    assert(n < 16) by (bit_vector)
        requires n == (x >> sh) & 0xf;
    lemma_digit_roundtrip(n);
}

proof fn lemma_hex_prefix(x: u64, k: int)
    requires
        1 <= k <= 16,
    ensures
        hex_value(hex_u64(x).take(k)) == x >> ((64 - 4 * k) as u64),
    decreases k,
{
    let h = hex_u64(x);
    if k == 1 {
        assert(h.take(1).drop_last() =~= Seq::<char>::empty());
        lemma_hex_char(x, 0);
        let n0 = nibble(x, 0);
        assert(n0 == (x >> 60u64) & 0xf);
        assert(n0 == x >> 60u64) by (bit_vector)
            requires n0 == (x >> 60u64) & 0xf;
        assert(h.take(1).last() == h[0]);
        assert(hex_value(h.take(1).drop_last()) == 0);
        assert(hex_value(h.take(1)) == n0);
        assert(((64 - 4 * k) as u64) == 60u64);
    } else {
        lemma_hex_prefix(x, k - 1);
        let s = (64 - 4 * (k - 1)) as u64;
        assert(h.take(k).drop_last() =~= h.take(k - 1));
        assert(h.take(k).last() == h[k - 1]);
        lemma_hex_char(x, k - 1);
        lemma_shift_step(x, s);
        assert(((s - 4) as u64) == ((60 - 4 * (k - 1)) as u64));
        assert(((64 - 4 * k) as u64) == ((s - 4) as u64));
        let n = nibble(x, k - 1);
        assert(digit_value(h.take(k).last()).unwrap_or(0) == n);
        assert(hex_value(h.take(k)) == hex_value(h.take(k - 1)) * 16 + n);
        assert(hex_value(h.take(k - 1)) == x >> s);
        assert(n == (x >> ((s - 4) as u64)) & 0xf);
    }
}

/// The digits of `hex_u64(x)` spell `x`.
proof fn lemma_hex_u64_value(x: u64)
    ensures
        all_hex(hex_u64(x)),
        hex_value(hex_u64(x)) == x,
        radix16(hex_u64(x)) == Some(x),
        forall|i: int| 0 <= i < 16 ==> !crate::text::is_white(#[trigger] hex_u64(x)[i]) && (
        hex_u64(x)[i] as u32) < 0x80 && hex_u64(x)[i] != '+',
{
    let h = hex_u64(x);
    assert forall|i: int| 0 <= i < 16 implies !crate::text::is_white(#[trigger] h[i]) && (h[i] as u32) < 0x80 && h[i] != '+' && digit_value(h[i]) is Some by {
        lemma_hex_char(x, i);
    }
    assert(all_hex(h));
    lemma_hex_prefix(x, 16);
    assert(h.take(16) =~= h);
    assert(x >> 0u64 == x) by (bit_vector);
    assert(hex_value(h) < two64());
    assert(h[0] != '+');
}

/// A hex digit as `to_hex` writes it: a digit or a lowercase `a` to `f`.
pub open spec fn lower_hex(c: char) -> bool {
    ('0' <= c && c <= '9') || ('a' <= c && c <= 'f')
}

/// A character with `A` to `F` made lowercase, as
/// `str::to_ascii_lowercase` does for hex digits.
pub open spec fn lower_char(c: char) -> char {
    if 'A' <= c && c <= 'F' {
        ((c as u32) + 32) as char
    } else {
        c
    }
}

/// Hex text with its letters made lowercase.
pub open spec fn hex_lower(s: Seq<char>) -> Seq<char> {
    s.map_values(|c: char| lower_char(c))
}

proof fn lemma_lower_digit(c: char)
    requires
        digit_value(c) is Some,
    ensures
        lower_hex(lower_char(c)),
        digit_value(lower_char(c)) == digit_value(c),
{
}

proof fn lemma_lower_hex_is_digit(c: char)
    requires
        lower_hex(c),
    ensures
        digit_value(c) is Some,
        digit_value(c)->0 < 16,
        hex_digit(digit_value(c)->0) == c,
{
    let u = c as u32;
    if '0' <= c && c <= '9' {
        assert(48 <= u <= 57);
        assert(((u - 48 + 48) as u8) as char == c);
    } else {
        assert(97 <= u <= 102);
        assert(((u - 87 + 87) as u8) as char == c);
    }
}

proof fn lemma_hex_lower_value(t: Seq<char>)
    requires
        all_hex(t),
    ensures
        hex_value(hex_lower(t)) == hex_value(t),
        forall|i: int| 0 <= i < t.len() ==> lower_hex(#[trigger] hex_lower(t)[i]),
    decreases t.len(),
{
    if t.len() > 0 {
        let q = t.drop_last();
        assert(all_hex(q)) by {
            assert forall|i: int| 0 <= i < q.len() implies (#[trigger] digit_value(q[i])) is Some by {
                assert(q[i] == t[i]);
            }
        }
        lemma_hex_lower_value(q);
        assert(hex_lower(t).drop_last() =~= hex_lower(q));
        assert(digit_value(t[t.len() - 1]) is Some);
        lemma_lower_digit(t.last());
        assert forall|i: int| 0 <= i < t.len() implies lower_hex(#[trigger] hex_lower(t)[i]) by {
            assert(digit_value(t[i]) is Some);
            lemma_lower_digit(t[i]);
        }
    }
}

proof fn lemma_digit_split(a: int, da: int, b: int, db: int)
    by (nonlinear_arith)
    requires
        0 <= da < 16,
        0 <= db < 16,
        a * 16 + da == b * 16 + db,
    ensures
        a == b,
        da == db,
{
}

/// Two runs of lowercase hex digits of one length that spell the same
/// number are the same text.
proof fn lemma_lower_hex_unique(a: Seq<char>, b: Seq<char>)
    requires
        a.len() == b.len(),
        forall|i: int| 0 <= i < a.len() ==> lower_hex(#[trigger] a[i]),
        forall|i: int| 0 <= i < b.len() ==> lower_hex(#[trigger] b[i]),
        hex_value(a) == hex_value(b),
    ensures
        a == b,
    decreases a.len(),
{
    if a.len() > 0 {
        let (qa, qb) = (a.drop_last(), b.drop_last());
        assert forall|i: int| 0 <= i < qa.len() implies lower_hex(#[trigger] qa[i]) by {
            assert(qa[i] == a[i]);
        }
        assert forall|i: int| 0 <= i < qb.len() implies lower_hex(#[trigger] qb[i]) by {
            assert(qb[i] == b[i]);
        }
        assert(lower_hex(a[a.len() - 1]) && lower_hex(b[b.len() - 1]));
        lemma_lower_hex_is_digit(a.last());
        lemma_lower_hex_is_digit(b.last());
        lemma_digit_split(hex_value(qa) as int, digit_value(a.last())->0 as int, hex_value(qb) as int, digit_value(b.last())->0 as int);
        lemma_lower_hex_unique(qa, qb);
        assert(a =~= qa.push(a.last()));
        assert(b =~= qb.push(b.last()));
    }
}

proof fn lemma_half_lower(t: Seq<char>, x: u64)
    requires
        t.len() == 16,
        radix16(t) == Some(x),
    ensures
        hex_u64(x) == hex_lower(t),
{
    lemma_hex_u64_value(x);
    lemma_hex_lower_value(t);
    assert forall|i: int| 0 <= i < 16 implies lower_hex(#[trigger] hex_u64(x)[i]) by {
        lemma_hex_char(x, i);
        lemma_digit_roundtrip(nibble(x, i));
    }
    lemma_lower_hex_unique(hex_u64(x), hex_lower(t));
}

impl WorkId {
    /// An id read from text writes back as that text, trimmed, with its
    /// letters made lowercase.
    pub proof fn lemma_hex_reads_back(s: Seq<char>)
        ensures
            parse_hex(s) matches Some(w) ==> w.hex() == hex_lower(trim(s)),
    {
        if let Some(w) = parse_hex(s) {
            let t = trim(s);
            lemma_half_lower(t.subrange(0, 16), w.hi);
            lemma_half_lower(t.subrange(16, 32), w.lo);
            assert(hex_lower(t) =~= hex_lower(t.subrange(0, 16)) + hex_lower(t.subrange(16, 32)));
        }
    }
}

/// Names the XXH3 128-bit hash of a byte string.
pub uninterp spec fn spec_xxh3_128(data: Seq<u8>) -> u128;

/// `xxhash_rust::xxh3::xxh3_128`: the hash is a function of the bytes alone.
#[verifier::external_body]
fn xxh3_128(data: &[u8]) -> (h: u128)
    ensures
        h == spec_xxh3_128(data@),
{
    xxhash_rust::xxh3::xxh3_128(data)
}

/// Little-endian bytes of a `u32`.
pub open spec fn le32(x: u32) -> Seq<u8> {
    Seq::new(4, |i: int| ((x >> ((8 * i) as u32)) & 0xff) as u8)
}

/// Little-endian bytes of a `u128`.
pub open spec fn le128(x: u128) -> Seq<u8> {
    Seq::new(16, |i: int| ((x >> ((8 * i) as u128)) & 0xff) as u8)
}

/// Each part prefixed by its length as a little-endian `u32`, concatenated.
pub open spec fn framed(parts: Seq<Seq<u8>>) -> Seq<u8>
    decreases parts.len(),
{
    if parts.len() == 0 {
        Seq::empty()
    } else {
        framed(parts.drop_last()) + le32(parts.last().len() as u32) + parts.last()
    }
}

/// The length-prefixed xxh3 id of a list of parts.
pub open spec fn mint_of(parts: Seq<Seq<u8>>) -> WorkId {
    let h = spec_xxh3_128(framed(parts));
    WorkId { hi: (h as nat / two64()) as u64, lo: (h as nat % two64()) as u64 }
}

/// The parts a work id is minted from.
pub open spec fn mint_parts(
    parent: WorkId,
    root: WorkId,
    role: Seq<char>,
    summary: Seq<char>,
    seq: u64,
    salt: Seq<u8>,
) -> Seq<Seq<u8>> {
    seq![
        be_bytes(parent.hi) + be_bytes(parent.lo),
        be_bytes(root.hi) + be_bytes(root.lo),
        vstd::utf8::encode_utf8(role),
        Seq::empty(),
        le128(spec_xxh3_128(vstd::utf8::encode_utf8(summary))),
        le_bytes(seq),
        salt,
    ]
}

pub(crate) fn append_bytes(buf: &mut Vec<u8>, src: &[u8])
    ensures
        final(buf)@ == old(buf)@ + src@,
{
    let ghost start = buf@;
    let mut i: usize = 0;
    while i < src.len()
        invariant
            i <= src@.len(),
            buf@ == start + src@.take(i as int),
        decreases src@.len() - i,
    {
        buf.push(src[i]);
        i = i + 1;
        assert(src@.take(i as int) == src@.take(i - 1).push(src@[i - 1]));
    }
    assert(src@.take(src@.len() as int) == src@);
}

/// Append one part, prefixed by its length.
fn append_framed(buf: &mut Vec<u8>, part: &[u8])
    ensures
        final(buf)@ == old(buf)@ + le32(part@.len() as u32) + part@,
{
    let n = part.len() as u32;
    let len = [
        ((n >> 0u32) & 0xff) as u8,
        ((n >> 8u32) & 0xff) as u8,
        ((n >> 16u32) & 0xff) as u8,
        ((n >> 24u32) & 0xff) as u8,
    ];
    assert(len@ =~= le32(part@.len() as u32));
    append_bytes(buf, len.as_slice());
    append_bytes(buf, part);
}

pub fn u64_le(x: u64) -> (out: [u8; 8])
    ensures
        out@ == le_bytes(x),
{
    let out = [
        ((x >> 0u64) & 0xff) as u8,
        ((x >> 8u64) & 0xff) as u8,
        ((x >> 16u64) & 0xff) as u8,
        ((x >> 24u64) & 0xff) as u8,
        ((x >> 32u64) & 0xff) as u8,
        ((x >> 40u64) & 0xff) as u8,
        ((x >> 48u64) & 0xff) as u8,
        ((x >> 56u64) & 0xff) as u8,
    ];
    assert(out@ =~= le_bytes(x));
    out
}

fn u128_le(x: u128) -> (out: Vec<u8>)
    ensures
        out@ == le128(x),
{
    let mut out: Vec<u8> = Vec::new();
    let mut i: u128 = 0;
    while i < 16
        invariant
            i <= 16,
            out@ == le128(x).take(i as int),
        decreases 16 - i,
    {
        out.push(((x >> (8 * i)) & 0xff) as u8);
        i = i + 1;
        assert(out@ =~= le128(x).take(i as int));
    }
    assert(le128(x).take(16) =~= le128(x));
    out
}

/// Same length-prefixed xxh3 family the seat already minted with.
pub fn mint_work_id(
    parent: WorkId,
    root: WorkId,
    role: &str,
    summary: &str,
    seq: u64,
    salt: &[u8],
) -> (id: WorkId)
    ensures
        id == mint_of(mint_parts(parent, root, role@, summary@, seq, salt@)),
{
    let prompt_hash = u128_le(xxh3_128(summary.as_bytes()));
    let p0 = parent.to_be_bytes();
    let p1 = root.to_be_bytes();
    let seq_bytes = u64_le(seq);
    let empty: [u8; 0] = [];
    let mut buf: Vec<u8> = Vec::new();
    append_framed(&mut buf, p0.as_slice());
    append_framed(&mut buf, p1.as_slice());
    append_framed(&mut buf, role.as_bytes());
    append_framed(&mut buf, empty.as_slice());
    append_framed(&mut buf, prompt_hash.as_slice());
    append_framed(&mut buf, seq_bytes.as_slice());
    append_framed(&mut buf, salt);
    let ghost parts = mint_parts(parent, root, role@, summary@, seq, salt@);
    proof {
        reveal_with_fuel(framed, 8);
        assert(empty@ =~= Seq::<u8>::empty());
        assert(parts.drop_last().drop_last().drop_last().drop_last().drop_last().drop_last().drop_last() =~= Seq::<Seq<u8>>::empty());
        assert(parts.drop_last().drop_last().drop_last().drop_last().drop_last().drop_last().last() == p0@);
        assert(buf@ =~= framed(parts));
    }
    WorkId::from_u128(xxh3_128(buf.as_slice()))
}

/// `16^n`.
pub open spec fn pow16(n: nat) -> nat
    decreases n,
{
    if n == 0 {
        1
    } else {
        16 * pow16((n - 1) as nat)
    }
}

proof fn lemma_pow16_step(n: nat)
    ensures
        pow16(n + 1) == 16 * pow16(n),
{
}

proof fn lemma_pow16_mono(a: nat, b: nat)
    requires
        a <= b,
    ensures
        pow16(a) <= pow16(b),
        pow16(15) == 0x1000_0000_0000_0000,
        pow16(16) == 0x1_0000_0000_0000_0000,
    decreases b,
{
    reveal_with_fuel(pow16, 17);
    if a < b {
        lemma_pow16_mono(a, (b - 1) as nat);
    }
}

} // verus!
