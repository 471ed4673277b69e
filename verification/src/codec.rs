//! Fixed-width integers, hexadecimal digits and byte-string comparison.

use vstd::prelude::*;

verus! {

/// The two big-endian bytes of `n`.
pub open spec fn be16(n: u16) -> Seq<u8> {
    seq![(n / 0x100) as u8, (n % 0x100) as u8]
}

/// The four big-endian bytes of `n`.
pub open spec fn be32(n: u32) -> Seq<u8> {
    seq![
        (n / 0x100_0000) as u8,
        (n / 0x1_0000 % 0x100) as u8,
        (n / 0x100 % 0x100) as u8,
        (n % 0x100) as u8,
    ]
}

/// The number whose big-endian bytes stand in `s` at offset `at`.
pub open spec fn be16_at(s: Seq<u8>, at: int) -> u16 {
    (s[at] * 0x100 + s[at + 1]) as u16
}

/// The number whose big-endian bytes stand in `s` at offset `at`.
pub open spec fn be32_at(s: Seq<u8>, at: int) -> u32 {
    (s[at] * 0x100_0000 + s[at + 1] * 0x1_0000 + s[at + 2] * 0x100 + s[at + 3]) as u32
}

/// The four little-endian bytes of `n`.
#[verifier::opaque]
pub open spec fn le32(n: u32) -> Seq<u8> {
    seq![
        (n % 0x100) as u8,
        (n / 0x100 % 0x100) as u8,
        (n / 0x1_0000 % 0x100) as u8,
        (n / 0x100_0000) as u8,
    ]
}

/// The eight little-endian bytes of `n`.
#[verifier::opaque]
pub open spec fn le64(n: u64) -> Seq<u8> {
    le32((n % 0x1_0000_0000) as u32) + le32((n / 0x1_0000_0000) as u32)
}

/// A big-endian 32-bit field, wherever it stands, reads back as the number
/// that was written.
pub proof fn lemma_be32_read_back(before: Seq<u8>, n: u32, after: Seq<u8>)
    ensures
        be32_at(before + be32(n) + after, before.len() as int) == n,
{
    let s = before + be32(n) + after;
    let at = before.len() as int;
    assert(s[at] == be32(n)[0]);
    assert(s[at + 1] == be32(n)[1]);
    assert(s[at + 2] == be32(n)[2]);
    assert(s[at + 3] == be32(n)[3]);
}

/// A big-endian 16-bit field, wherever it stands, reads back as the number
/// that was written.
pub proof fn lemma_be16_read_back(before: Seq<u8>, n: u16, after: Seq<u8>)
    ensures
        be16_at(before + be16(n) + after, before.len() as int) == n,
{
    let s = before + be16(n) + after;
    let at = before.len() as int;
    assert(s[at] == be16(n)[0]);
    assert(s[at + 1] == be16(n)[1]);
}

/// Little-endian fields have a fixed length.
pub broadcast proof fn lemma_le32_len(n: u32)
    ensures
        #[trigger] le32(n).len() == 4,
{
    reveal(le32);
}

/// Little-endian fields have a fixed length.
pub broadcast proof fn lemma_le64_len(n: u64)
    ensures
        #[trigger] le64(n).len() == 8,
{
    reveal(le32);
    reveal(le64);
}

/// Numbers with the same four little-endian bytes are equal.
pub proof fn lemma_le32_injective(a: u32, b: u32)
    requires
        le32(a) == le32(b),
    ensures
        a == b,
{
    reveal(le32);
    assert(le32(a)[0] == le32(b)[0]);
    assert(le32(a)[1] == le32(b)[1]);
    assert(le32(a)[2] == le32(b)[2]);
    assert(le32(a)[3] == le32(b)[3]);
}

/// Numbers with the same eight little-endian bytes are equal.
pub proof fn lemma_le64_injective(a: u64, b: u64)
    requires
        le64(a) == le64(b),
    ensures
        a == b,
{
    broadcast use lemma_le32_len;

    reveal(le64);
    assert(le64(a).subrange(0, 4) == le32((a % 0x1_0000_0000) as u32));
    assert(le64(b).subrange(0, 4) == le32((b % 0x1_0000_0000) as u32));
    assert(le64(a).subrange(4, 8) == le32((a / 0x1_0000_0000) as u32));
    assert(le64(b).subrange(4, 8) == le32((b / 0x1_0000_0000) as u32));
    lemma_le32_injective((a % 0x1_0000_0000) as u32, (b % 0x1_0000_0000) as u32);
    lemma_le32_injective((a / 0x1_0000_0000) as u32, (b / 0x1_0000_0000) as u32);
}

/// The low 32 bits of a length.
pub fn low32(n: usize) -> (r: u32)
    ensures
        r == (n as int) % 0x1_0000_0000,
{
    let wide: u64 = n as u64;
    assert(wide as u32 == wide % 0x1_0000_0000) by (bit_vector);
    #[verifier::truncate]
    let r: u32 = wide as u32;
    r
}

/// Appends a run of bytes.
pub fn push_bytes(buf: &mut Vec<u8>, bytes: &[u8])
    ensures
        final(buf)@ == old(buf)@ + bytes@,
{
    let mut i: usize = 0;
    let ghost start = buf@;
    while i < bytes.len()
        invariant
            i <= bytes@.len(),
            buf@ == start + bytes@.take(i as int),
        decreases bytes@.len() - i,
    {
        buf.push(bytes[i]);
        assert(bytes@.take(i + 1) == bytes@.take(i as int).push(bytes@[i as int]));
        i += 1;
    }
    assert(bytes@.take(i as int) == bytes@);
}

/// Appends the big-endian bytes of `n`.
pub fn push_be16(buf: &mut Vec<u8>, n: u16)
    ensures
        final(buf)@ == old(buf)@ + be16(n),
{
    buf.push((n / 0x100) as u8);
    buf.push((n % 0x100) as u8);
}

/// Appends the big-endian bytes of `n`.
pub fn push_be32(buf: &mut Vec<u8>, n: u32)
    ensures
        final(buf)@ == old(buf)@ + be32(n),
{
    buf.push((n / 0x100_0000) as u8);
    buf.push((n / 0x1_0000 % 0x100) as u8);
    buf.push((n / 0x100 % 0x100) as u8);
    buf.push((n % 0x100) as u8);
}

/// Appends the little-endian bytes of `n`.
pub fn push_le32(buf: &mut Vec<u8>, n: u32)
    ensures
        final(buf)@ == old(buf)@ + le32(n),
{
    proof {
        reveal(le32);
    }
    buf.push((n % 0x100) as u8);
    buf.push((n / 0x100 % 0x100) as u8);
    buf.push((n / 0x1_0000 % 0x100) as u8);
    buf.push((n / 0x100_0000) as u8);
}

/// Appends the little-endian bytes of `n`.
pub fn push_le64(buf: &mut Vec<u8>, n: u64)
    ensures
        final(buf)@ == old(buf)@ + le64(n),
{
    proof {
        reveal(le64);
    }
    push_le32(buf, (n % 0x1_0000_0000) as u32);
    push_le32(buf, (n / 0x1_0000_0000) as u32);
}

/// Reads the big-endian number at offset `at`.
pub fn read_be16(data: &[u8], at: usize) -> (r: u16)
    requires
        at + 2 <= data@.len(),
    ensures
        r == be16_at(data@, at as int),
{
    data[at] as u16 * 0x100 + data[at + 1] as u16
}

/// Reads the big-endian number at offset `at`.
pub fn read_be32(data: &[u8], at: usize) -> (r: u32)
    requires
        at + 4 <= data@.len(),
    ensures
        r == be32_at(data@, at as int),
{
    data[at] as u32 * 0x100_0000 + data[at + 1] as u32 * 0x1_0000 + data[at + 2] as u32 * 0x100
        + data[at + 3] as u32
}

/// Compares two arrays byte by byte.
pub fn arrays_equal<const N: usize>(a: &[u8; N], b: &[u8; N]) -> (r: bool)
    ensures
        r == (a@ == b@),
        r == (*a == *b),
{
    let mut i: usize = 0;
    while i < N
        invariant
            i <= N,
            forall|k: int| 0 <= k < i ==> a[k] == b[k],
        decreases N - i,
    {
        if a[i] != b[i] {
            return false;
        }
        i += 1;
    }
    assert(a@ == b@);
    assert(*a =~= *b);
    true
}

/// Compares two byte strings.
pub fn slices_equal(a: &[u8], b: &[u8]) -> (r: bool)
    ensures
        r == (a@ == b@),
{
    if a.len() != b.len() {
        return false;
    }
    let mut i: usize = 0;
    while i < a.len()
        invariant
            i <= a@.len() == b@.len(),
            forall|k: int| 0 <= k < i ==> a@[k] == b@[k],
        decreases a@.len() - i,
    {
        if a[i] != b[i] {
            return false;
        }
        i += 1;
    }
    assert(a@ == b@);
    true
}

/// Byte strings in dictionary order: `a` stands strictly before `b`.
pub open spec fn lex_before(a: Seq<u8>, b: Seq<u8>) -> bool {
    exists|k: int| #[trigger] lex_splits_at(a, b, k)
}

/// `a` and `b` agree below `k`, and there `a` ends or has the smaller byte.
pub open spec fn lex_splits_at(a: Seq<u8>, b: Seq<u8>, k: int) -> bool {
    &&& 0 <= k <= a.len()
    &&& k < b.len()
    &&& forall|j: int| 0 <= j < k ==> a[j] == b[j]
    &&& k == a.len() || a[k] < b[k]
}

/// Whether `a` stands strictly before `b` in dictionary order.
pub fn lex_less(a: &[u8], b: &[u8]) -> (r: bool)
    ensures
        r == lex_before(a@, b@),
{
    let mut i: usize = 0;
    while i < a.len() && i < b.len() && a[i] == b[i]
        invariant
            i <= a@.len(),
            i <= b@.len(),
            forall|k: int| 0 <= k < i ==> a@[k] == b@[k],
        decreases a@.len() - i,
    {
        i += 1;
    }
    let r = i < b.len() && (i >= a.len() || a[i] < b[i]);
    proof {
        if r {
            assert(lex_splits_at(a@, b@, i as int));
        } else if lex_before(a@, b@) {
            let k = choose|k: int| lex_splits_at(a@, b@, k);
            assert(k == i);
        }
    }
    r
}

/// Dictionary order is a strict total order.
pub proof fn lemma_lex_total(a: Seq<u8>, b: Seq<u8>)
    ensures
        !lex_before(a, a),
        !(lex_before(a, b) && lex_before(b, a)),
        lex_before(a, b) || a == b || lex_before(b, a),
{
    if lex_before(a, a) {
        let k = choose|k: int| lex_splits_at(a, a, k);
        assert(false);
    }
    if lex_before(a, b) && lex_before(b, a) {
        let k = choose|k: int| lex_splits_at(a, b, k);
        let j = choose|j: int| lex_splits_at(b, a, j);
        assert(k == j);
        assert(false);
    }
    if a != b {
        lemma_first_difference(a, b, 0);
    }
}

/// Two different byte strings that agree below `from` are told apart by
/// dictionary order.
proof fn lemma_first_difference(a: Seq<u8>, b: Seq<u8>, from: int)
    requires
        a != b,
        0 <= from <= a.len(),
        from <= b.len(),
        forall|j: int| 0 <= j < from ==> a[j] == b[j],
    ensures
        lex_before(a, b) || lex_before(b, a),
    decreases a.len() - from,
{
    if from == a.len() {
        if from == b.len() {
            assert(a == b);
        }
        assert(lex_splits_at(a, b, from));
    } else if from == b.len() || b[from] < a[from] {
        assert(lex_splits_at(b, a, from));
    } else if a[from] < b[from] {
        assert(lex_splits_at(a, b, from));
    } else {
        lemma_first_difference(a, b, from + 1);
    }
}

/// Dictionary order is transitive.
pub proof fn lemma_lex_transitive(a: Seq<u8>, b: Seq<u8>, c: Seq<u8>)
    requires
        lex_before(a, b),
        lex_before(b, c),
    ensures
        lex_before(a, c),
{
    let k = choose|k: int| lex_splits_at(a, b, k);
    let j = choose|j: int| lex_splits_at(b, c, j);
    if k <= j {
        assert(lex_splits_at(a, c, k));
    } else {
        assert(lex_splits_at(a, c, j));
    }
}

// ── Laws ────────────────────────────────────────────────────────────

/// Big-endian bytes begin with the highest: each byte weighs 256 times the next.
pub proof fn law_big_endian(n: u32, m: u16, s: Seq<u8>, at: int)
    ensures
        be32(n).len() == 4,
        be32(n)[0] * 16_777_216 + be32(n)[1] * 65_536 + be32(n)[2] * 256 + be32(n)[3] == n,
        be16(m).len() == 2,
        be16(m)[0] * 256 + be16(m)[1] == m,
        be32_at(s, at) == s[at] * 16_777_216 + s[at + 1] * 65_536 + s[at + 2] * 256 + s[at + 3],
        be16_at(s, at) == s[at] * 256 + s[at + 1],
{
}

/// Little-endian bytes begin with the lowest: each byte weighs 256 times the one
/// before.
pub proof fn law_little_endian(n: u32, m: u64)
    ensures
        le32(n).len() == 4,
        le32(n)[0] + le32(n)[1] * 256 + le32(n)[2] * 65_536 + le32(n)[3] * 16_777_216 == n,
        le64(m).len() == 8,
        le64(m).take(4) == le32((m % 0x1_0000_0000) as u32),
        le64(m).skip(4) == le32((m / 0x1_0000_0000) as u32),
{
    reveal(le32);
    reveal(le64);
}

/// Dictionary order: a byte string stands before another if it is a proper
/// beginning of it, or has the smaller byte where they first differ. Of two
/// different strings one stands before the other, and never both.
pub proof fn law_dictionary_order(a: Seq<u8>, b: Seq<u8>, c: Seq<u8>, x: u8, y: u8)
    ensures
        c.len() > 0 ==> lex_before(a, a + c),
        x < y ==> lex_before(a + seq![x] + b, a + seq![y] + c),
        a != b ==> lex_before(a, b) || lex_before(b, a),
        !(lex_before(a, b) && lex_before(b, a)),
{
    lemma_lex_total(a, b);
    if c.len() > 0 {
        assert(lex_splits_at(a, a + c, a.len() as int));
    }
    if x < y {
        assert(lex_splits_at(a + seq![x] + b, a + seq![y] + c, a.len() as int));
    }
}

} // verus!
