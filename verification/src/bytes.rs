//! Byte strings: comparison, prefixes and little-endian integers.

use vstd::prelude::*;
use vstd::slice::slice_subrange;

verus! {

/// Whether `key` begins with `prefix`.
pub open spec fn has_prefix(key: Seq<u8>, prefix: Seq<u8>) -> bool {
    prefix.len() <= key.len() && key.subrange(0, prefix.len() as int) == prefix
}

/// Strict lexicographic order on byte strings, the order in which a database yields its keys.
pub open spec fn bytes_before(a: Seq<u8>, b: Seq<u8>) -> bool {
    exists|i: int| #![trigger first_difference(a, b, i)] first_difference(a, b, i)
        && i < b.len() && (i == a.len() || a[i] < b[i])
}

/// `a` and `b` agree before position `i`, and one of them ends there or they differ there.
pub open spec fn first_difference(a: Seq<u8>, b: Seq<u8>, i: int) -> bool {
    &&& 0 <= i <= a.len()
    &&& i <= b.len()
    &&& a.subrange(0, i) == b.subrange(0, i)
    &&& (i == a.len() || i == b.len() || a[i] != b[i])
}

/// The unsigned little-endian value of the four bytes at `pos`.
pub open spec fn le_u32(s: Seq<u8>, pos: int) -> int {
    s[pos] + 0x100 * s[pos + 1] + 0x1_0000 * s[pos + 2] + 0x100_0000 * s[pos + 3]
}

/// The signed value that has the unsigned representation `v` in 32 bits.
pub open spec fn signed_32(v: int) -> int {
    if v < 0x8000_0000 {
        v
    } else {
        v - 0x1_0000_0000
    }
}

/// The signed little-endian value of the four bytes at `pos`.
pub open spec fn le_i32(s: Seq<u8>, pos: int) -> int {
    signed_32(le_u32(s, pos))
}

/// The four little-endian bytes of `v`.
pub open spec fn le_i32_bytes(v: i32) -> Seq<u8> {
    let u = if v < 0 {
        v + 0x1_0000_0000
    } else {
        v as int
    };
    seq![
        (u % 0x100) as u8,
        (u / 0x100 % 0x100) as u8,
        (u / 0x1_0000 % 0x100) as u8,
        (u / 0x100_0000) as u8,
    ]
}

/// A number is what its four bytes say.
proof fn lemma_four_bytes(u: int)
    requires
        0 <= u < 0x1_0000_0000,
    ensures
        u % 0x100 + 0x100 * (u / 0x100 % 0x100) + 0x1_0000 * (u / 0x1_0000 % 0x100) + 0x100_0000
            * (u / 0x100_0000) == u,
        0 <= u / 0x100_0000 < 0x100,
{
    let a = u / 0x100;
    let b = u / 0x1_0000;
    let c = u / 0x100_0000;
    assert(b == a / 0x100);
    assert(c == b / 0x100);
    assert(u == 0x100 * a + u % 0x100);
    assert(a == 0x100 * b + a % 0x100);
    assert(b == 0x100 * c + b % 0x100);
}

/// Writing a 32-bit integer and reading it back gives the integer.
pub proof fn law_le_i32_round_trip(v: i32)
    ensures
        le_i32_bytes(v).len() == 4,
        le_i32(le_i32_bytes(v), 0) == v,
{
    let u = if v < 0 {
        v + 0x1_0000_0000
    } else {
        v as int
    };
    lemma_four_bytes(u);
    let s = le_i32_bytes(v);
    assert(s[0] == u % 0x100);
    assert(s[1] == u / 0x100 % 0x100);
    assert(s[2] == u / 0x1_0000 % 0x100);
    assert(s[3] == u / 0x100_0000);
    assert(le_u32(s, 0) == u);
}

/// Reading four bytes as an integer and writing the integer gives the bytes.
pub proof fn law_le_i32_bytes_round_trip(s: Seq<u8>)
    requires
        s.len() == 4,
    ensures
        i32::MIN <= le_i32(s, 0) <= i32::MAX,
        le_i32_bytes(le_i32(s, 0) as i32) == s,
{
    let u = le_u32(s, 0);
    assert(u % 0x100 == s[0]);
    assert(u / 0x100 % 0x100 == s[1]);
    assert(u / 0x1_0000 % 0x100 == s[2]);
    assert(u / 0x100_0000 == s[3]);
    assert(le_i32_bytes(le_i32(s, 0) as i32) =~= s);
}

/// Whether two byte strings are equal.
pub fn bytes_equal(a: &[u8], b: &[u8]) -> (r: bool)
    ensures
        r == (a@ == b@),
{
    if a.len() != b.len() {
        return false;
    }
    let mut i: usize = 0;
    while i < a.len()
        invariant
            a.len() == b.len(),
            i <= a.len(),
            forall|j: int| 0 <= j < i ==> a@[j] == b@[j],
        decreases a.len() - i,
    {
        if a[i] != b[i] {
            return false;
        }
        i += 1;
    }
    assert(a@ =~= b@);
    true
}

/// Whether `key` begins with `prefix`.
pub fn starts_with(key: &[u8], prefix: &[u8]) -> (r: bool)
    ensures
        r == has_prefix(key@, prefix@),
{
    if key.len() < prefix.len() {
        return false;
    }
    bytes_equal(slice_subrange(key, 0, prefix.len()), prefix)
}

/// Whether `a` comes strictly before `b` in key order.
pub fn comes_before(a: &[u8], b: &[u8]) -> (r: bool)
    ensures
        r == bytes_before(a@, b@),
{
    let mut i: usize = 0;
    while i < a.len() && i < b.len() && a[i] == b[i]
        invariant
            i <= a.len(),
            i <= b.len(),
            a@.subrange(0, i as int) == b@.subrange(0, i as int),
        decreases a.len() - i,
    {
        assert(a@.subrange(0, i + 1) =~= a@.subrange(0, i as int).push(a@[i as int]));
        assert(b@.subrange(0, i + 1) =~= b@.subrange(0, i as int).push(b@[i as int]));
        i += 1;
    }
    assert(first_difference(a@, b@, i as int));
    proof {
        assert forall|j: int| #[trigger] first_difference(a@, b@, j) implies j == i by {
            lemma_first_difference_unique(a@, b@, i as int, j);
        }
    }
    i < b.len() && (i == a.len() || a[i] < b[i])
}

/// There is only one position at which two byte strings first differ.
pub proof fn lemma_first_difference_unique(a: Seq<u8>, b: Seq<u8>, i: int, j: int)
    requires
        first_difference(a, b, i),
        first_difference(a, b, j),
    ensures
        i == j,
{
    if i < j {
        assert(a.subrange(0, j)[i] == b.subrange(0, j)[i]);
    } else if j < i {
        assert(a.subrange(0, i)[j] == b.subrange(0, i)[j]);
    }
}

/// No byte string comes before itself.
pub proof fn lemma_before_irreflexive(a: Seq<u8>)
    ensures
        !bytes_before(a, a),
{
}

/// The order of byte strings is transitive.
pub proof fn lemma_before_transitive(a: Seq<u8>, b: Seq<u8>, c: Seq<u8>)
    requires
        bytes_before(a, b),
        bytes_before(b, c),
    ensures
        bytes_before(a, c),
{
    let i = choose|i: int|
        first_difference(a, b, i) && i < b.len() && (i == a.len() || a[i] < b[i]);
    let j = choose|j: int|
        first_difference(b, c, j) && j < c.len() && (j == b.len() || b[j] < c[j]);
    let m = if i <= j {
        i
    } else {
        j
    };
    assert forall|k: int| 0 <= k < m implies a[k] == c[k] by {
        assert(a.subrange(0, i)[k] == b.subrange(0, i)[k]);
        assert(b.subrange(0, j)[k] == c.subrange(0, j)[k]);
    }
    if i < j {
        assert(b.subrange(0, j)[i] == c.subrange(0, j)[i]);
    }
    if j < i {
        assert(a.subrange(0, i)[j] == b.subrange(0, i)[j]);
    }
    assert(a.subrange(0, m) =~= c.subrange(0, m));
    assert(first_difference(a, c, m));
}

proof fn lemma_first_difference_from(a: Seq<u8>, b: Seq<u8>, i: int) -> (j: int)
    requires
        0 <= i <= a.len(),
        i <= b.len(),
        a.subrange(0, i) == b.subrange(0, i),
    ensures
        first_difference(a, b, j),
    decreases a.len() - i,
{
    if i == a.len() || i == b.len() || a[i] != b[i] {
        i
    } else {
        assert(a.subrange(0, i + 1) =~= a.subrange(0, i).push(a[i]));
        assert(b.subrange(0, i + 1) =~= b.subrange(0, i).push(b[i]));
        lemma_first_difference_from(a, b, i + 1)
    }
}

/// Of two different byte strings one comes before the other.
pub proof fn lemma_before_total(a: Seq<u8>, b: Seq<u8>)
    ensures
        a == b || bytes_before(a, b) || bytes_before(b, a),
{
    assert(a.subrange(0, 0) =~= b.subrange(0, 0));
    let i = lemma_first_difference_from(a, b, 0);
    assert(first_difference(b, a, i));
    if i == a.len() && i == b.len() {
        assert(a =~= a.subrange(0, i));
        assert(b =~= b.subrange(0, i));
    }
}

/// The unsigned little-endian 32-bit integer at `pos`.
pub fn read_u32_le(data: &[u8], pos: usize) -> (r: u32)
    requires
        pos + 4 <= data@.len(),
    ensures
        r == le_u32(data@, pos as int),
{
    data[pos] as u32 + 0x100 * (data[pos + 1] as u32) + 0x1_0000 * (data[pos + 2] as u32)
        + 0x100_0000 * (data[pos + 3] as u32)
}

/// The signed little-endian 32-bit integer at `pos`.
pub fn read_i32_le(data: &[u8], pos: usize) -> (r: i32)
    requires
        pos + 4 <= data@.len(),
    ensures
        r == le_i32(data@, pos as int),
{
    let v: u32 = read_u32_le(data, pos);
    if v < 0x8000_0000 {
        v as i32
    } else {
        (v as i64 - 0x1_0000_0000) as i32
    }
}

/// Appends the four little-endian bytes of `v`.
pub fn push_i32_le(out: &mut Vec<u8>, v: i32)
    ensures
        final(out)@ == old(out)@ + le_i32_bytes(v),
{
    let u: i64 = if v < 0 {
        v as i64 + 0x1_0000_0000
    } else {
        v as i64
    };
    out.push((u % 0x100) as u8);
    out.push((u / 0x100 % 0x100) as u8);
    out.push((u / 0x1_0000 % 0x100) as u8);
    out.push((u / 0x100_0000) as u8);
    assert(out@ =~= old(out)@ + le_i32_bytes(v));
}

/// A copy of a byte string.
pub fn copy_bytes(data: &[u8]) -> (r: Vec<u8>)
    ensures
        r@ == data@,
{
    vstd::slice::slice_to_vec(data)
}

/// The number with a sign that the low 32 bits of an integer represent.
pub open spec fn wrapped_32(v: int) -> int {
    (v + 0x8000_0000) % 0x1_0000_0000 - 0x8000_0000
}

/// The number with a sign that the low 32 bits of an integer represent.
pub fn wrap_32(v: i64) -> (r: i32)
    ensures
        r == wrapped_32(v as int),
{
    let low: i128 = (v as i128 + 0x1_0000_0000_8000_0000) % 0x1_0000_0000;
    assert((v + 0x1_0000_0000_8000_0000) % 0x1_0000_0000 == (v + 0x8000_0000) % 0x1_0000_0000);
    (low - 0x8000_0000) as i32
}

/// Four bytes are read lowest first, and as a number with a sign.
pub proof fn law_lowest_byte_first(s: Seq<u8>, pos: int)
    ensures
        le_u32(s, pos) == s[pos] + 256 * s[pos + 1] + 65536 * s[pos + 2] + 16777216 * s[pos + 3],
        s[pos + 3] < 128 ==> le_i32(s, pos) == s[pos] + 256 * s[pos + 1] + 65536 * s[pos + 2]
            + 16777216 * s[pos + 3],
        s[pos + 3] >= 128 ==> le_i32(s, pos) == s[pos] + 256 * s[pos + 1] + 65536 * s[pos + 2]
            + 16777216 * s[pos + 3] - 4294967296,
{
}

/// One byte string comes before another exactly if it is a true beginning of the other, or has the
/// lower byte where the two first differ.
pub proof fn law_byte_order(front: Seq<u8>, a: u8, b: u8, x: Seq<u8>, y: Seq<u8>)
    requires
        a < b,
    ensures
        bytes_before(front, front.push(a) + x),
        !bytes_before(front.push(a) + x, front),
        bytes_before(front.push(a) + x, front.push(b) + y),
        !bytes_before(front.push(b) + y, front.push(a) + x),
{
    let n = front.len() as int;
    let low = front.push(a) + x;
    let high = front.push(b) + y;
    assert(front.subrange(0, n) =~= low.subrange(0, n));
    assert(front.subrange(0, n) =~= high.subrange(0, n));
    assert(first_difference(front, low, n));
    assert(first_difference(low, high, n));
    assert(low[n] == a && high[n] == b);
    if bytes_before(low, front) {
        lemma_before_transitive(front, low, front);
        lemma_before_irreflexive(front);
    }
    if bytes_before(high, low) {
        lemma_before_transitive(low, high, low);
        lemma_before_irreflexive(low);
    }
}

/// An integer of 32 bits keeps its value, and integers that differ by a multiple of 2^32 become
/// the same.
pub proof fn law_wrapping(v: int)
    ensures
        i32::MIN <= wrapped_32(v) <= i32::MAX,
        i32::MIN <= v <= i32::MAX ==> wrapped_32(v) == v,
        wrapped_32(v + 4294967296) == wrapped_32(v),
{
}

/// A byte string begins with another exactly if it is the other with something, or nothing, behind
/// it.
pub proof fn law_prefix(key: Seq<u8>, prefix: Seq<u8>, rest: Seq<u8>)
    ensures
        has_prefix(prefix + rest, prefix),
        has_prefix(key, prefix) ==> key == prefix + key.skip(prefix.len() as int),
{
    assert((prefix + rest).subrange(0, prefix.len() as int) =~= prefix);
    if has_prefix(key, prefix) {
        assert(key =~= key.subrange(0, prefix.len() as int) + key.skip(prefix.len() as int));
    }
}

} // verus!
