//! The order of paths: character by character, by Unicode scalar value. It
//! is the order in which `str` and `String` compare, byte by byte over the
//! UTF-8 encoding.

use vstd::prelude::*;
use vstd::utf8::{
    char_is_scalar, encode_scalar, encode_utf8, encode_utf8_decode_utf8, has_width_1_encoding,
    has_width_2_encoding, has_width_3_encoding, has_width_4_encoding, is_scalar,
};

verus! {

/// `a` sorts at or before `b`: the first character in which they differ
/// decides, by its scalar value, and a proper prefix comes before what it is
/// a prefix of.
pub open spec fn path_le(a: Seq<char>, b: Seq<char>) -> bool
    decreases a.len(),
{
    if a.len() == 0 {
        true
    } else if b.len() == 0 {
        false
    } else if a[0] == b[0] {
        path_le(a.drop_first(), b.drop_first())
    } else {
        (a[0] as u32) < (b[0] as u32)
    }
}

/// `a` sorts strictly before `b`.
pub open spec fn path_lt(a: Seq<char>, b: Seq<char>) -> bool {
    path_le(a, b) && a != b
}

/// The same order on byte strings.
pub open spec fn bytes_le(a: Seq<u8>, b: Seq<u8>) -> bool
    decreases a.len(),
{
    if a.len() == 0 {
        true
    } else if b.len() == 0 {
        false
    } else if a[0] == b[0] {
        bytes_le(a.drop_first(), b.drop_first())
    } else {
        a[0] < b[0]
    }
}

/// `x` and `y` agree before position `k` and `x` has the lesser byte there.
pub open spec fn differ_first_at(x: Seq<u8>, y: Seq<u8>, k: int) -> bool {
    &&& 0 <= k < x.len()
    &&& k < y.len()
    &&& forall|i: int| 0 <= i < k ==> x[i] == y[i]
    &&& x[k] < y[k]
}

proof fn lemma_scalar_value_injective(x: char, y: char)
    requires
        x != y,
    ensures
        x as u32 != y as u32,
{
}

proof fn lemma_path_le_reflexive(a: Seq<char>)
    ensures
        path_le(a, a),
    decreases a.len(),
{
    if a.len() > 0 {
        lemma_path_le_reflexive(a.drop_first());
    }
}

proof fn lemma_path_le_antisymmetric(a: Seq<char>, b: Seq<char>)
    requires
        path_le(a, b),
        path_le(b, a),
    ensures
        a == b,
    decreases a.len(),
{
    if a.len() > 0 && b.len() > 0 {
        lemma_path_le_antisymmetric(a.drop_first(), b.drop_first());
        assert(b =~= seq![b[0]] + b.drop_first());
    }
}

proof fn lemma_path_le_transitive(a: Seq<char>, b: Seq<char>, c: Seq<char>)
    requires
        path_le(a, b),
        path_le(b, c),
    ensures
        path_le(a, c),
    decreases a.len(),
{
    if a.len() > 0 && b.len() > 0 && c.len() > 0 && a[0] == b[0] && b[0] == c[0] {
        lemma_path_le_transitive(a.drop_first(), b.drop_first(), c.drop_first());
    }
}

proof fn lemma_path_le_connected(a: Seq<char>, b: Seq<char>)
    ensures
        path_le(a, b) || path_le(b, a),
    decreases a.len(),
{
    if a.len() > 0 && b.len() > 0 {
        if a[0] == b[0] {
            lemma_path_le_connected(a.drop_first(), b.drop_first());
        } else {
            lemma_scalar_value_injective(a[0], b[0]);
        }
    }
}

/// The order of paths is a total order.
pub proof fn lemma_path_le_total_order(a: Seq<char>, b: Seq<char>, c: Seq<char>)
    ensures
        path_le(a, a),
        path_le(a, b) && path_le(b, a) ==> a == b,
        path_le(a, b) && path_le(b, c) ==> path_le(a, c),
        path_le(a, b) || path_le(b, a),
{
    lemma_path_le_reflexive(a);
    lemma_path_le_connected(a, b);
    if path_le(a, b) && path_le(b, a) {
        lemma_path_le_antisymmetric(a, b);
    }
    if path_le(a, b) && path_le(b, c) {
        lemma_path_le_transitive(a, b, c);
    }
}

proof fn lemma_leading_bytes(c: u32)
    by (bit_vector)
    ensures
        c <= 0x7F ==> (c & 0x7F) as u8 == c && (c & 0x7F) as u8 <= 0x7F,
        0xC0 <= (0xC0 | ((c >> 6) & 0x1F) as u8) <= 0xDF,
        0xE0 <= (0xE0 | ((c >> 12) & 0x0F) as u8) <= 0xEF,
        0xF0 <= (0xF0 | ((c >> 18) & 0x7) as u8) <= 0xF7,
{
}

proof fn lemma_two_bytes_in_order(c: u32, d: u32)
    by (bit_vector)
    requires
        c < d,
        d <= 0x7FF,
    ensures
        ({
            let c0 = 0xC0 | ((c >> 6) & 0x1F) as u8;
            let c1 = 0x80 | (c & 0x3F) as u8;
            let d0 = 0xC0 | ((d >> 6) & 0x1F) as u8;
            let d1 = 0x80 | (d & 0x3F) as u8;
            c0 < d0 || (c0 == d0 && c1 < d1)
        }),
{
}

proof fn lemma_three_bytes_in_order(c: u32, d: u32)
    by (bit_vector)
    requires
        c < d,
        d <= 0xFFFF,
    ensures
        ({
            let c0 = 0xE0 | ((c >> 12) & 0x0F) as u8;
            let c1 = 0x80 | ((c >> 6) & 0x3F) as u8;
            let c2 = 0x80 | (c & 0x3F) as u8;
            let d0 = 0xE0 | ((d >> 12) & 0x0F) as u8;
            let d1 = 0x80 | ((d >> 6) & 0x3F) as u8;
            let d2 = 0x80 | (d & 0x3F) as u8;
            c0 < d0 || (c0 == d0 && (c1 < d1 || (c1 == d1 && c2 < d2)))
        }),
{
}

proof fn lemma_four_bytes_in_order(c: u32, d: u32)
    by (bit_vector)
    requires
        c < d,
        d <= 0x10FFFF,
    ensures
        ({
            let c0 = 0xF0 | ((c >> 18) & 0x7) as u8;
            let c1 = 0x80 | ((c >> 12) & 0x3F) as u8;
            let c2 = 0x80 | ((c >> 6) & 0x3F) as u8;
            let c3 = 0x80 | (c & 0x3F) as u8;
            let d0 = 0xF0 | ((d >> 18) & 0x7) as u8;
            let d1 = 0x80 | ((d >> 12) & 0x3F) as u8;
            let d2 = 0x80 | ((d >> 6) & 0x3F) as u8;
            let d3 = 0x80 | (d & 0x3F) as u8;
            c0 < d0 || (c0 == d0 && (c1 < d1 || (c1 == d1 && (c2 < d2 || (c2 == d2 && c3 < d3)))))
        }),
{
}

/// The encodings of two scalar values differ first in a byte that is lesser
/// in the encoding of the lesser value.
proof fn lemma_encodings_in_order(c: u32, d: u32) -> (k: int)
    requires
        is_scalar(c),
        is_scalar(d),
        c < d,
    ensures
        differ_first_at(encode_scalar(c), encode_scalar(d), k),
{
    let x = encode_scalar(c);
    let y = encode_scalar(d);
    lemma_leading_bytes(c);
    lemma_leading_bytes(d);
    if has_width_1_encoding(d) {
        0
    } else if has_width_2_encoding(d) {
        if has_width_2_encoding(c) {
            lemma_two_bytes_in_order(c, d);
            if x[0] < y[0] {
                0
            } else {
                1
            }
        } else {
            0
        }
    } else if has_width_3_encoding(d) {
        if has_width_3_encoding(c) {
            lemma_three_bytes_in_order(c, d);
            if x[0] < y[0] {
                0
            } else if x[1] < y[1] {
                1
            } else {
                2
            }
        } else {
            0
        }
    } else {
        if has_width_4_encoding(c) {
            lemma_four_bytes_in_order(c, d);
            if x[0] < y[0] {
                0
            } else if x[1] < y[1] {
                1
            } else if x[2] < y[2] {
                2
            } else {
                3
            }
        } else {
            0
        }
    }
}

proof fn lemma_first_difference_decides(x: Seq<u8>, y: Seq<u8>, k: int, s: Seq<u8>, t: Seq<u8>)
    requires
        differ_first_at(x, y, k),
    ensures
        bytes_le(x + s, y + t),
        !bytes_le(y + t, x + s),
    decreases k,
{
    if k > 0 {
        assert((x + s).drop_first() =~= x.drop_first() + s);
        assert((y + t).drop_first() =~= y.drop_first() + t);
        assert forall|i: int| 0 <= i < k - 1 implies x.drop_first()[i] == y.drop_first()[i] by {
        }
        lemma_first_difference_decides(x.drop_first(), y.drop_first(), k - 1, s, t);
    }
}

proof fn lemma_common_start_cancels(p: Seq<u8>, s: Seq<u8>, t: Seq<u8>)
    ensures
        bytes_le(p + s, p + t) == bytes_le(s, t),
    decreases p.len(),
{
    if p.len() > 0 {
        assert((p + s).drop_first() =~= p.drop_first() + s);
        assert((p + t).drop_first() =~= p.drop_first() + t);
        lemma_common_start_cancels(p.drop_first(), s, t);
    }
}

/// Paths are ordered as their UTF-8 encodings are, byte by byte: the order
/// of `str`.
pub proof fn lemma_path_le_is_byte_order(a: Seq<char>, b: Seq<char>)
    ensures
        path_le(a, b) == bytes_le(encode_utf8(a), encode_utf8(b)),
    decreases a.len(),
{
    if a.len() > 0 && b.len() > 0 {
        let c = a[0] as u32;
        let d = b[0] as u32;
        char_is_scalar(a[0]);
        char_is_scalar(b[0]);
        let s = encode_utf8(a.drop_first());
        let t = encode_utf8(b.drop_first());
        if a[0] == b[0] {
            lemma_common_start_cancels(encode_scalar(c), s, t);
            lemma_path_le_is_byte_order(a.drop_first(), b.drop_first());
        } else if c < d {
            let k = lemma_encodings_in_order(c, d);
            lemma_first_difference_decides(encode_scalar(c), encode_scalar(d), k, s, t);
        } else {
            lemma_scalar_value_injective(a[0], b[0]);
            let k = lemma_encodings_in_order(d, c);
            lemma_first_difference_decides(encode_scalar(d), encode_scalar(c), k, t, s);
        }
    }
}

/// Two texts with the same UTF-8 encoding are the same text.
pub proof fn lemma_encoding_injective(a: Seq<char>, b: Seq<char>)
    requires
        encode_utf8(a) == encode_utf8(b),
    ensures
        a == b,
{
    encode_utf8_decode_utf8(a);
    encode_utf8_decode_utf8(b);
}

/// Where one path stands relative to another.
#[derive(Clone, Copy, Debug, PartialEq, Eq)]
pub enum Rank {
    Before,
    Same,
    After,
}

/// Where `a` stands relative to `b`.
pub open spec fn rank_of(a: Seq<char>, b: Seq<char>) -> Rank {
    if a == b {
        Rank::Same
    } else if path_le(a, b) {
        Rank::Before
    } else {
        Rank::After
    }
}

fn rank_bytes(a: &[u8], b: &[u8]) -> (r: Rank)
    ensures
        match r {
            Rank::Before => bytes_le(a@, b@) && a@ != b@,
            Rank::Same => a@ == b@,
            Rank::After => !bytes_le(a@, b@),
        },
{
    let mut i: usize = 0;
    proof {
        assert(a@.skip(0) =~= a@);
        assert(b@.skip(0) =~= b@);
    }
    while i < a.len() && i < b.len()
        invariant
            i <= a.len(),
            i <= b.len(),
            a@.take(i as int) == b@.take(i as int),
            bytes_le(a@, b@) == bytes_le(a@.skip(i as int), b@.skip(i as int)),
        decreases a.len() - i,
    {
        let x: u8 = a[i];
        let y: u8 = b[i];
        proof {
            assert(a@.skip(i as int).drop_first() =~= a@.skip(i + 1));
            assert(b@.skip(i as int).drop_first() =~= b@.skip(i + 1));
        }
        if x != y {
            return if x < y {
                Rank::Before
            } else {
                Rank::After
            };
        }
        i = i + 1;
    }
    if i < b.len() {
        Rank::Before
    } else if i < a.len() {
        Rank::After
    } else {
        Rank::Same
    }
}

/// Ranks two paths.
pub fn rank_paths(a: &str, b: &str) -> (r: Rank)
    ensures
        r == rank_of(a@, b@),
{
    let r = rank_bytes(a.as_bytes(), b.as_bytes());
    proof {
        lemma_path_le_is_byte_order(a@, b@);
        lemma_path_le_reflexive(a@);
        if encode_utf8(a@) == encode_utf8(b@) {
            lemma_encoding_injective(a@, b@);
        }
    }
    r
}

} // verus!
