//! Chunk assembler: character-boundary-safe assembly of a byte stream that
//! arrives in arbitrarily split chunks. The longest decodable UTF-8 prefix of
//! the buffered bytes is forwarded as text; the undecodable tail (typically a
//! character split across a chunk boundary) is retained for the next chunk.

use vstd::prelude::*;
use vstd::utf8::*;

verus! {

/// Length of the longest prefix of `b` that is a valid UTF-8 encoding, as
/// found by scanning complete scalars from the front (the same prefix that a
/// UTF-8 decoder accepts before it stops).
pub open spec fn utf8_prefix_len(b: Seq<u8>) -> int
    decreases b.len(),
{
    if b.len() == 0 {
        0
    } else if valid_first_scalar(b) {
        length_of_first_scalar(b) + utf8_prefix_len(pop_first_scalar(b))
    } else {
        0
    }
}

pub proof fn lemma_utf8_prefix_len_props(b: Seq<u8>)
    ensures
        0 <= utf8_prefix_len(b) <= b.len(),
        valid_utf8(b.subrange(0, utf8_prefix_len(b))),
        utf8_prefix_len(b) == b.len() ==> valid_utf8(b),
    decreases b.len(),
{
    if b.len() == 0 {
        assert(b.subrange(0, 0) =~= b);
    } else if valid_first_scalar(b) {
        let n = length_of_first_scalar(b);
        let rest = pop_first_scalar(b);
        lemma_utf8_prefix_len_props(rest);
        let p = utf8_prefix_len(b);
        let head = b.subrange(0, n);
        assert(valid_utf8(head)) by {
            reveal_with_fuel(valid_utf8, 2);
            assert(valid_first_scalar(head));
            assert(length_of_first_scalar(head) == n);
            assert(pop_first_scalar(head) =~= Seq::<u8>::empty());
        }
        assert(b.subrange(0, p) =~= head + rest.subrange(0, p - n));
        valid_utf8_concat(head, rest.subrange(0, p - n));
        if p == b.len() {
            assert(b.subrange(0, p) =~= b);
        }
    } else {
        assert(b.subrange(0, 0) =~= Seq::<u8>::empty());
    }
}

/// Scanning a buffer followed by more bytes finds the buffer's own decodable
/// prefix first; the rest of the scan continues from the retained tail joined
/// with the new bytes. This is the heart of chunk-boundary invariance.
pub proof fn lemma_utf8_prefix_len_concat(c: Seq<u8>, b: Seq<u8>)
    ensures
        utf8_prefix_len(c + b) == utf8_prefix_len(c) + utf8_prefix_len(
            c.subrange(utf8_prefix_len(c), c.len() as int) + b,
        ),
    decreases c.len(),
{
    lemma_utf8_prefix_len_props(c);
    if c.len() == 0 {
        assert(c + b =~= b);
        assert(c.subrange(0, 0) + b =~= b);
    } else if valid_first_scalar(c) {
        let n = length_of_first_scalar(c);
        assert(valid_first_scalar(c + b) && length_of_first_scalar(c + b) == n
            && decode_first_codepoint(c + b) == decode_first_codepoint(c)) by {
            assert(forall|i: int| 0 <= i < c.len() ==> (c + b)[i] == c[i]);
        }
        assert(pop_first_scalar(c + b) =~= pop_first_scalar(c) + b);
        let rest = pop_first_scalar(c);
        lemma_utf8_prefix_len_concat(rest, b);
        let p1 = utf8_prefix_len(rest);
        lemma_utf8_prefix_len_props(rest);
        assert(rest.subrange(p1, rest.len() as int) =~= c.subrange(
            n + p1,
            c.len() as int,
        ));
    } else {
        assert(c.subrange(0, c.len() as int) =~= c);
    }
}

/// A position preceded only by ASCII bytes is a character boundary.
pub proof fn lemma_ascii_prefix_is_boundary(b: Seq<u8>, k: int)
    requires
        valid_utf8(b),
        0 <= k <= b.len(),
        forall|i: int| 0 <= i < k ==> b[i] < 0x80,
    ensures
        is_char_boundary(b, k),
    decreases k,
{
    if k > 0 {
        assert(valid_first_scalar(b));
        assert(is_leading_byte_width_1(b[0]));
        assert(length_of_first_scalar(b) == 1);
        let rest = pop_first_scalar(b);
        assert(forall|i: int| 0 <= i < k - 1 ==> rest[i] == b[i + 1] && rest[i] < 0x80);
        lemma_ascii_prefix_is_boundary(rest, k - 1);
    }
}

/// Splitting a valid UTF-8 buffer after an ASCII prefix leaves two valid
/// UTF-8 buffers.
pub proof fn lemma_valid_utf8_drop_ascii_prefix(b: Seq<u8>, k: int)
    requires
        valid_utf8(b),
        0 <= k <= b.len(),
        forall|i: int| 0 <= i < k ==> b[i] < 0x80,
    ensures
        valid_utf8(b.subrange(0, k)),
        valid_utf8(b.subrange(k, b.len() as int)),
    decreases b.len(),
{
    lemma_ascii_prefix_is_boundary(b, k);
    valid_utf8_split(b, k);
}

/// Cutting a valid UTF-8 buffer around one ASCII byte (such as a newline)
/// leaves the part before it and the part after it valid.
pub proof fn lemma_valid_utf8_cut_ascii(b: Seq<u8>, k: int)
    requires
        valid_utf8(b),
        0 <= k < b.len(),
        b[k] < 0x80,
    ensures
        valid_utf8(b.subrange(0, k)),
        valid_utf8(b.subrange(k + 1, b.len() as int)),
{
    is_char_boundary_iff_not_is_continuation_byte(b, k);
    valid_utf8_split(b, k);
    let tail = b.subrange(k, b.len() as int);
    assert(tail[0] == b[k]);
    assert(valid_first_scalar(tail));
    assert(is_leading_byte_width_1(tail[0]));
    assert(length_of_first_scalar(tail) == 1);
    assert(pop_first_scalar(tail) =~= b.subrange(k + 1, b.len() as int));
}

proof fn bv_cp1(b1: u8)
    by (bit_vector)
    requires
        b1 <= 0x7f,
    ensures
        ((b1 & 0x7f) as u32) <= 0x7f,
{
}

proof fn bv_cp2_lower(b1: u8, b2: u8)
    by (bit_vector)
    requires
        0xc2 <= b1 <= 0xdf,
    ensures
        0x80 <= ((((b1 & 0x1f) as u32) << 6) | ((b2 & 0x3f) as u32)) <= 0x7ff,
{
}

proof fn bv_cp2_overlong(b1: u8, b2: u8)
    by (bit_vector)
    requires
        0xc0 <= b1 <= 0xc1,
        0x80 <= b2 <= 0xbf,
    ensures
        ((((b1 & 0x1f) as u32) << 6) | ((b2 & 0x3f) as u32)) < 0x80,
{
}

proof fn bv_cp3_e0_ok(b1: u8, b2: u8, b3: u8)
    by (bit_vector)
    requires
        b1 == 0xe0,
        0xa0 <= b2 <= 0xbf,
    ensures
        0x800 <= ((((b1 & 0x0f) as u32) << 12) | (((b2 & 0x3f) as u32) << 6) | ((b3
            & 0x3f) as u32)) <= 0xfff,
{
}

proof fn bv_cp3_e0_overlong(b1: u8, b2: u8, b3: u8)
    by (bit_vector)
    requires
        b1 == 0xe0,
        0x80 <= b2 <= 0x9f,
    ensures
        ((((b1 & 0x0f) as u32) << 12) | (((b2 & 0x3f) as u32) << 6) | ((b3 & 0x3f) as u32))
            < 0x800,
{
}

proof fn bv_cp3_mid(b1: u8, b2: u8, b3: u8)
    by (bit_vector)
    requires
        0xe1 <= b1 <= 0xec,
    ensures
        0x1000 <= ((((b1 & 0x0f) as u32) << 12) | (((b2 & 0x3f) as u32) << 6) | ((b3
            & 0x3f) as u32)) <= 0xcfff,
{
}

proof fn bv_cp3_ed_ok(b1: u8, b2: u8, b3: u8)
    by (bit_vector)
    requires
        b1 == 0xed,
        0x80 <= b2 <= 0x9f,
    ensures
        0xd000 <= ((((b1 & 0x0f) as u32) << 12) | (((b2 & 0x3f) as u32) << 6) | ((b3
            & 0x3f) as u32)) <= 0xd7ff,
{
}

proof fn bv_cp3_ed_surrogate(b1: u8, b2: u8, b3: u8)
    by (bit_vector)
    requires
        b1 == 0xed,
        0xa0 <= b2 <= 0xbf,
    ensures
        0xd800 <= ((((b1 & 0x0f) as u32) << 12) | (((b2 & 0x3f) as u32) << 6) | ((b3
            & 0x3f) as u32)) <= 0xdfff,
{
}

proof fn bv_cp3_high(b1: u8, b2: u8, b3: u8)
    by (bit_vector)
    requires
        0xee <= b1 <= 0xef,
    ensures
        0xe000 <= ((((b1 & 0x0f) as u32) << 12) | (((b2 & 0x3f) as u32) << 6) | ((b3
            & 0x3f) as u32)) <= 0xffff,
{
}

proof fn bv_cp4_f0_ok(b1: u8, b2: u8, b3: u8, b4: u8)
    by (bit_vector)
    requires
        b1 == 0xf0,
        0x90 <= b2 <= 0xbf,
    ensures
        0x10000 <= ((((b1 & 0x07) as u32) << 18) | (((b2 & 0x3f) as u32) << 12) | (((b3
            & 0x3f) as u32) << 6) | ((b4 & 0x3f) as u32)) <= 0x3ffff,
{
}

proof fn bv_cp4_f0_overlong(b1: u8, b2: u8, b3: u8, b4: u8)
    by (bit_vector)
    requires
        b1 == 0xf0,
        0x80 <= b2 <= 0x8f,
    ensures
        ((((b1 & 0x07) as u32) << 18) | (((b2 & 0x3f) as u32) << 12) | (((b3 & 0x3f) as u32)
            << 6) | ((b4 & 0x3f) as u32)) < 0x10000,
{
}

proof fn bv_cp4_mid(b1: u8, b2: u8, b3: u8, b4: u8)
    by (bit_vector)
    requires
        0xf1 <= b1 <= 0xf3,
    ensures
        0x40000 <= ((((b1 & 0x07) as u32) << 18) | (((b2 & 0x3f) as u32) << 12) | (((b3
            & 0x3f) as u32) << 6) | ((b4 & 0x3f) as u32)) <= 0xfffff,
{
}

proof fn bv_cp4_f4_ok(b1: u8, b2: u8, b3: u8, b4: u8)
    by (bit_vector)
    requires
        b1 == 0xf4,
        0x80 <= b2 <= 0x8f,
    ensures
        0x100000 <= ((((b1 & 0x07) as u32) << 18) | (((b2 & 0x3f) as u32) << 12) | (((b3
            & 0x3f) as u32) << 6) | ((b4 & 0x3f) as u32)) <= 0x10ffff,
{
}

proof fn bv_cp4_f4_high(b1: u8, b2: u8, b3: u8, b4: u8)
    by (bit_vector)
    requires
        b1 == 0xf4,
        0x90 <= b2 <= 0xbf,
    ensures
        ((((b1 & 0x07) as u32) << 18) | (((b2 & 0x3f) as u32) << 12) | (((b3 & 0x3f) as u32)
            << 6) | ((b4 & 0x3f) as u32)) > 0x10ffff,
{
}

proof fn bv_cp4_f5_high(b1: u8, b2: u8, b3: u8, b4: u8)
    by (bit_vector)
    requires
        0xf5 <= b1 <= 0xf7,
    ensures
        ((((b1 & 0x07) as u32) << 18) | (((b2 & 0x3f) as u32) << 12) | (((b3 & 0x3f) as u32)
            << 6) | ((b4 & 0x3f) as u32)) >= 0x140000,
{
}

/// Whether a complete, well-formed scalar encoding starts at index `i`, and
/// its byte length if so.
fn scalar_len_at(v: &[u8], i: usize) -> (r: Option<usize>)
    requires
        i < v@.len(),
    ensures
        ({
            let s = v@.subrange(i as int, v@.len() as int);
            match r {
                Some(k) => valid_first_scalar(s) && k == length_of_first_scalar(s) && 1 <= k
                    <= s.len(),
                None => !valid_first_scalar(s),
            }
        }),
{
    let ghost s = v@.subrange(i as int, v@.len() as int);
    let n = v.len();
    let b1 = v[i];
    assert(s[0] == b1);
    if b1 < 0x80 {
        proof {
            bv_cp1(b1);
            assert(valid_first_scalar(s));
            assert(length_of_first_scalar(s) == 1);
        }
        Some(1)
    } else if b1 < 0xc2 {
        // continuation bytes and overlong 2-byte leads can start no scalar
        proof {
            if 0xc0 <= b1 && s.len() >= 2 && is_continuation_byte(s[1]) {
                bv_cp2_overlong(b1, s[1]);
            }
            assert(!valid_first_scalar(s));
        }
        None
    } else if b1 <= 0xdf {
        if n - i > 1 && 0x80 <= v[i + 1] && v[i + 1] <= 0xbf {
            let b2 = v[i + 1];
            proof {
                assert(s[1] == v@[i + 1]);
                bv_cp2_lower(b1, b2);
                assert(valid_first_scalar(s));
                assert(length_of_first_scalar(s) == 2);
            }
            Some(2)
        } else {
            proof {
                assert(!valid_first_scalar(s));
            }
            None
        }
    } else if b1 <= 0xef {
        if n - i > 2 && 0x80 <= v[i + 1] && v[i + 1] <= 0xbf && 0x80 <= v[i + 2] && v[i + 2]
            <= 0xbf {
            let b2 = v[i + 1];
            let b3 = v[i + 2];
            proof {
                assert(s[1] == v@[i + 1] && s[2] == v@[i + 2]);
            }
            if b1 == 0xe0 && b2 < 0xa0 {
                proof {
                    bv_cp3_e0_overlong(b1, b2, b3);
                    assert(!valid_first_scalar(s));
                }
                None
            } else if b1 == 0xed && b2 > 0x9f {
                proof {
                    bv_cp3_ed_surrogate(b1, b2, b3);
                    assert(!valid_first_scalar(s));
                }
                None
            } else {
                proof {
                    if b1 == 0xe0 {
                        bv_cp3_e0_ok(b1, b2, b3);
                    } else if b1 <= 0xec {
                        bv_cp3_mid(b1, b2, b3);
                    } else if b1 == 0xed {
                        bv_cp3_ed_ok(b1, b2, b3);
                    } else {
                        bv_cp3_high(b1, b2, b3);
                    }
                    assert(valid_first_scalar(s));
                    assert(length_of_first_scalar(s) == 3);
                }
                Some(3)
            }
        } else {
            proof {
                assert(!valid_first_scalar(s));
            }
            None
        }
    } else if b1 <= 0xf7 {
        if n - i > 3 && 0x80 <= v[i + 1] && v[i + 1] <= 0xbf && 0x80 <= v[i + 2] && v[i + 2]
            <= 0xbf && 0x80 <= v[i + 3] && v[i + 3] <= 0xbf {
            let b2 = v[i + 1];
            let b3 = v[i + 2];
            let b4 = v[i + 3];
            proof {
                assert(s[1] == v@[i + 1] && s[2] == v@[i + 2] && s[3] == v@[i + 3]);
            }
            if b1 == 0xf0 && b2 < 0x90 {
                proof {
                    bv_cp4_f0_overlong(b1, b2, b3, b4);
                    assert(!valid_first_scalar(s));
                }
                None
            } else if b1 == 0xf4 && b2 > 0x8f {
                proof {
                    bv_cp4_f4_high(b1, b2, b3, b4);
                    assert(!valid_first_scalar(s));
                }
                None
            } else if b1 >= 0xf5 {
                proof {
                    bv_cp4_f5_high(b1, b2, b3, b4);
                    assert(!valid_first_scalar(s));
                }
                None
            } else {
                proof {
                    if b1 == 0xf0 {
                        bv_cp4_f0_ok(b1, b2, b3, b4);
                    } else if b1 <= 0xf3 {
                        bv_cp4_mid(b1, b2, b3, b4);
                    } else {
                        bv_cp4_f4_ok(b1, b2, b3, b4);
                    }
                    assert(valid_first_scalar(s));
                    assert(length_of_first_scalar(s) == 4);
                }
                Some(4)
            }
        } else {
            proof {
                assert(!valid_first_scalar(s));
            }
            None
        }
    } else {
        proof {
            assert(!valid_first_scalar(s));
        }
        None
    }
}

/// Longest decodable UTF-8 prefix of the buffer, in bytes.
pub fn utf8_prefix(v: &[u8]) -> (p: usize)
    ensures
        p == utf8_prefix_len(v@),
        0 <= p <= v@.len(),
{
    let n = v.len();
    let mut i: usize = 0;
    proof {
        lemma_utf8_prefix_len_props(v@);
        assert(v@.subrange(0, n as int) =~= v@);
    }
    while i < n
        invariant
            i <= n,
            n == v@.len(),
            utf8_prefix_len(v@) == i + utf8_prefix_len(v@.subrange(i as int, n as int)),
        decreases n - i,
    {
        let ghost s = v@.subrange(i as int, n as int);
        match scalar_len_at(v, i) {
            Some(k) => {
                proof {
                    assert(utf8_prefix_len(s) == k + utf8_prefix_len(pop_first_scalar(s)));
                    assert(pop_first_scalar(s) =~= v@.subrange((i + k) as int, n as int));
                }
                i = i + k;
            },
            None => {
                proof {
                    assert(utf8_prefix_len(s) == 0);
                }
                return i;
            },
        }
    }
    proof {
        assert(v@.subrange(i as int, n as int) =~= Seq::<u8>::empty());
    }
    i
}

/// Relies on String::from_utf8: a buffer of valid UTF-8 bytes converts to the
/// string holding exactly the characters those bytes encode.
#[verifier::external_body]
pub fn string_from_utf8(v: Vec<u8>) -> (r: String)
    requires
        valid_utf8(v@),
    ensures
        r@ == decode_utf8(v@),
{
    match String::from_utf8(v) {
        Ok(s) => s,
        Err(_) => String::new(),
    }
}

} // verus!
