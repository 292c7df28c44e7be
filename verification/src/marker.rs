//! Scan-and-replace of 4-byte little-endian float sentinels.
//!
//! A timing placeholder is a specific 4-byte IEEE-754 single-precision value
//! embedded at unknown, not necessarily aligned, offsets of a template
//! buffer. Every offset whose 4 bytes decode to a float equal to the target
//! (exact equality, no tolerance) is overwritten with the replacement
//! value's little-endian encoding. All float values travel through this
//! module as their raw bit patterns, so the scan itself is pure integer
//! logic.

use vstd::prelude::*;
use crate::patch::splice;
use crate::patch::lemma_splice_len;

verus! {

/// The bit pattern encodes an IEEE-754 single-precision NaN: exponent all
/// ones, mantissa non-zero.
pub open spec fn f32_is_nan_bits(w: u32) -> bool {
    (w >> 23) & 0xff == 0xff && w & 0x7fffff != 0
}

/// The bit pattern encodes positive or negative zero.
pub open spec fn f32_is_zero_bits(w: u32) -> bool {
    w & 0x7fffffff == 0
}

/// IEEE-754 single-precision equality on bit patterns: NaN compares equal to
/// nothing, the two zeroes compare equal to each other, and every other
/// value is equal exactly to its own bit pattern.
pub open spec fn f32_eq_bits(a: u32, b: u32) -> bool {
    &&& !f32_is_nan_bits(a)
    &&& !f32_is_nan_bits(b)
    &&& (a == b || (f32_is_zero_bits(a) && f32_is_zero_bits(b)))
}

/// The little-endian 4-byte encoding of a 32-bit pattern.
pub open spec fn le_bytes(w: u32) -> Seq<u8> {
    seq![w as u8, (w >> 8) as u8, (w >> 16) as u8, (w >> 24) as u8]
}

/// The 32-bit pattern read little-endian from `b` at offset `i`.
pub open spec fn le_word(b: Seq<u8>, i: int) -> u32 {
    (b[i] as u32) | ((b[i + 1] as u32) << 8) | ((b[i + 2] as u32) << 16) | ((b[i + 3] as u32)
        << 24)
}

/// Reading back the little-endian encoding of a word yields the word.
pub proof fn lemma_le_bytes_roundtrip(w: u32)
    ensures
        (le_bytes(w)[0] as u32) | ((le_bytes(w)[1] as u32) << 8) | ((le_bytes(w)[2] as u32) << 16)
            | ((le_bytes(w)[3] as u32) << 24) == w,
{
    assert((w as u8 as u32) | (((w >> 8) as u8 as u32) << 8) | (((w >> 16) as u8 as u32) << 16) | (
    ((w >> 24) as u8 as u32) << 24) == w) by (bit_vector);
}

/// For a target that is neither NaN nor a zero, float equality singles out
/// exactly its own bit pattern.
pub proof fn lemma_f32_eq_unique(w: u32, t: u32)
    requires
        !f32_is_nan_bits(t),
        !f32_is_zero_bits(t),
    ensures
        f32_eq_bits(w, t) <==> (w == t && !f32_is_nan_bits(t)),
{
}

/// Compares two float bit patterns as IEEE-754 single-precision equality
/// does.
pub fn f32_bits_equal(a: u32, b: u32) -> (r: bool)
    ensures
        r == f32_eq_bits(a, b),
{
    let a_nan = (a >> 23) & 0xff == 0xff && a & 0x7fffff != 0;
    let b_nan = (b >> 23) & 0xff == 0xff && b & 0x7fffff != 0;
    if a_nan || b_nan {
        false
    } else if a == b {
        true
    } else {
        a & 0x7fffffff == 0 && b & 0x7fffffff == 0
    }
}

/// The buffer left by the float scan started at offset `i`: every offset
/// whose 4 bytes currently decode to a float equal to `t` is overwritten
/// with the encoding of `r`, and the scan continues at the very next byte
/// offset, so freshly written bytes are themselves rescanned.
pub open spec fn replace_float_from(b: Seq<u8>, t: u32, r: u32, i: int) -> Seq<u8>
    decreases b.len() - i,
{
    if i < 0 || i + 4 > b.len() {
        b
    } else if f32_eq_bits(le_word(b, i), t) {
        replace_float_from(splice(b, i, le_bytes(r)), t, r, i + 1)
    } else {
        replace_float_from(b, t, r, i + 1)
    }
}

/// The float scan never changes the buffer's length.
pub proof fn lemma_replace_float_len(b: Seq<u8>, t: u32, r: u32, i: int)
    ensures
        replace_float_from(b, t, r, i).len() == b.len(),
    decreases b.len() - i,
{
    if i < 0 || i + 4 > b.len() {
    } else if f32_eq_bits(le_word(b, i), t) {
        lemma_splice_len(b, i, le_bytes(r));
        lemma_replace_float_len(splice(b, i, le_bytes(r)), t, r, i + 1);
    } else {
        lemma_replace_float_len(b, t, r, i + 1);
    }
}

/// Scans every byte offset of `buffer` for a 4-byte little-endian value
/// whose float interpretation equals `target_bits`' (exact IEEE-754
/// equality) and overwrites each hit with `replacement_bits`' little-endian
/// encoding. The buffer length never changes; a buffer without a hit is
/// untouched.
pub fn find_and_replace_float(buffer: &mut Vec<u8>, target_bits: u32, replacement_bits: u32)
    ensures
        final(buffer)@.len() == old(buffer)@.len(),
        final(buffer)@ == replace_float_from(old(buffer)@, target_bits, replacement_bits, 0),
{
    let ghost orig = buffer@;
    let n = buffer.len();
    if n < 4 {
        return ;
    }
    let limit = n - 4;
    let mut i: usize = 0;
    while i <= limit
        invariant
            limit == n - 4,
            4 <= n,
            n == buffer@.len(),
            i <= limit + 1,
            replace_float_from(orig, target_bits, replacement_bits, 0) == replace_float_from(
                buffer@,
                target_bits,
                replacement_bits,
                i as int,
            ),
        decreases limit + 1 - i,
    {
        let w = (buffer[i] as u32) | ((buffer[i + 1] as u32) << 8) | ((buffer[i + 2] as u32) << 16)
            | ((buffer[i + 3] as u32) << 24);
        assert(w == le_word(buffer@, i as int));
        if f32_bits_equal(w, target_bits) {
            let ghost prev = buffer@;
            buffer.set(i, replacement_bits as u8);
            buffer.set(i + 1, (replacement_bits >> 8) as u8);
            buffer.set(i + 2, (replacement_bits >> 16) as u8);
            buffer.set(i + 3, (replacement_bits >> 24) as u8);
            proof {
                lemma_splice_len(prev, i as int, le_bytes(replacement_bits));
                assert(buffer@ =~= splice(prev, i as int, le_bytes(replacement_bits)));
            }
        }
        i = i + 1;
    }
    proof {
        assert(replace_float_from(buffer@, target_bits, replacement_bits, i as int) == buffer@);
    }
}

/// Four bytes determine their little-endian word, and the word determines
/// the bytes.
pub proof fn lemma_le_word_determines_bytes(b0: u8, b1: u8, b2: u8, b3: u8, w: u32)
    requires
        (b0 as u32) | ((b1 as u32) << 8) | ((b2 as u32) << 16) | ((b3 as u32) << 24) == w,
    ensures
        b0 == w as u8,
        b1 == (w >> 8) as u8,
        b2 == (w >> 16) as u8,
        b3 == (w >> 24) as u8,
{
    assert(b0 == w as u8 && b1 == (w >> 8) as u8 && b2 == (w >> 16) as u8 && b3 == (w >> 24)
        as u8) by (bit_vector)
        requires
            (b0 as u32) | ((b1 as u32) << 8) | ((b2 as u32) << 16) | ((b3 as u32) << 24) == w,
    ;
}

/// The 4 bytes at offset `j` of `b` spell the word `t`.
pub open spec fn word_at(b: Seq<u8>, j: int, t: u32) -> bool {
    0 <= j && j + 4 <= b.len() && le_word(b, j) == t
}

/// Sentinel discipline for a scan that replaces `t` by `r`: occurrences of
/// `t` lie at least 8 bytes apart, `r` occurs nowhere, and overwriting an
/// occurrence combines with its neighbouring bytes into no new occurrence
/// of either value.
pub open spec fn isolated_occurrences(b: Seq<u8>, t: u32, r: u32) -> bool {
    &&& forall|i: int, j: int|
        word_at(b, i, t) && word_at(b, j, t) && i < j ==> i + 8 <= j
    &&& forall|j: int| 0 <= j && j + 4 <= b.len() ==> le_word(b, j) != r
    &&& forall|i: int, j: int|
        word_at(b, i, t) && i - 3 <= j < i + 4 && j != i && 0 <= j && j + 4 <= b.len()
            ==> le_word(splice(b, i, le_bytes(r)), j) != t && le_word(
            splice(b, i, le_bytes(r)),
            j,
        ) != r
}

/// Offset `k` of `b` lies inside an occurrence of `t` that starts before
/// `bound`.
spec fn covered(b: Seq<u8>, t: u32, k: int, bound: int) -> bool {
    exists|m: int| word_at(b, m, t) && m < bound && m <= k < m + 4
}

/// Equal byte windows decode to equal words.
proof fn lemma_le_word_congruence(a: Seq<u8>, i: int, c: Seq<u8>, j: int)
    requires
        0 <= i,
        i + 4 <= a.len(),
        0 <= j,
        j + 4 <= c.len(),
        a[i] == c[j],
        a[i + 1] == c[j + 1],
        a[i + 2] == c[j + 2],
        a[i + 3] == c[j + 3],
    ensures
        le_word(a, i) == le_word(c, j),
{
}

/// The scan from `pos` finishes the job that the processed prefix of `cur`
/// began: in the final buffer every occurrence of `t` (with respect to the
/// pristine buffer `b`) carries the encoding of `r`, and every byte outside
/// the occurrences is untouched.
proof fn lemma_scan_replaces_isolated(b: Seq<u8>, cur: Seq<u8>, t: u32, r: u32, pos: int)
    requires
        !f32_is_nan_bits(t),
        !f32_is_zero_bits(t),
        isolated_occurrences(b, t, r),
        0 <= pos <= b.len() + 1,
        cur.len() == b.len(),
        forall|m: int| #[trigger] word_at(b, m, t) && m < pos ==> cur.subrange(m, m + 4) == le_bytes(r),
        forall|k: int| 0 <= k < b.len() && !covered(b, t, k, pos) ==> cur[k] == b[k],
    ensures
        replace_float_from(cur, t, r, pos).len() == b.len(),
        forall|m: int| #[trigger] word_at(b, m, t) ==> replace_float_from(cur, t, r, pos).subrange(
            m,
            m + 4,
        ) == le_bytes(r),
        forall|k: int|
            0 <= k < b.len() && !covered(b, t, k, b.len() as int) ==> replace_float_from(
                cur,
                t,
                r,
                pos,
            )[k] == b[k],
    decreases b.len() + 4 - pos,
{
    let fin = replace_float_from(cur, t, r, pos);
    if pos + 4 > b.len() {
        assert(fin == cur);
        assert forall|m: int| #[trigger] word_at(b, m, t) implies fin.subrange(m, m + 4)
            == le_bytes(r) by {
            assert(m < pos);
        }
        assert forall|k: int|
            0 <= k < b.len() && !covered(b, t, k, b.len() as int) implies fin[k] == b[k] by {
            if covered(b, t, k, pos) {
                let m = choose|m: int| word_at(b, m, t) && m < pos && m <= k < m + 4;
                assert(covered(b, t, k, b.len() as int));
            }
        }
    } else if word_at(b, pos, t) {
        // The occurrence at `pos` is still untouched in `cur` ...
        assert forall|k: int| pos <= k < pos + 4 implies cur[k] == b[k] by {
            if covered(b, t, k, pos) {
                let m = choose|m: int| word_at(b, m, t) && m < pos && m <= k < m + 4;
                assert(m + 8 <= pos);
                assert(false);
            }
        }
        lemma_le_word_congruence(cur, pos, b, pos);
        assert(f32_eq_bits(le_word(cur, pos), t));
        // ... so the scan fires and writes the replacement.
        let cur2 = splice(cur, pos, le_bytes(r));
        lemma_splice_len(cur, pos, le_bytes(r));
        assert(fin == replace_float_from(cur2, t, r, pos + 1));
        assert forall|m: int| #[trigger] word_at(b, m, t) && m < pos + 1 implies cur2.subrange(
            m,
            m + 4,
        ) == le_bytes(r) by {
            if m == pos {
                assert(cur2.subrange(pos, pos + 4) =~= le_bytes(r));
            } else {
                assert(m + 8 <= pos);
                assert(cur2.subrange(m, m + 4) =~= cur.subrange(m, m + 4));
            }
        }
        assert forall|k: int|
            0 <= k < b.len() && !covered(b, t, k, pos + 1) implies cur2[k] == b[k] by {
            assert(!(pos <= k < pos + 4));
            if covered(b, t, k, pos) {
                let m = choose|m: int| word_at(b, m, t) && m < pos && m <= k < m + 4;
                assert(covered(b, t, k, pos + 1));
            }
            assert(cur2[k] == cur[k]);
        }
        lemma_scan_replaces_isolated(b, cur2, t, r, pos + 1);
    } else {
        // No occurrence starts at `pos`: the scan must not fire here.
        if exists|m: int| word_at(b, m, t) && m < pos && pos < m + 4 {
            // The window overlaps an occurrence that was already rewritten.
            let m = choose|m: int| word_at(b, m, t) && m < pos && pos < m + 4;
            let sp = splice(b, m, le_bytes(r));
            lemma_splice_len(b, m, le_bytes(r));
            assert forall|k: int| pos <= k < pos + 4 implies cur[k] == sp[k] by {
                if m <= k < m + 4 {
                    assert(cur.subrange(m, m + 4) == le_bytes(r));
                    assert(cur[k] == cur.subrange(m, m + 4)[k - m]);
                    assert(sp[k] == le_bytes(r)[k - m]);
                } else {
                    if covered(b, t, k, pos) {
                        let m2 = choose|m2: int| word_at(b, m2, t) && m2 < pos && m2 <= k < m2 + 4;
                        assert(m2 != m);
                        if m2 < m {
                            assert(m2 + 8 <= m);
                        } else {
                            assert(m + 8 <= m2);
                        }
                        assert(false);
                    }
                    assert(cur[k] == b[k]);
                    assert(sp[k] == b[k]);
                }
            }
            lemma_le_word_congruence(cur, pos, sp, pos);
            assert(le_word(sp, pos) != t);
            lemma_f32_eq_unique(le_word(cur, pos), t);
        } else {
            // The window holds pristine bytes.
            assert forall|k: int| pos <= k < pos + 4 implies cur[k] == b[k] by {
                if covered(b, t, k, pos) {
                    let m = choose|m: int| word_at(b, m, t) && m < pos && m <= k < m + 4;
                    assert(pos < m + 4);
                    assert(false);
                }
            }
            lemma_le_word_congruence(cur, pos, b, pos);
            assert(le_word(b, pos) != t);
            lemma_f32_eq_unique(le_word(cur, pos), t);
        }
        assert(!f32_eq_bits(le_word(cur, pos), t));
        assert(fin == replace_float_from(cur, t, r, pos + 1));
        assert forall|k: int|
            0 <= k < b.len() && !covered(b, t, k, pos + 1) implies cur[k] == b[k] by {
            if covered(b, t, k, pos) {
                let m = choose|m: int| word_at(b, m, t) && m < pos && m <= k < m + 4;
                assert(covered(b, t, k, pos + 1));
            }
        }
        lemma_scan_replaces_isolated(b, cur, t, r, pos + 1);
    }
}

/// One window of the forward scan's result: a rewritten occurrence spells
/// `r`, and every other window spells neither `r` nor `t`.
#[verifier::rlimit(100)]
#[verifier::spinoff_prover]
proof fn lemma_forward_window(b: Seq<u8>, t: u32, r: u32, j: int)
    requires
        !f32_is_nan_bits(t),
        !f32_is_zero_bits(t),
        t != r,
        isolated_occurrences(b, t, r),
        0 <= j,
        j + 4 <= b.len(),
    ensures
        le_word(replace_float_from(b, t, r, 0), j) == r <==> word_at(b, j, t),
        le_word(replace_float_from(b, t, r, 0), j) != t,
{
    let len = b.len() as int;
    let fw = replace_float_from(b, t, r, 0);
    lemma_scan_replaces_isolated(b, b, t, r, 0);
    if word_at(b, j, t) {
        assert(fw.subrange(j, j + 4) == le_bytes(r));
        assert(fw[j] == fw.subrange(j, j + 4)[0]);
        assert(fw[j + 1] == fw.subrange(j, j + 4)[1]);
        assert(fw[j + 2] == fw.subrange(j, j + 4)[2]);
        assert(fw[j + 3] == fw.subrange(j, j + 4)[3]);
        lemma_le_bytes_roundtrip(r);
        assert(le_word(fw, j) == r);
    } else if exists|m: int| word_at(b, m, t) && m - 3 <= j < m + 4 && m != j {
        // The window overlaps one rewritten occurrence.
        let m = choose|m: int| word_at(b, m, t) && m - 3 <= j < m + 4 && m != j;
        let sp = splice(b, m, le_bytes(r));
        lemma_splice_len(b, m, le_bytes(r));
        assert forall|k: int| j <= k < j + 4 implies fw[k] == sp[k] by {
            if m <= k < m + 4 {
                assert(fw.subrange(m, m + 4) == le_bytes(r));
                assert(fw[k] == fw.subrange(m, m + 4)[k - m]);
                assert(sp[k] == le_bytes(r)[k - m]);
            } else {
                if covered(b, t, k, len) {
                    let m2 = choose|m2: int| word_at(b, m2, t) && m2 < len && m2 <= k < m2 + 4;
                    assert(m2 != m);
                    if m2 < m {
                        assert(m2 + 8 <= m);
                    } else {
                        assert(m + 8 <= m2);
                    }
                    assert(false);
                }
                assert(fw[k] == b[k]);
                assert(sp[k] == b[k]);
            }
        }
        lemma_le_word_congruence(fw, j, sp, j);
        assert(le_word(sp, j) != t && le_word(sp, j) != r);
    } else {
        // The window holds pristine bytes.
        assert forall|k: int| j <= k < j + 4 implies fw[k] == b[k] by {
            if covered(b, t, k, len) {
                let m = choose|m: int| word_at(b, m, t) && m < len && m <= k < m + 4;
                assert(m - 3 <= j < m + 4);
                assert(m == j);
                assert(false);
            }
        }
        lemma_le_word_congruence(fw, j, b, j);
        assert(le_word(fw, j) != r);
        assert(le_word(fw, j) != t);
    }
}

/// Writing the original occurrence back over a rewritten one restores the
/// pristine window, so the reverse scan cannot trip over its own output.
#[verifier::rlimit(100)]
#[verifier::spinoff_prover]
proof fn lemma_backward_discipline_pair(b: Seq<u8>, t: u32, r: u32, i: int, j: int)
    requires
        !f32_is_nan_bits(t),
        !f32_is_zero_bits(t),
        t != r,
        isolated_occurrences(b, t, r),
        word_at(b, i, t),
        i - 3 <= j < i + 4,
        j != i,
        0 <= j,
        j + 4 <= b.len(),
    ensures
        le_word(splice(replace_float_from(b, t, r, 0), i, le_bytes(t)), j) != r,
        le_word(splice(replace_float_from(b, t, r, 0), i, le_bytes(t)), j) != t,
{
    let len = b.len() as int;
    let fw = replace_float_from(b, t, r, 0);
    lemma_scan_replaces_isolated(b, b, t, r, 0);
    let sp2 = splice(fw, i, le_bytes(t));
    lemma_splice_len(fw, i, le_bytes(t));
    lemma_le_word_determines_bytes(b[i], b[i + 1], b[i + 2], b[i + 3], t);
    assert forall|k: int| j <= k < j + 4 implies sp2[k] == b[k] by {
        if i <= k < i + 4 {
            assert(sp2[k] == le_bytes(t)[k - i]);
        } else {
            assert(sp2[k] == fw[k]);
            if covered(b, t, k, len) {
                let m2 = choose|m2: int| word_at(b, m2, t) && m2 < len && m2 <= k < m2 + 4;
                assert(m2 != i);
                if m2 < i {
                    assert(m2 + 8 <= i);
                } else {
                    assert(i + 8 <= m2);
                }
                assert(false);
            }
            assert(fw[k] == b[k]);
        }
    }
    lemma_le_word_congruence(sp2, j, b, j);
    assert(le_word(b, j) != r);
    if le_word(b, j) == t {
        assert(word_at(b, j, t));
        assert(false);
    }
}

/// The forward scan's result obeys the sentinel discipline with the roles
/// of the two values swapped: its occurrences of `r` sit exactly where the
/// pristine buffer held `t`.
#[verifier::rlimit(100)]
#[verifier::spinoff_prover]
proof fn lemma_forward_discipline(b: Seq<u8>, t: u32, r: u32)
    requires
        !f32_is_nan_bits(t),
        !f32_is_zero_bits(t),
        t != r,
        isolated_occurrences(b, t, r),
    ensures
        isolated_occurrences(replace_float_from(b, t, r, 0), r, t),
        forall|j: int|
            0 <= j && j + 4 <= b.len() ==> (le_word(replace_float_from(b, t, r, 0), j) == r
                <==> word_at(b, j, t)),
{
    let len = b.len() as int;
    let fw = replace_float_from(b, t, r, 0);
    lemma_scan_replaces_isolated(b, b, t, r, 0);
    assert forall|j: int| 0 <= j && j + 4 <= len implies (le_word(fw, j) == r <==> word_at(
        b,
        j,
        t,
    )) && le_word(fw, j) != t by {
        lemma_forward_window(b, t, r, j);
    }
    assert forall|i: int, j: int|
        word_at(fw, i, r) && word_at(fw, j, r) && i < j implies i + 8 <= j by {
        assert(word_at(b, i, t) && word_at(b, j, t));
    }
    assert forall|i: int, j: int|
        word_at(fw, i, r) && i - 3 <= j < i + 4 && j != i && 0 <= j && j + 4
            <= fw.len() implies le_word(splice(fw, i, le_bytes(t)), j) != r && le_word(
        splice(fw, i, le_bytes(t)),
        j,
    ) != t by {
        assert(word_at(b, i, t));
        lemma_backward_discipline_pair(b, t, r, i, j);
    }
    assert(isolated_occurrences(fw, r, t));
}

/// One byte of the double scan's result equals the pristine byte.
#[verifier::rlimit(100)]
#[verifier::spinoff_prover]
proof fn lemma_round_trip_byte(b: Seq<u8>, t: u32, r: u32, k: int)
    requires
        !f32_is_nan_bits(t),
        !f32_is_zero_bits(t),
        !f32_is_nan_bits(r),
        !f32_is_zero_bits(r),
        t != r,
        isolated_occurrences(b, t, r),
        0 <= k < b.len(),
    ensures
        replace_float_from(replace_float_from(b, t, r, 0), r, t, 0)[k] == b[k],
{
    let len = b.len() as int;
    let fw = replace_float_from(b, t, r, 0);
    let bk = replace_float_from(fw, r, t, 0);
    lemma_forward_discipline(b, t, r);
    lemma_scan_replaces_isolated(b, b, t, r, 0);
    lemma_scan_replaces_isolated(fw, fw, r, t, 0);
    if covered(fw, r, k, len) {
        let m = choose|m: int| word_at(fw, m, r) && m < len && m <= k < m + 4;
        assert(word_at(b, m, t));
        assert(bk.subrange(m, m + 4) == le_bytes(t));
        assert(bk[k] == bk.subrange(m, m + 4)[k - m]);
        lemma_le_word_determines_bytes(b[m], b[m + 1], b[m + 2], b[m + 3], t);
    } else {
        assert(bk[k] == fw[k]);
        if covered(b, t, k, len) {
            let m = choose|m: int| word_at(b, m, t) && m < len && m <= k < m + 4;
            assert(word_at(fw, m, r));
            assert(covered(fw, r, k, len));
            assert(false);
        }
        assert(fw[k] == b[k]);
    }
}

/// Replacing sentinel `t` by `r` and then `r` by `t` restores the buffer
/// bit for bit. Stated for the sentinel discipline the templates obey:
/// occurrences of `t` are isolated, `r` occurs nowhere, neither value is
/// NaN or a zero (so float equality singles out exactly one bit pattern
/// each), and the written replacement combines with neighbouring bytes
/// into no new occurrence of either value.
pub proof fn lemma_replace_float_round_trip(b: Seq<u8>, t: u32, r: u32)
    requires
        !f32_is_nan_bits(t),
        !f32_is_zero_bits(t),
        !f32_is_nan_bits(r),
        !f32_is_zero_bits(r),
        t != r,
        isolated_occurrences(b, t, r),
    ensures
        replace_float_from(replace_float_from(b, t, r, 0), r, t, 0) == b,
{
    let fw = replace_float_from(b, t, r, 0);
    let bk = replace_float_from(fw, r, t, 0);
    lemma_replace_float_len(b, t, r, 0);
    lemma_replace_float_len(fw, r, t, 0);
    assert forall|k: int| 0 <= k < b.len() implies bk[k] == b[k] by {
        lemma_round_trip_byte(b, t, r, k);
    }
    assert(bk =~= b);
}

/// The template left by patching the timing slots in order: for each slot
/// `k`, every occurrence of sentinel `sentinels[k]` is replaced by
/// `values[k]`.
pub open spec fn patch_slots_spec(
    b: Seq<u8>,
    sentinels: Seq<u32>,
    values: Seq<u32>,
    k: int,
) -> Seq<u8>
    decreases sentinels.len() - k,
{
    if k < 0 || k >= sentinels.len() {
        b
    } else {
        patch_slots_spec(
            replace_float_from(b, sentinels[k], values[k], 0),
            sentinels,
            values,
            k + 1,
        )
    }
}

/// Patches every timing slot of a template in order: slot `k`'s sentinel
/// float is replaced, wherever it occurs, by slot `k`'s value. The template
/// length never changes.
pub fn patch_timing_slots(template: &mut Vec<u8>, sentinels: &Vec<u32>, values: &Vec<u32>)
    requires
        sentinels@.len() == values@.len(),
    ensures
        final(template)@.len() == old(template)@.len(),
        final(template)@ == patch_slots_spec(old(template)@, sentinels@, values@, 0),
{
    let ghost orig = template@;
    let mut k: usize = 0;
    while k < sentinels.len()
        invariant
            sentinels@.len() == values@.len(),
            k <= sentinels@.len(),
            template@.len() == orig.len(),
            patch_slots_spec(orig, sentinels@, values@, 0) == patch_slots_spec(
                template@,
                sentinels@,
                values@,
                k as int,
            ),
        decreases sentinels@.len() - k,
    {
        find_and_replace_float(template, sentinels[k], values[k]);
        k = k + 1;
    }
}

/// The timing value owed to slot `k` (0-based) when `atlas_count` atlases
/// were produced: the final atlas's slot receives the hold value, the slot
/// of every earlier (full) atlas receives the full-atlas value, and every
/// unused slot receives the no-op value 0.0, whose bit pattern is zero.
pub open spec fn slot_value_spec(atlas_count: int, k: int, hold_bits: u32, full_bits: u32) -> u32 {
    if k + 1 == atlas_count {
        hold_bits
    } else if k + 1 < atlas_count {
        full_bits
    } else {
        0u32
    }
}

/// The per-slot replacement values for all 24 frame-controller slots.
pub fn slot_timing_values(atlas_count: u8, hold_bits: u32, full_bits: u32) -> (vs: Vec<u32>)
    requires
        1 <= atlas_count <= 24,
    ensures
        vs@.len() == 24,
        forall|k: int|
            0 <= k < 24 ==> vs@[k] == slot_value_spec(atlas_count as int, k, hold_bits, full_bits),
{
    let mut vs: Vec<u32> = Vec::new();
    let mut k: usize = 0;
    while k < 24
        invariant
            k <= 24,
            vs@.len() == k,
            forall|j: int|
                0 <= j < k ==> vs@[j] == slot_value_spec(
                    atlas_count as int,
                    j,
                    hold_bits,
                    full_bits,
                ),
        decreases 24 - k,
    {
        let v: u32 = if k + 1 == atlas_count as usize {
            hold_bits
        } else if k + 1 < atlas_count as usize {
            full_bits
        } else {
            0
        };
        vs.push(v);
        k = k + 1;
    }
    vs
}

/// With a single atlas, the first slot receives the hold value and every
/// other slot the no-op zero value.
pub proof fn lemma_single_atlas_slot_values(hold_bits: u32, full_bits: u32)
    ensures
        slot_value_spec(1, 0, hold_bits, full_bits) == hold_bits,
        forall|k: int| 1 <= k < 24 ==> slot_value_spec(1, k, hold_bits, full_bits) == 0u32,
{
}

} // verus!
