//! In-place, length-preserving substitution inside opaque binary buffers.
//!
//! Templates are never parsed: a buffer is only scanned for an exact byte
//! subsequence (a fixed-width ASCII token, or the little-endian encoding of a
//! 4-byte float sentinel) and the matched bytes are overwritten with a
//! replacement of identical length. Absence of a match is a no-op.

use vstd::prelude::*;
use vstd::string::StrSliceExecFns;
use vstd::string::StringSliceAdditionalSpecFns;
use crate::identifier::elongate;
use crate::identifier::elongate_spec;

verus! {

/// The bytes of an ASCII character sequence.
pub open spec fn ascii_bytes(s: Seq<char>) -> Seq<u8> {
    Seq::new(s.len(), |i| s[i] as u8)
}

/// The pattern `pat` occurs in `data` starting at offset `i`.
pub open spec fn match_at(data: Seq<u8>, pat: Seq<u8>, i: int) -> bool {
    &&& 0 <= i
    &&& i + pat.len() <= data.len()
    &&& data.subrange(i, i + pat.len()) == pat
}

/// `data` with the bytes at `at .. at + rep.len()` overwritten by `rep`.
pub open spec fn splice(data: Seq<u8>, at: int, rep: Seq<u8>) -> Seq<u8> {
    data.subrange(0, at) + rep + data.subrange(at + rep.len(), data.len() as int)
}

/// The replacement that is actually written over a token: the identifier
/// padded with leading `X` up to the token's width.
pub open spec fn encoded_replacement(token: Seq<char>, replacement: Seq<char>) -> Seq<u8> {
    ascii_bytes(elongate_spec(replacement, 'X', token.len(), true))
}

/// Splicing a same-length replacement keeps the buffer length.
pub proof fn lemma_splice_len(data: Seq<u8>, at: int, rep: Seq<u8>)
    requires
        0 <= at,
        at + rep.len() <= data.len(),
    ensures
        splice(data, at, rep).len() == data.len(),
        forall|k: int|
            0 <= k < data.len() && !(at <= k < at + rep.len()) ==> splice(data, at, rep)[k]
                == data[k],
        forall|k: int| 0 <= k < rep.len() ==> splice(data, at, rep)[at + k] == rep[k],
{
}

/// Compares `pat` against the bytes of `data` at offset `at`.
fn bytes_match_at(data: &Vec<u8>, pat: &Vec<u8>, at: usize) -> (r: bool)
    requires
        at + pat@.len() <= data@.len(),
    ensures
        r == match_at(data@, pat@, at as int),
{
    let n = data.len();
    let m = pat.len();
    let mut j: usize = 0;
    while j < m
        invariant
            0 <= j <= m,
            m == pat@.len(),
            n == data@.len(),
            at + m <= n,
            forall|k: int| 0 <= k < j ==> data@[at + k] == pat@[k],
        decreases m - j,
    {
        if data[at + j] != pat[j] {
            assert(data@.subrange(at as int, at + m) != pat@) by {
                assert(data@.subrange(at as int, at + m)[j as int] != pat@[j as int]);
            }
            return false;
        }
        j = j + 1;
    }
    assert(data@.subrange(at as int, at + m) =~= pat@);
    true
}

/// First occurrence of `pat` in `data` at an offset `>= from`, if any.
fn find_pattern(data: &Vec<u8>, pat: &Vec<u8>, from: usize) -> (r: Option<usize>)
    requires
        pat@.len() >= 1,
        from <= data@.len(),
    ensures
        match r {
            Some(i) => from <= i && match_at(data@, pat@, i as int) && forall|j: int|
                from <= j < i ==> !match_at(data@, pat@, j),
            None => forall|j: int| from <= j ==> !match_at(data@, pat@, j),
        },
{
    let n = data.len();
    let m = pat.len();
    if m > n {
        return None;
    }
    let limit = n - m;
    if from > limit {
        return None;
    }
    let mut i: usize = from;
    while i <= limit
        invariant
            from <= i,
            i <= limit + 1,
            limit == n - m,
            m <= n,
            n == data@.len(),
            m == pat@.len(),
            m >= 1,
            forall|j: int| from <= j < i ==> !match_at(data@, pat@, j),
        decreases limit + 1 - i,
    {
        if bytes_match_at(data, pat, i) {
            return Some(i);
        }
        i = i + 1;
    }
    None
}

/// Overwrites `data[at .. at + src.len()]` with `src`.
fn write_bytes_at(data: &mut Vec<u8>, at: usize, src: &Vec<u8>)
    requires
        at + src@.len() <= old(data)@.len(),
    ensures
        final(data)@ == splice(old(data)@, at as int, src@),
{
    let n = data.len();
    let m = src.len();
    let mut j: usize = 0;
    while j < m
        invariant
            0 <= j <= m,
            m == src@.len(),
            n == data@.len(),
            at + m <= n,
            data@.len() == old(data)@.len(),
            forall|k: int| 0 <= k < j ==> data@[at + k] == src@[k],
            forall|k: int|
                0 <= k < data@.len() && !(at <= k < at + j) ==> data@[k] == old(data)@[k],
        decreases m - j,
    {
        data.set(at + j, src[j]);
        j = j + 1;
    }
    proof {
        lemma_splice_len(old(data)@, at as int, src@);
        assert(data@ =~= splice(old(data)@, at as int, src@));
    }
}

/// Replaces only the first occurrence of `to_replace`'s bytes in `data` with
/// the encoded `replacement`; a buffer without an occurrence is untouched.
/// The replacement is padded to the token's width, so the buffer's length
/// never changes.
pub fn replace_first_string_in_bytes(data: &mut Vec<u8>, to_replace: &str, replacement: &str)
    requires
        to_replace.is_ascii(),
        replacement.is_ascii(),
        1 <= to_replace@.len(),
        replacement@.len() <= to_replace@.len(),
    ensures
        final(data)@.len() == old(data)@.len(),
        (forall|j: int| !match_at(old(data)@, ascii_bytes(to_replace@), j)) ==> final(data)@ == old(
            data,
        )@,
        forall|i: int|
            match_at(old(data)@, ascii_bytes(to_replace@), i) && (forall|j: int|
                0 <= j < i ==> !match_at(old(data)@, ascii_bytes(to_replace@), j)) ==> final(data)@
                == splice(
                old(data)@,
                i,
                encoded_replacement(to_replace@, replacement@),
            ),
{
    proof {
        vstd::string::is_ascii_spec_bytes(to_replace);
    }
    let tok_len = to_replace.unicode_len();
    let encoded = elongate(replacement, 'X', tok_len, true);
    let rep_str = encoded.as_str();
    let rep_bytes = rep_str.as_bytes_vec();
    let tok_bytes = to_replace.as_bytes_vec();
    proof {
        lemma_encoded_replacement_ascii(to_replace@, replacement@);
        assert(encoded@ == elongate_spec(replacement@, 'X', to_replace@.len(), true));
        assert(vstd::utf8::is_ascii_chars(rep_str@));
        vstd::string::is_ascii_spec_bytes(rep_str);
        assert(tok_bytes@ =~= ascii_bytes(to_replace@));
        assert(rep_bytes@ =~= encoded_replacement(to_replace@, replacement@));
    }
    match find_pattern(data, &tok_bytes, 0) {
        None => {
        },
        Some(i) => {
            proof {
                lemma_splice_len(data@, i as int, rep_bytes@);
            }
            write_bytes_at(data, i, &rep_bytes);
        },
    }
}

/// The buffer left by the left-to-right token scan started at offset `i`:
/// each occurrence of `tok` is overwritten with `rep` and the scan resumes
/// right after the overwritten region, so replaced bytes are never rescanned.
pub open spec fn replace_all_from(data: Seq<u8>, tok: Seq<u8>, rep: Seq<u8>, i: int) -> Seq<u8>
    decreases data.len() - i,
{
    if tok.len() == 0 || rep.len() != tok.len() || i < 0 || i + tok.len() > data.len() {
        data
    } else if match_at(data, tok, i) {
        replace_all_from(splice(data, i, rep), tok, rep, i + tok.len())
    } else {
        replace_all_from(data, tok, rep, i + 1)
    }
}

/// The scan never changes the buffer's length.
pub proof fn lemma_replace_all_len(data: Seq<u8>, tok: Seq<u8>, rep: Seq<u8>, i: int)
    ensures
        replace_all_from(data, tok, rep, i).len() == data.len(),
    decreases data.len() - i,
{
    if tok.len() == 0 || rep.len() != tok.len() || i < 0 || i + tok.len() > data.len() {
    } else if match_at(data, tok, i) {
        lemma_splice_len(data, i, rep);
        lemma_replace_all_len(splice(data, i, rep), tok, rep, i + tok.len());
    } else {
        lemma_replace_all_len(data, tok, rep, i + 1);
    }
}

/// Scanning over a region without occurrences does not change the outcome.
pub proof fn lemma_replace_all_skip(data: Seq<u8>, tok: Seq<u8>, rep: Seq<u8>, i: int, j: int)
    requires
        0 <= i <= j,
        tok.len() >= 1,
        rep.len() == tok.len(),
        forall|k: int| i <= k < j ==> !match_at(data, tok, k),
    ensures
        replace_all_from(data, tok, rep, i) == replace_all_from(data, tok, rep, j),
    decreases j - i,
{
    if i < j {
        if i + tok.len() > data.len() {
            assert(j + tok.len() > data.len());
        } else {
            lemma_replace_all_skip(data, tok, rep, i + 1, j);
        }
    }
}

/// A scan started past every occurrence returns the buffer unchanged.
pub proof fn lemma_replace_all_none(data: Seq<u8>, tok: Seq<u8>, rep: Seq<u8>, i: int)
    requires
        0 <= i,
        tok.len() >= 1,
        rep.len() == tok.len(),
        forall|k: int| i <= k ==> !match_at(data, tok, k),
    ensures
        replace_all_from(data, tok, rep, i) == data,
    decreases data.len() - i,
{
    if i + tok.len() <= data.len() {
        lemma_replace_all_none(data, tok, rep, i + 1);
    }
}

/// Replaces every non-overlapping occurrence of `to_replace`'s bytes in
/// `data`, scanning left to right and advancing past each replaced region.
/// A buffer without an occurrence is untouched; the length never changes.
pub fn replace_all_strings_in_bytes(data: &mut Vec<u8>, to_replace: &str, replacement: &str)
    requires
        to_replace.is_ascii(),
        replacement.is_ascii(),
        1 <= to_replace@.len(),
        replacement@.len() <= to_replace@.len(),
    ensures
        final(data)@.len() == old(data)@.len(),
        final(data)@ == replace_all_from(
            old(data)@,
            ascii_bytes(to_replace@),
            encoded_replacement(to_replace@, replacement@),
            0,
        ),
{
    proof {
        vstd::string::is_ascii_spec_bytes(to_replace);
    }
    let tok_len = to_replace.unicode_len();
    let encoded = elongate(replacement, 'X', tok_len, true);
    let rep_str = encoded.as_str();
    let rep_bytes = rep_str.as_bytes_vec();
    let tok_bytes = to_replace.as_bytes_vec();
    proof {
        lemma_encoded_replacement_ascii(to_replace@, replacement@);
        assert(encoded@ == elongate_spec(replacement@, 'X', to_replace@.len(), true));
        assert(vstd::utf8::is_ascii_chars(rep_str@));
        vstd::string::is_ascii_spec_bytes(rep_str);
        assert(tok_bytes@ =~= ascii_bytes(to_replace@));
        assert(rep_bytes@ =~= encoded_replacement(to_replace@, replacement@));
    }
    let ghost orig = data@;
    let ghost tok_s = tok_bytes@;
    let ghost rep_s = rep_bytes@;
    let m = tok_bytes.len();
    let n = data.len();
    let mut position: usize = 0;
    loop
        invariant
            n == data@.len(),
            m == tok_s.len(),
            m >= 1,
            rep_s.len() == m,
            tok_bytes@ == tok_s,
            rep_bytes@ == rep_s,
            data@.len() == orig.len(),
            position <= data@.len(),
            replace_all_from(orig, tok_s, rep_s, 0) == replace_all_from(
                data@,
                tok_s,
                rep_s,
                position as int,
            ),
        ensures
            data@ == replace_all_from(orig, tok_s, rep_s, 0),
            data@.len() == orig.len(),
        decreases data@.len() - position,
    {
        match find_pattern(data, &tok_bytes, position) {
            None => {
                proof {
                    lemma_replace_all_none(data@, tok_s, rep_s, position as int);
                }
                break ;
            },
            Some(start) => {
                proof {
                    lemma_replace_all_skip(data@, tok_s, rep_s, position as int, start as int);
                    lemma_splice_len(data@, start as int, rep_s);
                }
                write_bytes_at(data, start, &rep_bytes);
                position = start + m;
            },
        }
    }
}

/// An `X`-padded ASCII replacement for an ASCII token is itself ASCII and has
/// the token's byte width.
pub proof fn lemma_encoded_replacement_ascii(token: Seq<char>, replacement: Seq<char>)
    requires
        vstd::utf8::is_ascii_chars(token),
        vstd::utf8::is_ascii_chars(replacement),
        replacement.len() <= token.len(),
    ensures
        vstd::utf8::is_ascii_chars(elongate_spec(replacement, 'X', token.len(), true)),
        elongate_spec(replacement, 'X', token.len(), true).len() == token.len(),
        encoded_replacement(token, replacement).len() == token.len(),
{
    let padded = elongate_spec(replacement, 'X', token.len(), true);
    assert forall|i: int| 0 <= i < padded.len() implies '\0' <= #[trigger] padded[i] <= '\u{7f}' by {
        if replacement.len() < token.len() {
            if i < token.len() - replacement.len() {
                assert(padded[i] == 'X');
            } else {
                assert(padded[i] == replacement[i - (token.len() - replacement.len())]);
            }
        }
    }
}

/// The replacement cannot recreate the token: the two differ, no proper
/// suffix of the token is a prefix of the replacement, and no proper prefix
/// of the token is a suffix of the replacement. Under this condition a
/// window that overlaps freshly written replacement bytes can never spell
/// the token again.
pub open spec fn token_rep_independent(tok: Seq<u8>, rep: Seq<u8>) -> bool {
    &&& rep != tok
    &&& forall|d: int|
        1 <= d < tok.len() ==> tok.subrange(d, tok.len() as int) != rep.subrange(
            0,
            tok.len() - d,
        )
    &&& forall|d: int|
        1 <= d < tok.len() ==> tok.subrange(0, tok.len() - d) != rep.subrange(
            d,
            tok.len() as int,
        )
}

proof fn lemma_replace_all_clears_from(data: Seq<u8>, tok: Seq<u8>, rep: Seq<u8>, i: int)
    requires
        0 <= i,
        tok.len() >= 1,
        rep.len() == tok.len(),
        token_rep_independent(tok, rep),
        forall|j: int| 0 <= j < i ==> !match_at(data, tok, j),
    ensures
        forall|j: int| !match_at(replace_all_from(data, tok, rep, i), tok, j),
    decreases data.len() - i,
{
    let n = tok.len() as int;
    if i + n > data.len() {
        assert forall|j: int| !match_at(data, tok, j) by {
            if 0 <= j < i {
            } else if j >= i {
                assert(j + n > data.len());
            }
        }
        assert(replace_all_from(data, tok, rep, i) == data);
    } else if match_at(data, tok, i) {
        let spliced = splice(data, i, rep);
        lemma_splice_len(data, i, rep);
        assert forall|j: int| 0 <= j < i + n implies !match_at(spliced, tok, j) by {
            if j + n <= spliced.len() && match_at(spliced, tok, j) {
                let w = spliced.subrange(j, j + n);
                if j + n <= i {
                    // the window lies entirely before the replaced region
                    assert(w =~= data.subrange(j, j + n)) by {
                        assert forall|x: int| 0 <= x < n implies w[x] == data.subrange(j, j + n)[x]
                        by {
                            assert(spliced[j + x] == data[j + x]);
                        }
                    }
                    assert(match_at(data, tok, j));
                    assert(false);
                } else if j == i {
                    // the window is exactly the replaced region
                    assert(w =~= rep) by {
                        assert forall|x: int| 0 <= x < n implies w[x] == rep[x] by {
                            assert(spliced[i + x] == rep[x]);
                            assert(w[x] == spliced[j + x]);
                        }
                    }
                    assert(tok == rep);
                    assert(false);
                } else if j < i {
                    // the window ends with a prefix of the replacement
                    let d = i - j;
                    assert(tok.subrange(d, n) =~= rep.subrange(0, n - d)) by {
                        assert forall|x: int| 0 <= x < n - d implies tok.subrange(d, n)[x]
                            == rep.subrange(0, n - d)[x] by {
                            assert(w[d + x] == tok[d + x]);
                            assert(w[d + x] == spliced[j + d + x]);
                            assert(j + d + x == i + x);
                            assert(spliced[i + x] == rep[x]);
                        }
                    }
                    assert(false);
                } else {
                    // the window starts with a suffix of the replacement
                    let d = j - i;
                    assert(tok.subrange(0, n - d) =~= rep.subrange(d, n)) by {
                        assert forall|x: int| 0 <= x < n - d implies tok.subrange(0, n - d)[x]
                            == rep.subrange(d, n)[x] by {
                            assert(w[x] == tok[x]);
                            assert(w[x] == spliced[j + x]);
                            assert(j + x == i + (d + x));
                            assert(spliced[i + (d + x)] == rep[d + x]);
                        }
                    }
                    assert(false);
                }
            }
        }
        lemma_replace_all_clears_from(spliced, tok, rep, i + n);
        assert(replace_all_from(data, tok, rep, i) == replace_all_from(spliced, tok, rep, i + n));
    } else {
        lemma_replace_all_clears_from(data, tok, rep, i + 1);
        assert(replace_all_from(data, tok, rep, i) == replace_all_from(data, tok, rep, i + 1));
    }
}

/// After `replaceAll`, re-scanning for the original token yields zero
/// matches, and the buffer length is unchanged — provided the encoded
/// replacement is independent of the token, so that no window mixing
/// replacement bytes with neighbouring bytes can spell the token again.
pub proof fn lemma_replace_all_clears_token(data: Seq<u8>, tok: Seq<u8>, rep: Seq<u8>)
    requires
        tok.len() >= 1,
        rep.len() == tok.len(),
        token_rep_independent(tok, rep),
    ensures
        forall|j: int| !match_at(replace_all_from(data, tok, rep, 0), tok, j),
        replace_all_from(data, tok, rep, 0).len() == data.len(),
{
    lemma_replace_all_clears_from(data, tok, rep, 0);
    lemma_replace_all_len(data, tok, rep, 0);
}

/// `replaceFirst` on a buffer holding the token first at `p1` and again at
/// a disjoint later offset `p2` mutates only the bytes at
/// `p1 .. p1 + width`; in particular the bytes at `p2` still spell the
/// token afterwards. (By `replace_first_string_in_bytes`'s contract, the
/// buffer it leaves behind is exactly `splice(data, p1, rep)`.)
pub proof fn lemma_replace_first_keeps_later_occurrence(
    data: Seq<u8>,
    tok: Seq<u8>,
    rep: Seq<u8>,
    p1: int,
    p2: int,
)
    requires
        rep.len() == tok.len(),
        match_at(data, tok, p1),
        forall|j: int| 0 <= j < p1 ==> !match_at(data, tok, j),
        match_at(data, tok, p2),
        p1 + tok.len() <= p2,
    ensures
        forall|k: int|
            0 <= k < data.len() && !(p1 <= k < p1 + rep.len()) ==> splice(data, p1, rep)[k]
                == data[k],
        match_at(splice(data, p1, rep), tok, p2),
{
    lemma_splice_len(data, p1, rep);
    assert(splice(data, p1, rep).subrange(p2, p2 + tok.len()) =~= data.subrange(
        p2,
        p2 + tok.len(),
    ));
}

} // verus!
