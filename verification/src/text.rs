//! Byte-level text primitives shared by the spreadsheet parsers.
//!
//! Every position handled by the parsers is a byte offset into the UTF-8
//! encoding of a string, so the specifications below speak of `utf8(s@)`.
use vstd::prelude::*;
use vstd::string::StringSliceAdditionalSpecFns;
use vstd::utf8::*;

verus! {

broadcast use vstd::utf8::group_utf8_lib;

/// The UTF-8 encoding of a character sequence.
pub open spec fn utf8(s: Seq<char>) -> Seq<u8> {
    encode_utf8(s)
}

/// The bytes of an ASCII character sequence.
pub open spec fn ascii(s: Seq<char>) -> Seq<u8> {
    Seq::new(s.len(), |i: int| s[i] as u8)
}

/// `n` occurs in `h` starting at byte `i`.
pub open spec fn occurs_at(h: Seq<u8>, n: Seq<u8>, i: int) -> bool {
    0 <= i && i + n.len() <= h.len() && h.subrange(i, i + n.len()) == n
}

/// The first position at or after `k` where `n` occurs in `h`.
pub open spec fn first_from(h: Seq<u8>, n: Seq<u8>, k: int) -> Option<int>
    decreases h.len() + 1 - k,
{
    if k < 0 || k + n.len() > h.len() {
        None
    } else if occurs_at(h, n, k) {
        Some(k)
    } else {
        first_from(h, n, k + 1)
    }
}

/// The first position where `n` occurs in `h` (what `str::find` returns).
pub open spec fn first_index(h: Seq<u8>, n: Seq<u8>) -> Option<int> {
    first_from(h, n, 0)
}

/// `h` with every occurrence of `n` removed, scanning from the left
/// (what `str::replace(n, "")` returns).
pub open spec fn without(h: Seq<u8>, n: Seq<u8>) -> Seq<u8>
    decreases h.len(),
{
    if n.len() == 0 {
        h
    } else {
        match first_index(h, n) {
            Some(i) => if 0 <= i && i + n.len() <= h.len() {
                h.subrange(0, i) + without(h.subrange(i + n.len(), h.len() as int), n)
            } else {
                h
            },
            None => h,
        }
    }
}

/// Option<usize> seen as Option<int>.
pub open spec fn as_int(r: Option<usize>) -> Option<int> {
    match r {
        Some(i) => Some(i as int),
        None => None,
    }
}

pub proof fn lemma_first_from(h: Seq<u8>, n: Seq<u8>, k: int)
    requires
        0 <= k,
    ensures
        match first_from(h, n, k) {
            Some(i) => k <= i && occurs_at(h, n, i) && forall|j: int|
                k <= j < i ==> !#[trigger] occurs_at(h, n, j),
            None => forall|j: int| k <= j ==> !#[trigger] occurs_at(h, n, j),
        },
    decreases h.len() + 1 - k,
{
    if k + n.len() > h.len() {
    } else if occurs_at(h, n, k) {
    } else {
        lemma_first_from(h, n, k + 1);
    }
}

/// The result of `first_index` is the leftmost occurrence.
pub proof fn lemma_first_index(h: Seq<u8>, n: Seq<u8>)
    ensures
        match first_index(h, n) {
            Some(i) => 0 <= i && i + n.len() <= h.len() && occurs_at(h, n, i) && forall|j: int|
                0 <= j < i ==> !#[trigger] occurs_at(h, n, j),
            None => forall|j: int| !#[trigger] occurs_at(h, n, j),
        },
{
    lemma_first_from(h, n, 0);
}

/// Removing occurrences never lengthens the bytes.
pub proof fn lemma_without_len(h: Seq<u8>, n: Seq<u8>)
    ensures
        without(h, n).len() <= h.len(),
    decreases h.len(),
{
    if n.len() > 0 {
        match first_index(h, n) {
            Some(i) => if 0 <= i && i + n.len() <= h.len() {
                lemma_without_len(h.subrange(i + n.len(), h.len() as int), n);
            },
            None => {},
        }
    }
}

pub proof fn lemma_utf8_concat(a: Seq<char>, b: Seq<char>)
    ensures
        utf8(a + b) == utf8(a) + utf8(b),
    decreases a.len(),
{
    if a.len() == 0 {
        assert(a + b =~= b);
        assert(utf8(a) + utf8(b) =~= utf8(b));
    } else {
        lemma_utf8_concat(a.drop_first(), b);
        assert((a + b).drop_first() =~= a.drop_first() + b);
        assert((a + b)[0] == a[0]);
        assert(utf8(a + b) =~= utf8(a) + utf8(b));
    }
}

/// Only the empty sequence has an empty encoding.
pub proof fn lemma_utf8_empty(s: Seq<char>)
    ensures
        utf8(s).len() == 0 <==> s.len() == 0,
{
    if s.len() > 0 {
        assert(utf8(s) == encode_scalar(s[0] as u32) + utf8(s.drop_first()));
    }
}

pub proof fn lemma_utf8_injective(a: Seq<char>, b: Seq<char>)
    requires
        utf8(a) == utf8(b),
    ensures
        a == b,
{
    encode_utf8_decode_utf8(a);
    encode_utf8_decode_utf8(b);
}

/// Where one encoded sequence ends and another starts is a character boundary.
pub proof fn lemma_utf8_boundary_concat(a: Seq<char>, w: Seq<char>)
    ensures
        is_char_boundary(utf8(a + w), utf8(a).len() as int),
    decreases a.len(),
{
    if a.len() > 0 {
        let bytes = utf8(a + w);
        lemma_utf8_concat(a, w);
        encode_utf8_first_scalar(a + w);
        assert(pop_first_scalar(bytes) =~= utf8((a + w).drop_first()));
        assert((a + w).drop_first() =~= a.drop_first() + w);
        assert(utf8(a) == encode_scalar(a[0] as u32) + utf8(a.drop_first()));
        assert((a + w)[0] == a[0]);
        lemma_utf8_boundary_concat(a.drop_first(), w);
    }
}

/// The encoding of characters other than an ASCII character `ch` holds no
/// byte `ch`.
pub proof fn lemma_utf8_lacks_ascii(v: Seq<char>, ch: char)
    requires
        ch <= '\u{7f}',
        !v.contains(ch),
    ensures
        forall|j: int| 0 <= j < utf8(v).len() ==> #[trigger] utf8(v)[j] != ch as u8,
    decreases v.len(),
{
    if v.len() > 0 {
        let rest = v.drop_first();
        assert(!rest.contains(ch)) by {
            if rest.contains(ch) {
                let j = choose|j: int| 0 <= j < rest.len() && rest[j] == ch;
                assert(v[j + 1] == ch);
            }
        }
        lemma_utf8_lacks_ascii(rest, ch);
        let s = v[0] as u32;
        let c = ch as u32;
        let e = encode_scalar(s);
        assert(v[0] != ch);
        char_is_scalar(v[0]);
        char_u32_cast(v[0], s);
        char_u32_cast(ch, c);
        assert(s != c);
        assert(c <= 0x7f);
        assert forall|j: int| 0 <= j < e.len() implies #[trigger] e[j] != ch as u8 by {
            assert(ch as u8 == c as u8);
            if has_width_1_encoding(s) {
                assert((s & 0x7F) as u8 != c as u8) by (bit_vector)
                    requires
                        s <= 0x7f,
                        c <= 0x7f,
                        s != c,
                ;
            } else if has_width_2_encoding(s) {
                let l = leading_byte_width_2(s);
                let m = last_continuation_byte(s);
                assert(l >= 0x80) by (bit_vector)
                    requires
                        l == 0xC0 | ((s >> 6) & 0x1F) as u8,
                ;
                assert(m >= 0x80) by (bit_vector)
                    requires
                        m == 0x80 | (s & 0x3F) as u8,
                ;
            } else if has_width_3_encoding(s) {
                let l = leading_byte_width_3(s);
                let m = second_last_continuation_byte(s);
                let n = last_continuation_byte(s);
                assert(l >= 0x80) by (bit_vector)
                    requires
                        l == 0xE0 | ((s >> 12) & 0x0F) as u8,
                ;
                assert(m >= 0x80) by (bit_vector)
                    requires
                        m == 0x80 | ((s >> 6) & 0x3F) as u8,
                ;
                assert(n >= 0x80) by (bit_vector)
                    requires
                        n == 0x80 | (s & 0x3F) as u8,
                ;
            } else {
                let l = leading_byte_width_4(s);
                let k = third_last_continuation_byte(s);
                let m = second_last_continuation_byte(s);
                let n = last_continuation_byte(s);
                assert(l >= 0x80) by (bit_vector)
                    requires
                        l == 0xF0 | ((s >> 18) & 0x7) as u8,
                ;
                assert(k >= 0x80) by (bit_vector)
                    requires
                        k == 0x80 | ((s >> 12) & 0x3F) as u8,
                ;
                assert(m >= 0x80) by (bit_vector)
                    requires
                        m == 0x80 | ((s >> 6) & 0x3F) as u8,
                ;
                assert(n >= 0x80) by (bit_vector)
                    requires
                        n == 0x80 | (s & 0x3F) as u8,
                ;
            }
        }
        assert(utf8(v) == e + utf8(rest));
        assert forall|j: int| 0 <= j < utf8(v).len() implies #[trigger] utf8(v)[j] != ch as u8 by {
            if j < e.len() {
                assert(utf8(v)[j] == e[j]);
            } else {
                assert(utf8(v)[j] == utf8(rest)[j - e.len()]);
            }
        }
    }
}

/// In valid UTF-8, an ASCII byte starts a character and the byte after it does too.
pub proof fn lemma_ascii_boundary(h: Seq<u8>, k: int)
    requires
        valid_utf8(h),
        0 <= k < h.len(),
        h[k] < 0x80,
    ensures
        is_char_boundary(h, k),
        is_char_boundary(h, k + 1),
{
    is_char_boundary_iff_not_is_continuation_byte(h, k);
    if k + 1 == h.len() {
        is_char_boundary_start_end_of_seq(h);
    } else {
        valid_utf8_split(h, k);
        let t = h.subrange(k, h.len() as int);
        assert(valid_utf8(t));
        assert(t[0] == h[k]);
        let u = pop_first_scalar(t);
        assert(valid_utf8(u));
        assert(u =~= h.subrange(k + 1, h.len() as int));
        assert(u.len() > 0);
        assert(u[0] == h[k + 1]);
        assert(valid_first_scalar(u));
        assert(!is_continuation_byte(h[k + 1]));
        is_char_boundary_iff_not_is_continuation_byte(h, k + 1);
    }
}

/// A character boundary lies within the bytes.
pub proof fn lemma_boundary_range(b: Seq<u8>, i: int)
    requires
        valid_utf8(b),
        is_char_boundary(b, i),
    ensures
        0 <= i <= b.len(),
{
}

/// The UTF-8 encoding of ASCII characters is the characters themselves.
pub proof fn lemma_ascii_utf8(s: Seq<char>)
    requires
        is_ascii_chars(s),
    ensures
        utf8(s).len() == s.len(),
        forall|i: int| 0 <= i < s.len() ==> #[trigger] utf8(s)[i] == s[i] as u8,
{
    is_ascii_chars_encode_utf8(s);
}

pub proof fn lemma_ascii_literal(r: &str, s: Seq<char>)
    requires
        r@ == s,
        is_ascii_chars(s),
    ensures
        r.spec_bytes() == ascii(s),
{
    lemma_ascii_utf8(s);
    assert(r.spec_bytes() =~= ascii(s));
}

/// Whether `n` occurs in `h` at byte `k`.
pub fn matches_at(h: &[u8], n: &[u8], k: usize) -> (r: bool)
    requires
        k <= h@.len(),
    ensures
        r == occurs_at(h@, n@, k as int),
{
    let hl = h.len();
    let nl = n.len();
    if nl > hl - k {
        return false;
    }
    let mut j: usize = 0;
    while j < nl
        invariant
            hl == h@.len(),
            nl == n@.len(),
            j <= n@.len(),
            k + n@.len() <= h@.len(),
            forall|t: int| 0 <= t < j ==> h@[k + t] == n@[t],
        decreases n@.len() - j,
    {
        if h[k + j] != n[j] {
            proof {
                assert(h@.subrange(k as int, k + n@.len())[j as int] == h@[k + j]);
            }
            return false;
        }
        j += 1;
    }
    proof {
        assert(h@.subrange(k as int, k + n@.len()) =~= n@);
    }
    true
}

/// First byte position of `n` in `h`.
pub fn find_bytes(h: &[u8], n: &[u8]) -> (r: Option<usize>)
    ensures
        as_int(r) == first_index(h@, n@),
{
    let hl = h.len();
    let nl = n.len();
    if nl > hl {
        return None;
    }
    let mut k: usize = 0;
    loop
        invariant
            hl == h@.len(),
            nl == n@.len(),
            nl <= hl,
            k <= hl - nl,
            first_from(h@, n@, 0) == first_from(h@, n@, k as int),
        decreases hl - nl - k,
    {
        if matches_at(h, n, k) {
            return Some(k);
        }
        if k == hl - nl {
            assert(first_from(h@, n@, k + 1) is None);
            return None;
        }
        k += 1;
    }
}

/// First byte position of `n` in `h` (as `str::find`).
pub fn find_str(h: &str, n: &str) -> (r: Option<usize>)
    ensures
        as_int(r) == first_index(h.spec_bytes(), n.spec_bytes()),
{
    find_bytes(h.as_bytes(), n.as_bytes())
}

/// Whether two strings hold the same characters.
pub fn str_eq(a: &str, b: &str) -> (r: bool)
    ensures
        r == (a@ == b@),
{
    let ab = a.as_bytes();
    let bb = b.as_bytes();
    let r = ab.len() == bb.len() && matches_at(ab, bb, 0);
    proof {
        assert(ab@.subrange(0, ab@.len() as int) =~= ab@);
        if r {
            lemma_utf8_injective(a@, b@);
        }
    }
    r
}

/// `s` with every occurrence of `pat` removed (as `s.replace(pat, "")`).
pub fn remove_all(s: &str, pat: &str) -> (r: String)
    requires
        pat.spec_bytes().len() > 0,
        pat.spec_bytes()[0] < 0x80,
        pat.spec_bytes()[pat.spec_bytes().len() - 1] < 0x80,
    ensures
        utf8(r@) == without(s.spec_bytes(), pat.spec_bytes()),
{
    let ghost p = pat.spec_bytes();
    let mut out = String::new();
    let mut rest: &str = s;
    let plen = pat.as_bytes().len();
    loop
        invariant
            p == pat.spec_bytes(),
            plen == p.len(),
            p.len() > 0,
            p[0] < 0x80,
            p[p.len() - 1] < 0x80,
            without(s.spec_bytes(), p) == utf8(out@) + without(rest.spec_bytes(), p),
        decreases rest.spec_bytes().len(),
    {
        let ghost rb = rest.spec_bytes();
        match find_str(rest, pat) {
            None => {
                let ghost old_out = out@;
                out.append(rest);
                proof {
                    lemma_utf8_concat(old_out, rest@);
                }
                return out;
            },
            Some(i) => {
                proof {
                    lemma_first_index(rb, p);
                    assert(rb[i as int] == p[0]) by {
                        assert(rb.subrange(i as int, i + p.len())[0] == rb[i as int]);
                    }
                    lemma_ascii_boundary(rb, i as int);
                }
                let (before, after) = rest.split_at(i);
                let ghost ab = after.spec_bytes();
                proof {
                    assert(ab[plen - 1] == p[p.len() - 1]) by {
                        assert(rb.subrange(i as int, i + p.len())[plen - 1] == rb[i + plen - 1]);
                    }
                    lemma_ascii_boundary(ab, plen - 1);
                }
                let (_found, tail) = after.split_at(plen);
                let ghost old_out = out@;
                out.append(before);
                proof {
                    lemma_utf8_concat(old_out, before@);
                    assert(tail.spec_bytes() =~= rb.subrange(i + plen, rb.len() as int));
                    assert(before.spec_bytes() =~= rb.subrange(0, i as int));
                    assert(without(rb, p) == rb.subrange(0, i as int) + without(
                        rb.subrange(i + plen, rb.len() as int),
                        p,
                    ));
                    assert(utf8(out@) + without(tail.spec_bytes(), p) =~= utf8(old_out) + (
                    rb.subrange(0, i as int) + without(tail.spec_bytes(), p)));
                }
                rest = tail;
            },
        }
    }
}

} // verus!
