//! Byte-level text helpers shared by the parsers and emitters.
//!
//! G-code is line-oriented, mostly-ASCII text; every routine here works on
//! raw bytes so that files survive processing byte-for-byte wherever they
//! are copied through.

use vstd::prelude::*;

verus! {

use vstd::string::StringSliceAdditionalSpecFns;

/// Line feed.
pub const NL: u8 = 10;
/// Carriage return.
pub const CR: u8 = 13;
/// The comment introducer `;`.
pub const SEMICOLON: u8 = 59;
/// `:`.
pub const COLON: u8 = 58;
/// `=`.
pub const EQUALS: u8 = 61;
/// `,`.
pub const COMMA: u8 = 44;
/// `/`.
pub const SLASH: u8 = 47;
/// `-`.
pub const DASH: u8 = 45;
/// `*`.
pub const STAR: u8 = 42;
/// `+`.
pub const PLUS: u8 = 43;
/// `_`.
pub const UNDERSCORE: u8 = 95;
/// `g`, the lower-case initial of every motion command.
pub const LOWER_G: u8 = 103;

/// The ASCII whitespace bytes that `char::is_whitespace` covers.
pub open spec fn is_ws(b: u8) -> bool {
    b == 32 || b == 9 || b == 10 || b == 11 || b == 12 || b == 13
}

/// A "word" byte in the sense of the `\w` character class, restricted to
/// ASCII: letters, digits and the underscore.
pub open spec fn is_word_byte(b: u8) -> bool {
    (48 <= b && b <= 57) || (65 <= b && b <= 90) || (97 <= b && b <= 122) || b == 95
}

/// ASCII decimal digit.
pub open spec fn is_digit(b: u8) -> bool {
    48 <= b && b <= 57
}

pub open spec fn is_blank(s: Seq<u8>) -> bool {
    forall|k: int| 0 <= k < s.len() ==> is_ws(s[k])
}

/// Exec mirror of `is_ws`.
pub fn ws_byte(b: u8) -> (r: bool)
    ensures
        r == is_ws(b),
{
    b == 32 || b == 9 || b == 10 || b == 11 || b == 12 || b == 13
}

/// Exec mirror of `is_word_byte`.
pub fn word_byte(b: u8) -> (r: bool)
    ensures
        r == is_word_byte(b),
{
    (48 <= b && b <= 57) || (65 <= b && b <= 90) || (97 <= b && b <= 122) || b == 95
}

/// Whether the line holds nothing but whitespace.
pub fn blank(s: &Vec<u8>) -> (r: bool)
    ensures
        r == is_blank(s@),
{
    let mut i: usize = 0;
    while i < s.len()
        invariant
            i <= s@.len(),
            forall|k: int| 0 <= k < i ==> is_ws(s@[k]),
        decreases s@.len() - i,
    {
        if !ws_byte(s[i]) {
            assert(!is_ws(s@[i as int]));
            return false;
        }
        i = i + 1;
    }
    true
}

/// Number of leading whitespace bytes.
pub open spec fn ws_front(s: Seq<u8>) -> int
    decreases s.len(),
{
    if s.len() == 0 || !is_ws(s[0]) {
        0
    } else {
        1 + ws_front(s.subrange(1, s.len() as int))
    }
}

/// Number of trailing whitespace bytes.
pub open spec fn ws_back(s: Seq<u8>) -> int
    decreases s.len(),
{
    if s.len() == 0 || !is_ws(s[s.len() - 1]) {
        0
    } else {
        1 + ws_back(s.subrange(0, s.len() - 1))
    }
}

/// What `str::trim` leaves: the bytes with leading and trailing whitespace
/// removed.
pub open spec fn trim_spec(s: Seq<u8>) -> Seq<u8> {
    if ws_front(s) == s.len() {
        Seq::empty()
    } else {
        s.subrange(ws_front(s), s.len() - ws_back(s))
    }
}

pub proof fn lemma_ws_front(s: Seq<u8>)
    ensures
        0 <= ws_front(s) <= s.len(),
        forall|k: int| 0 <= k < ws_front(s) ==> is_ws(s[k]),
        ws_front(s) < s.len() ==> !is_ws(s[ws_front(s)]),
    decreases s.len(),
{
    if s.len() == 0 || !is_ws(s[0]) {
    } else {
        lemma_ws_front(s.subrange(1, s.len() as int));
        assert forall|k: int| 0 <= k < ws_front(s) implies is_ws(s[k]) by {
            if k > 0 {
                assert(is_ws(s.subrange(1, s.len() as int)[k - 1]));
            }
        }
        if ws_front(s) < s.len() {
            assert(s[ws_front(s)] == s.subrange(1, s.len() as int)[ws_front(s) - 1]);
        }
    }
}

pub proof fn lemma_ws_back(s: Seq<u8>)
    ensures
        0 <= ws_back(s) <= s.len(),
        forall|k: int| s.len() - ws_back(s) <= k < s.len() ==> is_ws(s[k]),
        ws_back(s) < s.len() ==> !is_ws(s[s.len() - ws_back(s) - 1]),
    decreases s.len(),
{
    if s.len() == 0 || !is_ws(s[s.len() - 1]) {
    } else {
        let t = s.subrange(0, s.len() - 1);
        lemma_ws_back(t);
        assert forall|k: int| s.len() - ws_back(s) <= k < s.len() implies is_ws(s[k]) by {
            if k < s.len() - 1 {
                assert(is_ws(t[k]));
            }
        }
        if ws_back(s) < s.len() {
            assert(s[s.len() - ws_back(s) - 1] == t[t.len() - ws_back(t) - 1]);
        }
    }
}

/// Copy of `s[from..to]`.
pub fn subv(s: &Vec<u8>, from: usize, to: usize) -> (r: Vec<u8>)
    requires
        from <= to <= s@.len(),
    ensures
        r@ == s@.subrange(from as int, to as int),
{
    let mut r: Vec<u8> = Vec::new();
    let mut i: usize = from;
    while i < to
        invariant
            from <= i <= to <= s@.len(),
            r@ == s@.subrange(from as int, i as int),
        decreases to - i,
    {
        r.push(s[i]);
        assert(r@ =~= s@.subrange(from as int, i + 1));
        i = i + 1;
    }
    r
}

/// `str::trim` on bytes.
pub fn trim(s: &Vec<u8>) -> (r: Vec<u8>)
    ensures
        r@ == trim_spec(s@),
{
    proof {
        lemma_ws_front(s@);
        lemma_ws_back(s@);
    }
    let n = s.len();
    let mut lo: usize = 0;
    while lo < n && ws_byte(s[lo])
        invariant
            lo <= n == s@.len(),
            forall|k: int| 0 <= k < lo ==> is_ws(s@[k]),
        decreases n - lo,
    {
        lo = lo + 1;
    }
    if lo == n {
        proof {
            if ws_front(s@) < s@.len() {
                assert(is_ws(s@[ws_front(s@)]));
            }
        }
        return Vec::new();
    }
    assert(lo == ws_front(s@)) by {
        if lo < ws_front(s@) {
            assert(is_ws(s@[lo as int]));
        }
        if lo > ws_front(s@) {
            assert(is_ws(s@[ws_front(s@)]));
        }
    }
    let mut hi: usize = n;
    while hi > lo && ws_byte(s[hi - 1])
        invariant
            lo <= hi <= n == s@.len(),
            !is_ws(s@[lo as int]),
            forall|k: int| hi <= k < n ==> is_ws(s@[k]),
        decreases hi,
    {
        hi = hi - 1;
    }
    assert(hi == s@.len() - ws_back(s@)) by {
        if hi < s@.len() - ws_back(s@) {
            assert(is_ws(s@[hi as int]));
        }
        if hi > s@.len() - ws_back(s@) {
            assert(is_ws(s@[s@.len() - ws_back(s@) - 1]));
            assert(hi - 1 >= s@.len() - ws_back(s@));
        }
    }
    subv(s, lo, hi)
}

/// Whether `p` is a prefix of `s`.
pub open spec fn is_prefix(p: Seq<u8>, s: Seq<u8>) -> bool {
    p.len() <= s.len() && s.subrange(0, p.len() as int) == p
}

/// Whether the line starts with the literal `p` (compared byte-wise).
pub fn starts_with(s: &Vec<u8>, p: &str) -> (r: bool)
    ensures
        r == is_prefix(p.spec_bytes(), s@),
{
    let pb = p.as_bytes();
    if pb.len() > s.len() {
        return false;
    }
    let mut i: usize = 0;
    while i < pb.len()
        invariant
            i <= pb@.len() <= s@.len(),
            pb@ == p.spec_bytes(),
            forall|k: int| 0 <= k < i ==> s@[k] == pb@[k],
        decreases pb@.len() - i,
    {
        if pb[i] != s[i] {
            assert(s@.subrange(0, pb@.len() as int)[i as int] != pb@[i as int]);
            return false;
        }
        i = i + 1;
    }
    assert(s@.subrange(0, pb@.len() as int) =~= pb@);
    true
}

/// Index of the first occurrence of `b` in `s`, or `s.len()` when absent.
pub open spec fn find_idx(s: Seq<u8>, b: u8) -> int
    decreases s.len(),
{
    if s.len() == 0 {
        0
    } else if s[0] == b {
        0
    } else {
        1 + find_idx(s.subrange(1, s.len() as int), b)
    }
}

pub proof fn lemma_find_idx(s: Seq<u8>, b: u8)
    ensures
        0 <= find_idx(s, b) <= s.len(),
        forall|k: int| 0 <= k < find_idx(s, b) ==> s[k] != b,
        find_idx(s, b) < s.len() ==> s[find_idx(s, b)] == b,
    decreases s.len(),
{
    if s.len() == 0 || s[0] == b {
    } else {
        let t = s.subrange(1, s.len() as int);
        lemma_find_idx(t, b);
        assert forall|k: int| 0 <= k < find_idx(s, b) implies s[k] != b by {
            if k > 0 {
                assert(t[k - 1] != b);
            }
        }
        if find_idx(s, b) < s.len() {
            assert(s[find_idx(s, b)] == t[find_idx(s, b) - 1]);
        }
    }
}

/// Establishes `find_idx` from its characterisation.
pub proof fn lemma_find_idx_is(s: Seq<u8>, b: u8, i: int)
    requires
        0 <= i <= s.len(),
        forall|k: int| 0 <= k < i ==> s[k] != b,
        i == s.len() || s[i] == b,
    ensures
        find_idx(s, b) == i,
{
    lemma_find_idx(s, b);
    let e = find_idx(s, b);
    if e < i {
        assert(s[e] != b);
    }
    if e > i {
        assert(s[i] != b);
    }
}

/// First occurrence of `b`, or the length when `b` does not occur.
pub fn find_byte(s: &Vec<u8>, b: u8) -> (r: usize)
    ensures
        r == find_idx(s@, b),
{
    proof {
        lemma_find_idx(s@, b);
    }
    let mut i: usize = 0;
    while i < s.len()
        invariant
            i <= s@.len(),
            forall|k: int| 0 <= k < i ==> s@[k] != b,
        decreases s@.len() - i,
    {
        if s[i] == b {
            assert(i == find_idx(s@, b)) by {
                if i < find_idx(s@, b) {
                    assert(s@[i as int] != b);
                }
                if i > find_idx(s@, b) {
                    assert(s@[find_idx(s@, b)] != b);
                }
            }
            return i;
        }
        i = i + 1;
    }
    assert(i == find_idx(s@, b)) by {
        if find_idx(s@, b) < s@.len() {
            assert(s@[find_idx(s@, b)] != b);
        }
    }
    i
}

/// Index of the first position where `n` occurs as a substring of `s`, or
/// `-1` when it does not.
pub open spec fn sub_find(s: Seq<u8>, n: Seq<u8>, i: int) -> int
    decreases s.len() - i,
{
    if i < 0 || i + n.len() > s.len() {
        -1
    } else if n.len() == 0 {
        i
    } else if s.subrange(i, i + n.len() as int) == n {
        i
    } else {
        sub_find(s, n, i + 1)
    }
}

pub proof fn lemma_sub_find(s: Seq<u8>, n: Seq<u8>, i: int)
    requires
        0 <= i,
    ensures
        sub_find(s, n, i) == -1 || (i <= sub_find(s, n, i) && sub_find(s, n, i) + n.len()
            <= s.len()),
        sub_find(s, n, i) >= 0 ==> s.subrange(sub_find(s, n, i), sub_find(s, n, i) + n.len() as int)
            == n,
        forall|k: int|
            i <= k < sub_find(s, n, i) ==> #[trigger] s.subrange(k, k + n.len() as int) != n,
        sub_find(s, n, i) == -1 ==> forall|k: int|
            i <= k && k + n.len() <= s.len() ==> #[trigger] s.subrange(k, k + n.len() as int)
                != n,
    decreases s.len() - i,
{
    if i + n.len() > s.len() || n.len() == 0 || s.subrange(i, i + n.len() as int) == n {
    } else {
        lemma_sub_find(s, n, i + 1);
    }
}

/// First occurrence of the literal `n` as a substring, or `s.len()` when
/// absent (`n` itself is never empty where this is used).
#[verifier::rlimit(50)]
pub fn find_sub(s: &Vec<u8>, n: &str) -> (r: usize)
    ensures
        r == if 0 <= sub_find(s@, n.spec_bytes(), 0) < s@.len() {
            sub_find(s@, n.spec_bytes(), 0)
        } else {
            s@.len() as int
        },
{
    let nb = n.as_bytes();
    let ghost nv = n.spec_bytes();
    proof {
        lemma_sub_find(s@, nv, 0);
    }
    if nb.len() > s.len() {
        return s.len();
    }
    if nb.len() == 0 {
        return 0;
    }
    let mut i: usize = 0;
    while i <= s.len() - nb.len()
        invariant
            i <= s@.len(),
            nb@ == nv,
            nb@.len() <= s@.len(),
            forall|k: int| 0 <= k < i ==> #[trigger] s@.subrange(k, k + nv.len() as int) != nv,
        decreases s@.len() - i,
    {
        let mut j: usize = 0;
        let mut hit = true;
        while j < nb.len()
            invariant
                j <= nb@.len(),
                i + nb@.len() <= s@.len(),
                nb@ == nv,
                hit ==> forall|t: int| 0 <= t < j ==> s@[i + t] == nv[t],
                !hit ==> s@.subrange(i as int, i + nv.len() as int) != nv,
            decreases nb@.len() - j,
        {
            if s[i + j] != nb[j] {
                assert(s@.subrange(i as int, i + nv.len() as int)[j as int] != nv[j as int]);
                hit = false;
                j = nb.len();
            } else {
                j = j + 1;
            }
        }
        if hit {
            assert(s@.subrange(i as int, i + nv.len() as int) =~= nv);
            assert(i as int == sub_find(s@, nv, 0)) by {
                if (i as int) < sub_find(s@, nv, 0) {
                    assert(s@.subrange(i as int, i + nv.len() as int) != nv);
                }
                if (i as int) > sub_find(s@, nv, 0) && sub_find(s@, nv, 0) >= 0 {
                    assert(s@.subrange(
                        sub_find(s@, nv, 0),
                        sub_find(s@, nv, 0) + nv.len() as int,
                    ) != nv);
                }
                if sub_find(s@, nv, 0) == -1 {
                    assert(s@.subrange(i as int, i + nv.len() as int) != nv);
                }
            }
            assert(i < s@.len() || nv.len() == 0);
            if i < s.len() {
                return i;
            } else {
                return s.len();
            }
        }
        i = i + 1;
    }
    proof {
        if sub_find(s@, nv, 0) >= 0 {
            assert(s@.subrange(sub_find(s@, nv, 0), sub_find(s@, nv, 0) + nv.len() as int) != nv);
        }
    }
    s.len()
}

/// Append a copy of `src` to `dst`.
pub fn push_all(dst: &mut Vec<u8>, src: &Vec<u8>)
    ensures
        final(dst)@ == old(dst)@ + src@,
{
    let mut i: usize = 0;
    while i < src.len()
        invariant
            i <= src@.len(),
            dst@ == old(dst)@ + src@.subrange(0, i as int),
        decreases src@.len() - i,
    {
        dst.push(src[i]);
        assert(dst@ =~= old(dst)@ + src@.subrange(0, i + 1));
        i = i + 1;
    }
    assert(dst@ =~= old(dst)@ + src@);
}

/// Append the bytes of the literal `src` to `dst`.
pub fn push_str(dst: &mut Vec<u8>, src: &str)
    ensures
        final(dst)@ == old(dst)@ + src.spec_bytes(),
{
    let sb = src.as_bytes();
    let mut i: usize = 0;
    while i < sb.len()
        invariant
            i <= sb@.len(),
            sb@ == src.spec_bytes(),
            dst@ == old(dst)@ + sb@.subrange(0, i as int),
        decreases sb@.len() - i,
    {
        dst.push(sb[i]);
        assert(dst@ =~= old(dst)@ + sb@.subrange(0, i + 1));
        i = i + 1;
    }
    assert(dst@ =~= old(dst)@ + sb@);
}

/// The bytes of a literal, as an owned vector.
pub fn str_bytes(s: &str) -> (r: Vec<u8>)
    ensures
        r@ == s.spec_bytes(),
{
    let mut r: Vec<u8> = Vec::new();
    push_str(&mut r, s);
    r
}

/// An owned copy of the bytes.
pub fn copy_bytes(s: &Vec<u8>) -> (r: Vec<u8>)
    ensures
        r@ == s@,
{
    let mut r: Vec<u8> = Vec::new();
    push_all(&mut r, s);
    r
}

/// Byte-wise equality of two vectors.
pub fn bytes_eq(a: &Vec<u8>, b: &Vec<u8>) -> (r: bool)
    ensures
        r == (a@ == b@),
{
    if a.len() != b.len() {
        return false;
    }
    let mut i: usize = 0;
    while i < a.len()
        invariant
            i <= a@.len() == b@.len(),
            forall|k: int| 0 <= k < i ==> a@[k] == b@[k],
        decreases a@.len() - i,
    {
        if a[i] != b[i] {
            return false;
        }
        i = i + 1;
    }
    assert(a@ =~= b@);
    true
}

/// Whether the line equals the literal `p`.
pub fn eq_str(s: &Vec<u8>, p: &str) -> (r: bool)
    ensures
        r == (s@ == p.spec_bytes()),
{
    let pb = str_bytes(p);
    bytes_eq(s, &pb)
}

/// The pieces of `s` between occurrences of `b`: splitting never yields
/// fewer than one piece, and empty pieces are kept.
pub open spec fn split_byte_spec(s: Seq<u8>, b: u8) -> Seq<Seq<u8>>
    decreases s.len(),
{
    let i = find_idx(s, b);
    if 0 <= i < s.len() {
        seq![s.subrange(0, i)] + split_byte_spec(s.subrange(i + 1, s.len() as int), b)
    } else {
        seq![s]
    }
}

/// Split on a separator byte, as `str::split` does.
pub fn split_byte(s: &Vec<u8>, b: u8) -> (r: Vec<Vec<u8>>)
    ensures
        r.deep_view() == split_byte_spec(s@, b),
{
    let mut r: Vec<Vec<u8>> = Vec::new();
    let mut pos: usize = 0;
    let ghost whole = split_byte_spec(s@, b);
    proof {
        assert(s@.subrange(0, s@.len() as int) =~= s@);
        assert(r.deep_view() + split_byte_spec(s@, b) =~= split_byte_spec(s@, b));
    }
    let mut done = false;
    while !done
        invariant
            pos <= s@.len(),
            done ==> r.deep_view() == whole,
            !done ==> r.deep_view() + split_byte_spec(s@.subrange(pos as int, s@.len() as int), b)
                == whole,
        decreases s@.len() - pos + (if done { 0int } else { 1int }),
    {
        let ghost p0 = pos as int;
        let ghost prev = r.deep_view();
        let ghost rest = s@.subrange(pos as int, s@.len() as int);
        let mut j: usize = pos;
        while j < s.len() && s[j] != b
            invariant
                pos <= j <= s@.len(),
                forall|k: int| pos <= k < j ==> s@[k] != b,
            decreases s@.len() - j,
        {
            j = j + 1;
        }
        proof {
            lemma_find_idx(rest, b);
            assert(j - pos == find_idx(rest, b)) by {
                if j - pos < find_idx(rest, b) {
                    assert(j < s@.len() && s@[j as int] == b);
                    assert(rest[j - pos] == s@[j as int]);
                }
                if j - pos > find_idx(rest, b) {
                    assert(rest[find_idx(rest, b)] == b);
                    assert(s@[pos + find_idx(rest, b)] == b);
                }
            }
        }
        let piece = subv(s, pos, j);
        let ghost seg = rest.subrange(0, j - p0);
        proof {
            assert(seg =~= s@.subrange(p0, j as int));
        }
        r.push(piece);
        proof {
            assert(r.deep_view() =~~= prev.push(piece@));
        }
        if j == s.len() {
            done = true;
            proof {
                assert(seg =~= rest);
                assert(split_byte_spec(rest, b) == seq![rest]);
                assert(prev.push(piece@) =~= prev + split_byte_spec(rest, b));
            }
        } else {
            pos = j + 1;
            proof {
                assert(rest.subrange(j - p0 + 1, rest.len() as int) =~= s@.subrange(
                    pos as int,
                    s@.len() as int,
                ));
                assert(split_byte_spec(rest, b) == seq![seg] + split_byte_spec(
                    s@.subrange(pos as int, s@.len() as int),
                    b,
                ));
                assert(prev.push(piece@) + split_byte_spec(
                    s@.subrange(pos as int, s@.len() as int),
                    b,
                ) =~= prev + split_byte_spec(rest, b));
            }
        }
    }
    r
}

/// ASCII lower-casing of one byte.
pub open spec fn lower_byte(b: u8) -> u8 {
    if 65 <= b && b <= 90 {
        (b + 32) as u8
    } else {
        b
    }
}

/// ASCII upper-casing of one byte.
pub open spec fn upper_byte(b: u8) -> u8 {
    if 97 <= b && b <= 122 {
        (b - 32) as u8
    } else {
        b
    }
}

/// Whether the line, upper-cased byte-wise, starts with the literal `p`.
pub fn starts_with_upper(s: &Vec<u8>, p: &str) -> (r: bool)
    ensures
        r == is_prefix(p.spec_bytes(), s@.map_values(|b: u8| upper_byte(b))),
{
    let ghost u = s@.map_values(|b: u8| upper_byte(b));
    let pb = p.as_bytes();
    if pb.len() > s.len() {
        return false;
    }
    let mut i: usize = 0;
    while i < pb.len()
        invariant
            i <= pb@.len() <= s@.len(),
            pb@ == p.spec_bytes(),
            forall|k: int| 0 <= k < i ==> u[k] == pb@[k],
        decreases pb@.len() - i,
    {
        let b = s[i];
        let ub = if 97 <= b && b <= 122 {
            b - 32
        } else {
            b
        };
        assert(ub == upper_byte(s@[i as int]));
        if ub != pb[i] {
            assert(u.subrange(0, pb@.len() as int)[i as int] != pb@[i as int]);
            return false;
        }
        i = i + 1;
    }
    assert(u.subrange(0, pb@.len() as int) =~= pb@);
    true
}

/// Value of a run of decimal digits, most significant first.
pub open spec fn digits_val(s: Seq<u8>) -> int
    decreases s.len(),
{
    if s.len() == 0 {
        0
    } else {
        digits_val(s.drop_last()) * 10 + (s.last() - 48)
    }
}

pub open spec fn all_digits(s: Seq<u8>) -> bool {
    forall|k: int| 0 <= k < s.len() ==> is_digit(s[k])
}

/// What `str::parse::<usize>` accepts: an optional leading `+`, then at
/// least one decimal digit, with a value that fits the type.
pub open spec fn parse_usize_spec(s: Seq<u8>) -> Option<int> {
    let body = if s.len() > 0 && s[0] == PLUS {
        s.subrange(1, s.len() as int)
    } else {
        s
    };
    if body.len() > 0 && all_digits(body) && digits_val(body) <= usize::MAX {
        Some(digits_val(body))
    } else {
        None
    }
}

pub proof fn lemma_digits_val_nonneg(s: Seq<u8>)
    requires
        all_digits(s),
    ensures
        digits_val(s) >= 0,
    decreases s.len(),
{
    if s.len() > 0 {
        assert(all_digits(s.drop_last())) by {
            assert(forall|k: int| 0 <= k < s.len() - 1 ==> s.drop_last()[k] == s[k]);
        }
        lemma_digits_val_nonneg(s.drop_last());
    }
}

pub proof fn lemma_digits_prefix_le(s: Seq<u8>, i: int)
    requires
        all_digits(s),
        0 <= i <= s.len(),
    ensures
        digits_val(s.subrange(0, i)) <= digits_val(s),
    decreases s.len() - i,
{
    if i == s.len() {
        assert(s.subrange(0, i) =~= s);
    } else {
        let t = s.subrange(0, i + 1);
        assert(t.drop_last() =~= s.subrange(0, i));
        assert(all_digits(s.subrange(0, i)));
        lemma_digits_val_nonneg(s.subrange(0, i));
        assert(digits_val(t) == digits_val(s.subrange(0, i)) * 10 + (s[i] - 48));
        lemma_digits_prefix_le(s, i + 1);
    }
}

/// `str::parse::<usize>` on bytes.
pub fn parse_usize(s: &Vec<u8>) -> (r: Option<usize>)
    ensures
        match r {
            Some(v) => parse_usize_spec(s@) == Some(v as int),
            None => parse_usize_spec(s@) is None,
        },
{
    let start: usize = if s.len() > 0 && s[0] == PLUS {
        1
    } else {
        0
    };
    let ghost body = if s@.len() > 0 && s@[0] == PLUS {
        s@.subrange(1, s@.len() as int)
    } else {
        s@
    };
    assert(body =~= s@.subrange(start as int, s@.len() as int));
    if start == s.len() {
        return None;
    }
    let mut acc: usize = 0;
    let mut i: usize = start;
    while i < s.len()
        invariant
            start <= i <= s@.len(),
            acc == digits_val(body.subrange(0, i - start)),
            all_digits(body.subrange(0, i - start)),
        decreases s@.len() - i,
    {
        let b = s[i];
        if b < 48 || b > 57 {
            assert(!is_digit(body[i - start]));
            return None;
        }
        let d: usize = (b - 48) as usize;
        if acc > (usize::MAX - d) / 10 {
            assert(acc * 10 + d > usize::MAX) by (nonlinear_arith)
                requires
                    acc > (usize::MAX - d) / 10,
                    0 <= d <= 9,
            ;
            proof {
                let done = body.subrange(0, i - start + 1);
                assert(done.drop_last() =~= body.subrange(0, i - start));
                assert(digits_val(done) == acc * 10 + d);
                if all_digits(body) {
                    lemma_digits_prefix_le(body, i - start + 1);
                    assert(digits_val(body) > usize::MAX);
                }
            }
            return None;
        }
        assert(acc * 10 + d <= usize::MAX) by (nonlinear_arith)
            requires
                acc <= (usize::MAX - d) / 10,
                0 <= d <= 9,
        ;
        acc = acc * 10 + d;
        proof {
            let done = body.subrange(0, i - start + 1);
            assert(done.drop_last() =~= body.subrange(0, i - start));
            assert(done.last() == b);
        }
        i = i + 1;
    }
    assert(body.subrange(0, i - start) =~= body);
    Some(acc)
}

/// What `str::parse::<isize>` accepts: an optional sign, then at least one
/// decimal digit, with a value that fits the type.
pub open spec fn parse_isize_spec(s: Seq<u8>) -> Option<int> {
    let body = if s.len() > 0 && (s[0] == PLUS || s[0] == DASH) {
        s.subrange(1, s.len() as int)
    } else {
        s
    };
    let negative = s.len() > 0 && s[0] == DASH;
    if body.len() > 0 && all_digits(body) {
        let v = if negative {
            -digits_val(body)
        } else {
            digits_val(body)
        };
        if isize::MIN <= v <= isize::MAX {
            Some(v)
        } else {
            None
        }
    } else {
        None
    }
}

/// `str::parse::<isize>` on bytes.
pub fn parse_isize(s: &Vec<u8>) -> (r: Option<isize>)
    ensures
        match r {
            Some(v) => parse_isize_spec(s@) == Some(v as int),
            None => parse_isize_spec(s@) is None,
        },
{
    let negative = s.len() > 0 && s[0] == DASH;
    let start: usize = if s.len() > 0 && (s[0] == PLUS || s[0] == DASH) {
        1
    } else {
        0
    };
    let ghost body = if s@.len() > 0 && (s@[0] == PLUS || s@[0] == DASH) {
        s@.subrange(1, s@.len() as int)
    } else {
        s@
    };
    assert(body =~= s@.subrange(start as int, s@.len() as int));
    if start == s.len() {
        return None;
    }
    let limit: usize = if negative {
        let m: usize = (isize::MAX as usize) + 1;
        m
    } else {
        isize::MAX as usize
    };
    let mut acc: usize = 0;
    let mut i: usize = start;
    while i < s.len()
        invariant
            start <= i <= s@.len(),
            acc == digits_val(body.subrange(0, i - start)),
            all_digits(body.subrange(0, i - start)),
            acc <= limit,
            negative ==> limit == isize::MAX + 1,
            !negative ==> limit == isize::MAX,
        decreases s@.len() - i,
    {
        let b = s[i];
        if b < 48 || b > 57 {
            assert(!is_digit(body[i - start]));
            return None;
        }
        let d: usize = (b - 48) as usize;
        proof {
            let done = body.subrange(0, i - start + 1);
            assert(done.drop_last() =~= body.subrange(0, i - start));
            assert(done.last() == b);
            assert(digits_val(done) == acc * 10 + d);
        }
        if acc > (limit - d) / 10 {
            assert(acc * 10 + d > limit) by (nonlinear_arith)
                requires
                    acc > (limit - d) / 10,
                    0 <= d <= 9,
                    d <= limit,
            ;
            proof {
                if all_digits(body) {
                    lemma_digits_prefix_le(body, i - start + 1);
                    assert(digits_val(body) > limit);
                }
            }
            return None;
        }
        assert(acc * 10 + d <= limit) by (nonlinear_arith)
            requires
                acc <= (limit - d) / 10,
                0 <= d <= 9,
        ;
        acc = acc * 10 + d;
        i = i + 1;
    }
    assert(body.subrange(0, i - start) =~= body);
    if negative {
        if acc == (isize::MAX as usize) + 1 {
            Some(isize::MIN)
        } else {
            Some(-(acc as isize))
        }
    } else {
        Some(acc as isize)
    }
}

/// Decimal rendering of a non-negative number.
pub open spec fn dec_of(n: int) -> Seq<u8>
    recommends
        n >= 0,
    decreases n,
{
    if n < 10 {
        seq![(48 + if n >= 0 { n } else { 0 }) as u8]
    } else {
        dec_of(n / 10).push((48 + n % 10) as u8)
    }
}

/// Decimal rendering of a signed number.
pub open spec fn dec_of_int(n: int) -> Seq<u8> {
    if n < 0 {
        seq![DASH] + dec_of(-n)
    } else {
        dec_of(n)
    }
}

/// Render a `usize` in decimal.
pub fn fmt_usize(n: usize) -> (r: Vec<u8>)
    ensures
        r@ == dec_of(n as int),
    decreases n,
{
    if n < 10 {
        let mut r: Vec<u8> = Vec::new();
        r.push(48 + (n as u8));
        assert(r@ =~= dec_of(n as int));
        r
    } else {
        let mut r = fmt_usize(n / 10);
        r.push(48 + ((n % 10) as u8));
        r
    }
}

/// Render an `isize` in decimal.
pub fn fmt_isize(n: isize) -> (r: Vec<u8>)
    requires
        n > isize::MIN,
    ensures
        r@ == dec_of_int(n as int),
{
    if n < 0 {
        let mut r: Vec<u8> = Vec::new();
        r.push(DASH);
        let m: usize = (-n) as usize;
        let digits = fmt_usize(m);
        push_all(&mut r, &digits);
        assert(r@ =~= dec_of_int(n as int));
        r
    } else {
        fmt_usize(n as usize)
    }
}

/// Strip one trailing carriage return, as `BufRead::lines` does.
pub open spec fn strip_cr(s: Seq<u8>) -> Seq<u8> {
    if s.len() > 0 && s.last() == CR {
        s.drop_last()
    } else {
        s
    }
}

/// The lines of a byte stream, split on line feeds, each with a trailing
/// carriage return removed; a final fragment without a line feed still
/// counts as a line.
pub open spec fn lines_of(s: Seq<u8>) -> Seq<Seq<u8>>
    decreases s.len(),
{
    if s.len() == 0 {
        Seq::empty()
    } else {
        let i = find_idx(s, NL);
        if 0 <= i < s.len() {
            seq![strip_cr(s.subrange(0, i))] + lines_of(s.subrange(i + 1, s.len() as int))
        } else {
            seq![strip_cr(s)]
        }
    }
}

/// Split a whole file into lines, following `BufRead::lines`.
#[verifier::rlimit(50)]
pub fn split_lines(s: &Vec<u8>) -> (r: Vec<Vec<u8>>)
    ensures
        r.deep_view() == lines_of(s@),
{
    let mut r: Vec<Vec<u8>> = Vec::new();
    let mut pos: usize = 0;
    proof {
        assert(s@.subrange(0, s@.len() as int) =~= s@);
        assert(r.deep_view() + lines_of(s@) =~= lines_of(s@));
    }
    while pos < s.len()
        invariant
            pos <= s@.len(),
            r.deep_view() + lines_of(s@.subrange(pos as int, s@.len() as int)) == lines_of(s@),
        decreases s@.len() - pos,
    {
        let ghost p0 = pos as int;
        let ghost prev = r.deep_view();
        let ghost rest = s@.subrange(pos as int, s@.len() as int);
        let mut j: usize = pos;
        while j < s.len() && s[j] != NL
            invariant
                pos <= j <= s@.len(),
                forall|k: int| pos <= k < j ==> s@[k] != NL,
            decreases s@.len() - j,
        {
            j = j + 1;
        }
        proof {
            lemma_find_idx(rest, NL);
            assert(j - pos == find_idx(rest, NL)) by {
                if j - pos < find_idx(rest, NL) {
                    assert(j < s@.len() && s@[j as int] == NL);
                    assert(rest[j - pos] == s@[j as int]);
                }
                if j - pos > find_idx(rest, NL) {
                    assert(rest[find_idx(rest, NL)] == NL);
                    assert(s@[pos + find_idx(rest, NL)] == NL);
                }
            }
        }
        let line: Vec<u8> = if j > pos && s[j - 1] == CR {
            subv(s, pos, j - 1)
        } else {
            subv(s, pos, j)
        };
        let ghost seg = rest.subrange(0, j - pos);
        proof {
            assert(seg =~= s@.subrange(pos as int, j as int));
            if j > pos && s@[j - 1] == CR {
                assert(seg.drop_last() =~= s@.subrange(pos as int, j - 1));
                assert(line@ == strip_cr(seg));
            } else {
                assert(line@ == strip_cr(seg));
            }
        }
        r.push(line);
        proof {
            assert(r.deep_view() =~~= prev.push(line@));
        }
        if j == s.len() {
            pos = j;
            proof {
                assert(seg =~= rest);
                assert(lines_of(rest) == seq![strip_cr(rest)]);
                assert(lines_of(s@.subrange(pos as int, s@.len() as int)) =~= Seq::<
                    Seq<u8>,
                >::empty());
                assert(prev.push(line@) + lines_of(s@.subrange(pos as int, s@.len() as int)) =~=
                    prev + lines_of(rest));
            }
        } else {
            pos = j + 1;
            proof {
                assert(rest.subrange(j - p0 + 1, rest.len() as int) =~= s@.subrange(
                    pos as int,
                    s@.len() as int,
                ));
                assert(lines_of(rest) == seq![strip_cr(seg)] + lines_of(
                    s@.subrange(pos as int, s@.len() as int),
                ));
                assert(prev.push(line@) + lines_of(s@.subrange(pos as int, s@.len() as int)) =~=
                    prev + lines_of(rest));
            }
        }
    }
    proof {
        assert(lines_of(s@.subrange(pos as int, s@.len() as int)) =~= Seq::<Seq<u8>>::empty());
        assert(r.deep_view() =~= lines_of(s@));
    }
    r
}

} // verus!
