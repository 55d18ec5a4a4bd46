//! Byte and string utilities shared by the marker scanner and the renderer.
//!
//! Chapter text is handled as its UTF-8 bytes (`str::spec_bytes`), since the
//! markdown parser reports byte ranges and marker spans are byte ranges too.
//! Everything that the scanner looks for is ASCII, and an ASCII byte never
//! occurs inside the encoding of another character.
use vstd::prelude::*;
use vstd::string::StrSliceExecFns;
use vstd::string::StringSliceAdditionalSpecFns;
use vstd::utf8::*;

verus! {

broadcast use vstd::seq::group_seq_axioms;

/// An ASCII byte.
pub open spec fn is_ascii_byte(b: u8) -> bool {
    b < 0x80
}

/// The bytes of a `&str` are valid UTF-8 and decode back to its characters.
pub proof fn lemma_str_bytes(s: &str)
    ensures
        valid_utf8(s.spec_bytes()),
        decode_utf8(s.spec_bytes()) == s@,
{
    encode_utf8_valid_utf8(s@);
    encode_utf8_decode_utf8(s@);
}

/// In valid UTF-8, the start, the end and a position holding an ASCII byte
/// are character boundaries.
pub proof fn lemma_boundary_at_ascii(bytes: Seq<u8>, i: int)
    requires
        valid_utf8(bytes),
        0 <= i <= bytes.len(),
        0 < i < bytes.len() ==> is_ascii_byte(bytes[i]),
    ensures
        is_char_boundary(bytes, i),
{
    if i == 0 || i == bytes.len() {
        is_char_boundary_start_end_of_seq(bytes);
    } else {
        is_char_boundary_iff_is_leading_byte(bytes, i);
    }
}

/// In valid UTF-8, the position right after an ASCII byte is a character
/// boundary.
pub proof fn lemma_boundary_after_ascii(bytes: Seq<u8>, i: int)
    requires
        valid_utf8(bytes),
        0 <= i < bytes.len(),
        is_ascii_byte(bytes[i]),
    ensures
        is_char_boundary(bytes, i + 1),
    decreases bytes.len(),
{
    let l = length_of_first_scalar(bytes);
    let rest = pop_first_scalar(bytes);
    assert(valid_first_scalar(bytes) && valid_utf8(rest));
    if i < l {
        // The first scalar has continuation bytes after its leading byte,
        // and an ASCII leading byte makes it one byte long.
        assert(i == 0 && l == 1);
        assert(is_char_boundary(rest, 0));
    } else {
        assert(rest.len() == bytes.len() - l);
        assert(rest[i - l] == bytes[i]);
        lemma_boundary_after_ascii(rest, i - l);
    }
}

/// The part of `s` between two character boundaries, by byte position.
pub fn str_slice(s: &str, start: usize, end: usize) -> (r: &str)
    requires
        start <= end <= s.spec_bytes().len(),
        is_char_boundary(s.spec_bytes(), start as int),
        is_char_boundary(s.spec_bytes(), end as int),
    ensures
        r.spec_bytes() == s.spec_bytes().subrange(start as int, end as int),
{
    let ghost b = s.spec_bytes();
    proof {
        lemma_str_bytes(s);
    }
    let (head, _) = s.split_at(end);
    proof {
        let h = b.subrange(0, end as int);
        valid_utf8_split(b, end as int);
        if start < end {
            is_char_boundary_iff_not_is_continuation_byte(b, start as int);
            is_char_boundary_iff_not_is_continuation_byte(h, start as int);
        } else {
            is_char_boundary_start_end_of_seq(h);
        }
    }
    let (_, r) = head.split_at(start);
    proof {
        assert(r.spec_bytes() =~= b.subrange(start as int, end as int));
    }
    r
}

/// Byte-wise equality of two strings, which is equality of their characters.
pub fn str_eq(a: &str, b: &str) -> (r: bool)
    ensures
        r == (a@ == b@),
{
    let x = a.as_bytes();
    let y = b.as_bytes();
    proof {
        lemma_str_bytes(a);
        lemma_str_bytes(b);
    }
    if x.len() != y.len() {
        return false;
    }
    let mut i: usize = 0;
    while i < x.len()
        invariant
            x@ == a.spec_bytes(),
            y@ == b.spec_bytes(),
            x@.len() == y@.len(),
            i <= x@.len(),
            forall|j: int| 0 <= j < i ==> x@[j] == y@[j],
        decreases x@.len() - i,
    {
        if x[i] != y[i] {
            return false;
        }
        i += 1;
    }
    assert(x@ =~= y@);
    true
}

/// First position at or after `i` that holds byte `c`, or the length of
/// `t` when no later position does.
pub open spec fn find_from(t: Seq<u8>, c: u8, i: int) -> int
    decreases t.len() - i,
{
    if i < 0 || i >= t.len() {
        t.len() as int
    } else if t[i] == c {
        i
    } else {
        find_from(t, c, i + 1)
    }
}

pub proof fn lemma_find_from(t: Seq<u8>, c: u8, i: int)
    requires
        0 <= i <= t.len(),
    ensures
        i <= find_from(t, c, i) <= t.len(),
        find_from(t, c, i) < t.len() ==> t[find_from(t, c, i)] == c,
        forall|j: int| i <= j < find_from(t, c, i) ==> t[j] != c,
    decreases t.len() - i,
{
    if i < t.len() && t[i] != c {
        lemma_find_from(t, c, i + 1);
    }
}

/// Position of the first `c` in `t` at or after `from`, or `t.len()`.
pub fn find_byte(t: &[u8], c: u8, from: usize) -> (r: usize)
    requires
        from <= t@.len(),
    ensures
        r == find_from(t@, c, from as int),
{
    let mut i = from;
    while i < t.len() && t[i] != c
        invariant
            from <= i <= t@.len(),
            find_from(t@, c, i as int) == find_from(t@, c, from as int),
        decreases t@.len() - i,
    {
        i += 1;
    }
    i
}

/// The characters with the Unicode `White_Space` property.
pub open spec fn is_unicode_whitespace(c: char) -> bool {
    let u = c as u32;
    ||| 0x09 <= u <= 0x0d
    ||| u == 0x20
    ||| u == 0x85
    ||| u == 0xa0
    ||| u == 0x1680
    ||| 0x2000 <= u <= 0x200a
    ||| u == 0x2028
    ||| u == 0x2029
    ||| u == 0x202f
    ||| u == 0x205f
    ||| u == 0x3000
}

/// Every character of `s` is whitespace (so `s.trim()` is empty).
pub open spec fn all_whitespace(s: Seq<char>) -> bool {
    forall|i: int| 0 <= i < s.len() ==> is_unicode_whitespace(#[trigger] s[i])
}

/// `char::is_whitespace`: whether `c` has the Unicode `White_Space`
/// property.
pub fn char_is_whitespace(c: char) -> (r: bool)
    ensures
        r == is_unicode_whitespace(c),
{
    let u = c as u32;
    (0x09 <= u && u <= 0x0d) || u == 0x20 || u == 0x85 || u == 0xa0 || u == 0x1680 || (0x2000
        <= u && u <= 0x200a) || u == 0x2028 || u == 0x2029 || u == 0x202f || u == 0x205f || u
        == 0x3000
}

/// True when `s` holds whitespace only, i.e. when `s.trim()` is empty.
pub fn is_blank(s: &str) -> (r: bool)
    ensures
        r == all_whitespace(s@),
{
    let mut blank = true;
    for c in it: s.chars()
        invariant
            it.seq() == s@,
            blank == (forall|i: int| 0 <= i < it.index() ==> is_unicode_whitespace(#[trigger] s@[i])),
    {
        if !char_is_whitespace(c) {
            blank = false;
        }
    }
    blank
}

/// The decimal digit `d` as a character.
pub open spec fn digit_char(d: nat) -> char {
    (d + 48) as char
}

/// Decimal notation of `n`, without sign or leading zeros.
pub open spec fn decimal(n: nat) -> Seq<char>
    decreases n,
{
    if n < 10 {
        seq![digit_char(n)]
    } else {
        decimal(n / 10).push(digit_char(n % 10))
    }
}

fn digit(d: usize) -> (r: char)
    requires
        d < 10,
    ensures
        r == digit_char(d as nat),
{
    let b: u8 = d as u8 + 48;
    b as char
}

/// `n` in decimal, as `usize::to_string` writes it: no sign, no leading
/// zeros.
pub fn usize_to_string(n: usize) -> (r: String)
    ensures
        r@ == decimal(n as nat),
    decreases n,
{
    if n < 10 {
        let mut s = String::new();
        push_char(&mut s, digit(n));
        s
    } else {
        let mut s = usize_to_string(n / 10);
        push_char(&mut s, digit(n % 10));
        s
    }
}

/// `String::push`: appends one character.
#[verifier::external_body]
pub(crate) fn push_char(s: &mut String, c: char)
    ensures
        final(s)@ == old(s)@.push(c),
{
    s.push(c)
}

/// `s` with every match of `from` replaced by `to`, matches taken from the
/// left without overlap.
pub open spec fn replace_spec(s: Seq<char>, from: Seq<char>, to: Seq<char>) -> Seq<char>
    decreases s.len(),
{
    if from.len() == 0 || s.len() < from.len() {
        s
    } else if s.take(from.len() as int) == from {
        to + replace_spec(s.skip(from.len() as int), from, to)
    } else {
        seq![s[0]] + replace_spec(s.skip(1), from, to)
    }
}

/// `str::replace` with a non-empty pattern: replaces every match, scanning
/// from the left, matches not overlapping.
#[verifier::external_body]
pub(crate) fn str_replace(s: &str, from: &str, to: &str) -> (r: String)
    requires
        from@.len() > 0,
    ensures
        r@ == replace_spec(s@, from@, to@),
{
    s.replace(from, to)
}

/// Length of the common prefix of `a` and `b` from position `i` on.
pub open spec fn common_from(a: Seq<u8>, b: Seq<u8>, i: int) -> int
    decreases a.len() - i,
{
    if 0 <= i < a.len() && i < b.len() && a[i] == b[i] {
        common_from(a, b, i + 1)
    } else {
        i
    }
}

/// Lexicographic byte order, the order of `String`s: at the first
/// difference the smaller byte wins, and a proper prefix comes first.
pub open spec fn bytes_lt(a: Seq<u8>, b: Seq<u8>) -> bool {
    let k = common_from(a, b, 0);
    k < b.len() && (k == a.len() || a[k] < b[k])
}

proof fn lemma_common_from(a: Seq<u8>, b: Seq<u8>, i: int)
    requires
        0 <= i <= a.len(),
        i <= b.len(),
    ensures
        i <= common_from(a, b, i) <= a.len(),
        common_from(a, b, i) <= b.len(),
        forall|j: int| i <= j < common_from(a, b, i) ==> a[j] == b[j],
        common_from(a, b, i) < a.len() && common_from(a, b, i) < b.len() ==> a[common_from(a, b, i)]
            != b[common_from(a, b, i)],
    decreases a.len() - i,
{
    if i < a.len() && i < b.len() && a[i] == b[i] {
        lemma_common_from(a, b, i + 1);
    }
}

/// The first position where `a` and `b` differ, or the length of the
/// shorter one.
proof fn lemma_common(a: Seq<u8>, b: Seq<u8>)
    ensures
        0 <= common_from(a, b, 0) <= a.len(),
        common_from(a, b, 0) <= b.len(),
        forall|j: int| 0 <= j < common_from(a, b, 0) ==> a[j] == b[j],
        common_from(a, b, 0) < a.len() && common_from(a, b, 0) < b.len() ==> a[common_from(a, b, 0)]
            != b[common_from(a, b, 0)],
{
    lemma_common_from(a, b, 0);
}

/// Two byte strings are equal, or one is smaller than the other.
pub proof fn lemma_bytes_lt_total(a: Seq<u8>, b: Seq<u8>)
    ensures
        a == b || bytes_lt(a, b) || bytes_lt(b, a),
        !(bytes_lt(a, b) && bytes_lt(b, a)),
        !bytes_lt(a, a),
{
    lemma_common(a, b);
    lemma_common(b, a);
    lemma_common(a, a);
    let k = common_from(a, b, 0);
    let k2 = common_from(b, a, 0);
    // The common prefix does not depend on the order of the arguments.
    assert(k == k2) by {
        if k < k2 {
            assert(b[k] == a[k]);
        } else if k2 < k {
            assert(a[k2] == b[k2]);
        }
    }
    if k == a.len() && k == b.len() {
        assert(a =~= b);
    }
    assert(common_from(a, a, 0) == a.len()) by {
        if common_from(a, a, 0) < a.len() {
        }
    }
}

/// The byte order is transitive.
pub proof fn lemma_bytes_lt_transitive(a: Seq<u8>, b: Seq<u8>, c: Seq<u8>)
    requires
        bytes_lt(a, b),
        bytes_lt(b, c),
    ensures
        bytes_lt(a, c),
{
    lemma_common(a, b);
    lemma_common(b, c);
    lemma_common(a, c);
    let k1 = common_from(a, b, 0);
    let k2 = common_from(b, c, 0);
    let k3 = common_from(a, c, 0);
    if k1 < k2 {
        // a and c first differ where a and b do.
        assert forall|j: int| 0 <= j < k1 implies a[j] == c[j] by {
            assert(b[j] == c[j]);
        }
        if k3 < k1 {
            assert(a[k3] == c[k3]);
        }
        if k1 < a.len() {
            assert(b[k1] == c[k1]);
        }
    } else if k2 < k1 {
        assert forall|j: int| 0 <= j < k2 implies a[j] == c[j] by {
            assert(a[j] == b[j]);
        }
        if k3 < k2 {
            assert(a[k3] == c[k3]);
        }
        assert(a[k2] == b[k2]);
    } else {
        assert forall|j: int| 0 <= j < k1 implies a[j] == c[j] by {
            assert(a[j] == b[j]);
        }
        if k3 < k1 {
            assert(a[k3] == c[k3]);
        }
    }
}

/// `a < b` in the order of their bytes.
pub fn str_lt(a: &str, b: &str) -> (r: bool)
    ensures
        r == bytes_lt(a.spec_bytes(), b.spec_bytes()),
{
    let x = a.as_bytes();
    let y = b.as_bytes();
    let mut i: usize = 0;
    while i < x.len() && i < y.len() && x[i] == y[i]
        invariant
            x@ == a.spec_bytes(),
            y@ == b.spec_bytes(),
            i <= x@.len(),
            common_from(x@, y@, i as int) == common_from(x@, y@, 0),
        decreases x@.len() - i,
    {
        i += 1;
    }
    i < y.len() && (i == x.len() || x[i] < y[i])
}

/// `s` without its trailing `/` characters.
pub open spec fn trim_slashes(s: Seq<char>) -> Seq<char>
    decreases s.len(),
{
    if s.len() > 0 && s.last() == '/' {
        trim_slashes(s.drop_last())
    } else {
        s
    }
}

/// `s.trim_end_matches('/')`
pub fn trim_trailing_slashes(s: &str) -> (r: &str)
    ensures
        r@ == trim_slashes(s@),
{
    let mut k = s.unicode_len();
    proof {
        assert(s@.take(k as int) =~= s@);
    }
    while k > 0 && s.get_char(k - 1) == '/'
        invariant
            k <= s@.len(),
            trim_slashes(s@.take(k as int)) == trim_slashes(s@),
        decreases k,
    {
        assert(s@.take(k as int).drop_last() =~= s@.take(k - 1));
        k -= 1;
    }
    s.substring_char(0, k)
}

/// `s` begins with `p`.
pub open spec fn has_prefix(s: Seq<char>, p: Seq<char>) -> bool {
    p.len() <= s.len() && s.take(p.len() as int) == p
}

/// `s.starts_with(p)`
pub fn str_starts_with(s: &str, p: &str) -> (r: bool)
    ensures
        r == has_prefix(s@, p@),
{
    let n = p.unicode_len();
    let m = s.unicode_len();
    if n > m {
        return false;
    }
    let mut i: usize = 0;
    while i < n
        invariant
            n == p@.len(),
            m == s@.len(),
            n <= m,
            i <= n,
            forall|j: int| 0 <= j < i ==> s@[j] == p@[j],
        decreases n - i,
    {
        if s.get_char(i) != p.get_char(i) {
            assert(s@.take(n as int)[i as int] != p@[i as int]);
            return false;
        }
        i += 1;
    }
    assert(s@.take(n as int) =~= p@);
    true
}

} // verus!
