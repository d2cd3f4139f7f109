//! Character classes and text helpers used by the lexer.
use vstd::prelude::*;

verus! {

/// Whether `c` has the Unicode `Alphabetic` property, as `char::is_alphabetic` decides it.
pub uninterp spec fn spec_is_alphabetic(c: char) -> bool;

/// Whether `c` is in one of the Unicode number categories, as `char::is_numeric` decides it.
pub uninterp spec fn spec_is_numeric(c: char) -> bool;

/// Whether `c` has the Unicode `White_Space` property (what `char::is_whitespace` decides):
/// tab, line feed, vertical tab, form feed, carriage return, space, next line, no-break
/// space, ogham space mark, the spaces U+2000 to U+200A, line and paragraph separators,
/// narrow no-break space, medium mathematical space and ideographic space.
pub open spec fn spec_is_whitespace(c: char) -> bool {
    let u = c as u32;
    ||| 0x9 <= u <= 0xD
    ||| u == 0x20
    ||| u == 0x85
    ||| u == 0xA0
    ||| u == 0x1680
    ||| 0x2000 <= u <= 0x200A
    ||| u == 0x2028
    ||| u == 0x2029
    ||| u == 0x202F
    ||| u == 0x205F
    ||| u == 0x3000
}

/// `char::is_alphanumeric`: documented as alphabetic or numeric.
pub open spec fn spec_is_alphanumeric(c: char) -> bool {
    spec_is_alphabetic(c) || spec_is_numeric(c)
}

/// Calls `char::is_alphabetic`; its result is named by `spec_is_alphabetic`.
#[verifier::external_body]
pub(crate) fn is_alphabetic(c: char) -> (r: bool)
    ensures
        r == spec_is_alphabetic(c),
{
    c.is_alphabetic()
}

/// Calls `char::is_numeric`; its result is named by `spec_is_numeric`.
#[verifier::external_body]
pub(crate) fn is_numeric(c: char) -> (r: bool)
    ensures
        r == spec_is_numeric(c),
{
    c.is_numeric()
}

/// Whether `c` is white space, as `char::is_whitespace` decides it.
pub fn is_whitespace(c: char) -> (r: bool)
    ensures
        r == spec_is_whitespace(c),
{
    match c {
        '\t' | '\n' | '\u{B}' | '\u{C}' | '\r' | ' ' | '\u{85}' | '\u{A0}' | '\u{1680}' => true,
        '\u{2000}'..='\u{200A}' => true,
        '\u{2028}' | '\u{2029}' | '\u{202F}' | '\u{205F}' | '\u{3000}' => true,
        _ => false,
    }
}

/// Whether `c` is alphabetic or numeric.
pub fn is_alphanumeric(c: char) -> (r: bool)
    ensures
        r == spec_is_alphanumeric(c),
{
    is_alphabetic(c) || is_numeric(c)
}

/// Calls `String::push`: the string afterwards is the old one with `c` appended.
#[verifier::external_body]
pub(crate) fn string_push(s: &mut String, c: char)
    ensures
        final(s)@ == old(s)@.push(c),
{
    s.push(c);
}

/// A string holding exactly the characters `cs`.
pub fn string_from_chars(cs: &[char]) -> (r: String)
    ensures
        r@ == cs@,
{
    let mut s = String::new();
    let mut i: usize = 0;
    while i < cs.len()
        invariant
            i <= cs@.len(),
            s@ == cs@.take(i as int),
        decreases cs@.len() - i,
    {
        string_push(&mut s, cs[i]);
        i = i + 1;
        assert(s@ =~= cs@.take(i as int));
    }
    assert(cs@.take(cs@.len() as int) =~= cs@);
    s
}

/// The characters of `s`, in order.
pub fn str_chars(s: &str) -> (r: Vec<char>)
    ensures
        r@ == s@,
{
    let n = s.unicode_len();
    let mut v: Vec<char> = Vec::new();
    let mut i: usize = 0;
    while i < n
        invariant
            n == s@.len(),
            i <= n,
            v@ == s@.take(i as int),
        decreases n - i,
    {
        v.push(s.get_char(i));
        i = i + 1;
        assert(v@ =~= s@.take(i as int));
    }
    assert(s@.take(n as int) =~= s@);
    v
}

/// Whether the characters of `s` are exactly `lit`.
pub fn chars_match(s: &[char], lit: &[char]) -> (r: bool)
    ensures
        r == (s@ == lit@),
{
    if s.len() != lit.len() {
        return false;
    }
    let mut i: usize = 0;
    while i < s.len()
        invariant
            s@.len() == lit@.len(),
            i <= s@.len(),
            forall|j: int| 0 <= j < i ==> s@[j] == lit@[j],
        decreases s@.len() - i,
    {
        if s[i] != lit[i] {
            return false;
        }
        i = i + 1;
    }
    assert(s@ =~= lit@);
    true
}

/// Whether the characters of the string `s` are exactly `lit`.
pub fn str_matches(s: &str, lit: &[char]) -> (r: bool)
    ensures
        r == (s@ == lit@),
{
    let n = s.unicode_len();
    if n != lit.len() {
        return false;
    }
    let mut i: usize = 0;
    while i < n
        invariant
            n == s@.len(),
            s@.len() == lit@.len(),
            i <= n,
            forall|j: int| 0 <= j < i ==> s@[j] == lit@[j],
        decreases n - i,
    {
        if s.get_char(i) != lit[i] {
            return false;
        }
        i = i + 1;
    }
    assert(s@ =~= lit@);
    true
}

// ---------------------------------------------------------------------------
// Byte lengths of UTF-8 encodings.

/// Number of bytes in the UTF-8 encoding of `c`.
pub open spec fn spec_utf8_len(c: char) -> int {
    if (c as u32) < 0x80 {
        1
    } else if (c as u32) < 0x800 {
        2
    } else if (c as u32) < 0x10000 {
        3
    } else {
        4
    }
}

/// Number of bytes in the UTF-8 encoding of `c`.
pub fn utf8_len(c: char) -> (r: usize)
    ensures
        r == spec_utf8_len(c),
{
    let v = c as u32;
    if v < 0x80 {
        1
    } else if v < 0x800 {
        2
    } else if v < 0x10000 {
        3
    } else {
        4
    }
}

/// Number of bytes in the UTF-8 encoding of the characters `cs`.
pub open spec fn bytes_of(cs: Seq<char>) -> int
    decreases cs.len(),
{
    if cs.len() == 0 {
        0
    } else {
        bytes_of(cs.drop_last()) + spec_utf8_len(cs.last())
    }
}

/// The number of leading characters of `cs` whose encoding is exactly `n` bytes long, if
/// byte `n` of the encoding of `cs` falls on a character boundary.
pub open spec fn byte_cut(cs: Seq<char>, n: int) -> Option<int> {
    if exists|k: int| 0 <= k <= cs.len() && bytes_of(#[trigger] cs.take(k)) == n {
        Some(choose|k: int| 0 <= k <= cs.len() && bytes_of(#[trigger] cs.take(k)) == n)
    } else {
        None
    }
}

/// Encodings of longer prefixes are strictly longer.
pub proof fn lemma_bytes_of_prefix_monotone(cs: Seq<char>, k1: int, k2: int)
    requires
        0 <= k1 < k2 <= cs.len(),
    ensures
        bytes_of(cs.take(k1)) < bytes_of(cs.take(k2)),
    decreases k2 - k1,
{
    assert(cs.take(k2).drop_last() =~= cs.take(k2 - 1));
    lemma_bytes_of_nonneg(cs.take(k1));
    if k1 < k2 - 1 {
        lemma_bytes_of_prefix_monotone(cs, k1, k2 - 1);
    } else {
        assert(cs.take(k1) =~= cs.take(k2 - 1));
    }
}

/// Encodings have nonnegative length.
pub proof fn lemma_bytes_of_nonneg(cs: Seq<char>)
    ensures
        bytes_of(cs) >= 0,
    decreases cs.len(),
{
    if cs.len() > 0 {
        lemma_bytes_of_nonneg(cs.drop_last());
    }
}

/// A character count whose prefix encoding is `n` bytes long is the one `byte_cut` names.
pub proof fn lemma_byte_cut_unique(cs: Seq<char>, n: int, k: int)
    requires
        0 <= k <= cs.len(),
        bytes_of(cs.take(k)) == n,
    ensures
        byte_cut(cs, n) == Some(k),
{
    let c = choose|j: int| 0 <= j <= cs.len() && bytes_of(#[trigger] cs.take(j)) == n;
    if c < k {
        lemma_bytes_of_prefix_monotone(cs, c, k);
    } else if k < c {
        lemma_bytes_of_prefix_monotone(cs, k, c);
    }
}

/// An ASCII character encodes in one byte.
pub open spec fn all_single_byte(cs: Seq<char>) -> bool {
    forall|i: int| 0 <= i < cs.len() ==> spec_utf8_len(#[trigger] cs[i]) == 1
}

/// On one-byte characters, the encoding length is the character count.
pub proof fn lemma_bytes_of_single_byte(cs: Seq<char>)
    requires
        all_single_byte(cs),
    ensures
        bytes_of(cs) == cs.len(),
    decreases cs.len(),
{
    if cs.len() > 0 {
        assert(spec_utf8_len(cs[cs.len() - 1]) == 1);
        lemma_bytes_of_single_byte(cs.drop_last());
    }
}

/// The count of leading characters of `cs[start..]` whose encoding spans `n` bytes, or
/// `None` where byte `n` is not on a character boundary (or past the end).
pub fn cut_bytes(cs: &Vec<char>, start: usize, n: usize) -> (r: Option<usize>)
    requires
        start <= cs@.len(),
    ensures
        r matches Some(k) ==> byte_cut(cs@.skip(start as int), n as int) == Some(k as int),
        r is None ==> byte_cut(cs@.skip(start as int), n as int) is None,
{
    let ghost rest = cs@.skip(start as int);
    let mut b: usize = 0;
    let mut k: usize = 0;
    assert(rest.take(0) =~= Seq::<char>::empty());
    while b < n && k < cs.len() - start
        invariant
            start <= cs@.len(),
            rest == cs@.skip(start as int),
            k <= rest.len(),
            b <= n,
            b == bytes_of(rest.take(k as int)),
        decreases rest.len() - k,
    {
        let c = cs[start + k];
        let l = utf8_len(c);
        assert(rest.take(k + 1).drop_last() =~= rest.take(k as int));
        assert(rest.take(k + 1).last() == c);
        if l > n - b {
            proof {
                assert forall|j: int| 0 <= j <= rest.len() implies bytes_of(
                    #[trigger] rest.take(j),
                ) != n by {
                    if j < k {
                        lemma_bytes_of_prefix_monotone(rest, j, k as int);
                    } else if j > k + 1 {
                        lemma_bytes_of_prefix_monotone(rest, k + 1, j);
                    }
                }
            }
            return None;
        }
        b = b + l;
        k = k + 1;
    }
    if b == n {
        proof {
            lemma_byte_cut_unique(rest, n as int, k as int);
        }
        Some(k)
    } else {
        proof {
            assert forall|j: int| 0 <= j <= rest.len() implies bytes_of(
                #[trigger] rest.take(j),
            ) != n by {
                if j < k {
                    lemma_bytes_of_prefix_monotone(rest, j, k as int);
                }
            }
        }
        None
    }
}

/// The length of the longest prefix of `cs` whose characters all satisfy `p`.
pub open spec fn run_len(cs: Seq<char>, p: spec_fn(char) -> bool) -> nat
    decreases cs.len(),
{
    if cs.len() > 0 && p(cs[0]) {
        1 + run_len(cs.drop_first(), p)
    } else {
        0
    }
}

/// A prefix of length `k` all of whose characters satisfy `p`, followed by the end or by a
/// character that does not, is the longest such prefix.
pub proof fn lemma_run_len(cs: Seq<char>, p: spec_fn(char) -> bool, k: int)
    requires
        0 <= k <= cs.len(),
        forall|i: int| 0 <= i < k ==> p(#[trigger] cs[i]),
        k == cs.len() || !p(cs[k]),
    ensures
        run_len(cs, p) == k,
    decreases k,
{
    if k > 0 {
        let t = cs.drop_first();
        assert forall|i: int| 0 <= i < k - 1 implies p(#[trigger] t[i]) by {
            assert(t[i] == cs[i + 1]);
        }
        if k < cs.len() {
            assert(t[k - 1] == cs[k]);
        }
        lemma_run_len(t, p, k - 1);
    }
}

/// Every character of the longest `p`-prefix satisfies `p`, and it ends at the end of `cs` or
/// before a character that does not satisfy `p`.
pub proof fn lemma_run_len_facts(cs: Seq<char>, p: spec_fn(char) -> bool)
    ensures
        run_len(cs, p) <= cs.len(),
        forall|i: int| 0 <= i < run_len(cs, p) ==> p(#[trigger] cs[i]),
        run_len(cs, p) == cs.len() || !p(cs[run_len(cs, p) as int]),
    decreases cs.len(),
{
    if cs.len() > 0 && p(cs[0]) {
        let t = cs.drop_first();
        lemma_run_len_facts(t, p);
        assert forall|i: int| 0 <= i < run_len(cs, p) implies p(#[trigger] cs[i]) by {
            if i > 0 {
                assert(cs[i] == t[i - 1]);
            }
        }
        if run_len(cs, p) < cs.len() {
            assert(cs[run_len(cs, p) as int] == t[run_len(t, p) as int]);
        }
    }
}

} // verus!
