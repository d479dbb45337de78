//! Byte classification and scanning primitives for the line-oriented grammar.

use vstd::prelude::*;

verus! {

/// Line-break bytes: line feed and carriage return.
pub open spec fn is_line_break(b: u8) -> bool {
    b == 10 || b == 13
}

/// Whitespace bytes trimmed around unquoted attribute values.
pub open spec fn is_ws(b: u8) -> bool {
    b == 32 || (9 <= b && b <= 13)
}

/// ASCII decimal digit.
pub open spec fn is_digit(b: u8) -> bool {
    48 <= b && b <= 57
}

/// Bytes allowed in an attribute key: ASCII alphanumeric or `-`.
pub open spec fn is_key_byte(b: u8) -> bool {
    (48 <= b && b <= 57) || (65 <= b && b <= 90) || (97 <= b && b <= 122) || b == 45
}

/// The scanning targets used by the grammar.
#[derive(Clone, Copy, PartialEq, Eq, Structural, Debug)]
pub enum ScanKind {
    /// Stop at a line break.
    LineBreak,
    /// Stop at `,` or a line break (end of an unquoted value).
    CommaOrBreak,
    /// Stop at the first byte that cannot belong to a key.
    NonKey,
    /// Stop at `"`.
    Quote,
    /// Stop at `.`.
    Dot,
    /// Stop at `x`.
    LowerX,
}

/// The predicate a scan stops on.
pub open spec fn scan_pred(kind: ScanKind) -> spec_fn(u8) -> bool {
    match kind {
        ScanKind::LineBreak => |b: u8| is_line_break(b),
        ScanKind::CommaOrBreak => |b: u8| b == 44 || is_line_break(b),
        ScanKind::NonKey => |b: u8| !is_key_byte(b),
        ScanKind::Quote => |b: u8| b == 34,
        ScanKind::Dot => |b: u8| b == 46,
        ScanKind::LowerX => |b: u8| b == 120,
    }
}

/// Index of the first byte of `s` satisfying `p`, or `s.len()` if none does.
pub open spec fn seq_first(s: Seq<u8>, p: spec_fn(u8) -> bool) -> int
    decreases s.len(),
{
    if s.len() == 0 {
        0
    } else if p(s[0]) {
        0
    } else {
        1 + seq_first(s.skip(1), p)
    }
}

/// `seq_first` returns the first hit: nothing before it satisfies `p`, and the
/// byte at the returned index (when in range) does.
pub proof fn lemma_seq_first(s: Seq<u8>, p: spec_fn(u8) -> bool)
    ensures
        0 <= seq_first(s, p) <= s.len(),
        forall|k: int| 0 <= k < seq_first(s, p) ==> !p(#[trigger] s[k]),
        seq_first(s, p) < s.len() ==> p(s[seq_first(s, p)]),
    decreases s.len(),
{
    if s.len() != 0 && !p(s[0]) {
        lemma_seq_first(s.skip(1), p);
        assert forall|k: int| 0 <= k < seq_first(s, p) implies !p(#[trigger] s[k]) by {
            if k > 0 {
                assert(s[k] == s.skip(1)[k - 1]);
            }
        }
        if seq_first(s, p) < s.len() {
            assert(s[seq_first(s, p)] == s.skip(1)[seq_first(s.skip(1), p)]);
        }
    }
}

/// Any index with the first-hit property equals `seq_first`.
pub proof fn lemma_seq_first_is(s: Seq<u8>, p: spec_fn(u8) -> bool, n: int)
    requires
        0 <= n <= s.len(),
        forall|k: int| 0 <= k < n ==> !p(#[trigger] s[k]),
        n < s.len() ==> p(s[n]),
    ensures
        n == seq_first(s, p),
{
    lemma_seq_first(s, p);
}

/// Scans forward from `i`, stopping before `lim`, for the first byte
/// matching `kind`'s predicate.
pub fn scan_first(s: &Vec<u8>, i: usize, lim: usize, kind: ScanKind) -> (j: usize)
    requires
        i <= lim <= s@.len(),
    ensures
        i <= j <= lim,
        j - i == seq_first(s@.subrange(i as int, lim as int), scan_pred(kind)),
        forall|k: int| i <= k < j ==> !(scan_pred(kind))(#[trigger] s@[k]),
        j < lim ==> (scan_pred(kind))(s@[j as int]),
{
    let ghost p = scan_pred(kind);
    let ghost w = s@.subrange(i as int, lim as int);
    let mut j: usize = i;
    while j < lim
        invariant
            i <= j <= lim <= s@.len(),
            p == scan_pred(kind),
            w == s@.subrange(i as int, lim as int),
            forall|k: int| i <= k < j ==> !p(#[trigger] s@[k]),
        decreases lim - j,
    {
        let b = s[j];
        let hit = match kind {
            ScanKind::LineBreak => b == 10 || b == 13,
            ScanKind::CommaOrBreak => b == 44 || b == 10 || b == 13,
            ScanKind::NonKey => !((48 <= b && b <= 57) || (65 <= b && b <= 90) || (97 <= b && b
                <= 122) || b == 45),
            ScanKind::Quote => b == 34,
            ScanKind::Dot => b == 46,
            ScanKind::LowerX => b == 120,
        };
        proof {
            assert(hit == p(b));
        }
        if hit {
            proof {
                assert forall|k: int| 0 <= k < j - i implies !p(#[trigger] w[k]) by {
                    assert(w[k] == s@[i + k]);
                }
                assert(w[j - i] == s@[j as int]);
                lemma_seq_first_is(w, p, j - i);
            }
            return j;
        }
        j += 1;
    }
    proof {
        assert forall|k: int| 0 <= k < j - i implies !p(#[trigger] w[k]) by {
            assert(w[k] == s@[i + k]);
        }
        lemma_seq_first_is(w, p, j - i);
    }
    j
}

/// `s` begins with `t`.
pub open spec fn starts_with(s: Seq<u8>, t: Seq<u8>) -> bool {
    s.len() >= t.len() && s.take(t.len() as int) == t
}

/// Whether the bytes of `s` from `i` on begin with `t`.
pub fn has_prefix_at(s: &Vec<u8>, i: usize, t: &Vec<u8>) -> (r: bool)
    requires
        i <= s@.len(),
    ensures
        r == starts_with(s@.skip(i as int), t@),
{
    if s.len() - i < t.len() {
        return false;
    }
    let mut k: usize = 0;
    while k < t.len()
        invariant
            0 <= k <= t@.len(),
            i + t@.len() <= s@.len() <= usize::MAX,
            forall|m: int| 0 <= m < k ==> s@[i + m] == t@[m],
        decreases t@.len() - k,
    {
        if s[i + k] != t[k] {
            proof {
                assert(s@.skip(i as int).take(t@.len() as int)[k as int] == s@[i + k]);
            }
            return false;
        }
        k += 1;
    }
    proof {
        assert(s@.skip(i as int).take(t@.len() as int) =~= t@);
    }
    true
}

/// Copies `s[i..j]` into a fresh vector.
pub fn copy_range(s: &Vec<u8>, i: usize, j: usize) -> (r: Vec<u8>)
    requires
        i <= j <= s@.len(),
    ensures
        r@ == s@.subrange(i as int, j as int),
{
    let mut r: Vec<u8> = Vec::new();
    let mut k: usize = i;
    while k < j
        invariant
            i <= k <= j <= s@.len(),
            r@ == s@.subrange(i as int, k as int),
        decreases j - k,
    {
        r.push(s[k]);
        proof {
            assert(r@ =~= s@.subrange(i as int, k + 1));
        }
        k += 1;
    }
    r
}

/// Appends all of `src` to `out`.
pub fn append_bytes(out: &mut Vec<u8>, src: &Vec<u8>)
    ensures
        final(out)@ == old(out)@ + src@,
{
    let mut k: usize = 0;
    while k < src.len()
        invariant
            0 <= k <= src@.len(),
            out@ == old(out)@ + src@.take(k as int),
        decreases src@.len() - k,
    {
        out.push(src[k]);
        proof {
            assert(out@ =~= old(out)@ + src@.take(k + 1));
        }
        k += 1;
    }
    proof {
        assert(out@ =~= old(out)@ + src@);
    }
}

/// Whether two byte vectors hold the same bytes.
pub fn bytes_eq(a: &Vec<u8>, b: &Vec<u8>) -> (r: bool)
    ensures
        r == (a@ == b@),
{
    if a.len() != b.len() {
        return false;
    }
    let mut k: usize = 0;
    while k < a.len()
        invariant
            0 <= k <= a@.len(),
            a@.len() == b@.len(),
            forall|m: int| 0 <= m < k ==> a@[m] == b@[m],
        decreases a@.len() - k,
    {
        if a[k] != b[k] {
            return false;
        }
        k += 1;
    }
    proof {
        assert(a@ =~= b@);
    }
    true
}

/// Leading whitespace removed.
pub open spec fn trim_start(s: Seq<u8>) -> Seq<u8>
    decreases s.len(),
{
    if s.len() > 0 && is_ws(s[0]) {
        trim_start(s.skip(1))
    } else {
        s
    }
}

/// Trailing whitespace removed.
pub open spec fn trim_end(s: Seq<u8>) -> Seq<u8>
    decreases s.len(),
{
    if s.len() > 0 && is_ws(s.last()) {
        trim_end(s.drop_last())
    } else {
        s
    }
}

/// Surrounding whitespace removed.
pub open spec fn trim_bytes(s: Seq<u8>) -> Seq<u8> {
    trim_end(trim_start(s))
}

/// `trim_start` drops exactly the leading run of whitespace.
pub proof fn lemma_trim_start_at(s: Seq<u8>, k: int)
    requires
        0 <= k <= s.len(),
        forall|m: int| 0 <= m < k ==> is_ws(#[trigger] s[m]),
        k < s.len() ==> !is_ws(s[k]),
    ensures
        trim_start(s) == s.skip(k),
    decreases s.len(),
{
    if s.len() > 0 && is_ws(s[0]) {
        assert(k >= 1);
        assert forall|m: int| 0 <= m < k - 1 implies is_ws(#[trigger] s.skip(1)[m]) by {
            assert(s.skip(1)[m] == s[m + 1]);
        }
        if k - 1 < s.skip(1).len() {
            assert(s.skip(1)[k - 1] == s[k]);
        }
        lemma_trim_start_at(s.skip(1), k - 1);
        assert(s.skip(1).skip(k - 1) =~= s.skip(k));
    } else {
        assert(k == 0);
        assert(s.skip(0) =~= s);
    }
}

/// `trim_end` drops exactly the trailing run of whitespace.
pub proof fn lemma_trim_end_at(s: Seq<u8>, k: int)
    requires
        0 <= k <= s.len(),
        forall|m: int| k <= m < s.len() ==> is_ws(#[trigger] s[m]),
        k > 0 ==> !is_ws(s[k - 1]),
    ensures
        trim_end(s) == s.take(k),
    decreases s.len(),
{
    if s.len() > 0 && is_ws(s.last()) {
        assert(k < s.len());
        assert forall|m: int| k <= m < s.drop_last().len() implies is_ws(
            #[trigger] s.drop_last()[m],
        ) by {
            assert(s.drop_last()[m] == s[m]);
        }
        if k > 0 {
            assert(s.drop_last()[k - 1] == s[k - 1]);
        }
        lemma_trim_end_at(s.drop_last(), k);
        assert(s.drop_last().take(k) =~= s.take(k));
    } else {
        assert(k == s.len());
        assert(s.take(k) =~= s);
    }
}

/// Copies `s[i..j]` with surrounding whitespace removed.
pub fn copy_trimmed(s: &Vec<u8>, i: usize, j: usize) -> (r: Vec<u8>)
    requires
        i <= j <= s@.len(),
    ensures
        r@ == trim_bytes(s@.subrange(i as int, j as int)),
{
    let ghost w = s@.subrange(i as int, j as int);
    let mut a: usize = i;
    while a < j && (s[a] == 32 || (9 <= s[a] && s[a] <= 13))
        invariant
            i <= a <= j <= s@.len(),
            forall|m: int| i <= m < a ==> is_ws(#[trigger] s@[m]),
        decreases j - a,
    {
        a += 1;
    }
    proof {
        assert forall|m: int| 0 <= m < a - i implies is_ws(#[trigger] w[m]) by {
            assert(w[m] == s@[i + m]);
        }
        if a - i < w.len() {
            assert(w[a - i] == s@[a as int]);
        }
        lemma_trim_start_at(w, a - i);
    }
    let ghost t = w.skip(a - i);
    let mut b: usize = j;
    while b > a && (s[b - 1] == 32 || (9 <= s[b - 1] && s[b - 1] <= 13))
        invariant
            i <= a <= b <= j <= s@.len(),
            forall|m: int| b <= m < j ==> is_ws(#[trigger] s@[m]),
        decreases b - a,
    {
        b -= 1;
    }
    proof {
        assert forall|m: int| b - a <= m < t.len() implies is_ws(#[trigger] t[m]) by {
            assert(t[m] == s@[a + m]);
        }
        if b - a > 0 {
            assert(t[b - a - 1] == s@[b - 1]);
        }
        lemma_trim_end_at(t, b - a);
    }
    let r = copy_range(s, a, b);
    proof {
        assert(r@ =~= t.take(b - a));
    }
    r
}

} // verus!
