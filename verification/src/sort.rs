//! The two-key stable sort over the playlist's record collections.
//!
//! Each record type has a closed set of sortable keys.  A key induces a total
//! preorder on records; two keys combine lexicographically.  Sorting is
//! specified as insertion sort (`sort_by_le`) and the executable sort is
//! proved to produce exactly that sequence, which is the stable sort.

use vstd::prelude::*;
use crate::numbers::{lemma_rate_le_trans, rate_cmp_le, rate_le, FrameRate};
use crate::parser::{IFrameStream, MasterPlaylist, MediaTrack, StreamVariant};

verus! {

/// The outcome of a comparison.
#[derive(Clone, Copy, PartialEq, Eq, Structural, Debug)]
pub enum Rel {
    Less,
    Equal,
    Greater,
}

// ------------------------------------------------------------------
// Orders on field values
// ------------------------------------------------------------------

/// Byte-lexicographic order on byte strings.
pub open spec fn bytes_le(a: Seq<u8>, b: Seq<u8>) -> bool
    decreases a.len(),
{
    if a.len() == 0 {
        true
    } else if b.len() == 0 {
        false
    } else if a[0] < b[0] {
        true
    } else if a[0] > b[0] {
        false
    } else {
        bytes_le(a.skip(1), b.skip(1))
    }
}

/// The byte order is total.
pub proof fn lemma_bytes_le_total(a: Seq<u8>, b: Seq<u8>)
    ensures
        bytes_le(a, b) || bytes_le(b, a),
    decreases a.len(),
{
    if a.len() != 0 && b.len() != 0 && a[0] == b[0] {
        lemma_bytes_le_total(a.skip(1), b.skip(1));
    }
}

/// The byte order is transitive.
pub proof fn lemma_bytes_le_trans(a: Seq<u8>, b: Seq<u8>, c: Seq<u8>)
    requires
        bytes_le(a, b),
        bytes_le(b, c),
    ensures
        bytes_le(a, c),
    decreases a.len(),
{
    if a.len() != 0 && b.len() != 0 && c.len() != 0 && a[0] == b[0] && b[0] == c[0] {
        lemma_bytes_le_trans(a.skip(1), b.skip(1), c.skip(1));
    }
}

/// Compares byte strings from position `k` on.
fn bytes_cmp_at(a: &Vec<u8>, b: &Vec<u8>, k: usize) -> (r: Rel)
    requires
        k <= a@.len(),
        k <= b@.len(),
    ensures
        (r is Less) == (bytes_le(a@.skip(k as int), b@.skip(k as int)) && !bytes_le(
            b@.skip(k as int),
            a@.skip(k as int),
        )),
        (r is Equal) == (bytes_le(a@.skip(k as int), b@.skip(k as int)) && bytes_le(
            b@.skip(k as int),
            a@.skip(k as int),
        )),
        (r is Greater) == !bytes_le(a@.skip(k as int), b@.skip(k as int)),
    decreases a@.len() - k,
{
    let ghost x = a@.skip(k as int);
    let ghost y = b@.skip(k as int);
    if k == a.len() {
        if k == b.len() {
            Rel::Equal
        } else {
            proof {
                assert(y.len() > 0);
            }
            Rel::Less
        }
    } else if k == b.len() {
        Rel::Greater
    } else {
        proof {
            assert(x[0] == a@[k as int]);
            assert(y[0] == b@[k as int]);
        }
        if a[k] < b[k] {
            Rel::Less
        } else if a[k] > b[k] {
            Rel::Greater
        } else {
            proof {
                assert(x.skip(1) =~= a@.skip(k + 1));
                assert(y.skip(1) =~= b@.skip(k + 1));
            }
            bytes_cmp_at(a, b, k + 1)
        }
    }
}

/// Order on optional byte strings: absent sorts before present.
pub open spec fn opt_bytes_le(a: Option<Seq<u8>>, b: Option<Seq<u8>>) -> bool {
    match (a, b) {
        (Option::None, _) => true,
        (Option::Some(_), Option::None) => false,
        (Option::Some(x), Option::Some(y)) => bytes_le(x, y),
    }
}

/// Compares optional byte strings.
fn opt_bytes_cmp(a: &Option<Vec<u8>>, b: &Option<Vec<u8>>) -> (r: Rel)
    ensures
        ({
            let x = crate::parser::opt_bytes_view(*a);
            let y = crate::parser::opt_bytes_view(*b);
            (r is Less) == (opt_bytes_le(x, y) && !opt_bytes_le(y, x)) && (r is Equal) == (
            opt_bytes_le(x, y) && opt_bytes_le(y, x)) && (r is Greater) == !opt_bytes_le(x, y)
        }),
{
    match (a, b) {
        (Option::None, Option::None) => Rel::Equal,
        (Option::None, Option::Some(_)) => Rel::Less,
        (Option::Some(_), Option::None) => Rel::Greater,
        (Option::Some(x), Option::Some(y)) => {
            proof {
                assert(x@.skip(0) =~= x@);
                assert(y@.skip(0) =~= y@);
            }
            bytes_cmp_at(x, y, 0)
        },
    }
}

/// Order on optional integers: absent sorts before present.
pub open spec fn opt_u32_le(a: Option<u32>, b: Option<u32>) -> bool {
    match (a, b) {
        (Option::None, _) => true,
        (Option::Some(_), Option::None) => false,
        (Option::Some(x), Option::Some(y)) => x <= y,
    }
}

/// Compares optional integers.
fn opt_u32_cmp(a: &Option<u32>, b: &Option<u32>) -> (r: Rel)
    ensures
        (r is Less) == (opt_u32_le(*a, *b) && !opt_u32_le(*b, *a)),
        (r is Equal) == (opt_u32_le(*a, *b) && opt_u32_le(*b, *a)),
        (r is Greater) == !opt_u32_le(*a, *b),
{
    match (a, b) {
        (Option::None, Option::None) => Rel::Equal,
        (Option::None, Option::Some(_)) => Rel::Less,
        (Option::Some(_), Option::None) => Rel::Greater,
        (Option::Some(x), Option::Some(y)) => {
            if *x < *y {
                Rel::Less
            } else if *x > *y {
                Rel::Greater
            } else {
                Rel::Equal
            }
        },
    }
}

/// Order on resolutions: width first, then height.
pub open spec fn res_le(a: (u32, u32), b: (u32, u32)) -> bool {
    a.0 < b.0 || (a.0 == b.0 && a.1 <= b.1)
}

/// Order on optional resolutions: absent sorts before present.
pub open spec fn opt_res_le(a: Option<(u32, u32)>, b: Option<(u32, u32)>) -> bool {
    match (a, b) {
        (Option::None, _) => true,
        (Option::Some(_), Option::None) => false,
        (Option::Some(x), Option::Some(y)) => res_le(x, y),
    }
}

/// Compares optional resolutions.
fn opt_res_cmp(a: &Option<(u32, u32)>, b: &Option<(u32, u32)>) -> (r: Rel)
    ensures
        (r is Less) == (opt_res_le(*a, *b) && !opt_res_le(*b, *a)),
        (r is Equal) == (opt_res_le(*a, *b) && opt_res_le(*b, *a)),
        (r is Greater) == !opt_res_le(*a, *b),
{
    match (a, b) {
        (Option::None, Option::None) => Rel::Equal,
        (Option::None, Option::Some(_)) => Rel::Less,
        (Option::Some(_), Option::None) => Rel::Greater,
        (Option::Some(x), Option::Some(y)) => {
            if x.0 < y.0 {
                Rel::Less
            } else if x.0 > y.0 {
                Rel::Greater
            } else if x.1 < y.1 {
                Rel::Less
            } else if x.1 > y.1 {
                Rel::Greater
            } else {
                Rel::Equal
            }
        },
    }
}

/// Order on optional frame rates: absent sorts before present, present ones
/// compare numerically.
pub open spec fn opt_rate_le(a: Option<FrameRate>, b: Option<FrameRate>) -> bool {
    match (a, b) {
        (Option::None, _) => true,
        (Option::Some(_), Option::None) => false,
        (Option::Some(x), Option::Some(y)) => rate_le(x, y),
    }
}

/// Well-formedness of an optional frame rate.
pub open spec fn opt_rate_wf(a: Option<FrameRate>) -> bool {
    match a {
        Option::Some(x) => x.wf(),
        Option::None => true,
    }
}

/// Compares optional frame rates.
fn opt_rate_cmp(a: &Option<FrameRate>, b: &Option<FrameRate>) -> (r: Rel)
    requires
        opt_rate_wf(*a),
        opt_rate_wf(*b),
    ensures
        (r is Less) == (opt_rate_le(*a, *b) && !opt_rate_le(*b, *a)),
        (r is Equal) == (opt_rate_le(*a, *b) && opt_rate_le(*b, *a)),
        (r is Greater) == !opt_rate_le(*a, *b),
{
    match (a, b) {
        (Option::None, Option::None) => Rel::Equal,
        (Option::None, Option::Some(_)) => Rel::Less,
        (Option::Some(_), Option::None) => Rel::Greater,
        (Option::Some(x), Option::Some(y)) => {
            let ab = rate_cmp_le(x, y);
            let ba = rate_cmp_le(y, x);
            if ab && ba {
                Rel::Equal
            } else if ab {
                Rel::Less
            } else {
                Rel::Greater
            }
        },
    }
}

/// Order on plain integers.
pub open spec fn u32_le(a: u32, b: u32) -> bool {
    a <= b
}

/// Compares plain integers.
fn u32_cmp(a: u32, b: u32) -> (r: Rel)
    ensures
        (r is Less) == (a < b),
        (r is Equal) == (a == b),
        (r is Greater) == (a > b),
{
    if a < b {
        Rel::Less
    } else if a > b {
        Rel::Greater
    } else {
        Rel::Equal
    }
}


// ------------------------------------------------------------------
// The generic two-key sort
// ------------------------------------------------------------------

/// A record type sortable by a closed set of keys.  Each key induces a total
/// preorder `key_le`; `cmp_key` decides it.
pub trait KeyCmp<K>: Sized {
    /// Whether the record may be compared (its modeled fields in range).
    spec fn cmp_valid(self) -> bool;

    /// The "sorts at or before" relation under key `k`.
    spec fn key_le(a: Self, b: Self, k: K) -> bool;

    /// Any two records are ordered under any key.
    proof fn key_le_total(a: Self, b: Self, k: K)
        ensures
            Self::key_le(a, b, k) || Self::key_le(b, a, k),
    ;

    /// The order under any key is transitive.
    proof fn key_le_trans(a: Self, b: Self, c: Self, k: K)
        requires
            Self::key_le(a, b, k),
            Self::key_le(b, c, k),
        ensures
            Self::key_le(a, c, k),
    ;

    /// Decides the order under key `k`.
    fn cmp_key(&self, other: &Self, k: K) -> (r: Rel)
        requires
            self.cmp_valid(),
            other.cmp_valid(),
        ensures
            (r is Less) == (Self::key_le(*self, *other, k) && !Self::key_le(*other, *self, k)),
            (r is Equal) == (Self::key_le(*self, *other, k) && Self::key_le(*other, *self, k)),
            (r is Greater) == !Self::key_le(*self, *other, k),
    ;
}

/// The two-key order: strictly less under the primary key, or tied there and
/// at-or-before under the secondary key.
pub open spec fn two_le<K, T: KeyCmp<K>>(a: T, b: T, ks: (K, K)) -> bool {
    (T::key_le(a, b, ks.0) && !T::key_le(b, a, ks.0)) || (T::key_le(a, b, ks.0) && T::key_le(
        b,
        a,
        ks.0,
    ) && T::key_le(a, b, ks.1))
}

/// The two-key order as a function value.
pub open spec fn two_le_fn<K, T: KeyCmp<K>>(ks: (K, K)) -> spec_fn(T, T) -> bool {
    |a: T, b: T| two_le(a, b, ks)
}

/// The two-key order is total.
pub proof fn lemma_two_le_total<K, T: KeyCmp<K>>(a: T, b: T, ks: (K, K))
    ensures
        two_le(a, b, ks) || two_le(b, a, ks),
{
    T::key_le_total(a, b, ks.0);
    T::key_le_total(a, b, ks.1);
}

/// The two-key order is transitive.
pub proof fn lemma_two_le_trans<K, T: KeyCmp<K>>(a: T, b: T, c: T, ks: (K, K))
    requires
        two_le(a, b, ks),
        two_le(b, c, ks),
    ensures
        two_le(a, c, ks),
{
    T::key_le_trans(a, b, c, ks.0);
    if T::key_le(c, a, ks.0) {
        T::key_le_trans(c, a, b, ks.0);
        T::key_le_trans(b, c, a, ks.0);
        if T::key_le(a, b, ks.1) && T::key_le(b, c, ks.1) {
            T::key_le_trans(a, b, c, ks.1);
        }
    }
}

/// Decides the two-key order.
fn cmp_two<K: Copy, T: KeyCmp<K>>(a: &T, b: &T, ks: (K, K)) -> (r: Rel)
    requires
        a.cmp_valid(),
        b.cmp_valid(),
    ensures
        (r is Less) == (two_le(*a, *b, ks) && !two_le(*b, *a, ks)),
        (r is Equal) == (two_le(*a, *b, ks) && two_le(*b, *a, ks)),
        (r is Greater) == !two_le(*a, *b, ks),
{
    proof {
        T::key_le_total(*a, *b, ks.0);
        T::key_le_total(*a, *b, ks.1);
    }
    match a.cmp_key(b, ks.0) {
        Rel::Equal => a.cmp_key(b, ks.1),
        r => r,
    }
}

/// Stable insertion of `x` into `s`: `x` lands after every element that is
/// at-or-before it, so equals keep their order.
pub open spec fn insert_le<T>(s: Seq<T>, x: T, leq: spec_fn(T, T) -> bool) -> Seq<T>
    decreases s.len(),
{
    if s.len() == 0 {
        seq![x]
    } else if leq(s.last(), x) {
        s.push(x)
    } else {
        insert_le(s.drop_last(), x, leq).push(s.last())
    }
}

/// Insertion sort of `s` under `leq`: the stable sort.
pub open spec fn sort_by_le<T>(s: Seq<T>, leq: spec_fn(T, T) -> bool) -> Seq<T>
    decreases s.len(),
{
    if s.len() == 0 {
        Seq::empty()
    } else {
        insert_le(sort_by_le(s.drop_last(), leq), s.last(), leq)
    }
}

/// Insertion adds one element.
pub proof fn lemma_insert_le_len<T>(s: Seq<T>, x: T, leq: spec_fn(T, T) -> bool)
    ensures
        insert_le(s, x, leq).len() == s.len() + 1,
    decreases s.len(),
{
    if s.len() != 0 && !leq(s.last(), x) {
        lemma_insert_le_len(s.drop_last(), x, leq);
    }
}

/// Sorting keeps the length.
pub proof fn lemma_sort_by_le_len<T>(s: Seq<T>, leq: spec_fn(T, T) -> bool)
    ensures
        sort_by_le(s, leq).len() == s.len(),
    decreases s.len(),
{
    if s.len() != 0 {
        lemma_sort_by_le_len(s.drop_last(), leq);
        lemma_insert_le_len(sort_by_le(s.drop_last(), leq), s.last(), leq);
    }
}

/// Where the insertion lands: after position `j` every element is strictly
/// after `x`, and the one before `j` (if any) is at-or-before it.
pub proof fn lemma_insert_le_at<T>(s: Seq<T>, x: T, leq: spec_fn(T, T) -> bool, j: int)
    requires
        0 <= j <= s.len(),
        forall|m: int| j <= m < s.len() ==> !leq(#[trigger] s[m], x),
        j > 0 ==> leq(s[j - 1], x),
    ensures
        insert_le(s, x, leq) == s.take(j) + seq![x] + s.skip(j),
    decreases s.len(),
{
    if s.len() == 0 {
        assert(s.take(j) + seq![x] + s.skip(j) =~= seq![x]);
    } else if j == s.len() {
        assert(leq(s.last(), x));
        assert(s.take(j) + seq![x] + s.skip(j) =~= s.push(x));
    } else {
        assert(!leq(s.last(), x));
        assert forall|m: int| j <= m < s.drop_last().len() implies !leq(
            #[trigger] s.drop_last()[m],
            x,
        ) by {
            assert(s.drop_last()[m] == s[m]);
        }
        if j > 0 {
            assert(s.drop_last()[j - 1] == s[j - 1]);
        }
        lemma_insert_le_at(s.drop_last(), x, leq, j);
        assert((s.drop_last().take(j) + seq![x] + s.drop_last().skip(j)).push(s.last()) =~= s.take(
            j,
        ) + seq![x] + s.skip(j));
    }
}

/// Sorts a vector in place by the two-key order, stably: the result is
/// exactly the insertion sort of the input.
fn sort_two_key<K: Copy, T: KeyCmp<K>>(v: &mut Vec<T>, ks: (K, K))
    requires
        forall|m: int| 0 <= m < old(v)@.len() ==> (#[trigger] old(v)@[m]).cmp_valid(),
    ensures
        final(v)@ == sort_by_le(old(v)@, two_le_fn(ks)),
{
    let ghost orig = v@;
    let ghost leq = two_le_fn::<K, T>(ks);
    let mut i: usize = 1;
    proof {
        if orig.len() > 0 {
            assert(orig.take(1).drop_last() =~= Seq::<T>::empty());
            assert(orig.take(1).last() == orig[0]);
            assert(sort_by_le(Seq::<T>::empty(), leq) == Seq::<T>::empty());
            assert(insert_le(Seq::<T>::empty(), orig[0], leq) == seq![orig[0]]);
            assert(sort_by_le(orig.take(1), leq) == insert_le(
                sort_by_le(Seq::<T>::empty(), leq),
                orig[0],
                leq,
            ));
            assert(sort_by_le(orig.take(1), leq) + orig.skip(1) =~= orig);
        }
    }
    if v.len() <= 1 {
        proof {
            if orig.len() == 0 {
                assert(sort_by_le(orig, leq) =~= orig);
            } else {
                assert(orig.take(1) =~= orig);
                assert(orig.skip(1) =~= Seq::<T>::empty());
                assert(sort_by_le(orig, leq) =~= orig);
            }
        }
        return ;
    }
    while i < v.len()
        invariant
            1 <= i <= orig.len(),
            v@.len() == orig.len(),
            leq == two_le_fn::<K, T>(ks),
            forall|m: int| 0 <= m < v@.len() ==> (#[trigger] v@[m]).cmp_valid(),
            v@ == sort_by_le(orig.take(i as int), leq) + orig.skip(i as int),
        decreases orig.len() - i,
    {
        let ghost pre = v@;
        let ghost sorted = sort_by_le(orig.take(i as int), leq);
        proof {
            lemma_sort_by_le_len(orig.take(i as int), leq);
            assert(pre[i as int] == orig.skip(i as int)[0]);
        }
        let x = v.remove(i);
        proof {
            assert(x == orig[i as int]);
            assert(v@.take(i as int) =~= sorted);
            assert forall|m: int| 0 <= m < v@.len() implies (#[trigger] v@[m]).cmp_valid() by {
                assert(v@[m] == if m < i {
                    pre[m]
                } else {
                    pre[m + 1]
                });
            }
        }
        let mut j: usize = i;
        while j > 0
            invariant
                0 <= j <= i,
                i < orig.len(),
                v@.len() == orig.len() - 1,
                x == orig[i as int],
                x.cmp_valid(),
                leq == two_le_fn::<K, T>(ks),
                forall|m: int| 0 <= m < v@.len() ==> (#[trigger] v@[m]).cmp_valid(),
                v@.take(i as int) == sorted,
                forall|m: int| j <= m < i ==> !leq(#[trigger] v@[m], x),
            ensures
                0 <= j <= i,
                v@.len() == orig.len() - 1,
                v@.take(i as int) == sorted,
                forall|m: int| 0 <= m < v@.len() ==> (#[trigger] v@[m]).cmp_valid(),
                forall|m: int| j <= m < i ==> !leq(#[trigger] v@[m], x),
                j > 0 ==> leq(v@[j - 1], x),
            decreases j,
        {
            let c = cmp_two(&v[j - 1], &x, ks);
            if c != Rel::Greater {
                break ;
            }
            proof {
                assert(v@[j - 1] == v@.take(i as int)[j - 1]);
            }
            j -= 1;
        }
        proof {
            assert forall|m: int| j <= m < sorted.len() implies !leq(#[trigger] sorted[m], x) by {
                assert(sorted[m] == v@[m]);
            }
            if j > 0 {
                assert(sorted[j - 1] == v@[j - 1]);
                assert(leq(sorted[j - 1], x));
            }
            lemma_insert_le_at(sorted, x, leq, j as int);
        }
        v.insert(j, x);
        proof {
            assert(orig.take(i + 1).drop_last() =~= orig.take(i as int));
            assert(orig.take(i + 1).last() == orig[i as int]);
            assert(sort_by_le(orig.take(i + 1), leq) == insert_le(sorted, x, leq));
            assert(v@ =~= (sorted.take(j as int) + seq![x] + sorted.skip(j as int)) + orig.skip(
                i + 1,
            ));
            assert forall|m: int| 0 <= m < v@.len() implies (#[trigger] v@[m]).cmp_valid() by {
                lemma_insert_le_len(sorted, x, leq);
            }
        }
        i += 1;
    }
    proof {
        assert(orig.take(orig.len() as int) =~= orig);
        assert(orig.skip(orig.len() as int) =~= Seq::<T>::empty());
        assert(v@ =~= sort_by_le(orig, leq));
    }
}


// ------------------------------------------------------------------
// Sortable keys of each record type
// ------------------------------------------------------------------

/// The sortable fields of a stream variant.
#[derive(Clone, Copy, PartialEq, Eq, PartialOrd, Ord, Structural, Debug)]
pub enum SortStreamBy {
    Bandwidth,
    AverageBandwidth,
    Codecs,
    Resolution,
    FrameRate,
    VideoRange,
    Audio,
    ClosedCaptions,
    Uri,
}

impl Default for SortStreamBy {
    fn default() -> (r: Self)
        ensures
            r == SortStreamBy::Bandwidth,
    {
        SortStreamBy::Bandwidth
    }
}

/// The sortable fields of a media track.
#[derive(Clone, Copy, PartialEq, Eq, PartialOrd, Ord, Structural, Debug)]
pub enum SortMediaBy {
    Type,
    GroupId,
    Name,
    Language,
    Default,
    AutoSelect,
    Channels,
    Uri,
}

impl Default for SortMediaBy {
    fn default() -> (r: Self)
        ensures
            r == SortMediaBy::GroupId,
    {
        SortMediaBy::GroupId
    }
}

/// The sortable fields of an I-frame stream.
#[derive(Clone, Copy, PartialEq, Eq, PartialOrd, Ord, Structural, Debug)]
pub enum SortIFrameBy {
    Bandwidth,
    Codecs,
    Resolution,
    VideoRange,
    Uri,
}

impl Default for SortIFrameBy {
    fn default() -> (r: Self)
        ensures
            r == SortIFrameBy::Bandwidth,
    {
        SortIFrameBy::Bandwidth
    }
}

impl KeyCmp<SortStreamBy> for StreamVariant {
    open spec fn cmp_valid(self) -> bool {
        opt_rate_wf(self.frame_rate)
    }

    open spec fn key_le(a: Self, b: Self, k: SortStreamBy) -> bool {
        match k {
            SortStreamBy::Bandwidth => u32_le(a.bandwidth, b.bandwidth),
            SortStreamBy::AverageBandwidth => opt_u32_le(a.average_bandwidth, b.average_bandwidth),
            SortStreamBy::Codecs => opt_bytes_le(
                crate::parser::opt_bytes_view(a.codecs),
                crate::parser::opt_bytes_view(b.codecs),
            ),
            SortStreamBy::Resolution => opt_res_le(a.resolution, b.resolution),
            SortStreamBy::FrameRate => opt_rate_le(a.frame_rate, b.frame_rate),
            SortStreamBy::VideoRange => opt_bytes_le(
                crate::parser::opt_bytes_view(a.video_range),
                crate::parser::opt_bytes_view(b.video_range),
            ),
            SortStreamBy::Audio => opt_bytes_le(
                crate::parser::opt_bytes_view(a.audio),
                crate::parser::opt_bytes_view(b.audio),
            ),
            SortStreamBy::ClosedCaptions => opt_bytes_le(
                crate::parser::opt_bytes_view(a.closed_captions),
                crate::parser::opt_bytes_view(b.closed_captions),
            ),
            SortStreamBy::Uri => bytes_le(a.uri@, b.uri@),
        }
    }

    proof fn key_le_total(a: Self, b: Self, k: SortStreamBy) {
        match k {
            SortStreamBy::Codecs => {
                lemma_opt_bytes_le_total(
                    crate::parser::opt_bytes_view(a.codecs),
                    crate::parser::opt_bytes_view(b.codecs),
                );
            },
            SortStreamBy::VideoRange => {
                lemma_opt_bytes_le_total(
                    crate::parser::opt_bytes_view(a.video_range),
                    crate::parser::opt_bytes_view(b.video_range),
                );
            },
            SortStreamBy::Audio => {
                lemma_opt_bytes_le_total(
                    crate::parser::opt_bytes_view(a.audio),
                    crate::parser::opt_bytes_view(b.audio),
                );
            },
            SortStreamBy::ClosedCaptions => {
                lemma_opt_bytes_le_total(
                    crate::parser::opt_bytes_view(a.closed_captions),
                    crate::parser::opt_bytes_view(b.closed_captions),
                );
            },
            SortStreamBy::Uri => {
                lemma_bytes_le_total(a.uri@, b.uri@);
            },
            _ => {},
        }
    }

    proof fn key_le_trans(a: Self, b: Self, c: Self, k: SortStreamBy) {
        match k {
            SortStreamBy::Codecs => {
                lemma_opt_bytes_le_trans(
                    crate::parser::opt_bytes_view(a.codecs),
                    crate::parser::opt_bytes_view(b.codecs),
                    crate::parser::opt_bytes_view(c.codecs),
                );
            },
            SortStreamBy::VideoRange => {
                lemma_opt_bytes_le_trans(
                    crate::parser::opt_bytes_view(a.video_range),
                    crate::parser::opt_bytes_view(b.video_range),
                    crate::parser::opt_bytes_view(c.video_range),
                );
            },
            SortStreamBy::Audio => {
                lemma_opt_bytes_le_trans(
                    crate::parser::opt_bytes_view(a.audio),
                    crate::parser::opt_bytes_view(b.audio),
                    crate::parser::opt_bytes_view(c.audio),
                );
            },
            SortStreamBy::ClosedCaptions => {
                lemma_opt_bytes_le_trans(
                    crate::parser::opt_bytes_view(a.closed_captions),
                    crate::parser::opt_bytes_view(b.closed_captions),
                    crate::parser::opt_bytes_view(c.closed_captions),
                );
            },
            SortStreamBy::Uri => {
                lemma_bytes_le_trans(a.uri@, b.uri@, c.uri@);
            },
            SortStreamBy::FrameRate => {
                match (a.frame_rate, b.frame_rate, c.frame_rate) {
                    (Option::Some(x), Option::Some(y), Option::Some(z)) => {
                        lemma_rate_le_trans(x, y, z);
                    },
                    _ => {},
                }
            },
            _ => {},
        }
    }

    fn cmp_key(&self, other: &Self, k: SortStreamBy) -> (r: Rel) {
        match k {
            SortStreamBy::Bandwidth => u32_cmp(self.bandwidth, other.bandwidth),
            SortStreamBy::AverageBandwidth => opt_u32_cmp(
                &self.average_bandwidth,
                &other.average_bandwidth,
            ),
            SortStreamBy::Codecs => opt_bytes_cmp(&self.codecs, &other.codecs),
            SortStreamBy::Resolution => opt_res_cmp(&self.resolution, &other.resolution),
            SortStreamBy::FrameRate => opt_rate_cmp(&self.frame_rate, &other.frame_rate),
            SortStreamBy::VideoRange => opt_bytes_cmp(&self.video_range, &other.video_range),
            SortStreamBy::Audio => opt_bytes_cmp(&self.audio, &other.audio),
            SortStreamBy::ClosedCaptions => opt_bytes_cmp(
                &self.closed_captions,
                &other.closed_captions,
            ),
            SortStreamBy::Uri => {
                proof {
                    assert(self.uri@.skip(0) =~= self.uri@);
                    assert(other.uri@.skip(0) =~= other.uri@);
                }
                bytes_cmp_at(&self.uri, &other.uri, 0)
            },
        }
    }
}

impl KeyCmp<SortMediaBy> for MediaTrack {
    open spec fn cmp_valid(self) -> bool {
        true
    }

    open spec fn key_le(a: Self, b: Self, k: SortMediaBy) -> bool {
        opt_bytes_le(
            crate::parser::opt_bytes_view(mt_field(a, k)),
            crate::parser::opt_bytes_view(mt_field(b, k)),
        )
    }

    proof fn key_le_total(a: Self, b: Self, k: SortMediaBy) {
        lemma_opt_bytes_le_total(
            crate::parser::opt_bytes_view(mt_field(a, k)),
            crate::parser::opt_bytes_view(mt_field(b, k)),
        );
    }

    proof fn key_le_trans(a: Self, b: Self, c: Self, k: SortMediaBy) {
        lemma_opt_bytes_le_trans(
            crate::parser::opt_bytes_view(mt_field(a, k)),
            crate::parser::opt_bytes_view(mt_field(b, k)),
            crate::parser::opt_bytes_view(mt_field(c, k)),
        );
    }

    fn cmp_key(&self, other: &Self, k: SortMediaBy) -> (r: Rel) {
        match k {
            SortMediaBy::Type => opt_bytes_cmp(&self.track_type, &other.track_type),
            SortMediaBy::GroupId => opt_bytes_cmp(&self.group_id, &other.group_id),
            SortMediaBy::Name => opt_bytes_cmp(&self.name, &other.name),
            SortMediaBy::Language => opt_bytes_cmp(&self.language, &other.language),
            SortMediaBy::Default => opt_bytes_cmp(&self.default, &other.default),
            SortMediaBy::AutoSelect => opt_bytes_cmp(&self.autoselect, &other.autoselect),
            SortMediaBy::Channels => opt_bytes_cmp(&self.channels, &other.channels),
            SortMediaBy::Uri => opt_bytes_cmp(&self.uri, &other.uri),
        }
    }
}

/// The media-track field a sort key selects.
pub open spec fn mt_field(m: MediaTrack, k: SortMediaBy) -> Option<Vec<u8>> {
    match k {
        SortMediaBy::Type => m.track_type,
        SortMediaBy::GroupId => m.group_id,
        SortMediaBy::Name => m.name,
        SortMediaBy::Language => m.language,
        SortMediaBy::Default => m.default,
        SortMediaBy::AutoSelect => m.autoselect,
        SortMediaBy::Channels => m.channels,
        SortMediaBy::Uri => m.uri,
    }
}

impl KeyCmp<SortIFrameBy> for IFrameStream {
    open spec fn cmp_valid(self) -> bool {
        true
    }

    open spec fn key_le(a: Self, b: Self, k: SortIFrameBy) -> bool {
        match k {
            SortIFrameBy::Bandwidth => u32_le(a.bandwidth, b.bandwidth),
            SortIFrameBy::Codecs => opt_bytes_le(
                crate::parser::opt_bytes_view(a.codecs),
                crate::parser::opt_bytes_view(b.codecs),
            ),
            SortIFrameBy::Resolution => opt_res_le(a.resolution, b.resolution),
            SortIFrameBy::VideoRange => opt_bytes_le(
                crate::parser::opt_bytes_view(a.video_range),
                crate::parser::opt_bytes_view(b.video_range),
            ),
            SortIFrameBy::Uri => bytes_le(a.uri@, b.uri@),
        }
    }

    proof fn key_le_total(a: Self, b: Self, k: SortIFrameBy) {
        match k {
            SortIFrameBy::Codecs => {
                lemma_opt_bytes_le_total(
                    crate::parser::opt_bytes_view(a.codecs),
                    crate::parser::opt_bytes_view(b.codecs),
                );
            },
            SortIFrameBy::VideoRange => {
                lemma_opt_bytes_le_total(
                    crate::parser::opt_bytes_view(a.video_range),
                    crate::parser::opt_bytes_view(b.video_range),
                );
            },
            SortIFrameBy::Uri => {
                lemma_bytes_le_total(a.uri@, b.uri@);
            },
            _ => {},
        }
    }

    proof fn key_le_trans(a: Self, b: Self, c: Self, k: SortIFrameBy) {
        match k {
            SortIFrameBy::Codecs => {
                lemma_opt_bytes_le_trans(
                    crate::parser::opt_bytes_view(a.codecs),
                    crate::parser::opt_bytes_view(b.codecs),
                    crate::parser::opt_bytes_view(c.codecs),
                );
            },
            SortIFrameBy::VideoRange => {
                lemma_opt_bytes_le_trans(
                    crate::parser::opt_bytes_view(a.video_range),
                    crate::parser::opt_bytes_view(b.video_range),
                    crate::parser::opt_bytes_view(c.video_range),
                );
            },
            SortIFrameBy::Uri => {
                lemma_bytes_le_trans(a.uri@, b.uri@, c.uri@);
            },
            _ => {},
        }
    }

    fn cmp_key(&self, other: &Self, k: SortIFrameBy) -> (r: Rel) {
        match k {
            SortIFrameBy::Bandwidth => u32_cmp(self.bandwidth, other.bandwidth),
            SortIFrameBy::Codecs => opt_bytes_cmp(&self.codecs, &other.codecs),
            SortIFrameBy::Resolution => opt_res_cmp(&self.resolution, &other.resolution),
            SortIFrameBy::VideoRange => opt_bytes_cmp(&self.video_range, &other.video_range),
            SortIFrameBy::Uri => {
                proof {
                    assert(self.uri@.skip(0) =~= self.uri@);
                    assert(other.uri@.skip(0) =~= other.uri@);
                }
                bytes_cmp_at(&self.uri, &other.uri, 0)
            },
        }
    }
}

/// The order on optional byte strings is total.
pub proof fn lemma_opt_bytes_le_total(a: Option<Seq<u8>>, b: Option<Seq<u8>>)
    ensures
        opt_bytes_le(a, b) || opt_bytes_le(b, a),
{
    match (a, b) {
        (Option::Some(x), Option::Some(y)) => {
            lemma_bytes_le_total(x, y);
        },
        _ => {},
    }
}

/// The order on optional byte strings is transitive.
pub proof fn lemma_opt_bytes_le_trans(a: Option<Seq<u8>>, b: Option<Seq<u8>>, c: Option<Seq<u8>>)
    requires
        opt_bytes_le(a, b),
        opt_bytes_le(b, c),
    ensures
        opt_bytes_le(a, c),
{
    match (a, b, c) {
        (Option::Some(x), Option::Some(y), Option::Some(z)) => {
            lemma_bytes_le_trans(x, y, z);
        },
        _ => {},
    }
}

// ------------------------------------------------------------------
// Sorting the playlist
// ------------------------------------------------------------------

impl MasterPlaylist {
    /// Stable-sorts the stream variants by the primary key, ties broken by
    /// the secondary key; records tied under both keep their source order.
    pub fn sort_stream(&mut self, sort_by: (SortStreamBy, SortStreamBy))
        requires
            forall|m: int|
                0 <= m < old(self).variants@.len() ==> (#[trigger] old(
                    self,
                ).variants@[m]).cmp_valid(),
        ensures
            final(self).variants@ == sort_by_le(old(self).variants@, two_le_fn(sort_by)),
            final(self).independent_segments == old(self).independent_segments,
            final(self).media == old(self).media,
            final(self).frames == old(self).frames,
    {
        sort_two_key(&mut self.variants, sort_by);
    }

    /// Stable-sorts the media tracks by the primary key, ties broken by the
    /// secondary key; records tied under both keep their source order.
    pub fn sort_media(&mut self, sort_by: (SortMediaBy, SortMediaBy))
        ensures
            final(self).media@ == sort_by_le(old(self).media@, two_le_fn(sort_by)),
            final(self).independent_segments == old(self).independent_segments,
            final(self).variants == old(self).variants,
            final(self).frames == old(self).frames,
    {
        sort_two_key(&mut self.media, sort_by);
    }

    /// Stable-sorts the I-frame streams by the primary key, ties broken by
    /// the secondary key; records tied under both keep their source order.
    pub fn sort_iframe(&mut self, sort_by: (SortIFrameBy, SortIFrameBy))
        ensures
            final(self).frames@ == sort_by_le(old(self).frames@, two_le_fn(sort_by)),
            final(self).independent_segments == old(self).independent_segments,
            final(self).variants == old(self).variants,
            final(self).media == old(self).media,
    {
        sort_two_key(&mut self.frames, sort_by);
    }
}

/// A sort criterion with a default used when the caller selects fewer than
/// two fields.
pub trait SortKey: Sized + Copy {
    /// The default criterion.
    spec fn default_spec() -> Self;

    /// Yields the default criterion.
    fn default_key() -> (r: Self)
        ensures
            r == Self::default_spec(),
    ;
}

impl SortKey for SortStreamBy {
    open spec fn default_spec() -> Self {
        SortStreamBy::Bandwidth
    }

    fn default_key() -> (r: Self) {
        SortStreamBy::Bandwidth
    }
}

impl SortKey for SortMediaBy {
    open spec fn default_spec() -> Self {
        SortMediaBy::GroupId
    }

    fn default_key() -> (r: Self) {
        SortMediaBy::GroupId
    }
}

impl SortKey for SortIFrameBy {
    open spec fn default_spec() -> Self {
        SortIFrameBy::Bandwidth
    }

    fn default_key() -> (r: Self) {
        SortIFrameBy::Bandwidth
    }
}

/// The primary and secondary sort criteria from a caller-supplied selection:
/// the first two selected fields, the type's default standing in for either
/// when fewer were chosen.
pub fn get_sort_order<T: SortKey>(sort_order: &[T]) -> (r: (T, T))
    ensures
        r.0 == if sort_order@.len() >= 1 {
            sort_order@[0]
        } else {
            T::default_spec()
        },
        r.1 == if sort_order@.len() >= 2 {
            sort_order@[1]
        } else {
            T::default_spec()
        },
{
    let primary: T = if sort_order.len() >= 1 {
        *vstd::slice::slice_index_get(sort_order, 0)
    } else {
        T::default_key()
    };
    let secondary: T = if sort_order.len() >= 2 {
        *vstd::slice::slice_index_get(sort_order, 1)
    } else {
        T::default_key()
    };
    (primary, secondary)
}


// ------------------------------------------------------------------
// Laws of the sort
// ------------------------------------------------------------------

/// `s` is ordered by `leq`.
pub open spec fn sorted_by<T>(s: Seq<T>, leq: spec_fn(T, T) -> bool) -> bool {
    forall|i: int, j: int| #![trigger s[i], s[j]] 0 <= i <= j < s.len() ==> leq(s[i], s[j])
}

/// Every element of an insertion result is the inserted one or one of `s`.
pub proof fn lemma_insert_le_membership<T>(s: Seq<T>, x: T, leq: spec_fn(T, T) -> bool)
    ensures
        forall|i: int|
            0 <= i < insert_le(s, x, leq).len() ==> insert_le(s, x, leq)[i] == x || s.contains(
                #[trigger] insert_le(s, x, leq)[i],
            ),
    decreases s.len(),
{
    let r = insert_le(s, x, leq);
    if s.len() == 0 {
    } else if leq(s.last(), x) {
        assert forall|i: int| 0 <= i < r.len() implies r[i] == x || s.contains(#[trigger] r[i]) by {
            if i < s.len() {
                assert(r[i] == s[i]);
                assert(s.contains(s[i]));
            }
        }
    } else {
        lemma_insert_le_membership(s.drop_last(), x, leq);
        let r0 = insert_le(s.drop_last(), x, leq);
        assert forall|i: int| 0 <= i < r.len() implies r[i] == x || s.contains(#[trigger] r[i]) by {
            if i < r0.len() {
                assert(r[i] == r0[i]);
                if r0[i] != x {
                    assert(s.drop_last().contains(r0[i]));
                    let m = choose|m: int|
                        0 <= m < s.drop_last().len() && s.drop_last()[m] == r0[i];
                    assert(s[m] == r0[i]);
                    assert(s.contains(s[m]));
                }
            } else {
                assert(r[i] == s.last());
                assert(s.contains(s[s.len() - 1]));
            }
        }
    }
}

/// Inserting into an ordered sequence keeps it ordered.
pub proof fn lemma_insert_le_sorted<K, T: KeyCmp<K>>(s: Seq<T>, x: T, ks: (K, K))
    requires
        sorted_by(s, two_le_fn(ks)),
    ensures
        sorted_by(insert_le(s, x, two_le_fn(ks)), two_le_fn(ks)),
    decreases s.len(),
{
    let leq = two_le_fn::<K, T>(ks);
    let r = insert_le(s, x, leq);
    if s.len() == 0 {
        assert forall|i: int, j: int| #![trigger r[i], r[j]] 0 <= i <= j < r.len() implies leq(
            r[i],
            r[j],
        ) by {
            lemma_two_le_total::<K, T>(x, x, ks);
        }
    } else if leq(s.last(), x) {
        assert forall|i: int, j: int| #![trigger r[i], r[j]] 0 <= i <= j < r.len() implies leq(
            r[i],
            r[j],
        ) by {
            if j < s.len() {
                assert(r[i] == s[i] && r[j] == s[j]);
            } else if i < s.len() {
                assert(r[i] == s[i] && r[j] == x);
                assert(s.last() == s[s.len() - 1]);
                assert(leq(s[i], s[s.len() - 1]));
                lemma_two_le_trans::<K, T>(s[i], s.last(), x, ks);
            } else {
                assert(r[i] == x && r[j] == x);
                lemma_two_le_total::<K, T>(x, x, ks);
            }
        }
    } else {
        assert forall|i: int, j: int|
            #![trigger s.drop_last()[i], s.drop_last()[j]]
            0 <= i <= j < s.drop_last().len() implies leq(s.drop_last()[i], s.drop_last()[j]) by {
            assert(s.drop_last()[i] == s[i] && s.drop_last()[j] == s[j]);
        }
        lemma_insert_le_sorted::<K, T>(s.drop_last(), x, ks);
        lemma_insert_le_membership(s.drop_last(), x, leq);
        let r0 = insert_le(s.drop_last(), x, leq);
        assert forall|i: int, j: int| #![trigger r[i], r[j]] 0 <= i <= j < r.len() implies leq(
            r[i],
            r[j],
        ) by {
            if j < r0.len() {
                assert(r[i] == r0[i] && r[j] == r0[j]);
            } else if i < r0.len() {
                assert(r[i] == r0[i] && r[j] == s.last());
                if r0[i] == x {
                    lemma_two_le_total::<K, T>(s.last(), x, ks);
                } else {
                    assert(s.drop_last().contains(r0[i]));
                    let m = choose|m: int|
                        0 <= m < s.drop_last().len() && s.drop_last()[m] == r0[i];
                    assert(s[m] == r0[i]);
                    assert(s.last() == s[s.len() - 1]);
                    assert(leq(s[m], s[s.len() - 1]));
                }
            } else {
                assert(r[i] == s.last() && r[j] == s.last());
                lemma_two_le_total::<K, T>(s.last(), s.last(), ks);
            }
        }
    }
}

/// The sort's result is ordered by the two-key order.
pub proof fn lemma_sort_by_le_sorted<K, T: KeyCmp<K>>(s: Seq<T>, ks: (K, K))
    ensures
        sorted_by(sort_by_le(s, two_le_fn(ks)), two_le_fn(ks)),
    decreases s.len(),
{
    if s.len() != 0 {
        lemma_sort_by_le_sorted::<K, T>(s.drop_last(), ks);
        lemma_insert_le_sorted::<K, T>(sort_by_le(s.drop_last(), two_le_fn(ks)), s.last(), ks);
    }
}

/// Inserting keeps the bag of elements, adding the inserted one.
pub proof fn lemma_insert_le_multiset<T>(s: Seq<T>, x: T, leq: spec_fn(T, T) -> bool)
    ensures
        insert_le(s, x, leq).to_multiset() == s.to_multiset().insert(x),
    decreases s.len(),
{
    broadcast use vstd::seq_lib::group_to_multiset_ensures;

    if s.len() == 0 {
        assert(seq![x].to_multiset() =~= Seq::<T>::empty().push(x).to_multiset());
        assert(Seq::<T>::empty().push(x) =~= seq![x]);
        assert(s.to_multiset().insert(x) =~= seq![x].to_multiset());
    } else if leq(s.last(), x) {
        assert(s.push(x).to_multiset() =~= s.to_multiset().insert(x));
    } else {
        lemma_insert_le_multiset(s.drop_last(), x, leq);
        let r0 = insert_le(s.drop_last(), x, leq);
        assert(r0.push(s.last()).to_multiset() =~= r0.to_multiset().insert(s.last()));
        assert(s.drop_last().push(s.last()) =~= s);
        assert(s.to_multiset() =~= s.drop_last().to_multiset().insert(s.last()));
        assert(s.drop_last().to_multiset().insert(x).insert(s.last())
            =~= s.drop_last().to_multiset().insert(s.last()).insert(x));
    }
}

/// Sorting permutes: the bag of records is unchanged.
pub proof fn lemma_sort_by_le_multiset<T>(s: Seq<T>, leq: spec_fn(T, T) -> bool)
    ensures
        sort_by_le(s, leq).to_multiset() == s.to_multiset(),
    decreases s.len(),
{
    broadcast use vstd::seq_lib::group_to_multiset_ensures;

    if s.len() != 0 {
        lemma_sort_by_le_multiset(s.drop_last(), leq);
        lemma_insert_le_multiset(sort_by_le(s.drop_last(), leq), s.last(), leq);
        assert(s.drop_last().push(s.last()) =~= s);
        assert(s.to_multiset() =~= s.drop_last().to_multiset().insert(s.last()));
    }
}

/// Inserting keeps the subsequence of any class of mutually tied records:
/// the inserted one lands after every record of its class.
pub proof fn lemma_insert_le_filter<T>(
    s: Seq<T>,
    x: T,
    leq: spec_fn(T, T) -> bool,
    p: spec_fn(T) -> bool,
)
    requires
        forall|a: T, b: T| #![trigger p(a), p(b)] p(a) && p(b) ==> leq(a, b),
    ensures
        insert_le(s, x, leq).filter(p) == if p(x) {
            s.filter(p).push(x)
        } else {
            s.filter(p)
        },
    decreases s.len(),
{
    reveal(Seq::filter);
    let r = insert_le(s, x, leq);
    if s.len() == 0 {
        assert(r == seq![x]);
        assert(seq![x].drop_last() =~= Seq::<T>::empty());
        assert(seq![x].last() == x);
        assert(Seq::<T>::empty().filter(p) == Seq::<T>::empty());
        assert(r.filter(p) == if p(x) {
            Seq::<T>::empty().filter(p).push(x)
        } else {
            Seq::<T>::empty().filter(p)
        });
        assert(s.filter(p) == Seq::<T>::empty().filter(p));
    } else if leq(s.last(), x) {
        assert(r == s.push(x));
        assert(s.push(x).drop_last() =~= s);
        assert(s.push(x).last() == x);
        assert(r.filter(p) == if p(x) {
            s.filter(p).push(x)
        } else {
            s.filter(p)
        });
    } else {
        lemma_insert_le_filter(s.drop_last(), x, leq, p);
        let r0 = insert_le(s.drop_last(), x, leq);
        assert(r == r0.push(s.last()));
        assert(r0.push(s.last()).drop_last() =~= r0);
        assert(r0.push(s.last()).last() == s.last());
        assert(r.filter(p) == if p(s.last()) {
            r0.filter(p).push(s.last())
        } else {
            r0.filter(p)
        });
        assert(s.drop_last().push(s.last()) =~= s);
        assert(s.filter(p) == if p(s.last()) {
            s.drop_last().filter(p).push(s.last())
        } else {
            s.drop_last().filter(p)
        });
        if p(x) && p(s.last()) {
            assert(leq(s.last(), x));
            assert(false);
        }
    }
}

/// SORT STABILITY: sorting keeps the relative order of records that are tied
/// under both keys.  For any record `c`, the subsequence of records tied with
/// `c` is the same before and after sorting.
pub proof fn lemma_sort_stable<K, T: KeyCmp<K>>(s: Seq<T>, ks: (K, K), c: T)
    ensures
        sort_by_le(s, two_le_fn(ks)).filter(
            |x: T| two_le(x, c, ks) && two_le(c, x, ks),
        ) == s.filter(|x: T| two_le(x, c, ks) && two_le(c, x, ks)),
    decreases s.len(),
{
    reveal(Seq::filter);
    let leq = two_le_fn::<K, T>(ks);
    let p = |x: T| two_le(x, c, ks) && two_le(c, x, ks);
    assert forall|a: T, b: T| #![trigger p(a), p(b)] p(a) && p(b) implies leq(a, b) by {
        lemma_two_le_trans::<K, T>(a, c, b, ks);
    }
    if s.len() != 0 {
        lemma_sort_stable::<K, T>(s.drop_last(), ks, c);
        lemma_insert_le_filter(sort_by_le(s.drop_last(), leq), s.last(), leq, p);
        assert(s.drop_last() == s.drop_last());
    }
}

/// DEFAULTED-FIELD SORTING: when every pair of records is tied under both
/// keys -- as when all of them lack the selected fields -- sorting leaves the
/// sequence exactly as it was.
pub proof fn lemma_sort_all_tied<K, T: KeyCmp<K>>(s: Seq<T>, ks: (K, K))
    requires
        forall|i: int, j: int| #![trigger s[i], s[j]] 0 <= i < s.len() && 0 <= j < s.len()
            ==> two_le(s[i], s[j], ks),
    ensures
        sort_by_le(s, two_le_fn(ks)) == s,
    decreases s.len(),
{
    let leq = two_le_fn::<K, T>(ks);
    if s.len() != 0 {
        assert forall|i: int, j: int|
            #![trigger s.drop_last()[i], s.drop_last()[j]]
            0 <= i < s.drop_last().len() && 0 <= j < s.drop_last().len() implies two_le(
            s.drop_last()[i],
            s.drop_last()[j],
            ks,
        ) by {
            assert(s.drop_last()[i] == s[i] && s.drop_last()[j] == s[j]);
        }
        lemma_sort_all_tied::<K, T>(s.drop_last(), ks);
        if s.len() == 1 {
            assert(s.drop_last() =~= Seq::<T>::empty());
            assert(insert_le(Seq::<T>::empty(), s.last(), leq) =~= s);
        } else {
            assert(s.drop_last().last() == s[s.len() - 2]);
            assert(two_le(s[s.len() - 2], s[s.len() - 1], ks));
            assert(leq(s.drop_last().last(), s.last()));
            assert(insert_le(s.drop_last(), s.last(), leq) == s.drop_last().push(s.last()));
            assert(s.drop_last().push(s.last()) =~= s);
        }
    } else {
        assert(sort_by_le(s, leq) =~= s);
    }
}

} // verus!
