//! Round-trip laws: what the serializer writes, the grammar reads back.
//!
//! The statements are restricted to well-formed records: field values that
//! contain none of the grammar's delimiters, so that they survive the
//! attribute syntax verbatim.  Records produced by the parser from one line
//! satisfy these conditions whenever their source did.

use vstd::prelude::*;
use crate::model::{
    sp_body, sp_line_ending, sp_line_len, sp_u32, sp_resolution, sp_rate, strip_zeros,
    lemma_strip_zeros_at, rate_bytes, resolution_bytes, u32_bytes, zero_digits,
    SpecIFrameStream, SpecMasterPlaylist, SpecMediaTrack, SpecStreamVariant,
};
use crate::numbers::{
    all_digits, dec_rep, digit_val, digits_val, lemma_dec_rep, lemma_digits_val_last, FrameRate,
};
use crate::scan::{
    is_digit, is_key_byte, is_line_break, is_ws, scan_pred, seq_first, starts_with, trim_bytes,
    lemma_seq_first_is, lemma_trim_start_at, lemma_trim_end_at, ScanKind,
};
use crate::tags::{lit_iframe_tag, lit_media_tag, lit_stream_tag};

verus! {

// ------------------------------------------------------------------
// Unknown-tag tolerance
// ------------------------------------------------------------------

/// UNKNOWN-TAG TOLERANCE: a line that starts none of the recognized tags,
/// standing before further body text with its own terminator, is consumed
/// and dropped: the body parses to exactly what the rest parses to.
pub proof fn lemma_unknown_line_skipped(u: Seq<u8>, s: Seq<u8>)
    requires
        forall|k: int| 0 <= k < u.len() ==> !is_line_break(#[trigger] u[k]),
        !starts_with(u, lit_iframe_tag().drop_last()),
        !starts_with(u, lit_stream_tag().drop_last()),
        !starts_with(u, lit_media_tag().drop_last()),
    ensures
        sp_body(u + seq![10u8] + s) == sp_body(s),
{
    let w = u + seq![10u8] + s;
    assert(w.len() > 0);
    lemma_no_break_prefix_differs(u, s, lit_iframe_tag().drop_last());
    lemma_no_break_prefix_differs(u, s, lit_stream_tag().drop_last());
    lemma_no_break_prefix_differs(u, s, lit_media_tag().drop_last());
    // The line runs exactly to the inserted terminator.
    assert forall|k: int| 0 <= k < u.len() implies !(scan_pred(ScanKind::LineBreak))(
        #[trigger] w[k],
    ) by {
        assert(w[k] == u[k]);
    }
    assert(w[u.len() as int] == 10);
    lemma_seq_first_is(w, scan_pred(ScanKind::LineBreak), u.len() as int);
    assert(sp_line_len(w) == Some(u.len() as int));
    assert(w.skip(u.len() as int)[0] == 10);
    assert(sp_line_ending(w.skip(u.len() as int)) == Some(1int));
    assert(w.skip(u.len() + 1int) =~= s);
}

/// A tag prefix without line breaks cannot match across the inserted
/// terminator: if `u` does not start with it, neither does `u + "\n" + s`.
proof fn lemma_no_break_prefix_differs(u: Seq<u8>, s: Seq<u8>, t: Seq<u8>)
    requires
        !starts_with(u, t),
        forall|k: int| 0 <= k < t.len() ==> #[trigger] t[k] != 10,
    ensures
        !starts_with(u + seq![10u8] + s, t),
{
    let w = u + seq![10u8] + s;
    if starts_with(w, t) {
        if u.len() >= t.len() {
            assert(u.take(t.len() as int) =~= w.take(t.len() as int));
            assert(false);
        } else {
            assert(w.take(t.len() as int)[u.len() as int] == t[u.len() as int]);
            assert(w[u.len() as int] == 10);
            assert(false);
        }
    }
}

// ------------------------------------------------------------------
// Value round-trips
// ------------------------------------------------------------------

/// A rendered integer reads back as itself.
pub proof fn lemma_u32_roundtrip(n: u32)
    ensures
        sp_u32(u32_bytes(n)) == Some(n),
{
    lemma_dec_rep(n as nat);
    let d = dec_rep(n as nat);
    assert(is_digit(d[0]));
    assert(d[0] != 43);
}

/// Zero digits in front do not change a digit string's value.
proof fn lemma_digits_val_leading_zeros(k: int, s: Seq<u8>)
    requires
        k >= 0,
    ensures
        digits_val(zero_digits(k) + s) == digits_val(s),
    decreases s.len(),
{
    if s.len() == 0 {
        lemma_digits_val_all_zeros(k);
        assert(zero_digits(k) + s =~= zero_digits(k));
    } else {
        lemma_digits_val_leading_zeros(k, s.drop_last());
        assert((zero_digits(k) + s).drop_last() =~= zero_digits(k) + s.drop_last());
        assert((zero_digits(k) + s).last() == s.last());
    }
}

/// A string of zero digits reads as zero.
proof fn lemma_digits_val_all_zeros(k: int)
    requires
        k >= 0,
    ensures
        digits_val(zero_digits(k)) == 0,
    decreases k,
{
    if k > 0 {
        lemma_digits_val_all_zeros(k - 1);
        assert(zero_digits(k).drop_last() =~= zero_digits(k - 1));
        assert(zero_digits(k).last() == 48);
    }
}

/// A rendered resolution reads back as itself.
pub proof fn lemma_resolution_roundtrip(r: (u32, u32))
    ensures
        sp_resolution(resolution_bytes(r)) == Some(r),
{
    lemma_dec_rep(r.0 as nat);
    lemma_dec_rep(r.1 as nat);
    let a = dec_rep(r.0 as nat);
    let b = dec_rep(r.1 as nat);
    let v = resolution_bytes(r);
    assert forall|k: int| 0 <= k < a.len() implies !(scan_pred(ScanKind::LowerX))(
        #[trigger] v[k],
    ) by {
        assert(v[k] == a[k]);
        assert(is_digit(a[k]));
    }
    assert(v[a.len() as int] == 120);
    lemma_seq_first_is(v, scan_pred(ScanKind::LowerX), a.len() as int);
    let h = v.skip(a.len() + 1int);
    assert(h =~= b);
    assert forall|k: int| 0 <= k < h.len() implies !(scan_pred(ScanKind::LowerX))(
        #[trigger] h[k],
    ) by {
        assert(is_digit(b[k]));
    }
    lemma_seq_first_is(h, scan_pred(ScanKind::LowerX), h.len() as int);
    assert(v.take(a.len() as int) =~= a);
    assert(a[0] != 43 && b[0] != 43);
    assert(sp_u32(a) == Some(r.0)) by {
        assert(is_digit(a[0]));
    }
    assert(sp_u32(b) == Some(r.1)) by {
        assert(is_digit(b[0]));
    }
}

/// A rendered well-formed frame rate reads back as itself.
pub proof fn lemma_rate_roundtrip(fr: FrameRate)
    requires
        fr.wf(),
    ensures
        sp_rate(rate_bytes(fr)) == fr,
{
    lemma_dec_rep(fr.mantissa as nat);
    let ds = dec_rep(fr.mantissa as nat);
    let v = rate_bytes(fr);
    if fr.scale == 0 {
        assert(v == ds);
        assert(is_digit(v[0]));
        assert(v[0] != 43);
        assert forall|k: int| 0 <= k < v.len() implies !(scan_pred(ScanKind::Dot))(
            #[trigger] v[k],
        ) by {
            assert(is_digit(ds[k]));
        }
        lemma_seq_first_is(v, scan_pred(ScanKind::Dot), v.len() as int);
    } else if ds.len() > fr.scale {
        let cut = ds.len() - fr.scale;
        let ip = ds.take(cut as int);
        let fp = ds.skip(cut as int);
        assert(v == ip + seq![46u8] + fp);
        assert(v[0] == ds[0]);
        assert(is_digit(ds[0]));
        assert(v[0] != 43);
        assert forall|k: int| 0 <= k < cut implies !(scan_pred(ScanKind::Dot))(
            #[trigger] v[k],
        ) by {
            assert(v[k] == ds[k]);
            assert(is_digit(ds[k]));
        }
        assert(v[cut as int] == 46);
        lemma_seq_first_is(v, scan_pred(ScanKind::Dot), cut as int);
        assert(v.take(cut as int) =~= ip);
        assert(v.skip(cut + 1) =~= fp);
        assert(fp.len() == fr.scale);
        assert(fp.last() == ds.last());
        assert(ds.last() == ds[ds.len() - 1]);
        lemma_digits_val_last(ds);
        assert(digit_val(ds.last()) == fr.mantissa % 10);
        assert(ds.last() != 48);
        lemma_strip_zeros_at(fp, fp.len() as int);
        assert(strip_zeros(fp) == fp.take(fp.len() as int));
        assert(fp.take(fp.len() as int) =~= fp);
        assert(ip + fp =~= ds);
        assert(all_digits(ip)) by {
            assert forall|k: int| 0 <= k < ip.len() implies is_digit(#[trigger] ip[k]) by {
                assert(ip[k] == ds[k]);
            }
        }
        assert(all_digits(fp)) by {
            assert forall|k: int| 0 <= k < fp.len() implies is_digit(#[trigger] fp[k]) by {
                assert(fp[k] == ds[k + cut]);
            }
        }
    } else {
        let z = fr.scale - ds.len();
        let fp = zero_digits(z as int) + ds;
        assert(v == seq![48u8, 46u8] + zero_digits(z as int) + ds);
        assert(v[0] == 48);
        assert(v[1] == 46);
        assert(!(scan_pred(ScanKind::Dot))(v[0]));
        lemma_seq_first_is(v, scan_pred(ScanKind::Dot), 1);
        let ip = v.take(1);
        assert(ip =~= seq![48u8]);
        assert(v.skip(2) =~= fp);
        assert(fp.len() == fr.scale);
        assert(fp.last() == ds.last());
        lemma_digits_val_last(ds);
        assert(ds.last() != 48);
        lemma_strip_zeros_at(fp, fp.len() as int);
        assert(strip_zeros(fp) == fp.take(fp.len() as int));
        assert(fp.take(fp.len() as int) =~= fp);
        assert(all_digits(seq![48u8]));
        assert(all_digits(fp)) by {
            assert forall|k: int| 0 <= k < fp.len() implies is_digit(#[trigger] fp[k]) by {
                if k < z {
                    assert(fp[k] == 48);
                } else {
                    assert(fp[k] == ds[k - z]);
                }
            }
        }
        let m = seq![48u8] + fp;
        assert(m =~= zero_digits(1) + fp) by {
            assert(zero_digits(1) =~= seq![48u8]);
        }
        lemma_digits_val_leading_zeros(1, fp);
        lemma_digits_val_leading_zeros(z as int, ds);
        assert(digits_val(m) == digits_val(fp));
        assert(digits_val(fp) == fr.mantissa);
    }
}


// ------------------------------------------------------------------
// Well-formed field values
// ------------------------------------------------------------------

/// No byte is a line break.
pub open spec fn no_breaks(s: Seq<u8>) -> bool {
    forall|k: int| 0 <= k < s.len() ==> !is_line_break(#[trigger] s[k])
}

/// A value that survives quoting verbatim: non-empty, without quotes or line
/// breaks.
pub open spec fn wf_quoted_value(v: Seq<u8>) -> bool {
    v.len() >= 1 && forall|k: int|
        0 <= k < v.len() ==> #[trigger] v[k] != 34 && !is_line_break(v[k])
}

/// A value that survives the unquoted syntax verbatim: non-empty, without
/// commas or line breaks, not opening with a quote, and not starting or
/// ending in whitespace (which trimming would drop).
pub open spec fn wf_plain_value(v: Seq<u8>) -> bool {
    v.len() >= 1 && v[0] != 34 && !is_ws(v[0]) && !is_ws(v.last()) && forall|k: int|
        0 <= k < v.len() ==> #[trigger] v[k] != 44 && !is_line_break(v[k])
}

/// A well-formed stream variant: each present text field fits its syntax,
/// the frame rate is within the model, and the URI line is non-empty with no
/// line break.
pub open spec fn sv_wf(v: SpecStreamVariant) -> bool {
    &&& (v.codecs matches Some(c) ==> wf_quoted_value(c))
    &&& (v.audio matches Some(a) ==> wf_quoted_value(a))
    &&& (v.video_range matches Some(x) ==> wf_plain_value(x))
    &&& (v.closed_captions matches Some(x) ==> wf_plain_value(x))
    &&& (v.frame_rate matches Some(f) ==> f.wf())
    &&& v.uri.len() >= 1
    &&& no_breaks(v.uri)
}

/// A well-formed media track: each present field fits its syntax, and at
/// least one field is present, so the line has an attribute.
pub open spec fn mt_wf(m: SpecMediaTrack) -> bool {
    &&& (m.track_type matches Some(x) ==> wf_plain_value(x))
    &&& (m.group_id matches Some(x) ==> wf_quoted_value(x))
    &&& (m.name matches Some(x) ==> wf_quoted_value(x))
    &&& (m.language matches Some(x) ==> wf_quoted_value(x))
    &&& (m.default matches Some(x) ==> wf_plain_value(x))
    &&& (m.autoselect matches Some(x) ==> wf_plain_value(x))
    &&& (m.channels matches Some(x) ==> wf_quoted_value(x))
    &&& (m.uri matches Some(x) ==> wf_quoted_value(x))
    &&& (m.track_type is Some || m.group_id is Some || m.name is Some || m.language is Some
        || m.default is Some || m.autoselect is Some || m.channels is Some || m.uri is Some)
}

/// A well-formed I-frame stream: each present field fits its syntax and the
/// inline URI fits the quoted syntax.
pub open spec fn ifs_wf(f: SpecIFrameStream) -> bool {
    &&& (f.codecs matches Some(c) ==> wf_quoted_value(c))
    &&& (f.video_range matches Some(x) ==> wf_plain_value(x))
    &&& wf_quoted_value(f.uri)
}

/// A well-formed playlist: every record well-formed.
pub open spec fn playlist_wf(p: SpecMasterPlaylist) -> bool {
    &&& forall|i: int| 0 <= i < p.variants.len() ==> sv_wf(#[trigger] p.variants[i])
    &&& forall|i: int| 0 <= i < p.media.len() ==> mt_wf(#[trigger] p.media[i])
    &&& forall|i: int| 0 <= i < p.frames.len() ==> ifs_wf(#[trigger] p.frames[i])
}

// ------------------------------------------------------------------
// Values in context
// ------------------------------------------------------------------

/// A well-formed plain value before a comma, a line break or the end of
/// input reads back as itself.
pub proof fn lemma_value_plain(v: Seq<u8>, rest: Seq<u8>)
    requires
        wf_plain_value(v),
        rest.len() == 0 || rest[0] == 44 || is_line_break(rest[0]),
    ensures
        crate::model::sp_value(v + rest) == Some((v.len() as int, v)),
{
    let w = v + rest;
    assert(w[0] == v[0]);
    assert forall|k: int| 0 <= k < v.len() implies !(scan_pred(ScanKind::CommaOrBreak))(
        #[trigger] w[k],
    ) by {
        assert(w[k] == v[k]);
    }
    if v.len() < w.len() {
        assert(w[v.len() as int] == rest[0]);
    }
    lemma_seq_first_is(w, scan_pred(ScanKind::CommaOrBreak), v.len() as int);
    assert(w.take(v.len() as int) =~= v);
    lemma_trim_start_at(v, 0);
    assert(v.skip(0) =~= v);
    lemma_trim_end_at(v, v.len() as int);
    assert(v.take(v.len() as int) =~= v);
    assert(trim_bytes(v) == v);
}

/// A well-formed quoted value between quotes reads back as itself, whatever
/// follows the closing quote.
pub proof fn lemma_value_quoted(v: Seq<u8>, rest: Seq<u8>)
    requires
        wf_quoted_value(v),
    ensures
        crate::model::sp_value(seq![34u8] + v + seq![34u8] + rest) == Some(
            ((v.len() + 2) as int, v),
        ),
{
    let w = seq![34u8] + v + seq![34u8] + rest;
    assert(w[0] == 34);
    let t = w.skip(1);
    assert(t =~= v + seq![34u8] + rest);
    assert forall|k: int| 0 <= k < v.len() implies !(scan_pred(ScanKind::Quote))(
        #[trigger] t[k],
    ) by {
        assert(t[k] == v[k]);
    }
    assert(t[v.len() as int] == 34);
    lemma_seq_first_is(t, scan_pred(ScanKind::Quote), v.len() as int);
    assert(t.take(v.len() as int) =~= v);
}

/// A `KEY=` prefix followed by a value that reads as `val` gives the pair
/// `(KEY, val)`.
pub proof fn lemma_pair_in_context(key: Seq<u8>, body: Seq<u8>, val: Seq<u8>, rest: Seq<u8>)
    requires
        key.len() >= 1,
        forall|k: int| 0 <= k < key.len() ==> is_key_byte(#[trigger] key[k]),
        body.len() >= 1,
        crate::model::sp_value(body + rest) == Some((body.len() as int, val)),
    ensures
        crate::model::sp_pair(key + seq![61u8] + body + rest) == Some(
            ((key.len() + 1 + body.len()) as int, (key, val)),
        ),
{
    let w = key + seq![61u8] + body + rest;
    assert forall|k: int| 0 <= k < key.len() implies !(scan_pred(ScanKind::NonKey))(
        #[trigger] w[k],
    ) by {
        assert(w[k] == key[k]);
    }
    assert(w[key.len() as int] == 61);
    assert(!is_key_byte(61));
    lemma_seq_first_is(w, scan_pred(ScanKind::NonKey), key.len() as int);
    assert(w.take(key.len() as int) =~= key);
    assert(w.skip(key.len() + 1int) =~= body + rest);
}

// ------------------------------------------------------------------
// Attribute lists in context
// ------------------------------------------------------------------

/// `,p0,p1,...`: each part preceded by a comma.
pub open spec fn comma_each(ps: Seq<Seq<u8>>) -> Seq<u8>
    decreases ps.len(),
{
    if ps.len() == 0 {
        Seq::empty()
    } else {
        seq![44u8] + ps[0] + comma_each(ps.skip(1))
    }
}

/// The joined list is its first part followed by the comma-prefixed rest.
pub proof fn lemma_join_comma_front(ps: Seq<Seq<u8>>)
    requires
        ps.len() >= 1,
    ensures
        crate::model::join_comma(ps) == ps[0] + comma_each(ps.skip(1)),
    decreases ps.len(),
{
    if ps.len() == 1 {
        assert(ps.skip(1) =~= Seq::<Seq<u8>>::empty());
        assert(ps[0] + comma_each(ps.skip(1)) =~= ps[0]);
    } else {
        lemma_join_comma_front(ps.drop_last());
        lemma_comma_each_snoc(ps.drop_last().skip(1), ps.last());
        assert(ps.drop_last()[0] == ps[0]);
        assert(ps.drop_last().skip(1).push(ps.last()) =~= ps.skip(1));
        assert(ps[0] + comma_each(ps.drop_last().skip(1)) + seq![44u8] + ps.last() =~= ps[0] + (
        comma_each(ps.drop_last().skip(1)) + seq![44u8] + ps.last()));
    }
}

/// Appending a part to a comma-prefixed list appends `,part`.
pub proof fn lemma_comma_each_snoc(ps: Seq<Seq<u8>>, x: Seq<u8>)
    ensures
        comma_each(ps.push(x)) == comma_each(ps) + seq![44u8] + x,
    decreases ps.len(),
{
    if ps.len() == 0 {
        assert(ps.push(x)[0] == x);
        assert(ps.push(x).skip(1) =~= Seq::<Seq<u8>>::empty());
        assert(seq![44u8] + x + comma_each(ps.push(x).skip(1)) =~= seq![44u8] + x);
        assert(comma_each(ps) + seq![44u8] + x =~= seq![44u8] + x);
    } else {
        lemma_comma_each_snoc(ps.skip(1), x);
        assert(ps.push(x)[0] == ps[0]);
        assert(ps.push(x).skip(1) =~= ps.skip(1).push(x));
        assert(seq![44u8] + ps[0] + (comma_each(ps.skip(1)) + seq![44u8] + x) =~= (seq![44u8]
            + ps[0] + comma_each(ps.skip(1))) + seq![44u8] + x);
    }
}

/// Each part of a rendered attribute list reads as one pair in any position,
/// before any tail that is empty or opens with a comma.
pub open spec fn parts_decode(
    parts: Seq<Seq<u8>>,
    decoded: Seq<(Seq<u8>, Seq<u8>)>,
    tail: Seq<u8>,
) -> bool {
    &&& parts.len() == decoded.len()
    &&& forall|i: int, rest: Seq<u8>|
        0 <= i < parts.len() && (rest.len() == 0 || rest[0] == 44 || rest == tail) ==> #[trigger] crate::model::sp_pair(
            parts[i] + rest,
        ) == Some((parts[i].len() as int, decoded[i]))
}

/// The comma-prefixed parts read back as their decoded pairs, stopping at
/// the tail.
pub proof fn lemma_pairs_more_concat(
    parts: Seq<Seq<u8>>,
    decoded: Seq<(Seq<u8>, Seq<u8>)>,
    tail: Seq<u8>,
)
    requires
        parts_decode(parts, decoded, tail),
        forall|i: int| 0 <= i < parts.len() ==> #[trigger] parts[i].len() >= 1,
        tail.len() == 0 || is_line_break(tail[0]),
    ensures
        crate::model::sp_pairs_more(comma_each(parts) + tail) == (
            comma_each(parts).len() as int,
            decoded,
        ),
    decreases parts.len(),
{
    let w = comma_each(parts) + tail;
    if parts.len() == 0 {
        assert(comma_each(parts).len() == 0);
        assert(w =~= tail);
        if tail.len() >= 1 {
            assert(tail[0] != 44);
        }
        assert(crate::model::sp_pairs_more(w).1 =~= Seq::<(Seq<u8>, Seq<u8>)>::empty());
        assert(decoded =~= Seq::<(Seq<u8>, Seq<u8>)>::empty());
    } else {
        assert(w[0] == 44);
        let after = comma_each(parts.skip(1)) + tail;
        assert(w.skip(1) =~= parts[0] + after);
        assert(after.len() == 0 || after[0] == 44 || after == tail) by {
            if parts.skip(1).len() >= 1 {
                assert(after[0] == 44);
            } else {
                assert(comma_each(parts.skip(1)).len() == 0);
                assert(after =~= tail);
            }
        }
        assert(crate::model::sp_pair(parts[0] + after) == Some(
            (parts[0].len() as int, decoded[0]),
        ));
        assert(w.skip(1int + parts[0].len()) =~= after);
        assert forall|i: int, rest: Seq<u8>|
            0 <= i < parts.skip(1).len() && (rest.len() == 0 || rest[0] == 44 || rest
                == tail) implies #[trigger] crate::model::sp_pair(parts.skip(1)[i] + rest) == Some(
            (parts.skip(1)[i].len() as int, decoded.skip(1)[i]),
        ) by {
            assert(parts.skip(1)[i] == parts[i + 1]);
            assert(decoded.skip(1)[i] == decoded[i + 1]);
        }
        assert forall|i: int| 0 <= i < parts.skip(1).len() implies #[trigger] parts.skip(
            1,
        )[i].len() >= 1 by {
            assert(parts.skip(1)[i] == parts[i + 1]);
        }
        lemma_pairs_more_concat(parts.skip(1), decoded.skip(1), tail);
        assert(seq![decoded[0]] + decoded.skip(1) =~= decoded);
    }
}

/// A rendered attribute list followed by its tail reads back as its decoded
/// pairs.
pub proof fn lemma_pairs_concat(
    parts: Seq<Seq<u8>>,
    decoded: Seq<(Seq<u8>, Seq<u8>)>,
    tail: Seq<u8>,
)
    requires
        parts.len() >= 1,
        parts_decode(parts, decoded, tail),
        forall|i: int| 0 <= i < parts.len() ==> #[trigger] parts[i].len() >= 1,
        tail.len() == 0 || is_line_break(tail[0]),
    ensures
        crate::model::sp_pairs(crate::model::join_comma(parts) + tail) == Some(
            (crate::model::join_comma(parts).len() as int, decoded),
        ),
{
    let w = crate::model::join_comma(parts) + tail;
    lemma_join_comma_front(parts);
    let after = comma_each(parts.skip(1)) + tail;
    assert(w =~= parts[0] + after);
    assert(after.len() == 0 || after[0] == 44 || after == tail) by {
        if parts.skip(1).len() >= 1 {
            assert(after[0] == 44);
        } else {
            assert(comma_each(parts.skip(1)).len() == 0);
            assert(after =~= tail);
        }
    }
    assert(crate::model::sp_pair(parts[0] + after) == Some((parts[0].len() as int, decoded[0])));
    assert(w.skip(parts[0].len() as int) =~= after);
    assert forall|i: int, rest: Seq<u8>|
        0 <= i < parts.skip(1).len() && (rest.len() == 0 || rest[0] == 44 || rest
            == tail) implies #[trigger] crate::model::sp_pair(parts.skip(1)[i] + rest) == Some(
        (parts.skip(1)[i].len() as int, decoded.skip(1)[i]),
    ) by {
        assert(parts.skip(1)[i] == parts[i + 1]);
        assert(decoded.skip(1)[i] == decoded[i + 1]);
    }
    assert forall|i: int| 0 <= i < parts.skip(1).len() implies #[trigger] parts.skip(
        1,
    )[i].len() >= 1 by {
        assert(parts.skip(1)[i] == parts[i + 1]);
    }
    lemma_pairs_more_concat(parts.skip(1), decoded.skip(1), tail);
    assert(seq![decoded[0]] + decoded.skip(1) =~= decoded);
}


// ------------------------------------------------------------------
// Folding decoded pairs
// ------------------------------------------------------------------

/// Folding one more pair applies it last.
pub proof fn lemma_sv_fold_snoc(
    ps: Seq<(Seq<u8>, Seq<u8>)>,
    p: (Seq<u8>, Seq<u8>),
    a: SpecStreamVariant,
)
    ensures
        crate::model::sv_fold(ps.push(p), a) == crate::model::sv_apply(
            crate::model::sv_fold(ps, a),
            p.0,
            p.1,
        ),
    decreases ps.len(),
{
    if ps.len() == 0 {
        assert(ps.push(p)[0] == p);
        assert(ps.push(p).skip(1) =~= Seq::<(Seq<u8>, Seq<u8>)>::empty());
        assert(crate::model::sv_fold(ps, a) == a);
        assert(crate::model::sv_fold(ps.push(p), a) == crate::model::sv_fold(
            ps.push(p).skip(1),
            crate::model::sv_apply(a, p.0, p.1),
        ));
        assert(crate::model::sv_fold(
            Seq::<(Seq<u8>, Seq<u8>)>::empty(),
            crate::model::sv_apply(a, p.0, p.1),
        ) == crate::model::sv_apply(a, p.0, p.1));
    } else {
        assert(ps.push(p)[0] == ps[0]);
        assert(ps.push(p).skip(1) =~= ps.skip(1).push(p));
        assert(crate::model::sv_fold(ps.push(p), a) == crate::model::sv_fold(
            ps.skip(1).push(p),
            crate::model::sv_apply(a, ps[0].0, ps[0].1),
        ));
        assert(crate::model::sv_fold(ps, a) == crate::model::sv_fold(
            ps.skip(1),
            crate::model::sv_apply(a, ps[0].0, ps[0].1),
        ));
        lemma_sv_fold_snoc(ps.skip(1), p, crate::model::sv_apply(a, ps[0].0, ps[0].1));
    }
}

/// Folding one more pair applies it last.
pub proof fn lemma_mt_fold_snoc(
    ps: Seq<(Seq<u8>, Seq<u8>)>,
    p: (Seq<u8>, Seq<u8>),
    a: SpecMediaTrack,
)
    ensures
        crate::model::mt_fold(ps.push(p), a) == crate::model::mt_apply(
            crate::model::mt_fold(ps, a),
            p.0,
            p.1,
        ),
    decreases ps.len(),
{
    if ps.len() == 0 {
        assert(ps.push(p)[0] == p);
        assert(ps.push(p).skip(1) =~= Seq::<(Seq<u8>, Seq<u8>)>::empty());
        assert(crate::model::mt_fold(ps, a) == a);
        assert(crate::model::mt_fold(ps.push(p), a) == crate::model::mt_fold(
            ps.push(p).skip(1),
            crate::model::mt_apply(a, p.0, p.1),
        ));
        assert(crate::model::mt_fold(
            Seq::<(Seq<u8>, Seq<u8>)>::empty(),
            crate::model::mt_apply(a, p.0, p.1),
        ) == crate::model::mt_apply(a, p.0, p.1));
    } else {
        assert(ps.push(p)[0] == ps[0]);
        assert(ps.push(p).skip(1) =~= ps.skip(1).push(p));
        assert(crate::model::mt_fold(ps.push(p), a) == crate::model::mt_fold(
            ps.skip(1).push(p),
            crate::model::mt_apply(a, ps[0].0, ps[0].1),
        ));
        assert(crate::model::mt_fold(ps, a) == crate::model::mt_fold(
            ps.skip(1),
            crate::model::mt_apply(a, ps[0].0, ps[0].1),
        ));
        lemma_mt_fold_snoc(ps.skip(1), p, crate::model::mt_apply(a, ps[0].0, ps[0].1));
    }
}

/// Folding one more pair applies it last.
pub proof fn lemma_ifs_fold_snoc(
    ps: Seq<(Seq<u8>, Seq<u8>)>,
    p: (Seq<u8>, Seq<u8>),
    a: SpecIFrameStream,
)
    ensures
        crate::model::ifs_fold(ps.push(p), a) == crate::model::ifs_apply(
            crate::model::ifs_fold(ps, a),
            p.0,
            p.1,
        ),
    decreases ps.len(),
{
    if ps.len() == 0 {
        assert(ps.push(p)[0] == p);
        assert(ps.push(p).skip(1) =~= Seq::<(Seq<u8>, Seq<u8>)>::empty());
        assert(crate::model::ifs_fold(ps, a) == a);
        assert(crate::model::ifs_fold(ps.push(p), a) == crate::model::ifs_fold(
            ps.push(p).skip(1),
            crate::model::ifs_apply(a, p.0, p.1),
        ));
        assert(crate::model::ifs_fold(
            Seq::<(Seq<u8>, Seq<u8>)>::empty(),
            crate::model::ifs_apply(a, p.0, p.1),
        ) == crate::model::ifs_apply(a, p.0, p.1));
    } else {
        assert(ps.push(p)[0] == ps[0]);
        assert(ps.push(p).skip(1) =~= ps.skip(1).push(p));
        assert(crate::model::ifs_fold(ps.push(p), a) == crate::model::ifs_fold(
            ps.skip(1).push(p),
            crate::model::ifs_apply(a, ps[0].0, ps[0].1),
        ));
        assert(crate::model::ifs_fold(ps, a) == crate::model::ifs_fold(
            ps.skip(1),
            crate::model::ifs_apply(a, ps[0].0, ps[0].1),
        ));
        lemma_ifs_fold_snoc(ps.skip(1), p, crate::model::ifs_apply(a, ps[0].0, ps[0].1));
    }
}

// ------------------------------------------------------------------
// Rendered values fit the plain syntax
// ------------------------------------------------------------------

/// A rendered integer is a well-formed plain value.
pub proof fn lemma_u32_bytes_plain(n: u32)
    ensures
        wf_plain_value(u32_bytes(n)),
        no_breaks(u32_bytes(n)),
{
    lemma_dec_rep(n as nat);
    let d = u32_bytes(n);
    assert(is_digit(d[0]));
    assert(is_digit(d[d.len() - 1]));
    assert forall|k: int| 0 <= k < d.len() implies #[trigger] d[k] != 44 && !is_line_break(
        d[k],
    ) by {
        assert(is_digit(d[k]));
    }
}

/// A rendered resolution is a well-formed plain value.
pub proof fn lemma_resolution_bytes_plain(r: (u32, u32))
    ensures
        wf_plain_value(resolution_bytes(r)),
        no_breaks(resolution_bytes(r)),
{
    lemma_dec_rep(r.0 as nat);
    lemma_dec_rep(r.1 as nat);
    let a = dec_rep(r.0 as nat);
    let b = dec_rep(r.1 as nat);
    let v = resolution_bytes(r);
    assert(v[0] == a[0]);
    assert(is_digit(a[0]));
    assert(v[v.len() - 1] == b[b.len() - 1]);
    assert(is_digit(b[b.len() - 1]));
    assert forall|k: int| 0 <= k < v.len() implies #[trigger] v[k] != 44 && !is_line_break(
        v[k],
    ) by {
        if k < a.len() {
            assert(v[k] == a[k]);
            assert(is_digit(a[k]));
        } else if k == a.len() {
            assert(v[k] == 120);
        } else {
            assert(v[k] == b[k - a.len() - 1]);
            assert(is_digit(b[k - a.len() - 1]));
        }
    }
}

/// A rendered frame rate is a well-formed plain value.
pub proof fn lemma_rate_bytes_plain(fr: FrameRate)
    ensures
        wf_plain_value(rate_bytes(fr)),
        no_breaks(rate_bytes(fr)),
{
    lemma_dec_rep(fr.mantissa as nat);
    let ds = dec_rep(fr.mantissa as nat);
    let v = rate_bytes(fr);
    if fr.scale == 0 {
        assert(is_digit(v[0]));
        assert(is_digit(v[v.len() - 1]));
        assert forall|k: int| 0 <= k < v.len() implies #[trigger] v[k] != 44 && !is_line_break(
            v[k],
        ) by {
            assert(is_digit(v[k]));
        }
    } else if ds.len() > fr.scale {
        let cut = ds.len() - fr.scale;
        assert(v[0] == ds[0]);
        assert(is_digit(ds[0]));
        assert(v[v.len() - 1] == ds[ds.len() - 1]);
        assert(is_digit(ds[ds.len() - 1]));
        assert forall|k: int| 0 <= k < v.len() implies #[trigger] v[k] != 44 && !is_line_break(
            v[k],
        ) by {
            if k < cut {
                assert(v[k] == ds[k]);
                assert(is_digit(ds[k]));
            } else if k == cut {
                assert(v[k] == 46);
            } else {
                assert(v[k] == ds[k - 1]);
                assert(is_digit(ds[k - 1]));
            }
        }
    } else {
        let z = fr.scale - ds.len();
        assert(v[0] == 48);
        assert(v[v.len() - 1] == ds[ds.len() - 1]);
        assert(is_digit(ds[ds.len() - 1]));
        assert forall|k: int| 0 <= k < v.len() implies #[trigger] v[k] != 44 && !is_line_break(
            v[k],
        ) by {
            if k == 0 {
                assert(v[k] == 48);
            } else if k == 1 {
                assert(v[k] == 46);
            } else if k < 2 + z {
                assert(v[k] == 48);
            } else {
                assert(v[k] == ds[k - 2 - z]);
                assert(is_digit(ds[k - 2 - z]));
            }
        }
    }
}


// ------------------------------------------------------------------
// Key literals
// ------------------------------------------------------------------

/// Every attribute key of the grammar consists of key bytes.
pub proof fn lemma_key_lit_bytes()
    ensures
        forall|k: int|
            0 <= k < crate::tags::lit_key_bandwidth().len() ==> is_key_byte(
                #[trigger] crate::tags::lit_key_bandwidth()[k],
            ),
        forall|k: int|
            0 <= k < crate::tags::lit_key_average_bandwidth().len() ==> is_key_byte(
                #[trigger] crate::tags::lit_key_average_bandwidth()[k],
            ),
        forall|k: int|
            0 <= k < crate::tags::lit_key_codecs().len() ==> is_key_byte(
                #[trigger] crate::tags::lit_key_codecs()[k],
            ),
        forall|k: int|
            0 <= k < crate::tags::lit_key_resolution().len() ==> is_key_byte(
                #[trigger] crate::tags::lit_key_resolution()[k],
            ),
        forall|k: int|
            0 <= k < crate::tags::lit_key_frame_rate().len() ==> is_key_byte(
                #[trigger] crate::tags::lit_key_frame_rate()[k],
            ),
        forall|k: int|
            0 <= k < crate::tags::lit_key_video_range().len() ==> is_key_byte(
                #[trigger] crate::tags::lit_key_video_range()[k],
            ),
        forall|k: int|
            0 <= k < crate::tags::lit_key_audio().len() ==> is_key_byte(
                #[trigger] crate::tags::lit_key_audio()[k],
            ),
        forall|k: int|
            0 <= k < crate::tags::lit_key_closed_captions().len() ==> is_key_byte(
                #[trigger] crate::tags::lit_key_closed_captions()[k],
            ),
        forall|k: int|
            0 <= k < crate::tags::lit_key_type().len() ==> is_key_byte(
                #[trigger] crate::tags::lit_key_type()[k],
            ),
        forall|k: int|
            0 <= k < crate::tags::lit_key_group_id().len() ==> is_key_byte(
                #[trigger] crate::tags::lit_key_group_id()[k],
            ),
        forall|k: int|
            0 <= k < crate::tags::lit_key_name().len() ==> is_key_byte(
                #[trigger] crate::tags::lit_key_name()[k],
            ),
        forall|k: int|
            0 <= k < crate::tags::lit_key_language().len() ==> is_key_byte(
                #[trigger] crate::tags::lit_key_language()[k],
            ),
        forall|k: int|
            0 <= k < crate::tags::lit_key_default().len() ==> is_key_byte(
                #[trigger] crate::tags::lit_key_default()[k],
            ),
        forall|k: int|
            0 <= k < crate::tags::lit_key_autoselect().len() ==> is_key_byte(
                #[trigger] crate::tags::lit_key_autoselect()[k],
            ),
        forall|k: int|
            0 <= k < crate::tags::lit_key_channels().len() ==> is_key_byte(
                #[trigger] crate::tags::lit_key_channels()[k],
            ),
        forall|k: int|
            0 <= k < crate::tags::lit_key_uri().len() ==> is_key_byte(
                #[trigger] crate::tags::lit_key_uri()[k],
            ),
{
}

/// The keys of equal length that one record's fold must tell apart.
pub proof fn lemma_key_lit_distinct()
    ensures
        crate::tags::lit_key_name() != crate::tags::lit_key_type(),
        crate::tags::lit_key_language() != crate::tags::lit_key_group_id(),
        crate::tags::lit_key_channels() != crate::tags::lit_key_group_id(),
        crate::tags::lit_key_channels() != crate::tags::lit_key_language(),
        crate::tags::lit_key_frame_rate() != crate::tags::lit_key_resolution(),
{
    assert(crate::tags::lit_key_name()[0] != crate::tags::lit_key_type()[0]);
    assert(crate::tags::lit_key_language()[0] != crate::tags::lit_key_group_id()[0]);
    assert(crate::tags::lit_key_channels()[0] != crate::tags::lit_key_group_id()[0]);
    assert(crate::tags::lit_key_channels()[0] != crate::tags::lit_key_language()[0]);
    assert(crate::tags::lit_key_frame_rate()[0] != crate::tags::lit_key_resolution()[0]);
}

/// Adding one part whose pair is known keeps a decodable list decodable.
pub proof fn lemma_parts_decode_push(
    parts: Seq<Seq<u8>>,
    decoded: Seq<(Seq<u8>, Seq<u8>)>,
    tail: Seq<u8>,
    part: Seq<u8>,
    d: (Seq<u8>, Seq<u8>),
)
    requires
        parts_decode(parts, decoded, tail),
        forall|r2: Seq<u8>|
            r2.len() == 0 || r2[0] == 44 || r2 == tail ==> #[trigger] crate::model::sp_pair(
                part + r2,
            ) == Some((part.len() as int, d)),
    ensures
        parts_decode(parts.push(part), decoded.push(d), tail),
{
    assert forall|i: int, rest: Seq<u8>|
        0 <= i < parts.push(part).len() && (rest.len() == 0 || rest[0] == 44 || rest
            == tail) implies #[trigger] crate::model::sp_pair(parts.push(part)[i] + rest) == Some(
        (parts.push(part)[i].len() as int, decoded.push(d)[i]),
    ) by {
        if i < parts.len() {
            assert(parts.push(part)[i] == parts[i]);
            assert(decoded.push(d)[i] == decoded[i]);
            assert(crate::model::sp_pair(parts[i] + rest) == Some(
                (parts[i].len() as int, decoded[i]),
            ));
        } else {
            assert(parts.push(part)[i] == part);
            assert(decoded.push(d)[i] == d);
            assert(crate::model::sp_pair(part + rest) == Some((part.len() as int, d)));
        }
    }
}

/// A joined list of break-free parts is break-free.
pub proof fn lemma_join_comma_no_breaks(parts: Seq<Seq<u8>>)
    requires
        forall|i: int| 0 <= i < parts.len() ==> no_breaks(#[trigger] parts[i]),
    ensures
        no_breaks(crate::model::join_comma(parts)),
    decreases parts.len(),
{
    if parts.len() > 1 {
        assert forall|i: int| 0 <= i < parts.drop_last().len() implies no_breaks(
            #[trigger] parts.drop_last()[i],
        ) by {
            assert(parts.drop_last()[i] == parts[i]);
        }
        lemma_join_comma_no_breaks(parts.drop_last());
        let j = crate::model::join_comma(parts.drop_last());
        let w = crate::model::join_comma(parts);
        assert(parts.last() == parts[parts.len() - 1]);
        assert(no_breaks(parts.last()));
        assert forall|k: int| 0 <= k < w.len() implies !is_line_break(#[trigger] w[k]) by {
            if k < j.len() {
                assert(w[k] == j[k]);
            } else if k == j.len() {
                assert(w[k] == 44);
            } else {
                assert(w[k] == parts.last()[k - j.len() - 1]);
            }
        }
    } else if parts.len() == 1 {
        assert(crate::model::join_comma(parts) == parts[0]);
    }
}



// ------------------------------------------------------------------
// Record round-trips
// ------------------------------------------------------------------

/// The decoded pair a present field contributes.
pub open spec fn dec_field(
    ds: Seq<(Seq<u8>, Seq<u8>)>,
    key: Seq<u8>,
    v: Option<Seq<u8>>,
) -> Seq<(Seq<u8>, Seq<u8>)> {
    match v {
        Some(x) => ds.push((key, x)),
        None => ds,
    }
}

/// The pairs a media track's rendered attribute list reads back as.
pub open spec fn mt_decoded(m: SpecMediaTrack) -> Seq<(Seq<u8>, Seq<u8>)> {
    dec_field(dec_field(dec_field(dec_field(dec_field(dec_field(dec_field(dec_field(Seq::empty(), crate::tags::lit_key_type(), m.track_type), crate::tags::lit_key_group_id(), m.group_id), crate::tags::lit_key_name(), m.name), crate::tags::lit_key_language(), m.language), crate::tags::lit_key_default(), m.default), crate::tags::lit_key_autoselect(), m.autoselect), crate::tags::lit_key_channels(), m.channels), crate::tags::lit_key_uri(), m.uri)
}

/// The first half of the media track's part chain.
pub open spec fn mt_parts_a(m: SpecMediaTrack) -> Seq<Seq<u8>> {
    crate::model::part_quoted(crate::model::part_quoted(crate::model::part_quoted(crate::model::part_plain(Seq::empty(), crate::tags::lit_key_type(), m.track_type), crate::tags::lit_key_group_id(), m.group_id), crate::tags::lit_key_name(), m.name), crate::tags::lit_key_language(), m.language)
}

/// The first half of the media track's decoded pairs.
pub open spec fn mt_decoded_a(m: SpecMediaTrack) -> Seq<(Seq<u8>, Seq<u8>)> {
    dec_field(dec_field(dec_field(dec_field(Seq::empty(), crate::tags::lit_key_type(), m.track_type), crate::tags::lit_key_group_id(), m.group_id), crate::tags::lit_key_name(), m.name), crate::tags::lit_key_language(), m.language)
}

/// The first four fields render to parts that read back as their pairs.
#[verifier::rlimit(100)]
proof fn lemma_media_decode_a(m: SpecMediaTrack, tail: Seq<u8>)
    requires
        mt_wf(m),
        tail.len() == 0 || is_line_break(tail[0]),
    ensures
        parts_decode(mt_parts_a(m), mt_decoded_a(m), tail),
        forall|i: int| 0 <= i < mt_parts_a(m).len() ==> #[trigger] mt_parts_a(m)[i].len() >= 1,
{
    lemma_key_lit_bytes();
    let parts0: Seq<Seq<u8>> = Seq::empty();
    let decoded0: Seq<(Seq<u8>, Seq<u8>)> = Seq::empty();
    assert(parts_decode(parts0, decoded0, tail));
    let (parts1, decoded1) = match m.track_type {
        Some(x) => {
            let part = crate::tags::lit_key_type() + seq![61u8] + x;
            assert forall|r2: Seq<u8>| r2.len() == 0 || r2[0] == 44 || r2 == tail implies #[trigger] crate::model::sp_pair(
                part + r2,
            ) == Some((part.len() as int, (crate::tags::lit_key_type(), x))) by {
                lemma_value_plain(x, r2);
                lemma_pair_in_context(crate::tags::lit_key_type(), x, x, r2);
            }
            lemma_parts_decode_push(parts0, decoded0, tail, part, (crate::tags::lit_key_type(), x));
            (parts0.push(part), decoded0.push((crate::tags::lit_key_type(), x)))
        },
        None => (parts0, decoded0),
    };
    assert(parts1 == crate::model::part_plain(parts0, crate::tags::lit_key_type(), m.track_type));
    assert(decoded1 == dec_field(decoded0, crate::tags::lit_key_type(), m.track_type));
    assert(parts_decode(parts1, decoded1, tail));
    assert(forall|i: int| 0 <= i < parts1.len() ==> #[trigger] parts1[i].len() >= 1);
    let (parts2, decoded2) = match m.group_id {
        Some(x) => {
            let part = crate::tags::lit_key_group_id() + seq![61u8, 34u8] + x + seq![34u8];
            assert forall|r2: Seq<u8>| r2.len() == 0 || r2[0] == 44 || r2 == tail implies #[trigger] crate::model::sp_pair(
                part + r2,
            ) == Some((part.len() as int, (crate::tags::lit_key_group_id(), x))) by {
                lemma_value_quoted(x, r2);
                lemma_pair_in_context(crate::tags::lit_key_group_id(), seq![34u8] + x + seq![34u8], x, r2);
                assert(part + r2 =~= crate::tags::lit_key_group_id() + seq![61u8] + (seq![34u8] + x + seq![34u8]) + r2);
            }
            lemma_parts_decode_push(parts1, decoded1, tail, part, (crate::tags::lit_key_group_id(), x));
            (parts1.push(part), decoded1.push((crate::tags::lit_key_group_id(), x)))
        },
        None => (parts1, decoded1),
    };
    assert(parts2 == crate::model::part_quoted(parts1, crate::tags::lit_key_group_id(), m.group_id));
    assert(decoded2 == dec_field(decoded1, crate::tags::lit_key_group_id(), m.group_id));
    assert(parts_decode(parts2, decoded2, tail));
    assert(forall|i: int| 0 <= i < parts2.len() ==> #[trigger] parts2[i].len() >= 1);
    let (parts3, decoded3) = match m.name {
        Some(x) => {
            let part = crate::tags::lit_key_name() + seq![61u8, 34u8] + x + seq![34u8];
            assert forall|r2: Seq<u8>| r2.len() == 0 || r2[0] == 44 || r2 == tail implies #[trigger] crate::model::sp_pair(
                part + r2,
            ) == Some((part.len() as int, (crate::tags::lit_key_name(), x))) by {
                lemma_value_quoted(x, r2);
                lemma_pair_in_context(crate::tags::lit_key_name(), seq![34u8] + x + seq![34u8], x, r2);
                assert(part + r2 =~= crate::tags::lit_key_name() + seq![61u8] + (seq![34u8] + x + seq![34u8]) + r2);
            }
            lemma_parts_decode_push(parts2, decoded2, tail, part, (crate::tags::lit_key_name(), x));
            (parts2.push(part), decoded2.push((crate::tags::lit_key_name(), x)))
        },
        None => (parts2, decoded2),
    };
    assert(parts3 == crate::model::part_quoted(parts2, crate::tags::lit_key_name(), m.name));
    assert(decoded3 == dec_field(decoded2, crate::tags::lit_key_name(), m.name));
    assert(parts_decode(parts3, decoded3, tail));
    assert(forall|i: int| 0 <= i < parts3.len() ==> #[trigger] parts3[i].len() >= 1);
    let (parts4, decoded4) = match m.language {
        Some(x) => {
            let part = crate::tags::lit_key_language() + seq![61u8, 34u8] + x + seq![34u8];
            assert forall|r2: Seq<u8>| r2.len() == 0 || r2[0] == 44 || r2 == tail implies #[trigger] crate::model::sp_pair(
                part + r2,
            ) == Some((part.len() as int, (crate::tags::lit_key_language(), x))) by {
                lemma_value_quoted(x, r2);
                lemma_pair_in_context(crate::tags::lit_key_language(), seq![34u8] + x + seq![34u8], x, r2);
                assert(part + r2 =~= crate::tags::lit_key_language() + seq![61u8] + (seq![34u8] + x + seq![34u8]) + r2);
            }
            lemma_parts_decode_push(parts3, decoded3, tail, part, (crate::tags::lit_key_language(), x));
            (parts3.push(part), decoded3.push((crate::tags::lit_key_language(), x)))
        },
        None => (parts3, decoded3),
    };
    assert(parts4 == crate::model::part_quoted(parts3, crate::tags::lit_key_language(), m.language));
    assert(decoded4 == dec_field(decoded3, crate::tags::lit_key_language(), m.language));
    assert(parts_decode(parts4, decoded4, tail));
    assert(forall|i: int| 0 <= i < parts4.len() ==> #[trigger] parts4[i].len() >= 1);
    assert(parts4 == mt_parts_a(m));
    assert(decoded4 == mt_decoded_a(m));
}

/// All eight fields render to parts that read back as the decoded pairs.
#[verifier::rlimit(100)]
proof fn lemma_media_decode(m: SpecMediaTrack, tail: Seq<u8>)
    requires
        mt_wf(m),
        tail.len() == 0 || is_line_break(tail[0]),
    ensures
        parts_decode(crate::model::mt_parts(m), mt_decoded(m), tail),
        forall|i: int|
            0 <= i < crate::model::mt_parts(m).len() ==> #[trigger] crate::model::mt_parts(
                m,
            )[i].len() >= 1,
{
    lemma_key_lit_bytes();
    lemma_media_decode_a(m, tail);
    let parts4 = mt_parts_a(m);
    let decoded4 = mt_decoded_a(m);
    let tail = tail;
    let (parts5, decoded5) = match m.default {
        Some(x) => {
            let part = crate::tags::lit_key_default() + seq![61u8] + x;
            assert forall|r2: Seq<u8>| r2.len() == 0 || r2[0] == 44 || r2 == tail implies #[trigger] crate::model::sp_pair(
                part + r2,
            ) == Some((part.len() as int, (crate::tags::lit_key_default(), x))) by {
                lemma_value_plain(x, r2);
                lemma_pair_in_context(crate::tags::lit_key_default(), x, x, r2);
            }
            lemma_parts_decode_push(parts4, decoded4, tail, part, (crate::tags::lit_key_default(), x));
            (parts4.push(part), decoded4.push((crate::tags::lit_key_default(), x)))
        },
        None => (parts4, decoded4),
    };
    assert(parts5 == crate::model::part_plain(parts4, crate::tags::lit_key_default(), m.default));
    assert(decoded5 == dec_field(decoded4, crate::tags::lit_key_default(), m.default));
    assert(parts_decode(parts5, decoded5, tail));
    assert(forall|i: int| 0 <= i < parts5.len() ==> #[trigger] parts5[i].len() >= 1);
    let (parts6, decoded6) = match m.autoselect {
        Some(x) => {
            let part = crate::tags::lit_key_autoselect() + seq![61u8] + x;
            assert forall|r2: Seq<u8>| r2.len() == 0 || r2[0] == 44 || r2 == tail implies #[trigger] crate::model::sp_pair(
                part + r2,
            ) == Some((part.len() as int, (crate::tags::lit_key_autoselect(), x))) by {
                lemma_value_plain(x, r2);
                lemma_pair_in_context(crate::tags::lit_key_autoselect(), x, x, r2);
            }
            lemma_parts_decode_push(parts5, decoded5, tail, part, (crate::tags::lit_key_autoselect(), x));
            (parts5.push(part), decoded5.push((crate::tags::lit_key_autoselect(), x)))
        },
        None => (parts5, decoded5),
    };
    assert(parts6 == crate::model::part_plain(parts5, crate::tags::lit_key_autoselect(), m.autoselect));
    assert(decoded6 == dec_field(decoded5, crate::tags::lit_key_autoselect(), m.autoselect));
    assert(parts_decode(parts6, decoded6, tail));
    assert(forall|i: int| 0 <= i < parts6.len() ==> #[trigger] parts6[i].len() >= 1);
    let (parts7, decoded7) = match m.channels {
        Some(x) => {
            let part = crate::tags::lit_key_channels() + seq![61u8, 34u8] + x + seq![34u8];
            assert forall|r2: Seq<u8>| r2.len() == 0 || r2[0] == 44 || r2 == tail implies #[trigger] crate::model::sp_pair(
                part + r2,
            ) == Some((part.len() as int, (crate::tags::lit_key_channels(), x))) by {
                lemma_value_quoted(x, r2);
                lemma_pair_in_context(crate::tags::lit_key_channels(), seq![34u8] + x + seq![34u8], x, r2);
                assert(part + r2 =~= crate::tags::lit_key_channels() + seq![61u8] + (seq![34u8] + x + seq![34u8]) + r2);
            }
            lemma_parts_decode_push(parts6, decoded6, tail, part, (crate::tags::lit_key_channels(), x));
            (parts6.push(part), decoded6.push((crate::tags::lit_key_channels(), x)))
        },
        None => (parts6, decoded6),
    };
    assert(parts7 == crate::model::part_quoted(parts6, crate::tags::lit_key_channels(), m.channels));
    assert(decoded7 == dec_field(decoded6, crate::tags::lit_key_channels(), m.channels));
    assert(parts_decode(parts7, decoded7, tail));
    assert(forall|i: int| 0 <= i < parts7.len() ==> #[trigger] parts7[i].len() >= 1);
    let (parts8, decoded8) = match m.uri {
        Some(x) => {
            let part = crate::tags::lit_key_uri() + seq![61u8, 34u8] + x + seq![34u8];
            assert forall|r2: Seq<u8>| r2.len() == 0 || r2[0] == 44 || r2 == tail implies #[trigger] crate::model::sp_pair(
                part + r2,
            ) == Some((part.len() as int, (crate::tags::lit_key_uri(), x))) by {
                lemma_value_quoted(x, r2);
                lemma_pair_in_context(crate::tags::lit_key_uri(), seq![34u8] + x + seq![34u8], x, r2);
                assert(part + r2 =~= crate::tags::lit_key_uri() + seq![61u8] + (seq![34u8] + x + seq![34u8]) + r2);
            }
            lemma_parts_decode_push(parts7, decoded7, tail, part, (crate::tags::lit_key_uri(), x));
            (parts7.push(part), decoded7.push((crate::tags::lit_key_uri(), x)))
        },
        None => (parts7, decoded7),
    };
    assert(parts8 == crate::model::part_quoted(parts7, crate::tags::lit_key_uri(), m.uri));
    assert(decoded8 == dec_field(decoded7, crate::tags::lit_key_uri(), m.uri));
    assert(parts_decode(parts8, decoded8, tail));
    assert(forall|i: int| 0 <= i < parts8.len() ==> #[trigger] parts8[i].len() >= 1);
    assert(parts8 == crate::model::mt_parts(m));
    assert(decoded8 == mt_decoded(m));
}

/// Folding the decoded pairs rebuilds the media track.
#[verifier::rlimit(100)]
proof fn lemma_media_fold(m: SpecMediaTrack)
    requires
        mt_wf(m),
    ensures
        crate::model::mt_fold(mt_decoded(m), crate::model::mt_init()) == m,
{
    lemma_key_lit_distinct();
    let decoded0: Seq<(Seq<u8>, Seq<u8>)> = Seq::empty();
    let decoded1 = dec_field(decoded0, crate::tags::lit_key_type(), m.track_type);
    match m.track_type {
        Some(x) => {
            lemma_mt_fold_snoc(decoded0, (crate::tags::lit_key_type(), x), crate::model::mt_init());
        },
        None => {},
    }
    let decoded2 = dec_field(decoded1, crate::tags::lit_key_group_id(), m.group_id);
    match m.group_id {
        Some(x) => {
            lemma_mt_fold_snoc(decoded1, (crate::tags::lit_key_group_id(), x), crate::model::mt_init());
        },
        None => {},
    }
    let decoded3 = dec_field(decoded2, crate::tags::lit_key_name(), m.name);
    match m.name {
        Some(x) => {
            lemma_mt_fold_snoc(decoded2, (crate::tags::lit_key_name(), x), crate::model::mt_init());
        },
        None => {},
    }
    let decoded4 = dec_field(decoded3, crate::tags::lit_key_language(), m.language);
    match m.language {
        Some(x) => {
            lemma_mt_fold_snoc(decoded3, (crate::tags::lit_key_language(), x), crate::model::mt_init());
        },
        None => {},
    }
    let decoded5 = dec_field(decoded4, crate::tags::lit_key_default(), m.default);
    match m.default {
        Some(x) => {
            lemma_mt_fold_snoc(decoded4, (crate::tags::lit_key_default(), x), crate::model::mt_init());
        },
        None => {},
    }
    let decoded6 = dec_field(decoded5, crate::tags::lit_key_autoselect(), m.autoselect);
    match m.autoselect {
        Some(x) => {
            lemma_mt_fold_snoc(decoded5, (crate::tags::lit_key_autoselect(), x), crate::model::mt_init());
        },
        None => {},
    }
    let decoded7 = dec_field(decoded6, crate::tags::lit_key_channels(), m.channels);
    match m.channels {
        Some(x) => {
            lemma_mt_fold_snoc(decoded6, (crate::tags::lit_key_channels(), x), crate::model::mt_init());
        },
        None => {},
    }
    let decoded8 = dec_field(decoded7, crate::tags::lit_key_uri(), m.uri);
    match m.uri {
        Some(x) => {
            lemma_mt_fold_snoc(decoded7, (crate::tags::lit_key_uri(), x), crate::model::mt_init());
        },
        None => {},
    }
    assert(decoded8 == mt_decoded(m));
    assert(crate::model::mt_fold(decoded0, crate::model::mt_init()) == crate::model::mt_init());
    assert(crate::model::mt_fold(mt_decoded(m), crate::model::mt_init()) =~= m);
}

/// RECORD ROUND-TRIP: a well-formed media track's rendered line, before the
/// end of input or a line terminator, parses back to exactly that record.
#[verifier::rlimit(100)]
pub proof fn lemma_media_track_roundtrip(m: SpecMediaTrack, rest: Seq<u8>)
    requires
        mt_wf(m),
        rest.len() == 0 || is_line_break(rest[0]),
    ensures
        crate::model::sp_media_track(crate::model::ser_media_track(m) + rest) == Some(
            ((crate::model::ser_media_track(m).len()) as int, m),
        ),
{
    lemma_media_decode(m, rest);
    lemma_media_fold(m);
    let parts8 = crate::model::mt_parts(m);
    let decoded8 = mt_decoded(m);
    assert(parts8.len() >= 1) by {
        if m.track_type is None && m.group_id is None && m.name is None && m.language is None
            && m.default is None && m.autoselect is None && m.channels is None && m.uri
            is None {
            assert(false);
        }
    }
    let line = crate::model::ser_media_track(m);
    let w = line + rest;
    assert(w.take(crate::tags::lit_media_tag().len() as int) =~= crate::tags::lit_media_tag());
    assert(starts_with(w, crate::tags::lit_media_tag()));
    let t = w.skip(crate::tags::lit_media_tag().len() as int);
    assert(t =~= crate::model::join_comma(parts8) + rest);
    lemma_pairs_concat(parts8, decoded8, rest);
    assert(crate::model::sp_pairs(t) == Some(
        (crate::model::join_comma(parts8).len() as int, decoded8),
    ));
    assert(line.len() == crate::tags::lit_media_tag().len() + crate::model::join_comma(
        parts8,
    ).len());
}


/// A plain part of key bytes and a break-free body has no break.
pub proof fn lemma_part_no_breaks_plain(key: Seq<u8>, bdy: Seq<u8>)
    requires
        forall|k: int| 0 <= k < key.len() ==> is_key_byte(#[trigger] key[k]),
        no_breaks(bdy),
    ensures
        no_breaks(key + seq![61u8] + bdy),
{
    let w = key + seq![61u8] + bdy;
    assert forall|k: int| 0 <= k < w.len() implies !is_line_break(#[trigger] w[k]) by {
        if k < key.len() {
            assert(w[k] == key[k]);
        } else if k == key.len() {
            assert(w[k] == 61);
        } else {
            assert(w[k] == bdy[k - key.len() - 1]);
        }
    }
}

/// A quoted part of key bytes and a break-free content has no break.
pub proof fn lemma_part_no_breaks_quoted(key: Seq<u8>, x: Seq<u8>)
    requires
        forall|k: int| 0 <= k < key.len() ==> is_key_byte(#[trigger] key[k]),
        forall|k: int| 0 <= k < x.len() ==> !is_line_break(#[trigger] x[k]),
    ensures
        no_breaks(key + seq![61u8, 34u8] + x + seq![34u8]),
{
    let w = key + seq![61u8, 34u8] + x + seq![34u8];
    assert forall|k: int| 0 <= k < w.len() implies !is_line_break(#[trigger] w[k]) by {
        if k < key.len() {
            assert(w[k] == key[k]);
        } else if k == key.len() {
            assert(w[k] == 61);
        } else if k == key.len() + 1 {
            assert(w[k] == 34);
        } else if k < key.len() + 2 + x.len() {
            assert(w[k] == x[k - key.len() - 2]);
        } else {
            assert(w[k] == 34);
        }
    }
}

/// The decoded pair an optional integer field contributes.
pub open spec fn dec_u32_field(
    ds: Seq<(Seq<u8>, Seq<u8>)>,
    key: Seq<u8>,
    v: Option<u32>,
) -> Seq<(Seq<u8>, Seq<u8>)> {
    match v {
        Some(n) => ds.push((key, u32_bytes(n))),
        None => ds,
    }
}

/// The decoded pair an optional resolution field contributes.
pub open spec fn dec_res_field(
    ds: Seq<(Seq<u8>, Seq<u8>)>,
    key: Seq<u8>,
    v: Option<(u32, u32)>,
) -> Seq<(Seq<u8>, Seq<u8>)> {
    match v {
        Some(rp) => ds.push((key, resolution_bytes(rp))),
        None => ds,
    }
}

/// The decoded pair an optional frame-rate field contributes.
pub open spec fn dec_rate_field(
    ds: Seq<(Seq<u8>, Seq<u8>)>,
    key: Seq<u8>,
    v: Option<FrameRate>,
) -> Seq<(Seq<u8>, Seq<u8>)> {
    match v {
        Some(fr) => ds.push((key, rate_bytes(fr))),
        None => ds,
    }
}

/// The first half of a stream variant's decoded pairs.
pub open spec fn sv_decoded_a(v: SpecStreamVariant) -> Seq<(Seq<u8>, Seq<u8>)> {
    dec_res_field(
        dec_field(
            dec_u32_field(
                seq![(crate::tags::lit_key_bandwidth(), u32_bytes(v.bandwidth))],
                crate::tags::lit_key_average_bandwidth(),
                v.average_bandwidth,
            ),
            crate::tags::lit_key_codecs(),
            v.codecs,
        ),
        crate::tags::lit_key_resolution(),
        v.resolution,
    )
}

/// The first half of a stream variant's rendered parts.
pub open spec fn sv_parts_a(v: SpecStreamVariant) -> Seq<Seq<u8>> {
    let p = seq![crate::tags::lit_key_bandwidth() + seq![61u8] + u32_bytes(v.bandwidth)];
    let p = match v.average_bandwidth {
        Some(n) => p.push(crate::tags::lit_key_average_bandwidth() + seq![61u8] + u32_bytes(n)),
        None => p,
    };
    let p = crate::model::part_quoted(p, crate::tags::lit_key_codecs(), v.codecs);
    match v.resolution {
        Some(rp) => p.push(crate::tags::lit_key_resolution() + seq![61u8] + resolution_bytes(rp)),
        None => p,
    }
}

/// The pairs a stream variant's rendered attribute list reads back as.
pub open spec fn sv_decoded(v: SpecStreamVariant) -> Seq<(Seq<u8>, Seq<u8>)> {
    dec_field(
        dec_field(
            dec_field(
                dec_rate_field(sv_decoded_a(v), crate::tags::lit_key_frame_rate(), v.frame_rate),
                crate::tags::lit_key_video_range(),
                v.video_range,
            ),
            crate::tags::lit_key_audio(),
            v.audio,
        ),
        crate::tags::lit_key_closed_captions(),
        v.closed_captions,
    )
}

/// The pairs an I-frame stream's rendered attribute list reads back as.
pub open spec fn ifs_decoded(f: SpecIFrameStream) -> Seq<(Seq<u8>, Seq<u8>)> {
    dec_field(
        dec_res_field(
            dec_field(
                seq![(crate::tags::lit_key_bandwidth(), u32_bytes(f.bandwidth))],
                crate::tags::lit_key_codecs(),
                f.codecs,
            ),
            crate::tags::lit_key_resolution(),
            f.resolution,
        ),
        crate::tags::lit_key_video_range(),
        f.video_range,
    ).push(
        (crate::tags::lit_key_uri(), f.uri),
    )
}

/// An I-frame stream's parts read back as the decoded pairs.
#[verifier::rlimit(100)]
proof fn lemma_ifs_decode(f: SpecIFrameStream, tail: Seq<u8>)
    requires
        ifs_wf(f),
        tail.len() == 0 || is_line_break(tail[0]),
    ensures
        parts_decode(crate::model::ifs_parts(f), ifs_decoded(f), tail),
        forall|i: int|
            0 <= i < crate::model::ifs_parts(f).len() ==> #[trigger] crate::model::ifs_parts(
                f,
            )[i].len() >= 1,
        forall|i: int|
            0 <= i < crate::model::ifs_parts(f).len() ==> no_breaks(
                #[trigger] crate::model::ifs_parts(f)[i],
            ),
{
    lemma_key_lit_bytes();
    let bw_bdy = u32_bytes(f.bandwidth);
    let bw_part = crate::tags::lit_key_bandwidth() + seq![61u8] + bw_bdy;
    assert forall|r2: Seq<u8>| r2.len() == 0 || r2[0] == 44 || r2 == tail implies #[trigger] crate::model::sp_pair(
        bw_part + r2,
    ) == Some((bw_part.len() as int, (crate::tags::lit_key_bandwidth(), bw_bdy))) by {
        lemma_u32_bytes_plain(f.bandwidth);
        lemma_value_plain(bw_bdy, r2);
        lemma_pair_in_context(crate::tags::lit_key_bandwidth(), bw_bdy, bw_bdy, r2);
    }
    lemma_u32_bytes_plain(f.bandwidth);
    lemma_part_no_breaks_plain(crate::tags::lit_key_bandwidth(), bw_bdy);
    let parts0e: Seq<Seq<u8>> = Seq::empty();
    let decoded0e: Seq<(Seq<u8>, Seq<u8>)> = Seq::empty();
    assert(parts_decode(parts0e, decoded0e, tail));
    lemma_parts_decode_push(parts0e, decoded0e, tail, bw_part, (
        crate::tags::lit_key_bandwidth(),
        bw_bdy,
    ));
    let parts0 = parts0e.push(bw_part);
    let decoded0 = decoded0e.push((crate::tags::lit_key_bandwidth(), bw_bdy));
    assert(parts0 =~= seq![bw_part]);
    assert(decoded0 =~= seq![(crate::tags::lit_key_bandwidth(), bw_bdy)]);
    assert(parts_decode(parts0, decoded0, tail));
    assert(forall|i: int| 0 <= i < parts0.len() ==> #[trigger] parts0[i].len() >= 1);
    assert(forall|i: int| 0 <= i < parts0.len() ==> no_breaks(#[trigger] parts0[i]));
    let (parts1, decoded1) = match f.codecs {
        Some(x) => {
            let part = crate::tags::lit_key_codecs() + seq![61u8, 34u8] + x + seq![34u8];
            assert forall|r2: Seq<u8>| r2.len() == 0 || r2[0] == 44 || r2 == tail implies #[trigger] crate::model::sp_pair(
                part + r2,
            ) == Some((part.len() as int, (crate::tags::lit_key_codecs(), x))) by {
                lemma_value_quoted(x, r2);
                lemma_pair_in_context(crate::tags::lit_key_codecs(), seq![34u8] + x + seq![34u8], x, r2);
                assert(part + r2 =~= crate::tags::lit_key_codecs() + seq![61u8] + (seq![34u8] + x + seq![34u8]) + r2);
            }
            lemma_part_no_breaks_quoted(crate::tags::lit_key_codecs(), x);
            lemma_parts_decode_push(parts0, decoded0, tail, part, (crate::tags::lit_key_codecs(), x));
            (parts0.push(part), decoded0.push((crate::tags::lit_key_codecs(), x)))
        },
        None => (parts0, decoded0),
    };
    assert(parts_decode(parts1, decoded1, tail));
    assert(forall|i: int| 0 <= i < parts1.len() ==> #[trigger] parts1[i].len() >= 1);
    assert(forall|i: int| 0 <= i < parts1.len() ==> no_breaks(#[trigger] parts1[i]));
    let (parts2, decoded2) = match f.resolution {
        Some(rp) => {
            let bdy = resolution_bytes(rp);
            let part = crate::tags::lit_key_resolution() + seq![61u8] + bdy;
            assert forall|r2: Seq<u8>| r2.len() == 0 || r2[0] == 44 || r2 == tail implies #[trigger] crate::model::sp_pair(
                part + r2,
            ) == Some((part.len() as int, (crate::tags::lit_key_resolution(), bdy))) by {
                lemma_resolution_bytes_plain(rp);
                lemma_value_plain(bdy, r2);
                lemma_pair_in_context(crate::tags::lit_key_resolution(), bdy, bdy, r2);
            }
            lemma_resolution_bytes_plain(rp);
            lemma_part_no_breaks_plain(crate::tags::lit_key_resolution(), bdy);
            lemma_parts_decode_push(parts1, decoded1, tail, part, (crate::tags::lit_key_resolution(), bdy));
            (parts1.push(part), decoded1.push((crate::tags::lit_key_resolution(), bdy)))
        },
        None => (parts1, decoded1),
    };
    assert(parts_decode(parts2, decoded2, tail));
    assert(forall|i: int| 0 <= i < parts2.len() ==> #[trigger] parts2[i].len() >= 1);
    assert(forall|i: int| 0 <= i < parts2.len() ==> no_breaks(#[trigger] parts2[i]));
    let (parts3, decoded3) = match f.video_range {
        Some(x) => {
            let part = crate::tags::lit_key_video_range() + seq![61u8] + x;
            assert forall|r2: Seq<u8>| r2.len() == 0 || r2[0] == 44 || r2 == tail implies #[trigger] crate::model::sp_pair(
                part + r2,
            ) == Some((part.len() as int, (crate::tags::lit_key_video_range(), x))) by {
                lemma_value_plain(x, r2);
                lemma_pair_in_context(crate::tags::lit_key_video_range(), x, x, r2);
            }
            lemma_part_no_breaks_plain(crate::tags::lit_key_video_range(), x);
            lemma_parts_decode_push(parts2, decoded2, tail, part, (crate::tags::lit_key_video_range(), x));
            (parts2.push(part), decoded2.push((crate::tags::lit_key_video_range(), x)))
        },
        None => (parts2, decoded2),
    };
    assert(parts_decode(parts3, decoded3, tail));
    assert(forall|i: int| 0 <= i < parts3.len() ==> #[trigger] parts3[i].len() >= 1);
    assert(forall|i: int| 0 <= i < parts3.len() ==> no_breaks(#[trigger] parts3[i]));
    // The mandatory inline URI part.
    let uri_part = crate::tags::lit_key_uri() + seq![61u8, 34u8] + f.uri + seq![34u8];
    assert forall|r2: Seq<u8>| r2.len() == 0 || r2[0] == 44 || r2 == tail implies #[trigger] crate::model::sp_pair(
        uri_part + r2,
    ) == Some((uri_part.len() as int, (crate::tags::lit_key_uri(), f.uri))) by {
        lemma_value_quoted(f.uri, r2);
        lemma_pair_in_context(crate::tags::lit_key_uri(), seq![34u8] + f.uri + seq![34u8], f.uri, r2);
        assert(uri_part + r2 =~= crate::tags::lit_key_uri() + seq![61u8] + (seq![34u8] + f.uri
            + seq![34u8]) + r2);
    }
    lemma_part_no_breaks_quoted(crate::tags::lit_key_uri(), f.uri);
    lemma_parts_decode_push(parts3, decoded3, tail, uri_part, (crate::tags::lit_key_uri(), f.uri));
    let parts4 = parts3.push(uri_part);
    let decoded4 = decoded3.push((crate::tags::lit_key_uri(), f.uri));
    assert(parts_decode(parts4, decoded4, tail));
    assert(forall|i: int| 0 <= i < parts4.len() ==> #[trigger] parts4[i].len() >= 1);
    assert(forall|i: int| 0 <= i < parts4.len() ==> no_breaks(#[trigger] parts4[i]));
    assert(parts4 == crate::model::ifs_parts(f));
    assert(decoded4 == ifs_decoded(f));
}

/// Folding the decoded pairs rebuilds the I-frame stream.
#[verifier::rlimit(100)]
proof fn lemma_ifs_fold(f: SpecIFrameStream)
    requires
        ifs_wf(f),
    ensures
        crate::model::ifs_fold(ifs_decoded(f), crate::model::ifs_init()) == f,
{
    lemma_u32_roundtrip(f.bandwidth);
    let d0: Seq<(Seq<u8>, Seq<u8>)> = seq![
        (crate::tags::lit_key_bandwidth(), u32_bytes(f.bandwidth)),
    ];
    lemma_ifs_fold_snoc(
        Seq::<(Seq<u8>, Seq<u8>)>::empty(),
        (crate::tags::lit_key_bandwidth(), u32_bytes(f.bandwidth)),
        crate::model::ifs_init(),
    );
    assert(Seq::<(Seq<u8>, Seq<u8>)>::empty().push(
        (crate::tags::lit_key_bandwidth(), u32_bytes(f.bandwidth)),
    ) =~= d0);
    let d1 = dec_field(d0, crate::tags::lit_key_codecs(), f.codecs);
    match f.codecs {
        Some(x) => {
            lemma_ifs_fold_snoc(d0, (crate::tags::lit_key_codecs(), x), crate::model::ifs_init());
        },
        None => {},
    }
    let d2 = dec_res_field(d1, crate::tags::lit_key_resolution(), f.resolution);
    match f.resolution {
        Some(rp) => {
            lemma_resolution_roundtrip(rp);
            lemma_ifs_fold_snoc(
                d1,
                (crate::tags::lit_key_resolution(), resolution_bytes(rp)),
                crate::model::ifs_init(),
            );
        },
        None => {},
    }
    let d3 = dec_field(d2, crate::tags::lit_key_video_range(), f.video_range);
    match f.video_range {
        Some(x) => {
            lemma_ifs_fold_snoc(
                d2,
                (crate::tags::lit_key_video_range(), x),
                crate::model::ifs_init(),
            );
        },
        None => {},
    }
    let d4 = d3.push((crate::tags::lit_key_uri(), f.uri));
    lemma_ifs_fold_snoc(d3, (crate::tags::lit_key_uri(), f.uri), crate::model::ifs_init());
    assert(d4 == ifs_decoded(f));
    assert(crate::model::ifs_fold(ifs_decoded(f), crate::model::ifs_init()) =~= f);
}

/// RECORD ROUND-TRIP: a well-formed I-frame stream's rendered line, before
/// the end of input or a line feed, parses back to exactly that record.
#[verifier::rlimit(100)]
pub proof fn lemma_iframe_stream_roundtrip(f: SpecIFrameStream, rest: Seq<u8>)
    requires
        ifs_wf(f),
        rest.len() == 0 || rest[0] == 10,
    ensures
        crate::model::sp_iframe_stream(crate::model::ser_iframe_stream(f) + rest) == Some(
            ((crate::model::ser_iframe_stream(f).len()) as int, f),
        ),
{
    let sect_tail: Seq<u8> = Seq::empty();
    lemma_ifs_decode(f, sect_tail);
    lemma_ifs_fold(f);
    let parts = crate::model::ifs_parts(f);
    let decoded = ifs_decoded(f);
    assert(parts.len() >= 1);
    let join = crate::model::join_comma(parts);
    lemma_join_comma_no_breaks(parts);
    let ser = crate::model::ser_iframe_stream(f);
    let w = ser + rest;
    assert(w.take(crate::tags::lit_iframe_tag().len() as int) =~= crate::tags::lit_iframe_tag());
    assert(starts_with(w, crate::tags::lit_iframe_tag()));
    let t = w.skip(crate::tags::lit_iframe_tag().len() as int);
    assert(t =~= join + rest);
    assert forall|k: int| 0 <= k < join.len() implies !(scan_pred(ScanKind::LineBreak))(
        #[trigger] t[k],
    ) by {
        assert(t[k] == join[k]);
    }
    if (join.len() as int) < t.len() {
        assert(t[join.len() as int] == rest[0]);
    }
    lemma_seq_first_is(t, scan_pred(ScanKind::LineBreak), join.len() as int);
    assert(crate::model::sp_line_len(t) == Some(join.len() as int));
    assert(t.take(join.len() as int) =~= join);
    assert(join + sect_tail =~= join);
    lemma_pairs_concat(parts, decoded, sect_tail);
    assert(ser.len() == crate::tags::lit_iframe_tag().len() + join.len());
}

/// The first half of a stream variant's parts reads back as its pairs.
#[verifier::rlimit(100)]
proof fn lemma_sv_decode_a(v: SpecStreamVariant, tail: Seq<u8>)
    requires
        sv_wf(v),
        tail.len() == 0 || is_line_break(tail[0]),
    ensures
        parts_decode(sv_parts_a(v), sv_decoded_a(v), tail),
        forall|i: int| 0 <= i < sv_parts_a(v).len() ==> #[trigger] sv_parts_a(v)[i].len() >= 1,
        forall|i: int| 0 <= i < sv_parts_a(v).len() ==> no_breaks(#[trigger] sv_parts_a(v)[i]),
{
    lemma_key_lit_bytes();
    let bw_bdy = u32_bytes(v.bandwidth);
    let bw_part = crate::tags::lit_key_bandwidth() + seq![61u8] + bw_bdy;
    assert forall|r2: Seq<u8>| r2.len() == 0 || r2[0] == 44 || r2 == tail implies #[trigger] crate::model::sp_pair(
        bw_part + r2,
    ) == Some((bw_part.len() as int, (crate::tags::lit_key_bandwidth(), bw_bdy))) by {
        lemma_u32_bytes_plain(v.bandwidth);
        lemma_value_plain(bw_bdy, r2);
        lemma_pair_in_context(crate::tags::lit_key_bandwidth(), bw_bdy, bw_bdy, r2);
    }
    lemma_u32_bytes_plain(v.bandwidth);
    lemma_part_no_breaks_plain(crate::tags::lit_key_bandwidth(), bw_bdy);
    let parts0e: Seq<Seq<u8>> = Seq::empty();
    let decoded0e: Seq<(Seq<u8>, Seq<u8>)> = Seq::empty();
    assert(parts_decode(parts0e, decoded0e, tail));
    lemma_parts_decode_push(parts0e, decoded0e, tail, bw_part, (
        crate::tags::lit_key_bandwidth(),
        bw_bdy,
    ));
    let parts0 = parts0e.push(bw_part);
    let decoded0 = decoded0e.push((crate::tags::lit_key_bandwidth(), bw_bdy));
    assert(parts0 =~= seq![bw_part]);
    assert(decoded0 =~= seq![(crate::tags::lit_key_bandwidth(), bw_bdy)]);
    assert(parts_decode(parts0, decoded0, tail));
    assert(forall|i: int| 0 <= i < parts0.len() ==> #[trigger] parts0[i].len() >= 1);
    assert(forall|i: int| 0 <= i < parts0.len() ==> no_breaks(#[trigger] parts0[i]));
    let (parts1, decoded1) = match v.average_bandwidth {
        Some(n) => {
            let bdy = u32_bytes(n);
            let part = crate::tags::lit_key_average_bandwidth() + seq![61u8] + bdy;
            assert forall|r2: Seq<u8>| r2.len() == 0 || r2[0] == 44 || r2 == tail implies #[trigger] crate::model::sp_pair(
                part + r2,
            ) == Some((part.len() as int, (crate::tags::lit_key_average_bandwidth(), bdy))) by {
                lemma_u32_bytes_plain(n);
                lemma_value_plain(bdy, r2);
                lemma_pair_in_context(crate::tags::lit_key_average_bandwidth(), bdy, bdy, r2);
            }
            lemma_u32_bytes_plain(n);
            lemma_part_no_breaks_plain(crate::tags::lit_key_average_bandwidth(), bdy);
            lemma_parts_decode_push(parts0, decoded0, tail, part, (crate::tags::lit_key_average_bandwidth(), bdy));
            (parts0.push(part), decoded0.push((crate::tags::lit_key_average_bandwidth(), bdy)))
        },
        None => (parts0, decoded0),
    };
    assert(parts_decode(parts1, decoded1, tail));
    assert(forall|i: int| 0 <= i < parts1.len() ==> #[trigger] parts1[i].len() >= 1);
    assert(forall|i: int| 0 <= i < parts1.len() ==> no_breaks(#[trigger] parts1[i]));
    let (parts2, decoded2) = match v.codecs {
        Some(x) => {
            let part = crate::tags::lit_key_codecs() + seq![61u8, 34u8] + x + seq![34u8];
            assert forall|r2: Seq<u8>| r2.len() == 0 || r2[0] == 44 || r2 == tail implies #[trigger] crate::model::sp_pair(
                part + r2,
            ) == Some((part.len() as int, (crate::tags::lit_key_codecs(), x))) by {
                lemma_value_quoted(x, r2);
                lemma_pair_in_context(crate::tags::lit_key_codecs(), seq![34u8] + x + seq![34u8], x, r2);
                assert(part + r2 =~= crate::tags::lit_key_codecs() + seq![61u8] + (seq![34u8] + x + seq![34u8]) + r2);
            }
            lemma_part_no_breaks_quoted(crate::tags::lit_key_codecs(), x);
            lemma_parts_decode_push(parts1, decoded1, tail, part, (crate::tags::lit_key_codecs(), x));
            (parts1.push(part), decoded1.push((crate::tags::lit_key_codecs(), x)))
        },
        None => (parts1, decoded1),
    };
    assert(parts_decode(parts2, decoded2, tail));
    assert(forall|i: int| 0 <= i < parts2.len() ==> #[trigger] parts2[i].len() >= 1);
    assert(forall|i: int| 0 <= i < parts2.len() ==> no_breaks(#[trigger] parts2[i]));
    let (parts3, decoded3) = match v.resolution {
        Some(rp) => {
            let bdy = resolution_bytes(rp);
            let part = crate::tags::lit_key_resolution() + seq![61u8] + bdy;
            assert forall|r2: Seq<u8>| r2.len() == 0 || r2[0] == 44 || r2 == tail implies #[trigger] crate::model::sp_pair(
                part + r2,
            ) == Some((part.len() as int, (crate::tags::lit_key_resolution(), bdy))) by {
                lemma_resolution_bytes_plain(rp);
                lemma_value_plain(bdy, r2);
                lemma_pair_in_context(crate::tags::lit_key_resolution(), bdy, bdy, r2);
            }
            lemma_resolution_bytes_plain(rp);
            lemma_part_no_breaks_plain(crate::tags::lit_key_resolution(), bdy);
            lemma_parts_decode_push(parts2, decoded2, tail, part, (crate::tags::lit_key_resolution(), bdy));
            (parts2.push(part), decoded2.push((crate::tags::lit_key_resolution(), bdy)))
        },
        None => (parts2, decoded2),
    };
    assert(parts_decode(parts3, decoded3, tail));
    assert(forall|i: int| 0 <= i < parts3.len() ==> #[trigger] parts3[i].len() >= 1);
    assert(forall|i: int| 0 <= i < parts3.len() ==> no_breaks(#[trigger] parts3[i]));
    assert(parts3 == sv_parts_a(v));
    assert(decoded3 == sv_decoded_a(v));
}

/// All of a stream variant's parts read back as the decoded pairs.
#[verifier::rlimit(100)]
proof fn lemma_sv_decode(v: SpecStreamVariant, tail: Seq<u8>)
    requires
        sv_wf(v),
        tail.len() == 0 || is_line_break(tail[0]),
    ensures
        parts_decode(crate::model::sv_parts(v), sv_decoded(v), tail),
        forall|i: int|
            0 <= i < crate::model::sv_parts(v).len() ==> #[trigger] crate::model::sv_parts(
                v,
            )[i].len() >= 1,
        forall|i: int|
            0 <= i < crate::model::sv_parts(v).len() ==> no_breaks(
                #[trigger] crate::model::sv_parts(v)[i],
            ),
{
    lemma_key_lit_bytes();
    lemma_sv_decode_a(v, tail);
    let parts3 = sv_parts_a(v);
    let decoded3 = sv_decoded_a(v);
    let tail = tail;
    let (parts4, decoded4) = match v.frame_rate {
        Some(fr) => {
            let bdy = rate_bytes(fr);
            let part = crate::tags::lit_key_frame_rate() + seq![61u8] + bdy;
            assert forall|r2: Seq<u8>| r2.len() == 0 || r2[0] == 44 || r2 == tail implies #[trigger] crate::model::sp_pair(
                part + r2,
            ) == Some((part.len() as int, (crate::tags::lit_key_frame_rate(), bdy))) by {
                lemma_rate_bytes_plain(fr);
                lemma_value_plain(bdy, r2);
                lemma_pair_in_context(crate::tags::lit_key_frame_rate(), bdy, bdy, r2);
            }
            lemma_rate_bytes_plain(fr);
            lemma_part_no_breaks_plain(crate::tags::lit_key_frame_rate(), bdy);
            lemma_parts_decode_push(parts3, decoded3, tail, part, (crate::tags::lit_key_frame_rate(), bdy));
            (parts3.push(part), decoded3.push((crate::tags::lit_key_frame_rate(), bdy)))
        },
        None => (parts3, decoded3),
    };
    assert(parts_decode(parts4, decoded4, tail));
    assert(forall|i: int| 0 <= i < parts4.len() ==> #[trigger] parts4[i].len() >= 1);
    assert(forall|i: int| 0 <= i < parts4.len() ==> no_breaks(#[trigger] parts4[i]));
    let (parts5, decoded5) = match v.video_range {
        Some(x) => {
            let part = crate::tags::lit_key_video_range() + seq![61u8] + x;
            assert forall|r2: Seq<u8>| r2.len() == 0 || r2[0] == 44 || r2 == tail implies #[trigger] crate::model::sp_pair(
                part + r2,
            ) == Some((part.len() as int, (crate::tags::lit_key_video_range(), x))) by {
                lemma_value_plain(x, r2);
                lemma_pair_in_context(crate::tags::lit_key_video_range(), x, x, r2);
            }
            lemma_part_no_breaks_plain(crate::tags::lit_key_video_range(), x);
            lemma_parts_decode_push(parts4, decoded4, tail, part, (crate::tags::lit_key_video_range(), x));
            (parts4.push(part), decoded4.push((crate::tags::lit_key_video_range(), x)))
        },
        None => (parts4, decoded4),
    };
    assert(parts_decode(parts5, decoded5, tail));
    assert(forall|i: int| 0 <= i < parts5.len() ==> #[trigger] parts5[i].len() >= 1);
    assert(forall|i: int| 0 <= i < parts5.len() ==> no_breaks(#[trigger] parts5[i]));
    let (parts6, decoded6) = match v.audio {
        Some(x) => {
            let part = crate::tags::lit_key_audio() + seq![61u8, 34u8] + x + seq![34u8];
            assert forall|r2: Seq<u8>| r2.len() == 0 || r2[0] == 44 || r2 == tail implies #[trigger] crate::model::sp_pair(
                part + r2,
            ) == Some((part.len() as int, (crate::tags::lit_key_audio(), x))) by {
                lemma_value_quoted(x, r2);
                lemma_pair_in_context(crate::tags::lit_key_audio(), seq![34u8] + x + seq![34u8], x, r2);
                assert(part + r2 =~= crate::tags::lit_key_audio() + seq![61u8] + (seq![34u8] + x + seq![34u8]) + r2);
            }
            lemma_part_no_breaks_quoted(crate::tags::lit_key_audio(), x);
            lemma_parts_decode_push(parts5, decoded5, tail, part, (crate::tags::lit_key_audio(), x));
            (parts5.push(part), decoded5.push((crate::tags::lit_key_audio(), x)))
        },
        None => (parts5, decoded5),
    };
    assert(parts_decode(parts6, decoded6, tail));
    assert(forall|i: int| 0 <= i < parts6.len() ==> #[trigger] parts6[i].len() >= 1);
    assert(forall|i: int| 0 <= i < parts6.len() ==> no_breaks(#[trigger] parts6[i]));
    let (parts7, decoded7) = match v.closed_captions {
        Some(x) => {
            let part = crate::tags::lit_key_closed_captions() + seq![61u8] + x;
            assert forall|r2: Seq<u8>| r2.len() == 0 || r2[0] == 44 || r2 == tail implies #[trigger] crate::model::sp_pair(
                part + r2,
            ) == Some((part.len() as int, (crate::tags::lit_key_closed_captions(), x))) by {
                lemma_value_plain(x, r2);
                lemma_pair_in_context(crate::tags::lit_key_closed_captions(), x, x, r2);
            }
            lemma_part_no_breaks_plain(crate::tags::lit_key_closed_captions(), x);
            lemma_parts_decode_push(parts6, decoded6, tail, part, (crate::tags::lit_key_closed_captions(), x));
            (parts6.push(part), decoded6.push((crate::tags::lit_key_closed_captions(), x)))
        },
        None => (parts6, decoded6),
    };
    assert(parts_decode(parts7, decoded7, tail));
    assert(forall|i: int| 0 <= i < parts7.len() ==> #[trigger] parts7[i].len() >= 1);
    assert(forall|i: int| 0 <= i < parts7.len() ==> no_breaks(#[trigger] parts7[i]));
    assert(parts7 == crate::model::sv_parts(v));
    assert(decoded7 == sv_decoded(v));
}

/// Folding the decoded pairs rebuilds the stream variant, its URI left for
/// the following line.
#[verifier::rlimit(100)]
proof fn lemma_sv_fold(v: SpecStreamVariant)
    requires
        sv_wf(v),
    ensures
        crate::model::sv_fold(sv_decoded(v), crate::model::sv_init()) == (SpecStreamVariant {
            uri: Seq::empty(),
            ..v
        }),
{
    lemma_key_lit_distinct();
    lemma_u32_roundtrip(v.bandwidth);
    let d0: Seq<(Seq<u8>, Seq<u8>)> = seq![
        (crate::tags::lit_key_bandwidth(), u32_bytes(v.bandwidth)),
    ];
    assert(d0.drop_last() =~= Seq::<(Seq<u8>, Seq<u8>)>::empty());
    lemma_sv_fold_snoc(
        Seq::<(Seq<u8>, Seq<u8>)>::empty(),
        (crate::tags::lit_key_bandwidth(), u32_bytes(v.bandwidth)),
        crate::model::sv_init(),
    );
    assert(Seq::<(Seq<u8>, Seq<u8>)>::empty().push(
        (crate::tags::lit_key_bandwidth(), u32_bytes(v.bandwidth)),
    ) =~= d0);
    let d1 = dec_u32_field(d0, crate::tags::lit_key_average_bandwidth(), v.average_bandwidth);
    match v.average_bandwidth {
        Some(n) => {
            lemma_u32_roundtrip(n);
            lemma_sv_fold_snoc(
                d0,
                (crate::tags::lit_key_average_bandwidth(), u32_bytes(n)),
                crate::model::sv_init(),
            );
        },
        None => {},
    }
    let d2 = dec_field(d1, crate::tags::lit_key_codecs(), v.codecs);
    match v.codecs {
        Some(x) => {
            lemma_sv_fold_snoc(d1, (crate::tags::lit_key_codecs(), x), crate::model::sv_init());
        },
        None => {},
    }
    let d3 = dec_res_field(d2, crate::tags::lit_key_resolution(), v.resolution);
    match v.resolution {
        Some(rp) => {
            lemma_resolution_roundtrip(rp);
            lemma_sv_fold_snoc(
                d2,
                (crate::tags::lit_key_resolution(), resolution_bytes(rp)),
                crate::model::sv_init(),
            );
        },
        None => {},
    }
    let d4 = dec_rate_field(d3, crate::tags::lit_key_frame_rate(), v.frame_rate);
    match v.frame_rate {
        Some(fr) => {
            lemma_rate_roundtrip(fr);
            lemma_sv_fold_snoc(
                d3,
                (crate::tags::lit_key_frame_rate(), rate_bytes(fr)),
                crate::model::sv_init(),
            );
        },
        None => {},
    }
    let d5 = dec_field(d4, crate::tags::lit_key_video_range(), v.video_range);
    match v.video_range {
        Some(x) => {
            lemma_sv_fold_snoc(
                d4,
                (crate::tags::lit_key_video_range(), x),
                crate::model::sv_init(),
            );
        },
        None => {},
    }
    let d6 = dec_field(d5, crate::tags::lit_key_audio(), v.audio);
    match v.audio {
        Some(x) => {
            lemma_sv_fold_snoc(d5, (crate::tags::lit_key_audio(), x), crate::model::sv_init());
        },
        None => {},
    }
    let d7 = dec_field(d6, crate::tags::lit_key_closed_captions(), v.closed_captions);
    match v.closed_captions {
        Some(x) => {
            lemma_sv_fold_snoc(
                d6,
                (crate::tags::lit_key_closed_captions(), x),
                crate::model::sv_init(),
            );
        },
        None => {},
    }
    assert(d7 == sv_decoded(v));
    assert(crate::model::sv_fold(sv_decoded(v), crate::model::sv_init()) =~= SpecStreamVariant {
        uri: Seq::empty(),
        ..v
    });
}

/// RECORD ROUND-TRIP: a well-formed stream variant's rendered block, before
/// the end of input or a line feed, parses back to exactly that record.
#[verifier::rlimit(100)]
pub proof fn lemma_stream_variant_roundtrip(v: SpecStreamVariant, rest: Seq<u8>)
    requires
        sv_wf(v),
        rest.len() == 0 || rest[0] == 10,
    ensures
        crate::model::sp_stream_variant(crate::model::ser_stream_variant(v) + rest) == Some(
            ((crate::model::ser_stream_variant(v).len()) as int, v),
        ),
{
    let sect_tail: Seq<u8> = Seq::empty();
    lemma_sv_decode(v, sect_tail);
    lemma_sv_fold(v);
    let parts = crate::model::sv_parts(v);
    let decoded = sv_decoded(v);
    assert(parts.len() >= 1);
    let join = crate::model::join_comma(parts);
    lemma_join_comma_no_breaks(parts);
    let ser = crate::model::ser_stream_variant(v);
    let w = ser + rest;
    assert(w.take(crate::tags::lit_stream_tag().len() as int) =~= crate::tags::lit_stream_tag());
    assert(starts_with(w, crate::tags::lit_stream_tag()));
    let t = w.skip(crate::tags::lit_stream_tag().len() as int);
    assert(t =~= join + seq![10u8] + v.uri + rest);
    // The tag line ends exactly at the rendered terminator.
    assert forall|k: int| 0 <= k < join.len() implies !(scan_pred(ScanKind::LineBreak))(
        #[trigger] t[k],
    ) by {
        assert(t[k] == join[k]);
    }
    assert(t[join.len() as int] == 10);
    lemma_seq_first_is(t, scan_pred(ScanKind::LineBreak), join.len() as int);
    assert(crate::model::sp_line_len(t) == Some(join.len() as int));
    assert(t.take(join.len() as int) =~= join);
    assert(join + sect_tail =~= join);
    lemma_pairs_concat(parts, decoded, sect_tail);
    assert(crate::model::sp_pairs(t.take(join.len() as int)) == Some(
        (join.len() as int, decoded),
    ));
    assert(t.skip(join.len() as int)[0] == 10);
    assert(crate::model::sp_line_ending(t.skip(join.len() as int)) == Some(1int));
    let u = t.skip(join.len() + 1int);
    assert(u =~= v.uri + rest);
    assert forall|k: int| 0 <= k < v.uri.len() implies !(scan_pred(ScanKind::LineBreak))(
        #[trigger] u[k],
    ) by {
        assert(u[k] == v.uri[k]);
    }
    if v.uri.len() < u.len() {
        assert(u[v.uri.len() as int] == rest[0]);
    }
    lemma_seq_first_is(u, scan_pred(ScanKind::LineBreak), v.uri.len() as int);
    assert(crate::model::sp_line_len(u) == Some(v.uri.len() as int));
    assert(u.take(v.uri.len() as int) =~= v.uri);
    assert(ser.len() == crate::tags::lit_stream_tag().len() + join.len() + 1 + v.uri.len());
    assert(t.skip(join.len() as int) =~= t.skip(join.len() as int));
    assert(SpecStreamVariant {
        uri: u.take(v.uri.len() as int),
        ..crate::model::sv_fold(decoded, crate::model::sv_init())
    } =~= v);
}


// ------------------------------------------------------------------
// Sections and the whole document
// ------------------------------------------------------------------

/// A line that opens with the media tag matches neither of the other two
/// recognized prefixes.
proof fn lemma_media_line_prefixes(w: Seq<u8>)
    requires
        starts_with(w, crate::tags::lit_media_tag()),
    ensures
        starts_with(w, crate::tags::lit_media_tag().drop_last()),
        !starts_with(w, crate::tags::lit_iframe_tag().drop_last()),
        !starts_with(w, crate::tags::lit_stream_tag().drop_last()),
{
    let m = crate::tags::lit_media_tag();
    assert(w.take(m.len() as int) == m);
    assert forall|k: int| 0 <= k < m.len() implies w[k] == m[k] by {
        assert(w.take(m.len() as int)[k] == w[k]);
    }
    assert(w.take(m.drop_last().len() as int) =~= m.drop_last());
    if starts_with(w, crate::tags::lit_iframe_tag().drop_last()) {
        assert(w.take(crate::tags::lit_iframe_tag().drop_last().len() as int)[7] == w[7]);
        assert(w[7] == crate::tags::lit_iframe_tag().drop_last()[7]);
        assert(false);
    }
    if starts_with(w, crate::tags::lit_stream_tag().drop_last()) {
        assert(w.take(crate::tags::lit_stream_tag().drop_last().len() as int)[7] == w[7]);
        assert(w[7] == crate::tags::lit_stream_tag().drop_last()[7]);
        assert(false);
    }
}

/// A line that opens with the stream tag does not match the I-frame prefix.
proof fn lemma_stream_line_prefixes(w: Seq<u8>)
    requires
        starts_with(w, crate::tags::lit_stream_tag()),
    ensures
        starts_with(w, crate::tags::lit_stream_tag().drop_last()),
        !starts_with(w, crate::tags::lit_iframe_tag().drop_last()),
{
    let m = crate::tags::lit_stream_tag();
    assert(w.take(m.len() as int) == m);
    assert forall|k: int| 0 <= k < m.len() implies w[k] == m[k] by {
        assert(w.take(m.len() as int)[k] == w[k]);
    }
    assert(w.take(m.drop_last().len() as int) =~= m.drop_last());
    if starts_with(w, crate::tags::lit_iframe_tag().drop_last()) {
        assert(w.take(crate::tags::lit_iframe_tag().drop_last().len() as int)[7] == w[7]);
        assert(w[7] == crate::tags::lit_iframe_tag().drop_last()[7]);
        assert(false);
    }
}

/// A line that opens with the I-frame tag matches its own prefix.
proof fn lemma_iframe_line_prefixes(w: Seq<u8>)
    requires
        starts_with(w, crate::tags::lit_iframe_tag()),
    ensures
        starts_with(w, crate::tags::lit_iframe_tag().drop_last()),
{
    let m = crate::tags::lit_iframe_tag();
    assert(w.take(m.len() as int) == m);
    assert forall|k: int| 0 <= k < m.len() implies w[k] == m[k] by {
        assert(w.take(m.len() as int)[k] == w[k]);
    }
    assert(w.take(m.drop_last().len() as int) =~= m.drop_last());
}


/// Prepending a sequence's head to its tail plus `r` is the sequence plus `r`.
proof fn lemma_unshift<T>(xs: Seq<T>, r: Seq<T>)
    requires
        xs.len() >= 1,
    ensures
        seq![xs[0]] + (xs.skip(1) + r) == xs + r,
{
    assert(seq![xs[0]] + (xs.skip(1) + r) =~= xs + r);
}

/// Reassociates a block, its terminator and the rest of the text.
proof fn lemma_block_assoc(a: Seq<u8>, b: Seq<u8>, c: Seq<u8>)
    ensures
        (a + seq![10u8] + b) + c == a + (seq![10u8] + (b + c)),
{
    assert((a + seq![10u8] + b) + c =~= a + (seq![10u8] + (b + c)));
}

/// One rendered media block followed by a terminator and further body text
/// parses to that record prepended to what the rest parses to.
#[verifier::rlimit(100)]
proof fn lemma_media_one_block(
    r0: SpecMediaTrack,
    rest2: Seq<u8>,
    v0: Seq<SpecStreamVariant>,
    m0: Seq<SpecMediaTrack>,
    f0: Seq<SpecIFrameStream>,
)
    requires
        mt_wf(r0),
        sp_body(rest2) == Some((v0, m0, f0)),
    ensures
        sp_body(crate::model::ser_media_track(r0) + (seq![10u8] + rest2)) == Some(
            (v0, seq![r0] + m0, f0),
        ),
{
    let line = crate::model::ser_media_track(r0);
    let tail = seq![10u8] + rest2;
    let w = line + tail;
    assert(w.take(crate::tags::lit_media_tag().len() as int) =~= crate::tags::lit_media_tag());
    lemma_media_line_prefixes(w);
    lemma_media_track_roundtrip(r0, tail);
    assert(crate::model::sp_media_track(w) == Some((line.len() as int, r0)));
    assert(w.len() > 0);
    assert(w.skip(line.len() as int) =~= tail);
    assert(Seq::<u8>::empty() + seq![10u8] + rest2 =~= tail);
    lemma_unknown_line_skipped(Seq::empty(), rest2);
    assert(sp_body(tail) == sp_body(rest2));
}

/// One rendered variant block followed by a terminator and further body text
/// parses to that record prepended to what the rest parses to.
#[verifier::rlimit(100)]
proof fn lemma_variant_one_block(
    r0: SpecStreamVariant,
    rest2: Seq<u8>,
    v0: Seq<SpecStreamVariant>,
    m0: Seq<SpecMediaTrack>,
    f0: Seq<SpecIFrameStream>,
)
    requires
        sv_wf(r0),
        sp_body(rest2) == Some((v0, m0, f0)),
    ensures
        sp_body(crate::model::ser_stream_variant(r0) + (seq![10u8] + rest2)) == Some(
            (seq![r0] + v0, m0, f0),
        ),
{
    let line = crate::model::ser_stream_variant(r0);
    let tail = seq![10u8] + rest2;
    let w = line + tail;
    assert(w.take(crate::tags::lit_stream_tag().len() as int) =~= crate::tags::lit_stream_tag());
    lemma_stream_line_prefixes(w);
    lemma_stream_variant_roundtrip(r0, tail);
    assert(crate::model::sp_stream_variant(w) == Some((line.len() as int, r0)));
    assert(w.len() > 0);
    assert(w.skip(line.len() as int) =~= tail);
    assert(Seq::<u8>::empty() + seq![10u8] + rest2 =~= tail);
    lemma_unknown_line_skipped(Seq::empty(), rest2);
    assert(sp_body(tail) == sp_body(rest2));
}

/// One rendered I-frame block followed by a terminator and further body text
/// parses to that record prepended to what the rest parses to.
#[verifier::rlimit(100)]
proof fn lemma_iframe_one_block(
    r0: SpecIFrameStream,
    rest2: Seq<u8>,
    v0: Seq<SpecStreamVariant>,
    m0: Seq<SpecMediaTrack>,
    f0: Seq<SpecIFrameStream>,
)
    requires
        ifs_wf(r0),
        sp_body(rest2) == Some((v0, m0, f0)),
    ensures
        sp_body(crate::model::ser_iframe_stream(r0) + (seq![10u8] + rest2)) == Some(
            (v0, m0, seq![r0] + f0),
        ),
{
    let line = crate::model::ser_iframe_stream(r0);
    let tail = seq![10u8] + rest2;
    let w = line + tail;
    assert(w.take(crate::tags::lit_iframe_tag().len() as int) =~= crate::tags::lit_iframe_tag());
    lemma_iframe_line_prefixes(w);
    lemma_iframe_stream_roundtrip(r0, tail);
    assert(crate::model::sp_iframe_stream(w) == Some((line.len() as int, r0)));
    assert(w.len() > 0);
    assert(w.skip(line.len() as int) =~= tail);
    assert(Seq::<u8>::empty() + seq![10u8] + rest2 =~= tail);
    lemma_unknown_line_skipped(Seq::empty(), rest2);
    assert(sp_body(tail) == sp_body(rest2));
}

/// The rendered media section before further body text parses to its
/// records prepended to what the rest parses to.
#[verifier::rlimit(100)]
#[verifier::spinoff_prover]
pub proof fn lemma_body_media_seq(
    xs: Seq<SpecMediaTrack>,
    rest: Seq<u8>,
    v0: Seq<SpecStreamVariant>,
    m0: Seq<SpecMediaTrack>,
    f0: Seq<SpecIFrameStream>,
)
    requires
        forall|i: int| 0 <= i < xs.len() ==> mt_wf(#[trigger] xs[i]),
        sp_body(rest) == Some((v0, m0, f0)),
    ensures
        sp_body(crate::model::ser_media_seq(xs) + rest) == Some((v0, xs + m0, f0)),
    decreases xs.len(),
{
    if xs.len() == 0 {
        assert(crate::model::ser_media_seq(xs) + rest =~= rest);
        assert(xs + m0 =~= m0);
    } else {
        let rest2 = crate::model::ser_media_seq(xs.skip(1)) + rest;
        let w = crate::model::ser_media_seq(xs) + rest;
        assert forall|i: int| 0 <= i < xs.skip(1).len() implies mt_wf(#[trigger] xs.skip(1)[i]) by {
            assert(xs.skip(1)[i] == xs[i + 1]);
        }
        lemma_body_media_seq(xs.skip(1), rest, v0, m0, f0);
        lemma_media_one_block(xs[0], rest2, v0, xs.skip(1) + m0, f0);
        assert(crate::model::ser_media_seq(xs) == crate::model::ser_media_track(xs[0]) + seq![10u8]
            + crate::model::ser_media_seq(xs.skip(1)));
        lemma_block_assoc(
            crate::model::ser_media_track(xs[0]),
            crate::model::ser_media_seq(xs.skip(1)),
            rest,
        );
        assert(w == crate::model::ser_media_track(xs[0]) + (seq![10u8] + rest2));
        lemma_unshift(xs, m0);
    }
}

/// The rendered variant section before further body text parses to its
/// records prepended to what the rest parses to.
#[verifier::rlimit(100)]
#[verifier::spinoff_prover]
pub proof fn lemma_body_variant_seq(
    xs: Seq<SpecStreamVariant>,
    rest: Seq<u8>,
    v0: Seq<SpecStreamVariant>,
    m0: Seq<SpecMediaTrack>,
    f0: Seq<SpecIFrameStream>,
)
    requires
        forall|i: int| 0 <= i < xs.len() ==> sv_wf(#[trigger] xs[i]),
        sp_body(rest) == Some((v0, m0, f0)),
    ensures
        sp_body(crate::model::ser_variant_seq(xs) + rest) == Some((xs + v0, m0, f0)),
    decreases xs.len(),
{
    if xs.len() == 0 {
        assert(crate::model::ser_variant_seq(xs) + rest =~= rest);
        assert(xs + v0 =~= v0);
    } else {
        let rest2 = crate::model::ser_variant_seq(xs.skip(1)) + rest;
        let w = crate::model::ser_variant_seq(xs) + rest;
        assert forall|i: int| 0 <= i < xs.skip(1).len() implies sv_wf(#[trigger] xs.skip(1)[i]) by {
            assert(xs.skip(1)[i] == xs[i + 1]);
        }
        lemma_body_variant_seq(xs.skip(1), rest, v0, m0, f0);
        lemma_variant_one_block(xs[0], rest2, xs.skip(1) + v0, m0, f0);
        assert(crate::model::ser_variant_seq(xs) == crate::model::ser_stream_variant(xs[0]) + seq![10u8]
            + crate::model::ser_variant_seq(xs.skip(1)));
        lemma_block_assoc(
            crate::model::ser_stream_variant(xs[0]),
            crate::model::ser_variant_seq(xs.skip(1)),
            rest,
        );
        assert(w == crate::model::ser_stream_variant(xs[0]) + (seq![10u8] + rest2));
        lemma_unshift(xs, v0);
    }
}

/// The rendered I-frame section before further body text parses to its
/// records prepended to what the rest parses to.
#[verifier::rlimit(100)]
#[verifier::spinoff_prover]
pub proof fn lemma_body_iframe_seq(
    xs: Seq<SpecIFrameStream>,
    rest: Seq<u8>,
    v0: Seq<SpecStreamVariant>,
    m0: Seq<SpecMediaTrack>,
    f0: Seq<SpecIFrameStream>,
)
    requires
        forall|i: int| 0 <= i < xs.len() ==> ifs_wf(#[trigger] xs[i]),
        sp_body(rest) == Some((v0, m0, f0)),
    ensures
        sp_body(crate::model::ser_iframe_seq(xs) + rest) == Some((v0, m0, xs + f0)),
    decreases xs.len(),
{
    if xs.len() == 0 {
        assert(crate::model::ser_iframe_seq(xs) + rest =~= rest);
        assert(xs + f0 =~= f0);
    } else {
        let rest2 = crate::model::ser_iframe_seq(xs.skip(1)) + rest;
        let w = crate::model::ser_iframe_seq(xs) + rest;
        assert forall|i: int| 0 <= i < xs.skip(1).len() implies ifs_wf(#[trigger] xs.skip(1)[i]) by {
            assert(xs.skip(1)[i] == xs[i + 1]);
        }
        lemma_body_iframe_seq(xs.skip(1), rest, v0, m0, f0);
        lemma_iframe_one_block(xs[0], rest2, v0, m0, xs.skip(1) + f0);
        assert(crate::model::ser_iframe_seq(xs) == crate::model::ser_iframe_stream(xs[0]) + seq![10u8]
            + crate::model::ser_iframe_seq(xs.skip(1)));
        lemma_block_assoc(
            crate::model::ser_iframe_stream(xs[0]),
            crate::model::ser_iframe_seq(xs.skip(1)),
            rest,
        );
        assert(w == crate::model::ser_iframe_stream(xs[0]) + (seq![10u8] + rest2));
        lemma_unshift(xs, f0);
    }
}

/// The three rendered sections, each after a blank separator, parse to the
/// playlist's three collections.
#[verifier::rlimit(100)]
proof fn lemma_playlist_sections(p: SpecMasterPlaylist)
    requires
        playlist_wf(p),
    ensures
        sp_body(
            seq![10u8] + crate::model::ser_media_seq(p.media) + seq![10u8]
                + crate::model::ser_variant_seq(p.variants) + seq![10u8]
                + crate::model::ser_iframe_seq(p.frames),
        ) == Some((p.variants, p.media, p.frames)),
{
    let sections = seq![10u8] + crate::model::ser_media_seq(p.media) + seq![10u8]
        + crate::model::ser_variant_seq(p.variants) + seq![10u8] + crate::model::ser_iframe_seq(
        p.frames,
    );
    let after_media = seq![10u8] + crate::model::ser_variant_seq(p.variants) + seq![10u8]
        + crate::model::ser_iframe_seq(p.frames);
    let after_variants = seq![10u8] + crate::model::ser_iframe_seq(p.frames);
    let body0 = crate::model::ser_media_seq(p.media) + after_media;
    assert(Seq::<u8>::empty() + seq![10u8] + body0 =~= sections);
    lemma_unknown_line_skipped(Seq::empty(), body0);
    let body1 = crate::model::ser_variant_seq(p.variants) + after_variants;
    assert(Seq::<u8>::empty() + seq![10u8] + body1 =~= after_media);
    lemma_unknown_line_skipped(Seq::empty(), body1);
    let body2 = crate::model::ser_iframe_seq(p.frames) + Seq::<u8>::empty();
    assert(Seq::<u8>::empty() + seq![10u8] + (crate::model::ser_iframe_seq(p.frames)
        + Seq::<u8>::empty()) =~= after_variants);
    lemma_unknown_line_skipped(Seq::empty(), body2);
    assert(sp_body(Seq::<u8>::empty()) == Some(
        (
            Seq::<SpecStreamVariant>::empty(),
            Seq::<SpecMediaTrack>::empty(),
            Seq::<SpecIFrameStream>::empty(),
        ),
    ));
    lemma_body_iframe_seq(
        p.frames,
        Seq::<u8>::empty(),
        Seq::<SpecStreamVariant>::empty(),
        Seq::<SpecMediaTrack>::empty(),
        Seq::<SpecIFrameStream>::empty(),
    );
    assert(p.frames + Seq::<SpecIFrameStream>::empty() =~= p.frames);
    assert(sp_body(after_variants) == Some(
        (Seq::<SpecStreamVariant>::empty(), Seq::<SpecMediaTrack>::empty(), p.frames),
    ));
    lemma_body_variant_seq(
        p.variants,
        after_variants,
        Seq::<SpecStreamVariant>::empty(),
        Seq::<SpecMediaTrack>::empty(),
        p.frames,
    );
    assert(p.variants + Seq::<SpecStreamVariant>::empty() =~= p.variants);
    assert(sp_body(after_media) == Some(
        (p.variants, Seq::<SpecMediaTrack>::empty(), p.frames),
    ));
    lemma_body_media_seq(
        p.media,
        after_media,
        p.variants,
        Seq::<SpecMediaTrack>::empty(),
        p.frames,
    );
    assert(p.media + Seq::<SpecMediaTrack>::empty() =~= p.media);
}

/// With the independent-segments line present, it is consumed and the body
/// parses to the collections.
#[verifier::rlimit(100)]
proof fn lemma_after_header_with_flag(p: SpecMasterPlaylist)
    requires
        playlist_wf(p),
        p.independent_segments,
    ensures
        ({
            let sections = seq![10u8] + crate::model::ser_media_seq(p.media) + seq![10u8]
                + crate::model::ser_variant_seq(p.variants) + seq![10u8]
                + crate::model::ser_iframe_seq(p.frames);
            let t1 = (crate::tags::lit_independent_segments() + seq![10u8]) + sections;
            crate::model::sp_indep(t1) == Some(
                crate::tags::lit_independent_segments().len() + 1int,
            ) && sp_body(t1.skip(crate::tags::lit_independent_segments().len() + 1int)) == Some(
                (p.variants, p.media, p.frames),
            )
        }),
{
    let sections = seq![10u8] + crate::model::ser_media_seq(p.media) + seq![10u8]
        + crate::model::ser_variant_seq(p.variants) + seq![10u8] + crate::model::ser_iframe_seq(
        p.frames,
    );
    let t1 = (crate::tags::lit_independent_segments() + seq![10u8]) + sections;
    lemma_playlist_sections(p);
    let ind = crate::tags::lit_independent_segments();
    assert(t1.take(ind.len() as int) =~= ind);
    assert(starts_with(t1, ind));
    assert(t1.skip(ind.len() as int) =~= seq![10u8] + sections);
    assert(t1.skip(ind.len() as int)[0] == 10);
    assert(crate::model::sp_line_ending(t1.skip(ind.len() as int)) == Some(1int));
    assert(t1.skip(ind.len() + 1int) =~= sections);
}

/// Without the independent-segments line, the body parses directly.
#[verifier::rlimit(100)]
proof fn lemma_after_header_no_flag(p: SpecMasterPlaylist)
    requires
        playlist_wf(p),
        !p.independent_segments,
    ensures
        ({
            let sections = seq![10u8] + crate::model::ser_media_seq(p.media) + seq![10u8]
                + crate::model::ser_variant_seq(p.variants) + seq![10u8]
                + crate::model::ser_iframe_seq(p.frames);
            crate::model::sp_indep(sections) is None && sp_body(sections) == Some(
                (p.variants, p.media, p.frames),
            )
        }),
{
    let sections = seq![10u8] + crate::model::ser_media_seq(p.media) + seq![10u8]
        + crate::model::ser_variant_seq(p.variants) + seq![10u8] + crate::model::ser_iframe_seq(
        p.frames,
    );
    lemma_playlist_sections(p);
    assert(sections[0] == 10);
    assert(!starts_with(sections, crate::tags::lit_independent_segments())) by {
        if starts_with(sections, crate::tags::lit_independent_segments()) {
            assert(sections.take(crate::tags::lit_independent_segments().len() as int)[0]
                == sections[0]);
            assert(false);
        }
    }
}

/// DOCUMENT ROUND-TRIP: the rendering of a well-formed playlist parses back
/// to exactly that playlist.
#[verifier::rlimit(100)]
pub proof fn lemma_playlist_roundtrip(p: SpecMasterPlaylist)
    requires
        playlist_wf(p),
    ensures
        crate::model::sp_playlist(crate::model::ser_playlist(p)) == Some(p),
{
    let w = crate::model::ser_playlist(p);
    let hdr = crate::tags::lit_extm3u();
    assert(w.take(hdr.len() as int) =~= hdr);
    assert(starts_with(w, hdr));
    let ind_part = if p.independent_segments {
        crate::tags::lit_independent_segments() + seq![10u8]
    } else {
        Seq::<u8>::empty()
    };
    let sections = seq![10u8] + crate::model::ser_media_seq(p.media) + seq![10u8]
        + crate::model::ser_variant_seq(p.variants) + seq![10u8] + crate::model::ser_iframe_seq(
        p.frames,
    );
    let t0 = w.skip(hdr.len() as int);
    assert(t0 =~= seq![10u8] + (ind_part + sections));
    assert(t0[0] == 10);
    assert(crate::model::sp_line_ending(t0) == Some(1int));
    let t1 = t0.skip(1);
    assert(t1 =~= ind_part + sections);
    if p.independent_segments {
        lemma_after_header_with_flag(p);
        assert(t1 =~= (crate::tags::lit_independent_segments() + seq![10u8]) + sections);
    } else {
        lemma_after_header_no_flag(p);
        assert(t1 =~= sections);
    }
    assert(crate::model::sp_playlist(w) == Some(
        SpecMasterPlaylist {
            independent_segments: p.independent_segments,
            variants: p.variants,
            media: p.media,
            frames: p.frames,
        },
    ));
    assert(SpecMasterPlaylist {
        independent_segments: p.independent_segments,
        variants: p.variants,
        media: p.media,
        frames: p.frames,
    } =~= p);
}

/// IDEMPOTENT RE-SERIALIZATION: a playlist parsed from any text, once its
/// model is well-formed, parses back from its own rendering, so a second
/// parse-and-render pass reproduces the first rendering exactly.
pub proof fn lemma_reserialize_idempotent(s: Seq<u8>, p: SpecMasterPlaylist)
    requires
        crate::model::sp_playlist(s) == Some(p),
        playlist_wf(p),
    ensures
        crate::model::sp_playlist(crate::model::ser_playlist(p)) == Some(p),
        crate::model::ser_playlist(
            crate::model::sp_playlist(crate::model::ser_playlist(p)).unwrap(),
        ) == crate::model::ser_playlist(p),
{
    lemma_playlist_roundtrip(p);
}


} // verus!
