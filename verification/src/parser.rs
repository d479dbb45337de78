//! The executable playlist parser and serializer, proved against the
//! specification grammar in `model`.

use vstd::prelude::*;
use crate::errors::{Fault, GrammarRule, PlaylistError};
use crate::model::{
    ifs_apply, ifs_fold, ifs_init, ifs_parts, join_comma, lemma_join_comma_push,
    lemma_ser_iframe_seq_snoc, lemma_ser_media_seq_snoc, lemma_ser_variant_seq_snoc,
    lemma_strip_zeros_at, mt_parts, part_plain, part_quoted, rate_bytes, resolution_bytes,
    ser_iframe_seq, ser_iframe_stream, ser_media_seq, ser_media_track, ser_playlist,
    ser_stream_variant, ser_variant_seq, sp_body, sp_iframe_stream, sp_indep, sp_media_track,
    sp_playlist, sp_stream_variant, sv_parts, u32_bytes, zero_digits, mt_apply, mt_fold, mt_init, sv_apply,
    sv_fold, sv_init, sp_line_ending, sp_line_len, sp_key_len, sp_quoted, sp_unquoted,
    sp_value, sp_pair, sp_pairs, sp_pairs_more, sp_rate, sp_resolution, sp_u32, sp_u32_or_zero,
    strip_zeros, SpecMasterPlaylist, SpecMediaTrack, SpecIFrameStream, SpecStreamVariant,
};
use crate::numbers::{
    all_digits, lemma_digits_val_last, push_dec_u64, read_digits_capped, FrameRate,
};
use crate::scan::{
    append_bytes, bytes_eq, copy_range, copy_trimmed, has_prefix_at, is_digit, scan_first,
    scan_pred, seq_first, starts_with, ScanKind,
};
use crate::tags::{
    lit_extm3u, lit_independent_segments, lit_iframe_tag, lit_media_tag, lit_stream_tag,
    lit_key_audio, lit_key_autoselect, lit_key_average_bandwidth, lit_key_bandwidth,
    lit_key_channels, lit_key_closed_captions, lit_key_codecs, lit_key_default,
    lit_key_frame_rate, lit_key_group_id, lit_key_language, lit_key_name, lit_key_resolution,
    lit_key_type, lit_key_uri, lit_key_video_range, make_extm3u, make_independent_segments,
    make_iframe_tag, make_media_tag, make_stream_tag, make_key_audio, make_key_autoselect,
    make_key_average_bandwidth, make_key_bandwidth, make_key_channels,
    make_key_closed_captions, make_key_codecs, make_key_default, make_key_frame_rate,
    make_key_group_id, make_key_language, make_key_name, make_key_resolution, make_key_type,
    make_key_uri, make_key_video_range,
};

verus! {

/// The view of an optional byte string.
pub open spec fn opt_bytes_view(o: Option<Vec<u8>>) -> Option<Seq<u8>> {
    match o {
        Some(v) => Some(v@),
        None => None,
    }
}

/// The view of a key/value list.
pub open spec fn pairs_view(ps: Seq<(Vec<u8>, Vec<u8>)>) -> Seq<(Seq<u8>, Seq<u8>)> {
    ps.map_values(|p: (Vec<u8>, Vec<u8>)| (p.0@, p.1@))
}

/// One `EXT-X-STREAM-INF` entry: a variant stream and the URI of its media
/// playlist, taken from the line after the tag.
#[derive(Debug)]
pub struct StreamVariant {
    pub bandwidth: u32,
    pub average_bandwidth: Option<u32>,
    pub codecs: Option<Vec<u8>>,
    pub resolution: Option<(u32, u32)>,
    pub frame_rate: Option<FrameRate>,
    pub video_range: Option<Vec<u8>>,
    pub audio: Option<Vec<u8>>,
    pub closed_captions: Option<Vec<u8>>,
    pub uri: Vec<u8>,
}

impl View for StreamVariant {
    type V = SpecStreamVariant;

    open spec fn view(&self) -> SpecStreamVariant {
        SpecStreamVariant {
            bandwidth: self.bandwidth,
            average_bandwidth: self.average_bandwidth,
            codecs: opt_bytes_view(self.codecs),
            resolution: self.resolution,
            frame_rate: self.frame_rate,
            video_range: opt_bytes_view(self.video_range),
            audio: opt_bytes_view(self.audio),
            closed_captions: opt_bytes_view(self.closed_captions),
            uri: self.uri@,
        }
    }
}

/// One `EXT-X-MEDIA` entry: an alternative rendition.  Every attribute is
/// kept verbatim as an optional byte string, `DEFAULT` and `AUTOSELECT`
/// included, so that serialization reproduces the source tokens.
#[derive(Debug)]
pub struct MediaTrack {
    pub track_type: Option<Vec<u8>>,
    pub group_id: Option<Vec<u8>>,
    pub name: Option<Vec<u8>>,
    pub language: Option<Vec<u8>>,
    pub default: Option<Vec<u8>>,
    pub autoselect: Option<Vec<u8>>,
    pub channels: Option<Vec<u8>>,
    pub uri: Option<Vec<u8>>,
}

impl View for MediaTrack {
    type V = SpecMediaTrack;

    open spec fn view(&self) -> SpecMediaTrack {
        SpecMediaTrack {
            track_type: opt_bytes_view(self.track_type),
            group_id: opt_bytes_view(self.group_id),
            name: opt_bytes_view(self.name),
            language: opt_bytes_view(self.language),
            default: opt_bytes_view(self.default),
            autoselect: opt_bytes_view(self.autoselect),
            channels: opt_bytes_view(self.channels),
            uri: opt_bytes_view(self.uri),
        }
    }
}

/// One `EXT-X-I-FRAME-STREAM-INF` entry: a trick-play stream whose URI is
/// given inline as an attribute.
#[derive(Debug)]
pub struct IFrameStream {
    pub bandwidth: u32,
    pub codecs: Option<Vec<u8>>,
    pub resolution: Option<(u32, u32)>,
    pub video_range: Option<Vec<u8>>,
    pub uri: Vec<u8>,
}

impl View for IFrameStream {
    type V = SpecIFrameStream;

    open spec fn view(&self) -> SpecIFrameStream {
        SpecIFrameStream {
            bandwidth: self.bandwidth,
            codecs: opt_bytes_view(self.codecs),
            resolution: self.resolution,
            video_range: opt_bytes_view(self.video_range),
            uri: self.uri@,
        }
    }
}

/// A parsed master playlist: the independent-segments flag and the three
/// record collections in source order.
#[derive(Debug)]
pub struct MasterPlaylist {
    pub independent_segments: bool,
    pub variants: Vec<StreamVariant>,
    pub media: Vec<MediaTrack>,
    pub frames: Vec<IFrameStream>,
}

impl View for MasterPlaylist {
    type V = SpecMasterPlaylist;

    open spec fn view(&self) -> SpecMasterPlaylist {
        SpecMasterPlaylist {
            independent_segments: self.independent_segments,
            variants: self.variants@.map_values(|v: StreamVariant| v@),
            media: self.media@.map_values(|m: MediaTrack| m@),
            frames: self.frames@.map_values(|f: IFrameStream| f@),
        }
    }
}

// ------------------------------------------------------------------
// Lexical layer
// ------------------------------------------------------------------

/// Finds the end of the current line.  Returns the index of its terminator
/// (or of the end of input); refuses a bare carriage return.
fn take_line(s: &Vec<u8>, i: usize) -> (r: Result<usize, Fault>)
    requires
        i <= s@.len(),
    ensures
        match r {
            Ok(e) => i <= e <= s@.len() && sp_line_len(s@.skip(i as int)) == Some((e - i) as int),
            Err(_) => sp_line_len(s@.skip(i as int)) is None,
        },
{
    let ghost w = s@.skip(i as int);
    proof {
        assert(w =~= s@.subrange(i as int, s@.len() as int));
    }
    let e = scan_first(s, i, s.len(), ScanKind::LineBreak);
    proof {
        assert(seq_first(w, scan_pred(ScanKind::LineBreak)) == e - i);
        if e < s@.len() {
            assert(w[e - i] == s@[e as int]);
        }
        if e + 1 < s@.len() {
            assert(w[e - i + 1] == s@[e + 1]);
        }
    }
    if e < s.len() && s[e] == 13 && !(e + 1 < s.len() && s[e + 1] == 10) {
        Err(Fault { at: e, rule: GrammarRule::Line, incomplete: false })
    } else {
        Ok(e)
    }
}

/// Consumes a line terminator at `i`, returning the position after it.
fn eat_line_ending(s: &Vec<u8>, i: usize) -> (r: Result<usize, Fault>)
    requires
        i <= s@.len(),
    ensures
        match r {
            Ok(j) => i < j <= s@.len() && sp_line_ending(s@.skip(i as int)) == Some((j - i) as int),
            Err(_) => sp_line_ending(s@.skip(i as int)) is None,
        },
{
    let ghost w = s@.skip(i as int);
    proof {
        if i < s@.len() {
            assert(w[0] == s@[i as int]);
        }
        if i + 1 < s@.len() {
            assert(w[1] == s@[i + 1]);
        }
    }
    if i < s.len() && s[i] == 10 {
        Ok(i + 1)
    } else if i < s.len() && s[i] == 13 && i + 1 < s.len() && s[i + 1] == 10 {
        Ok(i + 2)
    } else {
        Err(Fault { at: i, rule: GrammarRule::LineEnding, incomplete: s.len() == i })
    }
}

/// Parses an attribute value within `s[i..lim)`: quoted if it opens with a
/// quote, unquoted otherwise.  Returns the position after the value and the
/// value's bytes.
fn parse_value(s: &Vec<u8>, i: usize, lim: usize) -> (r: Result<(usize, Vec<u8>), Fault>)
    requires
        i <= lim <= s@.len(),
    ensures
        match r {
            Ok((j, v)) => i < j <= lim && sp_value(s@.subrange(i as int, lim as int)) == Some(
                ((j - i) as int, v@),
            ),
            Err(_) => sp_value(s@.subrange(i as int, lim as int)) is None,
        },
{
    let ghost w = s@.subrange(i as int, lim as int);
    proof {
        if i < lim {
            assert(w[0] == s@[i as int]);
        }
    }
    if i < lim && s[i] == 34 {
        // Quoted: the content runs to the next quote, at least one byte.
        let ghost t = w.skip(1);
        proof {
            assert(t =~= s@.subrange(i + 1, lim as int));
        }
        let q = scan_first(s, i + 1, lim, ScanKind::Quote);
        proof {
            assert(seq_first(t, scan_pred(ScanKind::Quote)) == q - (i + 1));
        }
        if q >= lim {
            return Err(Fault { at: i, rule: GrammarRule::QuotedValue, incomplete: true });
        }
        if q == i + 1 {
            return Err(Fault { at: i + 1, rule: GrammarRule::QuotedValue, incomplete: false });
        }
        let v = copy_range(s, i + 1, q);
        proof {
            assert(v@ =~= t.take(q - (i + 1)));
        }
        Ok((q + 1, v))
    } else {
        // Unquoted: at least one byte before the next comma or line break.
        let n = scan_first(s, i, lim, ScanKind::CommaOrBreak);
        proof {
            assert(seq_first(w, scan_pred(ScanKind::CommaOrBreak)) == n - i);
        }
        if n == i {
            return Err(
                Fault { at: i, rule: GrammarRule::UnquotedValue, incomplete: i == lim },
            );
        }
        let v = copy_trimmed(s, i, n);
        proof {
            assert(s@.subrange(i as int, n as int) =~= w.take(n - i));
        }
        Ok((n, v))
    }
}

/// Parses one `KEY=value` pair within `s[i..lim)`.
fn parse_attribute(s: &Vec<u8>, i: usize, lim: usize) -> (r: Result<
    (usize, Vec<u8>, Vec<u8>),
    Fault,
>)
    requires
        i <= lim <= s@.len(),
    ensures
        match r {
            Ok((j, k, v)) => i < j <= lim && sp_pair(s@.subrange(i as int, lim as int)) == Some(
                ((j - i) as int, (k@, v@)),
            ),
            Err(_) => sp_pair(s@.subrange(i as int, lim as int)) is None,
        },
{
    let ghost w = s@.subrange(i as int, lim as int);
    let ke = scan_first(s, i, lim, ScanKind::NonKey);
    proof {
        assert(seq_first(w, scan_pred(ScanKind::NonKey)) == ke - i);
    }
    if ke == i {
        return Err(Fault { at: i, rule: GrammarRule::Key, incomplete: i == lim });
    }
    proof {
        if ke < lim {
            assert(w[ke - i] == s@[ke as int]);
        }
    }
    if !(ke < lim && s[ke] == 61) {
        return Err(Fault { at: ke, rule: GrammarRule::KeyValue, incomplete: ke == lim });
    }
    let key = copy_range(s, i, ke);
    proof {
        assert(key@ =~= w.take(ke - i));
        assert(w.skip(ke - i + 1) =~= s@.subrange(ke + 1, lim as int));
    }
    match parse_value(s, ke + 1, lim) {
        Ok((j, v)) => Ok((j, key, v)),
        Err(f) => Err(f),
    }
}

/// Parses a comma-separated attribute list within `s[i..lim)`: one pair or
/// more; a trailing `,` whose pair does not parse is left unconsumed.
fn parse_attributes(s: &Vec<u8>, i: usize, lim: usize) -> (r: Result<
    (usize, Vec<(Vec<u8>, Vec<u8>)>),
    Fault,
>)
    requires
        i <= lim <= s@.len(),
    ensures
        match r {
            Ok((j, ps)) => i < j <= lim && sp_pairs(s@.subrange(i as int, lim as int)) == Some(
                ((j - i) as int, pairs_view(ps@)),
            ),
            Err(_) => sp_pairs(s@.subrange(i as int, lim as int)) is None,
        },
{
    let ghost w = s@.subrange(i as int, lim as int);
    let mut out: Vec<(Vec<u8>, Vec<u8>)> = Vec::new();
    let first = parse_attribute(s, i, lim);
    let mut cur: usize;
    match first {
        Ok((j, k, v)) => {
            out.push((k, v));
            cur = j;
        },
        Err(f) => {
            return Err(f);
        },
    }
    proof {
        assert(pairs_view(out@) =~= seq![(out@[0].0@, out@[0].1@)]);
        assert(w.skip(cur - i) =~= s@.subrange(cur as int, lim as int));
    }
    // From here on: the final parse of `w` is the pairs collected so far plus
    // whatever further pairs follow from `cur`.
    while cur < lim
        invariant
            i < cur <= lim <= s@.len(),
            w == s@.subrange(i as int, lim as int),
            out@.len() >= 1,
            sp_pairs(w) matches Some((n, ps)) && n == (cur - i) + sp_pairs_more(
                s@.subrange(cur as int, lim as int),
            ).0 && ps == pairs_view(out@) + sp_pairs_more(
                s@.subrange(cur as int, lim as int),
            ).1,
        decreases lim - cur,
    {
        let ghost m = s@.subrange(cur as int, lim as int);
        proof {
            assert(m[0] == s@[cur as int]);
        }
        if s[cur] != 44 {
            proof {
                assert(sp_pairs_more(m).1 =~= Seq::<(Seq<u8>, Seq<u8>)>::empty());
                assert(pairs_view(out@) + sp_pairs_more(m).1 =~= pairs_view(out@));
            }
            return Ok((cur, out));
        }
        proof {
            assert(m.skip(1) =~= s@.subrange(cur + 1, lim as int));
        }
        match parse_attribute(s, cur + 1, lim) {
            Ok((j, k, v)) => {
                proof {
                    assert(m.skip(1 + (j - (cur + 1))) =~= s@.subrange(j as int, lim as int));
                }
                out.push((k, v));
                proof {
                    assert(pairs_view(out@) =~= pairs_view(out@.drop_last()) + seq![(k@, v@)]);
                    assert((pairs_view(out@.drop_last()) + seq![(k@, v@)]) + sp_pairs_more(
                        s@.subrange(j as int, lim as int),
                    ).1 =~= pairs_view(out@.drop_last()) + (seq![(k@, v@)] + sp_pairs_more(
                        s@.subrange(j as int, lim as int),
                    ).1));
                }
                cur = j;
            },
            Err(_) => {
                proof {
                    assert(sp_pairs_more(m).1 =~= Seq::<(Seq<u8>, Seq<u8>)>::empty());
                    assert(pairs_view(out@) + sp_pairs_more(m).1 =~= pairs_view(out@));
                }
                return Ok((cur, out));
            },
        }
    }
    proof {
        let m = s@.subrange(cur as int, lim as int);
        assert(m.len() == 0);
        assert(sp_pairs_more(m).1 =~= Seq::<(Seq<u8>, Seq<u8>)>::empty());
        assert(pairs_view(out@) + sp_pairs_more(m).1 =~= pairs_view(out@));
    }
    Ok((cur, out))
}


// ------------------------------------------------------------------
// Attribute values
// ------------------------------------------------------------------

/// Whether `s[i..j)` consists of ASCII digits only.
fn all_digits_range(s: &Vec<u8>, i: usize, j: usize) -> (r: bool)
    requires
        i <= j <= s@.len(),
    ensures
        r == all_digits(s@.subrange(i as int, j as int)),
{
    let ghost w = s@.subrange(i as int, j as int);
    let mut k: usize = i;
    while k < j
        invariant
            i <= k <= j <= s@.len(),
            w == s@.subrange(i as int, j as int),
            forall|m: int| 0 <= m < k - i ==> is_digit(#[trigger] w[m]),
        decreases j - k,
    {
        let b = s[k];
        proof {
            assert(w[k - i] == s@[k as int]);
        }
        if !(48 <= b && b <= 57) {
            return false;
        }
        k += 1;
    }
    true
}

/// Reads `s[i..j)` as `str::parse::<u32>` would.
fn parse_u32_range(s: &Vec<u8>, i: usize, j: usize) -> (r: Option<u32>)
    requires
        i <= j <= s@.len(),
    ensures
        r == sp_u32(s@.subrange(i as int, j as int)),
{
    let ghost w = s@.subrange(i as int, j as int);
    proof {
        if i < j {
            assert(w[0] == s@[i as int]);
        }
    }
    let start: usize = if i < j && s[i] == 43 {
        i + 1
    } else {
        i
    };
    let ghost d = if w.len() >= 1 && w[0] == 43 {
        w.skip(1)
    } else {
        w
    };
    proof {
        assert(d =~= s@.subrange(start as int, j as int));
    }
    if start == j {
        return None;
    }
    if !all_digits_range(s, start, j) {
        return None;
    }
    match read_digits_capped(s, start, j, 0xffff_ffff) {
        Some(v) => Some(v as u32),
        None => None,
    }
}

/// The integer value of an attribute, zero when it does not read as one.
fn parse_u32_or_zero(v: &Vec<u8>) -> (r: u32)
    ensures
        r == sp_u32_or_zero(v@),
{
    proof {
        assert(v@.subrange(0, v@.len() as int) =~= v@);
    }
    match parse_u32_range(v, 0, v.len()) {
        Some(n) => n,
        None => 0,
    }
}

/// Reads a `WIDTHxHEIGHT` attribute value.
fn parse_resolution_value(v: &Vec<u8>) -> (r: Option<(u32, u32)>)
    ensures
        r == sp_resolution(v@),
{
    proof {
        assert(v@.subrange(0, v@.len() as int) =~= v@);
    }
    let x = scan_first(v, 0, v.len(), ScanKind::LowerX);
    if x == v.len() {
        return None;
    }
    let ghost h = v@.skip(x + 1);
    proof {
        assert(h =~= v@.subrange(x + 1, v@.len() as int));
    }
    let x2 = scan_first(v, x + 1, v.len(), ScanKind::LowerX);
    if x2 < v.len() {
        proof {
            assert(seq_first(h, scan_pred(ScanKind::LowerX)) < h.len());
        }
        return None;
    }
    proof {
        assert(v@.take(x as int) =~= v@.subrange(0, x as int));
        assert(seq_first(h, scan_pred(ScanKind::LowerX)) == h.len());
    }
    let wp = parse_u32_range(v, 0, x);
    let hp = parse_u32_range(v, x + 1, v.len());
    match (wp, hp) {
        (Some(a), Some(b)) => Some((a, b)),
        _ => None,
    }
}

/// Reads a frame-rate attribute value into the fixed-point model; a token
/// that does not fit the model reads as zero.
#[verifier::rlimit(60)]
fn parse_rate_value(v: &Vec<u8>) -> (r: FrameRate)
    ensures
        r == sp_rate(v@),
        r.wf(),
{
    proof {
        assert(v@.subrange(0, v@.len() as int) =~= v@);
        if v@.len() >= 1 {
            assert(v@[0] == v@.subrange(0, v@.len() as int)[0]);
        }
    }
    let start: usize = if v.len() >= 1 && v[0] == 43 {
        1
    } else {
        0
    };
    let ghost d = if v@.len() >= 1 && v@[0] == 43 {
        v@.skip(1)
    } else {
        v@
    };
    proof {
        assert(d =~= v@.subrange(start as int, v@.len() as int));
    }
    let dot = scan_first(v, start, v.len(), ScanKind::Dot);
    proof {
        assert(seq_first(d, scan_pred(ScanKind::Dot)) == dot - start);
    }
    if dot == v.len() {
        // No decimal point: a plain integer.
        if start == v.len() {
            return FrameRate::zero();
        }
        if !all_digits_range(v, start, v.len()) {
            return FrameRate::zero();
        }
        match read_digits_capped(v, start, v.len(), 18446744073709551615) {
            Some(m) => FrameRate { mantissa: m, scale: 0 },
            None => FrameRate::zero(),
        }
    } else {
        let ghost ip = d.take(dot - start);
        let ghost fp = d.skip(dot - start + 1);
        proof {
            assert(ip =~= v@.subrange(start as int, dot as int));
            assert(fp =~= v@.subrange(dot + 1, v@.len() as int));
        }
        let ip_ok = all_digits_range(v, start, dot);
        let fp_ok = all_digits_range(v, dot + 1, v.len());
        if !(ip_ok && fp_ok) {
            return FrameRate::zero();
        }
        if start == dot && dot + 1 == v.len() {
            return FrameRate::zero();
        }
        // Strip trailing zero digits of the fractional part.
        let mut fe: usize = v.len();
        while fe > dot + 1 && v[fe - 1] == 48
            invariant
                dot + 1 <= fe <= v@.len(),
                forall|m: int| fe <= m < v@.len() ==> v@[m] == 48,
            decreases fe,
        {
            fe -= 1;
        }
        let ghost fr = strip_zeros(fp);
        proof {
            assert forall|m: int| fe - (dot + 1) <= m < fp.len() implies fp[m] == 48 by {
                assert(fp[m] == v@[dot + 1 + m]);
            }
            if fe > dot + 1 {
                assert(fp[fe - (dot + 1) - 1] == v@[fe - 1]);
            }
            lemma_strip_zeros_at(fp, fe - (dot + 1));
            assert(fr =~= v@.subrange(dot + 1, fe as int));
        }
        if fe - (dot + 1) > 12 {
            return FrameRate::zero();
        }
        // The mantissa is the integer digits followed by the kept fraction.
        let mut mv = copy_range(v, start, dot);
        let frv = copy_range(v, dot + 1, fe);
        append_bytes(&mut mv, &frv);
        proof {
            assert(mv@ =~= ip + fr);
            assert(mv@.subrange(0, mv@.len() as int) =~= ip + fr);
            assert forall|m: int| 0 <= m < mv@.len() implies is_digit(#[trigger] mv@[m]) by {
                if m < ip.len() {
                    assert(mv@[m] == ip[m]);
                } else {
                    assert(mv@[m] == fr[m - ip.len()]);
                    assert(fr[m - ip.len()] == fp[m - ip.len()]);
                }
            }
        }
        match read_digits_capped(&mv, 0, mv.len(), 18446744073709551615) {
            Some(m) => {
                let sc: u32 = (fe - (dot + 1)) as u32;
                proof {
                    if sc > 0 {
                        assert(fr.len() > 0);
                        assert((ip + fr).last() == fr.last());
                        assert(fr.last() == v@[fe - 1]);
                        assert(v@[fe - 1] != 48);
                        assert(is_digit(fr.last())) by {
                            assert(fr.last() == fp[fr.len() - 1]);
                        }
                        lemma_digits_val_last(ip + fr);
                        assert(m % 10 != 0);
                    }
                }
                FrameRate { mantissa: m, scale: sc }
            },
            None => FrameRate::zero(),
        }
    }
}


// ------------------------------------------------------------------
// Records
// ------------------------------------------------------------------

/// Folds a parsed attribute list into a stream variant, first to last; the
/// URI is filled in afterwards by the caller.
fn fold_stream(ps: Vec<(Vec<u8>, Vec<u8>)>) -> (r: StreamVariant)
    ensures
        r@ == sv_fold(pairs_view(ps@), sv_init()),
{
    let ghost pv = pairs_view(ps@);
    let k_bandwidth = make_key_bandwidth();
    let k_average = make_key_average_bandwidth();
    let k_codecs = make_key_codecs();
    let k_resolution = make_key_resolution();
    let k_rate = make_key_frame_rate();
    let k_range = make_key_video_range();
    let k_audio = make_key_audio();
    let k_cc = make_key_closed_captions();
    let mut rest = ps;
    let mut a = StreamVariant {
        bandwidth: 0,
        average_bandwidth: None,
        codecs: None,
        resolution: None,
        frame_rate: None,
        video_range: None,
        audio: None,
        closed_captions: None,
        uri: Vec::new(),
    };
    proof {
        assert(a@ =~= sv_init());
    }
    while rest.len() > 0
        invariant
            k_bandwidth@ == lit_key_bandwidth(),
            k_average@ == lit_key_average_bandwidth(),
            k_codecs@ == lit_key_codecs(),
            k_resolution@ == lit_key_resolution(),
            k_rate@ == lit_key_frame_rate(),
            k_range@ == lit_key_video_range(),
            k_audio@ == lit_key_audio(),
            k_cc@ == lit_key_closed_captions(),
            sv_fold(pairs_view(rest@), a@) == sv_fold(pv, sv_init()),
        decreases rest@.len(),
    {
        let ghost prev = a@;
        let ghost rv = pairs_view(rest@);
        let (key, val) = rest.remove(0);
        proof {
            assert(pairs_view(rest@) =~= rv.skip(1));
            assert(rv[0] == (key@, val@));
        }
        if bytes_eq(&key, &k_bandwidth) {
            a.bandwidth = parse_u32_or_zero(&val);
        } else if bytes_eq(&key, &k_average) {
            a.average_bandwidth = Some(parse_u32_or_zero(&val));
        } else if bytes_eq(&key, &k_codecs) {
            a.codecs = Some(val);
        } else if bytes_eq(&key, &k_resolution) {
            match parse_resolution_value(&val) {
                Some(rp) => {
                    a.resolution = Some(rp);
                },
                None => {},
            }
        } else if bytes_eq(&key, &k_rate) {
            a.frame_rate = Some(parse_rate_value(&val));
        } else if bytes_eq(&key, &k_range) {
            a.video_range = Some(val);
        } else if bytes_eq(&key, &k_audio) {
            a.audio = Some(val);
        } else if bytes_eq(&key, &k_cc) {
            a.closed_captions = Some(val);
        }
        proof {
            assert(a@ =~= sv_apply(prev, key@, val@));
        }
    }
    proof {
        assert(pairs_view(rest@) =~= Seq::<(Seq<u8>, Seq<u8>)>::empty());
    }
    a
}

/// Folds a parsed attribute list into a media track, first to last.
fn fold_media(ps: Vec<(Vec<u8>, Vec<u8>)>) -> (r: MediaTrack)
    ensures
        r@ == mt_fold(pairs_view(ps@), mt_init()),
{
    let ghost pv = pairs_view(ps@);
    let k_type = make_key_type();
    let k_group = make_key_group_id();
    let k_name = make_key_name();
    let k_language = make_key_language();
    let k_default = make_key_default();
    let k_autoselect = make_key_autoselect();
    let k_channels = make_key_channels();
    let k_uri = make_key_uri();
    let mut rest = ps;
    let mut a = MediaTrack {
        track_type: None,
        group_id: None,
        name: None,
        language: None,
        default: None,
        autoselect: None,
        channels: None,
        uri: None,
    };
    proof {
        assert(a@ =~= mt_init());
    }
    while rest.len() > 0
        invariant
            k_type@ == lit_key_type(),
            k_group@ == lit_key_group_id(),
            k_name@ == lit_key_name(),
            k_language@ == lit_key_language(),
            k_default@ == lit_key_default(),
            k_autoselect@ == lit_key_autoselect(),
            k_channels@ == lit_key_channels(),
            k_uri@ == lit_key_uri(),
            mt_fold(pairs_view(rest@), a@) == mt_fold(pv, mt_init()),
        decreases rest@.len(),
    {
        let ghost prev = a@;
        let ghost rv = pairs_view(rest@);
        let (key, val) = rest.remove(0);
        proof {
            assert(pairs_view(rest@) =~= rv.skip(1));
            assert(rv[0] == (key@, val@));
        }
        if bytes_eq(&key, &k_type) {
            a.track_type = Some(val);
        } else if bytes_eq(&key, &k_group) {
            a.group_id = Some(val);
        } else if bytes_eq(&key, &k_name) {
            a.name = Some(val);
        } else if bytes_eq(&key, &k_language) {
            a.language = Some(val);
        } else if bytes_eq(&key, &k_default) {
            a.default = Some(val);
        } else if bytes_eq(&key, &k_autoselect) {
            a.autoselect = Some(val);
        } else if bytes_eq(&key, &k_channels) {
            a.channels = Some(val);
        } else if bytes_eq(&key, &k_uri) {
            a.uri = Some(val);
        }
        proof {
            assert(a@ =~= mt_apply(prev, key@, val@));
        }
    }
    proof {
        assert(pairs_view(rest@) =~= Seq::<(Seq<u8>, Seq<u8>)>::empty());
    }
    a
}

/// Folds a parsed attribute list into an I-frame stream, first to last.
fn fold_iframe(ps: Vec<(Vec<u8>, Vec<u8>)>) -> (r: IFrameStream)
    ensures
        r@ == ifs_fold(pairs_view(ps@), ifs_init()),
{
    let ghost pv = pairs_view(ps@);
    let k_bandwidth = make_key_bandwidth();
    let k_codecs = make_key_codecs();
    let k_resolution = make_key_resolution();
    let k_range = make_key_video_range();
    let k_uri = make_key_uri();
    let mut rest = ps;
    let mut a = IFrameStream {
        bandwidth: 0,
        codecs: None,
        resolution: None,
        video_range: None,
        uri: Vec::new(),
    };
    proof {
        assert(a@ =~= ifs_init());
    }
    while rest.len() > 0
        invariant
            k_bandwidth@ == lit_key_bandwidth(),
            k_codecs@ == lit_key_codecs(),
            k_resolution@ == lit_key_resolution(),
            k_range@ == lit_key_video_range(),
            k_uri@ == lit_key_uri(),
            ifs_fold(pairs_view(rest@), a@) == ifs_fold(pv, ifs_init()),
        decreases rest@.len(),
    {
        let ghost prev = a@;
        let ghost rv = pairs_view(rest@);
        let (key, val) = rest.remove(0);
        proof {
            assert(pairs_view(rest@) =~= rv.skip(1));
            assert(rv[0] == (key@, val@));
        }
        if bytes_eq(&key, &k_bandwidth) {
            a.bandwidth = parse_u32_or_zero(&val);
        } else if bytes_eq(&key, &k_codecs) {
            a.codecs = Some(val);
        } else if bytes_eq(&key, &k_resolution) {
            match parse_resolution_value(&val) {
                Some(rp) => {
                    a.resolution = Some(rp);
                },
                None => {},
            }
        } else if bytes_eq(&key, &k_range) {
            a.video_range = Some(val);
        } else if bytes_eq(&key, &k_uri) {
            a.uri = val;
        }
        proof {
            assert(a@ =~= ifs_apply(prev, key@, val@));
        }
    }
    proof {
        assert(pairs_view(rest@) =~= Seq::<(Seq<u8>, Seq<u8>)>::empty());
    }
    a
}


/// Parses one `EXT-X-STREAM-INF` block starting at `i`.
#[verifier::rlimit(80)]
fn parse_stream_variant_at(s: &Vec<u8>, i: usize) -> (r: Result<(usize, StreamVariant), Fault>)
    requires
        i <= s@.len(),
    ensures
        match r {
            Ok((j, v)) => i < j <= s@.len() && sp_stream_variant(s@.skip(i as int)) == Some(
                ((j - i) as int, v@),
            ),
            Err(_) => sp_stream_variant(s@.skip(i as int)) is None,
        },
{
    let ghost w = s@.skip(i as int);
    let tag = make_stream_tag();
    if !has_prefix_at(s, i, &tag) {
        return Err(Fault { at: i, rule: GrammarRule::Tag, incomplete: i == s.len() });
    }
    let total = s.len();
    proof {
        assert(w.len() >= tag@.len());
        assert(i + tag@.len() <= total);
    }
    let t0 = i + tag.len();
    let ghost t = w.skip(lit_stream_tag().len() as int);
    proof {
        assert(t =~= s@.skip(t0 as int));
    }
    let e = match take_line(s, t0) {
        Ok(e) => e,
        Err(f) => {
            return Err(f);
        },
    };
    proof {
        assert(t.take(e - t0) =~= s@.subrange(t0 as int, e as int));
    }
    let ps = match parse_attributes(s, t0, e) {
        Ok((_, ps)) => ps,
        Err(f) => {
            return Err(f);
        },
    };
    let mut a = fold_stream(ps);
    proof {
        assert(t.skip(e - t0) =~= s@.skip(e as int));
    }
    let u0 = match eat_line_ending(s, e) {
        Ok(j) => j,
        Err(f) => {
            return Err(f);
        },
    };
    let ghost u = t.skip((e - t0) + (u0 - e));
    proof {
        assert(u =~= s@.skip(u0 as int));
    }
    let eu = match take_line(s, u0) {
        Ok(x) => x,
        Err(f) => {
            return Err(f);
        },
    };
    if eu == u0 {
        return Err(Fault { at: u0, rule: GrammarRule::Uri, incomplete: u0 == s.len() });
    }
    let uri = copy_range(s, u0, eu);
    proof {
        assert(uri@ =~= u.take(eu - u0));
    }
    let ghost folded = a@;
    a.uri = uri;
    proof {
        assert(a@ =~= SpecStreamVariant { uri: u.take(eu - u0), ..folded });
    }
    Ok((eu, a))
}

/// Parses one `EXT-X-MEDIA` block starting at `i`.
fn parse_media_track_at(s: &Vec<u8>, i: usize) -> (r: Result<(usize, MediaTrack), Fault>)
    requires
        i <= s@.len(),
    ensures
        match r {
            Ok((j, m)) => i < j <= s@.len() && sp_media_track(s@.skip(i as int)) == Some(
                ((j - i) as int, m@),
            ),
            Err(_) => sp_media_track(s@.skip(i as int)) is None,
        },
{
    let ghost w = s@.skip(i as int);
    let tag = make_media_tag();
    if !has_prefix_at(s, i, &tag) {
        return Err(Fault { at: i, rule: GrammarRule::Tag, incomplete: i == s.len() });
    }
    let total = s.len();
    proof {
        assert(w.len() >= tag@.len());
        assert(i + tag@.len() <= total);
    }
    let t0 = i + tag.len();
    let ghost t = w.skip(lit_media_tag().len() as int);
    proof {
        assert(t =~= s@.skip(t0 as int));
        assert(t =~= s@.subrange(t0 as int, s@.len() as int));
    }
    match parse_attributes(s, t0, s.len()) {
        Ok((j, ps)) => {
            let m = fold_media(ps);
            Ok((j, m))
        },
        Err(f) => Err(f),
    }
}

/// Parses one `EXT-X-I-FRAME-STREAM-INF` block starting at `i`.
fn parse_iframe_stream_at(s: &Vec<u8>, i: usize) -> (r: Result<(usize, IFrameStream), Fault>)
    requires
        i <= s@.len(),
    ensures
        match r {
            Ok((j, f)) => i < j <= s@.len() && sp_iframe_stream(s@.skip(i as int)) == Some(
                ((j - i) as int, f@),
            ),
            Err(_) => sp_iframe_stream(s@.skip(i as int)) is None,
        },
{
    let ghost w = s@.skip(i as int);
    let tag = make_iframe_tag();
    if !has_prefix_at(s, i, &tag) {
        return Err(Fault { at: i, rule: GrammarRule::Tag, incomplete: i == s.len() });
    }
    let total = s.len();
    proof {
        assert(w.len() >= tag@.len());
        assert(i + tag@.len() <= total);
    }
    let t0 = i + tag.len();
    let ghost t = w.skip(lit_iframe_tag().len() as int);
    proof {
        assert(t =~= s@.skip(t0 as int));
    }
    let e = match take_line(s, t0) {
        Ok(e) => e,
        Err(f) => {
            return Err(f);
        },
    };
    proof {
        assert(t.take(e - t0) =~= s@.subrange(t0 as int, e as int));
    }
    match parse_attributes(s, t0, e) {
        Ok((_, ps)) => {
            let f = fold_iframe(ps);
            Ok((e, f))
        },
        Err(f) => Err(f),
    }
}

/// Turns an internal fault into the public error: the unconsumed input from
/// the failure point, or an incompleteness report.
fn raise(s: &Vec<u8>, f: Fault) -> (r: PlaylistError)
    ensures
        match r {
            PlaylistError::ParseError { remaining, rule } => exists|n: int|
                0 <= n <= s@.len() && remaining@ == s@.skip(n),
            PlaylistError::Incomplete { .. } => true,
        },
{
    if f.incomplete {
        PlaylistError::Incomplete { expected: f.rule }
    } else {
        let at = if f.at > s.len() {
            s.len()
        } else {
            f.at
        };
        let remaining = copy_range(s, at, s.len());
        proof {
            assert(remaining@ =~= s@.skip(at as int));
        }
        PlaylistError::ParseError { remaining, rule: f.rule }
    }
}

/// Parses one `EXT-X-STREAM-INF` tag block at the start of `input`: the tag
/// line's attributes and the following URI line.  Returns how many bytes the
/// block took and the record.
pub fn parse_stream_variant(input: &Vec<u8>) -> (r: Result<(usize, StreamVariant), PlaylistError>)
    ensures
        match r {
            Ok((n, v)) => sp_stream_variant(input@) == Some((n as int, v@)),
            Err(_) => sp_stream_variant(input@) is None,
        },
{
    proof {
        assert(input@.skip(0) =~= input@);
    }
    match parse_stream_variant_at(input, 0) {
        Ok((j, v)) => Ok((j, v)),
        Err(f) => Err(raise(input, f)),
    }
}

/// Parses one `EXT-X-MEDIA` tag block at the start of `input`.  Returns how
/// many bytes the block took and the record.
pub fn parse_media_track(input: &Vec<u8>) -> (r: Result<(usize, MediaTrack), PlaylistError>)
    ensures
        match r {
            Ok((n, m)) => sp_media_track(input@) == Some((n as int, m@)),
            Err(_) => sp_media_track(input@) is None,
        },
{
    proof {
        assert(input@.skip(0) =~= input@);
    }
    match parse_media_track_at(input, 0) {
        Ok((j, m)) => Ok((j, m)),
        Err(f) => Err(raise(input, f)),
    }
}

/// Parses one `EXT-X-I-FRAME-STREAM-INF` tag block at the start of `input`.
/// Returns how many bytes the block took and the record.
pub fn parse_iframe_stream(input: &Vec<u8>) -> (r: Result<(usize, IFrameStream), PlaylistError>)
    ensures
        match r {
            Ok((n, f)) => sp_iframe_stream(input@) == Some((n as int, f@)),
            Err(_) => sp_iframe_stream(input@) is None,
        },
{
    proof {
        assert(input@.skip(0) =~= input@);
    }
    match parse_iframe_stream_at(input, 0) {
        Ok((j, f)) => Ok((j, f)),
        Err(f) => Err(raise(input, f)),
    }
}


// ------------------------------------------------------------------
// The document
// ------------------------------------------------------------------

/// The records already collected, prepended to a body parse's outcome.
pub open spec fn body_join(
    a: (Seq<SpecStreamVariant>, Seq<SpecMediaTrack>, Seq<SpecIFrameStream>),
    r: Option<(Seq<SpecStreamVariant>, Seq<SpecMediaTrack>, Seq<SpecIFrameStream>)>,
) -> Option<(Seq<SpecStreamVariant>, Seq<SpecMediaTrack>, Seq<SpecIFrameStream>)> {
    match r {
        Some((v, m, f)) => Some((a.0 + v, a.1 + m, a.2 + f)),
        None => None,
    }
}

/// One body step that took an I-frame block.
proof fn lemma_body_step_iframe(
    acc: (Seq<SpecStreamVariant>, Seq<SpecMediaTrack>, Seq<SpecIFrameStream>),
    w: Seq<u8>,
    n: int,
    f: SpecIFrameStream,
)
    requires
        w.len() > 0,
        starts_with(w, lit_iframe_tag().drop_last()),
        sp_iframe_stream(w) == Some((n, f)),
        0 < n <= w.len(),
    ensures
        body_join(acc, sp_body(w)) == body_join(
            (acc.0, acc.1, acc.2.push(f)),
            sp_body(w.skip(n)),
        ),
{
    match sp_body(w.skip(n)) {
        Some((v2, m2, f2)) => {
            assert(acc.2.push(f) + f2 =~= acc.2 + (seq![f] + f2));
        },
        None => {},
    }
}

/// One body step that took a stream-variant block.
proof fn lemma_body_step_stream(
    acc: (Seq<SpecStreamVariant>, Seq<SpecMediaTrack>, Seq<SpecIFrameStream>),
    w: Seq<u8>,
    n: int,
    v: SpecStreamVariant,
)
    requires
        w.len() > 0,
        !starts_with(w, lit_iframe_tag().drop_last()),
        starts_with(w, lit_stream_tag().drop_last()),
        sp_stream_variant(w) == Some((n, v)),
        0 < n <= w.len(),
    ensures
        body_join(acc, sp_body(w)) == body_join(
            (acc.0.push(v), acc.1, acc.2),
            sp_body(w.skip(n)),
        ),
{
    match sp_body(w.skip(n)) {
        Some((v2, m2, f2)) => {
            assert(acc.0.push(v) + v2 =~= acc.0 + (seq![v] + v2));
        },
        None => {},
    }
}

/// One body step that took a media block.
proof fn lemma_body_step_media(
    acc: (Seq<SpecStreamVariant>, Seq<SpecMediaTrack>, Seq<SpecIFrameStream>),
    w: Seq<u8>,
    n: int,
    m: SpecMediaTrack,
)
    requires
        w.len() > 0,
        !starts_with(w, lit_iframe_tag().drop_last()),
        !starts_with(w, lit_stream_tag().drop_last()),
        starts_with(w, lit_media_tag().drop_last()),
        sp_media_track(w) == Some((n, m)),
        0 < n <= w.len(),
    ensures
        body_join(acc, sp_body(w)) == body_join(
            (acc.0, acc.1.push(m), acc.2),
            sp_body(w.skip(n)),
        ),
{
    match sp_body(w.skip(n)) {
        Some((v2, m2, f2)) => {
            assert(acc.1.push(m) + m2 =~= acc.1 + (seq![m] + m2));
        },
        None => {},
    }
}

/// One body step that dropped an unrecognized line.
proof fn lemma_body_step_skip(w: Seq<u8>, e: int, n2: int)
    requires
        w.len() > 0,
        !starts_with(w, lit_iframe_tag().drop_last()),
        !starts_with(w, lit_stream_tag().drop_last()),
        !starts_with(w, lit_media_tag().drop_last()),
        sp_line_len(w) == Some(e),
        0 <= e <= w.len(),
        sp_line_ending(w.skip(e)) == Some(n2),
        e + n2 <= w.len(),
    ensures
        sp_body(w) == sp_body(w.skip(e + n2)),
{
}

/// A body step whose block failed to parse fails the body.
proof fn lemma_body_step_fails(w: Seq<u8>)
    requires
        w.len() > 0,
        starts_with(w, lit_iframe_tag().drop_last()) ==> sp_iframe_stream(w) is None,
        !starts_with(w, lit_iframe_tag().drop_last()) && starts_with(
            w,
            lit_stream_tag().drop_last(),
        ) ==> sp_stream_variant(w) is None,
        !starts_with(w, lit_iframe_tag().drop_last()) && !starts_with(
            w,
            lit_stream_tag().drop_last(),
        ) && starts_with(w, lit_media_tag().drop_last()) ==> sp_media_track(w) is None,
        !starts_with(w, lit_iframe_tag().drop_last()) && !starts_with(
            w,
            lit_stream_tag().drop_last(),
        ) && !starts_with(w, lit_media_tag().drop_last()) ==> (sp_line_len(w) is None || (
        sp_line_len(w) matches Some(e) && sp_line_ending(w.skip(e)) is None)),
    ensures
        sp_body(w) is None,
{
}

/// One step of the body parse at `cur`: takes a tag block or drops a line,
/// returning the position after it; the collected records extended so that
/// the body's outcome is unchanged.
#[verifier::rlimit(100)]
fn body_step(
    s: &Vec<u8>,
    cur: usize,
    vs: &mut Vec<StreamVariant>,
    ms: &mut Vec<MediaTrack>,
    fs: &mut Vec<IFrameStream>,
    pre_iframe: &Vec<u8>,
    pre_stream: &Vec<u8>,
    pre_media: &Vec<u8>,
) -> (r: Result<usize, Fault>)
    requires
        cur < s@.len(),
        pre_iframe@ == lit_iframe_tag().drop_last(),
        pre_stream@ == lit_stream_tag().drop_last(),
        pre_media@ == lit_media_tag().drop_last(),
    ensures
        match r {
            Ok(j) => cur < j <= s@.len() && body_join(
                (
                    old(vs)@.map_values(|v: StreamVariant| v@),
                    old(ms)@.map_values(|m: MediaTrack| m@),
                    old(fs)@.map_values(|f: IFrameStream| f@),
                ),
                sp_body(s@.skip(cur as int)),
            ) == body_join(
                (
                    final(vs)@.map_values(|v: StreamVariant| v@),
                    final(ms)@.map_values(|m: MediaTrack| m@),
                    final(fs)@.map_values(|f: IFrameStream| f@),
                ),
                sp_body(s@.skip(j as int)),
            ),
            Err(_) => sp_body(s@.skip(cur as int)) is None,
        },
{
    let ghost w = s@.skip(cur as int);
    let ghost acc = (
        vs@.map_values(|v: StreamVariant| v@),
        ms@.map_values(|m: MediaTrack| m@),
        fs@.map_values(|f: IFrameStream| f@),
    );
    proof {
        assert(w.len() > 0);
    }
    let in_iframe = has_prefix_at(s, cur, pre_iframe);
    let in_stream = !in_iframe && has_prefix_at(s, cur, pre_stream);
    let in_media = !in_iframe && !in_stream && has_prefix_at(s, cur, pre_media);
    if in_iframe {
        match parse_iframe_stream_at(s, cur) {
            Ok((j, f)) => {
                proof {
                    lemma_body_step_iframe(acc, w, j - cur, f@);
                    assert(w.skip((j - cur) as int) =~= s@.skip(j as int));
                }
                fs.push(f);
                proof {
                    assert(fs@.map_values(|f: IFrameStream| f@) =~= acc.2.push(fs@.last()@));
                }
                Ok(j)
            },
            Err(ft) => {
                proof {
                    lemma_body_step_fails(w);
                }
                Err(ft)
            },
        }
    } else if in_stream {
        match parse_stream_variant_at(s, cur) {
            Ok((j, v)) => {
                proof {
                    lemma_body_step_stream(acc, w, j - cur, v@);
                    assert(w.skip((j - cur) as int) =~= s@.skip(j as int));
                }
                vs.push(v);
                proof {
                    assert(vs@.map_values(|v: StreamVariant| v@) =~= acc.0.push(vs@.last()@));
                }
                Ok(j)
            },
            Err(ft) => {
                proof {
                    lemma_body_step_fails(w);
                }
                Err(ft)
            },
        }
    } else if in_media {
        match parse_media_track_at(s, cur) {
            Ok((j, m)) => {
                proof {
                    lemma_body_step_media(acc, w, j - cur, m@);
                    assert(w.skip((j - cur) as int) =~= s@.skip(j as int));
                }
                ms.push(m);
                proof {
                    assert(ms@.map_values(|m: MediaTrack| m@) =~= acc.1.push(ms@.last()@));
                }
                Ok(j)
            },
            Err(ft) => {
                proof {
                    lemma_body_step_fails(w);
                }
                Err(ft)
            },
        }
    } else {
        // An unrecognized line: consume it and its terminator.
        let e = match take_line(s, cur) {
            Ok(e) => e,
            Err(ft) => {
                proof {
                    lemma_body_step_fails(w);
                }
                return Err(ft);
            },
        };
        proof {
            assert(w.skip((e - cur) as int) =~= s@.skip(e as int));
        }
        match eat_line_ending(s, e) {
            Ok(j) => {
                proof {
                    lemma_body_step_skip(w, e - cur, j - e);
                    assert(w.skip((e - cur) + (j - e)) =~= s@.skip(j as int));
                }
                Ok(j)
            },
            Err(ft) => {
                proof {
                    lemma_body_step_fails(w);
                }
                Err(ft)
            },
        }
    }
}

/// Parses the document body from `i`: collects the three kinds of tag block
/// in source order and drops every other line.
fn parse_body(s: &Vec<u8>, i: usize) -> (r: Result<
    (Vec<StreamVariant>, Vec<MediaTrack>, Vec<IFrameStream>),
    Fault,
>)
    requires
        i <= s@.len(),
    ensures
        match r {
            Ok((vs, ms, fs)) => sp_body(s@.skip(i as int)) == Some(
                (
                    vs@.map_values(|v: StreamVariant| v@),
                    ms@.map_values(|m: MediaTrack| m@),
                    fs@.map_values(|f: IFrameStream| f@),
                ),
            ),
            Err(_) => sp_body(s@.skip(i as int)) is None,
        },
{
    let mut pre_iframe = make_iframe_tag();
    pre_iframe.pop();
    let mut pre_stream = make_stream_tag();
    pre_stream.pop();
    let mut pre_media = make_media_tag();
    pre_media.pop();
    proof {
        assert(pre_iframe@ =~= lit_iframe_tag().drop_last());
        assert(pre_stream@ =~= lit_stream_tag().drop_last());
        assert(pre_media@ =~= lit_media_tag().drop_last());
    }
    let mut vs: Vec<StreamVariant> = Vec::new();
    let mut ms: Vec<MediaTrack> = Vec::new();
    let mut fs: Vec<IFrameStream> = Vec::new();
    let mut cur: usize = i;
    while cur < s.len()
        invariant
            i <= cur <= s@.len(),
            pre_iframe@ == lit_iframe_tag().drop_last(),
            pre_stream@ == lit_stream_tag().drop_last(),
            pre_media@ == lit_media_tag().drop_last(),
            sp_body(s@.skip(i as int)) == body_join(
                (
                    vs@.map_values(|v: StreamVariant| v@),
                    ms@.map_values(|m: MediaTrack| m@),
                    fs@.map_values(|f: IFrameStream| f@),
                ),
                sp_body(s@.skip(cur as int)),
            ),
        decreases s@.len() - cur,
    {
        match body_step(s, cur, &mut vs, &mut ms, &mut fs, &pre_iframe, &pre_stream, &pre_media) {
            Ok(j) => {
                cur = j;
            },
            Err(ft) => {
                return Err(ft);
            },
        }
    }
    proof {
        let e = s@.skip(cur as int);
        assert(e.len() == 0);
        let accv = vs@.map_values(|v: StreamVariant| v@);
        let accm = ms@.map_values(|m: MediaTrack| m@);
        let accf = fs@.map_values(|f: IFrameStream| f@);
        assert(accv + Seq::<SpecStreamVariant>::empty() =~= accv);
        assert(accm + Seq::<SpecMediaTrack>::empty() =~= accm);
        assert(accf + Seq::<SpecIFrameStream>::empty() =~= accf);
    }
    Ok((vs, ms, fs))
}

/// Parses a whole master-playlist document.  Succeeds exactly on the inputs
/// the specification grammar accepts, and returns that grammar's model; a
/// mismatch reports the unconsumed input and the rule that failed, an input
/// that ran out mid-construct reports what was still expected.
pub fn parse_playlist(input: &Vec<u8>) -> (r: Result<MasterPlaylist, PlaylistError>)
    ensures
        match r {
            Ok(p) => sp_playlist(input@) == Some(p@),
            Err(e) => sp_playlist(input@) is None && (e matches PlaylistError::ParseError {
                remaining,
                ..
            } ==> exists|n: int| 0 <= n <= input@.len() && remaining@ == input@.skip(n)),
        },
{
    let header = make_extm3u();
    if !has_prefix_at(input, 0, &header) {
        proof {
            assert(input@.skip(0) =~= input@);
        }
        return Err(
            raise(
                input,
                Fault { at: 0, rule: GrammarRule::Header, incomplete: input.len() == 0 },
            ),
        );
    }
    proof {
        assert(input@.skip(0) =~= input@);
        assert(input@.len() >= lit_extm3u().len());
    }
    let p0 = header.len();
    let ghost t0 = input@.skip(lit_extm3u().len() as int);
    let p1 = match eat_line_ending(input, p0) {
        Ok(j) => j,
        Err(f) => {
            return Err(raise(input, f));
        },
    };
    let ghost t1 = t0.skip((p1 - p0) as int);
    proof {
        assert(t1 =~= input@.skip(p1 as int));
    }
    let ind_tag = make_independent_segments();
    let mut ind = false;
    let mut p2 = p1;
    if has_prefix_at(input, p1, &ind_tag) {
        proof {
            assert(t1.len() >= lit_independent_segments().len());
            assert(t1.skip(lit_independent_segments().len() as int) =~= input@.skip(
                p1 + lit_independent_segments().len(),
            ));
        }
        match eat_line_ending(input, p1 + ind_tag.len()) {
            Ok(j) => {
                ind = true;
                p2 = j;
            },
            Err(_) => {},
        }
    }
    let ghost t2 = if sp_indep(t1) is Some {
        t1.skip(sp_indep(t1).unwrap())
    } else {
        t1
    };
    proof {
        assert(ind == (sp_indep(t1) is Some));
        assert(t2 =~= input@.skip(p2 as int));
    }
    match parse_body(input, p2) {
        Ok((vs, ms, fs)) => {
            let p = MasterPlaylist { independent_segments: ind, variants: vs, media: ms, frames: fs };
            proof {
                assert(sp_playlist(input@) == Some(p@));
            }
            Ok(p)
        },
        Err(f) => Err(raise(input, f)),
    }
}


// ------------------------------------------------------------------
// Rendering
// ------------------------------------------------------------------

/// Builds `KEY=value`.
fn part_plain_vec(key: &Vec<u8>, v: &Vec<u8>) -> (r: Vec<u8>)
    ensures
        r@ == key@ + seq![61u8] + v@,
{
    let mut r: Vec<u8> = Vec::new();
    append_bytes(&mut r, key);
    r.push(61);
    append_bytes(&mut r, v);
    proof {
        assert(r@ =~= key@ + seq![61u8] + v@);
    }
    r
}

/// Builds `KEY="value"`.
fn part_quoted_vec(key: &Vec<u8>, v: &Vec<u8>) -> (r: Vec<u8>)
    ensures
        r@ == key@ + seq![61u8, 34u8] + v@ + seq![34u8],
{
    let mut r: Vec<u8> = Vec::new();
    append_bytes(&mut r, key);
    r.push(61);
    r.push(34);
    append_bytes(&mut r, v);
    r.push(34);
    proof {
        assert(r@ =~= key@ + seq![61u8, 34u8] + v@ + seq![34u8]);
    }
    r
}

/// Builds `KEY=integer`.
fn part_u32_vec(key: &Vec<u8>, n: u32) -> (r: Vec<u8>)
    ensures
        r@ == key@ + seq![61u8] + u32_bytes(n),
{
    let mut r: Vec<u8> = Vec::new();
    append_bytes(&mut r, key);
    r.push(61);
    push_dec_u64(&mut r, n as u64);
    proof {
        assert(r@ =~= key@ + seq![61u8] + u32_bytes(n));
    }
    r
}

/// Builds `KEY=WIDTHxHEIGHT`.
fn part_res_vec(key: &Vec<u8>, a: u32, b: u32) -> (r: Vec<u8>)
    ensures
        r@ == key@ + seq![61u8] + resolution_bytes((a, b)),
{
    let mut r: Vec<u8> = Vec::new();
    append_bytes(&mut r, key);
    r.push(61);
    push_dec_u64(&mut r, a as u64);
    r.push(120);
    push_dec_u64(&mut r, b as u64);
    proof {
        assert(r@ =~= key@ + seq![61u8] + resolution_bytes((a, b)));
    }
    r
}

/// Appends the rendering of a frame rate.
fn push_rate(out: &mut Vec<u8>, r: &FrameRate)
    ensures
        final(out)@ == old(out)@ + rate_bytes(*r),
{
    let mut ds: Vec<u8> = Vec::new();
    push_dec_u64(&mut ds, r.mantissa);
    if r.scale == 0 {
        append_bytes(out, &ds);
    } else if ds.len() > r.scale as usize {
        let cut = ds.len() - r.scale as usize;
        let head = copy_range(&ds, 0, cut);
        let tail = copy_range(&ds, cut, ds.len());
        append_bytes(out, &head);
        out.push(46);
        append_bytes(out, &tail);
        proof {
            assert(head@ =~= ds@.take(cut as int));
            assert(tail@ =~= ds@.skip(cut as int));
            assert(out@ =~= old(out)@ + (ds@.take(cut as int) + seq![46u8] + ds@.skip(
                cut as int,
            )));
        }
    } else {
        out.push(48);
        out.push(46);
        let ghost zmid = zero_digits(r.scale - ds@.len());
        let mut k: usize = 0;
        let zn = r.scale as usize - ds.len();
        while k < zn
            invariant
                0 <= k <= zn,
                zn == r.scale - ds@.len(),
                out@ == old(out)@ + seq![48u8, 46u8] + zero_digits(k as int),
            decreases zn - k,
        {
            out.push(48);
            proof {
                assert(zero_digits(k + 1) =~= zero_digits(k as int).push(48u8));
                assert(out@ =~= old(out)@ + seq![48u8, 46u8] + zero_digits(k + 1));
            }
            k += 1;
        }
        append_bytes(out, &ds);
        proof {
            assert(out@ =~= old(out)@ + (seq![48u8, 46u8] + zero_digits(r.scale - ds@.len())
                + ds@));
        }
    }
}

/// Builds `KEY=rate`.
fn part_rate_vec(key: &Vec<u8>, fr: &FrameRate) -> (r: Vec<u8>)
    ensures
        r@ == key@ + seq![61u8] + rate_bytes(*fr),
{
    let mut r: Vec<u8> = Vec::new();
    append_bytes(&mut r, key);
    r.push(61);
    push_rate(&mut r, fr);
    proof {
        assert(r@ =~= key@ + seq![61u8] + rate_bytes(*fr));
    }
    r
}

/// Appends one attribute part, preceded by `,` when it is not the first.
fn emit_part(out: &mut Vec<u8>, started: bool, part: &Vec<u8>)
    ensures
        final(out)@ == old(out)@ + (if started {
            seq![44u8] + part@
        } else {
            part@
        }),
{
    if started {
        out.push(44);
    }
    append_bytes(out, part);
    proof {
        if started {
            assert(out@ =~= old(out)@ + (seq![44u8] + part@));
        }
    }
}


/// Emits an optional plain attribute and reports whether any part has been
/// emitted yet.
fn emit_opt_plain(
    out: &mut Vec<u8>,
    started: bool,
    key: &Vec<u8>,
    v: &Option<Vec<u8>>,
    Ghost(tag): Ghost<Seq<u8>>,
    Ghost(parts): Ghost<Seq<Seq<u8>>>,
) -> (r: bool)
    requires
        old(out)@ == tag + join_comma(parts),
        started == (parts.len() > 0),
    ensures
        final(out)@ == tag + join_comma(part_plain(parts, key@, opt_bytes_view(*v))),
        r == (part_plain(parts, key@, opt_bytes_view(*v)).len() > 0),
{
    match v {
        Some(x) => {
            let part = part_plain_vec(key, x);
            proof {
                lemma_join_comma_push(parts, part@);
            }
            emit_part(out, started, &part);
            proof {
                assert(out@ =~= tag + join_comma(parts.push(part@)));
            }
            true
        },
        None => started,
    }
}

/// Emits an optional quoted attribute and reports whether any part has been
/// emitted yet.
fn emit_opt_quoted(
    out: &mut Vec<u8>,
    started: bool,
    key: &Vec<u8>,
    v: &Option<Vec<u8>>,
    Ghost(tag): Ghost<Seq<u8>>,
    Ghost(parts): Ghost<Seq<Seq<u8>>>,
) -> (r: bool)
    requires
        old(out)@ == tag + join_comma(parts),
        started == (parts.len() > 0),
    ensures
        final(out)@ == tag + join_comma(part_quoted(parts, key@, opt_bytes_view(*v))),
        r == (part_quoted(parts, key@, opt_bytes_view(*v)).len() > 0),
{
    match v {
        Some(x) => {
            let part = part_quoted_vec(key, x);
            proof {
                lemma_join_comma_push(parts, part@);
            }
            emit_part(out, started, &part);
            proof {
                assert(out@ =~= tag + join_comma(parts.push(part@)));
            }
            true
        },
        None => started,
    }
}

/// The parts after an optional integer attribute.
pub open spec fn part_opt_u32(ps: Seq<Seq<u8>>, key: Seq<u8>, v: Option<u32>) -> Seq<Seq<u8>> {
    match v {
        Some(n) => ps.push(key + seq![61u8] + u32_bytes(n)),
        None => ps,
    }
}

/// Emits an optional integer attribute.
fn emit_opt_u32(
    out: &mut Vec<u8>,
    started: bool,
    key: &Vec<u8>,
    v: &Option<u32>,
    Ghost(tag): Ghost<Seq<u8>>,
    Ghost(parts): Ghost<Seq<Seq<u8>>>,
) -> (r: bool)
    requires
        old(out)@ == tag + join_comma(parts),
        started == (parts.len() > 0),
    ensures
        final(out)@ == tag + join_comma(part_opt_u32(parts, key@, *v)),
        r == (part_opt_u32(parts, key@, *v).len() > 0),
{
    match v {
        Some(n) => {
            let part = part_u32_vec(key, *n);
            proof {
                lemma_join_comma_push(parts, part@);
            }
            emit_part(out, started, &part);
            proof {
                assert(out@ =~= tag + join_comma(parts.push(part@)));
            }
            true
        },
        None => started,
    }
}

/// The parts after an optional resolution attribute.
pub open spec fn part_opt_res(ps: Seq<Seq<u8>>, key: Seq<u8>, v: Option<(u32, u32)>) -> Seq<
    Seq<u8>,
> {
    match v {
        Some(rp) => ps.push(key + seq![61u8] + resolution_bytes(rp)),
        None => ps,
    }
}

/// Emits an optional resolution attribute.
fn emit_opt_res(
    out: &mut Vec<u8>,
    started: bool,
    key: &Vec<u8>,
    v: &Option<(u32, u32)>,
    Ghost(tag): Ghost<Seq<u8>>,
    Ghost(parts): Ghost<Seq<Seq<u8>>>,
) -> (r: bool)
    requires
        old(out)@ == tag + join_comma(parts),
        started == (parts.len() > 0),
    ensures
        final(out)@ == tag + join_comma(part_opt_res(parts, key@, *v)),
        r == (part_opt_res(parts, key@, *v).len() > 0),
{
    match v {
        Some(rp) => {
            let part = part_res_vec(key, rp.0, rp.1);
            proof {
                lemma_join_comma_push(parts, part@);
            }
            emit_part(out, started, &part);
            proof {
                assert(out@ =~= tag + join_comma(parts.push(part@)));
            }
            true
        },
        None => started,
    }
}

/// The parts after an optional frame-rate attribute.
pub open spec fn part_opt_rate(ps: Seq<Seq<u8>>, key: Seq<u8>, v: Option<FrameRate>) -> Seq<
    Seq<u8>,
> {
    match v {
        Some(fr) => ps.push(key + seq![61u8] + rate_bytes(fr)),
        None => ps,
    }
}

/// Emits an optional frame-rate attribute.
fn emit_opt_rate(
    out: &mut Vec<u8>,
    started: bool,
    key: &Vec<u8>,
    v: &Option<FrameRate>,
    Ghost(tag): Ghost<Seq<u8>>,
    Ghost(parts): Ghost<Seq<Seq<u8>>>,
) -> (r: bool)
    requires
        old(out)@ == tag + join_comma(parts),
        started == (parts.len() > 0),
    ensures
        final(out)@ == tag + join_comma(part_opt_rate(parts, key@, *v)),
        r == (part_opt_rate(parts, key@, *v).len() > 0),
{
    match v {
        Some(fr) => {
            let part = part_rate_vec(key, fr);
            proof {
                lemma_join_comma_push(parts, part@);
            }
            emit_part(out, started, &part);
            proof {
                assert(out@ =~= tag + join_comma(parts.push(part@)));
            }
            true
        },
        None => started,
    }
}

impl MediaTrack {
    /// Renders this record's tag line, line terminator excluded.
    pub fn serialize(&self) -> (r: Vec<u8>)
        ensures
            r@ == ser_media_track(self@),
    {
        let ghost tag = lit_media_tag();
        let mut out = make_media_tag();
        let mut started = false;
        let ghost parts0: Seq<Seq<u8>> = Seq::empty();
        proof {
            assert(out@ =~= tag + join_comma(parts0));
        }
        let k1 = make_key_type();
        started = emit_opt_plain(&mut out, started, &k1, &self.track_type, Ghost(tag), Ghost(parts0));
        let ghost parts1 = part_plain(parts0, lit_key_type(), opt_bytes_view(self.track_type));
        let k2 = make_key_group_id();
        started = emit_opt_quoted(&mut out, started, &k2, &self.group_id, Ghost(tag), Ghost(parts1));
        let ghost parts2 = part_quoted(parts1, lit_key_group_id(), opt_bytes_view(self.group_id));
        let k3 = make_key_name();
        started = emit_opt_quoted(&mut out, started, &k3, &self.name, Ghost(tag), Ghost(parts2));
        let ghost parts3 = part_quoted(parts2, lit_key_name(), opt_bytes_view(self.name));
        let k4 = make_key_language();
        started = emit_opt_quoted(&mut out, started, &k4, &self.language, Ghost(tag), Ghost(parts3));
        let ghost parts4 = part_quoted(parts3, lit_key_language(), opt_bytes_view(self.language));
        let k5 = make_key_default();
        started = emit_opt_plain(&mut out, started, &k5, &self.default, Ghost(tag), Ghost(parts4));
        let ghost parts5 = part_plain(parts4, lit_key_default(), opt_bytes_view(self.default));
        let k6 = make_key_autoselect();
        started = emit_opt_plain(&mut out, started, &k6, &self.autoselect, Ghost(tag), Ghost(parts5));
        let ghost parts6 = part_plain(parts5, lit_key_autoselect(), opt_bytes_view(self.autoselect));
        let k7 = make_key_channels();
        started = emit_opt_quoted(&mut out, started, &k7, &self.channels, Ghost(tag), Ghost(parts6));
        let ghost parts7 = part_quoted(parts6, lit_key_channels(), opt_bytes_view(self.channels));
        let k8 = make_key_uri();
        started = emit_opt_quoted(&mut out, started, &k8, &self.uri, Ghost(tag), Ghost(parts7));
        let ghost parts8 = part_quoted(parts7, lit_key_uri(), opt_bytes_view(self.uri));
        proof {
            assert(parts8 == mt_parts(self@));
        }
        out
    }
}

impl StreamVariant {
    /// Renders this record: its tag line, a line feed, and its URI line,
    /// final terminator excluded.
    pub fn serialize(&self) -> (r: Vec<u8>)
        ensures
            r@ == ser_stream_variant(self@),
    {
        let ghost tag = lit_stream_tag();
        let mut out = make_stream_tag();
        let mut started = false;
        let kb = make_key_bandwidth();
        let pb = part_u32_vec(&kb, self.bandwidth);
        emit_part(&mut out, started, &pb);
        started = true;
        let ghost parts0: Seq<Seq<u8>> = seq![
            lit_key_bandwidth() + seq![61u8] + u32_bytes(self.bandwidth),
        ];
        proof {
            assert(join_comma(parts0) == parts0[0]);
            assert(out@ =~= tag + join_comma(parts0));
        }
        let k1 = make_key_average_bandwidth();
        started = emit_opt_u32(&mut out, started, &k1, &self.average_bandwidth, Ghost(tag), Ghost(parts0));
        let ghost parts1 = part_opt_u32(parts0, lit_key_average_bandwidth(), self.average_bandwidth);
        let k2 = make_key_codecs();
        started = emit_opt_quoted(&mut out, started, &k2, &self.codecs, Ghost(tag), Ghost(parts1));
        let ghost parts2 = part_quoted(parts1, lit_key_codecs(), opt_bytes_view(self.codecs));
        let k3 = make_key_resolution();
        started = emit_opt_res(&mut out, started, &k3, &self.resolution, Ghost(tag), Ghost(parts2));
        let ghost parts3 = part_opt_res(parts2, lit_key_resolution(), self.resolution);
        let k4 = make_key_frame_rate();
        started = emit_opt_rate(&mut out, started, &k4, &self.frame_rate, Ghost(tag), Ghost(parts3));
        let ghost parts4 = part_opt_rate(parts3, lit_key_frame_rate(), self.frame_rate);
        let k5 = make_key_video_range();
        started = emit_opt_plain(&mut out, started, &k5, &self.video_range, Ghost(tag), Ghost(parts4));
        let ghost parts5 = part_plain(parts4, lit_key_video_range(), opt_bytes_view(self.video_range));
        let k6 = make_key_audio();
        started = emit_opt_quoted(&mut out, started, &k6, &self.audio, Ghost(tag), Ghost(parts5));
        let ghost parts6 = part_quoted(parts5, lit_key_audio(), opt_bytes_view(self.audio));
        let k7 = make_key_closed_captions();
        started = emit_opt_plain(&mut out, started, &k7, &self.closed_captions, Ghost(tag), Ghost(parts6));
        let ghost parts7 = part_plain(parts6, lit_key_closed_captions(), opt_bytes_view(self.closed_captions));
        proof {
            assert(parts7 == sv_parts(self@));
        }
        out.push(10);
        append_bytes(&mut out, &self.uri);
        proof {
            assert(out@ =~= tag + join_comma(sv_parts(self@)) + seq![10u8] + self.uri@);
        }
        out
    }
}

impl IFrameStream {
    /// Renders this record's tag line, line terminator excluded.
    pub fn serialize(&self) -> (r: Vec<u8>)
        ensures
            r@ == ser_iframe_stream(self@),
    {
        let ghost tag = lit_iframe_tag();
        let mut out = make_iframe_tag();
        let mut started = false;
        let kb = make_key_bandwidth();
        let pb = part_u32_vec(&kb, self.bandwidth);
        emit_part(&mut out, started, &pb);
        started = true;
        let ghost parts0: Seq<Seq<u8>> = seq![
            lit_key_bandwidth() + seq![61u8] + u32_bytes(self.bandwidth),
        ];
        proof {
            assert(join_comma(parts0) == parts0[0]);
            assert(out@ =~= tag + join_comma(parts0));
        }
        let k1 = make_key_codecs();
        started = emit_opt_quoted(&mut out, started, &k1, &self.codecs, Ghost(tag), Ghost(parts0));
        let ghost parts1 = part_quoted(parts0, lit_key_codecs(), opt_bytes_view(self.codecs));
        let k2 = make_key_resolution();
        started = emit_opt_res(&mut out, started, &k2, &self.resolution, Ghost(tag), Ghost(parts1));
        let ghost parts2 = part_opt_res(parts1, lit_key_resolution(), self.resolution);
        let k3 = make_key_video_range();
        started = emit_opt_plain(&mut out, started, &k3, &self.video_range, Ghost(tag), Ghost(parts2));
        let ghost parts3 = part_plain(parts2, lit_key_video_range(), opt_bytes_view(self.video_range));
        let ku = make_key_uri();
        let pu = part_quoted_vec(&ku, &self.uri);
        proof {
            lemma_join_comma_push(parts3, pu@);
        }
        emit_part(&mut out, started, &pu);
        let ghost parts4 = parts3.push(lit_key_uri() + seq![61u8, 34u8] + self.uri@ + seq![34u8]);
        proof {
            assert(out@ =~= tag + join_comma(parts4));
            assert(parts4 == ifs_parts(self@));
        }
        out
    }
}

impl MasterPlaylist {
    /// Appends the rendering of the whole playlist to `out`: the header, the
    /// optional independent-segments line, then the media, variant and
    /// I-frame sections in that fixed order.
    #[verifier::rlimit(100)]
    pub fn write_to(&self, out: &mut Vec<u8>)
        ensures
            final(out)@ == old(out)@ + ser_playlist(self@),
    {
        let ghost base = old(out)@;
        let hdr = make_extm3u();
        append_bytes(out, &hdr);
        out.push(10);
        if self.independent_segments {
            let ind = make_independent_segments();
            append_bytes(out, &ind);
            out.push(10);
        }
        out.push(10);
        let ghost head = base + lit_extm3u() + seq![10u8] + (if self.independent_segments {
            lit_independent_segments() + seq![10u8]
        } else {
            Seq::<u8>::empty()
        }) + seq![10u8];
        proof {
            assert(out@ =~= head);
        }
        let ghost mview = self.media@.map_values(|m: MediaTrack| m@);
        let mut k: usize = 0;
        proof {
            assert(mview.take(0) =~= Seq::<SpecMediaTrack>::empty());
            assert(out@ =~= head + ser_media_seq(mview.take(0)));
        }
        while k < self.media.len()
            invariant
                0 <= k <= self.media@.len(),
                mview == self.media@.map_values(|m: MediaTrack| m@),
                out@ == head + ser_media_seq(mview.take(k as int)),
            decreases self.media@.len() - k,
        {
            let line = self.media[k].serialize();
            append_bytes(out, &line);
            out.push(10);
            proof {
                lemma_ser_media_seq_snoc(mview.take(k + 1));
                assert(mview.take(k + 1).drop_last() =~= mview.take(k as int));
                assert(mview.take(k + 1).last() == mview[k as int]);
                assert(out@ =~= head + ser_media_seq(mview.take(k + 1)));
            }
            k += 1;
        }
        out.push(10);
        let ghost head2 = head + ser_media_seq(mview) + seq![10u8];
        proof {
            assert(mview.take(self.media@.len() as int) =~= mview);
            assert(out@ =~= head2);
        }
        let ghost vview = self.variants@.map_values(|v: StreamVariant| v@);
        let mut k2: usize = 0;
        proof {
            assert(vview.take(0) =~= Seq::<SpecStreamVariant>::empty());
            assert(out@ =~= head2 + ser_variant_seq(vview.take(0)));
        }
        while k2 < self.variants.len()
            invariant
                0 <= k2 <= self.variants@.len(),
                vview == self.variants@.map_values(|v: StreamVariant| v@),
                out@ == head2 + ser_variant_seq(vview.take(k2 as int)),
            decreases self.variants@.len() - k2,
        {
            let line = self.variants[k2].serialize();
            append_bytes(out, &line);
            out.push(10);
            proof {
                lemma_ser_variant_seq_snoc(vview.take(k2 + 1));
                assert(vview.take(k2 + 1).drop_last() =~= vview.take(k2 as int));
                assert(vview.take(k2 + 1).last() == vview[k2 as int]);
                assert(out@ =~= head2 + ser_variant_seq(vview.take(k2 + 1)));
            }
            k2 += 1;
        }
        out.push(10);
        let ghost head3 = head2 + ser_variant_seq(vview) + seq![10u8];
        proof {
            assert(vview.take(self.variants@.len() as int) =~= vview);
            assert(out@ =~= head3);
        }
        let ghost fview = self.frames@.map_values(|f: IFrameStream| f@);
        let mut k3: usize = 0;
        proof {
            assert(fview.take(0) =~= Seq::<SpecIFrameStream>::empty());
            assert(out@ =~= head3 + ser_iframe_seq(fview.take(0)));
        }
        while k3 < self.frames.len()
            invariant
                0 <= k3 <= self.frames@.len(),
                fview == self.frames@.map_values(|f: IFrameStream| f@),
                out@ == head3 + ser_iframe_seq(fview.take(k3 as int)),
            decreases self.frames@.len() - k3,
        {
            let line = self.frames[k3].serialize();
            append_bytes(out, &line);
            out.push(10);
            proof {
                lemma_ser_iframe_seq_snoc(fview.take(k3 + 1));
                assert(fview.take(k3 + 1).drop_last() =~= fview.take(k3 as int));
                assert(fview.take(k3 + 1).last() == fview[k3 as int]);
                assert(out@ =~= head3 + ser_iframe_seq(fview.take(k3 + 1)));
            }
            k3 += 1;
        }
        proof {
            assert(fview.take(self.frames@.len() as int) =~= fview);
            assert(out@ =~= base + ser_playlist(self@));
        }
    }
}

} // verus!
