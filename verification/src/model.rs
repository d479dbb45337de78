//! The specification-level grammar and renderer of the master playlist.
//!
//! Every function here is ghost: together they say exactly which byte
//! sequences parse, what model they parse to, and which bytes the model
//! renders back to.  The executable code in `parser` is proved against these
//! definitions.

use vstd::prelude::*;
use crate::numbers::{all_digits, dec_rep, digits_val, FrameRate};
use crate::scan::{scan_pred, seq_first, starts_with, trim_bytes, ScanKind};
use crate::tags::{
    lit_extm3u, lit_independent_segments, lit_iframe_tag, lit_media_tag, lit_stream_tag,
    lit_key_audio, lit_key_autoselect, lit_key_average_bandwidth, lit_key_bandwidth,
    lit_key_channels, lit_key_closed_captions, lit_key_codecs, lit_key_default,
    lit_key_frame_rate, lit_key_group_id, lit_key_language, lit_key_name, lit_key_resolution,
    lit_key_type, lit_key_uri, lit_key_video_range,
};

verus! {

/// The model of one `EXT-X-STREAM-INF` entry.
#[verifier::ext_equal]
pub struct SpecStreamVariant {
    pub bandwidth: u32,
    pub average_bandwidth: Option<u32>,
    pub codecs: Option<Seq<u8>>,
    pub resolution: Option<(u32, u32)>,
    pub frame_rate: Option<FrameRate>,
    pub video_range: Option<Seq<u8>>,
    pub audio: Option<Seq<u8>>,
    pub closed_captions: Option<Seq<u8>>,
    pub uri: Seq<u8>,
}

/// The model of one `EXT-X-MEDIA` entry.
#[verifier::ext_equal]
pub struct SpecMediaTrack {
    pub track_type: Option<Seq<u8>>,
    pub group_id: Option<Seq<u8>>,
    pub name: Option<Seq<u8>>,
    pub language: Option<Seq<u8>>,
    pub default: Option<Seq<u8>>,
    pub autoselect: Option<Seq<u8>>,
    pub channels: Option<Seq<u8>>,
    pub uri: Option<Seq<u8>>,
}

/// The model of one `EXT-X-I-FRAME-STREAM-INF` entry.
#[verifier::ext_equal]
pub struct SpecIFrameStream {
    pub bandwidth: u32,
    pub codecs: Option<Seq<u8>>,
    pub resolution: Option<(u32, u32)>,
    pub video_range: Option<Seq<u8>>,
    pub uri: Seq<u8>,
}

/// The model of a whole master playlist.
#[verifier::ext_equal]
pub struct SpecMasterPlaylist {
    pub independent_segments: bool,
    pub variants: Seq<SpecStreamVariant>,
    pub media: Seq<SpecMediaTrack>,
    pub frames: Seq<SpecIFrameStream>,
}

// ------------------------------------------------------------------
// Lexical pieces
// ------------------------------------------------------------------

/// A line terminator: `\n`, or `\r\n`; how many bytes it takes.
pub open spec fn sp_line_ending(s: Seq<u8>) -> Option<int> {
    if s.len() >= 1 && s[0] == 10 {
        Some(1)
    } else if s.len() >= 2 && s[0] == 13 && s[1] == 10 {
        Some(2)
    } else {
        None
    }
}

/// Length of the current line: the bytes before the next terminator.  A bare
/// carriage return not followed by a line feed is refused.
pub open spec fn sp_line_len(s: Seq<u8>) -> Option<int> {
    let e = seq_first(s, scan_pred(ScanKind::LineBreak));
    if e < s.len() && s[e] == 13 && !(e + 1 < s.len() && s[e + 1] == 10) {
        None
    } else {
        Some(e)
    }
}

/// Length of an attribute key: the leading run of key bytes, at least one.
pub open spec fn sp_key_len(s: Seq<u8>) -> Option<int> {
    let n = seq_first(s, scan_pred(ScanKind::NonKey));
    if n == 0 {
        None
    } else {
        Some(n)
    }
}

/// A double-quoted value: at least one byte between the quotes, no escapes.
/// Yields the bytes consumed (quotes included) and the content.
pub open spec fn sp_quoted(s: Seq<u8>) -> Option<(int, Seq<u8>)> {
    if s.len() >= 1 && s[0] == 34 {
        let t = s.skip(1);
        let q = seq_first(t, scan_pred(ScanKind::Quote));
        if 1 <= q && q < t.len() {
            Some((q + 2, t.take(q)))
        } else {
            None
        }
    } else {
        None
    }
}

/// An unquoted value: at least one byte before the next `,` or line break,
/// with surrounding whitespace trimmed away.
pub open spec fn sp_unquoted(s: Seq<u8>) -> Option<(int, Seq<u8>)> {
    let n = seq_first(s, scan_pred(ScanKind::CommaOrBreak));
    if n == 0 {
        None
    } else {
        Some((n, trim_bytes(s.take(n))))
    }
}

/// An attribute value, quoted or unquoted.
pub open spec fn sp_value(s: Seq<u8>) -> Option<(int, Seq<u8>)> {
    if s.len() >= 1 && s[0] == 34 {
        sp_quoted(s)
    } else {
        sp_unquoted(s)
    }
}

/// One `KEY=value` pair.
pub open spec fn sp_pair(s: Seq<u8>) -> Option<(int, (Seq<u8>, Seq<u8>))> {
    match sp_key_len(s) {
        Some(k) => {
            if 0 < k && k < s.len() && s[k] == 61 {
                match sp_value(s.skip(k + 1)) {
                    Some((n, v)) => Some((k + 1 + n, (s.take(k), v))),
                    None => None,
                }
            } else {
                None
            }
        },
        None => None,
    }
}

/// Further `,KEY=value` pairs.  A trailing separator whose pair does not
/// parse is left unconsumed rather than failing.
pub open spec fn sp_pairs_more(s: Seq<u8>) -> (int, Seq<(Seq<u8>, Seq<u8>)>)
    decreases s.len(),
{
    if s.len() >= 1 && s[0] == 44 {
        match sp_pair(s.skip(1)) {
            Some((n, p)) => {
                if 0 < n && 1 + n <= s.len() {
                    let r = sp_pairs_more(s.skip(1 + n));
                    (1 + n + r.0, seq![p] + r.1)
                } else {
                    (0, Seq::empty())
                }
            },
            None => (0, Seq::empty()),
        }
    } else {
        (0, Seq::empty())
    }
}

/// A comma-separated attribute list: one pair or more.
pub open spec fn sp_pairs(s: Seq<u8>) -> Option<(int, Seq<(Seq<u8>, Seq<u8>)>)> {
    match sp_pair(s) {
        Some((n, p)) => {
            if 0 < n && n <= s.len() {
                let r = sp_pairs_more(s.skip(n));
                Some((n + r.0, seq![p] + r.1))
            } else {
                None
            }
        },
        None => None,
    }
}

// ------------------------------------------------------------------
// Attribute values
// ------------------------------------------------------------------

/// An unsigned integer as `str::parse::<u32>` accepts it: an optional `+`,
/// then digits only, value within range.
pub open spec fn sp_u32(v: Seq<u8>) -> Option<u32> {
    let d = if v.len() >= 1 && v[0] == 43 {
        v.skip(1)
    } else {
        v
    };
    if d.len() >= 1 && all_digits(d) && digits_val(d) <= 0xffff_ffff {
        Some(digits_val(d) as u32)
    } else {
        None
    }
}

/// The integer value of an attribute, zero when it does not read as one.
pub open spec fn sp_u32_or_zero(v: Seq<u8>) -> u32 {
    match sp_u32(v) {
        Some(n) => n,
        None => 0,
    }
}

/// A `WIDTHxHEIGHT` pair: exactly one `x`, both halves unsigned integers.
pub open spec fn sp_resolution(v: Seq<u8>) -> Option<(u32, u32)> {
    let x = seq_first(v, scan_pred(ScanKind::LowerX));
    if x < v.len() {
        let w = v.take(x);
        let h = v.skip(x + 1);
        if seq_first(h, scan_pred(ScanKind::LowerX)) == h.len() {
            match (sp_u32(w), sp_u32(h)) {
                (Some(a), Some(b)) => Some((a, b)),
                _ => None,
            }
        } else {
            None
        }
    } else {
        None
    }
}

/// Trailing `0` digits removed.
pub open spec fn strip_zeros(s: Seq<u8>) -> Seq<u8>
    decreases s.len(),
{
    if s.len() > 0 && s.last() == 48 {
        strip_zeros(s.drop_last())
    } else {
        s
    }
}

/// `strip_zeros` drops exactly the trailing run of `0` digits.
pub proof fn lemma_strip_zeros_at(s: Seq<u8>, k: int)
    requires
        0 <= k <= s.len(),
        forall|m: int| k <= m < s.len() ==> s[m] == 48,
        k > 0 ==> s[k - 1] != 48,
    ensures
        strip_zeros(s) == s.take(k),
    decreases s.len(),
{
    if s.len() > 0 && s.last() == 48 {
        assert(k < s.len());
        assert forall|m: int| k <= m < s.drop_last().len() implies s.drop_last()[m] == 48 by {
            assert(s.drop_last()[m] == s[m]);
        }
        if k > 0 {
            assert(s.drop_last()[k - 1] == s[k - 1]);
        }
        lemma_strip_zeros_at(s.drop_last(), k);
        assert(s.drop_last().take(k) =~= s.take(k));
    } else {
        assert(k == s.len());
        assert(s.take(k) =~= s);
    }
}

/// A frame-rate token as a fixed-point decimal: an optional `+`, an integer
/// part, an optional `.` and fractional part.  Anything else, or a value too
/// fine or too large for the model, falls back to zero, as a token that does
/// not read as a number does.
pub open spec fn sp_rate(v: Seq<u8>) -> FrameRate {
    let d = if v.len() >= 1 && v[0] == 43 {
        v.skip(1)
    } else {
        v
    };
    let dot = seq_first(d, scan_pred(ScanKind::Dot));
    if dot == d.len() {
        if d.len() >= 1 && all_digits(d) && digits_val(d) <= 0xffff_ffff_ffff_ffff {
            FrameRate { mantissa: digits_val(d) as u64, scale: 0 }
        } else {
            FrameRate::spec_zero()
        }
    } else {
        let ip = d.take(dot);
        let fp = d.skip(dot + 1);
        let fr = strip_zeros(fp);
        let m = ip + fr;
        if all_digits(ip) && all_digits(fp) && ip.len() + fp.len() >= 1 && fr.len() <= 12
            && digits_val(m) <= 0xffff_ffff_ffff_ffff {
            FrameRate { mantissa: digits_val(m) as u64, scale: fr.len() as u32 }
        } else {
            FrameRate::spec_zero()
        }
    }
}

// ------------------------------------------------------------------
// Records
// ------------------------------------------------------------------

/// A stream variant before any attribute has been applied.
pub open spec fn sv_init() -> SpecStreamVariant {
    SpecStreamVariant {
        bandwidth: 0,
        average_bandwidth: None,
        codecs: None,
        resolution: None,
        frame_rate: None,
        video_range: None,
        audio: None,
        closed_captions: None,
        uri: Seq::empty(),
    }
}

/// Applies one attribute to a stream variant; unknown keys change nothing.
pub open spec fn sv_apply(a: SpecStreamVariant, key: Seq<u8>, v: Seq<u8>) -> SpecStreamVariant {
    if key == lit_key_bandwidth() {
        SpecStreamVariant { bandwidth: sp_u32_or_zero(v), ..a }
    } else if key == lit_key_average_bandwidth() {
        SpecStreamVariant { average_bandwidth: Some(sp_u32_or_zero(v)), ..a }
    } else if key == lit_key_codecs() {
        SpecStreamVariant { codecs: Some(v), ..a }
    } else if key == lit_key_resolution() {
        match sp_resolution(v) {
            Some(r) => SpecStreamVariant { resolution: Some(r), ..a },
            None => a,
        }
    } else if key == lit_key_frame_rate() {
        SpecStreamVariant { frame_rate: Some(sp_rate(v)), ..a }
    } else if key == lit_key_video_range() {
        SpecStreamVariant { video_range: Some(v), ..a }
    } else if key == lit_key_audio() {
        SpecStreamVariant { audio: Some(v), ..a }
    } else if key == lit_key_closed_captions() {
        SpecStreamVariant { closed_captions: Some(v), ..a }
    } else {
        a
    }
}

/// Folds an attribute list into a stream variant, first to last.
pub open spec fn sv_fold(ps: Seq<(Seq<u8>, Seq<u8>)>, a: SpecStreamVariant) -> SpecStreamVariant
    decreases ps.len(),
{
    if ps.len() == 0 {
        a
    } else {
        sv_fold(ps.skip(1), sv_apply(a, ps[0].0, ps[0].1))
    }
}

/// A media track before any attribute has been applied.
pub open spec fn mt_init() -> SpecMediaTrack {
    SpecMediaTrack {
        track_type: None,
        group_id: None,
        name: None,
        language: None,
        default: None,
        autoselect: None,
        channels: None,
        uri: None,
    }
}

/// Applies one attribute to a media track; unknown keys change nothing.
pub open spec fn mt_apply(a: SpecMediaTrack, key: Seq<u8>, v: Seq<u8>) -> SpecMediaTrack {
    if key == lit_key_type() {
        SpecMediaTrack { track_type: Some(v), ..a }
    } else if key == lit_key_group_id() {
        SpecMediaTrack { group_id: Some(v), ..a }
    } else if key == lit_key_name() {
        SpecMediaTrack { name: Some(v), ..a }
    } else if key == lit_key_language() {
        SpecMediaTrack { language: Some(v), ..a }
    } else if key == lit_key_default() {
        SpecMediaTrack { default: Some(v), ..a }
    } else if key == lit_key_autoselect() {
        SpecMediaTrack { autoselect: Some(v), ..a }
    } else if key == lit_key_channels() {
        SpecMediaTrack { channels: Some(v), ..a }
    } else if key == lit_key_uri() {
        SpecMediaTrack { uri: Some(v), ..a }
    } else {
        a
    }
}

/// Folds an attribute list into a media track, first to last.
pub open spec fn mt_fold(ps: Seq<(Seq<u8>, Seq<u8>)>, a: SpecMediaTrack) -> SpecMediaTrack
    decreases ps.len(),
{
    if ps.len() == 0 {
        a
    } else {
        mt_fold(ps.skip(1), mt_apply(a, ps[0].0, ps[0].1))
    }
}

/// An I-frame stream before any attribute has been applied.
pub open spec fn ifs_init() -> SpecIFrameStream {
    SpecIFrameStream {
        bandwidth: 0,
        codecs: None,
        resolution: None,
        video_range: None,
        uri: Seq::empty(),
    }
}

/// Applies one attribute to an I-frame stream; unknown keys change nothing.
pub open spec fn ifs_apply(a: SpecIFrameStream, key: Seq<u8>, v: Seq<u8>) -> SpecIFrameStream {
    if key == lit_key_bandwidth() {
        SpecIFrameStream { bandwidth: sp_u32_or_zero(v), ..a }
    } else if key == lit_key_codecs() {
        SpecIFrameStream { codecs: Some(v), ..a }
    } else if key == lit_key_resolution() {
        match sp_resolution(v) {
            Some(r) => SpecIFrameStream { resolution: Some(r), ..a },
            None => a,
        }
    } else if key == lit_key_video_range() {
        SpecIFrameStream { video_range: Some(v), ..a }
    } else if key == lit_key_uri() {
        SpecIFrameStream { uri: v, ..a }
    } else {
        a
    }
}

/// Folds an attribute list into an I-frame stream, first to last.
pub open spec fn ifs_fold(ps: Seq<(Seq<u8>, Seq<u8>)>, a: SpecIFrameStream) -> SpecIFrameStream
    decreases ps.len(),
{
    if ps.len() == 0 {
        a
    } else {
        ifs_fold(ps.skip(1), ifs_apply(a, ps[0].0, ps[0].1))
    }
}

// ------------------------------------------------------------------
// Tag blocks
// ------------------------------------------------------------------

/// An `EXT-X-STREAM-INF` block: the tag line's attributes, a line terminator,
/// then a non-empty URI line, left just before its terminator.
pub open spec fn sp_stream_variant(s: Seq<u8>) -> Option<(int, SpecStreamVariant)> {
    if starts_with(s, lit_stream_tag()) {
        let t = s.skip(lit_stream_tag().len() as int);
        match sp_line_len(t) {
            Some(e) => {
                if 0 <= e && e <= t.len() {
                    match sp_pairs(t.take(e)) {
                        Some((_, ps)) => {
                            let a = sv_fold(ps, sv_init());
                            match sp_line_ending(t.skip(e)) {
                                Some(n2) => {
                                    let u = t.skip(e + n2);
                                    match sp_line_len(u) {
                                        Some(eu) => {
                                            if 1 <= eu && eu <= u.len() {
                                                Some(
                                                    (
                                                        lit_stream_tag().len() + e + n2 + eu,
                                                        SpecStreamVariant { uri: u.take(eu), ..a },
                                                    ),
                                                )
                                            } else {
                                                None
                                            }
                                        },
                                        None => None,
                                    }
                                },
                                None => None,
                            }
                        },
                        None => None,
                    }
                } else {
                    None
                }
            },
            None => None,
        }
    } else {
        None
    }
}

/// An `EXT-X-MEDIA` block: the tag, then its attribute list.
pub open spec fn sp_media_track(s: Seq<u8>) -> Option<(int, SpecMediaTrack)> {
    if starts_with(s, lit_media_tag()) {
        let t = s.skip(lit_media_tag().len() as int);
        match sp_pairs(t) {
            Some((n, ps)) => Some((lit_media_tag().len() + n, mt_fold(ps, mt_init()))),
            None => None,
        }
    } else {
        None
    }
}

/// An `EXT-X-I-FRAME-STREAM-INF` block: the tag line's attributes, left just
/// before the line terminator.
pub open spec fn sp_iframe_stream(s: Seq<u8>) -> Option<(int, SpecIFrameStream)> {
    if starts_with(s, lit_iframe_tag()) {
        let t = s.skip(lit_iframe_tag().len() as int);
        match sp_line_len(t) {
            Some(e) => {
                if 0 <= e && e <= t.len() {
                    match sp_pairs(t.take(e)) {
                        Some((_, ps)) => Some(
                            (lit_iframe_tag().len() + e, ifs_fold(ps, ifs_init())),
                        ),
                        None => None,
                    }
                } else {
                    None
                }
            },
            None => None,
        }
    } else {
        None
    }
}

// ------------------------------------------------------------------
// The document
// ------------------------------------------------------------------

/// The body after the header: recognized tag blocks are collected in source
/// order, every other line is consumed and dropped.
pub open spec fn sp_body(s: Seq<u8>) -> Option<
    (Seq<SpecStreamVariant>, Seq<SpecMediaTrack>, Seq<SpecIFrameStream>),
>
    decreases s.len(),
{
    if s.len() == 0 {
        Some((Seq::empty(), Seq::empty(), Seq::empty()))
    } else if starts_with(s, lit_iframe_tag().drop_last()) {
        match sp_iframe_stream(s) {
            Some((n, f)) => {
                if 0 < n && n <= s.len() {
                    match sp_body(s.skip(n)) {
                        Some((vs, ms, fs)) => Some((vs, ms, seq![f] + fs)),
                        None => None,
                    }
                } else {
                    None
                }
            },
            None => None,
        }
    } else if starts_with(s, lit_stream_tag().drop_last()) {
        match sp_stream_variant(s) {
            Some((n, v)) => {
                if 0 < n && n <= s.len() {
                    match sp_body(s.skip(n)) {
                        Some((vs, ms, fs)) => Some((seq![v] + vs, ms, fs)),
                        None => None,
                    }
                } else {
                    None
                }
            },
            None => None,
        }
    } else if starts_with(s, lit_media_tag().drop_last()) {
        match sp_media_track(s) {
            Some((n, m)) => {
                if 0 < n && n <= s.len() {
                    match sp_body(s.skip(n)) {
                        Some((vs, ms, fs)) => Some((vs, seq![m] + ms, fs)),
                        None => None,
                    }
                } else {
                    None
                }
            },
            None => None,
        }
    } else {
        match sp_line_len(s) {
            Some(e) => {
                if 0 <= e && e <= s.len() {
                    match sp_line_ending(s.skip(e)) {
                        Some(n2) => {
                            if e + n2 <= s.len() {
                                sp_body(s.skip(e + n2))
                            } else {
                                None
                            }
                        },
                        None => None,
                    }
                } else {
                    None
                }
            },
            None => None,
        }
    }
}

/// Whether the optional `EXT-X-INDEPENDENT-SEGMENTS` line is present: the tag
/// and a terminator; a tag not followed by a terminator is left for the body
/// to skip as an unrecognized line.
pub open spec fn sp_indep(s: Seq<u8>) -> Option<int> {
    if starts_with(s, lit_independent_segments()) {
        match sp_line_ending(s.skip(lit_independent_segments().len() as int)) {
            Some(n) => Some(lit_independent_segments().len() + n),
            None => None,
        }
    } else {
        None
    }
}

/// A whole document: the `#EXTM3U` header line, the optional
/// independent-segments line, then the body.
pub open spec fn sp_playlist(s: Seq<u8>) -> Option<SpecMasterPlaylist> {
    if starts_with(s, lit_extm3u()) {
        let t0 = s.skip(lit_extm3u().len() as int);
        match sp_line_ending(t0) {
            Some(n0) => {
                if n0 <= t0.len() {
                    let t1 = t0.skip(n0);
                    let ind = sp_indep(t1);
                    let t2 = match ind {
                        Some(n1) => if n1 <= t1.len() {
                            t1.skip(n1)
                        } else {
                            t1
                        },
                        None => t1,
                    };
                    match sp_body(t2) {
                        Some((vs, ms, fs)) => Some(
                            SpecMasterPlaylist {
                                independent_segments: ind is Some,
                                variants: vs,
                                media: ms,
                                frames: fs,
                            },
                        ),
                        None => None,
                    }
                } else {
                    None
                }
            },
            None => None,
        }
    } else {
        None
    }
}

// ------------------------------------------------------------------
// Rendering
// ------------------------------------------------------------------

/// `k` zero digits.
pub open spec fn zero_digits(k: int) -> Seq<u8> {
    Seq::new(k as nat, |i: int| 48u8)
}

/// The rendering of a frame rate: the mantissa's digits with the decimal
/// point inserted `scale` places from the right, zero-padded when the value
/// is below one.
pub open spec fn rate_bytes(r: FrameRate) -> Seq<u8> {
    let ds = dec_rep(r.mantissa as nat);
    if r.scale == 0 {
        ds
    } else if ds.len() > r.scale {
        ds.take(ds.len() - r.scale) + seq![46u8] + ds.skip(ds.len() - r.scale)
    } else {
        seq![48u8, 46u8] + zero_digits(r.scale - ds.len()) + ds
    }
}

/// The rendering of an unsigned integer attribute value.
pub open spec fn u32_bytes(n: u32) -> Seq<u8> {
    dec_rep(n as nat)
}

/// The rendering of a resolution value.
pub open spec fn resolution_bytes(r: (u32, u32)) -> Seq<u8> {
    u32_bytes(r.0) + seq![120u8] + u32_bytes(r.1)
}

/// Adds `KEY=value` for a present plain attribute.
pub open spec fn part_plain(ps: Seq<Seq<u8>>, key: Seq<u8>, v: Option<Seq<u8>>) -> Seq<Seq<u8>> {
    match v {
        Some(x) => ps.push(key + seq![61u8] + x),
        None => ps,
    }
}

/// Adds `KEY="value"` for a present quoted attribute.
pub open spec fn part_quoted(ps: Seq<Seq<u8>>, key: Seq<u8>, v: Option<Seq<u8>>) -> Seq<Seq<u8>> {
    match v {
        Some(x) => ps.push(key + seq![61u8, 34u8] + x + seq![34u8]),
        None => ps,
    }
}

/// Joins attribute renderings with `,`.
pub open spec fn join_comma(ps: Seq<Seq<u8>>) -> Seq<u8>
    decreases ps.len(),
{
    if ps.len() == 0 {
        Seq::empty()
    } else if ps.len() == 1 {
        ps[0]
    } else {
        join_comma(ps.drop_last()) + seq![44u8] + ps.last()
    }
}

/// The attribute parts of a media track, in emission order.
pub open spec fn mt_parts(m: SpecMediaTrack) -> Seq<Seq<u8>> {
    let p = part_plain(Seq::empty(), lit_key_type(), m.track_type);
    let p = part_quoted(p, lit_key_group_id(), m.group_id);
    let p = part_quoted(p, lit_key_name(), m.name);
    let p = part_quoted(p, lit_key_language(), m.language);
    let p = part_plain(p, lit_key_default(), m.default);
    let p = part_plain(p, lit_key_autoselect(), m.autoselect);
    let p = part_quoted(p, lit_key_channels(), m.channels);
    part_quoted(p, lit_key_uri(), m.uri)
}

/// The rendering of a media track line, terminator excluded.
pub open spec fn ser_media_track(m: SpecMediaTrack) -> Seq<u8> {
    lit_media_tag() + join_comma(mt_parts(m))
}

/// The attribute parts of a stream variant, in emission order.
pub open spec fn sv_parts(v: SpecStreamVariant) -> Seq<Seq<u8>> {
    let p = seq![lit_key_bandwidth() + seq![61u8] + u32_bytes(v.bandwidth)];
    let p = match v.average_bandwidth {
        Some(n) => p.push(lit_key_average_bandwidth() + seq![61u8] + u32_bytes(n)),
        None => p,
    };
    let p = part_quoted(p, lit_key_codecs(), v.codecs);
    let p = match v.resolution {
        Some(r) => p.push(lit_key_resolution() + seq![61u8] + resolution_bytes(r)),
        None => p,
    };
    let p = match v.frame_rate {
        Some(r) => p.push(lit_key_frame_rate() + seq![61u8] + rate_bytes(r)),
        None => p,
    };
    let p = part_plain(p, lit_key_video_range(), v.video_range);
    let p = part_quoted(p, lit_key_audio(), v.audio);
    part_plain(p, lit_key_closed_captions(), v.closed_captions)
}

/// The rendering of a stream variant: its tag line, a line feed, and its URI
/// line, final terminator excluded.
pub open spec fn ser_stream_variant(v: SpecStreamVariant) -> Seq<u8> {
    lit_stream_tag() + join_comma(sv_parts(v)) + seq![10u8] + v.uri
}

/// The attribute parts of an I-frame stream, in emission order.
pub open spec fn ifs_parts(f: SpecIFrameStream) -> Seq<Seq<u8>> {
    let p = seq![lit_key_bandwidth() + seq![61u8] + u32_bytes(f.bandwidth)];
    let p = part_quoted(p, lit_key_codecs(), f.codecs);
    let p = match f.resolution {
        Some(r) => p.push(lit_key_resolution() + seq![61u8] + resolution_bytes(r)),
        None => p,
    };
    let p = part_plain(p, lit_key_video_range(), f.video_range);
    p.push(lit_key_uri() + seq![61u8, 34u8] + f.uri + seq![34u8])
}

/// The rendering of an I-frame stream line, terminator excluded.
pub open spec fn ser_iframe_stream(f: SpecIFrameStream) -> Seq<u8> {
    lit_iframe_tag() + join_comma(ifs_parts(f))
}

/// All media track lines, one terminator after each.
pub open spec fn ser_media_seq(ms: Seq<SpecMediaTrack>) -> Seq<u8>
    decreases ms.len(),
{
    if ms.len() == 0 {
        Seq::empty()
    } else {
        ser_media_track(ms[0]) + seq![10u8] + ser_media_seq(ms.skip(1))
    }
}

/// All stream variant blocks, one terminator after each.
pub open spec fn ser_variant_seq(vs: Seq<SpecStreamVariant>) -> Seq<u8>
    decreases vs.len(),
{
    if vs.len() == 0 {
        Seq::empty()
    } else {
        ser_stream_variant(vs[0]) + seq![10u8] + ser_variant_seq(vs.skip(1))
    }
}

/// All I-frame stream lines, one terminator after each.
pub open spec fn ser_iframe_seq(fs: Seq<SpecIFrameStream>) -> Seq<u8>
    decreases fs.len(),
{
    if fs.len() == 0 {
        Seq::empty()
    } else {
        ser_iframe_stream(fs[0]) + seq![10u8] + ser_iframe_seq(fs.skip(1))
    }
}

/// The rendering of a whole playlist: header, optional independent-segments
/// line, then the media, variant and I-frame sections in that fixed order,
/// one blank line before each section.
pub open spec fn ser_playlist(p: SpecMasterPlaylist) -> Seq<u8> {
    lit_extm3u() + seq![10u8] + (if p.independent_segments {
        lit_independent_segments() + seq![10u8]
    } else {
        Seq::empty()
    }) + seq![10u8] + ser_media_seq(p.media) + seq![10u8] + ser_variant_seq(p.variants) + seq![
        10u8,
    ] + ser_iframe_seq(p.frames)
}


/// Appending a part to a joined list appends a separator and the part.
pub proof fn lemma_join_comma_push(ps: Seq<Seq<u8>>, x: Seq<u8>)
    ensures
        join_comma(ps.push(x)) == if ps.len() == 0 {
            x
        } else {
            join_comma(ps) + seq![44u8] + x
        },
{
    if ps.len() == 0 {
        assert(ps.push(x)[0] == x);
    } else {
        assert(ps.push(x).drop_last() =~= ps);
        assert(ps.push(x).last() == x);
    }
}

/// A media section renders as its front part plus its last line.
pub proof fn lemma_ser_media_seq_snoc(ms: Seq<SpecMediaTrack>)
    requires
        ms.len() > 0,
    ensures
        ser_media_seq(ms) == ser_media_seq(ms.drop_last()) + ser_media_track(ms.last()) + seq![
            10u8,
        ],
    decreases ms.len(),
{
    if ms.len() == 1 {
        assert(ms.drop_last() =~= Seq::<SpecMediaTrack>::empty());
        assert(ms.skip(1) =~= Seq::<SpecMediaTrack>::empty());
        assert(ser_media_track(ms[0]) + seq![10u8] + Seq::<u8>::empty() =~= ser_media_track(
            ms[0],
        ) + seq![10u8]);
        assert(Seq::<u8>::empty() + ser_media_track(ms.last()) + seq![10u8] =~= ser_media_track(
            ms.last(),
        ) + seq![10u8]);
    } else {
        lemma_ser_media_seq_snoc(ms.skip(1));
        assert(ms.skip(1).drop_last() =~= ms.drop_last().skip(1));
        assert(ms.skip(1).last() == ms.last());
        assert(ms.drop_last()[0] == ms[0]);
        assert(ser_media_seq(ms.drop_last()) == ser_media_track(ms[0]) + seq![10u8]
            + ser_media_seq(ms.drop_last().skip(1)));
        assert(ser_media_track(ms[0]) + seq![10u8] + (ser_media_seq(ms.drop_last().skip(1))
            + ser_media_track(ms.last()) + seq![10u8]) =~= (ser_media_track(ms[0]) + seq![10u8]
            + ser_media_seq(ms.drop_last().skip(1))) + ser_media_track(ms.last()) + seq![10u8]);
    }
}

/// A variant section renders as its front part plus its last block.
pub proof fn lemma_ser_variant_seq_snoc(vs: Seq<SpecStreamVariant>)
    requires
        vs.len() > 0,
    ensures
        ser_variant_seq(vs) == ser_variant_seq(vs.drop_last()) + ser_stream_variant(vs.last())
            + seq![10u8],
    decreases vs.len(),
{
    if vs.len() == 1 {
        assert(vs.drop_last() =~= Seq::<SpecStreamVariant>::empty());
        assert(vs.skip(1) =~= Seq::<SpecStreamVariant>::empty());
        assert(ser_stream_variant(vs[0]) + seq![10u8] + Seq::<u8>::empty() =~= ser_stream_variant(
            vs[0],
        ) + seq![10u8]);
        assert(Seq::<u8>::empty() + ser_stream_variant(vs.last()) + seq![10u8]
            =~= ser_stream_variant(vs.last()) + seq![10u8]);
    } else {
        lemma_ser_variant_seq_snoc(vs.skip(1));
        assert(vs.skip(1).drop_last() =~= vs.drop_last().skip(1));
        assert(vs.skip(1).last() == vs.last());
        assert(vs.drop_last()[0] == vs[0]);
        assert(ser_variant_seq(vs.drop_last()) == ser_stream_variant(vs[0]) + seq![10u8]
            + ser_variant_seq(vs.drop_last().skip(1)));
        assert(ser_stream_variant(vs[0]) + seq![10u8] + (ser_variant_seq(vs.drop_last().skip(1))
            + ser_stream_variant(vs.last()) + seq![10u8]) =~= (ser_stream_variant(vs[0]) + seq![
            10u8,
        ] + ser_variant_seq(vs.drop_last().skip(1))) + ser_stream_variant(vs.last()) + seq![10u8]);
    }
}

/// An I-frame section renders as its front part plus its last line.
pub proof fn lemma_ser_iframe_seq_snoc(fs: Seq<SpecIFrameStream>)
    requires
        fs.len() > 0,
    ensures
        ser_iframe_seq(fs) == ser_iframe_seq(fs.drop_last()) + ser_iframe_stream(fs.last())
            + seq![10u8],
    decreases fs.len(),
{
    if fs.len() == 1 {
        assert(fs.drop_last() =~= Seq::<SpecIFrameStream>::empty());
        assert(fs.skip(1) =~= Seq::<SpecIFrameStream>::empty());
        assert(ser_iframe_stream(fs[0]) + seq![10u8] + Seq::<u8>::empty() =~= ser_iframe_stream(
            fs[0],
        ) + seq![10u8]);
        assert(Seq::<u8>::empty() + ser_iframe_stream(fs.last()) + seq![10u8]
            =~= ser_iframe_stream(fs.last()) + seq![10u8]);
    } else {
        lemma_ser_iframe_seq_snoc(fs.skip(1));
        assert(fs.skip(1).drop_last() =~= fs.drop_last().skip(1));
        assert(fs.skip(1).last() == fs.last());
        assert(fs.drop_last()[0] == fs[0]);
        assert(ser_iframe_seq(fs.drop_last()) == ser_iframe_stream(fs[0]) + seq![10u8]
            + ser_iframe_seq(fs.drop_last().skip(1)));
        assert(ser_iframe_stream(fs[0]) + seq![10u8] + (ser_iframe_seq(fs.drop_last().skip(1))
            + ser_iframe_stream(fs.last()) + seq![10u8]) =~= (ser_iframe_stream(fs[0]) + seq![
            10u8,
        ] + ser_iframe_seq(fs.drop_last().skip(1))) + ser_iframe_stream(fs.last()) + seq![10u8]);
    }
}

} // verus!
