//! The literal byte sequences of the playlist grammar: tag prefixes and
//! attribute key names, each given once as a specification-level sequence and
//! once as an executable constructor proved to produce exactly those bytes.

use vstd::prelude::*;

verus! {

/// The bytes of `#EXTM3U`.
pub open spec fn lit_extm3u() -> Seq<u8> {
    seq![35u8, 69u8, 88u8, 84u8, 77u8, 51u8, 85u8]
}

/// Builds the bytes of `#EXTM3U`.
pub fn make_extm3u() -> (r: Vec<u8>)
    ensures
        r@ == lit_extm3u(),
{
    let mut v: Vec<u8> = Vec::new();
    v.push(35u8);
    v.push(69u8);
    v.push(88u8);
    v.push(84u8);
    v.push(77u8);
    v.push(51u8);
    v.push(85u8);
    proof { assert(v@ =~= lit_extm3u()); }
    v
}

/// The bytes of `#EXT-X-INDEPENDENT-SEGMENTS`.
pub open spec fn lit_independent_segments() -> Seq<u8> {
    seq![35u8, 69u8, 88u8, 84u8, 45u8, 88u8, 45u8, 73u8, 78u8, 68u8, 69u8, 80u8, 69u8, 78u8, 68u8, 69u8, 78u8, 84u8, 45u8, 83u8, 69u8, 71u8, 77u8, 69u8, 78u8, 84u8, 83u8]
}

/// Builds the bytes of `#EXT-X-INDEPENDENT-SEGMENTS`.
pub fn make_independent_segments() -> (r: Vec<u8>)
    ensures
        r@ == lit_independent_segments(),
{
    let mut v: Vec<u8> = Vec::new();
    v.push(35u8);
    v.push(69u8);
    v.push(88u8);
    v.push(84u8);
    v.push(45u8);
    v.push(88u8);
    v.push(45u8);
    v.push(73u8);
    v.push(78u8);
    v.push(68u8);
    v.push(69u8);
    v.push(80u8);
    v.push(69u8);
    v.push(78u8);
    v.push(68u8);
    v.push(69u8);
    v.push(78u8);
    v.push(84u8);
    v.push(45u8);
    v.push(83u8);
    v.push(69u8);
    v.push(71u8);
    v.push(77u8);
    v.push(69u8);
    v.push(78u8);
    v.push(84u8);
    v.push(83u8);
    proof { assert(v@ =~= lit_independent_segments()); }
    v
}

/// The bytes of `#EXT-X-MEDIA:`.
pub open spec fn lit_media_tag() -> Seq<u8> {
    seq![35u8, 69u8, 88u8, 84u8, 45u8, 88u8, 45u8, 77u8, 69u8, 68u8, 73u8, 65u8, 58u8]
}

/// Builds the bytes of `#EXT-X-MEDIA:`.
pub fn make_media_tag() -> (r: Vec<u8>)
    ensures
        r@ == lit_media_tag(),
{
    let mut v: Vec<u8> = Vec::new();
    v.push(35u8);
    v.push(69u8);
    v.push(88u8);
    v.push(84u8);
    v.push(45u8);
    v.push(88u8);
    v.push(45u8);
    v.push(77u8);
    v.push(69u8);
    v.push(68u8);
    v.push(73u8);
    v.push(65u8);
    v.push(58u8);
    proof { assert(v@ =~= lit_media_tag()); }
    v
}

/// The bytes of `#EXT-X-STREAM-INF:`.
pub open spec fn lit_stream_tag() -> Seq<u8> {
    seq![35u8, 69u8, 88u8, 84u8, 45u8, 88u8, 45u8, 83u8, 84u8, 82u8, 69u8, 65u8, 77u8, 45u8, 73u8, 78u8, 70u8, 58u8]
}

/// Builds the bytes of `#EXT-X-STREAM-INF:`.
pub fn make_stream_tag() -> (r: Vec<u8>)
    ensures
        r@ == lit_stream_tag(),
{
    let mut v: Vec<u8> = Vec::new();
    v.push(35u8);
    v.push(69u8);
    v.push(88u8);
    v.push(84u8);
    v.push(45u8);
    v.push(88u8);
    v.push(45u8);
    v.push(83u8);
    v.push(84u8);
    v.push(82u8);
    v.push(69u8);
    v.push(65u8);
    v.push(77u8);
    v.push(45u8);
    v.push(73u8);
    v.push(78u8);
    v.push(70u8);
    v.push(58u8);
    proof { assert(v@ =~= lit_stream_tag()); }
    v
}

/// The bytes of `#EXT-X-I-FRAME-STREAM-INF:`.
pub open spec fn lit_iframe_tag() -> Seq<u8> {
    seq![35u8, 69u8, 88u8, 84u8, 45u8, 88u8, 45u8, 73u8, 45u8, 70u8, 82u8, 65u8, 77u8, 69u8, 45u8, 83u8, 84u8, 82u8, 69u8, 65u8, 77u8, 45u8, 73u8, 78u8, 70u8, 58u8]
}

/// Builds the bytes of `#EXT-X-I-FRAME-STREAM-INF:`.
pub fn make_iframe_tag() -> (r: Vec<u8>)
    ensures
        r@ == lit_iframe_tag(),
{
    let mut v: Vec<u8> = Vec::new();
    v.push(35u8);
    v.push(69u8);
    v.push(88u8);
    v.push(84u8);
    v.push(45u8);
    v.push(88u8);
    v.push(45u8);
    v.push(73u8);
    v.push(45u8);
    v.push(70u8);
    v.push(82u8);
    v.push(65u8);
    v.push(77u8);
    v.push(69u8);
    v.push(45u8);
    v.push(83u8);
    v.push(84u8);
    v.push(82u8);
    v.push(69u8);
    v.push(65u8);
    v.push(77u8);
    v.push(45u8);
    v.push(73u8);
    v.push(78u8);
    v.push(70u8);
    v.push(58u8);
    proof { assert(v@ =~= lit_iframe_tag()); }
    v
}

/// The bytes of `BANDWIDTH`.
pub open spec fn lit_key_bandwidth() -> Seq<u8> {
    seq![66u8, 65u8, 78u8, 68u8, 87u8, 73u8, 68u8, 84u8, 72u8]
}

/// Builds the bytes of `BANDWIDTH`.
pub fn make_key_bandwidth() -> (r: Vec<u8>)
    ensures
        r@ == lit_key_bandwidth(),
{
    let mut v: Vec<u8> = Vec::new();
    v.push(66u8);
    v.push(65u8);
    v.push(78u8);
    v.push(68u8);
    v.push(87u8);
    v.push(73u8);
    v.push(68u8);
    v.push(84u8);
    v.push(72u8);
    proof { assert(v@ =~= lit_key_bandwidth()); }
    v
}

/// The bytes of `AVERAGE-BANDWIDTH`.
pub open spec fn lit_key_average_bandwidth() -> Seq<u8> {
    seq![65u8, 86u8, 69u8, 82u8, 65u8, 71u8, 69u8, 45u8, 66u8, 65u8, 78u8, 68u8, 87u8, 73u8, 68u8, 84u8, 72u8]
}

/// Builds the bytes of `AVERAGE-BANDWIDTH`.
pub fn make_key_average_bandwidth() -> (r: Vec<u8>)
    ensures
        r@ == lit_key_average_bandwidth(),
{
    let mut v: Vec<u8> = Vec::new();
    v.push(65u8);
    v.push(86u8);
    v.push(69u8);
    v.push(82u8);
    v.push(65u8);
    v.push(71u8);
    v.push(69u8);
    v.push(45u8);
    v.push(66u8);
    v.push(65u8);
    v.push(78u8);
    v.push(68u8);
    v.push(87u8);
    v.push(73u8);
    v.push(68u8);
    v.push(84u8);
    v.push(72u8);
    proof { assert(v@ =~= lit_key_average_bandwidth()); }
    v
}

/// The bytes of `CODECS`.
pub open spec fn lit_key_codecs() -> Seq<u8> {
    seq![67u8, 79u8, 68u8, 69u8, 67u8, 83u8]
}

/// Builds the bytes of `CODECS`.
pub fn make_key_codecs() -> (r: Vec<u8>)
    ensures
        r@ == lit_key_codecs(),
{
    let mut v: Vec<u8> = Vec::new();
    v.push(67u8);
    v.push(79u8);
    v.push(68u8);
    v.push(69u8);
    v.push(67u8);
    v.push(83u8);
    proof { assert(v@ =~= lit_key_codecs()); }
    v
}

/// The bytes of `RESOLUTION`.
pub open spec fn lit_key_resolution() -> Seq<u8> {
    seq![82u8, 69u8, 83u8, 79u8, 76u8, 85u8, 84u8, 73u8, 79u8, 78u8]
}

/// Builds the bytes of `RESOLUTION`.
pub fn make_key_resolution() -> (r: Vec<u8>)
    ensures
        r@ == lit_key_resolution(),
{
    let mut v: Vec<u8> = Vec::new();
    v.push(82u8);
    v.push(69u8);
    v.push(83u8);
    v.push(79u8);
    v.push(76u8);
    v.push(85u8);
    v.push(84u8);
    v.push(73u8);
    v.push(79u8);
    v.push(78u8);
    proof { assert(v@ =~= lit_key_resolution()); }
    v
}

/// The bytes of `FRAME-RATE`.
pub open spec fn lit_key_frame_rate() -> Seq<u8> {
    seq![70u8, 82u8, 65u8, 77u8, 69u8, 45u8, 82u8, 65u8, 84u8, 69u8]
}

/// Builds the bytes of `FRAME-RATE`.
pub fn make_key_frame_rate() -> (r: Vec<u8>)
    ensures
        r@ == lit_key_frame_rate(),
{
    let mut v: Vec<u8> = Vec::new();
    v.push(70u8);
    v.push(82u8);
    v.push(65u8);
    v.push(77u8);
    v.push(69u8);
    v.push(45u8);
    v.push(82u8);
    v.push(65u8);
    v.push(84u8);
    v.push(69u8);
    proof { assert(v@ =~= lit_key_frame_rate()); }
    v
}

/// The bytes of `VIDEO-RANGE`.
pub open spec fn lit_key_video_range() -> Seq<u8> {
    seq![86u8, 73u8, 68u8, 69u8, 79u8, 45u8, 82u8, 65u8, 78u8, 71u8, 69u8]
}

/// Builds the bytes of `VIDEO-RANGE`.
pub fn make_key_video_range() -> (r: Vec<u8>)
    ensures
        r@ == lit_key_video_range(),
{
    let mut v: Vec<u8> = Vec::new();
    v.push(86u8);
    v.push(73u8);
    v.push(68u8);
    v.push(69u8);
    v.push(79u8);
    v.push(45u8);
    v.push(82u8);
    v.push(65u8);
    v.push(78u8);
    v.push(71u8);
    v.push(69u8);
    proof { assert(v@ =~= lit_key_video_range()); }
    v
}

/// The bytes of `AUDIO`.
pub open spec fn lit_key_audio() -> Seq<u8> {
    seq![65u8, 85u8, 68u8, 73u8, 79u8]
}

/// Builds the bytes of `AUDIO`.
pub fn make_key_audio() -> (r: Vec<u8>)
    ensures
        r@ == lit_key_audio(),
{
    let mut v: Vec<u8> = Vec::new();
    v.push(65u8);
    v.push(85u8);
    v.push(68u8);
    v.push(73u8);
    v.push(79u8);
    proof { assert(v@ =~= lit_key_audio()); }
    v
}

/// The bytes of `CLOSED-CAPTIONS`.
pub open spec fn lit_key_closed_captions() -> Seq<u8> {
    seq![67u8, 76u8, 79u8, 83u8, 69u8, 68u8, 45u8, 67u8, 65u8, 80u8, 84u8, 73u8, 79u8, 78u8, 83u8]
}

/// Builds the bytes of `CLOSED-CAPTIONS`.
pub fn make_key_closed_captions() -> (r: Vec<u8>)
    ensures
        r@ == lit_key_closed_captions(),
{
    let mut v: Vec<u8> = Vec::new();
    v.push(67u8);
    v.push(76u8);
    v.push(79u8);
    v.push(83u8);
    v.push(69u8);
    v.push(68u8);
    v.push(45u8);
    v.push(67u8);
    v.push(65u8);
    v.push(80u8);
    v.push(84u8);
    v.push(73u8);
    v.push(79u8);
    v.push(78u8);
    v.push(83u8);
    proof { assert(v@ =~= lit_key_closed_captions()); }
    v
}

/// The bytes of `TYPE`.
pub open spec fn lit_key_type() -> Seq<u8> {
    seq![84u8, 89u8, 80u8, 69u8]
}

/// Builds the bytes of `TYPE`.
pub fn make_key_type() -> (r: Vec<u8>)
    ensures
        r@ == lit_key_type(),
{
    let mut v: Vec<u8> = Vec::new();
    v.push(84u8);
    v.push(89u8);
    v.push(80u8);
    v.push(69u8);
    proof { assert(v@ =~= lit_key_type()); }
    v
}

/// The bytes of `GROUP-ID`.
pub open spec fn lit_key_group_id() -> Seq<u8> {
    seq![71u8, 82u8, 79u8, 85u8, 80u8, 45u8, 73u8, 68u8]
}

/// Builds the bytes of `GROUP-ID`.
pub fn make_key_group_id() -> (r: Vec<u8>)
    ensures
        r@ == lit_key_group_id(),
{
    let mut v: Vec<u8> = Vec::new();
    v.push(71u8);
    v.push(82u8);
    v.push(79u8);
    v.push(85u8);
    v.push(80u8);
    v.push(45u8);
    v.push(73u8);
    v.push(68u8);
    proof { assert(v@ =~= lit_key_group_id()); }
    v
}

/// The bytes of `NAME`.
pub open spec fn lit_key_name() -> Seq<u8> {
    seq![78u8, 65u8, 77u8, 69u8]
}

/// Builds the bytes of `NAME`.
pub fn make_key_name() -> (r: Vec<u8>)
    ensures
        r@ == lit_key_name(),
{
    let mut v: Vec<u8> = Vec::new();
    v.push(78u8);
    v.push(65u8);
    v.push(77u8);
    v.push(69u8);
    proof { assert(v@ =~= lit_key_name()); }
    v
}

/// The bytes of `LANGUAGE`.
pub open spec fn lit_key_language() -> Seq<u8> {
    seq![76u8, 65u8, 78u8, 71u8, 85u8, 65u8, 71u8, 69u8]
}

/// Builds the bytes of `LANGUAGE`.
pub fn make_key_language() -> (r: Vec<u8>)
    ensures
        r@ == lit_key_language(),
{
    let mut v: Vec<u8> = Vec::new();
    v.push(76u8);
    v.push(65u8);
    v.push(78u8);
    v.push(71u8);
    v.push(85u8);
    v.push(65u8);
    v.push(71u8);
    v.push(69u8);
    proof { assert(v@ =~= lit_key_language()); }
    v
}

/// The bytes of `DEFAULT`.
pub open spec fn lit_key_default() -> Seq<u8> {
    seq![68u8, 69u8, 70u8, 65u8, 85u8, 76u8, 84u8]
}

/// Builds the bytes of `DEFAULT`.
pub fn make_key_default() -> (r: Vec<u8>)
    ensures
        r@ == lit_key_default(),
{
    let mut v: Vec<u8> = Vec::new();
    v.push(68u8);
    v.push(69u8);
    v.push(70u8);
    v.push(65u8);
    v.push(85u8);
    v.push(76u8);
    v.push(84u8);
    proof { assert(v@ =~= lit_key_default()); }
    v
}

/// The bytes of `AUTOSELECT`.
pub open spec fn lit_key_autoselect() -> Seq<u8> {
    seq![65u8, 85u8, 84u8, 79u8, 83u8, 69u8, 76u8, 69u8, 67u8, 84u8]
}

/// Builds the bytes of `AUTOSELECT`.
pub fn make_key_autoselect() -> (r: Vec<u8>)
    ensures
        r@ == lit_key_autoselect(),
{
    let mut v: Vec<u8> = Vec::new();
    v.push(65u8);
    v.push(85u8);
    v.push(84u8);
    v.push(79u8);
    v.push(83u8);
    v.push(69u8);
    v.push(76u8);
    v.push(69u8);
    v.push(67u8);
    v.push(84u8);
    proof { assert(v@ =~= lit_key_autoselect()); }
    v
}

/// The bytes of `CHANNELS`.
pub open spec fn lit_key_channels() -> Seq<u8> {
    seq![67u8, 72u8, 65u8, 78u8, 78u8, 69u8, 76u8, 83u8]
}

/// Builds the bytes of `CHANNELS`.
pub fn make_key_channels() -> (r: Vec<u8>)
    ensures
        r@ == lit_key_channels(),
{
    let mut v: Vec<u8> = Vec::new();
    v.push(67u8);
    v.push(72u8);
    v.push(65u8);
    v.push(78u8);
    v.push(78u8);
    v.push(69u8);
    v.push(76u8);
    v.push(83u8);
    proof { assert(v@ =~= lit_key_channels()); }
    v
}

/// The bytes of `URI`.
pub open spec fn lit_key_uri() -> Seq<u8> {
    seq![85u8, 82u8, 73u8]
}

/// Builds the bytes of `URI`.
pub fn make_key_uri() -> (r: Vec<u8>)
    ensures
        r@ == lit_key_uri(),
{
    let mut v: Vec<u8> = Vec::new();
    v.push(85u8);
    v.push(82u8);
    v.push(73u8);
    proof { assert(v@ =~= lit_key_uri()); }
    v
}

} // verus!
