use m3u8_parse_sort::errors::PlaylistError;
use m3u8_parse_sort::numbers::FrameRate;
use m3u8_parse_sort::parser::{
    parse_iframe_stream, parse_media_track, parse_playlist, parse_stream_variant,
};

fn to_v(s: &str) -> Vec<u8> {
    s.as_bytes().to_vec()
}

fn to_s(v: &[u8]) -> String {
    String::from_utf8(v.to_vec()).unwrap()
}

#[test]
fn test_parse_media_track_round_trip() {
    let input = "#EXT-X-MEDIA:TYPE=AUDIO,GROUP-ID=\"aac-128k\",NAME=\"English\",LANGUAGE=\"en\",DEFAULT=YES,AUTOSELECT=YES,CHANNELS=\"2\",URI=\"audio/unenc/aac_128k/vod.m3u8\"\n";
    let bytes = to_v(input);
    let result = parse_media_track(&bytes);
    assert!(result.is_ok(), "Expected successful parsing but got error: {:?}", result);
    let (_, track) = result.unwrap();
    let serialized = to_s(&track.serialize());
    assert_eq!(serialized.trim(), input.trim());
}

#[test]
fn test_parse_stream_variant_round_trip() {
    let input = "#EXT-X-STREAM-INF:BANDWIDTH=2483789,AVERAGE-BANDWIDTH=1762745,CODECS=\"mp4a.40.2,hvc1.2.4.L90.90\",RESOLUTION=960x540,FRAME-RATE=23.97,VIDEO-RANGE=PQ,AUDIO=\"aac-128k\",CLOSED-CAPTIONS=NONE\nhdr10/unenc/1650k/vod.m3u8";
    let bytes = to_v(input);
    let result = parse_stream_variant(&bytes);
    assert!(result.is_ok(), "Expected successful parsing but got error: {:?}", result);
    let (_, variant) = result.unwrap();
    let serialized = to_s(&variant.serialize());
    assert_eq!(serialized.trim(), input.trim());
}

#[test]
fn test_parse_iframe_stream_round_trip() {
    let input = "#EXT-X-I-FRAME-STREAM-INF:BANDWIDTH=222552,CODECS=\"hvc1.2.4.L93.90\",RESOLUTION=1280x720,VIDEO-RANGE=PQ,URI=\"hdr10/unenc/3300k/vod-iframe.m3u8\"";
    let bytes = to_v(input);
    let result = parse_iframe_stream(&bytes);
    assert!(result.is_ok(), "Expected successful parsing but got error: {:?}", result);
    let (_, frame) = result.unwrap();
    let serialized = to_s(&frame.serialize());
    assert_eq!(serialized.trim(), input.trim());
}

#[test]
fn stream_variant_example_fields() {
    let input = "#EXT-X-STREAM-INF:BANDWIDTH=2483789,CODECS=\"mp4a.40.2\",RESOLUTION=960x540\nhdr10/1650k/vod.m3u8";
    let bytes = to_v(input);
    let (_, v) = parse_stream_variant(&bytes).unwrap();
    assert_eq!(v.bandwidth, 2483789);
    assert_eq!(v.codecs, Some(to_v("mp4a.40.2")));
    assert_eq!(v.resolution, Some((960, 540)));
    assert_eq!(v.uri, to_v("hdr10/1650k/vod.m3u8"));
    let serialized = to_s(&v.serialize());
    assert_eq!(serialized.trim(), input.trim());
}

#[test]
fn malformed_resolution_half_is_absent_not_an_error() {
    let input = "#EXT-X-STREAM-INF:BANDWIDTH=100,RESOLUTION=960x540abc\nv.m3u8";
    let (_, v) = parse_stream_variant(&to_v(input)).unwrap();
    assert_eq!(v.resolution, None);
    assert_eq!(v.bandwidth, 100);
}

#[test]
fn media_line_with_foreign_resolution_attribute_parses() {
    let input = "#EXT-X-MEDIA:TYPE=AUDIO,RESOLUTION=960x540abc,NAME=\"x\"\n";
    let result = parse_media_track(&to_v(input));
    assert!(result.is_ok());
    let (_, track) = result.unwrap();
    assert_eq!(track.track_type, Some(to_v("AUDIO")));
    assert_eq!(track.name, Some(to_v("x")));
}

#[test]
fn malformed_bandwidth_defaults_to_zero() {
    let input = "#EXT-X-STREAM-INF:BANDWIDTH=abc\nv.m3u8";
    let (_, v) = parse_stream_variant(&to_v(input)).unwrap();
    assert_eq!(v.bandwidth, 0);
}

#[test]
fn frame_rate_is_normalized() {
    let input = "#EXT-X-STREAM-INF:BANDWIDTH=1,FRAME-RATE=23.970\nv.m3u8";
    let (_, v) = parse_stream_variant(&to_v(input)).unwrap();
    assert_eq!(v.frame_rate, Some(FrameRate { mantissa: 2397, scale: 2 }));
    let serialized = to_s(&v.serialize());
    assert!(serialized.contains("FRAME-RATE=23.97,") || serialized.ends_with("FRAME-RATE=23.97\nv.m3u8"));
}

#[test]
fn malformed_frame_rate_defaults_to_zero() {
    let input = "#EXT-X-STREAM-INF:BANDWIDTH=1,FRAME-RATE=abc\nv.m3u8";
    let (_, v) = parse_stream_variant(&to_v(input)).unwrap();
    assert_eq!(v.frame_rate, Some(FrameRate { mantissa: 0, scale: 0 }));
}

#[test]
fn unknown_attribute_keys_are_dropped() {
    let input = "#EXT-X-STREAM-INF:BANDWIDTH=7,FOO=bar\nv.m3u8";
    let (_, v) = parse_stream_variant(&to_v(input)).unwrap();
    let serialized = to_s(&v.serialize());
    assert_eq!(serialized, "#EXT-X-STREAM-INF:BANDWIDTH=7\nv.m3u8");
}

#[test]
fn whole_document_round_trip() {
    let input = "#EXTM3U\n#EXT-X-INDEPENDENT-SEGMENTS\n\n#EXT-X-MEDIA:TYPE=AUDIO,GROUP-ID=\"aac-64k\",NAME=\"English\",LANGUAGE=\"en\",DEFAULT=YES,AUTOSELECT=YES,CHANNELS=\"2\",URI=\"audio/aac_64k/vod.m3u8\"\n\n#EXT-X-STREAM-INF:BANDWIDTH=2483789,AVERAGE-BANDWIDTH=1762745,CODECS=\"mp4a.40.2\",RESOLUTION=960x540,FRAME-RATE=23.97,VIDEO-RANGE=PQ,AUDIO=\"aac-128k\",CLOSED-CAPTIONS=NONE\nhdr10/unenc/1650k/vod.m3u8\n\n#EXT-X-I-FRAME-STREAM-INF:BANDWIDTH=222552,CODECS=\"hvc1.2.4.L93.90\",RESOLUTION=1280x720,VIDEO-RANGE=PQ,URI=\"hdr10/vod-iframe.m3u8\"\n";
    let playlist = parse_playlist(&to_v(input)).unwrap();
    let mut out: Vec<u8> = Vec::new();
    playlist.write_to(&mut out);
    assert_eq!(to_s(&out).trim(), input.trim());
}

#[test]
fn reserialization_is_idempotent() {
    // The source interleaves the sections; the first serialization
    // normalizes their order, and a second pass changes nothing.
    let input = "#EXTM3U\n#EXT-X-STREAM-INF:BANDWIDTH=300\nb.m3u8\n#EXT-X-MEDIA:TYPE=AUDIO,NAME=\"a\"\n#EXT-X-I-FRAME-STREAM-INF:BANDWIDTH=5,URI=\"i.m3u8\"\n#EXT-X-STREAM-INF:BANDWIDTH=100\na.m3u8\n";
    let playlist = parse_playlist(&to_v(input)).unwrap();
    let mut once: Vec<u8> = Vec::new();
    playlist.write_to(&mut once);
    let playlist2 = parse_playlist(&once).unwrap();
    let mut twice: Vec<u8> = Vec::new();
    playlist2.write_to(&mut twice);
    assert_eq!(to_s(&once), to_s(&twice));
}

#[test]
fn unknown_tag_line_is_tolerated_and_dropped() {
    let input = "#EXTM3U\n#EXT-X-MEDIA:TYPE=AUDIO,NAME=\"a\"\n#EXT-X-SOMETHING-ELSE:FOO=1\n#EXT-X-STREAM-INF:BANDWIDTH=100\na.m3u8\n";
    let result = parse_playlist(&to_v(input));
    assert!(result.is_ok(), "unknown tag should be skipped: {:?}", result);
    let playlist = result.unwrap();
    assert_eq!(playlist.media.len(), 1);
    assert_eq!(playlist.variants.len(), 1);
    let mut out: Vec<u8> = Vec::new();
    playlist.write_to(&mut out);
    assert!(!to_s(&out).contains("SOMETHING-ELSE"));
}

#[test]
fn missing_header_is_a_parse_error_with_remaining_input() {
    let input = "#EXT-X-MEDIA:TYPE=AUDIO,NAME=\"a\"\n";
    let result = parse_playlist(&to_v(input));
    match result {
        Err(PlaylistError::ParseError { remaining, .. }) => {
            assert_eq!(remaining, to_v(input));
        },
        other => panic!("expected a parse error, got {:?}", other),
    }
}

#[test]
fn truncated_header_is_incomplete() {
    let input = "#EXTM3U";
    let result = parse_playlist(&to_v(input));
    assert!(matches!(result, Err(PlaylistError::Incomplete { .. })), "got {:?}", result);
}

#[test]
fn stream_variant_without_uri_line_fails() {
    let input = "#EXTM3U\n#EXT-X-STREAM-INF:BANDWIDTH=100\n";
    let result = parse_playlist(&to_v(input));
    assert!(result.is_err(), "a variant without a URI line must fail: {:?}", result);
}

#[test]
fn tag_with_zero_attributes_fails() {
    let input = "#EXTM3U\n#EXT-X-MEDIA:\n";
    let result = parse_playlist(&to_v(input));
    assert!(result.is_err(), "a tag without attributes must fail: {:?}", result);
}

#[test]
fn unterminated_quote_fails() {
    let input = "#EXTM3U\n#EXT-X-MEDIA:NAME=\"abc\n";
    let result = parse_playlist(&to_v(input));
    assert!(result.is_err(), "an unterminated quote must fail: {:?}", result);
}

#[test]
fn crlf_line_endings_are_accepted() {
    let input = "#EXTM3U\r\n#EXT-X-STREAM-INF:BANDWIDTH=9\r\nv.m3u8\r\n";
    let playlist = parse_playlist(&to_v(input)).unwrap();
    assert_eq!(playlist.variants.len(), 1);
    assert_eq!(playlist.variants[0].bandwidth, 9);
    assert_eq!(playlist.variants[0].uri, to_v("v.m3u8"));
}

#[test]
fn independent_segments_flag_is_read_and_written() {
    let with_flag = "#EXTM3U\n#EXT-X-INDEPENDENT-SEGMENTS\n";
    let playlist = parse_playlist(&to_v(with_flag)).unwrap();
    assert!(playlist.independent_segments);
    let without = "#EXTM3U\n";
    let playlist2 = parse_playlist(&to_v(without)).unwrap();
    assert!(!playlist2.independent_segments);
    let mut out: Vec<u8> = Vec::new();
    playlist.write_to(&mut out);
    assert!(to_s(&out).contains("#EXT-X-INDEPENDENT-SEGMENTS"));
}
