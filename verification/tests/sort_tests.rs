use m3u8_parse_sort::parser::parse_playlist;
use m3u8_parse_sort::sort::{get_sort_order, SortIFrameBy, SortMediaBy, SortStreamBy};

fn to_v(s: &str) -> Vec<u8> {
    s.as_bytes().to_vec()
}

fn to_s(v: &[u8]) -> String {
    String::from_utf8(v.to_vec()).unwrap()
}

fn variant_block(bandwidth: u32, uri: &str) -> String {
    format!("#EXT-X-STREAM-INF:BANDWIDTH={}\n{}\n", bandwidth, uri)
}

#[test]
fn sort_by_bandwidth_orders_ascending() {
    // Bandwidths [500, 100, 300] sorted by (Bandwidth, Bandwidth) come out
    // as [100, 300, 500].
    let input = format!(
        "#EXTM3U\n{}{}{}",
        variant_block(500, "a.m3u8"),
        variant_block(100, "b.m3u8"),
        variant_block(300, "c.m3u8"),
    );
    let mut playlist = parse_playlist(&to_v(&input)).unwrap();
    playlist.sort_stream((SortStreamBy::Bandwidth, SortStreamBy::Bandwidth));
    let bandwidths: Vec<u32> = playlist.variants.iter().map(|v| v.bandwidth).collect();
    assert_eq!(bandwidths, vec![100, 300, 500]);
}

#[test]
fn sort_is_stable_for_tied_keys() {
    // Equal bandwidths: the source order of the URIs must survive.
    let input = format!(
        "#EXTM3U\n{}{}{}",
        variant_block(100, "first.m3u8"),
        variant_block(100, "second.m3u8"),
        variant_block(100, "third.m3u8"),
    );
    let mut playlist = parse_playlist(&to_v(&input)).unwrap();
    playlist.sort_stream((SortStreamBy::Bandwidth, SortStreamBy::Bandwidth));
    let uris: Vec<String> = playlist.variants.iter().map(|v| to_s(&v.uri)).collect();
    assert_eq!(uris, vec!["first.m3u8", "second.m3u8", "third.m3u8"]);
}

#[test]
fn sorting_by_an_absent_field_keeps_the_order() {
    // No variant has AVERAGE-BANDWIDTH: sorting by it changes nothing.
    let input = format!(
        "#EXTM3U\n{}{}{}",
        variant_block(500, "x.m3u8"),
        variant_block(100, "y.m3u8"),
        variant_block(300, "z.m3u8"),
    );
    let mut playlist = parse_playlist(&to_v(&input)).unwrap();
    playlist.sort_stream((SortStreamBy::AverageBandwidth, SortStreamBy::AverageBandwidth));
    let uris: Vec<String> = playlist.variants.iter().map(|v| to_s(&v.uri)).collect();
    assert_eq!(uris, vec!["x.m3u8", "y.m3u8", "z.m3u8"]);
}

#[test]
fn secondary_key_breaks_primary_ties() {
    let input = "#EXTM3U\n\
        #EXT-X-STREAM-INF:BANDWIDTH=100,AUDIO=\"b\"\nb1.m3u8\n\
        #EXT-X-STREAM-INF:BANDWIDTH=100,AUDIO=\"a\"\na1.m3u8\n\
        #EXT-X-STREAM-INF:BANDWIDTH=50,AUDIO=\"z\"\nz1.m3u8\n";
    let mut playlist = parse_playlist(&to_v(input)).unwrap();
    playlist.sort_stream((SortStreamBy::Bandwidth, SortStreamBy::Audio));
    let uris: Vec<String> = playlist.variants.iter().map(|v| to_s(&v.uri)).collect();
    assert_eq!(uris, vec!["z1.m3u8", "a1.m3u8", "b1.m3u8"]);
}

#[test]
fn absent_optional_field_sorts_before_present() {
    let input = "#EXTM3U\n\
        #EXT-X-STREAM-INF:BANDWIDTH=1,AVERAGE-BANDWIDTH=10\nhas.m3u8\n\
        #EXT-X-STREAM-INF:BANDWIDTH=2\nnone.m3u8\n";
    let mut playlist = parse_playlist(&to_v(input)).unwrap();
    playlist.sort_stream((SortStreamBy::AverageBandwidth, SortStreamBy::Bandwidth));
    let uris: Vec<String> = playlist.variants.iter().map(|v| to_s(&v.uri)).collect();
    assert_eq!(uris, vec!["none.m3u8", "has.m3u8"]);
}

#[test]
fn media_tracks_sort_by_group_then_channels() {
    let input = "#EXTM3U\n\
        #EXT-X-MEDIA:TYPE=AUDIO,GROUP-ID=\"bbb\",CHANNELS=\"6\",NAME=\"n1\"\n\
        #EXT-X-MEDIA:TYPE=AUDIO,GROUP-ID=\"aaa\",CHANNELS=\"2\",NAME=\"n2\"\n\
        #EXT-X-MEDIA:TYPE=AUDIO,GROUP-ID=\"aaa\",CHANNELS=\"1\",NAME=\"n3\"\n";
    let mut playlist = parse_playlist(&to_v(input)).unwrap();
    playlist.sort_media((SortMediaBy::GroupId, SortMediaBy::Channels));
    let names: Vec<String> = playlist
        .media
        .iter()
        .map(|m| to_s(m.name.as_ref().unwrap()))
        .collect();
    assert_eq!(names, vec!["n3", "n2", "n1"]);
}

#[test]
fn iframe_streams_sort_by_resolution_then_bandwidth() {
    let input = "#EXTM3U\n\
        #EXT-X-I-FRAME-STREAM-INF:BANDWIDTH=9,RESOLUTION=1920x1080,URI=\"c.m3u8\"\n\
        #EXT-X-I-FRAME-STREAM-INF:BANDWIDTH=5,RESOLUTION=1280x720,URI=\"b.m3u8\"\n\
        #EXT-X-I-FRAME-STREAM-INF:BANDWIDTH=3,RESOLUTION=1280x720,URI=\"a.m3u8\"\n";
    let mut playlist = parse_playlist(&to_v(input)).unwrap();
    playlist.sort_iframe((SortIFrameBy::Resolution, SortIFrameBy::Bandwidth));
    let uris: Vec<String> = playlist.frames.iter().map(|f| to_s(&f.uri)).collect();
    assert_eq!(uris, vec!["a.m3u8", "b.m3u8", "c.m3u8"]);
}

#[test]
fn sorted_playlist_serializes_in_sorted_order() {
    let input = format!(
        "#EXTM3U\n{}{}",
        variant_block(300, "big.m3u8"),
        variant_block(100, "small.m3u8"),
    );
    let mut playlist = parse_playlist(&to_v(&input)).unwrap();
    playlist.sort_stream((SortStreamBy::Bandwidth, SortStreamBy::Bandwidth));
    let mut out: Vec<u8> = Vec::new();
    playlist.write_to(&mut out);
    let text = to_s(&out);
    let small = text.find("BANDWIDTH=100").unwrap();
    let big = text.find("BANDWIDTH=300").unwrap();
    assert!(small < big);
}

#[test]
fn get_sort_order_defaults_and_selections() {
    let empty: Vec<SortStreamBy> = vec![];
    assert_eq!(
        get_sort_order(&empty),
        (SortStreamBy::Bandwidth, SortStreamBy::Bandwidth),
    );
    let one = vec![SortStreamBy::Audio];
    assert_eq!(get_sort_order(&one), (SortStreamBy::Audio, SortStreamBy::Bandwidth));
    let two = vec![SortStreamBy::Resolution, SortStreamBy::Codecs];
    assert_eq!(get_sort_order(&two), (SortStreamBy::Resolution, SortStreamBy::Codecs));
    let media: Vec<SortMediaBy> = vec![];
    assert_eq!(get_sort_order(&media), (SortMediaBy::GroupId, SortMediaBy::GroupId));
    let iframe: Vec<SortIFrameBy> = vec![];
    assert_eq!(get_sort_order(&iframe), (SortIFrameBy::Bandwidth, SortIFrameBy::Bandwidth));
}
