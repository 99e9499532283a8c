use rsedit::text::{
    parse_srt, parse_subtitles, parse_time_range, parse_timestamp, parse_vtt, text_to_subtitle,
    Subtitle,
};

#[test]
fn parses_srt() {
    let srt = "1\n00:00:01,000 --> 00:00:03,500\nHello world\n\n2\n00:00:04,000 --> 00:00:05,000\nSecond line";
    let subs = parse_srt(srt);
    assert_eq!(subs.len(), 2);
    assert_eq!(subs[0].start_us, 1_000_000);
    assert_eq!(subs[0].end_us, 3_500_000);
    assert_eq!(subs[0].text, "Hello world");
}

#[test]
fn parses_vtt() {
    let vtt = "WEBVTT\n\n00:01.000 --> 00:02.500\nHi there";
    let subs = parse_vtt(vtt);
    assert_eq!(subs.len(), 1);
    assert_eq!(subs[0].start_us, 1_000_000);
    assert_eq!(subs[0].text, "Hi there");
}

#[test]
fn timecode_helpers() {
    assert_eq!(parse_timestamp("00:00:01,500").unwrap(), 1_500_000);
    assert_eq!(parse_timestamp("01:02.250").unwrap(), 62_250_000);
}

#[test]
fn timestamps_of_all_forms() {
    assert_eq!(parse_timestamp("7.125"), Some(7_125_000));
    assert_eq!(parse_timestamp("01:00:00.001"), Some(3_600_001_000));
    assert_eq!(parse_timestamp("42"), Some(42_000_000));
    assert_eq!(parse_timestamp(" 1 : 2 .5000"), Some(62_500_000));
    // Only the first three digits of a fraction count, and they are thousandths.
    assert_eq!(parse_timestamp("0.12345"), Some(123_000));
    assert_eq!(parse_timestamp("0.5"), Some(5_000));
    assert_eq!(parse_timestamp("-3.250"), Some(-2_750_000));
    // Parts that are no numbers are passed over.
    assert_eq!(parse_timestamp("xx:05.000"), Some(5_000_000));
    assert_eq!(parse_timestamp("a:b.000"), None);
    assert_eq!(parse_timestamp(""), None);
    assert_eq!(parse_timestamp("1."), None);
    assert_eq!(parse_timestamp("1.5x"), None);
}

#[test]
fn fractions_that_are_numbers_in_other_ways() {
    assert_eq!(parse_timestamp("1.1e2"), Some(1_100_000));
    assert_eq!(parse_timestamp("1.9E9"), Some(9_000_001_000_000));
    assert_eq!(parse_timestamp("1.inf"), Some(i64::MAX));
    assert_eq!(parse_timestamp("1.NaN"), Some(0));
    assert_eq!(parse_timestamp("1.-25"), Some(975_000));
    assert_eq!(parse_timestamp("1.+25"), Some(1_025_000));
    assert_eq!(parse_timestamp("1.-"), None);
    assert_eq!(parse_timestamp("1.1e"), None);
}

#[test]
fn time_ranges() {
    assert_eq!(
        parse_time_range("00:00:01,000 --> 00:00:02,000"),
        Some((1_000_000, 2_000_000))
    );
    assert_eq!(parse_time_range("1.000-->2.000-->3.000"), Some((1_000_000, 2_000_000)));
    assert_eq!(parse_time_range("1.000"), None);
    assert_eq!(parse_time_range("1.000 --> x"), None);
}

#[test]
fn blocks_without_times_or_text_are_left_out() {
    let srt = "1\n00:00:01,000 --> 00:00:02,000\n\n\n2\nno times\ntext\n\n3\n00:00:03,000 --> 00:00:04,000\nkept\nwith a second line";
    let subs = parse_srt(srt);
    assert_eq!(subs.len(), 1);
    assert_eq!(subs[0].text, "kept\nwith a second line");
    assert_eq!(parse_srt("").len(), 0);
}

#[test]
fn carriage_returns_end_lines_too() {
    let subs = parse_srt("1\r\n00:00:01,000 --> 00:00:02,000\r\nHi\r\nyou");
    assert_eq!(subs.len(), 1);
    assert_eq!(subs[0].text, "Hi\nyou");
}

#[test]
fn vtt_headers_and_notes_are_left_out() {
    let vtt = "WEBVTT - title\n\nNOTE a remark\n\nid\n00:01.000 --> 00:02.000\nText";
    let subs = parse_vtt(vtt);
    assert_eq!(subs.len(), 1);
    assert_eq!(subs[0].text, "Text");
    // More than one line before the times is text.
    let subs = parse_vtt("a\nb\n00:01.000 --> 00:02.000\nText");
    assert_eq!(subs[0].text, "a\nb\nText");
    // A further line with an arrow is no text.
    let subs = parse_vtt("00:01.000 --> 00:02.000\nA\nx --> y\nB");
    assert_eq!(subs[0].text, "A\nB");
}

#[test]
fn the_index_of_a_cue_may_be_missing() {
    let subs = parse_srt("00:00:01,000 --> 00:00:02,000\nHi");
    assert_eq!(
        subs,
        vec![Subtitle { start_us: 1_000_000, end_us: 2_000_000, text: "Hi".to_string() }]
    );
    assert_eq!(parse_srt("00:00:01,000 --> 00:00:02,000").len(), 0);
    // An arrow without times is an index like any other.
    let subs = parse_srt("a --> b\n00:00:01,000 --> 00:00:02,000\nHi");
    assert_eq!(subs[0].text, "Hi");
}

#[test]
fn vtt_takes_srt_cues() {
    let srt = "1\n00:00:01,000 --> 00:00:02,000\nHi\n\n2\n00:00:03,000 --> 00:00:04,500\nyou\nthere";
    let subs = parse_vtt(srt);
    assert_eq!(subs, parse_srt(srt));
    assert_eq!(
        subs[0],
        Subtitle { start_us: 1_000_000, end_us: 2_000_000, text: "Hi".to_string() }
    );
}

#[test]
fn joined_texts_keep_their_cues() {
    let one = "1\n00:00:01,000 --> 00:00:02,000\nOne";
    let two = "00:00:03,000 --> 00:00:04,000\nTwo\n";
    for (a, b) in [(one, two), (two, one), ("", one), ("broken\n", two), (two, "\n\n\nx")] {
        let joined = format!("{}\n\n{}", a, b);
        let mut srt = parse_srt(a);
        srt.extend(parse_srt(b));
        assert_eq!(parse_srt(&joined), srt);
        let mut vtt = parse_vtt(a);
        vtt.extend(parse_vtt(b));
        assert_eq!(parse_vtt(&joined), vtt);
    }
}

#[test]
fn either_format_is_told_by_its_header() {
    let vtt = "  WEBVTT\n\n00:01.000 --> 00:02.000\nA\n\nNOTE\n00:03.000 --> 00:04.000\nB";
    assert_eq!(parse_subtitles(vtt).len(), 1);
    assert_eq!(parse_srt(vtt).len(), 2);
    let srt = "1\n00:00:01,000 --> 00:00:02,000\nB";
    assert_eq!(parse_subtitles(srt)[0].text, "B");
}

#[test]
fn a_text_becomes_one_subtitle() {
    let s = text_to_subtitle("Title", 2_000_000, 3_000_000);
    assert_eq!(s, Subtitle { start_us: 2_000_000, end_us: 5_000_000, text: "Title".to_string() });
    assert_eq!(text_to_subtitle("x", 7, -5).end_us, 7);
}
