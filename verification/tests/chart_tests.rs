use base64::Engine;
use digishield_sim::plotting::{fork_view_window, rolling_solvetime};
use digishield_sim::report::{chart_html, chart_section};

#[test]
fn view_window_around_transition() {
    assert_eq!(fork_view_window(5000, 28, 20_000), (4500, 7000));
    assert_eq!(fork_view_window(300, 28, 20_000), (28, 2300));
    assert_eq!(fork_view_window(5000, 28, 6000), (4500, 6000));
    assert_eq!(fork_view_window(500, 28, 20_000), (28, 2500));
}

#[test]
fn rolling_solvetime_sums_eleven_blocks() {
    let sts: Vec<u64> = (1..=20).collect();
    assert_eq!(rolling_solvetime(&sts, 5), Some((66, 11)));
    assert_eq!(rolling_solvetime(&sts, 14), Some((165, 11)));
    assert_eq!(rolling_solvetime(&sts, 4), None);
    assert_eq!(rolling_solvetime(&sts, 15), None);
    assert_eq!(rolling_solvetime(&sts[..3], 1), None);
}

#[test]
fn rolling_solvetime_does_not_overflow() {
    let sts = vec![u64::MAX; 11];
    assert_eq!(rolling_solvetime(&sts, 5), Some((u64::MAX as u128 * 11, 11)));
}

#[test]
fn chart_html_layout() {
    assert_eq!(
        chart_html("T", "QUJD"),
        "<div class=\"chart\">\n<h3>T</h3>\n<img src=\"data:image/bmp;base64,QUJD\">\n</div>\n"
    );
}

#[test]
fn chart_section_encodes_base64() {
    assert_eq!(
        chart_section("Chart", b"hello"),
        "<div class=\"chart\">\n<h3>Chart</h3>\n<img src=\"data:image/bmp;base64,aGVsbG8=\">\n</div>\n"
    );
    assert_eq!(
        chart_section("", &[0xff, 0x00]),
        "<div class=\"chart\">\n<h3></h3>\n<img src=\"data:image/bmp;base64,/wA=\">\n</div>\n"
    );
}

fn chart_of(b64: &str) -> String {
    format!("<div class=\"chart\">\n<h3>x</h3>\n<img src=\"data:image/bmp;base64,{}\">\n</div>\n", b64)
}

#[test]
fn chart_section_matches_standard_base64_vectors() {
    let vectors: [(&[u8], &str); 7] = [
        (b"", ""),
        (b"f", "Zg=="),
        (b"fo", "Zm8="),
        (b"foo", "Zm9v"),
        (b"foob", "Zm9vYg=="),
        (b"fooba", "Zm9vYmE="),
        (b"foobar", "Zm9vYmFy"),
    ];
    for (data, b64) in vectors {
        assert_eq!(chart_section("x", data), chart_of(b64));
    }
    assert_eq!(chart_section("x", &[0xfb, 0xff, 0xbf]), chart_of("+/+/"));
}

#[test]
fn chart_section_decodes_back_to_the_bytes() {
    let data: Vec<u8> = (0..=255u8).chain([7, 0, 255]).collect();
    let html = chart_section("t", &data);
    let start = html.find("base64,").unwrap() + "base64,".len();
    let end = html[start..].find('"').unwrap() + start;
    let decoded = base64::engine::general_purpose::STANDARD.decode(&html[start..end]).unwrap();
    assert_eq!(decoded, data);
}
