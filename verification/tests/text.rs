use sito::fetch::{is_success, upstream_url, verdict, Outcome, Verdict};
use sito::narinfo::narinfo_url_field;
use sito::text::{
    decimal, ends_with, joined, parse_count, same_text, starts_with, trim_leading_slashes,
    trim_trailing_slashes, white_space,
};

#[test]
fn white_space_is_unicode_white_space() {
    for u in 0..=0x10FFFFu32 {
        if let Some(c) = char::from_u32(u) {
            assert_eq!(white_space(c), c.is_whitespace(), "{u:#x}");
        }
    }
}

#[test]
fn slashes_are_trimmed_at_one_end() {
    for s in ["", "/", "//", "a", "/a/", "//a//b//", "a/b", "/ü/"] {
        assert_eq!(trim_leading_slashes(s), s.trim_start_matches('/'));
        assert_eq!(trim_trailing_slashes(s), s.trim_end_matches('/'));
    }
}

#[test]
fn prefixes_and_suffixes() {
    let samples = ["", "/nar/", "/nar", "/nar/x", "x.narinfo", ".narinfo", "narinfo", "ü", "üx"];
    for s in samples {
        for p in samples {
            assert_eq!(starts_with(s, p), s.starts_with(p));
            assert_eq!(ends_with(s, p), s.ends_with(p));
            assert_eq!(same_text(s, p), s == p);
            assert_eq!(joined(s, p), format!("{s}{p}"));
        }
    }
}

#[test]
fn counts_are_read_like_integers() {
    let max = usize::MAX.to_string();
    let over = format!("{}0", usize::MAX);
    let next = (usize::MAX as u128 + 1).to_string();
    for s in [
        "", "0", "7", "+7", "+", "++7", "-7", "007", " 7", "7 ", "1_000", "12a", "1048576", "٣",
        max.as_str(), over.as_str(), next.as_str(),
    ] {
        assert_eq!(parse_count(s), s.parse::<usize>().ok(), "{s}");
    }
}

#[test]
fn numbers_are_written_in_decimal() {
    for n in [0usize, 9, 10, 99, 100, 4096, usize::MAX] {
        assert_eq!(decimal(n), n.to_string());
    }
}

fn reference(body: &[u8]) -> Option<String> {
    let text = std::str::from_utf8(body).ok()?;
    text.lines()
        .find_map(|l| l.strip_prefix("URL:"))
        .map(|v| v.trim().to_string())
}

#[test]
fn url_field_is_found() {
    let bodies: Vec<&[u8]> = vec![
        b"StorePath: /nix/store/a\nURL: nar/deadbeef.nar.xz\nCompression: xz\n",
        b"URL: nar/x",
        b"URL:nar/x\r\nA: b\r\n",
        b"A\nURL:\n",
        b"A\nURL:",
        b" URL: nar/x\n",
        b"url: nar/x\n",
        b"X-URL: nar/y\nURL:   nar/z \t\nURL: nar/w",
        b"",
        b"\n\n\n",
        b"URL",
        b"URL: \xff",
        b"URL: nar/x\n\xc3\x28",
        "URL: \u{3000}nar/\u{fc}\u{a0}\n".as_bytes(),
        b"A\rURL: nar/x",
    ];
    for body in bodies {
        assert_eq!(narinfo_url_field(body), reference(body), "{body:?}");
    }
    assert_eq!(
        narinfo_url_field(b"A: b\nURL: nar/deadbeef.nar.xz\nC: d\n"),
        Some("nar/deadbeef.nar.xz".to_string())
    );
    assert_eq!(narinfo_url_field(b"URL: \xff"), None);
    assert_eq!(narinfo_url_field(b"A: b\n"), None);
}

#[test]
fn trailing_slash_is_tolerated() {
    assert_eq!(upstream_url("http://a:1", "/x.narinfo"), "http://a:1/x.narinfo");
    assert_eq!(upstream_url("http://a:1/", "/x.narinfo"), "http://a:1/x.narinfo");
    assert_eq!(upstream_url("http://a/b//", "//x"), "http://a/b//x");
}

#[test]
fn outcomes_are_judged_by_status() {
    for code in [200u16, 204, 206, 299] {
        assert_eq!(verdict(Outcome::Status(code)), Verdict::Hit);
        assert!(is_success(Outcome::Status(code)));
    }
    assert_eq!(verdict(Outcome::Status(404)), Verdict::Miss);
    assert!(!is_success(Outcome::Status(404)));
    for code in [100u16, 199, 300, 304, 401, 403, 405, 500, 502, 599] {
        assert_eq!(verdict(Outcome::Status(code)), Verdict::Error);
        assert!(!is_success(Outcome::Status(code)));
    }
    assert_eq!(verdict(Outcome::Failed), Verdict::Error);
    assert!(!is_success(Outcome::Failed));
}
