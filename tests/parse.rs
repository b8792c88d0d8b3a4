use predict::{parse_github_emoji_url, parse_unicode, split_str, InvalidParseError};

#[test]
fn parse_unicode_reads_hexadecimal_code_points() {
    assert_eq!(parse_unicode("1f600").ok(), Some('😀'));
    assert_eq!(parse_unicode("41").ok(), Some('A'));
    assert_eq!(parse_unicode("+2A").ok(), Some('*'));
    assert!(matches!(parse_unicode("zz"), Err(InvalidParseError::Hex(_))));
    assert!(matches!(parse_unicode(""), Err(InvalidParseError::Hex(_))));
    assert!(matches!(parse_unicode("-41"), Err(InvalidParseError::Hex(_))));
    assert!(matches!(parse_unicode("1ffffffff"), Err(InvalidParseError::Hex(_))));
    assert!(matches!(parse_unicode("d800"), Err(InvalidParseError::Codepoint(0xd800))));
    assert!(matches!(parse_unicode("110000"), Err(InvalidParseError::Codepoint(0x110000))));
}

#[test]
fn emoji_url_gives_its_characters() {
    let url = "https://github.githubassets.com/images/icons/emoji/unicode/1f1e6-1f1e8.png?v8";
    assert_eq!(parse_github_emoji_url(url).ok(), Some("🇦🇨".to_string()));
    let url = "https://github.githubassets.com/images/icons/emoji/unicode/1f44d.png?v8";
    assert_eq!(parse_github_emoji_url(url).ok(), Some("👍".to_string()));
    assert_eq!(parse_github_emoji_url("263a").ok(), Some("☺".to_string()));
}

#[test]
fn emoji_url_without_code_points_fails() {
    let url = "https://github.githubassets.com/images/icons/emoji/bowtie.png?v8";
    assert!(matches!(parse_github_emoji_url(url), Err(InvalidParseError::Hex(_))));
    assert!(matches!(
        parse_github_emoji_url("x/41-d800.png"),
        Err(InvalidParseError::Codepoint(0xd800))
    ));
}

#[test]
fn split_keeps_empty_pieces() {
    assert_eq!(split_str("a/b//c", '/'), vec!["a", "b", "", "c"]);
    assert_eq!(split_str("", '/'), vec![""]);
    assert_eq!(split_str("/", '/'), vec!["", ""]);
}
