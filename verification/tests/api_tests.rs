use wecom_aibot_rust_sdk::api::WeComApiClient;

/// The two regular expressions that state the filename grammar.
fn patterns() -> (regex::Regex, regex::Regex) {
    (
        regex::Regex::new(r"filename\*=UTF-8''([^;\s]+)").unwrap(),
        regex::Regex::new(r#"filename=(?:"([^"]+)"|"?([^";\s]+))"#).unwrap(),
    )
}

/// The filename as the regular expressions find it.
fn filename_by_regex(patterns: &(regex::Regex, regex::Regex), content_disposition: &str) -> Option<String> {
    let (utf8_pattern, fallback_pattern) = patterns;
    if let Some(caps) = utf8_pattern.captures(content_disposition) {
        if let Some(encoded) = caps.get(1) {
            return Some(
                urlencoding::decode(encoded.as_str())
                    .map(|c| c.into_owned())
                    .unwrap_or_else(|_| encoded.as_str().to_string()),
            );
        }
    }
    if let Some(caps) = fallback_pattern.captures(content_disposition) {
        if let Some(filename) = caps.get(1).or_else(|| caps.get(2)) {
            return Some(
                urlencoding::decode(filename.as_str())
                    .map(|c| c.into_owned())
                    .unwrap_or_else(|_| filename.as_str().to_string()),
            );
        }
    }
    None
}

#[test]
fn test_parse_filename_simple() {
    let result = WeComApiClient::parse_filename("attachment; filename=\"test.txt\"");
    assert_eq!(result, Some("test.txt".to_string()));
}

#[test]
fn test_parse_filename_utf8() {
    let result =
        WeComApiClient::parse_filename("attachment; filename*=UTF-8''%E6%B5%8B%E8%AF%95.txt");
    assert_eq!(result, Some("测试.txt".to_string()));
}

#[test]
fn test_parse_filename_no_quotes() {
    let result = WeComApiClient::parse_filename("attachment; filename=test.txt");
    assert_eq!(result, Some("test.txt".to_string()));
}

#[test]
fn test_parse_filename_none() {
    let result = WeComApiClient::parse_filename("inline");
    assert_eq!(result, None);
}

#[test]
fn quoted_filename_keeps_spaces_and_semicolons() {
    let result = WeComApiClient::parse_filename("attachment; filename=\"my file.txt\"");
    assert_eq!(result, Some("my file.txt".to_string()));
    let result = WeComApiClient::parse_filename("attachment; filename=\"a; b.txt\"; size=3");
    assert_eq!(result, Some("a; b.txt".to_string()));
}

#[test]
fn unclosed_quote_reads_a_bare_value() {
    let result = WeComApiClient::parse_filename("attachment; filename=\"open end.txt");
    assert_eq!(result, Some("open".to_string()));
    assert_eq!(WeComApiClient::parse_filename("filename=\"a b"), Some("a".to_string()));
    assert_eq!(WeComApiClient::parse_filename("filename=\" b"), None);
}

#[test]
fn extended_form_is_preferred_over_plain_form() {
    let result = WeComApiClient::parse_filename(
        "attachment; filename=\"fallback.txt\"; filename*=UTF-8''real%20name.pdf",
    );
    assert_eq!(result, Some("real name.pdf".to_string()));
}

#[test]
fn extended_form_value_stops_at_semicolon() {
    let result = WeComApiClient::parse_filename("attachment; filename*=UTF-8''a.txt; size=3");
    assert_eq!(result, Some("a.txt".to_string()));
}

#[test]
fn extended_form_without_value_falls_back_to_plain_form() {
    let result =
        WeComApiClient::parse_filename("attachment; filename*=UTF-8'';filename=plain.txt");
    assert_eq!(result, Some("plain.txt".to_string()));
}

#[test]
fn empty_quoted_value_is_no_match() {
    assert_eq!(WeComApiClient::parse_filename("attachment; filename=\"\""), None);
}

#[test]
fn later_match_is_taken_when_first_is_empty() {
    let result = WeComApiClient::parse_filename("filename=; filename=\"b.bin\"");
    assert_eq!(result, Some("b.bin".to_string()));
}

#[test]
fn invalid_utf8_escape_keeps_raw_value() {
    let result = WeComApiClient::parse_filename("attachment; filename=%FF%FE.txt");
    assert_eq!(result, Some("%FF%FE.txt".to_string()));
}

#[test]
fn incomplete_escapes_are_kept() {
    let result = WeComApiClient::parse_filename("attachment; filename=a%2g%4");
    assert_eq!(result, Some("a%2g%4".to_string()));
}

#[test]
fn plus_is_not_a_space() {
    let result = WeComApiClient::parse_filename("attachment; filename=a+b.txt");
    assert_eq!(result, Some("a+b.txt".to_string()));
}

#[test]
fn unicode_white_space_ends_the_value() {
    let result = WeComApiClient::parse_filename("attachment; filename=ab\u{3000}cd");
    assert_eq!(result, Some("ab".to_string()));
    let result = WeComApiClient::parse_filename("attachment; filename=ab\u{85}cd");
    assert_eq!(result, Some("ab".to_string()));
}

#[test]
fn matching_is_case_sensitive() {
    assert_eq!(WeComApiClient::parse_filename("attachment; FILENAME=a.txt"), None);
}

#[test]
fn agrees_with_regular_expressions_on_many_headers() {
    let pieces = [
        "attachment", "; ", ";", " ", "\t", "\u{a0}", "\u{2003}", "\u{3000}", "\u{85}",
        "filename", "filename=", "filename*=", "filename*=UTF-8''", "UTF-8''", "\"", "=",
        "a", "测", "%E6%B5%8B", "%zz", "%4", "%41", "x.txt", "*", "'", "\u{1F600}",
    ];
    let n = pieces.len();
    let mut seed: u64 = 0x9E37_79B9_7F4A_7C15;
    let p = patterns();
    for _ in 0..3000 {
        let mut header = String::new();
        seed ^= seed << 13;
        seed ^= seed >> 7;
        seed ^= seed << 17;
        let len = (seed % 7) as usize;
        let mut s = seed;
        for _ in 0..len {
            header.push_str(pieces[(s % n as u64) as usize]);
            s /= n as u64;
            if s == 0 {
                s = seed.rotate_left(11) | 1;
            }
        }
        assert_eq!(
            WeComApiClient::parse_filename(&header),
            filename_by_regex(&p, &header),
            "header {:?}",
            header
        );
    }
}

#[test]
fn agrees_with_regular_expressions_on_every_space_like_char() {
    let p = patterns();
    let mut codes: Vec<u32> = (0u32..0x100).collect();
    codes.extend([0x1680, 0x180e, 0x2000, 0x2005, 0x200a, 0x200b, 0x2028, 0x2029, 0x202f, 0x205f, 0x2060, 0x3000, 0xfeff]);
    for code in codes {
        if let Some(c) = char::from_u32(code) {
            let header = format!("attachment; filename=a{}b", c);
            assert_eq!(
                WeComApiClient::parse_filename(&header),
                filename_by_regex(&p, &header),
                "char {:#x}",
                code
            );
        }
    }
}

#[test]
fn new_client_builds() {
    let client = WeComApiClient::new(10_000);
    let _ = client.http();
}
