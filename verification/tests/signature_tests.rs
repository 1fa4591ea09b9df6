use git_patcher::signature::{format_timezone, parse_timezone, SignatureData, SignatureError};

fn parse(s: &str) -> Result<SignatureData, SignatureError> {
    SignatureData::parse(s)
}

#[test]
fn parses_plain_signature() {
    let sig = parse("John Doe <john@example.com> 1700000000 +0200").unwrap();
    assert_eq!(sig.name, "John Doe");
    assert_eq!(sig.email, "john@example.com");
    assert_eq!(sig.seconds, 1700000000);
    assert_eq!(sig.offset_minutes, 120);
}

#[test]
fn parses_negative_offset_and_seconds() {
    let sig = parse("A <a@b> -42 -0130").unwrap();
    assert_eq!(sig.seconds, -42);
    assert_eq!(sig.offset_minutes, -90);
}

#[test]
fn minus_zero_timezone_reads_as_zero() {
    let sig = parse("A <a@b> 5 -0000").unwrap();
    assert_eq!(sig.offset_minutes, 0);
    assert_eq!(sig.to_text(), "A <a@b> 5 +0000");
}

#[test]
fn name_is_greedy() {
    let sig = parse("a <b <c> 1 +0000").unwrap();
    assert_eq!(sig.name, "a <b");
    assert_eq!(sig.email, "c");
}

#[test]
fn email_may_hold_closing_bracket() {
    let sig = parse("a <b> x> 1 +0000").unwrap();
    assert_eq!(sig.name, "a");
    assert_eq!(sig.email, "b> x");
}

#[test]
fn malformed_texts() {
    for s in [
        "",
        "no email 1 +0000",
        " <e> 1 +0000",
        "n <> 1 +0000",
        "n <e> 1 +000",
        "n <e> 1 0000",
        "n <e>  +0000",
        "n <e> - +0000",
        "n <e> 1-2 +0000",
        "na\nme <e> 1 +0000",
        "n <e\nx> 1 +0000",
        "n <e> 1 +0000 ",
        "n <e> +1 +0000",
        "n<e> 1 +0000",
    ] {
        assert_eq!(parse(s).err(), Some(SignatureError::Malformed), "{:?}", s);
    }
}

#[test]
fn seconds_out_of_range() {
    assert_eq!(
        parse("n <e> 9223372036854775808 +0000").err(),
        Some(SignatureError::InvalidSeconds)
    );
    assert_eq!(
        parse("n <e> -9223372036854775808 +0000").unwrap().seconds,
        i64::MIN
    );
    assert_eq!(
        parse("n <e> -9223372036854775809 +0000").err(),
        Some(SignatureError::InvalidSeconds)
    );
    assert_eq!(
        parse("n <e> 9223372036854775807 +0000").unwrap().seconds,
        i64::MAX
    );
}

#[test]
fn non_ascii_digits_match_but_do_not_read() {
    // Arabic-Indic digits are decimal digits, so the text has the right
    // shape, but std's integer parsing takes ASCII digits only.
    assert_eq!(
        parse("n <e> \u{0661}\u{0662} +0000").err(),
        Some(SignatureError::InvalidSeconds)
    );
    assert_eq!(
        parse("n <e> 12 +\u{0660}\u{0660}00").err(),
        Some(SignatureError::InvalidTimezone)
    );
}

#[test]
fn timezone_formatting() {
    assert_eq!(format_timezone(0), "+0000");
    assert_eq!(format_timezone(-90), "-0130");
    assert_eq!(format_timezone(330), "+0530");
    assert_eq!(format_timezone(6000), "+10000");
    assert_eq!(format_timezone(-5999), "-9959");
}

#[test]
fn timezone_parsing() {
    assert_eq!(parse_timezone("+0200"), Some(120));
    assert_eq!(parse_timezone("-0130"), Some(-90));
    assert_eq!(parse_timezone("-0000"), Some(0));
    assert_eq!(parse_timezone("0200"), None);
    assert_eq!(parse_timezone("+020"), None);
    assert_eq!(parse_timezone("*0200"), None);
    assert_eq!(parse_timezone("+02x0"), None);
    // std's integer parsing takes a sign inside a half
    assert_eq!(parse_timezone("+-130"), Some(-30));
    assert_eq!(parse_timezone("-+1+1"), Some(-61));
    // a two-byte character in a half does not read
    assert_eq!(parse_timezone("+\u{e9}12"), None);
}

#[test]
fn timezone_roundtrip_values() {
    for offset in [-5999, -600, -1, 0, 1, 59, 60, 61, 120, 5999] {
        assert_eq!(parse_timezone(&format_timezone(offset)), Some(offset));
    }
}

#[test]
fn text_roundtrip() {
    let sig = SignatureData::new("Jane Roe".to_string(), "jane@x.org".to_string(), -7, -300);
    let text = sig.to_text();
    assert_eq!(text, "Jane Roe <jane@x.org> -7 -0500");
    let back = parse(&text).unwrap();
    assert_eq!(back.name, "Jane Roe");
    assert_eq!(back.email, "jane@x.org");
    assert_eq!(back.seconds, -7);
    assert_eq!(back.offset_minutes, -300);
    let min = SignatureData::new("m".to_string(), "e".to_string(), i64::MIN, 0);
    assert_eq!(min.to_text(), "m <e> -9223372036854775808 +0000");
}

#[test]
fn from_reported_fills_missing_text() {
    let sig = SignatureData::from_reported(None, Some("e".to_string()), 3, 60);
    assert_eq!(sig.name, "");
    assert_eq!(sig.email, "e");
    assert_eq!(sig.to_text(), " <e> 3 +0100");
}

#[test]
fn from_str_reads_like_parse() {
    let sig: SignatureData = "x <y> 0 +0000".parse().unwrap();
    assert_eq!(sig.name, "x");
    assert!("x".parse::<SignatureData>().is_err());
}

/// The same inputs through the pattern the format is usually written with.
#[test]
fn agrees_with_the_pattern() {
    let re = regex::Regex::new(r"^(?<name>.+) <(?<email>.+)> (?<seconds>-?\d+) (?<tz>[+-]\d{4})$")
        .unwrap();
    let inputs = [
        "John Doe <john@example.com> 1700000000 +0200",
        "a <b <c> 1 +0000",
        "a <b> x> 1 +0000",
        "a <b <> 1 +0000",
        "a  <b> 1 +0000",
        " a <b> 1 +0000",
        "<a> <b> 12 -1200",
        "n <e> 1-2 +0000",
        "n <e> \u{0661} +0000",
        "n <e> 1 +\u{0660}000",
        "n <e\u{2028}> 1 +0000",
        "n <e> 99999999999999999999 +0000",
        "n <e>\n 1 +0000",
        "a <b> > 1 +0000",
        "a <b> 1 > 2 +0000",
        "x y z <w> 00 +9999",
    ];
    for s in inputs {
        let expected = re.captures(s).map(|c| {
            (
                c.name("name").unwrap().as_str().to_string(),
                c.name("email").unwrap().as_str().to_string(),
                c.name("seconds").unwrap().as_str().to_string(),
                c.name("tz").unwrap().as_str().to_string(),
            )
        });
        let got = parse(s);
        match expected {
            None => assert_eq!(got.err(), Some(SignatureError::Malformed), "{:?}", s),
            Some((name, email, seconds, tz)) => match seconds.parse::<i64>() {
                Err(_) => assert_eq!(got.err(), Some(SignatureError::InvalidSeconds), "{:?}", s),
                Ok(secs) => match parse_timezone(&tz) {
                    None => assert_eq!(got.err(), Some(SignatureError::InvalidTimezone), "{:?}", s),
                    Some(off) => {
                        let sig = got.unwrap();
                        assert_eq!(sig.name, name, "{:?}", s);
                        assert_eq!(sig.email, email, "{:?}", s);
                        assert_eq!(sig.seconds, secs, "{:?}", s);
                        assert_eq!(sig.offset_minutes, off, "{:?}", s);
                    }
                },
            },
        }
    }
}

#[test]
fn git_refuses_bracketed_or_empty_fields() {
    let ok = SignatureData::new("Jane".to_string(), "j@x".to_string(), 1, 60);
    let sig = ok.as_signature().unwrap();
    assert_eq!(sig.git().name().unwrap(), "Jane");
    assert_eq!(sig.git().when().offset_minutes(), 60);
    let padded = SignatureData::new(" ;Jo Ann, ".to_string(), "\"j@x\"".to_string(), 1, 0);
    let sig = padded.as_signature().unwrap();
    assert_eq!(sig.git().name().unwrap(), "Jo Ann");
    assert_eq!(sig.git().email().unwrap(), "j@x");
    for (name, email) in [("a<b", "e"), ("a", "e>"), ("", "e"), ("n", " ;: "), ("n\0", "e")] {
        let bad = SignatureData::new(name.to_string(), email.to_string(), 1, 0);
        assert!(bad.as_signature().is_err(), "{:?} {:?}", name, email);
    }
}

#[test]
fn plain_signature_is_kept_by_git() {
    let d = SignatureData::new("Ada Lovelace".to_string(), "ada@example.org".to_string(), -7200, -330);
    let sig = d.as_signature().unwrap();
    let back = SignatureData::from_reported(
        sig.git().name().ok().map(|s| s.to_string()),
        sig.git().email().ok().map(|s| s.to_string()),
        sig.git().when().seconds(),
        sig.git().when().offset_minutes(),
    );
    assert_eq!(back.name, d.name);
    assert_eq!(back.email, d.email);
    assert_eq!(back.seconds, d.seconds);
    assert_eq!(back.offset_minutes, d.offset_minutes);
}
