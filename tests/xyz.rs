use mercator_db::error::Error;
use mercator_db::xyz::{classify_line, split_tokens, XyzLine, XyzReader};

fn b(s: &str) -> Vec<u8> {
    s.as_bytes().to_vec()
}

#[test]
fn tokens_split_on_whitespace() {
    assert_eq!(split_tokens(b"  12.5\t3  x\r"), vec![b("12.5"), b("3"), b("x")]);
    assert!(split_tokens(b" \t ").is_empty());
}

#[test]
fn lines_are_classified() {
    assert_eq!(classify_line(b""), XyzLine::Skip);
    assert_eq!(classify_line(b"RGBA 1 0 0 1 # RGBA"), XyzLine::Skip);
    assert_eq!(classify_line(b"RGB 0.1 0.4 0.16"), XyzLine::Skip);
    assert_eq!(classify_line(b"SCALE 2"), XyzLine::Skip);
    assert_eq!(classify_line(b"#Aar27s49 26 0"), XyzLine::Identifier(b("Aar27s49")));
    assert_eq!(classify_line(b"244,623,248 # WHS Origin"), XyzLine::Origin(b("244,623,248")));
    assert_eq!(
        classify_line(b"221.4 413.3 172.8"),
        XyzLine::Point(b("221.4"), b("413.3"), b("172.8"))
    );
    assert_eq!(
        classify_line(b"246,653,440 # Bregma"),
        XyzLine::Point(b("246,653,440"), b("#"), b("Bregma"))
    );
    assert_eq!(classify_line(b"1 2 3 4"), XyzLine::Skip);
}

#[test]
fn reader_latches_identifier() {
    let text = "RGBA 1 0 0 1 # RGBA\n244,623,248 # WHS Origin\n1 2 3\n\n#Aa 1 0\nRGB 1 1 1\n4 5 6\n#Ab 2 0\n7 8 9\n";
    let mut r = XyzReader::new();
    for line in text.lines() {
        r.read_line(line.as_bytes()).unwrap();
    }
    assert_eq!(r.origin, Some(b("244,623,248")));
    assert_eq!(
        r.points,
        vec![
            (b("Aa"), b("4"), b("5"), b("6"), true),
            (b("Ab"), b("7"), b("8"), b("9"), true),
        ]
    );
}

#[test]
fn reader_rejects_second_origin() {
    let mut r = XyzReader::new();
    r.read_line(b"1,2,3 # WHS Origin").unwrap();
    assert_eq!(r.read_line(b"1,2,3 # WHS Origin"), Err(Error::Deserialize));
}

#[test]
fn reader_marks_points_before_origin() {
    let mut r = XyzReader::new();
    r.read_line(b"#Aa").unwrap();
    assert_eq!(r.read_line(b"a b c"), Ok(()));
    r.read_line(b"1,2,3 # WHS Origin").unwrap();
    r.read_line(b"1 2 3").unwrap();
    assert_eq!(
        r.points,
        vec![
            (b("Aa"), b("a"), b("b"), b("c"), false),
            (b("Aa"), b("1"), b("2"), b("3"), true),
        ]
    );
}
