use ffmetadata::FFMetadata;
use ffmetadata::ParseError;
use ffmetadata::escape::escape;
use ffmetadata::parser::comment;
use ffmetadata::parser::kv;
use ffmetadata::parser::string;

#[test]
fn header_must_lead() {
    match FFMetadata::parse("\n;FFMETADATA1") {
        Err(ParseError::Malformatted(pos)) => assert_eq!(pos, 0),
        _ => panic!("expected a malformatted error"),
    }
    match FFMetadata::parse(";FFMETADATA\n") {
        Err(ParseError::Malformatted(pos)) => assert_eq!(pos, 0),
        _ => panic!("expected a malformatted error"),
    }
    match FFMetadata::parse("") {
        Err(ParseError::Malformatted(pos)) => assert_eq!(pos, 0),
        _ => panic!("expected a malformatted error"),
    }
}

#[test]
fn comments_are_stripped() {
    let meta = FFMetadata::parse(";FFMETADATA1\ntest=doc\n;a comment\n").unwrap();
    assert_eq!(meta.global, vec![(String::from("test"), String::from("doc"))]);
    assert!(meta.sections.is_empty());
}

#[test]
fn hash_comments_and_blank_lines() {
    let meta = FFMetadata::parse(";FFMETADATA1\n#lead\n\na=1\n#tail\nb=2\n\n").unwrap();
    assert_eq!(
        meta.global,
        vec![
            (String::from("a"), String::from("1")),
            (String::from("b"), String::from("2")),
        ]
    );
}

#[test]
fn trailing_input_is_reported() {
    match FFMetadata::parse(";FFMETADATA1\na=b\ngarbage") {
        Err(ParseError::Remaining(rest)) => assert_eq!(rest, String::from("garbage")),
        _ => panic!("expected a remaining-input error"),
    }
}

#[test]
fn trailing_bad_escape_is_reported() {
    match FFMetadata::parse(";FFMETADATA1\nk=\\x\n") {
        Err(ParseError::Remaining(rest)) => assert_eq!(rest, String::from("k=\\x\n")),
        _ => panic!("expected a remaining-input error"),
    }
}

#[test]
fn empty_section_name_is_not_a_section() {
    match FFMetadata::parse(";FFMETADATA1\n[]\n") {
        Err(ParseError::Remaining(rest)) => assert_eq!(rest, String::from("[]\n")),
        _ => panic!("expected a remaining-input error"),
    }
}

#[test]
fn two_sections_parse_and_reserialize() {
    let text = ";FFMETADATA1\n\n[CHAPTER]\nTIMEBASE=1/1000\nSTART=0\n\n[STREAM]\ntitle=x\n";
    let meta = FFMetadata::parse(text).unwrap();
    assert!(meta.global.is_empty());
    assert_eq!(meta.sections.len(), 2);
    assert_eq!(meta.sections[0].0, String::from("CHAPTER"));
    assert_eq!(
        meta.sections[0].1,
        vec![
            (String::from("TIMEBASE"), String::from("1/1000")),
            (String::from("START"), String::from("0")),
        ]
    );
    assert_eq!(meta.sections[1].0, String::from("STREAM"));
    assert_eq!(meta.sections[1].1, vec![(String::from("title"), String::from("x"))]);
    let again = FFMetadata::parse(&meta.serialize()).unwrap();
    assert_eq!(again.global, meta.global);
    assert_eq!(again.sections, meta.sections);
}

#[test]
fn same_named_sections_stay_apart() {
    let text = ";FFMETADATA1\n[CHAPTER]\nSTART=0\n[CHAPTER]\nSTART=5\n";
    let meta = FFMetadata::parse(text).unwrap();
    assert_eq!(meta.sections.len(), 2);
    assert_eq!(meta.sections[0].1, vec![(String::from("START"), String::from("0"))]);
    assert_eq!(meta.sections[1].1, vec![(String::from("START"), String::from("5"))]);
}

#[test]
fn escape_reserved_characters() {
    assert_eq!(escape("a=b;c#d\\e\nf"), String::from("a\\=b\\;c\\#d\\\\e\\\nf"));
    assert_eq!(escape("plain"), String::from("plain"));
    assert_eq!(escape(""), String::from(""));
}

#[test]
fn escaped_text_parses_back() {
    let original = "x=1;y=2#z\\\nend";
    let escaped = escape(original);
    let line = format!("{}=\n", escaped);
    let (pos, (k, v)) = kv(&line, 0).unwrap();
    assert_eq!(pos, line.chars().count());
    assert_eq!(k, String::from(original));
    assert_eq!(v, String::from(""));
}

#[test]
fn round_trip_document() {
    let doc = FFMetadata {
        global: vec![
            (String::from("a=b"), String::from("c;d")),
            (String::from(""), String::from("")),
            (String::from("key"), String::from("line one\nline two")),
        ],
        sections: vec![
            (
                String::from("CHAPTER"),
                vec![
                    (String::from("START"), String::from("0")),
                    (String::from("START"), String::from("0")),
                ],
            ),
            (String::from("CHAPTER"), vec![]),
            (String::from("a;b"), vec![(String::from("#"), String::from("\\"))]),
        ],
    };
    let text = doc.serialize();
    let again = FFMetadata::parse(&text).unwrap();
    assert_eq!(again.global, doc.global);
    assert_eq!(again.sections, doc.sections);
}

#[test]
fn empty_document_round_trips() {
    let doc = FFMetadata { global: vec![], sections: vec![] };
    let text = doc.serialize();
    assert_eq!(text, String::from(";FFMETADATA1\n\n"));
    let again = FFMetadata::parse(&text).unwrap();
    assert!(again.global.is_empty());
    assert!(again.sections.is_empty());
}

#[test]
fn string_production_stops_at_reserved() {
    let (pos, decoded) = string("ab\\=cd=rest", 0);
    assert_eq!(pos, 6);
    assert_eq!(decoded, String::from("ab=cd"));
}

#[test]
fn string_production_stops_at_bad_escape() {
    let (pos, decoded) = string("ab\\x", 0);
    assert_eq!(pos, 2);
    assert_eq!(decoded, String::from("ab"));
}

#[test]
fn comment_needs_newline() {
    assert_eq!(comment(";no newline", 0), None);
    assert_eq!(comment(";note\nrest", 0), Some(6));
    assert_eq!(comment("\nrest", 0), Some(1));
    assert_eq!(comment("data\n", 0), None);
}

#[test]
fn value_missing_newline_is_rejected() {
    assert_eq!(kv("a=b", 0), None);
    match FFMetadata::parse(";FFMETADATA1\na=b") {
        Err(ParseError::Remaining(rest)) => assert_eq!(rest, String::from("a=b")),
        _ => panic!("expected a remaining-input error"),
    }
}
