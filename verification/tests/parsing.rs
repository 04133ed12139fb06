use ffmetadata::FFMetadata;
use ffmetadata::parser::kv;
use ffmetadata::parser::section_header;

const TEST_DOC: &str = r##";FFMETADATA1
title=bike\\shed
;this is a comment
artist=FFmpeg troll team

[CHAPTER]
TIMEBASE=1/1000
START=0
#chapter ends at 0:01:00
END=60000
title=chapter \#1
[STREAM]
title=multi\
line
"##;

const RECREATED_DOC: &str = r##";FFMETADATA1
title=bike\\shed
artist=FFmpeg troll team

[CHAPTER]
TIMEBASE=1/1000
START=0
END=60000
title=chapter \#1

[STREAM]
title=multi\
line

"##;

#[test]
fn parse_section_header() {
    section_header("[TEST]\n", 0).unwrap();
}

#[test]
fn parse_kv() {
    kv("test=ok\n", 0).unwrap();
}

#[test]
fn parse_kv_escaped() {
    let input = "test= ok\\\n\n";
    let (pos, (k, v)) = kv(input, 0).unwrap();
    assert_eq!(pos, input.chars().count());
    assert_eq!(k, String::from("test"));
    assert_eq!(v, String::from(" ok\n"));
}

#[test]
fn parse_simple() {
    let meta = FFMetadata::parse(";FFMETADATA1\ntest=doc\n").unwrap();
    assert_eq!(meta.global[0], (String::from("test"), String::from("doc")));
}

#[test]
fn parse_it() {
    let meta = FFMetadata::parse(TEST_DOC).unwrap();
    assert_eq!(meta.serialize(), RECREATED_DOC);
}

#[test]
fn bad_magic() {
    assert!(FFMetadata::parse("\n;FFMETADATA1").is_err());
    assert!(FFMetadata::parse(";FFMETADATA\n").is_err());
}
