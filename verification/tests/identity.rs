use blog_markdown::post_id::parse_post_id;
use blog_markdown::PostId;

fn id(year: u16, month: u8, day: u8, hour: u8, minute: u8, second: u8) -> PostId {
    PostId { year, month, day, hour, minute, second }
}

#[test]
fn canonical_format_is_fixed_width() {
    let p = id(2015, 9, 18, 23, 56, 4);
    assert_eq!(p.canonical_string(), "2015-09-18_23-56-04");
    let early = id(1, 1, 1, 0, 0, 0);
    assert_eq!(early.canonical_string(), "0001-01-01_00-00-00");
    let late = id(9999, 12, 31, 23, 59, 59);
    assert_eq!(late.canonical_string(), "9999-12-31_23-59-59");
}

#[test]
fn parse_then_format_round_trips() {
    let s = "2015-09-18_23-56-04";
    let p = parse_post_id(s).unwrap();
    assert_eq!(p, id(2015, 9, 18, 23, 56, 4));
    assert_eq!(p.canonical_string(), s);
}

#[test]
fn format_then_parse_round_trips() {
    let p = id(2024, 2, 29, 6, 5, 4);
    let s = p.canonical_string();
    assert_eq!(parse_post_id(&s), Some(p));
}

#[test]
fn parse_rejects_malformed_ids() {
    assert_eq!(parse_post_id(""), None);
    assert_eq!(parse_post_id("2015-09-18"), None);
    assert_eq!(parse_post_id("2015-09-18 23:56:04"), None);
    assert_eq!(parse_post_id("2015-09-18_23-56-0x"), None);
    assert_eq!(parse_post_id("2015_09-18_23-56-04"), None);
    assert_eq!(parse_post_id("2015-09-18_23-56-045"), None);
    assert_eq!(parse_post_id("2015-13-18_23-56-04"), None);
    assert_eq!(parse_post_id("2015-00-18_23-56-04"), None);
    assert_eq!(parse_post_id("2015-09-00_23-56-04"), None);
    assert_eq!(parse_post_id("2015-09-18_24-56-04"), None);
    assert_eq!(parse_post_id("2015-09-18_23-60-04"), None);
    assert_eq!(parse_post_id("2015-09-18_23-56-60"), None);
}

#[test]
fn parse_knows_the_calendar() {
    assert!(parse_post_id("2024-02-29_00-00-00").is_some());
    assert_eq!(parse_post_id("2023-02-29_00-00-00"), None);
    assert_eq!(parse_post_id("1900-02-29_00-00-00"), None);
    assert!(parse_post_id("2000-02-29_00-00-00").is_some());
    assert_eq!(parse_post_id("2021-04-31_00-00-00"), None);
    assert!(parse_post_id("2021-03-31_00-00-00").is_some());
}

#[test]
fn from_parts_validates_ranges() {
    assert!(PostId::from_parts(2024, 2, 29, 23, 59, 59).is_some());
    assert_eq!(PostId::from_parts(2023, 2, 29, 0, 0, 0), None);
    assert_eq!(PostId::from_parts(-1, 1, 1, 0, 0, 0), None);
    assert_eq!(PostId::from_parts(10000, 1, 1, 0, 0, 0), None);
    assert_eq!(PostId::from_parts(2024, 0, 1, 0, 0, 0), None);
    assert_eq!(PostId::from_parts(2024, 1, 1, 24, 0, 0), None);
    let p = PostId::from_parts(2024, 12, 31, 1, 2, 3).unwrap();
    assert_eq!(p.canonical_string(), "2024-12-31_01-02-03");
}

#[test]
fn canonical_strings_order_chronologically() {
    let older = id(2015, 9, 18, 23, 56, 4).canonical_string();
    let newer = id(2015, 9, 19, 0, 0, 0).canonical_string();
    let newest = id(2016, 1, 1, 0, 0, 0).canonical_string();
    assert!(older < newer);
    assert!(newer < newest);
}
