use filetag::canonical_name::CanonicalName;

fn read(name: &str) -> CanonicalName {
    CanonicalName::new_at(String::from(name), String::from("20241019"))
}

#[test]
pub fn test_canonical_name() {
    let cname = CanonicalName::new(String::from("foo.txt"));
    assert_eq!(cname.is_canonical(), false);
    assert_eq!(cname.base_name(), "foo");

    let cname = CanonicalName::new(String::from("foo.v1.20240916.txt"));
    assert_eq!(cname.is_canonical(), true);
    assert_eq!(cname.base_name(), "foo");
    assert_eq!(cname.version(), 1);
    assert_eq!(cname.timestamp(), "20240916");
    assert_eq!(cname.extension(), "txt");

    let cname = CanonicalName::new(String::from("foo.v1.20240916.tag.txt"));
    assert_eq!(cname.is_canonical(), true);
    assert_eq!(cname.base_name(), "foo");
    assert_eq!(cname.version(), 1);
    assert_eq!(cname.timestamp(), "20240916");
    assert_eq!(cname.tag().unwrap(), "tag");
    assert_eq!(cname.extension(), "txt");

    let cname = CanonicalName::new(String::from("foo.bar.v1.20240916.tag.txt"));
    assert_eq!(cname.is_canonical(), true);
    assert_eq!(cname.base_name(), "foo.bar");
    assert_eq!(cname.version(), 1);
    assert_eq!(cname.timestamp(), "20240916");
    assert_eq!(cname.tag().unwrap(), "tag");
    assert_eq!(cname.extension(), "txt");
}

#[test]
fn plain_name_is_not_canonical() {
    let c = read("foo.txt");
    assert!(!c.is_canonical());
    assert_eq!(c.base_name(), "foo");
    assert_eq!(c.extension(), "txt");
    assert_eq!(c.version(), 1);
    assert_eq!(c.timestamp(), "20241019");
    assert!(c.tag().is_none());
    assert_eq!(c.get_original(), "foo.txt");
}

#[test]
fn canonical_without_tag() {
    let c = read("foo.v1.20240916.txt");
    assert!(c.is_canonical());
    assert_eq!(c.base_name(), "foo");
    assert_eq!(c.version(), 1);
    assert_eq!(c.timestamp(), "20240916");
    assert!(c.tag().is_none());
    assert_eq!(c.extension(), "txt");
}

#[test]
fn canonical_with_tag() {
    let c = read("foo.v1.20240916.tag.txt");
    assert!(c.is_canonical());
    assert_eq!(c.tag().unwrap(), "tag");
    assert_eq!(c.timestamp(), "20240916");
}

#[test]
fn multi_segment_base_is_kept_whole() {
    let c = read("foo.bar.v1.20240916.tag.txt");
    assert!(c.is_canonical());
    assert_eq!(c.base_name(), "foo.bar");
    assert_eq!(c.tag().unwrap(), "tag");
}

#[test]
fn round_trip_keeps_fields() {
    let c = read("foo.bar.v7.20240916.draft.txt");
    let text = c.to_string();
    assert_eq!(text, "foo.bar.v7.20240916.draft.txt");
    let d = CanonicalName::new_at(text, String::from("20250101"));
    assert!(d.is_canonical());
    assert_eq!(d.base_name(), "foo.bar");
    assert_eq!(d.version(), 7);
    assert_eq!(d.timestamp(), "20240916");
    assert_eq!(d.tag().unwrap(), "draft");
    assert_eq!(d.extension(), "txt");
}

#[test]
fn non_canonical_renders_a_canonical_seed() {
    let c = read("report.final.txt");
    assert!(!c.is_canonical());
    let text = c.to_string();
    assert_eq!(text, "report.final.v1.20241019.txt");
    let d = CanonicalName::new_at(text, String::from("20250101"));
    assert!(d.is_canonical());
    assert_eq!(d.base_name(), "report.final");
    assert_eq!(d.version(), 1);
    assert_eq!(d.timestamp(), "20241019");
    assert!(d.tag().is_none());
    assert_eq!(d.extension(), "txt");
}

#[test]
fn upgrade_raises_version_and_redates() {
    let c = read("foo.v9.20240916.tag.txt");
    let text = c.to_upgrade_string_at("20241019");
    assert_eq!(text, "foo.v10.20241019.tag.txt");
    let d = read(&text);
    assert!(d.is_canonical());
    assert_eq!(d.version(), 10);
    assert_eq!(d.base_name(), "foo");
    assert_eq!(d.tag().unwrap(), "tag");
    assert_eq!(d.extension(), "txt");
    assert_eq!(c.version(), 9);
}

#[test]
fn upgrade_past_two_digits() {
    let c = read("foo.v99.20240916.txt");
    assert!(c.is_canonical());
    assert_eq!(c.version(), 99);
    let text = c.to_upgrade_string_at("20241019");
    assert_eq!(text, "foo.v100.20241019.txt");
    assert!(!read(&text).is_canonical());
}

#[test]
fn upgrade_with_clock_keeps_the_rest() {
    let c = read("foo.v3.20240916.txt");
    let text = c.to_upgrade_string();
    assert!(text.starts_with("foo.v4."));
    assert!(text.ends_with(".txt"));
    let d = read(&text);
    assert!(d.is_canonical());
    assert_eq!(d.version(), 4);
}

#[test]
fn clock_dates_a_non_canonical_name() {
    let c = CanonicalName::new(String::from("notes.md"));
    assert!(!c.is_canonical());
    let t = c.timestamp();
    assert_eq!(t.len(), 8);
    assert!(t.chars().all(|ch| ch.is_ascii_digit()));
    assert_ne!(t, "notes.md");
}

#[test]
fn three_digit_version_is_rejected() {
    let c = read("foo.v100.20240916.txt");
    assert!(!c.is_canonical());
    assert_eq!(c.base_name(), "foo.v100.20240916");
}

#[test]
fn seven_digit_timestamp_is_rejected() {
    let c = read("foo.v1.2024091.txt");
    assert!(!c.is_canonical());
    assert_eq!(c.base_name(), "foo.v1.2024091");
}

#[test]
fn two_dates_take_the_last_as_timestamp() {
    // The last piece is a date, so no tag is tried; the piece before it must
    // then be the version, and "20240101" is not one.
    let c = read("a.v2.20240101.20240102.txt");
    assert!(!c.is_canonical());
    assert_eq!(c.base_name(), "a.v2.20240101.20240102");
    assert!(c.tag().is_none());
    assert_eq!(c.extension(), "txt");
}

#[test]
fn date_like_tag_after_a_date() {
    let c = read("a.v2.20240101.x20240102.txt");
    assert!(c.is_canonical());
    assert_eq!(c.timestamp(), "20240101");
    assert_eq!(c.tag().unwrap(), "x20240102");
}

#[test]
fn name_without_dot() {
    let c = read("README");
    assert!(!c.is_canonical());
    assert_eq!(c.base_name(), "README");
    assert_eq!(c.extension(), "");
    assert_eq!(c.to_string(), "README.v1.20241019.");
    let d = read(&c.to_string());
    assert!(d.is_canonical());
    assert_eq!(d.base_name(), "README");
    assert_eq!(d.extension(), "");
}

#[test]
fn empty_name() {
    let c = read("");
    assert!(!c.is_canonical());
    assert_eq!(c.base_name(), "");
    assert_eq!(c.extension(), "");
    assert_eq!(c.to_string(), ".v1.20241019.");
}

#[test]
fn empty_base_before_version() {
    let c = read("v1.20240916.tag.txt");
    assert!(c.is_canonical());
    assert_eq!(c.base_name(), "");
    assert_eq!(c.tag().unwrap(), "tag");
    assert_eq!(c.to_string(), ".v1.20240916.tag.txt");
}

#[test]
fn version_zero_is_accepted() {
    let c = read("foo.v0.20240916.txt");
    assert!(c.is_canonical());
    assert_eq!(c.version(), 0);
}

#[test]
fn leading_zero_version() {
    let c = read("foo.v07.20240916.txt");
    assert!(c.is_canonical());
    assert_eq!(c.version(), 7);
    assert_eq!(c.to_string(), "foo.v7.20240916.txt");
}

#[test]
fn malformed_version_is_rejected() {
    assert!(!read("foo.version1.20240916.txt").is_canonical());
    assert!(!read("foo.v.20240916.txt").is_canonical());
    assert!(!read("foo.vx1.20240916.txt").is_canonical());
    assert!(!read("foo.1.20240916.txt").is_canonical());
}

#[test]
fn non_ascii_digits_are_not_a_date() {
    let c = read("foo.v1.２０２４０９１６.txt");
    assert!(!c.is_canonical());
    let d = read("naïve.v3.20240916.ü.txt");
    assert!(d.is_canonical());
    assert_eq!(d.base_name(), "naïve");
    assert_eq!(d.tag().unwrap(), "ü");
}

#[test]
fn split_takes_the_last_dot() {
    let (body, ext) = CanonicalName::split(String::from("a.b.c"));
    assert_eq!(body, "a.b");
    assert_eq!(ext, "c");
    let (body, ext) = CanonicalName::split(String::from("abc"));
    assert_eq!(body, "abc");
    assert_eq!(ext, "");
    let (body, ext) = CanonicalName::split(String::from("abc."));
    assert_eq!(body, "abc");
    assert_eq!(ext, "");
}
