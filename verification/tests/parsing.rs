use canvas_sync::string::{normalize_filename, parse_url, str_eq};
use canvas_sync::error::Error;

#[test]
fn test_parse_url() {
    let (id, path) = parse_url("https://canvas.nus.edu.sg/courses/36732/files").unwrap();
    assert_eq!(id, 36732);
    assert_eq!(path, "");
    let (id, path) =
        parse_url("https://canvas.nus.edu.sg/courses/36732/files/folder/Lecture%20Notes").unwrap();
    assert_eq!(id, 36732);
    assert_eq!(path, "Lecture Notes");
}

#[test]
fn parse_url_nested_folder() {
    let (id, path) =
        parse_url("https://canvas.nus.edu.sg/courses/38518/files/folder/Lectures/Java%20Intro")
            .unwrap();
    assert_eq!(id, 38518);
    assert_eq!(path, "Lectures/Java Intro");
}

#[test]
fn parse_url_without_scheme_or_host() {
    let (id, path) = parse_url("38518/files/folder/Notes").unwrap();
    assert_eq!(id, 38518);
    assert_eq!(path, "Notes");
}

#[test]
fn parse_url_rejects_missing_slash() {
    match parse_url("https://canvas.nus.edu.sg/courses/38518") {
        Err(Error::InvalidTrackingUrl(u)) => {
            assert_eq!(u, "https://canvas.nus.edu.sg/courses/38518")
        }
        _ => panic!("expected an invalid-url error"),
    }
}

#[test]
fn parse_url_rejects_non_numeric_course() {
    match parse_url("https://canvas.nus.edu.sg/courses/abc/files") {
        Err(Error::InvalidTrackingUrl(_)) => {}
        _ => panic!("expected an invalid-url error"),
    }
}

#[test]
fn parse_url_rejects_overflowing_course_number() {
    match parse_url("https://canvas.nus.edu.sg/courses/99999999999999999999/files") {
        Err(Error::InvalidTrackingUrl(_)) => {}
        _ => panic!("expected an invalid-url error"),
    }
}

#[test]
fn parse_url_keeps_an_undecodable_folder_raw() {
    // the escape denotes a byte that is not valid text, so decoding fails
    // and the folder path is kept as written
    let (id, path) = parse_url("https://canvas.nus.edu.sg/courses/1/files/folder/a%FFb").unwrap();
    assert_eq!(id, 1);
    assert_eq!(path, "a%FFb");
}

#[test]
fn normalize_replaces_plus_and_minus() {
    assert_eq!(normalize_filename("a+b-c"), "a_b_c");
    assert_eq!(normalize_filename("week+1-notes.pdf"), "week_1_notes.pdf");
}

#[test]
fn normalize_collapses_underscore_runs() {
    assert_eq!(normalize_filename("a++--b"), "a_b");
    assert_eq!(normalize_filename("a____b"), "a_b");
    assert_eq!(normalize_filename("___"), "_");
}

#[test]
fn normalize_is_idempotent_on_samples() {
    for s in [
        "a+b-c",
        "a++--b",
        "____",
        "plain.pdf",
        "week+_+1.txt",
        "",
        "-+-+-",
        "u\u{308}ber+file",
    ] {
        let once = normalize_filename(s);
        let twice = normalize_filename(&once);
        assert_eq!(once, twice);
    }
}

#[test]
fn normalize_keeps_plain_names() {
    assert_eq!(normalize_filename("notes.pdf"), "notes.pdf");
    assert_eq!(normalize_filename(""), "");
}

#[test]
fn str_eq_compares_characters() {
    assert!(str_eq("abc", "abc"));
    assert!(!str_eq("abc", "abd"));
    assert!(!str_eq("abc", "ab"));
}
