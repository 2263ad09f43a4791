use canvas_sync::error::Error;
use canvas_sync::sync::{match_remote_folder, MatchedFolder, RemoteFile, RemoteFolder, Sync};
use canvas_sync::types::FolderMap;

fn folder(id: u32, full_name: &str) -> RemoteFolder {
    RemoteFolder { id: Some(id), full_name: Some(full_name.to_string()) }
}

fn file(url: &str, name: &str) -> RemoteFile {
    RemoteFile { url: Some(url.to_string()), filename: Some(name.to_string()) }
}

fn syncer(url: &str, local: &str, download: bool) -> Sync {
    let fm = FolderMap::new(url.to_string(), local.to_string());
    Sync::new(&fm, download, true).unwrap()
}

#[test]
fn matcher_root_relative_and_descendants() {
    // tracked path "A/B": the root itself, a descendant, and a mere prefix
    let m = match_remote_folder(&folder(1, "course files/A/B"), "A/B").unwrap();
    assert_eq!(m.folder_id, 1);
    assert_eq!(m.relative_path, "");

    let m = match_remote_folder(&folder(2, "course files/A/B/C"), "A/B").unwrap();
    assert_eq!(m.folder_id, 2);
    assert_eq!(m.relative_path, "C");

    assert!(match_remote_folder(&folder(3, "course files/A/Bx"), "A/B").is_none());
}

#[test]
fn matcher_empty_tracked_path_takes_everything() {
    let m = match_remote_folder(&folder(7, "course files/Lectures/Week1"), "").unwrap();
    assert_eq!(m.relative_path, "Lectures/Week1");
    let m = match_remote_folder(&folder(8, "course files/"), "").unwrap();
    assert_eq!(m.relative_path, "");
}

#[test]
fn matcher_drops_malformed_entries() {
    assert!(match_remote_folder(
        &RemoteFolder { id: None, full_name: Some("course files/A".to_string()) },
        ""
    )
    .is_none());
    assert!(match_remote_folder(&RemoteFolder { id: Some(4), full_name: None }, "").is_none());
    assert!(match_remote_folder(&folder(5, "other prefix/A"), "").is_none());
}

#[test]
fn resolver_errors_when_nothing_matches() {
    // the tracked url names a remote path absent from the course's folders
    let url = "https://canvas.nus.edu.sg/courses/100/files/folder/Missing";
    let s = syncer(url, "local", false);
    let folders = vec![folder(1, "course files/Lectures"), folder(2, "course files/Labs")];
    match s.resolve_folders(&folders) {
        Err(Error::NoFoldersFoundInCourse { url: u }) => assert_eq!(u, url),
        _ => panic!("expected the no-folders error"),
    }
}

#[test]
fn resolver_keeps_listing_order() {
    let s = syncer("https://canvas.nus.edu.sg/courses/100/files", "local", false);
    let folders = vec![
        folder(10, "course files/B"),
        folder(11, "other"),
        folder(12, "course files/A"),
    ];
    let ms = s.resolve_folders(&folders).unwrap();
    assert_eq!(ms.len(), 2);
    assert_eq!(ms[0].folder_id, 10);
    assert_eq!(ms[0].relative_path, "B");
    assert_eq!(ms[1].folder_id, 12);
    assert_eq!(ms[1].relative_path, "A");
}

#[test]
fn planner_normalizes_and_joins() {
    let s = syncer("https://canvas.nus.edu.sg/courses/100/files", "local", false);
    let m = MatchedFolder { folder_id: 1, relative_path: "Week1".to_string() };
    let plans = s.plan_files(&m, &vec![file("http://u/1", "intro+slides.pdf")]);
    assert_eq!(plans.len(), 1);
    assert_eq!(plans[0].url, "http://u/1");
    assert_eq!(plans[0].dir, "local/Week1");
    assert_eq!(plans[0].target, "local/Week1/intro_slides.pdf");
    assert_eq!(plans[0].display, "Week1/intro_slides.pdf");
}

#[test]
fn planner_drops_malformed_files() {
    let s = syncer("https://canvas.nus.edu.sg/courses/100/files", "local", false);
    let m = MatchedFolder { folder_id: 1, relative_path: "".to_string() };
    let plans = s.plan_files(
        &m,
        &vec![
            RemoteFile { url: None, filename: Some("a.pdf".to_string()) },
            RemoteFile { url: Some("http://u/2".to_string()), filename: None },
            file("http://u/3", "b.pdf"),
        ],
    );
    assert_eq!(plans.len(), 1);
    assert_eq!(plans[0].target, "local/b.pdf");
}

#[test]
fn diff_skips_present_files_and_attaches_downloads() {
    let s = syncer("https://canvas.nus.edu.sg/courses/100/files", "local", true);
    let m = MatchedFolder { folder_id: 1, relative_path: "".to_string() };
    let plans = s.plan_files(&m, &vec![file("http://u/1", "a.pdf"), file("http://u/2", "b.pdf")]);
    let records = s.diff_files(&plans, &vec![true, false]);
    assert_eq!(records.len(), 1);
    assert_eq!(records[0].course_id, 100);
    assert_eq!(records[0].remote_path, "b.pdf");
    let d = records[0].download.as_ref().unwrap();
    assert_eq!(d.url, "http://u/2");
    assert_eq!(d.local_path, "local/b.pdf");
}

#[test]
fn diff_in_listing_mode_schedules_nothing() {
    let s = syncer("https://canvas.nus.edu.sg/courses/100/files", "local", false);
    let m = MatchedFolder { folder_id: 1, relative_path: "".to_string() };
    let plans = s.plan_files(&m, &vec![file("http://u/1", "a.pdf")]);
    let records = s.diff_files(&plans, &vec![false]);
    assert_eq!(records.len(), 1);
    assert!(records[0].download.is_none());
}

#[test]
fn diff_is_deterministic_for_equal_state() {
    let s = syncer("https://canvas.nus.edu.sg/courses/100/files", "local", false);
    let m = MatchedFolder { folder_id: 1, relative_path: "notes".to_string() };
    let files = vec![file("http://u/1", "a+x.pdf"), file("http://u/2", "b.pdf")];
    let present = vec![false, true];
    let first = s.diff_files(&s.plan_files(&m, &files), &present);
    let second = s.diff_files(&s.plan_files(&m, &files), &present);
    assert_eq!(first.len(), second.len());
    for (a, b) in first.iter().zip(second.iter()) {
        assert_eq!(a.course_id, b.course_id);
        assert_eq!(a.remote_path, b.remote_path);
        assert_eq!(a.download.is_none(), b.download.is_none());
    }
}

#[test]
fn diff_finds_nothing_once_everything_is_present() {
    // as after a download-mode run: every target now exists locally
    let s = syncer("https://canvas.nus.edu.sg/courses/100/files", "local", false);
    let m = MatchedFolder { folder_id: 1, relative_path: "".to_string() };
    let plans = s.plan_files(&m, &vec![file("http://u/1", "a.pdf"), file("http://u/2", "b.pdf")]);
    let records = s.diff_files(&plans, &vec![true, true]);
    assert!(records.is_empty());
}

#[test]
fn sync_new_rejects_missing_parent_and_bad_url() {
    let fm = FolderMap::new(
        "https://canvas.nus.edu.sg/courses/100/files".to_string(),
        "local".to_string(),
    );
    match Sync::new(&fm, true, false) {
        Err(Error::DownloadNoParentDir(p)) => assert_eq!(p, "local"),
        _ => panic!("expected the missing-parent error"),
    }
    let bad = FolderMap::new("nonsense".to_string(), "local".to_string());
    match Sync::new(&bad, true, true) {
        Err(Error::InvalidTrackingUrl(u)) => assert_eq!(u, "nonsense"),
        _ => panic!("expected the invalid-url error"),
    }
}

#[test]
fn whole_course_scenario_from_root() {
    // a mapping that tracks the course root, two folders with one file each
    let s = syncer("https://canvas.nus.edu.sg/courses/200/files", "base", true);
    let folders = vec![
        folder(1, "course files/Lectures"),
        folder(2, "course files/Lectures/Week1"),
    ];
    let matched = s.resolve_folders(&folders).unwrap();
    assert_eq!(matched.len(), 2);

    let mut records = Vec::new();
    let listings =
        vec![vec![file("http://u/l", "intro.pdf")], vec![file("http://u/w", "week+1.pdf")]];
    for (m, files) in matched.iter().zip(listings.iter()) {
        let plans = s.plan_files(m, files);
        let present = vec![false; plans.len()];
        records.extend(s.diff_files(&plans, &present));
    }
    assert_eq!(records.len(), 2);
    assert_eq!(records[0].remote_path, "Lectures/intro.pdf");
    assert_eq!(records[1].remote_path, "Lectures/Week1/week_1.pdf");
    let d0 = records[0].download.as_ref().unwrap();
    let d1 = records[1].download.as_ref().unwrap();
    assert_eq!(d0.local_path, "base/Lectures/intro.pdf");
    assert_eq!(d1.local_path, "base/Lectures/Week1/week_1.pdf");

    // both records list under the course's display name
    let names = vec![(200u32, "Software Engineering".to_string())];
    let sorted = canvas_sync::report::sort_updates(records, &names);
    let lines = canvas_sync::report::render_summary(&sorted, &names);
    assert_eq!(lines.len(), 3);
    match &lines[0] {
        canvas_sync::report::SummaryLine::CourseHeader(h) => {
            assert_eq!(h.as_str(), "Software Engineering")
        }
        _ => panic!("expected the course header first"),
    }
    match &lines[1] {
        canvas_sync::report::SummaryLine::Entry(e) => assert_eq!(e.as_str(), "Lectures/intro.pdf"),
        _ => panic!("expected an entry"),
    }
    match &lines[2] {
        canvas_sync::report::SummaryLine::Entry(e) => {
            assert_eq!(e.as_str(), "Lectures/Week1/week_1.pdf")
        }
        _ => panic!("expected an entry"),
    }
}
