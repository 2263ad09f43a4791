use canvas_sync::api::reorder_by_index;
use canvas_sync::error::Error;
use canvas_sync::sync::{
    choose_fresh_target, reserve_batch, split_downloads, suffixed_name, untangle,
};
use canvas_sync::types::{Download, Update};

#[test]
fn suffix_goes_before_the_extension() {
    assert_eq!(suffixed_name("x.pdf", 1), "x_(1).pdf");
    assert_eq!(suffixed_name("dir/x.pdf", 2), "dir/x_(2).pdf");
    assert_eq!(suffixed_name("archive.tar.gz", 1), "archive.tar_(1).gz");
    assert_eq!(suffixed_name("noext", 3), "noext_(3)");
    assert_eq!(suffixed_name("dir.v/plain", 1), "dir.v/plain_(1)");
    assert_eq!(suffixed_name(".hidden", 1), ".hidden_(1)");
    assert_eq!(suffixed_name("x.pdf", 12), "x_(12).pdf");
}

#[test]
fn fresh_target_keeps_a_free_name() {
    let occupied = vec!["other.pdf".to_string()];
    assert_eq!(choose_fresh_target("x.pdf", &occupied).unwrap(), "x.pdf");
}

#[test]
fn fresh_target_disambiguates_an_occupied_name() {
    let occupied = vec!["x.pdf".to_string()];
    assert_eq!(choose_fresh_target("x.pdf", &occupied).unwrap(), "x_(1).pdf");
    let occupied = vec!["x.pdf".to_string(), "x_(1).pdf".to_string()];
    assert_eq!(choose_fresh_target("x.pdf", &occupied).unwrap(), "x_(2).pdf");
}

#[test]
fn fresh_target_search_is_bounded() {
    let mut occupied = vec!["x.pdf".to_string()];
    for n in 1..=9999u64 {
        occupied.push(suffixed_name("x.pdf", n));
    }
    match choose_fresh_target("x.pdf", &occupied) {
        Err(Error::CollisionExhausted(t)) => assert_eq!(t, "x.pdf"),
        _ => panic!("expected the exhaustion error"),
    }
}

#[test]
fn batch_reservation_yields_distinct_paths() {
    // a target already on disk and a same-named sibling in the batch
    let occupied = vec!["x.pdf".to_string()];
    let targets = vec!["x.pdf".to_string(), "x.pdf".to_string()];
    let out = reserve_batch(&targets, &occupied).unwrap();
    assert_eq!(out, vec!["x_(1).pdf".to_string(), "x_(2).pdf".to_string()]);
}

#[test]
fn batch_reservation_keeps_free_names() {
    let occupied = vec!["x.pdf".to_string()];
    let targets = vec!["x.pdf".to_string(), "y.pdf".to_string()];
    let out = reserve_batch(&targets, &occupied).unwrap();
    assert_eq!(out, vec!["x_(1).pdf".to_string(), "y.pdf".to_string()]);
}

#[test]
fn batch_reservation_names_the_exhausting_target() {
    let mut occupied = vec!["x.pdf".to_string()];
    for n in 1..=9999u64 {
        occupied.push(suffixed_name("x.pdf", n));
    }
    let targets = vec!["free.pdf".to_string(), "x.pdf".to_string()];
    match reserve_batch(&targets, &occupied) {
        Err(Error::CollisionExhausted(t)) => assert_eq!(t, "x.pdf"),
        _ => panic!("expected the exhaustion error naming the target"),
    }
}

fn record(course: u32, path: &str, download: Option<(&str, &str)>) -> Update {
    Update::new(
        course,
        path.to_string(),
        download.map(|(u, p)| Download { url: u.to_string(), local_path: p.to_string() }),
    )
}

#[test]
fn splitting_keeps_records_and_extracts_downloads() {
    let records = vec![
        record(1, "a.pdf", Some(("http://u/a", "l/a.pdf"))),
        record(1, "b.pdf", None),
        record(2, "c.pdf", Some(("http://u/c", "l/c.pdf"))),
    ];
    let (kept, downloads) = split_downloads(records);
    assert_eq!(kept.len(), 3);
    assert!(kept.iter().all(|u| u.download.is_none()));
    assert_eq!(kept[0].remote_path, "a.pdf");
    assert_eq!(kept[2].course_id, 2);
    assert_eq!(downloads.len(), 2);
    assert_eq!(downloads[0].url, "http://u/a");
    assert_eq!(downloads[1].local_path, "l/c.pdf");
}

#[test]
fn untangle_flattens_successes_in_order() {
    let tasks: Vec<Result<Vec<u32>, Error>> = vec![Ok(vec![1, 2]), Ok(vec![]), Ok(vec![3])];
    assert_eq!(untangle(tasks).unwrap(), vec![1, 2, 3]);
}

#[test]
fn untangle_surfaces_the_first_failure() {
    let tasks: Vec<Result<Vec<u32>, Error>> = vec![
        Ok(vec![1]),
        Err(Error::of("first")),
        Err(Error::of("second")),
    ];
    match untangle(tasks) {
        Err(Error::Debug(m)) => assert_eq!(m, "first"),
        _ => panic!("expected the first failure"),
    }
}

#[test]
fn reorder_restores_submission_order() {
    let pairs = vec![(2usize, "c"), (0, "a"), (1, "b")];
    assert_eq!(reorder_by_index(pairs).unwrap(), vec!["a", "b", "c"]);
}

#[test]
fn reorder_rejects_duplicate_and_missing_tags() {
    assert!(reorder_by_index(vec![(0usize, 'x'), (0, 'y')]).is_err());
    assert!(reorder_by_index(vec![(0usize, 'x'), (2, 'y')]).is_err());
    assert_eq!(reorder_by_index(Vec::<(usize, char)>::new()).unwrap(), Vec::<char>::new());
}
