use canvas_sync::api::Api;
use canvas_sync::config::Config;
use canvas_sync::error::Error;
use canvas_sync::experiment::{Courses, Folder};
use canvas_sync::folder_map::{FolderMap as ResolvedMap, SFolderMap};
use canvas_sync::types::{expand_tilde, path_join, FolderMap, Tsq, User};

#[test]
fn path_join_inserts_one_separator() {
    assert_eq!(path_join("a", "b"), "a/b");
    assert_eq!(path_join("a/", "b"), "a/b");
    assert_eq!(path_join("", "b"), "b");
    assert_eq!(path_join("a", ""), "a");
    assert_eq!(path_join("a", "/abs"), "/abs");
}

#[test]
fn tilde_expansion_cases() {
    assert_eq!(expand_tilde("plain/path", Some("/home/me")).unwrap(), "plain/path");
    assert_eq!(expand_tilde("~", Some("/home/me")).unwrap(), "/home/me");
    assert_eq!(expand_tilde("~/docs", Some("/home/me")).unwrap(), "/home/me/docs");
    assert_eq!(expand_tilde("~/docs", Some("/")).unwrap(), "/docs");
    assert_eq!(expand_tilde("~file", None).unwrap(), "~file");
    assert!(expand_tilde("~/docs", None).is_none());
}

#[test]
fn queue_gathers_results_in_order() {
    let mut q: Tsq<u32> = Tsq::new();
    assert_eq!(q.len(), 0);
    q.push(4);
    q.push(7);
    assert_eq!(q.len(), 2);
    assert_eq!(q.extract().unwrap(), vec![4, 7]);
}

#[test]
fn config_mapping_parses_and_decodes() {
    let fm = FolderMap::new(
        "https://canvas.nus.edu.sg/courses/36732/files/folder/Lecture%20Notes".to_string(),
        "notes".to_string(),
    );
    assert_eq!(fm.course_id().unwrap(), 36732);
    assert_eq!(fm.remote_dir().unwrap(), "Lecture Notes");
    assert_eq!(fm.local_dir(), "notes");
}

#[test]
fn config_new_installs_base_and_decodes_urls() {
    let maps = vec![FolderMap::new(
        "https://canvas.nus.edu.sg/courses/1/files/folder/A%20B".to_string(),
        "a".to_string(),
    )];
    let config = Config::new(
        "token".to_string(),
        Some("/base".to_string()),
        maps,
        "/cfg/path".to_string(),
        true,
        None,
    )
    .unwrap();
    assert_eq!(config.access_token(), "token");
    assert_eq!(config.path(), "/cfg/path");
    let fms = config.folder_maps();
    assert_eq!(fms.len(), 1);
    // the stored url was percent-decoded when the configuration was read
    assert_eq!(fms[0].url(), "https://canvas.nus.edu.sg/courses/1/files/folder/A B");
    assert_eq!(fms[0].local_dir(), "/base/a");
}

#[test]
fn config_refuses_an_empty_token() {
    match Config::new("".to_string(), None, Vec::new(), "p".to_string(), true, None) {
        Err(Error::EmptyToken) => {}
        _ => panic!("expected the empty-token error"),
    }
    assert!(Config::new("".to_string(), None, Vec::new(), "p".to_string(), false, None).is_ok());
}

#[test]
fn config_new_expands_home_shorthands() {
    let maps = vec![FolderMap::new(
        "https://canvas.nus.edu.sg/courses/1/files".to_string(),
        "~/notes".to_string(),
    )];
    let config = Config::new(
        "token".to_string(),
        Some("~/base".to_string()),
        maps,
        "p".to_string(),
        true,
        Some("/home/me"),
    )
    .unwrap();
    assert_eq!(config.base_path().unwrap().as_str(), "/home/me/base");
    // the mapping's local directory hangs the expanded path under the
    // expanded base
    assert_eq!(config.folder_maps()[0].local_dir(), "/home/me/notes");
}

#[test]
fn config_set_token_replaces_the_token() {
    let mut config =
        Config::new("old".to_string(), None, Vec::new(), "p".to_string(), true, None).unwrap();
    config.set_token("new");
    assert_eq!(config.access_token(), "new");
}

#[test]
fn resolved_mapping_carries_parsed_fields() {
    let s = SFolderMap {
        url: "https://canvas.nus.edu.sg/courses/38518/files/folder/Lectures".to_string(),
        path: "lect".to_string(),
    };
    let fm = ResolvedMap::new(s, &Some("/base".to_string()), true).unwrap();
    assert_eq!(*fm.course_id(), 38518);
    assert_eq!(fm.remote_path(), "Lectures");
    assert_eq!(fm.local_dir().as_str(), "/base/lect");
    assert_eq!(fm.course_name().as_str(), "");
    assert!(fm.files_url().is_none());
}

#[test]
fn resolved_mapping_setters() {
    let s = SFolderMap {
        url: "https://canvas.nus.edu.sg/courses/38518/files/folder/Lectures".to_string(),
        path: "lect".to_string(),
    };
    let mut fm = ResolvedMap::new(s, &None, true).unwrap();
    fm.set_course_name("Maths");
    fm.set_files_url("http://files");
    assert_eq!(fm.course_name().as_str(), "Maths");
    assert_eq!(fm.files_url().unwrap().as_str(), "http://files");
}

#[test]
fn resolved_mapping_rejects_missing_parent() {
    let s = SFolderMap {
        url: "https://canvas.nus.edu.sg/courses/38518/files/folder/Lectures".to_string(),
        path: "lect".to_string(),
    };
    match ResolvedMap::new(s, &None, false) {
        Err(Error::DownloadNoParentDir(p)) => assert_eq!(p, "lect"),
        _ => panic!("expected the missing-parent error"),
    }
}

#[test]
fn folder_takes_its_name_from_the_path() {
    let f = Folder::new(5, "course files/Lectures/Week1");
    assert_eq!(f.id, 5);
    assert_eq!(f.name, "Week1");
    assert_eq!(f.path, "course files/Lectures/Week1");
    let g = Folder::new(6, "toplevel");
    assert_eq!(g.name, "toplevel");
}

#[test]
fn courses_start_empty() {
    let c = Courses::new(Api::new("tok"));
    assert!(c.db.is_empty());
    assert!(c.names.is_empty());
    assert_eq!(c.api.token(), "tok");
}

#[test]
fn api_keeps_its_token() {
    let api = Api::new("secret");
    assert_eq!(api.token(), "secret");
}

#[test]
fn user_holds_its_fields() {
    let u = User::new(9, "Ada".to_string(), "a0".to_string(), "ada@u.edu".to_string());
    assert_eq!(u.id, 9);
    assert_eq!(u.name, "Ada");
    assert_eq!(u.integration_id, "a0");
    assert_eq!(u.primary_email, "ada@u.edu");
}
