use vstd::prelude::*;

use crate::api::Api;
use crate::sync::last_index_of;

verus! {

/// A file of a course tree.
pub struct File {
    pub id: u32,
    pub name: String,
}

/// A folder of a course tree, holding its children.
pub struct Folder {
    pub id: u32,
    pub name: String,
    pub path: String,
    pub folders: Vec<Folder>,
    pub files: Vec<File>,
}

/// The final component of a path: what follows the last separator, or the
/// whole path when it has none.
pub open spec fn base_name(path: Seq<char>) -> Seq<char> {
    match last_index_of(path, '/') {
        Some(i) => path.skip(i + 1),
        None => path,
    }
}

impl Folder {
    /// An empty folder at a path, named after the path's final component.
    pub fn new(id: u32, path: &str) -> (r: Folder)
        ensures
            r.id == id,
            r.path@ == path@,
            r.name@ == base_name(path@),
            r.folders@.len() == 0,
            r.files@.len() == 0,
    {
        let n = path.unicode_len();
        let name = match crate::sync::find_last_char(path, '/') {
            Some(i) => {
                assert(i < n);
                let r = path.substring_char(i + 1, n);
                proof {
                    assert(r@ =~= path@.skip(i + 1));
                }
                r.to_owned()
            },
            None => path.to_owned(),
        };
        Folder { id, name, files: Vec::new(), folders: Vec::new(), path: path.to_owned() }
    }
}

/// One course with everything fetched of it so far.
pub struct Course {
    pub id: u32,
    pub name: String,
    pub files: Vec<File>,
    pub folders: Vec<Folder>,
}

/// The courses fetched in one session, with their display names and the
/// client handle the fetches go through.
pub struct Courses {
    pub db: Vec<(u32, Course)>,
    pub names: Vec<(u32, String)>,
    pub api: Api,
}

impl Courses {
    /// A session that has fetched nothing yet.
    pub fn new(api: Api) -> (r: Courses)
        ensures
            r.db@.len() == 0,
            r.names@.len() == 0,
            r.api@ == api@,
    {
        Courses { db: Vec::new(), api, names: Vec::new() }
    }
}

} // verus!
