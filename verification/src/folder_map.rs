use vstd::prelude::*;

use crate::error::Error;
use crate::string::{parse_url, parsed_url, url_decodable, url_decode, url_decoded};
use crate::types::{opt_str_view, path_join, spec_path_join};

verus! {

/// A tracked mapping as the configuration file writes it: the folder url and
/// the local path that tracks it.
pub struct SFolderMap {
    pub url: String,
    pub path: String,
}

/// The ghost shape of a resolved mapping.
pub ghost struct ResolvedMapView {
    pub course_id: u32,
    pub remote_path: Seq<char>,
    pub course_name: Seq<char>,
    pub local_dir: Seq<char>,
    pub url: Seq<char>,
    pub files_url: Option<Seq<char>>,
}

/// A tracked mapping with its url already resolved: the course number and
/// remote path it names, the local directory that mirrors it, and the course
/// display name once it has been fetched.
pub struct FolderMap {
    course_id: u32,
    remote_path: String,
    course_name: String,
    local_dir: String,
    url: String,
    files_url: Option<String>,
}

impl View for FolderMap {
    type V = ResolvedMapView;

    closed spec fn view(&self) -> ResolvedMapView {
        ResolvedMapView {
            course_id: self.course_id,
            remote_path: self.remote_path@,
            course_name: self.course_name@,
            local_dir: self.local_dir@,
            url: self.url@,
            files_url: opt_str_view(self.files_url),
        }
    }
}

impl FolderMap {
    /// Resolve one configuration entry: parse its url into the course number
    /// and remote path, hang the local path under the base directory, and
    /// refuse a local directory whose parent is missing. The caller reports
    /// whether that parent is a directory, and creates the local directory
    /// once the mapping is accepted.
    pub fn new(sfolder_map: SFolderMap, base_path: &Option<String>, parent_is_dir: bool) -> (r:
        Result<FolderMap, Error>)
        ensures
            r is Ok <==> (parsed_url(sfolder_map.url@) is Some && parent_is_dir),
            parsed_url(sfolder_map.url@) is None ==> (r matches Err(e) && e
                matches Error::InvalidTrackingUrl(u) && u@ == sfolder_map.url@),
            parsed_url(sfolder_map.url@) is Some && !parent_is_dir ==> (r matches Err(e) && e
                matches Error::DownloadNoParentDir(_)),
            r matches Ok(fm) ==> {
                let q = parsed_url(sfolder_map.url@)->Some_0;
                &&& fm@.course_id == q.0
                &&& (url_decodable(q.1) ==> fm@.remote_path == url_decoded(q.1))
                &&& (!url_decodable(q.1) ==> fm@.remote_path == q.1)
                &&& fm@.local_dir == match opt_str_view(*base_path) {
                    Some(b) => spec_path_join(b, sfolder_map.path@),
                    None => sfolder_map.path@,
                }
                &&& (url_decodable(sfolder_map.url@) ==> fm@.url == url_decoded(sfolder_map.url@))
                &&& (!url_decodable(sfolder_map.url@) ==> fm@.url == sfolder_map.url@)
                &&& fm@.course_name.len() == 0
                &&& fm@.files_url is None
            },
    {
        let (course_id, remote_path) = match parse_url(sfolder_map.url.as_str()) {
            Ok(p) => p,
            Err(e) => {
                return Err(e);
            },
        };
        let local_dir = match base_path {
            Some(b) => path_join(b.as_str(), sfolder_map.path.as_str()),
            None => sfolder_map.path,
        };
        if !parent_is_dir {
            return Err(Error::DownloadNoParentDir(local_dir));
        }
        let url = match url_decode(sfolder_map.url.as_str()) {
            Some(d) => d,
            None => sfolder_map.url,
        };
        Ok(
            FolderMap {
                course_id,
                remote_path,
                course_name: String::new(),
                local_dir,
                url,
                files_url: None,
            },
        )
    }

    /// The course number the mapping's url names.
    pub fn course_id(&self) -> (r: &u32)
        ensures
            *r == self@.course_id,
    {
        &self.course_id
    }

    /// The course's display name, empty until it has been set.
    pub fn course_name(&self) -> (r: &String)
        ensures
            r@ == self@.course_name,
    {
        &self.course_name
    }

    /// Record the course's display name.
    pub fn set_course_name(&mut self, course_name: &str)
        ensures
            final(self)@ == (ResolvedMapView { course_name: course_name@, ..old(self)@ }),
    {
        self.course_name = course_name.to_owned();
    }

    /// Record where the course's file listing is fetched from.
    pub fn set_files_url(&mut self, files_url: &str)
        ensures
            final(self)@ == (ResolvedMapView { files_url: Some(files_url@), ..old(self)@ }),
    {
        self.files_url = Some(files_url.to_owned());
    }

    /// The remote path the mapping tracks.
    pub fn remote_path(&self) -> (r: &str)
        ensures
            r@ == self@.remote_path,
    {
        self.remote_path.as_str()
    }

    /// The local directory that mirrors the tracked folder.
    pub fn local_dir(&self) -> (r: &String)
        ensures
            r@ == self@.local_dir,
    {
        &self.local_dir
    }

    /// The mapping's folder url.
    pub fn url(&self) -> (r: &str)
        ensures
            r@ == self@.url,
    {
        self.url.as_str()
    }

    /// Where the course's file listing is fetched from, once recorded.
    pub fn files_url(&self) -> (r: Option<&String>)
        ensures
            match r {
                Some(u) => self@.files_url == Some(u@),
                None => self@.files_url is None,
            },
    {
        self.files_url.as_ref()
    }
}

} // verus!
