use vstd::prelude::*;

use crate::error::Error;
use crate::string::{parse_url, parsed_url, url_decodable, url_decode, url_decoded, push_char};

verus! {

/// The view of an optional string.
pub open spec fn opt_str_view(o: Option<String>) -> Option<Seq<char>> {
    match o {
        Some(s) => Some(s@),
        None => None,
    }
}

/// How two path pieces join: an empty piece disappears, an absolute second
/// piece wins, and otherwise exactly one separator stands between the two.
pub open spec fn spec_path_join(a: Seq<char>, b: Seq<char>) -> Seq<char> {
    if a.len() == 0 {
        b
    } else if b.len() == 0 {
        a
    } else if b[0] == '/' {
        b
    } else if a.last() == '/' {
        a + b
    } else {
        a + seq!['/'] + b
    }
}

/// Join two path pieces.
pub fn path_join(a: &str, b: &str) -> (r: String)
    ensures
        r@ == spec_path_join(a@, b@),
{
    let an = a.unicode_len();
    let bn = b.unicode_len();
    if an == 0 {
        return b.to_owned();
    }
    if bn == 0 {
        return a.to_owned();
    }
    if b.get_char(0) == '/' {
        return b.to_owned();
    }
    let mut out = a.to_owned();
    if a.get_char(an - 1) != '/' {
        push_char(&mut out, '/');
        proof {
            assert(out@ =~= a@ + seq!['/']);
        }
    }
    out.append(b);
    out
}

/// Whether a path begins with the home-directory shorthand as its first
/// component.
pub open spec fn has_tilde_component(s: Seq<char>) -> bool {
    s.len() >= 1 && s[0] == '~' && (s.len() == 1 || s[1] == '/')
}

/// Expand a leading home-directory shorthand, given the home directory.
///
/// A path that does not begin with the `~` component is kept as it is; a bare
/// `~` becomes the home directory itself; `~/rest` joins `rest` onto the home
/// directory. Without a home directory such a path cannot be expanded.
pub fn expand_tilde(path: &str, home: Option<&str>) -> (r: Option<String>)
    ensures
        !has_tilde_component(path@) ==> (r matches Some(p) && p@ == path@),
        has_tilde_component(path@) && home is None ==> r is None,
        (path@.len() == 1 && path@[0] == '~') ==> (home matches Some(h) ==> (r matches Some(p)
            && p@ == h@)),
        (path@.len() > 1 && has_tilde_component(path@)) ==> (home matches Some(h) ==> (r
            matches Some(p) && p@ == spec_path_join(h@, path@.skip(2)))),
{
    let n = path.unicode_len();
    if n == 0 {
        return Some(path.to_owned());
    }
    if path.get_char(0) != '~' {
        return Some(path.to_owned());
    }
    if n == 1 {
        return match home {
            Some(h) => Some(h.to_owned()),
            None => None,
        };
    }
    if path.get_char(1) != '/' {
        return Some(path.to_owned());
    }
    match home {
        None => None,
        Some(h) => {
            let rest = path.substring_char(2, n);
            proof {
                assert(path@.subrange(2, path@.len() as int) =~= path@.skip(2));
            }
            Some(path_join(h, rest))
        },
    }
}

/// The view of an optional borrowed string.
pub open spec fn opt_ref_view(o: Option<&str>) -> Option<Seq<char>> {
    match o {
        Some(s) => Some(s@),
        None => None,
    }
}

/// What home-directory expansion leaves of a path: a path without the `~`
/// component is kept, as is one that cannot be expanded for want of a home
/// directory; a bare `~` becomes the home directory, and `~/rest` joins
/// `rest` onto it.
pub open spec fn spec_expand_tilde(path: Seq<char>, home: Option<Seq<char>>) -> Seq<char> {
    if !has_tilde_component(path) {
        path
    } else {
        match home {
            None => path,
            Some(h) => if path.len() == 1 {
                h
            } else {
                spec_path_join(h, path.skip(2))
            },
        }
    }
}

/// Expand a leading home-directory shorthand, keeping a path that cannot be
/// expanded as it is.
pub fn expand_tilde_or_keep(path: &str, home: Option<&str>) -> (r: String)
    ensures
        r@ == spec_expand_tilde(path@, opt_ref_view(home)),
{
    match expand_tilde(path, home) {
        Some(p) => p,
        None => path.to_owned(),
    }
}

/// An accumulation queue: pooled tasks hand their results to the driver, and
/// the driver pushes them here before the merge step.
pub struct Tsq<T> {
    db: Vec<T>,
}

impl<T> View for Tsq<T> {
    type V = Seq<T>;

    closed spec fn view(&self) -> Seq<T> {
        self.db@
    }
}

impl<T> Tsq<T> {
    /// An empty queue.
    pub fn new() -> (r: Tsq<T>)
        ensures
            r@ == Seq::<T>::empty(),
    {
        Tsq { db: Vec::new() }
    }

    /// Append one result.
    pub fn push(&mut self, e: T)
        ensures
            final(self)@ == old(self)@.push(e),
    {
        self.db.push(e);
    }

    /// How many results have been gathered.
    pub fn len(&self) -> (r: usize)
        ensures
            r == self@.len(),
    {
        self.db.len()
    }

    /// Hand the gathered results over.
    pub fn extract(self) -> (r: Result<Vec<T>, Error>)
        ensures
            r matches Ok(v) && v@ == self@,
    {
        Ok(self.db)
    }
}

/// A download that a record schedules: the source url and the collision-free
/// local path the bytes belong at.
pub struct Download {
    pub url: String,
    pub local_path: String,
}

/// One remote file found missing locally: what course it belongs to, the path
/// it is shown under, and the download to perform, when one was requested.
pub struct Update {
    pub course_id: u32,
    pub remote_path: String,
    pub download: Option<Download>,
}

impl Update {
    /// Build one record.
    pub fn new(course_id: u32, remote_path: String, download: Option<Download>) -> (r: Update)
        ensures
            r.course_id == course_id,
            r.remote_path == remote_path,
            r.download == download,
    {
        Update { course_id, remote_path, download }
    }
}

/// The ghost shape of a tracked mapping: the folder url it tracks, the local
/// path that mirrors it, and the base directory the path hangs under.
pub ghost struct FolderMapView {
    pub url: Seq<char>,
    pub path: Seq<char>,
    pub base: Option<Seq<char>>,
}

/// One entry of the configuration: a remote folder url and the local
/// directory that tracks it.
pub struct FolderMap {
    url: String,
    path: String,
    base: Option<String>,
}

impl View for FolderMap {
    type V = FolderMapView;

    closed spec fn view(&self) -> FolderMapView {
        FolderMapView { url: self.url@, path: self.path@, base: opt_str_view(self.base) }
    }
}

/// Where a mapping's local directory lies: its path hung under the base
/// directory, when one is set.
pub open spec fn spec_local_dir(v: FolderMapView) -> Seq<char> {
    match v.base {
        Some(b) => spec_path_join(b, v.path),
        None => v.path,
    }
}

impl FolderMap {
    /// Build a mapping from a folder url and a local path, with no base
    /// directory yet.
    pub fn new(url: String, path: String) -> (r: FolderMap)
        ensures
            r@.url == url@,
            r@.path == path@,
            r@.base is None,
    {
        FolderMap { url, path, base: None }
    }

    /// The course number that the mapping's url names.
    pub fn course_id(&self) -> (r: Result<u32, Error>)
        ensures
            r is Ok <==> parsed_url(self@.url) is Some,
            r matches Ok(id) ==> id == parsed_url(self@.url)->Some_0.0,
            r matches Err(e) ==> (e matches Error::InvalidTrackingUrl(u) && u@ == self@.url),
    {
        match parse_url(self.url.as_str()) {
            Ok(p) => Ok(p.0),
            Err(e) => Err(e),
        }
    }

    /// The remote directory that the mapping's url names.
    pub fn remote_dir(&self) -> (r: Result<String, Error>)
        ensures
            r is Ok <==> parsed_url(self@.url) is Some,
            r matches Ok(d) ==> {
                let q = parsed_url(self@.url)->Some_0.1;
                &&& (url_decodable(q) ==> d@ == url_decoded(q))
                &&& (!url_decodable(q) ==> d@ == q)
            },
            r matches Err(e) ==> (e matches Error::InvalidTrackingUrl(u) && u@ == self@.url),
    {
        match parse_url(self.url.as_str()) {
            Ok(p) => Ok(p.1),
            Err(e) => Err(e),
        }
    }

    /// The local directory that tracks the url's folder.
    pub fn local_dir(&self) -> (r: String)
        ensures
            r@ == spec_local_dir(self@),
    {
        match &self.base {
            Some(b) => path_join(b.as_str(), self.path.as_str()),
            None => self.path.clone(),
        }
    }

    /// The mapping's folder url.
    pub fn url(&self) -> (r: &str)
        ensures
            r@ == self@.url,
    {
        self.url.as_str()
    }

    /// The local path as the configuration wrote it, before the base
    /// directory is hung under it.
    pub fn path(&self) -> (r: &str)
        ensures
            r@ == self@.path,
    {
        self.path.as_str()
    }

    /// Expand a home-directory shorthand at the front of the local path.
    /// Meant for the moment the configuration is first read.
    pub fn expand_home(&mut self, home: Option<&str>)
        ensures
            final(self)@.url == old(self)@.url,
            final(self)@.base == old(self)@.base,
            final(self)@.path == spec_expand_tilde(old(self)@.path, opt_ref_view(home)),
    {
        let expanded = expand_tilde_or_keep(self.path.as_str(), home);
        self.path = expanded;
    }

    /// Install the configuration's base directory and percent-decode the url.
    /// Meant for the moment the configuration is first read.
    pub fn set(&mut self, base: Option<String>)
        ensures
            final(self)@.path == old(self)@.path,
            final(self)@.base == opt_str_view(base),
            url_decodable(old(self)@.url) ==> final(self)@.url == url_decoded(old(self)@.url),
            !url_decodable(old(self)@.url) ==> final(self)@.url == old(self)@.url,
    {
        match url_decode(self.url.as_str()) {
            Some(decoded) => {
                self.url = decoded;
            },
            None => {},
        }
        self.base = base;
    }
}

/// The profile of the signed-in user, as far as the library keeps it.
pub struct User {
    pub id: u32,
    pub name: String,
    pub integration_id: String,
    pub primary_email: String,
}

impl User {
    /// Build a profile from its fields.
    pub fn new(id: u32, name: String, integration_id: String, primary_email: String) -> (r: User)
        ensures
            r.id == id,
            r.name == name,
            r.integration_id == integration_id,
            r.primary_email == primary_email,
    {
        User { id, name, integration_id, primary_email }
    }
}

} // verus!
