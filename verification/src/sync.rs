use vstd::prelude::*;

use crate::error::Error;
use crate::string::{normalize_filename, normalized, parsed_url, url_decodable, url_decoded, starts_with_str};
use crate::types::{
    spec_path_join, spec_local_dir, path_join, Download, FolderMap, Update,
};

verus! {

/// The constant prefix that the remote service puts before every folder path.
pub open spec fn root_prefix() -> Seq<char> {
    "course files/"@
}

/// A folder as the remote listing carries it, holding only the fields the
/// reconciliation reads; a malformed entry may miss either.
pub struct RemoteFolder {
    pub id: Option<u32>,
    pub full_name: Option<String>,
}

/// A file as the remote listing carries it, holding only the fields the
/// reconciliation reads; a malformed entry may miss either.
pub struct RemoteFile {
    pub url: Option<String>,
    pub filename: Option<String>,
}

/// A remote folder that lies inside a tracked subtree, with the tracked
/// prefix stripped from its path.
pub struct MatchedFolder {
    pub folder_id: u32,
    pub relative_path: String,
}

/// Where a stripped folder path stands relative to a tracked path: the
/// tracked root itself (empty relative path), a descendant behind a
/// separator (the remainder), or outside the subtree.
pub open spec fn rel_under(rd: Seq<char>, t: Seq<char>) -> Option<Seq<char>> {
    if t.len() == 0 {
        Some(rd)
    } else if rd == t {
        Some(Seq::<char>::empty())
    } else if (t + seq!['/']).is_prefix_of(rd) {
        Some(rd.skip(t.len() as int + 1))
    } else {
        None
    }
}

/// What one listed folder contributes under a tracked path: its id and
/// relative path when it is well-formed and lies in the subtree.
pub open spec fn folder_match(f: RemoteFolder, t: Seq<char>) -> Option<(u32, Seq<char>)> {
    match (f.id, f.full_name) {
        (Some(id), Some(name)) => {
            if root_prefix().is_prefix_of(name@) {
                match rel_under(name@.skip(root_prefix().len() as int), t) {
                    Some(rel) => Some((id, rel)),
                    None => None,
                }
            } else {
                None
            }
        },
        _ => None,
    }
}

/// A stripped path matches a nonempty tracked path exactly when it is the
/// tracked path itself, with an empty relative path, or continues it behind a
/// separator, with the remainder as relative path; a path that merely begins
/// with the tracked path's characters does not match.
pub proof fn lemma_match_classification(rd: Seq<char>, t: Seq<char>)
    requires
        t.len() > 0,
    ensures
        rd == t ==> rel_under(rd, t) == Some(Seq::<char>::empty()),
        rd != t && (t + seq!['/']).is_prefix_of(rd) ==> rel_under(rd, t) == Some(
            rd.skip(t.len() as int + 1),
        ),
        rd != t && !(t + seq!['/']).is_prefix_of(rd) ==> rel_under(rd, t) is None,
{
}

/// Only folders inside the tracked subtree are ever matched: a matched
/// folder's stripped path is the tracked path itself, or the tracked path,
/// a separator, and the folder's relative path; under an empty tracked path
/// the stripped path is the relative path itself.
pub proof fn lemma_matched_within_subtree(rd: Seq<char>, t: Seq<char>)
    ensures
        rel_under(rd, t) matches Some(rel) ==> {
            ||| t.len() == 0 && rel == rd
            ||| rd == t && rel.len() == 0
            ||| rd == t + seq!['/'] + rel
        },
{
    if t.len() > 0 && rd != t && (t + seq!['/']).is_prefix_of(rd) {
        assert(rd =~= t + seq!['/'] + rd.skip(t.len() as int + 1));
    }
}

/// Decide whether one listed folder belongs to the tracked subtree, and
/// relativize its path when it does.
pub fn match_remote_folder(folder: &RemoteFolder, track: &str) -> (r: Option<MatchedFolder>)
    ensures
        r is Some <==> folder_match(*folder, track@) is Some,
        r matches Some(m) ==> {
            let q = folder_match(*folder, track@)->Some_0;
            m.folder_id == q.0 && m.relative_path@ == q.1
        },
{
    let id = match &folder.id {
        Some(i) => *i,
        None => {
            return None;
        },
    };
    let name = match &folder.full_name {
        Some(n) => n,
        None => {
            return None;
        },
    };
    proof {
        reveal_strlit("course files/");
    }
    if !starts_with_str(name.as_str(), "course files/") {
        return None;
    }
    let nn = name.as_str().unicode_len();
    let rd = name.as_str().substring_char(13, nn);
    proof {
        assert(rd@ =~= name@.skip(root_prefix().len() as int));
    }
    let rdn = rd.unicode_len();
    let tn = track.unicode_len();
    if tn == 0 {
        return Some(MatchedFolder { folder_id: id, relative_path: rd.to_owned() });
    }
    if starts_with_str(rd, track) {
        if rdn == tn {
            proof {
                assert(rd@ =~= track@);
            }
            return Some(MatchedFolder { folder_id: id, relative_path: String::new() });
        }
        if rd.get_char(tn) == '/' {
            let rel = rd.substring_char(tn + 1, rdn);
            proof {
                assert((track@ + seq!['/']).is_prefix_of(rd@)) by {
                    assert(track@ + seq!['/'] =~= rd@.subrange(0, tn + 1));
                }
                assert(rd@ != track@);
                assert(rel@ =~= rd@.skip(track@.len() as int + 1));
            }
            return Some(MatchedFolder { folder_id: id, relative_path: rel.to_owned() });
        }
    }
    proof {
        if (track@ + seq!['/']).is_prefix_of(rd@) {
            assert(track@.is_prefix_of(rd@)) by {
                assert(track@ =~= rd@.subrange(0, tn as int));
            }
            assert(rd@[tn as int] == (track@ + seq!['/'])[tn as int]);
        }
        assert(rd@ != track@) by {
            if rd@ == track@ {
                assert(track@.is_prefix_of(rd@)) by {
                    assert(track@ =~= rd@.subrange(0, tn as int));
                }
            }
        }
    }
    None
}

/// The matched folders that one listing yields under a tracked path, in the
/// listing's order.
pub open spec fn matched_of(fs: Seq<RemoteFolder>, t: Seq<char>) -> Seq<(u32, Seq<char>)>
    decreases fs.len(),
{
    if fs.len() == 0 {
        Seq::<(u32, Seq<char>)>::empty()
    } else {
        let rest = matched_of(fs.drop_last(), t);
        match folder_match(fs.last(), t) {
            Some(m) => rest.push(m),
            None => rest,
        }
    }
}

/// The ghost shape of one reconciliation run over one tracked mapping.
pub ghost struct SyncView {
    pub course_id: u32,
    pub remote_dir: Seq<char>,
    pub local_dir: Seq<char>,
    pub url: Seq<char>,
    pub download: bool,
}

/// One reconciliation run over one tracked mapping: which course and remote
/// directory it follows, where the mirror lies, and whether downloads were
/// asked for.
pub struct Sync {
    course_id: u32,
    remote_dir: String,
    local_dir: String,
    url: String,
    download: bool,
}

impl View for Sync {
    type V = SyncView;

    closed spec fn view(&self) -> SyncView {
        SyncView {
            course_id: self.course_id,
            remote_dir: self.remote_dir@,
            local_dir: self.local_dir@,
            url: self.url@,
            download: self.download,
        }
    }
}

impl Sync {
    /// Open a run over one mapping. The caller reports whether the local
    /// directory's parent exists; a mapping whose parent is missing is
    /// refused before any remote work, as is one whose url does not parse.
    pub fn new(fm: &FolderMap, download: bool, parent_exists: bool) -> (r: Result<Sync, Error>)
        ensures
            r is Ok <==> (parent_exists && parsed_url(fm@.url) is Some),
            !parent_exists ==> (r matches Err(e) && e matches Error::DownloadNoParentDir(d)
                && d@ == spec_local_dir(fm@)),
            parent_exists && parsed_url(fm@.url) is None ==> (r matches Err(e) && e
                matches Error::InvalidTrackingUrl(u) && u@ == fm@.url),
            r matches Ok(s) ==> {
                let q = parsed_url(fm@.url)->Some_0;
                &&& s@.course_id == q.0
                &&& (url_decodable(q.1) ==> s@.remote_dir == url_decoded(q.1))
                &&& (!url_decodable(q.1) ==> s@.remote_dir == q.1)
                &&& s@.local_dir == spec_local_dir(fm@)
                &&& s@.url == fm@.url
                &&& s@.download == download
            },
    {
        if !parent_exists {
            return Err(Error::DownloadNoParentDir(fm.local_dir()));
        }
        let course_id = match fm.course_id() {
            Ok(id) => id,
            Err(e) => {
                return Err(e);
            },
        };
        let remote_dir = match fm.remote_dir() {
            Ok(d) => d,
            Err(e) => {
                return Err(e);
            },
        };
        let local_dir = fm.local_dir();
        let url = fm.url().to_owned();
        Ok(Sync { course_id, remote_dir, local_dir, url, download })
    }

    /// The course this run reads.
    pub fn course_id(&self) -> (r: u32)
        ensures
            r == self@.course_id,
    {
        self.course_id
    }

    /// Whether this run downloads or only lists.
    pub fn wants_download(&self) -> (r: bool)
        ensures
            r == self@.download,
    {
        self.download
    }

    /// The tracked url this run follows.
    pub fn url(&self) -> (r: &str)
        ensures
            r@ == self@.url,
    {
        self.url.as_str()
    }

    /// Apply the matcher to a full folder listing. An empty match set means
    /// the tracked url names nothing in the course, which is an error naming
    /// that url; the listing's own order is kept.
    pub fn resolve_folders(&self, folders: &Vec<RemoteFolder>) -> (r: Result<
        Vec<MatchedFolder>,
        Error,
    >)
        ensures
            r is Ok <==> matched_of(folders@, self@.remote_dir).len() > 0,
            r matches Ok(ms) ==> {
                let q = matched_of(folders@, self@.remote_dir);
                &&& ms@.len() == q.len()
                &&& forall|i: int|
                    0 <= i < q.len() ==> (#[trigger] ms@[i]).folder_id == q[i].0
                        && ms@[i].relative_path@ == q[i].1
            },
            r matches Err(e) ==> (e matches Error::NoFoldersFoundInCourse { url } && url@
                == self@.url),
    {
        let n = folders.len();
        let mut out: Vec<MatchedFolder> = Vec::new();
        let mut i: usize = 0;
        proof {
            assert(folders@.take(0) =~= Seq::<RemoteFolder>::empty());
        }
        #[verifier::loop_isolation(false)]
        while i < n
            invariant
                i <= n == folders@.len(),
                out@.len() == matched_of(folders@.take(i as int), self@.remote_dir).len(),
                forall|k: int|
                    0 <= k < out@.len() ==> {
                        let q = matched_of(folders@.take(i as int), self@.remote_dir);
                        (#[trigger] out@[k]).folder_id == q[k].0 && out@[k].relative_path@
                            == q[k].1
                    },
            decreases n - i,
        {
            proof {
                assert(folders@.take(i + 1).drop_last() =~= folders@.take(i as int));
                assert(folders@.take(i + 1).last() == folders@[i as int]);
            }
            match match_remote_folder(&folders[i], self.remote_dir.as_str()) {
                Some(m) => {
                    out.push(m);
                },
                None => {},
            }
            i += 1;
        }
        proof {
            assert(folders@.take(n as int) =~= folders@);
        }
        if out.len() == 0 {
            return Err(Error::NoFoldersFoundInCourse { url: self.url.clone() });
        }
        Ok(out)
    }
}

/// The ghost shape of one planned file: its source url, the directory the
/// file would land in, the full local target, and the path shown for it.
pub ghost struct FilePlanView {
    pub url: Seq<char>,
    pub dir: Seq<char>,
    pub target: Seq<char>,
    pub display: Seq<char>,
}

/// One file of a matched folder, ready for the local diff: its source url,
/// the directory it would land in, the full local target path, and the path
/// it is shown under.
pub struct FilePlan {
    pub url: String,
    pub dir: String,
    pub target: String,
    pub display: String,
}

impl View for FilePlan {
    type V = FilePlanView;

    open spec fn view(&self) -> FilePlanView {
        FilePlanView {
            url: self.url@,
            dir: self.dir@,
            target: self.target@,
            display: self.display@,
        }
    }
}

/// What one listed file plans to, under a local directory and a relative
/// folder path: the filename is normalized, then joined under both.
pub open spec fn plan_of(
    local_dir: Seq<char>,
    rel: Seq<char>,
    url: Seq<char>,
    name: Seq<char>,
) -> FilePlanView {
    let norm = normalized(name);
    let dir = spec_path_join(local_dir, rel);
    FilePlanView {
        url,
        dir,
        target: spec_path_join(dir, norm),
        display: spec_path_join(rel, norm),
    }
}

/// The plans that one folder's file listing yields, in the listing's order;
/// a malformed entry that misses its url or filename is dropped.
pub open spec fn plans_of(local_dir: Seq<char>, rel: Seq<char>, files: Seq<RemoteFile>) -> Seq<
    FilePlanView,
>
    decreases files.len(),
{
    if files.len() == 0 {
        Seq::<FilePlanView>::empty()
    } else {
        let rest = plans_of(local_dir, rel, files.drop_last());
        match (files.last().url, files.last().filename) {
            (Some(u), Some(f)) => rest.push(plan_of(local_dir, rel, u@, f@)),
            _ => rest,
        }
    }
}

impl Sync {
    /// Turn one matched folder's file listing into file plans: normalize
    /// each filename and join it under the run's local directory and the
    /// folder's relative path.
    pub fn plan_files(&self, folder: &MatchedFolder, files: &Vec<RemoteFile>) -> (r: Vec<FilePlan>)
        ensures
            r@.map_values(|p: FilePlan| p@) == plans_of(
                self@.local_dir,
                folder.relative_path@,
                files@,
            ),
    {
        let n = files.len();
        let mut out: Vec<FilePlan> = Vec::new();
        let mut i: usize = 0;
        let dir = path_join(self.local_dir.as_str(), folder.relative_path.as_str());
        proof {
            assert(files@.take(0) =~= Seq::<RemoteFile>::empty());
            assert(out@.map_values(|p: FilePlan| p@) =~= plans_of(
                self@.local_dir,
                folder.relative_path@,
                files@.take(0),
            ));
        }
        #[verifier::loop_isolation(false)]
        while i < n
            invariant
                i <= n == files@.len(),
                dir@ == spec_path_join(self@.local_dir, folder.relative_path@),
                out@.map_values(|p: FilePlan| p@) == plans_of(
                    self@.local_dir,
                    folder.relative_path@,
                    files@.take(i as int),
                ),
            decreases n - i,
        {
            proof {
                assert(files@.take(i + 1).drop_last() =~= files@.take(i as int));
                assert(files@.take(i + 1).last() == files@[i as int]);
            }
            let file = &files[i];
            match (&file.url, &file.filename) {
                (Some(u), Some(f)) => {
                    let norm = normalize_filename(f.as_str());
                    let target = path_join(dir.as_str(), norm.as_str());
                    let display = path_join(folder.relative_path.as_str(), norm.as_str());
                    let plan = FilePlan { url: u.clone(), dir: dir.clone(), target, display };
                    out.push(plan);
                    proof {
                        assert(out@.map_values(|p: FilePlan| p@) =~= plans_of(
                            self@.local_dir,
                            folder.relative_path@,
                            files@.take(i as int),
                        ).push(plan@));
                    }
                },
                _ => {},
            }
            i += 1;
        }
        proof {
            assert(files@.take(n as int) =~= files@);
        }
        out
    }
}

/// The ghost shape of one update record.
pub ghost struct UpdateView {
    pub course_id: u32,
    pub remote_path: Seq<char>,
    pub download: Option<(Seq<char>, Seq<char>)>,
}

/// The view of one update record: its course, display path, and scheduled
/// download as a url and target pair.
pub open spec fn update_view(u: Update) -> UpdateView {
    UpdateView {
        course_id: u.course_id,
        remote_path: u.remote_path@,
        download: match u.download {
            Some(d) => Some((d.url@, d.local_path@)),
            None => None,
        },
    }
}

/// The records that a diff over planned files yields, given which targets
/// are already present: a present target contributes nothing, a missing one
/// contributes a record, with a download attached exactly when the run asked
/// to download.
pub open spec fn updates_of(
    course_id: u32,
    want: bool,
    plans: Seq<FilePlanView>,
    present: Seq<bool>,
) -> Seq<UpdateView>
    decreases plans.len(),
{
    if plans.len() == 0 {
        Seq::<UpdateView>::empty()
    } else {
        let rest = updates_of(course_id, want, plans.drop_last(), present.drop_last());
        if present.last() {
            rest
        } else {
            rest.push(
                UpdateView {
                    course_id,
                    remote_path: plans.last().display,
                    download: if want {
                        Some((plans.last().url, plans.last().target))
                    } else {
                        None
                    },
                },
            )
        }
    }
}

/// The diff is a function of the listed plans and the local state alone: two
/// runs over the same listing and the same local state yield the very same
/// records.
pub proof fn lemma_diff_deterministic(
    course_id: u32,
    want: bool,
    plans1: Seq<FilePlanView>,
    present1: Seq<bool>,
    plans2: Seq<FilePlanView>,
    present2: Seq<bool>,
)
    requires
        plans1 == plans2,
        present1 == present2,
    ensures
        updates_of(course_id, want, plans1, present1) == updates_of(
            course_id,
            want,
            plans2,
            present2,
        ),
{
}

/// A listing-only run schedules nothing: none of its records carries a
/// download.
pub proof fn lemma_listing_schedules_nothing(
    course_id: u32,
    plans: Seq<FilePlanView>,
    present: Seq<bool>,
)
    ensures
        forall|i: int|
            0 <= i < updates_of(course_id, false, plans, present).len() ==> (#[trigger] updates_of(
                course_id,
                false,
                plans,
                present,
            )[i]).download is None,
    decreases plans.len(),
{
    if plans.len() == 0 {
    } else {
        lemma_listing_schedules_nothing(course_id, plans.drop_last(), present.drop_last());
    }
}

/// Once every planned target is present locally, the diff yields no records;
/// so after a run that downloaded everything it had scheduled, a second,
/// listing-only run over the same mappings reports nothing.
pub proof fn lemma_all_present_no_updates(
    course_id: u32,
    want: bool,
    plans: Seq<FilePlanView>,
    present: Seq<bool>,
)
    requires
        plans.len() == present.len(),
        forall|i: int| 0 <= i < present.len() ==> present[i],
    ensures
        updates_of(course_id, want, plans, present).len() == 0,
    decreases plans.len(),
{
    if plans.len() == 0 {
    } else {
        assert(present.last());
        lemma_all_present_no_updates(course_id, want, plans.drop_last(), present.drop_last());
    }
}

impl Sync {
    /// Diff one folder's plans against the local state: the caller reports,
    /// plan by plan, whether the target is already a local file; each missing
    /// one becomes a record, with its download attached when this run asked
    /// to download.
    pub fn diff_files(&self, plans: &Vec<FilePlan>, present: &Vec<bool>) -> (r: Vec<Update>)
        requires
            plans@.len() == present@.len(),
        ensures
            r@.map_values(|u: Update| update_view(u)) == updates_of(
                self@.course_id,
                self@.download,
                plans@.map_values(|p: FilePlan| p@),
                present@,
            ),
    {
        let n = plans.len();
        let mut out: Vec<Update> = Vec::new();
        let mut i: usize = 0;
        proof {
            assert(plans@.take(0).map_values(|p: FilePlan| p@) =~= plans@.map_values(
                |p: FilePlan| p@,
            ).take(0));
            assert(out@.map_values(|u: Update| update_view(u)) =~= updates_of(
                self@.course_id,
                self@.download,
                plans@.map_values(|p: FilePlan| p@).take(0),
                present@.take(0),
            ));
        }
        #[verifier::loop_isolation(false)]
        while i < n
            invariant
                i <= n == plans@.len() == present@.len(),
                out@.map_values(|u: Update| update_view(u)) == updates_of(
                    self@.course_id,
                    self@.download,
                    plans@.map_values(|p: FilePlan| p@).take(i as int),
                    present@.take(i as int),
                ),
            decreases n - i,
        {
            let ghost pviews = plans@.map_values(|p: FilePlan| p@);
            proof {
                assert(pviews.take(i + 1).drop_last() =~= pviews.take(i as int));
                assert(present@.take(i + 1).drop_last() =~= present@.take(i as int));
                assert(pviews.take(i + 1).last() == pviews[i as int]);
                assert(present@.take(i + 1).last() == present@[i as int]);
            }
            if !present[i] {
                let plan = &plans[i];
                let download = if self.download {
                    Some(Download { url: plan.url.clone(), local_path: plan.target.clone() })
                } else {
                    None
                };
                let u = Update {
                    course_id: self.course_id,
                    remote_path: plan.display.clone(),
                    download,
                };
                out.push(u);
                proof {
                    assert(out@.map_values(|u2: Update| update_view(u2)) =~= updates_of(
                        self@.course_id,
                        self@.download,
                        pviews.take(i as int),
                        present@.take(i as int),
                    ).push(update_view(u)));
                }
            }
            i += 1;
        }
        proof {
            assert(plans@.map_values(|p: FilePlan| p@).take(n as int) =~= plans@.map_values(
                |p: FilePlan| p@,
            ));
            assert(present@.take(n as int) =~= present@);
        }
        out
    }
}

// --- collision-free download targets ---

/// How many disambiguation suffixes are tried before the search counts as
/// exhausted.
pub const COLLISION_LIMIT: u64 = 9999;

/// The character of one decimal digit.
pub open spec fn digit_char(d: int) -> char {
    if d == 0 {
        '0'
    } else if d == 1 {
        '1'
    } else if d == 2 {
        '2'
    } else if d == 3 {
        '3'
    } else if d == 4 {
        '4'
    } else if d == 5 {
        '5'
    } else if d == 6 {
        '6'
    } else if d == 7 {
        '7'
    } else if d == 8 {
        '8'
    } else {
        '9'
    }
}

/// A number written in decimal.
pub open spec fn dec_digits(n: int) -> Seq<char>
    decreases n,
{
    if n < 10 {
        seq![digit_char(n)]
    } else {
        dec_digits(n / 10).push(digit_char(n % 10))
    }
}

/// The index of the last occurrence of a character, if any.
pub open spec fn last_index_of(s: Seq<char>, c: char) -> Option<int>
    decreases s.len(),
{
    if s.len() == 0 {
        None
    } else if s.last() == c {
        Some(s.len() - 1)
    } else {
        last_index_of(s.drop_last(), c)
    }
}

/// Where the final path component begins.
pub open spec fn name_start(t: Seq<char>) -> int {
    match last_index_of(t, '/') {
        Some(sl) => sl + 1,
        None => 0,
    }
}

/// Where a disambiguation suffix goes: before the final component's
/// extension when it has one, at the very end otherwise.
pub open spec fn insertion_point(t: Seq<char>) -> int {
    match last_index_of(t, '.') {
        Some(d) => if d > name_start(t) {
            d
        } else {
            t.len() as int
        },
        None => t.len() as int,
    }
}

/// A target path with the n-th disambiguation suffix worked in.
pub open spec fn suffixed(t: Seq<char>, n: int) -> Seq<char> {
    t.take(insertion_point(t)) + "_("@ + dec_digits(n) + ")"@ + t.skip(insertion_point(t))
}

fn digit_char_exec(d: u64) -> (c: char)
    requires
        d < 10,
    ensures
        c == digit_char(d as int),
{
    match d {
        0 => '0',
        1 => '1',
        2 => '2',
        3 => '3',
        4 => '4',
        5 => '5',
        6 => '6',
        7 => '7',
        8 => '8',
        _ => '9',
    }
}

fn u64_to_dec(n: u64) -> (r: String)
    ensures
        r@ == dec_digits(n as int),
    decreases n,
{
    if n < 10 {
        let mut s = String::new();
        crate::string::push_char(&mut s, digit_char_exec(n));
        proof {
            assert(s@ =~= seq![digit_char(n as int)]);
        }
        s
    } else {
        let mut s = u64_to_dec(n / 10);
        crate::string::push_char(&mut s, digit_char_exec(n % 10));
        s
    }
}

proof fn lemma_last_index_at(s: Seq<char>, c: char, i: int)
    requires
        0 <= i < s.len(),
        s[i] == c,
        forall|k: int| i < k < s.len() ==> s[k] != c,
    ensures
        last_index_of(s, c) == Some(i),
    decreases s.len(),
{
    if i == s.len() - 1 {
    } else {
        assert(s.last() != c);
        assert(s.drop_last()[i] == c);
        lemma_last_index_at(s.drop_last(), c, i);
    }
}

proof fn lemma_last_index_none(s: Seq<char>, c: char)
    requires
        forall|k: int| 0 <= k < s.len() ==> s[k] != c,
    ensures
        last_index_of(s, c) is None,
    decreases s.len(),
{
    if s.len() == 0 {
    } else {
        lemma_last_index_none(s.drop_last(), c);
    }
}

/// The index of the last occurrence of a character.
pub(crate) fn find_last_char(s: &str, c: char) -> (r: Option<usize>)
    ensures
        match r {
            Some(i) => i < s@.len() && last_index_of(s@, c) == Some(i as int),
            None => last_index_of(s@, c) is None,
        },
{
    let n = s.unicode_len();
    let mut best: Option<usize> = None;
    let mut i: usize = 0;
    #[verifier::loop_isolation(false)]
    while i < n
        invariant
            i <= n == s@.len(),
            match best {
                Some(b) => b < i && s@[b as int] == c && forall|k: int| b < k < i ==> s@[k] != c,
                None => forall|k: int| 0 <= k < i ==> s@[k] != c,
            },
        decreases n - i,
    {
        if s.get_char(i) == c {
            best = Some(i);
        }
        i += 1;
    }
    proof {
        match best {
            Some(b) => lemma_last_index_at(s@, c, b as int),
            None => lemma_last_index_none(s@, c),
        }
    }
    best
}

/// A target path with the n-th disambiguation suffix worked in, before the
/// final component's extension.
pub fn suffixed_name(t: &str, n: u64) -> (r: String)
    ensures
        r@ == suffixed(t@, n as int),
{
    let tn = t.unicode_len();
    let dot = find_last_char(t, '.');
    let slash = find_last_char(t, '/');
    let ip: usize = match dot {
        Some(d) => {
            let start: usize = match slash {
                Some(sl) => sl + 1,
                None => 0,
            };
            if d > start {
                d
            } else {
                tn
            }
        },
        None => tn,
    };
    proof {
        assert(ip as int == insertion_point(t@));
    }
    let mut out = t.substring_char(0, ip).to_owned();
    out.append("_(");
    let digits = u64_to_dec(n);
    out.append(digits.as_str());
    out.append(")");
    out.append(t.substring_char(ip, tn));
    proof {
        assert(t@.subrange(0, ip as int) =~= t@.take(ip as int));
        assert(t@.subrange(ip as int, t@.len() as int) =~= t@.skip(ip as int));
    }
    out
}

/// The views of a list of paths.
pub open spec fn path_views(occ: Seq<String>) -> Seq<Seq<char>> {
    occ.map_values(|s: String| s@)
}

/// Whether some occupied path holds these characters.
pub open spec fn occupied_contains(occ: Seq<Seq<char>>, t: Seq<char>) -> bool {
    exists|i: int| 0 <= i < occ.len() && (#[trigger] occ[i]) == t
}

fn contains_str(occ: &Vec<String>, t: &str) -> (r: bool)
    ensures
        r == occupied_contains(path_views(occ@), t@),
{
    let n = occ.len();
    let mut i: usize = 0;
    #[verifier::loop_isolation(false)]
    while i < n
        invariant
            i <= n == occ@.len(),
            forall|k: int| 0 <= k < i ==> (#[trigger] occ@[k])@ != t@,
        decreases n - i,
    {
        if crate::string::str_eq(occ[i].as_str(), t) {
            proof {
                assert(path_views(occ@)[i as int] == t@);
            }
            return true;
        }
        i += 1;
    }
    proof {
        assert forall|k: int| 0 <= k < path_views(occ@).len() implies (#[trigger] path_views(
            occ@,
        )[k]) != t@ by {
            assert(path_views(occ@)[k] == occ@[k]@);
        }
    }
    false
}

/// The candidate tried at step n of the disambiguation search.
pub open spec fn collision_candidate(target: Seq<char>, n: int) -> Seq<char> {
    if n == 0 {
        target
    } else {
        suffixed(target, n)
    }
}

/// The first candidate, from step n on with `left` further steps allowed,
/// that no occupied path holds.
pub open spec fn fresh_from(target: Seq<char>, occ: Seq<Seq<char>>, n: int, left: nat) -> Option<
    Seq<char>,
>
    decreases left,
{
    if !occupied_contains(occ, collision_candidate(target, n)) {
        Some(collision_candidate(target, n))
    } else if left == 0 {
        None
    } else {
        fresh_from(target, occ, n + 1, (left - 1) as nat)
    }
}

/// The first candidate of the whole bounded search that no occupied path
/// holds.
pub open spec fn fresh_target(target: Seq<char>, occ: Seq<Seq<char>>) -> Option<Seq<char>> {
    fresh_from(target, occ, 0, COLLISION_LIMIT as nat)
}

fn choose_from(target: &str, occupied: &Vec<String>, n: u64, left: u64) -> (r: Result<
    String,
    Error,
>)
    requires
        n + left <= u64::MAX,
    ensures
        r is Ok <==> fresh_from(target@, path_views(occupied@), n as int, left as nat) is Some,
        r matches Ok(t) ==> fresh_from(target@, path_views(occupied@), n as int, left as nat)
            == Some(t@),
        r matches Ok(t) ==> !occupied_contains(path_views(occupied@), t@),
        r matches Err(e) ==> (e matches Error::CollisionExhausted(p) && p@ == target@),
    decreases left,
{
    let cand = if n == 0 {
        target.to_owned()
    } else {
        suffixed_name(target, n)
    };
    proof {
        assert(cand@ == collision_candidate(target@, n as int));
    }
    if !contains_str(occupied, cand.as_str()) {
        Ok(cand)
    } else if left == 0 {
        Err(Error::CollisionExhausted(target.to_owned()))
    } else {
        choose_from(target, occupied, n + 1, left - 1)
    }
}

/// Choose a collision-free local path for one download target: the target
/// itself when nothing occupies it, else the first disambiguation suffix
/// that lands free; a bounded search, whose exhaustion is an error naming
/// the target.
pub fn choose_fresh_target(target: &str, occupied: &Vec<String>) -> (r: Result<String, Error>)
    ensures
        r is Ok <==> fresh_target(target@, path_views(occupied@)) is Some,
        r matches Ok(t) ==> fresh_target(target@, path_views(occupied@)) == Some(t@),
        r matches Ok(t) ==> !occupied_contains(path_views(occupied@), t@),
        !occupied_contains(path_views(occupied@), target@) ==> (r matches Ok(t) && t@ == target@),
        r matches Err(e) ==> (e matches Error::CollisionExhausted(p) && p@ == target@),
{
    let r = choose_from(target, occupied, 0, COLLISION_LIMIT);
    proof {
        if !occupied_contains(path_views(occupied@), target@) {
            assert(collision_candidate(target@, 0) == target@);
        }
    }
    r
}

/// What reserving the whole batch in order yields: each target's bounded
/// search runs against the paths occupied before the batch plus every
/// earlier reservation; the first exhausted search fails the batch, naming
/// its target.
pub open spec fn batch_reserved(targets: Seq<Seq<char>>, occ: Seq<Seq<char>>) -> Result<
    Seq<Seq<char>>,
    Seq<char>,
>
    decreases targets.len(),
{
    if targets.len() == 0 {
        Ok(Seq::<Seq<char>>::empty())
    } else {
        match fresh_target(targets.first(), occ) {
            None => Err(targets.first()),
            Some(p) => match batch_reserved(targets.drop_first(), occ.push(p)) {
                Err(t) => Err(t),
                Ok(rest) => Ok(seq![p] + rest),
            },
        }
    }
}

/// Reserve a collision-free local path for every download of one batch, in
/// order: reservation succeeds exactly when every target's bounded search
/// finds a free name against the occupied paths plus the earlier
/// reservations, and then none of the chosen paths is one that was occupied
/// before the batch, no two downloads of the batch get the same path, and a
/// target that nothing occupies and no earlier download of the batch claimed
/// keeps its own name; the first exhausted search is the error, naming its
/// target.
pub fn reserve_batch(targets: &Vec<String>, occupied: &Vec<String>) -> (r: Result<
    Vec<String>,
    Error,
>)
    ensures
        r is Ok <==> batch_reserved(path_views(targets@), path_views(occupied@)) is Ok,
        r matches Ok(out) ==> {
            &&& path_views(out@) == batch_reserved(
                path_views(targets@),
                path_views(occupied@),
            )->Ok_0
            &&& out@.len() == targets@.len()
            &&& forall|i: int|
                0 <= i < out@.len() ==> !occupied_contains(
                    path_views(occupied@),
                    (#[trigger] out@[i])@,
                )
            &&& forall|i: int, j: int|
                0 <= i < j < out@.len() ==> (#[trigger] out@[i])@ != (#[trigger] out@[j])@
            &&& forall|i: int|
                0 <= i < out@.len() && !occupied_contains(
                    path_views(occupied@),
                    (#[trigger] targets@[i])@,
                ) && (forall|k: int| 0 <= k < i ==> (#[trigger] out@[k])@ != targets@[i]@)
                    ==> out@[i]@ == targets@[i]@
        },
        r matches Err(e) ==> {
            &&& e matches Error::CollisionExhausted(p)
            &&& batch_reserved(path_views(targets@), path_views(occupied@)) matches Err(t)
            &&& e->CollisionExhausted_0@ == t
        },
{
    let ghost tv = path_views(targets@);
    let ghost ov = path_views(occupied@);
    let m = occupied.len();
    let mut occ: Vec<String> = Vec::new();
    let mut i: usize = 0;
    #[verifier::loop_isolation(false)]
    while i < m
        invariant
            i <= m == occupied@.len(),
            occ@ =~= occupied@.take(i as int),
        decreases m - i,
    {
        occ.push(occupied[i].clone());
        proof {
            assert(occ@ =~= occupied@.take(i + 1));
        }
        i += 1;
    }
    proof {
        assert(occ@ =~= occupied@);
    }
    let n = targets.len();
    let mut out: Vec<String> = Vec::new();
    let mut j: usize = 0;
    proof {
        assert(tv.skip(0) =~= tv);
        assert(path_views(out@) =~= Seq::<Seq<char>>::empty());
        assert(batch_reserved(tv, ov) == (match batch_reserved(tv.skip(0), path_views(occ@)) {
            Ok(rest) => Ok::<Seq<Seq<char>>, Seq<char>>(path_views(out@) + rest),
            Err(t) => Err::<Seq<Seq<char>>, Seq<char>>(t),
        })) by {
            match batch_reserved(tv, ov) {
                Ok(rest) => {
                    assert(path_views(out@) + rest =~= rest);
                },
                Err(_) => {},
            }
        }
    }
    #[verifier::loop_isolation(false)]
    while j < n
        invariant
            j <= n == targets@.len(),
            tv == path_views(targets@),
            ov == path_views(occupied@),
            out@.len() == j,
            occ@ == occupied@ + out@,
            batch_reserved(tv, ov) == (match batch_reserved(tv.skip(j as int), path_views(occ@)) {
                Ok(rest) => Ok::<Seq<Seq<char>>, Seq<char>>(path_views(out@) + rest),
                Err(t) => Err::<Seq<Seq<char>>, Seq<char>>(t),
            }),
            forall|k: int|
                0 <= k < j ==> !occupied_contains(ov, (#[trigger] out@[k])@),
            forall|k: int, l: int|
                0 <= k < l < j ==> (#[trigger] out@[k])@ != (#[trigger] out@[l])@,
            forall|k: int|
                0 <= k < j && !occupied_contains(ov, (#[trigger] targets@[k])@) && (forall|k2: int|
                    0 <= k2 < k ==> (#[trigger] out@[k2])@ != targets@[k]@) ==> out@[k]@
                    == targets@[k]@,
        decreases n - j,
    {
        let ghost out_old = out@;
        let ghost occ_old = occ@;
        proof {
            // one step of the batch spec, at the front of what remains
            assert(tv.skip(j as int).first() == targets@[j as int]@);
            assert(tv.skip(j as int).drop_first() =~= tv.skip(j + 1));
            assert(tv.skip(j as int).len() > 0);
        }
        let chosen = match choose_fresh_target(targets[j].as_str(), &occ) {
            Ok(c) => c,
            Err(e) => {
                proof {
                    assert(batch_reserved(tv.skip(j as int), path_views(occ_old)) == Err::<
                        Seq<Seq<char>>,
                        Seq<char>,
                    >(targets@[j as int]@));
                }
                return Err(e);
            },
        };
        proof {
            // the chosen path collides with nothing occupied before the batch
            assert forall|k: int| 0 <= k < ov.len() implies (#[trigger] ov[k]) != chosen@ by {
                assert(occ_old[k] == occupied@[k]);
                assert(path_views(occ_old)[k] == ov[k]);
            }
            // nor with any earlier reservation of this batch
            assert forall|k: int| 0 <= k < out_old.len() implies (#[trigger] out_old[k])@
                != chosen@ by {
                assert(occ_old[occupied@.len() + k] == out_old[k]);
                assert(path_views(occ_old)[occupied@.len() + k] == out_old[k]@);
            }
            // a target free of both keeps its own name
            if !occupied_contains(ov, targets@[j as int]@) && (forall|k2: int|
                0 <= k2 < j ==> (#[trigger] out_old[k2])@ != targets@[j as int]@) {
                assert forall|k: int| 0 <= k < path_views(occ_old).len() implies (
                #[trigger] path_views(occ_old)[k]) != targets@[j as int]@ by {
                    if k < occupied@.len() {
                        assert(occ_old[k] == occupied@[k]);
                        assert(path_views(occ_old)[k] == ov[k]);
                        if path_views(occ_old)[k] == targets@[j as int]@ {
                            assert(occupied_contains(ov, targets@[j as int]@));
                        }
                    } else {
                        assert(occ_old[k] == out_old[k - occupied@.len()]);
                        assert(path_views(occ_old)[k] == out_old[k - occupied@.len()]@);
                    }
                }
                assert(!occupied_contains(path_views(occ_old), targets@[j as int]@));
            }
        }
        let kept = chosen.clone();
        out.push(kept);
        occ.push(chosen);
        proof {
            assert(kept == chosen);
            assert(occ@ =~= occupied@ + out@);
            assert(path_views(occ@) =~= path_views(occ_old).push(chosen@));
            assert(path_views(out@) =~= path_views(out_old).push(chosen@));
            assert(out@.take(j as int) =~= out_old);
            // the batch spec advanced by exactly this reservation
            assert(batch_reserved(tv, ov) == (match batch_reserved(
                tv.skip(j + 1),
                path_views(occ@),
            ) {
                Ok(rest) => Ok::<Seq<Seq<char>>, Seq<char>>(path_views(out@) + rest),
                Err(t) => Err::<Seq<Seq<char>>, Seq<char>>(t),
            })) by {
                assert(batch_reserved(tv.skip(j as int), path_views(occ_old)) == (
                match batch_reserved(tv.skip(j + 1), path_views(occ_old).push(chosen@)) {
                    Err(t) => Err::<Seq<Seq<char>>, Seq<char>>(t),
                    Ok(rest) => Ok::<Seq<Seq<char>>, Seq<char>>(seq![chosen@] + rest),
                }));
                match batch_reserved(tv.skip(j + 1), path_views(occ@)) {
                    Ok(rest) => {
                        assert(path_views(out_old) + (seq![chosen@] + rest) =~= path_views(out@)
                            + rest);
                    },
                    Err(_) => {},
                }
            }
        }
        j += 1;
    }
    proof {
        assert(tv.skip(n as int).len() == 0);
        assert(batch_reserved(tv.skip(n as int), path_views(occ@)) == Ok::<
            Seq<Seq<char>>,
            Seq<char>,
        >(Seq::<Seq<char>>::empty()));
        assert(path_views(out@) + Seq::<Seq<char>>::empty() =~= path_views(out@));
    }
    Ok(out)
}

// --- merging pooled results ---

/// The concatenation, in order, of the lists behind the successful results.
pub open spec fn flatten_oks<T>(s: Seq<Result<Vec<T>, Error>>) -> Seq<T>
    decreases s.len(),
{
    if s.len() == 0 {
        Seq::<T>::empty()
    } else {
        flatten_oks(s.drop_last()) + (match s.last() {
            Ok(v) => v@,
            Err(_) => Seq::<T>::empty(),
        })
    }
}

/// The first failure among a list of results, if any.
pub open spec fn first_err<T>(s: Seq<Result<Vec<T>, Error>>) -> Option<Error>
    decreases s.len(),
{
    if s.len() == 0 {
        None
    } else {
        match s.first() {
            Err(e) => Some(e),
            Ok(_) => first_err(s.drop_first()),
        }
    }
}

proof fn lemma_first_err_at<T>(s: Seq<Result<Vec<T>, Error>>, i: int)
    requires
        0 <= i < s.len(),
        forall|k: int| 0 <= k < i ==> (#[trigger] s[k]) is Ok,
        s[i] is Err,
    ensures
        first_err(s) == Some(s[i]->Err_0),
    decreases s.len(),
{
    if i == 0 {
    } else {
        assert(s.drop_first()[i - 1] == s[i]);
        assert forall|k: int| 0 <= k < i - 1 implies (#[trigger] s.drop_first()[k]) is Ok by {
            assert(s.drop_first()[k] == s[k + 1]);
        }
        lemma_first_err_at(s.drop_first(), i - 1);
    }
}

proof fn lemma_first_err_none<T>(s: Seq<Result<Vec<T>, Error>>)
    requires
        forall|k: int| 0 <= k < s.len() ==> (#[trigger] s[k]) is Ok,
    ensures
        first_err(s) is None,
    decreases s.len(),
{
    if s.len() == 0 {
    } else {
        assert forall|k: int| 0 <= k < s.drop_first().len() implies (#[trigger] s.drop_first()[k])
            is Ok by {
            assert(s.drop_first()[k] == s[k + 1]);
        }
        lemma_first_err_none(s.drop_first());
    }
}

/// Merge the per-mapping results of a pooled run: all successes flatten, in
/// order, into one list; the first failure, if any, wins.
pub fn untangle<T>(tasks: Vec<Result<Vec<T>, Error>>) -> (r: Result<Vec<T>, Error>)
    ensures
        r is Ok <==> first_err(tasks@) is None,
        r matches Ok(v) ==> v@ == flatten_oks(tasks@),
        r matches Err(e) ==> first_err(tasks@) == Some(e),
{
    let ghost input_seq = tasks@;
    let n = tasks.len();
    let mut rest = tasks;
    let mut out: Vec<T> = Vec::new();
    let mut i: usize = 0;
    proof {
        assert(input_seq.take(0) =~= Seq::<Result<Vec<T>, Error>>::empty());
    }
    #[verifier::loop_isolation(false)]
    while i < n
        invariant
            i <= n == input_seq.len(),
            rest@ == input_seq.subrange(i as int, n as int),
            out@ == flatten_oks(input_seq.take(i as int)),
            forall|k: int| 0 <= k < i ==> (#[trigger] input_seq[k]) is Ok,
        decreases n - i,
    {
        let task = rest.remove(0);
        proof {
            assert(task == input_seq[i as int]);
            assert(input_seq.take(i + 1).drop_last() =~= input_seq.take(i as int));
            assert(input_seq.take(i + 1).last() == input_seq[i as int]);
        }
        match task {
            Ok(mut v) => {
                out.append(&mut v);
            },
            Err(e) => {
                proof {
                    lemma_first_err_at(input_seq, i as int);
                }
                return Err(e);
            },
        }
        i += 1;
    }
    proof {
        assert(input_seq.take(n as int) =~= input_seq);
        lemma_first_err_none(input_seq);
    }
    Ok(out)
}

// --- splitting records from their downloads ---

/// The downloads that a record list schedules, in order.
pub open spec fn downloads_of(s: Seq<UpdateView>) -> Seq<(Seq<char>, Seq<char>)>
    decreases s.len(),
{
    if s.len() == 0 {
        Seq::<(Seq<char>, Seq<char>)>::empty()
    } else {
        let rest = downloads_of(s.drop_last());
        match s.last().download {
            Some(d) => rest.push(d),
            None => rest,
        }
    }
}

/// A record list with every download taken out, the records themselves kept
/// for reporting.
pub open spec fn stripped_of(s: Seq<UpdateView>) -> Seq<UpdateView> {
    s.map_values(
        |u: UpdateView| UpdateView { course_id: u.course_id, remote_path: u.remote_path, download: None },
    )
}

/// Take every record's download payload out for execution, leaving the
/// records intact for reporting: one pass, no record lost, downloads in
/// record order.
pub fn split_downloads(updates: Vec<Update>) -> (r: (Vec<Update>, Vec<Download>))
    ensures
        r.0@.map_values(|u: Update| update_view(u)) == stripped_of(
            updates@.map_values(|u: Update| update_view(u)),
        ),
        r.1@.map_values(|d: Download| (d.url@, d.local_path@)) == downloads_of(
            updates@.map_values(|u: Update| update_view(u)),
        ),
{
    let ghost input_seq = updates@.map_values(|u: Update| update_view(u));
    let mut records = updates;
    let n = records.len();
    let mut downloads: Vec<Download> = Vec::new();
    let mut i: usize = 0;
    #[verifier::loop_isolation(false)]
    while i < n
        invariant
            i <= n == input_seq.len(),
            records@.len() == n,
            forall|k: int|
                i <= k < n ==> update_view(#[trigger] records@[k]) == input_seq[k],
            forall|k: int|
                0 <= k < i ==> update_view(#[trigger] records@[k]) == stripped_of(input_seq)[k],
            downloads@.map_values(|d: Download| (d.url@, d.local_path@)) == downloads_of(
                input_seq.take(i as int),
            ),
        decreases n - i,
    {
        proof {
            assert(input_seq.take(i + 1).drop_last() =~= input_seq.take(i as int));
            assert(input_seq.take(i + 1).last() == input_seq[i as int]);
        }
        let record = &mut records[i];
        let taken = record.download.take();
        match taken {
            Some(d) => {
                proof {
                    assert(input_seq[i as int].download == Some((d.url@, d.local_path@)));
                }
                downloads.push(d);
            },
            None => {},
        }
        i += 1;
    }
    proof {
        assert(input_seq.take(n as int) =~= input_seq);
        assert(records@.map_values(|u: Update| update_view(u)) =~= stripped_of(input_seq));
    }
    (records, downloads)
}

} // verus!