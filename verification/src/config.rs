use vstd::prelude::*;

use crate::error::Error;
use crate::string::{url_decodable, url_decoded};
use crate::types::{expand_tilde_or_keep, opt_ref_view, opt_str_view, spec_expand_tilde, FolderMap, FolderMapView};

verus! {

/// The ghost shape of the configuration.
pub ghost struct ConfigView {
    pub access_token: Seq<char>,
    pub base_path: Option<Seq<char>>,
    pub folder_maps: Seq<FolderMapView>,
    pub config_path: Seq<char>,
}

/// The configuration: the access token, the base directory that local paths
/// hang under, the tracked folder mappings, and where the configuration file
/// itself lies.
pub struct Config {
    access_token: String,
    base_path: Option<String>,
    folder_maps: Vec<FolderMap>,
    config_path: String,
}

impl View for Config {
    type V = ConfigView;

    closed spec fn view(&self) -> ConfigView {
        ConfigView {
            access_token: self.access_token@,
            base_path: opt_str_view(self.base_path),
            folder_maps: self.folder_maps@.map_values(|fm: FolderMap| fm@),
            config_path: self.config_path@,
        }
    }
}

impl Config {
    /// Assemble a freshly read configuration: an empty access token is
    /// refused when one is demanded; the base directory and every mapping's
    /// local path have a leading home-directory shorthand expanded, with the
    /// home directory handed in by the caller; and every mapping receives
    /// the base directory and has its url percent-decoded.
    pub fn new(
        access_token: String,
        base_path: Option<String>,
        folder_maps: Vec<FolderMap>,
        config_path: String,
        check_token: bool,
        home: Option<&str>,
    ) -> (r: Result<Config, Error>)
        ensures
            r is Ok <==> !(check_token && access_token@.len() == 0),
            r is Err ==> r matches Err(Error::EmptyToken),
            r matches Ok(c) ==> {
                let expanded_base = match opt_str_view(base_path) {
                    Some(b) => Some(spec_expand_tilde(b, opt_ref_view(home))),
                    None => None,
                };
                &&& c@.access_token == access_token@
                &&& c@.base_path == expanded_base
                &&& c@.config_path == config_path@
                &&& c@.folder_maps.len() == folder_maps@.len()
                &&& forall|i: int|
                    0 <= i < folder_maps@.len() ==> {
                        let before = (#[trigger] folder_maps@[i])@;
                        let after = c@.folder_maps[i];
                        &&& after.path == spec_expand_tilde(before.path, opt_ref_view(home))
                        &&& after.base == expanded_base
                        &&& (url_decodable(before.url) ==> after.url == url_decoded(before.url))
                        &&& (!url_decodable(before.url) ==> after.url == before.url)
                    }
            },
    {
        if check_token && access_token.unicode_len() == 0 {
            return Err(Error::EmptyToken);
        }
        let base: Option<String> = match &base_path {
            Some(b) => Some(expand_tilde_or_keep(b.as_str(), home)),
            None => None,
        };
        let ghost originals = folder_maps@.map_values(|fm: FolderMap| fm@);
        let mut maps = folder_maps;
        let n = maps.len();
        let mut i: usize = 0;
        #[verifier::loop_isolation(false)]
        while i < n
            invariant
                i <= n == maps@.len(),
                originals.len() == n,
                opt_str_view(base) == (match opt_str_view(base_path) {
                    Some(b) => Some(spec_expand_tilde(b, opt_ref_view(home))),
                    None => None,
                }),
                forall|k: int| i <= k < n ==> (#[trigger] maps@[k])@ == originals[k],
                forall|k: int|
                    0 <= k < i ==> {
                        let before = originals[k];
                        let after = (#[trigger] maps@[k])@;
                        &&& after.path == spec_expand_tilde(before.path, opt_ref_view(home))
                        &&& after.base == opt_str_view(base)
                        &&& (url_decodable(before.url) ==> after.url == url_decoded(before.url))
                        &&& (!url_decodable(before.url) ==> after.url == before.url)
                    },
            decreases n - i,
        {
            let per_map_base: Option<String> = match &base {
                Some(b) => Some(b.clone()),
                None => None,
            };
            proof {
                assert(opt_str_view(per_map_base) == opt_str_view(base));
            }
            let fm = &mut maps[i];
            fm.expand_home(home);
            fm.set(per_map_base);
            i += 1;
        }
        Ok(Config { access_token, base_path: base, folder_maps: maps, config_path })
    }

    /// Where the configuration file lies.
    pub fn path(&self) -> (r: &str)
        ensures
            r@ == self@.config_path,
    {
        self.config_path.as_str()
    }

    /// Replace the access token.
    pub fn set_token(&mut self, token: &str)
        ensures
            final(self)@.access_token == token@,
            final(self)@.base_path == old(self)@.base_path,
            final(self)@.folder_maps == old(self)@.folder_maps,
            final(self)@.config_path == old(self)@.config_path,
    {
        self.access_token = token.to_owned();
    }

    /// The tracked folder mappings.
    pub fn folder_maps(&self) -> (r: &Vec<FolderMap>)
        ensures
            r@.map_values(|fm: FolderMap| fm@) == self@.folder_maps,
    {
        &self.folder_maps
    }

    /// The access token.
    pub fn access_token(&self) -> (r: &str)
        ensures
            r@ == self@.access_token,
    {
        self.access_token.as_str()
    }

    /// The base directory that local paths hang under, when one is set.
    pub fn base_path(&self) -> (r: Option<&String>)
        ensures
            match r {
                Some(b) => self@.base_path == Some(b@),
                None => self@.base_path is None,
            },
    {
        self.base_path.as_ref()
    }
}

} // verus!
