//! Central data structure: the configured skeletons, the loaded settings,
//! and the paths under the user's configuration directory.

use vstd::prelude::*;
use vstd::string::StringExecFns;
use crate::error::SkError;
use crate::settings::Settings;
use crate::skeleton::Skeleton;

verus! {

pub struct App {
    pub items: Vec<Skeleton>,
    pub settings: Settings,
}

/// Relies on `home::home_dir`, which consults the `HOME` environment
/// variable or the user database; the path is handed on as a `String` when
/// it is valid Unicode, and `None` otherwise.
#[verifier::external_body]
fn home_dir_string() -> (r: Option<String>) {
    match home::home_dir() {
        Some(p) => match p.into_os_string().into_string() {
            Ok(s) => Some(s),
            Err(_) => None,
        },
        None => None,
    }
}

impl App {
    pub fn new() -> (r: Self)
        ensures
            r.items@.len() == 0,
            r.settings.editor is None,
            r.settings.placeholder is None,
    {
        Self { items: Vec::new(), settings: Settings::new() }
    }

    /// The configuration directory under a given home directory.
    pub fn config_path_in(home: &str) -> (r: String)
        ensures
            r@ == home@ + "/.config/sk"@,
    {
        let mut p = String::from_str(home);
        p.append("/.config/sk");
        p
    }

    /// The configuration directory: `.config/sk` under the home directory,
    /// whichever directory the machine reports that to be.
    pub fn config_path() -> (r: Result<String, SkError>)
        ensures
            r matches Ok(p) ==> exists|h: Seq<char>| p@ == h + "/.config/sk"@,
            r matches Err(e) ==> e == SkError::NoHomeDirectory,
    {
        match home_dir_string() {
            Some(home) => Ok(Self::config_path_in(home.as_str())),
            None => Err(SkError::NoHomeDirectory),
        }
    }

    /// The preference file: `config.toml` in the configuration directory.
    pub fn config_file_path() -> (r: Result<String, SkError>)
        ensures
            r matches Ok(p) ==> exists|h: Seq<char>| p@ == h + "/.config/sk/config.toml"@,
            r matches Err(e) ==> e == SkError::NoHomeDirectory,
    {
        match Self::config_path() {
            Ok(base) => {
                let ghost b0 = base@;
                let mut p = base;
                p.append("/config.toml");
                proof {
                    let h = choose|h: Seq<char>| b0 == h + "/.config/sk"@;
                    reveal_strlit("/.config/sk");
                    reveal_strlit("/config.toml");
                    reveal_strlit("/.config/sk/config.toml");
                    assert(p@ =~= h + "/.config/sk/config.toml"@);
                }
                Ok(p)
            },
            Err(e) => Err(e),
        }
    }

    /// The directory the skeletons are stored in.
    pub fn skeletons_path() -> (r: Result<String, SkError>)
        ensures
            r matches Ok(p) ==> exists|h: Seq<char>| p@ == h + "/.config/sk/skeletons"@,
            r matches Err(e) ==> e == SkError::NoHomeDirectory,
    {
        match Self::config_path() {
            Ok(base) => {
                let ghost b0 = base@;
                let mut p = base;
                p.append("/skeletons");
                proof {
                    let h = choose|h: Seq<char>| b0 == h + "/.config/sk"@;
                    reveal_strlit("/.config/sk");
                    reveal_strlit("/skeletons");
                    reveal_strlit("/.config/sk/skeletons");
                    assert(p@ =~= h + "/.config/sk/skeletons"@);
                }
                Ok(p)
            },
            Err(e) => Err(e),
        }
    }

    /// The first configured skeleton whose id equals `id`, if any.
    pub fn skeleton_by_id(&self, id: &str) -> (r: Option<&Skeleton>)
        ensures
            match r {
                Some(sk) => exists|i: int|
                    {
                        &&& 0 <= i < self.items@.len()
                        &&& self.items@[i] == *sk
                        &&& #[trigger] self.items@[i].id@ == id@
                        &&& forall|j: int| 0 <= j < i ==> #[trigger] self.items@[j].id@ != id@
                    },
                None => forall|i: int|
                    0 <= i < self.items@.len() ==> #[trigger] self.items@[i].id@ != id@,
            },
    {
        let key = String::from_str(id);
        let mut i: usize = 0;
        while i < self.items.len()
            invariant
                i <= self.items@.len(),
                key@ == id@,
                forall|j: int| 0 <= j < i ==> #[trigger] self.items@[j].id@ != id@,
            decreases self.items@.len() - i,
        {
            if self.items[i].id == key {
                return Some(&self.items[i]);
            }
            i += 1;
        }
        None
    }
}

} // verus!
