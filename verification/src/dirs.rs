//! Where the program keeps its files: the platform's cache, data and config
//! directories for the project, with fixed fallbacks below the working
//! directory when the platform gives none.
use vstd::prelude::*;
use directories::ProjectDirs;
use crate::paths::{join, join_spec};
use crate::text::{chars_of, string_of};

verus! {

/// `manga-reel`, the application name the directories are looked up under.
pub open spec fn project_name() -> Seq<char> {
    seq!['m', 'a', 'n', 'g', 'a', '-', 'r', 'e', 'e', 'l']
}

/// `/manga-reel`: the last component of every project directory.
pub open spec fn project_suffix() -> Seq<char> {
    seq!['/'] + project_name()
}

/// A directory text of the project: it ends in the component `manga-reel`.
pub open spec fn project_dir_text(d: Seq<char>) -> bool {
    d.len() >= project_suffix().len() && d.skip(d.len() - project_suffix().len()) == project_suffix()
}

/// A lookup result: none, or a project directory.
pub open spec fn found_dir(found: Option<Seq<char>>) -> bool {
    match found {
        Some(d) => project_dir_text(d),
        None => true,
    }
}

/// The project's cache, local data and config directories as text.
pub struct ProjectDirTexts {
    pub cache: String,
    pub data_local: String,
    pub config: String,
}

/// All three directories are project directories.
pub open spec fn found_dirs(r: Option<ProjectDirTexts>) -> bool {
    match r {
        Some(t) => project_dir_text(t.cache@) && project_dir_text(t.data_local@) && project_dir_text(
            t.config@,
        ),
        None => true,
    }
}

/// `directories::ProjectDirs::from`, with the cache, local data and config
/// directories of the result taken out as text. `None` when no home
/// directory is known (found from the environment, so nothing is stated of
/// when). Claimed, as the crate's Linux source (`lin.rs`) builds them: each
/// is an XDG base directory (`$XDG_CACHE_HOME`, `$XDG_DATA_HOME`,
/// `$XDG_CONFIG_HOME`, or `.cache`, `.local/share`, `.config` under the home
/// directory) joined with the project path, which for the application
/// `manga-reel` is `manga-reel`; so each text ends in `/manga-reel`. Other
/// platforms build other paths and are not this program's.
#[verifier::external_body]
fn project_dir_texts(qualifier: &str, organization: &str, application: &str) -> (r: Option<ProjectDirTexts>)
    requires
        application@ == project_name(),
    ensures
        found_dirs(r),
{
    ProjectDirs::from(qualifier, organization, application).map(|d| ProjectDirTexts {
        cache: d.cache_dir().to_string_lossy().into_owned(),
        data_local: d.data_local_dir().to_string_lossy().into_owned(),
        config: d.config_dir().to_string_lossy().into_owned(),
    })
}

/// The project's directories, looked up under the program's own names.
fn lookup_dirs() -> (r: Option<ProjectDirTexts>)
    ensures
        found_dirs(r),
{
    project_dir_texts("app", "MangaReel", app_name())
}

fn app_name() -> (r: &'static str)
    ensures
        r@ == project_name(),
{
    proof {
        reveal_strlit("manga-reel");
    }
    "manga-reel"
}

/// The text of a string option.
pub open spec fn opt_text(o: Option<String>) -> Option<Seq<char>> {
    match o {
        Some(s) => Some(s@),
        None => None,
    }
}

/// `./.cache/manga-reel`.
pub open spec fn fallback_cache() -> Seq<char> {
    seq!['.', '/', '.', 'c', 'a', 'c', 'h', 'e', '/', 'm', 'a', 'n', 'g', 'a', '-', 'r', 'e', 'e', 'l']
}

/// `./.local/share/manga-reel`.
pub open spec fn fallback_data() -> Seq<char> {
    seq![
        '.', '/', '.', 'l', 'o', 'c', 'a', 'l', '/', 's', 'h', 'a', 'r', 'e', '/', 'm', 'a', 'n',
        'g', 'a', '-', 'r', 'e', 'e', 'l',
    ]
}

/// The directory found, or the fallback.
pub open spec fn or_fallback(found: Option<Seq<char>>, fallback: Seq<char>) -> Seq<char> {
    match found {
        Some(d) => d,
        None => fallback,
    }
}

/// The directory a lookup found, or the fallback when it found none.
pub fn dir_or_fallback(found: Option<String>, fallback: &[char]) -> (r: String)
    ensures
        r@ == or_fallback(opt_text(found), fallback@),
{
    match found {
        Some(d) => d,
        None => string_of(fallback),
    }
}

/// The cache directory: the platform's, else `./.cache/manga-reel`.
pub fn cache_dir() -> (r: String)
    ensures
        exists|found: Option<Seq<char>>| found_dir(found) && r@ == or_fallback(found, fallback_cache()),
{
    let dirs = lookup_dirs();
    let found = match dirs {
        Some(t) => Some(t.cache),
        None => None,
    };
    assert(found_dir(opt_text(found)));
    let fb = [
        '.', '/', '.', 'c', 'a', 'c', 'h', 'e', '/', 'm', 'a', 'n', 'g', 'a', '-', 'r', 'e', 'e', 'l',
    ];
    assert(fb@ =~= fallback_cache());
    let ghost f = opt_text(found);
    let r = dir_or_fallback(found, &fb);
    assert(r@ == or_fallback(f, fallback_cache()));
    r
}

/// The data directory: the platform's local data directory, else
/// `./.local/share/manga-reel`.
pub fn data_dir() -> (r: String)
    ensures
        exists|found: Option<Seq<char>>| found_dir(found) && r@ == or_fallback(found, fallback_data()),
{
    let dirs = lookup_dirs();
    let found = match dirs {
        Some(t) => Some(t.data_local),
        None => None,
    };
    assert(found_dir(opt_text(found)));
    let fb = [
        '.', '/', '.', 'l', 'o', 'c', 'a', 'l', '/', 's', 'h', 'a', 'r', 'e', '/', 'm', 'a', 'n',
        'g', 'a', '-', 'r', 'e', 'e', 'l',
    ];
    assert(fb@ =~= fallback_data());
    let ghost f = opt_text(found);
    let r = dir_or_fallback(found, &fb);
    assert(r@ == or_fallback(f, fallback_data()));
    r
}

/// The config directory, when the platform gives one: a directory ending in
/// the component `manga-reel`.
pub fn config_dir() -> (r: Option<String>)
    ensures
        found_dir(opt_text(r)),
{
    match lookup_dirs() {
        Some(t) => Some(t.config),
        None => None,
    }
}

/// `base` joined with a relative path given as characters.
pub fn join_text(base: &str, seg: &[char]) -> (r: String)
    ensures
        r@ == join_spec(base@, seg@),
{
    string_of(join(chars_of(base).as_slice(), seg).as_slice())
}

} // verus!
