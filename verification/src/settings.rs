//! Reader settings that are choices: reading order, letterbox colour and how
//! a page is fitted; and where the settings are kept.
use vstd::prelude::*;
use crate::dirs::{config_dir, join_text, project_dir_text};
use crate::paths::join_spec;
use crate::text::string_of;

verus! {

/// Which way panels are read within a row.
#[derive(Clone, Copy, Debug, PartialEq, Eq, Structural)]
pub enum ReadingOrder {
    Ltr,
    Rtl,
}

impl Default for ReadingOrder {
    fn default() -> (r: Self)
        ensures
            r == ReadingOrder::Ltr,
    {
        ReadingOrder::Ltr
    }
}

/// The colour around a page or panel.
#[derive(Clone, Copy, Debug, PartialEq, Eq, Structural)]
pub enum Letterbox {
    Black,
    White,
}

impl Default for Letterbox {
    fn default() -> (r: Self)
        ensures
            r == Letterbox::Black,
    {
        Letterbox::Black
    }
}

/// How the page is scaled into the viewport.
#[derive(Clone, Copy, Debug, PartialEq, Eq, Structural)]
pub enum FitMode {
    /// Page fills viewport width; pan vertically when taller.
    Width,
    /// Page fills viewport height; pan horizontally when wider.
    Height,
    /// Entire page visible (may letterbox); pan only if zoomed past contain.
    Contain,
}

impl Default for FitMode {
    fn default() -> (r: Self)
        ensures
            r == FitMode::Width,
    {
        FitMode::Width
    }
}

/// `settings.json`.
pub open spec fn settings_file() -> Seq<char> {
    seq!['s', 'e', 't', 't', 'i', 'n', 'g', 's', '.', 'j', 's', 'o', 'n']
}

/// `./settings.json`, used when the platform gives no config directory.
pub open spec fn fallback_settings() -> Seq<char> {
    seq!['.', '/', 's', 'e', 't', 't', 'i', 'n', 'g', 's', '.', 'j', 's', 'o', 'n']
}

/// Where settings are kept: `settings.json` in the config directory, else in
/// the working directory.
pub fn settings_path() -> (r: String)
    ensures
        r@ == fallback_settings() || exists|dir: Seq<char>| project_dir_text(dir) && r@ == join_spec(dir, settings_file()),
{
    let name = ['s', 'e', 't', 't', 'i', 'n', 'g', 's', '.', 'j', 's', 'o', 'n'];
    assert(name@ =~= settings_file());
    match config_dir() {
        Some(d) => {
            let r = join_text(d.as_str(), &name);
            assert(r@ == join_spec(d@, settings_file()));
            r
        },
        None => {
            let fb = ['.', '/', 's', 'e', 't', 't', 'i', 'n', 'g', 's', '.', 'j', 's', 'o', 'n'];
            assert(fb@ =~= fallback_settings());
            string_of(&fb)
        },
    }
}

} // verus!
