//! The comic library: reading progress, library folders, titles, and the
//! bookkeeping of a library scan. Files are probed and walked by the
//! application; the decisions made on what it finds are here.
use vstd::prelude::*;
use crate::text::{end_non_ws, first_non_ws, is_ws, lemma_join_tidy, lemma_words_clean, tidy_spacing, extend_chars, lowercase_spec, to_lowercase, chars_of, collapse_whitespace, contains, contains_seq, join_spaced, string_of, trim, trim_spec, words};
use crate::natord::{digit_run, lemma_digit_run, run_end};
use crate::paths::slice_vec;
use crate::paths::{components, components_spec, comps_less_exec, file_name, file_name_spec, file_stem, file_stem_spec, parent, parent_spec, path_eq, path_eq_exec, path_less, views, chars_less, chars_less_exec, join_spec};
use crate::archive::{is_remote_or_gvfs, is_remote_spec, Probe, content_hash, content_hash_spec, eq_chars, ext_lower, lower_extension, split_lines, FileStamp};
use crate::dirs::{found_dir, cache_dir, data_dir, fallback_cache, fallback_data, join_text, or_fallback};
use crate::seqs::isort;

verus! {

/// Where a comic was left off.
#[derive(Clone, Copy, Debug, PartialEq, Eq, Structural)]
pub struct ComicProgress {
    pub page_index: usize,
    pub panel_index: usize,
    pub updated_unix: u64,
}

/// `_` read as a space.
pub open spec fn underscores_spaced(s: Seq<char>) -> Seq<char> {
    s.map_values(|c: char| if c == '_' { ' ' } else { c })
}

/// Separators that may follow an issue number.
pub open spec fn is_mark(c: char) -> bool {
    c == '-' || c == '.' || c == ' ' || c == '_'
}

/// Length of the run of separators that starts `s`.
pub open spec fn mark_run(s: Seq<char>) -> int
    decreases s.len(),
{
    if s.len() > 0 && is_mark(s[0]) { 1 + mark_run(s.drop_first()) } else { 0 }
}

proof fn lemma_mark_run(s: Seq<char>)
    ensures
        0 <= mark_run(s) <= s.len(),
    decreases s.len(),
{
    if s.len() > 0 && is_mark(s[0]) {
        lemma_mark_run(s.drop_first());
    }
}

/// A leading issue number and the separators after it removed, when a
/// non-empty title remains and more than two characters go.
pub open spec fn without_issue_number(s: Seq<char>) -> Seq<char> {
    let i = digit_run(s);
    if 0 < i < s.len() {
        let after = s.skip(i);
        let rest = after.skip(mark_run(after));
        if rest.len() > 0 && rest.len() + 2 < s.len() { rest } else { s }
    } else {
        s
    }
}

/// The display title of a file stem: trimmed, `_` as spaces, a leading issue
/// number dropped, and whitespace collapsed to single spaces.
pub open spec fn clean_title_spec(stem: Seq<char>) -> Seq<char> {
    join_spaced(words(without_issue_number(underscores_spaced(trim_spec(stem)))))
}

/// A cleaned title has no whitespace at either end, and inside it only single
/// spaces between other characters.
pub proof fn lemma_clean_title_tidy(stem: Seq<char>)
    ensures
        tidy_spacing(clean_title_spec(stem)),
{
    let t = without_issue_number(underscores_spaced(trim_spec(stem)));
    lemma_words_clean(t);
    lemma_join_tidy(words(t));
}

/// A run of exactly `k` separators starts `s`.
proof fn lemma_mark_run_at(s: Seq<char>, k: int)
    requires
        0 <= k <= s.len(),
        forall|i: int| 0 <= i < k ==> is_mark(#[trigger] s[i]),
        k == s.len() || !is_mark(s[k]),
    ensures
        mark_run(s) == k,
    decreases k,
{
    if k > 0 {
        let t = s.drop_first();
        assert forall|i: int| 0 <= i < k - 1 implies is_mark(#[trigger] t[i]) by {
            assert(t[i] == s[i + 1]);
        }
        if k < s.len() {
            assert(t[k - 1] == s[k]);
        }
        lemma_mark_run_at(t, k - 1);
    }
}

/// Text that starts with a non-whitespace character keeps its trailing
/// whitespace end wherever it stands.
proof fn lemma_end_non_ws_after(p: Seq<char>, t: Seq<char>)
    requires
        t.len() > 0,
        !is_ws(t[0]),
    ensures
        1 <= end_non_ws(t) <= t.len(),
        end_non_ws(p + t) == p.len() + end_non_ws(t),
    decreases t.len(),
{
    let a = p + t;
    assert(a.last() == t.last());
    if is_ws(t.last()) {
        assert(t.len() > 1);
        let u = t.drop_last();
        assert(u[0] == t[0]);
        assert(a.drop_last() =~= p + u);
        lemma_end_non_ws_after(p, u);
    }
}

/// A leading issue number goes, whatever run of `-`, `.`, ` ` and `_` follows
/// it: digits `d`, then a non-empty run `m` of those separators, then a title
/// `t` that starts with none of them, with no digit and with no whitespace,
/// clean to the cleaned `t` when more than two characters go.
pub proof fn lemma_issue_number_dropped(d: Seq<char>, m: Seq<char>, t: Seq<char>)
    requires
        d.len() > 0,
        forall|i: int| 0 <= i < d.len() ==> '0' <= #[trigger] d[i] <= '9',
        m.len() > 0,
        forall|i: int|
            0 <= i < m.len() ==> (#[trigger] m[i] == '-' || m[i] == '.' || m[i] == ' ' || m[i] == '_'),
        t.len() > 0,
        !(t[0] == '-' || t[0] == '.' || t[0] == ' ' || t[0] == '_'),
        !('0' <= t[0] <= '9'),
        !is_ws(t[0]),
        t.len() + 2 < (d + m + t).len(),
    ensures
        clean_title_spec(d + m + t) == clean_title_spec(t),
{
    let dm = d + m;
    let e = end_non_ws(t);
    lemma_end_non_ws_after(dm, t);
    lemma_end_non_ws_after(Seq::<char>::empty(), t);
    assert(Seq::<char>::empty() + t =~= t);
    let tt = t.subrange(0, e);
    assert(tt[0] == t[0]);
    let full = dm + t;
    assert(full[0] == d[0]);
    assert(!is_ws(d[0]));
    assert(first_non_ws(full) == 0);
    assert(first_non_ws(t) == 0);
    assert(trim_spec(full) =~= d + m + tt);
    assert(trim_spec(t) =~= tt);
    let um = underscores_spaced(m);
    let utt = underscores_spaced(tt);
    let s = underscores_spaced(d + m + tt);
    assert(s =~= d + um + utt) by {
        assert forall|i: int| 0 <= i < d.len() implies (#[trigger] d[i]) != '_' by {
            assert('0' <= d[i] <= '9');
        }
    }
    assert(utt[0] == t[0]);
    let dl: int = d.len() as int;
    let ml: int = m.len() as int;
    crate::natord::lemma_digit_run(s);
    assert(s[dl] == um[0]);
    assert(m[0] == '-' || m[0] == '.' || m[0] == ' ' || m[0] == '_');
    if digit_run(s) < dl {
        assert(s[digit_run(s)] == d[digit_run(s)]);
        assert('0' <= d[digit_run(s)] <= '9');
    }
    assert(digit_run(s) == dl);
    let after = s.skip(dl);
    assert(after =~= um + utt);
    assert forall|i: int| 0 <= i < ml implies is_mark(#[trigger] after[i]) by {
        assert(after[i] == um[i]);
        assert(m[i] == '-' || m[i] == '.' || m[i] == ' ' || m[i] == '_');
    }
    assert(after[ml] == utt[0]);
    lemma_mark_run_at(after, ml);
    assert(after.skip(ml) =~= utt);
    assert(without_issue_number(s) == utt);
    assert(without_issue_number(utt) == utt);
}

fn mark_end(s: &[char], i: usize) -> (r: usize)
    requires
        i <= s@.len(),
    ensures
        r == i + mark_run(s@.skip(i as int)),
        r <= s@.len(),
{
    let mut k = i;
    proof {
        lemma_mark_run(s@.skip(i as int));
    }
    while k < s.len() && (s[k] == '-' || s[k] == '.' || s[k] == ' ' || s[k] == '_')
        invariant
            i <= k <= s@.len(),
            k + mark_run(s@.skip(k as int)) == i + mark_run(s@.skip(i as int)),
        decreases s@.len() - k,
    {
        proof {
            assert(s@.skip(k as int).drop_first() =~= s@.skip(k + 1));
        }
        k += 1;
    }
    proof {
        if k < s@.len() {
            assert(s@.skip(k as int)[0] == s@[k as int]);
        }
    }
    k
}

/// Clean display title from a file or folder stem: leading issue numbers and
/// stray separators dropped.
pub fn clean_comic_title(stem: &str) -> (r: String)
    ensures
        r@ == clean_title_spec(stem@),
{
    let t = trim(chars_of(stem).as_slice());
    let mut s: Vec<char> = Vec::new();
    let mut k: usize = 0;
    while k < t.len()
        invariant
            k <= t@.len(),
            s@ == underscores_spaced(t@.take(k as int)),
        decreases t@.len() - k,
    {
        let c = if t[k] == '_' { ' ' } else { t[k] };
        s.push(c);
        proof {
            assert(underscores_spaced(t@.take(k + 1)) =~= underscores_spaced(t@.take(k as int)).push(c));
        }
        k += 1;
    }
    assert(t@.take(k as int) =~= t@);
    let i = run_end(s.as_slice(), 0);
    proof {
        assert(s@.skip(0) =~= s@);
        lemma_digit_run(s@);
    }
    let mut body = s;
    if i > 0 && i < body.len() {
        let j = mark_end(body.as_slice(), i);
        proof {
            let after = body@.skip(i as int);
            lemma_mark_run(after);
            assert(after.skip(mark_run(after)) =~= body@.subrange(j as int, body@.len() as int));
        }
        let n = body.len();
        if j < n && j > 2 {
            body = slice_vec(body.as_slice(), j, n);
        }
    }
    string_of(collapse_whitespace(body.as_slice()).as_slice())
}

/// Library folders, reading progress by comic path, and the last comic opened.
#[derive(Clone, Debug)]
pub struct LibraryState {
    pub folders: Vec<String>,
    /// Progress entries, at most one per key.
    pub progress: Vec<(String, ComicProgress)>,
    pub last_opened: Option<String>,
}

/// The keys of progress entries.
pub open spec fn progress_keys(p: Seq<(String, ComicProgress)>) -> Seq<Seq<char>> {
    p.map_values(|e: (String, ComicProgress)| e.0@)
}

/// The progress recorded under `key`.
pub open spec fn lookup(p: Seq<(String, ComicProgress)>, key: Seq<char>) -> Option<ComicProgress>
    decreases p.len(),
{
    if p.len() == 0 {
        None
    } else if p.last().0@ == key {
        Some(p.last().1)
    } else {
        lookup(p.drop_last(), key)
    }
}

impl LibraryState {
    /// No key has two progress entries.
    pub open spec fn wf(&self) -> bool {
        progress_keys(self.progress@).no_duplicates()
    }

    /// An empty library.
    pub fn new() -> (s: Self)
        ensures
            s.folders@.len() == 0,
            s.progress@.len() == 0,
            s.last_opened is None,
            s.wf(),
    {
        LibraryState { folders: Vec::new(), progress: Vec::new(), last_opened: None }
    }
}

impl Default for LibraryState {
    fn default() -> (s: Self)
        ensures
            s.folders@.len() == 0,
            s.progress@.len() == 0,
            s.last_opened is None,
    {
        LibraryState::new()
    }
}

/// The progress key of a comic: its path text.
pub fn key_for(path: &str) -> (k: String)
    ensures
        k@ == path@,
{
    string_of(chars_of(path).as_slice())
}

fn same_text(a: &String, b: &String) -> (r: bool)
    ensures
        r == (a@ == b@),
{
    a.eq(b)
}

fn find_key(p: &Vec<(String, ComicProgress)>, key: &String) -> (r: Option<usize>)
    ensures
        r matches Some(i) ==> i < p@.len() && p@[i as int].0@ == key@ && forall|j: int|
            i < j < p@.len() ==> p@[j].0@ != key@,
        r is None ==> forall|j: int| 0 <= j < p@.len() ==> p@[j].0@ != key@,
{
    let mut i = p.len();
    while i > 0
        invariant
            i <= p@.len(),
            forall|j: int| i <= j < p@.len() ==> p@[j].0@ != key@,
        decreases i,
    {
        if same_text(&p[i - 1].0, key) {
            return Some(i - 1);
        }
        i -= 1;
    }
    None
}

proof fn lemma_lookup_absent(p: Seq<(String, ComicProgress)>, key: Seq<char>)
    requires
        forall|j: int| 0 <= j < p.len() ==> p[j].0@ != key,
    ensures
        lookup(p, key) is None,
    decreases p.len(),
{
    if p.len() > 0 {
        lemma_lookup_absent(p.drop_last(), key);
    }
}

proof fn lemma_lookup_at(p: Seq<(String, ComicProgress)>, key: Seq<char>, i: int)
    requires
        0 <= i < p.len(),
        p[i].0@ == key,
        forall|j: int| i < j < p.len() ==> p[j].0@ != key,
    ensures
        lookup(p, key) == Some(p[i].1),
    decreases p.len(),
{
    if i < p.len() - 1 {
        lemma_lookup_at(p.drop_last(), key, i);
    }
}

proof fn lemma_lookup_update(p: Seq<(String, ComicProgress)>, i: int, e: (String, ComicProgress), key: Seq<char>)
    requires
        0 <= i < p.len(),
        p[i].0@ == e.0@,
        key != e.0@,
    ensures
        lookup(p.update(i, e), key) == lookup(p, key),
    decreases p.len(),
{
    if p.len() > 0 {
        if i < p.len() - 1 {
            assert(p.update(i, e).drop_last() =~= p.drop_last().update(i, e));
            lemma_lookup_update(p.drop_last(), i, e, key);
        } else {
            assert(p.update(i, e).drop_last() =~= p.drop_last());
        }
    }
}

/// The progress recorded for a comic.
pub fn progress_for(state: &LibraryState, path: &str) -> (r: Option<ComicProgress>)
    ensures
        r == lookup(state.progress@, path@),
{
    let key = key_for(path);
    match find_key(&state.progress, &key) {
        Some(i) => {
            proof {
                lemma_lookup_at(state.progress@, path@, i as int);
            }
            Some(state.progress[i].1)
        },
        None => {
            proof {
                lemma_lookup_absent(state.progress@, path@);
            }
            None
        },
    }
}

/// Record where a comic was left off at time `now` (Unix seconds), and make it
/// the last opened comic.
pub fn set_progress(state: &mut LibraryState, path: &str, page: usize, panel: usize, now: u64)
    requires
        old(state).wf(),
    ensures
        final(state).wf(),
        lookup(final(state).progress@, path@) == Some(
            ComicProgress { page_index: page, panel_index: panel, updated_unix: now },
        ),
        forall|k: Seq<char>| k != path@ ==> lookup(final(state).progress@, k) == lookup(
            old(state).progress@,
            k,
        ),
        final(state).folders@ == old(state).folders@,
        final(state).last_opened matches Some(p) && p@ == path@,
{
    let key = key_for(path);
    let entry = ComicProgress { page_index: page, panel_index: panel, updated_unix: now };
    let ghost p0 = state.progress@;
    match find_key(&state.progress, &key) {
        Some(i) => {
            state.progress.set(i, (key, entry));
            proof {
                let p1 = state.progress@;
                assert(progress_keys(p1) =~= progress_keys(p0));
                lemma_lookup_at(p1, path@, i as int);
                assert forall|k: Seq<char>| k != path@ implies lookup(p1, k) == lookup(p0, k) by {
                    lemma_lookup_update(p0, i as int, p1[i as int], k);
                    assert(p1 =~= p0.update(i as int, p1[i as int]));
                }
            }
        },
        None => {
            state.progress.push((key, entry));
            proof {
                let p1 = state.progress@;
                assert(p1.drop_last() =~= p0);
                assert(progress_keys(p1) =~= progress_keys(p0).push(path@));
                assert forall|a: int, b: int| 0 <= a < b < progress_keys(p1).len() implies progress_keys(p1)[a] != progress_keys(p1)[b] by {
                    if b == progress_keys(p1).len() - 1 {
                        assert(p0[a].0@ != path@);
                    } else {
                        assert(progress_keys(p0)[a] != progress_keys(p0)[b]);
                    }
                }
            }
        },
    }
    state.last_opened = Some(string_of(chars_of(path).as_slice()));
}

/// The folder paths as text.
pub open spec fn folder_names(folders: Seq<String>) -> Seq<Seq<char>> {
    folders.map_values(|f: String| f@)
}

/// Some listed folder names the same path as `p`.
pub open spec fn lists_path(names: Seq<Seq<char>>, p: Seq<char>) -> bool {
    exists|j: int| 0 <= j < names.len() && path_eq(#[trigger] names[j], p)
}

/// Add a library folder unless the same path is already listed.
pub fn add_folder(state: &mut LibraryState, folder: String)
    ensures
        final(state).folders@ == with_folder(old(state).folders@, folder),
        final(state).progress@ == old(state).progress@,
        final(state).last_opened == old(state).last_opened,
{
    let fc = chars_of(folder.as_str());
    let mut i: usize = 0;
    while i < state.folders.len()
        invariant
            i <= state.folders@.len(),
            fc@ == folder@,
            forall|j: int| 0 <= j < i ==> !path_eq(#[trigger] folder_names(state.folders@)[j], folder@),
        decreases state.folders@.len() - i,
    {
        let fi = chars_of(state.folders[i].as_str());
        if path_eq_exec(fi.as_slice(), fc.as_slice()) {
            assert(folder_names(state.folders@)[i as int] == fi@);
            return;
        }
        assert(folder_names(state.folders@)[i as int] == fi@);
        i += 1;
    }
    state.folders.push(folder);
}

/// The folder list after adding `f`: unchanged when the same path is listed,
/// else with `f` at the end.
pub open spec fn with_folder(folders: Seq<String>, f: String) -> Seq<String> {
    if lists_path(folder_names(folders), f@) { folders } else { folders.push(f) }
}

/// Adding a folder a second time changes nothing.
pub proof fn lemma_add_folder_twice(folders: Seq<String>, f: String)
    ensures
        with_folder(with_folder(folders, f), f) == with_folder(folders, f),
{
    let once = with_folder(folders, f);
    if !lists_path(folder_names(folders), f@) {
        assert(folder_names(once)[folders.len() as int] == f@);
        assert(path_eq(f@, f@));
    }
}

/// Recovered folders name pairwise different paths.
pub proof fn lemma_recovered_distinct(keys: Seq<Seq<char>>)
    ensures
        forall|i: int, j: int|
            0 <= i < j < parent_folders(keys).len() ==> !path_eq(
                #[trigger] parent_folders(keys)[i],
                #[trigger] parent_folders(keys)[j],
            ),
    decreases keys.len(),
{
    if keys.len() > 0 {
        let prev = parent_folders(keys.drop_last());
        lemma_recovered_distinct(keys.drop_last());
        let p = parent_spec(keys.last());
        if p is Some && p->0.len() > 0 && !lists_path(prev, p->0) {
            let all = prev.push(p->0);
            assert forall|i: int, j: int| 0 <= i < j < all.len() implies !path_eq(#[trigger] all[i], #[trigger] all[j]) by {
                if j < prev.len() {
                    assert(all[i] == prev[i] && all[j] == prev[j]);
                } else {
                    assert(all[j] == p->0);
                    assert(all[i] == prev[i]);
                    if path_eq(prev[i], p->0) {
                        assert(lists_path(prev, p->0));
                    }
                }
            }
        }
    }
}

/// The distinct non-empty parent folders of the given paths, in order of first
/// appearance.
pub open spec fn parent_folders(keys: Seq<Seq<char>>) -> Seq<Seq<char>>
    decreases keys.len(),
{
    if keys.len() == 0 {
        Seq::empty()
    } else {
        let prev = parent_folders(keys.drop_last());
        let p = parent_spec(keys.last());
        if p is Some && p->0.len() > 0 && !lists_path(prev, p->0) {
            prev.push(p->0)
        } else {
            prev
        }
    }
}

/// When no folder is listed but progress names comics, list their parent
/// folders again (without probing them: this works while a disk is
/// unmounted). Returns how many folders were added.
pub fn recover_folders_from_progress(state: &mut LibraryState) -> (n: usize)
    ensures
        old(state).folders@.len() > 0 || old(state).progress@.len() == 0 ==> n == 0
            && *final(state) == *old(state),
        old(state).folders@.len() == 0 && old(state).progress@.len() > 0 ==> {
            &&& folder_names(final(state).folders@) == parent_folders(progress_keys(old(state).progress@))
            &&& n == final(state).folders@.len()
        },
        final(state).progress@ == old(state).progress@,
        final(state).last_opened == old(state).last_opened,
{
    if state.folders.len() > 0 || state.progress.len() == 0 {
        return 0;
    }
    let ghost keys = progress_keys(state.progress@);
    let mut i: usize = 0;
    while i < state.progress.len()
        invariant
            i <= state.progress@.len(),
            keys == progress_keys(state.progress@),
            folder_names(state.folders@) == parent_folders(keys.take(i as int)),
            state.progress@ == old(state).progress@,
            state.last_opened == old(state).last_opened,
        decreases state.progress@.len() - i,
    {
        let key = chars_of(state.progress[i].0.as_str());
        proof {
            assert(keys.take(i + 1).drop_last() =~= keys.take(i as int));
            assert(keys.take(i + 1).last() == key@);
        }
        match parent(key.as_slice()) {
            Some(p) => {
                if p.len() > 0 {
                    let ghost before = state.folders@;
                    add_folder(state, string_of(p.as_slice()));
                    proof {
                        if !lists_path(folder_names(before), p@) {
                            assert(folder_names(state.folders@) =~= folder_names(before).push(p@));
                        }
                    }
                }
            },
            None => {},
        }
        i += 1;
    }
    assert(keys.take(i as int) =~= keys);
    state.folders.len()
}

/// Soft cap on comics for the first paint over huge remote trees.
pub const DEFAULT_SCAN_CAP: usize = 400;

/// Limits of a library scan.
#[derive(Clone, Copy, Debug, PartialEq, Eq, Structural)]
pub struct ScanOptions {
    /// Stop after this many comics (0 = unlimited).
    pub max_entries: usize,
    /// Walk depth (0 = unlimited); shallow first for remote trees.
    pub max_depth: usize,
}

impl Default for ScanOptions {
    fn default() -> (r: Self)
        ensures
            r.max_entries == DEFAULT_SCAN_CAP,
            r.max_depth == 8,
    {
        ScanOptions { max_entries: DEFAULT_SCAN_CAP, max_depth: 8 }
    }
}

/// A comic archive file: extension cbz or cbr, in any ASCII case.
pub open spec fn is_comic_path(path: Seq<char>) -> bool {
    ext_lower(path) == seq!['c', 'b', 'z'] || ext_lower(path) == seq!['c', 'b', 'r']
}

/// Whether a path names a comic archive.
pub fn is_comic_file(path: &str) -> (r: bool)
    ensures
        r == is_comic_path(path@),
{
    let ext = lower_extension(path);
    let cbz = ['c', 'b', 'z'];
    let cbr = ['c', 'b', 'r'];
    assert(cbz@ =~= seq!['c', 'b', 'z'] && cbr@ =~= seq!['c', 'b', 'r']);
    eq_chars(ext.as_slice(), &cbz) || eq_chars(ext.as_slice(), &cbr)
}

/// One entry met while walking a folder.
#[derive(Clone, Debug)]
pub struct WalkEntry {
    pub path: String,
    pub is_file: bool,
}

/// The texts of strings.
pub open spec fn texts(v: Seq<String>) -> Seq<Seq<char>> {
    v.map_values(|s: String| s@)
}

/// The comic files among walked entries, in walk order.
pub open spec fn comic_paths(entries: Seq<WalkEntry>) -> Seq<Seq<char>>
    decreases entries.len(),
{
    if entries.len() == 0 {
        Seq::empty()
    } else {
        let rest = comic_paths(entries.drop_last());
        let e = entries.last();
        if e.is_file && is_comic_path(e.path@) { rest.push(e.path@) } else { rest }
    }
}

/// The first `limit` items, or all of them when `limit` is 0.
pub open spec fn capped<A>(s: Seq<A>, limit: usize) -> Seq<A> {
    if limit > 0 && s.len() > limit { s.take(limit as int) } else { s }
}

/// Path order on texts.
pub open spec fn path_order() -> spec_fn(Seq<char>, Seq<char>) -> bool {
    |a: Seq<char>, b: Seq<char>| path_less(a, b)
}

/// The comics of one folder walk: collected in walk order up to a limit, then
/// put in path order.
pub struct FolderScan {
    pub limit: usize,
    pub found: Vec<String>,
}

impl FolderScan {
    /// The walk should stop: the limit is reached.
    pub open spec fn full(&self) -> bool {
        self.limit > 0 && self.found@.len() >= self.limit
    }

    /// A scan that keeps at most `max_entries` comics (0 = unlimited).
    pub fn new(max_entries: usize) -> (s: Self)
        ensures
            s.limit == max_entries,
            s.found@.len() == 0,
    {
        FolderScan { limit: max_entries, found: Vec::new() }
    }

    /// Take one walked entry; keeps it when it is a comic file. Returns whether
    /// the walk should go on.
    pub fn offer(&mut self, path: &str, is_file: bool) -> (more: bool)
        requires
            !old(self).full(),
        ensures
            final(self).limit == old(self).limit,
            is_file && is_comic_path(path@) ==> texts(final(self).found@) == texts(
                old(self).found@,
            ).push(path@),
            !(is_file && is_comic_path(path@)) ==> final(self).found@ == old(self).found@,
            more == !final(self).full(),
    {
        if is_file && is_comic_file(path) {
            let ghost before = self.found@;
            self.found.push(string_of(chars_of(path).as_slice()));
            assert(texts(self.found@) =~= texts(before).push(path@));
        }
        !(self.limit > 0 && self.found.len() >= self.limit)
    }

    /// The kept comics in path order.
    pub fn finish(self) -> (r: Vec<String>)
        ensures
            texts(r@) == isort(texts(self.found@), path_order()),
    {
        sort_paths(self.found)
    }
}

/// Paths in path order, each with its components.
fn sort_paths(v: Vec<String>) -> (r: Vec<String>)
    ensures
        texts(r@) == isort(texts(v@), path_order()),
{
    let mut keyed: Vec<(Vec<Vec<char>>, String)> = Vec::new();
    let mut i: usize = 0;
    let n = v.len();
    while i < n
        invariant
            n == v@.len(),
            i <= n,
            forall|k: int| 0 <= k < keyed@.len() ==> views(#[trigger] keyed@[k].0@)
                == components_spec(keyed@[k].1@),
            texts(keyed@.map_values(|p: (Vec<Vec<char>>, String)| p.1)) == isort(
                texts(v@).take(i as int),
                path_order(),
            ),
        decreases n - i,
    {
        let path = v[i].clone();
        let comps = components(chars_of(path.as_str()).as_slice());
        let ghost before = keyed@;
        let mut p: usize = keyed.len();
        while p > 0 && comps_less_exec(&comps, &keyed[p - 1].0)
            invariant
                p <= keyed@.len(),
                keyed@ == before,
                views(comps@) == components_spec(path@),
                forall|k: int| 0 <= k < keyed@.len() ==> views(#[trigger] keyed@[k].0@)
                    == components_spec(keyed@[k].1@),
                forall|k: int| p <= k < keyed@.len() ==> path_less(path@, #[trigger] keyed@[k].1@),
            decreases p,
        {
            p -= 1;
        }
        let ghost sorted = texts(keyed@.map_values(|q: (Vec<Vec<char>>, String)| q.1));
        proof {
            assert(texts(v@).take(i + 1).drop_last() =~= texts(v@).take(i as int));
            assert(texts(v@).take(i + 1).last() == path@);
            assert forall|k: int| p <= k < sorted.len() implies path_order()(path@, #[trigger] sorted[k]) by {
                assert(sorted[k] == keyed@[k].1@);
            }
            if p > 0 {
                assert(sorted[p - 1] == keyed@[p - 1].1@);
            }
            crate::seqs::lemma_insert_from_end_at(sorted, path@, path_order(), p as int);
        }
        keyed.insert(p, (comps, path));
        proof {
            assert(texts(keyed@.map_values(|q: (Vec<Vec<char>>, String)| q.1)) =~= sorted.insert(p as int, path@));
        }
        i += 1;
    }
    proof {
        assert(texts(v@).take(n as int) =~= texts(v@));
    }
    let mut r: Vec<String> = Vec::new();
    let mut j: usize = 0;
    let m = keyed.len();
    while j < m
        invariant
            m == keyed@.len(),
            j <= m,
            texts(r@) == texts(keyed@.map_values(|p: (Vec<Vec<char>>, String)| p.1)).take(j as int),
        decreases m - j,
    {
        r.push(keyed[j].1.clone());
        proof {
            let all = texts(keyed@.map_values(|p: (Vec<Vec<char>>, String)| p.1));
            assert(all.take(j + 1) =~= all.take(j as int).push(keyed@[j as int].1@));
            assert(texts(r@) =~= all.take(j + 1));
        }
        j += 1;
    }
    proof {
        let all = texts(keyed@.map_values(|p: (Vec<Vec<char>>, String)| p.1));
        assert(all.take(m as int) =~= all);
    }
    r
}

proof fn lemma_comic_paths_prefix(s: Seq<WalkEntry>, j: int)
    requires
        0 <= j <= s.len(),
    ensures
        comic_paths(s.take(j)).len() <= comic_paths(s).len(),
        comic_paths(s).take(comic_paths(s.take(j)).len() as int) == comic_paths(s.take(j)),
    decreases s.len(),
{
    if j == s.len() {
        assert(s.take(j) =~= s);
        assert(comic_paths(s).take(comic_paths(s).len() as int) =~= comic_paths(s));
    } else {
        let t = s.drop_last();
        assert(t.take(j) =~= s.take(j));
        lemma_comic_paths_prefix(t, j);
        let a = comic_paths(s.take(j));
        assert(comic_paths(s).take(a.len() as int) =~= comic_paths(t).take(a.len() as int));
    }
}

/// The comic files of a walked folder, in path order: the first
/// `opts.max_entries` comics met (all when 0).
pub fn scan_folder_opts(entries: &[WalkEntry], opts: ScanOptions) -> (r: Vec<String>)
    ensures
        texts(r@) == isort(capped(comic_paths(entries@), opts.max_entries), path_order()),
{
    let mut scan = FolderScan::new(opts.max_entries);
    let mut i: usize = 0;
    loop
        invariant_except_break
            texts(scan.found@) == comic_paths(entries@.take(i as int)),
            !scan.full(),
        invariant
            i <= entries@.len(),
            scan.limit == opts.max_entries,
        ensures
            texts(scan.found@) == capped(comic_paths(entries@), opts.max_entries),
        decreases entries@.len() - i,
    {
        if i >= entries.len() {
            proof {
                assert(entries@.take(i as int) =~= entries@);
            }
            break;
        }
        proof {
            assert(entries@.take(i + 1).drop_last() =~= entries@.take(i as int));
        }
        let more = scan.offer(entries[i].path.as_str(), entries[i].is_file);
        i += 1;
        if !more {
            proof {
                lemma_comic_paths_prefix(entries@, i as int);
            }
            break;
        }
    }
    scan.finish()
}

/// Every comic file of a walked folder, in path order.
pub fn scan_folder(entries: &[WalkEntry]) -> (r: Vec<String>)
    ensures
        texts(r@) == isort(comic_paths(entries@), path_order()),
{
    scan_folder_opts(entries, ScanOptions { max_entries: 0, max_depth: 0 })
}

/// A comic in the library grid.
#[derive(Clone, Debug)]
pub struct ComicEntry {
    pub path: String,
    pub title: String,
    pub progress: Option<ComicProgress>,
}

/// What a library entry says, as plain values.
pub struct EntryView {
    pub path: Seq<char>,
    pub title: Seq<char>,
    pub progress: Option<ComicProgress>,
}

impl View for ComicEntry {
    type V = EntryView;

    open spec fn view(&self) -> EntryView {
        EntryView { path: self.path@, title: self.title@, progress: self.progress }
    }
}

/// The views of entries.
pub open spec fn entry_views(v: Seq<ComicEntry>) -> Seq<EntryView> {
    v.map_values(|e: ComicEntry| e@)
}

/// Display title of a comic file: its cleaned file stem, else the path itself.
pub open spec fn entry_title_spec(path: Seq<char>) -> Seq<char> {
    match file_stem_spec(path) {
        Some(st) => clean_title_spec(st),
        None => path,
    }
}

/// The title shown for a comic file.
pub fn entry_title(path: &str) -> (r: String)
    ensures
        r@ == entry_title_spec(path@),
{
    let cs = chars_of(path);
    match file_stem(cs.as_slice()) {
        Some(st) => {
            let st_text = string_of(st.as_slice());
            clean_comic_title(st_text.as_str())
        },
        None => string_of(cs.as_slice()),
    }
}

/// The library entry of a comic file.
pub open spec fn entry_for(progress: Seq<(String, ComicProgress)>, path: Seq<char>) -> EntryView {
    EntryView { path: path, title: entry_title_spec(path), progress: lookup(progress, path) }
}

/// Where a library scan stands.
pub struct ScanState {
    pub entries: Seq<EntryView>,
    pub seen: Seq<Seq<char>>,
    pub truncated: bool,
    pub stopped: bool,
}

/// A scan that found nothing yet.
pub open spec fn scan_start() -> ScanState {
    ScanState { entries: Seq::empty(), seen: Seq::empty(), truncated: false, stopped: false }
}

/// The comic budget left for the next folder (0 = unlimited), or `None` when
/// the cap is already reached.
pub open spec fn budget_spec(st: ScanState, max: usize) -> Option<usize> {
    if max == 0 {
        Some(0)
    } else if st.entries.len() >= max {
        None
    } else {
        Some((max - st.entries.len()) as usize)
    }
}

/// Add one folder's comics, in order: paths already seen are skipped, and the
/// scan stops at the cap.
pub open spec fn take_paths(
    progress: Seq<(String, ComicProgress)>,
    st: ScanState,
    max: usize,
    paths: Seq<Seq<char>>,
) -> ScanState
    decreases paths.len(),
{
    if paths.len() == 0 {
        st
    } else if st.seen.contains(paths[0]) {
        take_paths(progress, st, max, paths.drop_first())
    } else {
        let next = ScanState {
            entries: st.entries.push(entry_for(progress, paths[0])),
            seen: st.seen.push(paths[0]),
            ..st
        };
        if max > 0 && next.entries.len() >= max {
            ScanState { truncated: true, ..next }
        } else {
            take_paths(progress, next, max, paths.drop_first())
        }
    }
}

/// A folder walked with budget `remaining` gave `paths`.
pub open spec fn paths_step(
    progress: Seq<(String, ComicProgress)>,
    st: ScanState,
    max: usize,
    remaining: usize,
    paths: Seq<Seq<char>>,
) -> ScanState {
    let filled = max > 0 && paths.len() >= remaining && remaining > 0;
    let t = take_paths(progress, ScanState { truncated: st.truncated || filled, ..st }, max, paths);
    ScanState { stopped: t.truncated && max > 0 && t.entries.len() >= max, ..t }
}

/// One folder of the library: skipped when unreachable; otherwise its comics,
/// walked within the budget left.
pub open spec fn folder_step(
    progress: Seq<(String, ComicProgress)>,
    st: ScanState,
    max: usize,
    walk: FolderWalk,
) -> ScanState {
    if !walk.reachable {
        st
    } else {
        match budget_spec(st, max) {
            None => ScanState { truncated: true, stopped: true, ..st },
            Some(remaining) => paths_step(
                progress,
                st,
                max,
                remaining,
                isort(capped(comic_paths(walk.entries@), remaining), path_order()),
            ),
        }
    }
}

/// The scan over the library folders, in order, until it stops.
pub open spec fn scan_fold(
    progress: Seq<(String, ComicProgress)>,
    max: usize,
    walks: Seq<FolderWalk>,
) -> ScanState
    decreases walks.len(),
{
    if walks.len() == 0 {
        scan_start()
    } else {
        let st = scan_fold(progress, max, walks.drop_last());
        if st.stopped { st } else { folder_step(progress, st, max, walks.last()) }
    }
}

/// The paths of entries.
pub open spec fn entry_paths(es: Seq<EntryView>) -> Seq<Seq<char>> {
    es.map_values(|e: EntryView| e.path)
}

/// The seen paths are those of the entries, none twice, and there are no more
/// entries than the cap (when there is one).
pub open spec fn scan_sound(st: ScanState, max: usize) -> bool {
    &&& st.seen == entry_paths(st.entries)
    &&& st.seen.no_duplicates()
    &&& (max > 0 ==> st.entries.len() <= max)
}

proof fn lemma_take_paths_sound(
    progress: Seq<(String, ComicProgress)>,
    st: ScanState,
    max: usize,
    paths: Seq<Seq<char>>,
)
    requires
        scan_sound(st, max),
        max > 0 ==> st.entries.len() < max,
    ensures
        scan_sound(take_paths(progress, st, max, paths), max),
    decreases paths.len(),
{
    if paths.len() > 0 {
        if st.seen.contains(paths[0]) {
            lemma_take_paths_sound(progress, st, max, paths.drop_first());
        } else {
            let next = ScanState {
                entries: st.entries.push(entry_for(progress, paths[0])),
                seen: st.seen.push(paths[0]),
                ..st
            };
            assert(entry_paths(next.entries) =~= entry_paths(st.entries).push(paths[0]));
            assert forall|a: int, b: int| 0 <= a < b < next.seen.len() implies next.seen[a] != next.seen[b] by {
                if b == next.seen.len() - 1 {
                    assert(st.seen[a] != paths[0]);
                } else {
                    assert(st.seen[a] != st.seen[b]);
                }
            }
            if !(max > 0 && next.entries.len() >= max) {
                lemma_take_paths_sound(progress, next, max, paths.drop_first());
            }
        }
    }
}

proof fn lemma_scan_fold_sound(progress: Seq<(String, ComicProgress)>, max: usize, walks: Seq<FolderWalk>)
    ensures
        scan_sound(scan_fold(progress, max, walks), max),
    decreases walks.len(),
{
    if walks.len() == 0 {
        assert(scan_start().seen =~= entry_paths(scan_start().entries));
    } else {
        lemma_scan_fold_sound(progress, max, walks.drop_last());
        let st = scan_fold(progress, max, walks.drop_last());
        if !st.stopped && walks.last().reachable {
            match budget_spec(st, max) {
                None => {},
                Some(remaining) => {
                    let paths = isort(capped(comic_paths(walks.last().entries@), remaining), path_order());
                    let filled = max > 0 && paths.len() >= remaining && remaining > 0;
                    let st1 = ScanState { truncated: st.truncated || filled, ..st };
                    lemma_take_paths_sound(progress, st1, max, paths);
                },
            }
        }
    }
}

/// A library scan lists each comic path at most once and no more comics than
/// the cap (when there is one); sorting by title only reorders the entries.
pub proof fn lemma_scan_lists_each_path_once(
    progress: Seq<(String, ComicProgress)>,
    max: usize,
    walks: Seq<FolderWalk>,
)
    ensures
        entry_paths(scan_fold(progress, max, walks).entries).no_duplicates(),
        max > 0 ==> scan_fold(progress, max, walks).entries.len() <= max,
        isort(scan_fold(progress, max, walks).entries, title_order()).to_multiset()
            == scan_fold(progress, max, walks).entries.to_multiset(),
{
    lemma_scan_fold_sound(progress, max, walks);
    crate::seqs::lemma_isort_multiset(scan_fold(progress, max, walks).entries, title_order());
}

/// Library order of entries: by lower-cased title.
pub open spec fn title_order() -> spec_fn(EntryView, EntryView) -> bool {
    |a: EntryView, b: EntryView| chars_less(lowercase_spec(a.title), lowercase_spec(b.title))
}

/// Entries listed by lower-cased title: no entry's lower-cased title comes
/// before that of the entry just above it.
pub open spec fn sorted_by_lower_title(es: Seq<EntryView>) -> bool {
    forall|k: int|
        0 <= k < es.len() - 1 ==> !chars_less(
            lowercase_spec((#[trigger] es[k + 1]).title),
            lowercase_spec(es[k].title),
        )
}

/// Putting entries into library order lists them by lower-cased title,
/// whatever the case of the letters in the titles.
pub proof fn lemma_library_order_by_lower_title(es: Seq<EntryView>)
    ensures
        sorted_by_lower_title(isort(es, title_order())),
{
    assert(crate::seqs::asymmetric(title_order())) by {
        assert forall|a: EntryView, b: EntryView| #[trigger] title_order()(a, b) implies !title_order()(b, a) by {
            crate::paths::lemma_chars_less_asymmetric(lowercase_spec(a.title), lowercase_spec(b.title));
        }
    }
    crate::seqs::lemma_isort_ordered(es, title_order());
    let s = isort(es, title_order());
    assert forall|k: int| 0 <= k < s.len() - 1 implies !chars_less(
        lowercase_spec((#[trigger] s[k + 1]).title),
        lowercase_spec(s[k].title),
    ) by {
        assert(!title_order()(s[k + 1], s[k]));
    }
}

/// One library folder as the walker saw it: whether it could be reached, and
/// what it holds in walk order.
#[derive(Clone, Debug)]
pub struct FolderWalk {
    pub reachable: bool,
    pub entries: Vec<WalkEntry>,
}

/// A library scan in progress. The walker asks for the budget of each
/// reachable folder, walks it within that budget, and hands the comics back.
pub struct ScanAll {
    pub max_entries: usize,
    pub max_depth: usize,
    pub entries: Vec<ComicEntry>,
    pub seen: Vec<String>,
    pub truncated: bool,
    pub stopped: bool,
}

impl View for ScanAll {
    type V = ScanState;

    open spec fn view(&self) -> ScanState {
        ScanState {
            entries: entry_views(self.entries@),
            seen: texts(self.seen@),
            truncated: self.truncated,
            stopped: self.stopped,
        }
    }
}

fn seen_contains(seen: &Vec<String>, key: &String) -> (r: bool)
    ensures
        r == texts(seen@).contains(key@),
{
    let mut i: usize = 0;
    while i < seen.len()
        invariant
            i <= seen@.len(),
            forall|j: int| 0 <= j < i ==> seen@[j]@ != key@,
        decreases seen@.len() - i,
    {
        if same_text(&seen[i], key) {
            assert(texts(seen@)[i as int] == key@);
            return true;
        }
        i += 1;
    }
    proof {
        let t = texts(seen@);
        assert forall|j: int| 0 <= j < t.len() implies #[trigger] t[j] != key@ by {}
    }
    false
}

impl ScanAll {
    /// A scan with these limits that found nothing yet.
    pub fn new(opts: ScanOptions) -> (s: Self)
        ensures
            s@ == scan_start(),
            s.max_entries == opts.max_entries,
            s.max_depth == opts.max_depth,
    {
        let s = ScanAll {
            max_entries: opts.max_entries,
            max_depth: opts.max_depth,
            entries: Vec::new(),
            seen: Vec::new(),
            truncated: false,
            stopped: false,
        };
        assert(s@.entries =~= Seq::<EntryView>::empty());
        assert(s@.seen =~= Seq::<Seq<char>>::empty());
        s
    }

    /// The walk limits for the next reachable folder, or `None` (and the scan
    /// stops, truncated) when the cap is already reached.
    pub fn begin_folder(&mut self) -> (r: Option<ScanOptions>)
        ensures
            final(self).max_entries == old(self).max_entries,
            final(self).max_depth == old(self).max_depth,
            budget_spec(old(self)@, old(self).max_entries) matches Some(b) ==> r == Some(
                ScanOptions { max_entries: b, max_depth: old(self).max_depth },
            ) && final(self)@ == old(self)@,
            budget_spec(old(self)@, old(self).max_entries) is None ==> r is None && final(self)@
                == (ScanState { truncated: true, stopped: true, ..old(self)@ }),
    {
        if self.max_entries == 0 {
            return Some(ScanOptions { max_entries: 0, max_depth: self.max_depth });
        }
        if self.entries.len() >= self.max_entries {
            self.truncated = true;
            self.stopped = true;
            return None;
        }
        Some(ScanOptions { max_entries: self.max_entries - self.entries.len(), max_depth: self.max_depth })
    }

    /// Hand back the comics of a folder walked with budget `remaining`, in path
    /// order.
    pub fn add_paths(&mut self, state: &LibraryState, remaining: usize, paths: &[String])
        ensures
            final(self).max_entries == old(self).max_entries,
            final(self).max_depth == old(self).max_depth,
            final(self)@ == paths_step(
                state.progress@,
                old(self)@,
                old(self).max_entries,
                remaining,
                texts(paths@),
            ),
    {
        let max = self.max_entries;
        if max > 0 && paths.len() >= remaining && remaining > 0 {
            self.truncated = true;
        }
        let ghost ps = texts(paths@);
        let mut i: usize = 0;
        assert(ps.skip(0) =~= ps);
        loop
            invariant_except_break
                take_paths(state.progress@, self@, max, ps.skip(i as int)) == take_paths(
                    state.progress@,
                    ScanState {
                        truncated: old(self).truncated || (max > 0 && paths@.len() >= remaining
                            && remaining > 0),
                        ..old(self)@
                    },
                    max,
                    ps,
                ),
            invariant
                i <= paths@.len(),
                ps == texts(paths@),
                max == self.max_entries,
                self.max_entries == old(self).max_entries,
                self.max_depth == old(self).max_depth,
                self.stopped == old(self).stopped,
            ensures
                self@ == take_paths(
                    state.progress@,
                    ScanState {
                        truncated: old(self).truncated || (max > 0 && paths@.len() >= remaining
                            && remaining > 0),
                        ..old(self)@
                    },
                    max,
                    ps,
                ),
                self.max_entries == old(self).max_entries,
                self.max_depth == old(self).max_depth,
                self.stopped == old(self).stopped,
            decreases paths@.len() - i,
        {
            if i >= paths.len() {
                proof {
                    assert(ps.skip(i as int) =~= Seq::<Seq<char>>::empty());
                }
                break;
            }
            let ghost rest = ps.skip(i as int);
            proof {
                assert(rest[0] == paths@[i as int]@);
                assert(rest.drop_first() =~= ps.skip(i + 1));
            }
            let key = key_for(paths[i].as_str());
            if seen_contains(&self.seen, &key) {
                i += 1;
            } else {
                let title = entry_title(paths[i].as_str());
                let progress = progress_for(state, paths[i].as_str());
                let ghost before = self@;
                self.seen.push(key);
                self.entries.push(ComicEntry { path: string_of(chars_of(paths[i].as_str()).as_slice()), title, progress });
                proof {
                    assert(self@.entries =~= before.entries.push(entry_for(state.progress@, rest[0])));
                    assert(self@.seen =~= before.seen.push(rest[0]));
                }
                i += 1;
                if max > 0 && self.entries.len() >= max {
                    self.truncated = true;
                    break;
                }
            }
        }
        proof {
            assert(paths@.len() == ps.len());
        }
        self.stopped = self.truncated && max > 0 && self.entries.len() >= max;
    }

    /// The entries found, sorted by lower-cased title, and whether the cap cut
    /// the scan short.
    pub fn finish(self) -> (r: (Vec<ComicEntry>, bool))
        ensures
            entry_views(r.0@) == isort(self@.entries, title_order()),
            sorted_by_lower_title(entry_views(r.0@)),
            r.1 == self.truncated,
    {
        let t = self.truncated;
        (sort_by_title(self.entries), t)
    }
}

fn copy_entry(e: &ComicEntry) -> (r: ComicEntry)
    ensures
        r@ == e@,
{
    ComicEntry { path: e.path.clone(), title: e.title.clone(), progress: e.progress }
}

/// Entries in library order, each with its lower-cased title.
fn sort_by_title(v: Vec<ComicEntry>) -> (r: Vec<ComicEntry>)
    ensures
        entry_views(r@) == isort(entry_views(v@), title_order()),
        sorted_by_lower_title(entry_views(r@)),
{
    proof {
        lemma_library_order_by_lower_title(entry_views(v@));
    }
    let mut keyed: Vec<(Vec<char>, ComicEntry)> = Vec::new();
    let mut i: usize = 0;
    let n = v.len();
    while i < n
        invariant
            n == v@.len(),
            i <= n,
            forall|k: int| 0 <= k < keyed@.len() ==> (#[trigger] keyed@[k]).0@ == lowercase_spec(
                keyed@[k].1.title@,
            ),
            entry_views(keyed@.map_values(|p: (Vec<char>, ComicEntry)| p.1)) == isort(
                entry_views(v@).take(i as int),
                title_order(),
            ),
        decreases n - i,
    {
        let e = copy_entry(&v[i]);
        let low = to_lowercase(e.title.as_str());
        let key = chars_of(low.as_str());
        let ghost before = keyed@;
        let mut p: usize = keyed.len();
        while p > 0 && chars_less_exec(key.as_slice(), keyed[p - 1].0.as_slice())
            invariant
                p <= keyed@.len(),
                keyed@ == before,
                key@ == lowercase_spec(e.title@),
                forall|k: int| 0 <= k < keyed@.len() ==> (#[trigger] keyed@[k]).0@
                    == lowercase_spec(keyed@[k].1.title@),
                forall|k: int| p <= k < keyed@.len() ==> title_order()(e@, (#[trigger] keyed@[k]).1@),
            decreases p,
        {
            p -= 1;
        }
        let ghost sorted = entry_views(keyed@.map_values(|q: (Vec<char>, ComicEntry)| q.1));
        proof {
            assert(entry_views(v@).take(i + 1).drop_last() =~= entry_views(v@).take(i as int));
            assert(entry_views(v@).take(i + 1).last() == e@);
            assert forall|k: int| p <= k < sorted.len() implies title_order()(e@, #[trigger] sorted[k]) by {
                assert(sorted[k] == keyed@[k].1@);
            }
            if p > 0 {
                assert(sorted[p - 1] == keyed@[p - 1].1@);
            }
            crate::seqs::lemma_insert_from_end_at(sorted, e@, title_order(), p as int);
        }
        keyed.insert(p, (key, e));
        proof {
            assert(entry_views(keyed@.map_values(|q: (Vec<char>, ComicEntry)| q.1)) =~= sorted.insert(p as int, e@));
        }
        i += 1;
    }
    proof {
        assert(entry_views(v@).take(n as int) =~= entry_views(v@));
    }
    let mut r: Vec<ComicEntry> = Vec::new();
    let mut j: usize = 0;
    let m = keyed.len();
    while j < m
        invariant
            m == keyed@.len(),
            j <= m,
            entry_views(r@) == entry_views(keyed@.map_values(|p: (Vec<char>, ComicEntry)| p.1)).take(j as int),
        decreases m - j,
    {
        r.push(copy_entry(&keyed[j].1));
        proof {
            let all = entry_views(keyed@.map_values(|p: (Vec<char>, ComicEntry)| p.1));
            assert(all.take(j + 1) =~= all.take(j as int).push(keyed@[j as int].1@));
            assert(entry_views(r@) =~= all.take(j + 1));
        }
        j += 1;
    }
    proof {
        let all = entry_views(keyed@.map_values(|p: (Vec<char>, ComicEntry)| p.1));
        assert(all.take(m as int) =~= all);
    }
    r
}

/// Folders split by whether they could be reached: `reachable[i]` tells for
/// `folders[i]`.
pub open spec fn split_by(folders: Seq<String>, reachable: Seq<bool>, want: bool) -> Seq<String>
    decreases folders.len(),
{
    if folders.len() == 0 {
        Seq::empty()
    } else {
        let rest = split_by(folders.drop_last(), reachable, want);
        if reachable[folders.len() - 1] == want { rest.push(folders.last()) } else { rest }
    }
}

/// Split library folders into (online, offline) by the probe results.
pub fn partition_folders(state: &LibraryState, reachable: &[bool]) -> (r: (Vec<String>, Vec<String>))
    requires
        reachable@.len() == state.folders@.len(),
    ensures
        r.0@ == split_by(state.folders@, reachable@, true),
        r.1@ == split_by(state.folders@, reachable@, false),
{
    let mut online: Vec<String> = Vec::new();
    let mut offline: Vec<String> = Vec::new();
    let mut i: usize = 0;
    while i < state.folders.len()
        invariant
            i <= state.folders@.len(),
            reachable@.len() == state.folders@.len(),
            online@ == split_by(state.folders@.take(i as int), reachable@, true),
            offline@ == split_by(state.folders@.take(i as int), reachable@, false),
        decreases state.folders@.len() - i,
    {
        proof {
            assert(state.folders@.take(i + 1).drop_last() =~= state.folders@.take(i as int));
        }
        if reachable[i] {
            online.push(state.folders[i].clone());
        } else {
            offline.push(state.folders[i].clone());
        }
        i += 1;
    }
    assert(state.folders@.take(i as int) =~= state.folders@);
    (online, offline)
}

/// How long to wait for a look at a remote library folder, in seconds.
pub const REMOTE_FOLDER_PROBE_SECS: u64 = 3;

/// How to check that a library folder is reachable: never for an empty
/// path, directly when local, else with a time limit of
/// `REMOTE_FOLDER_PROBE_SECS`.
pub fn folder_probe(path: &str) -> (r: Probe)
    ensures
        r == (if path@.len() == 0 {
            Probe::Skip
        } else if is_remote_spec(path@) {
            Probe::Timed(REMOTE_FOLDER_PROBE_SECS)
        } else {
            Probe::Direct
        }),
{
    let cs = chars_of(path);
    if cs.len() == 0 {
        Probe::Skip
    } else if is_remote_or_gvfs(path) {
        Probe::Timed(REMOTE_FOLDER_PROBE_SECS)
    } else {
        Probe::Direct
    }
}

/// Splitting by flags puts each folder on one side.
pub proof fn lemma_split_by_len(folders: Seq<String>, flags: Seq<bool>)
    ensures
        split_by(folders, flags, true).len() + split_by(folders, flags, false).len() == folders.len(),
    decreases folders.len(),
{
    if folders.len() > 0 {
        lemma_split_by_len(folders.drop_last(), flags);
    }
}

pub open spec fn my_passport() -> Seq<char> {
    seq!['M', 'y', ' ', 'P', 'a', 's', 's', 'p', 'o', 'r', 't']
}

pub open spec fn my_passport_url() -> Seq<char> {
    seq!['M', 'y', '%', '2', '0', 'P', 'a', 's', 's', 'p', 'o', 'r', 't']
}

/// Short name of a folder: "My Passport" for that disk, else its last
/// component, else the whole path.
pub open spec fn folder_label_spec(path: Seq<char>) -> Seq<char> {
    if contains_seq(path, my_passport()) || contains_seq(path, my_passport_url()) {
        my_passport()
    } else {
        match file_name_spec(path) {
            Some(n) => n,
            None => path,
        }
    }
}

/// Short name for status messages (e.g. "My Passport").
pub fn folder_label(path: &str) -> (r: String)
    ensures
        r@ == folder_label_spec(path@),
{
    let cs = chars_of(path);
    let mp = ['M', 'y', ' ', 'P', 'a', 's', 's', 'p', 'o', 'r', 't'];
    let mpu = ['M', 'y', '%', '2', '0', 'P', 'a', 's', 's', 'p', 'o', 'r', 't'];
    assert(mp@ =~= my_passport());
    assert(mpu@ =~= my_passport_url());
    if contains(cs.as_slice(), &mp) || contains(cs.as_slice(), &mpu) {
        return string_of(&mp);
    }
    match file_name(cs.as_slice()) {
        Some(n) => string_of(n.as_slice()),
        None => string_of(cs.as_slice()),
    }
}

proof fn lemma_scan_fold_stopped(
    progress: Seq<(String, ComicProgress)>,
    max: usize,
    walks: Seq<FolderWalk>,
    i: int,
)
    requires
        0 <= i <= walks.len(),
        scan_fold(progress, max, walks.take(i)).stopped,
    ensures
        scan_fold(progress, max, walks) == scan_fold(progress, max, walks.take(i)),
    decreases walks.len(),
{
    if i == walks.len() {
        assert(walks.take(i) =~= walks);
    } else {
        let t = walks.drop_last();
        assert(t.take(i) =~= walks.take(i));
        lemma_scan_fold_stopped(progress, max, t, i);
    }
}

/// The comics of every reachable library folder: each folder walked within the
/// budget the cap leaves, paths already met skipped, in library order; and
/// whether the cap cut the scan short. `walks[i]` is the walk of the i-th
/// library folder.
pub fn scan_all_opts(state: &LibraryState, opts: ScanOptions, walks: &[FolderWalk]) -> (r: (
    Vec<ComicEntry>,
    bool,
))
    ensures
        entry_views(r.0@) == isort(
            scan_fold(state.progress@, opts.max_entries, walks@).entries,
            title_order(),
        ),
        sorted_by_lower_title(entry_views(r.0@)),
        r.1 == scan_fold(state.progress@, opts.max_entries, walks@).truncated,
{
    let mut scan = ScanAll::new(opts);
    let mut i: usize = 0;
    loop
        invariant
            i <= walks@.len(),
            scan.max_entries == opts.max_entries,
            scan.max_depth == opts.max_depth,
            scan@ == scan_fold(state.progress@, opts.max_entries, walks@.take(i as int)),
        ensures
            scan@ == scan_fold(state.progress@, opts.max_entries, walks@),
        decreases walks@.len() - i,
    {
        if i >= walks.len() {
            proof {
                assert(walks@.take(i as int) =~= walks@);
            }
            break;
        }
        if scan.stopped {
            proof {
                lemma_scan_fold_stopped(state.progress@, opts.max_entries, walks@, i as int);
            }
            break;
        }
        proof {
            assert(walks@.take(i + 1).drop_last() =~= walks@.take(i as int));
            assert(walks@.take(i + 1).last() == walks@[i as int]);
        }
        let walk = &walks[i];
        if walk.reachable {
            match scan.begin_folder() {
                None => {},
                Some(folder_opts) => {
                    let paths = scan_folder_opts(walk.entries.as_slice(), folder_opts);
                    scan.add_paths(state, folder_opts.max_entries, paths.as_slice());
                },
            }
        }
        i += 1;
    }
    scan.finish()
}

/// `scan_all_opts` with the default limits.
pub fn scan_all(state: &LibraryState, walks: &[FolderWalk]) -> (r: Vec<ComicEntry>)
    ensures
        entry_views(r@) == isort(
            scan_fold(state.progress@, DEFAULT_SCAN_CAP, walks@).entries,
            title_order(),
        ),
        sorted_by_lower_title(entry_views(r@)),
{
    scan_all_opts(state, ScanOptions::default(), walks).0
}

/// Whether gvfsd-fuse provides the GVFS mount directory.
#[derive(Clone, Copy, Debug, PartialEq, Eq, Structural)]
pub enum GvfsFuseStatus {
    Available,
    Missing,
}

pub open spec fn fuse_word() -> Seq<char> {
    seq!['f', 'u', 's', 'e']
}

/// Some line of a mount table names `needle` and a fuse file system.
pub open spec fn fuse_mount_listed(mounts: Seq<char>, needle: Seq<char>) -> bool {
    exists|k: int|
        0 <= k < split_lines(mounts).len() && contains_seq(#[trigger] split_lines(mounts)[k], needle)
            && contains_seq(split_lines(mounts)[k], fuse_word())
}

fn line_has_fuse(line: &[char], needle: &[char]) -> (r: bool)
    ensures
        r == (contains_seq(line@, needle@) && contains_seq(line@, fuse_word())),
{
    let fw = ['f', 'u', 's', 'e'];
    assert(fw@ =~= fuse_word());
    contains(line, needle) && contains(line, &fw)
}

/// Whether a mount table (the text of `/proc/mounts`) lists `needle` as a fuse
/// mount.
pub fn mounts_list_fuse(mounts: &str, needle: &str) -> (r: bool)
    ensures
        r == fuse_mount_listed(mounts@, needle@),
{
    let cs = chars_of(mounts);
    let nd = chars_of(needle);
    let mut cur: Vec<char> = Vec::new();
    let mut found = false;
    let mut i: usize = 0;
    proof {
        assert(cs@.take(0) =~= Seq::<char>::empty());
        assert(split_lines(Seq::<char>::empty()) =~= seq![Seq::<char>::empty()]) by {
            crate::paths::lemma_rfind(Seq::<char>::empty(), '\n');
        }
    }
    while i < cs.len()
        invariant
            i <= cs@.len(),
            cs@ == mounts@,
            nd@ == needle@,
            split_lines(cs@.take(i as int)).len() >= 1,
            cur@ == split_lines(cs@.take(i as int)).last(),
            found == exists|k: int|
                0 <= k < split_lines(cs@.take(i as int)).len() - 1 && contains_seq(
                    #[trigger] split_lines(cs@.take(i as int))[k],
                    needle@,
                ) && contains_seq(split_lines(cs@.take(i as int))[k], fuse_word()),
        decreases cs@.len() - i,
    {
        let c = cs[i];
        let ghost t = cs@.take(i as int);
        proof {
            assert(cs@.take(i + 1) =~= t.push(c));
            crate::archive::lemma_split_lines_push(t, c);
        }
        if c == '\n' {
            let hit = line_has_fuse(cur.as_slice(), nd.as_slice());
            proof {
                let a = split_lines(t);
                let b = split_lines(t.push(c));
                assert(b == a.push(Seq::<char>::empty()));
                assert forall|k: int| 0 <= k < a.len() implies #[trigger] b[k] == a[k] by {}
                assert(b[a.len() - 1] == cur@);
                let nf = exists|k: int|
                    0 <= k < b.len() - 1 && contains_seq(#[trigger] b[k], needle@) && contains_seq(
                        b[k],
                        fuse_word(),
                    );
                if nf {
                    let k = choose|k: int|
                        0 <= k < b.len() - 1 && contains_seq(#[trigger] b[k], needle@)
                            && contains_seq(b[k], fuse_word());
                    if k < a.len() - 1 {
                        assert(a[k] == b[k]);
                    }
                }
                if found {
                    let k = choose|k: int|
                        0 <= k < a.len() - 1 && contains_seq(#[trigger] a[k], needle@)
                            && contains_seq(a[k], fuse_word());
                    assert(b[k] == a[k]);
                }
            }
            found = found || hit;
            cur = Vec::new();
        } else {
            cur.push(c);
            proof {
                let a = split_lines(t);
                let b = split_lines(t.push(c));
                assert(b.len() == a.len());
                assert forall|k: int| 0 <= k < a.len() - 1 implies #[trigger] b[k] == a[k] by {}
                if found {
                    let k = choose|k: int|
                        0 <= k < a.len() - 1 && contains_seq(#[trigger] a[k], needle@)
                            && contains_seq(a[k], fuse_word());
                    assert(b[k] == a[k]);
                }
                let nf = exists|k: int|
                    0 <= k < b.len() - 1 && contains_seq(#[trigger] b[k], needle@) && contains_seq(
                        b[k],
                        fuse_word(),
                    );
                if nf {
                    let k = choose|k: int|
                        0 <= k < b.len() - 1 && contains_seq(#[trigger] b[k], needle@)
                            && contains_seq(b[k], fuse_word());
                    assert(a[k] == b[k]);
                }
            }
        }
        i += 1;
    }
    let last = line_has_fuse(cur.as_slice(), nd.as_slice());
    proof {
        assert(cs@.take(i as int) =~= mounts@);
    }
    found || last
}

/// The GVFS fuse status from what was probed: whether the mount directory
/// exists, the mount table (when it could be read), whether a gvfsd-fuse
/// process runs, and whether the directory has entries (when it could be
/// listed).
pub open spec fn fuse_status_spec(
    dir_exists: bool,
    mounts: Option<Seq<char>>,
    dir: Seq<char>,
    fuse_running: bool,
    dir_nonempty: Option<bool>,
) -> GvfsFuseStatus {
    if !dir_exists {
        if fuse_running { GvfsFuseStatus::Available } else { GvfsFuseStatus::Missing }
    } else if mounts matches Some(m) && fuse_mount_listed(m, dir) {
        GvfsFuseStatus::Available
    } else if fuse_running {
        GvfsFuseStatus::Available
    } else if dir_nonempty == Some(true) {
        GvfsFuseStatus::Available
    } else {
        GvfsFuseStatus::Missing
    }
}

/// Decide whether GVFS fuse is available. Without it, SFTP may still work
/// through Gio while every folder looks unreachable, which must not be read as
/// the folders being gone.
pub fn fuse_status(
    dir_exists: bool,
    mounts: Option<&str>,
    dir: &str,
    fuse_running: bool,
    dir_nonempty: Option<bool>,
) -> (r: GvfsFuseStatus)
    ensures
        r == fuse_status_spec(
            dir_exists,
            match mounts {
                Some(m) => Some(m@),
                None => None,
            },
            dir@,
            fuse_running,
            dir_nonempty,
        ),
{
    if !dir_exists {
        return if fuse_running { GvfsFuseStatus::Available } else { GvfsFuseStatus::Missing };
    }
    match mounts {
        Some(m) => {
            if mounts_list_fuse(m, dir) {
                return GvfsFuseStatus::Available;
            }
        },
        None => {},
    }
    if fuse_running {
        return GvfsFuseStatus::Available;
    }
    match dir_nonempty {
        Some(true) => GvfsFuseStatus::Available,
        _ => GvfsFuseStatus::Missing,
    }
}

pub open spec fn default_uid() -> Seq<char> {
    seq!['1', '0', '0', '0']
}

/// The user id: `$UID` when set and not empty, else the trimmed output of
/// `id -u` when that is not empty, else 1000.
pub open spec fn uid_spec(env_uid: Option<Seq<char>>, id_output: Option<Seq<char>>) -> Seq<char> {
    if env_uid matches Some(u) && u.len() > 0 {
        env_uid->0
    } else if id_output matches Some(o) && trim_spec(o).len() > 0 {
        trim_spec(id_output->0)
    } else {
        default_uid()
    }
}

/// Pick the user id from the environment or the output of `id -u`.
pub fn pick_uid(env_uid: Option<&str>, id_output: Option<&str>) -> (r: String)
    ensures
        r@ == uid_spec(
            match env_uid {
                Some(u) => Some(u@),
                None => None,
            },
            match id_output {
                Some(o) => Some(o@),
                None => None,
            },
        ),
{
    match env_uid {
        Some(u) => {
            let cu = chars_of(u);
            if cu.len() > 0 {
                return string_of(cu.as_slice());
            }
        },
        None => {},
    }
    match id_output {
        Some(o) => {
            let t = trim(chars_of(o).as_slice());
            if t.len() > 0 {
                return string_of(t.as_slice());
            }
        },
        None => {},
    }
    let d = ['1', '0', '0', '0'];
    assert(d@ =~= default_uid());
    string_of(&d)
}

/// The GVFS mount directory of a user: `/run/user/<uid>/gvfs`.
pub open spec fn gvfs_dir_spec(uid: Seq<char>) -> Seq<char> {
    seq!['/', 'r', 'u', 'n', '/', 'u', 's', 'e', 'r', '/'] + uid + seq!['/', 'g', 'v', 'f', 's']
}

pub fn gvfs_dir(uid: &str) -> (r: String)
    ensures
        r@ == gvfs_dir_spec(uid@),
{
    let mut v: Vec<char> = Vec::new();
    let head = ['/', 'r', 'u', 'n', '/', 'u', 's', 'e', 'r', '/'];
    let tail = ['/', 'g', 'v', 'f', 's'];
    extend_chars(&mut v, &head);
    extend_chars(&mut v, chars_of(uid).as_slice());
    extend_chars(&mut v, &tail);
    assert(v@ =~= gvfs_dir_spec(uid@));
    string_of(v.as_slice())
}

/// What a background library refresh found.
#[derive(Clone, Debug)]
pub struct ScanSnapshot {
    pub entries: Vec<ComicEntry>,
    pub truncated: bool,
    pub online: Vec<String>,
    pub offline: Vec<String>,
    pub fuse: GvfsFuseStatus,
    pub recovered: usize,
    pub folder_count: usize,
}

/// The snapshot of a library refresh, from the library (after folders were
/// recovered, `recovered` of them), the fuse status, and the walk of each
/// folder: `walks[i]` is that of the i-th folder, and its reachability sorts
/// the folders into online and offline.
pub fn scan_snapshot(
    state: LibraryState,
    opts: ScanOptions,
    recovered: usize,
    fuse: GvfsFuseStatus,
    walks: &[FolderWalk],
) -> (r: (LibraryState, ScanSnapshot))
    requires
        walks@.len() == state.folders@.len(),
    ensures
        r.0 == state,
        entry_views(r.1.entries@) == isort(
            scan_fold(state.progress@, opts.max_entries, walks@).entries,
            title_order(),
        ),
        sorted_by_lower_title(entry_views(r.1.entries@)),
        r.1.truncated == scan_fold(state.progress@, opts.max_entries, walks@).truncated,
        r.1.online@ == split_by(state.folders@, walks@.map_values(|w: FolderWalk| w.reachable), true),
        r.1.offline@ == split_by(state.folders@, walks@.map_values(|w: FolderWalk| w.reachable), false),
        r.1.fuse == fuse,
        r.1.recovered == recovered,
        r.1.folder_count == state.folders@.len(),
{
    let mut reachable: Vec<bool> = Vec::new();
    let mut i: usize = 0;
    while i < walks.len()
        invariant
            i <= walks@.len(),
            reachable@ == walks@.take(i as int).map_values(|w: FolderWalk| w.reachable),
        decreases walks@.len() - i,
    {
        reachable.push(walks[i].reachable);
        proof {
            assert(walks@.take(i + 1).map_values(|w: FolderWalk| w.reachable) =~= walks@.take(
                i as int,
            ).map_values(|w: FolderWalk| w.reachable).push(walks@[i as int].reachable));
        }
        i += 1;
    }
    proof {
        assert(walks@.take(i as int) =~= walks@);
    }
    let (online, offline) = partition_folders(&state, reachable.as_slice());
    let (entries, truncated) = scan_all_opts(&state, opts, walks);
    let folder_count = state.folders.len();
    let snap = ScanSnapshot { entries, truncated, online, offline, fuse, recovered, folder_count };
    (state, snap)
}

/// `covers`.
pub open spec fn covers_seg() -> Seq<char> {
    seq!['c', 'o', 'v', 'e', 'r', 's']
}

/// `library.json`.
pub open spec fn state_file() -> Seq<char> {
    seq!['l', 'i', 'b', 'r', 'a', 'r', 'y', '.', 'j', 's', 'o', 'n']
}

/// The library folders after `recover_folders_from_progress`: the listed
/// ones, or, when none is listed and progress exists, the distinct parent
/// folders of the comics with progress.
pub open spec fn recovered_folders(state: LibraryState) -> Seq<Seq<char>> {
    if state.folders@.len() > 0 || state.progress@.len() == 0 {
        folder_names(state.folders@)
    } else {
        parent_folders(progress_keys(state.progress@))
    }
}

fn copy_text(s: &String) -> (r: String)
    ensures
        r@ == s@,
{
    string_of(chars_of(s.as_str()).as_slice())
}

fn copy_state(state: &LibraryState) -> (r: LibraryState)
    ensures
        folder_names(r.folders@) == folder_names(state.folders@),
        r.folders@.len() == state.folders@.len(),
        progress_keys(r.progress@) == progress_keys(state.progress@),
        r.progress@.len() == state.progress@.len(),
{
    let mut folders: Vec<String> = Vec::new();
    let mut i: usize = 0;
    while i < state.folders.len()
        invariant
            i <= state.folders@.len(),
            folders@.len() == i,
            forall|k: int| 0 <= k < i ==> (#[trigger] folders@[k])@ == state.folders@[k]@,
        decreases state.folders@.len() - i,
    {
        folders.push(copy_text(&state.folders[i]));
        i += 1;
    }
    let mut progress: Vec<(String, ComicProgress)> = Vec::new();
    let mut j: usize = 0;
    while j < state.progress.len()
        invariant
            j <= state.progress@.len(),
            progress@.len() == j,
            forall|k: int| 0 <= k < j ==> (#[trigger] progress@[k]).0@ == state.progress@[k].0@,
        decreases state.progress@.len() - j,
    {
        progress.push((copy_text(&state.progress[j].0), state.progress[j].1));
        j += 1;
    }
    let r = LibraryState { folders, progress, last_opened: None };
    assert(folder_names(r.folders@) =~= folder_names(state.folders@));
    assert(progress_keys(r.progress@) =~= progress_keys(state.progress@));
    r
}

/// The folders a refresh walks, in order: those of `recovered_folders`.
pub fn folders_to_walk(state: &LibraryState) -> (r: Vec<String>)
    ensures
        folder_names(r@) == recovered_folders(*state),
{
    let mut s = copy_state(state);
    let _ = recover_folders_from_progress(&mut s);
    s.folders
}

/// A full library refresh: recover the folders from progress when none is
/// listed, then take the snapshot with `walks`, one per folder of
/// `recovered_folders` in order. The state handed back is the recovered one,
/// and the snapshot is its partition into online and offline folders and
/// its scan.
pub fn refresh_snapshot(
    state: LibraryState,
    opts: ScanOptions,
    fuse: GvfsFuseStatus,
    walks: &[FolderWalk],
) -> (r: (LibraryState, ScanSnapshot))
    requires
        walks@.len() == recovered_folders(state).len(),
    ensures
        folder_names(r.0.folders@) == recovered_folders(state),
        r.0.progress@ == state.progress@,
        r.0.last_opened == state.last_opened,
        r.1.recovered == (if state.folders@.len() > 0 || state.progress@.len() == 0 {
            0
        } else {
            recovered_folders(state).len()
        }),
        r.1.folder_count == r.0.folders@.len(),
        r.1.online@ == split_by(r.0.folders@, walks@.map_values(|w: FolderWalk| w.reachable), true),
        r.1.offline@ == split_by(r.0.folders@, walks@.map_values(|w: FolderWalk| w.reachable), false),
        entry_views(r.1.entries@) == isort(
            scan_fold(state.progress@, opts.max_entries, walks@).entries,
            title_order(),
        ),
        sorted_by_lower_title(entry_views(r.1.entries@)),
        r.1.truncated == scan_fold(state.progress@, opts.max_entries, walks@).truncated,
        r.1.fuse == fuse,
{
    let mut s = state;
    let n = recover_folders_from_progress(&mut s);
    proof {
        assert(folder_names(s.folders@).len() == s.folders@.len());
    }
    scan_snapshot(s, opts, n, fuse, walks)
}

/// The cover thumbnail directory: `covers` in the cache directory.
pub fn covers_cache_dir() -> (r: String)
    ensures
        exists|found: Option<Seq<char>>| found_dir(found) && r@ == join_spec(or_fallback(found, fallback_cache()), covers_seg()),
{
    let c = cache_dir();
    let seg = ['c', 'o', 'v', 'e', 'r', 's'];
    assert(seg@ =~= covers_seg());
    let r = join_text(c.as_str(), &seg);
    proof {
        let f = choose|found: Option<Seq<char>>| found_dir(found) && c@ == or_fallback(found, fallback_cache());
        assert(r@ == join_spec(or_fallback(f, fallback_cache()), covers_seg()));
    }
    r
}

/// Where the library state is saved: `library.json` in the data directory.
pub fn state_path() -> (r: String)
    ensures
        exists|found: Option<Seq<char>>| found_dir(found) && r@ == join_spec(or_fallback(found, fallback_data()), state_file()),
{
    let d = data_dir();
    let seg = ['l', 'i', 'b', 'r', 'a', 'r', 'y', '.', 'j', 's', 'o', 'n'];
    assert(seg@ =~= state_file());
    let r = join_text(d.as_str(), &seg);
    proof {
        let f = choose|found: Option<Seq<char>>| found_dir(found) && d@ == or_fallback(found, fallback_data());
        assert(r@ == join_spec(or_fallback(f, fallback_data()), state_file()));
    }
    r
}

/// The cover thumbnail file name of a comic: its content key and `.png`.
pub open spec fn cover_file_spec(comic: &str, stamp: Option<FileStamp>) -> Seq<char> {
    content_hash_spec(comic, stamp) + seq!['.', 'p', 'n', 'g']
}

/// The cover thumbnail file name of a comic, keyed by its path, size and
/// modification time (`stamp`, when the file could be examined).
pub fn cover_file_name(comic: &str, stamp: Option<FileStamp>) -> (r: String)
    ensures
        r@ == cover_file_spec(comic, stamp),
{
    let h = content_hash(comic, stamp);
    let mut v = chars_of(h.as_str());
    let ext = ['.', 'p', 'n', 'g'];
    extend_chars(&mut v, &ext);
    assert(v@ =~= cover_file_spec(comic, stamp));
    string_of(v.as_slice())
}

/// The cover thumbnail path of a comic, in the covers directory.
pub fn cover_cache_path(comic: &str, stamp: Option<FileStamp>) -> (r: String)
    ensures
        exists|found: Option<Seq<char>>|
            found_dir(found) && r@ == join_spec(
                join_spec(or_fallback(found, fallback_cache()), covers_seg()),
                cover_file_spec(comic, stamp),
            ),
{
    let dir = covers_cache_dir();
    let name = cover_file_name(comic, stamp);
    let r = join_text(dir.as_str(), chars_of(name.as_str()).as_slice());
    proof {
        let f = choose|found: Option<Seq<char>>|
            found_dir(found) && dir@ == join_spec(or_fallback(found, fallback_cache()), covers_seg());
        assert(r@ == join_spec(
            join_spec(or_fallback(f, fallback_cache()), covers_seg()),
            cover_file_spec(comic, stamp),
        ));
    }
    r
}

} // verus!
