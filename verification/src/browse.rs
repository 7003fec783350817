//! The folder browser of the library window: which folder it starts in,
//! which children it lists and in what order, where "up" goes, and what the
//! status line says. Querying the file system is the application's part.
use vstd::prelude::*;
use crate::text::{starts_with, starts_with_seq, chars_of, decimal, decimal_spec, extend_chars, lowercase_spec, string_of, to_lowercase, trim, trim_spec};
use crate::paths::{chars_less, chars_less_exec, components, components_spec, views};
use crate::archive::eq_chars;
use crate::seqs::{adjacent_ordered, asymmetric, insert_from_end, isort};

verus! {

/// The start of the local mount paths of a user's GVFS mounts.
pub open spec fn run_user() -> Seq<char> {
    "/run/user/"@
}

/// Where the comics disk appears under a user's GVFS mounts, in the order
/// they are tried.
pub open spec fn passport_suffixes() -> Seq<Seq<char>> {
    seq![
        "gvfs/sftp:host=stari,user=po/media/po/My Passport"@,
        "gvfs/sftp:host=stari,user=po/mnt/passport"@,
    ]
}

/// The local path of a GVFS mount of user `uid`.
pub open spec fn gvfs_candidate(uid: Seq<char>, suffix: Seq<char>) -> Seq<char> {
    run_user() + uid + seq!['/'] + suffix
}

fn concat_into(out: &mut Vec<char>, s: &str)
    ensures
        final(out)@ == old(out)@ + s@,
{
    let cs = chars_of(s);
    extend_chars(out, cs.as_slice());
}

/// The local paths under which the comics disk may be mounted for user
/// `uid`, in the order they are tried.
pub fn passport_candidates(uid: &str) -> (r: Vec<String>)
    ensures
        r@.len() == 2,
        forall|i: int| 0 <= i < 2 ==> #[trigger] r@[i]@ == gvfs_candidate(uid@, passport_suffixes()[i]),
{
    let suffixes = [
        "gvfs/sftp:host=stari,user=po/media/po/My Passport",
        "gvfs/sftp:host=stari,user=po/mnt/passport",
    ];
    let mut r: Vec<String> = Vec::new();
    let mut i: usize = 0;
    while i < 2
        invariant
            i <= 2,
            suffixes@.len() == 2,
            suffixes@[0]@ == passport_suffixes()[0],
            suffixes@[1]@ == passport_suffixes()[1],
            r@.len() == i,
            forall|k: int| 0 <= k < i ==> #[trigger] r@[k]@ == gvfs_candidate(uid@, passport_suffixes()[k]),
        decreases 2 - i,
    {
        let mut p: Vec<char> = Vec::new();
        concat_into(&mut p, "/run/user/");
        concat_into(&mut p, uid);
        p.push('/');
        concat_into(&mut p, suffixes[i]);
        proof {
            assert(p@ =~= gvfs_candidate(uid@, passport_suffixes()[i as int]));
        }
        r.push(string_of(p.as_slice()));
        i += 1;
    }
    r
}

/// The user id printed by `id -u`: its output, trimmed.
pub fn uid_from_id_output(output: &str) -> (r: String)
    ensures
        r@ == trim_spec(output@),
{
    string_of(trim(chars_of(output).as_slice()).as_slice())
}

/// Where the folder browser starts.
#[derive(Clone, Debug, PartialEq, Eq)]
pub enum BrowseRoot {
    /// A local directory.
    Local(String),
    /// The remote location itself, which has a local path that is not (yet)
    /// a directory.
    Remote,
}

/// The message shown when the remote location cannot be queried.
pub open spec fn unreachable_message(error: Seq<char>) -> Seq<char> {
    "My Passport unreachable ("@ + error
        + "). Mount the disk on stari or open a local CBZ/CBR."@
}

/// The message shown when the remote location has no local path.
pub open spec fn not_mounted_message() -> Seq<char> {
    "My Passport not mounted (no local GVFS path). Open Nautilus → stari, or add a local folder."@
}

/// The first of `paths` that is a directory, by the flags `is_dir`.
pub open spec fn first_dir(paths: Seq<Seq<char>>, is_dir: Seq<bool>) -> Option<Seq<char>>
    decreases paths.len(),
{
    if paths.len() == 0 || is_dir.len() == 0 {
        None
    } else if is_dir[0] {
        Some(paths[0])
    } else {
        first_dir(paths.drop_first(), is_dir.drop_first())
    }
}

/// Where the browser starts, from what the application found: an error
/// querying the remote location; the local path of that location when it is
/// a directory; the local mount candidates and which of them are
/// directories; whether the remote location has a local path at all.
pub open spec fn browse_root_spec(
    query_error: Option<Seq<char>>,
    remote_dir: Option<Seq<char>>,
    candidates: Seq<Seq<char>>,
    candidate_is_dir: Seq<bool>,
    remote_has_path: bool,
) -> Result<Option<Seq<char>>, Seq<char>> {
    if query_error is Some {
        Err(unreachable_message(query_error->0))
    } else if remote_dir is Some {
        Ok(remote_dir)
    } else if first_dir(candidates, candidate_is_dir) is Some {
        Ok(first_dir(candidates, candidate_is_dir))
    } else if !remote_has_path {
        Err(not_mounted_message())
    } else {
        Ok(None)
    }
}

/// The texts of a list of strings.
pub open spec fn string_texts(v: Seq<String>) -> Seq<Seq<char>> {
    v.map_values(|s: String| s@)
}

/// Decide where the folder browser starts (see `browse_root_spec`): the
/// message of the error, the directory behind the remote location, the
/// first mount candidate that is a directory, or the remote location
/// itself, in that order.
pub fn choose_browse_root(
    query_error: Option<String>,
    remote_dir: Option<String>,
    candidates: &[String],
    candidate_is_dir: &[bool],
    remote_has_path: bool,
) -> (r: Result<BrowseRoot, String>)
    ensures
        browse_root_spec(
            match query_error {
                Some(e) => Some(e@),
                None => None,
            },
            match remote_dir {
                Some(d) => Some(d@),
                None => None,
            },
            string_texts(candidates@),
            candidate_is_dir@,
            remote_has_path,
        ) == match r {
            Ok(BrowseRoot::Local(p)) => Ok::<Option<Seq<char>>, Seq<char>>(Some(p@)),
            Ok(BrowseRoot::Remote) => Ok(None),
            Err(m) => Err(m@),
        },
{
    let ghost all = string_texts(candidates@);
    match query_error {
        Some(e) => {
            let mut m: Vec<char> = Vec::new();
            concat_into(&mut m, "My Passport unreachable (");
            concat_into(&mut m, e.as_str());
            concat_into(&mut m, "). Mount the disk on stari or open a local CBZ/CBR.");
            return Err(string_of(m.as_slice()));
        },
        None => {},
    }
    match remote_dir {
        Some(d) => {
            return Ok(BrowseRoot::Local(d));
        },
        None => {},
    }
    let mut i: usize = 0;
    assert(all.skip(0) =~= all);
    assert(candidate_is_dir@.skip(0) =~= candidate_is_dir@);
    while i < candidates.len() && i < candidate_is_dir.len()
        invariant
            i <= candidates@.len(),
            i <= candidate_is_dir@.len(),
            all == string_texts(candidates@),
            query_error is None,
            remote_dir is None,
            first_dir(all, candidate_is_dir@) == first_dir(all.skip(i as int), candidate_is_dir@.skip(i as int)),
        decreases candidates@.len() - i,
    {
        proof {
            assert(all.skip(i as int)[0] == candidates@[i as int]@);
            assert(candidate_is_dir@.skip(i as int)[0] == candidate_is_dir@[i as int]);
            assert(all.skip(i as int).drop_first() =~= all.skip(i + 1));
            assert(candidate_is_dir@.skip(i as int).drop_first() =~= candidate_is_dir@.skip(i + 1));
        }
        if candidate_is_dir[i] {
            assert(first_dir(all, candidate_is_dir@) == Some(candidates@[i as int]@));
            return Ok(BrowseRoot::Local(string_of(chars_of(candidates[i].as_str()).as_slice())));
        }
        i += 1;
    }
    assert(first_dir(all.skip(i as int), candidate_is_dir@.skip(i as int)) is None);
    if !remote_has_path {
        return Err(string_of(chars_of(
            "My Passport not mounted (no local GVFS path). Open Nautilus → stari, or add a local folder.",
        ).as_slice()));
    }
    Ok(BrowseRoot::Remote)
}

/// One child of a folder, as the browser's listing reports it.
#[derive(Clone, Debug)]
pub struct ChildInfo {
    /// The name shown for it.
    pub name: String,
    /// Its location.
    pub uri: String,
    pub is_dir: bool,
}

/// A listed child is a directory whose name does not start with `.`.
pub open spec fn shown_child(c: ChildInfo) -> bool {
    c.is_dir && !(c.name@.len() > 0 && c.name@[0] == '.')
}

/// The (name, location) pairs of the children that are listed, in listing
/// order.
pub open spec fn shown_children(cs: Seq<ChildInfo>) -> Seq<(Seq<char>, Seq<char>)>
    decreases cs.len(),
{
    if cs.len() == 0 {
        Seq::empty()
    } else {
        let rest = shown_children(cs.drop_last());
        if shown_child(cs.last()) {
            rest.push((cs.last().name@, cs.last().uri@))
        } else {
            rest
        }
    }
}

/// Children in the order of their lower-cased names.
pub open spec fn child_order() -> spec_fn((Seq<char>, Seq<char>), (Seq<char>, Seq<char>)) -> bool {
    |a: (Seq<char>, Seq<char>), b: (Seq<char>, Seq<char>)| chars_less(lowercase_spec(a.0), lowercase_spec(b.0))
}

/// The texts of (name, location) pairs.
pub open spec fn pair_texts(v: Seq<(String, String)>) -> Seq<(Seq<char>, Seq<char>)> {
    v.map_values(|p: (String, String)| (p.0@, p.1@))
}

fn copy_pair(p: &(String, String)) -> (r: (String, String))
    ensures
        r.0@ == p.0@,
        r.1@ == p.1@,
{
    (string_of(chars_of(p.0.as_str()).as_slice()), string_of(chars_of(p.1.as_str()).as_slice()))
}

/// The sub-folders a folder browser lists: directories not named with a
/// leading `.`, as (name, location) pairs, ordered by lower-cased name
/// (stably).
pub fn visible_subdirs(children: &[ChildInfo]) -> (r: Vec<(String, String)>)
    ensures
        pair_texts(r@) == isort(shown_children(children@), child_order()),
{
    let mut keyed: Vec<(Vec<char>, (String, String))> = Vec::new();
    let mut i: usize = 0;
    let n = children.len();
    while i < n
        invariant
            n == children@.len(),
            i <= n,
            forall|k: int| 0 <= k < keyed@.len() ==> (#[trigger] keyed@[k]).0@ == lowercase_spec(
                keyed@[k].1.0@,
            ),
            pair_texts(keyed@.map_values(|p: (Vec<char>, (String, String))| p.1)) == isort(
                shown_children(children@.take(i as int)),
                child_order(),
            ),
        decreases n - i,
    {
        let c = &children[i];
        proof {
            assert(children@.take(i + 1).drop_last() =~= children@.take(i as int));
            assert(children@.take(i + 1).last() == children@[i as int]);
        }
        let name_chars = chars_of(c.name.as_str());
        let starts_dot = name_chars.len() > 0 && name_chars[0] == '.';
        assert(shown_child(children@[i as int]) == (c.is_dir && !starts_dot));
        if c.is_dir && !starts_dot {
            let e = (string_of(chars_of(c.name.as_str()).as_slice()), string_of(chars_of(c.uri.as_str()).as_slice()));
            let ghost ev = (e.0@, e.1@);
            let low = to_lowercase(e.0.as_str());
            let key = chars_of(low.as_str());
            let ghost before = keyed@;
            let mut p: usize = keyed.len();
            while p > 0 && chars_less_exec(key.as_slice(), keyed[p - 1].0.as_slice())
                invariant
                    p <= keyed@.len(),
                    keyed@ == before,
                    ev == (e.0@, e.1@),
                    key@ == lowercase_spec(e.0@),
                    forall|k: int| 0 <= k < keyed@.len() ==> (#[trigger] keyed@[k]).0@
                        == lowercase_spec(keyed@[k].1.0@),
                    forall|k: int| p <= k < keyed@.len() ==> child_order()(ev, ((#[trigger] keyed@[k]).1.0@, keyed@[k].1.1@)),
                decreases p,
            {
                proof {
                    assert(child_order()(ev, (keyed@[p - 1].1.0@, keyed@[p - 1].1.1@)));
                }
                p -= 1;
            }
            let ghost sorted = pair_texts(keyed@.map_values(|q: (Vec<char>, (String, String))| q.1));
            proof {
                assert forall|k: int| p <= k < sorted.len() implies child_order()(ev, #[trigger] sorted[k]) by {
                    assert(sorted[k] == (keyed@[k].1.0@, keyed@[k].1.1@));
                }
                if p > 0 {
                    assert(sorted[p - 1] == (keyed@[p - 1].1.0@, keyed@[p - 1].1.1@));
                }
                crate::seqs::lemma_insert_from_end_at(sorted, ev, child_order(), p as int);
                assert(shown_children(children@.take(i + 1)) == shown_children(children@.take(i as int)).push(ev));
            }
            keyed.insert(p, (key, e));
            proof {
                assert(pair_texts(keyed@.map_values(|q: (Vec<char>, (String, String))| q.1)) =~= sorted.insert(p as int, ev));
                assert(shown_children(children@.take(i + 1)).drop_last() == shown_children(children@.take(i as int)));
                assert(shown_children(children@.take(i + 1)).last() == ev);
                assert(isort(shown_children(children@.take(i + 1)), child_order()) == insert_from_end(sorted, ev, child_order()));
            }
        } else {
            proof {
                assert(shown_children(children@.take(i + 1)) == shown_children(children@.take(i as int)));
            }
        }
        i += 1;
    }
    proof {
        assert(children@.take(n as int) =~= children@);
    }
    let mut r: Vec<(String, String)> = Vec::new();
    let mut j: usize = 0;
    let m = keyed.len();
    while j < m
        invariant
            m == keyed@.len(),
            j <= m,
            pair_texts(r@) == pair_texts(keyed@.map_values(|p: (Vec<char>, (String, String))| p.1)).take(j as int),
        decreases m - j,
    {
        r.push(copy_pair(&keyed[j].1));
        proof {
            let all = pair_texts(keyed@.map_values(|p: (Vec<char>, (String, String))| p.1));
            assert(all.take(j + 1) =~= all.take(j as int).push((keyed@[j as int].1.0@, keyed@[j as int].1.1@)));
            assert(pair_texts(r@) =~= all.take(j + 1));
        }
        j += 1;
    }
    proof {
        let all = pair_texts(keyed@.map_values(|p: (Vec<char>, (String, String))| p.1));
        assert(all.take(m as int) =~= all);
    }
    r
}


/// The browser lists each shown child exactly once, and no listed neighbour
/// is out of lower-cased name order.
pub proof fn lemma_subdirs_sorted(children: Seq<ChildInfo>)
    ensures
        isort(shown_children(children), child_order()).to_multiset() == shown_children(children).to_multiset(),
        adjacent_ordered(isort(shown_children(children), child_order()), child_order()),
{
    crate::seqs::lemma_isort_multiset(shown_children(children), child_order());
    assert(asymmetric(child_order())) by {
        assert forall|a: (Seq<char>, Seq<char>), b: (Seq<char>, Seq<char>)| #[trigger] child_order()(a, b) implies !child_order()(b, a) by {
            crate::paths::lemma_chars_less_asymmetric(lowercase_spec(a.0), lowercase_spec(b.0));
        }
    }
    crate::seqs::lemma_isort_ordered(shown_children(children), child_order());
}

/// Where the browser's "up" button goes.
#[derive(Clone, Copy, Debug, PartialEq, Eq, Structural)]
pub enum UpMove {
    /// Nowhere: the browser is at its start, or the folder has no parent.
    Stay,
    /// To the parent folder, which lies within the start folder.
    ToParent,
    /// Back to the start folder, since the parent lies outside it.
    ToRoot,
}

/// The parent of the folder shown, as the application sees it.
#[derive(Clone, Debug)]
pub struct ParentInfo {
    pub uri: String,
    /// Its local path, when it has one.
    pub path: Option<String>,
    /// Whether it is the start folder itself.
    pub is_root: bool,
}

/// `base` names a leading run of the components of `p`, as `Path::starts_with`
/// compares whole components.
pub open spec fn path_starts_with(p: Seq<char>, base: Seq<char>) -> bool {
    let b = components_spec(base);
    let c = components_spec(p);
    b.len() <= c.len() && c.take(b.len() as int) == b
}

/// The parent lies within the start folder: it is the start folder, its
/// location begins with the start's, or its local path lies under the
/// start's.
pub open spec fn parent_within(parent: ParentInfo, root_uri: Seq<char>, root_path: Option<Seq<char>>) -> bool {
    ||| parent.is_root
    ||| starts_with_seq(parent.uri@, root_uri)
    ||| (parent.path is Some && root_path is Some && path_starts_with(parent.path->0@, root_path->0))
}

/// Where "up" goes from the folder at `cur_uri`.
pub open spec fn up_move_spec(
    cur_uri: Seq<char>,
    root_uri: Seq<char>,
    parent: Option<ParentInfo>,
    root_path: Option<Seq<char>>,
) -> UpMove {
    if cur_uri == root_uri {
        UpMove::Stay
    } else if parent is None {
        UpMove::Stay
    } else if parent_within(parent->0, root_uri, root_path) {
        UpMove::ToParent
    } else {
        UpMove::ToRoot
    }
}

/// Whether path `p` starts with the components of `base`.
pub fn path_starts_with_exec(p: &str, base: &str) -> (r: bool)
    ensures
        r == path_starts_with(p@, base@),
{
    let c = components(chars_of(p).as_slice());
    let b = components(chars_of(base).as_slice());
    if b.len() > c.len() {
        return false;
    }
    let mut i: usize = 0;
    while i < b.len()
        invariant
            i <= b@.len() <= c@.len(),
            views(b@) == components_spec(base@),
            views(c@) == components_spec(p@),
            forall|k: int| 0 <= k < i ==> b@[k]@ == c@[k]@,
        decreases b@.len() - i,
    {
        if !eq_chars(b[i].as_slice(), c[i].as_slice()) {
            proof {
                assert(views(c@).take(b@.len() as int)[i as int] == c@[i as int]@);
                assert(views(b@)[i as int] == b@[i as int]@);
            }
            return false;
        }
        i += 1;
    }
    proof {
        assert(views(c@).take(b@.len() as int) =~= views(b@));
    }
    true
}

/// Decide where "up" goes from the folder at `cur_uri`, whose parent is
/// `parent`, in a browser that started at `root_uri` (local path
/// `root_path`): nowhere at the start or without a parent, to the parent when
/// it lies within the start folder, else back to the start.
pub fn up_move(cur_uri: &str, root_uri: &str, parent: &Option<ParentInfo>, root_path: &Option<String>) -> (r: UpMove)
    ensures
        r == up_move_spec(
            cur_uri@,
            root_uri@,
            *parent,
            match root_path {
                Some(p) => Some(p@),
                None => None,
            },
        ),
{
    let cu = chars_of(cur_uri);
    let ru = chars_of(root_uri);
    if eq_chars(cu.as_slice(), ru.as_slice()) {
        return UpMove::Stay;
    }
    match parent {
        None => UpMove::Stay,
        Some(pi) => {
            if pi.is_root || starts_with(chars_of(pi.uri.as_str()).as_slice(), ru.as_slice()) {
                return UpMove::ToParent;
            }
            match (&pi.path, root_path) {
                (Some(pp), Some(rp)) => {
                    if path_starts_with_exec(pp.as_str(), rp.as_str()) {
                        return UpMove::ToParent;
                    }
                },
                _ => {},
            }
            UpMove::ToRoot
        },
    }
}

/// The status line under the library grid: the number of comics, or, with
/// none, a hint to browse the disk, or why it cannot be browsed.
pub open spec fn library_status_spec(count: nat, browse_error: Option<Seq<char>>) -> Seq<char> {
    if count > 0 {
        decimal_spec(count) + " comic(s)"@
    } else if browse_error is Some {
        browse_error->0
    } else {
        "No comics yet — use My Passport to browse stari like Nautilus."@
    }
}

/// The status line under the library grid (see `library_status_spec`).
pub fn library_status(count: usize, browse_error: Option<&str>) -> (r: String)
    ensures
        r@ == library_status_spec(
            count as nat,
            match browse_error {
                Some(e) => Some(e@),
                None => None,
            },
        ),
{
    if count > 0 {
        let mut m = decimal(count as u64);
        concat_into(&mut m, " comic(s)");
        return string_of(m.as_slice());
    }
    match browse_error {
        Some(e) => string_of(chars_of(e).as_slice()),
        None => string_of(chars_of("No comics yet — use My Passport to browse stari like Nautilus.").as_slice()),
    }
}

} // verus!
