//! Comic archives (CBZ as zip, CBR as rar): which entries are pages, their
//! reading order, where a remote archive is cached, and the `unrar` command
//! lines. The archive files themselves are read by the application.
use vstd::prelude::*;
use vstd::string::{StringSliceAdditionalSpecFns, StrSliceExecFns};
use crate::text::{decimal, decimal_spec, extend_chars, ascii_lower_seq, ascii_lowercase, chars_of, contains, contains_seq, starts_with_seq, string_of, trim, trim_spec, occurs_at, occurs_at_exec};
use crate::paths::{extension, extension_spec};
use crate::seqs::{isort, insert_from_end};
use crate::natord::{sort_pages, page_less, name_less};
use crate::paths::rfind;
use crate::digest::{hex_encode, hex_lower_spec, sha256, sha256_spec};
use crate::library::texts;
use crate::dirs::{found_dir, cache_dir, fallback_cache, join_text, or_fallback};
use crate::paths::join_spec;

verus! {

/// Longest time `unrar lb` (listing) may run, in seconds.
pub const UNRAR_LIST_TIMEOUT_SECS: u64 = 60;
/// Longest time `unrar p` (one page) may run, in seconds.
pub const UNRAR_PAGE_TIMEOUT_SECS: u64 = 120;
/// Longest time the copy of a remote archive into the cache may take, in seconds.
pub const REMOTE_COPY_TIMEOUT_SECS: u64 = 300;

#[derive(Clone, Copy, Debug, PartialEq, Eq, Structural)]
pub enum ArchiveKind {
    Cbz,
    Cbr,
}

/// Why an archive cannot be opened or read.
#[derive(Clone, Debug, PartialEq, Eq)]
pub enum ArchiveError {
    /// The path is not a file.
    NotAFile(String),
    /// The extension (lower-cased) is not one of cbz, zip, cbr, rar.
    Unsupported(String),
    /// The archive holds no image pages.
    NoImages(ArchiveKind),
    /// There is no page with this index.
    PageOutOfRange(usize),
}

/// A comic archive and its pages in reading order.
#[derive(Clone, Debug)]
pub struct ComicArchive {
    /// The library / user path (progress keys, display).
    pub path: String,
    /// Local readable file (the path itself, or a cache copy of a remote file).
    pub local_path: String,
    pub kind: ArchiveKind,
    /// Page entry names in natural order.
    pub pages: Vec<String>,
}

/// The extensions of image pages.
pub open spec fn image_exts() -> Seq<Seq<char>> {
    seq![
        seq!['j', 'p', 'g'],
        seq!['j', 'p', 'e', 'g'],
        seq!['p', 'n', 'g'],
        seq!['w', 'e', 'b', 'p'],
        seq!['g', 'i', 'f'],
        seq!['b', 'm', 'p'],
    ]
}

/// The name has an image extension (any case).
pub open spec fn is_image_name_spec(name: Seq<char>) -> bool {
    match extension_spec(name) {
        Some(e) => image_exts().contains(ascii_lower_seq(e)),
        None => false,
    }
}

pub(crate) fn eq_chars(a: &[char], b: &[char]) -> (r: bool)
    ensures
        r == (a@ == b@),
{
    if a.len() != b.len() {
        return false;
    }
    let mut i: usize = 0;
    while i < a.len()
        invariant
            i <= a@.len(),
            a@.len() == b@.len(),
            forall|k: int| 0 <= k < i ==> a@[k] == b@[k],
        decreases a@.len() - i,
    {
        if a[i] != b[i] {
            return false;
        }
        i += 1;
    }
    assert(a@ =~= b@);
    true
}

fn is_image_ext(e: &[char]) -> (r: bool)
    ensures
        r == image_exts().contains(e@),
{
    let exts: [&[char]; 6] = [
        &['j', 'p', 'g'],
        &['j', 'p', 'e', 'g'],
        &['p', 'n', 'g'],
        &['w', 'e', 'b', 'p'],
        &['g', 'i', 'f'],
        &['b', 'm', 'p'],
    ];
    assert(exts[0]@ =~= image_exts()[0]);
    assert(exts[1]@ =~= image_exts()[1]);
    assert(exts[2]@ =~= image_exts()[2]);
    assert(exts[3]@ =~= image_exts()[3]);
    assert(exts[4]@ =~= image_exts()[4]);
    assert(exts[5]@ =~= image_exts()[5]);
    let mut i: usize = 0;
    while i < 6
        invariant
            i <= 6,
            forall|k: int| 0 <= k < 6 ==> exts@[k]@ == image_exts()[k],
            forall|k: int| 0 <= k < i ==> image_exts()[k] != e@,
        decreases 6 - i,
    {
        if eq_chars(exts[i], e) {
            return true;
        }
        i += 1;
    }
    assert(!image_exts().contains(e@)) by {
        if image_exts().contains(e@) {
            let k = choose|k: int| 0 <= k < image_exts().len() && image_exts()[k] == e@;
        }
    }
    false
}

/// The name has an image extension (any case).
pub fn is_image_name(name: &str) -> (r: bool)
    ensures
        r == is_image_name_spec(name@),
{
    let cs = chars_of(name);
    match extension(cs.as_slice()) {
        None => false,
        Some(e) => {
            let low = ascii_lowercase(e.as_slice());
            is_image_ext(low.as_slice())
        },
    }
}


pub open spec fn macosx() -> Seq<char> {
    seq!['_', '_', 'M', 'A', 'C', 'O', 'S', 'X']
}

pub open spec fn ds_store() -> Seq<char> {
    seq!['.', 'D', 'S', '_', 'S', 't', 'o', 'r', 'e']
}

/// The text after the last `/` (the whole name when there is none).
pub open spec fn last_segment(name: Seq<char>) -> Seq<char> {
    name.subrange(rfind(name, '/') + 1, name.len() as int)
}

/// A zip entry is a page: a file (not a directory), outside `__MACOSX`, not a
/// `.DS_Store`, with an image extension.
pub open spec fn zip_page_spec(name: Seq<char>, is_dir: bool) -> bool {
    &&& !is_dir
    &&& !contains_seq(name, macosx())
    &&& last_segment(name) != ds_store()
    &&& is_image_name_spec(name)
}

fn macosx_chars() -> (r: Vec<char>)
    ensures
        r@ == macosx(),
{
    let r = vec!['_', '_', 'M', 'A', 'C', 'O', 'S', 'X'];
    assert(r@ =~= macosx());
    r
}

fn ds_store_chars() -> (r: Vec<char>)
    ensures
        r@ == ds_store(),
{
    let r = vec!['.', 'D', 'S', '_', 'S', 't', 'o', 'r', 'e'];
    assert(r@ =~= ds_store());
    r
}

fn last_segment_is(cs: &[char], want: &[char]) -> (r: bool)
    ensures
        r == (last_segment(cs@) == want@),
{
    let mut i = cs.len();
    assert(cs@.take(cs@.len() as int) =~= cs@);
    while i > 0 && cs[i - 1] != '/'
        invariant
            i <= cs@.len(),
            rfind(cs@.take(i as int), '/') == rfind(cs@, '/'),
        decreases i,
    {
        proof {
            assert(cs@.take(i as int).drop_last() =~= cs@.take(i - 1));
        }
        i -= 1;
    }
    proof {
        assert(cs@.take(cs@.len() as int) =~= cs@);
        if i > 0 {
            assert(cs@.take(i as int).last() == '/');
        }
        crate::paths::lemma_rfind(cs@, '/');
        assert(rfind(cs@, '/') + 1 == i);
    }
    let n = cs.len();
    if n - i != want.len() {
        return false;
    }
    let mut k: usize = 0;
    while k < want.len()
        invariant
            i + want@.len() == n,
            n == cs@.len(),
            last_segment(cs@) == cs@.subrange(i as int, n as int),
            k <= want@.len(),
            forall|j: int| 0 <= j < k ==> cs@[i + j] == want@[j],
        decreases want@.len() - k,
    {
        if cs[i + k] != want[k] {
            assert(last_segment(cs@)[k as int] != want@[k as int]);
            return false;
        }
        k += 1;
    }
    assert(last_segment(cs@) =~= want@);
    true
}

/// Whether a zip entry is a page of the comic.
pub fn is_zip_page(name: &str, is_dir: bool) -> (r: bool)
    ensures
        r == zip_page_spec(name@, is_dir),
{
    if is_dir {
        return false;
    }
    let cs = chars_of(name);
    if contains(cs.as_slice(), macosx_chars().as_slice()) {
        return false;
    }
    if last_segment_is(cs.as_slice(), ds_store_chars().as_slice()) {
        return false;
    }
    is_image_name(name)
}

/// One entry of a zip listing.
#[derive(Clone, Debug)]
pub struct ZipEntry {
    pub name: String,
    pub is_dir: bool,
}

/// The page names among zip entries, in listing order.
pub open spec fn zip_pages(entries: Seq<ZipEntry>) -> Seq<String>
    decreases entries.len(),
{
    if entries.len() == 0 {
        Seq::empty()
    } else {
        let rest = zip_pages(entries.drop_last());
        let e = entries.last();
        if zip_page_spec(e.name@, e.is_dir) { rest.push(e.name) } else { rest }
    }
}

/// Split text into lines at `\n`.
pub open spec fn split_lines(s: Seq<char>) -> Seq<Seq<char>>
    decreases s.len(),
{
    let i = rfind(s, '\n');
    if i < 0 {
        seq![s]
    } else {
        proof {
            crate::paths::lemma_rfind(s, '\n');
        }
        split_lines(s.take(i)).push(s.skip(i + 1))
    }
}

/// A listing line names a page: not blank, an image name, outside `__MACOSX`.
pub open spec fn listing_page(line: Seq<char>) -> bool {
    &&& line.len() > 0
    &&& is_image_name_spec(line)
    &&& !contains_seq(line, macosx())
}

/// The trimmed page names of a listing, in order.
pub open spec fn listing_pages(lines: Seq<Seq<char>>) -> Seq<Seq<char>>
    decreases lines.len(),
{
    if lines.len() == 0 {
        Seq::empty()
    } else {
        let rest = listing_pages(lines.drop_last());
        let t = trim_spec(lines.last());
        if listing_page(t) { rest.push(t) } else { rest }
    }
}

impl ComicArchive {
    /// An archive from the entries of a zip file: the image pages in natural
    /// order; no pages is an error.
    pub fn from_zip_entries(path: String, local_path: String, entries: &[ZipEntry]) -> (r: Result<
        ComicArchive,
        ArchiveError,
    >)
        ensures
            zip_pages(entries@).len() == 0 ==> r == Err::<ComicArchive, ArchiveError>(
                ArchiveError::NoImages(ArchiveKind::Cbz),
            ),
            zip_pages(entries@).len() > 0 ==> (r matches Ok(a) && a.path == path && a.local_path
                == local_path && a.kind == ArchiveKind::Cbz && a.pages@ == isort(
                zip_pages(entries@),
                page_less(),
            )),
    {
        let mut pages: Vec<String> = Vec::new();
        let mut i: usize = 0;
        while i < entries.len()
            invariant
                i <= entries@.len(),
                pages@ == zip_pages(entries@.take(i as int)),
            decreases entries@.len() - i,
        {
            let e = &entries[i];
            if is_zip_page(e.name.as_str(), e.is_dir) {
                pages.push(e.name.clone());
            }
            proof {
                assert(entries@.take(i + 1).drop_last() =~= entries@.take(i as int));
            }
            i += 1;
        }
        assert(entries@.take(i as int) =~= entries@);
        let ghost found = pages@;
        sort_pages(&mut pages);
        proof {
            crate::seqs::lemma_isort_multiset(found, page_less());
        }
        if pages.len() == 0 {
            return Err(ArchiveError::NoImages(ArchiveKind::Cbz));
        }
        Ok(ComicArchive { path, local_path, kind: ArchiveKind::Cbz, pages })
    }

    /// An archive from the output of `unrar lb`: trimmed lines that name image
    /// pages, in natural order; no pages is an error.
    pub fn from_rar_listing(path: String, local_path: String, listing: &str) -> (r: Result<
        ComicArchive,
        ArchiveError,
    >)
        ensures
            listing_pages(split_lines(listing@)).len() == 0 ==> r == Err::<
                ComicArchive,
                ArchiveError,
            >(ArchiveError::NoImages(ArchiveKind::Cbr)),
            listing_pages(split_lines(listing@)).len() > 0 ==> (r matches Ok(a) && a.path == path
                && a.local_path == local_path && a.kind == ArchiveKind::Cbr && a.pages@.map_values(
                |p: String| p@,
            ) == isort(listing_pages(split_lines(listing@)), name_less())),
    {
        let mut pages = parse_rar_listing(listing);
        let ghost found = pages@;
        sort_pages(&mut pages);
        proof {
            crate::seqs::lemma_isort_multiset(found, page_less());
            crate::seqs::lemma_isort_map(found, |p: String| p@, page_less(), name_less());
            assert(found.map_values(|p: String| p@).len() == found.len());
        }
        if pages.len() == 0 {
            return Err(ArchiveError::NoImages(ArchiveKind::Cbr));
        }
        Ok(ComicArchive { path, local_path, kind: ArchiveKind::Cbr, pages })
    }

    pub fn page_count(&self) -> (n: usize)
        ensures
            n == self.pages@.len(),
    {
        self.pages.len()
    }

    /// The entry name of page `index`, or an error past the last page.
    pub fn page_entry(&self, index: usize) -> (r: Result<String, ArchiveError>)
        ensures
            index < self.pages@.len() ==> r == Ok::<String, ArchiveError>(self.pages@[index as int]),
            index >= self.pages@.len() ==> r == Err::<String, ArchiveError>(
                ArchiveError::PageOutOfRange(index),
            ),
    {
        if index < self.pages.len() {
            Ok(self.pages[index].clone())
        } else {
            Err(ArchiveError::PageOutOfRange(index))
        }
    }
}


/// Whether a trimmed listing line names a page.
fn is_listing_page(line: &[char]) -> (r: bool)
    ensures
        r == listing_page(line@),
{
    if line.len() == 0 {
        return false;
    }
    let name = string_of(line);
    if !is_image_name(name.as_str()) {
        return false;
    }
    !contains(line, macosx_chars().as_slice())
}

pub(crate) proof fn lemma_split_lines_push(t: Seq<char>, c: char)
    ensures
        c == '\n' ==> split_lines(t.push(c)) == split_lines(t).push(Seq::<char>::empty()),
        c != '\n' ==> split_lines(t.push(c)) == split_lines(t).drop_last().push(
            split_lines(t).last().push(c),
        ),
        split_lines(t).len() >= 1,
{
    crate::paths::lemma_rfind(t, '\n');
    crate::paths::lemma_rfind(t.push(c), '\n');
    let u = t.push(c);
    if c == '\n' {
        assert(u.take(t.len() as int) =~= t);
        assert(u.skip(t.len() as int + 1) =~= Seq::<char>::empty());
        assert(rfind(u, '\n') == t.len());
    } else {
        assert(u.drop_last() =~= t);
        assert(rfind(u, '\n') == rfind(t, '\n'));
        let i = rfind(t, '\n');
        if i >= 0 {
            assert(u.take(i) =~= t.take(i));
            assert(u.skip(i + 1) =~= t.skip(i + 1).push(c));
        } else {
            assert(split_lines(u) =~= seq![u]);
        }
    }
    if rfind(t, '\n') >= 0 {
        assert(split_lines(t).len() == split_lines(t.take(rfind(t, '\n'))).len() + 1);
    }
}

/// The page names listed in the output of `unrar lb`, in listing order.
pub fn parse_rar_listing(listing: &str) -> (pages: Vec<String>)
    ensures
        pages@.map_values(|p: String| p@) == listing_pages(split_lines(listing@)),
{
    let cs = chars_of(listing);
    let mut pages: Vec<String> = Vec::new();
    let mut line: Vec<char> = Vec::new();
    let ghost mut done: Seq<Seq<char>> = Seq::empty();
    let mut i: usize = 0;
    assert(cs@.take(0) =~= Seq::<char>::empty());
    assert(split_lines(Seq::<char>::empty()) =~= seq![Seq::<char>::empty()]) by {
        crate::paths::lemma_rfind(Seq::<char>::empty(), '\n');
    }
    while i < cs.len()
        invariant
            i <= cs@.len(),
            cs@ == listing@,
            split_lines(cs@.take(i as int)) == done.push(line@),
            pages@.map_values(|p: String| p@) == listing_pages(done),
        decreases cs@.len() - i,
    {
        let c = cs[i];
        proof {
            assert(cs@.take(i + 1) =~= cs@.take(i as int).push(c));
            lemma_split_lines_push(cs@.take(i as int), c);
        }
        if c == '\n' {
            let t = trim(line.as_slice());
            let ghost before = pages@;
            if is_listing_page(t.as_slice()) {
                pages.push(string_of(t.as_slice()));
                proof {
                    assert(pages@.map_values(|p: String| p@) =~= before.map_values(|p: String| p@).push(t@));
                }
            }
            proof {
                let nd = done.push(line@);
                assert(nd.drop_last() =~= done);
                assert(listing_pages(nd) == if listing_page(trim_spec(line@)) {
                    listing_pages(done).push(trim_spec(line@))
                } else {
                    listing_pages(done)
                });
                done = nd;
            }
            line = Vec::new();
            assert(split_lines(cs@.take(i + 1)) =~= done.push(line@));
        } else {
            line.push(c);
            assert(split_lines(cs@.take(i + 1)) =~= done.push(line@));
        }
        i += 1;
    }
    assert(cs@.take(i as int) =~= cs@);
    let t = trim(line.as_slice());
    let ghost before = pages@;
    if is_listing_page(t.as_slice()) {
        pages.push(string_of(t.as_slice()));
        proof {
            assert(pages@.map_values(|p: String| p@) =~= before.map_values(|p: String| p@).push(t@));
        }
    }
    proof {
        let nd = done.push(line@);
        assert(nd.drop_last() =~= done);
    }
    pages
}


/// The lower-cased extension of a path, empty when it has none.
pub open spec fn ext_lower(path: Seq<char>) -> Seq<char> {
    match extension_spec(path) {
        Some(e) => ascii_lower_seq(e),
        None => Seq::empty(),
    }
}

/// The archive kind of an extension: cbz and zip are zip archives, cbr and rar
/// are rar archives.
pub open spec fn kind_of_ext(ext: Seq<char>) -> Option<ArchiveKind> {
    if ext == seq!['c', 'b', 'z'] || ext == seq!['z', 'i', 'p'] {
        Some(ArchiveKind::Cbz)
    } else if ext == seq!['c', 'b', 'r'] || ext == seq!['r', 'a', 'r'] {
        Some(ArchiveKind::Cbr)
    } else {
        None
    }
}

pub(crate) fn lower_extension(path: &str) -> (r: Vec<char>)
    ensures
        r@ == ext_lower(path@),
{
    let cs = chars_of(path);
    match extension(cs.as_slice()) {
        Some(e) => ascii_lowercase(e.as_slice()),
        None => Vec::new(),
    }
}

/// The kind of archive a path names, by its extension.
pub fn archive_kind_for(path: &str) -> (r: Result<ArchiveKind, ArchiveError>)
    ensures
        kind_of_ext(ext_lower(path@)) matches Some(k) ==> r == Ok::<ArchiveKind, ArchiveError>(k),
        kind_of_ext(ext_lower(path@)) is None ==> (r matches Err(ArchiveError::Unsupported(e))
            && e@ == ext_lower(path@)),
{
    let ext = lower_extension(path);
    let cbz = ['c', 'b', 'z'];
    let zip = ['z', 'i', 'p'];
    let cbr = ['c', 'b', 'r'];
    let rar = ['r', 'a', 'r'];
    assert(cbz@ =~= seq!['c', 'b', 'z'] && zip@ =~= seq!['z', 'i', 'p']);
    assert(cbr@ =~= seq!['c', 'b', 'r'] && rar@ =~= seq!['r', 'a', 'r']);
    if eq_chars(ext.as_slice(), &cbz) || eq_chars(ext.as_slice(), &zip) {
        Ok(ArchiveKind::Cbz)
    } else if eq_chars(ext.as_slice(), &cbr) || eq_chars(ext.as_slice(), &rar) {
        Ok(ArchiveKind::Cbr)
    } else {
        Err(ArchiveError::Unsupported(string_of(ext.as_slice())))
    }
}

/// `p` starts a `/`-separated component of `s` at position `i`.
pub open spec fn component_starts_at(s: Seq<char>, p: Seq<char>, i: int) -> bool {
    (i == 0 || (0 < i <= s.len() && s[i - 1] == '/')) && occurs_at(s, p, i)
}

/// Some `/`-separated component of `s` starts with `p`.
pub open spec fn component_starts_with(s: Seq<char>, p: Seq<char>) -> bool {
    exists|i: int| component_starts_at(s, p, i)
}

/// Under GVFS (`/gvfs/`, or `/run/user/` together with `gvfs`), or with a
/// component that starts with `sftp:`, `smb:` or `ftp:`.
pub open spec fn is_remote_spec(s: Seq<char>) -> bool {
    ||| contains_seq(s, seq!['/', 'g', 'v', 'f', 's', '/'])
    ||| (contains_seq(s, seq!['/', 'r', 'u', 'n', '/', 'u', 's', 'e', 'r', '/']) && contains_seq(
        s,
        seq!['g', 'v', 'f', 's'],
    ))
    ||| component_starts_with(s, seq!['s', 'f', 't', 'p', ':'])
    ||| component_starts_with(s, seq!['s', 'm', 'b', ':'])
    ||| component_starts_with(s, seq!['f', 't', 'p', ':'])
}

fn component_prefix(cs: &[char], p: &[char]) -> (r: bool)
    ensures
        r == component_starts_with(cs@, p@),
{
    let mut i: usize = 0;
    while i < cs.len()
        invariant
            i <= cs@.len(),
            forall|j: int| 0 <= j < i ==> !component_starts_at(cs@, p@, j),
        decreases cs@.len() - i,
    {
        if (i == 0 || cs[i - 1] == '/') && occurs_at_exec(cs, p, i) {
            assert(component_starts_at(cs@, p@, i as int));
            return true;
        }
        i += 1;
    }
    if (i == 0 || cs[i - 1] == '/') && occurs_at_exec(cs, p, i) {
        assert(component_starts_at(cs@, p@, i as int));
        return true;
    }
    assert forall|j: int| !component_starts_at(cs@, p@, j) by {
        if j > cs@.len() {
            assert(!occurs_at(cs@, p@, j));
        }
    }
    false
}

/// True when the path is under GVFS or looks non-local (SFTP, smb, ftp).
pub fn is_remote_or_gvfs(path: &str) -> (r: bool)
    ensures
        r == is_remote_spec(path@),
{
    let cs = chars_of(path);
    let gvfs_dir = ['/', 'g', 'v', 'f', 's', '/'];
    let run_user = ['/', 'r', 'u', 'n', '/', 'u', 's', 'e', 'r', '/'];
    let gvfs = ['g', 'v', 'f', 's'];
    let sftp = ['s', 'f', 't', 'p', ':'];
    let smb = ['s', 'm', 'b', ':'];
    let ftp = ['f', 't', 'p', ':'];
    assert(gvfs_dir@ =~= seq!['/', 'g', 'v', 'f', 's', '/']);
    assert(run_user@ =~= seq!['/', 'r', 'u', 'n', '/', 'u', 's', 'e', 'r', '/']);
    assert(gvfs@ =~= seq!['g', 'v', 'f', 's']);
    assert(sftp@ =~= seq!['s', 'f', 't', 'p', ':']);
    assert(smb@ =~= seq!['s', 'm', 'b', ':']);
    assert(ftp@ =~= seq!['f', 't', 'p', ':']);
    if contains(cs.as_slice(), &gvfs_dir) || (contains(cs.as_slice(), &run_user) && contains(
        cs.as_slice(),
        &gvfs,
    )) {
        return true;
    }
    component_prefix(cs.as_slice(), &sftp) || component_prefix(cs.as_slice(), &smb)
        || component_prefix(cs.as_slice(), &ftp)
}

/// Size and modification time of a file, as the application read them.
#[derive(Clone, Copy, Debug, PartialEq, Eq)]
pub struct FileStamp {
    pub len: u64,
    /// Seconds and nanoseconds since the Unix epoch, when known.
    pub modified: Option<(u64, u32)>,
}

/// The bytes hashed for a cache key: the path, then when the file could be
/// read its length and, when known, its modification time (all little endian).
pub open spec fn stamp_bytes(path_bytes: Seq<u8>, stamp: Option<FileStamp>) -> Seq<u8> {
    match stamp {
        None => path_bytes,
        Some(st) => path_bytes + vstd::bytes::spec_u64_to_le_bytes(st.len) + match st.modified {
            Some((secs, nanos)) => vstd::bytes::spec_u64_to_le_bytes(secs)
                + vstd::bytes::spec_u32_to_le_bytes(nanos),
            None => Seq::empty(),
        },
    }
}

/// The bytes hashed for a content key: the path, then when the file could be
/// read its length and, when known, its modification time in whole seconds
/// (all little endian).
pub open spec fn content_stamp_bytes(path_bytes: Seq<u8>, stamp: Option<FileStamp>) -> Seq<u8> {
    match stamp {
        None => path_bytes,
        Some(st) => path_bytes + vstd::bytes::spec_u64_to_le_bytes(st.len) + match st.modified {
            Some((secs, nanos)) => vstd::bytes::spec_u64_to_le_bytes(secs),
            None => Seq::empty(),
        },
    }
}

/// The content key of a file: the hex SHA-256 of its path and stamp.
pub open spec fn content_hash_spec(path: &str, stamp: Option<FileStamp>) -> Seq<char> {
    hex_lower_spec(sha256_spec(content_stamp_bytes(path.spec_bytes(), stamp)))
}

/// Content key of a file from its path and stamp.
pub fn content_hash(path: &str, stamp: Option<FileStamp>) -> (key: String)
    ensures
        key@ == content_hash_spec(path, stamp),
{
    let mut bytes: Vec<u8> = path.as_bytes_vec();
    match stamp {
        None => {},
        Some(st) => {
            let mut l = vstd::bytes::u64_to_le_bytes(st.len);
            bytes.append(&mut l);
            match st.modified {
                Some((secs, _nanos)) => {
                    let mut s = vstd::bytes::u64_to_le_bytes(secs);
                    bytes.append(&mut s);
                },
                None => {},
            }
        },
    }
    assert(bytes@ =~= content_stamp_bytes(path.spec_bytes(), stamp));
    let digest = sha256(bytes.as_slice());
    hex_encode(digest.as_slice())
}

/// The extension kept on a cached copy: the lower-cased extension, else `bin`.
pub open spec fn cache_ext(path: Seq<char>) -> Seq<char> {
    match extension_spec(path) {
        Some(e) => ascii_lower_seq(e),
        None => seq!['b', 'i', 'n'],
    }
}

/// File name of the local cache copy of a remote archive: the hex SHA-256 of
/// its path and stamp, then the extension.
pub open spec fn archive_cache_key_spec(path: &str, stamp: Option<FileStamp>) -> Seq<char> {
    hex_lower_spec(sha256_spec(stamp_bytes(path.spec_bytes(), stamp))) + seq!['.'] + cache_ext(
        path@,
    )
}

/// Cache file name for a remote archive.
pub fn archive_cache_key(path: &str, stamp: Option<FileStamp>) -> (key: String)
    ensures
        key@ == archive_cache_key_spec(path, stamp),
{
    let mut bytes: Vec<u8> = path.as_bytes_vec();
    match stamp {
        None => {},
        Some(st) => {
            let mut l = vstd::bytes::u64_to_le_bytes(st.len);
            bytes.append(&mut l);
            match st.modified {
                Some((secs, nanos)) => {
                    let mut s = vstd::bytes::u64_to_le_bytes(secs);
                    let mut n = vstd::bytes::u32_to_le_bytes(nanos);
                    bytes.append(&mut s);
                    bytes.append(&mut n);
                },
                None => {},
            }
        },
    }
    assert(bytes@ =~= stamp_bytes(path.spec_bytes(), stamp));
    let digest = sha256(bytes.as_slice());
    let hex = hex_encode(digest.as_slice());
    let mut out = chars_of(hex.as_str());
    out.push('.');
    let cs = chars_of(path);
    match extension(cs.as_slice()) {
        Some(e) => {
            let low = ascii_lowercase(e.as_slice());
            extend_chars(&mut out, low.as_slice());
        },
        None => {
            let bin = ['b', 'i', 'n'];
            assert(bin@ =~= seq!['b', 'i', 'n']);
            extend_chars(&mut out, &bin);
        },
    }
    string_of(out.as_slice())
}

/// `archives`.
pub open spec fn archives_seg() -> Seq<char> {
    seq!['a', 'r', 'c', 'h', 'i', 'v', 'e', 's']
}

/// Where copies of remote archives are kept: `archives` in the cache
/// directory.
pub fn archive_cache_root() -> (r: String)
    ensures
        exists|found: Option<Seq<char>>| found_dir(found) && r@ == join_spec(or_fallback(found, fallback_cache()), archives_seg()),
{
    let c = cache_dir();
    let seg = ['a', 'r', 'c', 'h', 'i', 'v', 'e', 's'];
    assert(seg@ =~= archives_seg());
    let r = join_text(c.as_str(), &seg);
    proof {
        let f = choose|found: Option<Seq<char>>| found_dir(found) && c@ == or_fallback(found, fallback_cache());
        assert(r@ == join_spec(or_fallback(f, fallback_cache()), archives_seg()));
    }
    r
}

/// The cached copy of a remote archive, and the file it is copied into
/// before it is complete: its cache key, and the key with the extension
/// `partial` in place of the archive's, both in `archive_root`.
pub fn archive_cache_paths(archive_root: &str, path: &str, stamp: Option<FileStamp>) -> (r: (String, String))
    ensures
        r.0@ == join_spec(archive_root@, archive_cache_key_spec(path, stamp)),
        r.1@ == join_spec(archive_root@, hex_lower_spec(sha256_spec(stamp_bytes(path.spec_bytes(), stamp)))
            + seq!['.', 'p', 'a', 'r', 't', 'i', 'a', 'l']),
{
    let key = archive_cache_key(path, stamp);
    let kc = chars_of(key.as_str());
    let dest = join_text(archive_root, kc.as_slice());
    let ghost hex = hex_lower_spec(sha256_spec(stamp_bytes(path.spec_bytes(), stamp)));
    proof {
        crate::digest::lemma_hex_len(sha256_spec(stamp_bytes(path.spec_bytes(), stamp)));
    }
    let n = kc.len() - cache_ext_len(path);
    let mut partial = crate::paths::slice_vec(kc.as_slice(), 0, n);
    let ext = ['p', 'a', 'r', 't', 'i', 'a', 'l'];
    extend_chars(&mut partial, &ext);
    proof {
        assert(kc@ == hex + seq!['.'] + cache_ext(path@));
        assert(kc@.subrange(0, n as int) =~= hex + seq!['.']);
        assert(partial@ =~= hex + seq!['.', 'p', 'a', 'r', 't', 'i', 'a', 'l']);
    }
    (dest, join_text(archive_root, partial.as_slice()))
}

fn cache_ext_len(path: &str) -> (n: usize)
    ensures
        n == cache_ext(path@).len(),
{
    match extension(chars_of(path).as_slice()) {
        Some(e) => {
            let low = ascii_lowercase(e.as_slice());
            low.len()
        },
        None => 3,
    }
}

/// How to find out whether a path exists without hanging on a stuck network
/// mount.
#[derive(Clone, Copy, Debug, PartialEq, Eq, Structural)]
pub enum Probe {
    /// Do not look: the path is empty.
    Skip,
    /// Look directly: the path is local.
    Direct,
    /// Look from a helper thread and give up after this many seconds: the
    /// path is remote.
    Timed(u64),
}

/// How long to wait for a look at a remote archive, in seconds.
pub const REMOTE_FILE_PROBE_SECS: u64 = 8;

/// How to check that an archive is a file: directly when local, else with a
/// time limit of `REMOTE_FILE_PROBE_SECS`.
pub fn file_probe(path: &str) -> (r: Probe)
    ensures
        r == (if is_remote_spec(path@) { Probe::Timed(REMOTE_FILE_PROBE_SECS) } else { Probe::Direct }),
{
    if is_remote_or_gvfs(path) {
        Probe::Timed(REMOTE_FILE_PROBE_SECS)
    } else {
        Probe::Direct
    }
}

/// Where the readable copy of an archive comes from.
#[derive(Clone, Copy, Debug, PartialEq, Eq, Structural)]
pub enum LocalSource {
    /// A local archive is read in place.
    InPlace,
    /// The cached copy matches the remote source in size.
    Cached,
    /// The remote source cannot be examined; a non-empty cached copy is used.
    CachedSourceOffline,
    /// The archive must be copied into the cache first.
    CopyToCache,
}

/// Decide how a possibly remote archive is read: remote archives use a cached
/// copy when one of the same (non-zero) size exists, or a non-empty one when
/// the source cannot be examined; otherwise they are copied.
pub fn choose_local_source(
    remote: bool,
    cache_is_file: bool,
    source_len: Option<u64>,
    cache_len: Option<u64>,
) -> (r: LocalSource)
    ensures
        !remote ==> r == LocalSource::InPlace,
        remote && cache_is_file && source_len is Some && cache_len is Some ==> r == (if source_len
            == cache_len && cache_len.unwrap() > 0 {
            LocalSource::Cached
        } else {
            LocalSource::CopyToCache
        }),
        remote && cache_is_file && !(source_len is Some && cache_len is Some) ==> r == (
        if cache_len matches Some(n) && n > 0 {
            LocalSource::CachedSourceOffline
        } else {
            LocalSource::CopyToCache
        }),
        remote && !cache_is_file ==> r == LocalSource::CopyToCache,
{
    if !remote {
        return LocalSource::InPlace;
    }
    if cache_is_file {
        match (source_len, cache_len) {
            (Some(s), Some(d)) => {
                if s == d && d > 0 {
                    return LocalSource::Cached;
                }
            },
            _ => {
                if let Some(d) = cache_len {
                    if d > 0 {
                        return LocalSource::CachedSourceOffline;
                    }
                }
            },
        }
    }
    LocalSource::CopyToCache
}

/// The arguments of `timeout` that run `unrar` with `args` on `archive` (and
/// one `entry`), limited to `timeout_secs` seconds.
pub open spec fn unrar_argv_spec(
    args: Seq<Seq<char>>,
    archive: Seq<char>,
    entry: Option<Seq<char>>,
    timeout_secs: u64,
) -> Seq<Seq<char>> {
    seq![decimal_spec(timeout_secs as nat).push('s'), seq!['u', 'n', 'r', 'a', 'r']] + args + seq![archive]
        + match entry {
        Some(e) => seq![e],
        None => Seq::empty(),
    }
}

/// Command-line arguments for `timeout` running `unrar`.
pub fn unrar_argv(args: &[&str], archive: &str, entry: Option<&str>, timeout_secs: u64) -> (argv: Vec<
    String,
>)
    ensures
        argv@.map_values(|a: String| a@) == unrar_argv_spec(
            args@.map_values(|a: &str| a@),
            archive@,
            match entry {
                Some(e) => Some(e@),
                None => None,
            },
            timeout_secs,
        ),
{
    let mut argv: Vec<String> = Vec::new();
    let mut t = decimal(timeout_secs);
    t.push('s');
    argv.push(string_of(t.as_slice()));
    let unrar = ['u', 'n', 'r', 'a', 'r'];
    argv.push(string_of(&unrar));
    let mut i: usize = 0;
    while i < args.len()
        invariant
            i <= args@.len(),
            argv@.len() == 2 + i,
            argv@[0]@ == decimal_spec(timeout_secs as nat).push('s'),
            argv@[1]@ == unrar@,
            forall|k: int| 0 <= k < i ==> argv@[2 + k]@ == args@[k]@,
        decreases args@.len() - i,
    {
        argv.push(string_of(chars_of(args[i]).as_slice()));
        i += 1;
    }
    argv.push(string_of(chars_of(archive).as_slice()));
    match entry {
        Some(e) => argv.push(string_of(chars_of(e).as_slice())),
        None => {},
    }
    proof {
        let want = unrar_argv_spec(
            args@.map_values(|a: &str| a@),
            archive@,
            match entry {
                Some(e) => Some(e@),
                None => None,
            },
            timeout_secs,
        );
        assert(unrar@ =~= seq!['u', 'n', 'r', 'a', 'r']);
        assert(argv@.map_values(|a: String| a@) =~= want);
    }
    argv
}


/// The arguments of `unrar p` (print one entry), without messages or password prompts.
pub open spec fn print_args() -> Seq<Seq<char>> {
    seq![seq!['p'], seq!['-', 'i', 'n', 'u', 'l'], seq!['-', 'p', '-']]
}

/// The arguments of `unrar lb` (bare listing), without password prompts.
pub open spec fn list_args() -> Seq<Seq<char>> {
    seq![seq!['l', 'b'], seq!['-', 'p', '-']]
}

/// Where the bytes of one page are read from.
#[derive(Clone, Debug, PartialEq, Eq)]
pub enum PageSource {
    /// The entry `name` of the zip file at `archive`.
    ZipEntry { archive: String, name: String },
    /// The standard output of `timeout` run with `argv`.
    Unrar { argv: Vec<String> },
}

impl ComicArchive {
    /// How page `index` is read: the zip entry of that name in the local
    /// copy, or `unrar p` on it limited to `UNRAR_PAGE_TIMEOUT_SECS`; an
    /// error past the last page.
    pub fn page_source(&self, index: usize) -> (r: Result<PageSource, ArchiveError>)
        ensures
            index >= self.pages@.len() ==> r == Err::<PageSource, ArchiveError>(
                ArchiveError::PageOutOfRange(index),
            ),
            index < self.pages@.len() && self.kind == ArchiveKind::Cbz ==> (r matches Ok(
                PageSource::ZipEntry { archive, name },
            ) && archive@ == self.local_path@ && name@ == self.pages@[index as int]@),
            index < self.pages@.len() && self.kind == ArchiveKind::Cbr ==> (r matches Ok(
                PageSource::Unrar { argv },
            ) && texts(argv@) == unrar_argv_spec(
                print_args(),
                self.local_path@,
                Some(self.pages@[index as int]@),
                UNRAR_PAGE_TIMEOUT_SECS,
            )),
    {
        let name = match self.page_entry(index) {
            Ok(n) => n,
            Err(e) => {
                return Err(e);
            },
        };
        match self.kind {
            ArchiveKind::Cbz => {
                let archive = string_of(chars_of(self.local_path.as_str()).as_slice());
                Ok(PageSource::ZipEntry { archive, name })
            },
            ArchiveKind::Cbr => {
                let args = ["p", "-inul", "-p-"];
                proof {
                    reveal_strlit("p");
                    reveal_strlit("-inul");
                    reveal_strlit("-p-");
                    assert(args@.len() == 3);
                    assert(args@[0]@ =~= seq!['p']);
                    assert(args@[1]@ =~= seq!['-', 'i', 'n', 'u', 'l']);
                    assert(args@[2]@ =~= seq!['-', 'p', '-']);
                    assert(args@.map_values(|a: &str| a@) =~= print_args());
                }
                let argv = unrar_argv(&args, self.local_path.as_str(), Some(name.as_str()),
                    UNRAR_PAGE_TIMEOUT_SECS);
                Ok(PageSource::Unrar { argv })
            },
        }
    }
}

/// The arguments of `timeout` that list the entries of the rar file at
/// `local_path` with `unrar lb`, limited to `UNRAR_LIST_TIMEOUT_SECS`.
pub fn list_argv(local_path: &str) -> (argv: Vec<String>)
    ensures
        texts(argv@) == unrar_argv_spec(list_args(), local_path@, None, UNRAR_LIST_TIMEOUT_SECS),
{
    let args = ["lb", "-p-"];
    proof {
        reveal_strlit("lb");
        reveal_strlit("-p-");
        assert(args@.len() == 2);
        assert(args@[0]@ =~= seq!['l', 'b']);
        assert(args@[1]@ =~= seq!['-', 'p', '-']);
        assert(args@.map_values(|a: &str| a@) =~= list_args());
    }
    unrar_argv(&args, local_path, None, UNRAR_LIST_TIMEOUT_SECS)
}

/// Why a run of `unrar` failed.
#[derive(Clone, Copy, Debug, PartialEq, Eq, Structural)]
pub enum UnrarFailure {
    /// `timeout` stopped it (exit code 124) after this many seconds.
    TimedOut(u64),
    /// It did not succeed, or printed nothing where a page was wanted.
    Failed,
}

/// Judge a finished run of `unrar` under `timeout`: exit code 124 means it
/// was stopped; otherwise it must have succeeded, and when `need_output`
/// (printing a page) it must have printed something.
pub fn check_unrar_run(
    code: Option<i32>,
    success: bool,
    stdout_len: usize,
    need_output: bool,
    timeout_secs: u64,
) -> (r: Result<(), UnrarFailure>)
    ensures
        code == Some(124i32) ==> r == Err::<(), UnrarFailure>(UnrarFailure::TimedOut(timeout_secs)),
        code != Some(124i32) && (!success || (need_output && stdout_len == 0)) ==> r == Err::<
            (),
            UnrarFailure,
        >(UnrarFailure::Failed),
        code != Some(124i32) && success && !(need_output && stdout_len == 0) ==> r == Ok::<
            (),
            UnrarFailure,
        >(()),
{
    if code == Some(124i32) {
        return Err(UnrarFailure::TimedOut(timeout_secs));
    }
    if !success || (need_output && stdout_len == 0) {
        return Err(UnrarFailure::Failed);
    }
    Ok(())
}

} // verus!
