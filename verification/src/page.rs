//! Page images and the panel cache: content keys, cache file names, which
//! cached layout is current, and merging a freshly detected page into it.
use vstd::prelude::*;
use std::collections::HashMap;
use crate::panel::PanelRect;
use crate::segment::{detect_panels, segment_spec, DETECT_VERSION};
use crate::archive::{content_hash, content_hash_spec, eq_chars, FileStamp};
use crate::dirs::{found_dir, cache_dir, fallback_cache, join_text, or_fallback};
use crate::paths::{file_stem, file_stem_spec, join_spec};
use crate::seqs::isort;
use crate::text::{chars_of, extend_chars, string_of};

verus! {

broadcast use vstd::std_specs::hash::group_hash_axioms;

/// The panels found on one page of a comic.
#[derive(Clone, Debug)]
pub struct PagePanels {
    pub page_index: usize,
    pub width: u32,
    pub height: u32,
    pub panels: Vec<PanelRect>,
}

/// What a cached page says, as plain values.
pub struct PageView {
    pub page_index: usize,
    pub width: u32,
    pub height: u32,
    pub panels: Seq<PanelRect>,
}

impl View for PagePanels {
    type V = PageView;

    open spec fn view(&self) -> PageView {
        PageView {
            page_index: self.page_index,
            width: self.width,
            height: self.height,
            panels: self.panels@,
        }
    }
}

/// The views of cached pages.
pub open spec fn page_views(v: Seq<PagePanels>) -> Seq<PageView> {
    v.map_values(|p: PagePanels| p@)
}

/// The panel cache of one comic: detector version, content key of the archive,
/// and the pages detected so far.
#[derive(Clone, Debug)]
pub struct PanelCacheFile {
    pub version: u32,
    pub archive_hash: String,
    pub pages: Vec<PagePanels>,
}

/// Content key of an archive from its path and stamp (size and modification
/// time, which the caller read).
pub fn archive_content_hash(path: &str, stamp: FileStamp) -> (r: String)
    ensures
        r@ == content_hash_spec(path, Some(stamp)),
{
    content_hash(path, Some(stamp))
}

/// `.manga-reel.json`.
pub open spec fn sidecar_suffix() -> Seq<char> {
    seq!['.', 'm', 'a', 'n', 'g', 'a', '-', 'r', 'e', 'e', 'l', '.', 'j', 's', 'o', 'n']
}

/// The panel cache kept next to a comic: its path with `.manga-reel.json` added.
pub fn sidecar_path(comic: &str) -> (r: String)
    ensures
        r@ == comic@ + sidecar_suffix(),
{
    let mut v = chars_of(comic);
    let suffix = ['.', 'm', 'a', 'n', 'g', 'a', '-', 'r', 'e', 'e', 'l', '.', 'j', 's', 'o', 'n'];
    assert(suffix@ =~= sidecar_suffix());
    extend_chars(&mut v, &suffix);
    string_of(v.as_slice())
}

/// `comic`, the stem used for a comic without one.
pub open spec fn default_stem() -> Seq<char> {
    seq!['c', 'o', 'm', 'i', 'c']
}

/// `.panels.json`.
pub open spec fn panels_suffix() -> Seq<char> {
    seq!['.', 'p', 'a', 'n', 'e', 'l', 's', '.', 'j', 's', 'o', 'n']
}

/// The name of a comic's panel cache in the cache directory:
/// `<stem>-<hash>.panels.json`.
pub open spec fn panel_cache_name_spec(comic: Seq<char>, hash: Seq<char>) -> Seq<char> {
    let stem = match file_stem_spec(comic) {
        Some(s) => s,
        None => default_stem(),
    };
    stem + seq!['-'] + hash + panels_suffix()
}

/// The name of a comic's panel cache in the cache directory.
pub fn panel_cache_name(comic: &str, hash: &str) -> (r: String)
    ensures
        r@ == panel_cache_name_spec(comic@, hash@),
{
    let mut v: Vec<char> = match file_stem(chars_of(comic).as_slice()) {
        Some(s) => s,
        None => {
            let d = vec!['c', 'o', 'm', 'i', 'c'];
            assert(d@ =~= default_stem());
            d
        },
    };
    v.push('-');
    extend_chars(&mut v, chars_of(hash).as_slice());
    let suffix = ['.', 'p', 'a', 'n', 'e', 'l', 's', '.', 'j', 's', 'o', 'n'];
    assert(suffix@ =~= panels_suffix());
    extend_chars(&mut v, &suffix);
    assert(v@ =~= panel_cache_name_spec(comic@, hash@));
    string_of(v.as_slice())
}

/// The panel cache of a comic in the cache directory.
pub fn cache_dir_path(comic: &str, hash: &str) -> (r: String)
    ensures
        exists|found: Option<Seq<char>>|
            found_dir(found) && r@ == join_spec(or_fallback(found, fallback_cache()), panel_cache_name_spec(comic@, hash@)),
{
    let base = cache_dir();
    let name = panel_cache_name(comic, hash);
    let r = join_text(base.as_str(), chars_of(name.as_str()).as_slice());
    proof {
        let f = choose|found: Option<Seq<char>>| found_dir(found) && base@ == or_fallback(found, fallback_cache());
        assert(r@ == join_spec(or_fallback(f, fallback_cache()), panel_cache_name_spec(comic@, hash@)));
    }
    r
}

/// Where a comic's panel cache is looked for, in order: beside the comic,
/// then in the cache directory.
pub fn panel_cache_locations(comic: &str, hash: &str) -> (r: Vec<String>)
    ensures
        r@.len() == 2,
        r@[0]@ == comic@ + sidecar_suffix(),
        exists|found: Option<Seq<char>>|
            found_dir(found) && r@[1]@ == join_spec(or_fallback(found, fallback_cache()), panel_cache_name_spec(comic@, hash@)),
{
    let mut r: Vec<String> = Vec::new();
    r.push(sidecar_path(comic));
    r.push(cache_dir_path(comic, hash));
    r
}

/// Where a comic's panel cache is written, in order of preference: beside
/// the comic when that is preferred, and in the cache directory when that
/// fails or is not preferred.
pub fn panel_cache_targets(comic: &str, hash: &str, prefer_sidecar: bool) -> (r: Vec<String>)
    ensures
        r@.len() == if prefer_sidecar { 2int } else { 1int },
        prefer_sidecar ==> r@[0]@ == comic@ + sidecar_suffix(),
        exists|found: Option<Seq<char>>|
            found_dir(found) && r@.last()@ == join_spec(or_fallback(found, fallback_cache()), panel_cache_name_spec(comic@, hash@)),
{
    let mut r: Vec<String> = Vec::new();
    if prefer_sidecar {
        r.push(sidecar_path(comic));
    }
    r.push(cache_dir_path(comic, hash));
    r
}

/// A cache is current when it was written by this detector for this content.
pub open spec fn is_current(cache: PanelCacheFile, hash: Seq<char>) -> bool {
    cache.archive_hash@ == hash && cache.version == DETECT_VERSION
}

/// Whether a loaded cache can be used for an archive with content key `hash`.
pub fn cache_is_current(cache: &PanelCacheFile, hash: &str) -> (r: bool)
    ensures
        r == is_current(*cache, hash@),
{
    cache.version == DETECT_VERSION && eq_chars(
        chars_of(cache.archive_hash.as_str()).as_slice(),
        chars_of(hash).as_slice(),
    )
}

/// The first current cache among the candidates, in order (the sidecar first,
/// then the one in the cache directory); candidates that could not be read or
/// parsed are `None`.
pub open spec fn first_current(candidates: Seq<Option<PanelCacheFile>>, hash: Seq<char>) -> Option<int>
    decreases candidates.len(),
{
    if candidates.len() == 0 {
        None
    } else {
        match first_current(candidates.drop_last(), hash) {
            Some(i) => Some(i),
            None => if candidates.last() matches Some(c) && is_current(c, hash) {
                Some(candidates.len() - 1)
            } else {
                None
            },
        }
    }
}

/// Pick the panel cache to use from the candidates that were read.
pub fn pick_panel_cache(candidates: Vec<Option<PanelCacheFile>>, hash: &str) -> (r: Option<PanelCacheFile>)
    ensures
        first_current(candidates@, hash@) matches Some(i) ==> r == candidates@[i],
        first_current(candidates@, hash@) is None ==> r is None,
{
    let ghost all = candidates@;
    let mut rest = candidates;
    let mut i: usize = 0;
    let n = rest.len();
    proof {
        assert(all.take(0) =~= Seq::<Option<PanelCacheFile>>::empty());
    }
    while i < n
        invariant
            n == all.len(),
            all == candidates@,
            i <= n,
            rest@.len() == n - i,
            forall|k: int| 0 <= k < rest@.len() ==> rest@[k] == all[i + k],
            first_current(all.take(i as int), hash@) is None,
        decreases n - i,
    {
        let c = rest.remove(0);
        proof {
            assert(all.take(i + 1).drop_last() =~= all.take(i as int));
            assert(c == all[i as int]);
        }
        match c {
            Some(cache) => {
                if cache_is_current(&cache, hash) {
                    proof {
                        assert(all.take(i + 1).last() == all[i as int]);
                        assert(first_current(all.take(i + 1), hash@) == Some(i as int));
                        lemma_first_current_prefix(all, i as int + 1, hash@);
                        assert(first_current(all, hash@) == Some(i as int));
                    }
                    return Some(cache);
                }
            },
            None => {},
        }
        i += 1;
    }
    proof {
        assert(all.take(n as int) =~= all);
    }
    None
}

proof fn lemma_first_current_prefix(s: Seq<Option<PanelCacheFile>>, j: int, hash: Seq<char>)
    requires
        0 < j <= s.len(),
        first_current(s.take(j), hash) == Some(j - 1),
    ensures
        first_current(s, hash) == Some(j - 1),
    decreases s.len(),
{
    if j == s.len() {
        assert(s.take(j) =~= s);
    } else {
        assert(s.drop_last().take(j) =~= s.take(j));
        lemma_first_current_prefix(s.drop_last(), j, hash);
    }
}

/// Index of the first cached page for page `page`.
pub open spec fn find_page(pages: Seq<PageView>, page: usize) -> Option<int>
    decreases pages.len(),
{
    if pages.len() == 0 {
        None
    } else {
        match find_page(pages.drop_last(), page) {
            Some(i) => Some(i),
            None => if pages.last().page_index == page {
                Some(pages.len() - 1)
            } else {
                None
            },
        }
    }
}

proof fn lemma_find_page_prefix(s: Seq<PageView>, j: int, page: usize)
    requires
        0 <= j <= s.len(),
        find_page(s.take(j), page) is Some,
    ensures
        find_page(s, page) == find_page(s.take(j), page),
    decreases s.len(),
{
    if j == s.len() {
        assert(s.take(j) =~= s);
    } else {
        assert(s.drop_last().take(j) =~= s.take(j));
        lemma_find_page_prefix(s.drop_last(), j, page);
    }
}

fn copy_panels(v: &Vec<PanelRect>) -> (r: Vec<PanelRect>)
    ensures
        r@ == v@,
{
    let mut r: Vec<PanelRect> = Vec::new();
    let mut i: usize = 0;
    while i < v.len()
        invariant
            i <= v@.len(),
            r@ == v@.take(i as int),
        decreases v@.len() - i,
    {
        r.push(v[i]);
        proof {
            assert(v@.take(i + 1) =~= v@.take(i as int).push(v@[i as int]));
        }
        i += 1;
    }
    assert(v@.take(i as int) =~= v@);
    r
}

/// The cached panels of a page, when the cache has it.
pub fn cached_panels(cache: &PanelCacheFile, page: usize) -> (r: Option<Vec<PanelRect>>)
    ensures
        find_page(page_views(cache.pages@), page) matches Some(i) ==> (r matches Some(v) && v@
            == cache.pages@[i].panels@),
        find_page(page_views(cache.pages@), page) is None ==> r is None,
{
    let ghost pv = page_views(cache.pages@);
    let mut i: usize = 0;
    proof {
        assert(pv.take(0) =~= Seq::<PageView>::empty());
    }
    while i < cache.pages.len()
        invariant
            i <= cache.pages@.len(),
            pv == page_views(cache.pages@),
            find_page(pv.take(i as int), page) is None,
        decreases cache.pages@.len() - i,
    {
        proof {
            assert(pv.take(i + 1).drop_last() =~= pv.take(i as int));
        }
        if cache.pages[i].page_index == page {
            proof {
                lemma_find_page_prefix(pv, i + 1, page);
            }
            return Some(copy_panels(&cache.pages[i].panels));
        }
        i += 1;
    }
    proof {
        assert(pv.take(i as int) =~= pv);
    }
    None
}

/// Cached pages in page order.
pub open spec fn page_order() -> spec_fn(PageView, PageView) -> bool {
    |a: PageView, b: PageView| a.page_index < b.page_index
}

/// The cache a detected page is merged into: the loaded one when current,
/// else an empty one for this content.
pub open spec fn merge_base(cache: Option<PanelCacheFile>, hash: Seq<char>) -> Seq<PageView> {
    match cache {
        Some(c) => if is_current(c, hash) { page_views(c.pages@) } else { Seq::empty() },
        None => Seq::empty(),
    }
}

/// The pages of a cache after merging a detected page: other pages kept, the
/// new one added, all in page order.
pub open spec fn merged_pages(base: Seq<PageView>, entry: PageView) -> Seq<PageView> {
    isort(base.filter(other_page(entry.page_index)).push(entry), page_order())
}

/// Cached pages of another page than `page`.
pub open spec fn other_page(page: usize) -> spec_fn(PageView) -> bool {
    |p: PageView| p.page_index != page
}

/// Insert into pages kept in page order, after pages of equal index.
fn insert_page(r: &mut Vec<PagePanels>, e: PagePanels)
    ensures
        page_views(final(r)@) == crate::seqs::insert_from_end(page_views(old(r)@), e@, page_order()),
{
    let ghost pv = page_views(r@);
    let mut p: usize = r.len();
    while p > 0 && e.page_index < r[p - 1].page_index
        invariant
            p <= r@.len(),
            pv == page_views(r@),
            forall|k: int| p <= k < pv.len() ==> page_order()(e@, #[trigger] pv[k]),
        decreases p,
    {
        p -= 1;
    }
    proof {
        crate::seqs::lemma_insert_from_end_at(pv, e@, page_order(), p as int);
    }
    r.insert(p, e);
    proof {
        assert(page_views(r@) =~= pv.insert(p as int, e@));
    }
}

/// Merge a freshly detected page into the cache to save, for an archive with
/// content key `hash`. A cache that is missing, stale, or for other content
/// starts over empty.
pub fn merge_page(cache: Option<PanelCacheFile>, hash: &str, entry: PagePanels) -> (r: PanelCacheFile)
    ensures
        r.version == DETECT_VERSION,
        r.archive_hash@ == hash@,
        page_views(r.pages@) == merged_pages(merge_base(cache, hash@), entry@),
{
    let ghost base = merge_base(cache, hash@);
    let mut pages: Vec<PagePanels> = match cache {
        Some(c) => if cache_is_current(&c, hash) {
            c.pages
        } else {
            Vec::new()
        },
        None => Vec::new(),
    };
    assert(page_views(pages@) =~= base);
    let ghost keep = other_page(entry.page_index);
    let ghost all = base.filter(keep).push(entry@);
    let mut sorted: Vec<PagePanels> = Vec::new();
    let mut i: usize = 0;
    let n = pages.len();
    proof {
        assert(base.take(0) =~= Seq::<PageView>::empty());
        assert(base.take(0).filter(keep) =~= Seq::<PageView>::empty());
    }
    while i < n
        invariant
            n == base.len(),
            keep == other_page(entry.page_index),
            i <= n,
            pages@.len() == n - i,
            forall|k: int| 0 <= k < pages@.len() ==> (#[trigger] pages@[k])@ == base[i + k],
            page_views(sorted@) == isort(base.take(i as int).filter(keep), page_order()),
        decreases n - i,
    {
        let p = pages.remove(0);
        proof {
            assert(p@ == base[i as int]);
            assert(keep(p@) == (p.page_index != entry.page_index));
            assert(base.take(i + 1) =~= base.take(i as int).push(p@));
            base.take(i as int).lemma_filter_push(p@, keep);
        }
        if p.page_index != entry.page_index {
            proof {
                let f = base.take(i as int).filter(keep);
                assert(base.take(i as int).push(p@).filter(keep) == f.push(p@));
                assert(f.push(p@).drop_last() =~= f);
            }
            insert_page(&mut sorted, p);
        } else {
            proof {
                assert(base.take(i as int).push(p@).filter(keep) == base.take(i as int).filter(keep));
            }
        }
        i += 1;
    }
    proof {
        assert(base.take(n as int) =~= base);
        let f = base.filter(keep);
        assert(all.drop_last() =~= f);
    }
    insert_page(&mut sorted, entry);
    PanelCacheFile {
        version: DETECT_VERSION,
        archive_hash: string_of(chars_of(hash).as_slice()),
        pages: sorted,
    }
}

/// The panels of a cache by page: each cached page, later ones over earlier
/// ones of the same index.
pub open spec fn panels_map_spec(pages: Seq<PageView>) -> Map<usize, Seq<PanelRect>>
    decreases pages.len(),
{
    if pages.len() == 0 {
        Map::empty()
    } else {
        panels_map_spec(pages.drop_last()).insert(pages.last().page_index, pages.last().panels)
    }
}

/// The panels by page of a loaded cache (none when there is no cache).
pub fn load_panels_map(cache: Option<PanelCacheFile>) -> (r: HashMap<usize, Vec<PanelRect>>)
    ensures
        cache is None ==> r@.dom().len() == 0,
        cache matches Some(c) ==> r@.dom() == panels_map_spec(page_views(c.pages@)).dom(),
        cache matches Some(c) ==> forall|k: usize| #[trigger] r@.contains_key(k) ==> r@[k]@
            == panels_map_spec(page_views(c.pages@))[k],
{
    let mut map: HashMap<usize, Vec<PanelRect>> = HashMap::new();
    match cache {
        None => {
            assert(map@.dom() =~= Set::<usize>::empty());
            map
        },
        Some(c) => {
            let ghost pv = page_views(c.pages@);
            let mut pages = c.pages;
            let n = pages.len();
            let mut i: usize = 0;
            proof {
                assert(pv.take(0) =~= Seq::<PageView>::empty());
                assert(map@.dom() =~= Set::<usize>::empty());
            }
            while i < n
                invariant
                    n == pv.len(),
                    i <= n,
                    pages@.len() == n - i,
                    forall|k: int| 0 <= k < pages@.len() ==> (#[trigger] pages@[k])@ == pv[i + k],
                    map@.dom() == panels_map_spec(pv.take(i as int)).dom(),
                    forall|k: usize| #[trigger] map@.contains_key(k) ==> map@[k]@ == panels_map_spec(
                        pv.take(i as int),
                    )[k],
                decreases n - i,
            {
                let p = pages.remove(0);
                proof {
                    assert(p@ == pv[i as int]);
                    assert(pv.take(i + 1).drop_last() =~= pv.take(i as int));
                }
                map.insert(p.page_index, p.panels);
                i += 1;
            }
            proof {
                assert(pv.take(n as int) =~= pv);
            }
            map
        },
    }
}

/// The error of a page image that could not be decoded.
#[verifier::external_type_specification]
#[verifier::external_body]
pub struct ExImageError(image::ImageError);

/// Every decoding of an encoded image that `image::load_from_memory`
/// followed by `to_rgba8` can give, on any machine: width, height and
/// straight RGBA8 pixels. Empty when the bytes do not decode.
pub uninterp spec fn decodings(bytes: Seq<u8>) -> Set<(u32, u32, Seq<u8>)>;

/// The bytes decode as an image.
pub open spec fn decodes(bytes: Seq<u8>) -> bool {
    decodings(bytes) != Set::<(u32, u32, Seq<u8>)>::empty()
}

/// `image::load_from_memory` followed by `to_rgba8`: decodes an encoded image
/// (format guessed from its bytes) into straight RGBA8 pixels. Claimed:
/// whether the bytes decode depends on the bytes alone; a decoded image is one
/// of their decodings (`decodings`) and holds four bytes per pixel,
/// `w * h * 4` in all. Which pixels come out is not stated: decoders pick
/// machine-specific code paths at run time, and nothing in their source
/// promises the same pixels on every machine.
#[verifier::external_body]
fn decode_rgba(bytes: &[u8]) -> (r: Result<(u32, u32, Vec<u8>), image::ImageError>)
    ensures
        r is Ok <==> decodes(bytes@),
        r matches Ok((w, h, px)) ==> decodings(bytes@).contains((w, h, px@)) && px@.len() == w * h * 4,
{
    let img = image::load_from_memory(bytes)?;
    let rgba = img.to_rgba8();
    Ok((rgba.width(), rgba.height(), rgba.into_raw()))
}

/// Why a page's panels could not be found.
#[derive(Clone, Copy, Debug, PartialEq, Eq, Structural)]
pub enum PageError {
    /// The page image does not decode.
    Decode,
}

/// Decode a page image into width, height and straight RGBA8 pixels.
pub fn load_page_rgba(bytes: &[u8]) -> (r: Result<(u32, u32, Vec<u8>), PageError>)
    ensures
        r is Ok <==> decodes(bytes@),
        r is Err ==> r == Err::<(u32, u32, Vec<u8>), PageError>(PageError::Decode),
        r matches Ok((w, h, px)) ==> decodings(bytes@).contains((w, h, px@)) && px@.len() == w * h * 4,
{
    match decode_rgba(bytes) {
        Ok(t) => Ok(t),
        Err(_) => Err(PageError::Decode),
    }
}

/// Detect the panels of a decoded page and merge them into the cache to save.
pub open spec fn detect_result(
    cache: Option<PanelCacheFile>,
    hash: Seq<char>,
    page: usize,
    w: u32,
    h: u32,
    px: Seq<u8>,
) -> (Seq<PanelRect>, Seq<PageView>) {
    let panels = segment_spec(px, w as int, h as int);
    (panels, merged_pages(merge_base(cache, hash), PageView { page_index: page, width: w, height: h, panels }))
}

/// The panels of page `page` decoded as `w` by `h` straight RGBA8 pixels
/// `px`, and the cache to save with that page merged in.
pub fn panels_of_page(
    cache: Option<PanelCacheFile>,
    hash: &str,
    page: usize,
    w: u32,
    h: u32,
    px: &[u8],
) -> (r: (Vec<PanelRect>, PanelCacheFile))
    ensures
        r.0@ == detect_result(cache, hash@, page, w, h, px@).0,
        r.1.version == DETECT_VERSION,
        r.1.archive_hash@ == hash@,
        page_views(r.1.pages@) == detect_result(cache, hash@, page, w, h, px@).1,
{
    let panels = detect_panels(px, w, h);
    let entry = PagePanels { page_index: page, width: w, height: h, panels: copy_panels(&panels) };
    let saved = merge_page(cache, hash, entry);
    (panels, saved)
}

/// Detect the panels of page `page` from its encoded image, and the cache to
/// save with that page merged in (a page already in a current cache is read
/// with `cached_panels` instead). An image that does not decode is an error;
/// otherwise the result is that of `panels_of_page` on one of the page's
/// decodings, whichever the decoder gave.
pub fn detect_page_panels(
    cache: Option<PanelCacheFile>,
    hash: &str,
    page: usize,
    page_bytes: &[u8],
) -> (r: Result<(Vec<PanelRect>, PanelCacheFile), PageError>)
    ensures
        r is Ok <==> decodes(page_bytes@),
        r is Err ==> r == Err::<(Vec<PanelRect>, PanelCacheFile), PageError>(PageError::Decode),
        r matches Ok((panels, saved)) ==> exists|w: u32, h: u32, px: Seq<u8>|
            {
                &&& decodings(page_bytes@).contains((w, h, px))
                &&& px.len() == w * h * 4
                &&& panels@ == #[trigger] detect_result(cache, hash@, page, w, h, px).0
                &&& saved.version == DETECT_VERSION
                &&& saved.archive_hash@ == hash@
                &&& page_views(saved.pages@) == detect_result(cache, hash@, page, w, h, px).1
            },
{
    let (w, h, px) = match load_page_rgba(page_bytes) {
        Ok(t) => t,
        Err(e) => {
            return Err(e);
        },
    };
    let (panels, saved) = panels_of_page(cache, hash, page, w, h, px.as_slice());
    assert(px@.len() == w * h * 4);
    assert(panels@ == detect_result(cache, hash@, page, w, h, px@).0);
    Ok((panels, saved))
}

proof fn lemma_find_page(pages: Seq<PageView>, page: usize)
    ensures
        find_page(pages, page) matches Some(i) ==> 0 <= i < pages.len() && pages[i].page_index == page,
        find_page(pages, page) is None ==> forall|k: int| 0 <= k < pages.len() ==> (#[trigger] pages[k]).page_index != page,
    decreases pages.len(),
{
    if pages.len() > 0 {
        lemma_find_page(pages.drop_last(), page);
        assert forall|k: int| 0 <= k < pages.len() - 1 implies pages[k] == pages.drop_last()[k] by {}
    }
}

/// After merging a detected page into a cache, the cache holds exactly one
/// entry for that page (the detected one), and its pages are in page order.
pub proof fn lemma_merge_one_per_page(base: Seq<PageView>, entry: PageView)
    ensures
        ({
            let m = merged_pages(base, entry);
            &&& forall|k: int| 0 <= k < m.len() && (#[trigger] m[k]).page_index == entry.page_index ==> m[k] == entry
            &&& forall|j: int, k: int|
                0 <= j < m.len() && 0 <= k < m.len() && (#[trigger] m[j]).page_index == entry.page_index
                    && (#[trigger] m[k]).page_index == entry.page_index ==> j == k
            &&& forall|k: int| 0 <= k < m.len() - 1 ==> (#[trigger] m[k]).page_index <= m[k + 1].page_index
        }),
{
    broadcast use vstd::seq_lib::group_filter_ensures;
    let keep = other_page(entry.page_index);
    let f = base.filter(keep);
    let fe = f.push(entry);
    let t = isort(f, page_order());
    let m = merged_pages(base, entry);
    assert(fe.drop_last() =~= f);
    assert(m == crate::seqs::insert_from_end(t, entry, page_order()));
    crate::seqs::lemma_isort_multiset(f, page_order());
    assert forall|k: int| 0 <= k < t.len() implies (#[trigger] t[k]).page_index != entry.page_index by {
        assert(t.contains(t[k]));
        crate::seqs::lemma_multiset_contains(f, t, t[k]);
        let q = choose|q: int| 0 <= q < f.len() && f[q] == t[k];
        assert(keep(f[q]));
    }
    let p = crate::seqs::lemma_insert_from_end_is_insert(t, entry, page_order());
    assert forall|k: int| 0 <= k < m.len() && (#[trigger] m[k]).page_index == entry.page_index implies k == p by {
        if k < p {
            assert(m[k] == t[k]);
        } else if k > p {
            assert(m[k] == t[k - 1]);
        }
    }
    assert(crate::seqs::asymmetric(page_order()));
    crate::seqs::lemma_isort_ordered(fe, page_order());
    assert forall|k: int| 0 <= k < m.len() - 1 implies (#[trigger] m[k]).page_index <= m[k + 1].page_index by {
        assert(!page_order()(m[k + 1], m[k]));
    }
}

/// After merging a detected page into a cache, reading that page gives the
/// detected page; every other page of the cache is kept, and nothing else is
/// added.
pub proof fn lemma_merge_read_back(base: Seq<PageView>, entry: PageView)
    ensures
        find_page(merged_pages(base, entry), entry.page_index) matches Some(i) && merged_pages(
            base,
            entry,
        )[i] == entry,
        forall|p: PageView|
            base.contains(p) && p.page_index != entry.page_index ==> #[trigger] merged_pages(base, entry).contains(p),
        forall|p: PageView|
            #[trigger] merged_pages(base, entry).contains(p) ==> p == entry || (base.contains(p) && p.page_index
                != entry.page_index),
{
    broadcast use vstd::seq_lib::group_filter_ensures;
    let keep = other_page(entry.page_index);
    let f = base.filter(keep);
    let m = f.push(entry);
    let merged = merged_pages(base, entry);
    crate::seqs::lemma_isort_multiset(m, page_order());
    assert(m.contains(entry)) by {
        assert(m[f.len() as int] == entry);
    }
    crate::seqs::lemma_multiset_contains(m, merged, entry);
    let k = choose|k: int| 0 <= k < merged.len() && merged[k] == entry;
    lemma_find_page(merged, entry.page_index);
    let i = find_page(merged, entry.page_index)->0;
    assert(merged.contains(merged[i]));
    crate::seqs::lemma_multiset_contains(m, merged, merged[i]);
    let j = choose|j: int| 0 <= j < m.len() && m[j] == merged[i];
    if j < f.len() {
        assert(m[j] == f[j]);
        assert(keep(f[j]));
    }
    assert forall|p: PageView| base.contains(p) && p.page_index != entry.page_index implies #[trigger] merged.contains(p) by {
        let q = choose|q: int| 0 <= q < base.len() && base[q] == p;
        assert(keep(base[q]));
        assert(f.contains(base[q]));
        let r = choose|r: int| 0 <= r < f.len() && f[r] == p;
        assert(m[r] == p);
        assert(m.contains(p));
        crate::seqs::lemma_multiset_contains(m, merged, p);
    }
    assert forall|p: PageView| #[trigger] merged.contains(p) implies p == entry || (base.contains(p) && p.page_index
        != entry.page_index) by {
        crate::seqs::lemma_multiset_contains(m, merged, p);
        let r = choose|r: int| 0 <= r < m.len() && m[r] == p;
        if r < f.len() {
            assert(m[r] == f[r]);
            assert(f.contains(p));
            base.lemma_filter_contains_rev(keep, p);
            assert(keep(f[r]));
        }
    }
}

} // verus!
