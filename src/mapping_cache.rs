//! The cache of computed timelines, keyed by the video's content hash.
//!
//! The store itself is persistent and lives outside the library; this module
//! holds what is decided on its contents: which videos to (re)process, the rows
//! that record a timeline, and the per-page matchings read back from those rows.
use vstd::prelude::*;
use crate::rasterizer::Page;
use crate::timeline::Matching;

verus! {

/// A candidate page: its document, and the image rasterized from it.
pub struct PdfPage {
    pub pdf_path: String,
    pub pdf_hash: String,
    pub image_path: String,
    /// 1-based.
    pub page_nr: usize,
}

impl PdfPage {
    pub fn new(pdf_path: String, pdf_hash: String, image_path: String, page_nr: usize) -> (r: PdfPage)
        ensures
            r.pdf_path == pdf_path,
            r.pdf_hash == pdf_hash,
            r.image_path == image_path,
            r.page_nr == page_nr,
    {
        PdfPage { pdf_path, pdf_hash, image_path, page_nr }
    }
}

/// The candidate pages of one document from the page images written for it:
/// each keeps its image and its page number.
pub fn pages_of_document(pdf_hash: &String, pdf_path: &String, pages: Vec<Page>) -> (r: Vec<PdfPage>)
    ensures
        r@.len() == pages@.len(),
        forall|i: int|
            0 <= i < r@.len() ==> (#[trigger] r@[i]).pdf_hash == *pdf_hash && r@[i].pdf_path
                == *pdf_path && r@[i].image_path == pages@[i].image_path && r@[i].page_nr
                == pages@[i].index as usize,
{
    let ghost all = pages@;
    let mut rest = pages;
    let mut reversed: Vec<Page> = Vec::new();
    while rest.len() > 0
        invariant
            reversed@.len() + rest@.len() == all.len(),
            rest@ == all.take(rest@.len() as int),
            forall|k: int| 0 <= k < reversed@.len() ==> reversed@[k] == all[all.len() - 1 - k],
        decreases rest.len(),
    {
        let p = rest.pop().unwrap();
        reversed.push(p);
    }
    let mut r: Vec<PdfPage> = Vec::new();
    let n = reversed.len();
    while reversed.len() > 0
        invariant
            reversed@.len() + r@.len() == n,
            n == all.len(),
            forall|k: int| 0 <= k < reversed@.len() ==> reversed@[k] == all[all.len() - 1 - k],
            forall|i: int|
                0 <= i < r@.len() ==> (#[trigger] r@[i]).pdf_hash == *pdf_hash && r@[i].pdf_path
                    == *pdf_path && r@[i].image_path == all[i].image_path && r@[i].page_nr
                    == all[i].index as usize,
        decreases reversed.len(),
    {
        let p = reversed.pop().unwrap();
        assert(p == all[r@.len() as int]);
        r.push(PdfPage {
            pdf_path: pdf_path.clone(),
            pdf_hash: pdf_hash.clone(),
            image_path: p.image_path,
            page_nr: p.index as usize,
        });
    }
    r
}

/// What the cache knows of a video's last run: the documents it was matched
/// against, and whether it finished.
pub struct MappingInfo {
    pub pdf_hashes: Vec<String>,
    pub finished: bool,
}

/// One persisted timeline breakpoint: no document (and no page) stands for "no
/// match" or for the end-of-video sentinel.
pub struct MappingRow {
    pub video_ms: u64,
    pub pdf_hash: Option<String>,
    /// 0-based page index within the document.
    pub page: Option<usize>,
}

/// A breakpoint read back from the store, with the hash of its video.
pub struct StoredMapping {
    pub video_ms: u64,
    pub pdf_hash: Option<String>,
    pub page: Option<usize>,
    pub video_hash: String,
}

/// A stretch of a video that shows a page of a given document.
pub struct PdfVideoMatching {
    pub video_offset_ms: u64,
    pub pdf_hash: String,
    pub video_hash: String,
    pub page_idx: usize,
    pub duration_ms: u64,
}

/// What to do with a video given what the cache holds for it.
#[derive(Clone, Copy, Debug, PartialEq, Eq, Structural)]
pub enum VideoDecision {
    /// Nothing usable is cached: process it.
    Process,
    /// A run on it never finished: ask whether to recompute.
    AskUnfinished,
    /// It was matched against other documents: ask whether to recompute.
    AskDifferentPdfs,
    /// It was matched against other documents and no one can be asked: recompute.
    RecomputeDifferentPdfs,
    /// It is cached for these documents: skip it.
    SkipCached,
}

/// How long the last breakpoint of a video lasts when no later one bounds it.
pub const FALLBACK_DURATION_MS: u64 = 5000;

/// The views of a list of strings.
pub open spec fn strings_view(v: Seq<String>) -> Seq<Seq<char>> {
    v.map_values(|s: String| s@)
}

/// The view of an optional string.
pub open spec fn opt_view(o: Option<String>) -> Option<Seq<char>> {
    match o {
        Some(s) => Some(s@),
        None => None,
    }
}

/// Every string of `a` is in `b`.
pub open spec fn is_subset_of(a: Seq<Seq<char>>, b: Seq<Seq<char>>) -> bool {
    forall|i: int| 0 <= i < a.len() ==> b.contains(#[trigger] a[i])
}

/// The decision on a video, from the cached info and the run's settings.
pub open spec fn video_decision(
    existing: Option<(Seq<Seq<char>>, bool)>,
    pdf_hashes: Seq<Seq<char>>,
    invalidate_cache: bool,
    non_interactive: bool,
) -> VideoDecision {
    match existing {
        Some((cached, finished)) if !invalidate_cache => {
            if !finished {
                VideoDecision::AskUnfinished
            } else if !is_subset_of(pdf_hashes, cached) {
                if non_interactive {
                    VideoDecision::RecomputeDifferentPdfs
                } else {
                    VideoDecision::AskDifferentPdfs
                }
            } else {
                VideoDecision::SkipCached
            }
        },
        _ => VideoDecision::Process,
    }
}

impl MappingInfo {
    pub open spec fn view(&self) -> (Seq<Seq<char>>, bool) {
        (strings_view(self.pdf_hashes@), self.finished)
    }
}

/// The cached info of a video, as the view of each of its parts.
pub open spec fn info_view(info: Option<MappingInfo>) -> Option<(Seq<Seq<char>>, bool)> {
    match info {
        Some(i) => Some(i.view()),
        None => None,
    }
}

/// The documents named by the rows of a video's join with its documents.
pub open spec fn hashes_of_rows(rows: Seq<(bool, Option<String>)>) -> Seq<Seq<char>>
    decreases rows.len(),
{
    if rows.len() == 0 {
        Seq::empty()
    } else {
        match rows.last().1 {
            Some(h) => hashes_of_rows(rows.drop_last()).push(h@),
            None => hashes_of_rows(rows.drop_last()),
        }
    }
}

/// Whether `s` is one of `v`.
pub fn contains_string(v: &Vec<String>, s: &String) -> (r: bool)
    ensures
        r == strings_view(v@).contains(s@),
{
    let ghost sv = strings_view(v@);
    let mut i: usize = 0;
    while i < v.len()
        invariant
            0 <= i <= v.len(),
            sv == strings_view(v@),
            forall|k: int| 0 <= k < i ==> sv[k] != s@,
        decreases v.len() - i,
    {
        if v[i] == *s {
            assert(sv[i as int] == s@);
            return true;
        }
        i += 1;
    }
    false
}

/// Decides what to do with a video: process it where nothing usable is cached
/// or the cache is to be ignored; ask (or, without anyone to ask, recompute)
/// where its last run did not finish or used other documents; else skip it.
pub fn decide_video(
    existing: &Option<MappingInfo>,
    pdf_hashes: &Vec<String>,
    invalidate_cache: bool,
    non_interactive: bool,
) -> (r: VideoDecision)
    ensures
        r == video_decision(
            info_view(*existing),
            strings_view(pdf_hashes@),
            invalidate_cache,
            non_interactive,
        ),
{
    match existing {
        Some(info) => {
            if invalidate_cache {
                return VideoDecision::Process;
            }
            if !info.finished {
                return VideoDecision::AskUnfinished;
            }
            let ghost a = strings_view(pdf_hashes@);
            let ghost b = strings_view(info.pdf_hashes@);
            let mut i: usize = 0;
            while i < pdf_hashes.len()
                invariant
                    0 <= i <= pdf_hashes.len(),
                    a == strings_view(pdf_hashes@),
                    b == strings_view(info.pdf_hashes@),
                    info_view(*existing) == Some((b, true)),
                    !invalidate_cache,
                    forall|k: int| 0 <= k < i ==> b.contains(#[trigger] a[k]),
                decreases pdf_hashes.len() - i,
            {
                if !contains_string(&info.pdf_hashes, &pdf_hashes[i]) {
                    assert(a[i as int] == pdf_hashes@[i as int]@);
                    assert(!b.contains(a[i as int]));
                    assert(!is_subset_of(a, b));
                    if non_interactive {
                        return VideoDecision::RecomputeDifferentPdfs;
                    } else {
                        return VideoDecision::AskDifferentPdfs;
                    }
                }
                i += 1;
            }
            VideoDecision::SkipCached
        },
        None => VideoDecision::Process,
    }
}

/// Builds a video's cached info from the rows of its join with its documents
/// (its finished flag, and the document of each row, if any): none where there
/// are no rows, else the first row's flag and every document named.
pub fn mapping_info_from_rows(rows: &Vec<(bool, Option<String>)>) -> (r: Option<MappingInfo>)
    ensures
        rows@.len() == 0 ==> r is None,
        rows@.len() > 0 ==> r is Some && r->0.finished == rows@[0].0 && strings_view(
            r->0.pdf_hashes@,
        ) == hashes_of_rows(rows@),
{
    if rows.len() == 0 {
        return None;
    }
    let finished = rows[0].0;
    let mut hashes: Vec<String> = Vec::new();
    let mut i: usize = 0;
    while i < rows.len()
        invariant
            0 <= i <= rows.len(),
            strings_view(hashes@) == hashes_of_rows(rows@.take(i as int)),
        decreases rows.len() - i,
    {
        proof {
            assert(rows@.take(i + 1).drop_last() =~= rows@.take(i as int));
        }
        match &rows[i].1 {
            Some(h) => {
                let ghost before = hashes@;
                hashes.push(h.clone());
                assert(strings_view(hashes@) =~= strings_view(before).push(h@));
            },
            None => {},
        }
        i += 1;
    }
    assert(rows@.take(rows.len() as int) =~= rows@);
    Some(MappingInfo { pdf_hashes: hashes, finished })
}

/// The view of a breakpoint row.
pub open spec fn row_view(r: MappingRow) -> (u64, Option<Seq<char>>, Option<usize>) {
    (r.video_ms, opt_view(r.pdf_hash), r.page)
}

/// The row that records a timeline entry: its time, and the matched page's
/// document hash and 0-based index, if any.
pub open spec fn row_of(m: Matching, pages: Seq<PdfPage>) -> (u64, Option<Seq<char>>, Option<usize>) {
    match m.image {
        Some(i) => (m.video_time_ms, Some(pages[i as int].pdf_hash@), Some((pages[i as int].page_nr - 1) as usize)),
        None => (m.video_time_ms, None, None),
    }
}

/// Every entry names one of the pages, and every page number is 1-based.
pub open spec fn names_known_pages(matchings: Seq<Matching>, pages: Seq<PdfPage>) -> bool {
    &&& forall|i: int| 0 <= i < matchings.len() ==> match (#[trigger] matchings[i]).image {
        Some(p) => p < pages.len(),
        None => true,
    }
    &&& forall|j: int| 0 <= j < pages.len() ==> (#[trigger] pages[j]).page_nr >= 1
}

/// The rows that record a timeline, one per entry, in order.
pub fn mapping_rows(matchings: &Vec<Matching>, pages: &Vec<PdfPage>) -> (r: Vec<MappingRow>)
    requires
        names_known_pages(matchings@, pages@),
    ensures
        r@.len() == matchings@.len(),
        forall|i: int| 0 <= i < r@.len() ==> row_view(#[trigger] r@[i]) == row_of(matchings@[i], pages@),
{
    let mut r: Vec<MappingRow> = Vec::new();
    let mut i: usize = 0;
    while i < matchings.len()
        invariant
            0 <= i <= matchings.len(),
            names_known_pages(matchings@, pages@),
            r@.len() == i,
            forall|k: int| 0 <= k < i ==> row_view(#[trigger] r@[k]) == row_of(matchings@[k], pages@),
        decreases matchings.len() - i,
    {
        let m = matchings[i];
        let row = match m.image {
            Some(p) => {
                let page = &pages[p];
                MappingRow {
                    video_ms: m.video_time_ms,
                    pdf_hash: Some(page.pdf_hash.clone()),
                    page: Some(page.page_nr - 1),
                }
            },
            None => MappingRow { video_ms: m.video_time_ms, pdf_hash: None, page: None },
        };
        r.push(row);
        i += 1;
    }
    r
}

/// The view of a read-back breakpoint.
pub open spec fn stored_view(m: StoredMapping) -> (u64, Option<Seq<char>>, Option<usize>, Seq<char>) {
    (m.video_ms, opt_view(m.pdf_hash), m.page, m.video_hash@)
}

/// The view of a page matching.
pub open spec fn matching_view(m: PdfVideoMatching) -> (u64, Seq<char>, Seq<char>, usize, u64) {
    (m.video_offset_ms, m.pdf_hash@, m.video_hash@, m.page_idx, m.duration_ms)
}

/// How long breakpoint `i` lasts: until the next one, or the fallback for the last.
pub open spec fn duration_at(rows: Seq<StoredMapping>, i: int) -> u64 {
    if i + 1 < rows.len() {
        (rows[i + 1].video_ms - rows[i].video_ms) as u64
    } else {
        FALLBACK_DURATION_MS
    }
}

/// The matchings of document `pdf_hash` among the first `n` breakpoints of a video.
pub open spec fn matchings_upto(rows: Seq<StoredMapping>, pdf_hash: Seq<char>, n: int) -> Seq<
    (u64, Seq<char>, Seq<char>, usize, u64),
>
    decreases n,
{
    if n <= 0 {
        Seq::empty()
    } else {
        let before = matchings_upto(rows, pdf_hash, n - 1);
        let row = rows[n - 1];
        if opt_view(row.pdf_hash) == Some(pdf_hash) {
            before.push(
                (
                    row.video_ms,
                    pdf_hash,
                    row.video_hash@,
                    match row.page {
                        Some(p) => p,
                        None => 0,
                    },
                    duration_at(rows, n - 1),
                ),
            )
        } else {
            before
        }
    }
}

/// Ascending by time.
pub open spec fn rows_ascending(rows: Seq<StoredMapping>) -> bool {
    forall|i: int, j: int| 0 <= i < j < rows.len() ==> rows[i].video_ms <= rows[j].video_ms
}

/// The stretches of one video, given its breakpoints in ascending time, that
/// show a page of document `pdf_hash`; each lasts until the next breakpoint.
pub fn video_pdf_matchings(pdf_hash: &String, rows: &Vec<StoredMapping>) -> (r: Vec<
    PdfVideoMatching,
>)
    requires
        rows_ascending(rows@),
    ensures
        r@.map_values(|m: PdfVideoMatching| matching_view(m)) == matchings_upto(
            rows@,
            pdf_hash@,
            rows@.len() as int,
        ),
{
    let mut r: Vec<PdfVideoMatching> = Vec::new();
    let mut i: usize = 0;
    while i < rows.len()
        invariant
            0 <= i <= rows.len(),
            rows_ascending(rows@),
            r@.map_values(|m: PdfVideoMatching| matching_view(m)) == matchings_upto(
                rows@,
                pdf_hash@,
                i as int,
            ),
        decreases rows.len() - i,
    {
        let row = &rows[i];
        let matches = match &row.pdf_hash {
            Some(h) => *h == *pdf_hash,
            None => false,
        };
        if matches {
            let duration_ms = if i + 1 < rows.len() {
                rows[i + 1].video_ms - row.video_ms
            } else {
                FALLBACK_DURATION_MS
            };
            let page_idx = match row.page {
                Some(p) => p,
                None => 0,
            };
            let ghost before = r@;
            r.push(
                PdfVideoMatching {
                    video_offset_ms: row.video_ms,
                    pdf_hash: pdf_hash.clone(),
                    video_hash: row.video_hash.clone(),
                    page_idx,
                    duration_ms,
                },
            );
            assert(r@.map_values(|m: PdfVideoMatching| matching_view(m)) =~= before.map_values(
                |m: PdfVideoMatching| matching_view(m),
            ).push(matching_view(r@.last())));
        }
        i += 1;
    }
    r
}

/// The stretches of all videos that show a page of document `pdf_hash`, video
/// after video.
pub fn get_pdf_video_matchings(pdf_hash: &String, videos: &Vec<Vec<StoredMapping>>) -> (r: Vec<
    PdfVideoMatching,
>)
    requires
        forall|v: int| 0 <= v < videos@.len() ==> rows_ascending(#[trigger] videos@[v]@),
    ensures
        r@.map_values(|m: PdfVideoMatching| matching_view(m)) == videos@.take(
            videos@.len() as int,
        ).fold_left(
            Seq::empty(),
            |acc: Seq<(u64, Seq<char>, Seq<char>, usize, u64)>, rows: Vec<StoredMapping>|
                acc + matchings_upto(rows@, pdf_hash@, rows@.len() as int),
        ),
{
    let mut r: Vec<PdfVideoMatching> = Vec::new();
    let mut v: usize = 0;
    while v < videos.len()
        invariant
            0 <= v <= videos.len(),
            forall|w: int| 0 <= w < videos@.len() ==> rows_ascending(#[trigger] videos@[w]@),
            r@.map_values(|m: PdfVideoMatching| matching_view(m)) == videos@.take(v as int).fold_left(
                Seq::empty(),
                |acc: Seq<(u64, Seq<char>, Seq<char>, usize, u64)>, rows: Vec<StoredMapping>|
                    acc + matchings_upto(rows@, pdf_hash@, rows@.len() as int),
            ),
        decreases videos.len() - v,
    {
        let mut part = video_pdf_matchings(pdf_hash, &videos[v]);
        let ghost before = r@;
        let ghost part_view = part@;
        r.append(&mut part);
        proof {
            let f = |acc: Seq<(u64, Seq<char>, Seq<char>, usize, u64)>, rows: Vec<StoredMapping>|
                acc + matchings_upto(rows@, pdf_hash@, rows@.len() as int);
            assert(videos@.take(v + 1).drop_last() =~= videos@.take(v as int));
            assert(r@ =~= before + part_view);
            assert(r@.map_values(|m: PdfVideoMatching| matching_view(m)) =~= before.map_values(
                |m: PdfVideoMatching| matching_view(m),
            ) + part_view.map_values(|m: PdfVideoMatching| matching_view(m)));
        }
        v += 1;
    }
    r
}

} // verus!
