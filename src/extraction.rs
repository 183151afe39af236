//! The cache of rasterized documents and its pending-to-finished lifecycle.
//!
//! A record, keyed by a document's content hash, tells where the document's page
//! images are and whether they were all written. A record that is not finished is
//! never trusted: the document is rasterized again into a fresh directory whose
//! name is derived from the hash and a random salt.
use vstd::prelude::*;
use crate::temp_paths::{decimal, decimal_string, get_temp_path_key, joined_path_of, temp_key_name};

verus! {

/// The persisted record of a document's extracted pages.
pub struct PdfExtractedPagesDir {
    pub pdf_hash: String,
    pub dir: String,
    pub finished: bool,
}

/// What to do for one document: where its pages are, and whether it must be
/// rasterized there first.
pub struct ExtractionPlan {
    pub dir: String,
    pub rasterize: bool,
}

/// The category under which page directories are kept.
pub open spec fn slides_category() -> Seq<char> {
    seq!['s', 'l', 'i', 'd', 'e', 's']
}

/// The fresh directory for the document with hash `pdf_hash`, salted with `salt`.
pub open spec fn fresh_dir(temp_dir: Seq<char>, pdf_hash: Seq<char>, salt: u128) -> Seq<char> {
    joined_path_of(
        temp_dir,
        temp_key_name(slides_category(), pdf_hash + seq!['-'] + decimal(salt as nat)),
    )
}

/// A cached record, as the directory and its finished flag.
pub open spec fn record_view(record: Option<PdfExtractedPagesDir>) -> Option<(Seq<char>, bool)> {
    match record {
        Some(r) => Some((r.dir@, r.finished)),
        None => None,
    }
}

/// Whether a cached record can be trusted.
pub open spec fn is_trusted(record: Option<(Seq<char>, bool)>) -> bool {
    match record {
        Some((_, finished)) => finished,
        None => false,
    }
}

/// The directory the pages are taken from: the recorded one if it is finished,
/// else the fresh salted one.
pub open spec fn planned_dir(
    record: Option<(Seq<char>, bool)>,
    temp_dir: Seq<char>,
    pdf_hash: Seq<char>,
    salt: u128,
) -> Seq<char> {
    match record {
        Some((dir, true)) => dir,
        _ => fresh_dir(temp_dir, pdf_hash, salt),
    }
}

/// The cache as a map from document hash to (directory, finished).
pub type ExtractionStore = Map<Seq<char>, (Seq<char>, bool)>;

/// The record of `pdf_hash` in `store`, if any.
pub open spec fn lookup(store: ExtractionStore, pdf_hash: Seq<char>) -> Option<(Seq<char>, bool)> {
    if store.contains_key(pdf_hash) {
        Some(store[pdf_hash])
    } else {
        None
    }
}

/// The cache after one complete extraction of the document `pdf_hash`: an
/// untrusted or missing record is replaced by a finished one for the fresh
/// directory; a trusted one is left as it is.
pub open spec fn store_after_extraction(
    store: ExtractionStore,
    temp_dir: Seq<char>,
    pdf_hash: Seq<char>,
    salt: u128,
) -> ExtractionStore {
    let record = lookup(store, pdf_hash);
    if is_trusted(record) {
        store
    } else {
        store.insert(pdf_hash, (fresh_dir(temp_dir, pdf_hash, salt), true))
    }
}

impl PdfExtractedPagesDir {
    pub fn new(pdf_hash: String, dir: String, finished: bool) -> (r: PdfExtractedPagesDir)
        ensures
            r.pdf_hash == pdf_hash,
            r.dir == dir,
            r.finished == finished,
    {
        PdfExtractedPagesDir { pdf_hash, dir, finished }
    }
}

/// Relies on `rand::random`: a value drawn from the thread-local generator;
/// nothing is known of it.
#[verifier::external_body]
fn random_salt() -> (r: u128) {
    rand::random::<u128>()
}

/// The fresh directory for a document, salted with `salt`.
pub fn fresh_pages_dir(temp_dir: &str, pdf_hash: &str, salt: u128) -> (r: String)
    ensures
        r@ == fresh_dir(temp_dir@, pdf_hash@, salt),
{
    let mut key = String::new();
    key.append(pdf_hash);
    let dash = "-";
    proof {
        reveal_strlit("-");
    }
    key.append(dash);
    let digits = decimal_string(salt);
    key.append(digits.as_str());
    let category = "slides";
    proof {
        reveal_strlit("slides");
    }
    assert(category@ =~= slides_category());
    assert(key@ =~= pdf_hash@ + seq!['-'] + decimal(salt as nat));
    get_temp_path_key(temp_dir, category, key.as_str())
}

/// Decides, from the cached record of a document, where its pages are and
/// whether they must be rasterized: a finished record is trusted as it is; a
/// missing or unfinished one gets the fresh directory salted with `salt`.
pub fn plan_extraction_with_salt(
    pdf_hash: &str,
    record: &Option<PdfExtractedPagesDir>,
    temp_dir: &str,
    salt: u128,
) -> (r: ExtractionPlan)
    ensures
        r.rasterize == !is_trusted(record_view(*record)),
        r.dir@ == planned_dir(record_view(*record), temp_dir@, pdf_hash@, salt),
        is_trusted(record_view(*record)) ==> r.dir == record->0.dir,
{
    match record {
        Some(rec) => {
            if rec.finished {
                return ExtractionPlan { dir: rec.dir.clone(), rasterize: false };
            }
        },
        None => {},
    }
    ExtractionPlan { dir: fresh_pages_dir(temp_dir, pdf_hash, salt), rasterize: true }
}

/// Decides where the pages of a document are, drawing a random salt for a fresh
/// directory when the cached record cannot be trusted.
pub fn plan_extraction(pdf_hash: &str, record: &Option<PdfExtractedPagesDir>, temp_dir: &str) -> (r:
    ExtractionPlan)
    ensures
        r.rasterize == !is_trusted(record_view(*record)),
        is_trusted(record_view(*record)) ==> r.dir == record->0.dir,
        !is_trusted(record_view(*record)) ==> exists|salt: u128|
            r.dir@ == #[trigger] fresh_dir(temp_dir@, pdf_hash@, salt),
{
    let salt = random_salt();
    let r = plan_extraction_with_salt(pdf_hash, record, temp_dir, salt);
    proof {
        if !is_trusted(record_view(*record)) {
            assert(r.dir@ == fresh_dir(temp_dir@, pdf_hash@, salt));
        }
    }
    r
}

impl ExtractionPlan {
    /// The record to write before rasterizing: the directory, not finished.
    pub fn pending_record(&self, pdf_hash: &str) -> (r: Option<PdfExtractedPagesDir>)
        ensures
            self.rasterize ==> r == Some(
                PdfExtractedPagesDir { pdf_hash: r->0.pdf_hash, dir: self.dir, finished: false },
            ) && r->0.pdf_hash@ == pdf_hash@,
            !self.rasterize ==> r is None,
    {
        if self.rasterize {
            Some(PdfExtractedPagesDir { pdf_hash: pdf_hash.to_owned(), dir: self.dir.clone(), finished: false })
        } else {
            None
        }
    }

    /// The record to write once every page is written: the directory, finished.
    pub fn finished_record(&self, pdf_hash: &str) -> (r: Option<PdfExtractedPagesDir>)
        ensures
            self.rasterize ==> r == Some(
                PdfExtractedPagesDir { pdf_hash: r->0.pdf_hash, dir: self.dir, finished: true },
            ) && r->0.pdf_hash@ == pdf_hash@,
            !self.rasterize ==> r is None,
    {
        if self.rasterize {
            Some(PdfExtractedPagesDir { pdf_hash: pdf_hash.to_owned(), dir: self.dir.clone(), finished: true })
        } else {
            None
        }
    }
}

/// An unfinished record is never trusted: the plan rasterizes again, into the
/// fresh salted directory and not into the recorded one (unless the two names
/// coincide).
pub proof fn lemma_unfinished_record_is_redone(
    record: PdfExtractedPagesDir,
    temp_dir: Seq<char>,
    pdf_hash: Seq<char>,
    salt: u128,
)
    requires
        !record.finished,
    ensures
        !is_trusted(record_view(Some(record))),
        planned_dir(record_view(Some(record)), temp_dir, pdf_hash, salt) == fresh_dir(
            temp_dir,
            pdf_hash,
            salt,
        ),
{
}

/// Extracting a document a second time changes nothing: the first run leaves a
/// finished record, which the second run trusts, whatever salt either draws.
pub proof fn lemma_extraction_idempotent(
    store: ExtractionStore,
    temp_dir: Seq<char>,
    pdf_hash: Seq<char>,
    salt1: u128,
    salt2: u128,
)
    ensures
        store_after_extraction(
            store_after_extraction(store, temp_dir, pdf_hash, salt1),
            temp_dir,
            pdf_hash,
            salt2,
        ) == store_after_extraction(store, temp_dir, pdf_hash, salt1),
        planned_dir(
            lookup(store_after_extraction(store, temp_dir, pdf_hash, salt1), pdf_hash),
            temp_dir,
            pdf_hash,
            salt2,
        ) == planned_dir(lookup(store, pdf_hash), temp_dir, pdf_hash, salt1),
{
    let s1 = store_after_extraction(store, temp_dir, pdf_hash, salt1);
    assert(s1.contains_key(pdf_hash));
}

} // verus!
