use std::collections::HashMap;

use slideo::extraction::{fresh_pages_dir, plan_extraction, plan_extraction_with_salt, PdfExtractedPagesDir};
use slideo::mapping_cache::{
    decide_video, get_pdf_video_matchings, mapping_info_from_rows, mapping_rows, video_pdf_matchings,
    MappingInfo, PdfPage, StoredMapping, VideoDecision,
};
use slideo::temp_paths::{decimal_string, get_temp_path_key};
use slideo::timeline::Matching;

#[test]
fn temp_path_key_uses_the_first_twenty_digest_digits() {
    let p = get_temp_path_key("/tmp/work", "slides", "abc");
    assert_eq!(p, "/tmp/work/slides-ba7816bf8f01cfea4141");
    let q = get_temp_path_key("/tmp/work", "slides", "abd");
    assert_ne!(p, q);
}

#[test]
fn decimal_string_writes_digits() {
    assert_eq!(decimal_string(0), "0");
    assert_eq!(decimal_string(907), "907");
    assert_eq!(decimal_string(u128::MAX), u128::MAX.to_string());
}

#[test]
fn finished_record_is_trusted() {
    let rec = Some(PdfExtractedPagesDir::new("h".to_string(), "/cache/old".to_string(), true));
    let plan = plan_extraction(&"h".to_string(), &rec, "/tmp/t");
    assert!(!plan.rasterize);
    assert_eq!(plan.dir, "/cache/old");
    assert!(plan.pending_record("h").is_none());
    assert!(plan.finished_record("h").is_none());
}

#[test]
fn unfinished_record_gets_a_fresh_directory() {
    let rec = Some(PdfExtractedPagesDir::new("h".to_string(), "/cache/stale".to_string(), false));
    let plan = plan_extraction_with_salt("h", &rec, "/tmp/t", 42);
    assert!(plan.rasterize);
    assert_ne!(plan.dir, "/cache/stale");
    assert_eq!(plan.dir, get_temp_path_key("/tmp/t", "slides", "h-42"));
    assert_eq!(plan.dir, fresh_pages_dir("/tmp/t", "h", 42));
    assert!(plan.dir.starts_with("/tmp/t/slides-"));
    let pending = plan.pending_record("h").unwrap();
    assert_eq!((pending.pdf_hash.as_str(), pending.dir.as_str(), pending.finished), ("h", plan.dir.as_str(), false));
    let finished = plan.finished_record("h").unwrap();
    assert_eq!((finished.pdf_hash.as_str(), finished.dir.as_str(), finished.finished), ("h", plan.dir.as_str(), true));
    let other = plan_extraction_with_salt("h", &rec, "/tmp/t", 43);
    assert_ne!(plan.dir, other.dir);
}

#[test]
fn missing_record_gets_a_fresh_directory() {
    let plan = plan_extraction("h", &None, "/tmp/t");
    assert!(plan.rasterize);
    assert!(plan.dir.starts_with("/tmp/t/slides-"));
}

#[test]
fn extracting_twice_leaves_the_cache_as_after_once() {
    fn run(store: &mut HashMap<String, (String, bool)>, hash: &str, salt: u128) -> String {
        let rec = store.get(hash).map(|(d, f)| PdfExtractedPagesDir::new(hash.to_string(), d.clone(), *f));
        let plan = plan_extraction_with_salt(hash, &rec, "/tmp/t", salt);
        if let Some(p) = plan.pending_record(hash) {
            store.insert(p.pdf_hash, (p.dir, p.finished));
        }
        if let Some(p) = plan.finished_record(hash) {
            store.insert(p.pdf_hash, (p.dir, p.finished));
        }
        plan.dir
    }
    let mut store = HashMap::new();
    let d1 = run(&mut store, "h", 1);
    let after_once = store.clone();
    let d2 = run(&mut store, "h", 2);
    assert_eq!(d1, d2);
    assert_eq!(store, after_once);
}

fn info(hashes: &[&str], finished: bool) -> Option<MappingInfo> {
    Some(MappingInfo { pdf_hashes: hashes.iter().map(|h| h.to_string()).collect(), finished })
}

#[test]
fn video_decisions() {
    let pdfs = vec!["a".to_string(), "b".to_string()];
    assert_eq!(decide_video(&None, &pdfs, false, false), VideoDecision::Process);
    assert_eq!(decide_video(&info(&["a"], false), &pdfs, false, true), VideoDecision::AskUnfinished);
    assert_eq!(decide_video(&info(&["a"], true), &pdfs, false, false), VideoDecision::AskDifferentPdfs);
    assert_eq!(decide_video(&info(&["a"], true), &pdfs, false, true), VideoDecision::RecomputeDifferentPdfs);
    assert_eq!(decide_video(&info(&["b", "c", "a"], true), &pdfs, false, false), VideoDecision::SkipCached);
    assert_eq!(decide_video(&info(&["a", "b"], true), &pdfs, true, false), VideoDecision::Process);
}

#[test]
fn mapping_info_from_joined_rows() {
    assert!(mapping_info_from_rows(&vec![]).is_none());
    let rows = vec![(true, Some("a".to_string())), (true, None), (true, Some("b".to_string()))];
    let i = mapping_info_from_rows(&rows).unwrap();
    assert!(i.finished);
    assert_eq!(i.pdf_hashes, vec!["a".to_string(), "b".to_string()]);
}

#[test]
fn rows_record_document_and_zero_based_page() {
    let pages = vec![
        PdfPage::new("d.pdf".to_string(), "dh".to_string(), "p-1.png".to_string(), 1),
        PdfPage::new("d.pdf".to_string(), "dh".to_string(), "p-2.png".to_string(), 2),
    ];
    let rows = mapping_rows(&vec![Matching::new(0, 0, Some(1)), Matching::new(9000, 90, None)], &pages);
    assert_eq!(rows.len(), 2);
    assert_eq!((rows[0].video_ms, rows[0].pdf_hash.as_deref(), rows[0].page), (0, Some("dh"), Some(1)));
    assert_eq!((rows[1].video_ms, rows[1].pdf_hash.as_deref(), rows[1].page), (9000, None, None));
}

fn stored(ms: u64, hash: Option<&str>, page: Option<usize>) -> StoredMapping {
    StoredMapping { video_ms: ms, pdf_hash: hash.map(|h| h.to_string()), page, video_hash: "v".to_string() }
}

#[test]
fn matchings_last_until_the_next_breakpoint() {
    let rows = vec![stored(0, Some("d"), Some(0)), stored(4000, Some("e"), Some(3)), stored(7000, Some("d"), Some(2)), stored(9000, None, None)];
    let r = video_pdf_matchings(&"d".to_string(), &rows);
    let got: Vec<(u64, usize, u64)> = r.iter().map(|m| (m.video_offset_ms, m.page_idx, m.duration_ms)).collect();
    assert_eq!(got, vec![(0, 0, 4000), (7000, 2, 2000)]);
    assert_eq!(r[0].video_hash, "v");
    assert_eq!(r[0].pdf_hash, "d");
}

#[test]
fn last_breakpoint_without_sentinel_lasts_five_seconds() {
    let rows = vec![stored(1000, Some("d"), None)];
    let r = video_pdf_matchings(&"d".to_string(), &rows);
    assert_eq!((r[0].duration_ms, r[0].page_idx), (5000, 0));
    let all = get_pdf_video_matchings(&"d".to_string(), &vec![rows, vec![stored(0, Some("d"), Some(1)), stored(500, None, None)]]);
    let got: Vec<(u64, u64)> = all.iter().map(|m| (m.video_offset_ms, m.duration_ms)).collect();
    assert_eq!(got, vec![(1000, 5000), (0, 500)]);
}
