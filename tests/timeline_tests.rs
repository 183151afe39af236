use slideo::mapping_cache::{video_pdf_matchings, StoredMapping};
use slideo::sampler::is_changed_frame;
use slideo::scheduler::MatchRun;
use slideo::timeline::{build_timeline, dedup_results_by_image, sort_results_by_time, Matching};

fn m(time: u64, idx: usize, image: Option<usize>) -> Matching {
    Matching::new(time, idx, image)
}

fn times(v: &[Matching]) -> Vec<u64> {
    v.iter().map(|x| x.video_time_ms).collect()
}

fn images(v: &[Matching]) -> Vec<Option<usize>> {
    v.iter().map(|x| x.image).collect()
}

#[test]
fn timeline_is_sorted_and_ends_with_the_sentinel() {
    let results = vec![
        m(30000, 300, None),
        m(10000, 100, Some(1)),
        m(0, 0, Some(0)),
        m(20000, 200, Some(2)),
        m(5000, 50, Some(0)),
    ];
    let t = build_timeline(&results);
    assert_eq!(times(&t), vec![0, 10000, 20000, 30000]);
    assert_eq!(images(&t), vec![Some(0), Some(1), Some(2), None]);
    assert_eq!(t.iter().filter(|x| x.image.is_none()).count(), 1);
    assert_eq!(t.last().unwrap().video_frame_idx, 300);
}

#[test]
fn timeline_folds_consecutive_equal_images_into_the_first() {
    let results = vec![m(0, 0, Some(4)), m(5000, 50, Some(4)), m(10000, 100, Some(4))];
    let t = build_timeline(&results);
    assert_eq!(times(&t), vec![0]);
    assert_eq!(t[0].video_frame_idx, 0);
}

#[test]
fn timeline_folds_consecutive_no_match_entries() {
    let results = vec![m(0, 0, None), m(5000, 50, None), m(10000, 100, Some(1)), m(15000, 150, None)];
    let t = build_timeline(&results);
    assert_eq!(times(&t), vec![0, 10000, 15000]);
    assert_eq!(images(&t), vec![None, Some(1), None]);
}

#[test]
fn timeline_keeps_a_page_shown_again() {
    let results = vec![m(0, 0, Some(0)), m(5000, 50, Some(1)), m(10000, 100, Some(0))];
    let t = build_timeline(&results);
    assert_eq!(images(&t), vec![Some(0), Some(1), Some(0)]);
}

#[test]
fn timeline_of_a_timeline_is_itself() {
    let results = vec![m(20000, 2, Some(3)), m(0, 0, Some(1)), m(5000, 1, Some(1)), m(25000, 3, None)];
    let t = build_timeline(&results);
    let again = build_timeline(&t);
    assert_eq!(times(&t), times(&again));
    assert_eq!(images(&t), images(&again));
}

#[test]
fn sorting_keeps_arrival_order_of_equal_times() {
    let results = vec![m(10, 0, Some(1)), m(5, 1, Some(2)), m(10, 2, Some(3))];
    let s = sort_results_by_time(&results);
    assert_eq!(images(&s), vec![Some(2), Some(1), Some(3)]);
    let d = dedup_results_by_image(&vec![m(0, 0, Some(1)), m(1, 1, Some(1)), m(2, 2, Some(2))]);
    assert_eq!(times(&d), vec![0, 2]);
}

#[test]
fn three_page_scenario() {
    // A document of three pages; the video shows page 1, then 2, then 1 again,
    // ten seconds each, and ends at 30 s after 300 frames.
    let mut run = MatchRun::new(300, 30000, 6);
    let shown = [(0u64, 0usize, 0usize), (5000, 50, 0), (10000, 100, 1), (15000, 150, 1), (20000, 200, 0), (25000, 250, 0)];
    for &(time, idx, page) in shown.iter().rev() {
        run.record(Matching::new(time, idx, Some(page)));
    }
    let t = run.finish();
    assert_eq!(times(&t), vec![0, 10000, 20000, 30000]);
    assert_eq!(images(&t), vec![Some(0), Some(1), Some(0), None]);

    let rows: Vec<StoredMapping> = t
        .iter()
        .map(|x| StoredMapping {
            video_ms: x.video_time_ms,
            pdf_hash: x.image.map(|_| "doc".to_string()),
            page: x.image,
            video_hash: "vid".to_string(),
        })
        .collect();
    let ms = video_pdf_matchings(&"doc".to_string(), &rows);
    let durations: Vec<u64> = ms.iter().map(|x| x.duration_ms).collect();
    assert_eq!(durations, vec![10000, 10000, 10000]);
    let pages: Vec<usize> = ms.iter().map(|x| x.page_idx).collect();
    assert_eq!(pages, vec![0, 1, 0]);
}

#[test]
fn unchanged_sample_is_counted_but_not_matched() {
    // Samples at 5 s and 10 s; the second is 0.99 similar to the first.
    let mut run = MatchRun::new(150, 15000, 3);
    assert!(is_changed_frame(None));
    let u = run.record(Matching::new(5000, 50, Some(0)));
    assert_eq!((u.processed, u.total), (1, 3));
    assert!(!is_changed_frame(Some(990_000_000)));
    let u = run.skip_unchanged();
    assert_eq!((u.processed, u.total), (2, 3));
    assert_eq!(run.processed(), 2);
    let t = run.finish();
    assert_eq!(times(&t), vec![5000, 15000]);
    let f = run.finished_update();
    assert_eq!((f.processed, f.total), (3, 3));
}
