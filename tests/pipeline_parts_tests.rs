use slideo::barcode::{barcode_dimensions, Dimensions, FrameRipper};
use slideo::files::{check_paths, dedup_by_hash, is_video_ext, split_by_kind, CheckedPath, HashedFile, Kind, PathError};
use slideo::pdf_info::{parse_pdf_info, pdf_info_from_output, trim_chars, PdfInfoError};
use slideo::progress::ComposedProgressReporter;
use slideo::rasterizer::{
    page_number_from_file_name, parse_u32, rasterizer_arguments, sort_pages, Color, Format, Options, Page, Pages,
    ProgressTracker,
};
use slideo::sampler::{frame_time_ms, frames_per_sample, is_changed_frame, is_sample_frame, samples_to_process};
use slideo::transaction::{Transaction, TransactionError, TransactionState};

fn chars(s: &str) -> Vec<char> {
    s.chars().collect()
}

#[test]
fn paths_are_checked_by_extension() {
    let c = CheckedPath::from("talk/slides.pdf".to_string(), false).ok().unwrap();
    assert_eq!((c.kind, c.path.as_str(), c.hash.is_none()), (Kind::Pdf, "talk/slides.pdf", true));
    let c = CheckedPath::from("talk/rec.mp4".to_string(), false).ok().unwrap();
    assert_eq!(c.kind, Kind::Video);
    match CheckedPath::from("talk/notes.txt".to_string(), false) {
        Err(PathError::UnsupportedExtension { path, extension }) => {
            assert_eq!(path, "talk/notes.txt");
            assert_eq!(extension.as_deref(), Some("txt"));
        }
        _ => panic!("expected an unsupported extension"),
    }
    match CheckedPath::from("talk/README".to_string(), false) {
        Err(PathError::UnsupportedExtension { extension, .. }) => assert!(extension.is_none()),
        _ => panic!("expected a missing extension"),
    }
    match CheckedPath::from("talk".to_string(), true) {
        Err(PathError::Directory { path }) => assert_eq!(path, "talk"),
        _ => panic!("expected a directory"),
    }
    assert!(is_video_ext("mkv"));
    assert!(!is_video_ext("MP4x"));
}

#[test]
fn the_first_refused_path_refuses_all() {
    let ok = check_paths(&vec![("a.pdf".to_string(), false), ("b.webm".to_string(), false)]).ok().unwrap();
    assert_eq!(ok.len(), 2);
    let err = check_paths(&vec![("a.pdf".to_string(), false), ("dir".to_string(), true), ("c.txt".to_string(), false)]);
    assert!(matches!(err, Err(PathError::Directory { .. })));
}

#[test]
fn files_split_by_kind_and_dedup_by_hash() {
    let paths = vec![
        CheckedPath { path: "a.pdf".to_string(), kind: Kind::Pdf, hash: Some("1".to_string()) },
        CheckedPath { path: "v.mp4".to_string(), kind: Kind::Video, hash: Some("2".to_string()) },
        CheckedPath { path: "b.pdf".to_string(), kind: Kind::Pdf, hash: Some("1".to_string()) },
    ];
    let (pdfs, videos) = split_by_kind(&paths);
    assert_eq!(pdfs.iter().map(|f| f.path.as_str()).collect::<Vec<_>>(), vec!["a.pdf", "b.pdf"]);
    assert_eq!(videos[0].hash, "2");
    let d = dedup_by_hash(&pdfs);
    assert_eq!(d.len(), 1);
    let d = dedup_by_hash(&vec![HashedFile::new("x".into(), "1".into()), HashedFile::new("y".into(), "2".into()), HashedFile::new("z".into(), "1".into())]);
    assert_eq!(d.len(), 3);
}

#[test]
fn progress_sums_over_sub_tasks() {
    let mut agg = ComposedProgressReporter::new();
    let a = agg.create_nested();
    let b = agg.create_nested();
    let u = a.report(&mut agg, 3, 10);
    assert_eq!((u.processed, u.total), (3, 10));
    let u = b.report(&mut agg, 1, 5);
    assert_eq!((u.processed, u.total), (4, 15));
    let u = a.report(&mut agg, 10, 10);
    assert_eq!((u.processed, u.total), (11, 15));
    let u = b.report(&mut agg, u64::MAX, 1);
    assert_eq!((u.processed, u.total), (u64::MAX, 11));
    let c = agg.combined();
    assert_eq!((c.processed, c.total), (u64::MAX, 11));
}

#[test]
fn sampling_schedule() {
    assert_eq!(frames_per_sample(29_970, 5000), 149);
    assert_eq!(frames_per_sample(100, 5000), 0);
    assert!(is_sample_frame(0, 149) && is_sample_frame(298, 149) && !is_sample_frame(150, 149));
    assert!(!is_sample_frame(0, 0));
    assert_eq!(frame_time_ms(300, 10_000), 30_000);
    assert_eq!(frame_time_ms(1, 30_000), 33);
    assert_eq!(samples_to_process(30_000, 5000), 6);
    assert_eq!(samples_to_process(4_999, 5000), 0);
    assert!(is_changed_frame(Some(979_999_999)));
    assert!(!is_changed_frame(Some(980_000_000)));
}

#[test]
fn rasterizer_arguments_and_page_count() {
    let o = Options { first_page: Some(1), last_page: Some(8), pages: Pages::Even, ..Options::default() };
    assert_eq!(o.exported_page_count(42), 4);
    assert_eq!(Options::default().exported_page_count(42), 42);
    let odd = Options { pages: Pages::Odd, ..Options::default() };
    assert_eq!(odd.exported_page_count(5), 2);
    let args = rasterizer_arguments("d.pdf", "/out/p", &o);
    assert_eq!(args, vec!["d.pdf", "/out/p", "-png", "-e", "-f", "1", "-l", "8"]);
    let g = Options { color: Color::Gray, format: Format::Jpeg, ..Options::default() };
    assert_eq!(rasterizer_arguments("d.pdf", "p", &g), vec!["d.pdf", "p", "-gray", "-jpeg"]);
    assert_eq!(Format::Svg.to_args(), vec!["-svg"]);
    assert!(Color::Color.to_args().is_empty());
    assert_eq!(Pages::Odd.to_args(), vec!["-o"]);
}

#[test]
fn page_numbers_from_file_names() {
    assert_eq!(page_number_from_file_name("p-01.png"), Some(1));
    assert_eq!(page_number_from_file_name("p-12.png"), Some(12));
    assert_eq!(page_number_from_file_name("p-x.png"), None);
    assert_eq!(page_number_from_file_name("p-.png"), None);
    assert_eq!(page_number_from_file_name("p"), None);
    assert_eq!(page_number_from_file_name("p-4294967296.png"), None);
    assert_eq!(parse_u32(&chars("4294967295")), Some(u32::MAX));
    let pages = vec![
        Page { index: 3, image_path: "c".into() },
        Page { index: 1, image_path: "a".into() },
        Page { index: 2, image_path: "b".into() },
    ];
    let sorted: Vec<String> = sort_pages(pages).into_iter().map(|p| p.image_path).collect();
    assert_eq!(sorted, vec!["a", "b", "c"]);
}

#[test]
fn rasterizer_progress_is_reported_on_change() {
    let mut t = ProgressTracker::new();
    assert!(t.observe(4, 0).is_some());
    assert!(t.observe(4, 0).is_none());
    let p = t.observe(4, 2).unwrap();
    assert_eq!((p.total_pages, p.processed_pages), (4, 2));
}

#[test]
fn pdf_info_gives_the_page_count() {
    let out = "Title:          slides\nPages:          42\n\nPage size:      720 x 540 pts\n";
    let info = pdf_info_from_output(out).ok().unwrap();
    assert_eq!(info.page_count(), 42);
    let entries = parse_pdf_info(out).ok().unwrap();
    assert_eq!(entries.len(), 3);
    assert_eq!(entries[2].0, chars("Page size"));
    assert_eq!(entries[2].1, chars("720 x 540 pts"));
    assert_eq!(trim_chars(&chars("\u{3000} a b\t\n")), chars("a b"));
}

#[test]
fn pdf_info_errors() {
    match pdf_info_from_output("Title: x\nbroken line\nPages: 3") {
        Err(PdfInfoError::InvalidLine { line }) => assert_eq!(line, chars("broken line")),
        _ => panic!("expected an invalid line"),
    }
    assert!(matches!(pdf_info_from_output("Title: x\n"), Err(PdfInfoError::MissingPageCount)));
    match pdf_info_from_output("Pages: many") {
        Err(PdfInfoError::InvalidPageCount { value }) => assert_eq!(value, chars("many")),
        _ => panic!("expected an invalid page count"),
    }
    assert_eq!(pdf_info_from_output("Pages: 1\nPages: 7").ok().unwrap().page_count(), 7);
}

#[test]
fn transactions_end_once() {
    let mut t = Transaction::begin();
    assert!(t.is_open());
    assert!(t.commit().is_ok());
    assert_eq!(t.state(), TransactionState::Committed);
    assert_eq!(t.rollback(), Err(TransactionError::NotOpen));
    let mut u = Transaction::begin();
    assert!(u.finish(false).is_ok());
    assert_eq!(u.state(), TransactionState::RolledBack);
}

#[test]
fn barcode_is_three_times_as_wide_as_high() {
    let d = barcode_dimensions(Dimensions::new(1920, 1080)).unwrap();
    assert_eq!((d.width, d.height), (3240, 1080));
    assert!(barcode_dimensions(Dimensions::new(1, u32::MAX)).is_none());
    let r = FrameRipper::new("in.mp4".into(), "out.png".into(), true);
    assert!(r.is_simple);
}
