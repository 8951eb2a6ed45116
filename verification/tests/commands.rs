use imagen_duplicada::commands::{
    candidate_name, candidates_detail, csv_escape, delete_mode, diff_canvas, diff_file_name,
    flatten_indices, gray_level, history_line, is_changed, modified_text, move_entry,
    pixel_difference, should_report, signature_candidates, size_candidates, summary_detail,
    LiveDuplicates, HISTORY_HEADER,
};
use imagen_duplicada::ImageInfo;

#[test]
fn size_phase_keeps_shared_sizes() {
    let sizes = vec![Some(10), Some(20), Some(10), None, Some(20), Some(30)];
    assert_eq!(size_candidates(&sizes, false), vec![vec![0, 2], vec![1, 4]]);
    assert_eq!(size_candidates(&sizes, true), vec![vec![0, 1, 2, 3, 4, 5]]);
    assert_eq!(size_candidates(&vec![None, None], false), Vec::<Vec<usize>>::new());
}

#[test]
fn signature_phase_keeps_shared_signatures() {
    let s = |x: &str| Some(x.to_string());
    let sigs = vec![s("a"), None, s("b"), s("a"), s("c"), s("b"), s("a"), None];
    assert_eq!(signature_candidates(&sigs), vec![vec![0, 3, 6], vec![2, 5]]);
    assert_eq!(flatten_indices(&signature_candidates(&sigs)), vec![0, 3, 6, 2, 5]);
}

#[test]
fn progress_texts() {
    assert_eq!(candidates_detail(3, 12), "3 descartados, 12 candidatos");
    assert_eq!(summary_detail(2, 0), "2 grupo(s) encontrados");
    assert_eq!(summary_detail(0, 5), "0 grupo(s) encontrados, 5 archivo(s) omitidos");
    assert!(should_report(50, 120));
    assert!(should_report(120, 120));
    assert!(!should_report(51, 120));
}

#[test]
fn history_lines_are_csv() {
    assert_eq!(HISTORY_HEADER, "fecha,modo,ruta");
    assert_eq!(csv_escape("a\"b"), "\"a\"\"b\"");
    assert_eq!(csv_escape(""), "\"\"");
    assert_eq!(
        history_line("2024-01-01 10:00:00", "papelera", "/x/y,z.jpg"),
        "2024-01-01 10:00:00,papelera,\"/x/y,z.jpg\""
    );
    assert_eq!(move_entry("/a.jpg", "/b/a.jpg"), "/a.jpg -> /b/a.jpg");
    assert_eq!(delete_mode(true), "papelera");
    assert_eq!(delete_mode(false), "permanente");
}

#[test]
fn alternative_names_for_moves() {
    assert_eq!(candidate_name("foto", "jpg", 2), "foto (2).jpg");
    assert_eq!(candidate_name("foto", "", 13), "foto (13)");
}

#[test]
fn difference_map_helpers() {
    assert_eq!(diff_canvas(800, 600), (800, 600));
    assert_eq!(diff_canvas(3200, 1000), (1600, 500));
    assert_eq!(diff_canvas(0, 0), (0, 1));
    assert_eq!(diff_canvas(4000, 1), (1600, 1));
    assert_eq!(pixel_difference((10, 20, 30), (40, 20, 0)), 20);
    assert_eq!(pixel_difference((255, 255, 255), (0, 0, 0)), 255);
    assert!(!is_changed(20));
    assert!(is_changed(21));
    assert_eq!(gray_level(0), 40);
    assert_eq!(gray_level(255), 116);
    assert_eq!(
        diff_file_name("x.png", "y.png"),
        "diff-7fc88ce9d73cc0413ca7b86e2f59c02a44a376d3ffadf3eccd2d1191f46926d7.png"
    );
}

#[test]
fn modification_times_in_utc() {
    assert_eq!(modified_text(0), Some("1970-01-01 00:00:00".to_string()));
    assert_eq!(modified_text(86_400 + 3_661), Some("1970-01-02 01:01:01".to_string()));
    assert_eq!(modified_text(i64::MAX), None);
}

fn img(path: &str, hash: &str, w: u32, size: u64) -> ImageInfo {
    ImageInfo {
        path: path.to_string(),
        file_name: path.to_string(),
        dir: String::new(),
        size_bytes: size,
        modified: None,
        date_taken: None,
        camera: None,
        width: Some(w),
        height: Some(w),
        hash: hash.to_string(),
        thumbnail: None,
        dhash: None,
    }
}

#[test]
fn live_duplicates_announced_from_second_copy() {
    let mut live = LiveDuplicates::new();
    let a = img("a.png", "h", 10, 5);
    assert!(live.fits(&a));
    assert!(live.record(&a).is_none());
    assert!(live.record(&img("other.png", "k", 10, 1)).is_none());
    let g = live.record(&img("b.png", "h", 20, 7)).expect("second copy");
    assert_eq!(g.confidence, "exacto");
    assert_eq!(g.total_size, 12);
    assert_eq!(g.images.len(), 2);
    assert_eq!(g.images[0].path, "b.png");
    let g3 = live.record(&img("c.png", "h", 5, 1)).expect("third copy");
    assert_eq!(g3.images.len(), 3);
    assert_eq!(g3.total_size, 13);
    assert!(!live.fits(&img("d.png", "h", 1, u64::MAX)));
    // A lone image is taken whatever its size; a second one with the same
    // hash is refused when the pixel count of the group overflows.
    let huge = img("e.png", "z", 70_000, 1);
    assert!(live.fits(&huge));
    assert!(live.record(&huge).is_none());
    assert!(!live.fits(&img("f.png", "z", 1, 1)));
}
