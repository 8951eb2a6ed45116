use imagen_duplicada::matcher::{group, group_with_options, grouping_fits, grouping_fits_with_options, sort_by_best, GroupOptions};
use imagen_duplicada::ImageInfo;

fn img(path: &str, hash: &str, date: Option<&str>, w: u32, h: u32) -> ImageInfo {
    ImageInfo {
        path: path.to_string(),
        file_name: path.split('/').last().unwrap_or(path).to_string(),
        dir: String::new(),
        size_bytes: 100,
        modified: None,
        date_taken: date.map(|s| s.to_string()),
        camera: Some("Cam".to_string()),
        width: Some(w),
        height: Some(h),
        hash: hash.to_string(),
        thumbnail: None,
        dhash: None,
    }
}

#[test]
fn groups_exact_duplicates() {
    let imgs = vec![
        img("a/foto.png", "hash1", Some("2020-01-01 10:00:00"), 800, 600),
        img("b/foto-copia.png", "hash1", Some("2020-01-01 10:00:00"), 800, 600),
        img("c/unic.png", "hash2", Some("2021-05-05 09:00:00"), 400, 300),
    ];
    let groups = group(imgs);
    assert_eq!(groups.len(), 1);
    assert_eq!(groups[0].confidence, "exacto");
    assert_eq!(groups[0].images.len(), 2);
}

#[test]
fn groups_probable_by_metadata() {
    let imgs = vec![
        img("a/original.jpg", "hashA", Some("2022-03-03 12:00:00"), 1024, 768),
        img("b/recodificado.jpg", "hashB", Some("2022-03-03 12:00:00"), 1024, 768),
        img("c/otro.jpg", "hashC", Some("2022-03-03 12:00:00"), 1024, 768),
        img("d/distinto.jpg", "hashD", Some("2022-03-04 12:00:00"), 1024, 768),
    ];
    let groups = group(imgs);
    assert_eq!(groups.len(), 1);
    assert_eq!(groups[0].confidence, "probable");
    assert_eq!(groups[0].images.len(), 3);
}

#[test]
fn merges_exact_and_metadata_groups() {
    let imgs = vec![
        img("a/original.png", "hash1", Some("2020-01-01 10:00:00"), 800, 600),
        img("b/copia.png", "hash1", Some("2020-01-01 10:00:00"), 800, 600),
        img("c/recodificado.png", "hash2", Some("2020-01-01 10:00:00"), 800, 600),
    ];
    let groups = group(imgs);
    assert_eq!(groups.len(), 1);
    assert_eq!(groups[0].confidence, "exacto");
    assert_eq!(groups[0].images.len(), 3);
}

#[test]
fn does_not_group_without_metadata() {
    let imgs = vec![
        img("a/1.jpg", "hashA", None, 100, 100),
        img("b/2.jpg", "hashB", None, 100, 100),
    ];
    let groups = group(imgs);
    assert_eq!(groups.len(), 0);
}

#[test]
fn keeps_best_first() {
    let imgs = vec![
        img("a/small.png", "hash1", Some("2020-01-01 10:00:00"), 200, 100),
        img("b/big.png", "hash1", Some("2020-01-01 10:00:00"), 2000, 1000),
    ];
    let groups = group(imgs);
    assert_eq!(groups[0].images[0].path, "b/big.png");
}

#[test]
fn empty_input_gives_no_groups() {
    assert_eq!(group(Vec::new()).len(), 0);
}

#[test]
fn chains_of_ties_form_one_group() {
    // a and b share a hash; b and c share metadata; c and d share a hash.
    let imgs = vec![
        img("a.png", "h1", Some("2020-01-01 10:00:00"), 10, 10),
        img("b.png", "h1", Some("2021-01-01 10:00:00"), 20, 20),
        img("c.png", "h2", Some("2021-01-01 10:00:00"), 20, 20),
        img("d.png", "h2", Some("2019-01-01 10:00:00"), 30, 30),
        img("e.png", "h3", Some("2018-01-01 10:00:00"), 30, 30),
    ];
    let groups = group(imgs);
    assert_eq!(groups.len(), 1);
    assert_eq!(groups[0].images.len(), 4);
    assert_eq!(groups[0].total_size, 400);
    let paths: Vec<&str> = groups[0].images.iter().map(|i| i.path.as_str()).collect();
    assert_eq!(paths, vec!["d.png", "b.png", "c.png", "a.png"]);
}

#[test]
fn groups_come_largest_first() {
    let mut small = img("s1.png", "hs", None, 10, 10);
    small.size_bytes = 5;
    let mut small2 = img("s2.png", "hs", None, 10, 10);
    small2.size_bytes = 5;
    let mut big = img("b1.png", "hb", None, 10, 10);
    big.size_bytes = 1000;
    let mut big2 = img("b2.png", "hb", None, 10, 10);
    big2.size_bytes = 1000;
    let groups = group(vec![small, big, small2, big2]);
    assert_eq!(groups.len(), 2);
    assert_eq!(groups[0].total_size, 2000);
    assert_eq!(groups[1].total_size, 10);
    assert_eq!(groups[0].confidence, "exacto");
}

#[test]
fn modified_date_stands_in_for_date_taken() {
    let mut a = img("a.jpg", "x1", None, 640, 480);
    a.modified = Some("2023-01-01 00:00:00".to_string());
    let mut b = img("b.jpg", "x2", None, 640, 480);
    b.modified = Some("2023-01-01 00:00:00".to_string());
    let groups = group(vec![a, b]);
    assert_eq!(groups.len(), 1);
    assert_eq!(groups[0].confidence, "probable");
}

#[test]
fn different_camera_is_not_probable_duplicate() {
    let a = img("a.jpg", "x1", Some("2020-01-01 10:00:00"), 640, 480);
    let mut b = img("b.jpg", "x2", Some("2020-01-01 10:00:00"), 640, 480);
    b.camera = Some("Other".to_string());
    assert_eq!(group(vec![a, b]).len(), 0);
}

#[test]
fn sort_by_best_orders_by_area_date_path() {
    let mut v = vec![
        img("z.png", "h", Some("2020-01-02 00:00:00"), 10, 10),
        img("y.png", "h", Some("2020-01-01 00:00:00"), 10, 10),
        img("x.png", "h", None, 10, 10),
        img("w.png", "h", Some("2020-01-01 00:00:00"), 10, 10),
        img("big.png", "h", Some("2030-01-01 00:00:00"), 100, 100),
    ];
    sort_by_best(&mut v);
    let paths: Vec<&str> = v.iter().map(|i| i.path.as_str()).collect();
    assert_eq!(paths, vec!["big.png", "x.png", "w.png", "y.png", "z.png"]);
}

#[test]
fn grouping_fits_only_looks_at_grouped_images() {
    let lone = img("lone.png", "solo", None, 70_000, 70_000);
    let a = img("a.png", "h", None, 10, 10);
    let b = img("b.png", "h", None, 10, 10);
    assert!(grouping_fits(&vec![lone.clone(), a.clone(), b.clone()]));
    let mut huge_dup = img("c.png", "h", None, 70_000, 70_000);
    assert!(!grouping_fits(&vec![a.clone(), huge_dup.clone()]));
    huge_dup.width = Some(10);
    huge_dup.height = Some(10);
    huge_dup.size_bytes = u64::MAX;
    assert!(!grouping_fits(&vec![a.clone(), huge_dup.clone()]));
    assert!(grouping_fits(&vec![a, huge_dup.clone(), lone.clone()]) == false);
    let mut other = img("o.png", "other", None, 10, 10);
    other.size_bytes = u64::MAX;
    assert!(grouping_fits(&vec![other, lone]));
    assert!(grouping_fits(&Vec::new()));
}

fn summary(groups: &[imagen_duplicada::DupGroup]) -> Vec<(String, u64, Vec<String>)> {
    let mut out: Vec<(String, u64, Vec<String>)> = groups
        .iter()
        .map(|g| {
            let mut paths: Vec<String> = g.images.iter().map(|i| i.path.clone()).collect();
            paths.sort();
            (g.confidence.clone(), g.total_size, paths)
        })
        .collect();
    out.sort();
    out
}

#[test]
fn grouping_ignores_input_order() {
    let imgs = vec![
        img("a/original.png", "hash1", Some("2020-01-01 10:00:00"), 800, 600),
        img("b/copia.png", "hash1", Some("2020-01-01 10:00:00"), 800, 600),
        img("c/otra.jpg", "hash2", Some("2022-03-03 12:00:00"), 1024, 768),
        img("d/recodificada.jpg", "hash3", Some("2022-03-03 12:00:00"), 1024, 768),
        img("e/sola.jpg", "hash4", Some("2019-09-09 08:00:00"), 640, 480),
        img("f/puente.png", "hash3", None, 10, 10),
    ];
    let forward = group(imgs.clone());
    let mut reversed_input = imgs.clone();
    reversed_input.reverse();
    let backward = group(reversed_input);
    let mut rotated_input = imgs;
    rotated_input.rotate_left(2);
    let rotated = group(rotated_input);
    assert_eq!(summary(&forward), summary(&backward));
    assert_eq!(summary(&forward), summary(&rotated));
    assert_eq!(
        summary(&forward),
        vec![
            ("exacto".to_string(), 200, vec!["a/original.png".to_string(), "b/copia.png".to_string()]),
            (
                "exacto".to_string(),
                300,
                vec![
                    "c/otra.jpg".to_string(),
                    "d/recodificada.jpg".to_string(),
                    "f/puente.png".to_string()
                ]
            ),
        ]
    );
}

fn with_dhash(mut im: ImageInfo, dh: Option<u64>) -> ImageInfo {
    im.dhash = dh;
    im
}

#[test]
fn similar_images_grouped_when_asked() {
    let imgs = vec![
        with_dhash(img("a/foto.jpg", "h1", Some("2020-01-01 10:00:00"), 800, 600), Some(0b1011)),
        with_dhash(img("b/reducida.jpg", "h2", Some("2021-02-02 11:00:00"), 400, 300), Some(0b0000)),
        with_dhash(img("c/otra.jpg", "h3", Some("2022-03-03 12:00:00"), 640, 480), Some(u64::MAX)),
        with_dhash(img("d/sin_hash.jpg", "h4", Some("2023-04-04 13:00:00"), 320, 240), None),
    ];
    let on = GroupOptions { dhash_umbral: 8, buscar_similares: true };
    assert!(grouping_fits_with_options(&imgs, on));
    let groups = group_with_options(imgs.clone(), on);
    assert_eq!(groups.len(), 1);
    assert_eq!(groups[0].confidence, "probable");
    let paths: Vec<&str> = groups[0].images.iter().map(|i| i.path.as_str()).collect();
    assert_eq!(paths, vec!["a/foto.jpg", "b/reducida.jpg"]);
    assert_eq!(groups[0].total_size, 200);

    let strict = GroupOptions { dhash_umbral: 2, buscar_similares: true };
    assert!(group_with_options(imgs.clone(), strict).is_empty());
    let off = GroupOptions { dhash_umbral: 64, buscar_similares: false };
    assert!(group_with_options(imgs.clone(), off).is_empty());
    assert!(group(imgs).is_empty());
}
