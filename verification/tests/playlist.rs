use std::collections::HashSet;

use rand::rngs::StdRng;
use rand::SeedableRng;
use wallpaper_shuffler::model::CycleMode;
use wallpaper_shuffler::playlist::{extension_is_supported, is_supported_extension, FileEntry, Playlist};

fn seeded_rng() -> StdRng {
    StdRng::seed_from_u64(42)
}

fn files(dir: &str, names: &[&str]) -> Vec<String> {
    names.iter().map(|n| format!("{dir}/{n}")).collect()
}

fn file_name(p: &str) -> &str {
    p.rsplit('/').next().unwrap()
}

/// A folder listing with a.jpg, b.JPEG, c.png, d.bmp, e.webp, f.txt (the
/// scan skips subdirectories before the playlist sees the files): only the
/// four supported files are kept, sorted by name.
#[test]
fn scan_filtering_supported_only_and_non_recursive() {
    let pl = Playlist::from_files(files(
        "/pics",
        &["e.webp", "d.bmp", "f.txt", "c.png", "b.JPEG", "a.jpg"],
    ));
    assert_eq!(pl.len(), 4, "expected a.jpg, b.JPEG, c.png, d.bmp only");
    assert!(!pl.is_empty());
    let names: Vec<&str> = pl.images().iter().map(|p| file_name(p)).collect();
    assert_eq!(names, vec!["a.jpg", "b.JPEG", "c.png", "d.bmp"]);
}

/// Case-insensitive extension matching: .JPG, .Png, .BMP all accepted.
#[test]
fn scan_case_insensitive_extensions() {
    let pl = Playlist::from_files(files("/pics", &["x.JPG", "y.Png", "z.BMP"]));
    assert_eq!(pl.len(), 3);
}

#[test]
fn empty_build_no_folders() {
    let pl = Playlist::from_files(vec![]);
    assert!(pl.is_empty());
    assert_eq!(pl.len(), 0);
}

#[test]
fn empty_build_missing_folder() {
    // a missing folder contributes no files
    let pl = Playlist::from_files(Vec::new());
    assert!(pl.is_empty());
    assert_eq!(pl.len(), 0);
}

#[test]
fn next_returns_none_when_empty() {
    let mut pl = Playlist::from_files(vec![]);
    let mut rng = seeded_rng();
    assert_eq!(pl.next(CycleMode::Sequential, &mut rng), None);
    assert_eq!(pl.next(CycleMode::Shuffle, &mut rng), None);
    assert_eq!(pl.next(CycleMode::PureRandom, &mut rng), None);
}

/// Sequential returns images in sorted-by-filename order and wraps around.
#[test]
fn sequential_sorted_order_and_wraparound() {
    let mut pl = Playlist::from_files(files("/pics", &["c.jpg", "a.jpg", "b.jpg"]));
    let mut rng = seeded_rng();

    let r0 = pl.next(CycleMode::Sequential, &mut rng).unwrap();
    let r1 = pl.next(CycleMode::Sequential, &mut rng).unwrap();
    let r2 = pl.next(CycleMode::Sequential, &mut rng).unwrap();
    // Wraparound: the 4th call returns the 1st image again.
    let r3 = pl.next(CycleMode::Sequential, &mut rng).unwrap();

    assert_eq!(file_name(&r0), "a.jpg");
    assert_eq!(file_name(&r1), "b.jpg");
    assert_eq!(file_name(&r2), "c.jpg");
    assert_eq!(file_name(&r3), "a.jpg", "expected wrap-around");
}

/// Across one full pass of N items, all N distinct paths appear exactly once.
#[test]
fn shuffle_no_repeat_within_pass() {
    let n = 6usize;
    let names: Vec<String> = (0..n).map(|i| format!("/pics/{i}.jpg")).collect();
    let mut pl = Playlist::from_files(names);
    let mut rng = seeded_rng();

    let mut seen: HashSet<String> = HashSet::new();
    for _ in 0..n {
        let p = pl.next(CycleMode::Shuffle, &mut rng).unwrap();
        assert!(seen.insert(p.clone()), "duplicate image in single shuffle pass: {:?}", p);
    }
    assert_eq!(seen.len(), n, "all {} images must appear exactly once", n);
}

/// After one full pass, the next pass also contains all N images exactly
/// once (reshuffle on exhaustion).
#[test]
fn shuffle_reshuffles_after_exhaustion() {
    let n = 4usize;
    let names: Vec<String> = (0..n).map(|i| format!("/pics/{i}.jpg")).collect();
    let mut pl = Playlist::from_files(names);
    let mut rng = seeded_rng();

    for _ in 0..n {
        pl.next(CycleMode::Shuffle, &mut rng).unwrap();
    }
    let mut seen: HashSet<String> = HashSet::new();
    for _ in 0..n {
        let p = pl.next(CycleMode::Shuffle, &mut rng).unwrap();
        seen.insert(p);
    }
    assert_eq!(seen.len(), n);
}

/// Every returned path is in the playlist; a fixed seed reproduces the
/// sequence; repeats are permitted.
#[test]
fn pure_random_in_range_and_reproducible() {
    let n = 5usize;
    let names: Vec<String> = (0..n).map(|i| format!("/pics/{i}.jpg")).collect();

    let run = || -> Vec<String> {
        let mut pl = Playlist::from_files(names.clone());
        let mut rng = StdRng::seed_from_u64(99);
        (0..10).map(|_| pl.next(CycleMode::PureRandom, &mut rng).unwrap()).collect()
    };
    let results_a = run();
    let results_b = run();
    assert_eq!(results_a, results_b, "same seed must yield same sequence");

    let images: HashSet<String> = Playlist::from_files(names.clone()).images().iter().cloned().collect();
    for p in &results_a {
        assert!(images.contains(p), "returned path not in image set: {:?}", p);
    }
}

/// Removes the bad path and returns the following image.
#[test]
fn skip_and_next_removes_bad_and_returns_valid() {
    let mut pl = Playlist::from_files(files("/pics", &["a.jpg", "b.jpg", "c.jpg"]));
    let mut rng = seeded_rng();

    let first = pl.next(CycleMode::Sequential, &mut rng).unwrap();
    assert_eq!(file_name(&first), "a.jpg");

    let after = pl.skip_and_next(&first, CycleMode::Sequential, &mut rng);
    assert!(after.is_some(), "expected a valid next image");
    let name = after.unwrap();
    let name_str = file_name(&name);
    assert!(name_str == "b.jpg" || name_str == "c.jpg", "unexpected image: {name_str}");
    assert_eq!(pl.len(), 2, "bad image should be removed");
}

#[test]
fn skip_and_next_single_image_returns_none() {
    let mut pl = Playlist::from_files(files("/pics", &["only.jpg"]));
    let mut rng = seeded_rng();

    let only = pl.images()[0].clone();
    let result = pl.skip_and_next(&only, CycleMode::Sequential, &mut rng);
    assert_eq!(result, None, "removing the only image should return None");
    assert!(pl.is_empty());
}

#[test]
fn skip_and_next_unknown_path_is_noop() {
    let mut pl = Playlist::from_files(files("/pics", &["a.jpg", "b.jpg"]));
    let mut rng = seeded_rng();

    let ghost = "/no/such/image.jpg".to_string();
    let result = pl.skip_and_next(&ghost, CycleMode::Sequential, &mut rng);
    assert!(result.is_some(), "should return next even when bad not found");
    assert_eq!(pl.len(), 2, "no removal should have occurred");
}

/// After skipping the image under the cursor, Sequential continues with the
/// image that followed it.
#[test]
fn skip_and_next_sequential_keeps_the_following_image() {
    let mut pl = Playlist::from_files(files("/pics", &["a.jpg", "b.jpg", "c.jpg"]));
    let mut rng = seeded_rng();
    let a = pl.next(CycleMode::Sequential, &mut rng).unwrap();
    let b = pl.skip_and_next(&a, CycleMode::Sequential, &mut rng).unwrap();
    assert_eq!(file_name(&b), "b.jpg");
    let c = pl.next(CycleMode::Sequential, &mut rng).unwrap();
    assert_eq!(file_name(&c), "c.jpg");
    let again = pl.next(CycleMode::Sequential, &mut rng).unwrap();
    assert_eq!(file_name(&again), "b.jpg");
}

/// Skipping during a Shuffle pass never returns the removed image, and the
/// pass still visits each remaining image once.
#[test]
fn skip_and_next_shuffle_never_returns_removed_image() {
    let names: Vec<String> = (0..5).map(|i| format!("/pics/{i}.jpg")).collect();
    let mut pl = Playlist::from_files(names);
    let mut rng = seeded_rng();
    let bad = pl.next(CycleMode::Shuffle, &mut rng).unwrap();
    let mut seen = HashSet::new();
    let r = pl.skip_and_next(&bad, CycleMode::Shuffle, &mut rng).unwrap();
    assert_ne!(r, bad);
    seen.insert(r);
    for _ in 0..2 {
        let p = pl.next(CycleMode::Shuffle, &mut rng).unwrap();
        assert_ne!(p, bad);
        assert!(seen.insert(p));
    }
    assert_eq!(pl.len(), 4);
}

/// Equal names (case-folded) keep their scan order (stable sort).
#[test]
fn sort_is_case_insensitive_and_stable() {
    let pl = Playlist::from_files(vec![
        "/b/Sun.png".to_string(),
        "/a/moon.jpg".to_string(),
        "/a/sun.png".to_string(),
        "/c/SUN.png".to_string(),
    ]);
    assert_eq!(
        pl.images().clone(),
        vec![
            "/a/moon.jpg".to_string(),
            "/b/Sun.png".to_string(),
            "/a/sun.png".to_string(),
            "/c/SUN.png".to_string(),
        ]
    );
}

#[test]
fn from_entries_uses_given_extension_and_name() {
    let pl = Playlist::from_entries(vec![
        FileEntry { path: "p1".to_string(), extension: Some("PNG".to_string()), file_name: Some("Zed".to_string()) },
        FileEntry { path: "p2".to_string(), extension: None, file_name: Some("a".to_string()) },
        FileEntry { path: "p3".to_string(), extension: Some("bmp".to_string()), file_name: None },
        FileEntry { path: "p4".to_string(), extension: Some("webp".to_string()), file_name: Some("b".to_string()) },
    ]);
    // no file name sorts as the empty key, first
    assert_eq!(pl.images().clone(), vec!["p3".to_string(), "p1".to_string()]);
}

#[test]
fn supported_extensions() {
    assert!(extension_is_supported("jpg"));
    assert!(extension_is_supported("JpEg"));
    assert!(extension_is_supported("png"));
    assert!(extension_is_supported("BMP"));
    assert!(!extension_is_supported("webp"));
    assert!(!extension_is_supported("txt"));
    assert!(!extension_is_supported(""));
    assert!(is_supported_extension("/x/y/photo.JPG"));
    assert!(!is_supported_extension("/x/y/jpg"));
    assert!(!is_supported_extension("/x/y/photo.jpg.txt"));
}

/// After a full Shuffle pass the cursor stands at the end; a switch to
/// Sequential then starts again from the first image.
#[test]
fn sequential_after_full_shuffle_pass_restarts_at_first_image() {
    let mut pl = Playlist::from_files(files("/pics", &["a.jpg", "b.jpg", "c.jpg"]));
    let mut rng = seeded_rng();
    for _ in 0..3 {
        pl.next(CycleMode::Shuffle, &mut rng);
    }
    let names: Vec<String> = (0..4)
        .map(|_| file_name(&pl.next(CycleMode::Sequential, &mut rng).unwrap()).to_string())
        .collect();
    assert_eq!(names, vec!["a.jpg", "b.jpg", "c.jpg", "a.jpg"]);
}

/// The first Shuffle pass after a build is drawn from the random source like
/// every later pass: different seeds give different first passes.
#[test]
fn first_shuffle_pass_is_random() {
    let names: Vec<String> = (0..8).map(|i| format!("{i}.jpg")).collect();
    let refs: Vec<&str> = names.iter().map(|s| s.as_str()).collect();
    let mut passes = HashSet::new();
    for seed in 0..10u64 {
        let mut pl = Playlist::from_files(files("/pics", &refs));
        let mut rng = StdRng::seed_from_u64(seed);
        let pass: Vec<String> = (0..8).map(|_| pl.next(CycleMode::Shuffle, &mut rng).unwrap()).collect();
        let distinct: HashSet<&String> = pass.iter().collect();
        assert_eq!(distinct.len(), 8);
        passes.insert(pass);
    }
    assert!(passes.len() > 1, "every seed gave the same first pass");
}

/// Skipping the image just shown in a Shuffle pass keeps the rest of the
/// pass: every other image still comes exactly once before a reshuffle.
#[test]
fn shuffle_skip_keeps_the_rest_of_the_pass() {
    let mut pl = Playlist::from_files(files("/pics", &["a.jpg", "b.jpg", "c.jpg", "d.jpg"]));
    let mut rng = seeded_rng();
    let first = pl.next(CycleMode::Shuffle, &mut rng).unwrap();
    let mut rest = vec![pl.skip_and_next(&first, CycleMode::Shuffle, &mut rng).unwrap()];
    rest.push(pl.next(CycleMode::Shuffle, &mut rng).unwrap());
    rest.push(pl.next(CycleMode::Shuffle, &mut rng).unwrap());
    let got: HashSet<String> = rest.iter().cloned().collect();
    let all: HashSet<String> = files("/pics", &["a.jpg", "b.jpg", "c.jpg", "d.jpg"]).into_iter().collect();
    let expected: HashSet<String> = all.into_iter().filter(|p| *p != first).collect();
    assert_eq!(rest.len(), 3);
    assert_eq!(got, expected);
}

/// Two builds from the same scanned files list the images in the same order.
#[test]
fn same_files_give_the_same_order() {
    let scanned = vec![
        "/p/b.png".to_string(),
        "/p/A.jpg".to_string(),
        "/q/a.jpg".to_string(),
        "/p/notes.txt".to_string(),
    ];
    let first = Playlist::from_files(scanned.clone());
    let second = Playlist::from_files(scanned);
    assert_eq!(first.images().clone(), second.images().clone());
    assert_eq!(
        first.images().clone(),
        vec!["/p/A.jpg".to_string(), "/q/a.jpg".to_string(), "/p/b.png".to_string()]
    );
}

/// The extension is the text after the last `.` of the last path piece; a
/// name whose only `.` leads it has none.
#[test]
fn extension_of_the_last_piece() {
    assert!(is_supported_extension("a/b/x.png"));
    assert!(is_supported_extension("..jpg"));
    assert!(!is_supported_extension("/pics/.jpg"));
    assert!(!is_supported_extension("/pics.jpg/readme"));
    assert!(!is_supported_extension("photo.jpg."));
}

/// A path listed twice (a folder assigned twice) is removed entirely.
#[test]
fn skip_removes_every_copy_of_the_bad_path() {
    let mut scanned = files("/pics", &["a.jpg", "b.jpg"]);
    scanned.extend(files("/pics", &["a.jpg"]));
    let mut pl = Playlist::from_files(scanned);
    assert_eq!(pl.len(), 3);
    let mut rng = seeded_rng();
    let bad = "/pics/a.jpg".to_string();
    let r = pl.skip_and_next(&bad, CycleMode::Sequential, &mut rng);
    assert_eq!(r, Some("/pics/b.jpg".to_string()));
    assert_eq!(pl.images().clone(), vec!["/pics/b.jpg".to_string()]);
    for mode in [CycleMode::Sequential, CycleMode::Shuffle, CycleMode::PureRandom] {
        assert_eq!(pl.next(mode, &mut rng), Some("/pics/b.jpg".to_string()));
    }
}

/// Windows paths: the extension is read from the last piece.
#[test]
fn windows_paths_extension() {
    assert!(is_supported_extension(r"C:\pics\a.jpg"));
    assert!(is_supported_extension(r"C:\pics\B.PNG"));
    assert!(!is_supported_extension(r"C:\pics\a.webp"));
    assert!(!is_supported_extension(r"C:\pics.jpg\readme.txt"));
}
