use linesample::lines::{is_comment, split_comments, CommentTally};
use linesample::run::sample_lines;
use linesample::select::{select_indices, select_lines, take_next, Replay};
use linesample::size::{parse_size, SampleSize};
use rand::SeedableRng;
use rand_pcg::Pcg64;

fn strings(items: &[&str]) -> Vec<String> {
    items.iter().map(|s| s.to_string()).collect()
}

fn is_subsequence(part: &[String], whole: &[String]) -> bool {
    let mut it = whole.iter();
    part.iter().all(|p| it.any(|w| w == p))
}

#[test]
fn selection_is_sorted_distinct_and_in_range() {
    let mut rng = Pcg64::seed_from_u64(7);
    for n in 0..12usize {
        for k in 0..=n {
            let sel = select_indices(n, k, &mut rng);
            assert_eq!(sel.len(), k);
            for w in sel.windows(2) {
                assert!(w[0] < w[1]);
            }
            assert!(sel.iter().all(|&i| i < n));
        }
    }
}

#[test]
fn empty_selection_draws_nothing() {
    let mut rng = Pcg64::seed_from_u64(11);
    let before = rng.clone();
    let sel = select_indices(10, 0, &mut rng);
    assert!(sel.is_empty());
    assert!(rng == before);
}

#[test]
fn full_selection_is_every_position() {
    let mut rng = Pcg64::seed_from_u64(3);
    let sel = select_indices(6, 6, &mut rng);
    assert_eq!(sel, vec![0, 1, 2, 3, 4, 5]);
    let lines = strings(&["a", "b", "c", "d", "e", "f"]);
    assert_eq!(select_lines(&lines, &sel), lines);
}

#[test]
fn selection_frequencies_are_uniform() {
    let mut rng = Pcg64::seed_from_u64(2024);
    let runs = 30000;
    let mut hits = [0usize; 10];
    for _ in 0..runs {
        for i in select_indices(10, 3, &mut rng) {
            hits[i] += 1;
        }
    }
    for &h in hits.iter() {
        let freq = h as f64 / runs as f64;
        assert!((freq - 0.3).abs() < 0.02, "frequency {}", freq);
    }
}

#[test]
fn select_lines_keeps_order() {
    let lines = strings(&["a", "b", "c", "d", "e"]);
    assert_eq!(select_lines(&lines, &vec![0, 2, 4]), strings(&["a", "c", "e"]));
    assert_eq!(select_lines(&lines, &vec![]), Vec::<String>::new());
}

#[test]
fn replay_tells_selected_positions() {
    let mut replay = Replay::new(vec![1, 3]);
    let kept: Vec<bool> = (0..5).map(|_| replay.keep()).collect();
    assert_eq!(kept, vec![false, true, false, true, false]);
}

#[test]
fn comment_detection() {
    assert!(is_comment("#hdr", "#"));
    assert!(is_comment("//x", "//"));
    assert!(!is_comment("x#", "#"));
    assert!(!is_comment("#hdr", ""));
    assert!(!is_comment("/", "//"));
}

#[test]
fn split_keeps_both_parts_in_order() {
    let lines = strings(&["#a", "x", "#b", "y"]);
    let (comments, eligible) = split_comments(&lines, "#");
    assert_eq!(comments, strings(&["#a", "#b"]));
    assert_eq!(eligible, strings(&["x", "y"]));
    let (none, all) = split_comments(&lines, "");
    assert!(none.is_empty());
    assert_eq!(all, lines);
}

#[test]
fn two_pass_three_of_five() {
    let lines = strings(&["a", "b", "c", "d", "e"]);
    let size = parse_size("3").unwrap();
    for seed in 0..20u64 {
        let mut rng = Pcg64::seed_from_u64(seed);
        let (comments, sample) = sample_lines(&lines, "", &size, &mut rng).unwrap();
        assert!(comments.is_empty());
        assert_eq!(sample.len(), 3);
        assert!(is_subsequence(&sample, &lines));
    }
}

#[test]
fn two_pass_with_comment_header() {
    let lines = strings(&["#hdr", "x", "y", "z"]);
    let size = parse_size("2").unwrap();
    let eligible = strings(&["x", "y", "z"]);
    for seed in 0..20u64 {
        let mut rng = Pcg64::seed_from_u64(seed);
        let (comments, sample) = sample_lines(&lines, "#", &size, &mut rng).unwrap();
        assert_eq!(comments, strings(&["#hdr"]));
        assert_eq!(sample.len(), 2);
        assert!(is_subsequence(&sample, &eligible));
    }
}

#[test]
fn two_pass_whole_population() {
    let lines = strings(&["p", "q", "r"]);
    let mut rng = Pcg64::seed_from_u64(5);
    let (_, sample) = sample_lines(&lines, "", &SampleSize::Relative { numer: 1, denom: 1 }, &mut rng)
        .unwrap();
    assert_eq!(sample, lines);
}

#[test]
fn two_pass_empty_size_draws_nothing() {
    let lines = strings(&["p", "q", "r"]);
    let mut rng = Pcg64::seed_from_u64(5);
    let before = rng.clone();
    let (_, sample) = sample_lines(&lines, "", &SampleSize::Absolute(0), &mut rng).unwrap();
    assert!(sample.is_empty());
    assert!(rng == before);
}

#[test]
fn two_pass_size_exceeds_population() {
    let lines = strings(&["#c", "p", "q"]);
    let mut rng = Pcg64::seed_from_u64(5);
    assert_eq!(
        sample_lines(&lines, "#", &SampleSize::Absolute(3), &mut rng),
        Err(linesample::error::SampleError::SizeExceedsPopulation)
    );
}

#[test]
fn take_next_decides_by_draw() {
    assert!(take_next(2, 2, 1));
    assert!(take_next(2, 5, 1));
    assert!(!take_next(2, 5, 2));
    assert!(!take_next(0, 5, 0));
    assert!(take_next(1, 1, 0));
}

#[test]
fn comment_tally_counts_eligible_lines() {
    let mut tally = CommentTally::new("#".to_string());
    for line in strings(&["#hdr", "x", "y", "#mid", "z"]) {
        tally.add(line);
    }
    assert_eq!(tally.seen(), 5);
    assert_eq!(tally.eligible(), 3);
    assert_eq!(tally.into_comments(), strings(&["#hdr", "#mid"]));
    let mut plain = CommentTally::new(String::new());
    plain.add("#x".to_string());
    assert_eq!(plain.eligible(), 1);
    assert!(plain.into_comments().is_empty());
}
