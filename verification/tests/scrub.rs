use regex::Regex;
use text_signals::error::ConfigError;
use text_signals::bounds::fuse_bounds;
use text_signals::scrub::{scrub, scrub_text, Scrubber};

fn strings(items: &[&str]) -> Vec<String> {
    items.iter().map(|s| s.to_string()).collect()
}

/// Sort by start, then fold from the left.
fn plain_fuse(mut bounds: Vec<(usize, usize)>) -> Vec<(usize, usize)> {
    if bounds.is_empty() {
        return Vec::new();
    }
    bounds.sort_unstable_by_key(|k| k.0);
    let mut merged = Vec::new();
    let mut current = bounds[0];
    for &(start, stop) in &bounds[1..] {
        if start <= current.1 {
            current.1 = current.1.max(stop);
        } else {
            merged.push(current);
            current = (start, stop);
        }
    }
    merged.push(current);
    merged
}

fn plain_scrub(text: &str, patterns: &[&str], replacement: &str) -> String {
    let mut bounds = Vec::new();
    for p in patterns {
        let re = Regex::new(p).unwrap();
        for m in re.find_iter(text) {
            bounds.push((m.start(), m.end()));
        }
    }
    let mut out = String::new();
    let mut last_stop = 0;
    for (start, stop) in plain_fuse(bounds) {
        out.push_str(&text[last_stop..start]);
        out.push_str(replacement);
        last_stop = stop;
    }
    out.push_str(&text[last_stop..]);
    out
}

#[test]
fn fuse_bounds_of_nothing_is_nothing() {
    assert_eq!(fuse_bounds(&vec![]), vec![]);
}

#[test]
fn fuse_bounds_joins_overlapping_and_touching_bounds() {
    assert_eq!(fuse_bounds(&vec![(0, 2), (1, 5), (5, 6), (8, 9)]), vec![(0, 6), (8, 9)]);
}

#[test]
fn fuse_bounds_keeps_separate_bounds_apart() {
    assert_eq!(fuse_bounds(&vec![(1, 2), (3, 4)]), vec![(1, 2), (3, 4)]);
}

#[test]
fn fuse_bounds_sorts_first() {
    assert_eq!(fuse_bounds(&vec![(7, 9), (0, 1), (3, 8), (1, 2)]), vec![(0, 2), (3, 9)]);
}

#[test]
fn fuse_bounds_swallows_contained_and_empty_bounds() {
    assert_eq!(fuse_bounds(&vec![(0, 10), (2, 3), (4, 4), (10, 10)]), vec![(0, 10)]);
    assert_eq!(fuse_bounds(&vec![(4, 4), (4, 4)]), vec![(4, 4)]);
}

#[test]
fn fuse_bounds_matches_the_fold_over_sorted_bounds() {
    let cases: Vec<Vec<(usize, usize)>> = vec![
        vec![(5, 6), (1, 3), (2, 4), (9, 12), (11, 11), (0, 0)],
        vec![(3, 3), (3, 7), (3, 5), (8, 9), (7, 8)],
        vec![(10, 20), (0, 5), (5, 10), (30, 31), (21, 29)],
    ];
    for case in cases {
        assert_eq!(fuse_bounds(&case), plain_fuse(case.clone()));
    }
}

#[test]
fn scrub_text_replaces_each_stretch() {
    let out = scrub_text(b"call 555 or 777 now", &vec![(5, 8), (12, 15)], b"#");
    assert_eq!(out, b"call # or # now".to_vec());
    assert_eq!(scrub_text(b"abc", &vec![], b"#"), b"abc".to_vec());
    assert_eq!(scrub_text(b"abc", &vec![(0, 3)], b"--"), b"--".to_vec());
    assert_eq!(scrub_text(b"abc", &vec![(1, 1)], b"-"), b"a-bc".to_vec());
}

#[test]
fn scrubber_replaces_what_any_pattern_matches() {
    let patterns = [r"\d+", r"[a-z]+@[a-z]+\.[a-z]+", r"o\d"];
    let s = Scrubber::new(&strings(&patterns), "<X>").unwrap();
    for text in [
        "mail bob@site.org or call 12345, room o7",
        "nothing to see",
        "",
        "007",
        "été 2024 à a@b.fr",
    ] {
        assert_eq!(s.scrub(text), plain_scrub(text, &patterns, "<X>"));
    }
    assert_eq!(s.scrub("id 42 and o9x"), "id <X> and <X>x");
}

#[test]
fn overlapping_matches_of_different_patterns_are_replaced_once() {
    let s = Scrubber::new(&strings(&["ab+", "b+c"]), "_").unwrap();
    assert_eq!(s.scrub("xabbbcx"), "x_x");
}

#[test]
fn scrub_rows_keeps_absent_rows_absent() {
    let rows = vec![Some("a1".to_string()), None, Some("".to_string())];
    let out = scrub(&rows, &strings(&[r"\d"]), "#").unwrap();
    assert_eq!(out, vec![Some("a#".to_string()), None, Some(String::new())]);
}

#[test]
fn scrub_refuses_an_invalid_pattern() {
    let rows = vec![Some("a1".to_string())];
    assert!(matches!(
        scrub(&rows, &strings(&[r"\d", "("]), "#"),
        Err(ConfigError::InvalidPattern { .. })
    ));
}

#[test]
fn scrubbing_keeps_multibyte_text_intact() {
    let s = Scrubber::new(&strings(&[r"\p{Greek}+", "é"]), "…").unwrap();
    assert_eq!(s.scrub("été αβγ 日本語 δ"), "…t… … 日本語 …");
}
