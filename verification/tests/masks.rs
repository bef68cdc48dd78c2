use maskrank::ComputedMask;
use maskrank::MaskError;
use maskrank::ReadError;
use maskrank::compute_mask_size;
use maskrank::generate_mask;
use maskrank::generate_masks_from_bufreader;
use maskrank::parse_lines;
use maskrank::select_masks;
use maskrank::sort_masks;

fn ok_lines(words: &[&str]) -> Vec<Result<String, ReadError>> {
    words.iter().map(|w| Ok(w.to_string())).collect()
}

#[test]
fn mask_generation() {
    let word = "HelloFriend";
    let mask = generate_mask(word).unwrap();
    assert_eq!(mask, "ullllulllll");
}

#[test]
fn mask_size_computation() {
    let mask = "ullllulllll";
    let mask_size = compute_mask_size(mask, usize::MAX).unwrap();
    assert_eq!(mask_size, 3670344486987776);
}

#[test]
fn mask_cost() {
    let mask = "ullllulllll";
    let mask_size = compute_mask_size(mask, usize::MAX).unwrap();
    let mask_occurrences = 1000;
    let mask_cost = (mask_occurrences as f64) / (mask_size as f64);
    assert_eq!(mask_cost, 2.7245398995795416e-13);
}

#[test]
fn masks_from_iterator() {
    let wordlist = ok_lines(&["Hello", "Friend", "Password", "P@$$w0rd"]);
    generate_masks_from_bufreader(&wordlist).unwrap();
}

#[test]
fn sort_masks_list() {
    let wordlist = ok_lines(&["Hello", "Friend", "Password", "P@$$w0rd"]);
    let mask_map = generate_masks_from_bufreader(&wordlist).unwrap();
    let mask_list = sort_masks(&mask_map, usize::MAX);
    assert_eq!(mask_list[0].mask, "ullll");
}

#[test]
fn classify_each_class() {
    assert_eq!(generate_mask("Ab1 !").unwrap(), "uldss");
    assert_eq!(generate_mask("").unwrap(), "");
    let word = "P@$$w0rd";
    let mask = generate_mask(word).unwrap();
    assert_eq!(mask, "usssldll");
    assert_eq!(mask.len(), word.len());
}

#[test]
fn classify_rejects_first_invalid_character() {
    match generate_mask("ab\tc\u{e9}") {
        Err(MaskError::InvalidCharacter(c)) => assert_eq!(c, '\t'),
        other => panic!("expected an invalid-character error, got {:?}", other),
    }
    match generate_mask("caf\u{e9}") {
        Err(MaskError::InvalidCharacter(c)) => assert_eq!(c, '\u{e9}'),
        other => panic!("expected an invalid-character error, got {:?}", other),
    }
}

#[test]
fn size_respects_ceiling_exactly() {
    // 26 * 26 == 676: kept at the ceiling, dropped one below it.
    assert_eq!(compute_mask_size("ll", 676), Some(676));
    assert_eq!(compute_mask_size("ll", 675), None);
    assert_eq!(compute_mask_size("d", usize::MAX), Some(10));
    assert_eq!(compute_mask_size("s", usize::MAX), Some(33));
    // The zero-length mask has size exactly 1.
    assert_eq!(compute_mask_size("", usize::MAX), Some(1));
    assert_eq!(compute_mask_size("", 0), None);
}

#[test]
fn aggregation_counts_per_mask() {
    let wordlist = ok_lines(&["Hello", "Hello", "Friend", "Password", "P@$$w0rd", ""]);
    let mask_map = generate_masks_from_bufreader(&wordlist).unwrap();
    assert_eq!(mask_map.get("ullll"), Some(2));
    assert_eq!(mask_map.get("ulllll"), Some(1));
    assert_eq!(mask_map.get("ulllllll"), Some(1));
    assert_eq!(mask_map.get("usssldll"), Some(1));
    // The empty word classifies to the empty mask but is never aggregated.
    assert_eq!(mask_map.get(""), None);
    assert_eq!(mask_map.len(), 4);
}

#[test]
fn aggregation_skips_unclassifiable_words() {
    let wordlist = ok_lines(&["ok", "caf\u{e9}", "no"]);
    let mask_map = generate_masks_from_bufreader(&wordlist).unwrap();
    assert_eq!(mask_map.get("ll"), Some(2));
    assert_eq!(mask_map.len(), 1);
}

#[test]
fn aggregation_aborts_on_first_read_error() {
    let wordlist = vec![
        Ok("Hello".to_string()),
        Err(ReadError { message: "stream broke".to_string() }),
        Ok("Friend".to_string()),
        Err(ReadError { message: "later failure".to_string() }),
    ];
    let err = generate_masks_from_bufreader(&wordlist).unwrap_err();
    assert_eq!(err.message, "stream broke");
}

#[test]
fn ranking_prefers_common_compact_masks() {
    let wordlist = ok_lines(&["Hello", "Hello", "Friend", "Password", "P@$$w0rd"]);
    let mask_map = generate_masks_from_bufreader(&wordlist).unwrap();
    let ranked = sort_masks(&mask_map, usize::MAX);
    assert_eq!(ranked.len(), 4);
    assert_eq!(ranked[0].mask, "ullll");
    assert_eq!(ranked[0].count, 2);
    assert_eq!(ranked[0].size, 26usize.pow(5));
    // Descending cost order over the whole result.
    for pair in ranked.windows(2) {
        let lhs = (pair[0].count as u128) * (pair[1].size as u128);
        let rhs = (pair[1].count as u128) * (pair[0].size as u128);
        assert!(lhs >= rhs);
    }
}

#[test]
fn ranking_drops_masks_over_the_ceiling() {
    let wordlist = ok_lines(&["Hello", "Hello", "ab"]);
    let mask_map = generate_masks_from_bufreader(&wordlist).unwrap();
    // "ullll" has size 26^5; a ceiling of 1000 keeps only "ll" (26^2).
    let ranked = sort_masks(&mask_map, 1000);
    assert_eq!(ranked.len(), 1);
    assert_eq!(ranked[0].mask, "ll");
    assert_eq!(ranked[0].size, 676);
    assert_eq!(ranked[0].count, 1);
}

#[test]
fn ranking_twice_gives_the_same_records() {
    let wordlist = ok_lines(&["Hello", "Hello", "Friend", "Password", "P@$$w0rd"]);
    let mask_map = generate_masks_from_bufreader(&wordlist).unwrap();
    let first = sort_masks(&mask_map, usize::MAX);
    let second = sort_masks(&mask_map, usize::MAX);
    let mut a: Vec<(String, usize, usize)> =
        first.iter().map(|r| (r.mask.clone(), r.size, r.count)).collect();
    let mut b: Vec<(String, usize, usize)> =
        second.iter().map(|r| (r.mask.clone(), r.size, r.count)).collect();
    a.sort();
    b.sort();
    assert_eq!(a, b);
}

#[test]
fn size_round_trips_through_any_word_with_the_same_mask() {
    let first = generate_mask("Hello").unwrap();
    let second = generate_mask("World").unwrap();
    assert_eq!(first, second);
    let s1 = compute_mask_size(&first, usize::MAX).unwrap();
    let s2 = compute_mask_size(&second, usize::MAX).unwrap();
    assert_eq!(s1, s2);
    assert_eq!(s1, 26usize.pow(5));
}

fn record(mask: &str, size: usize, count: usize) -> ComputedMask {
    ComputedMask { mask: mask.to_string(), size, count }
}

#[test]
fn selection_never_exceeds_budget() {
    let ranked = vec![record("lll", 10, 5), record("ll", 8, 3), record("l", 2, 1)];
    let (selected, used) = select_masks(&ranked, 12);
    // 10 is taken, 8 no longer fits, 2 still does: the walk never stops early.
    assert_eq!(used, 12);
    assert_eq!(selected.len(), 2);
    assert_eq!(selected[0].mask, "lll");
    assert_eq!(selected[1].mask, "l");

    let (none_selected, none_used) = select_masks(&ranked, 0);
    assert_eq!(none_used, 0);
    assert!(none_selected.is_empty());

    for budget in 0..25usize {
        let (_, used) = select_masks(&ranked, budget);
        assert!(used <= budget);
    }
}

#[test]
fn pipeline_selects_within_budget() {
    let wordlist = ok_lines(&["Hello", "Hello", "Friend", "Password", "P@$$w0rd"]);
    // Budget exactly one "ullll" keyspace: the top mask alone is selected.
    let budget = 26usize.pow(5);
    let (selected, used) = parse_lines(&wordlist, budget).unwrap();
    assert_eq!(selected.len(), 1);
    assert_eq!(selected[0].mask, "ullll");
    assert_eq!(used, budget);

    let wordlist = vec![Ok("Hello".to_string()), Err(ReadError { message: "gone".to_string() })];
    let err = parse_lines(&wordlist, usize::MAX).unwrap_err();
    assert_eq!(err.message, "gone");
}
