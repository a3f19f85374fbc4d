use run_louder::wpm::{from_string_to_type_result, TypeResult, TypingMetrics};

#[test]
fn wpm_counts_windowed_strokes() {
    let mut tm = TypingMetrics::new();
    tm.receive_char_stroke_with_timestamp(97, 1000);
    tm.receive_char_stroke_with_timestamp(97, 1500);
    tm.receive_char_stroke_with_timestamp(98, 2000);
    // All three strokes are inside the window; the repeated 'a' costs four
    // hundredths once.
    assert_eq!(tm.calc_wpm_hundredths(2500), 296);
}

#[test]
fn wpm_expires_old_strokes() {
    let mut tm = TypingMetrics::new();
    tm.receive_char_stroke_with_timestamp(97, 1000);
    tm.receive_char_stroke_with_timestamp(97, 1500);
    tm.receive_char_stroke_with_timestamp(98, 2000);
    // At 4600 the strokes from 1000 and 1500 are out of the window.
    assert_eq!(tm.calc_wpm_hundredths(4600), 100);
    // A timestamp exactly at the window edge stays.
    assert_eq!(tm.calc_wpm_hundredths(5000), 100);
    assert_eq!(tm.calc_wpm_hundredths(5001), 0);
}

#[test]
fn wpm_penalizes_repeats() {
    let mut tm = TypingMetrics::new();
    for _ in 0..5 {
        tm.receive_char_stroke_with_timestamp(120, 100);
    }
    // 5 strokes at 100 each, penalties 0+1+2+3+4 at 4 hundredths each.
    assert_eq!(tm.calc_wpm_hundredths(200), 500 - 40);
}

#[test]
fn type_result_from_string() {
    let pairs = from_string_to_type_result(String::from("abc"));
    assert_eq!(pairs.len(), 3);
    assert_eq!(pairs[0], ('a', TypeResult::NotTypedYet));
    assert_eq!(pairs[1], ('b', TypeResult::NotTypedYet));
    assert_eq!(pairs[2], ('c', TypeResult::NotTypedYet));

    let empty = from_string_to_type_result(String::new());
    assert!(empty.is_empty());
}
