use ie_core::markdown::text::{count_words, ExclusionZones, LineIndex};

#[test]
fn line_lookup_finds_the_right_line_for_every_offset() {
    let source = "one\ntwo\nthree";
    let index = LineIndex::new(source);
    assert_eq!(index.line_count(), 3);
    assert_eq!(index.line_of(0), 0);
    assert_eq!(index.line_of(3), 0);
    assert_eq!(index.line_of(4), 1);
    assert_eq!(index.line_of(8), 2);
    assert_eq!(index.line_of(source.len()), 2);
}

#[test]
fn line_ranges_exclude_the_terminator() {
    let source = "one\ntwo\n";
    let index = LineIndex::new(source);
    assert_eq!(&source[index.line_range(0)], "one");
    assert_eq!(&source[index.line_range(1)], "two");
}

#[test]
fn carriage_returns_are_stripped_from_line_text() {
    let source = "one\r\ntwo\r\n";
    let index = LineIndex::new(source);
    assert_eq!(index.line_text(source, 0), "one");
    assert_eq!(index.line_text(source, 1), "two");
}

#[test]
fn exclusion_zones_merge_and_answer_membership() {
    let zones = ExclusionZones::new(vec![0..5, 3..8, 20..25]);
    assert!(zones.covers(0));
    assert!(zones.covers(7));
    assert!(!zones.covers(8));
    assert!(!zones.covers(19));
    assert!(zones.covers(24));
    assert!(!zones.covers(25));
}

#[test]
fn empty_ranges_are_discarded() {
    assert!(ExclusionZones::new(vec![5..5]).is_empty());
}

#[test]
fn word_count_ignores_punctuation_only_runs() {
    assert_eq!(count_words("one two three"), 3);
    assert_eq!(count_words("one --- two"), 2);
    assert_eq!(count_words("   "), 0);
    assert_eq!(count_words("don't stop"), 2);
}

#[test]
fn an_empty_source_has_one_empty_line() {
    let index = LineIndex::new("");
    assert_eq!(index.line_count(), 1);
    assert_eq!(index.line_of(0), 0);
    assert_eq!(index.line_text("", 0), "");
}

#[test]
fn a_line_past_the_end_is_empty() {
    let source = "a\nb";
    let index = LineIndex::new(source);
    assert_eq!(index.line_range(5), 3..3);
    assert_eq!(index.line_text(source, 5), "");
}

#[test]
fn extending_zones_adds_coverage() {
    let zones = ExclusionZones::new(vec![0..2]).extended(vec![10..12, 4..4]);
    assert!(zones.covers(1));
    assert!(zones.covers(11));
    assert!(!zones.covers(4));
    assert!(!zones.covers(5));
    assert!(!ExclusionZones::default().covers(0));
    assert!(ExclusionZones::default().is_empty());
}
