use abitur_analyzer::dedup::{
    deduplicate_records_by_snils, is_record_better, set_max_score_on_privileged_records,
};
use abitur_analyzer::models::{Config, DataSourceMode, StudentRecord};
use abitur_analyzer::ratio::avg_less;
use abitur_analyzer::score::parse_score;
use abitur_analyzer::text::{alphanumeric_part, contains_text, normalize_snils};

fn record(rank: u32, snils: &str, priority: u32, consent: &str, document: &str, score: &str) -> StudentRecord {
    StudentRecord {
        rank,
        snils: snils.to_string(),
        priority,
        consent: consent.to_string(),
        document_type: document.to_string(),
        average_score: score.to_string(),
        subject_scores: String::new(),
        psychological_test: "-".to_string(),
        program_name: "X".to_string(),
        funding_source: "budget".to_string(),
        study_form: "full-time".to_string(),
        available_places: 2,
    }
}

#[test]
fn normalize_drops_punctuation_and_spaces() {
    assert_eq!(normalize_snils("123-456 789 00"), "12345678900");
    assert_eq!(normalize_snils("123456 78900"), "12345678900");
    assert_eq!(normalize_snils("123-456 789 00"), normalize_snils("123456 78900"));
}

#[test]
fn normalize_upper_cases_letters() {
    assert_eq!(normalize_snils("ab-12"), "AB12");
    assert_eq!(normalize_snils("аб 12"), "АБ12");
    assert_eq!(normalize_snils("Ab-12"), normalize_snils("aB 12"));
}

#[test]
fn normalize_twice_is_normalize_once() {
    for x in ["123-456 789 00", "ab-12", "  x y z ", "", "--", "аБв-1"] {
        let once = normalize_snils(x);
        assert_eq!(normalize_snils(&once), once);
    }
}

#[test]
fn upper_casing_can_yield_marks_that_a_second_pass_drops() {
    let once = normalize_snils("\u{390}");
    assert_eq!(once, "\u{399}\u{308}\u{301}");
    assert_eq!(normalize_snils(&once), "\u{399}");
}

#[test]
fn normalize_of_empty_and_punctuation_only() {
    assert_eq!(normalize_snils(""), "");
    assert_eq!(normalize_snils(" - / "), "");
}

#[test]
fn alphanumeric_part_keeps_letters_and_digits() {
    assert_eq!(alphanumeric_part("123-456 789 00"), "12345678900");
    assert_eq!(alphanumeric_part("ab-Cd"), "abCd");
    assert_eq!(alphanumeric_part("№ 5, д."), "5д");
    assert_eq!(alphanumeric_part(""), "");
}

#[test]
fn contains_text_finds_runs() {
    assert!(contains_text("оригинал да", "да"));
    assert!(!contains_text("нет", "да"));
    assert!(contains_text("abc", ""));
    assert!(!contains_text("", "a"));
}

#[test]
fn scores_parse_with_either_separator() {
    assert_eq!(parse_score("4,5"), Some(45000));
    assert_eq!(parse_score("4.5"), Some(45000));
    assert_eq!(parse_score("90"), Some(900000));
    assert_eq!(parse_score("4,5678"), Some(45678));
    assert_eq!(parse_score(",5"), Some(5000));
    assert_eq!(parse_score("5,"), Some(50000));
    assert_eq!(parse_score("0"), Some(0));
}

#[test]
fn score_digits_past_the_fourth_are_dropped() {
    assert_eq!(parse_score("4,56789"), Some(45678));
}

#[test]
fn unparseable_scores_are_none() {
    assert_eq!(parse_score(""), None);
    assert_eq!(parse_score("abc"), None);
    assert_eq!(parse_score("1.2.3"), None);
    assert_eq!(parse_score("-1"), None);
    assert_eq!(parse_score(","), None);
    assert_eq!(parse_score("4,5a"), None);
    assert_eq!(parse_score("99999999999999999999"), None);
}

#[test]
fn largest_score_that_fits() {
    assert_eq!(parse_score("1844674407370955"), Some(18446744073709550000));
    assert_eq!(parse_score("1844674407370955,1615"), Some(18446744073709551615));
    assert_eq!(parse_score("1844674407370955,1616"), None);
}

#[test]
fn flags_read_yes_in_any_case() {
    let r = record(1, "1", 1, "ДА", "Нет", "4");
    assert!(r.has_consent());
    assert!(!r.has_original_document());
    assert!(r.is_eager());
    let s = record(1, "1", 1, "нет", "Оригинал: да", "4");
    assert!(!s.has_consent());
    assert!(s.has_original_document());
    let t = record(1, "1", 1, "Нет", "Копия", "4");
    assert!(!t.is_eager());
}

#[test]
fn record_identifier_and_score() {
    let r = record(1, "123-456 789 00", 1, "да", "", "4,25");
    assert_eq!(r.get_normalized_snils(), "12345678900");
    assert_eq!(r.get_numeric_score(), Some(42500));
}

#[test]
fn document_beats_consent() {
    let a = record(1, "111-222 333 44", 2, "нет", "да", "4");
    let b = record(2, "11122233344", 1, "да", "нет", "4");
    assert!(is_record_better(&a, &b));
    assert!(!is_record_better(&b, &a));
    let kept = deduplicate_records_by_snils(vec![a.clone(), b.clone()]);
    assert_eq!(kept.len(), 1);
    assert_eq!(kept[0].rank, 1);
    assert_eq!(kept[0].priority, 2);
    let kept = deduplicate_records_by_snils(vec![b, a]);
    assert_eq!(kept.len(), 1);
    assert_eq!(kept[0].priority, 2);
}

#[test]
fn consent_then_priority_break_ties() {
    let a = record(1, "1", 3, "да", "нет", "4");
    let b = record(2, "1", 1, "нет", "нет", "4");
    assert!(is_record_better(&a, &b));
    let c = record(3, "1", 2, "да", "нет", "4");
    assert!(is_record_better(&c, &a));
    assert!(!is_record_better(&a, &c));
}

#[test]
fn equal_rows_keep_the_first() {
    let a = record(5, "1", 1, "да", "нет", "4");
    let b = record(6, "1", 1, "да", "нет", "4");
    let kept = deduplicate_records_by_snils(vec![a, b]);
    assert_eq!(kept.len(), 1);
    assert_eq!(kept[0].rank, 5);
}

#[test]
fn dedup_returns_rows_by_rank() {
    let rows = vec![
        record(3, "C", 1, "да", "нет", "4"),
        record(1, "A", 1, "да", "нет", "4"),
        record(2, "B", 1, "да", "нет", "4"),
        record(4, "a", 1, "нет", "нет", "4"),
    ];
    let kept = deduplicate_records_by_snils(rows);
    let ranks: Vec<u32> = kept.iter().map(|r| r.rank).collect();
    assert_eq!(ranks, vec![1, 2, 3]);
}

#[test]
fn dedup_of_nothing_is_nothing() {
    assert!(deduplicate_records_by_snils(Vec::new()).is_empty());
}

#[test]
fn privileged_rows_take_the_top_score() {
    let mut rows = vec![
        record(1, "A", 1, "да", "", "80"),
        record(2, "B", 1, "да", "", "85"),
        record(3, "C", 1, "да", "", "90"),
        record(4, "D", 1, "да", "", "70"),
        record(5, "E", 1, "да", "", "90,0"),
        record(6, "F", 1, "да", "", "60"),
        record(7, "G", 1, "да", "", "-"),
    ];
    set_max_score_on_privileged_records(&mut rows);
    let scores: Vec<&str> = rows.iter().map(|r| r.average_score.as_str()).collect();
    assert_eq!(scores, vec!["90,0", "90,0", "90", "90,0", "90,0", "60", "-"]);
}

#[test]
fn privileged_adjustment_without_scores_changes_nothing() {
    let mut rows = vec![record(1, "A", 1, "да", "", "x"), record(2, "B", 1, "да", "", "")];
    set_max_score_on_privileged_records(&mut rows);
    assert_eq!(rows[0].average_score, "x");
    assert_eq!(rows[1].average_score, "");
}

#[test]
fn averages_compare_exactly() {
    assert!(avg_less(1, 3, 1, 2));
    assert!(!avg_less(1, 2, 1, 3));
    assert!(!avg_less(2, 4, 1, 2));
    assert!(!avg_less(0, 0, 0, 0));
    assert!(avg_less(0, 0, 1, 5));
    assert!(!avg_less(3, 1, 0, 0));
    assert!(avg_less(u128::MAX - 1, u64::MAX, u128::MAX, u64::MAX));
}

#[test]
fn default_config() {
    let c = Config::default();
    assert_eq!(c.target_snils, "");
    assert_eq!(c.data_source_mode, DataSourceMode::Local);
    assert_eq!(c.data_directory.as_deref(), Some("data-source"));
    assert_eq!(c.output_directory.as_deref(), Some("output"));
    assert_eq!(c.target_funding_types, vec!["Бюджетное финансирование".to_string()]);
    assert_eq!(c.programs_of_interest.map(|p| p.len()), Some(2));
    assert_eq!(c.internet_urls.map(|u| u.len()), Some(2));
}
