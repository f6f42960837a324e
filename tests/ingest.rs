use abitur_analyzer::ingest::{choose_from_line, number_or_zero, parse_u32, program_info_from_html, snils_from_cell};

#[test]
fn u32_texts() {
    assert_eq!(parse_u32("25"), Some(25));
    assert_eq!(parse_u32("+7"), Some(7));
    assert_eq!(parse_u32("007"), Some(7));
    assert_eq!(parse_u32("4294967295"), Some(4294967295));
    assert_eq!(parse_u32("4294967296"), None);
    assert_eq!(parse_u32(""), None);
    assert_eq!(parse_u32("+"), None);
    assert_eq!(parse_u32(" 5"), None);
    assert_eq!(parse_u32("5a"), None);
    assert_eq!(parse_u32("-1"), None);
}

#[test]
fn cell_numbers_are_trimmed_or_zero() {
    assert_eq!(number_or_zero(" 12 \n"), 12);
    assert_eq!(number_or_zero("\t3"), 3);
    assert_eq!(number_or_zero("abc"), 0);
    assert_eq!(number_or_zero(""), 0);
    assert_eq!(number_or_zero("1 2"), 0);
}

#[test]
fn heading_of_a_list() {
    let html = "<div><p><strong>ОП СПО Фармация</strong></p>\
                <p>Источник финансирования: <i>Бюджетное финансирование</i></p>\
                <p>Форма обучения:   <i>Очная</i></p>\
                <p>Количество мест: <i>25</i></p></div>";
    let info = program_info_from_html("ОП СПО Фармация", html);
    assert_eq!(info.name, "ОП СПО Фармация");
    assert_eq!(info.funding_source, "Бюджетное финансирование");
    assert_eq!(info.study_form, "Очная");
    assert_eq!(info.available_places, 25);
}

#[test]
fn heading_without_labels() {
    let info = program_info_from_html("P", "<div><p>nothing here</p></div>");
    assert_eq!(info.funding_source, "Unknown");
    assert_eq!(info.study_form, "Unknown");
    assert_eq!(info.available_places, 0);
}

#[test]
fn seats_beyond_u32_read_as_zero() {
    let info = program_info_from_html("P", "Количество мест: <i>99999999999</i>");
    assert_eq!(info.available_places, 0);
}

#[test]
fn labelled_identifier() {
    assert_eq!(snils_from_cell("СНИЛС: 123-456-789 00"), "123-456-789 00");
    assert_eq!(snils_from_cell("  \nСНИЛС: 123-456-789 00  \n"), "123-456-789 00");
}

#[test]
fn identifier_is_the_first_word_of_a_line() {
    assert_eq!(snils_from_cell("123-456-789 00\nИванов"), "123-456-789");
    assert_eq!(snils_from_cell("12345678900"), "12345678900");
    assert_eq!(snils_from_cell("\r\n  12345678900 \r\n"), "12345678900");
}

#[test]
fn short_lines_fall_back_to_the_first_non_blank_line() {
    assert_eq!(snils_from_cell("abc"), "abc");
    assert_eq!(snils_from_cell("  \n  x1 \n"), "x1");
    assert_eq!(snils_from_cell("Ан 12"), "Ан 12");
}

#[test]
fn empty_cell_is_unknown() {
    assert_eq!(snils_from_cell(""), "Unknown");
    assert_eq!(snils_from_cell(" \n \n"), "Unknown");
}

#[test]
fn sizes_count_bytes() {
    assert_eq!(choose_from_line("Ив"), None);
    assert_eq!(choose_from_line("Ива"), Some("Ива".to_string()));
    assert_eq!(choose_from_line("abcde"), None);
    assert_eq!(choose_from_line("abcdef"), Some("abcdef".to_string()));
    assert_eq!(choose_from_line("....."), None);
}
