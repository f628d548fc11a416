use tcrank::command::{list_sections, output_format, Format, Kind, Section};

#[test]
fn listing_without_flags_shows_both_tables() {
    assert_eq!(
        list_sections(false, false),
        vec![
            Section { kind: Kind::Idols, after_blank_line: false },
            Section { kind: Kind::Roles, after_blank_line: true },
        ]
    );
}

#[test]
fn listing_with_both_flags_shows_both_tables() {
    assert_eq!(list_sections(true, true), list_sections(false, false));
}

#[test]
fn listing_with_one_flag_shows_that_table() {
    assert_eq!(list_sections(true, false), vec![Section { kind: Kind::Idols, after_blank_line: false }]);
    assert_eq!(list_sections(false, true), vec![Section { kind: Kind::Roles, after_blank_line: false }]);
}

#[test]
fn result_is_a_table_unless_json_is_asked_for() {
    assert_eq!(output_format(false, false), Format::Table);
    assert_eq!(output_format(true, false), Format::Json);
    assert_eq!(output_format(false, true), Format::JsonPretty);
    assert_eq!(output_format(true, true), Format::JsonPretty);
}
