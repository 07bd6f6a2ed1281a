use timetrack::table::{AnsiiColor, CharOptions, ColorOptions, PrintOptions, Table};

fn sample() -> Table {
    Table::from_columns(vec![
        ("Name".to_string(), vec!["a".to_string(), "longer".to_string()]),
        ("WBS".to_string(), vec!["W1".to_string(), "W2".to_string()]),
    ])
}

#[test]
fn markdown_table() {
    let options = PrintOptions::default();
    let expected = "| Name   | WBS |\n|--------|-----|\n| a      | W1  |\n| longer | W2  |";
    assert_eq!(sample().to_string_with_options(&options), expected);
}

#[test]
fn rounded_table() {
    let options = PrintOptions { colors: None, chars: CharOptions::rounded() };
    let expected = "╭────────┬─────╮\n│ Name   │ WBS │\n├────────┼─────┤\n│ a      │ W1  │\n│ longer │ W2  │\n╰────────┴─────╯";
    assert_eq!(sample().to_string_with_options(&options), expected);
}

#[test]
fn sharp_table_without_rows() {
    let table = Table::from_columns(vec![("Ab".to_string(), Vec::new())]);
    let options = PrintOptions { colors: None, chars: CharOptions::sharp() };
    assert_eq!(table.to_string_with_options(&options), "┌────┐\n│ Ab │\n├────┤\n└────┘");
}

#[test]
fn coloured_table() {
    let table = Table::from_columns(vec![("H".to_string(), vec!["x".to_string()])]);
    let options = PrintOptions {
        colors: Some(ColorOptions { headers: AnsiiColor::Red, lines: AnsiiColor::Blue }),
        chars: CharOptions::ascii_markdown(),
    };
    let expected = "\u{1b}[34m| \u{1b}[31mH \u{1b}[34m|\n|---|\u{1b}[0m\n\u{1b}[34m| \u{1b}[0mx \u{1b}[34m|\u{1b}[0m";
    assert_eq!(table.to_string_with_options(&options), expected);
}

#[test]
fn escape_codes() {
    assert_eq!(AnsiiColor::Cyan.escape(), "\u{1b}[35m");
    assert_eq!(AnsiiColor::Reset.escape(), "\u{1b}[0m");
    assert_eq!(AnsiiColor::default(), AnsiiColor::Reset);
}

#[test]
fn ragged_table_is_not_well_formed() {
    let table = Table::from_columns(vec![
        ("A".to_string(), vec!["1".to_string()]),
        ("B".to_string(), Vec::new()),
    ]);
    assert!(!table.is_well_formed());
    assert!(sample().is_well_formed());
}

#[test]
fn default_chars_are_markdown() {
    assert_eq!(CharOptions::default(), CharOptions::ascii_markdown());
}

#[test]
fn plain_text_is_markdown() {
    assert_eq!(sample().to_text(), sample().to_string_with_options(&PrintOptions::default()));
}

#[test]
fn columns_past_the_headers_are_not_drawn() {
    let mut table = sample();
    table.columns.push(vec!["x".to_string(), "y".to_string()]);
    assert!(table.is_well_formed());
    assert_eq!(table.to_text(), sample().to_text());
}
