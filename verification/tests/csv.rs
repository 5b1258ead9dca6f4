use quizanalyze::answers::{parse, Answers, ParseError};
use quizanalyze::lines::split_lines;
use quizanalyze::record::{parse_line, State};

#[test]
fn table_of_three_lines() {
    let table = Answers::parse(
        "\"q1\", \"q2\", \"q3\"\n\"yea\", \"yea;no\", \"yea\"\n\"what\", \"sure\", \"mhmm\"",
    )
    .expect("the table is consistent");
    assert_eq!(table.labels(), &vec!["q1".to_string(), "q2".to_string(), "q3".to_string()]);
    assert_eq!(
        table.replies()[0],
        vec![vec!["yea".to_string()], vec!["yea".to_string(), "no".to_string()], vec![
            "yea".to_string()
        ]]
    );
    assert_eq!(
        table.replies()[1],
        vec![vec!["what".to_string()], vec!["sure".to_string()], vec!["mhmm".to_string()]]
    );
    assert_eq!(table.replies().len(), 2);
}

#[test]
fn exact_question_gathers_label_and_choices() {
    let table = Answers::parse(
        "\"q1\", \"q2\", \"q3\"\n\"yea\", \"yea;no\", \"yea\"\n\"what\", \"sure\", \"mhmm\"",
    )
    .expect("the table is consistent");
    assert_eq!(table.question_exact("q2"), Some(vec!["q2", "yea", "no", "sure"]));
}

#[test]
fn reply_shorter_than_the_header_fails() {
    let result = Answers::parse("\"q1\", \"q2\", \"q3\"\n\"yea\", \"no\"");
    assert_eq!(result, Err(ParseError::FieldCountMismatch));
}

#[test]
fn empty_input_has_no_header() {
    assert_eq!(Answers::parse(""), Err(ParseError::EmptyInput));
    assert_eq!(parse(""), Err(ParseError::EmptyInput));
}

#[test]
fn mismatch_in_a_later_reply_fails_the_whole_table() {
    let result = Answers::parse("\"a\",\"b\"\n\"1\",\"2\"\n\"3\",\"4\",\"5\"\n\"6\",\"7\"");
    assert_eq!(result, Err(ParseError::FieldCountMismatch));
}

#[test]
fn unchecked_parse_keeps_replies_of_any_size() {
    let (labels, replies) = parse("\"a\",\"b\"\n\"1\"").expect("there is a header");
    assert_eq!(labels, vec!["a".to_string(), "b".to_string()]);
    assert_eq!(replies, vec![vec![vec!["1".to_string()]]]);
}

#[test]
fn header_only_gives_no_replies() {
    let table = Answers::parse("\"a\",\"b\"").expect("a header alone is a table");
    assert_eq!(table.labels().len(), 2);
    assert!(table.replies().is_empty());
    assert_eq!(table.reply(0), None);
}

#[test]
fn single_newline_is_a_header_and_one_reply() {
    let table = Answers::parse("\n").expect("one empty field each");
    assert_eq!(table.labels(), &vec![String::new()]);
    assert_eq!(table.replies(), &vec![vec![vec![String::new()]]]);
}

#[test]
fn label_is_the_first_choice_of_its_field() {
    let table = Answers::parse("\"a;b\",\"c\"\n\"1\",\"2\"").expect("two fields each");
    assert_eq!(table.labels(), &vec!["a".to_string(), "c".to_string()]);
}

#[test]
fn every_reply_is_as_long_as_the_labels() {
    let table = Answers::parse("\"a\",\"b\",\"c\"\n\"1\",\"2;3\",\"\"\n,,\n\"x,y\",\"\n\",\"z\"")
        .expect("three fields each");
    assert_eq!(table.replies().len(), 3);
    for reply in table.replies() {
        assert_eq!(reply.len(), table.labels().len());
    }
    assert_eq!(table.reply(2).map(|reply| reply.len()), Some(3));
    assert_eq!(table.reply(3), None);
}

#[test]
fn reply_is_bounds_checked() {
    let table = Answers::parse("\"a\"\n\"1\"\n\"2\"").expect("one field each");
    assert_eq!(table.reply(0), Some(&vec![vec!["1".to_string()]]));
    assert_eq!(table.reply(1), Some(&vec![vec!["2".to_string()]]));
    assert_eq!(table.reply(2), None);
    assert_eq!(table.reply(usize::MAX), None);
}

#[test]
fn question_takes_the_first_label_that_contains_the_name() {
    let table = Answers::parse("\"age\",\"language\",\"usage\"\n\"30\",\"en;fr\",\"daily\"\n\"41\",\"de\",\"never\"")
        .expect("three fields each");
    assert_eq!(table.question("age"), Some(vec!["age", "30", "41"]));
    assert_eq!(table.question("uage"), Some(vec!["language", "en", "fr", "de"]));
    assert_eq!(table.question("usage"), Some(vec!["usage", "daily", "never"]));
    assert_eq!(table.question(""), Some(vec!["age", "30", "41"]));
    assert_eq!(table.question("ages"), None);
    assert_eq!(table.question("languages and more"), None);
}

#[test]
fn question_exact_wants_the_whole_label() {
    let table = Answers::parse("\"language\",\"age\"\n\"en\",\"30\"").expect("two fields each");
    assert_eq!(table.question_exact("age"), Some(vec!["age", "30"]));
    assert_eq!(table.question_exact("ag"), None);
    assert_eq!(table.question_exact("langu"), None);
    assert_eq!(table.question("ag"), Some(vec!["language", "en"]));
}

#[test]
fn question_on_a_table_without_replies_gives_the_label_alone() {
    let table = Answers::parse("\"only\"").expect("a header alone is a table");
    assert_eq!(table.question("on"), Some(vec!["only"]));
}

#[test]
fn errors_in_words() {
    assert_eq!(ParseError::EmptyInput.message(), "first line missing");
    assert_eq!(
        ParseError::FieldCountMismatch.message(),
        "replies are not the same size as labels"
    );
}

#[test]
fn lines_put_together_are_the_file() {
    let file = "\"a\",\"b\"\n\"multi\nline\",\"x\"\n\n\"last\"\n";
    let lines = split_lines(file);
    assert_eq!(lines, vec!["\"a\",\"b\"", "\n\"multi\nline\",\"x\"", "\n", "\n\"last\"", "\n"]);
    assert_eq!(lines.concat(), file);
}

#[test]
fn empty_file_is_one_empty_line() {
    assert_eq!(split_lines(""), vec![String::new()]);
}

#[test]
fn newline_inside_quotes_does_not_end_a_line() {
    assert_eq!(split_lines("\"a\nb\""), vec!["\"a\nb\""]);
    assert_eq!(split_lines("\"a\"\n\"b\""), vec!["\"a\"", "\n\"b\""]);
}

#[test]
fn two_quotes_in_a_row_toggle_twice() {
    assert_eq!(split_lines("\"\"\n\"\"\"\n\""), vec!["\"\"", "\n\"\"\"\n\""]);
}

#[test]
fn lines_of_text_with_wide_characters() {
    let file = "\"\u{1F97A}\"\n\"\u{44A}\n\"\n";
    let lines = split_lines(file);
    assert_eq!(lines, vec!["\"\u{1F97A}\"", "\n\"\u{44A}\n\"", "\n"]);
    assert_eq!(lines.concat(), file);
}

#[test]
fn cell_without_semicolon_is_one_choice_verbatim() {
    assert_eq!(parse_line("\"a, b  c\""), vec![vec!["a, b  c"]]);
    assert_eq!(parse_line("  \"x\"  "), vec![vec!["x"]]);
    assert_eq!(parse_line("\"\""), vec![vec![""]]);
}

#[test]
fn only_quoted_text_is_content() {
    assert_eq!(parse_line("abc, \"d\" e, f"), vec![vec![""], vec!["d"], vec![""]]);
    assert_eq!(parse_line("\"a\"x\"b\""), vec![vec!["ab"]]);
}

#[test]
fn empty_line_is_one_field_of_one_empty_choice() {
    assert_eq!(parse_line(""), vec![vec![""]]);
    assert_eq!(parse_line(","), vec![vec![""], vec![""]]);
}

#[test]
fn semicolon_splits_inside_and_outside_quotes() {
    assert_eq!(parse_line("\"a;b\""), vec![vec!["a", "b"]]);
    assert_eq!(parse_line("\"a\";\"b\""), vec![vec!["a", "b"]]);
    assert_eq!(parse_line("\"a\";\"b\",\";\""), vec![vec!["a", "b"], vec!["", ""]]);
}

#[test]
fn comma_inside_quotes_is_content() {
    assert_eq!(parse_line("\"a,b\",\"c\""), vec![vec!["a,b"], vec!["c"]]);
}

#[test]
fn unbalanced_quotes_still_give_the_last_field() {
    assert_eq!(parse_line("\"a\", \"b"), vec![vec!["a"], vec!["b"]]);
    assert_eq!(parse_line("\"a, b"), vec![vec!["a, b"]]);
}

#[test]
fn leading_newline_of_a_line_is_dropped() {
    assert_eq!(parse_line("\n\"a\""), vec![vec!["a"]]);
}

#[test]
fn scanner_ends_inside_quotes_after_an_odd_number_of_quotes() {
    let mut state = State::new();
    let fields = state.feed("\"a\", \"b");
    assert_eq!(fields, vec![vec!["a"]]);
    assert!(state.text);
    assert_eq!(state.finish(), vec!["b"]);

    let mut state = State::new();
    state.feed("\"a\", \"b\" \"\"");
    assert!(!state.text);

    let mut state = State::new();
    state.feed("no quotes, at all");
    assert!(!state.text);
}

#[test]
fn scanner_starting_inside_quotes_changes_sides_likewise() {
    let mut state = State::new();
    state.feed("\"");
    assert!(state.text);
    state.feed("a\"b\"c");
    assert!(state.text);
    state.feed("\"");
    assert!(!state.text);
}

#[test]
fn scanner_one_character_at_a_time() {
    let mut state = State::new();
    assert_eq!(state.step('x'), None);
    assert_eq!(state.option, "");
    assert_eq!(state.step('"'), None);
    assert!(state.text && state.special);
    assert_eq!(state.step('x'), None);
    assert!(state.text && !state.special);
    assert_eq!(state.option, "x");
    assert_eq!(state.step(','), None);
    assert_eq!(state.option, "x,");
    assert!(!state.over);
    assert_eq!(state.step(';'), None);
    assert!(state.next && state.special);
    assert_eq!(state.options, vec!["x,"]);
    assert_eq!(state.option, "");
    assert_eq!(state.step('"'), None);
    assert!(!state.text);
    assert_eq!(state.step(','), Some(vec!["x,".to_string(), String::new()]));
    assert!(state.over);
    assert!(state.options.is_empty());
}

#[test]
fn update_sets_the_flags_and_parse_consumes() {
    let mut state = State::new();
    state.update('"');
    assert!(state.text && state.special && !state.next && !state.over);
    assert_eq!(state.parse('"'), None);
    state.update('a');
    assert!(state.text && !state.special);
    assert_eq!(state.parse('a'), None);
    assert_eq!(state.option, "a");
    state.update('"');
    assert_eq!(state.parse('"'), None);
    state.update(',');
    assert!(state.over && !state.text);
    assert_eq!(state.parse(','), Some(vec!["a".to_string()]));
    assert_eq!(state.option, "");
}
