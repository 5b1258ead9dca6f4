use quizanalyze::answers::Answers;
use quizanalyze::config::Config;
use quizanalyze::stats::{
    field_sum, format_replies, help_message, map_replies, middle, mode, rank_sums, sort_replies,
    total, Middle,
};

#[test]
fn replies_in_one_line() {
    assert_eq!(format_replies(&vec![]), "");
    assert_eq!(format_replies(&vec!["a"]), "a");
    assert_eq!(format_replies(&vec!["a", "b", "c"]), "a, b, c");
    assert_eq!(format_replies(&vec![""]), "");
    assert_eq!(format_replies(&vec!["a", ""]), "a, ");
}

#[test]
fn most_popular_reply() {
    assert_eq!(mode(&vec!["a", "b", "b", "c"]), Some("b"));
    assert_eq!(mode(&vec!["x"]), Some("x"));
}

#[test]
fn most_popular_reply_is_never_the_empty_one() {
    assert_eq!(mode(&vec!["", "", "", "a"]), Some("a"));
    assert_eq!(mode(&vec!["", ""]), None);
    assert_eq!(mode(&vec![]), None);
}

#[test]
fn earliest_of_the_most_popular_replies() {
    assert_eq!(mode(&vec!["a", "b", "b", "", "a"]), Some("a"));
    assert_eq!(mode(&vec!["b", "a", "a", "b", "c"]), Some("b"));
}

#[test]
fn scores_of_the_replies_that_have_one() {
    let mapping = Config::parse_mappings("/yes/1/no/-1/maybe/0").expect("three pairs");
    assert_eq!(map_replies(&vec!["yes", "what", "no", "", "maybe", "yes"], &mapping), vec![
        1, -1, 0, 1
    ]);
    assert_eq!(map_replies(&vec!["what"], &mapping), Vec::<i32>::new());
    assert_eq!(map_replies(&vec![], &mapping), Vec::<i32>::new());
}

#[test]
fn replies_in_the_order_of_their_scores() {
    let mapping = Config::parse_mappings("/hi/3/lo/1/mid/2/low/1").expect("four pairs");
    assert_eq!(
        sort_replies(vec!["hi", "low", "none", "mid", "lo", "other", "hi", "lo"], &mapping),
        vec!["none", "other", "low", "lo", "lo", "mid", "hi", "hi"]
    );
    assert_eq!(sort_replies(vec![], &mapping), Vec::<&str>::new());
}

#[test]
fn negative_scores_come_after_no_score() {
    let mapping = Config::parse_mappings("/a/-5/b/0").expect("two pairs");
    assert_eq!(sort_replies(vec!["b", "a", "c"], &mapping), vec!["c", "a", "b"]);
}

#[test]
fn how_to_call_the_program() {
    assert_eq!(
        help_message("quiz"),
        "usage: quiz -s \"search string\" [args] /path/to/file\n\nargs:\n    -s    question to search\n    -r, --rank    ranks all the questions by mapping\n    -u, --unique    the question is an uid\n    -e, --exact    only include exact matches\n    -m    map choices to numbers (<split character>choice<split character>number)"
    );
}

#[test]
fn middle_of_the_values_in_ascending_order() {
    assert_eq!(middle(&vec![]), Middle::Empty);
    assert_eq!(middle(&vec![7]), Middle::One(7));
    assert_eq!(middle(&vec![9, 1]), Middle::Two(1, 9));
    assert_eq!(middle(&vec![5, -3, 9]), Middle::One(5));
    assert_eq!(middle(&vec![4, 1, 3, 2]), Middle::Two(2, 3));
    assert_eq!(middle(&vec![2, 2, 1, 2, 3]), Middle::One(2));
    assert_eq!(middle(&vec![i32::MAX, i32::MIN, 0, 0]), Middle::Two(0, 0));
}

#[test]
fn middle_leaves_the_values_as_they_were() {
    let values = vec![3, 1, 2];
    assert_eq!(middle(&values), Middle::One(2));
    assert_eq!(values, vec![3, 1, 2]);
}

#[test]
fn total_of_the_values() {
    assert_eq!(total(&vec![]), Some(0));
    assert_eq!(total(&vec![1, 2, 3, -10]), Some(-4));
    assert_eq!(total(&vec![i32::MAX]), Some(i32::MAX));
}

#[test]
fn total_that_is_no_i32_on_the_way() {
    assert_eq!(total(&vec![i32::MAX, 1]), None);
    assert_eq!(total(&vec![i32::MAX, 1, -5]), None);
    assert_eq!(total(&vec![i32::MIN, -1]), None);
    assert_eq!(total(&vec![-5, i32::MAX, 1]), Some(i32::MAX - 4));
}

#[test]
fn sum_of_the_choices_of_a_field() {
    let mapping = Config::parse_mappings("/yes/2/no/-1").expect("two pairs");
    assert_eq!(field_sum(&vec![], &mapping), Some(0));
    assert_eq!(
        field_sum(&vec!["yes".to_string(), "what".to_string(), "no".to_string(), "yes".to_string()], &mapping),
        Some(3)
    );
    let big = Config::parse_mappings("/a/2147483647/b/1").expect("two pairs");
    assert_eq!(field_sum(&vec!["a".to_string(), "b".to_string()], &big), None);
    assert_eq!(field_sum(&vec!["a".to_string(), "c".to_string()], &big), Some(i32::MAX));
}

#[test]
fn sums_for_the_ranking() {
    let table = Answers::parse("\"id\",\"q1\",\"q2\"\n\"u1\",\"yes\",\"yes;no\"\n\"u2\",\"no\",\"yes;yes;what\"")
        .expect("three fields each");
    let mapping = Config::parse_mappings("/yes/2/no/-1").expect("two pairs");
    assert_eq!(rank_sums(&table, &mapping), Some(vec![0, 1, 5]));
    let none = Config::parse_mappings("/other/1").expect("one pair");
    assert_eq!(rank_sums(&table, &none), Some(vec![0, 0, 0]));
}

#[test]
fn sums_for_the_ranking_of_a_table_without_replies() {
    let table = Answers::parse("\"a\",\"b\"").expect("a header alone is a table");
    let mapping = Config::parse_mappings("/yes/2").expect("one pair");
    assert_eq!(rank_sums(&table, &mapping), Some(vec![0, 0]));
}

#[test]
fn sums_for_the_ranking_that_are_no_i32() {
    let table = Answers::parse("\"a\",\"b\"\n\"x\",\"big\"\n\"x\",\"big\"")
        .expect("two fields each");
    let mapping = Config::parse_mappings("/big/2000000000").expect("one pair");
    assert_eq!(rank_sums(&table, &mapping), None);
}
