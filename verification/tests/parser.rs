use quizanalyze::answers::Answers;

#[test]
fn parse_line() {
    let result = quizanalyze::record::parse_line(
        "\"Thingy ðŸ¥º\", \"Dingy ðŸ¥º\", \"Test!!ÑŠ\", \"one;two\"");

    assert_eq!(result,
        vec![
            vec!["Thingy ðŸ¥º"],
            vec!["Dingy ðŸ¥º"],
            vec!["Test!!ÑŠ"],
            vec!["one", "two"]
            ]);
}

#[test]
fn parse_full() {
    let result = Answers::parse(
        "\"q1 ðŸ¥º\", \"q2 wowie\", \"q3 ok\"
                    \"yea\", \"yea;no\", \"yea\"
                    \"what\", \"sure\", \"mhmm\"");

    let table = result.expect("the table is consistent");
    assert_eq!(table.labels(), &vec![
        String::from("q1 ðŸ¥º"), String::from("q2 wowie"), String::from("q3 ok")
        ]);
    assert_eq!(table.replies(), &vec![
        vec![
            vec![String::from("yea")],
            vec![String::from("yea"), String::from("no")],
            vec![String::from("yea")]
            ],
        vec![
            vec![String::from("what")],
            vec![String::from("sure")],
            vec![String::from("mhmm")]
            ]]);
}
