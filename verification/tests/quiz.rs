use impp::lib_impp::Question;
use impp::quiz::{
    answer_position, asks_automatic, asks_jeopardy, choice_answers, extract_topic, judge_choice,
    leaves_quiz, offers_choices, parse_command, Command,
};

fn distractor(answer: &str) -> Question {
    Question {
        id: 1,
        answer: answer.to_string(),
        question: String::from("q"),
        category: String::from("c"),
        extra: String::new(),
    }
}

#[test]
fn topic_is_read_from_the_option() {
    assert_eq!(extract_topic("mc -a -t \"Radiologic sign\""), "Radiologic sign");
    assert_eq!(extract_topic("mc -t \"Endocrinology\" -j"), "Endocrinology");
    assert_eq!(extract_topic("mc -t \"\""), "");
    assert_eq!(extract_topic("mc -t \"Schilddrüse\" -t \"B\""), "Schilddrüse");
}

#[test]
fn topic_missing_is_empty() {
    assert_eq!(extract_topic("mc -a"), "");
    assert_eq!(extract_topic("mc -t \"unclosed"), "");
    assert_eq!(extract_topic("mc -t Endocrinology"), "");
}

#[test]
fn topic_does_not_cross_a_line_break() {
    assert_eq!(extract_topic("-t \"a\nb\" -t \"c\""), "c");
}

#[test]
fn menu_commands() {
    assert_eq!(parse_command("quit"), Command::Quit);
    assert_eq!(parse_command("ed"), Command::EditAddress);
    assert_eq!(parse_command("mc -a"), Command::Quiz);
    assert_eq!(parse_command("nothing"), Command::Menu);
    // "quit" wins over the others, "ed" over "mc"
    assert_eq!(parse_command("mc edquit"), Command::Quit);
    assert_eq!(parse_command("mc -t \"Medicine\""), Command::EditAddress);
}

#[test]
fn quiz_flags() {
    assert!(asks_jeopardy("mc -a -j"));
    assert!(!asks_jeopardy("mc -a"));
    assert!(asks_automatic("mc -a -j"));
    assert!(!asks_automatic("mc -j"));
}

#[test]
fn choices_are_offered() {
    assert!(offers_choices(true, "", 0));
    assert!(offers_choices(false, "m", 3));
    assert!(!offers_choices(false, "m", 0));
    assert!(!offers_choices(false, "x", 3));
}

#[test]
fn quiz_is_left_on_exit() {
    assert!(leaves_quiz("EXIT"));
    assert!(leaves_quiz("PLEASE EXIT NOW"));
    assert!(!leaves_quiz("A"));
}

#[test]
fn correct_answer_is_placed() {
    let d = vec![distractor("x"), distractor("y"), distractor("z")];
    let correct = String::from("right");
    assert_eq!(choice_answers(&correct, &d, 0), vec!["right", "x", "y", "z"]);
    assert_eq!(choice_answers(&correct, &d, 2), vec!["x", "y", "right", "z"]);
    assert_eq!(choice_answers(&correct, &d, 3), vec!["x", "y", "z", "right"]);
    assert_eq!(choice_answers(&correct, &[], 0), vec!["right"]);
}

#[test]
fn position_is_among_the_answers() {
    for _ in 0..50 {
        assert!(answer_position(4) <= 4);
    }
    assert_eq!(answer_position(0), 0);
}

#[test]
fn letters_are_judged() {
    assert_eq!(judge_choice("C", 5, 2), Some(true));
    assert_eq!(judge_choice("A", 5, 2), Some(false));
    assert_eq!(judge_choice("F", 5, 2), None);
    assert_eq!(judge_choice("K", 11, 10), None);
    assert_eq!(judge_choice("AB", 5, 0), None);
    assert_eq!(judge_choice("", 5, 0), None);
    assert_eq!(judge_choice("J", 10, 9), Some(true));
}

#[test]
fn positions_vary_between_draws() {
    let first = answer_position(4);
    let mut varied = false;
    for _ in 0..200 {
        if answer_position(4) != first {
            varied = true;
        }
    }
    assert!(varied);
}
