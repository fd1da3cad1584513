use impp::lib_impp::{
    database_file_path, extract_from_raw_data, extract_next_gsheet_value, generate_mc_distractors,
    generate_random_question, generate_random_question_number, get_categories, get_mc_distractors,
    get_question_details, get_question_vector, next_value, return_title,
    select_question_number, try_extract_from_raw_data, try_return_title, Question,
};

const ROWS: [[&str; 4]; 10] = [
    ["Hampton hump", "Dome-shaped opacity of a pulmonary infarct", "Radiologic sign", ""],
    ["Westermark sign", "Regional oligemia distal to a pulmonary embolus", "Radiologic sign", "Pulmonary embolism"],
    ["Fabella sign", "Displacement of the fabella that is seen in cases of synovial effusion and popliteal fossa masses", "Radiologic sign", ""],
    ["Golden S sign", "Reverse S shape of a collapsed right upper lobe", "Radiologic sign", ""],
    ["Silhouette sign", "Loss of the border between two structures of similar density", "Radiologic sign", ""],
    ["Virchow triad", "Stasis, endothelial injury and hypercoagulability", "Pathology", ""],
    ["Charcot triad", "Fever, jaundice and right upper quadrant pain", "Pathology", ""],
    ["Beck triad", "Hypotension, distended neck veins and muffled heart sounds", "Pathology", ""],
    ["Cushing triad", "Hypertension, bradycardia and irregular breathing", "Pathology", ""],
    ["SHBG", "Sex hormone-binding globulin", "Endocrinology", ""],
];

fn sample_db() -> Vec<Question> {
    ROWS.iter()
        .enumerate()
        .map(|(i, r)| Question {
            id: (i + 1) as i32,
            question: r[0].to_string(),
            answer: r[1].to_string(),
            category: r[2].to_string(),
            extra: r[3].to_string(),
        })
        .collect()
}

fn sheet_row(n: usize, cells: &[&str]) -> String {
    let mut s = format!(
        "<tr style=\"height: 20px\"><th id=\"0R{}\" style=\"height: 20px;\" class=\"row-headers-background\"><div class=\"row-header-wrapper\" style=\"line-height: 20px\">{}</div></th>",
        n,
        n + 1
    );
    for c in cells {
        if c.is_empty() {
            s.push_str("<td class=\"s2\"></td>");
        } else if let Some(t) = c.strip_prefix("M:") {
            s.push_str(&format!("<td class=\"s3 softmerge\" dir=\"ltr\"><div class=\"softmerge-inner\" style=\"width: 300px; left: -1px;\">{}</div></td>", t));
        } else {
            s.push_str(&format!("<td class=\"s1\" dir=\"ltr\">{}</td>", c));
        }
    }
    s.push_str("</tr>");
    s
}

fn sample_sheet() -> String {
    let mut html = String::from("<html><head><title>IMPP sample table - Google Tabellen</title></head><body><table><tbody>");
    html.push_str(&sheet_row(0, &["Question", "Answer", "Category", "Extra"]));
    for (i, r) in ROWS.iter().enumerate() {
        html.push_str(&sheet_row(i + 1, r));
    }
    html.push_str("</tbody></table></body></html>");
    html
}

fn same(a: &Question, b: &Question) -> bool {
    a.id == b.id && a.question == b.question && a.answer == b.answer && a.category == b.category && a.extra == b.extra
}

#[test]
fn generate_random_question_number_for_category() {
    assert!(generate_random_question(String::from("Endocrinology"), &sample_db()) == 9);
}

#[test]
fn get_known_question_details() {
    assert!(
        get_question_details(2, false, &sample_db())
            == ["Fabella sign", "Displacement of the fabella that is seen in cases of synovial effusion and popliteal fossa masses", "Radiologic sign", ""]
    );
}

#[test]
fn get_known_question_details_jeopardy_mode_true() {
    assert!(
        get_question_details(2, true, &sample_db())
            == ["Displacement of the fabella that is seen in cases of synovial effusion and popliteal fossa masses", "Fabella sign", "Radiologic sign", ""]
    );
}

#[test]
fn count_distractors_none() {
    assert!(get_mc_distractors(9, 4, false, &sample_db()).len() == 0);
}

#[test]
fn count_distractors_all() {
    assert!(get_mc_distractors(1, 4, false, &sample_db()).len() == 4);
}

#[test]
fn count_distractors_size3() {
    assert!(get_mc_distractors(1, 3, false, &sample_db()).len() == 3);
}

#[test]
fn count_known_categories() {
    assert!(get_categories(&sample_db()).len() == 4);
}

#[test]
fn return_correct_title() {
    let sample_table = sample_sheet();
    assert!(return_title(sample_table) == "IMPP sample table - Google Tabellen".to_string());
}

#[test]
fn sample_sheet_reads_into_database() {
    let db = extract_from_raw_data(vec![sample_sheet(), String::new()]);
    let expected = sample_db();
    assert_eq!(db.len(), 10);
    for (a, b) in db.iter().zip(expected.iter()) {
        assert!(same(a, b), "{:?} != {:?}", a, b);
    }
}

#[test]
fn rows_are_numbered_from_one() {
    let db = extract_from_raw_data(vec![sample_sheet(), String::new()]);
    for (k, q) in db.iter().enumerate() {
        assert_eq!(q.id, k as i32 + 1);
    }
}

#[test]
fn header_only_sheet_is_empty() {
    let html = format!("<table>{}</table>", sheet_row(0, &["Question", "Answer", "Category", "Extra"]));
    assert!(extract_from_raw_data(vec![html, String::new()]).is_empty());
}

#[test]
fn rows_without_question_and_answer_are_dropped() {
    let html = format!(
        "<table>{}{}{}{}</table>",
        sheet_row(0, &["Question", "Answer", "Category", "Extra"]),
        sheet_row(1, &["", "", "Orphan", "x"]),
        sheet_row(2, &["Schilddrüse", "M:Long<br>answer", "Endocrinology", "x"]),
        sheet_row(3, &["", "Only an answer", "", ""]),
    );
    let db = extract_from_raw_data(vec![html, String::new()]);
    assert_eq!(db.len(), 2);
    assert_eq!(db[0].id, 1);
    assert_eq!(db[0].question, "Schilddrüse");
    assert_eq!(db[0].answer, "Longanswer");
    assert_eq!(db[0].category, "Endocrinology");
    assert_eq!(db[0].extra, "x");
    assert_eq!(db[1].id, 2);
    assert_eq!(db[1].question, "");
    assert_eq!(db[1].answer, "Only an answer");
}

#[test]
fn reading_needs_two_elements() {
    assert!(try_extract_from_raw_data(vec![sample_sheet()]).is_none());
    assert!(try_extract_from_raw_data(vec![]).is_none());
}

#[test]
fn broken_row_is_refused() {
    // a row start with no cell after it
    let html = String::from("<table><tr><th>1</th><td");
    assert!(try_extract_from_raw_data(vec![html, String::new()]).is_none());
}

#[test]
fn next_value_of_plain_cell() {
    let v = extract_next_gsheet_value(String::from(" class=\"s1\" dir=\"ltr\">Question</td><td class=\"s1\">Answer</td>"));
    assert_eq!(v, vec!["Question".to_string(), "</td><td class=\"s1\">Answer</td>".to_string()]);
}

#[test]
fn next_value_after_closed_cell() {
    let v = extract_next_gsheet_value(String::from("</td><td class=\"s1\" dir=\"ltr\">Answer</td><td>"));
    assert_eq!(v, vec!["Answer".to_string(), "</td><td>".to_string()]);
}

#[test]
fn next_value_of_merged_cell() {
    let v = extract_next_gsheet_value(String::from(
        "</td><td class=\"s3 softmerge\" dir=\"ltr\"><div class=\"softmerge-inner\" style=\"width: 300px; left: -1px;\">Long answer</div></td><td>",
    ));
    assert_eq!(v, vec!["Long answer".to_string(), "</td><td>".to_string()]);
}

#[test]
fn next_value_drops_div_close_after_value() {
    let v = extract_next_gsheet_value(String::from("<b>text</div>rest"));
    assert_eq!(v, vec!["text".to_string(), "rest".to_string()]);
}

#[test]
fn next_value_missing_is_none() {
    assert!(next_value("no tags at all").is_none());
    assert!(next_value("a>b").is_none());
    assert!(next_value("x>").is_none());
    assert!(next_value("x>value<no").is_none());
}

#[test]
fn title_missing_is_none() {
    assert!(try_return_title("<html><head></head></html>").is_none());
    assert!(try_return_title("<title>never closed").is_none());
    assert_eq!(try_return_title("<title></title>").unwrap(), "");
}

#[test]
fn question_vector_in_both_modes() {
    let db = sample_db();
    let v = get_question_vector(&db, false, 9);
    assert_eq!(v.len(), 1);
    assert!(same(&v[0], &db[9]));
    let j = get_question_vector(&db, true, 9);
    assert_eq!(j[0].question, "Sex hormone-binding globulin");
    assert_eq!(j[0].answer, "SHBG");
    assert_eq!(j[0].id, 10);
}

#[test]
fn details_twice_jeopardy_gives_back() {
    let db = sample_db();
    let once = get_question_vector(&db, true, 3);
    let twice = get_question_vector(&once, true, 0);
    assert!(same(&twice[0], &db[3]));
}

#[test]
fn distractors_are_distinct_questions_of_the_category() {
    let db = sample_db();
    for _ in 0..20 {
        let d = generate_mc_distractors(&db, 1, false, 4);
        assert_eq!(d.len(), 4);
        for (k, q) in d.iter().enumerate() {
            assert_eq!(q.category, "Radiologic sign");
            assert_ne!(q.question, "Westermark sign");
            for r in d.iter().skip(k + 1) {
                assert_ne!(q.question, r.question);
            }
        }
    }
}

#[test]
fn distractors_in_jeopardy_mode_show_answers() {
    let db = sample_db();
    let d = generate_mc_distractors(&db, 5, true, 4);
    // the category holds 4 questions: 4 - 2 distractors
    assert_eq!(d.len(), 2);
    for q in &d {
        assert!(db.iter().any(|o| o.answer == q.question && o.question == q.answer && o.category == "Pathology"));
    }
}

#[test]
fn distractors_stop_where_the_category_runs_out() {
    let mut db = sample_db();
    db[2].question = "Westermark sign".to_string();
    let d = generate_mc_distractors(&db, 1, false, 4);
    // questions 0, 3 and 4 remain with other texts
    assert_eq!(d.len(), 3);
}

#[test]
fn categories_are_all_and_each_category_once() {
    let c = get_categories(&sample_db());
    assert_eq!(c, vec!["All".to_string(), "Radiologic sign".to_string(), "Pathology".to_string(), "Endocrinology".to_string()]);
    assert_eq!(get_categories(&[]), vec!["All".to_string()]);
}

#[test]
fn random_question_stays_in_category() {
    let db = sample_db();
    for _ in 0..20 {
        let n = generate_random_question_number(&db, "Pathology");
        assert_eq!(db[n].category, "Pathology");
        let m = generate_random_question(String::from("All"), &db);
        assert!((0..10).contains(&m));
        let u = generate_random_question_number(&db, "Unknown");
        assert!(u < 10);
    }
}

#[test]
fn draw_selects_in_category() {
    let db = sample_db();
    assert_eq!(select_question_number(&db, "Pathology", 0), 5);
    assert_eq!(select_question_number(&db, "Pathology", 3), 8);
    assert_eq!(select_question_number(&db, "", 7), 7);
    assert_eq!(select_question_number(&db, "Unknown", 2), 2);
}

#[test]
fn database_file_is_under_path() {
    assert_eq!(database_file_path("src/tests/"), "src/tests/database.json");
    assert_eq!(database_file_path(""), "database.json");
}

#[test]
fn all_means_any_category() {
    let mk = |id: i32, c: &str| Question {
        id,
        answer: String::from("a"),
        question: format!("q{}", id),
        category: String::from(c),
        extra: String::new(),
    };
    let db = vec![mk(1, "All"), mk(2, "X"), mk(3, "Y")];
    let mut seen_other = false;
    for _ in 0..200 {
        let m = generate_random_question(String::from("All"), &db);
        assert!((0..3).contains(&m));
        if m != 0 {
            seen_other = true;
        }
    }
    assert!(seen_other);
}

#[test]
fn next_value_reads_non_ascii_values() {
    let v = extract_next_gsheet_value(String::from(" class=\"s1\" dir=\"ltr\">Übung – Größe</td><td>"));
    assert_eq!(v, vec!["Übung – Größe".to_string(), "</td><td>".to_string()]);
    let m = extract_next_gsheet_value(String::from(
        "</td><td class=\"s3 softmerge\"><div class=\"softmerge-inner\">Lange Äntwort</div></td><td>",
    ));
    assert_eq!(m, vec!["Lange Äntwort".to_string(), "</td><td>".to_string()]);
}

#[test]
fn sheet_read_depends_on_html_only() {
    let a = try_extract_from_raw_data(vec![sample_sheet(), String::new()]).unwrap();
    let b = try_extract_from_raw_data(vec![sample_sheet(), String::from("other"), String::from("more")]).unwrap();
    assert_eq!(a.len(), b.len());
    for (x, y) in a.iter().zip(b.iter()) {
        assert_eq!((x.id, &x.question, &x.answer, &x.category, &x.extra), (y.id, &y.question, &y.answer, &y.category, &y.extra));
    }
    assert!(try_extract_from_raw_data(vec![sample_sheet()]).is_none());
}
