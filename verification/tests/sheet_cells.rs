use impp::sheet_cells::{
    extract_field_value, extract_from_raw_data, generate_mc_questions,
    generate_random_question_number, order_by_draws, order_vec_by_rand, return_pref_key, try_extract_from_raw_data,
    Question,
};

const ROWS: [[&str; 4]; 10] = [
    ["Hampton hump", "Dome-shaped opacity of a pulmonary infarct", "Radiologic sign", "EOL"],
    ["Westermark sign", "Regional oligemia distal to a pulmonary embolus", "Radiologic sign", "Pulmonary embolism"],
    ["Fabella sign", "M:Displacement of the fabella that is seen in cases of synovial effusion and popliteal fossa masses", "Radiologic sign", "EOL"],
    ["Golden S sign", "Reverse S shape of a collapsed right upper lobe", "Radiologic sign", "EOL"],
    ["Silhouette sign", "Loss of the border between two structures of similar density", "Radiologic sign", "EOL"],
    ["Virchow triad", "Stasis, endothelial injury and hypercoagulability", "Pathology", "EOL"],
    ["Charcot triad", "Fever, jaundice and right upper quadrant pain", "Pathology", "EOL"],
    ["Beck triad", "Hypotension, distended neck veins and muffled heart sounds", "Pathology", "EOL"],
    ["Cushing triad", "Hypertension, bradycardia and irregular breathing", "Pathology", "EOL"],
    ["SHBG", "Sex hormone-binding globulin", "Endocrinology", "EOL"],
];

fn cell(t: &str) -> String {
    match t.strip_prefix("M:") {
        Some(m) => format!("<td class=\"s3 softmerge\"><div class=\"softmerge-inner\" style=\"width: 512px; left: -1px;\">{}</div></td>", m),
        None => format!("<td class=\"s1\">{}</td>", t),
    }
}

fn sample_table() -> String {
    let mut html = String::from("<html><body><table>");
    for r in ROWS.iter() {
        html.push_str("<tr>");
        for c in r {
            html.push_str(&cell(c));
        }
        html.push_str("</tr>");
    }
    html.push_str("</table></body></html>");
    html
}

fn sample_db() -> Vec<Question> {
    extract_from_raw_data(vec![sample_table(), String::new()])
}

#[test]
fn from_empty_string_array() {
    let mut arr = vec![];
    assert!(extract_field_value(&mut arr).is_err());
}

#[test]
fn return_only_one_answer() {
    let questions_db = sample_db();
    assert!(generate_mc_questions(&questions_db, 9, false, 5).len() == 1);
}

#[test]
fn return_four_answers() {
    let questions_db = sample_db();
    assert!(generate_mc_questions(&questions_db, 6, false, 5).len() == 4);
}

#[test]
fn jeopardy_mode_works() {
    let questions_db = sample_db();
    assert!(generate_mc_questions(&questions_db, 9, true, 5)[0].answer == "SHBG");
}

#[test]
fn lib_known_database_result_num() {
    assert!(extract_from_raw_data(vec![sample_table(), String::new()]).len() == 10);
}

#[test]
fn sample_table_values() {
    let db = sample_db();
    assert_eq!(db[2].question, "Fabella sign");
    assert_eq!(db[2].answer, "Displacement of the fabella that is seen in cases of synovial effusion and popliteal fossa masses");
    assert_eq!(db[2].category, "Radiologic sign");
    assert_eq!(db[2].extra, "");
    assert_eq!(db[1].extra, "Pulmonary embolism");
}

#[test]
fn field_value_of_plain_cell() {
    let mut arr = vec![String::from("<tr><td class=\"s4\">Value</td><td class=\"s2\">Next</td>"), String::new()];
    assert!(extract_field_value(&mut arr).is_ok());
    assert_eq!(arr[1], "Value");
    assert_eq!(arr[0], "</td><td class=\"s2\">Next</td>");
}

#[test]
fn field_value_of_merged_cell() {
    let mut arr = vec![
        String::from("<td class=\"s2 softmerge\"><div class=\"softmerge-inner\" style=\"width: 512px; left: -1px;\">Merged</div></td><td class=\"s1\">Plain</td>"),
        String::new(),
        String::from("kept"),
    ];
    assert!(extract_field_value(&mut arr).is_ok());
    assert_eq!(arr[1], "Merged");
    assert_eq!(arr[0], "</div></td><td class=\"s1\">Plain</td>");
    assert_eq!(arr[2], "kept");
}

#[test]
fn field_value_skips_blank_values() {
    let html = String::from("<td class=\"s1\"></td><td class=\"s1\">EOL</td><td class=\"s1\">Q</td><td class=\"s1\">A</td><td class=\"s1\">EOL</td><td class=\"s1\">E</td>");
    let db = extract_from_raw_data(vec![html, String::new()]);
    assert_eq!(db.len(), 1);
    assert_eq!(db[0].question, "Q");
    assert_eq!(db[0].answer, "A");
    assert_eq!(db[0].category, "");
    assert_eq!(db[0].extra, "E");
}

#[test]
fn table_without_cells_is_empty() {
    assert!(extract_from_raw_data(vec![String::from("<p>nothing</p>")]).is_empty());
}

#[test]
fn unfinished_question_is_refused() {
    let html = String::from("<td class=\"s1\">Q</td><td class=\"s1\">A</td>");
    assert!(try_extract_from_raw_data(vec![html, String::new()]).is_none());
    let html = String::from("<td class=\"s1\">Q</td>");
    assert!(try_extract_from_raw_data(vec![html]).is_none());
}

#[test]
fn mc_questions_start_with_ours() {
    let db = sample_db();
    for _ in 0..20 {
        let mc = generate_mc_questions(&db, 1, false, 5);
        assert_eq!(mc.len(), 5);
        assert_eq!(mc[0].question, "Westermark sign");
        for (k, q) in mc.iter().enumerate() {
            assert_eq!(q.category, "Radiologic sign");
            for r in mc.iter().skip(k + 1) {
                assert_ne!(q.question, r.question);
            }
        }
    }
}

#[test]
fn random_order_keeps_questions() {
    let db = sample_db();
    for _ in 0..20 {
        let shuffled = order_vec_by_rand(sample_db());
        assert_eq!(shuffled.len(), db.len());
        for q in &db {
            assert_eq!(shuffled.iter().filter(|s| s.question == q.question).count(), 1);
        }
    }
}

#[test]
fn order_by_draws_follows_draws() {
    let db = sample_db();
    let three: Vec<Question> = db[0..3].to_vec();
    let names = |v: &Vec<Question>| v.iter().map(|q| q.question.clone()).collect::<Vec<String>>();
    let forward = order_by_draws(three.clone(), &vec![2, 0, 0], false);
    assert_eq!(names(&forward), vec!["Fabella sign", "Hampton hump", "Westermark sign"]);
    let backward = order_by_draws(three.clone(), &vec![2, 0, 0], true);
    assert_eq!(names(&backward), vec!["Westermark sign", "Hampton hump", "Fabella sign"]);
    let same = order_by_draws(three, &vec![0, 0, 0], false);
    assert_eq!(names(&same), vec!["Hampton hump", "Westermark sign", "Fabella sign"]);
    assert!(order_by_draws(Vec::new(), &Vec::new(), true).is_empty());
}

#[test]
fn cell_random_question_in_category() {
    let db = sample_db();
    for _ in 0..20 {
        let n = generate_random_question_number(&db, "Endocrinology");
        assert_eq!(n, 9);
        assert!(generate_random_question_number(&db, "") < 10);
    }
}

#[test]
fn preference_is_looked_up() {
    let entries = vec![
        ("url".to_string(), "https://example.org/a".to_string()),
        ("other".to_string(), "x".to_string()),
    ];
    assert_eq!(return_pref_key("url", &entries), "https://example.org/a");
    assert_eq!(return_pref_key("missing", &entries), "");
    assert_eq!(return_pref_key("url", &vec![]), "");
    let twice = vec![("k".to_string(), "1".to_string()), ("k".to_string(), "2".to_string())];
    assert_eq!(return_pref_key("k", &twice), "2");
}
