use impp::text::{find_bytes, find_str, matches_at, remove_all, str_eq};

#[test]
fn find_first_occurrence() {
    assert_eq!(find_str("a<b<c", "<"), Some(1));
    assert_eq!(find_str("abc", "x"), None);
    assert_eq!(find_str("abc", ""), Some(0));
    assert_eq!(find_str("ä>", ">"), Some(2));
    assert_eq!(find_bytes(b"aaab", b"ab"), Some(2));
    assert_eq!(find_bytes(b"a", b"ab"), None);
}

#[test]
fn match_at_position() {
    assert!(matches_at(b"xyz", b"yz", 1));
    assert!(!matches_at(b"xyz", b"yz", 2));
    assert!(matches_at(b"xyz", b"", 3));
}

#[test]
fn equality_of_text() {
    assert!(str_eq("Größe", "Größe"));
    assert!(!str_eq("Größe", "Grösse"));
    assert!(!str_eq("a", "ab"));
}

#[test]
fn removing_occurrences() {
    assert_eq!(remove_all("a</div>b</div>", "</div>"), "ab");
    assert_eq!(remove_all("none", "</div>"), "none");
    // one pass from the left: what the removal joins stays
    assert_eq!(remove_all("<</div>/div>", "</div>"), "</div>");
    assert_eq!(remove_all("x<br>ü<br>", "<br>"), "xü");
}
