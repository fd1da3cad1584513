//! Questions read cell by cell from the HTML of a spreadsheet whose cells
//! carry the classes `s1` to `s9`, and multiple-choice questions drawn from them.
use crate::pattern::regex_group;
use crate::picking::{
    cards, category_positions, category_size, draw_picks, drawn_picks, indices,
    lemma_category_positions, lemma_drawn_picks_full, lemma_picks_distinct, positions_in_category,
    random_question_number, some_selected, texts, Card, HasCard,
};
use crate::random::random_in;
use crate::text::{
    as_int, ascii, find_str, first_index, lemma_ascii_boundary, lemma_ascii_literal,
    lemma_boundary_range, lemma_first_index, lemma_utf8_empty, lemma_utf8_injective, occurs_at,
    str_eq, utf8,
};
use vstd::multiset::Multiset;
use vstd::prelude::*;
use vstd::string::StringSliceAdditionalSpecFns;
use vstd::utf8::*;

pub use crate::picking::select_question_number;

verus! {

broadcast use vstd::utf8::group_utf8_lib;

/// A question with its answer, category and extra information.
#[derive(Debug, Clone)]
pub struct Question {
    pub question: String,
    pub answer: String,
    pub category: String,
    pub extra: String,
}

/// The mathematical value of a [`Question`].
pub struct QuestionView {
    pub question: Seq<char>,
    pub answer: Seq<char>,
    pub category: Seq<char>,
    pub extra: Seq<char>,
}

impl View for Question {
    type V = QuestionView;

    open spec fn view(&self) -> QuestionView {
        QuestionView {
            question: self.question@,
            answer: self.answer@,
            category: self.category@,
            extra: self.extra@,
        }
    }
}

/// The views of a sequence of questions.
pub open spec fn views(s: Seq<Question>) -> Seq<QuestionView> {
    s.map_values(|q: Question| q@)
}

/// Errors of the cell reader.
#[derive(Debug)]
pub enum Error {
    Input,
}

/// The start of a plain cell: `<td class="s1">` to `<td class="s9">`.
pub const BEGIN_CHARS: &'static str = "<td class=\"s[1-9]{1}\">";

/// The start of a merged cell.
pub const BEGIN_ALT_CHARS: &'static str = "<td class=\"s[1-9]{1} softmerge\">";

/// The element that a merged cell opens after its start.
pub const BEGIN_ALT_EXTRA_CHARS: &'static str =
    "<div class=\"softmerge-inner\" style=\"width: 512px; left: -1px;\">";

/// Where the address of the spreadsheet is kept among the preferences.
pub const PREF_KEY_ADDR: &'static str = "preferences/apps/impp";

/// `<td class="s`
pub open spec fn cell_open_bytes() -> Seq<u8> {
    ascii(seq!['<', 't', 'd', ' ', 'c', 'l', 'a', 's', 's', '=', '"', 's'])
}

/// What closes a cell start after its digit: `">`, or ` softmerge">` for a merged cell.
pub open spec fn cell_close_bytes(softmerge: bool) -> Seq<u8> {
    if softmerge {
        ascii(seq![' ', 's', 'o', 'f', 't', 'm', 'e', 'r', 'g', 'e', '"', '>'])
    } else {
        ascii(seq!['"', '>'])
    }
}

/// A cell start (plain or merged) begins at byte `p`: `<td class="s`, a digit
/// from 1 to 9, and the closing.
pub open spec fn cell_tag_at(b: Seq<u8>, p: int, softmerge: bool) -> bool {
    &&& occurs_at(b, cell_open_bytes(), p)
    &&& p + 12 < b.len()
    &&& 0x31 <= b[p + 12] <= 0x39
    &&& occurs_at(b, cell_close_bytes(softmerge), p + 13)
}

/// The first cell start at or after `k`.
pub open spec fn first_cell_tag_from(b: Seq<u8>, softmerge: bool, k: int) -> Option<int>
    decreases b.len() + 1 - k,
{
    if k < 0 || k > b.len() {
        None
    } else if cell_tag_at(b, k, softmerge) {
        Some(k)
    } else {
        first_cell_tag_from(b, softmerge, k + 1)
    }
}

/// The byte range of the first cell start, where there is one.
pub open spec fn cell_tag_span(b: Seq<u8>, softmerge: bool) -> Option<(int, int)> {
    match first_cell_tag_from(b, softmerge, 0) {
        Some(p) => Some((p, p + 13 + cell_close_bytes(softmerge).len())),
        None => None,
    }
}

/// The byte just after the first cell start, where there is one.
pub open spec fn cell_tag_end(b: Seq<u8>, softmerge: bool) -> Option<int> {
    match cell_tag_span(b, softmerge) {
        Some((p, e)) => Some(e),
        None => None,
    }
}

proof fn lemma_first_cell_tag_from(b: Seq<u8>, softmerge: bool, k: int)
    requires
        0 <= k,
    ensures
        first_cell_tag_from(b, softmerge, k) matches Some(p) ==> k <= p && cell_tag_at(
            b,
            p,
            softmerge,
        ),
    decreases b.len() + 1 - k,
{
    if k <= b.len() && !cell_tag_at(b, k, softmerge) {
        lemma_first_cell_tag_from(b, softmerge, k + 1);
    }
}

/// The end of a cell start lies within the bytes, after at least 15 of them.
proof fn lemma_cell_tag_end(b: Seq<u8>, softmerge: bool)
    ensures
        cell_tag_end(b, softmerge) matches Some(e) ==> 15 <= e <= b.len(),
{
    lemma_first_cell_tag_from(b, softmerge, 0);
}

pub proof fn lemma_patterns_differ()
    ensures
        BEGIN_CHARS@ != BEGIN_ALT_CHARS@,
{
    reveal_strlit("<td class=\"s[1-9]{1}\">");
    reveal_strlit("<td class=\"s[1-9]{1} softmerge\">");
    assert(BEGIN_CHARS@.len() != BEGIN_ALT_CHARS@.len());
}

/// The end of the first cell start (`Regex::find` with `pattern`).
fn cell_tag_search(pattern: &str, haystack: &str) -> (r: Option<usize>)
    requires
        pattern@ == BEGIN_CHARS@ || pattern@ == BEGIN_ALT_CHARS@,
    ensures
        as_int(r) == cell_tag_end(haystack.spec_bytes(), pattern@ == BEGIN_ALT_CHARS@),
{
    match regex_group(pattern, haystack, 0) {
        Some((_start, end)) => Some(end),
        None => None,
    }
}

/// `</td>`
pub open spec fn td_close_bytes() -> Seq<u8> {
    ascii(seq!['<', '/', 't', 'd', '>'])
}

/// `</div>`
pub open spec fn div_close_bytes() -> Seq<u8> {
    ascii(seq!['<', '/', 'd', 'i', 'v', '>'])
}

/// `EOL`, the marker of an empty value.
pub open spec fn eol_bytes() -> Seq<u8> {
    ascii(seq!['E', 'O', 'L'])
}

fn lit_td_close() -> (r: &'static str)
    ensures
        r.spec_bytes() == td_close_bytes(),
{
    let r = "</td>";
    proof {
        reveal_strlit("</td>");
        assert(r@ =~= seq!['<', '/', 't', 'd', '>']);
        lemma_ascii_literal(r, seq!['<', '/', 't', 'd', '>']);
    }
    r
}

fn lit_div_close() -> (r: &'static str)
    ensures
        r.spec_bytes() == div_close_bytes(),
{
    let r = "</div>";
    proof {
        reveal_strlit("</div>");
        assert(r@ =~= seq!['<', '/', 'd', 'i', 'v', '>']);
        lemma_ascii_literal(r, seq!['<', '/', 'd', 'i', 'v', '>']);
    }
    r
}

fn lit_eol() -> (r: &'static str)
    ensures
        r.spec_bytes() == eol_bytes(),
{
    let r = "EOL";
    proof {
        reveal_strlit("EOL");
        assert(r@ =~= seq!['E', 'O', 'L']);
        lemma_ascii_literal(r, seq!['E', 'O', 'L']);
    }
    r
}

/// The number of characters of `BEGIN_ALT_EXTRA_CHARS`.
pub open spec fn alt_extra_len() -> int {
    BEGIN_ALT_EXTRA_CHARS@.len() as int
}

/// Where the value of the first cell starts and what closes it. A merged
/// cell's value starts after its inner `<div ...>` and is closed by `</div>`;
/// it is taken where it starts before the first plain cell's value. Where
/// there is no merged cell, byte 10000 stands in for it.
pub open spec fn field_start(b: Seq<u8>, pos: int) -> (int, Seq<u8>) {
    let pos_alt = match cell_tag_end(b, true) {
        Some(e) => e + alt_extra_len(),
        None => 10000,
    };
    if pos_alt < pos {
        (pos_alt, div_close_bytes())
    } else {
        (pos, td_close_bytes())
    }
}

/// One step of the cell reader on the HTML `b`: the HTML from the end of the
/// first cell's value on, and that value. `None` where the step fails (no cell, a cut inside a character or past the
/// end, no closing).
pub open spec fn spec_field(b: Seq<u8>) -> Option<(Seq<u8>, Seq<u8>)> {
    match cell_tag_end(b, false) {
        None => None,
        Some(pos) => {
            let (cut, close) = field_start(b, pos);
            if !(0 < cut <= b.len() && is_char_boundary(b, cut)) {
                None
            } else {
                let ns = b.subrange(cut, b.len() as int);
                match first_index(ns, close) {
                    None => None,
                    Some(q) => Some((ns.subrange(q, ns.len() as int), ns.subrange(0, q))),
                }
            }
        },
    }
}

/// The HTML that a reader step leaves is shorter than what it was given.
pub proof fn lemma_field_shrinks(b: Seq<u8>)
    ensures
        spec_field(b) matches Some((rest, v)) ==> rest.len() < b.len(),
{
    if let Some((rest, v)) = spec_field(b) {
        let pos = cell_tag_end(b, false)->0;
        let (cut, close) = field_start(b, pos);
        let ns = b.subrange(cut, b.len() as int);
        lemma_first_index(ns, close);
    }
}

/// One reader step, `None` where it fails.
fn field_step(s: &str) -> (r: Option<(String, String)>)
    requires
        s.spec_bytes().len() + 64 <= usize::MAX,
    ensures
        match spec_field(s.spec_bytes()) {
            None => r is None,
            Some((rest, v)) => r matches Some((a, t)) && utf8(a@) == rest && utf8(t@) == v,
        },
{
    let ghost b = s.spec_bytes();
    proof {
        lemma_patterns_differ();
    }
    let pos = match cell_tag_search(BEGIN_CHARS, s) {
        None => return None,
        Some(p) => p,
    };
    proof {
        lemma_cell_tag_end(b, false);
        lemma_cell_tag_end(b, true);
    }
    let mut cut = pos;
    let mut close = lit_td_close();
    let mut pos_alt: usize = 10000;
    let extra = BEGIN_ALT_EXTRA_CHARS.unicode_len();
    proof {
        reveal_strlit("<div class=\"softmerge-inner\" style=\"width: 512px; left: -1px;\">");
    }
    match cell_tag_search(BEGIN_ALT_CHARS, s) {
        Some(e) => {
            pos_alt = e + extra;
        },
        None => {},
    }
    if pos_alt < pos {
        cut = pos_alt;
        close = lit_div_close();
    }
    assert(field_start(b, pos as int) == (cut as int, close.spec_bytes()));
    if !s.is_char_boundary(cut) {
        return None;
    }
    proof {
        lemma_boundary_range(b, cut as int);
    }
    let (_before, ns) = s.split_at(cut);
    let ghost nb = ns.spec_bytes();
    assert(nb =~= b.subrange(cut as int, b.len() as int));
    let q = match find_str(ns, close) {
        None => return None,
        Some(q) => q,
    };
    proof {
        lemma_first_index(nb, close.spec_bytes());
        assert(nb[q as int] == nb.subrange(q as int, q + close.spec_bytes().len())[0]);
        lemma_ascii_boundary(nb, q as int);
    }
    let (value, rest) = ns.split_at(q);
    Some((rest.to_owned(), value.to_owned()))
}

/// Move to the next cell: the first element becomes the HTML after the value
/// of its first cell, and the second that value.
pub fn extract_field_value(string_array: &mut [String]) -> (r: Result<(), Error>)
    requires
        old(string_array)@.len() != 1,
        old(string_array)@.len() >= 2 ==> utf8(old(string_array)@[0]@).len() + 64 <= usize::MAX,
        old(string_array)@.len() >= 2 ==> spec_field(utf8(old(string_array)@[0]@)) is Some,
    ensures
        old(string_array)@.len() == 0 ==> r is Err && final(string_array)@ == old(string_array)@,
        old(string_array)@.len() >= 2 ==> {
            let (rest, v) = spec_field(utf8(old(string_array)@[0]@))->0;
            &&& r is Ok
            &&& final(string_array)@.len() == old(string_array)@.len()
            &&& utf8(final(string_array)@[0]@) == rest
            &&& utf8(final(string_array)@[1]@) == v
            &&& forall|i: int|
                2 <= i < old(string_array)@.len() ==> final(string_array)@[i] == old(
                    string_array,
                )@[i]
        },
{
    if string_array.len() == 0 {
        return Err(Error::Input);
    }
    match field_step(string_array[0].as_str()) {
        Some((rest, v)) => {
            string_array[0] = rest;
            string_array[1] = v;
            Ok(())
        },
        None => {
            proof {
                assert(false);
            }
            Ok(())
        },
    }
}

// ---------------------------------------------------------------------------
// Reading all questions
// ---------------------------------------------------------------------------

/// A value that counts as empty: nothing, or `EOL`.
pub open spec fn blank(v: Seq<u8>) -> bool {
    v.len() == 0 || v == eol_bytes()
}

/// The HTML holds a plain cell.
pub open spec fn has_cell(b: Seq<u8>) -> bool {
    cell_tag_end(b, false) is Some
}

/// `v`, or nothing where it is `EOL`.
pub open spec fn unless_eol(v: Seq<u8>) -> Seq<u8> {
    if v == eol_bytes() {
        seq![]
    } else {
        v
    }
}

/// Reader steps from `(b, v)` while the value is blank and a cell is left;
/// at least one where `initial`. The HTML and value where it stops.
pub open spec fn spec_skip(b: Seq<u8>, v: Seq<u8>, initial: bool) -> Option<(Seq<u8>, Seq<u8>)>
    decreases b.len(),
{
    if (blank(v) || initial) && has_cell(b) {
        match spec_field(b) {
            None => None,
            Some((rest, v2)) => {
                proof {
                    lemma_field_shrinks(b);
                }
                spec_skip(rest, v2, false)
            },
        }
    } else {
        Some((b, v))
    }
}

/// Skipping never lengthens the HTML, and shortens it where a step is forced.
pub proof fn lemma_skip_shrinks(b: Seq<u8>, v: Seq<u8>, initial: bool)
    ensures
        spec_skip(b, v, initial) matches Some((b2, v2)) ==> b2.len() <= b.len() && (initial
            && has_cell(b) ==> b2.len() < b.len()),
    decreases b.len(),
{
    if (blank(v) || initial) && has_cell(b) {
        lemma_field_shrinks(b);
        if let Some((rest, v2)) = spec_field(b) {
            lemma_skip_shrinks(rest, v2, false);
        }
    }
}

/// Three reader steps: answer, category and extra values, and the HTML after them.
pub open spec fn spec_three_fields(b: Seq<u8>) -> Option<(Seq<u8>, Seq<u8>, Seq<u8>, Seq<u8>)> {
    match spec_field(b) {
        None => None,
        Some((b2, a)) => match spec_field(b2) {
            None => None,
            Some((b3, c)) => match spec_field(b3) {
                None => None,
                Some((b4, e)) => Some((a, c, e, b4)),
            },
        },
    }
}

pub proof fn lemma_three_fields_shrinks(b: Seq<u8>)
    ensures
        spec_three_fields(b) matches Some((a, c, e, r)) ==> r.len() < b.len(),
{
    lemma_field_shrinks(b);
    if let Some((b2, a)) = spec_field(b) {
        lemma_field_shrinks(b2);
        if let Some((b3, c)) = spec_field(b2) {
            lemma_field_shrinks(b3);
        }
    }
}

/// The question that a question value and three more values stand for.
pub open spec fn cell_question(q: Seq<u8>, a: Seq<u8>, c: Seq<u8>, e: Seq<u8>) -> QuestionView {
    QuestionView {
        question: decode_utf8(q),
        answer: decode_utf8(unless_eol(a)),
        category: decode_utf8(unless_eol(c)),
        extra: decode_utf8(unless_eol(e)),
    }
}

/// The questions of the HTML `b` with current value `v`. Each question is a
/// non-blank value followed by three more (answer, category, extra; `EOL`
/// standing for an empty one); questions without question and answer are
/// left out. `None` where reading fails.
pub open spec fn spec_cell_rows(b: Seq<u8>, v: Seq<u8>) -> Option<Seq<QuestionView>>
    decreases b.len(),
{
    if !has_cell(b) {
        Some(seq![])
    } else {
        match spec_skip(b, v, true) {
            None => None,
            Some((b1, q)) => {
                proof {
                    lemma_skip_shrinks(b, v, true);
                }
                if q == eol_bytes() {
                    spec_cell_rows(b1, q)
                } else {
                    match spec_three_fields(b1) {
                        None => None,
                        Some((a, c, e, b4)) => {
                            proof {
                                lemma_three_fields_shrinks(b1);
                            }
                            let row = cell_question(q, a, c, e);
                            match spec_cell_rows(b4, e) {
                                None => None,
                                Some(t) => if row.question.len() == 0 && row.answer.len() == 0 {
                                    Some(t)
                                } else {
                                    Some(seq![row] + t)
                                },
                            }
                        },
                    }
                }
            },
        }
    }
}

/// `acc` followed by the result, where there is one.
pub open spec fn prepend(acc: Seq<QuestionView>, o: Option<Seq<QuestionView>>) -> Option<
    Seq<QuestionView>,
> {
    match o {
        None => None,
        Some(t) => Some(acc + t),
    }
}

/// The questions of the HTML in the first element (the second is working
/// space and must exist where a cell does).
pub open spec fn spec_raw_data(s: Seq<Seq<char>>) -> Option<Seq<QuestionView>> {
    if s.len() == 0 {
        None
    } else if has_cell(utf8(s[0])) && s.len() < 2 {
        None
    } else {
        spec_cell_rows(utf8(s[0]), if s.len() >= 2 {
            utf8(s[1])
        } else {
            seq![]
        })
    }
}

/// Whether a value is blank, whether it is `EOL`.
fn blank_or_eol(v: &str) -> (r: (bool, bool))
    ensures
        r.0 == blank(v.spec_bytes()),
        r.1 == (v.spec_bytes() == eol_bytes()),
{
    let eol = lit_eol();
    let is_eol = str_eq(v, eol);
    proof {
        lemma_utf8_empty(v@);
        if v.spec_bytes() == eol.spec_bytes() {
            lemma_utf8_injective(v@, eol@);
        }
    }
    (v.is_empty() || is_eol, is_eol)
}

/// Whether the HTML holds a plain cell.
fn cell_found(s: &str) -> (r: bool)
    ensures
        r == has_cell(s.spec_bytes()),
{
    proof {
        lemma_patterns_differ();
    }
    cell_tag_search(BEGIN_CHARS, s).is_some()
}

/// Reader steps while the value is blank and a cell is left, at least one.
fn skip_blank_cells(b: String, v: String) -> (r: Option<(String, String)>)
    requires
        utf8(b@).len() + 64 <= usize::MAX,
        has_cell(utf8(b@)),
    ensures
        match spec_skip(utf8(b@), utf8(v@), true) {
            None => r is None,
            Some((b2, v2)) => r matches Some((x, y)) && utf8(x@) == b2 && utf8(y@) == v2,
        },
        r matches Some((x, y)) ==> utf8(x@).len() < utf8(b@).len(),
{
    let ghost start0 = utf8(b@);
    let ghost start1 = utf8(v@);
    proof {
        lemma_skip_shrinks(start0, start1, true);
    }
    let mut cur0 = b;
    let mut cur1 = v;
    let mut initial = true;
    loop
        invariant
            utf8(cur0@).len() + 64 <= usize::MAX,
            start0 == utf8(b@),
            start1 == utf8(v@),
            spec_skip(start0, start1, true) matches Some((x, y)) ==> x.len() < start0.len(),
            has_cell(start0),
            utf8(cur0@).len() <= start0.len(),
            initial ==> utf8(cur0@) == start0,
            spec_skip(start0, start1, true) == spec_skip(utf8(cur0@), utf8(cur1@), initial),
        decreases utf8(cur0@).len(),
    {
        let (is_blank, _is_eol) = blank_or_eol(cur1.as_str());
        if !((is_blank || initial) && cell_found(cur0.as_str())) {
            return Some((cur0, cur1));
        }
        match field_step(cur0.as_str()) {
            None => return None,
            Some((rest, v2)) => {
                proof {
                    lemma_field_shrinks(utf8(cur0@));
                }
                cur0 = rest;
                cur1 = v2;
            },
        }
        initial = false;
    }
}

/// The question whose question value is `q`, read from the three values that
/// follow; the HTML after them and the last raw value.
fn read_question(b: &str, q: String) -> (r: Option<(Question, String, String)>)
    requires
        b.spec_bytes().len() + 64 <= usize::MAX,
    ensures
        match spec_three_fields(b.spec_bytes()) {
            None => r is None,
            Some((a, c, e, rest)) => r matches Some((question, x, y)) && question@ == cell_question(
                utf8(q@),
                a,
                c,
                e,
            ) && utf8(x@) == rest && utf8(y@) == e,
        },
        r matches Some((question, x, y)) ==> utf8(x@).len() < b.spec_bytes().len(),
{
    proof {
        lemma_field_shrinks(b.spec_bytes());
        lemma_three_fields_shrinks(b.spec_bytes());
    }
    let (b2, a) = match field_step(b) {
        None => return None,
        Some(x) => x,
    };
    proof {
        lemma_field_shrinks(utf8(b2@));
    }
    let (b3, c) = match field_step(b2.as_str()) {
        None => return None,
        Some(x) => x,
    };
    proof {
        lemma_field_shrinks(utf8(b3@));
    }
    let (b4, e) = match field_step(b3.as_str()) {
        None => return None,
        Some(x) => x,
    };
    let (_ab, a_eol) = blank_or_eol(a.as_str());
    let (_cb, c_eol) = blank_or_eol(c.as_str());
    let (_eb, e_eol) = blank_or_eol(e.as_str());
    let answer = if a_eol {
        String::new()
    } else {
        a
    };
    let category = if c_eol {
        String::new()
    } else {
        c
    };
    let extra = if e_eol {
        String::new()
    } else {
        e.clone()
    };
    let question = Question { question: q, answer, category, extra };
    Some((question, b4, e))
}

/// The questions of the HTML in the first element, `None` where reading fails.
pub fn try_extract_from_raw_data(string_array: Vec<String>) -> (r: Option<Vec<Question>>)
    requires
        string_array@.len() > 0 ==> utf8(string_array@[0]@).len() + 64 <= usize::MAX,
    ensures
        match spec_raw_data(texts(string_array@)) {
            None => r is None,
            Some(t) => r is Some && views(r->0@) == t,
        },
{
    if string_array.len() == 0 {
        return None;
    }
    let ghost sv = texts(string_array@);
    let mut cur0: String = string_array[0].clone();
    if !cell_found(cur0.as_str()) {
        return Some(Vec::new());
    }
    if string_array.len() < 2 {
        return None;
    }
    let mut cur1: String = string_array[1].clone();
    let ghost total = spec_cell_rows(utf8(cur0@), utf8(cur1@));
    assert(total == spec_raw_data(sv));
    let mut out: Vec<Question> = Vec::new();
    loop
        invariant
            utf8(cur0@).len() + 64 <= usize::MAX,
            sv == texts(string_array@),
            total == spec_raw_data(sv),
            total == prepend(views(out@), spec_cell_rows(utf8(cur0@), utf8(cur1@))),
        decreases utf8(cur0@).len(),
    {
        if !cell_found(cur0.as_str()) {
            proof {
                assert(views(out@) + seq![] =~= views(out@));
            }
            return Some(out);
        }
        let (b1, q) = match skip_blank_cells(cur0, cur1) {
            None => return None,
            Some(x) => x,
        };
        let (_q_blank, q_eol) = blank_or_eol(q.as_str());
        if q_eol {
            cur0 = b1;
            cur1 = q;
        } else {
            let (question1, b4, e) = match read_question(b1.as_str(), q) {
                None => return None,
                Some(x) => x,
            };
            let ghost row = question1@;
            if question1.question.as_str().is_empty() && question1.answer.as_str().is_empty() {
            } else {
                let ghost old_out = views(out@);
                out.push(question1);
                proof {
                    assert(views(out@) =~= old_out + seq![row]);
                    match spec_cell_rows(utf8(b4@), utf8(e@)) {
                        None => {},
                        Some(t) => {
                            assert(old_out + (seq![row] + t) =~= views(out@) + t);
                        },
                    }
                }
            }
            cur0 = b4;
            cur1 = e;
        }
    }
}


// ---------------------------------------------------------------------------
// Picking questions
// ---------------------------------------------------------------------------

/// Extract the questions from the HTML in the first element (the second is
/// working space).
pub fn extract_from_raw_data(string_array: Vec<String>) -> (r: Vec<Question>)
    requires
        string_array@.len() > 0 ==> utf8(string_array@[0]@).len() + 64 <= usize::MAX,
        spec_raw_data(texts(string_array@)) is Some,
    ensures
        views(r@) == spec_raw_data(texts(string_array@))->0,
{
    match try_extract_from_raw_data(string_array) {
        Some(r) => r,
        None => {
            proof {
                assert(false);
            }
            Vec::new()
        },
    }
}

/// A question as it is asked: in jeopardy mode the answer is shown and the
/// question is to be found.
pub open spec fn oriented(q: QuestionView, jeopardy_mode: bool) -> QuestionView {
    if jeopardy_mode {
        QuestionView { question: q.answer, answer: q.question, category: q.category, extra: q.extra }
    } else {
        q
    }
}

/// Copy of `q` as it is asked.
fn oriented_copy(q: &Question, jeopardy_mode: bool) -> (r: Question)
    ensures
        r@ == oriented(q@, jeopardy_mode),
{
    if jeopardy_mode {
        Question {
            question: q.answer.clone(),
            answer: q.question.clone(),
            category: q.category.clone(),
            extra: q.extra.clone(),
        }
    } else {
        Question {
            question: q.question.clone(),
            answer: q.answer.clone(),
            category: q.category.clone(),
            extra: q.extra.clone(),
        }
    }
}

impl HasCard for Question {
    open spec fn card(&self) -> Card {
        Card { question: self.question@, category: self.category@ }
    }

    fn question_text(&self) -> (r: &str) {
        self.question.as_str()
    }

    fn category_text(&self) -> (r: &str) {
        self.category.as_str()
    }
}

/// A random question number that some draw selects (see `some_selected`);
/// where `topic` is given and some question has that category, one of that
/// category. Each such question is equally likely.
pub fn generate_random_question_number(questions_db: &Vec<Question>, topic: &str) -> (r: usize)
    requires
        questions_db@.len() > 0,
    ensures
        r < questions_db@.len(),
        some_selected(cards(questions_db@), topic@, r as int),
        topic@.len() > 0 && (exists|i: int|
            0 <= i < questions_db@.len() && #[trigger] questions_db@[i].category@ == topic@)
            ==> questions_db@[r as int].category@ == topic@,
{
    let r = random_question_number(questions_db.as_slice(), topic);
    proof {
        if topic@.len() > 0 && exists|i: int|
            0 <= i < questions_db@.len() && #[trigger] questions_db@[i].category@ == topic@ {
            let i = choose|i: int| 0 <= i < questions_db@.len() && #[trigger] questions_db@[i].category@ == topic@;
            assert(cards(questions_db@)[i].category == topic@);
        }
    }
    r
}

/// How many questions besides ours are drawn: one fewer than `amount`, or
/// than the size of the category where that is smaller.
pub open spec fn question_target(count: int, amount: int) -> int {
    let n = if count < amount {
        count
    } else {
        amount
    };
    if n >= 1 {
        n - 1
    } else {
        0
    }
}

/// `r` is a possible outcome of drawing multiple-choice questions for
/// question `our`: first ours, then questions drawn one by one, each time among
/// the questions of our category whose text is neither ours nor drawn before,
/// until the target is reached or no such question is left (see
/// `drawn_picks`); all shown as they are asked.
pub open spec fn mc_questions_of(
    db: Seq<Question>,
    our: int,
    jeopardy_mode: bool,
    amount: int,
    r: Seq<QuestionView>,
) -> bool {
    &&& r.len() >= 1
    &&& r[0] == oriented(db[our]@, jeopardy_mode)
    &&& exists|picks: Seq<int>|
        {
            &&& #[trigger] drawn_picks(
                cards(db),
                our,
                question_target(category_size(db, our), amount),
                picks,
            )
            &&& r.len() == picks.len() + 1
            &&& forall|k: int|
                0 <= k < picks.len() ==> #[trigger] r[k + 1] == oriented(db[picks[k]]@, jeopardy_mode)
        }
}

/// The question numbered `our_question_num` followed by other questions of
/// its category with different question texts, all shown as they are asked
/// (see `mc_questions_of`); number 0 is the correct answer.
pub fn generate_mc_questions(
    questions_db: &Vec<Question>,
    our_question_num: usize,
    jeopardy_mode: bool,
    num_mc_questions: usize,
) -> (r: Vec<Question>)
    requires
        our_question_num < questions_db@.len(),
    ensures
        mc_questions_of(
            questions_db@,
            our_question_num as int,
            jeopardy_mode,
            num_mc_questions as int,
            views(r@),
        ),
{
    let questions_db = questions_db.as_slice();
    let ghost db = cards(questions_db@);
    let ghost our = our_question_num as int;
    let our_q = &questions_db[our_question_num];
    let cat = our_q.category.as_str();
    let count_category_items = positions_in_category(questions_db, cat).len();
    let mut this_num_mc = num_mc_questions;
    if count_category_items < num_mc_questions {
        this_num_mc = count_category_items;
    }
    let target = if this_num_mc >= 1 {
        this_num_mc - 1
    } else {
        0
    };
    let picks = draw_picks(questions_db, our_question_num, target);
    proof {
        lemma_picks_distinct(db, our, indices(picks@));
        assert forall|k: int| 0 <= k < picks@.len() implies #[trigger] picks@[k] < questions_db@.len() by {
            assert(indices(picks@)[k] == picks@[k] as int);
        }
        assert(target == question_target(category_size(questions_db@, our), num_mc_questions as int));
    }
    let mut new_questions_db: Vec<Question> = Vec::new();
    new_questions_db.push(oriented_copy(our_q, jeopardy_mode));
    let mut t: usize = 0;
    while t < picks.len()
        invariant
            t <= picks@.len(),
            new_questions_db@.len() == t + 1,
            new_questions_db@[0]@ == oriented(questions_db@[our]@, jeopardy_mode),
            forall|k: int| 0 <= k < picks@.len() ==> #[trigger] picks@[k] < questions_db@.len(),
            forall|k: int|
                0 <= k < t ==> #[trigger] new_questions_db@[k + 1]@ == oriented(
                    questions_db@[picks@[k] as int]@,
                    jeopardy_mode,
                ),
        decreases picks@.len() - t,
    {
        new_questions_db.push(oriented_copy(&questions_db[picks[t]], jeopardy_mode));
        t += 1;
    }
    proof {
        let p = indices(picks@);
        assert(views(new_questions_db@)[0] == oriented(questions_db@[our]@, jeopardy_mode));
        assert forall|k: int| 0 <= k < p.len() implies #[trigger] views(new_questions_db@)[k + 1]
            == oriented(questions_db@[p[k]]@, jeopardy_mode) by {
            assert(new_questions_db@[k + 1]@ == oriented(questions_db@[picks@[k] as int]@, jeopardy_mode));
        }
        assert(drawn_picks(
            db,
            our,
            question_target(category_size(questions_db@, our), num_mc_questions as int),
            p,
        ));
    }
    new_questions_db
}

/// The order that draws give: the question at position `draws[0]` comes
/// first, then the order that the remaining draws give to the others.
pub open spec fn drawn_order(s: Seq<QuestionView>, draws: Seq<usize>) -> Seq<QuestionView>
    decreases s.len(),
{
    if 0 < s.len() && 0 < draws.len() && draws[0] < s.len() {
        let k = draws[0] as int;
        seq![s[k]] + drawn_order(s.remove(k), draws.drop_first())
    } else {
        s
    }
}

/// Each draw picks a position among the questions left: `draws[i] < n - i`.
pub open spec fn valid_draws(n: int, draws: Seq<usize>) -> bool {
    draws.len() == n && forall|i: int| 0 <= i < n ==> #[trigger] draws[i] < n - i
}

/// An order that draws give holds the same questions, each as often.
pub proof fn lemma_drawn_order_permutes(s: Seq<QuestionView>, draws: Seq<usize>)
    requires
        valid_draws(s.len() as int, draws),
    ensures
        drawn_order(s, draws).to_multiset() == s.to_multiset(),
    decreases s.len(),
{
    broadcast use vstd::seq_lib::group_to_multiset_ensures;

    if s.len() > 0 {
        let k = draws[0] as int;
        let rest = s.remove(k);
        let d = draws.drop_first();
        assert forall|i: int| 0 <= i < rest.len() implies #[trigger] d[i] < rest.len() - i by {
            assert(d[i] == draws[i + 1]);
        }
        lemma_drawn_order_permutes(rest, d);
        vstd::seq_lib::lemma_multiset_commutative(seq![s[k]], drawn_order(rest, d));
        s.to_multiset_ensures();
        seq![s[k]].to_multiset_ensures();
        assert(seq![s[k]] =~= Seq::<QuestionView>::empty().push(s[k]));
        Seq::<QuestionView>::empty().to_multiset_ensures();
        assert(s.contains(s[k]));
        assert(s.to_multiset().count(s[k]) > 0);
        assert(rest.to_multiset() =~= s.to_multiset().remove(s[k]));
        assert(seq![s[k]].to_multiset() =~= Multiset::<QuestionView>::empty().insert(s[k]));
        assert(drawn_order(s, draws).to_multiset() =~= s.to_multiset());
    }
}

/// The questions in the order that `draws` give, reversed where `reverse`.
pub fn order_by_draws(questions_db: Vec<Question>, draws: &Vec<usize>, reverse: bool) -> (r: Vec<
    Question,
>)
    requires
        valid_draws(questions_db@.len() as int, draws@),
    ensures
        views(r@) == (if reverse {
            drawn_order(views(questions_db@), draws@).reverse()
        } else {
            drawn_order(views(questions_db@), draws@)
        }),
{
    let ghost full = drawn_order(views(questions_db@), draws@);
    let n: usize = questions_db.len();
    let mut rest = questions_db;
    let mut shuffled: Vec<Question> = Vec::new();
    let mut i: usize = 0;
    proof {
        assert(draws@.skip(0) =~= draws@);
    }
    while rest.len() > 0
        invariant
            draws@.len() == n,
            forall|j: int| 0 <= j < n ==> #[trigger] draws@[j] < n - j,
            i + rest@.len() == n,
            i <= n,
            views(shuffled@) + drawn_order(views(rest@), draws@.skip(i as int)) == full,
        decreases rest@.len(),
    {
        let k = draws[i];
        let ghost before = views(rest@);
        let ghost d = draws@.skip(i as int);
        let q = rest.remove(k);
        proof {
            assert(views(rest@) =~= before.remove(k as int));
            assert(before[k as int] == q@);
            assert(d[0] == k);
            assert(d.drop_first() =~= draws@.skip(i + 1));
            assert(drawn_order(before, d) == seq![q@] + drawn_order(views(rest@), draws@.skip(i + 1)));
        }
        let ghost old_shuffled = views(shuffled@);
        shuffled.push(q);
        proof {
            assert(views(shuffled@) =~= old_shuffled.push(q@));
            assert(old_shuffled + (seq![q@] + drawn_order(views(rest@), draws@.skip(i + 1)))
                =~= views(shuffled@) + drawn_order(views(rest@), draws@.skip(i + 1)));
        }
        i += 1;
    }
    proof {
        assert(views(rest@) =~= Seq::<QuestionView>::empty());
        assert(views(shuffled@) + Seq::<QuestionView>::empty() =~= views(shuffled@));
    }
    if reverse {
        let ghost forward = views(shuffled@);
        let mut reversed: Vec<Question> = Vec::new();
        while shuffled.len() > 0
            invariant
                forward == full,
                views(shuffled@) == forward.take(shuffled@.len() as int),
                shuffled@.len() <= forward.len(),
                views(reversed@) =~= forward.reverse().take(forward.len() - shuffled@.len()),
            decreases shuffled@.len(),
        {
            let ghost before = views(shuffled@);
            let q = shuffled.pop().unwrap();
            proof {
                assert(before =~= views(shuffled@).push(q@));
                assert(views(shuffled@) =~= forward.take(shuffled@.len() as int));
                assert(before.len() == shuffled@.len() + 1);
                assert(before[shuffled@.len() as int] == q@);
                assert(before[shuffled@.len() as int] == forward[shuffled@.len() as int]);
            }
            let ghost old_reversed = views(reversed@);
            reversed.push(q);
            proof {
                assert(views(reversed@) =~= old_reversed.push(q@));
                assert(forward.reverse()[forward.len() - shuffled@.len() - 1] == forward[shuffled@.len() as int]);
                assert(views(reversed@) =~= forward.reverse().take(forward.len() - shuffled@.len()));
            }
        }
        proof {
            assert(forward.reverse().take(forward.len() as int) =~= forward.reverse());
        }
        reversed
    } else {
        shuffled
    }
}

/// The questions in an order left to chance: each question taken from a
/// random position of what is left, then the whole reversed with
/// probability 4/10. What comes back holds the same questions, each as often.
pub fn order_vec_by_rand(questions_db: Vec<Question>) -> (r: Vec<Question>)
    ensures
        views(r@).to_multiset() == views(questions_db@).to_multiset(),
{
    let n = questions_db.len();
    let mut draws: Vec<usize> = Vec::new();
    let mut i: usize = 0;
    while i < n
        invariant
            i <= n,
            draws@.len() == i,
            forall|j: int| 0 <= j < i ==> #[trigger] draws@[j] < n - j,
        decreases n - i,
    {
        draws.push(random_in(0, n - i));
        i += 1;
    }
    let reverse = random_in(0, 10) > 5;
    let ghost s = views(questions_db@);
    let r = order_by_draws(questions_db, &draws, reverse);
    proof {
        lemma_drawn_order_permutes(s, draws@);
        drawn_order(s, draws@).lemma_reverse_to_multiset();
    }
    r
}

// ---------------------------------------------------------------------------
// Preferences
// ---------------------------------------------------------------------------

/// The value stored under `key` among the entries: that of the last entry
/// with the key, or nothing.
pub open spec fn pref_value(entries: Seq<(String, String)>, key: Seq<char>) -> Seq<char>
    decreases entries.len(),
{
    if entries.len() == 0 {
        seq![]
    } else if entries.last().0@ == key {
        entries.last().1@
    } else {
        pref_value(entries.drop_last(), key)
    }
}

/// The stored preference `pref_key` among the loaded preferences, or nothing.
pub fn return_pref_key(pref_key: &str, preferences: &Vec<(String, String)>) -> (r: String)
    ensures
        r@ == pref_value(preferences@, pref_key@),
{
    let mut spreadsheet_url = String::new();
    let mut i: usize = 0;
    while i < preferences.len()
        invariant
            i <= preferences@.len(),
            spreadsheet_url@ == pref_value(preferences@.take(i as int), pref_key@),
        decreases preferences@.len() - i,
    {
        let (index, string) = &preferences[i];
        proof {
            assert(preferences@.take(i + 1).drop_last() =~= preferences@.take(i as int));
            assert(preferences@.take(i + 1).last() == preferences@[i as int]);
        }
        if str_eq(index.as_str(), pref_key) {
            spreadsheet_url = string.clone();
        }
        i += 1;
    }
    proof {
        assert(preferences@.take(preferences@.len() as int) =~= preferences@);
    }
    spreadsheet_url
}

// ---------------------------------------------------------------------------
// Laws
// ---------------------------------------------------------------------------

/// The first question is ours; every other is a question of our category whose
/// question text differs from ours and from that of every other one drawn.
pub proof fn lemma_mc_questions_distinct(
    db: Seq<Question>,
    our: int,
    jeopardy_mode: bool,
    amount: int,
    r: Seq<QuestionView>,
)
    requires
        0 <= our < db.len(),
        mc_questions_of(db, our, jeopardy_mode, amount, r),
    ensures
        r[0] == oriented(db[our]@, jeopardy_mode),
        forall|k: int| 0 <= k < r.len() ==> #[trigger] r[k].category == db[our].category@,
        forall|k: int|
            1 <= k < r.len() ==> oriented(#[trigger] r[k], jeopardy_mode).question != db[our].question@,
        forall|k: int, l: int|
            1 <= k < l < r.len() ==> oriented(#[trigger] r[k], jeopardy_mode).question != oriented(
                #[trigger] r[l],
                jeopardy_mode,
            ).question,
{
    let c = cards(db);
    let target = question_target(category_size(db, our), amount);
    let picks = choose|picks: Seq<int>|
        {
            &&& #[trigger] drawn_picks(c, our, target, picks)
            &&& r.len() == picks.len() + 1
            &&& forall|k: int|
                0 <= k < picks.len() ==> #[trigger] r[k + 1] == oriented(db[picks[k]]@, jeopardy_mode)
        };
    lemma_picks_distinct(c, our, picks);
    assert forall|k: int| 0 <= k < r.len() implies #[trigger] r[k].category == db[our].category@ by {
        if k > 0 {
            let j = k - 1;
            assert(r[j + 1] == oriented(db[picks[j]]@, jeopardy_mode));
            assert(c[picks[j]].category == c[our].category);
        }
    }
    assert forall|k: int|
        1 <= k < r.len() implies oriented(#[trigger] r[k], jeopardy_mode).question != db[our].question@ by {
        let j = k - 1;
        assert(r[j + 1] == oriented(db[picks[j]]@, jeopardy_mode));
        assert(c[picks[j]].question != c[our].question);
    }
    assert forall|k: int, l: int|
        1 <= k < l < r.len() implies oriented(#[trigger] r[k], jeopardy_mode).question != oriented(
        #[trigger] r[l],
        jeopardy_mode,
    ).question by {
        let j = k - 1;
        let m = l - 1;
        assert(r[j + 1] == oriented(db[picks[j]]@, jeopardy_mode));
        assert(r[m + 1] == oriented(db[picks[m]]@, jeopardy_mode));
        assert(c[picks[j]].question != c[picks[m]].question);
    }
}

/// In jeopardy mode the answer is asked and the question is to be found,
/// with category and extra information kept; otherwise a question is asked as
/// it is.
pub proof fn lemma_oriented_fields(q: QuestionView)
    ensures
        oriented(q, true).question == q.answer,
        oriented(q, true).answer == q.question,
        oriented(q, true).category == q.category,
        oriented(q, true).extra == q.extra,
        oriented(q, false) == q,
{
}

/// A multiple-choice set holds ours and at most `amount` questions in all,
/// never more than our category holds; where the question texts of our
/// category differ, it holds exactly `amount` of them, or the whole category
/// where that is smaller.
pub proof fn lemma_mc_questions_count(
    db: Seq<Question>,
    our: int,
    jeopardy_mode: bool,
    amount: int,
    r: Seq<QuestionView>,
)
    requires
        0 <= our < db.len(),
        mc_questions_of(db, our, jeopardy_mode, amount, r),
    ensures
        1 <= r.len() <= category_size(db, our),
        amount >= 1 ==> r.len() <= amount,
        amount >= 1 && (forall|i: int, j: int|
            0 <= i < j < db.len() && #[trigger] db[i].category@ == db[our].category@
                && #[trigger] db[j].category@ == db[our].category@ ==> db[i].question@
                != db[j].question@) ==> r.len() == (if amount < category_size(db, our) {
            amount
        } else {
            category_size(db, our)
        }),
{
    let c = cards(db);
    let count = category_size(db, our);
    lemma_category_positions(c, c[our].category, c.len() as int);
    assert(category_positions(c, c[our].category, c.len() as int).contains(our));
    let target = question_target(count, amount);
    let picks = choose|picks: Seq<int>|
        {
            &&& #[trigger] drawn_picks(c, our, target, picks)
            &&& r.len() == picks.len() + 1
            &&& forall|k: int|
                0 <= k < picks.len() ==> #[trigger] r[k + 1] == oriented(db[picks[k]]@, jeopardy_mode)
        };
    if amount >= 1 && (forall|i: int, j: int|
        0 <= i < j < db.len() && #[trigger] db[i].category@ == db[our].category@
            && #[trigger] db[j].category@ == db[our].category@ ==> db[i].question@ != db[j].question@) {
        assert forall|i: int, j: int|
            0 <= i < j < c.len() && #[trigger] c[i].category == c[our].category && #[trigger] c[j].category
                == c[our].category implies c[i].question != c[j].question by {
            assert(db[i].category@ == db[our].category@ && db[j].category@ == db[our].category@);
        }
        lemma_drawn_picks_full(c, our, target, picks);
    }
}

/// A question read with a question or an answer is kept, whatever else it
/// lacks: it comes first, before the questions read after it.
pub proof fn lemma_cell_row_kept(
    b: Seq<u8>,
    v: Seq<u8>,
    b1: Seq<u8>,
    q: Seq<u8>,
    a: Seq<u8>,
    c: Seq<u8>,
    e: Seq<u8>,
    b4: Seq<u8>,
)
    requires
        has_cell(b),
        spec_skip(b, v, true) == Some((b1, q)),
        q != eol_bytes(),
        spec_three_fields(b1) == Some((a, c, e, b4)),
        cell_question(q, a, c, e).question.len() > 0 || cell_question(q, a, c, e).answer.len() > 0,
        spec_cell_rows(b4, e) is Some,
    ensures
        spec_cell_rows(b, v) == Some(seq![cell_question(q, a, c, e)] + spec_cell_rows(b4, e)->0),
{
}

/// Every question read has a question or an answer.
pub proof fn lemma_cell_rows_filled(b: Seq<u8>, v: Seq<u8>)
    requires
        spec_cell_rows(b, v) is Some,
    ensures
        forall|k: int|
            0 <= k < spec_cell_rows(b, v)->0.len() ==> (#[trigger] spec_cell_rows(b, v)->0[k]).question.len()
                > 0 || spec_cell_rows(b, v)->0[k].answer.len() > 0,
    decreases b.len(),
{
    if has_cell(b) {
        lemma_skip_shrinks(b, v, true);
        if let Some((b1, q)) = spec_skip(b, v, true) {
            if q == eol_bytes() {
                lemma_cell_rows_filled(b1, q);
            } else if let Some((a, c, e, b4)) = spec_three_fields(b1) {
                lemma_three_fields_shrinks(b1);
                lemma_cell_rows_filled(b4, e);
                let row = cell_question(q, a, c, e);
                let t = spec_cell_rows(b4, e)->0;
                if !(row.question.len() == 0 && row.answer.len() == 0) {
                    let all = spec_cell_rows(b, v)->0;
                    assert(all == seq![row] + t);
                    assert forall|k: int| 0 <= k < all.len() implies (#[trigger] all[k]).question.len() > 0
                        || all[k].answer.len() > 0 by {
                        if k > 0 {
                            assert(all[k] == t[k - 1]);
                        }
                    }
                }
            }
        }
    }
}

} // verus!
