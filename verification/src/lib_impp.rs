//! The question database: reading a published Google Sheet (its HTML) into
//! questions, and picking questions and distractors from the database.
use crate::picking::{
    cards, category_positions, category_size, draw_picks, drawn_picks, indices,
    lemma_category_positions, lemma_drawn_picks_full, lemma_picks_distinct, lemma_selectable,
    positions_in_category, random_question_number, some_selected, taken_contains, texts, Card,
    HasCard,
};
use crate::text::{
    ascii, find_str, first_index, lemma_ascii_boundary, lemma_ascii_literal, lemma_ascii_utf8,
    lemma_boundary_range, lemma_first_index, lemma_utf8_boundary_concat, lemma_utf8_concat,
    lemma_utf8_injective, lemma_utf8_lacks_ascii, lemma_without_len, occurs_at, remove_all, str_eq,
    utf8, without,
};
use vstd::prelude::*;
use vstd::string::StringSliceAdditionalSpecFns;
use vstd::utf8::*;

pub use crate::picking::select_question_number;

verus! {

broadcast use vstd::utf8::group_utf8_lib;

/// Errors of the question database.
#[derive(Debug)]
pub enum Error {
    Input,
}

/// One row of the spreadsheet.
#[derive(Debug, Clone)]
pub struct Question {
    pub id: i32,
    pub answer: String,
    pub question: String,
    pub category: String,
    pub extra: String,
}

/// The mathematical value of a [`Question`].
pub struct QuestionView {
    pub id: i32,
    pub answer: Seq<char>,
    pub question: Seq<char>,
    pub category: Seq<char>,
    pub extra: Seq<char>,
}

impl View for Question {
    type V = QuestionView;

    open spec fn view(&self) -> QuestionView {
        QuestionView {
            id: self.id,
            answer: self.answer@,
            question: self.question@,
            category: self.category@,
            extra: self.extra@,
        }
    }
}

/// The views of a sequence of questions.
pub open spec fn views(s: Seq<Question>) -> Seq<QuestionView> {
    s.map_values(|q: Question| q@)
}

/// `>`
pub open spec fn gt_bytes() -> Seq<u8> {
    ascii(seq!['>'])
}

/// `<`
pub open spec fn lt_bytes() -> Seq<u8> {
    ascii(seq!['<'])
}

/// `</div>`
pub open spec fn div_close_bytes() -> Seq<u8> {
    ascii(seq!['<', '/', 'd', 'i', 'v', '>'])
}

/// `<title>`
pub open spec fn title_open_bytes() -> Seq<u8> {
    ascii(seq!['<', 't', 'i', 't', 'l', 'e', '>'])
}

/// `</title>`
pub open spec fn title_close_bytes() -> Seq<u8> {
    ascii(seq!['<', '/', 't', 'i', 't', 'l', 'e', '>'])
}

/// `<br>`
pub open spec fn br_bytes() -> Seq<u8> {
    ascii(seq!['<', 'b', 'r', '>'])
}

/// `</th><td`, the start of a spreadsheet row.
pub open spec fn row_start_bytes() -> Seq<u8> {
    ascii(seq!['<', '/', 't', 'h', '>', '<', 't', 'd'])
}

fn lit_gt() -> (r: &'static str)
    ensures
        r.spec_bytes() == gt_bytes(),
{
    let r = ">";
    proof {
        reveal_strlit(">");
        assert(r@ =~= seq!['>']);
        lemma_ascii_literal(r, seq!['>']);
    }
    r
}

fn lit_lt() -> (r: &'static str)
    ensures
        r.spec_bytes() == lt_bytes(),
{
    let r = "<";
    proof {
        reveal_strlit("<");
        assert(r@ =~= seq!['<']);
        lemma_ascii_literal(r, seq!['<']);
    }
    r
}

fn lit_div_close() -> (r: &'static str)
    ensures
        r.spec_bytes() == div_close_bytes(),
{
    let r = "</div>";
    proof {
        reveal_strlit("</div>");
        assert(r@ =~= seq!['<', '/', 'd', 'i', 'v', '>']);
        lemma_ascii_literal(r, seq!['<', '/', 'd', 'i', 'v', '>']);
    }
    r
}

fn lit_title_open() -> (r: &'static str)
    ensures
        r.spec_bytes() == title_open_bytes(),
{
    let r = "<title>";
    proof {
        reveal_strlit("<title>");
        assert(r@ =~= seq!['<', 't', 'i', 't', 'l', 'e', '>']);
        lemma_ascii_literal(r, seq!['<', 't', 'i', 't', 'l', 'e', '>']);
    }
    r
}

fn lit_title_close() -> (r: &'static str)
    ensures
        r.spec_bytes() == title_close_bytes(),
{
    let r = "</title>";
    proof {
        reveal_strlit("</title>");
        assert(r@ =~= seq!['<', '/', 't', 'i', 't', 'l', 'e', '>']);
        lemma_ascii_literal(r, seq!['<', '/', 't', 'i', 't', 'l', 'e', '>']);
    }
    r
}

fn lit_br() -> (r: &'static str)
    ensures
        r.spec_bytes() == br_bytes(),
{
    let r = "<br>";
    proof {
        reveal_strlit("<br>");
        assert(r@ =~= seq!['<', 'b', 'r', '>']);
        lemma_ascii_literal(r, seq!['<', 'b', 'r', '>']);
    }
    r
}

fn lit_row_start() -> (r: &'static str)
    ensures
        r.spec_bytes() == row_start_bytes(),
{
    let r = "</th><td";
    proof {
        reveal_strlit("</th><td");
        assert(r@ =~= seq!['<', '/', 't', 'h', '>', '<', 't', 'd']);
        lemma_ascii_literal(r, seq!['<', '/', 't', 'h', '>', '<', 't', 'd']);
    }
    r
}

// ---------------------------------------------------------------------------
// The page title
// ---------------------------------------------------------------------------

/// The bytes between the first `<title>` and the first `</title>` after it;
/// `None` where either is missing.
pub open spec fn spec_title(b: Seq<u8>) -> Option<Seq<u8>> {
    match first_index(b, title_open_bytes()) {
        None => None,
        Some(p) => {
            let rest = b.subrange(p + title_open_bytes().len(), b.len() as int);
            match first_index(rest, title_close_bytes()) {
                None => None,
                Some(q) => Some(rest.subrange(0, q)),
            }
        },
    }
}

/// The title of a page, or `None` where it has no `<title>` element.
pub fn try_return_title(input: &str) -> (r: Option<String>)
    ensures
        match spec_title(input.spec_bytes()) {
            None => r is None,
            Some(t) => r is Some && utf8(r->0@) == t,
        },
{
    let ghost b = input.spec_bytes();
    let n = input.as_bytes().len();
    let open = lit_title_open();
    let p = match find_str(input, open) {
        None => return None,
        Some(p) => p,
    };
    proof {
        lemma_first_index(b, title_open_bytes());
        assert(b[p + 6] == b.subrange(p as int, p + 7)[6]);
        lemma_ascii_boundary(b, p + 6);
    }
    let (_before, rest) = input.split_at(p + 7);
    let close = lit_title_close();
    let q = match find_str(rest, close) {
        None => return None,
        Some(q) => q,
    };
    proof {
        lemma_first_index(rest.spec_bytes(), title_close_bytes());
        assert(rest.spec_bytes()[q as int] == rest.spec_bytes().subrange(q as int, q + 8)[0]);
        lemma_ascii_boundary(rest.spec_bytes(), q as int);
    }
    let (title, _after) = rest.split_at(q);
    Some(title.to_owned())
}

/// Cut the title from a page (the text of its `<title>` element).
pub fn return_title(input: String) -> (r: String)
    requires
        spec_title(utf8(input@)) is Some,
    ensures
        utf8(r@) == spec_title(utf8(input@))->0,
{
    match try_return_title(input.as_str()) {
        Some(t) => t,
        None => {
            proof {
                assert(false);
            }
            String::new()
        },
    }
}


// ---------------------------------------------------------------------------
// Reading one cell
// ---------------------------------------------------------------------------

/// Whether the character at `pos` opens a tag (`<` not followed by `/`);
/// `None` where a character that the test reads is missing.
pub open spec fn opens_tag(c: Seq<char>, pos: int) -> Option<bool> {
    if !(0 <= pos < c.len()) {
        None
    } else if c[pos] == '<' {
        if pos + 1 < c.len() {
            Some(c[pos + 1] != '/')
        } else {
            None
        }
    } else {
        Some(false)
    }
}

/// The value that starts at byte `cut` of `b` and runs to the next `<`
/// (six bytes further where `second` holds), with every `</div>` removed,
/// and what follows it, less one `</div>` directly after it.
/// `None` where a cut falls inside a character or past the end, or no `<` follows.
pub open spec fn spec_cut_value(b: Seq<u8>, cut: int, second: bool) -> Option<(Seq<u8>, Seq<u8>)> {
    if !(0 <= cut <= b.len() && is_char_boundary(b, cut)) {
        None
    } else {
        let ns = b.subrange(cut, b.len() as int);
        match first_index(ns, lt_bytes()) {
            None => None,
            Some(q) => {
                let q2 = if second {
                    q + 6
                } else {
                    q
                };
                if !(0 <= q2 <= ns.len() && is_char_boundary(ns, q2)) {
                    None
                } else {
                    let value = ns.subrange(0, q2);
                    let rest = ns.subrange(q2, ns.len() as int);
                    if !(6 <= rest.len() && is_char_boundary(rest, 6)) {
                        None
                    } else if rest.subrange(0, 6) == div_close_bytes() {
                        Some((without(value, div_close_bytes()), rest.subrange(6, rest.len() as int)))
                    } else {
                        Some((without(value, div_close_bytes()), rest))
                    }
                }
            },
        }
    }
}

/// The next cell value of a sheet's HTML and the HTML after it.
/// After the first `>`, one nested container (and a second one inside it)
/// is skipped when the next character opens a tag. Character tests use the
/// byte offsets as character indices.
/// `None` where no value can be read. `lemma_next_value_plain`,
/// `lemma_next_value_container` and `lemma_next_value_merged` give what it
/// reads of the usual shapes of a cell.
#[verifier::opaque]
pub open spec fn spec_next_value(b: Seq<u8>) -> Option<(Seq<u8>, Seq<u8>)> {
    let c = decode_utf8(b);
    match first_index(b, gt_bytes()) {
        None => None,
        Some(p0) => match opens_tag(c, p0 + 1) {
            None => None,
            Some(false) => spec_cut_value(b, p0 + 1, false),
            Some(true) => {
                let start = p0 + 2;
                if !(start <= b.len() && is_char_boundary(b, start)) {
                    None
                } else {
                    let ns = b.subrange(start, b.len() as int);
                    match first_index(ns, gt_bytes()) {
                        None => None,
                        Some(q) => {
                            let pos = q + 1 + start;
                            match opens_tag(c, pos) {
                                None => None,
                                Some(false) => spec_cut_value(b, pos, false),
                                Some(true) => if !(pos <= ns.len() && is_char_boundary(ns, pos)) {
                                    None
                                } else {
                                    match first_index(
                                        ns.subrange(pos, ns.len() as int),
                                        gt_bytes(),
                                    ) {
                                        None => None,
                                        Some(r) => spec_cut_value(b, r + 7 + pos, true),
                                    }
                                },
                            }
                        },
                    }
                }
            },
        },
    }
}

fn opens_tag_at(s: &str, nchars: usize, pos: usize) -> (r: Option<bool>)
    requires
        nchars == s@.len(),
    ensures
        r == opens_tag(s@, pos as int),
{
    if pos >= nchars {
        return None;
    }
    if s.get_char(pos) == '<' {
        if pos + 1 >= nchars {
            return None;
        }
        Some(s.get_char(pos + 1) != '/')
    } else {
        Some(false)
    }
}

fn cut_value(s: &str, cut: usize, second: bool) -> (r: Option<(String, String)>)
    requires
        s.spec_bytes().len() + 8 <= usize::MAX,
    ensures
        match spec_cut_value(s.spec_bytes(), cut as int, second) {
            None => r is None,
            Some((v, rest)) => r matches Some((a, t)) && utf8(a@) == v && utf8(t@) == rest,
        },
{
    let ghost b = s.spec_bytes();
    if !s.is_char_boundary(cut) {
        return None;
    }
    proof {
        lemma_boundary_range(b, cut as int);
    }
    let (_before, ns) = s.split_at(cut);
    let ghost nb = ns.spec_bytes();
    assert(nb =~= b.subrange(cut as int, b.len() as int));
    let q = match find_str(ns, lit_lt()) {
        None => return None,
        Some(q) => q,
    };
    proof {
        lemma_first_index(nb, lt_bytes());
    }
    let q2 = if second {
        q + 6
    } else {
        q
    };
    if !ns.is_char_boundary(q2) {
        return None;
    }
    proof {
        lemma_boundary_range(nb, q2 as int);
    }
    let (value, rest) = ns.split_at(q2);
    if !rest.is_char_boundary(6) {
        return None;
    }
    proof {
        lemma_boundary_range(rest.spec_bytes(), 6);
    }
    let (head, tail) = rest.split_at(6);
    let close = lit_div_close();
    let v = remove_all(value, close);
    let is_close = str_eq(head, close);
    proof {
        if head.spec_bytes() == close.spec_bytes() {
            lemma_utf8_injective(head@, close@);
        }
    }
    if is_close {
        Some((v, tail.to_owned()))
    } else {
        Some((v, rest.to_owned()))
    }
}

/// The next cell value and the rest of the sheet, `None` where there is none.
pub fn next_value(s: &str) -> (r: Option<(String, String)>)
    requires
        s.spec_bytes().len() + 8 <= usize::MAX,
    ensures
        match spec_next_value(s.spec_bytes()) {
            None => r is None,
            Some((v, rest)) => r matches Some((a, t)) && utf8(a@) == v && utf8(t@) == rest,
        },
{
    reveal(spec_next_value);
    let ghost b = s.spec_bytes();
    let n = s.as_bytes().len();
    let nchars = s.unicode_len();
    let gt = lit_gt();
    let p0 = match find_str(s, gt) {
        None => return None,
        Some(p) => p,
    };
    proof {
        lemma_first_index(b, gt_bytes());
    }
    match opens_tag_at(s, nchars, p0 + 1) {
        None => None,
        Some(false) => cut_value(s, p0 + 1, false),
        Some(true) => {
            let start = p0 + 2;
            if !s.is_char_boundary(start) {
                return None;
            }
            proof {
                lemma_boundary_range(b, start as int);
            }
            let (_before, ns) = s.split_at(start);
            let ghost nb = ns.spec_bytes();
            assert(nb =~= b.subrange(start as int, b.len() as int));
            let q = match find_str(ns, gt) {
                None => return None,
                Some(q) => q,
            };
            proof {
                lemma_first_index(nb, gt_bytes());
            }
            let pos = q + 1 + start;
            match opens_tag_at(s, nchars, pos) {
                None => None,
                Some(false) => cut_value(s, pos, false),
                Some(true) => {
                    if !ns.is_char_boundary(pos) {
                        return None;
                    }
                    proof {
                        lemma_boundary_range(nb, pos as int);
                    }
                    let (_skipped, newer) = ns.split_at(pos);
                    let ghost wb = newer.spec_bytes();
                    assert(wb =~= nb.subrange(pos as int, nb.len() as int));
                    match find_str(newer, gt) {
                        None => None,
                        Some(r) => {
                            proof {
                                lemma_first_index(wb, gt_bytes());
                            }
                            cut_value(s, r + 7 + pos, true)
                        },
                    }
                },
            }
        },
    }
}

/// Read the next value (cell) from a sheet's HTML: the value and the rest
/// of the HTML.
pub fn extract_next_gsheet_value(string: String) -> (r: Vec<String>)
    requires
        utf8(string@).len() + 8 <= usize::MAX,
        spec_next_value(utf8(string@)) is Some,
    ensures
        r@.len() == 2,
        utf8(r@[0]@) == (spec_next_value(utf8(string@))->0).0,
        utf8(r@[1]@) == (spec_next_value(utf8(string@))->0).1,
{
    match next_value(string.as_str()) {
        Some((v, rest)) => vec![v, rest],
        None => {
            proof {
                assert(false);
            }
            Vec::new()
        },
    }
}

/// `r` is a suffix of `b`.
pub open spec fn is_suffix(r: Seq<u8>, b: Seq<u8>) -> bool {
    r.len() <= b.len() && b.subrange(b.len() - r.len(), b.len() as int) == r
}

proof fn lemma_suffix_trans(r: Seq<u8>, m: Seq<u8>, b: Seq<u8>)
    requires
        is_suffix(r, m),
        is_suffix(m, b),
    ensures
        is_suffix(r, b),
{
    assert(b.subrange(b.len() - r.len(), b.len() as int) =~= m.subrange(
        m.len() - r.len(),
        m.len() as int,
    ));
}

proof fn lemma_cut_value_suffix(b: Seq<u8>, cut: int, second: bool)
    ensures
        spec_cut_value(b, cut, second) matches Some((v, r)) ==> is_suffix(r, b),
{
    if let Some((v, r)) = spec_cut_value(b, cut, second) {
        let ns = b.subrange(cut, b.len() as int);
        let q = first_index(ns, lt_bytes())->0;
        let q2 = if second {
            q + 6
        } else {
            q
        };
        let rest = ns.subrange(q2, ns.len() as int);
        assert(is_suffix(ns, b)) by {
            assert(b.subrange(b.len() - ns.len(), b.len() as int) =~= ns);
        }
        assert(is_suffix(rest, ns)) by {
            assert(ns.subrange(ns.len() - rest.len(), ns.len() as int) =~= rest);
        }
        lemma_suffix_trans(rest, ns, b);
        if rest.subrange(0, 6) == div_close_bytes() {
            let t = rest.subrange(6, rest.len() as int);
            assert(is_suffix(t, rest)) by {
                assert(rest.subrange(rest.len() - t.len(), rest.len() as int) =~= t);
            }
            lemma_suffix_trans(t, rest, b);
        }
    }
}

/// The inside of a tag up to its `>`: ASCII, without `>`.
pub open spec fn tag_inside(x: Seq<char>) -> bool {
    is_ascii_chars(x) && !x.contains('>')
}

/// A value as a cell holds it: text without `<`.
pub open spec fn plain_value(v: Seq<char>) -> bool {
    !v.contains('<')
}

/// What follows a value: a closing tag, whose first six characters are ASCII.
pub open spec fn closing_follows(t: Seq<char>) -> bool {
    t.len() >= 6 && is_ascii_chars(t.take(6)) && t[0] == '<' && t[1] == '/'
}

/// What is left after a value: all that follows it, less a `</div>` directly
/// after it.
pub open spec fn after_value(t: Seq<char>) -> Seq<char> {
    if t.take(6) == seq!['<', '/', 'd', 'i', 'v', '>'] {
        t.skip(6)
    } else {
        t
    }
}

/// In ASCII text, the first occurrence of an ASCII character is where it
/// first stands.
proof fn lemma_first_char(h: Seq<char>, ch: char, w: Seq<char>)
    requires
        is_ascii_chars(h),
        ch <= '\u{7f}',
        !h.contains(ch),
    ensures
        first_index(utf8(h + seq![ch] + w), ascii(seq![ch])) == Some(h.len() as int),
{
    let hc = h + seq![ch];
    let b = utf8(hc + w);
    let n = ascii(seq![ch]);
    assert(is_ascii_chars(hc));
    lemma_utf8_concat(hc, w);
    lemma_ascii_utf8(hc);
    assert(b.subrange(h.len() as int, h.len() + 1 as int) =~= n);
    assert(occurs_at(b, n, h.len() as int));
    lemma_first_index(b, n);
    let i = first_index(b, n)->0;
    if i < h.len() {
        assert(b.subrange(i, i + 1)[0] == n[0]);
        assert(b[i] == hc[i] as u8);
        assert(hc[i] == h[i]);
        assert(h[i] == ch);
        assert(h.contains(ch));
    }
}

/// The value that starts after ASCII text `pre`, runs to a closing tag and
/// holds no `<` is read as it stands.
#[verifier::rlimit(40)]
proof fn lemma_cut_plain(pre: Seq<char>, v: Seq<char>, t: Seq<char>)
    requires
        is_ascii_chars(pre),
        plain_value(v),
        closing_follows(t),
    ensures
        spec_cut_value(utf8(pre + v + t), pre.len() as int, false) == Some(
            (utf8(v), utf8(after_value(t))),
        ),
{
    let s = pre + v + t;
    let b = utf8(s);
    let k = pre.len() as int;
    let head = t.take(6);
    let tail = t.skip(6);
    // the cut
    assert(s =~= pre + (v + t));
    lemma_utf8_concat(pre, v + t);
    lemma_ascii_utf8(pre);
    lemma_utf8_boundary_concat(pre, v + t);
    lemma_boundary_range(b, k);
    let ns = b.subrange(k, b.len() as int);
    assert(ns =~= utf8(v + t));
    // the first `<` after it
    lemma_utf8_concat(v, t);
    lemma_utf8_lacks_ascii(v, '<');
    lemma_utf8_concat(head, tail);
    assert(t =~= head + tail);
    lemma_ascii_utf8(head);
    let q = utf8(v).len() as int;
    assert(ns[q] == head[0] as u8);
    assert(ns.subrange(q, q + 1) =~= lt_bytes());
    assert(occurs_at(ns, lt_bytes(), q));
    lemma_first_index(ns, lt_bytes());
    let i = first_index(ns, lt_bytes())->0;
    assert(0 <= i <= q);
    if i < q {
        assert(occurs_at(ns, lt_bytes(), i));
        assert(ns.subrange(i, i + 1)[0] == lt_bytes()[0]);
        assert(ns[i] == utf8(v)[i]);
    }
    assert(first_index(ns, lt_bytes()) == Some(q));
    lemma_ascii_boundary(ns, q);
    let value = ns.subrange(0, q);
    let rest = ns.subrange(q, ns.len() as int);
    assert(value =~= utf8(v));
    assert(rest =~= utf8(t));
    assert(rest[5] == head[5] as u8);
    lemma_ascii_boundary(rest, 5);
    assert(rest.subrange(0, 6) =~= utf8(head));
    assert(rest.subrange(6, rest.len() as int) =~= utf8(tail));
    let dc = seq!['<', '/', 'd', 'i', 'v', '>'];
    lemma_ascii_utf8(dc);
    assert(div_close_bytes() =~= utf8(dc));
    if utf8(head) == utf8(dc) {
        lemma_utf8_injective(head, dc);
    }
    // no `</div>` inside the value
    assert forall|j: int| !#[trigger] occurs_at(utf8(v), div_close_bytes(), j) by {
        if occurs_at(utf8(v), div_close_bytes(), j) {
            assert(utf8(v).subrange(j, j + 6)[0] == div_close_bytes()[0]);
        }
    }
    lemma_first_index(utf8(v), div_close_bytes());
    assert(without(utf8(v), div_close_bytes()) == utf8(v));
}

/// A plain cell, `h>v</..`: its value is `v`, and what is left follows it.
#[verifier::rlimit(40)]
pub proof fn lemma_next_value_plain(h: Seq<char>, v: Seq<char>, t: Seq<char>)
    requires
        tag_inside(h),
        plain_value(v),
        closing_follows(t),
    ensures
        spec_next_value(utf8(h + seq!['>'] + v + t)) == Some((utf8(v), utf8(after_value(t)))),
{
    reveal(spec_next_value);
    let pre = h + seq!['>'];
    let s = pre + v + t;
    assert(is_ascii_chars(pre));
    assert(s =~= h + seq!['>'] + (v + t));
    lemma_first_char(h, '>', v + t);
    let p0 = h.len() as int;
    assert(decode_utf8(utf8(s)) == s);
    if v.len() > 0 {
        assert(s[p0 + 1] == v[0]);
        assert(v.contains(v[0]));
    } else {
        assert(s[p0 + 1] == t[0]);
        assert(s[p0 + 2] == t[1]);
    }
    assert(opens_tag(s, p0 + 1) == Some(false));
    lemma_cut_plain(pre, v, t);
}

/// A cell whose value sits in one container, `h><x>v</..`: its value is `v`,
/// and what is left follows it.
#[verifier::rlimit(40)]
pub proof fn lemma_next_value_container(h: Seq<char>, x: Seq<char>, v: Seq<char>, t: Seq<char>)
    requires
        tag_inside(h),
        tag_inside(x),
        x.len() > 0 ==> x[0] != '/',
        plain_value(v),
        closing_follows(t),
    ensures
        spec_next_value(utf8(h + seq!['>', '<'] + x + seq!['>'] + v + t)) == Some(
            (utf8(v), utf8(after_value(t))),
        ),
{
    reveal(spec_next_value);
    let pre = h + seq!['>', '<'] + x + seq!['>'];
    let s = pre + v + t;
    let b = utf8(s);
    assert(is_ascii_chars(pre));
    assert(s =~= h + seq!['>'] + (seq!['<'] + x + seq!['>'] + v + t));
    lemma_first_char(h, '>', seq!['<'] + x + seq!['>'] + v + t);
    let p0 = h.len() as int;
    assert(decode_utf8(b) == s);
    assert(s[p0 + 1] == '<');
    if x.len() > 0 {
        assert(s[p0 + 2] == x[0]);
    } else {
        assert(s[p0 + 2] == '>');
    }
    assert(opens_tag(s, p0 + 1) == Some(true));
    // the container's tag
    let start = p0 + 2;
    let front = h + seq!['>', '<'];
    let back = x + seq!['>'] + v + t;
    assert(s =~= front + back);
    lemma_utf8_concat(front, back);
    assert(is_ascii_chars(front));
    lemma_ascii_utf8(front);
    lemma_ascii_utf8(pre);
    lemma_utf8_concat(pre, v + t);
    assert(s =~= pre + (v + t));
    assert(b[start] == pre[start] as u8);
    lemma_ascii_boundary(b, start);
    let ns = b.subrange(start, b.len() as int);
    assert(ns =~= utf8(back));
    assert(back =~= x + seq!['>'] + (v + t));
    lemma_first_char(x, '>', v + t);
    let pos = x.len() + 1 + start;
    assert(pos == pre.len());
    if v.len() > 0 {
        assert(s[pos] == v[0]);
        assert(v.contains(v[0]));
    } else {
        assert(s[pos] == t[0]);
        assert(s[pos + 1] == t[1]);
    }
    assert(opens_tag(s, pos) == Some(false));
    lemma_cut_plain(pre, v, t);
}

/// A merged cell, `h><div x>v</div>t`: its value is `v`, and what is left is
/// `t`.
pub proof fn lemma_next_value_merged(h: Seq<char>, x: Seq<char>, v: Seq<char>, t: Seq<char>)
    requires
        tag_inside(h),
        tag_inside(x),
        plain_value(v),
    ensures
        spec_next_value(
            utf8(
                h + seq!['>', '<', 'd', 'i', 'v'] + x + seq!['>'] + v + seq!['<', '/', 'd', 'i', 'v', '>']
                    + t,
            ),
        ) == Some((utf8(v), utf8(t))),
{
    let x2 = seq!['d', 'i', 'v'] + x;
    let t2 = seq!['<', '/', 'd', 'i', 'v', '>'] + t;
    assert(t2.take(6) =~= seq!['<', '/', 'd', 'i', 'v', '>']);
    assert(t2.skip(6) =~= t);
    assert(is_ascii_chars(x2));
    assert(!x2.contains('>')) by {
        if x2.contains('>') {
            let j = choose|j: int| 0 <= j < x2.len() && x2[j] == '>';
            if j >= 3 {
                assert(x[j - 3] == '>');
                assert(x.contains('>'));
            }
        }
    }
    lemma_next_value_container(h, x2, v, t2);
    assert(h + seq!['>', '<'] + x2 + seq!['>'] + v + t2 =~= h + seq!['>', '<', 'd', 'i', 'v'] + x
        + seq!['>'] + v + seq!['<', '/', 'd', 'i', 'v', '>'] + t);
}

/// What the cell reader leaves is a suffix of the HTML it was given.
pub proof fn lemma_next_value_suffix(b: Seq<u8>)
    ensures
        spec_next_value(b) matches Some((v, r)) ==> is_suffix(r, b),
{
    reveal(spec_next_value);
    let c = decode_utf8(b);
    match first_index(b, gt_bytes()) {
        None => {},
        Some(p0) => {
            lemma_cut_value_suffix(b, p0 + 1, false);
            let start = p0 + 2;
            let ns = b.subrange(start, b.len() as int);
            match first_index(ns, gt_bytes()) {
                None => {},
                Some(q) => {
                    let pos = q + 1 + start;
                    lemma_cut_value_suffix(b, pos, false);
                    match first_index(ns.subrange(pos, ns.len() as int), gt_bytes()) {
                        None => {},
                        Some(r) => {
                            lemma_cut_value_suffix(b, r + 7 + pos, true);
                        },
                    }
                },
            }
        },
    }
}

// ---------------------------------------------------------------------------
// Reading the whole sheet
// ---------------------------------------------------------------------------

/// Four consecutive cell values (question, answer, category, extra) and the
/// HTML after them.
#[verifier::opaque]
pub open spec fn spec_four_values(b: Seq<u8>) -> Option<(Seq<u8>, Seq<u8>, Seq<u8>, Seq<u8>, Seq<u8>)> {
    match spec_next_value(b) {
        None => None,
        Some((q, r1)) => match spec_next_value(r1) {
            None => None,
            Some((a, r2)) => match spec_next_value(r2) {
                None => None,
                Some((c, r3)) => match spec_next_value(r3) {
                    None => None,
                    Some((e, r4)) => Some((q, a, c, e, r4)),
                },
            },
        },
    }
}

pub proof fn lemma_four_values_suffix(b: Seq<u8>)
    ensures
        spec_four_values(b) matches Some((q, a, c, e, r)) ==> is_suffix(r, b),
{
    reveal(spec_four_values);
    lemma_next_value_suffix(b);
    if let Some((q, r1)) = spec_next_value(b) {
        lemma_next_value_suffix(r1);
        if let Some((a, r2)) = spec_next_value(r1) {
            lemma_next_value_suffix(r2);
            lemma_suffix_trans(r2, r1, b);
            if let Some((c, r3)) = spec_next_value(r2) {
                lemma_next_value_suffix(r3);
                lemma_suffix_trans(r3, r2, b);
                if let Some((e, r4)) = spec_next_value(r3) {
                    lemma_suffix_trans(r4, r3, b);
                }
            }
        }
    }
}

/// Read four consecutive cell values.
fn four_values(s: &str) -> (r: Option<(String, String, String, String, String)>)
    requires
        s.spec_bytes().len() + 8 <= usize::MAX,
    ensures
        match spec_four_values(s.spec_bytes()) {
            None => r is None,
            Some((q, a, c, e, t)) => r matches Some((q1, a1, c1, e1, t1)) && utf8(q1@) == q
                && utf8(a1@) == a && utf8(c1@) == c && utf8(e1@) == e && utf8(t1@) == t,
        },
{
    reveal(spec_four_values);
    let ghost b = s.spec_bytes();
    proof {
        lemma_next_value_suffix(b);
    }
    let (q, r1) = match next_value(s) {
        None => return None,
        Some(x) => x,
    };
    proof {
        lemma_next_value_suffix(utf8(r1@));
    }
    let (a, r2) = match next_value(r1.as_str()) {
        None => return None,
        Some(x) => x,
    };
    proof {
        lemma_next_value_suffix(utf8(r2@));
    }
    let (c, r3) = match next_value(r2.as_str()) {
        None => return None,
        Some(x) => x,
    };
    let (e, r4) = match next_value(r3.as_str()) {
        None => return None,
        Some(x) => x,
    };
    Some((q, a, c, e, r4))
}

/// The question that a row with the given id and cell bytes stands for.
pub open spec fn row_question(id: i32, q: Seq<u8>, a: Seq<u8>, c: Seq<u8>, e: Seq<u8>) -> QuestionView {
    QuestionView {
        id,
        question: decode_utf8(q),
        answer: decode_utf8(a),
        category: decode_utf8(c),
        extra: decode_utf8(e),
    }
}

/// The questions of the rows in `b`, the next of which gets `id`.
/// The first row read (id 0) is the table header and is dropped, as are rows
/// whose question and answer are both empty; every kept row takes the next id.
/// `None` where reading fails.
pub open spec fn spec_rows(b: Seq<u8>, id: i32) -> Option<Seq<QuestionView>>
    decreases b.len(),
{
    match first_index(b, row_start_bytes()) {
        None => Some(seq![]),
        Some(p) => {
            if !(0 <= p && p + row_start_bytes().len() <= b.len()) {
                None
            } else {
                let after = b.subrange(p + row_start_bytes().len(), b.len() as int);
                match spec_four_values(after) {
                    None => None,
                    Some((q, a, c, e, rest)) => {
                        proof {
                            lemma_four_values_suffix(after);
                        }
                        let row = row_question(id, q, a, c, e);
                        if id == 0 {
                            spec_rows(rest, 1)
                        } else if row.question.len() == 0 && row.answer.len() == 0 {
                            spec_rows(rest, id)
                        } else if id == i32::MAX {
                            None
                        } else {
                            match spec_rows(rest, (id + 1) as i32) {
                                None => None,
                                Some(t) => Some(seq![row] + t),
                            }
                        }
                    },
                }
            }
        },
    }
}

/// The questions of a sheet's HTML (after removing every `<br>`).
pub open spec fn spec_raw_data(first: Seq<char>) -> Option<Seq<QuestionView>> {
    spec_rows(without(utf8(first), br_bytes()), 0)
}

/// `acc` followed by the result, where there is one.
pub open spec fn prepend(acc: Seq<QuestionView>, o: Option<Seq<QuestionView>>) -> Option<
    Seq<QuestionView>,
> {
    match o {
        None => None,
        Some(t) => Some(acc + t),
    }
}

/// The questions read from a sheet given as its HTML followed by working
/// space: `None` where there is no working space or reading fails.
pub open spec fn sheet_questions(string_array: Seq<String>) -> Option<Seq<QuestionView>> {
    if string_array.len() < 2 {
        None
    } else {
        spec_raw_data(string_array[0]@)
    }
}

/// The questions of a sheet's HTML, `None` where reading fails.
pub fn try_extract_from_raw_data(string_array: Vec<String>) -> (r: Option<Vec<Question>>)
    requires
        string_array@.len() > 0 ==> utf8(string_array@[0]@).len() + 8 <= usize::MAX,
    ensures
        match sheet_questions(string_array@) {
            None => r is None,
            Some(t) => r is Some && views(r->0@) == t,
        },
{
    if string_array.len() < 2 {
        return None;
    }
    let first = remove_all(string_array[0].as_str(), lit_br());
    proof {
        lemma_without_len(utf8(string_array@[0]@), br_bytes());
    }
    let ghost total = spec_rows(utf8(first@), 0);
    let mut cur: String = first;
    let mut this_id: i32 = 0;
    let mut out: Vec<Question> = Vec::new();
    let marker = lit_row_start();
    loop
        invariant
            utf8(cur@).len() + 8 <= usize::MAX,
            string_array@.len() >= 2,
            total == spec_raw_data(string_array@[0]@),
            marker.spec_bytes() == row_start_bytes(),
            total == prepend(views(out@), spec_rows(utf8(cur@), this_id)),
        decreases utf8(cur@).len(),
    {
        let ghost cb = utf8(cur@);
        let p = match find_str(cur.as_str(), marker) {
            None => {
                proof {
                    assert(views(out@) + seq![] =~= views(out@));
                }
                return Some(out);
            },
            Some(p) => p,
        };
        proof {
            lemma_first_index(cb, row_start_bytes());
            assert(cb[p + 7] == cb.subrange(p as int, p + 8)[7]);
            lemma_ascii_boundary(cb, p + 7);
        }
        let (_head, after) = cur.as_str().split_at(p + 8);
        let ghost ab = after.spec_bytes();
        assert(ab =~= cb.subrange(p + 8, cb.len() as int));
        let (q, a, c, e, r4) = match four_values(after) {
            None => return None,
            Some(x) => x,
        };
        proof {
            lemma_four_values_suffix(ab);
        }
        let ghost row = row_question(this_id, utf8(q@), utf8(a@), utf8(c@), utf8(e@));
        let question1 = Question { id: this_id, question: q, answer: a, category: c, extra: e };
        assert(question1@ == row);
        if this_id == 0 {
            this_id = 1;
        } else if question1.question.as_str().is_empty() && question1.answer.as_str().is_empty() {
        } else {
            if this_id == i32::MAX {
                return None;
            }
            let ghost old_out = views(out@);
            out.push(question1);
            proof {
                assert(views(out@) =~= old_out + seq![row]);
                match spec_rows(utf8(r4@), (this_id + 1) as i32) {
                    None => {},
                    Some(t) => {
                        assert(old_out + (seq![row] + t) =~= views(out@) + t);
                    },
                }
            }
            this_id = this_id + 1;
        }
        cur = r4;
    }
}

/// Extract the questions from the HTML of a published sheet (the first
/// element; the second is working space).
pub fn extract_from_raw_data(string_array: Vec<String>) -> (r: Vec<Question>)
    requires
        string_array@.len() >= 2,
        utf8(string_array@[0]@).len() + 8 <= usize::MAX,
        spec_raw_data(string_array@[0]@) is Some,
    ensures
        views(r@) == sheet_questions(string_array@)->0,
{
    match try_extract_from_raw_data(string_array) {
        Some(r) => r,
        None => {
            proof {
                assert(false);
            }
            Vec::new()
        },
    }
}

// ---------------------------------------------------------------------------
// The database
// ---------------------------------------------------------------------------

/// A question as it is asked: in jeopardy mode the answer is shown and the
/// question is to be found.
pub open spec fn oriented(q: QuestionView, jeopardy_mode: bool) -> QuestionView {
    if jeopardy_mode {
        QuestionView {
            id: q.id,
            question: q.answer,
            answer: q.question,
            category: q.category,
            extra: q.extra,
        }
    } else {
        q
    }
}

/// Copy of `q` as it is asked.
fn oriented_copy(q: &Question, jeopardy_mode: bool) -> (r: Question)
    ensures
        r@ == oriented(q@, jeopardy_mode),
{
    if jeopardy_mode {
        Question {
            id: q.id,
            question: q.answer.clone(),
            answer: q.question.clone(),
            category: q.category.clone(),
            extra: q.extra.clone(),
        }
    } else {
        Question {
            id: q.id,
            question: q.question.clone(),
            answer: q.answer.clone(),
            category: q.category.clone(),
            extra: q.extra.clone(),
        }
    }
}

/// The file that holds the database under `path`.
pub fn database_file_path(path: &str) -> (r: String)
    ensures
        r@ == path@ + "database.json"@,
{
    let mut r = path.to_owned();
    r.append("database.json");
    r
}

/// A vector with the one question numbered `our_question_num`, as it is asked.
pub fn get_question_vector(questions_db: &[Question], jeopardy_mode: bool, our_question_num: usize) -> (r: Vec<Question>)
    requires
        our_question_num < questions_db@.len(),
    ensures
        r@.len() == 1,
        r@[0]@ == oriented(questions_db@[our_question_num as int]@, jeopardy_mode),
{
    let mut this_questions_vec: Vec<Question> = Vec::new();
    this_questions_vec.push(oriented_copy(&questions_db[our_question_num], jeopardy_mode));
    this_questions_vec
}

/// Question, answer, category and extra information of the question numbered
/// `our_question_num`, as it is asked.
pub fn get_question_details(our_question_num: i32, jeopardy_mode: bool, questions_db: &[Question]) -> (r: [String; 4])
    requires
        0 <= our_question_num < questions_db@.len(),
    ensures
        ({
            let q = oriented(questions_db@[our_question_num as int]@, jeopardy_mode);
            &&& r@[0]@ == q.question
            &&& r@[1]@ == q.answer
            &&& r@[2]@ == q.category
            &&& r@[3]@ == q.extra
        }),
{
    let question_details = get_question_vector(questions_db, jeopardy_mode, our_question_num as usize);
    let q = &question_details[0];
    [q.question.clone(), q.answer.clone(), q.category.clone(), q.extra.clone()]
}

impl HasCard for Question {
    open spec fn card(&self) -> Card {
        Card { question: self.question@, category: self.category@ }
    }

    fn question_text(&self) -> (r: &str) {
        self.question.as_str()
    }

    fn category_text(&self) -> (r: &str) {
        self.category.as_str()
    }
}

/// A random question number that some draw selects (see `some_selected`);
/// where `topic` is given and some question has that category, one of that
/// category. Each such question is equally likely.
pub fn generate_random_question_number(questions_db: &[Question], topic: &str) -> (r: usize)
    requires
        questions_db@.len() > 0,
    ensures
        r < questions_db@.len(),
        some_selected(cards(questions_db@), topic@, r as int),
        topic@.len() > 0 && (exists|i: int|
            0 <= i < questions_db@.len() && #[trigger] questions_db@[i].category@ == topic@)
            ==> questions_db@[r as int].category@ == topic@,
{
    let r = random_question_number(questions_db, topic);
    proof {
        if topic@.len() > 0 && exists|i: int|
            0 <= i < questions_db@.len() && #[trigger] questions_db@[i].category@ == topic@ {
            let i = choose|i: int| 0 <= i < questions_db@.len() && #[trigger] questions_db@[i].category@ == topic@;
            assert(cards(questions_db@)[i].category == topic@);
        }
    }
    r
}

/// The topic that a category chosen by the user names: none for "All".
pub open spec fn chosen_topic(category: Seq<char>) -> Seq<char> {
    if category == "All"@ {
        seq![]
    } else {
        category
    }
}

/// A random question number of `category` (any question for "All"): one
/// that some draw selects for the topic that the category names.
pub fn generate_random_question(category: String, questions_db: &[Question]) -> (r: i32)
    requires
        0 < questions_db@.len() <= i32::MAX + 1,
    ensures
        0 <= r < questions_db@.len(),
        some_selected(cards(questions_db@), chosen_topic(category@), r as int),
        category@ != "All"@ && category@.len() > 0 && (exists|i: int|
            0 <= i < questions_db@.len() && #[trigger] questions_db@[i].category@ == category@)
            ==> questions_db@[r as int].category@ == category@,
{
    let all = "All";
    let this_category = if str_eq(category.as_str(), all) {
        ""
    } else {
        category.as_str()
    };
    proof {
        reveal_strlit("");
        assert(this_category@ == chosen_topic(category@));
    }
    let n = generate_random_question_number(questions_db, this_category);
    n as i32
}

// ---------------------------------------------------------------------------
// Distractors
// ---------------------------------------------------------------------------

/// How many distractors are drawn: `amount`, or, where the category holds no
/// more than `amount` other questions, two fewer than the category holds.
pub open spec fn distractor_target(count: int, amount: int) -> int {
    if count - 1 < amount {
        if count >= 2 {
            count - 2
        } else {
            0
        }
    } else {
        amount
    }
}

/// `r` is a possible outcome of drawing distractors for question `our`:
/// questions drawn one by one, each time among the questions of our category
/// whose text is neither ours nor drawn before, until the target is reached
/// or no such question is left (see `drawn_picks`); each shown as it is asked.
pub open spec fn distractors_of(
    db: Seq<Question>,
    our: int,
    jeopardy_mode: bool,
    amount: int,
    r: Seq<QuestionView>,
) -> bool {
    exists|picks: Seq<int>|
        {
            &&& #[trigger] drawn_picks(
                cards(db),
                our,
                distractor_target(category_size(db, our), amount),
                picks,
            )
            &&& r.len() == picks.len()
            &&& forall|k: int| 0 <= k < r.len() ==> #[trigger] r[k] == oriented(db[picks[k]]@, jeopardy_mode)
        }
}

/// Draw distractors for the question numbered `our_question_num`: other
/// questions of its category with different question texts, shown as they are
/// asked (see `distractors_of`).
pub fn generate_mc_distractors(
    questions_db: &[Question],
    our_question_num: usize,
    jeopardy_mode: bool,
    num_mc_questions: usize,
) -> (r: Vec<Question>)
    requires
        our_question_num < questions_db@.len(),
        num_mc_questions < usize::MAX,
    ensures
        distractors_of(
            questions_db@,
            our_question_num as int,
            jeopardy_mode,
            num_mc_questions as int,
            views(r@),
        ),
{
    let ghost db = cards(questions_db@);
    let ghost our = our_question_num as int;
    let cat = questions_db[our_question_num].category.as_str();
    let count_category_items = positions_in_category(questions_db, cat).len();
    proof {
        lemma_category_positions(db, cat@, db.len() as int);
        assert(db[our].category == cat@);
        assert(category_positions(db, cat@, db.len() as int).contains(our));
    }
    let mut this_num_mc = num_mc_questions + 1;
    if count_category_items - 1 < num_mc_questions {
        this_num_mc = count_category_items - 1;
    }
    let target = if this_num_mc >= 1 {
        this_num_mc - 1
    } else {
        0
    };
    let picks = draw_picks(questions_db, our_question_num, target);
    proof {
        lemma_picks_distinct(db, our, indices(picks@));
        assert forall|k: int| 0 <= k < picks@.len() implies #[trigger] picks@[k] < questions_db@.len() by {
            assert(indices(picks@)[k] == picks@[k] as int);
        }
        assert(target == distractor_target(category_size(questions_db@, our), num_mc_questions as int));
    }
    let mut new_questions_db: Vec<Question> = Vec::new();
    let mut t: usize = 0;
    while t < picks.len()
        invariant
            t <= picks@.len(),
            new_questions_db@.len() == t,
            forall|k: int| 0 <= k < picks@.len() ==> #[trigger] picks@[k] < questions_db@.len(),
            forall|k: int|
                0 <= k < t ==> #[trigger] new_questions_db@[k]@ == oriented(
                    questions_db@[picks@[k] as int]@,
                    jeopardy_mode,
                ),
        decreases picks@.len() - t,
    {
        proof {
            assert(indices(picks@)[t as int] == picks@[t as int] as int);
        }
        new_questions_db.push(oriented_copy(&questions_db[picks[t]], jeopardy_mode));
        t += 1;
    }
    proof {
        let p = indices(picks@);
        assert forall|k: int| 0 <= k < views(new_questions_db@).len() implies #[trigger] views(
            new_questions_db@,
        )[k] == oriented(questions_db@[p[k]]@, jeopardy_mode) by {
            assert(new_questions_db@[k]@ == oriented(questions_db@[picks@[k] as int]@, jeopardy_mode));
        }
        assert(drawn_picks(
            db,
            our,
            distractor_target(category_size(questions_db@, our), num_mc_questions as int),
            p,
        ));
    }
    new_questions_db
}

/// Draw `distractor_amount` distractors for question `question_num` (fewer
/// where its category has not enough questions).
pub fn get_mc_distractors(
    question_num: i32,
    distractor_amount: i32,
    jeopardy_mode: bool,
    questions_db: &[Question],
) -> (r: Vec<Question>)
    requires
        0 <= question_num < questions_db@.len(),
        0 <= distractor_amount,
    ensures
        distractors_of(
            questions_db@,
            question_num as int,
            jeopardy_mode,
            distractor_amount as int,
            views(r@),
        ),
{
    generate_mc_distractors(
        questions_db,
        question_num as usize,
        jeopardy_mode,
        distractor_amount as usize,
    )
}

// ---------------------------------------------------------------------------
// Categories
// ---------------------------------------------------------------------------

/// "All" and the categories of the questions, each once.
pub fn get_categories(questions_db: &[Question]) -> (r: Vec<String>)
    ensures
        r@.len() > 0,
        r@[0]@ == "All"@,
        forall|i: int, j: int| 0 <= i < j < r@.len() ==> r@[i]@ != r@[j]@,
        forall|i: int|
            0 <= i < questions_db@.len() ==> texts(r@).contains(#[trigger] questions_db@[i].category@),
        forall|k: int|
            0 <= k < r@.len() ==> #[trigger] r@[k]@ == "All"@ || exists|i: int|
                0 <= i < questions_db@.len() && questions_db@[i].category@ == r@[k]@,
{
    let mut categories: Vec<String> = Vec::new();
    let all = "All";
    categories.push(all.to_owned());
    let mut i: usize = 0;
    while i < questions_db.len()
        invariant
            i <= questions_db@.len(),
            categories@.len() > 0,
            categories@[0]@ == "All"@,
            forall|a: int, b: int| 0 <= a < b < categories@.len() ==> categories@[a]@ != categories@[b]@,
            forall|t: int| 0 <= t < i ==> texts(categories@).contains(#[trigger] questions_db@[t].category@),
            forall|k: int|
                0 <= k < categories@.len() ==> #[trigger] categories@[k]@ == "All"@ || exists|t: int|
                    0 <= t < questions_db@.len() && questions_db@[t].category@ == categories@[k]@,
        decreases questions_db@.len() - i,
    {
        let item = &questions_db[i];
        if !taken_contains(&categories, item.category.as_str()) {
            let ghost old = categories@;
            categories.push(item.category.clone());
            proof {
                assert forall|t: int| 0 <= t < i implies texts(categories@).contains(
                    #[trigger] questions_db@[t].category@,
                ) by {
                    let k = choose|k: int| 0 <= k < texts(old).len() && texts(old)[k] == questions_db@[t].category@;
                    assert(texts(categories@)[k] == questions_db@[t].category@);
                }
                assert forall|a: int, b: int| 0 <= a < b < categories@.len() implies categories@[a]@ != categories@[b]@ by {
                    if b == old.len() {
                        assert(texts(old)[a] == old[a]@);
                    }
                }
                assert(texts(categories@)[old.len() as int] == questions_db@[i as int].category@);
            }
        } else {
        }
        i += 1;
    }
    categories
}


// ---------------------------------------------------------------------------
// Laws
// ---------------------------------------------------------------------------

/// Every drawn distractor is a question of our category whose question text
/// differs from ours and from that of every other distractor.
pub proof fn lemma_distractors_distinct(
    db: Seq<Question>,
    our: int,
    jeopardy_mode: bool,
    amount: int,
    r: Seq<QuestionView>,
)
    requires
        0 <= our < db.len(),
        distractors_of(db, our, jeopardy_mode, amount, r),
    ensures
        forall|k: int| 0 <= k < r.len() ==> #[trigger] r[k].category == db[our].category@,
        forall|k: int|
            0 <= k < r.len() ==> oriented(#[trigger] r[k], jeopardy_mode).question != db[our].question@,
        forall|k: int, l: int|
            0 <= k < l < r.len() ==> oriented(#[trigger] r[k], jeopardy_mode).question != oriented(
                #[trigger] r[l],
                jeopardy_mode,
            ).question,
{
    let c = cards(db);
    let target = distractor_target(category_size(db, our), amount);
    let picks = choose|picks: Seq<int>|
        {
            &&& #[trigger] drawn_picks(c, our, target, picks)
            &&& r.len() == picks.len()
            &&& forall|k: int| 0 <= k < r.len() ==> #[trigger] r[k] == oriented(db[picks[k]]@, jeopardy_mode)
        };
    lemma_picks_distinct(c, our, picks);
    assert forall|k: int| 0 <= k < r.len() implies #[trigger] r[k].category == db[our].category@ by {
        assert(r[k] == oriented(db[picks[k]]@, jeopardy_mode));
        assert(c[picks[k]].category == c[our].category);
    }
    assert forall|k: int|
        0 <= k < r.len() implies oriented(#[trigger] r[k], jeopardy_mode).question != db[our].question@ by {
        assert(r[k] == oriented(db[picks[k]]@, jeopardy_mode));
        assert(c[picks[k]].question != c[our].question);
    }
    assert forall|k: int, l: int|
        0 <= k < l < r.len() implies oriented(#[trigger] r[k], jeopardy_mode).question != oriented(
        #[trigger] r[l],
        jeopardy_mode,
    ).question by {
        assert(r[k] == oriented(db[picks[k]]@, jeopardy_mode));
        assert(r[l] == oriented(db[picks[l]]@, jeopardy_mode));
        assert(c[picks[k]].question != c[picks[l]].question);
    }
}

/// What is read from a sheet depends on its HTML alone: two inputs with
/// working space and the same first string give the same questions, or both
/// fail.
pub proof fn lemma_sheet_reads_first_only(a: Seq<String>, b: Seq<String>)
    requires
        a.len() >= 2,
        b.len() >= 2,
        a[0]@ == b[0]@,
    ensures
        sheet_questions(a) == sheet_questions(b),
{
}

/// In jeopardy mode the answer is asked and the question is to be found,
/// with number, category and extra information kept; otherwise a question is
/// asked as it is.
pub proof fn lemma_oriented_fields(q: QuestionView)
    ensures
        oriented(q, true).question == q.answer,
        oriented(q, true).answer == q.question,
        oriented(q, true).id == q.id,
        oriented(q, true).category == q.category,
        oriented(q, true).extra == q.extra,
        oriented(q, false) == q,
{
}

/// For "All" every question of the database can be drawn.
pub proof fn lemma_all_reaches_every_question(db: Seq<Question>)
    ensures
        forall|i: int| 0 <= i < db.len() ==> #[trigger] some_selected(cards(db), chosen_topic("All"@), i),
{
    assert(chosen_topic("All"@) == Seq::<char>::empty());
    lemma_selectable(cards(db), Seq::<char>::empty());
}

/// Which question numbers a random question of `category` can be: for
/// "All", none or a category that no question has, any question; else exactly
/// the questions of that category.
pub proof fn lemma_random_question_reach(db: Seq<Question>, category: Seq<char>)
    ensures
        category != "All"@ && category.len() > 0 && (exists|j: int|
            0 <= j < db.len() && #[trigger] db[j].category@ == category) ==> forall|i: int| #[trigger]
            some_selected(cards(db), chosen_topic(category), i) <==> (0 <= i < db.len()
                && db[i].category@ == category),
        !(category != "All"@ && category.len() > 0 && (exists|j: int|
            0 <= j < db.len() && #[trigger] db[j].category@ == category)) ==> forall|i: int| #[trigger]
            some_selected(cards(db), chosen_topic(category), i) <==> 0 <= i < db.len(),
{
    let c = cards(db);
    let topic = chosen_topic(category);
    lemma_selectable(c, topic);
    if category != "All"@ && category.len() > 0 && (exists|j: int|
        0 <= j < db.len() && #[trigger] db[j].category@ == category) {
        let j = choose|j: int| 0 <= j < db.len() && #[trigger] db[j].category@ == category;
        assert(c[j].category == topic);
        assert forall|i: int| #[trigger]
            some_selected(c, topic, i) <==> (0 <= i < db.len() && db[i].category@ == category) by {
            if 0 <= i < db.len() {
                assert(c[i].category == db[i].category@);
            }
        }
    } else if category != "All"@ && category.len() > 0 {
        assert(!(exists|j: int| 0 <= j < c.len() && #[trigger] c[j].category == topic)) by {
            if exists|j: int| 0 <= j < c.len() && #[trigger] c[j].category == topic {
                let j = choose|j: int| 0 <= j < c.len() && #[trigger] c[j].category == topic;
                assert(db[j].category@ == category);
            }
        }
    }
}

/// A set of distractors holds at most `amount` questions and fewer than our
/// category holds; where the question texts of our category differ, it holds
/// exactly `amount` of them, or, where the category has no more than `amount`
/// others, two fewer than the category holds.
pub proof fn lemma_distractors_count(
    db: Seq<Question>,
    our: int,
    jeopardy_mode: bool,
    amount: int,
    r: Seq<QuestionView>,
)
    requires
        0 <= our < db.len(),
        0 <= amount,
        distractors_of(db, our, jeopardy_mode, amount, r),
    ensures
        r.len() <= amount,
        r.len() < category_size(db, our),
        (forall|i: int, j: int|
            0 <= i < j < db.len() && #[trigger] db[i].category@ == db[our].category@
                && #[trigger] db[j].category@ == db[our].category@ ==> db[i].question@
                != db[j].question@) ==> r.len() == (if amount <= category_size(db, our) - 1 {
            amount
        } else if category_size(db, our) >= 2 {
            category_size(db, our) - 2
        } else {
            0
        }),
{
    let c = cards(db);
    let count = category_size(db, our);
    lemma_category_positions(c, c[our].category, c.len() as int);
    assert(category_positions(c, c[our].category, c.len() as int).contains(our));
    let target = distractor_target(count, amount);
    let picks = choose|picks: Seq<int>|
        {
            &&& #[trigger] drawn_picks(c, our, target, picks)
            &&& r.len() == picks.len()
            &&& forall|k: int| 0 <= k < r.len() ==> #[trigger] r[k] == oriented(db[picks[k]]@, jeopardy_mode)
        };
    if forall|i: int, j: int|
        0 <= i < j < db.len() && #[trigger] db[i].category@ == db[our].category@
            && #[trigger] db[j].category@ == db[our].category@ ==> db[i].question@ != db[j].question@ {
        assert forall|i: int, j: int|
            0 <= i < j < c.len() && #[trigger] c[i].category == c[our].category && #[trigger] c[j].category
                == c[our].category implies c[i].question != c[j].question by {
            assert(db[i].category@ == db[our].category@ && db[j].category@ == db[our].category@);
        }
        lemma_drawn_picks_full(c, our, target, picks);
    }
}

/// A data row with a question or an answer is kept, whatever else it lacks:
/// it comes first, with the number that is next, before the rows after it.
/// A row with neither is passed over.
pub proof fn lemma_row_kept(
    b: Seq<u8>,
    id: i32,
    p: int,
    q: Seq<u8>,
    a: Seq<u8>,
    c: Seq<u8>,
    e: Seq<u8>,
    rest: Seq<u8>,
)
    requires
        0 < id < i32::MAX,
        first_index(b, row_start_bytes()) == Some(p),
        spec_four_values(b.subrange(p + row_start_bytes().len(), b.len() as int)) == Some(
            (q, a, c, e, rest),
        ),
    ensures
        row_question(id, q, a, c, e).question.len() > 0 || row_question(id, q, a, c, e).answer.len() > 0
            ==> spec_rows(b, id) == match spec_rows(rest, (id + 1) as i32) {
            None => None,
            Some(t) => Some(seq![row_question(id, q, a, c, e)] + t),
        },
        row_question(id, q, a, c, e).question.len() == 0 && row_question(id, q, a, c, e).answer.len()
            == 0 ==> spec_rows(b, id) == spec_rows(rest, id),
{
    lemma_first_index(b, row_start_bytes());
}

/// Asking a question the other way round twice gives it back.
pub proof fn lemma_oriented_twice(q: QuestionView, jeopardy_mode: bool)
    ensures
        oriented(oriented(q, jeopardy_mode), jeopardy_mode) == q,
{
}

/// The rows read from a sheet are numbered one after the other, starting
/// after the header with 1, and each has a question or an answer.
pub proof fn lemma_rows_numbered(b: Seq<u8>, id: i32)
    requires
        0 <= id,
        spec_rows(b, id) is Some,
    ensures
        forall|k: int|
            0 <= k < spec_rows(b, id)->0.len() ==> #[trigger] spec_rows(b, id)->0[k].id == (if id
                == 0 {
                1
            } else {
                id as int
            }) + k,
        forall|k: int|
            0 <= k < spec_rows(b, id)->0.len() ==> (#[trigger] spec_rows(b, id)->0[k]).question.len()
                > 0 || spec_rows(b, id)->0[k].answer.len() > 0,
    decreases b.len(),
{
    match first_index(b, row_start_bytes()) {
        None => {},
        Some(p) => {
            if 0 <= p && p + row_start_bytes().len() <= b.len() {
                let after = b.subrange(p + row_start_bytes().len(), b.len() as int);
                match spec_four_values(after) {
                    None => {},
                    Some((q, a, c, e, rest)) => {
                        lemma_four_values_suffix(after);
                        let row = row_question(id, q, a, c, e);
                        if id == 0 {
                            lemma_rows_numbered(rest, 1);
                            assert(spec_rows(b, id) == spec_rows(rest, 1));
                        } else if row.question.len() == 0 && row.answer.len() == 0 {
                            lemma_rows_numbered(rest, id);
                            assert(spec_rows(b, id) == spec_rows(rest, id));
                        } else if id != i32::MAX {
                            lemma_rows_numbered(rest, (id + 1) as i32);
                            let t = spec_rows(rest, (id + 1) as i32)->0;
                            let all = spec_rows(b, id)->0;
                            assert(all == seq![row] + t);
                            assert forall|k: int| 0 <= k < all.len() implies #[trigger] all[k].id
                                == id + k by {
                                if k > 0 {
                                    assert(all[k] == t[k - 1]);
                                    assert(t[k - 1].id == (id + 1) + (k - 1));
                                }
                            }
                            assert forall|k: int| 0 <= k < all.len() implies (#[trigger] all[k]).question.len() > 0
                                || all[k].answer.len() > 0 by {
                                if k > 0 {
                                    assert(all[k] == t[k - 1]);
                                }
                            }
                        }
                    },
                }
            }
        },
    }
}

/// The questions of a sheet are numbered 1, 2, 3, ... and each has a question
/// or an answer.
pub proof fn lemma_raw_data_numbered(first: Seq<char>)
    requires
        spec_raw_data(first) is Some,
    ensures
        forall|k: int|
            0 <= k < spec_raw_data(first)->0.len() ==> #[trigger] spec_raw_data(first)->0[k].id == k
                + 1,
        forall|k: int|
            0 <= k < spec_raw_data(first)->0.len() ==> (#[trigger] spec_raw_data(first)->0[k]).question.len()
                > 0 || spec_raw_data(first)->0[k].answer.len() > 0,
{
    lemma_rows_numbered(without(utf8(first), br_bytes()), 0);
}

/// A title never holds `</title>`.
pub proof fn lemma_title_unclosed(b: Seq<u8>)
    requires
        spec_title(b) is Some,
    ensures
        forall|j: int| !occurs_at(spec_title(b)->0, title_close_bytes(), j),
{
    let p = first_index(b, title_open_bytes())->0;
    let rest = b.subrange(p + title_open_bytes().len(), b.len() as int);
    lemma_first_index(b, title_open_bytes());
    lemma_first_index(rest, title_close_bytes());
    let q = first_index(rest, title_close_bytes())->0;
    let t = rest.subrange(0, q);
    assert forall|j: int| !occurs_at(t, title_close_bytes(), j) by {
        if occurs_at(t, title_close_bytes(), j) {
            assert(rest.subrange(j, j + title_close_bytes().len()) =~= t.subrange(
                j,
                j + title_close_bytes().len(),
            ));
            assert(occurs_at(rest, title_close_bytes(), j));
        }
    }
}

} // verus!
