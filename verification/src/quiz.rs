//! The decisions of an interactive quiz session: what a menu entry asks for,
//! the topic given with `-t "..."`, the list of answers to choose from, and
//! whether a chosen letter is right.
use crate::lib_impp::Question;
use crate::pattern::regex_group;
use crate::random::random_in;
use crate::text::{
    ascii, find_str, first_index, lemma_ascii_boundary,
    occurs_at, utf8,
};
use vstd::prelude::*;
use vstd::string::StringSliceAdditionalSpecFns;
use vstd::utf8::*;

verus! {

broadcast use vstd::utf8::group_utf8_lib;

/// The topic option: `-t "` followed by the shortest text up to the next `"`.
pub const TOPIC_PATTERN: &'static str = "-t \"(.*?)\"";

/// `-t "`
pub open spec fn topic_open_bytes() -> Seq<u8> {
    ascii(seq!['-', 't', ' ', '"'])
}

/// The first byte at or after `k` that is a quote or a line break.
pub open spec fn quote_or_newline_from(b: Seq<u8>, k: int) -> Option<int>
    decreases b.len() + 1 - k,
{
    if k < 0 || k >= b.len() {
        None
    } else if b[k] == 0x22 || b[k] == 0x0a {
        Some(k)
    } else {
        quote_or_newline_from(b, k + 1)
    }
}

/// Where the topic option starting at byte `p` closes: `-t "` at `p`, then
/// text without a line break up to a quote.
pub open spec fn topic_close_at(b: Seq<u8>, p: int) -> Option<int> {
    if occurs_at(b, topic_open_bytes(), p) {
        match quote_or_newline_from(b, p + 4) {
            Some(j) => if b[j] == 0x22 {
                Some(j)
            } else {
                None
            },
            None => None,
        }
    } else {
        None
    }
}

/// The byte range of the text of the first topic option at or after `k`.
pub open spec fn topic_from(b: Seq<u8>, k: int) -> Option<(int, int)>
    decreases b.len() + 1 - k,
{
    if k < 0 || k > b.len() {
        None
    } else {
        match topic_close_at(b, k) {
            Some(j) => Some((k + 4, j)),
            None => topic_from(b, k + 1),
        }
    }
}

/// The byte range of the topic text in `b`, where there is a topic option.
pub open spec fn topic_span(b: Seq<u8>) -> Option<(int, int)> {
    topic_from(b, 0)
}

proof fn lemma_quote_or_newline_from(b: Seq<u8>, k: int)
    requires
        0 <= k,
    ensures
        quote_or_newline_from(b, k) matches Some(j) ==> k <= j < b.len() && (b[j] == 0x22 || b[j]
            == 0x0a),
    decreases b.len() + 1 - k,
{
    if k < b.len() && !(b[k] == 0x22 || b[k] == 0x0a) {
        lemma_quote_or_newline_from(b, k + 1);
    }
}

proof fn lemma_topic_from(b: Seq<u8>, k: int)
    requires
        0 <= k,
    ensures
        topic_from(b, k) matches Some((s, e)) ==> 4 <= s <= e < b.len() && b[s - 1] == 0x22
            && b[e] == 0x22,
    decreases b.len() + 1 - k,
{
    if k <= b.len() {
        match topic_close_at(b, k) {
            Some(j) => {
                lemma_quote_or_newline_from(b, k + 4);
                assert(b[k + 3] == b.subrange(k, k + 4)[3]);
            },
            None => {
                lemma_topic_from(b, k + 1);
            },
        }
    }
}

/// The topic given with `-t "..."`, or nothing.
pub fn extract_topic(input_string: &str) -> (r: &str)
    ensures
        match topic_span(input_string.spec_bytes()) {
            None => r@.len() == 0,
            Some((s, e)) => r.spec_bytes() == input_string.spec_bytes().subrange(s, e),
        },
{
    let ghost b = input_string.spec_bytes();
    match regex_group(TOPIC_PATTERN, input_string, 1) {
        None => {
            let empty = "";
            proof {
                reveal_strlit("");
            }
            empty
        },
        Some((s, e)) => {
            proof {
                lemma_topic_from(b, 0);
                lemma_ascii_boundary(b, s - 1);
                lemma_ascii_boundary(b, e as int);
            }
            let (upto, _after) = input_string.split_at(e);
            proof {
                assert(upto.spec_bytes()[s - 1] == b[s - 1]);
                lemma_ascii_boundary(upto.spec_bytes(), s - 1);
            }
            let (_before, topic) = upto.split_at(s);
            proof {
                assert(topic.spec_bytes() =~= b.subrange(s as int, e as int));
            }
            topic
        },
    }
}

// ---------------------------------------------------------------------------
// Menu
// ---------------------------------------------------------------------------

/// What a menu entry asks for.
#[derive(Debug, PartialEq, Eq)]
pub enum Command {
    Quit,
    EditAddress,
    Quiz,
    Menu,
}

/// `s` holds `n`.
pub open spec fn holds(s: &str, n: Seq<char>) -> bool {
    first_index(s.spec_bytes(), utf8(n)) is Some
}

/// The command of a menu entry: an entry holding `quit` quits, else one holding
/// `ed` edits the address of the sheet, else one holding `mc` starts a quiz.
pub open spec fn spec_command(s: &str) -> Command {
    if holds(s, seq!['q', 'u', 'i', 't']) {
        Command::Quit
    } else if holds(s, seq!['e', 'd']) {
        Command::EditAddress
    } else if holds(s, seq!['m', 'c']) {
        Command::Quiz
    } else {
        Command::Menu
    }
}

fn contains_literal(s: &str, lit: &str) -> (r: bool)
    ensures
        r == holds(s, lit@),
{
    find_str(s, lit).is_some()
}

/// The command of a menu entry.
pub fn parse_command(input: &str) -> (r: Command)
    ensures
        r == spec_command(input),
{
    let quit = "quit";
    let ed = "ed";
    let mc = "mc";
    proof {
        reveal_strlit("quit");
        reveal_strlit("ed");
        reveal_strlit("mc");
        assert(quit@ =~= seq!['q', 'u', 'i', 't']);
        assert(ed@ =~= seq!['e', 'd']);
        assert(mc@ =~= seq!['m', 'c']);
    }
    if contains_literal(input, quit) {
        Command::Quit
    } else if contains_literal(input, ed) {
        Command::EditAddress
    } else if contains_literal(input, mc) {
        Command::Quiz
    } else {
        Command::Menu
    }
}

/// Whether a quiz entry asks for jeopardy mode (`-j`).
pub fn asks_jeopardy(input: &str) -> (r: bool)
    ensures
        r == holds(input, seq!['-', 'j']),
{
    let flag = "-j";
    proof {
        reveal_strlit("-j");
        assert(flag@ =~= seq!['-', 'j']);
    }
    contains_literal(input, flag)
}

/// Whether a quiz entry asks for automatic multiple choice (`-a`).
pub fn asks_automatic(input: &str) -> (r: bool)
    ensures
        r == holds(input, seq!['-', 'a']),
{
    let flag = "-a";
    proof {
        reveal_strlit("-a");
        assert(flag@ =~= seq!['-', 'a']);
    }
    contains_literal(input, flag)
}

/// Whether answers are offered to choose from: always in automatic mode,
/// else where the reply holds `m` and there are distractors.
pub fn offers_choices(automatic: bool, reply: &str, num_distractors: usize) -> (r: bool)
    ensures
        r == (automatic || (holds(reply, seq!['m']) && num_distractors != 0)),
{
    let m = "m";
    proof {
        reveal_strlit("m");
        assert(m@ =~= seq!['m']);
    }
    automatic || (contains_literal(reply, m) && num_distractors != 0)
}

/// Whether a reply (in upper case) ends the quiz: it holds `EXIT`.
pub fn leaves_quiz(reply_upper: &str) -> (r: bool)
    ensures
        r == holds(reply_upper, seq!['E', 'X', 'I', 'T']),
{
    let exit = "EXIT";
    proof {
        reveal_strlit("EXIT");
        assert(exit@ =~= seq!['E', 'X', 'I', 'T']);
    }
    contains_literal(reply_upper, exit)
}

// ---------------------------------------------------------------------------
// Choosing an answer
// ---------------------------------------------------------------------------

/// A random place for the correct answer among it and `num_distractors` others.
pub fn answer_position(num_distractors: usize) -> (r: usize)
    requires
        num_distractors < usize::MAX,
    ensures
        r <= num_distractors,
{
    random_in(0, num_distractors + 1)
}

/// The answers offered: those of the distractors in order, with the correct
/// one put in at `position`.
pub fn choice_answers(correct: &String, distractors: &[Question], position: usize) -> (r: Vec<
    String,
>)
    requires
        position <= distractors@.len(),
    ensures
        r@.len() == distractors@.len() + 1,
        r@[position as int]@ == correct@,
        forall|i: int| 0 <= i < position ==> #[trigger] r@[i]@ == distractors@[i].answer@,
        forall|i: int|
            position < i < r@.len() ==> #[trigger] r@[i]@ == distractors@[i - 1].answer@,
{
    let mut r: Vec<String> = Vec::new();
    let mut j: usize = 0;
    while j < distractors.len()
        invariant
            position <= distractors@.len(),
            j <= distractors@.len(),
            r@.len() == (if j > position {
                j + 1
            } else {
                j as int
            }),
            j > position ==> r@[position as int]@ == correct@,
            forall|k: int| 0 <= k < j && k < position ==> #[trigger] r@[k]@ == distractors@[k].answer@,
            forall|k: int| position < k <= j && j > position ==> #[trigger] r@[k]@ == distractors@[k
                - 1].answer@,
        decreases distractors@.len() - j,
    {
        if j == position {
            r.push(correct.clone());
        }
        r.push(distractors[j].answer.clone());
        j += 1;
    }
    if position == distractors.len() {
        r.push(correct.clone());
    }
    r
}

/// The letter that names the `i`-th answer.
pub open spec fn letter(i: int) -> char {
    ('A' as int + i) as char
}

/// The answer that a reply (in upper case) names: one of the letters `A` to `J`.
pub open spec fn named_answer(reply: Seq<char>) -> Option<int> {
    if reply.len() == 1 && 'A' <= reply[0] <= 'J' {
        Some(reply[0] as int - 'A' as int)
    } else {
        None
    }
}

/// Whether the chosen answer is the correct one; `None` where the reply names
/// no answer on offer.
pub fn judge_choice(reply_upper: &str, num_offered: usize, correct: usize) -> (r: Option<bool>)
    ensures
        match named_answer(reply_upper@) {
            Some(i) => if i < num_offered {
                r == Some(i == correct)
            } else {
                r is None
            },
            None => r is None,
        },
{
    if reply_upper.unicode_len() != 1 {
        return None;
    }
    let c = reply_upper.get_char(0);
    if c < 'A' || c > 'J' {
        return None;
    }
    let index = (c as u32 - 'A' as u32) as usize;
    if index < num_offered {
        Some(index == correct)
    } else {
        None
    }
}

/// Naming the correct answer's letter is judged right.
pub proof fn lemma_correct_letter_is_right(i: int)
    requires
        0 <= i < 10,
    ensures
        named_answer(seq![letter(i)]) == Some(i),
{
}

} // verus!
