//! Picking questions out of a database by category: the positions of a
//! category, a random question of it, and questions drawn one by one among
//! those of a category whose text was not drawn before. Both question formats
//! of the library share these rules through [`HasCard`].
use crate::random::random_in;
use crate::text::str_eq;
use vstd::prelude::*;

verus! {

/// What the picking rules read of a question: its text and its category.
pub struct Card {
    pub question: Seq<char>,
    pub category: Seq<char>,
}

/// A question whose text and category can be read.
pub trait HasCard {
    /// Its text and its category.
    spec fn card(&self) -> Card;

    /// Its text.
    fn question_text(&self) -> (r: &str)
        ensures
            r@ == self.card().question,
    ;

    /// Its category.
    fn category_text(&self) -> (r: &str)
        ensures
            r@ == self.card().category,
    ;
}

/// The cards of a sequence of questions.
pub open spec fn cards<T: HasCard>(s: Seq<T>) -> Seq<Card> {
    s.map_values(|q: T| q.card())
}

/// The characters of each string.
pub open spec fn texts(s: Seq<String>) -> Seq<Seq<char>> {
    s.map_values(|x: String| x@)
}

/// The positions as integers.
pub open spec fn indices(s: Seq<usize>) -> Seq<int> {
    s.map_values(|j: usize| j as int)
}

// ---------------------------------------------------------------------------
// A category
// ---------------------------------------------------------------------------

/// The positions below `n` whose category is `topic`, in order.
pub open spec fn category_positions(db: Seq<Card>, topic: Seq<char>, n: int) -> Seq<int>
    decreases n,
{
    if n <= 0 {
        seq![]
    } else if db[n - 1].category == topic {
        category_positions(db, topic, n - 1).push(n - 1)
    } else {
        category_positions(db, topic, n - 1)
    }
}

/// The positions of a category are the positions below `n` of that category.
pub proof fn lemma_category_positions(db: Seq<Card>, topic: Seq<char>, n: int)
    requires
        0 <= n <= db.len(),
    ensures
        forall|k: int|
            0 <= k < category_positions(db, topic, n).len() ==> 0 <= #[trigger] category_positions(
                db,
                topic,
                n,
            )[k] < n && db[category_positions(db, topic, n)[k]].category == topic,
        forall|i: int|
            0 <= i < n && db[i].category == topic ==> category_positions(db, topic, n).contains(i),
    decreases n,
{
    if n > 0 {
        lemma_category_positions(db, topic, n - 1);
        let prev = category_positions(db, topic, n - 1);
        let cur = category_positions(db, topic, n);
        if db[n - 1].category == topic {
            assert(cur == prev.push(n - 1));
        } else {
            assert(cur == prev);
        }
        assert forall|i: int| 0 <= i < n && db[i].category == topic implies #[trigger] cur.contains(
            i,
        ) by {
            if i < n - 1 {
                assert(prev.contains(i));
                let k = choose|k: int| 0 <= k < prev.len() && prev[k] == i;
                assert(cur[k] == i);
            } else {
                assert(cur[prev.len() as int] == i);
            }
        }
    }
}

/// The positions of the questions whose category is `topic`.
pub fn positions_in_category<T: HasCard>(questions_db: &[T], topic: &str) -> (r: Vec<usize>)
    ensures
        indices(r@) == category_positions(cards(questions_db@), topic@, questions_db@.len() as int),
{
    let ghost db = cards(questions_db@);
    let mut r: Vec<usize> = Vec::new();
    let mut i: usize = 0;
    while i < questions_db.len()
        invariant
            i <= questions_db@.len(),
            db == cards(questions_db@),
            indices(r@) == category_positions(db, topic@, i as int),
        decreases questions_db@.len() - i,
    {
        let ghost before = indices(r@);
        if str_eq(questions_db[i].category_text(), topic) {
            r.push(i);
            proof {
                assert(indices(r@) =~= before.push(i as int));
            }
        }
        i += 1;
    }
    r
}

/// The question number that `draw` selects: the `draw`-th question of the
/// category `topic` where the topic is given and has questions, else `draw` itself.
pub open spec fn selected_question(db: Seq<Card>, topic: Seq<char>, draw: int) -> int {
    let positions = category_positions(db, topic, db.len() as int);
    if topic.len() > 0 && positions.len() > 0 {
        positions[draw]
    } else {
        draw
    }
}

/// How many values a draw for `selected_question` ranges over.
pub open spec fn draw_range(db: Seq<Card>, topic: Seq<char>) -> int {
    let positions = category_positions(db, topic, db.len() as int);
    if topic.len() > 0 && positions.len() > 0 {
        positions.len() as int
    } else {
        db.len() as int
    }
}

/// `r` is a question number that some draw below `draw_range` selects.
pub open spec fn some_selected(db: Seq<Card>, topic: Seq<char>, r: int) -> bool {
    exists|draw: int| 0 <= draw < draw_range(db, topic) && r == #[trigger] selected_question(db, topic, draw)
}

/// The question number that a random `draw` below `draw_range` selects.
pub fn select_question_number<T: HasCard>(questions_db: &[T], topic: &str, draw: usize) -> (r: usize)
    requires
        draw < draw_range(cards(questions_db@), topic@),
    ensures
        r as int == selected_question(cards(questions_db@), topic@, draw as int),
{
    let positions = positions_in_category(questions_db, topic);
    proof {
        if topic@.len() > 0 && positions@.len() > 0 {
            assert(indices(positions@)[draw as int] == positions@[draw as int] as int);
        }
    }
    if !topic.is_empty() && positions.len() > 0 {
        positions[draw]
    } else {
        draw
    }
}

/// A random question number that some draw selects; where `topic` is given and
/// some question has that category, one of that category.
pub fn random_question_number<T: HasCard>(questions_db: &[T], topic: &str) -> (r: usize)
    requires
        questions_db@.len() > 0,
    ensures
        r < questions_db@.len(),
        some_selected(cards(questions_db@), topic@, r as int),
        topic@.len() > 0 && (exists|i: int|
            0 <= i < questions_db@.len() && #[trigger] cards(questions_db@)[i].category == topic@)
            ==> cards(questions_db@)[r as int].category == topic@,
{
    let ghost db = cards(questions_db@);
    let positions = positions_in_category(questions_db, topic);
    proof {
        lemma_category_positions(db, topic@, db.len() as int);
        if exists|i: int| 0 <= i < db.len() && #[trigger] db[i].category == topic@ {
            let i = choose|i: int| 0 <= i < db.len() && #[trigger] db[i].category == topic@;
            assert(category_positions(db, topic@, db.len() as int).contains(i));
        }
    }
    let range = if !topic.is_empty() && positions.len() > 0 {
        positions.len()
    } else {
        questions_db.len()
    };
    let draw = random_in(0, range);
    let r = select_question_number(questions_db, topic, draw);
    proof {
        assert(0 <= draw as int && (draw as int) < draw_range(db, topic@) && r as int == selected_question(
            db,
            topic@,
            draw as int,
        ));
    }
    r
}

// ---------------------------------------------------------------------------
// Drawing distinct questions of a category
// ---------------------------------------------------------------------------

/// The positions below `n` of category `cat` whose question is not in `taken`.
pub open spec fn candidates(db: Seq<Card>, cat: Seq<char>, taken: Seq<Seq<char>>, n: int) -> Seq<int>
    decreases n,
{
    if n <= 0 {
        seq![]
    } else if db[n - 1].category == cat && !taken.contains(db[n - 1].question) {
        candidates(db, cat, taken, n - 1).push(n - 1)
    } else {
        candidates(db, cat, taken, n - 1)
    }
}

/// Every candidate is a question of the category whose question is not taken.
pub proof fn lemma_candidates(db: Seq<Card>, cat: Seq<char>, taken: Seq<Seq<char>>, n: int)
    requires
        0 <= n <= db.len(),
    ensures
        forall|k: int|
            0 <= k < candidates(db, cat, taken, n).len() ==> {
                let j = #[trigger] candidates(db, cat, taken, n)[k];
                &&& 0 <= j < n
                &&& db[j].category == cat
                &&& !taken.contains(db[j].question)
            },
    decreases n,
{
    if n > 0 {
        lemma_candidates(db, cat, taken, n - 1);
        let prev = candidates(db, cat, taken, n - 1);
        if db[n - 1].category == cat && !taken.contains(db[n - 1].question) {
            assert(candidates(db, cat, taken, n) == prev.push(n - 1));
        } else {
            assert(candidates(db, cat, taken, n) == prev);
        }
    }
}

/// The questions taken before pick `k`: ours, then the first `k` picks.
pub open spec fn taken_before(db: Seq<Card>, our: int, picks: Seq<int>, k: int) -> Seq<Seq<char>> {
    seq![db[our].question] + Seq::new(k as nat, |t: int| db[picks[t]].question)
}

/// Each pick was a candidate when it was made.
pub open spec fn valid_picks(db: Seq<Card>, our: int, picks: Seq<int>) -> bool {
    forall|k: int|
        0 <= k < picks.len() ==> candidates(
            db,
            db[our].category,
            taken_before(db, our, picks, k),
            db.len() as int,
        ).contains(#[trigger] picks[k])
}

/// How many questions the category of question `our` holds.
pub open spec fn category_size<T: HasCard>(db: Seq<T>, our: int) -> int {
    category_positions(cards(db), cards(db)[our].category, db.len() as int).len() as int
}

/// `picks` is a possible outcome of drawing `target` questions for question
/// `our`, each among the candidates left, stopping early only where no
/// candidate is left.
pub open spec fn drawn_picks(db: Seq<Card>, our: int, target: int, picks: Seq<int>) -> bool {
    &&& valid_picks(db, our, picks)
    &&& picks.len() <= target
    &&& (picks.len() < target ==> candidates(
        db,
        db[our].category,
        taken_before(db, our, picks, picks.len() as int),
        db.len() as int,
    ).len() == 0)
}

/// Every pick is another question of our category, and no two picks, nor a
/// pick and ours, share a question text.
pub proof fn lemma_picks_distinct(db: Seq<Card>, our: int, picks: Seq<int>)
    requires
        0 <= our < db.len(),
        valid_picks(db, our, picks),
    ensures
        forall|k: int|
            0 <= k < picks.len() ==> {
                let j = #[trigger] picks[k];
                &&& 0 <= j < db.len()
                &&& db[j].category == db[our].category
                &&& db[j].question != db[our].question
            },
        forall|k: int, l: int|
            0 <= k < l < picks.len() ==> db[#[trigger] picks[k]].question != db[#[trigger] picks[l]].question,
{
    assert forall|k: int| 0 <= k < picks.len() implies {
        let j = #[trigger] picks[k];
        &&& 0 <= j < db.len()
        &&& db[j].category == db[our].category
        &&& !taken_before(db, our, picks, k).contains(db[j].question)
    } by {
        let taken = taken_before(db, our, picks, k);
        let c = candidates(db, db[our].category, taken, db.len() as int);
        lemma_candidates(db, db[our].category, taken, db.len() as int);
        assert(c.contains(picks[k]));
        let t = choose|t: int| 0 <= t < c.len() && c[t] == picks[k];
        assert(c[t] == picks[k]);
    }
    assert forall|k: int| 0 <= k < picks.len() implies db[#[trigger] picks[k]].question
        != db[our].question by {
        assert(taken_before(db, our, picks, k)[0] == db[our].question);
    }
    assert forall|k: int, l: int|
        0 <= k < l < picks.len() implies db[#[trigger] picks[k]].question != db[#[trigger] picks[l]].question by {
        assert(taken_before(db, our, picks, l)[k + 1] == db[picks[k]].question);
    }
}

/// Whether `q` is among `taken`.
pub fn taken_contains(taken: &Vec<String>, q: &str) -> (r: bool)
    ensures
        r == texts(taken@).contains(q@),
{
    let mut i: usize = 0;
    while i < taken.len()
        invariant
            i <= taken@.len(),
            forall|k: int| 0 <= k < i ==> taken@[k]@ != q@,
        decreases taken@.len() - i,
    {
        if str_eq(taken[i].as_str(), q) {
            proof {
                assert(texts(taken@)[i as int] == q@);
            }
            return true;
        }
        i += 1;
    }
    proof {
        if texts(taken@).contains(q@) {
            let k = choose|k: int| 0 <= k < texts(taken@).len() && texts(taken@)[k] == q@;
            assert(taken@[k]@ == q@);
        }
    }
    false
}

/// The positions of the questions of category `cat` whose question is not taken.
fn candidates_now<T: HasCard>(questions_db: &[T], cat: &str, taken: &Vec<String>) -> (r: Vec<usize>)
    ensures
        indices(r@) == candidates(cards(questions_db@), cat@, texts(taken@), questions_db@.len() as int),
{
    let ghost db = cards(questions_db@);
    let mut r: Vec<usize> = Vec::new();
    let mut i: usize = 0;
    while i < questions_db.len()
        invariant
            i <= questions_db@.len(),
            db == cards(questions_db@),
            indices(r@) == candidates(db, cat@, texts(taken@), i as int),
        decreases questions_db@.len() - i,
    {
        let q = &questions_db[i];
        let ghost before = indices(r@);
        if str_eq(q.category_text(), cat) && !taken_contains(taken, q.question_text()) {
            r.push(i);
            proof {
                assert(indices(r@) =~= before.push(i as int));
            }
        }
        i += 1;
    }
    r
}

/// Draw up to `target` questions for question `our`, one by one, each among
/// the questions of its category whose text is neither ours nor drawn before;
/// the positions drawn, in order (see `drawn_picks`).
pub fn draw_picks<T: HasCard>(questions_db: &[T], our: usize, target: usize) -> (r: Vec<usize>)
    requires
        our < questions_db@.len(),
    ensures
        drawn_picks(cards(questions_db@), our as int, target as int, indices(r@)),
{
    let ghost db = cards(questions_db@);
    let cat = questions_db[our].category_text();
    let mut picks: Vec<usize> = Vec::new();
    let mut taken: Vec<String> = Vec::new();
    taken.push(questions_db[our].question_text().to_owned());
    proof {
        assert(texts(taken@) =~= taken_before(db, our as int, indices(picks@), 0));
    }
    while picks.len() < target
        invariant
            db == cards(questions_db@),
            our < db.len(),
            cat@ == db[our as int].category,
            picks@.len() <= target,
            valid_picks(db, our as int, indices(picks@)),
            texts(taken@) == taken_before(db, our as int, indices(picks@), picks@.len() as int),
        decreases target - picks@.len(),
    {
        let cands = candidates_now(questions_db, cat, &taken);
        if cands.len() == 0 {
            return picks;
        }
        let k = random_in(0, cands.len());
        let j = cands[k];
        proof {
            lemma_candidates(db, cat@, texts(taken@), db.len() as int);
            assert(indices(cands@)[k as int] == j as int);
        }
        let ghost old_picks = indices(picks@);
        let ghost old_texts = texts(taken@);
        taken.push(questions_db[j].question_text().to_owned());
        picks.push(j);
        proof {
            let p = indices(picks@);
            assert(p =~= old_picks.push(j as int));
            assert(texts(taken@) =~= old_texts.push(db[j as int].question));
            assert forall|t: int| 0 <= t <= old_picks.len() implies #[trigger] taken_before(
                db,
                our as int,
                p,
                t,
            ) == taken_before(db, our as int, old_picks, t) by {
                assert(taken_before(db, our as int, p, t) =~= taken_before(db, our as int, old_picks, t));
            }
            assert forall|t: int| 0 <= t < p.len() implies candidates(
                db,
                db[our as int].category,
                taken_before(db, our as int, p, t),
                db.len() as int,
            ).contains(#[trigger] p[t]) by {
                if t < old_picks.len() {
                    assert(old_picks[t] == p[t]);
                } else {
                    assert(candidates(
                        db,
                        db[our as int].category,
                        taken_before(db, our as int, p, t),
                        db.len() as int,
                    )[k as int] == p[t]);
                }
            }
            assert(texts(taken@) =~= taken_before(db, our as int, p, p.len() as int));
        }
    }
    picks
}

// ---------------------------------------------------------------------------
// Laws
// ---------------------------------------------------------------------------

/// The positions of a category come in increasing order.
pub proof fn lemma_category_positions_increasing(db: Seq<Card>, topic: Seq<char>, n: int)
    requires
        0 <= n <= db.len(),
    ensures
        forall|k: int, l: int|
            0 <= k < l < category_positions(db, topic, n).len() ==> #[trigger] category_positions(
                db,
                topic,
                n,
            )[k] < #[trigger] category_positions(db, topic, n)[l],
    decreases n,
{
    if n > 0 {
        lemma_category_positions_increasing(db, topic, n - 1);
        lemma_category_positions(db, topic, n - 1);
        let prev = category_positions(db, topic, n - 1);
        if db[n - 1].category == topic {
            assert(category_positions(db, topic, n) == prev.push(n - 1));
            assert forall|k: int, l: int|
                0 <= k < l < prev.len() + 1 implies #[trigger] prev.push(n - 1)[k] < #[trigger] prev.push(
                n - 1,
            )[l] by {
                if l == prev.len() {
                    assert(prev[k] < n - 1);
                } else {
                    assert(prev.push(n - 1)[k] == prev[k] && prev.push(n - 1)[l] == prev[l]);
                }
            }
        }
    }
}

/// Which questions a draw can select: with a topic that some question has,
/// exactly the questions of that topic; with no topic, or one that no
/// question has, every question of the database.
pub proof fn lemma_selectable(db: Seq<Card>, topic: Seq<char>)
    ensures
        topic.len() > 0 && (exists|j: int| 0 <= j < db.len() && #[trigger] db[j].category == topic)
            ==> forall|i: int| #[trigger]
            some_selected(db, topic, i) <==> (0 <= i < db.len() && db[i].category == topic),
        !(topic.len() > 0 && (exists|j: int| 0 <= j < db.len() && #[trigger] db[j].category == topic))
            ==> forall|i: int| #[trigger] some_selected(db, topic, i) <==> 0 <= i < db.len(),
{
    let n = db.len() as int;
    let p = category_positions(db, topic, n);
    lemma_category_positions(db, topic, n);
    if topic.len() > 0 && (exists|j: int| 0 <= j < db.len() && #[trigger] db[j].category == topic) {
        let j = choose|j: int| 0 <= j < db.len() && #[trigger] db[j].category == topic;
        assert(p.contains(j));
        assert(p.len() > 0);
        assert forall|i: int| #[trigger]
            some_selected(db, topic, i) <==> (0 <= i < db.len() && db[i].category == topic) by {
            if some_selected(db, topic, i) {
                let d = choose|d: int|
                    0 <= d < draw_range(db, topic) && i == #[trigger] selected_question(db, topic, d);
                assert(i == p[d]);
            }
            if 0 <= i < db.len() && db[i].category == topic {
                assert(p.contains(i));
                let d = choose|d: int| 0 <= d < p.len() && p[d] == i;
                assert(i == selected_question(db, topic, d));
            }
        }
    } else {
        assert(p.len() > 0 ==> topic.len() == 0) by {
            if p.len() > 0 && topic.len() > 0 {
                assert(db[p[0]].category == topic);
            }
        }
        assert forall|i: int| #[trigger] some_selected(db, topic, i) <==> 0 <= i < db.len() by {
            if 0 <= i < db.len() {
                assert(i == selected_question(db, topic, i));
            }
        }
    }
}

/// Where no candidate is left, every question of the category has its text taken.
proof fn lemma_no_candidate(db: Seq<Card>, cat: Seq<char>, taken: Seq<Seq<char>>, n: int)
    requires
        0 <= n <= db.len(),
        candidates(db, cat, taken, n).len() == 0,
    ensures
        forall|j: int| 0 <= j < n && #[trigger] db[j].category == cat ==> taken.contains(db[j].question),
    decreases n,
{
    if n > 0 {
        if db[n - 1].category == cat && !taken.contains(db[n - 1].question) {
            assert(candidates(db, cat, taken, n).len() == candidates(db, cat, taken, n - 1).len() + 1);
        } else {
            lemma_no_candidate(db, cat, taken, n - 1);
        }
    }
}

/// The questions of a category whose texts differ are never more than the
/// texts that cover them all.
proof fn lemma_covered_category(db: Seq<Card>, cat: Seq<char>, taken: Seq<Seq<char>>)
    requires
        forall|i: int, j: int|
            0 <= i < j < db.len() && #[trigger] db[i].category == cat && #[trigger] db[j].category == cat
                ==> db[i].question != db[j].question,
        forall|j: int| 0 <= j < db.len() && #[trigger] db[j].category == cat ==> taken.contains(db[j].question),
    ensures
        category_positions(db, cat, db.len() as int).len() <= taken.len(),
{
    let n = db.len() as int;
    let p = category_positions(db, cat, n);
    lemma_category_positions(db, cat, n);
    lemma_category_positions_increasing(db, cat, n);
    let t = p.map_values(|j: int| db[j].question);
    assert forall|k: int, l: int| 0 <= k < t.len() && 0 <= l < t.len() && k != l implies t[k] != t[l] by {
        if k < l {
            assert(p[k] < p[l]);
            assert(db[p[k]].category == cat && db[p[l]].category == cat);
        } else {
            assert(p[l] < p[k]);
            assert(db[p[k]].category == cat && db[p[l]].category == cat);
        }
    }
    assert(t.no_duplicates());
    t.unique_seq_to_set();
    assert(t.to_set().subset_of(taken.to_set())) by {
        assert forall|x: Seq<char>| t.to_set().contains(x) implies taken.to_set().contains(x) by {
            let k = choose|k: int| 0 <= k < t.len() && t[k] == x;
            assert(db[p[k]].category == cat);
            assert(taken.contains(db[p[k]].question));
        }
    }
    vstd::seq_lib::seq_to_set_is_finite(taken);
    vstd::set_lib::lemma_len_subset(t.to_set(), taken.to_set());
    taken.lemma_cardinality_of_set();
}

/// Where the texts of a category differ, a draw for one of its questions
/// stops early only where the target exceeds the other questions of the
/// category: up to that, every target is met.
pub proof fn lemma_drawn_picks_full(db: Seq<Card>, our: int, target: int, picks: Seq<int>)
    requires
        0 <= our < db.len(),
        drawn_picks(db, our, target, picks),
        target < category_positions(db, db[our].category, db.len() as int).len(),
        forall|i: int, j: int|
            0 <= i < j < db.len() && #[trigger] db[i].category == db[our].category && #[trigger] db[j].category
                == db[our].category ==> db[i].question != db[j].question,
    ensures
        picks.len() == target,
{
    if picks.len() < target {
        let cat = db[our].category;
        let taken = taken_before(db, our, picks, picks.len() as int);
        lemma_no_candidate(db, cat, taken, db.len() as int);
        lemma_covered_category(db, cat, taken);
        assert(taken.len() == picks.len() + 1);
    }
}

} // verus!
