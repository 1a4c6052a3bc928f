//! Looking up and recording the scores that participants give destinations.
use vstd::prelude::*;

use crate::model::Score;
use crate::text::{lemma_text_lt_total, lemma_text_lt_transitive, parse_score, parsed_i64, text_less, text_lt};

verus! {

/// `s` is the score of participant `user` for destination `dest_id`.
pub open spec fn is_score_for(s: Score, dest_id: i64, user: Seq<char>) -> bool {
    s.dest_id == dest_id && s.username@ == user
}

/// The value of the first score of `user` for `dest_id` in `scores`, or 0
/// where there is none.
pub open spec fn first_score(scores: Seq<Score>, dest_id: i64, user: Seq<char>) -> i64
    decreases scores.len(),
{
    if scores.len() == 0 {
        0
    } else if is_score_for(scores[0], dest_id, user) {
        scores[0].score
    } else {
        first_score(scores.drop_first(), dest_id, user)
    }
}

/// The value of the last score of `user` for `dest_id` in `scores`, or 0
/// where there is none.
pub open spec fn last_score(scores: Seq<Score>, dest_id: i64, user: Seq<char>) -> i64
    decreases scores.len(),
{
    if scores.len() == 0 {
        0
    } else if is_score_for(scores.last(), dest_id, user) {
        scores.last().score
    } else {
        last_score(scores.drop_last(), dest_id, user)
    }
}

/// The value of the first score of `username` for destination `dest_id`,
/// or 0 where the participant has not scored it.
pub fn find_score(scores: &Vec<Score>, dest_id: i64, username: &String) -> (value: i64)
    ensures
        value == first_score(scores@, dest_id, username@),
{
    let n = scores.len();
    let mut i: usize = 0;
    assert(scores@.subrange(0, n as int) =~= scores@);
    while i < n
        invariant
            n == scores@.len(),
            i <= n,
            first_score(scores@, dest_id, username@) == first_score(
                scores@.subrange(i as int, n as int),
                dest_id,
                username@,
            ),
        decreases n - i,
    {
        let s = &scores[i];
        assert(scores@.subrange(i as int, n as int)[0] == scores@[i as int]);
        if s.dest_id == dest_id && s.username == *username {
            return s.score;
        }
        assert(scores@.subrange(i as int, n as int).drop_first() =~= scores@.subrange(
            i + 1,
            n as int,
        ));
        i = i + 1;
    }
    0
}

/// The score that participant `username` gives destination `dest_id`: the
/// last one recorded, or 0 where there is none.
pub fn score_of(scores: &Vec<Score>, dest_id: i64, username: &String) -> (value: i64)
    ensures
        value == last_score(scores@, dest_id, username@),
{
    let n = scores.len();
    let mut value: i64 = 0;
    let mut i: usize = 0;
    assert(scores@.take(0) =~= Seq::<Score>::empty());
    while i < n
        invariant
            n == scores@.len(),
            i <= n,
            value == last_score(scores@.take(i as int), dest_id, username@),
        decreases n - i,
    {
        let s = &scores[i];
        assert(scores@.take(i + 1).drop_last() =~= scores@.take(i as int));
        assert(scores@.take(i + 1).last() == scores@[i as int]);
        if s.dest_id == dest_id && s.username == *username {
            value = s.score;
        }
        i = i + 1;
    }
    assert(scores@.take(n as int) =~= scores@);
    value
}

/// Some name in `names` reads `x`.
pub open spec fn names_contain(names: Seq<String>, x: Seq<char>) -> bool {
    exists|p: int| 0 <= p < names.len() && #[trigger] names[p]@ == x
}

/// Participant `x` gave some score in `scores`.
pub open spec fn has_scored(scores: Seq<Score>, x: Seq<char>) -> bool {
    exists|i: int| 0 <= i < scores.len() && #[trigger] scores[i].username@ == x
}

/// The names come in strictly increasing order: sorted, and none twice.
pub open spec fn strictly_sorted(names: Seq<String>) -> bool {
    forall|p: int, q: int| 0 <= p < q < names.len() ==> text_lt(#[trigger] names[p]@, #[trigger] names[q]@)
}

/// Inserting `u` before the first name that does not come before it keeps
/// the names strictly sorted.
proof fn lemma_insert_name(names: Seq<String>, u: String, pos: int)
    requires
        strictly_sorted(names),
        0 <= pos <= names.len(),
        forall|p: int| 0 <= p < pos ==> text_lt(#[trigger] names[p]@, u@),
        pos < names.len() ==> !text_lt(names[pos]@, u@) && names[pos]@ != u@,
    ensures
        strictly_sorted(names.insert(pos, u)),
{
    let next = names.insert(pos, u);
    if pos < names.len() {
        lemma_text_lt_total(names[pos]@, u@);
    }
    assert forall|k: int| pos <= k < names.len() implies text_lt(u@, #[trigger] names[k]@) by {
        if k > pos {
            lemma_text_lt_transitive(u@, names[pos]@, names[k]@);
        }
    }
    assert forall|p: int, q: int| 0 <= p < q < next.len() implies text_lt(
        #[trigger] next[p]@,
        #[trigger] next[q]@,
    ) by {
        if q < pos {
            assert(next[p] == names[p] && next[q] == names[q]);
        } else if q == pos {
            assert(next[p] == names[p]);
        } else if p < pos {
            assert(next[p] == names[p] && next[q] == names[q - 1]);
            lemma_text_lt_transitive(names[p]@, u@, names[q - 1]@);
        } else if p == pos {
            assert(next[q] == names[q - 1]);
        } else {
            assert(next[p] == names[p - 1] && next[q] == names[q - 1]);
        }
    }
}

/// The names of everybody who gave a score, each once, in the order of
/// Rust strings (what sorting and then deduplicating them gives).
pub fn known_usernames(scores: &Vec<Score>) -> (names: Vec<String>)
    ensures
        strictly_sorted(names@),
        forall|x: Seq<char>|
            #![trigger names_contain(names@, x)]
            #![trigger has_scored(scores@, x)]
            names_contain(names@, x) <==> has_scored(scores@, x),
{
    let n = scores.len();
    let mut names: Vec<String> = Vec::new();
    let mut i: usize = 0;
    while i < n
        invariant
            n == scores@.len(),
            i <= n,
            strictly_sorted(names@),
            forall|x: Seq<char>|
                #![trigger names_contain(names@, x)]
                #![trigger has_scored(scores@.take(i as int), x)]
                names_contain(names@, x) <==> has_scored(scores@.take(i as int), x),
        decreases n - i,
    {
        let u = &scores[i].username;
        let len = names.len();
        let mut pos: usize = 0;
        while pos < len && text_less(names[pos].as_str(), u.as_str())
            invariant
                len == names@.len(),
                pos <= len,
                forall|p: int| 0 <= p < pos ==> text_lt(#[trigger] names@[p]@, u@),
            decreases len - pos,
        {
            pos = pos + 1;
        }
        let ghost before = names@;
        let ghost prefix = scores@.take(i as int);
        let ghost grown = scores@.take(i + 1);
        assert(grown =~= prefix.push(scores@[i as int]));
        let present = pos < len && names[pos] == *u;
        if !present {
            proof {
                lemma_insert_name(names@, *u, pos as int);
            }
            names.insert(pos, u.clone());
        }
        assert forall|x: Seq<char>|
            #![trigger names_contain(names@, x)]
            #![trigger has_scored(grown, x)]
            names_contain(names@, x) <==> has_scored(grown, x) by {
            if names_contain(names@, x) {
                let p = choose|p: int| 0 <= p < names@.len() && #[trigger] names@[p]@ == x;
                if x != u@ {
                    if !present {
                        if p < pos {
                            assert(before[p]@ == x);
                        } else {
                            assert(before[p - 1]@ == x);
                        }
                    }
                    assert(names_contain(before, x));
                    let j = choose|j: int| 0 <= j < prefix.len() && #[trigger] prefix[j].username@ == x;
                    assert(grown[j].username@ == x);
                } else {
                    assert(grown[i as int].username@ == x);
                }
            }
            if has_scored(grown, x) {
                let j = choose|j: int| 0 <= j < grown.len() && #[trigger] grown[j].username@ == x;
                if j < i {
                    assert(prefix[j].username@ == x);
                    assert(has_scored(prefix, x));
                    let p = choose|p: int| 0 <= p < before.len() && #[trigger] before[p]@ == x;
                    if !present {
                        if p < pos {
                            assert(names@[p]@ == x);
                        } else {
                            assert(names@[p + 1]@ == x);
                        }
                    } else {
                        assert(names@[p]@ == x);
                    }
                } else {
                    assert(names@[pos as int]@ == x);
                }
            }
        }
        i = i + 1;
    }
    assert(scores@.take(n as int) =~= scores@);
    names
}

/// `s` with its value replaced by `num`.
pub open spec fn with_score(s: Score, num: i64) -> Score {
    Score { username: s.username, dest_id: s.dest_id, score: num }
}

/// Participant `user` has scored destination `dest_id` in `scores`.
pub open spec fn has_score_for(scores: Seq<Score>, dest_id: i64, user: Seq<char>) -> bool {
    exists|i: int| 0 <= i < scores.len() && is_score_for(#[trigger] scores[i], dest_id, user)
}

/// `scores` with every score of `user` for `dest_id` set to `num`.
pub open spec fn rewritten(scores: Seq<Score>, dest_id: i64, user: Seq<char>, num: i64) -> Seq<Score> {
    Seq::new(
        scores.len(),
        |i: int|
            if is_score_for(scores[i], dest_id, user) {
                with_score(scores[i], num)
            } else {
                scores[i]
            },
    )
}

/// The scores after `username` gave destination `dest_id` the value `num`:
/// the participant's existing scores for it take the new value, or, where
/// there are none, a new score is appended.
pub open spec fn recorded(scores: Seq<Score>, username: String, dest_id: i64, num: i64) -> Seq<Score> {
    if has_score_for(scores, dest_id, username@) {
        rewritten(scores, dest_id, username@, num)
    } else {
        scores.push(Score { username, dest_id, score: num })
    }
}

/// The scores of `user` for `dest_id`, in list order.
pub open spec fn scores_for(scores: Seq<Score>, dest_id: i64, user: Seq<char>) -> Seq<Score>
    decreases scores.len(),
{
    if scores.len() == 0 {
        Seq::empty()
    } else {
        let rest = scores_for(scores.drop_last(), dest_id, user);
        if is_score_for(scores.last(), dest_id, user) {
            rest.push(scores.last())
        } else {
            rest
        }
    }
}

proof fn lemma_no_scores_for(scores: Seq<Score>, dest_id: i64, user: Seq<char>)
    requires
        !has_score_for(scores, dest_id, user),
    ensures
        scores_for(scores, dest_id, user) == Seq::<Score>::empty(),
    decreases scores.len(),
{
    if scores.len() > 0 {
        let rest = scores.drop_last();
        assert(!is_score_for(scores[scores.len() - 1], dest_id, user));
        assert forall|i: int| 0 <= i < rest.len() implies !is_score_for(
            #[trigger] rest[i],
            dest_id,
            user,
        ) by {
            assert(rest[i] == scores[i]);
        }
        lemma_no_scores_for(rest, dest_id, user);
    }
}

/// Records that `username` gives destination `dest_id` the value `num`, and
/// returns the scores to send to the server: the participant's scores for
/// that destination, as they now stand.
pub fn record_score(scores: &mut Vec<Score>, username: &String, dest_id: i64, num: i64) -> (posted: Vec<Score>)
    ensures
        final(scores)@ == recorded(old(scores)@, *username, dest_id, num),
        posted@ == scores_for(final(scores)@, dest_id, username@),
        posted@.len() >= 1,
        forall|i: int|
            0 <= i < posted@.len() ==> is_score_for(#[trigger] posted@[i], dest_id, username@)
                && posted@[i].score == num,
{
    proof {
        lemma_record_posts_new_value(old(scores)@, *username, dest_id, num);
    }
    let ghost start = scores@;
    let n = scores.len();
    let mut posted: Vec<Score> = Vec::new();
    let mut changed = false;
    let mut i: usize = 0;
    assert(scores@.take(0) =~= Seq::<Score>::empty());
    while i < n
        invariant
            n == start.len(),
            scores@.len() == n,
            i <= n,
            forall|j: int|
                0 <= j < i ==> #[trigger] scores@[j] == rewritten(start, dest_id, username@, num)[j],
            forall|j: int| i <= j < n ==> #[trigger] scores@[j] == start[j],
            posted@ == scores_for(scores@.take(i as int), dest_id, username@),
            changed == has_score_for(start.take(i as int), dest_id, username@),
        decreases n - i,
    {
        let ghost prev = scores@;
        let matches = scores[i].dest_id == dest_id && scores[i].username == *username;
        if matches {
            let updated = Score { username: scores[i].username.clone(), dest_id, score: num };
            posted.push(updated.duplicate());
            scores.set(i, updated);
            changed = true;
        }
        assert(scores@.take(i as int) =~= prev.take(i as int));
        assert(scores@.take(i + 1).drop_last() =~= scores@.take(i as int));
        assert(scores@.take(i + 1).last() == scores@[i as int]);
        assert(start.take(i + 1) =~= start.take(i as int).push(start[i as int]));
        if matches {
            assert(is_score_for(start.take(i + 1)[i as int], dest_id, username@));
        } else {
            assert forall|j: int| 0 <= j < i + 1 && is_score_for(#[trigger] start.take(i + 1)[j], dest_id, username@)
                implies j < i by {}
        }
        i = i + 1;
    }
    assert(scores@.take(n as int) =~= scores@);
    assert(start.take(n as int) =~= start);
    if !changed {
        assert(scores@ =~= start);
        proof {
            lemma_no_scores_for(start, dest_id, username@);
        }
        let fresh = Score { username: username.clone(), dest_id, score: num };
        posted.push(fresh.duplicate());
        scores.push(fresh);
        assert(scores@.drop_last() =~= start);
    } else {
        assert(scores@ =~= rewritten(start, dest_id, username@, num));
    }
    posted
}

/// Records a score that `username` typed for destination `dest_id`: where
/// the text reads as a number the score is recorded as `record_score` does,
/// and the scores to send are returned; otherwise nothing changes.
pub fn record_score_input(scores: &mut Vec<Score>, username: &String, dest_id: i64, text: &str) -> (posted: Vec<Score>)
    ensures
        match parsed_i64(text@) {
            Some(num) => final(scores)@ == recorded(old(scores)@, *username, dest_id, num)
                && posted@ == scores_for(final(scores)@, dest_id, username@),
            None => final(scores)@ == old(scores)@ && posted@.len() == 0,
        },
{
    match parse_score(text) {
        Some(num) => record_score(scores, username, dest_id, num),
        None => Vec::new(),
    }
}

proof fn lemma_rewritten_ends(scores: Seq<Score>, dest_id: i64, user: Seq<char>, num: i64)
    requires
        scores.len() > 0,
    ensures
        rewritten(scores, dest_id, user, num).drop_last() == rewritten(scores.drop_last(), dest_id, user, num),
        rewritten(scores, dest_id, user, num).drop_first() == rewritten(scores.drop_first(), dest_id, user, num),
{
    assert(rewritten(scores, dest_id, user, num).drop_last() =~= rewritten(scores.drop_last(), dest_id, user, num));
    assert(rewritten(scores, dest_id, user, num).drop_first() =~= rewritten(scores.drop_first(), dest_id, user, num));
}

pub(crate) proof fn lemma_absent(scores: Seq<Score>, dest_id: i64, user: Seq<char>)
    requires
        !has_score_for(scores, dest_id, user),
    ensures
        last_score(scores, dest_id, user) == 0,
        first_score(scores, dest_id, user) == 0,
        scores.len() > 0 ==> !has_score_for(scores.drop_last(), dest_id, user),
        scores.len() > 0 ==> !has_score_for(scores.drop_first(), dest_id, user),
    decreases scores.len(),
{
    if scores.len() > 0 {
        assert(!is_score_for(scores[scores.len() - 1], dest_id, user));
        assert(!is_score_for(scores[0], dest_id, user));
        assert forall|i: int| 0 <= i < scores.len() - 1 implies !is_score_for(
            #[trigger] scores.drop_last()[i],
            dest_id,
            user,
        ) by {
            assert(scores.drop_last()[i] == scores[i]);
        }
        assert forall|i: int| 0 <= i < scores.len() - 1 implies !is_score_for(
            #[trigger] scores.drop_first()[i],
            dest_id,
            user,
        ) by {
            assert(scores.drop_first()[i] == scores[i + 1]);
        }
        lemma_absent(scores.drop_last(), dest_id, user);
        lemma_absent(scores.drop_first(), dest_id, user);
    }
}

proof fn lemma_rewritten_reads(
    scores: Seq<Score>,
    dest_id: i64,
    user: Seq<char>,
    num: i64,
    d2: i64,
    u2: Seq<char>,
)
    ensures
        (d2 == dest_id && u2 == user && has_score_for(scores, dest_id, user)) ==> last_score(
            rewritten(scores, dest_id, user, num),
            d2,
            u2,
        ) == num && first_score(rewritten(scores, dest_id, user, num), d2, u2) == num,
        !(d2 == dest_id && u2 == user) ==> last_score(rewritten(scores, dest_id, user, num), d2, u2)
            == last_score(scores, d2, u2) && first_score(rewritten(scores, dest_id, user, num), d2, u2)
            == first_score(scores, d2, u2),
    decreases scores.len(),
{
    if scores.len() > 0 {
        let r = rewritten(scores, dest_id, user, num);
        lemma_rewritten_ends(scores, dest_id, user, num);
        lemma_rewritten_reads(scores.drop_last(), dest_id, user, num, d2, u2);
        lemma_rewritten_reads(scores.drop_first(), dest_id, user, num, d2, u2);
        assert(r.last() == r[scores.len() - 1]);
        if d2 == dest_id && u2 == user && has_score_for(scores, dest_id, user) {
            let i = choose|i: int| 0 <= i < scores.len() && is_score_for(#[trigger] scores[i], dest_id, user);
            if !is_score_for(scores.last(), dest_id, user) {
                assert(i < scores.len() - 1);
                assert(scores.drop_last()[i] == scores[i]);
                assert(has_score_for(scores.drop_last(), dest_id, user));
            }
            if !is_score_for(scores[0], dest_id, user) {
                assert(i > 0);
                assert(scores.drop_first()[i - 1] == scores[i]);
                assert(has_score_for(scores.drop_first(), dest_id, user));
            }
        }
    }
}

pub(crate) proof fn lemma_push_reads(scores: Seq<Score>, x: Score, d2: i64, u2: Seq<char>)
    ensures
        !is_score_for(x, d2, u2) ==> last_score(scores.push(x), d2, u2) == last_score(scores, d2, u2)
            && first_score(scores.push(x), d2, u2) == first_score(scores, d2, u2),
        is_score_for(x, d2, u2) ==> last_score(scores.push(x), d2, u2) == x.score,
        is_score_for(x, d2, u2) && !has_score_for(scores, d2, u2) ==> first_score(scores.push(x), d2, u2)
            == x.score,
    decreases scores.len(),
{
    let grown = scores.push(x);
    assert(grown.drop_last() =~= scores);
    assert(grown.last() == x);
    if scores.len() > 0 {
        assert(grown.drop_first() =~= scores.drop_first().push(x));
        assert(grown[0] == scores[0]);
        lemma_push_reads(scores.drop_first(), x, d2, u2);
        if !has_score_for(scores, d2, u2) {
            lemma_absent(scores, d2, u2);
        }
        if !is_score_for(scores[0], d2, u2) {
            assert(first_score(grown, d2, u2) == first_score(grown.drop_first(), d2, u2));
            assert(first_score(scores, d2, u2) == first_score(scores.drop_first(), d2, u2));
        } else {
            assert(first_score(grown, d2, u2) == scores[0].score);
        }
    } else {
        assert(grown.drop_first() =~= Seq::<Score>::empty());
        assert(grown[0] == x);
        assert(first_score(Seq::<Score>::empty(), d2, u2) == 0);
        assert(first_score(scores, d2, u2) == 0);
    }
}

/// Reading back a recorded score gives the value recorded, whether the last
/// or the first score of the participant for that destination is read.
pub proof fn lemma_record_then_read(scores: Seq<Score>, username: String, dest_id: i64, num: i64)
    ensures
        last_score(recorded(scores, username, dest_id, num), dest_id, username@) == num,
        first_score(recorded(scores, username, dest_id, num), dest_id, username@) == num,
{
    lemma_rewritten_reads(scores, dest_id, username@, num, dest_id, username@);
    lemma_push_reads(scores, Score { username, dest_id, score: num }, dest_id, username@);
}

/// Recording one participant's score for one destination leaves what is read
/// for every other participant and destination as it was.
pub proof fn lemma_record_keeps_others(
    scores: Seq<Score>,
    username: String,
    dest_id: i64,
    num: i64,
    other_dest: i64,
    other_user: Seq<char>,
)
    requires
        !(other_dest == dest_id && other_user == username@),
    ensures
        last_score(recorded(scores, username, dest_id, num), other_dest, other_user) == last_score(
            scores,
            other_dest,
            other_user,
        ),
        first_score(recorded(scores, username, dest_id, num), other_dest, other_user) == first_score(
            scores,
            other_dest,
            other_user,
        ),
{
    lemma_rewritten_reads(scores, dest_id, username@, num, other_dest, other_user);
    lemma_push_reads(scores, Score { username, dest_id, score: num }, other_dest, other_user);
}

/// Recording a score again for the same participant and destination replaces
/// the earlier recording: the list is as if only the second had been made.
pub proof fn lemma_record_overrides(scores: Seq<Score>, username: String, dest_id: i64, first: i64, second: i64)
    ensures
        recorded(recorded(scores, username, dest_id, first), username, dest_id, second) == recorded(
            scores,
            username,
            dest_id,
            second,
        ),
{
    let once = recorded(scores, username, dest_id, first);
    if has_score_for(scores, dest_id, username@) {
        let i = choose|i: int| 0 <= i < scores.len() && is_score_for(#[trigger] scores[i], dest_id, username@);
        assert(is_score_for(once[i], dest_id, username@));
        assert(rewritten(once, dest_id, username@, second) =~= rewritten(scores, dest_id, username@, second));
    } else {
        let fresh = Score { username, dest_id, score: first };
        assert(once == scores.push(fresh));
        assert(is_score_for(once[scores.len() as int], dest_id, username@));
        assert(rewritten(once, dest_id, username@, second) =~= scores.push(Score { username, dest_id, score: second }));
    }
}

/// The scores of a participant for a destination are exactly the entries of
/// the list that are theirs for it, in list order.
pub proof fn lemma_scores_for_lists_matches(scores: Seq<Score>, dest_id: i64, user: Seq<char>)
    ensures
        scores_for(scores, dest_id, user) == scores.filter(|s: Score| is_score_for(s, dest_id, user)),
    decreases scores.len(),
{
    reveal(Seq::filter);
    if scores.len() > 0 {
        lemma_scores_for_lists_matches(scores.drop_last(), dest_id, user);
    }
}

proof fn lemma_scores_for_members(scores: Seq<Score>, dest_id: i64, user: Seq<char>)
    ensures
        forall|i: int|
            0 <= i < scores_for(scores, dest_id, user).len() ==> is_score_for(
                #[trigger] scores_for(scores, dest_id, user)[i],
                dest_id,
                user,
            ) && scores.contains(scores_for(scores, dest_id, user)[i]),
        has_score_for(scores, dest_id, user) ==> scores_for(scores, dest_id, user).len() >= 1,
    decreases scores.len(),
{
    if scores.len() > 0 {
        let rest = scores.drop_last();
        lemma_scores_for_members(rest, dest_id, user);
        let out = scores_for(scores, dest_id, user);
        let inner = scores_for(rest, dest_id, user);
        assert forall|i: int| 0 <= i < out.len() implies is_score_for(#[trigger] out[i], dest_id, user)
            && scores.contains(out[i]) by {
            if i < inner.len() {
                assert(out[i] == inner[i]);
                let j = choose|j: int| 0 <= j < rest.len() && rest[j] == inner[i];
                assert(scores[j] == rest[j]);
            } else {
                assert(out[i] == scores[scores.len() - 1]);
            }
        }
        if has_score_for(scores, dest_id, user) && !is_score_for(scores.last(), dest_id, user) {
            let i = choose|i: int| 0 <= i < scores.len() && is_score_for(#[trigger] scores[i], dest_id, user);
            assert(rest[i] == scores[i]);
            assert(has_score_for(rest, dest_id, user));
        }
    }
}

/// After a participant records a value for a destination, the scores sent
/// to the server are theirs for that destination, carry the new value, and
/// there is at least one of them, whatever the value.
pub proof fn lemma_record_posts_new_value(scores: Seq<Score>, username: String, dest_id: i64, num: i64)
    ensures
        scores_for(recorded(scores, username, dest_id, num), dest_id, username@).len() >= 1,
        forall|i: int|
            0 <= i < scores_for(recorded(scores, username, dest_id, num), dest_id, username@).len()
                ==> is_score_for(
                #[trigger] scores_for(recorded(scores, username, dest_id, num), dest_id, username@)[i],
                dest_id,
                username@,
            ) && scores_for(recorded(scores, username, dest_id, num), dest_id, username@)[i].score
                == num,
{
    let r = recorded(scores, username, dest_id, num);
    lemma_scores_for_members(r, dest_id, username@);
    if has_score_for(scores, dest_id, username@) {
        let i = choose|i: int| 0 <= i < scores.len() && is_score_for(#[trigger] scores[i], dest_id, username@);
        assert(is_score_for(r[i], dest_id, username@));
    } else {
        assert(is_score_for(r[scores.len() as int], dest_id, username@));
    }
    assert(has_score_for(r, dest_id, username@));
    let out = scores_for(r, dest_id, username@);
    assert forall|i: int| 0 <= i < out.len() implies #[trigger] out[i].score == num by {
        assert(r.contains(out[i]));
        let j = choose|j: int| 0 <= j < r.len() && r[j] == out[i];
        if has_score_for(scores, dest_id, username@) {
            assert(is_score_for(scores[j], dest_id, username@));
        } else {
            if j < scores.len() {
                assert(r[j] == scores[j]);
                assert(is_score_for(scores[j], dest_id, username@));
            }
        }
    }
}

/// The first score read for a participant and destination is the value of
/// their first entry for it.
pub proof fn lemma_first_score_is_first_entry(scores: Seq<Score>, dest_id: i64, user: Seq<char>, i: int)
    requires
        0 <= i < scores.len(),
        is_score_for(scores[i], dest_id, user),
        forall|j: int| 0 <= j < i ==> !is_score_for(#[trigger] scores[j], dest_id, user),
    ensures
        first_score(scores, dest_id, user) == scores[i].score,
    decreases i,
{
    if i > 0 {
        let tail = scores.drop_first();
        assert forall|j: int| 0 <= j < i - 1 implies !is_score_for(#[trigger] tail[j], dest_id, user) by {
            assert(tail[j] == scores[j + 1]);
        }
        assert(!is_score_for(scores[0], dest_id, user));
        lemma_first_score_is_first_entry(tail, dest_id, user, i - 1);
    }
}

/// The last score read for a participant and destination is the value of
/// their last entry for it.
pub proof fn lemma_last_score_is_last_entry(scores: Seq<Score>, dest_id: i64, user: Seq<char>, i: int)
    requires
        0 <= i < scores.len(),
        is_score_for(scores[i], dest_id, user),
        forall|j: int| i < j < scores.len() ==> !is_score_for(#[trigger] scores[j], dest_id, user),
    ensures
        last_score(scores, dest_id, user) == scores[i].score,
    decreases scores.len() - i,
{
    if i < scores.len() - 1 {
        let front = scores.drop_last();
        assert forall|j: int| i < j < front.len() implies !is_score_for(#[trigger] front[j], dest_id, user) by {
            assert(front[j] == scores[j]);
        }
        assert(!is_score_for(scores[scores.len() - 1], dest_id, user));
        lemma_last_score_is_last_entry(front, dest_id, user, i);
    }
}

/// A participant who has not scored a destination reads 0 for it, from the
/// first and from the last entry alike.
pub proof fn lemma_unscored_reads_zero(scores: Seq<Score>, dest_id: i64, user: Seq<char>)
    requires
        forall|j: int| 0 <= j < scores.len() ==> !is_score_for(#[trigger] scores[j], dest_id, user),
    ensures
        first_score(scores, dest_id, user) == 0,
        last_score(scores, dest_id, user) == 0,
{
    lemma_absent(scores, dest_id, user);
}

} // verus!
