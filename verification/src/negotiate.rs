//! Combining the participants' preferences with a Borda count.
//!
//! Each checked participant ranks every destination by the score they gave
//! it (an unscored destination counts as 0); a destination earns as many
//! points from that participant as there are destinations ranked below it,
//! equal scores being ranked in list order. The destinations are then listed
//! from the most points to the fewest, equal totals keeping list order.
use vstd::prelude::*;

use crate::argsort::{
    argsort, argsort_of, is_argsort, key_lt, lemma_argsort_exists, lemma_argsort_unique, lists,
};
use crate::model::{Destination, Score};
use crate::scores::{
    find_score, first_score, has_score_for, is_score_for, lemma_absent, lemma_push_reads, with_score,
};

verus! {

/// The names of the checked participants, in list order.
pub open spec fn checked_names(users: Seq<(String, bool)>) -> Seq<Seq<char>>
    decreases users.len(),
{
    if users.len() == 0 {
        Seq::empty()
    } else {
        let rest = checked_names(users.drop_last());
        if users.last().1 {
            rest.push(users.last().0@)
        } else {
            rest
        }
    }
}

/// The scores that `user` gives the destinations, in destination order.
pub open spec fn preference_vector(scores: Seq<Score>, dests: Seq<Destination>, user: Seq<char>) -> Seq<i64> {
    Seq::new(dests.len(), |k: int| first_score(scores, dests[k].id, user))
}

/// Where index `k` stands in `order`.
pub open spec fn rank_in(order: Seq<usize>, k: int) -> int {
    choose|p: int| 0 <= p < order.len() && order[p] == k
}

/// The Borda points that `user` gives destination `k`: its place in the
/// user's ascending order of preference.
pub open spec fn borda_points_of(
    scores: Seq<Score>,
    dests: Seq<Destination>,
    user: Seq<char>,
    k: int,
) -> int {
    rank_in(argsort_of(preference_vector(scores, dests, user)), k)
}

/// The Borda points that destination `k` gets from all of `participants`.
pub open spec fn borda_total(
    participants: Seq<Seq<char>>,
    scores: Seq<Score>,
    dests: Seq<Destination>,
    k: int,
) -> int
    decreases participants.len(),
{
    if participants.len() == 0 {
        0
    } else {
        borda_total(participants.drop_last(), scores, dests, k) + borda_points_of(
            scores,
            dests,
            participants.last(),
            k,
        )
    }
}

/// The key by which destinations are ordered: more points first.
pub open spec fn ranking_keys(
    participants: Seq<Seq<char>>,
    scores: Seq<Score>,
    dests: Seq<Destination>,
) -> Seq<i64> {
    Seq::new(dests.len(), |k: int| (-borda_total(participants, scores, dests, k)) as i64)
}

/// The outcome of a negotiation: no destinations where nobody is checked,
/// else all destinations from the most Borda points to the fewest, equal
/// totals in list order.
pub open spec fn negotiation_result(
    users: Seq<(String, bool)>,
    dests: Seq<Destination>,
    scores: Seq<Score>,
) -> Seq<Destination> {
    let participants = checked_names(users);
    if participants.len() == 0 {
        Seq::empty()
    } else {
        argsort_of(ranking_keys(participants, scores, dests)).map_values(|k: usize| dests[k as int])
    }
}

/// A sorted order lists each index once, so `rank_in` finds its place.
proof fn lemma_rank_in(data: Seq<i64>, order: Seq<usize>, p: int)
    requires
        is_argsort(data, order),
        0 <= p < order.len(),
    ensures
        rank_in(order, order[p] as int) == p,
{
    let k = order[p] as int;
    let r = rank_in(order, k);
    assert(0 <= r < order.len() && order[r] == k);
    if r < p {
        assert(key_lt(data, order[r] as int, order[p] as int));
    } else if r > p {
        assert(key_lt(data, order[p] as int, order[r] as int));
    }
}

/// Each participant gives each destination between 0 and `n - 1` points.
proof fn lemma_points_bounded(scores: Seq<Score>, dests: Seq<Destination>, user: Seq<char>, k: int)
    requires
        0 <= k < dests.len(),
        dests.len() <= usize::MAX,
    ensures
        0 <= borda_points_of(scores, dests, user, k) < dests.len(),
{
    let prefs = preference_vector(scores, dests, user);
    lemma_argsort_exists(prefs);
    let order = argsort_of(prefs);
    assert(lists(order, k));
    let p = choose|p: int| 0 <= p < order.len() && order[p] == k;
    lemma_rank_in(prefs, order, p);
}

/// A participant's preferences are the scores they gave, as recorded (the
/// first one for each destination, 0 where there is none), negative scores
/// included, one for each destination in list order.
pub proof fn lemma_preferences_are_scores(scores: Seq<Score>, dests: Seq<Destination>, user: Seq<char>)
    ensures
        preference_vector(scores, dests, user).len() == dests.len(),
        forall|k: int|
            0 <= k < dests.len() ==> #[trigger] preference_vector(scores, dests, user)[k] == first_score(
                scores,
                dests[k].id,
                user,
            ),
{
}

/// A destination's total adds up the points of every participant: counting
/// one more participant adds exactly that participant's points, however many
/// have been counted already, and nobody gives a total of 0.
pub proof fn lemma_borda_total_adds(
    participants: Seq<Seq<char>>,
    user: Seq<char>,
    scores: Seq<Score>,
    dests: Seq<Destination>,
    k: int,
)
    ensures
        borda_total(Seq::<Seq<char>>::empty(), scores, dests, k) == 0,
        borda_total(participants.push(user), scores, dests, k) == borda_total(participants, scores, dests, k)
            + borda_points_of(scores, dests, user, k),
{
    assert(participants.push(user).drop_last() =~= participants);
    assert(participants.push(user).last() == user);
}

/// The checked participants are exactly the ticked entries of the list, by
/// name, in list order.
pub proof fn lemma_checked_names_are_ticked(users: Seq<(String, bool)>)
    ensures
        checked_names(users) == users.filter(|u: (String, bool)| u.1).map_values(
            |u: (String, bool)| u.0@,
        ),
    decreases users.len(),
{
    reveal(Seq::filter);
    if users.len() > 0 {
        lemma_checked_names_are_ticked(users.drop_last());
        let rest = users.drop_last().filter(|u: (String, bool)| u.1);
        assert(rest.push(users.last()).map_values(|u: (String, bool)| u.0@) =~= rest.map_values(
            |u: (String, bool)| u.0@,
        ).push(users.last().0@));
    }
}

/// A participant's Borda points rank the destinations: no two destinations
/// get the same points from them, and one they scored higher gets more.
pub proof fn lemma_points_follow_scores(
    scores: Seq<Score>,
    dests: Seq<Destination>,
    user: Seq<char>,
    a: int,
    b: int,
)
    requires
        0 <= a < dests.len(),
        0 <= b < dests.len(),
        dests.len() <= usize::MAX,
    ensures
        a != b ==> borda_points_of(scores, dests, user, a) != borda_points_of(scores, dests, user, b),
        preference_vector(scores, dests, user)[a] < preference_vector(scores, dests, user)[b]
            ==> borda_points_of(scores, dests, user, a) < borda_points_of(scores, dests, user, b),
        first_score(scores, dests[a].id, user) < first_score(scores, dests[b].id, user)
            ==> borda_points_of(scores, dests, user, a) < borda_points_of(scores, dests, user, b),
{
    let prefs = preference_vector(scores, dests, user);
    lemma_argsort_exists(prefs);
    let order = argsort_of(prefs);
    assert(lists(order, a));
    assert(lists(order, b));
    let pa = choose|p: int| 0 <= p < order.len() && order[p] == a;
    let pb = choose|p: int| 0 <= p < order.len() && order[p] == b;
    lemma_rank_in(prefs, order, pa);
    lemma_rank_in(prefs, order, pb);
    if pb < pa {
        assert(key_lt(prefs, order[pb] as int, order[pa] as int));
    }
}

/// A destination's total is at most `n` points per participant.
proof fn lemma_total_bounded(
    participants: Seq<Seq<char>>,
    scores: Seq<Score>,
    dests: Seq<Destination>,
    k: int,
)
    requires
        0 <= k < dests.len(),
        dests.len() <= usize::MAX,
    ensures
        0 <= borda_total(participants, scores, dests, k) <= participants.len() * dests.len(),
    decreases participants.len(),
{
    if participants.len() > 0 {
        let rest = participants.drop_last();
        lemma_total_bounded(rest, scores, dests, k);
        lemma_points_bounded(scores, dests, participants.last(), k);
        assert(participants.len() * dests.len() == rest.len() * dests.len() + dests.len())
            by (nonlinear_arith)
            requires
                rest.len() + 1 == participants.len(),
        ;
    }
}

/// Where some participant is checked, a negotiation ranks the destinations:
/// it lists every destination exactly once, from the most Borda points to the
/// fewest, and destinations with equal points keep their list order.
pub proof fn lemma_negotiation_ranks_by_points(
    users: Seq<(String, bool)>,
    dests: Seq<Destination>,
    scores: Seq<Score>,
)
    requires
        checked_names(users).len() > 0,
        dests.len() <= usize::MAX,
        checked_names(users).len() * dests.len() <= i64::MAX,
    ensures
        negotiation_result(users, dests, scores).len() == dests.len(),
        exists|order: Seq<usize>|
            {
                &&& order.len() == dests.len()
                &&& forall|k: int| 0 <= k < dests.len() ==> #[trigger] lists(order, k)
                &&& forall|p: int|
                    0 <= p < order.len() ==> #[trigger] order[p] < dests.len()
                        && negotiation_result(users, dests, scores)[p] == dests[order[p] as int]
                &&& forall|p: int, q: int|
                    0 <= p < q < order.len() ==> {
                        let tp = borda_total(checked_names(users), scores, dests, #[trigger] order[p] as int);
                        let tq = borda_total(checked_names(users), scores, dests, #[trigger] order[q] as int);
                        tp > tq || (tp == tq && order[p] < order[q])
                    }
            },
{
    let names = checked_names(users);
    let keys = ranking_keys(names, scores, dests);
    lemma_argsort_exists(keys);
    let order = argsort_of(keys);
    assert forall|k: int| 0 <= k < dests.len() implies #[trigger] keys[k] == -borda_total(
        names,
        scores,
        dests,
        k,
    ) by {
        lemma_total_bounded(names, scores, dests, k);
    }
    assert forall|p: int, q: int| 0 <= p < q < order.len() implies {
        let tp = borda_total(names, scores, dests, #[trigger] order[p] as int);
        let tq = borda_total(names, scores, dests, #[trigger] order[q] as int);
        tp > tq || (tp == tq && order[p] < order[q])
    } by {
        assert(key_lt(keys, order[p] as int, order[q] as int));
        assert(keys[order[p] as int] == -borda_total(names, scores, dests, order[p] as int));
        assert(keys[order[q] as int] == -borda_total(names, scores, dests, order[q] as int));
    }
    assert(negotiation_result(users, dests, scores) == order.map_values(|k: usize| dests[k as int]));
}

proof fn lemma_totals_agree(
    participants: Seq<Seq<char>>,
    dests: Seq<Destination>,
    scores1: Seq<Score>,
    scores2: Seq<Score>,
)
    requires
        forall|i: int|
            0 <= i < participants.len() ==> argsort_of(
                #[trigger] preference_vector(scores1, dests, participants[i]),
            ) == argsort_of(preference_vector(scores2, dests, participants[i])),
    ensures
        forall|k: int|
            0 <= k < dests.len() ==> borda_total(participants, scores1, dests, k) == #[trigger] borda_total(
                participants,
                scores2,
                dests,
                k,
            ),
    decreases participants.len(),
{
    if participants.len() > 0 {
        let rest = participants.drop_last();
        assert forall|i: int| 0 <= i < rest.len() implies argsort_of(
            #[trigger] preference_vector(scores1, dests, rest[i]),
        ) == argsort_of(preference_vector(scores2, dests, rest[i])) by {
            assert(rest[i] == participants[i]);
        }
        lemma_totals_agree(rest, dests, scores1, scores2);
        let last = participants.last();
        assert(participants[participants.len() - 1] == last);
        assert(argsort_of(preference_vector(scores1, dests, last)) == argsort_of(
            preference_vector(scores2, dests, last),
        ));
        assert forall|k: int| 0 <= k < dests.len() implies borda_total(participants, scores1, dests, k)
            == #[trigger] borda_total(participants, scores2, dests, k) by {
            assert(borda_total(rest, scores1, dests, k) == borda_total(rest, scores2, dests, k));
            assert(borda_points_of(scores1, dests, last, k) == borda_points_of(scores2, dests, last, k));
        }
    }
}

/// Where each checked participant's preferences order the destinations the
/// same way under two score lists, the two lead to the same outcome.
proof fn lemma_same_orders_same_outcome(
    users: Seq<(String, bool)>,
    dests: Seq<Destination>,
    scores1: Seq<Score>,
    scores2: Seq<Score>,
)
    requires
        forall|i: int|
            0 <= i < checked_names(users).len() ==> argsort_of(
                #[trigger] preference_vector(scores1, dests, checked_names(users)[i]),
            ) == argsort_of(preference_vector(scores2, dests, checked_names(users)[i])),
    ensures
        negotiation_result(users, dests, scores1) == negotiation_result(users, dests, scores2),
{
    let names = checked_names(users);
    lemma_totals_agree(names, dests, scores1, scores2);
    assert(ranking_keys(names, scores1, dests) =~= ranking_keys(names, scores2, dests));
}

/// Only the checked participants' scores count: two score lists that agree
/// on what each checked participant gave each destination lead to the same
/// negotiation outcome.
pub proof fn lemma_only_checked_scores_count(
    users: Seq<(String, bool)>,
    dests: Seq<Destination>,
    scores1: Seq<Score>,
    scores2: Seq<Score>,
)
    requires
        forall|i: int, k: int|
            0 <= i < checked_names(users).len() && 0 <= k < dests.len() ==> first_score(
                scores1,
                dests[k].id,
                #[trigger] checked_names(users)[i],
            ) == first_score(scores2, #[trigger] dests[k].id, checked_names(users)[i]),
    ensures
        negotiation_result(users, dests, scores1) == negotiation_result(users, dests, scores2),
{
    let names = checked_names(users);
    assert forall|i: int| 0 <= i < names.len() implies argsort_of(
        #[trigger] preference_vector(scores1, dests, names[i]),
    ) == argsort_of(preference_vector(scores2, dests, names[i])) by {
        assert forall|k: int| 0 <= k < dests.len() implies #[trigger] preference_vector(
            scores1,
            dests,
            names[i],
        )[k] == preference_vector(scores2, dests, names[i])[k] by {
            assert(first_score(scores1, dests[k].id, names[i]) == first_score(scores2, dests[k].id, names[i]));
        }
        assert(preference_vector(scores1, dests, names[i]) =~= preference_vector(scores2, dests, names[i]));
    }
    lemma_same_orders_same_outcome(users, dests, scores1, scores2);
}

/// Two preference vectors that order their entries the same way.
pub open spec fn same_ranking(a: Seq<i64>, b: Seq<i64>) -> bool {
    &&& a.len() == b.len()
    &&& forall|i: int, j: int|
        0 <= i < a.len() && 0 <= j < a.len() ==> (#[trigger] a[i] < #[trigger] a[j] <==> b[i] < b[j])
}

proof fn lemma_same_ranking_same_argsort(a: Seq<i64>, b: Seq<i64>)
    requires
        same_ranking(a, b),
        a.len() <= usize::MAX,
    ensures
        argsort_of(a) == argsort_of(b),
{
    lemma_argsort_exists(a);
    lemma_argsort_exists(b);
    let order = argsort_of(a);
    assert forall|p: int, q: int| 0 <= p < q < order.len() implies key_lt(
        b,
        #[trigger] order[p] as int,
        #[trigger] order[q] as int,
    ) by {
        let i = order[p] as int;
        let j = order[q] as int;
        assert(key_lt(a, i, j));
        assert(a[i] < a[j] <==> b[i] < b[j]);
        assert(a[j] < a[i] <==> b[j] < b[i]);
    }
    assert(is_argsort(b, order));
    lemma_argsort_unique(b, order, argsort_of(b));
}

/// A Borda count depends only on how each participant ranks the
/// destinations, not on the size of their scores: where each checked
/// participant's scores order the destinations the same way under two score
/// lists, the two lead to the same outcome.
pub proof fn lemma_only_rankings_count(
    users: Seq<(String, bool)>,
    dests: Seq<Destination>,
    scores1: Seq<Score>,
    scores2: Seq<Score>,
)
    requires
        dests.len() <= usize::MAX,
        forall|i: int|
            0 <= i < checked_names(users).len() ==> same_ranking(
                #[trigger] preference_vector(scores1, dests, checked_names(users)[i]),
                preference_vector(scores2, dests, checked_names(users)[i]),
            ),
    ensures
        negotiation_result(users, dests, scores1) == negotiation_result(users, dests, scores2),
{
    let names = checked_names(users);
    assert forall|i: int| 0 <= i < names.len() implies argsort_of(
        #[trigger] preference_vector(scores1, dests, names[i]),
    ) == argsort_of(preference_vector(scores2, dests, names[i])) by {
        lemma_same_ranking_same_argsort(
            preference_vector(scores1, dests, names[i]),
            preference_vector(scores2, dests, names[i]),
        );
    }
    lemma_same_orders_same_outcome(users, dests, scores1, scores2);
}

/// `scores` with every score of `user` passed through `f`.
pub open spec fn rescaled(scores: Seq<Score>, user: Seq<char>, f: spec_fn(i64) -> i64) -> Seq<Score> {
    Seq::new(
        scores.len(),
        |i: int|
            if scores[i].username@ == user {
                with_score(scores[i], f(scores[i].score))
            } else {
                scores[i]
            },
    )
}

proof fn lemma_rescaled_first(scores: Seq<Score>, user: Seq<char>, f: spec_fn(i64) -> i64, dest_id: i64, u: Seq<char>)
    requires
        f(0) == 0,
    ensures
        first_score(rescaled(scores, user, f), dest_id, u) == if u == user {
            f(first_score(scores, dest_id, u))
        } else {
            first_score(scores, dest_id, u)
        },
    decreases scores.len(),
{
    let r = rescaled(scores, user, f);
    if scores.len() > 0 {
        assert(r.drop_first() =~= rescaled(scores.drop_first(), user, f));
        assert(r[0] == (if scores[0].username@ == user { with_score(scores[0], f(scores[0].score)) } else { scores[0] }));
        lemma_rescaled_first(scores.drop_first(), user, f, dest_id, u);
    }
}

/// Passing one participant's scores through a strictly increasing function
/// that keeps 0 (an unscored destination counts as 0) leaves the outcome of
/// a negotiation as it was.
pub proof fn lemma_rescaling_keeps_outcome(
    users: Seq<(String, bool)>,
    dests: Seq<Destination>,
    scores: Seq<Score>,
    user: Seq<char>,
    f: spec_fn(i64) -> i64,
)
    requires
        dests.len() <= usize::MAX,
        f(0) == 0,
        forall|a: i64, b: i64| a < b ==> #[trigger] f(a) < #[trigger] f(b),
    ensures
        negotiation_result(users, dests, rescaled(scores, user, f)) == negotiation_result(users, dests, scores),
{
    let names = checked_names(users);
    let r = rescaled(scores, user, f);
    assert forall|i: int| 0 <= i < names.len() implies same_ranking(
        #[trigger] preference_vector(r, dests, names[i]),
        preference_vector(scores, dests, names[i]),
    ) by {
        let a = preference_vector(r, dests, names[i]);
        let b = preference_vector(scores, dests, names[i]);
        assert forall|x: int, y: int| 0 <= x < a.len() && 0 <= y < a.len() implies (#[trigger] a[x] < #[trigger] a[y]
            <==> b[x] < b[y]) by {
            lemma_rescaled_first(scores, user, f, dests[x].id, names[i]);
            lemma_rescaled_first(scores, user, f, dests[y].id, names[i]);
            if names[i] == user {
                if b[x] < b[y] {
                    assert(f(b[x]) < f(b[y]));
                } else if b[y] < b[x] {
                    assert(f(b[y]) < f(b[x]));
                }
            }
        }
    }
    lemma_only_rankings_count(users, dests, r, scores);
}

/// Recording an explicit score of 0 where a participant had not scored a
/// destination leaves the outcome of a negotiation as it was: an unscored
/// destination counts as 0.
pub proof fn lemma_zero_score_is_no_score(
    users: Seq<(String, bool)>,
    dests: Seq<Destination>,
    scores: Seq<Score>,
    username: String,
    dest_id: i64,
)
    requires
        !has_score_for(scores, dest_id, username@),
    ensures
        negotiation_result(users, dests, scores.push(Score { username, dest_id, score: 0 }))
            == negotiation_result(users, dests, scores),
{
    let zero = Score { username, dest_id, score: 0 };
    let names = checked_names(users);
    assert forall|i: int, k: int| 0 <= i < names.len() && 0 <= k < dests.len() implies first_score(
        scores.push(zero),
        dests[k].id,
        #[trigger] names[i],
    ) == first_score(scores, #[trigger] dests[k].id, names[i]) by {
        lemma_push_reads(scores, zero, dests[k].id, names[i]);
        if is_score_for(zero, dests[k].id, names[i]) {
            lemma_absent(scores, dests[k].id, names[i]);
        }
    }
    lemma_only_checked_scores_count(users, dests, scores.push(zero), scores);
}

/// The destinations that `user` ranks below destination `k`.
pub open spec fn ranked_below(prefs: Seq<i64>, k: int) -> Set<int> {
    Set::new(|j: int| 0 <= j < prefs.len() && key_lt(prefs, j, k))
}

/// A destination's Borda points from a participant are the number of
/// destinations that the participant ranks below it.
pub proof fn lemma_points_count_lower(scores: Seq<Score>, dests: Seq<Destination>, user: Seq<char>, k: int)
    requires
        0 <= k < dests.len(),
        dests.len() <= usize::MAX,
    ensures
        ranked_below(preference_vector(scores, dests, user), k).finite(),
        borda_points_of(scores, dests, user, k) == ranked_below(
            preference_vector(scores, dests, user),
            k,
        ).len(),
{
    let prefs = preference_vector(scores, dests, user);
    lemma_argsort_exists(prefs);
    let order = argsort_of(prefs);
    assert(lists(order, k));
    let p = choose|p: int| 0 <= p < order.len() && order[p] == k;
    lemma_rank_in(prefs, order, p);
    let below = order.take(p).map_values(|x: usize| x as int);
    let s = ranked_below(prefs, k);
    assert forall|j: int| #[trigger] s.contains(j) <==> below.to_set().contains(j) by {
        if s.contains(j) {
            assert(lists(order, j));
            let q = choose|q: int| 0 <= q < order.len() && order[q] == j;
            if q > p {
                assert(key_lt(prefs, order[p] as int, order[q] as int));
            }
            assert(q < p);
            assert(below[q] == j);
        }
        if below.to_set().contains(j) {
            let q = choose|q: int| 0 <= q < below.len() && below[q] == j;
            assert(key_lt(prefs, order[q] as int, order[p] as int));
        }
    }
    assert(s =~= below.to_set());
    assert forall|x: int, y: int| 0 <= x < below.len() && 0 <= y < below.len() && x != y implies below[x]
        != below[y] by {
        if x < y {
            assert(key_lt(prefs, order[x] as int, order[y] as int));
        } else {
            assert(key_lt(prefs, order[y] as int, order[x] as int));
        }
    }
    below.unique_seq_to_set();
    broadcast use vstd::seq_lib::seq_to_set_is_finite;
}

/// The names of the checked participants, in list order.
pub fn checked_participants(users: &Vec<(String, bool)>) -> (names: Vec<String>)
    ensures
        names@.map_values(|s: String| s@) == checked_names(users@),
        names.len() <= users.len(),
{
    let mut names: Vec<String> = Vec::new();
    let n = users.len();
    let mut i: usize = 0;
    assert(users@.take(0) =~= Seq::<(String, bool)>::empty());
    while i < n
        invariant
            n == users@.len(),
            i <= n,
            names@.map_values(|s: String| s@) == checked_names(users@.take(i as int)),
            names.len() <= i,
        decreases n - i,
    {
        assert(users@.take(i + 1).drop_last() =~= users@.take(i as int));
        assert(users@.take(i + 1).last() == users@[i as int]);
        if users[i].1 {
            let ghost before = names@;
            names.push(users[i].0.clone());
            assert(names@.map_values(|s: String| s@) =~= before.map_values(|s: String| s@).push(
                users@[i as int].0@,
            ));
        }
        i = i + 1;
    }
    assert(users@.take(n as int) =~= users@);
    names
}

/// The scores that `username` gives the destinations, in destination order.
pub fn preferences(scores: &Vec<Score>, dests: &Vec<Destination>, username: &String) -> (prefs: Vec<i64>)
    ensures
        prefs@ == preference_vector(scores@, dests@, username@),
{
    let n = dests.len();
    let mut prefs: Vec<i64> = Vec::new();
    let mut k: usize = 0;
    while k < n
        invariant
            n == dests@.len(),
            k <= n,
            prefs.len() == k,
            forall|j: int|
                0 <= j < k ==> #[trigger] prefs@[j] == first_score(scores@, dests@[j].id, username@),
        decreases n - k,
    {
        let v = find_score(scores, dests[k].id, username);
        prefs.push(v);
        k = k + 1;
    }
    assert(prefs@ =~= preference_vector(scores@, dests@, username@));
    prefs
}

/// The Borda points that `username` gives each destination: as many as there
/// are destinations that the participant ranks below it (`lemma_points_count_lower`).
pub fn borda_points(scores: &Vec<Score>, dests: &Vec<Destination>, username: &String) -> (points: Vec<usize>)
    ensures
        points.len() == dests.len(),
        forall|k: int|
            0 <= k < dests.len() ==> #[trigger] points@[k] as int == borda_points_of(
                scores@,
                dests@,
                username@,
                k,
            ),
        forall|k: int| 0 <= k < dests.len() ==> #[trigger] points@[k] < dests.len(),
{
    let prefs = preferences(scores, dests, username);
    let order = argsort(prefs.as_slice());
    let n = dests.len();
    let mut points: Vec<usize> = Vec::new();
    let mut k: usize = 0;
    while k < n
        invariant
            n == dests@.len(),
            k <= n,
            points.len() == k,
            forall|j: int| 0 <= j < k ==> #[trigger] points@[j] == 0,
        decreases n - k,
    {
        points.push(0);
        k = k + 1;
    }
    let mut p: usize = 0;
    while p < n
        invariant
            n == dests@.len(),
            n == prefs@.len(),
            p <= n,
            is_argsort(prefs@, order@),
            points.len() == n,
            forall|q: int| 0 <= q < p ==> #[trigger] points@[order@[q] as int] == q,
            forall|j: int| 0 <= j < n ==> #[trigger] points@[j] < n,
        decreases n - p,
    {
        let ghost before = points@;
        points.set(order[p], p);
        assert forall|q: int| 0 <= q < p + 1 implies #[trigger] points@[order@[q] as int] == q by {
            if q < p {
                assert(key_lt(prefs@, order@[q] as int, order@[p as int] as int));
                assert(order@[q] != order@[p as int]);
                assert(points@[order@[q] as int] == before[order@[q] as int]);
            }
        }
        p = p + 1;
    }
    assert forall|k: int| 0 <= k < n implies #[trigger] points@[k] as int == borda_points_of(
        scores@,
        dests@,
        username@,
        k,
    ) by {
        assert(lists(order@, k));
        let q = choose|q: int| 0 <= q < n && order@[q] == k;
        lemma_rank_in(prefs@, order@, q);
    }
    points
}

/// The Borda points that each destination gets from all of `participants`.
pub fn borda_totals(participants: &Vec<String>, scores: &Vec<Score>, dests: &Vec<Destination>) -> (totals: Vec<i64>)
    requires
        participants.len() * dests.len() <= i64::MAX,
    ensures
        totals.len() == dests.len(),
        forall|k: int| 0 <= k < dests.len() ==> 0 <= #[trigger] totals@[k],
        forall|k: int|
            0 <= k < dests.len() ==> #[trigger] totals@[k] as int == borda_total(
                participants@.map_values(|s: String| s@),
                scores@,
                dests@,
                k,
            ),
{
    let ghost names = participants@.map_values(|s: String| s@);
    let n = dests.len();
    let mut totals: Vec<i64> = Vec::new();
    let mut k: usize = 0;
    while k < n
        invariant
            n == dests@.len(),
            k <= n,
            totals.len() == k,
            forall|j: int| 0 <= j < k ==> #[trigger] totals@[j] == 0,
        decreases n - k,
    {
        totals.push(0);
        k = k + 1;
    }
    let m = participants.len();
    let mut j: usize = 0;
    while j < m
        invariant
            n == dests@.len(),
            m == participants@.len(),
            names == participants@.map_values(|s: String| s@),
            m * n <= i64::MAX,
            j <= m,
            totals.len() == n,
            forall|k: int|
                0 <= k < n ==> #[trigger] totals@[k] as int == borda_total(
                    names.take(j as int),
                    scores@,
                    dests@,
                    k,
                ),
            forall|k: int| 0 <= k < n ==> 0 <= #[trigger] totals@[k] <= j * n,
        decreases m - j,
    {
        let points = borda_points(scores, dests, &participants[j]);
        assert(names.take(j + 1).drop_last() =~= names.take(j as int));
        assert(names.take(j + 1).last() == participants@[j as int]@);
        assert((j + 1) * n <= m * n) by (nonlinear_arith)
            requires
                j + 1 <= m,
        ;
        assert((j + 1) * n == j * n + n) by (nonlinear_arith);
        let mut k: usize = 0;
        while k < n
            invariant
                n == dests@.len(),
                (j + 1) * n <= i64::MAX,
                (j + 1) * n == j * n + n,
                k <= n,
                totals.len() == n,
                points.len() == n,
                forall|i: int| 0 <= i < n ==> #[trigger] points@[i] < n,
                forall|i: int|
                    0 <= i < k ==> #[trigger] totals@[i] as int == borda_total(
                        names.take(j + 1),
                        scores@,
                        dests@,
                        i,
                    ),
                forall|i: int|
                    k <= i < n ==> #[trigger] totals@[i] as int == borda_total(
                        names.take(j as int),
                        scores@,
                        dests@,
                        i,
                    ),
                forall|i: int|
                    0 <= i < n ==> borda_points_of(scores@, dests@, names.take(j + 1).last(), i)
                        == #[trigger] points@[i] as int,
                forall|i: int| k <= i < n ==> 0 <= #[trigger] totals@[i] <= j * n,
                forall|i: int| 0 <= i < k ==> 0 <= #[trigger] totals@[i] <= (j + 1) * n,
                names.take(j + 1).drop_last() == names.take(j as int),
                j + 1 <= names.len(),
            decreases n - k,
        {
            let t = totals[k] + points[k] as i64;
            totals.set(k, t);
            k = k + 1;
        }
        j = j + 1;
    }
    assert(names.take(m as int) =~= names);
    totals
}

/// Negotiates a destination: the destinations ordered by the Borda count of
/// the checked participants' scores, the most preferred first, or none at
/// all where no participant is checked.
pub fn negotiate(users: &Vec<(String, bool)>, dests: &Vec<Destination>, scores: &Vec<Score>) -> (ranked: Vec<Destination>)
    requires
        checked_names(users@).len() * dests.len() <= i64::MAX,
    ensures
        ranked@ == negotiation_result(users@, dests@, scores@),
{
    let participants = checked_participants(users);
    if participants.len() == 0 {
        return Vec::new();
    }
    assert(participants@.map_values(|s: String| s@).len() == participants.len());
    let totals = borda_totals(&participants, scores, dests);
    let ghost names = participants@.map_values(|s: String| s@);
    let n = dests.len();
    let mut keys: Vec<i64> = Vec::new();
    let mut k: usize = 0;
    while k < n
        invariant
            n == dests@.len(),
            totals.len() == n,
            k <= n,
            keys.len() == k,
            forall|i: int| 0 <= i < n ==> 0 <= #[trigger] totals@[i],
            forall|i: int|
                0 <= i < n ==> #[trigger] totals@[i] as int == borda_total(
                    names,
                    scores@,
                    dests@,
                    i,
                ),
            forall|i: int|
                0 <= i < k ==> #[trigger] keys@[i] == (-borda_total(names, scores@, dests@, i)) as i64,
        decreases n - k,
    {
        keys.push(-totals[k]);
        k = k + 1;
    }
    assert(keys@ =~= ranking_keys(names, scores@, dests@));
    let order = argsort(keys.as_slice());
    let mut ranked: Vec<Destination> = Vec::new();
    let mut p: usize = 0;
    while p < n
        invariant
            n == dests@.len(),
            is_argsort(keys@, order@),
            keys@.len() == n,
            p <= n,
            ranked.len() == p,
            forall|q: int| 0 <= q < p ==> #[trigger] ranked@[q] == dests@[order@[q] as int],
        decreases n - p,
    {
        ranked.push(dests[order[p]].duplicate());
        p = p + 1;
    }
    assert(ranked@ =~= order@.map_values(|k: usize| dests@[k as int]));
    ranked
}

} // verus!
