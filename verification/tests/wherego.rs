use wherego::argsort::argsort;
use wherego::dragrank::{copy_destinations, move_before, position_of};
use wherego::model::{Destination, Score};
use wherego::negotiate::{borda_points, borda_totals, checked_participants, negotiate, preferences};
use wherego::scores::{find_score, known_usernames, record_score, record_score_input, score_of};
use wherego::store::{
    current_view, CheckedUsernames, DestBeingEdited, Destinations, NegotiationResults,
    NewDestination, OverDestinationId, Scores, Screen, SelectedDestinationId, Username,
    DEFAULT_USERNAME,
};
use wherego::text::full_url;

fn dest(id: i64, name: &str) -> Destination {
    Destination { name: name.to_string(), description: format!("about {name}"), id }
}

fn score(user: &str, dest_id: i64, value: i64) -> Score {
    Score { username: user.to_string(), dest_id, score: value }
}

fn ids(ds: &[Destination]) -> Vec<i64> {
    ds.iter().map(|d| d.id).collect()
}

fn users(list: &[(&str, bool)]) -> Vec<(String, bool)> {
    list.iter().map(|(u, c)| (u.to_string(), *c)).collect()
}

fn three_dests() -> Vec<Destination> {
    vec![dest(10, "Alps"), dest(20, "Beach"), dest(30, "City")]
}

fn three_scores() -> Vec<Score> {
    vec![
        score("alice", 10, 5),
        score("alice", 20, 1),
        score("alice", 30, 3),
        score("bob", 10, 1),
        score("bob", 20, 3),
        score("bob", 30, 5),
    ]
}

#[test]
fn argsort_orders_indices_by_value() {
    assert_eq!(argsort(&[3, 1, 2]), vec![1, 2, 0]);
    assert_eq!(argsort(&[-5, 7, 0, 7]), vec![0, 2, 1, 3]);
}

#[test]
fn argsort_keeps_equal_values_in_index_order() {
    assert_eq!(argsort(&[2, 1, 2, 1]), vec![1, 3, 0, 2]);
    assert_eq!(argsort(&[4, 4, 4]), vec![0, 1, 2]);
}

#[test]
fn argsort_of_nothing_is_empty() {
    assert_eq!(argsort(&[]), Vec::<usize>::new());
    assert_eq!(argsort(&[i64::MIN, i64::MAX]), vec![0, 1]);
}

#[test]
fn argsort_is_a_permutation_that_sorts() {
    let data = [9, -3, 9, 0, 12, -3, 5];
    let order = argsort(&data);
    let mut seen = order.clone();
    seen.sort();
    assert_eq!(seen, (0..data.len()).collect::<Vec<_>>());
    for w in order.windows(2) {
        assert!(data[w[0]] < data[w[1]] || (data[w[0]] == data[w[1]] && w[0] < w[1]));
    }
}

#[test]
fn preferences_read_the_first_score_or_zero() {
    let mut scores = three_scores();
    scores.push(score("alice", 10, 99));
    let prefs = preferences(&scores, &three_dests(), &"alice".to_string());
    assert_eq!(prefs, vec![5, 1, 3]);
    let none = preferences(&scores, &three_dests(), &"carol".to_string());
    assert_eq!(none, vec![0, 0, 0]);
}

#[test]
fn borda_points_are_ranks() {
    let points = borda_points(&three_scores(), &three_dests(), &"alice".to_string());
    assert_eq!(points, vec![2, 0, 1]);
    let points = borda_points(&three_scores(), &three_dests(), &"bob".to_string());
    assert_eq!(points, vec![0, 1, 2]);
    // nobody scored anything: ties are ranked in list order
    let points = borda_points(&three_scores(), &three_dests(), &"carol".to_string());
    assert_eq!(points, vec![0, 1, 2]);
}

#[test]
fn borda_totals_add_up_the_participants() {
    let names = vec!["alice".to_string(), "bob".to_string()];
    assert_eq!(borda_totals(&names, &three_scores(), &three_dests()), vec![2, 1, 3]);
    assert_eq!(borda_totals(&vec![], &three_scores(), &three_dests()), vec![0, 0, 0]);
}

#[test]
fn checked_participants_keeps_list_order() {
    let list = users(&[("carol", true), ("alice", false), ("bob", true)]);
    assert_eq!(checked_participants(&list), vec!["carol".to_string(), "bob".to_string()]);
}

#[test]
fn negotiate_ranks_by_borda_count() {
    let list = users(&[("alice", true), ("bob", true)]);
    let ranked = negotiate(&list, &three_dests(), &three_scores());
    assert_eq!(ids(&ranked), vec![30, 10, 20]);
    assert_eq!(ranked[0], dest(30, "City"));
}

#[test]
fn negotiate_counts_only_checked_participants() {
    let list = users(&[("alice", true), ("bob", false)]);
    let ranked = negotiate(&list, &three_dests(), &three_scores());
    assert_eq!(ids(&ranked), vec![10, 30, 20]);
}

#[test]
fn negotiate_without_participants_gives_nothing() {
    let list = users(&[("alice", false), ("bob", false)]);
    assert!(negotiate(&list, &three_dests(), &three_scores()).is_empty());
    assert!(negotiate(&vec![], &three_dests(), &three_scores()).is_empty());
}

#[test]
fn negotiate_ties_keep_list_order() {
    let list = users(&[("carol", true)]);
    let ranked = negotiate(&list, &three_dests(), &three_scores());
    // carol scored nothing: ranks 0, 1, 2 in list order, so the last comes first
    assert_eq!(ids(&ranked), vec![30, 20, 10]);
    let list = users(&[("alice", true), ("alice", true)]);
    let ranked = negotiate(&list, &three_dests(), &three_scores());
    assert_eq!(ids(&ranked), vec![10, 30, 20]);
}

#[test]
fn negotiate_with_no_destinations() {
    let list = users(&[("alice", true)]);
    assert!(negotiate(&list, &vec![], &three_scores()).is_empty());
}

fn four() -> Vec<Destination> {
    vec![dest(1, "a"), dest(2, "b"), dest(3, "c"), dest(4, "d")]
}

#[test]
fn move_before_moves_down_and_up() {
    assert_eq!(ids(&move_before(&four(), 4, 2)), vec![1, 4, 2, 3]);
    assert_eq!(ids(&move_before(&four(), 1, 3)), vec![2, 1, 3, 4]);
    assert_eq!(ids(&move_before(&four(), 2, 1)), vec![2, 1, 3, 4]);
    assert_eq!(ids(&move_before(&four(), 1, 4)), vec![2, 3, 1, 4]);
}

#[test]
fn move_before_without_a_move_copies() {
    assert_eq!(move_before(&four(), -1, 2), four());
    assert_eq!(move_before(&four(), 3, -1), four());
    assert_eq!(move_before(&four(), 3, 3), four());
}

#[test]
fn move_before_uses_first_of_equal_ids() {
    let list = vec![dest(1, "a"), dest(2, "b"), dest(1, "a2"), dest(2, "b2")];
    let moved = move_before(&list, 1, 2);
    let names: Vec<_> = moved.iter().map(|d| d.name.clone()).collect();
    assert_eq!(names, vec!["a", "b", "a2", "b2"]);
    let moved = move_before(&list, 2, 1);
    let names: Vec<_> = moved.iter().map(|d| d.name.clone()).collect();
    assert_eq!(names, vec!["b", "a", "a2", "b2"]);
}

#[test]
fn position_of_finds_the_first() {
    let list = vec![dest(1, "a"), dest(2, "b"), dest(2, "c")];
    assert_eq!(position_of(&list, 2), Some(1));
    assert_eq!(position_of(&list, 7), None);
    assert_eq!(copy_destinations(&list), list);
}

#[test]
fn drop_dragged_moves_the_dragged_destination() {
    let mut dests = Destinations { value: four() };
    dests.drop_dragged(&SelectedDestinationId { value: 3 }, &OverDestinationId { value: 1 });
    assert_eq!(ids(&dests.value), vec![3, 1, 2, 4]);
}

#[test]
fn drag_over_needs_a_dragged_destination() {
    let mut over = OverDestinationId::default();
    over.drag_over(&SelectedDestinationId::default(), 5);
    assert_eq!(over.value, -1);
    over.drag_over(&SelectedDestinationId { value: 2 }, 5);
    assert_eq!(over.value, 5);
}

#[test]
fn score_lookups() {
    let scores = vec![score("a", 1, 3), score("b", 1, 4), score("a", 1, 7), score("a", 2, 9)];
    assert_eq!(score_of(&scores, 1, &"a".to_string()), 7);
    assert_eq!(find_score(&scores, 1, &"a".to_string()), 3);
    assert_eq!(score_of(&scores, 3, &"a".to_string()), 0);
    assert_eq!(find_score(&scores, 2, &"b".to_string()), 0);
    assert_eq!(Scores { value: scores }.score_for(2, &"a".to_string()), 9);
}

#[test]
fn record_score_updates_every_existing_entry() {
    let mut scores = vec![score("a", 1, 3), score("b", 1, 4), score("a", 1, 7)];
    let posted = record_score(&mut scores, &"a".to_string(), 1, 10);
    assert_eq!(scores, vec![score("a", 1, 10), score("b", 1, 4), score("a", 1, 10)]);
    assert_eq!(posted, vec![score("a", 1, 10), score("a", 1, 10)]);
}

#[test]
fn record_score_appends_a_new_entry() {
    let mut scores = vec![score("a", 1, 3)];
    let posted = record_score(&mut scores, &"b".to_string(), 1, -2);
    assert_eq!(scores, vec![score("a", 1, 3), score("b", 1, -2)]);
    assert_eq!(posted, vec![score("b", 1, -2)]);
}

#[test]
fn recorded_score_reads_back() {
    let mut scores = vec![score("a", 1, 3), score("b", 2, 4)];
    record_score(&mut scores, &"a".to_string(), 1, 8);
    record_score(&mut scores, &"a".to_string(), 1, 6);
    assert_eq!(score_of(&scores, 1, &"a".to_string()), 6);
    assert_eq!(find_score(&scores, 1, &"a".to_string()), 6);
    assert_eq!(score_of(&scores, 2, &"b".to_string()), 4);
    let mut once = vec![score("a", 1, 3), score("b", 2, 4)];
    record_score(&mut once, &"a".to_string(), 1, 6);
    assert_eq!(scores, once);
}

#[test]
fn record_score_input_parses_the_text() {
    let mut scores = vec![score("a", 1, 3)];
    let posted = record_score_input(&mut scores, &"a".to_string(), 1, "+42");
    assert_eq!(scores, vec![score("a", 1, 42)]);
    assert_eq!(posted, vec![score("a", 1, 42)]);
    let posted = record_score_input(&mut scores, &"a".to_string(), 1, "4 2");
    assert!(posted.is_empty());
    assert_eq!(scores, vec![score("a", 1, 42)]);
    let mut s = Scores { value: scores };
    let posted = s.enter(&"c".to_string(), 5, "-7");
    assert_eq!(posted, vec![score("c", 5, -7)]);
    assert_eq!(s.value.len(), 2);
}

fn parse_score(text: &str) -> Option<i64> {
    let mut scores = vec![];
    let posted = record_score_input(&mut scores, &"p".to_string(), 1, text);
    match scores.as_slice() {
        [] => {
            assert!(posted.is_empty());
            None
        }
        [s] => {
            assert_eq!(posted, vec![s.clone()]);
            Some(s.score)
        }
        _ => panic!("one text records at most one score"),
    }
}

#[test]
fn parse_score_follows_the_integer_grammar() {
    assert_eq!(parse_score("42"), Some(42));
    assert_eq!(parse_score("-17"), Some(-17));
    assert_eq!(parse_score("+3"), Some(3));
    assert_eq!(parse_score("007"), Some(7));
    assert_eq!(parse_score("9223372036854775807"), Some(i64::MAX));
    assert_eq!(parse_score("-9223372036854775808"), Some(i64::MIN));
    assert_eq!(parse_score("9223372036854775808"), None);
    assert_eq!(parse_score(""), None);
    assert_eq!(parse_score("-"), None);
    assert_eq!(parse_score(" 4"), None);
    assert_eq!(parse_score("4x"), None);
    assert_eq!(parse_score("--4"), None);
}

#[test]
fn known_usernames_sorts_and_dedups() {
    let scores = vec![score("bob", 1, 1), score("alice", 1, 1), score("bob", 2, 1), score("carol", 1, 1)];
    assert_eq!(known_usernames(&scores), vec!["alice", "bob", "carol"]);
    assert!(known_usernames(&vec![]).is_empty());
}

#[test]
fn known_usernames_uses_string_order() {
    let scores = vec![score("alice", 1, 1), score("Zed", 1, 1), score("al", 1, 1), score("émile", 1, 1)];
    assert_eq!(known_usernames(&scores), vec!["Zed", "al", "alice", "émile"]);
}

#[test]
fn checked_usernames_from_scores_and_toggle() {
    let scores = vec![score("bob", 1, 1), score("alice", 1, 1), score("bob", 2, 1)];
    let mut list = CheckedUsernames::from_scores(&scores);
    assert_eq!(list.value, users(&[("alice", false), ("bob", false)]));
    list.toggle(1);
    assert_eq!(list.value, users(&[("alice", false), ("bob", true)]));
    list.toggle(1);
    assert_eq!(list.value, users(&[("alice", false), ("bob", false)]));
}

#[test]
fn full_url_joins() {
    assert_eq!(full_url("http://127.0.0.1:3030", "/api/scores"), "http://127.0.0.1:3030/api/scores");
    assert_eq!(full_url("", "/api"), "/api");
}

#[test]
fn store_defaults() {
    assert_eq!(SelectedDestinationId::default().value, -1);
    assert_eq!(OverDestinationId::default().value, -1);
    assert_eq!(Username::default().value, DEFAULT_USERNAME);
    assert_eq!(DEFAULT_USERNAME, "edit me");
    assert_eq!(NewDestination::default().value, Destination { name: String::new(), description: String::new(), id: 0 });
    assert_eq!(NegotiationResults::default().value, None);
    assert_eq!(DestBeingEdited::default().value, None);
}

#[test]
fn username_is_set_once_edited() {
    assert!(!Username::default().is_set());
    assert!(Username { value: "alice".to_string() }.is_set());
    assert!(Username { value: String::new() }.is_set());
}

#[test]
fn editing_destinations() {
    let mut editing = DestBeingEdited { value: Some(dest(5, "Moon")) };
    editing.set_name("Mars".to_string());
    editing.set_description("red".to_string());
    assert_eq!(editing.value, Some(Destination { name: "Mars".to_string(), description: "red".to_string(), id: 5 }));
    let mut fresh = NewDestination::default();
    fresh.set_name("Oslo".to_string());
    fresh.set_description("cold".to_string());
    assert_eq!(fresh.value, Destination { name: "Oslo".to_string(), description: "cold".to_string(), id: -1 });
}

#[test]
fn screen_follows_the_state() {
    let editing = DestBeingEdited { value: Some(dest(1, "a")) };
    let results = NegotiationResults { value: Some(vec![]) };
    assert_eq!(current_view(&editing, &results), Screen::EditingDestination);
    assert_eq!(current_view(&DestBeingEdited::default(), &results), Screen::NegotiationOutcome);
    assert_eq!(current_view(&DestBeingEdited::default(), &NegotiationResults::default()), Screen::Scoring);
}

#[test]
fn duplicate_copies() {
    let d = dest(3, "x");
    assert_eq!(d.duplicate(), d);
    let s = score("a", 1, 2);
    assert_eq!(s.duplicate(), s);
}

#[test]
fn negotiate_ignores_unchecked_scores() {
    let list = users(&[("alice", true), ("bob", false)]);
    let mut other = three_scores();
    other.push(score("bob", 20, 1000));
    other.push(score("dave", 30, 1000));
    assert_eq!(
        negotiate(&list, &three_dests(), &three_scores()),
        negotiate(&list, &three_dests(), &other)
    );
}

#[test]
fn toggling_twice_restores() {
    let original = CheckedUsernames { value: users(&[("a", true), ("b", false)]) };
    let mut list = original.clone();
    list.toggle(0);
    assert_ne!(list, original);
    list.toggle(0);
    assert_eq!(list, original);
}

#[test]
fn moving_keeps_everything_else_in_order() {
    let moved = move_before(&four(), 2, 4);
    assert_eq!(ids(&moved), vec![1, 3, 2, 4]);
    let mut without = moved.clone();
    without.remove(2);
    assert_eq!(ids(&without), vec![1, 3, 4]);
    let mut sorted = ids(&moved);
    sorted.sort();
    assert_eq!(sorted, vec![1, 2, 3, 4]);
}

#[test]
fn negotiate_depends_only_on_rankings() {
    let list = users(&[("alice", true), ("bob", true)]);
    let before = negotiate(&list, &three_dests(), &three_scores());
    let rescaled: Vec<Score> = three_scores()
        .into_iter()
        .map(|s| if s.username == "alice" { Score { score: s.score * 10 + 3 * s.score, ..s } } else { s })
        .collect();
    assert_eq!(negotiate(&list, &three_dests(), &rescaled), before);
}

#[test]
fn explicit_zero_is_like_no_score() {
    let list = users(&[("alice", true), ("carol", true)]);
    let mut scores = three_scores();
    scores.push(score("carol", 10, 4));
    let before = negotiate(&list, &three_dests(), &scores);
    scores.push(score("carol", 20, 0));
    assert_eq!(negotiate(&list, &three_dests(), &scores), before);
}

#[test]
fn store_writes() {
    let mut results = NegotiationResults { value: Some(three_dests()) };
    results.dismiss();
    assert_eq!(results.value, None);
    let mut editing = DestBeingEdited::default();
    editing.begin(dest(7, "Rome"));
    assert_eq!(editing.value, Some(dest(7, "Rome")));
    editing.finish();
    assert_eq!(editing.value, None);
    let mut name = Username::default();
    name.set("zoe".to_string());
    assert_eq!(name.value, "zoe");
    let mut selected = SelectedDestinationId::default();
    selected.drag_start(4);
    assert_eq!(selected.value, 4);
    selected.drag_end();
    assert_eq!(selected.value, -1);
}
