use runoff::Ballot;

fn nine_voter_values() -> Vec<usize> {
    vec![
        [0, 1, 2],
        [0, 2, 1],
        [1, 2, 0],
        [1, 0, 2],
        [2, 0, 1],
        [2, 1, 0],
        [0, 2, 1],
        [0, 2, 1],
        [2, 0, 1],
    ]
    .into_iter()
    .flatten()
    .collect()
}

#[test]
fn three_example() {
    let labels = vec![0, 1, 2];
    let values: Vec<usize> = nine_voter_values();
    let winners_known = vec![0, 2, 1];

    let ballot = Ballot::new(labels, values).expect("label/values mismatch");
    let winners_exp: Vec<i32> = ballot.runoff().into_iter().map(|(winner, _, _)| winner).collect();

    assert_eq!(winners_known, winners_exp);
}

#[test]
fn round_count_matches_candidates() {
    let ballot = Ballot::new(vec![0, 1, 2], nine_voter_values()).expect("valid");
    assert_eq!(ballot.runoff().len(), 3);
}

#[test]
fn full_trace_of_three_example() {
    let ballot = Ballot::new(vec![0, 1, 2], nine_voter_values()).expect("valid");
    let rounds = ballot.runoff();
    assert_eq!(rounds[0], (0, 4, vec![(1, 3), (2, 2)]));
    assert_eq!(rounds[1], (2, 5, vec![(1, 4)]));
    assert_eq!(rounds[2], (1, 9, vec![]));
}

#[test]
fn tally_sums_equal_voters_every_round() {
    let ballot = Ballot::new(vec![0, 1, 2], nine_voter_values()).expect("valid");
    for (_, leader_tally, others) in ballot.runoff() {
        let total: usize = leader_tally + others.iter().map(|(_, n)| n).sum::<usize>();
        assert_eq!(total, 9);
    }
}

#[test]
fn every_label_reported_exactly_once() {
    let ballot = Ballot::new(vec![0, 1, 2], nine_voter_values()).expect("valid");
    let mut reported: Vec<i32> = ballot.runoff().into_iter().map(|(w, _, _)| w).collect();
    reported.sort();
    assert_eq!(reported, vec![0, 1, 2]);
}

#[test]
fn identical_inputs_give_identical_traces() {
    let a = Ballot::new(vec![0, 1, 2], nine_voter_values()).expect("valid").runoff();
    let b = Ballot::new(vec![0, 1, 2], nine_voter_values()).expect("valid").runoff();
    assert_eq!(a, b);
}

#[test]
fn construction_rejects_vote_count_not_multiple() {
    let labels = vec![0, 1];
    let votes = vec![0, 1, 0, 1, 0];
    match Ballot::new(labels, votes) {
        Ok(_) => panic!("construction should fail"),
        Err((l, v)) => {
            assert_eq!(l, vec![0, 1]);
            assert_eq!(v, vec![0, 1, 0, 1, 0]);
        }
    }
}

#[test]
fn construction_rejects_rank_equal_to_candidate_count() {
    let labels = vec![0, 1];
    let votes = vec![0, 1, 0, 2];
    assert!(Ballot::new(labels, votes).is_err());
}

#[test]
fn tie_break_picks_leftmost_leader() {
    // One voter each: both candidates tally one first-place vote.
    let labels = vec![10, 20];
    let votes = vec![0, 1, 1, 0];
    let rounds = Ballot::new(labels, votes).expect("valid").runoff();
    assert_eq!(rounds[0].0, 10);
    assert_eq!(rounds[0].1, 1);
}

#[test]
fn single_candidate_wins_with_every_vote() {
    let labels = vec![7];
    let votes = vec![0, 0, 0, 0, 0];
    let rounds = Ballot::new(labels, votes).expect("valid").runoff();
    assert_eq!(rounds.len(), 1);
    assert_eq!(rounds[0], (7, 5, vec![]));
}

#[test]
fn unanimous_first_choice_takes_every_vote() {
    let labels = vec![0, 1, 2];
    let votes = vec![
        [0, 1, 2],
        [0, 2, 1],
        [0, 1, 2],
        [0, 2, 1],
    ]
    .into_iter()
    .flatten()
    .collect();
    let rounds = Ballot::new(labels, votes).expect("valid").runoff();
    assert_eq!(rounds[0].0, 0);
    assert_eq!(rounds[0].1, 4);
    assert_eq!(rounds[0].2, vec![(1, 0), (2, 0)]);
}

#[test]
fn empty_candidate_set_yields_no_rounds() {
    let ballot = Ballot::new(Vec::<i32>::new(), Vec::new()).expect("valid");
    assert_eq!(ballot.runoff(), vec![]);
}

#[test]
fn rebase_shifts_every_rank_down() {
    let raw = vec![1, 3, 2, 1];
    assert_eq!(runoff::adapter::rebase_ranks(&raw, 1), Ok(vec![0, 2, 1, 0]));
}

#[test]
fn rebase_reports_first_rank_below_base() {
    let raw = vec![2, 1, 0, 1];
    assert_eq!(runoff::adapter::rebase_ranks(&raw, 1), Err(2));
}

#[test]
fn string_labels_via_index_mapping() {
    // An adapter with non-copyable labels can run the election over
    // indices and map back afterwards.
    let names = ["alpha", "beta", "gamma"];
    let labels: Vec<usize> = (0..names.len()).collect();
    let ballot = Ballot::new(labels, nine_voter_values()).expect("valid");
    let winners: Vec<&str> = ballot.runoff().into_iter().map(|(w, _, _)| names[w]).collect();
    assert_eq!(winners, vec!["alpha", "gamma", "beta"]);
}
