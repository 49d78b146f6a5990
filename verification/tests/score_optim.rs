use complx_app::problems::score_optim::ScoreOptimizer;
use complx_app::problems::Report;

#[test]
fn test_optimal_assigment_is_made_properly() {
    let preferences: Vec<Vec<isize>> = vec![
        vec![10, 8, 6, 4, 2],
        vec![2, 4, 6, 8, 10],
        vec![4, 6, 2, 10, 8],
        vec![8, 10, 4, 6, 2],
    ];

    let sor = ScoreOptimizer::build(preferences)
        .unwrap()
        .find_optimal_assigment();

    assert_eq!(sor.max_score(), 20);
    assert_eq!(sor.max_assigned(), &vec![0, 0, 1, 3]);
}

#[test]
fn score_odd_team_count_is_refused() {
    let preferences: Vec<Vec<isize>> = vec![vec![1, 2], vec![3, 4], vec![5, 6]];
    let res = ScoreOptimizer::build(preferences);
    assert_eq!(res.unwrap_err(), "The number of teams must be even.");
}

#[test]
fn score_ragged_rows_are_refused() {
    let preferences: Vec<Vec<isize>> = vec![vec![1, 2], vec![3]];
    let res = ScoreOptimizer::build(preferences);
    assert_eq!(res.unwrap_err(), "The number of arbiters must be the same.");
}

#[test]
fn score_too_few_arbiters_are_refused() {
    let preferences: Vec<Vec<isize>> = vec![vec![1], vec![2], vec![3], vec![4]];
    let res = ScoreOptimizer::build(preferences);
    assert_eq!(
        res.unwrap_err(),
        "The number of arbiters must be greater than the number of matches."
    );
}

#[test]
fn score_refusals_cut_off_every_assignment() {
    let refusal = isize::MIN;
    let preferences: Vec<Vec<isize>> = vec![vec![refusal, refusal], vec![refusal, refusal]];
    let sor = ScoreOptimizer::build(preferences)
        .unwrap()
        .find_optimal_assigment();
    assert_eq!(sor.max_score(), isize::MIN);
    assert_eq!(sor.max_assigned(), &vec![0, 0]);
    assert_eq!(
        sor.report(),
        "None of the arbiters was assigned to any match."
    );
}

#[test]
fn score_refusal_redirects_the_assignment() {
    let refusal = isize::MIN;
    let preferences: Vec<Vec<isize>> = vec![vec![refusal, 1], vec![5, 9]];
    let sor = ScoreOptimizer::build(preferences)
        .unwrap()
        .find_optimal_assigment();
    assert_eq!(sor.max_score(), 9);
}

#[test]
fn score_refusals_in_a_larger_table_are_respected() {
    let refusal = isize::MIN;
    let preferences: Vec<Vec<isize>> = vec![
        vec![refusal, 3, 1],
        vec![4, refusal, 2],
        vec![refusal, refusal, 5],
        vec![6, 1, refusal],
    ];
    let sor = ScoreOptimizer::build(preferences)
        .unwrap()
        .find_optimal_assigment();
    // Two slots; team 2 accepts only arbiter 2, team 0 only arbiters 1 and
    // 2: the best pairing is arbiter 2 with team 2 and arbiter 0 with
    // team 3.
    assert_eq!(sor.max_score(), 11);
}

#[test]
fn score_negative_scores_are_still_compared() {
    let preferences: Vec<Vec<isize>> = vec![vec![-7, -2], vec![-5, -1]];
    let sor = ScoreOptimizer::build(preferences)
        .unwrap()
        .find_optimal_assigment();
    assert_eq!(sor.max_score(), -1);
}

#[test]
fn score_report_states_score_and_assignment() {
    let preferences: Vec<Vec<isize>> = vec![
        vec![10, 8, 6, 4, 2],
        vec![2, 4, 6, 8, 10],
        vec![4, 6, 2, 10, 8],
        vec![8, 10, 4, 6, 2],
    ];
    let sor = ScoreOptimizer::build(preferences)
        .unwrap()
        .find_optimal_assigment();
    assert_eq!(
        sor.report(),
        "> Score information:\n# Maximum score: 20\n- Assigned arbiters: [ 0, 0, 1, 3 ]"
    );
    assert_eq!(sor.report(), sor.report());
}

#[test]
fn score_report_renders_a_negative_maximum() {
    let preferences: Vec<Vec<isize>> = vec![vec![-7, -2], vec![-5, -1]];
    let sor = ScoreOptimizer::build(preferences)
        .unwrap()
        .find_optimal_assigment();
    assert_eq!(
        sor.report(),
        "> Score information:\n# Maximum score: -1\n- Assigned arbiters: [ 1, 1 ]"
    );
}
