use complx_app::problems::jump_optim::JumpOptimizer;
use complx_app::problems::Report;

#[test]
fn test_rabbit_get_from_a_to_b_properly() {
    let field_size = (10, 10);
    let jump_length = (1, 1);
    let start_point = (0, 0);
    let target_point = (2, 2);

    let jor = JumpOptimizer::new(field_size, jump_length).find_min_jumps(start_point, target_point);

    assert_eq!(jor.unwrap().min_jums(), Some(2));
}

#[test]
fn test_rabbit_cannot_reach_b_from_a() {
    let field_size = (5, 5);
    let jump_length = (3, 3);
    let start_point = (0, 0);
    let target_point = (4, 4);

    let jor = JumpOptimizer::new(field_size, jump_length).find_min_jumps(start_point, target_point);

    assert!(jor.unwrap().min_jums().is_none());
}

#[test]
fn test_rabbit_jump_outside_bounds_is_warned() {
    let field_size = (5, 5);
    let jump_length = (3, 3);
    let start_point = (0, 0);
    let target_point = (6, 7);

    let jor = JumpOptimizer::new(field_size, jump_length).find_min_jumps(start_point, target_point);

    assert!(jor.is_err());
}

#[test]
fn jump_target_on_the_field_edge_is_out_of_bounds() {
    let jor = JumpOptimizer::new((5, 5), (3, 3)).find_min_jumps((0, 0), (5, 5));
    assert!(jor.is_err());
    assert_eq!(
        jor.unwrap_err(),
        "The rabbit cannot jump outside the farm field!"
    );
}

#[test]
fn jump_start_equals_target_takes_zero_jumps() {
    let jor = JumpOptimizer::new((4, 4), (2, 1)).find_min_jumps((1, 1), (1, 1));
    assert_eq!(jor.unwrap().min_jums(), Some(0));
}

#[test]
fn jump_knight_crosses_the_board() {
    let jor = JumpOptimizer::new((8, 8), (2, 1)).find_min_jumps((0, 0), (1, 2));
    assert_eq!(jor.unwrap().min_jums(), Some(1));
}

#[test]
fn jump_report_states_the_minimum() {
    let jor = JumpOptimizer::new((10, 10), (1, 1))
        .find_min_jumps((0, 0), (2, 2))
        .unwrap();
    assert_eq!(
        jor.report(),
        "> The minimum number of jumps done to go from point `A` to point `B` is 2."
    );
    assert_eq!(jor.report(), jor.report());
}

#[test]
fn jump_report_names_the_unreachable_outcome() {
    let jor = JumpOptimizer::new((5, 5), (3, 3))
        .find_min_jumps((0, 0), (4, 4))
        .unwrap();
    assert_eq!(
        jor.report(),
        "> It was not possible to get from point `A` to point `B`."
    );
}
