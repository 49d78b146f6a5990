use complx_app::problems::menu_optim::MenuOptimizer;
use complx_app::problems::Report;

#[test]
fn test_optimal_menu_is_found_with_coherent_target_calories() {
    let mo = MenuOptimizer::new();
    let target_calories = 1000;
    let base_menu: Vec<(String, u32)> = vec![
        ("Chicken".to_owned(), 300),
        ("Salad".to_owned(), 200),
        ("Soup".to_owned(), 150),
        ("WaterMelon".to_owned(), 80),
        ("Apple".to_owned(), 70),
        ("Fish".to_owned(), 400),
    ];

    let mor = mo.find_optimal_menu(target_calories, base_menu);
    assert_eq!(
        mor.optimal_menu(),
        &Some(vec![
            ("Chicken".to_owned(), 300),
            ("Soup".to_owned(), 150),
            ("WaterMelon".to_owned(), 80),
            ("Apple".to_owned(), 70),
            ("Fish".to_owned(), 400),
        ])
    )
}

#[test]
fn test_optimal_menu_is_not_found_with_unbalanced_target_calories() {
    let mo = MenuOptimizer::new();
    let target_calories = 9999;
    let base_menu: Vec<(String, u32)> = vec![
        ("Chicken".to_owned(), 300),
        ("Salad".to_owned(), 200),
        ("Soup".to_owned(), 150),
        ("WaterMelon".to_owned(), 80),
        ("Apple".to_owned(), 70),
        ("Fish".to_owned(), 400),
    ];

    let mor = mo.find_optimal_menu(target_calories, base_menu);
    assert_eq!(mor.optimal_menu(), &None)
}

#[test]
fn menu_report_lists_dishes_and_total() {
    let mo = MenuOptimizer::new();
    let base_menu: Vec<(String, u32)> = vec![("Rice".to_owned(), 250), ("Beans".to_owned(), 150)];
    let mor = mo.find_optimal_menu(400, base_menu);
    assert_eq!(
        mor.report(),
        "> Optimal menu found:\n  1: Rice -> 250 calories\n  2: Beans -> 150 calories\n#> Total calories: 400"
    );
}

#[test]
fn menu_report_names_the_empty_outcome() {
    let mo = MenuOptimizer::new();
    let base_menu: Vec<(String, u32)> = vec![("Rice".to_owned(), 250)];
    let mor = mo.find_optimal_menu(9000, base_menu);
    assert_eq!(
        mor.report(),
        "> It was not possible to find an optimal menu for the target calories specified."
    );
}

#[test]
fn menu_report_is_idempotent() {
    let mo = MenuOptimizer::new();
    let base_menu: Vec<(String, u32)> = vec![("Rice".to_owned(), 250), ("Beans".to_owned(), 150)];
    let mor = mo.find_optimal_menu(300, base_menu);
    assert_eq!(mor.report(), mor.report());
}

#[test]
fn menu_zero_target_is_met_by_the_empty_menu() {
    let mo = MenuOptimizer::new();
    let base_menu: Vec<(String, u32)> = vec![("Rice".to_owned(), 250)];
    let mor = mo.find_optimal_menu(0, base_menu);
    assert_eq!(mor.optimal_menu(), &Some(vec![]));
}

#[test]
fn menu_empty_base_menu_reaches_only_a_zero_target() {
    let mor = MenuOptimizer::new().find_optimal_menu(1, Vec::new());
    assert_eq!(mor.optimal_menu(), &None);
    let mor0 = MenuOptimizer::new().find_optimal_menu(0, Vec::new());
    assert_eq!(mor0.optimal_menu(), &Some(vec![]));
}

#[test]
fn menu_first_seen_tie_wins() {
    let mo = MenuOptimizer::new();
    let base_menu: Vec<(String, u32)> = vec![("First".to_owned(), 5), ("Second".to_owned(), 5)];
    let mor = mo.find_optimal_menu(5, base_menu);
    // Both single dishes overshoot by zero; the enumeration reaches the
    // first one first and a later tie never replaces it.
    assert_eq!(mor.optimal_menu(), &Some(vec![("First".to_owned(), 5)]));
}

#[test]
fn menu_zero_calorie_dish_is_legal() {
    let mo = MenuOptimizer::new();
    let base_menu: Vec<(String, u32)> = vec![("Water".to_owned(), 0), ("Rice".to_owned(), 250)];
    let mor = mo.find_optimal_menu(250, base_menu);
    assert_eq!(
        mor.optimal_menu(),
        &Some(vec![("Water".to_owned(), 0), ("Rice".to_owned(), 250)])
    );
}
