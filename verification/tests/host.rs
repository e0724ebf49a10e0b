use stepsort::host::{
    AppStatus, decrease_speed_ms, increase_speed_ms, push_next_bar, remove_largest, shuffle_bars,
    toggle_status,
};

#[test]
fn toggle_transitions() {
    assert_eq!(toggle_status(AppStatus::Running), (AppStatus::Paused, false));
    assert_eq!(toggle_status(AppStatus::Paused), (AppStatus::Running, false));
    assert_eq!(toggle_status(AppStatus::Completed), (AppStatus::Paused, true));
}

#[test]
fn speed_bounds() {
    assert_eq!(increase_speed_ms(100), 80);
    assert_eq!(increase_speed_ms(21), 1);
    assert_eq!(increase_speed_ms(20), 1);
    assert_eq!(increase_speed_ms(1), 1);
    assert_eq!(decrease_speed_ms(1), 20);
    assert_eq!(decrease_speed_ms(100), 120);
    assert_eq!(decrease_speed_ms(980), 1000);
    assert_eq!(decrease_speed_ms(990), 1000);
    assert_eq!(decrease_speed_ms(1000), 1000);
}

#[test]
fn shuffle_keeps_the_values() {
    let mut bars: Vec<i32> = (1..=50).collect();
    shuffle_bars(&mut bars, 12345);
    assert_eq!(bars.len(), 50);
    let mut sorted = bars.clone();
    sorted.sort();
    assert_eq!(sorted, (1..=50).collect::<Vec<i32>>());

    let mut empty: Vec<i32> = Vec::new();
    shuffle_bars(&mut empty, 7);
    assert!(empty.is_empty());
}

#[test]
fn remove_largest_takes_last_maximum() {
    let mut bars = vec![3, 5, 2, 5, 1];
    remove_largest(&mut bars);
    assert_eq!(bars, vec![3, 5, 2, 1]);

    let mut bars = vec![4];
    remove_largest(&mut bars);
    assert_eq!(bars, Vec::<i32>::new());
}

#[test]
fn push_next_bar_extends_by_one() {
    let mut bars = vec![2, 1, 3];
    push_next_bar(&mut bars);
    assert_eq!(bars, vec![2, 1, 3, 4]);
}
