use conway_piston::game::Mode;
use conway_piston::options::{
    mode_named, starting_dimension, starting_mode, window_dimensions, worker_count, workers_for,
    DEFAULT_HEIGHT, DEFAULT_WIDTH, TILE_SIZE,
};

#[test]
fn default_dimensions_are_200_by_150() {
    assert_eq!(200, DEFAULT_WIDTH);
    assert_eq!(150, DEFAULT_HEIGHT);
}

#[test]
fn modes_go_by_their_names() {
    assert_eq!(Some(Mode::Normal), mode_named("default"));
    assert_eq!(Some(Mode::Normal), mode_named("normal"));
    assert_eq!(Some(Mode::Pause), mode_named("pause"));
    assert_eq!(Some(Mode::Edit), mode_named("edit"));
    assert_eq!(None, mode_named("Pause"));
    assert_eq!(None, mode_named("paused"));
    assert_eq!(None, mode_named(""));
}

#[test]
fn starting_mode_ignores_case() {
    assert_eq!(Some(Mode::Pause), starting_mode("PAUSE"));
    assert_eq!(Some(Mode::Pause), starting_mode("Pause"));
    assert_eq!(Some(Mode::Edit), starting_mode("eDiT"));
    assert_eq!(Some(Mode::Normal), starting_mode("Normal"));
    assert_eq!(Some(Mode::Normal), starting_mode("DEFAULT"));
    assert_eq!(Some(Mode::Edit), starting_mode("edit"));
    assert_eq!(None, starting_mode("fast"));
    assert_eq!(None, starting_mode(" pause"));
}

#[test]
fn dimension_is_what_was_asked_for() {
    assert_eq!(Some(80), starting_dimension(Some("80"), false, 200));
    assert_eq!(Some(0), starting_dimension(Some("0"), false, 200));
    assert_eq!(Some(200), starting_dimension(None, false, 200));
    assert_eq!(Some(150), starting_dimension(None, true, 150));
}

#[test]
fn seed_file_overrides_the_dimension() {
    assert_eq!(Some(200), starting_dimension(Some("80"), true, 200));
    assert_eq!(Some(150), starting_dimension(Some("eighty"), true, 150));
}

#[test]
fn dimension_that_is_no_number_is_refused() {
    assert_eq!(None, starting_dimension(Some("eighty"), false, 200));
    assert_eq!(None, starting_dimension(Some("-5"), false, 200));
    assert_eq!(None, starting_dimension(Some(""), false, 200));
    assert_eq!(None, starting_dimension(Some("8 0"), false, 200));
}

#[test]
fn there_is_a_worker_for_each_cpu_and_at_least_one() {
    assert_eq!(1, workers_for(0));
    assert_eq!(1, workers_for(1));
    assert_eq!(8, workers_for(8));
    assert_eq!(usize::MAX, workers_for(usize::MAX));
    assert!(worker_count() >= 1);
}

#[test]
fn window_has_five_pixels_for_each_cell() {
    assert_eq!(5, TILE_SIZE);
    assert_eq!(Some([1000, 750]), window_dimensions(200, 150));
    assert_eq!(Some([5, 5]), window_dimensions(1, 1));
    assert_eq!(Some([0, 35]), window_dimensions(0, 7));
    assert_eq!(Some([4294967295, 5]), window_dimensions(858993459, 1));
}

#[test]
fn window_beyond_u32_is_refused() {
    assert_eq!(None, window_dimensions(858993460, 1));
    assert_eq!(None, window_dimensions(1, 858993460));
    assert_eq!(None, window_dimensions(usize::MAX, usize::MAX));
}
