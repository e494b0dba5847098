use find_my_fav::error::EngineError;
use find_my_fav::file_system::{
    contains_non_ascii, create_image_directory, favourites_directory, image_directory_at,
    join_path, last_four_digits,
};
use find_my_fav::rounds::{
    get_number_of_matches, get_total_number_of_matches_until_now, get_total_number_of_rounds,
};
use find_my_fav::speed_select::{
    calculate_number_of_images_for_match, FastButton, NormalButton, SlowButton, SpeedSelectButton,
    SpeedState,
};

#[test]
fn favourites_directory_is_named_after_folder_date_and_clock() {
    assert_eq!(
        favourites_directory("/home/alice", "holiday", "20240102", 1700001234),
        "/home/alice/Pictures/Favourites/holiday-20240102-1234"
    );
    assert_eq!(
        favourites_directory("/home/alice/", "holiday", "20240102", 1700000007),
        "/home/alice/Pictures/Favourites/holiday-20240102-0007"
    );
    assert_eq!(
        favourites_directory("", "x", "19700101", 1000),
        "Pictures/Favourites/x-19700101-1000"
    );
}

#[test]
fn last_four_digits_keeps_leading_zeros() {
    assert_eq!(last_four_digits(1000), "1000");
    assert_eq!(last_four_digits(120045), "0045");
    assert_eq!(last_four_digits(u64::MAX), "1615");
    assert_eq!(last_four_digits(9_990_000), "0000");
}

#[test]
fn join_path_adds_one_separator() {
    assert_eq!(join_path("a", "b"), "a/b");
    assert_eq!(join_path("a/", "b"), "a/b");
    assert_eq!(join_path("", "b"), "b");
    assert_eq!(join_path("/", "b"), "/b");
    assert_eq!(join_path("C:\\Users\\Zoë", "Pictures"), "C:\\Users\\Zoë/Pictures");
}

#[test]
fn create_image_directory_ends_in_the_folder_name() {
    if let Some(path) = create_image_directory("holiday") {
        let tail = path.rsplit('/').next().unwrap();
        assert!(tail.starts_with("holiday-"));
        assert_eq!(tail.len(), "holiday-".len() + 8 + 1 + 4);
        assert!(path.contains("Pictures/Favourites/"));
    }
}

#[test]
fn non_ascii_paths_are_recognised() {
    assert!(!contains_non_ascii("pictures/cat.png"));
    assert!(!contains_non_ascii(""));
    assert!(contains_non_ascii("pictures/chat-écru.png"));
    assert!(contains_non_ascii("写真.jpg"));
}

#[test]
fn rounds_needed_is_the_ceiling_of_the_logarithm() {
    assert_eq!(get_total_number_of_rounds(0), 0);
    assert_eq!(get_total_number_of_rounds(1), 0);
    assert_eq!(get_total_number_of_rounds(2), 1);
    assert_eq!(get_total_number_of_rounds(3), 2);
    assert_eq!(get_total_number_of_rounds(4), 2);
    assert_eq!(get_total_number_of_rounds(5), 3);
    assert_eq!(get_total_number_of_rounds(8), 3);
    assert_eq!(get_total_number_of_rounds(9), 4);
    assert_eq!(get_total_number_of_rounds(1024), 10);
    assert_eq!(get_total_number_of_rounds(1025), 11);
    assert_eq!(get_total_number_of_rounds(u64::MAX), 64);
}

#[test]
fn matches_per_round_halve() {
    assert_eq!(get_number_of_matches(5, 0), 0);
    assert_eq!(get_number_of_matches(1, 1), 0);
    assert_eq!(get_number_of_matches(5, 1), 3);
    assert_eq!(get_number_of_matches(5, 2), 2);
    assert_eq!(get_number_of_matches(5, 3), 1);
    assert_eq!(get_number_of_matches(5, 4), 1);
    assert_eq!(get_number_of_matches(5, u64::MAX), 1);
    assert_eq!(get_number_of_matches(8, 1), 4);
    assert_eq!(get_number_of_matches(8, 3), 1);
    assert_eq!(get_number_of_matches(u64::MAX, 1), 1 << 63);
}

#[test]
fn matches_until_now_add_up() {
    assert_eq!(get_total_number_of_matches_until_now(5, 0), 0);
    assert_eq!(get_total_number_of_matches_until_now(5, 1), 3);
    assert_eq!(get_total_number_of_matches_until_now(5, 2), 5);
    assert_eq!(get_total_number_of_matches_until_now(5, 3), 6);
    assert_eq!(get_total_number_of_matches_until_now(5, 10), 13);
    assert_eq!(get_total_number_of_matches_until_now(8, 3), 7);
    assert_eq!(get_total_number_of_matches_until_now(1, 3), 0);
    assert_eq!(get_total_number_of_matches_until_now(2, u64::MAX - 2), u64::MAX - 2);
}

#[test]
fn fast_speed_shows_more_images_in_large_rounds() {
    let fast = SpeedState::Fast;
    assert_eq!(calculate_number_of_images_for_match(0, fast), 2);
    assert_eq!(calculate_number_of_images_for_match(100, fast), 2);
    assert_eq!(calculate_number_of_images_for_match(101, fast), 3);
    assert_eq!(calculate_number_of_images_for_match(250, fast), 3);
    assert_eq!(calculate_number_of_images_for_match(251, fast), 4);
    assert_eq!(calculate_number_of_images_for_match(500, fast), 4);
    assert_eq!(calculate_number_of_images_for_match(501, fast), 6);
    assert_eq!(calculate_number_of_images_for_match(1000, fast), 6);
    assert_eq!(calculate_number_of_images_for_match(1001, fast), 8);
    assert_eq!(calculate_number_of_images_for_match(2000, fast), 8);
    assert_eq!(calculate_number_of_images_for_match(2001, fast), 10);
    assert_eq!(calculate_number_of_images_for_match(4000, fast), 10);
    assert_eq!(calculate_number_of_images_for_match(4001, fast), 12);
    assert_eq!(calculate_number_of_images_for_match(6000, fast), 12);
    assert_eq!(calculate_number_of_images_for_match(6001, fast), 16);
    assert_eq!(calculate_number_of_images_for_match(usize::MAX, fast), 16);
    assert_eq!(calculate_number_of_images_for_match(6001, SpeedState::Normal), 2);
    assert_eq!(calculate_number_of_images_for_match(6001, SpeedState::Slow), 2);
}

#[test]
fn speed_buttons_select_their_speed() {
    assert_eq!(SpeedState::default(), SpeedState::Normal);
    assert_eq!(SpeedSelectButton::SlowButton.speed(), SpeedState::Slow);
    assert_eq!(SpeedSelectButton::NormalButton.speed(), SpeedState::Normal);
    assert_eq!(SpeedSelectButton::FastButton.speed(), SpeedState::Fast);
    assert!(SpeedSelectButton::FastButton.is_selected(SpeedState::Fast));
    assert!(!SpeedSelectButton::FastButton.is_selected(SpeedState::Slow));
    assert!(!SpeedSelectButton::SlowButton.is_selected(SpeedState::Normal));
    assert_eq!(SlowButton.button(), SpeedSelectButton::SlowButton);
    assert_eq!(NormalButton.button(), SpeedSelectButton::NormalButton);
    assert_eq!(FastButton.button(), SpeedSelectButton::FastButton);
}

#[test]
fn errors_have_messages() {
    assert_eq!(EngineError::NotFound.message(), "item not found");
    assert_eq!(EngineError::LedgerCorrupt.message(), "ledger corrupt");
    assert_eq!(EngineError::EmptyCatalog.message(), "empty catalog");
    assert_eq!(EngineError::InvalidMatch.message(), "invalid match");
}

#[test]
fn image_directory_needs_a_home_and_four_digits_of_seconds() {
    let home = || Some(String::from("/home/alice"));
    assert_eq!(
        image_directory_at(home(), "holiday", "20240102", 1700001234),
        Some(String::from("/home/alice/Pictures/Favourites/holiday-20240102-1234"))
    );
    assert_eq!(
        image_directory_at(home(), "holiday", "19700101", 1000),
        Some(String::from("/home/alice/Pictures/Favourites/holiday-19700101-1000"))
    );
    assert_eq!(image_directory_at(home(), "holiday", "19700101", 999), None);
    assert_eq!(image_directory_at(home(), "holiday", "19691231", -5), None);
    assert_eq!(image_directory_at(None, "holiday", "20240102", 1700001234), None);
}
