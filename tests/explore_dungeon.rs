use coding_puzzles::dungeon::{get_lower_bound, get_upper_bound, Action, Explorer, Room};

#[test]
fn test_lower_bound() {
    assert_eq!(get_lower_bound(2), 1);
    assert_eq!(get_lower_bound(3), 2);
    assert_eq!(get_lower_bound(4), 2);
    assert_eq!(get_lower_bound(5), 3);
}

#[test]
fn test_upper_bound() {
    assert_eq!(get_upper_bound(2), 1);
    assert_eq!(get_upper_bound(3), 3);
    assert_eq!(get_upper_bound(4), 6);
    assert_eq!(get_upper_bound(5), 10);
}

#[test]
fn bounds_for_larger_dungeons() {
    assert_eq!(get_lower_bound(7), 4);
    assert_eq!(get_lower_bound(100_000), 50_000);
    assert_eq!(get_upper_bound(100_000), 4_999_950_000);
}

#[test]
fn explorer_starts_with_the_widest_bounds() {
    let explorer = Explorer::new(4);
    assert_eq!(explorer.lower_bound, 0);
    assert_eq!(explorer.upper_bound, 6);
    assert!(explorer.visited_rooms.is_empty());
    assert_eq!(explorer.last_action, Action::Teleport);
    assert_eq!(explorer.get_estimate(), 6);
}

#[test]
fn explorer_moves_then_teleports_to_the_first_unseen_room() {
    let mut explorer = Explorer::new(4);
    // arrives by teleport in room 2, which has two passages
    assert_eq!(explorer.observe(&Room::new(2, 2)), (Action::Move, None));
    assert_eq!(explorer.lower_bound, 2);
    assert_eq!(explorer.upper_bound, 5);
    // moves into room 1, which has one passage: the way back
    assert_eq!(explorer.observe(&Room::new(1, 1)), (Action::Teleport, Some(3)));
    assert_eq!(explorer.lower_bound, 2);
    assert_eq!(explorer.upper_bound, 3);
    assert_eq!(explorer.get_estimate(), 3);
}

#[test]
fn explorer_seen_room_lowers_the_upper_bound() {
    let mut explorer = Explorer::new(3);
    assert_eq!(explorer.observe(&Room::new(1, 2)), (Action::Move, None));
    assert_eq!(explorer.observe(&Room::new(1, 2)), (Action::Teleport, Some(2)));
    assert_eq!(explorer.upper_bound, 2);
    assert_eq!(explorer.lower_bound, 2);
}

#[test]
fn explorer_with_every_room_seen_keeps_moving() {
    let mut explorer = Explorer::new(2);
    assert_eq!(explorer.observe(&Room::new(1, 1)), (Action::Move, None));
    assert_eq!(explorer.observe(&Room::new(2, 1)), (Action::Move, None));
    assert_eq!(explorer.get_estimate(), 1);
}
