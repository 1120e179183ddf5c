use shapeshifter::level::{get_level, LevelSpec};

fn spec(level: u32, shifts: u8, rows: u8, columns: u8, shapes: u8) -> LevelSpec {
    LevelSpec { level, shifts, rows, columns, shapes }
}

#[test]
fn get_level_returns_the_first_match() {
    let levels = vec![spec(1, 2, 3, 3, 2), spec(2, 2, 3, 4, 2), spec(2, 5, 9, 9, 9)];
    let found = get_level(&levels, 2).unwrap();
    assert_eq!(found, spec(2, 2, 3, 4, 2));
    assert_eq!(get_level(&levels, 1).unwrap().shapes, 2);
}

#[test]
fn get_level_missing() {
    let levels = vec![spec(1, 2, 3, 3, 2)];
    assert!(get_level(&levels, 0).is_none());
    assert!(get_level(&levels, 101).is_none());
    assert!(get_level(&[], 1).is_none());
}
