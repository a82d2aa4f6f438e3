use zone_queries::alignment::{is_line_horizontal, is_line_vertical};
use zone_queries::{Restriction, Zone};

fn at(x: i32, y: i32) -> Zone {
    Zone::new(x, y, Restriction::default())
}

#[test]
fn o1_climbing_wall() {
    let cur_zone = Zone::new(2, 2, Restriction::default());

    let zones = vec![
        Zone::new(4, 1, Restriction::default()),
        Zone::new(5, 2, Restriction::default()), // correct
        Zone::new(3, 4, Restriction::default()),
        Zone::new(2, 5, Restriction::default()), // correct
    ];

    let correct_zones = vec![
        Zone::new(5, 2, Restriction::default()),
        Zone::new(2, 5, Restriction::default()),
    ];
    assert_eq!(cur_zone.climbing_wall_o1(&zones), correct_zones);
}

#[test]
fn planes_are_rows_and_columns() {
    let cur_zone = at(2, 2);
    assert!(cur_zone.is_on_vertical_plane(&at(5, 2)));
    assert!(!cur_zone.is_on_vertical_plane(&at(2, 5)));
    assert!(cur_zone.is_on_horizontal_plane(&at(2, 5)));
    assert!(!cur_zone.is_on_horizontal_plane(&at(5, 2)));
    assert!(cur_zone.is_on_vertical_plane(&cur_zone));
    assert!(cur_zone.is_on_horizontal_plane(&cur_zone));
    assert!(at(-1, i32::MIN).is_on_vertical_plane(&at(7, i32::MIN)));
}

#[test]
fn climbing_wall_keeps_the_reference_and_repeats() {
    let cur_zone = at(2, 2);
    let tagged = Zone::new(2, 2, Restriction::new(1, 1, 1, 1));
    let zones = vec![at(2, 9), cur_zone, at(0, 0), tagged, at(2, 9), at(-4, 2)];
    let expected = vec![at(2, 9), cur_zone, tagged, at(2, 9), at(-4, 2)];
    assert_eq!(cur_zone.climbing_wall_o1(&zones), expected);
}

#[test]
fn climbing_wall_of_no_candidates() {
    assert_eq!(at(2, 2).climbing_wall_o1(&Vec::new()), Vec::<Zone>::new());
    assert_eq!(at(2, 2).climbing_wall_o1(&vec![at(3, 3), at(1, 1)]), Vec::<Zone>::new());
}

#[test]
fn climbing_wall_is_the_same_on_every_run() {
    let cur_zone = at(0, -1);
    let zones = vec![at(0, 4), at(3, 3), at(9, -1), at(0, -1)];
    let before = zones.clone();
    assert_eq!(cur_zone.climbing_wall_o1(&zones), cur_zone.climbing_wall_o1(&zones));
    assert_eq!(zones, before);
}

#[test]
fn vertical_and_horizontal_lines() {
    assert!(is_line_vertical(&vec![at(3, 1), at(3, -8), at(3, 4)]));
    assert!(!is_line_vertical(&vec![at(3, 1), at(3, -8), at(4, 4)]));
    assert!(is_line_horizontal(&vec![at(1, 7), at(-8, 7), at(4, 7)]));
    assert!(!is_line_horizontal(&vec![at(1, 7), at(-8, 6), at(4, 7)]));
    assert!(is_line_vertical(&vec![at(3, 1)]));
    assert!(is_line_horizontal(&vec![at(3, 1)]));
    assert!(is_line_vertical(&Vec::new()));
    assert!(is_line_horizontal(&Vec::new()));
}
