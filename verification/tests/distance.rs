use zone_queries::{Restriction, Zone};

fn zone(x: i32, y: i32) -> Zone {
    Zone::new(x, y, Restriction::default())
}

#[test]
fn euclidian_dist_horizontal() {
    let zone1 = Zone::new(0, 0, Restriction::default());
    let zone2 = Zone::new(0, 5, Restriction::default());
    assert_eq!(zone1.get_squared_distance(&zone2), 25);
    assert_eq!((zone1.get_squared_distance(&zone2) as f32).sqrt(), 5f32);
}

#[test]
fn euclidian_dist_vertical() {
    let zone1 = Zone::new(3, 0, Restriction::default());
    let zone2 = Zone::new(0, 0, Restriction::default());
    assert_eq!(zone1.get_squared_distance(&zone2), 9);
    assert_eq!((zone1.get_squared_distance(&zone2) as f32).sqrt(), 3f32);
}

#[test]
fn euclidian_dist_diagonal() {
    let zone1 = Zone::new(0, 0, Restriction::default());
    let zone2 = Zone::new(2, 4, Restriction::default());
    assert_eq!(zone1.get_squared_distance(&zone2), 20);
    let dist = (zone1.get_squared_distance(&zone2) as f32).sqrt();
    let dist_round_2_decimal = (dist * 100f32).round() / 100f32;
    assert_eq!(dist_round_2_decimal, 4.47);
}

#[test]
fn furthest_away_4_zones() {
    let cur_zone = Zone::new(2, 8, Restriction::default());
    let zone_furthest_away = Zone::new(7, 3, Restriction::default());
    let zones = vec![
        Zone::new(4, 7, Restriction::default()),
        Zone::new(3, 4, Restriction::default()),
        zone_furthest_away,
    ];
    assert_eq!(cur_zone.bungee_slingshow_o2(&zones), zone_furthest_away);
}

#[test]
fn distance_is_symmetric_and_zero_to_itself() {
    let points = [zone(0, 0), zone(-3, 4), zone(7, -9), zone(i32::MAX, i32::MIN), zone(5, 5)];
    for a in points.iter() {
        assert_eq!(a.get_squared_distance(a), 0);
        for b in points.iter() {
            assert_eq!(a.get_squared_distance(b), b.get_squared_distance(a));
        }
    }
}

#[test]
fn distance_is_zero_between_zones_at_one_position() {
    let a = Zone::new(4, -2, Restriction::new(1, 2, 3, 4));
    let b = Zone::new(4, -2, Restriction::default());
    assert_ne!(a, b);
    assert_eq!(a.get_squared_distance(&b), 0);
    assert_ne!(a.get_squared_distance(&zone(4, -1)), 0);
}

#[test]
fn distance_across_the_whole_grid() {
    let low = zone(i32::MIN, i32::MIN);
    let high = zone(i32::MAX, i32::MAX);
    let side: u128 = 4_294_967_295;
    assert_eq!(low.get_squared_distance(&high), 2 * side * side);
    assert_eq!(low.get_squared_distance(&zone(i32::MAX, i32::MIN)), side * side);
}

#[test]
fn length_from_origin() {
    assert_eq!(zone(3, 4).get_squared_length_from_origin(), 25);
    assert_eq!(zone(-6, 8).get_squared_length_from_origin(), 100);
    assert_eq!(zone(0, 0).get_squared_length_from_origin(), 0);
}

#[test]
fn furthest_of_no_candidates_is_the_sentinel() {
    let cur_zone = zone(2, 8);
    let found = cur_zone.bungee_slingshow_o2(&Vec::new());
    assert_eq!(found, Zone::default());
    assert_eq!(found, Zone { x: 0, y: 0, restriction: Restriction::new(0, 0, 0, 0), is_end_zone: false });
}

#[test]
fn furthest_keeps_the_first_of_equally_far_candidates() {
    let cur_zone = zone(0, 0);
    let first = Zone::new(3, 4, Restriction::new(1, 0, 0, 0));
    let second = Zone::new(-5, 0, Restriction::new(2, 0, 0, 0));
    let third = Zone::new(4, -3, Restriction::new(3, 0, 0, 0));
    assert_eq!(cur_zone.bungee_slingshow_o2(&vec![zone(1, 1), first, second, third]), first);
    assert_eq!(cur_zone.bungee_slingshow_o2(&vec![second, third, first]), second);
}

#[test]
fn furthest_of_one_candidate_is_that_candidate() {
    let only = Zone::new(2, 8, Restriction::new(9, 9, 9, 9));
    assert_eq!(zone(2, 8).bungee_slingshow_o2(&vec![only]), only);
}

#[test]
fn furthest_is_a_candidate_even_at_the_origin() {
    let origin = Zone::new(0, 0, Restriction::new(0, 0, 0, 1));
    let found = zone(5, 5).bungee_slingshow_o2(&vec![zone(3, 3), origin, zone(4, 4)]);
    assert_eq!(found, origin);
    assert_ne!(found, Zone::default());
}

#[test]
fn furthest_is_the_same_on_every_run() {
    let cur_zone = zone(2, 8);
    let zones = vec![zone(4, 7), zone(3, 4), zone(7, 3), zone(-3, 13)];
    let before = zones.clone();
    let first = cur_zone.bungee_slingshow_o2(&zones);
    let second = cur_zone.bungee_slingshow_o2(&zones);
    assert_eq!(first, second);
    assert_eq!(zones, before);
}
