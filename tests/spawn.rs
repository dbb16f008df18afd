use rme_raster::spawn::{compute_spawn_entry_names, SpawnAreaPayload};

#[test]
fn returns_names_at_cursor() {
    let payload = vec![SpawnAreaPayload {
        x: 100,
        y: 200,
        z: 7,
        radius: 4,
        entries: vec![
            ("Dragon".to_string(), 0, 0),
            ("Demon".to_string(), 1, 0),
            ("Warlock".to_string(), 0, 1),
        ],
    }];
    let names = compute_spawn_entry_names(&payload, 100, 200, 7);
    assert_eq!(names, vec!["Dragon".to_string()]);
}

#[test]
fn respects_floor_and_radius() {
    let payload = vec![
        SpawnAreaPayload {
            x: 100,
            y: 200,
            z: 6,
            radius: 8,
            entries: vec![("WrongFloor".to_string(), 0, 0)],
        },
        SpawnAreaPayload {
            x: 100,
            y: 200,
            z: 7,
            radius: 1,
            entries: vec![("TooFar".to_string(), 0, 0)],
        },
    ];
    let names = compute_spawn_entry_names(&payload, 103, 203, 7);
    assert!(names.is_empty());
}

#[test]
fn first_area_with_names_wins() {
    let payload = vec![
        SpawnAreaPayload {
            x: 0,
            y: 0,
            z: 0,
            radius: 5,
            entries: vec![("Rat".to_string(), 9, 9)],
        },
        SpawnAreaPayload {
            x: 1,
            y: 1,
            z: 0,
            radius: 2,
            entries: vec![("Orc".to_string(), 1, 1), ("Troll".to_string(), 1, 1)],
        },
        SpawnAreaPayload {
            x: 2,
            y: 2,
            z: 0,
            radius: 2,
            entries: vec![("Cyclops".to_string(), 0, 0)],
        },
    ];
    let names = compute_spawn_entry_names(&payload, 2, 2, 0);
    assert_eq!(names, vec!["Orc".to_string(), "Troll".to_string()]);
}

#[test]
fn negative_radius_covers_only_center() {
    let payload = vec![SpawnAreaPayload {
        x: i64::MAX,
        y: i64::MIN,
        z: 1,
        radius: -3,
        entries: vec![("Ghost".to_string(), 0, 0)],
    }];
    assert_eq!(
        compute_spawn_entry_names(&payload, i64::MAX, i64::MIN, 1),
        vec!["Ghost".to_string()]
    );
    assert!(compute_spawn_entry_names(&payload, i64::MIN, i64::MAX, 1).is_empty());
}
