use consistent_hashing::{Ring, RingError, DEFAULT_POSITIONS_PER_SERVER};

#[test]
fn test_get_server_for_key() {
    let ring = Ring::from_entries(vec![(0, "A".to_string()), (128, "B".to_string())]).unwrap();

    for (key, want) in vec![
        ("world", "A"),
        ("some other key", "A"),
        ("ABCDEFGH", "A"),
        ("hello", "B"),
        ("consistent hashing", "B"),
    ] {
        let got = ring.get_server_for_key(key);
        assert_eq!(Ok(want.to_string()), got, "key: {}", key);
    }
}

#[test]
fn test_new_ring() {
    let got = Ring::new(vec!["Alice".into(), "Bob".into(), "Charlie".into()]).unwrap();
    let want = "16,Charlie\n25,Alice\n28,Alice\n35,Bob\n39,Charlie\n51,Bob\n57,Bob\n81,Bob\n\
                90,Alice\n99,Alice\n108,Charlie\n132,Charlie\n191,Alice\n206,Bob\n210,Charlie\n";

    assert_eq!(want, got.render());
}

#[test]
fn test_add_server_conflict() {
    let mut ring = Ring::new(vec!["Alice".into()]).unwrap();
    assert_eq!((1 * DEFAULT_POSITIONS_PER_SERVER) as usize, ring.len());

    // When inserting another server with conflicting keys (here, we're just
    // reusing the same server name, so all first 5 keys conflict), it should
    // still be able to insert the new server at 5 locations.

    ring.add_server("Alice".into()).unwrap();
    assert_eq!((2 * DEFAULT_POSITIONS_PER_SERVER) as usize, ring.len());
}

#[test]
fn test_cannot_add_server_to_full_ring() {
    let mut ring = Ring::new(vec![]).unwrap();

    let number_of_server_we_can_fit_in_the_ring = 255 / DEFAULT_POSITIONS_PER_SERVER as usize;
    for i in 0..number_of_server_we_can_fit_in_the_ring {
        ring.add_server(format!("Server number {}", i)).unwrap();
    }

    assert_eq!(
        Err(RingError::CapacityExceeded),
        ring.add_server("Another server".to_string())
    );
}

#[test]
fn test_display() {
    let ring = Ring::from_entries(vec![
        (203, "A".to_string()),
        (88, "A".to_string()),
        (10, "B".to_string()),
        (0, "B".to_string()),
        (137, "C".to_string()),
        (50, "C".to_string()),
    ])
    .unwrap();

    let want = r#"0,B
10,B
50,C
88,A
137,C
203,A
"#;

    assert_eq!(want, ring.render());
}

#[test]
fn test_lookup_deterministic() {
    let ring = Ring::new(vec!["Alice".into(), "Bob".into(), "Charlie".into()]).unwrap();
    for key in ["hello", "world", "", "another key"] {
        assert_eq!(ring.get_server_for_key(key), ring.get_server_for_key(key));
    }
}

#[test]
fn test_lookup_wraps_around() {
    // Only position 0 is occupied, so every key whose hash is above 0 must
    // wrap past 255 back to 0 to find its owner.
    let ring = Ring::from_entries(vec![(0, "A".to_string())]).unwrap();
    for key in ["0", "hello", "world", ""] {
        assert_eq!(Ok("A".to_string()), ring.get_server_for_key(key), "key: {}", key);
    }
}

#[test]
fn test_empty_ring_error() {
    let ring = Ring::new(vec![]).unwrap();
    assert_eq!(
        Err(RingError::EmptyRing),
        ring.get_server_for_key("anything")
    );
}

#[test]
fn test_placement_count() {
    let mut ring = Ring::new(vec!["Alice".into()]).unwrap();
    assert_eq!(5, ring.len());
    ring.add_server("Bob".into()).unwrap();
    assert_eq!(10, ring.len());
    let listing = ring.render();
    let bob_lines = listing.lines().filter(|line| line.ends_with(",Bob")).count();
    assert_eq!(5, bob_lines);
}

#[test]
fn test_full_ring_is_unchanged_by_rejected_add() {
    let mut ring = Ring::new(vec![]).unwrap();
    for i in 0..51 {
        ring.add_server(format!("Server number {}", i)).unwrap();
    }
    assert_eq!(255, ring.len());
    let before = ring.render();
    assert_eq!(
        Err(RingError::CapacityExceeded),
        ring.add_server("Another server".to_string())
    );
    assert_eq!(255, ring.len());
    assert_eq!(before, ring.render());
}

#[test]
fn test_end_to_end_scenario() {
    let ring = Ring::new(vec!["Alice".into(), "Bob".into(), "Charlie".into()]).unwrap();
    assert_eq!(15, ring.len());

    let listing = ring.render();
    let lines: Vec<&str> = listing.lines().collect();
    assert_eq!(15, lines.len());

    // Each server owns exactly 5 positions.
    for server in ["Alice", "Bob", "Charlie"] {
        let owned = lines
            .iter()
            .filter(|line| line.split(',').nth(1) == Some(server))
            .count();
        assert_eq!(5, owned, "server: {}", server);
    }

    // All positions are distinct: the listing is strictly ascending.
    let positions: Vec<u32> = lines
        .iter()
        .map(|line| line.split(',').next().unwrap().parse().unwrap())
        .collect();
    for pair in positions.windows(2) {
        assert!(pair[0] < pair[1]);
    }
}

#[test]
fn test_from_entries_rejects_duplicate_position() {
    assert!(Ring::from_entries(vec![(7, "A".to_string()), (7, "B".to_string())]).is_none());
}

#[test]
fn test_with_replicas() {
    let mut ring = Ring::with_replicas(2, vec!["X".into(), "Y".into()]).unwrap();
    assert_eq!(4, ring.len());
    ring.add_server("Z".into()).unwrap();
    assert_eq!(6, ring.len());
}

#[test]
fn test_remove_server() {
    let mut ring = Ring::new(vec!["Alice".into(), "Bob".into()]).unwrap();
    assert_eq!(10, ring.len());

    assert!(ring.remove_server("Alice".to_string()));
    assert_eq!(5, ring.len());
    let listing = ring.render();
    assert!(!listing.contains("Alice"));
    for key in ["hello", "world", "anything"] {
        assert_eq!(Ok("Bob".to_string()), ring.get_server_for_key(key));
    }

    assert!(!ring.remove_server("Alice".to_string()));
    assert_eq!(5, ring.len());
}

#[test]
fn test_error_messages() {
    let mut full = Ring::new(vec![]).unwrap();
    for i in 0..51 {
        full.add_server(format!("Server number {}", i)).unwrap();
    }
    let err = full.add_server("Another server".to_string()).unwrap_err();
    assert_eq!("The ring is already full", err.message());

    let empty = Ring::new(vec![]).unwrap();
    let err = empty.get_server_for_key("key").unwrap_err();
    assert_eq!("No servers available", err.message());
}

#[test]
fn test_render_empty_ring() {
    let ring = Ring::new(vec![]).unwrap();
    assert_eq!("", ring.render());
}
