use trellis::access::{generate_key, hex_encode, key_from_fill, rank_addresses};

#[test]
fn bytes_become_lower_case_hex() {
    assert_eq!(hex_encode(&vec![0u8, 255, 16, 0xab]), "00ff10ab");
    assert_eq!(hex_encode(&Vec::new()), "");
}

#[test]
fn a_new_key_is_forty_eight_hex_digits() {
    let k = generate_key().unwrap();
    assert_eq!(k.len(), 48);
    assert!(k.chars().all(|c| c.is_ascii_digit() || ('a'..='f').contains(&c)));
    let k2 = generate_key().unwrap();
    assert_ne!(k, k2);
}

#[test]
fn private_addresses_are_offered_first_once_each() {
    let probed = vec![
        (127, 0, 0, 1),
        (100, 64, 1, 2),
        (192, 168, 1, 5),
        (0, 0, 0, 0),
        (192, 168, 1, 5),
        (10, 0, 0, 3),
        (172, 32, 0, 1),
        (172, 16, 9, 9),
    ];
    assert_eq!(
        rank_addresses(&probed),
        vec![
            "192.168.1.5".to_string(),
            "10.0.0.3".to_string(),
            "172.16.9.9".to_string(),
            "100.64.1.2".to_string(),
            "172.32.0.1".to_string(),
        ]
    );
    assert!(rank_addresses(&Vec::new()).is_empty());
}

#[test]
fn a_key_is_made_only_from_a_successful_fill() {

    assert_eq!(key_from_fill(true, &vec![0u8, 0xab]), Some("00ab".to_string()));
    assert_eq!(key_from_fill(false, &vec![0u8, 0xab]), None);
}
