use passgen::{entropy_bytes, generate, passwords_from_draw, passwords_from_entropy, PasswordError};

#[test]
fn digits_are_read_least_significant_first() {
    let charset = vec![b'a', b'b'];
    assert_eq!(passwords_from_entropy(&charset, &vec![5], 3, 1), vec!["bab".to_string()]);
    assert_eq!(
        passwords_from_entropy(&charset, &vec![5], 2, 2),
        vec!["ba".to_string(), "ba".to_string()]
    );
}

#[test]
fn base_three_expansion() {
    let charset = vec![b'x', b'y', b'z'];
    assert_eq!(passwords_from_entropy(&charset, &vec![10], 4, 1), vec!["yxyx".to_string()]);
}

#[test]
fn entropy_is_little_endian() {
    let charset = vec![b'a', b'b'];
    assert_eq!(
        passwords_from_entropy(&charset, &vec![0, 1], 9, 1),
        vec!["aaaaaaaab".to_string()]
    );
}

#[test]
fn single_symbol_charset() {
    let charset = vec![b'q'];
    assert_eq!(
        passwords_from_entropy(&charset, &vec![0xff, 0xff], 3, 2),
        vec!["qqq".to_string(), "qqq".to_string()]
    );
}

#[test]
fn default_charset_output_shape() {
    let out = generate(None, 24, 5).unwrap();
    assert_eq!(out.len(), 5);
    for p in &out {
        assert_eq!(p.len(), 24);
        assert!(p.bytes().all(|b| (0x20..=0x7e).contains(&b)));
    }
}

#[test]
fn output_stays_within_the_charset() {
    let spec = "a-f\\-".to_string();
    let out = generate(Some(&spec), 16, 8).unwrap();
    assert_eq!(out.len(), 8);
    for p in &out {
        assert_eq!(p.len(), 16);
        assert!(p.bytes().all(|b| b"abcdef-".contains(&b)));
    }
}

#[test]
fn one_character_from_two() {
    let spec = "ab".to_string();
    let out = generate(Some(&spec), 1, 1).unwrap();
    assert_eq!(out.len(), 1);
    assert!(out[0] == "a" || out[0] == "b");
}

#[test]
fn specification_errors_reach_the_caller() {
    let spec = "a-".to_string();
    assert!(matches!(generate(Some(&spec), 4, 1), Err(PasswordError::UnterminatedRange)));
}

#[test]
fn characters_are_close_to_uniform() {
    let spec = "abcd".to_string();
    let mut counts = [0usize; 4];
    for _ in 0..2000 {
        let out = generate(Some(&spec), 1, 1).unwrap();
        let b = out[0].as_bytes()[0];
        counts[(b - b'a') as usize] += 1;
    }
    for c in counts {
        assert!(c > 350 && c < 650, "counts {:?}", counts);
    }
}

#[test]
fn entropy_size_follows_bits_of_power_minus_one() {
    assert_eq!(entropy_bytes(2, 7), 1);
    assert_eq!(entropy_bytes(2, 8), 2);
    assert_eq!(entropy_bytes(95, 24), 20);
    assert_eq!(entropy_bytes(1, 5), 1);
    assert_eq!(entropy_bytes(16, 2), 2);
}

#[test]
fn drawn_bytes_give_the_passwords() {
    let charset = vec![b'a', b'b'];
    let out = passwords_from_draw(&charset, Ok(vec![5]), 3, 1).unwrap();
    assert_eq!(out, vec!["bab".to_string()]);
}

#[test]
fn failed_draw_is_the_entropy_error() {
    let charset = vec![b'a', b'b'];
    let r = passwords_from_draw(&charset, Err(rand::Error::new("source unavailable")), 3, 1);
    match r {
        Err(PasswordError::Entropy(e)) => assert!(e.to_string().contains("source unavailable")),
        other => panic!("unexpected {:?}", other),
    }
}
