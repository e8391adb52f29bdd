use panorama_tiler::b83::encode;

#[test]
fn test_b83_single_values() {
    assert_eq!(encode(&[0], 1), "0");
    assert_eq!(encode(&[5], 1), "5");
    assert_eq!(encode(&[82], 1), "~");
}

#[test]
fn test_b83_padded_values() {
    // 100 // 83 = 1 ('1'), 100 % 83 = 17 ('H')
    assert_eq!(encode(&[100], 2), "1H");
}

#[test]
fn b83_concatenates_values() {
    assert_eq!(encode(&[1, 2, 3], 1), "123");
    assert_eq!(encode(&[0, 82], 2), "000~");
    assert_eq!(encode(&[], 3), "");
    assert_eq!(encode(&[7], 0), "");
}

#[test]
fn b83_drops_high_digits() {
    // 83 needs two digits; with one only the low digit (0) remains.
    assert_eq!(encode(&[83], 1), "0");
    assert_eq!(encode(&[83], 2), "10");
}

#[test]
fn b83_alphabet_order() {
    let alphabet = "0123456789ABCDEFGHIJKLMNOPQRSTUVWXYZabcdefghijklmnopqrstuvwxyz#$%*+,-.:;=?@[]^_{|}~";
    let vals: Vec<u32> = (0..83).collect();
    assert_eq!(encode(&vals, 1), alphabet);
}

fn decode(s: &str) -> u64 {
    let alphabet = "0123456789ABCDEFGHIJKLMNOPQRSTUVWXYZabcdefghijklmnopqrstuvwxyz#$%*+,-.:;=?@[]^_{|}~";
    s.chars()
        .fold(0u64, |acc, c| acc * 83 + alphabet.find(c).unwrap() as u64)
}

#[test]
fn b83_round_trip_below_power() {
    for &(v, len) in &[(0u32, 1usize), (82, 1), (100, 2), (6888, 2), (571786, 3), (u32::MAX, 6)] {
        let s = encode(&[v], len);
        assert_eq!(s.chars().count(), len);
        assert_eq!(decode(&s), v as u64);
    }
}

#[test]
fn b83_blocks_decode_to_values() {
    let vals = [3u32, 4000, 17, 6888];
    let s = encode(&vals, 2);
    let chars: Vec<char> = s.chars().collect();
    assert_eq!(chars.len(), 8);
    for (k, &v) in vals.iter().enumerate() {
        let block: String = chars[2 * k..2 * k + 2].iter().collect();
        assert_eq!(decode(&block), v as u64);
    }
}

#[test]
fn b83_encoding_a_concatenation() {
    let a = [5u32, 6000, 82];
    let b = [0u32, 123456];
    for length in 0..=4 {
        let whole = encode(&[&a[..], &b[..]].concat(), length);
        assert_eq!(whole, encode(&a, length) + &encode(&b, length));
    }
}
