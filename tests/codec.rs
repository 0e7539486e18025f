use base85::{decode, encode, Error};

#[test]
fn test_encode_decode() {
    // Each pair holds the unencoded data and its encoding.
    let testlist = [
        ("a", "VE"),
        ("aa", "VPO"),
        ("aaa", "VPRn"),
        ("aaaa", "VPRom"),
        ("aaaaa", "VPRomVE"),
        ("aaaaaa", "VPRomVPO"),
        ("aaaaaaa", "VPRomVPRn"),
        ("aaaaaaaa", "VPRomVPRom"),
    ];

    for test in testlist.iter() {
        let s = encode(test.0.as_bytes());
        assert_eq!(s, test.1, "encoder test failed: wanted: {}, got: {}", test.0, s);

        let b = decode(test.1)
            .unwrap_or_else(|e| panic!("decoder test error on input {}: {:?}", test.1, e));

        let s = String::from_utf8(b).unwrap_or_else(|e| {
            panic!("decoder test '{}' failed to convert to string: {:#?}", test.1, e)
        });

        assert_eq!(test.0, s, "decoder data mismatch: wanted: {}, got: {}", test.0, s);
    }
}

#[test]
fn empty_input() {
    assert_eq!(encode(&[]), "");
    assert_eq!(decode(""), Ok(Vec::new()));
}

#[test]
fn whitespace_only_decodes_to_nothing() {
    assert_eq!(decode(" \t\r\n"), Ok(Vec::new()));
}

#[test]
fn round_trip_all_byte_values() {
    let data: Vec<u8> = (0..=255u8).collect();
    for len in 0..data.len() {
        let text = encode(&data[..len]);
        assert_eq!(decode(&text), Ok(data[..len].to_vec()));
    }
}

#[test]
fn round_trip_extreme_bytes() {
    for len in 0..12 {
        let ones = vec![0xffu8; len];
        assert_eq!(decode(&encode(&ones)), Ok(ones.clone()));
        let zeros = vec![0u8; len];
        assert_eq!(decode(&encode(&zeros)), Ok(zeros.clone()));
    }
}

#[test]
fn encoding_uses_alphabet_only() {
    let alphabet = "0123456789ABCDEFGHIJKLMNOPQRSTUVWXYZabcdefghijklmnopqrstuvwxyz!#$%&()*+-;<=>?@^_`{|}~";
    let data: Vec<u8> = (0..=255u8).rev().collect();
    let text = encode(&data);
    assert!(text.chars().all(|c| alphabet.contains(c)));
}

#[test]
fn length_law() {
    let tail = [0usize, 2, 3, 4];
    for len in 0..40 {
        let data = vec![0x5au8; len];
        assert_eq!(encode(&data).len(), (len / 4) * 5 + tail[len % 4]);
    }
}

#[test]
fn whitespace_is_ignored() {
    assert_eq!(decode(" V P\tR\ro\nm V E "), decode("VPRomVE"));
    assert_eq!(decode("VPR\nomVE"), Ok(b"aaaaa".to_vec()));
}

#[test]
fn lone_trailing_symbol_fails() {
    assert_eq!(decode("V"), Err(Error::UnexpectedEof));
    assert_eq!(decode("VPRomV"), Err(Error::UnexpectedEof));
    assert_eq!(decode("VPRom \n V"), Err(Error::UnexpectedEof));
}

#[test]
fn invalid_character_fails() {
    assert_eq!(decode("VE,"), Err(Error::InvalidCharacter(b',')));
    assert_eq!(decode("VPRom."), Err(Error::InvalidCharacter(b'.')));
}

#[test]
fn first_invalid_character_wins() {
    assert_eq!(decode(",V"), Err(Error::InvalidCharacter(b',')));
    assert_eq!(decode("VPRomV\""), Err(Error::InvalidCharacter(b'"')));
    assert_eq!(decode("\"'"), Err(Error::InvalidCharacter(b'"')));
}

#[test]
fn non_ascii_input_fails_on_its_first_byte() {
    assert_eq!(decode("VE\u{e9}"), Err(Error::InvalidCharacter(0xc3)));
}

#[test]
fn exact_group_values() {
    assert_eq!(encode(&[0, 0, 0, 0]), "00000");
    assert_eq!(encode(&[0xff, 0xff, 0xff, 0xff]), "|NsC0");
    assert_eq!(encode(&[0, 0, 0, 1]), "00001");
    assert_eq!(encode(&[0, 0, 0, 85]), "00010");
    assert_eq!(decode("|NsC0"), Ok(vec![0xff, 0xff, 0xff, 0xff]));
}

#[test]
fn group_above_32_bits_keeps_low_bits() {
    // "~~~~~" stands for 85^5 - 1, which needs more than 32 bits; its low 32 bits come out.
    let v: u64 = 85u64.pow(5) - 1;
    let low = (v % (1u64 << 32)) as u32;
    assert_eq!(decode("~~~~~"), Ok(low.to_be_bytes().to_vec()));
}

#[test]
fn every_symbol_decodes_to_its_value() {
    let alphabet = "0123456789ABCDEFGHIJKLMNOPQRSTUVWXYZabcdefghijklmnopqrstuvwxyz!#$%&()*+-;<=>?@^_`{|}~";
    for (v, c) in alphabet.chars().enumerate() {
        let text: String = ['0', '0', '0', '0', c].iter().collect();
        assert_eq!(decode(&text), Ok((v as u32).to_be_bytes().to_vec()));
    }
}
