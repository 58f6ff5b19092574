use plause::error::Error;
use plause::hash::apply_keystream;
use plause::hash::char_text_bytes;
use plause::hash::chash_to_u8;
use plause::hash::decode_hex;
use plause::hash::hash;
use plause::hash::hxor;
use plause::hash::postfix_ident;
use plause::hash::prefix_ident;
use plause::settings::Settings;

fn bytes(text: &str) -> Vec<u8> {
    text.as_bytes().to_vec()
}

fn hex(digest: &[u8]) -> String {
    let mut text = String::new();
    for b in digest {
        text.push_str(&format!("{:02x}", b));
    }
    text
}

#[test]
fn hash_of_abc_is_its_sha256() {
    let digest = hash(&bytes("abc")).unwrap();
    assert_eq!(digest.len(), 32);
    assert_eq!(hex(&digest), "ba7816bf8f01cfea414140de5dae2223b00361a396177a9cb410ff61f20015ad");
}

#[test]
fn hash_of_nothing_is_the_sha256_of_nothing() {
    let digest = hash(&Vec::new()).unwrap();
    assert_eq!(hex(&digest), "e3b0c44298fc1c149afbf4c8996fb92427ae41e4649b934ca495991b7852b855");
}

#[test]
fn hash_reads_high_bytes_as_characters() {
    let digest = hash(&vec![0xffu8]).unwrap();
    assert_eq!(hex(&digest), "ea47fa96cf6d727d3068913da9193fef44aec4ee2c5972e9ac50cf7d637a56cf");
    let digest = hash(&vec![0x41u8, 0x80, 0xff]).unwrap();
    assert_eq!(hex(&digest), "f7872228ebf48d29ffe1160cc43bcf15d72754d4b1ed2de09201d48aaa4fdc92");
}

#[test]
fn hash_is_the_same_on_every_call() {
    let input = bytes("the same input");
    assert_eq!(hash(&input), hash(&input));
}

#[test]
fn char_text_keeps_low_bytes_and_doubles_high_bytes() {
    assert_eq!(char_text_bytes(&Vec::new()), Vec::<u8>::new());
    assert_eq!(
        char_text_bytes(&vec![0x41u8, 0x7f, 0x80, 0xbf, 0xc0, 0xff]),
        vec![65u8, 127, 194, 128, 194, 191, 195, 128, 195, 191]
    );
    let text = "caf\u{e9}";
    let latin1 = vec![0x63u8, 0x61, 0x66, 0xe9];
    assert_eq!(char_text_bytes(&latin1), text.as_bytes().to_vec());
}

#[test]
fn every_hex_digit_has_its_value() {
    let digits = "0123456789abcdef";
    for (value, c) in digits.chars().enumerate() {
        assert_eq!(chash_to_u8(c), Ok(value as u8));
    }
}

#[test]
fn other_characters_are_no_hex_digits() {
    for c in ['g', 'A', 'F', ' ', '/', ':', '`', '\u{e9}', '\u{ff10}'] {
        assert_eq!(chash_to_u8(c), Err(Error::DigestAlphabetViolation));
    }
}

#[test]
fn decode_hex_reads_two_digits_per_byte() {
    assert_eq!(decode_hex(""), Ok(Vec::new()));
    assert_eq!(decode_hex("00ff10a5"), Ok(vec![0u8, 255, 16, 165]));
    assert_eq!(decode_hex("7"), Ok(Vec::new()));
    assert_eq!(decode_hex("abc"), Ok(vec![0xabu8]));
}

#[test]
fn decode_hex_refuses_text_outside_the_alphabet() {
    assert_eq!(decode_hex("0g"), Err(Error::DigestAlphabetViolation));
    assert_eq!(decode_hex("AB"), Err(Error::DigestAlphabetViolation));
    assert_eq!(decode_hex("abz"), Err(Error::DigestAlphabetViolation));
    assert_eq!(decode_hex("12 4"), Err(Error::DigestAlphabetViolation));
}

#[test]
fn key_stream_of_a_short_message() {
    let out = apply_keystream(&bytes("abc"), &bytes("secret1"), &bytes("hello"));
    assert_eq!(out, Ok(vec![226u8, 137, 123, 146, 153]));
}

#[test]
fn key_stream_across_a_window_boundary() {
    let data: Vec<u8> = (0u8..40).collect();
    let out = apply_keystream(&bytes("salt"), &bytes("pw"), &data);
    assert_eq!(
        out,
        Ok(vec![
            249u8, 41, 84, 161, 226, 189, 71, 124, 156, 155, 75, 183, 15, 130, 101, 109, 171, 32,
            2, 37, 75, 248, 192, 80, 8, 138, 81, 101, 101, 225, 147, 179, 228, 239, 47, 99, 56,
            123, 170, 127
        ])
    );
}

#[test]
fn key_stream_with_empty_salt_and_password() {
    let out = apply_keystream(&Vec::new(), &Vec::new(), &vec![0u8; 33]);
    assert_eq!(
        out,
        Ok(vec![
            31u8, 26, 191, 104, 45, 25, 179, 42, 7, 206, 100, 25, 131, 230, 14, 150, 45, 187, 80,
            3, 109, 180, 37, 164, 71, 64, 215, 115, 63, 189, 215, 57, 100
        ])
    );
}

#[test]
fn key_stream_with_high_bytes_in_salt_and_password() {
    let out = apply_keystream(&vec![0xffu8, 0x80], &vec![0xe9u8], &vec![1u8, 2, 3]);
    assert_eq!(out, Ok(vec![174u8, 245, 240]));
}

#[test]
fn key_stream_of_nothing_is_nothing() {
    assert_eq!(apply_keystream(&bytes("abc"), &bytes("pw"), &Vec::new()), Ok(Vec::new()));
}

#[test]
fn key_stream_applied_twice_gives_the_data_back() {
    let salt = bytes("abc");
    let password = bytes("secret1");
    for len in [0usize, 1, 31, 32, 33, 64, 65, 200] {
        let data: Vec<u8> = (0..len).map(|i| (i * 7 + 3) as u8).collect();
        let once = apply_keystream(&salt, &password, &data).unwrap();
        assert_eq!(once.len(), len);
        let twice = apply_keystream(&salt, &password, &once).unwrap();
        assert_eq!(twice, data);
    }
}

#[test]
fn key_stream_is_the_same_on_every_call() {
    let salt = bytes("abc");
    let password = bytes("secret1");
    let data = bytes("some content that is longer than one window of the key stream");
    let first = apply_keystream(&salt, &password, &data);
    let second = apply_keystream(&salt, &password, &data);
    assert_eq!(first, second);
}

#[test]
fn key_stream_depends_on_position_not_on_data() {
    let salt = bytes("abc");
    let password = bytes("secret1");
    let a = apply_keystream(&salt, &password, &vec![0u8; 50]).unwrap();
    let b = apply_keystream(&salt, &password, &vec![0xffu8; 50]).unwrap();
    for i in 0..50 {
        assert_eq!(a[i] ^ b[i], 0xff);
    }
    let short = apply_keystream(&salt, &password, &vec![0u8; 10]).unwrap();
    assert_eq!(short[..], a[..10]);
}

#[test]
fn key_stream_differs_with_salt_and_password() {
    let data = vec![0u8; 32];
    let a = apply_keystream(&bytes("abc"), &bytes("secret1"), &data).unwrap();
    let b = apply_keystream(&bytes("abd"), &bytes("secret1"), &data).unwrap();
    let c = apply_keystream(&bytes("abc"), &bytes("secret2"), &data).unwrap();
    assert_ne!(a, data);
    assert_ne!(a, b);
    assert_ne!(a, c);
}

#[test]
fn hxor_uses_the_salt_of_the_settings() {
    let settings = Settings::new(1024, "abc");
    let out = hxor(&settings, &bytes("secret1"), &bytes("hello"));
    assert_eq!(out, Ok(vec![226u8, 137, 123, 146, 153]));
    assert_eq!(hxor(&settings, &bytes("secret1"), &out.unwrap()), Ok(bytes("hello")));
}

#[test]
fn prefix_marker_of_a_password() {
    let settings = Settings::new(1024, "abc");
    let marker = prefix_ident(&settings, &bytes("secret1"));
    assert_eq!(
        marker,
        Ok(vec![
            84u8, 231, 113, 60, 21, 218, 197, 173, 236, 37, 16, 243, 217, 167, 199, 229, 116, 227,
            35, 160, 92, 144, 84, 202, 159, 94, 150, 244, 40, 86, 102, 177, 92
        ])
    );
}

#[test]
fn postfix_marker_of_a_password() {
    let settings = Settings::new(1024, "abc");
    let marker = postfix_ident(&settings, &bytes("secret1"));
    assert_eq!(
        marker,
        Ok(vec![
            211u8, 182, 216, 65, 119, 204, 4, 23, 112, 207, 153, 209, 169, 96, 79, 224, 22, 144,
            157, 37, 96, 59, 67, 40, 144, 12, 181, 140, 30, 175, 18, 130, 37
        ])
    );
}

#[test]
fn markers_are_as_long_as_constant_salt_and_password() {
    let settings = Settings::new(64, "");
    assert_eq!(prefix_ident(&settings, &Vec::new()).unwrap().len(), 23);
    assert_eq!(postfix_ident(&settings, &Vec::new()).unwrap().len(), 23);
    let settings = Settings::new(64, "salty");
    assert_eq!(prefix_ident(&settings, &bytes("pass")).unwrap().len(), 23 + 5 + 4);
    assert_eq!(postfix_ident(&settings, &bytes("pass")).unwrap().len(), 23 + 5 + 4);
}
