use plause::manifest::parse_manifest;
use plause::manifest::render_manifest;
use plause::manifest::split_lines;
use plause::mode::get_mode;
use plause::mode::Mode;
use plause::naming::output_name;

fn bytes(text: &str) -> Vec<u8> {
    text.as_bytes().to_vec()
}

#[test]
fn a_manifest_is_the_salt_and_one_password_per_line() {
    let text = render_manifest(&bytes("abc"), &vec![bytes("secret1"), bytes("secret2")]);
    assert_eq!(text, bytes("abc\nsecret1\nsecret2\n"));
    assert_eq!(render_manifest(&bytes("abc"), &Vec::new()), bytes("abc\n"));
    assert_eq!(render_manifest(&Vec::new(), &vec![Vec::new()]), bytes("\n\n"));
}

#[test]
fn a_manifest_is_read_back() {
    let manifest = parse_manifest(&bytes("abc\nsecret1\nsecret2\n")).unwrap();
    assert_eq!(manifest.salt, bytes("abc"));
    assert_eq!(manifest.passwords, vec![bytes("secret1"), bytes("secret2")]);
}

#[test]
fn a_manifest_written_and_read_is_the_same() {
    let salt = bytes("saltysaltsalt");
    let passwords = vec![bytes("one"), Vec::new(), bytes("three 3"), vec![0u8, 255, 13]];
    let manifest = parse_manifest(&render_manifest(&salt, &passwords)).unwrap();
    assert_eq!(manifest.salt, salt);
    assert_eq!(manifest.passwords, passwords);
}

#[test]
fn a_manifest_needs_two_lines() {
    assert!(parse_manifest(&Vec::new()).is_none());
    assert!(parse_manifest(&bytes("abc")).is_none());
    assert!(parse_manifest(&bytes("abc\n")).is_none());
    assert!(parse_manifest(&bytes("\n")).is_none());
    assert!(parse_manifest(&bytes("abc\nx")).is_some());
    assert!(parse_manifest(&bytes("\n\n")).is_some());
}

#[test]
fn the_last_line_of_a_manifest_may_lack_its_newline() {
    let manifest = parse_manifest(&bytes("abc\nsecret1\nsecret2")).unwrap();
    assert_eq!(manifest.salt, bytes("abc"));
    assert_eq!(manifest.passwords, vec![bytes("secret1"), bytes("secret2")]);
}

#[test]
fn lines_end_at_newlines() {
    assert_eq!(split_lines(&Vec::new()), Vec::<Vec<u8>>::new());
    assert_eq!(split_lines(&bytes("a")), vec![bytes("a")]);
    assert_eq!(split_lines(&bytes("a\n")), vec![bytes("a")]);
    assert_eq!(split_lines(&bytes("\n")), vec![bytes("")]);
    assert_eq!(split_lines(&bytes("\n\na")), vec![bytes(""), bytes(""), bytes("a")]);
    assert_eq!(split_lines(&bytes("ab\ncd\n\nef")), vec![bytes("ab"), bytes("cd"), bytes(""), bytes("ef")]);
    assert_eq!(split_lines(&bytes("a\r\nb")), vec![bytes("a\r"), bytes("b")]);
}

#[test]
fn help_wins_over_every_other_mode() {
    assert_eq!(get_mode(true, true, true, true, true), Mode::Help);
    assert_eq!(get_mode(true, false, false, false, false), Mode::Help);
    assert_eq!(get_mode(false, false, false, false, false), Mode::Help);
}

#[test]
fn modes_follow_their_order() {
    assert_eq!(get_mode(false, true, true, true, true), Mode::Version);
    assert_eq!(get_mode(false, false, true, true, true), Mode::Interactive);
    assert_eq!(get_mode(false, false, false, true, true), Mode::Encrypt);
    assert_eq!(get_mode(false, false, false, false, true), Mode::Decrypt);
    assert_eq!(get_mode(false, true, false, false, false), Mode::Version);
    assert_eq!(get_mode(false, false, true, false, false), Mode::Interactive);
    assert_eq!(get_mode(false, false, false, true, false), Mode::Encrypt);
}

#[test]
fn a_single_message_goes_to_the_base_name() {
    assert_eq!(output_name("output.dec", 0, 1), "output.dec");
    assert_eq!(output_name("", 0, 1), "");
}

#[test]
fn several_messages_are_numbered() {
    assert_eq!(output_name("output.dec", 0, 2), "output.dec.0");
    assert_eq!(output_name("output.dec", 1, 2), "output.dec.1");
    assert_eq!(output_name("out", 10, 12), "out.10");
    assert_eq!(output_name("out", 907, 1000), "out.907");
    assert_eq!(output_name("d\u{e9}c", 1234567890, 0), "d\u{e9}c.1234567890");
    assert_eq!(output_name("x", usize::MAX, 3), format!("x.{}", usize::MAX));
}
