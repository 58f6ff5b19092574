use plause::item::Item;
use plause::settings::Settings;
use plause::settings::DEFAULT_POSTFIX_SALT;
use plause::settings::DEFAULT_PREFIX_SALT;

#[test]
fn settings_derive_both_salts_from_the_salt() {
    let settings = Settings::new(4096, "abc");
    assert_eq!(settings.blocksize, 4096);
    assert_eq!(settings.salt, b"abc".to_vec());
    assert_eq!(settings.salt_prefix, b"@7@llc05754261933$uFf3rabc".to_vec());
    assert_eq!(settings.salt_postfix, b"11419523LIMin@73pRiv@cYabc".to_vec());
    assert_ne!(settings.salt_prefix, settings.salt_postfix);
}

#[test]
fn settings_with_an_empty_salt_hold_the_constants() {
    let settings = Settings::new(1, "");
    assert_eq!(settings.salt, Vec::<u8>::new());
    assert_eq!(settings.salt_prefix, DEFAULT_PREFIX_SALT.as_bytes().to_vec());
    assert_eq!(settings.salt_postfix, DEFAULT_POSTFIX_SALT.as_bytes().to_vec());
}

#[test]
fn settings_take_the_salt_in_utf8() {
    let settings = Settings::new(10, "s\u{e9}l");
    assert_eq!(settings.salt, vec![0x73u8, 0xc3, 0xa9, 0x6c]);
}

#[test]
fn replacing_the_salt_replaces_the_derived_salts() {
    let mut settings = Settings::new(512, "first");
    settings.set_salt(vec![1u8, 2, 255]);
    assert_eq!(settings.blocksize, 512);
    assert_eq!(settings.salt, vec![1u8, 2, 255]);
    let mut prefix = DEFAULT_PREFIX_SALT.as_bytes().to_vec();
    prefix.extend_from_slice(&[1, 2, 255]);
    let mut postfix = DEFAULT_POSTFIX_SALT.as_bytes().to_vec();
    postfix.extend_from_slice(&[1, 2, 255]);
    assert_eq!(settings.salt_prefix, prefix);
    assert_eq!(settings.salt_postfix, postfix);
}

#[test]
fn an_item_holds_copies_of_password_and_content() {
    let password = b"pw".to_vec();
    let content = vec![0u8, 1, 2, 3];
    let item = Item::new(&password, &content);
    assert_eq!(item.password, password);
    assert_eq!(item.content, content);
}
