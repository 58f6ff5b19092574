//! The digest primitive and the key stream that is built from it.

use vstd::prelude::*;
use vstd::utf8::encode_utf8;
use vstd::utf8::encode_scalar;
use crypto::digest::Digest;
use crypto::sha2::Sha256;
use crate::error::Error;
use crate::error::bytes_result;
use crate::settings::Settings;
use crate::util::concat_vec;

verus! {

/// Number of bytes in one digest.
pub const DIGEST_LEN: usize = 32;

/// Number of characters in the hex rendering of one digest.
pub const DIGEST_HEX_LEN: usize = 64;

/// The digest counts its input in bits in a 64-bit counter, so it takes
/// fewer than 2^61 bytes.
pub const DIGEST_INPUT_LIMIT: u64 = 0x2000_0000_0000_0000;

/// The lower-case hex rendering of the SHA-256 digest of `message`, as the
/// `crypto` crate computes it. It has no body: nothing here says what the
/// digest of a given message is, only that it depends on the message alone.
pub uninterp spec fn sha256_hex(message: Seq<u8>) -> Seq<char>;

/// Calls `Sha256::new`, `Digest::input` and `Digest::result_str` of the
/// `crypto` crate on a fresh digest object. Trusted, not proved: the text
/// returned is a function of the message alone, here named `sha256_hex`,
/// is 64 characters long, two for each of the 32 digest bytes, and holds
/// lower-case hex digits only, since `result_str` renders every half byte
/// from the table `0123456789abcdef`. `Digest::input` panics on 2^61 bytes
/// or more, which the precondition excludes.
#[verifier::external_body]
fn sha256_hex_digest(message: &Vec<u8>) -> (text: String)
    requires
        message@.len() < DIGEST_INPUT_LIMIT,
    ensures
        text@ == sha256_hex(message@),
        text@.len() == DIGEST_HEX_LEN,
        all_hex(text@),
{
    let mut sh = Sha256::new();
    sh.input(message.as_slice());
    sh.result_str()
}

/// The value of one lower-case hex digit, `None` for any other character.
pub open spec fn hex_value(c: char) -> Option<u8> {
    if '0' <= c <= '9' {
        Some((c as u8 - '0' as u8) as u8)
    } else if 'a' <= c <= 'f' {
        Some((c as u8 - 'a' as u8 + 10) as u8)
    } else {
        None
    }
}

/// Value of a hex digit of the digest alphabet `0-9a-f`.
pub fn chash_to_u8(c: char) -> (r: Result<u8, Error>)
    ensures
        r == match hex_value(c) {
            Some(v) => Ok::<u8, Error>(v),
            None => Err::<u8, Error>(Error::DigestAlphabetViolation),
        },
{
    match c {
        '0' => Ok(0),
        '1' => Ok(1),
        '2' => Ok(2),
        '3' => Ok(3),
        '4' => Ok(4),
        '5' => Ok(5),
        '6' => Ok(6),
        '7' => Ok(7),
        '8' => Ok(8),
        '9' => Ok(9),
        'a' => Ok(10),
        'b' => Ok(11),
        'c' => Ok(12),
        'd' => Ok(13),
        'e' => Ok(14),
        'f' => Ok(15),
        _ => Err(Error::DigestAlphabetViolation),
    }
}

/// Whether every character of `text` is a lower-case hex digit.
pub open spec fn all_hex(text: Seq<char>) -> bool {
    forall|i: int| 0 <= i < text.len() ==> (#[trigger] hex_value(text[i])) is Some
}

/// The byte written by the two hex digits at `2 * k` and `2 * k + 1`.
pub open spec fn hex_pair(text: Seq<char>, k: int) -> u8 {
    (hex_value(text[2 * k]).unwrap() * 16 + hex_value(text[2 * k + 1]).unwrap()) as u8
}

/// The bytes that a hex text writes, two digits per byte, the first digit
/// being the high half. A digit left over at the end is checked and dropped.
/// `None` if any character is no lower-case hex digit.
pub open spec fn hex_decode(text: Seq<char>) -> Option<Seq<u8>> {
    if all_hex(text) {
        Some(Seq::new(text.len() / 2, |k: int| hex_pair(text, k)))
    } else {
        None
    }
}

/// Turns the hex rendering of a digest back into raw bytes.
pub fn decode_hex(text: &str) -> (r: Result<Vec<u8>, Error>)
    ensures
        bytes_result(r) == match hex_decode(text@) {
            Some(bytes) => Ok::<Seq<u8>, Error>(bytes),
            None => Err::<Seq<u8>, Error>(Error::DigestAlphabetViolation),
        },
{
    let mut result: Vec<u8> = Vec::new();
    let mut last: u8 = 0;
    let mut odd: bool = false;
    for c in it: text.chars()
        invariant
            it.seq() == text@,
            forall|j: int| 0 <= j < it.index() ==> (#[trigger] hex_value(text@[j])) is Some,
            odd == (it.index() % 2 == 1),
            odd ==> hex_value(text@[it.index() - 1]) == Some(last),
            result@.len() == it.index() / 2,
            forall|k: int| 0 <= k < result@.len() ==> result@[k] == hex_pair(text@, k),
    {
        match chash_to_u8(c) {
            Err(e) => {
                return Err(e);
            },
            Ok(cur) => {
                if odd {
                    result.push(last * 16 + cur);
                } else {
                    last = cur;
                }
                odd = !odd;
            },
        }
    }
    proof {
        assert(result@ =~= hex_decode(text@).unwrap());
    }
    Ok(result)
}

/// Each byte read as the character with that code point.
pub open spec fn as_chars(bytes: Seq<u8>) -> Seq<char> {
    Seq::new(bytes.len(), |i: int| bytes[i] as char)
}

/// The text that is handed to the digest: every input byte is read as a
/// character, and the characters are written in UTF-8. Bytes below 0x80
/// stay as they are, the others become two bytes each.
pub open spec fn char_text(bytes: Seq<u8>) -> Seq<u8> {
    encode_utf8(as_chars(bytes))
}

/// Appending one character appends its encoding.
pub proof fn lemma_encode_utf8_push(chars: Seq<char>, c: char)
    ensures
        encode_utf8(chars.push(c)) == encode_utf8(chars) + encode_scalar(c as u32),
    decreases chars.len(),
{
    if chars.len() == 0 {
        assert(chars.push(c).drop_first() =~= chars);
        assert(encode_utf8(chars) =~= Seq::<u8>::empty());
        assert(encode_scalar(c as u32) + Seq::<u8>::empty() =~= encode_scalar(c as u32));
    } else {
        assert(chars.push(c).drop_first() =~= chars.drop_first().push(c));
        lemma_encode_utf8_push(chars.drop_first(), c);
        assert(encode_utf8(chars.push(c)) =~= encode_utf8(chars) + encode_scalar(c as u32));
    }
}

/// Writes every byte of `input` as the UTF-8 encoding of the character
/// with that code point.
pub fn char_text_bytes(input: &Vec<u8>) -> (text: Vec<u8>)
    ensures
        text@ == char_text(input@),
        input@.len() <= text@.len() <= 2 * input@.len(),
{
    let mut text: Vec<u8> = Vec::new();
    let n: usize = input.len();
    let mut i: usize = 0;
    assert(as_chars(input@.take(0)) =~= Seq::<char>::empty());
    while i < n
        invariant
            n == input@.len(),
            i <= n,
            text@ == char_text(input@.take(i as int)),
            i <= text@.len() <= 2 * i,
        decreases n - i,
    {
        let b: u8 = input[i];
        proof {
            let before = as_chars(input@.take(i as int));
            assert(as_chars(input@.take(i + 1)) =~= before.push(b as char));
            lemma_encode_utf8_push(before, b as char);
            let scalar: u32 = b as char as u32;
            assert(scalar == b);
            assert(b < 0x80 ==> (scalar & 0x7F) as u8 == b) by (bit_vector)
                requires
                    scalar == b,
            ;
            assert(b >= 0x80 ==> 0xC0u8 | ((scalar >> 6) & 0x1F) as u8 == 0xC0u8 | (b >> 6)
                && 0x80u8 | (scalar & 0x3F) as u8 == 0x80u8 | (b & 0x3F)) by (bit_vector)
                requires
                    scalar == b,
            ;
        }
        if b < 0x80 {
            text.push(b);
            assert(text@ =~= char_text(input@.take(i + 1)));
        } else {
            text.push(0xC0 | (b >> 6));
            text.push(0x80 | (b & 0x3F));
            assert(text@ =~= char_text(input@.take(i + 1)));
        }
        i += 1;
    }
    assert(input@.take(n as int) =~= input@);
    text
}

/// What `hash` returns on `input`: the digest bytes, read back from the
/// hex rendering of the digest of the input's character text.
pub open spec fn hash_spec(input: Seq<u8>) -> Result<Seq<u8>, Error> {
    let text = char_text(input);
    if text.len() >= DIGEST_INPUT_LIMIT {
        Err(Error::DigestInputTooLong)
    } else {
        match hex_decode(sha256_hex(text)) {
            Some(digest) => Ok(digest),
            None => Err(Error::DigestAlphabetViolation),
        }
    }
}

/// The digest of `input` as raw bytes.
pub fn hash(input: &Vec<u8>) -> (r: Result<Vec<u8>, Error>)
    ensures
        bytes_result(r) == hash_spec(input@),
        r is Ok <==> char_text(input@).len() < DIGEST_INPUT_LIMIT,
        2 * input@.len() < DIGEST_INPUT_LIMIT ==> r is Ok,
        r is Ok ==> r.unwrap()@.len() == DIGEST_LEN,
{
    let text = char_text_bytes(input);
    if text.len() as u64 >= DIGEST_INPUT_LIMIT {
        return Err(Error::DigestInputTooLong);
    }
    let rendered = sha256_hex_digest(&text);
    decode_hex(rendered.as_str())
}

/// The character text of `bytes` has between one and two bytes per byte.
pub proof fn lemma_char_text_len(bytes: Seq<u8>)
    ensures
        bytes.len() <= char_text(bytes).len() <= 2 * bytes.len(),
    decreases bytes.len(),
{
    if bytes.len() > 0 {
        assert(as_chars(bytes).drop_first() =~= as_chars(bytes.drop_first()));
        lemma_char_text_len(bytes.drop_first());
    }
}

/// Number of lanes whose bytes are combined into one key byte.
pub const CASCADE_ROUNDS: usize = 16;

/// Salt and password together must be shorter than this, so that no text
/// handed to the digest reaches `DIGEST_INPUT_LIMIT`.
pub const KEY_MATERIAL_LIMIT: u64 = 0x0800_0000_0000_0000;

/// Whether the cipher accepts this salt and password.
pub open spec fn key_material_fits(salt: Seq<u8>, password: Seq<u8>) -> bool {
    salt.len() + password.len() < KEY_MATERIAL_LIMIT
}

/// Lane `r` after `k` refreshes. It starts as the digest of salt, password
/// and the byte `r + 1`; each refresh replaces it by the digest of the salt
/// followed by the lane itself. `None` once a digest could not be read.
pub open spec fn lane(salt: Seq<u8>, password: Seq<u8>, r: int, k: nat) -> Option<Seq<u8>>
    decreases k,
{
    if k == 0 {
        match hash_spec(salt + password + seq![(r + 1) as u8]) {
            Ok(digest) => Some(digest),
            Err(_) => None,
        }
    } else {
        match lane(salt, password, r, (k - 1) as nat) {
            Some(previous) => match hash_spec(salt + previous) {
                Ok(digest) => Some(digest),
                Err(_) => None,
            },
            None => None,
        }
    }
}

/// Number of refreshes that `len` bytes of data take: one at the start of
/// every window of `DIGEST_LEN` bytes.
pub open spec fn windows(len: nat) -> nat {
    ((len + DIGEST_LEN - 1) / (DIGEST_LEN as int)) as nat
}

/// The bytes that the first `upto` lanes hold for position `i`, combined
/// by exclusive or.
pub open spec fn lanes_xor(salt: Seq<u8>, password: Seq<u8>, i: int, upto: nat) -> u8
    decreases upto,
{
    if upto == 0 {
        0u8
    } else {
        lanes_xor(salt, password, i, (upto - 1) as nat) ^ lane(
            salt,
            password,
            upto - 1,
            (i / (DIGEST_LEN as int) + 1) as nat,
        ).unwrap()[i % (DIGEST_LEN as int)]
    }
}

/// The key byte for position `i`. It depends on the position, not on the data.
pub open spec fn key_byte(salt: Seq<u8>, password: Seq<u8>, i: int) -> u8 {
    lanes_xor(salt, password, i, CASCADE_ROUNDS as nat)
}

/// Whether some lane cannot be computed up to refresh `k`.
pub open spec fn some_lane_fails(salt: Seq<u8>, password: Seq<u8>, k: nat) -> bool {
    exists|r: int| 0 <= r < CASCADE_ROUNDS && (#[trigger] lane(salt, password, r, k)) is None
}

/// The key stream cipher: every byte of `data` combined by exclusive or
/// with the key byte of its position.
pub open spec fn keystream_cipher(
    salt: Seq<u8>,
    password: Seq<u8>,
    data: Seq<u8>,
) -> Result<Seq<u8>, Error> {
    if !key_material_fits(salt, password) {
        Err(Error::DigestInputTooLong)
    } else if some_lane_fails(salt, password, windows(data.len())) {
        Err(Error::DigestAlphabetViolation)
    } else {
        Ok(Seq::new(data.len(), |i: int| data[i] ^ key_byte(salt, password, i)))
    }
}

/// Whether `cascade` holds the sixteen lanes as they are after `k` refreshes.
pub open spec fn lanes_are(
    cascade: Seq<Vec<u8>>,
    salt: Seq<u8>,
    password: Seq<u8>,
    k: nat,
) -> bool {
    &&& cascade.len() == CASCADE_ROUNDS
    &&& forall|r: int|
        #![trigger cascade[r]]
        #![trigger lane(salt, password, r, k)]
        0 <= r < CASCADE_ROUNDS ==> cascade[r]@.len() == DIGEST_LEN && lane(salt, password, r, k)
            == Some(cascade[r]@)
}

/// The sixteen lanes before the first refresh.
fn initial_lanes(salt: &Vec<u8>, password: &Vec<u8>) -> (r: Result<Vec<Vec<u8>>, Error>)
    requires
        key_material_fits(salt@, password@),
    ensures
        r is Ok,
        lanes_are(r.unwrap()@, salt@, password@, 0),
{
    let init = concat_vec(salt.clone(), password.clone());
    let mut cascade: Vec<Vec<u8>> = Vec::new();
    let mut x: usize = 0;
    while x < CASCADE_ROUNDS
        invariant
            x <= CASCADE_ROUNDS,
            key_material_fits(salt@, password@),
            init@ == salt@ + password@,
            cascade@.len() == x,
            forall|r: int|
                0 <= r < x ==> (#[trigger] cascade@[r])@.len() == DIGEST_LEN && lane(
                    salt@,
                    password@,
                    r,
                    0,
                ) == Some(cascade@[r]@),
        decreases CASCADE_ROUNDS - x,
    {
        let seed = concat_vec(init.clone(), vec![(x + 1) as u8]);
        proof {
            assert(seed@ =~= salt@ + password@ + seq![(x + 1) as u8]);
            lemma_char_text_len(seed@);
        }
        match hash(&seed) {
            Ok(digest) => {
                cascade.push(digest);
            },
            Err(e) => {
                return Err(e);
            },
        }
        x += 1;
    }
    Ok(cascade)
}

/// Replaces every lane by the digest of the salt followed by the lane.
fn refresh_lanes(
    salt: &Vec<u8>,
    cascade: &mut Vec<Vec<u8>>,
    Ghost(password): Ghost<Seq<u8>>,
    Ghost(k): Ghost<nat>,
) -> (r: Result<(), Error>)
    requires
        key_material_fits(salt@, password),
        lanes_are(old(cascade)@, salt@, password, k),
    ensures
        r is Ok,
        lanes_are(final(cascade)@, salt@, password, k + 1),
{
    let mut x: usize = 0;
    while x < CASCADE_ROUNDS
        invariant
            x <= CASCADE_ROUNDS,
            key_material_fits(salt@, password),
            cascade@.len() == CASCADE_ROUNDS,
            forall|r: int|
                0 <= r < CASCADE_ROUNDS ==> (#[trigger] cascade@[r])@.len() == DIGEST_LEN,
            forall|r: int|
                0 <= r < x ==> lane(salt@, password, r, k + 1) == Some((#[trigger] cascade@[r])@),
            forall|r: int|
                x <= r < CASCADE_ROUNDS ==> lane(salt@, password, r, k) == Some(
                    (#[trigger] cascade@[r])@,
                ),
        decreases CASCADE_ROUNDS - x,
    {
        let chained = concat_vec(salt.clone(), cascade[x].clone());
        proof {
            assert(chained@ =~= salt@ + cascade@[x as int]@);
            lemma_char_text_len(chained@);
        }
        match hash(&chained) {
            Ok(digest) => {
                cascade.set(x, digest);
            },
            Err(e) => {
                return Err(e);
            },
        }
        x += 1;
    }
    Ok(())
}

/// Applies the key stream of `salt` and `password` to `data`. Applying it
/// again to the result gives `data` back.
pub fn apply_keystream(salt: &Vec<u8>, password: &Vec<u8>, data: &Vec<u8>) -> (r: Result<
    Vec<u8>,
    Error,
>)
    ensures
        bytes_result(r) == keystream_cipher(salt@, password@, data@),
        r is Ok <==> key_material_fits(salt@, password@),
{
    if salt.len() as u64 >= KEY_MATERIAL_LIMIT || password.len() as u64 >= KEY_MATERIAL_LIMIT
        - salt.len() as u64 {
        return Err(Error::DigestInputTooLong);
    }
    let ghost total = windows(data@.len());
    let mut cascade = match initial_lanes(salt, password) {
        Ok(cascade) => cascade,
        Err(e) => {
            return Err(e);
        },
    };
    let hlen: usize = cascade[0].len();
    let mut result: Vec<u8> = Vec::new();
    let n: usize = data.len();
    let mut i: usize = 0;
    while i < n
        invariant
            n == data@.len(),
            i <= n,
            hlen == DIGEST_LEN,
            total == windows(data@.len()),
            key_material_fits(salt@, password@),
            lanes_are(cascade@, salt@, password@, windows(i as nat)),
            result@.len() == i,
            forall|j: int| 0 <= j < i ==> result@[j] == data@[j] ^ key_byte(salt@, password@, j),
        decreases n - i,
    {
        let hmod: usize = i % hlen;
        if hmod == 0 {
            match refresh_lanes(salt, &mut cascade, Ghost(password@), Ghost(windows(i as nat))) {
                Ok(_) => {},
                Err(e) => {
                    return Err(e);
                },
            }
        }
        let ghost k: nat = (i / DIGEST_LEN + 1) as nat;
        assert(lanes_are(cascade@, salt@, password@, k));
        assert(k == windows((i + 1) as nat));
        let c: u8 = data[i];
        let mut acc: u8 = c;
        let mut x: usize = 0;
        assert(c ^ 0u8 == c) by (bit_vector);
        while x < CASCADE_ROUNDS
            invariant
                x <= CASCADE_ROUNDS,
                i < n,
                hmod == (i as int) % (DIGEST_LEN as int),
                k == (i / DIGEST_LEN + 1) as nat,
                lanes_are(cascade@, salt@, password@, k),
                acc == c ^ lanes_xor(salt@, password@, i as int, x as nat),
            decreases CASCADE_ROUNDS - x,
        {
            let ghost before = lanes_xor(salt@, password@, i as int, x as nat);
            let lane_byte: u8 = cascade[x][hmod];
            assert((c ^ before) ^ lane_byte == c ^ (before ^ lane_byte)) by (bit_vector);
            acc = acc ^ lane_byte;
            x += 1;
        }
        result.push(acc);
        i += 1;
    }
    proof {
        assert(!some_lane_fails(salt@, password@, total));
        assert(result@ =~= Seq::new(data@.len(), |i: int| data@[i] ^ key_byte(salt@, password@, i)));
    }
    Ok(result)
}

/// The key stream cipher under the salt of `settings`.
pub open spec fn hxor_spec(
    settings: Settings,
    password: Seq<u8>,
    content: Seq<u8>,
) -> Result<Seq<u8>, Error> {
    keystream_cipher(settings.salt@, password, content)
}

/// Encrypts or decrypts `content` under the salt of `settings` and `password`.
pub fn hxor(settings: &Settings, password: &Vec<u8>, content: &Vec<u8>) -> (r: Result<
    Vec<u8>,
    Error,
>)
    ensures
        bytes_result(r) == hxor_spec(*settings, password@, content@),
        r is Ok <==> key_material_fits(settings.salt@, password@),
{
    apply_keystream(&settings.salt, password, content)
}

/// The marker that stands before the message of `password`.
pub open spec fn prefix_marker(settings: Settings, password: Seq<u8>) -> Result<Seq<u8>, Error> {
    keystream_cipher(settings.salt_prefix@, password, settings.salt_prefix@ + password)
}

/// The marker that stands behind the message of `password`.
pub open spec fn postfix_marker(settings: Settings, password: Seq<u8>) -> Result<Seq<u8>, Error> {
    keystream_cipher(settings.salt_postfix@, password, settings.salt_postfix@ + password)
}

/// Computes the prefix marker of `password`.
pub fn prefix_ident(settings: &Settings, password: &Vec<u8>) -> (r: Result<Vec<u8>, Error>)
    ensures
        bytes_result(r) == prefix_marker(*settings, password@),
        r is Ok <==> key_material_fits(settings.salt_prefix@, password@),
{
    let tag = concat_vec(settings.salt_prefix.clone(), password.clone());
    apply_keystream(&settings.salt_prefix, password, &tag)
}

/// Computes the postfix marker of `password`.
pub fn postfix_ident(settings: &Settings, password: &Vec<u8>) -> (r: Result<Vec<u8>, Error>)
    ensures
        bytes_result(r) == postfix_marker(*settings, password@),
        r is Ok <==> key_material_fits(settings.salt_postfix@, password@),
{
    let tag = concat_vec(settings.salt_postfix.clone(), password.clone());
    apply_keystream(&settings.salt_postfix, password, &tag)
}

/// The cipher is its own inverse: applied to its own output, under the
/// same salt and password, it gives the data back.
pub proof fn lemma_cipher_involution(salt: Seq<u8>, password: Seq<u8>, data: Seq<u8>)
    requires
        keystream_cipher(salt, password, data) is Ok,
    ensures
        keystream_cipher(salt, password, keystream_cipher(salt, password, data).unwrap()) == Ok::<
            Seq<u8>,
            Error,
        >(data),
{
    let once = keystream_cipher(salt, password, data).unwrap();
    assert(once.len() == data.len());
    let twice = keystream_cipher(salt, password, once).unwrap();
    assert forall|i: int| 0 <= i < data.len() implies twice[i] == data[i] by {
        let d = data[i];
        let key = key_byte(salt, password, i);
        assert((d ^ key) ^ key == d) by (bit_vector);
    }
    assert(twice =~= data);
}

/// Each marker is as long as its salt and the password together.
pub proof fn lemma_marker_lengths(settings: Settings, password: Seq<u8>)
    ensures
        prefix_marker(settings, password) is Ok ==> prefix_marker(settings, password).unwrap().len()
            == settings.salt_prefix@.len() + password.len(),
        postfix_marker(settings, password) is Ok ==> postfix_marker(
            settings,
            password,
        ).unwrap().len() == settings.salt_postfix@.len() + password.len(),
{
}

/// The output of the cipher is as long as its input.
pub proof fn lemma_cipher_keeps_length(salt: Seq<u8>, password: Seq<u8>, data: Seq<u8>)
    requires
        keystream_cipher(salt, password, data) is Ok,
    ensures
        keystream_cipher(salt, password, data).unwrap().len() == data.len(),
{
}

} // verus!
