use rand::RngCore;
use vstd::prelude::*;

verus! {

/// How many random bytes go into a bearer token: 512 bits of entropy,
/// so a collision between two issued tokens is negligible.
pub const TOKEN_BYTES: usize = 64;

/// The lowercase hexadecimal digit for `n` (0 to 15).
pub open spec fn hex_digit(n: int) -> char {
    if n < 10 {
        (48 + n) as char
    } else {
        (87 + n) as char
    }
}

pub open spec fn is_hex_char(c: char) -> bool {
    ('0' <= c <= '9') || ('a' <= c <= 'f')
}

/// The lowercase hex encoding of a byte string: two digits per byte.
pub open spec fn hex_of(bytes: Seq<u8>) -> Seq<char>
    decreases bytes.len(),
{
    if bytes.len() == 0 {
        Seq::empty()
    } else {
        seq![hex_digit(bytes.first() as int / 16), hex_digit(bytes.first() as int % 16)] + hex_of(
            bytes.drop_first(),
        )
    }
}

pub proof fn lemma_hex_of_len(bytes: Seq<u8>)
    ensures
        hex_of(bytes).len() == 2 * bytes.len(),
    decreases bytes.len(),
{
    if bytes.len() > 0 {
        lemma_hex_of_len(bytes.drop_first());
    }
}

pub proof fn lemma_hex_of_chars(bytes: Seq<u8>)
    ensures
        forall|i: int| 0 <= i < hex_of(bytes).len() ==> is_hex_char(#[trigger] hex_of(bytes)[i]),
    decreases bytes.len(),
{
    if bytes.len() > 0 {
        lemma_hex_of_chars(bytes.drop_first());
        let rest = hex_of(bytes.drop_first());
        let whole = hex_of(bytes);
        assert(bytes.first() as int / 16 < 16);
        assert(is_hex_char(hex_digit(bytes.first() as int / 16)));
        assert(is_hex_char(hex_digit(bytes.first() as int % 16)));
        assert forall|i: int| 0 <= i < whole.len() implies is_hex_char(#[trigger] whole[i]) by {
            if i >= 2 {
                assert(whole[i] == rest[i - 2]);
            } else {
                assert(whole[i] == seq![
                    hex_digit(bytes.first() as int / 16),
                    hex_digit(bytes.first() as int % 16),
                ][i]);
            }
        }
    }
}

/// Relies on `rand::thread_rng` and `RngCore::fill_bytes`: the buffer is
/// filled from the thread's CSPRNG. Nothing is promised of the values,
/// only of the count.
#[verifier::external_body]
fn random_bytes(len: usize) -> (r: Vec<u8>)
    ensures
        r@.len() == len,
{
    let mut buf = vec![0u8; len];
    rand::thread_rng().fill_bytes(&mut buf);
    buf
}

/// Relies on `hex::encode`: every byte becomes exactly two lowercase
/// hexadecimal digits, in order.
#[verifier::external_body]
fn hex_encode(data: &Vec<u8>) -> (r: String)
    ensures
        r@ == hex_of(data@),
{
    hex::encode(data.as_slice())
}

/// Relies on `uuid::Uuid::new_v4` and its `Display` form: a random UUID
/// rendered as the 36-character hyphenated string.
#[verifier::external_body]
pub fn new_uuid_string() -> (r: String)
    ensures
        r@.len() == 36,
{
    uuid::Uuid::new_v4().to_string()
}

/// A fresh bearer token: 64 random bytes, hex-encoded to 128 lowercase
/// hex characters.
pub fn create_token() -> (r: String)
    ensures
        r@.len() == 2 * TOKEN_BYTES,
        forall|i: int| 0 <= i < r@.len() ==> is_hex_char(#[trigger] r@[i]),
{
    let bytes = random_bytes(TOKEN_BYTES);
    let s = hex_encode(&bytes);
    proof {
        lemma_hex_of_len(bytes@);
        lemma_hex_of_chars(bytes@);
    }
    s
}

} // verus!
