//! Hashing, toy key pairs and signatures, and addresses.
use crypto::digest::Digest;
use crypto::sha2::Sha256;
use rustc_serialize::hex::ToHex;
use vstd::prelude::*;
use vstd::utf8::encode_utf8;
use vstd::utf8::is_char_boundary;
use rand::distributions::Alphanumeric;
use rand::{thread_rng, Rng};
use crate::text::{chars_of, push_str, string_from_chars};

verus! {

/// The SHA-256 digest of the UTF-8 encoding of `s`.
pub uninterp spec fn spec_sha256(s: Seq<char>) -> Seq<u8>;

/// The lowercase hexadecimal digits, by value.
pub open spec fn hex_digits() -> Seq<char> {
    seq!['0', '1', '2', '3', '4', '5', '6', '7', '8', '9', 'a', 'b', 'c', 'd', 'e', 'f']
}

/// Two lowercase hexadecimal digits per byte, the high half first.
pub open spec fn hex_encode(bytes: Seq<u8>) -> Seq<char> {
    Seq::new(
        2 * bytes.len(),
        |i: int|
            if i % 2 == 0 {
                hex_digits()[(bytes[i / 2] / 16) as int]
            } else {
                hex_digits()[(bytes[i / 2] % 16) as int]
            },
    )
}

/// rust-crypto's `Sha256`, fed with `input_str` and read with `result_str`.
/// Its source makes `result_str` the `to_hex` of the 32-byte digest, which is
/// what this states; the digest itself is only named (`spec_sha256`).
#[verifier::external_body]
fn sha256_hex(s: &str) -> (res: String)
    ensures
        res@ == hex_encode(spec_sha256(s@)),
        res@.len() == 64,
{
    let mut sh = Sha256::new();
    sh.input_str(s);
    sh.result_str()
}

/// rustc_serialize's `ToHex::to_hex` on a byte slice: per byte, the lowercase
/// hex digit of the high four bits, then that of the low four bits.
#[verifier::external_body]
fn to_hex(bytes: &[u8]) -> (res: String)
    ensures
        res@ == hex_encode(bytes@),
{
    bytes.to_hex()
}

/// What `hash` returns: the hex encoding of the (ASCII) hex string of the SHA-256 digest.
pub open spec fn spec_hash(s: Seq<char>) -> Seq<char> {
    hex_encode(encode_utf8(hex_encode(spec_sha256(s))))
}

/// Hashes `s`: SHA-256, written in hex, and that hex text written in hex once more.
pub fn hash(s: &str) -> (res: String)
    ensures
        res@ == spec_hash(s@),
        res@.len() == 128,
        forall|i: int| 0 <= i < 128 ==> '0' <= #[trigger] res@[i] <= '9',
{
    let h = sha256_hex(s);
    proof {
        lemma_hash_digits(s@);
    }
    to_hex(h.as_str().as_bytes())
}


/// Every character of a hash is a decimal digit, and a hash has 128 of them:
/// the inner hex text is ASCII `0-9a-f`, whose codes (0x30-0x39, 0x61-0x66)
/// are written with decimal digits only.
pub proof fn lemma_hash_digits(s: Seq<char>)
    requires
        spec_sha256(s).len() == 32,
    ensures
        spec_hash(s).len() == 128,
        forall|i: int| 0 <= i < 128 ==> '0' <= #[trigger] spec_hash(s)[i] <= '9',
{
    let d = spec_sha256(s);
    let h1 = hex_encode(d);
    assert forall|i: int| 0 <= i < h1.len() implies ('0' <= #[trigger] h1[i] <= '9' || 'a' <= h1[i] <= 'f') by {
        let b = d[i / 2];
        assert(0 <= b / 16 < 16 && 0 <= b % 16 < 16);
    }
    assert(vstd::utf8::is_ascii_chars(h1));
    vstd::utf8::is_ascii_chars_encode_utf8(h1);
    let bytes = encode_utf8(h1);
    assert(h1.len() == 64);
    assert forall|i: int| 0 <= i < bytes.len() implies ((0x30 <= #[trigger] bytes[i] <= 0x39) || (0x61 <= bytes[i] <= 0x66)) by {
        assert(h1[i] as u8 == bytes[i]);
    }
    assert forall|i: int| 0 <= i < 128 implies '0' <= #[trigger] spec_hash(s)[i] <= '9' by {
        let b = bytes[i / 2];
        assert((0x30 <= b <= 0x39) || (0x61 <= b <= 0x66));
    }
}

/// `n` random characters, each an ASCII letter or digit: rand's `Alphanumeric`
/// distribution sampled from `thread_rng`. Which characters come out is not stated.
#[verifier::external_body]
fn random_alphanumeric(n: usize) -> (res: String)
    ensures
        res@.len() == n,
        forall|i: int| 0 <= i < n ==> is_alphanumeric(#[trigger] res@[i]),
{
    thread_rng().sample_iter(&Alphanumeric).take(n).map(char::from).collect()
}

/// An ASCII letter or digit.
pub open spec fn is_alphanumeric(c: char) -> bool {
    ('a' <= c <= 'z') || ('A' <= c <= 'Z') || ('0' <= c <= '9')
}

/// The length of a private key.
pub const PRIVATE_KEY_LEN: usize = 30;

/// A fresh (private, public) key pair: the private key is 30 random letters
/// and digits, the public key is the private key followed by `!`.
pub fn generateKeypair() -> (res: (String, String))
    ensures
        res.0@.len() == PRIVATE_KEY_LEN,
        forall|i: int| 0 <= i < PRIVATE_KEY_LEN ==> is_alphanumeric(#[trigger] res.0@[i]),
        res.1@ == res.0@.push('!'),
{
    let priv_key = random_alphanumeric(PRIVATE_KEY_LEN);
    let mut cs = chars_of(priv_key.as_str());
    cs.push('!');
    let pub_key = string_from_chars(cs.as_slice());
    (priv_key, pub_key)
}

/// The signature of `msg` under `priv_key`: the key followed by the message.
pub fn sign(priv_key: &str, msg: &str) -> (res: String)
    ensures
        res@ == priv_key@ + msg@,
{
    let mut cs = chars_of(priv_key);
    push_str(&mut cs, msg);
    string_from_chars(cs.as_slice())
}

/// Whether `verifySignature` can run on these keys without a panic: the
/// signature splits after its 30th byte, and, where the message matches, the
/// public key splits before its last byte.
pub open spec fn signature_checkable(pub_key: Seq<char>, msg: Seq<char>, sig: Seq<char>) -> bool {
    let sb = encode_utf8(sig);
    let pb = encode_utf8(pub_key);
    &&& is_char_boundary(sb, 30)
    &&& sb.subrange(30, sb.len() as int) == encode_utf8(msg) ==> (pb.len() >= 1 && is_char_boundary(pb, pb.len() - 1))
}

/// A signature is valid when, byte for byte, what follows its first 30 bytes is
/// the message and those 30 bytes are the public key without its last byte.
pub open spec fn spec_verify_signature(pub_key: Seq<char>, msg: Seq<char>, sig: Seq<char>) -> bool {
    let sb = encode_utf8(sig);
    let pb = encode_utf8(pub_key);
    &&& sb.subrange(30, sb.len() as int) == encode_utf8(msg)
    &&& sb.subrange(0, 30) == pb.subrange(0, pb.len() - 1)
}

/// Whether `verifySignature` can run on these strings without a panic.
pub fn signatureCheckable(pub_key: &str, msg: &str, sig: &str) -> (res: bool)
    ensures
        res == signature_checkable(pub_key@, msg@, sig@),
{
    if !sig.is_char_boundary(30) {
        return false;
    }
    let (_, data) = sig.split_at(30);
    if !bytes_eq(data.as_bytes(), msg.as_bytes()) {
        return true;
    }
    let n = pub_key.as_bytes().len();
    n >= 1 && pub_key.is_char_boundary(n - 1)
}

/// Whether two byte slices are equal.
fn bytes_eq(a: &[u8], b: &[u8]) -> (res: bool)
    ensures
        res == (a@ == b@),
{
    if a.len() != b.len() {
        return false;
    }
    let n = a.len();
    for i in 0..n
        invariant
            n == a@.len(),
            n == b@.len(),
            forall|j: int| 0 <= j < i ==> a@[j] == b@[j],
    {
        if a[i] != b[i] {
            return false;
        }
    }
    assert(a@ =~= b@);
    true
}

/// Checks a signature made by `sign` against the public key and the message.
pub fn verifySignature(pub_key: &str, msg: &str, sig: &str) -> (res: bool)
    requires
        signature_checkable(pub_key@, msg@, sig@),
    ensures
        res == spec_verify_signature(pub_key@, msg@, sig@),
{
    let (priv_key, data) = sig.split_at(30);
    let db = data.as_bytes();
    let mb = msg.as_bytes();
    assert(db@ == encode_utf8(sig@).subrange(30, encode_utf8(sig@).len() as int));
    if !bytes_eq(db, mb) {
        return false;
    }
    let n = pub_key.as_bytes().len();
    assert(n == encode_utf8(pub_key@).len());
    let (key_part, _) = pub_key.split_at(n - 1);
    bytes_eq(priv_key.as_bytes(), key_part.as_bytes())
}

/// The address of a public key.
pub open spec fn spec_calc_address(key: Seq<char>) -> Seq<char> {
    spec_hash(seq!['a', 'd', 'd', 'r'] + key)
}

/// The address of a public key: the hash of `addr` followed by the key.
pub fn calcAddress(key: &str) -> (res: String)
    ensures
        res@ == spec_calc_address(key@),
{
    let mut cs: Vec<char> = Vec::new();
    cs.push('a');
    cs.push('d');
    cs.push('d');
    cs.push('r');
    push_str(&mut cs, key);
    assert(cs@ =~= seq!['a', 'd', 'd', 'r'] + key@);
    let s = string_from_chars(cs.as_slice());
    hash(s.as_str())
}

/// Whether two string slices hold the same characters.
pub fn str_eq(a: &str, b: &str) -> (res: bool)
    ensures
        res == (a@ == b@),
{
    a.to_owned() == b.to_owned()
}

/// Whether `addr` is the address of `pub_key`.
pub fn addressMatchesKey(addr: &str, pub_key: &str) -> (res: bool)
    ensures
        res == (addr@ == spec_calc_address(pub_key@)),
{
    let a = calcAddress(pub_key);
    str_eq(addr, a.as_str())
}

} // verus!

verus! {

/// The encoding of a concatenation is the concatenation of the encodings.
pub proof fn lemma_encode_concat(a: Seq<char>, b: Seq<char>)
    ensures
        encode_utf8(a + b) == encode_utf8(a) + encode_utf8(b),
    decreases a.len(),
{
    if a.len() == 0 {
        assert(a + b =~= b);
        assert(encode_utf8(a) + encode_utf8(b) =~= encode_utf8(b));
    } else {
        assert((a + b).drop_first() =~= a.drop_first() + b);
        lemma_encode_concat(a.drop_first(), b);
        assert(encode_utf8(a + b) =~= encode_utf8(a) + encode_utf8(b));
    }
}

/// The end of the encoding of `a` is a character boundary of the encoding of
/// `a` followed by `b`.
proof fn lemma_boundary_after_prefix(a: Seq<char>, b: Seq<char>)
    ensures
        is_char_boundary(encode_utf8(a + b), encode_utf8(a).len() as int),
    decreases a.len(),
{
    vstd::utf8::encode_utf8_valid_utf8(a + b);
    if a.len() > 0 {
        let bytes = encode_utf8(a + b);
        vstd::utf8::encode_utf8_first_scalar(a + b);
        assert((a + b).drop_first() =~= a.drop_first() + b);
        assert(vstd::utf8::pop_first_scalar(bytes) =~= encode_utf8(a.drop_first() + b));
        lemma_encode_concat(a, b);
        lemma_boundary_after_prefix(a.drop_first(), b);
    }
}

/// A key of the form that `generateKeypair` gives, or any other of 30 ASCII
/// characters, followed by one more ASCII character as the public key.
pub open spec fn ascii_key_pair(priv_key: Seq<char>, last: char) -> bool {
    &&& priv_key.len() == PRIVATE_KEY_LEN
    &&& vstd::utf8::is_ascii_chars(priv_key)
    &&& '\0' <= last <= '\u{7f}'
}

/// The encoding of a signature and of its public key, split where
/// `verifySignature` splits them.
proof fn lemma_signature_parts(priv_key: Seq<char>, last: char, key2: Seq<char>, msg: Seq<char>)
    requires
        ascii_key_pair(priv_key, last),
        ascii_key_pair(key2, last),
    ensures
        is_char_boundary(encode_utf8(key2 + msg), 30),
        encode_utf8(key2 + msg).subrange(30, encode_utf8(key2 + msg).len() as int) == encode_utf8(msg),
        encode_utf8(key2 + msg).subrange(0, 30) == encode_utf8(key2),
        encode_utf8(priv_key.push(last)).len() >= 1,
        is_char_boundary(encode_utf8(priv_key.push(last)), encode_utf8(priv_key.push(last)).len() - 1),
        encode_utf8(priv_key.push(last)).subrange(0, encode_utf8(priv_key.push(last)).len() - 1)
            == encode_utf8(priv_key),
{
    vstd::utf8::is_ascii_chars_encode_utf8(priv_key);
    vstd::utf8::is_ascii_chars_encode_utf8(key2);
    let pk = priv_key.push(last);
    assert(pk =~= priv_key + seq![last]);
    lemma_encode_concat(key2, msg);
    lemma_encode_concat(priv_key, seq![last]);
    lemma_boundary_after_prefix(key2, msg);
    lemma_boundary_after_prefix(priv_key, seq![last]);
    let sb = encode_utf8(key2 + msg);
    let pb = encode_utf8(pk);
    assert(sb.subrange(30, sb.len() as int) =~= encode_utf8(msg));
    assert(sb.subrange(0, 30) =~= encode_utf8(key2));
    assert(vstd::utf8::is_ascii_chars(seq![last]));
    vstd::utf8::is_ascii_chars_encode_utf8(seq![last]);
    assert(pb.subrange(0, pb.len() - 1) =~= encode_utf8(priv_key));
}

/// A signature that `sign` makes with the private key of an ASCII key pair
/// (such as one `generateKeypair` makes) checks, without a panic, against
/// the public key and the signed message.
pub proof fn law_sign_then_verify(priv_key: Seq<char>, last: char, msg: Seq<char>)
    requires
        ascii_key_pair(priv_key, last),
    ensures
        signature_checkable(priv_key.push(last), msg, priv_key + msg),
        spec_verify_signature(priv_key.push(last), msg, priv_key + msg),
{
    lemma_signature_parts(priv_key, last, priv_key, msg);
}

/// A signature does not check for another message, nor against the public
/// key of another private key; checking it cannot panic.
pub proof fn law_signature_binds_key_and_message(
    priv_key: Seq<char>,
    last: char,
    signer: Seq<char>,
    signed: Seq<char>,
    msg: Seq<char>,
)
    requires
        ascii_key_pair(priv_key, last),
        ascii_key_pair(signer, last),
    ensures
        signature_checkable(priv_key.push(last), msg, signer + signed),
        spec_verify_signature(priv_key.push(last), msg, signer + signed) <==> (signer == priv_key && signed
            == msg),
{
    lemma_signature_parts(priv_key, last, signer, signed);
    vstd::utf8::encode_utf8_decode_utf8(signed);
    vstd::utf8::encode_utf8_decode_utf8(msg);
    vstd::utf8::encode_utf8_decode_utf8(signer);
    vstd::utf8::encode_utf8_decode_utf8(priv_key);
}

} // verus!
