//! The digest function: SHA-256 over the UTF-8 bytes of a text, written as
//! lowercase hexadecimal.

use sha2::Digest;
use vstd::prelude::*;
use vstd::string::*;
use vstd::utf8::encode_utf8;

verus! {

/// The SHA-256 hash of a byte sequence.
pub uninterp spec fn sha256_of(data: Seq<u8>) -> [u8; 32];

/// Hashes `data` with `sha2::Sha256` (`Digest::new`, `Digest::update`,
/// `Digest::finalize`). Nothing is proved of the hash itself: the contract only
/// gives the 32 bytes that come back the name `sha256_of(data@)`.
#[verifier::external_body]
pub(crate) fn sha256(data: &[u8]) -> (out: [u8; 32])
    ensures
        out == sha256_of(data@),
{
    let mut hasher = sha2::Sha256::new();
    hasher.update(data);
    hasher.finalize().into()
}

/// The sixteen lowercase hexadecimal digits, in order.
pub open spec fn hex_digits() -> Seq<char> {
    seq!['0', '1', '2', '3', '4', '5', '6', '7', '8', '9', 'a', 'b', 'c', 'd', 'e', 'f']
}

/// The digit that stands at position `i` of the hexadecimal text of `bytes`:
/// the high half of byte `i / 2` at even positions, the low half at odd ones.
pub open spec fn hex_digit_at(bytes: Seq<u8>, i: int) -> char {
    if i % 2 == 0 {
        hex_digits()[bytes[i / 2] as int / 16]
    } else {
        hex_digits()[bytes[i / 2] as int % 16]
    }
}

/// Lowercase hexadecimal text of a byte sequence: two digits for each byte,
/// the high half first.
pub open spec fn hex_text(bytes: Seq<u8>) -> Seq<char> {
    Seq::new(2 * bytes.len(), |i: int| hex_digit_at(bytes, i))
}

/// The digest of a text: the hexadecimal text of the SHA-256 hash of its
/// UTF-8 encoding. It always has 64 digits.
pub open spec fn digest_of(text: Seq<char>) -> Seq<char> {
    hex_text(sha256_of(encode_utf8(text))@)
}

/// No two of these texts share a digest.
pub open spec fn distinct_digests(texts: Set<Seq<char>>) -> bool {
    forall|x: Seq<char>, y: Seq<char>|
        #[trigger] texts.contains(x) && #[trigger] texts.contains(y) && digest_of(x) == digest_of(y)
            ==> x == y
}

/// Every digest is 64 characters long.
pub proof fn lemma_digest_len(text: Seq<char>)
    ensures
        digest_of(text).len() == 64,
{
    broadcast use vstd::array::group_array_axioms;

}

/// The hexadecimal digit of a value below sixteen, as a one-character text.
pub fn hex_digit(n: u8) -> (digit: &'static str)
    requires
        n < 16,
    ensures
        digit@ == seq![hex_digits()[n as int]],
{
    proof {
        reveal_strlit("0");
        reveal_strlit("1");
        reveal_strlit("2");
        reveal_strlit("3");
        reveal_strlit("4");
        reveal_strlit("5");
        reveal_strlit("6");
        reveal_strlit("7");
        reveal_strlit("8");
        reveal_strlit("9");
        reveal_strlit("a");
        reveal_strlit("b");
        reveal_strlit("c");
        reveal_strlit("d");
        reveal_strlit("e");
        reveal_strlit("f");
    }
    let digit = match n {
        0 => "0",
        1 => "1",
        2 => "2",
        3 => "3",
        4 => "4",
        5 => "5",
        6 => "6",
        7 => "7",
        8 => "8",
        9 => "9",
        10 => "a",
        11 => "b",
        12 => "c",
        13 => "d",
        14 => "e",
        _ => "f",
    };
    assert(digit@ =~= seq![hex_digits()[n as int]]);
    digit
}

/// Writes `bytes` as lowercase hexadecimal text.
pub fn hex_encode(bytes: &[u8]) -> (text: String)
    ensures
        text@ == hex_text(bytes@),
{
    let mut text = String::new();
    let mut i: usize = 0;
    while i < bytes.len()
        invariant
            i <= bytes.len(),
            text@ == hex_text(bytes@.take(i as int)),
        decreases bytes.len() - i,
    {
        let byte = bytes[i];
        let ghost before = text@;
        text.append(hex_digit(byte / 16));
        text.append(hex_digit(byte % 16));
        proof {
            let done = bytes@.take(i as int);
            let next = bytes@.take(i as int + 1);
            assert(next.len() == done.len() + 1);
            assert forall|k: int| 0 <= k < 2 * next.len() implies text@[k] == hex_digit_at(
                next,
                k,
            ) by {
                if k < 2 * done.len() {
                    assert(text@[k] == before[k]);
                    assert(next[k / 2] == done[k / 2]);
                } else {
                    assert(k / 2 == i);
                    assert(next[k / 2] == byte);
                }
            }
            assert(text@ =~= hex_text(next));
        }
        i += 1;
    }
    assert(bytes@.take(i as int) =~= bytes@);
    text
}

} // verus!
