//! Content fingerprints: the MD5 digest of a file's bytes, written as
//! lowercase hexadecimal.
use vstd::prelude::*;

verus! {

/// The MD5 digest of `data`, as computed by the `md5` crate.
pub uninterp spec fn md5_digest(data: Seq<u8>) -> Seq<u8>;

/// Relies on `md5::compute`: it returns the sixteen-byte MD5 digest of its
/// input, which depends on the input bytes alone.
#[verifier::external_body]
fn md5_bytes(data: &[u8]) -> (r: Vec<u8>)
    ensures
        r@ == md5_digest(data@),
        r@.len() == 16,
{
    md5::compute(data).0.to_vec()
}

/// The lowercase hexadecimal digit for `n`, where `0 <= n < 16`.
pub open spec fn hex_char(n: int) -> char {
    if n == 0 { '0' }
    else if n == 1 { '1' }
    else if n == 2 { '2' }
    else if n == 3 { '3' }
    else if n == 4 { '4' }
    else if n == 5 { '5' }
    else if n == 6 { '6' }
    else if n == 7 { '7' }
    else if n == 8 { '8' }
    else if n == 9 { '9' }
    else if n == 10 { 'a' }
    else if n == 11 { 'b' }
    else if n == 12 { 'c' }
    else if n == 13 { 'd' }
    else if n == 14 { 'e' }
    else { 'f' }
}

/// Two lowercase hexadecimal digits per byte, high nibble first.
pub open spec fn hex_lower(bytes: Seq<u8>) -> Seq<char> {
    Seq::new(
        (2 * bytes.len()) as nat,
        |i: int|
            if i % 2 == 0 {
                hex_char(bytes[i / 2] as int / 16)
            } else {
                hex_char(bytes[i / 2] as int % 16)
            },
    )
}

/// The fingerprint of a file whose content is `content`.
pub open spec fn fingerprint_of(content: Seq<u8>) -> Seq<char> {
    hex_lower(md5_digest(content))
}

/// The one-character string holding the hexadecimal digit for `n`.
fn hex_digit_str(n: u8) -> (r: &'static str)
    requires
        n < 16,
    ensures
        r@ == seq![hex_char(n as int)],
{
    match n {
        0 => { proof { reveal_strlit("0"); } "0" },
        1 => { proof { reveal_strlit("1"); } "1" },
        2 => { proof { reveal_strlit("2"); } "2" },
        3 => { proof { reveal_strlit("3"); } "3" },
        4 => { proof { reveal_strlit("4"); } "4" },
        5 => { proof { reveal_strlit("5"); } "5" },
        6 => { proof { reveal_strlit("6"); } "6" },
        7 => { proof { reveal_strlit("7"); } "7" },
        8 => { proof { reveal_strlit("8"); } "8" },
        9 => { proof { reveal_strlit("9"); } "9" },
        10 => { proof { reveal_strlit("a"); } "a" },
        11 => { proof { reveal_strlit("b"); } "b" },
        12 => { proof { reveal_strlit("c"); } "c" },
        13 => { proof { reveal_strlit("d"); } "d" },
        14 => { proof { reveal_strlit("e"); } "e" },
        _ => { proof { reveal_strlit("f"); } "f" },
    }
}

/// Writes `bytes` as lowercase hexadecimal, two digits per byte.
pub fn hex_encode(bytes: &[u8]) -> (r: String)
    requires
        bytes@.len() <= usize::MAX / 2,
    ensures
        r@ == hex_lower(bytes@),
{
    let mut s = String::new();
    let mut j: usize = 0;
    while j < bytes.len()
        invariant
            j <= bytes@.len(),
            s@.len() == 2 * j,
            forall|k: int| 0 <= k < 2 * j ==> s@[k] == #[trigger] hex_lower(bytes@)[k],
        decreases bytes@.len() - j,
    {
        let b = bytes[j];
        let before = Ghost(s@);
        s.append(hex_digit_str(b / 16));
        s.append(hex_digit_str(b % 16));
        proof {
            assert forall|k: int| 0 <= k < 2 * (j + 1) implies s@[k] == #[trigger] hex_lower(
                bytes@,
            )[k] by {
                if k >= 2 * j {
                    assert(k / 2 == j as int);
                } else {
                    assert(s@[k] == before@[k]);
                }
            }
        }
        j = j + 1;
    }
    assert(s@ =~= hex_lower(bytes@));
    s
}

/// The fingerprint of a file whose content is `content`: the MD5 digest of
/// the bytes, in lowercase hexadecimal (thirty-two characters).
pub fn fingerprint(content: &[u8]) -> (r: String)
    ensures
        r@ == fingerprint_of(content@),
        r@.len() == 32,
{
    let digest = md5_bytes(content);
    hex_encode(digest.as_slice())
}

proof fn lemma_hex_char_injective(m: int, n: int)
    requires
        0 <= m < 16,
        0 <= n < 16,
        hex_char(m) == hex_char(n),
    ensures
        m == n,
{
}

/// Hexadecimal encoding loses nothing: different byte strings are written
/// differently.
pub proof fn lemma_hex_lower_injective(b1: Seq<u8>, b2: Seq<u8>)
    requires
        hex_lower(b1) == hex_lower(b2),
    ensures
        b1 == b2,
{
    assert(hex_lower(b1).len() == hex_lower(b2).len());
    assert(hex_lower(b1).len() == 2 * b1.len());
    assert(hex_lower(b2).len() == 2 * b2.len());
    assert(b1.len() == b2.len());
    assert forall|i: int| 0 <= i < b1.len() implies b1[i] == b2[i] by {
        let (e, o) = (2 * i, 2 * i + 1);
        assert(e / 2 == i && e % 2 == 0);
        assert(o / 2 == i && o % 2 == 1);
        assert(hex_lower(b1)[e] == hex_char(b1[i] as int / 16));
        assert(hex_lower(b2)[e] == hex_char(b2[i] as int / 16));
        assert(hex_lower(b1)[o] == hex_char(b1[i] as int % 16));
        assert(hex_lower(b2)[o] == hex_char(b2[i] as int % 16));
        lemma_hex_char_injective(b1[i] as int / 16, b2[i] as int / 16);
        lemma_hex_char_injective(b1[i] as int % 16, b2[i] as int % 16);
    }
    assert(b1 =~= b2);
}

/// Files with the same content have the same fingerprint, wherever they are
/// and whatever they are called; files whose MD5 digests differ have
/// different fingerprints.
pub proof fn lemma_fingerprint_identifies_content(c1: Seq<u8>, c2: Seq<u8>)
    ensures
        c1 == c2 ==> fingerprint_of(c1) == fingerprint_of(c2),
        md5_digest(c1) != md5_digest(c2) ==> fingerprint_of(c1) != fingerprint_of(c2),
{
    if fingerprint_of(c1) == fingerprint_of(c2) {
        lemma_hex_lower_injective(md5_digest(c1), md5_digest(c2));
    }
}

} // verus!
