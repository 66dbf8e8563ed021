//! The storage key of a name: the decimal sum of the bytes of its MD5 digest.
//!
//! The sum lies between 0 and 16 * 255, so distinct names share a key far
//! more often than a full digest would allow; two names with the same sum
//! share one record directory.
use vstd::prelude::*;
use crate::text::push_char;

verus! {

/// The sixteen bytes of the MD5 digest of the UTF-8 encoding of `name`.
pub uninterp spec fn md5_of(name: Seq<char>) -> Seq<u8>;

/// Sum of the bytes of `d`, as unsigned integers.
pub open spec fn byte_sum(d: Seq<u8>) -> nat
    decreases d.len(),
{
    if d.len() == 0 {
        0
    } else {
        byte_sum(d.drop_last()) + d.last() as nat
    }
}

/// The ASCII digit for `d < 10`.
pub open spec fn digit_char(d: nat) -> char {
    ((d + 48) as u8) as char
}

/// Decimal rendering of `n`, most significant digit first, without
/// leading zeros (zero itself is `"0"`).
pub open spec fn decimal(n: nat) -> Seq<char>
    decreases n,
{
    if n < 10 {
        seq![digit_char(n)]
    } else {
        decimal(n / 10).push(digit_char(n % 10))
    }
}

/// The storage key (directory name) of a name.
pub open spec fn key_of(name: Seq<char>) -> Seq<char> {
    decimal(byte_sum(md5_of(name)))
}

/// Relies on `md5::compute`: the digest of the name's UTF-8 bytes.
#[verifier::external_body]
fn md5_bytes(name: &str) -> (r: [u8; 16])
    ensures
        r@ == md5_of(name@),
{
    md5::compute(name).into()
}

/// Renders `n` in decimal.
pub fn decimal_string(n: u64) -> (r: String)
    ensures
        r@ == decimal(n as nat),
    decreases n,
{
    let d: u8 = (n % 10) as u8;
    let c: char = (d + 48) as char;
    if n < 10 {
        let mut s = String::new();
        push_char(&mut s, c);
        assert(s@ =~= seq![digit_char(n as nat)]);
        s
    } else {
        let mut s = decimal_string(n / 10);
        push_char(&mut s, c);
        s
    }
}

proof fn lemma_byte_sum_step(d: Seq<u8>, i: int)
    requires
        0 <= i < d.len(),
    ensures
        byte_sum(d.subrange(0, i + 1)) == byte_sum(d.subrange(0, i)) + d[i] as nat,
{
    assert(d.subrange(0, i + 1).drop_last() =~= d.subrange(0, i));
}

/// The storage key for a given digest: the decimal sum of its bytes.
pub fn key_from_digest(d: &[u8; 16]) -> (r: String)
    ensures
        r@ == decimal(byte_sum(d@)),
{
    let mut sum: u64 = 0;
    let mut i: usize = 0;
    while i < 16
        invariant
            d@.len() == 16,
            i <= 16,
            sum == byte_sum(d@.subrange(0, i as int)),
            sum <= 255 * i,
        decreases 16 - i,
    {
        proof {
            lemma_byte_sum_step(d@, i as int);
        }
        sum = sum + d[i] as u64;
        i = i + 1;
    }
    assert(d@.subrange(0, 16) =~= d@);
    decimal_string(sum)
}

/// The storage key of `name`: the directory that holds its record.
pub fn storage_key(name: &str) -> (r: String)
    ensures
        r@ == key_of(name@),
{
    let d = md5_bytes(name);
    key_from_digest(&d)
}

/// Names whose digests have the same byte sum share a storage key, and so
/// share one record directory.
pub proof fn lemma_equal_sums_share_key(a: Seq<char>, b: Seq<char>)
    requires
        byte_sum(md5_of(a)) == byte_sum(md5_of(b)),
    ensures
        key_of(a) == key_of(b),
{
}

} // verus!
