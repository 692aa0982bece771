//! Messages on a stream: each comes after its length, in two octets.

use vstd::prelude::*;

verus! {

/// The low 16 bits of a length in two octets, the high one first.
pub open spec fn length_prefix(len: nat) -> Seq<u8> {
    seq![((len / 256) % 256) as u8, (len % 256) as u8]
}

/// A message as it is written to a stream.
pub open spec fn framed(octets: Seq<u8>) -> Seq<u8> {
    length_prefix(octets.len()) + octets
}

/// The length that two octets say.
pub open spec fn prefix_value(first: u8, second: u8) -> int {
    first * 256 + second
}

/// A message as it is written to a stream: the low 16 bits of its length, then its octets.
pub fn frame(octets: &Vec<u8>) -> (r: Vec<u8>)
    ensures
        r@ == framed(octets@),
{
    let n: usize = octets.len();
    let mut out: Vec<u8> = Vec::new();
    out.push(((n / 256) % 256) as u8);
    out.push((n % 256) as u8);
    assert(out@ =~= framed(octets@).take(2));
    for i in 0..n
        invariant
            n == octets@.len(),
            out@ == framed(octets@).take(i + 2),
    {
        out.push(octets[i]);
        assert(framed(octets@).take(i + 3) =~= framed(octets@).take(i + 2).push(octets@[i as int]));
    }
    assert(framed(octets@).take(n + 2) =~= framed(octets@));
    out
}

/// The length of the message that follows two octets of a stream.
pub fn prefixed_len(prefix: &[u8; 2]) -> (r: usize)
    ensures
        r == prefix_value(prefix@[0], prefix@[1]),
{
    prefix[0] as usize * 256 + prefix[1] as usize
}

/// What is written to a stream is read back from it: the two octets in front of a message of at
/// most 65535 octets say its length, and the message follows.
pub proof fn law_frame_is_read_back(octets: Seq<u8>)
    requires
        octets.len() <= 65535,
    ensures
        framed(octets).len() == octets.len() + 2,
        prefix_value(framed(octets)[0], framed(octets)[1]) == octets.len(),
        framed(octets).skip(2) == octets,
{
    let n = octets.len();
    assert(n / 256 < 256);
    assert(framed(octets)[0] == (n / 256) as u8);
    assert(framed(octets)[1] == (n % 256) as u8);
    assert(framed(octets).skip(2) =~= octets);
}

/// The two octets in front of a message are its length, the high octet first, and they are read in the
/// same order.
pub proof fn law_high_octet_comes_first(octets: Seq<u8>, first: u8, second: u8)
    ensures
        framed(octets).len() == 2 + octets.len(),
        256 * framed(octets)[0] + framed(octets)[1] == octets.len() % 65536,
        prefix_value(first, second) == 256 * first + second,
{
    let n = octets.len();
    assert((n / 256) % 256 < 256 && n % 256 < 256);
    assert(framed(octets)[0] == ((n / 256) % 256) as u8);
    assert(framed(octets)[1] == (n % 256) as u8);
}

} // verus!
