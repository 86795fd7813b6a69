use crate::text::{parse_decimal, parsed};
use vstd::prelude::*;

verus! {

/// The generator of random numbers of `fastrand`, taken as it is: nothing
/// is known of what it holds.
#[verifier::external_type_specification]
#[verifier::external_body]
pub struct ExRng(fastrand::Rng);

/// Makes a generator of random numbers with `fastrand::Rng::with_seed`.
/// Nothing is claimed of the generator.
#[verifier::external_body]
fn seeded(seed: u64) -> (rng: fastrand::Rng) {
    fastrand::Rng::with_seed(seed)
}

/// Writes random bytes over `bytes` with `fastrand::Rng::fill`. The bytes
/// depend on the machine as well as on the generator, so nothing is
/// claimed of them; there are as many as before.
#[verifier::external_body]
fn fill(rng: &mut fastrand::Rng, bytes: &mut Vec<u8>)
    ensures
        final(bytes).len() == old(bytes).len(),
{
    rng.fill(bytes.as_mut_slice())
}

/// The number that eight bytes spell, the first of them weighing most.
pub open spec fn be_value(bytes: Seq<u8>) -> int {
    bytes[0] * 0x100_0000_0000_0000 + bytes[1] * 0x1_0000_0000_0000 + bytes[2] * 0x100_0000_0000
        + bytes[3] * 0x1_0000_0000 + bytes[4] * 0x100_0000 + bytes[5] * 0x1_0000 + bytes[6] * 0x100
        + bytes[7]
}

/// Reads eight bytes as a number, the first of them weighing most.
fn from_be(bytes: [u8; 8]) -> (res: u64)
    ensures
        res == be_value(bytes@),
{
    bytes[0] as u64 * 0x100_0000_0000_0000 + bytes[1] as u64 * 0x1_0000_0000_0000 + bytes[2] as u64
        * 0x100_0000_0000 + bytes[3] as u64 * 0x1_0000_0000 + bytes[4] as u64 * 0x100_0000
        + bytes[5] as u64 * 0x1_0000 + bytes[6] as u64 * 0x100 + bytes[7] as u64
}

/// The first eight bytes of `data`, with zeros in place of those that are
/// lacking.
pub open spec fn first_eight(data: Seq<u8>) -> Seq<u8> {
    Seq::new(
        8,
        |i: int|
            if i < data.len() {
                data[i]
            } else {
                0u8
            },
    )
}

/// The seed that a kept seed gives: the number its first eight bytes
/// spell.
pub fn trusted_seed(data: &Vec<u8>) -> (res: u64)
    ensures
        res == be_value(first_eight(data@)),
{
    let mut bytes: [u8; 8] = [0u8; 8];
    let mut i: usize = 0;
    while i < 8
        invariant
            i <= 8,
            forall|k: int| 0 <= k < i ==> bytes@[k] == first_eight(data@)[k],
        decreases 8 - i,
    {
        let byte = if i < data.len() {
            data[i]
        } else {
            0
        };
        bytes[i] = byte;
        i += 1;
    }
    assert(bytes@ =~= first_eight(data@));
    from_be(bytes)
}

/// How many bytes the pool of the kernel holds, going by the text that
/// states its size in bits; 2048 bits where there is no text or it is no
/// number.
pub open spec fn pool_size(contents: Option<Seq<char>>) -> int {
    let bits = match contents {
        Some(text) => match parsed(text, usize::MAX as u128) {
            Some(n) => n as int,
            None => 2048,
        },
        None => 2048,
    };
    bits / 8
}

/// Works out how many bytes the pool of the kernel holds.
pub fn pool_bytes(contents: Option<&str>) -> (res: usize)
    ensures
        res == pool_size(
            match contents {
                Some(text) => Some(text@),
                None => None,
            },
        ),
{
    let bits: usize = match contents {
        Some(text) => match parse_decimal(text, usize::MAX as u128) {
            Some(n) => n as usize,
            None => 2048,
        },
        None => 2048,
    };
    bits / 8
}

/// A seed brought towards the length `bytes`: what is too much is cut
/// off, what is lacking is taken from `tail` as far as that reaches.
pub open spec fn stretched(previous: Seq<u8>, bytes: int, tail: Seq<u8>) -> Seq<u8> {
    if previous.len() >= bytes {
        previous.subrange(0, bytes)
    } else if tail.len() >= bytes - previous.len() {
        previous + tail.subrange(0, bytes - previous.len())
    } else {
        previous + tail
    }
}

/// Brings a seed towards the length `bytes` with the bytes of `tail`.
pub fn stretch(previous: Vec<u8>, bytes: usize, tail: Vec<u8>) -> (res: Vec<u8>)
    ensures
        res@ == stretched(previous@, bytes as int, tail@),
{
    let mut res = previous;
    if res.len() >= bytes {
        res.truncate(bytes);
        return res;
    }
    let lacking = bytes - res.len();
    let take = if tail.len() >= lacking {
        lacking
    } else {
        tail.len()
    };
    let mut i: usize = 0;
    while i < take
        invariant
            i <= take <= tail.len(),
            res@ == previous@ + tail@.subrange(0, i as int),
        decreases take - i,
    {
        res.push(tail[i]);
        assert(res@ =~= previous@ + tail@.subrange(0, i + 1));
        i += 1;
    }
    assert(tail@.subrange(0, tail.len() as int) =~= tail@);
    res
}

/// Brings a kept seed to the length `bytes` with random bytes that are
/// drawn after `seed`. The bytes of the kept seed stay as they are, as far
/// as they fit.
pub fn stretched_seed(seed: u64, previous: Vec<u8>, bytes: usize) -> (res: Vec<u8>)
    ensures
        res.len() == bytes,
        forall|i: int| 0 <= i < previous.len() && i < bytes ==> res[i] == previous[i],
{
    let mut rng = seeded(seed);
    let mut tail: Vec<u8> = Vec::new();
    if previous.len() < bytes {
        let lacking = bytes - previous.len();
        let mut i: usize = 0;
        while i < lacking
            invariant
                i <= lacking,
                tail.len() == i,
            decreases lacking - i,
        {
            tail.push(0);
            i += 1;
        }
        fill(&mut rng, &mut tail);
    }
    stretch(previous, bytes, tail)
}

/// What the kernel is told of a seed.
#[derive(Debug)]
pub struct PoolInfo {
    /// How many bits of the seed count as random.
    pub entropy_count: i32,
    /// How many bytes the seed has.
    pub buf_size: i32,
    /// The seed: 512 bytes, with zeros after those of the seed.
    pub buf: Vec<u8>,
}

/// The first 512 bytes of `data`, with zeros in place of those that are
/// lacking.
pub open spec fn first_512(data: Seq<u8>) -> Seq<u8> {
    Seq::new(
        512,
        |i: int|
            if i < data.len() {
                data[i]
            } else {
                0u8
            },
    )
}

/// Makes up what the kernel is told of a seed: every bit of a seed that
/// is trusted counts as random, and none of one that is not.
pub fn pool_info(bytes: &Vec<u8>, trusted: bool) -> (res: PoolInfo)
    requires
        bytes.len() * 8 <= i32::MAX,
    ensures
        res.buf@ == first_512(bytes@),
        res.buf_size == bytes.len(),
        res.entropy_count == if trusted {
            bytes.len() * 8
        } else {
            0
        },
{
    let mut buf: Vec<u8> = Vec::new();
    let mut i: usize = 0;
    while i < 512
        invariant
            i <= 512,
            buf.len() == i,
            forall|k: int| 0 <= k < i ==> buf[k] == first_512(bytes@)[k],
        decreases 512 - i,
    {
        let byte = if i < bytes.len() {
            bytes[i]
        } else {
            0
        };
        buf.push(byte);
        i += 1;
    }
    assert(buf@ =~= first_512(bytes@));
    let size = bytes.len() as i32;
    PoolInfo { entropy_count: if trusted { size * 8 } else { 0 }, buf_size: size, buf }
}

} // verus!
