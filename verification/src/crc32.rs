//! The checksum that closes a write record.
use crc::{Crc, NoTable, CRC_32_CKSUM};
use vstd::prelude::*;

verus! {

/// The register after one message bit: it is shifted by one, and where the bit that is
/// shifted out at the top is set, the generator polynomial is fed back.
pub open spec fn after_bit(register: u32) -> u32 {
    if register & 0x8000_0000 == 0 {
        register << 1
    } else {
        (register << 1) ^ 0x04c1_1db7
    }
}

/// The register after `n` message bits.
pub open spec fn after_bits(register: u32, n: nat) -> u32
    decreases n,
{
    if n == 0 {
        register
    } else {
        after_bit(after_bits(register, (n - 1) as nat))
    }
}

/// The register after `data` has been read, each byte from its most significant bit on.
pub open spec fn after_bytes(register: u32, data: Seq<u8>) -> u32
    decreases data.len(),
{
    if data.len() == 0 {
        register
    } else {
        after_bits(after_bytes(register, data.drop_last()) ^ ((data.last() as u32) << 24), 8)
    }
}

/// The checksum of `fed`: the register starts from 0, and is inverted at the end.
pub open spec fn crc32_of(fed: Seq<u8>) -> u32 {
    !after_bytes(0, fed)
}

/// What is read in two parts is read as one.
proof fn lemma_after_bytes(register: u32, first: Seq<u8>, second: Seq<u8>)
    ensures
        after_bytes(register, first + second) == after_bytes(
            after_bytes(register, first),
            second,
        ),
    decreases second.len(),
{
    if second.len() == 0 {
        assert(first + second =~= first);
    } else {
        lemma_after_bytes(register, first, second.drop_last());
        assert((first + second).drop_last() =~= first + second.drop_last());
    }
}

/// Runs a [`crc::Digest`] from `register` over `data` and finalizes it
/// (`Crc::digest_with_initial`, `Digest::update`, `Digest::finalize`, with `CRC_32_CKSUM`
/// and no table).
///
/// Claimed of it: the register has 32 bits, and starts from `register`; the message is read
/// byte by byte, most significant bit first, with the generator polynomial `0x04c11db7`; at
/// the end the register is not reflected, but inverted.
#[verifier::external_body]
fn resume(register: u32, data: &[u8]) -> (r: u32)
    ensures
        r == !after_bytes(register, data@),
{
    let crc = Crc::<u32, NoTable>::new(&CRC_32_CKSUM);
    let mut digest = crc.digest_with_initial(register);
    digest.update(data);
    digest.finalize()
}

/// CRC32 implementation
///
/// Uses `CRC_32_CKSUM` from the [`crc`] crate with no table. The bytes fed so far are its
/// view; of them it keeps only the register.
pub struct Crc32 {
    register: u32,
    fed: Ghost<Seq<u8>>,
}

impl Crc32 {
    /// The bytes that have been fed, in order.
    pub closed spec fn view(&self) -> Seq<u8> {
        self.fed@
    }

    #[verifier::type_invariant]
    spec fn inv(self) -> bool {
        self.register == after_bytes(0, self.fed@)
    }

    /// Create new initial CRC digest
    pub fn new() -> (crc: Self)
        ensures
            crc@ == Seq::<u8>::empty(),
    {
        Crc32 { register: 0, fed: Ghost(Seq::empty()) }
    }

    /// Update the CRC with data
    pub fn update(&mut self, data: &[u8])
        ensures
            final(self)@ == old(self)@ + data@,
    {
        proof {
            use_type_invariant(&*self);
            lemma_after_bytes(0, self.fed@, data@);
            let after = after_bytes(self.register, data@);
            assert(!!after == after) by (bit_vector);
        }
        let sum: u32 = resume(self.register, data);
        *self = Crc32 { register: !sum, fed: Ghost(self.fed@ + data@) };
    }

    /// Finalize the CRC, producing the output
    pub fn finalize(self) -> (sum: u32)
        ensures
            sum == crc32_of(self@),
    {
        proof {
            use_type_invariant(&self);
        }
        !self.register
    }
}

impl Default for Crc32 {
    fn default() -> (crc: Self)
        ensures
            crc@ == Seq::<u8>::empty(),
    {
        Crc32::new()
    }
}

/// The checksum of nothing is all ones, and with each byte more the register that the checksum
/// is the inverse of takes in the byte at its top and goes on for eight bits. How much has been
/// fed before plays no part, and neither does where it was cut.
pub proof fn law_checksums_go_on_byte_by_byte(fed: Seq<u8>, byte: u8)
    ensures
        crc32_of(Seq::empty()) == 0xFFFF_FFFFu32,
        crc32_of(fed.push(byte)) == !after_bits(!crc32_of(fed) ^ ((byte as u32) << 24), 8),
{
    assert(fed.push(byte).drop_last() =~= fed);
    let register = after_bytes(0, fed);
    assert(!(!register) == register) by (bit_vector);
    assert(!0u32 == 0xFFFF_FFFFu32) by (bit_vector);
}

} // verus!
