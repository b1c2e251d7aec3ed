//! The metadata area at the start of a device: a static header that says to
//! which pool the device belongs, and a region that holds the pool's own
//! metadata in two alternating slots.
//!
//! Nothing here touches a device. The functions turn values into the bytes
//! that belong on the device and check bytes that were read from it.

use vstd::bytes::*;
use vstd::prelude::*;
use vstd::slice::slice_subrange;
use vstd::string::StringExecFns;

use crate::device::{DevOwnership, DevUuid, PoolUuid};
use crate::errors::{EngineError, EngineResult};
use crate::units::{Sectors, SECTOR_SIZE};

verus! {

/// Sectors at the start of a device that hold the static header.
pub const BDA_STATIC_HDR_SECTORS: u64 = 16;

/// Bytes at the start of a device that hold the static header.
pub const BDA_STATIC_HDR_SIZE: usize = 8192;

/// Bytes in a signature block, the record that the static header holds twice.
pub const SIGBLOCK_SIZE: usize = 512;

/// Where the first copy of the signature block starts.
pub const SIGBLOCK_FIRST: usize = 512;

/// Where the second copy of the signature block starts.
pub const SIGBLOCK_SECOND: usize = 4608;

/// The smallest metadata region, in sectors.
pub const MIN_MDA_SECTORS: Sectors = 2032;

/// The number of parts into which a metadata region is split: two slots, and
/// a second copy of each.
pub const NUM_MDA_REGIONS: u64 = 4;

/// The largest device size, in sectors: its size in bytes fits in 64 bits.
pub const MAX_DEV_SECTORS: Sectors = 0x7f_ffff_ffff_ffff;

/// The modulus of the checksum.
pub const CHECKSUM_MOD: u32 = 65521;

/// The sixteen bytes that open every signature block.
pub open spec fn magic() -> Seq<u8> {
    seq![
        0x21u8, 0x53u8, 0x74u8, 0x72u8, 0x61u8, 0x30u8, 0x74u8, 0x69u8,
        0x73u8, 0x86u8, 0xffu8, 0x02u8, 0x5eu8, 0x41u8, 0x72u8, 0x68u8,
    ]
}

/// `n` zero bytes.
pub open spec fn zeros(n: nat) -> Seq<u8> {
    Seq::new(n, |i: int| 0u8)
}

/// Every byte of `bytes` is zero.
pub open spec fn all_zero(bytes: Seq<u8>) -> bool {
    forall|i: int| 0 <= i < bytes.len() ==> bytes[i] == 0
}

/// The two running sums of the checksum over `bytes`: the sum of the bytes
/// plus one, and the sum of those sums, both modulo `CHECKSUM_MOD`.
pub open spec fn checksum_sums(bytes: Seq<u8>) -> (int, int)
    decreases bytes.len(),
{
    if bytes.len() == 0 {
        (1, 0)
    } else {
        let (a, b) = checksum_sums(bytes.drop_last());
        let a2 = (a + bytes.last()) % (CHECKSUM_MOD as int);
        (a2, (b + a2) % (CHECKSUM_MOD as int))
    }
}

/// The checksum of `bytes`: the second running sum in the upper half, the
/// first in the lower half.
pub open spec fn spec_checksum(bytes: Seq<u8>) -> u32 {
    (checksum_sums(bytes).1 * 65536 + checksum_sums(bytes).0) as u32
}

/// The checksum of `bytes`.
pub fn checksum(bytes: &[u8]) -> (sum: u32)
    ensures
        sum == spec_checksum(bytes@),
{
    let mut a: u32 = 1;
    let mut b: u32 = 0;
    let mut i: usize = 0;
    while i < bytes.len()
        invariant
            0 <= i <= bytes.len(),
            a < CHECKSUM_MOD,
            b < CHECKSUM_MOD,
            (a as int, b as int) == checksum_sums(bytes@.take(i as int)),
        decreases bytes.len() - i,
    {
        proof {
            assert(bytes@.take(i + 1).drop_last() =~= bytes@.take(i as int));
        }
        a = (a + bytes[i] as u32) % CHECKSUM_MOD;
        b = (b + a) % CHECKSUM_MOD;
        i = i + 1;
    }
    proof {
        assert(bytes@.take(bytes.len() as int) =~= bytes@);
    }
    b * 65536 + a
}

/// A vector of `n` zero bytes.
pub fn zero_bytes(n: usize) -> (bytes: Vec<u8>)
    ensures
        bytes@ == zeros(n as nat),
{
    let mut bytes: Vec<u8> = Vec::new();
    let mut i: usize = 0;
    while i < n
        invariant
            0 <= i <= n,
            bytes@ == zeros(i as nat),
        decreases n - i,
    {
        bytes.push(0u8);
        proof {
            assert(bytes@ =~= zeros((i + 1) as nat));
        }
        i = i + 1;
    }
    bytes
}

/// Whether every byte of `bytes` is zero.
pub fn is_all_zero(bytes: &[u8]) -> (zero: bool)
    ensures
        zero == all_zero(bytes@),
{
    let mut i: usize = 0;
    while i < bytes.len()
        invariant
            0 <= i <= bytes.len(),
            forall|k: int| 0 <= k < i ==> bytes@[k] == 0,
        decreases bytes.len() - i,
    {
        if bytes[i] != 0 {
            return false;
        }
        i = i + 1;
    }
    true
}

/// The magic bytes, in a vector.
fn magic_bytes() -> (bytes: Vec<u8>)
    ensures
        bytes@ == magic(),
{
    let mut bytes: Vec<u8> = Vec::new();
    bytes.push(0x21u8);
    bytes.push(0x53u8);
    bytes.push(0x74u8);
    bytes.push(0x72u8);
    bytes.push(0x61u8);
    bytes.push(0x30u8);
    bytes.push(0x74u8);
    bytes.push(0x69u8);
    bytes.push(0x73u8);
    bytes.push(0x86u8);
    bytes.push(0xffu8);
    bytes.push(0x02u8);
    bytes.push(0x5eu8);
    bytes.push(0x41u8);
    bytes.push(0x72u8);
    bytes.push(0x68u8);
    proof {
        assert(bytes@ =~= magic());
    }
    bytes
}

/// Whether two runs of bytes are equal.
fn bytes_equal(a: &[u8], b: &[u8]) -> (same: bool)
    ensures
        same == (a@ == b@),
{
    if a.len() != b.len() {
        return false;
    }
    let mut i: usize = 0;
    while i < a.len()
        invariant
            0 <= i <= a.len(),
            a.len() == b.len(),
            forall|k: int| 0 <= k < i ==> a@[k] == b@[k],
        decreases a.len() - i,
    {
        if a[i] != b[i] {
            return false;
        }
        i = i + 1;
    }
    proof {
        assert(a@ =~= b@);
    }
    true
}

/// What the static header of a device records.
#[derive(Debug, Clone, Copy, PartialEq, Eq, Structural)]
pub struct StaticHeader {
    /// The size of the device when it was initialized, in sectors.
    pub blkdev_size: Sectors,
    pub pool_uuid: PoolUuid,
    pub dev_uuid: DevUuid,
    /// The size of the metadata region, in sectors.
    pub mda_size: Sectors,
}

/// A signature block without its checksum: the magic bytes, the device size,
/// the pool's and the device's identifier, the size of the metadata region,
/// each number in little-endian order, and zeros up to the block's end.
pub open spec fn sigblock_body(header: StaticHeader) -> Seq<u8> {
    magic() + spec_u64_to_le_bytes(header.blkdev_size) + spec_u128_to_le_bytes(header.pool_uuid)
        + spec_u128_to_le_bytes(header.dev_uuid) + spec_u64_to_le_bytes(header.mda_size) + zeros(444)
}

/// A signature block: the checksum of its body, then the body.
pub open spec fn sigblock(header: StaticHeader) -> Seq<u8> {
    spec_u32_to_le_bytes(spec_checksum(sigblock_body(header))) + sigblock_body(header)
}

/// The static header region of a device: a zero sector, the signature block,
/// seven zero sectors, the signature block again, six zero sectors.
pub open spec fn header_image(header: StaticHeader) -> Seq<u8> {
    zeros(512) + sigblock(header) + zeros(3584) + sigblock(header) + zeros(3072)
}

/// The header that a signature block holds, if the block has the right
/// length, opens with the magic bytes and carries the checksum of its body.
pub open spec fn parse_sigblock(block: Seq<u8>) -> Option<StaticHeader> {
    if block.len() == SIGBLOCK_SIZE && block.subrange(4, 20) == magic() && spec_u32_from_le_bytes(
        block.subrange(0, 4),
    ) == spec_checksum(block.subrange(4, 512)) {
        Some(
            StaticHeader {
                blkdev_size: spec_u64_from_le_bytes(block.subrange(20, 28)),
                pool_uuid: spec_u128_from_le_bytes(block.subrange(28, 44)),
                dev_uuid: spec_u128_from_le_bytes(block.subrange(44, 60)),
                mda_size: spec_u64_from_le_bytes(block.subrange(60, 68)),
            },
        )
    } else {
        None
    }
}

/// The header that a static header region holds: that of its first signature
/// block, or else that of its second.
pub open spec fn parse_header_region(region: Seq<u8>) -> Option<StaticHeader> {
    if region.len() != BDA_STATIC_HDR_SIZE {
        None
    } else {
        match parse_sigblock(region.subrange(512, 1024)) {
            Some(header) => Some(header),
            None => parse_sigblock(region.subrange(4608, 5120)),
        }
    }
}

/// To whom a device belongs whose static header region holds `region`: to
/// the pool that a valid header names; to nobody where all is zero; to
/// someone else otherwise.
pub open spec fn ownership_of(region: Seq<u8>) -> DevOwnership {
    match parse_header_region(region) {
        Some(header) => DevOwnership::Ours(header.pool_uuid),
        None => if all_zero(region) {
            DevOwnership::Unowned
        } else {
            DevOwnership::Theirs
        },
    }
}

/// A signature block is 512 bytes long, and reading it gives back the header
/// that it was made from.
pub proof fn lemma_sigblock_round_trip(header: StaticHeader)
    ensures
        sigblock_body(header).len() == 508,
        sigblock(header).len() == SIGBLOCK_SIZE,
        parse_sigblock(sigblock(header)) == Some(header),
{
    lemma_auto_spec_u32_to_from_le_bytes();
    lemma_auto_spec_u64_to_from_le_bytes();
    lemma_auto_spec_u128_to_from_le_bytes();
    let body = sigblock_body(header);
    let block = sigblock(header);
    assert(spec_u64_to_le_bytes(header.blkdev_size).len() == 8);
    assert(spec_u64_to_le_bytes(header.mda_size).len() == 8);
    assert(spec_u128_to_le_bytes(header.pool_uuid).len() == 16);
    assert(spec_u128_to_le_bytes(header.dev_uuid).len() == 16);
    assert(spec_u32_to_le_bytes(spec_checksum(body)).len() == 4);
    assert(body.len() == 508);
    assert(block.subrange(0, 4) =~= spec_u32_to_le_bytes(spec_checksum(body)));
    assert(block.subrange(4, 512) =~= body);
    assert(block.subrange(4, 20) =~= magic());
    assert(block.subrange(20, 28) =~= spec_u64_to_le_bytes(header.blkdev_size));
    assert(block.subrange(28, 44) =~= spec_u128_to_le_bytes(header.pool_uuid));
    assert(block.subrange(44, 60) =~= spec_u128_to_le_bytes(header.dev_uuid));
    assert(block.subrange(60, 68) =~= spec_u64_to_le_bytes(header.mda_size));
}

/// Reading the static header region that was made from a header gives that
/// header back, so a device that carries it is owned by the header's pool.
pub proof fn lemma_header_image_round_trip(header: StaticHeader)
    ensures
        header_image(header).len() == BDA_STATIC_HDR_SIZE,
        parse_header_region(header_image(header)) == Some(header),
        ownership_of(header_image(header)) == DevOwnership::Ours(header.pool_uuid),
{
    lemma_sigblock_round_trip(header);
    assert(header_image(header).subrange(512, 1024) =~= sigblock(header));
}

/// A region of zeros holds no header: a zeroed device is owned by nobody.
pub proof fn lemma_zeroed_is_unowned(region: Seq<u8>)
    requires
        all_zero(region),
    ensures
        parse_header_region(region) is None,
        ownership_of(region) == DevOwnership::Unowned,
{
    if region.len() == BDA_STATIC_HDR_SIZE {
        let first = region.subrange(512, 1024);
        let second = region.subrange(4608, 5120);
        assert(first.subrange(4, 20)[0] == region[516]);
        assert(second.subrange(4, 20)[0] == region[4612]);
        assert(magic()[0] == 0x21u8);
    }
}

/// A region that holds no header and is not all zero belongs to someone
/// else.
pub proof fn lemma_foreign_is_theirs(region: Seq<u8>)
    requires
        parse_header_region(region) is None,
        !all_zero(region),
    ensures
        ownership_of(region) == DevOwnership::Theirs,
{
}

impl StaticHeader {
    /// The header of a device of `blkdev_size` sectors that joins the pool
    /// `pool_uuid` as `dev_uuid`, with a metadata region of `mda_size`
    /// sectors.
    pub fn new(pool_uuid: PoolUuid, dev_uuid: DevUuid, mda_size: Sectors, blkdev_size: Sectors) -> (header:
        StaticHeader)
        ensures
            header == (StaticHeader { blkdev_size, pool_uuid, dev_uuid, mda_size }),
    {
        StaticHeader { blkdev_size, pool_uuid, dev_uuid, mda_size }
    }

    /// The signature block of this header.
    pub fn sigblock_to_buf(&self) -> (block: Vec<u8>)
        ensures
            block@ == sigblock(*self),
            block@.len() == SIGBLOCK_SIZE,
    {
        let mut body = magic_bytes();
        let mut size = u64_to_le_bytes(self.blkdev_size);
        let mut pool = u128_to_le_bytes(self.pool_uuid);
        let mut dev = u128_to_le_bytes(self.dev_uuid);
        let mut mda = u64_to_le_bytes(self.mda_size);
        let mut padding = zero_bytes(444);
        body.append(&mut size);
        body.append(&mut pool);
        body.append(&mut dev);
        body.append(&mut mda);
        body.append(&mut padding);
        let mut block = u32_to_le_bytes(checksum(body.as_slice()));
        block.append(&mut body);
        proof {
            lemma_sigblock_round_trip(*self);
        }
        block
    }

    /// The bytes of the whole static header region, to be written at the
    /// start of the device.
    pub fn image(&self) -> (region: Vec<u8>)
        ensures
            region@ == header_image(*self),
            region@.len() == BDA_STATIC_HDR_SIZE,
    {
        let mut region = zero_bytes(512);
        let mut first = self.sigblock_to_buf();
        let mut gap = zero_bytes(3584);
        let mut second = self.sigblock_to_buf();
        let mut rest = zero_bytes(3072);
        region.append(&mut first);
        region.append(&mut gap);
        region.append(&mut second);
        region.append(&mut rest);
        region
    }

    /// Reads one signature block.
    pub fn sigblock_from_buf(block: &[u8]) -> (header: Option<StaticHeader>)
        ensures
            header == parse_sigblock(block@),
    {
        if block.len() != SIGBLOCK_SIZE {
            return None;
        }
        let expected = magic_bytes();
        if !bytes_equal(slice_subrange(block, 4, 20), expected.as_slice()) {
            return None;
        }
        if u32_from_le_bytes(slice_subrange(block, 0, 4)) != checksum(slice_subrange(block, 4, 512)) {
            return None;
        }
        Some(
            StaticHeader {
                blkdev_size: u64_from_le_bytes(slice_subrange(block, 20, 28)),
                pool_uuid: u128_from_le_bytes(slice_subrange(block, 28, 44)),
                dev_uuid: u128_from_le_bytes(slice_subrange(block, 44, 60)),
                mda_size: u64_from_le_bytes(slice_subrange(block, 60, 68)),
            },
        )
    }

    /// Reads a static header region: the first signature block where it is
    /// valid, else the second.
    pub fn setup_from_buf(region: &[u8]) -> (header: Option<StaticHeader>)
        ensures
            header == parse_header_region(region@),
    {
        if region.len() != BDA_STATIC_HDR_SIZE {
            return None;
        }
        let first = slice_subrange(region, SIGBLOCK_FIRST, SIGBLOCK_FIRST + SIGBLOCK_SIZE);
        match StaticHeader::sigblock_from_buf(first) {
            Some(header) => Some(header),
            None => StaticHeader::sigblock_from_buf(
                slice_subrange(region, SIGBLOCK_SECOND, SIGBLOCK_SECOND + SIGBLOCK_SIZE),
            ),
        }
    }

    /// Says to whom a device belongs, from the first `BDA_STATIC_HDR_SIZE`
    /// bytes read from it. Fails with `Invalid` where fewer bytes are given.
    pub fn determine_ownership(buf: &[u8]) -> (res: EngineResult<DevOwnership>)
        ensures
            res is Ok <==> buf@.len() >= BDA_STATIC_HDR_SIZE,
            res is Err ==> res->Err_0.is_invalid(),
            res matches Ok(ownership) ==> ownership == ownership_of(
                buf@.subrange(0, BDA_STATIC_HDR_SIZE as int),
            ),
    {
        if buf.len() < BDA_STATIC_HDR_SIZE {
            return Err(EngineError::invalid(String::from_str("too few bytes for a static header")));
        }
        let region = slice_subrange(buf, 0, BDA_STATIC_HDR_SIZE);
        match StaticHeader::setup_from_buf(region) {
            Some(header) => Ok(DevOwnership::Ours(header.pool_uuid)),
            None => {
                if is_all_zero(region) {
                    Ok(DevOwnership::Unowned)
                } else {
                    Ok(DevOwnership::Theirs)
                }
            },
        }
    }

    /// The bytes that erase a static header: the region, all zero.
    pub fn wipe_image() -> (region: Vec<u8>)
        ensures
            region@ == zeros(BDA_STATIC_HDR_SIZE as nat),
            ownership_of(region@) == DevOwnership::Unowned,
    {
        let region = zero_bytes(BDA_STATIC_HDR_SIZE);
        proof {
            lemma_zeroed_is_unowned(region@);
        }
        region
    }
}

/// A point in time: seconds since the epoch and nanoseconds within the
/// second. Points are ordered by the seconds, then by the nanoseconds.
#[derive(Debug, Clone, Copy, PartialEq, Eq, Structural)]
pub struct Timestamp {
    pub sec: i64,
    pub nsec: i32,
}

impl Timestamp {
    /// `self` is later than `other`.
    pub open spec fn spec_later_than(self, other: Timestamp) -> bool {
        self.sec > other.sec || (self.sec == other.sec && self.nsec > other.nsec)
    }

    /// Whether `self` is later than `other`.
    pub fn later_than(&self, other: &Timestamp) -> (later: bool)
        ensures
            later == self.spec_later_than(*other),
    {
        self.sec > other.sec || (self.sec == other.sec && self.nsec > other.nsec)
    }
}

/// Bytes in the header that opens each slot of the metadata region.
pub const MDA_HEADER_SIZE: usize = 32;

/// What the header of a slot records about the metadata stored after it.
#[derive(Debug, Clone, Copy, PartialEq, Eq, Structural)]
pub struct MDAHeader {
    /// The time that the writer gave.
    pub last_updated: Timestamp,
    /// The length of the metadata, in bytes.
    pub used: u64,
    /// The checksum of the metadata.
    pub data_crc: u32,
}

/// The seconds of a timestamp as an unsigned number: shifted up by 2^63.
pub open spec fn sec_to_bits(sec: i64) -> u64 {
    (sec + 0x8000_0000_0000_0000) as u64
}

/// The inverse of `sec_to_bits`.
pub open spec fn sec_from_bits(bits: u64) -> i64 {
    (bits - 0x8000_0000_0000_0000) as i64
}

/// The nanoseconds of a timestamp as an unsigned number: shifted up by 2^31.
pub open spec fn nsec_to_bits(nsec: i32) -> u32 {
    (nsec + 0x8000_0000) as u32
}

/// The inverse of `nsec_to_bits`.
pub open spec fn nsec_from_bits(bits: u32) -> i32 {
    (bits - 0x8000_0000) as i32
}

/// A slot header without its checksum: the checksum and the length of the
/// metadata, the time in shifted form, each in little-endian order, and four
/// zero bytes.
pub open spec fn mda_header_body(header: MDAHeader) -> Seq<u8> {
    spec_u32_to_le_bytes(header.data_crc) + spec_u64_to_le_bytes(header.used) + spec_u64_to_le_bytes(
        sec_to_bits(header.last_updated.sec),
    ) + spec_u32_to_le_bytes(nsec_to_bits(header.last_updated.nsec)) + zeros(4)
}

/// A slot header: the checksum of its body, then the body.
pub open spec fn mda_header_bytes(header: MDAHeader) -> Seq<u8> {
    spec_u32_to_le_bytes(spec_checksum(mda_header_body(header))) + mda_header_body(header)
}

/// The slot header that `bytes` hold, if they have the right length and
/// carry the checksum of their body.
pub open spec fn parse_mda_header(bytes: Seq<u8>) -> Option<MDAHeader> {
    if bytes.len() == MDA_HEADER_SIZE && spec_u32_from_le_bytes(bytes.subrange(0, 4)) == spec_checksum(
        bytes.subrange(4, 32),
    ) {
        Some(
            MDAHeader {
                last_updated: Timestamp {
                    sec: sec_from_bits(spec_u64_from_le_bytes(bytes.subrange(16, 24))),
                    nsec: nsec_from_bits(spec_u32_from_le_bytes(bytes.subrange(24, 28))),
                },
                used: spec_u64_from_le_bytes(bytes.subrange(8, 16)),
                data_crc: spec_u32_from_le_bytes(bytes.subrange(4, 8)),
            },
        )
    } else {
        None
    }
}

/// A slot header is 32 bytes long, and reading it gives back the header that
/// it was made from.
pub proof fn lemma_mda_header_round_trip(header: MDAHeader)
    ensures
        mda_header_bytes(header).len() == MDA_HEADER_SIZE,
        parse_mda_header(mda_header_bytes(header)) == Some(header),
{
    lemma_auto_spec_u32_to_from_le_bytes();
    lemma_auto_spec_u64_to_from_le_bytes();
    let body = mda_header_body(header);
    let bytes = mda_header_bytes(header);
    let sec = sec_to_bits(header.last_updated.sec);
    let nsec = nsec_to_bits(header.last_updated.nsec);
    assert(spec_u32_to_le_bytes(header.data_crc).len() == 4);
    assert(spec_u64_to_le_bytes(header.used).len() == 8);
    assert(spec_u64_to_le_bytes(sec).len() == 8);
    assert(spec_u32_to_le_bytes(nsec).len() == 4);
    assert(spec_u32_to_le_bytes(spec_checksum(body)).len() == 4);
    assert(body.len() == 28);
    assert(bytes.subrange(0, 4) =~= spec_u32_to_le_bytes(spec_checksum(body)));
    assert(bytes.subrange(4, 32) =~= body);
    assert(bytes.subrange(4, 8) =~= spec_u32_to_le_bytes(header.data_crc));
    assert(bytes.subrange(8, 16) =~= spec_u64_to_le_bytes(header.used));
    assert(bytes.subrange(16, 24) =~= spec_u64_to_le_bytes(sec));
    assert(bytes.subrange(24, 28) =~= spec_u32_to_le_bytes(nsec));
    assert(sec_from_bits(sec) == header.last_updated.sec);
    assert(nsec_from_bits(nsec) == header.last_updated.nsec);
}

impl MDAHeader {
    /// The bytes of this header.
    pub fn to_buf(&self) -> (bytes: Vec<u8>)
        ensures
            bytes@ == mda_header_bytes(*self),
            bytes@.len() == MDA_HEADER_SIZE,
    {
        let sec: u64 = (self.last_updated.sec as i128 + 0x8000_0000_0000_0000i128) as u64;
        let nsec: u32 = (self.last_updated.nsec as i64 + 0x8000_0000i64) as u32;
        let mut body = u32_to_le_bytes(self.data_crc);
        let mut used = u64_to_le_bytes(self.used);
        let mut sec_bytes = u64_to_le_bytes(sec);
        let mut nsec_bytes = u32_to_le_bytes(nsec);
        let mut padding = zero_bytes(4);
        body.append(&mut used);
        body.append(&mut sec_bytes);
        body.append(&mut nsec_bytes);
        body.append(&mut padding);
        let mut bytes = u32_to_le_bytes(checksum(body.as_slice()));
        bytes.append(&mut body);
        proof {
            lemma_mda_header_round_trip(*self);
        }
        bytes
    }

    /// Reads a slot header.
    pub fn from_buf(bytes: &[u8]) -> (header: Option<MDAHeader>)
        ensures
            header == parse_mda_header(bytes@),
    {
        if bytes.len() != MDA_HEADER_SIZE {
            return None;
        }
        if u32_from_le_bytes(slice_subrange(bytes, 0, 4)) != checksum(slice_subrange(bytes, 4, 32)) {
            return None;
        }
        let sec_bits = u64_from_le_bytes(slice_subrange(bytes, 16, 24));
        let nsec_bits = u32_from_le_bytes(slice_subrange(bytes, 24, 28));
        Some(
            MDAHeader {
                last_updated: Timestamp {
                    sec: (sec_bits as i128 - 0x8000_0000_0000_0000i128) as i64,
                    nsec: (nsec_bits as i64 - 0x8000_0000i64) as i32,
                },
                used: u64_from_le_bytes(slice_subrange(bytes, 8, 16)),
                data_crc: u32_from_le_bytes(slice_subrange(bytes, 4, 8)),
            },
        )
    }
}

/// Whether `size` sectors can be the size of a metadata region: a multiple of
/// `NUM_MDA_REGIONS` and at least `MIN_MDA_SECTORS`.
pub open spec fn mda_size_valid(size: Sectors) -> bool {
    size % NUM_MDA_REGIONS == 0 && size >= MIN_MDA_SECTORS
}

/// Checks the size of a metadata region. Fails with `Invalid` where it is
/// not a multiple of `NUM_MDA_REGIONS` or is below `MIN_MDA_SECTORS`.
pub fn validate_mda_size(size: Sectors) -> (res: EngineResult<()>)
    ensures
        res is Ok <==> mda_size_valid(size),
        res is Err ==> res->Err_0.is_invalid(),
{
    if size % NUM_MDA_REGIONS != 0 {
        return Err(
            EngineError::invalid(
                String::from_str("MDA size is not divisible by the number of copies required"),
            ),
        );
    }
    if size < MIN_MDA_SECTORS {
        return Err(EngineError::invalid(String::from_str("MDA size is less than the minimum")));
    }
    Ok(())
}

/// Whether a metadata area with the given sizes fits on its device: the
/// region's size is valid, the device's size in bytes fits in 64 bits, and
/// the static header and the region together are no larger than the device.
pub open spec fn bda_sizes_valid(mda_size: Sectors, blkdev_size: Sectors) -> bool {
    &&& mda_size_valid(mda_size)
    &&& blkdev_size <= MAX_DEV_SECTORS
    &&& BDA_STATIC_HDR_SECTORS + mda_size <= blkdev_size
}

/// What to write to a device to store one version of the metadata: the slot
/// header, followed by the metadata itself, at both offsets.
#[derive(Debug)]
pub struct RegionWrite {
    /// The slot written to: 0 or 1.
    pub slot: usize,
    /// Where the slot's first copy starts, in bytes from the device's start.
    pub primary_offset: u64,
    /// Where the slot's second copy starts.
    pub backup_offset: u64,
    /// The slot header that precedes the metadata.
    pub header: Vec<u8>,
}

/// Where to read the newest version of the metadata from.
#[derive(Debug, Clone, Copy, PartialEq, Eq, Structural)]
pub struct RegionRead {
    /// Where the slot's first copy starts, in bytes from the device's start.
    pub primary_offset: u64,
    /// Where the slot's second copy starts.
    pub backup_offset: u64,
    /// The number of bytes to read: the slot header and the metadata.
    pub length: u64,
}

/// The metadata area of one device, as far as it is kept in memory: the
/// static header and the header of each slot that was written.
#[derive(Debug)]
pub struct BDA {
    header: StaticHeader,
    first: Option<MDAHeader>,
    second: Option<MDAHeader>,
}

/// The later of two slot headers; the first where neither is later.
pub open spec fn newer_of(first: Option<MDAHeader>, second: Option<MDAHeader>) -> Option<MDAHeader> {
    match (first, second) {
        (None, _) => second,
        (_, None) => first,
        (Some(a), Some(b)) => if b.last_updated.spec_later_than(a.last_updated) {
            second
        } else {
            first
        },
    }
}

impl BDA {
    /// The static header.
    pub closed spec fn header(&self) -> StaticHeader {
        self.header
    }

    /// The header of slot `slot`, if the slot was written.
    pub closed spec fn slot(&self, slot: int) -> Option<MDAHeader> {
        if slot == 0 {
            self.first
        } else {
            self.second
        }
    }

    /// The size of each of the region's four parts, in sectors.
    pub open spec fn region_size(&self) -> int {
        self.header().mda_size as int / 4
    }

    /// The longest metadata that a slot can hold, in bytes.
    pub open spec fn capacity(&self) -> int {
        self.region_size() * SECTOR_SIZE - MDA_HEADER_SIZE
    }

    /// Where part `part` of the region starts, in bytes from the device's
    /// start. Slot 0 is in parts 0 and 2, slot 1 in parts 1 and 3.
    pub open spec fn region_offset(&self, part: int) -> int {
        (BDA_STATIC_HDR_SECTORS + part * self.region_size()) * SECTOR_SIZE
    }

    /// The header of the newest version stored.
    pub open spec fn newest(&self) -> Option<MDAHeader> {
        newer_of(self.slot(0), self.slot(1))
    }

    /// The slot that holds the newest version; 0 where nothing is stored.
    pub open spec fn newest_slot(&self) -> int {
        if self.newest() == self.slot(0) {
            0
        } else {
            1
        }
    }

    /// The slot that the next version goes to: the one that does not hold
    /// the newest version.
    pub open spec fn next_slot(&self) -> int {
        if self.newest() is None {
            0
        } else {
            1 - self.newest_slot()
        }
    }

    /// The time of the newest version stored.
    pub open spec fn spec_last_update_time(&self) -> Option<Timestamp> {
        match self.newest() {
            Some(header) => Some(header.last_updated),
            None => None,
        }
    }

    /// The sizes fit, what each slot holds fits in it, and two written slots
    /// differ in time.
    pub open spec fn wf(&self) -> bool {
        &&& bda_sizes_valid(self.header().mda_size, self.header().blkdev_size)
        &&& forall|k: int|
            0 <= k < 2 ==> (#[trigger] self.slot(k) matches Some(h) ==> h.used <= self.capacity())
        &&& (self.slot(0) is Some && self.slot(1) is Some) ==> self.slot(0)->0.last_updated
            != self.slot(1)->0.last_updated
    }

    /// Whether `time` may stamp the next version: nothing is stored, or
    /// `time` is later than the newest version.
    pub open spec fn accepts_time(&self, time: Timestamp) -> bool {
        match self.spec_last_update_time() {
            Some(last) => time.spec_later_than(last),
            None => true,
        }
    }

    /// The metadata area of a device that joins a pool. Nothing is stored in
    /// it yet. Fails with `Invalid` where the region's size is not valid or
    /// the area does not fit on the device; the region's size is checked
    /// first.
    pub fn initialize(
        pool_uuid: PoolUuid,
        dev_uuid: DevUuid,
        mda_size: Sectors,
        blkdev_size: Sectors,
    ) -> (res: EngineResult<BDA>)
        ensures
            res is Ok <==> bda_sizes_valid(mda_size, blkdev_size),
            res is Err ==> res->Err_0.is_invalid(),
            res matches Ok(bda) ==> {
                &&& bda.wf()
                &&& bda.header() == (StaticHeader { blkdev_size, pool_uuid, dev_uuid, mda_size })
                &&& bda.slot(0) is None
                &&& bda.slot(1) is None
            },
    {
        match validate_mda_size(mda_size) {
            Err(e) => {
                return Err(e);
            },
            Ok(_) => {},
        }
        if blkdev_size > MAX_DEV_SECTORS || mda_size > blkdev_size || blkdev_size - mda_size
            < BDA_STATIC_HDR_SECTORS {
            return Err(
                EngineError::invalid(String::from_str("metadata area does not fit on the device")),
            );
        }
        Ok(
            BDA {
                header: StaticHeader::new(pool_uuid, dev_uuid, mda_size, blkdev_size),
                first: None,
                second: None,
            },
        )
    }

    /// The bytes of the static header region, to be written at the start of
    /// the device.
    pub fn header_image(&self) -> (region: Vec<u8>)
        ensures
            region@ == header_image(self.header()),
            ownership_of(region@) == DevOwnership::Ours(self.header().pool_uuid),
    {
        proof {
            lemma_header_image_round_trip(self.header);
        }
        self.header.image()
    }

    /// The number of sectors that the metadata area takes at the start of
    /// the device.
    pub fn size(&self) -> (sectors: Sectors)
        requires
            self.wf(),
        ensures
            sectors == BDA_STATIC_HDR_SECTORS + self.header().mda_size,
            sectors <= self.header().blkdev_size,
    {
        BDA_STATIC_HDR_SECTORS + self.header.mda_size
    }

    /// The size of the device, in sectors.
    pub fn dev_size(&self) -> (sectors: Sectors)
        ensures
            sectors == self.header().blkdev_size,
    {
        self.header.blkdev_size
    }

    /// The pool that the device belongs to.
    pub fn pool_uuid(&self) -> (id: PoolUuid)
        ensures
            id == self.header().pool_uuid,
    {
        self.header.pool_uuid
    }

    /// The identifier of the device.
    pub fn dev_uuid(&self) -> (id: DevUuid)
        ensures
            id == self.header().dev_uuid,
    {
        self.header.dev_uuid
    }

    /// The longest metadata that can be stored, in bytes.
    pub fn max_data_size(&self) -> (bytes: u64)
        requires
            self.wf(),
        ensures
            bytes == self.capacity(),
    {
        self.header.mda_size / NUM_MDA_REGIONS * SECTOR_SIZE - MDA_HEADER_SIZE as u64
    }

    /// The time of the newest version stored.
    pub fn last_update_time(&self) -> (time: Option<Timestamp>)
        ensures
            time == self.spec_last_update_time(),
    {
        match (&self.first, &self.second) {
            (None, None) => None,
            (None, Some(b)) => Some(b.last_updated),
            (Some(a), None) => Some(a.last_updated),
            (Some(a), Some(b)) => if b.last_updated.later_than(&a.last_updated) {
                Some(b.last_updated)
            } else {
                Some(a.last_updated)
            },
        }
    }
}

/// The slot header that stores `metadata` under `time`.
pub open spec fn header_for(time: Timestamp, metadata: Seq<u8>) -> MDAHeader {
    MDAHeader { last_updated: time, used: metadata.len() as u64, data_crc: spec_checksum(metadata) }
}

/// The metadata that `region` holds under `header`: the bytes after the
/// slot header, where the region opens with `header` and the bytes carry the
/// checksum that `header` records.
pub open spec fn stored_in(header: MDAHeader, region: Seq<u8>) -> Option<Seq<u8>> {
    if region.len() >= MDA_HEADER_SIZE + header.used && parse_mda_header(
        region.subrange(0, MDA_HEADER_SIZE as int),
    ) == Some(header) && spec_checksum(
        region.subrange(MDA_HEADER_SIZE as int, MDA_HEADER_SIZE + header.used),
    ) == header.data_crc {
        Some(region.subrange(MDA_HEADER_SIZE as int, MDA_HEADER_SIZE + header.used))
    } else {
        None
    }
}

/// What was written for a version is what is read back: a slot header for
/// `metadata`, followed by `metadata`, holds `metadata`.
pub proof fn lemma_write_then_read(time: Timestamp, metadata: Seq<u8>)
    requires
        metadata.len() <= u64::MAX,
    ensures
        stored_in(header_for(time, metadata), mda_header_bytes(header_for(time, metadata)) + metadata)
            == Some(metadata),
{
    let header = header_for(time, metadata);
    let region = mda_header_bytes(header) + metadata;
    lemma_mda_header_round_trip(header);
    assert(region.subrange(0, 32) =~= mda_header_bytes(header));
    assert(region.subrange(32, 32 + header.used) =~= metadata);
}

impl BDA {
    /// Whether `metadata` can be stored under `time`: it fits in a slot, and
    /// `time` is later than the newest version.
    pub open spec fn accepts(&self, time: Timestamp, metadata: Seq<u8>) -> bool {
        metadata.len() <= self.capacity() && self.accepts_time(time)
    }

    /// `after` is this area once `metadata` was stored under `time`, and
    /// `write` is what has to reach the device for it: the version is in the
    /// slot that did not hold the newest one, the other slot is as it was,
    /// the version is now the newest, and reading back what `write` names
    /// gives `metadata`.
    pub open spec fn saved_as(
        &self,
        time: Timestamp,
        metadata: Seq<u8>,
        after: BDA,
        write: RegionWrite,
    ) -> bool {
        let slot = self.next_slot();
        let header = header_for(time, metadata);
        &&& after.header() == self.header()
        &&& write.slot == slot
        &&& write.primary_offset == self.region_offset(slot)
        &&& write.backup_offset == self.region_offset(slot + 2)
        &&& write.header@ == mda_header_bytes(header)
        &&& after.slot(slot) == Some(header)
        &&& after.slot(1 - slot) == self.slot(1 - slot)
        &&& after.newest() == Some(header)
        &&& stored_in(header, write.header@ + metadata) == Some(metadata)
    }

    /// The next version never goes to the slot that holds the newest one, and
    /// neither copy of the one slot shares a byte with a copy of the other:
    /// a write that is cut short leaves the newest version readable.
    pub proof fn lemma_next_slot_spares_newest(&self)
        requires
            self.wf(),
            self.newest() is Some,
        ensures
            self.next_slot() == 1 - self.newest_slot(),
            0 <= self.next_slot() < 2,
            forall|a: int, b: int|
                #![trigger self.region_offset(a), self.region_offset(b)]
                0 <= a < b < 4 ==> self.region_offset(a) + MDA_HEADER_SIZE + self.capacity()
                    <= self.region_offset(b),
    {
        let r = self.region_size();
        assert forall|a: int, b: int|
            #![trigger self.region_offset(a), self.region_offset(b)]
            0 <= a < b < 4 implies self.region_offset(a) + MDA_HEADER_SIZE + self.capacity()
                <= self.region_offset(b) by {
            self.lemma_parts_disjoint(a);
            assert((a + 1) * r <= b * r) by (nonlinear_arith)
                requires
                    a + 1 <= b,
                    r >= 0,
            ;
        }
    }

    /// A time that is not later than that of the newest version is not
    /// accepted, whatever the metadata.
    pub proof fn lemma_stale_time_rejected(&self, time: Timestamp, metadata: Seq<u8>)
        requires
            self.spec_last_update_time() matches Some(last) && !time.spec_later_than(last),
        ensures
            !self.accepts(time, metadata),
    {
    }

    /// The four parts of the region lie one after the other, past the static
    /// header and within the metadata area, and a slot's content fits in a
    /// part: writing one slot leaves the other slot and all that lies beyond
    /// the metadata area as they were.
    pub proof fn lemma_parts_disjoint(&self, part: int)
        requires
            self.wf(),
            0 <= part < 4,
        ensures
            BDA_STATIC_HDR_SIZE <= self.region_offset(part),
            self.region_offset(part) + MDA_HEADER_SIZE + self.capacity() == self.region_offset(part + 1),
            self.region_offset(4) == (BDA_STATIC_HDR_SECTORS + self.header().mda_size) * SECTOR_SIZE,
            self.region_offset(4) <= u64::MAX,
            0 < self.capacity(),
    {
        let r = self.region_size();
        assert(self.header().mda_size == 4 * r);
        assert(part * r >= 0) by (nonlinear_arith)
            requires
                part >= 0,
                r >= 0,
        ;
        assert((part + 1) * r == part * r + r) by (nonlinear_arith);
    }

    /// Whether metadata of `length` bytes can be stored under `time`.
    pub fn can_save(&self, time: &Timestamp, length: usize) -> (ok: bool)
        requires
            self.wf(),
        ensures
            ok == (length <= self.capacity() && self.accepts_time(*time)),
    {
        if length as u64 > self.max_data_size() {
            return false;
        }
        match self.last_update_time() {
            Some(newest) => time.later_than(&newest),
            None => true,
        }
    }

    /// Records a new version of the metadata, stamped `time`, and says what
    /// to write to the device for it. The version goes to the slot that does
    /// not hold the newest version so far. Fails with `Invalid`, and changes
    /// nothing, where `metadata` is longer than a slot can hold or `time` is
    /// not later than the newest version.
    pub fn save_state(&mut self, time: &Timestamp, metadata: &[u8]) -> (res: EngineResult<RegionWrite>)
        requires
            old(self).wf(),
        ensures
            final(self).wf(),
            final(self).header() == old(self).header(),
            res is Ok <==> old(self).accepts(*time, metadata@),
            res matches Err(e) ==> e.is_invalid() && *final(self) == *old(self),
            res matches Ok(w) ==> old(self).saved_as(*time, metadata@, *final(self), w),
    {
        proof {
            self.lemma_parts_disjoint(0);
        }
        if metadata.len() as u64 > self.max_data_size() {
            return Err(EngineError::invalid(String::from_str("metadata is larger than a slot")));
        }
        let last = self.last_update_time();
        match last {
            Some(newest) => {
                if !time.later_than(&newest) {
                    return Err(EngineError::invalid(String::from_str("overwriting newer data")));
                }
            },
            None => {},
        }
        let slot = self.next_slot_index();
        let header = MDAHeader {
            last_updated: *time,
            used: metadata.len() as u64,
            data_crc: checksum(metadata),
        };
        let primary_offset = self.part_offset(slot as u64);
        let backup_offset = self.part_offset(slot as u64 + 2);
        if slot == 0 {
            self.first = Some(header);
        } else {
            self.second = Some(header);
        }
        proof {
            lemma_write_then_read(*time, metadata@);
        }
        Ok(RegionWrite { slot, primary_offset, backup_offset, header: header.to_buf() })
    }

    /// The slot that the next version goes to.
    fn next_slot_index(&self) -> (slot: usize)
        ensures
            slot == self.next_slot(),
    {
        match (&self.first, &self.second) {
            (None, _) => 0,
            (Some(_), None) => 1,
            (Some(a), Some(b)) => if b.last_updated.later_than(&a.last_updated) {
                0
            } else {
                1
            },
        }
    }

    /// Where part `part` of the region starts, in bytes.
    fn part_offset(&self, part: u64) -> (offset: u64)
        requires
            self.wf(),
            part < 4,
        ensures
            offset == self.region_offset(part as int),
    {
        proof {
            self.lemma_parts_disjoint(part as int);
            let r = self.region_size();
            assert(part * r <= 3 * r) by (nonlinear_arith)
                requires
                    0 <= part <= 3,
                    r >= 0,
            ;
        }
        (BDA_STATIC_HDR_SECTORS + part * (self.header.mda_size / NUM_MDA_REGIONS)) * SECTOR_SIZE
    }

    /// Where to read the newest version from; `None` where nothing is
    /// stored.
    pub fn read_plan(&self) -> (plan: Option<RegionRead>)
        requires
            self.wf(),
        ensures
            plan is Some <==> self.newest() is Some,
            plan matches Some(read) ==> {
                &&& read.primary_offset == self.region_offset(self.newest_slot())
                &&& read.backup_offset == self.region_offset(self.newest_slot() + 2)
                &&& read.length == MDA_HEADER_SIZE + self.newest()->0.used
            },
    {
        proof {
            self.lemma_parts_disjoint(0);
        }
        let (slot, header): (u64, MDAHeader) = match (&self.first, &self.second) {
            (None, None) => {
                return None;
            },
            (None, Some(b)) => (1, *b),
            (Some(a), None) => (0, *a),
            (Some(a), Some(b)) => if b.last_updated.later_than(&a.last_updated) {
                (1, *b)
            } else {
                (0, *a)
            },
        };
        Some(
            RegionRead {
                primary_offset: self.part_offset(slot),
                backup_offset: self.part_offset(slot + 2),
                length: MDA_HEADER_SIZE as u64 + header.used,
            },
        )
    }

    /// Checks the bytes read from the newest slot and returns the version
    /// that they hold: its time and the metadata. Fails with `NotFound` where
    /// nothing was stored, and with `Invalid` where the bytes are not what
    /// was stored.
    pub fn load_state(&self, region: &[u8]) -> (res: EngineResult<(Timestamp, Vec<u8>)>)
        requires
            self.wf(),
        ensures
            self.newest() is None ==> res is Err && res->Err_0.kind() == Some(
                crate::errors::ErrorEnum::NotFound,
            ),
            self.newest() matches Some(header) ==> match stored_in(header, region@) {
                Some(metadata) => res is Ok && res->Ok_0.0 == header.last_updated && res->Ok_0.1@
                    == metadata,
                None => res is Err && res->Err_0.is_invalid(),
            },
    {
        proof {
            self.lemma_parts_disjoint(0);
        }
        let header = match (&self.first, &self.second) {
            (None, None) => {
                return Err(
                    EngineError::Engine(
                        crate::errors::ErrorEnum::NotFound,
                        String::from_str("no metadata was stored"),
                    ),
                );
            },
            (None, Some(b)) => *b,
            (Some(a), None) => *a,
            (Some(a), Some(b)) => if b.last_updated.later_than(&a.last_updated) {
                *b
            } else {
                *a
            },
        };
        let end: u64 = MDA_HEADER_SIZE as u64 + header.used;
        if (region.len() as u64) < end {
            return Err(EngineError::invalid(String::from_str("stored metadata is cut short")));
        }
        let found = MDAHeader::from_buf(slice_subrange(region, 0, MDA_HEADER_SIZE));
        let same = match found {
            Some(h) => h == header,
            None => false,
        };
        if !same {
            return Err(EngineError::invalid(String::from_str("slot header is not the one stored")));
        }
        let data = slice_subrange(region, MDA_HEADER_SIZE, end as usize);
        if checksum(data) != header.data_crc {
            return Err(EngineError::invalid(String::from_str("stored metadata is damaged")));
        }
        Ok((header.last_updated, vstd::slice::slice_to_vec(data)))
    }
}

} // verus!
