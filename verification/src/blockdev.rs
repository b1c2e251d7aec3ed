//! One device of a pool: its identity, its metadata area, and its free
//! space.

use vstd::prelude::*;

use crate::device::{DevUuid, Device, PoolUuid};
use crate::errors::EngineResult;
use crate::metadata::{
    bda_sizes_valid, RegionWrite, StaticHeader, Timestamp, BDA, BDA_STATIC_HDR_SECTORS,
};
use crate::range_alloc::{
    covers, gaps, granted, lemma_request_splits, min_int, remaining, used_list_wf, Extent,
    RangeAllocator,
};
use crate::units::Sectors;

verus! {

/// A device that was admitted to a pool.
#[derive(Debug)]
pub struct BlockDev {
    dev: Device,
    devnode: String,
    bda: BDA,
    used: RangeAllocator,
}

impl BlockDev {
    /// The device's identity.
    pub closed spec fn device(&self) -> Device {
        self.dev
    }

    /// The path of the device's node.
    pub closed spec fn devnode(&self) -> Seq<char> {
        self.devnode@
    }

    /// The device's metadata area.
    pub closed spec fn bda(&self) -> BDA {
        self.bda
    }

    /// The device's free space.
    pub closed spec fn allocator(&self) -> RangeAllocator {
        self.used
    }

    /// The number of free sectors.
    pub open spec fn spec_available(&self) -> int {
        self.allocator().spec_available()
    }

    /// The metadata area and the allocator are well formed, the allocator
    /// covers the device, and the sectors of the metadata area are in use.
    pub open spec fn wf(&self) -> bool {
        &&& self.bda().wf()
        &&& self.allocator().wf()
        &&& self.allocator().limit() == self.bda().header().blkdev_size
        &&& forall|s: int|
            0 <= s < BDA_STATIC_HDR_SECTORS + self.bda().header().mda_size
                ==> self.allocator().is_used(s)
    }

    /// A device made of its parts.
    pub fn new(dev: Device, devnode: String, bda: BDA, allocator: RangeAllocator) -> (bd: BlockDev)
        ensures
            bd.device() == dev,
            bd.devnode() == devnode@,
            bd.bda() == bda,
            bd.allocator() == allocator,
    {
        BlockDev { dev, devnode, bda, used: allocator }
    }

    /// A device that joins the pool `pool_uuid` as `dev_uuid`: its metadata
    /// area holds nothing yet, and all sectors after the metadata area are
    /// free. Fails with `Invalid` where the size of the metadata region is
    /// not valid or the metadata area does not fit on the device.
    pub fn initialize(
        dev: Device,
        devnode: String,
        pool_uuid: PoolUuid,
        dev_uuid: DevUuid,
        mda_size: Sectors,
        dev_size: Sectors,
    ) -> (res: EngineResult<BlockDev>)
        ensures
            res is Ok <==> bda_sizes_valid(mda_size, dev_size),
            res is Err ==> res->Err_0.is_invalid(),
            res matches Ok(bd) ==> {
                &&& bd.wf()
                &&& bd.device() == dev
                &&& bd.devnode() == devnode@
                &&& bd.bda().header() == (StaticHeader {
                    blkdev_size: dev_size,
                    pool_uuid,
                    dev_uuid,
                    mda_size,
                })
                &&& bd.bda().slot(0) is None
                &&& bd.bda().slot(1) is None
                &&& bd.allocator().free() == gaps(
                    seq![(0u64, (BDA_STATIC_HDR_SECTORS + mda_size) as u64)],
                    0,
                    dev_size as int,
                )
                &&& bd.spec_available() == dev_size - (BDA_STATIC_HDR_SECTORS + mda_size)
            },
    {
        let bda = match BDA::initialize(pool_uuid, dev_uuid, mda_size, dev_size) {
            Ok(bda) => bda,
            Err(e) => {
                return Err(e);
            },
        };
        let mut reserved: Vec<Extent> = Vec::new();
        reserved.push((0, bda.size()));
        proof {
            assert(reserved@ =~= seq![(0u64, (BDA_STATIC_HDR_SECTORS + mda_size) as u64)]);
            assert(used_list_wf(reserved@, dev_size as int));
        }
        let allocator = match RangeAllocator::new_with_used(bda.dev_size(), &reserved) {
            Ok(allocator) => allocator,
            Err(e) => {
                return Err(e);
            },
        };
        proof {
            assert forall|s: int| 0 <= s < BDA_STATIC_HDR_SECTORS + mda_size implies allocator.is_used(
                s,
            ) by {
                assert(reserved@[0].0 <= s < reserved@[0].0 + reserved@[0].1);
                assert(covers(reserved@, s));
            }
            crate::range_alloc::lemma_fresh_available(
                (BDA_STATIC_HDR_SECTORS + mda_size) as u64,
                dev_size,
            );
        }
        Ok(BlockDev::new(dev, devnode, bda, allocator))
    }

    /// The device's identity.
    pub fn dev(&self) -> (dev: Device)
        ensures
            dev == self.device(),
    {
        self.dev
    }

    /// The path of the device's node.
    pub fn devnode_path(&self) -> (path: String)
        ensures
            path@ == self.devnode(),
    {
        self.devnode.clone()
    }

    /// The pool that the device belongs to.
    pub fn pool_uuid(&self) -> (id: PoolUuid)
        ensures
            id == self.bda().header().pool_uuid,
    {
        self.bda.pool_uuid()
    }

    /// The identifier of the device.
    pub fn uuid(&self) -> (id: DevUuid)
        ensures
            id == self.bda().header().dev_uuid,
    {
        self.bda.dev_uuid()
    }

    /// The size of the device, in sectors.
    pub fn size(&self) -> (sectors: Sectors)
        ensures
            sectors == self.bda().header().blkdev_size,
    {
        self.bda.dev_size()
    }

    /// The time of the newest version of the metadata stored on the device.
    pub fn last_update_time(&self) -> (time: Option<Timestamp>)
        ensures
            time == self.bda().spec_last_update_time(),
    {
        self.bda.last_update_time()
    }

    /// The bytes of the static header region, to be written at the start of
    /// the device when it is admitted.
    pub fn header_image(&self) -> (region: Vec<u8>)
        ensures
            region@ == crate::metadata::header_image(self.bda().header()),
    {
        self.bda.header_image()
    }

    /// Gives the device up: returns the path of its node and the bytes to
    /// write at its start, which erase the static header.
    pub fn wipe_metadata(self) -> (wipe: (String, Vec<u8>))
        ensures
            wipe.0@ == self.devnode(),
            wipe.1@ == crate::metadata::zeros(crate::metadata::BDA_STATIC_HDR_SIZE as nat),
    {
        (self.devnode, StaticHeader::wipe_image())
    }

    /// The number of free sectors.
    pub fn available(&self) -> (avail: Sectors)
        requires
            self.wf(),
        ensures
            avail == self.spec_available(),
    {
        self.used.available()
    }

    /// Takes `size` sectors from the device's free space, lowest sector
    /// first, or all of it where less is free. Returns the number of sectors
    /// granted and the extents granted, in ascending order.
    pub fn request_space(&mut self, size: Sectors) -> (res: (Sectors, Vec<Extent>))
        requires
            old(self).wf(),
        ensures
            final(self).wf(),
            final(self).device() == old(self).device(),
            final(self).devnode() == old(self).devnode(),
            final(self).bda() == old(self).bda(),
            final(self).allocator().limit() == old(self).allocator().limit(),
            final(self).allocator().free() == remaining(old(self).allocator().free(), size as int),
            res.1@ == granted(old(self).allocator().free(), size as int),
            res.0 == min_int(size as int, old(self).spec_available()),
            final(self).spec_available() == old(self).spec_available() - res.0,
            forall|s: int| old(self).allocator().is_used(s) ==> final(self).allocator().is_used(s),
            forall|s: int|
                covers(res.1@, s) ==> old(self).allocator().is_free(s) && final(self).allocator().is_used(
                    s,
                ),
    {
        self.used.request(size)
    }

    /// Whether metadata of `length` bytes can be stored on this device under
    /// `time`.
    pub fn can_save(&self, time: &Timestamp, length: usize) -> (ok: bool)
        requires
            self.wf(),
        ensures
            ok == (length <= self.bda().capacity() && self.bda().accepts_time(*time)),
    {
        self.bda.can_save(time, length)
    }

    /// Records a new version of the pool's metadata for this device and says
    /// what to write to it. Fails with `Invalid`, and changes nothing, where
    /// `metadata` is longer than a slot can hold or `time` is not later than
    /// the newest version.
    pub fn save_state(&mut self, time: &Timestamp, metadata: &[u8]) -> (res: EngineResult<RegionWrite>)
        requires
            old(self).wf(),
        ensures
            final(self).wf(),
            final(self).device() == old(self).device(),
            final(self).devnode() == old(self).devnode(),
            final(self).allocator() == old(self).allocator(),
            final(self).bda().header() == old(self).bda().header(),
            res is Ok <==> old(self).bda().accepts(*time, metadata@),
            res matches Err(e) ==> e.is_invalid() && *final(self) == *old(self),
            res matches Ok(w) ==> old(self).bda().saved_as(*time, metadata@, final(self).bda(), w),
    {
        self.bda.save_state(time, metadata)
    }
}

} // verus!
