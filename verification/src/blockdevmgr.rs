//! The devices of one pool: which devices may join, how much space is free
//! on them, and where allocations and metadata go.

use vstd::prelude::*;
use vstd::string::StringExecFns;

use crate::blockdev::BlockDev;
use crate::device::{DevInfo, DevOwnership, DevUuid, Device, PoolUuid, Segment};
use crate::errors::{EngineError, EngineResult, ErrorEnum};
use crate::metadata::{
    bda_sizes_valid, mda_size_valid, validate_mda_size, RegionWrite, Timestamp,
    BDA_STATIC_HDR_SECTORS, MIN_MDA_SECTORS,
};
use crate::range_alloc::{
    covers, end_of, free_list_wf, gaps, granted, lemma_request_splits, min_int, remaining, Extent,
};
use crate::units::{bytes_to_sectors, Bytes, Sectors, SECTOR_SIZE};

verus! {

/// The smallest device that may join a pool: one gibibyte.
pub const MIN_DEV_SIZE: Bytes = 1073741824;

/// An identifier has the version and the variant of a random UUID.
pub open spec fn is_random_uuid(id: u128) -> bool {
    id & 0xf000_c000_0000_0000_0000u128 == 0x4000_8000_0000_0000_0000u128
}

/// The text of an identifier in groups of 8, 4, 4, 4 and 12 hexadecimal
/// digits, as `uuid` writes it.
pub uninterp spec fn uuid_hyphenated(id: u128) -> Seq<char>;

/// A fresh identifier for a device: `uuid::Uuid::new_v4`, taken as a number
/// by `Uuid::as_u128`. The identifier is random; all that is claimed is the
/// version and variant that `new_v4` sets in it. The call panics where the
/// operating system cannot supply random bytes.
#[verifier::external_body]
fn new_dev_uuid() -> (id: DevUuid)
    ensures
        is_random_uuid(id),
{
    uuid::Uuid::new_v4().as_u128()
}

/// The text of an identifier: `uuid::Uuid::from_u128`, written by the
/// `Display` impl of `Uuid`, which depends on the identifier alone.
#[verifier::external_body]
fn uuid_text(id: u128) -> (text: String)
    ensures
        text@ == uuid_hyphenated(id),
{
    uuid::Uuid::from_u128(id).to_string()
}

/// What is decided of a device that asks to join a pool.
#[derive(Debug, Clone, Copy, PartialEq, Eq, Structural)]
pub enum Admission {
    /// The device joins the pool and is initialized.
    Admit,
    /// The device is a member of the pool already; nothing is done to it.
    AlreadyMember,
    /// The device is smaller than `MIN_DEV_SIZE`.
    TooSmall,
    /// The device holds someone else's data, and force was not asked for.
    Foreign,
    /// The device is a member of the other pool named.
    OtherPool(PoolUuid),
}

impl Admission {
    /// The device is turned away, and the batch with it.
    pub open spec fn is_rejected(self) -> bool {
        self is TooSmall || self is Foreign || self is OtherPool
    }
}

/// The decision on a device of `size` bytes that belongs to `ownership`, for
/// the pool `pool_uuid`. Size is looked at first. A device that belongs to
/// nobody joins; one with foreign data joins only by force; one of this pool
/// is left alone; one of another pool is turned away, forced or not.
pub open spec fn admission_of(
    size: Bytes,
    ownership: DevOwnership,
    pool_uuid: PoolUuid,
    force: bool,
) -> Admission {
    if size < MIN_DEV_SIZE {
        Admission::TooSmall
    } else {
        match ownership {
            DevOwnership::Unowned => Admission::Admit,
            DevOwnership::Theirs => if force {
                Admission::Admit
            } else {
                Admission::Foreign
            },
            DevOwnership::Ours(owner) => if owner == pool_uuid {
                Admission::AlreadyMember
            } else {
                Admission::OtherPool(owner)
            },
        }
    }
}

/// Decides on one device.
pub fn decide_admission(size: Bytes, ownership: DevOwnership, pool_uuid: PoolUuid, force: bool) -> (decision:
    Admission)
    ensures
        decision == admission_of(size, ownership, pool_uuid, force),
{
    if size < MIN_DEV_SIZE {
        return Admission::TooSmall;
    }
    match ownership {
        DevOwnership::Unowned => Admission::Admit,
        DevOwnership::Theirs => if force {
            Admission::Admit
        } else {
            Admission::Foreign
        },
        DevOwnership::Ours(owner) => if owner == pool_uuid {
            Admission::AlreadyMember
        } else {
            Admission::OtherPool(owner)
        },
    }
}

/// The message of the error that turns a device away.
pub open spec fn rejection_message(devnode: Seq<char>, decision: Admission) -> Seq<char> {
    match decision {
        Admission::TooSmall => devnode + " too small, minimum 1073741824 bytes"@,
        Admission::Foreign => "Device "@ + devnode + " appears to belong to another application"@,
        Admission::OtherPool(owner) => "Device "@ + devnode + " already belongs to Stratis pool "@
            + uuid_hyphenated(owner),
        _ => Seq::<char>::empty(),
    }
}

/// The error that turns a device away: of kind `Invalid`, with the message
/// for the decision.
pub fn rejection(devnode: &str, decision: Admission) -> (err: EngineError)
    requires
        decision.is_rejected(),
    ensures
        err matches EngineError::Engine(ErrorEnum::Invalid, msg) && msg@ == rejection_message(
            devnode@,
            decision,
        ),
{
    let msg = match decision {
        Admission::TooSmall => String::from_str(devnode).concat(" too small, minimum 1073741824 bytes"),
        Admission::Foreign => String::from_str("Device ").concat(devnode).concat(
            " appears to belong to another application",
        ),
        Admission::OtherPool(owner) => String::from_str("Device ").concat(devnode).concat(
            " already belongs to Stratis pool ",
        ).concat(uuid_text(owner).as_str()),
        _ => String::new(),
    };
    EngineError::Engine(ErrorEnum::Invalid, msg)
}

/// A device that asks to join, and what was found out about it, or why
/// nothing could be.
pub type Candidate = (Device, EngineResult<DevInfo>);

/// The decision on a candidate whose information was obtained.
pub open spec fn candidate_admission(c: Candidate, pool_uuid: PoolUuid, force: bool) -> Admission {
    admission_of(c.1->Ok_0.size, c.1->Ok_0.ownership, pool_uuid, force)
}

/// The candidate stops the batch: its information could not be obtained, or
/// it is turned away.
pub open spec fn stops_batch(c: Candidate, pool_uuid: PoolUuid, force: bool) -> bool {
    c.1 is Err || candidate_admission(c, pool_uuid, force).is_rejected()
}

/// `candidates[at]` is the first that stops the batch.
pub open spec fn is_first_stop(
    candidates: Seq<Candidate>,
    pool_uuid: PoolUuid,
    force: bool,
    at: int,
) -> bool {
    &&& 0 <= at < candidates.len()
    &&& stops_batch(candidates[at], pool_uuid, force)
    &&& forall|k: int| 0 <= k < at ==> !stops_batch(#[trigger] candidates[k], pool_uuid, force)
}

/// No candidate stops the batch.
pub open spec fn batch_passes(candidates: Seq<Candidate>, pool_uuid: PoolUuid, force: bool) -> bool {
    forall|k: int|
        0 <= k < candidates.len() ==> !stops_batch(#[trigger] candidates[k], pool_uuid, force)
}

/// `err` is the error with which the candidate `c` stops the batch: the one
/// that came with it, or the rejection of its device.
pub open spec fn is_stop_error(err: EngineError, c: Candidate, pool_uuid: PoolUuid, force: bool) -> bool {
    match c.1 {
        Err(e) => err == e,
        Ok(info) => err matches EngineError::Engine(ErrorEnum::Invalid, msg) && msg@
            == rejection_message(info.devnode@, candidate_admission(c, pool_uuid, force)),
    }
}

/// The candidates that join, in order: those decided `Admit`.
pub open spec fn admitted(candidates: Seq<Candidate>, pool_uuid: PoolUuid, force: bool) -> Seq<
    (Device, DevInfo),
>
    decreases candidates.len(),
{
    if candidates.len() == 0 {
        seq![]
    } else {
        let init = admitted(candidates.drop_last(), pool_uuid, force);
        let last = candidates.last();
        if last.1 is Ok && candidate_admission(last, pool_uuid, force) is Admit {
            init.push((last.0, last.1->Ok_0))
        } else {
            init
        }
    }
}

/// Picks the devices that join the pool `pool_uuid`. The candidates are gone
/// through in order, and the first that stops the batch fails the whole of
/// it: with the error that came in place of its information, or with
/// `Invalid` where its device is turned away. Members of the pool are passed
/// over.
pub fn filter_devs(candidates: Vec<Candidate>, pool_uuid: PoolUuid, force: bool) -> (res: EngineResult<
    Vec<(Device, DevInfo)>,
>)
    ensures
        res is Ok <==> batch_passes(candidates@, pool_uuid, force),
        res matches Ok(add_devs) ==> add_devs@ == admitted(candidates@, pool_uuid, force),
        res matches Err(e) ==> exists|at: int|
            is_first_stop(candidates@, pool_uuid, force, at) && is_stop_error(
                e,
                #[trigger] candidates@[at],
                pool_uuid,
                force,
            ),
{
    let mut add_devs: Vec<(Device, DevInfo)> = Vec::new();
    let ghost all = candidates@;
    for candidate in it: candidates
        invariant
            it.seq() == all,
            forall|k: int| 0 <= k < it.index() ==> !stops_batch(#[trigger] all[k], pool_uuid, force),
            add_devs@ == admitted(all.take(it.index() as int), pool_uuid, force),
    {
        let ghost at = it.index() as int;
        assert(candidate == all[at]);
        proof {
            assert(all.take(at + 1).drop_last() =~= all.take(at));
            assert(all.take(at + 1).last() == all[at]);
        }
        let (dev, dev_result) = candidate;
        let info = match dev_result {
            Ok(info) => info,
            Err(e) => {
                assert(is_first_stop(all, pool_uuid, force, at));
                return Err(e);
            },
        };
        match decide_admission(info.size, info.ownership, pool_uuid, force) {
            Admission::Admit => {
                add_devs.push((dev, info));
            },
            Admission::AlreadyMember => {},
            decision => {
                assert(is_first_stop(all, pool_uuid, force, at));
                return Err(rejection(info.devnode.as_str(), decision));
            },
        }
    }
    proof {
        assert(all.take(all.len() as int) =~= all);
    }
    Ok(add_devs)
}

/// `bd` is the device `entry` as it joins the pool `pool_uuid` with a
/// metadata region of `mda_size` sectors: it is well formed, carries the
/// device's identity, node and size in whole sectors, has a random
/// identifier of its own, holds no metadata yet, and all its sectors after
/// the metadata area are free.
pub open spec fn initialized_from(
    bd: BlockDev,
    entry: (Device, DevInfo),
    pool_uuid: PoolUuid,
    mda_size: Sectors,
) -> bool {
    let dev_size = (entry.1.size / SECTOR_SIZE) as u64;
    &&& bd.wf()
    &&& bd.device() == entry.0
    &&& bd.devnode() == entry.1.devnode@
    &&& bd.bda().header().blkdev_size == dev_size
    &&& bd.bda().header().pool_uuid == pool_uuid
    &&& bd.bda().header().mda_size == mda_size
    &&& is_random_uuid(bd.bda().header().dev_uuid)
    &&& bd.bda().slot(0) is None
    &&& bd.bda().slot(1) is None
    &&& bd.allocator().free() == gaps(
        seq![(0u64, (BDA_STATIC_HDR_SECTORS + mda_size) as u64)],
        0,
        dev_size as int,
    )
    &&& bd.spec_available() == dev_size - (BDA_STATIC_HDR_SECTORS + mda_size)
}

/// The metadata area fits on every device that joins.
pub open spec fn all_fit(add_devs: Seq<(Device, DevInfo)>, mda_size: Sectors) -> bool {
    forall|k: int|
        0 <= k < add_devs.len() ==> bda_sizes_valid(
            mda_size,
            ((#[trigger] add_devs[k]).1.size / SECTOR_SIZE) as u64,
        )
}

/// Initializes several devices at once for the pool `pool_uuid`, so that all
/// of them are checked before anything is written to any of them.
///
/// The size of the metadata region is checked first. Then the candidates are
/// decided on in order, as `filter_devs` does, and then the metadata area
/// must fit on each device that joins. Any failure fails the whole batch,
/// and no device is produced. On success there is one device for each
/// candidate that joins, in order, each with a fresh identifier; the caller
/// writes each device's static header to it.
pub fn initialize(
    pool_uuid: PoolUuid,
    candidates: Vec<Candidate>,
    mda_size: Sectors,
    force: bool,
) -> (res: EngineResult<Vec<BlockDev>>)
    ensures
        res is Ok <==> {
            &&& mda_size_valid(mda_size)
            &&& batch_passes(candidates@, pool_uuid, force)
            &&& all_fit(admitted(candidates@, pool_uuid, force), mda_size)
        },
        res matches Ok(bds) ==> {
            &&& bds@.len() == admitted(candidates@, pool_uuid, force).len()
            &&& forall|k: int|
                0 <= k < bds@.len() ==> initialized_from(
                    #[trigger] bds@[k],
                    admitted(candidates@, pool_uuid, force)[k],
                    pool_uuid,
                    mda_size,
                )
        },
        res matches Err(e) ==> {
            if mda_size_valid(mda_size) && !batch_passes(candidates@, pool_uuid, force) {
                exists|at: int|
                    is_first_stop(candidates@, pool_uuid, force, at) && is_stop_error(
                        e,
                        #[trigger] candidates@[at],
                        pool_uuid,
                        force,
                    )
            } else {
                e.is_invalid()
            }
        },
{
    match validate_mda_size(mda_size) {
        Err(e) => {
            return Err(e);
        },
        Ok(_) => {},
    }
    let add_devs = match filter_devs(candidates, pool_uuid, force) {
        Ok(add_devs) => add_devs,
        Err(e) => {
            return Err(e);
        },
    };
    let ghost joining = add_devs@;
    let mut bds: Vec<BlockDev> = Vec::new();
    for entry in it: add_devs
        invariant
            it.seq() == joining,
            joining == admitted(candidates@, pool_uuid, force),
            mda_size_valid(mda_size),
            batch_passes(candidates@, pool_uuid, force),
            bds@.len() == it.index(),
            forall|k: int|
                0 <= k < it.index() ==> bda_sizes_valid(
                    mda_size,
                    ((#[trigger] joining[k]).1.size / SECTOR_SIZE) as u64,
                ),
            forall|k: int|
                0 <= k < bds@.len() ==> initialized_from(
                    #[trigger] bds@[k],
                    joining[k],
                    pool_uuid,
                    mda_size,
                ),
    {
        let ghost at = it.index() as int;
        assert(entry == joining[at]);
        let (dev, info) = entry;
        let dev_uuid = new_dev_uuid();
        let dev_size = bytes_to_sectors(info.size);
        match BlockDev::initialize(dev, info.devnode, pool_uuid, dev_uuid, mda_size, dev_size) {
            Ok(bd) => {
                bds.push(bd);
            },
            Err(e) => {
                assert(!all_fit(joining, mda_size)) by {
                    assert(!bda_sizes_valid(mda_size, (joining[at].1.size / SECTOR_SIZE) as u64));
                }
                return Err(e);
            },
        }
    }
    Ok(bds)
}

/// A device smaller than `MIN_DEV_SIZE` is turned away whatever it holds and
/// whether or not force is asked for.
pub proof fn lemma_small_device_rejected(
    size: Bytes,
    ownership: DevOwnership,
    pool_uuid: PoolUuid,
    force: bool,
)
    requires
        size < MIN_DEV_SIZE,
    ensures
        admission_of(size, ownership, pool_uuid, force) is TooSmall,
        admission_of(size, ownership, pool_uuid, force).is_rejected(),
{
}

/// The decisions by ownership, for a device that is large enough: one that
/// belongs to nobody joins; one with foreign data joins exactly where force
/// is asked for; a member of this pool is passed over; a member of another
/// pool is turned away, forced or not.
pub proof fn lemma_ownership_policy(size: Bytes, pool_uuid: PoolUuid, other: PoolUuid, force: bool)
    requires
        size >= MIN_DEV_SIZE,
        other != pool_uuid,
    ensures
        admission_of(size, DevOwnership::Unowned, pool_uuid, force) is Admit,
        admission_of(size, DevOwnership::Theirs, pool_uuid, force) is Admit <==> force,
        admission_of(size, DevOwnership::Theirs, pool_uuid, force).is_rejected() <==> !force,
        admission_of(size, DevOwnership::Ours(pool_uuid), pool_uuid, force) is AlreadyMember,
        admission_of(size, DevOwnership::Ours(other), pool_uuid, force).is_rejected(),
{
}

/// One candidate that is turned away fails the batch: where every
/// candidate's information was obtained and one of the devices is turned
/// away, a batch does not pass, whatever the other devices are.
pub proof fn lemma_one_rejection_stops_batch(
    candidates: Seq<Candidate>,
    pool_uuid: PoolUuid,
    force: bool,
    at: int,
)
    requires
        0 <= at < candidates.len(),
        candidates[at].1 is Ok,
        candidate_admission(candidates[at], pool_uuid, force).is_rejected(),
    ensures
        !batch_passes(candidates, pool_uuid, force),
{
    assert(stops_batch(candidates[at], pool_uuid, force));
}

/// Where the information of every candidate was obtained, the error of a
/// batch that does not pass is of kind `Invalid`: it is the rejection of the
/// first device that is turned away.
pub proof fn lemma_rejected_batch_is_invalid(
    candidates: Seq<Candidate>,
    pool_uuid: PoolUuid,
    force: bool,
    at: int,
    err: EngineError,
)
    requires
        forall|k: int| 0 <= k < candidates.len() ==> (#[trigger] candidates[k]).1 is Ok,
        is_first_stop(candidates, pool_uuid, force, at),
        is_stop_error(err, candidates[at], pool_uuid, force),
    ensures
        err.is_invalid(),
        candidate_admission(candidates[at], pool_uuid, force).is_rejected(),
{
}

/// A candidate that is a member of the pool already adds nothing to the
/// devices that join.
pub proof fn lemma_member_is_passed_over(
    candidates: Seq<Candidate>,
    member: Candidate,
    pool_uuid: PoolUuid,
    force: bool,
)
    requires
        member.1 is Ok,
        candidate_admission(member, pool_uuid, force) is AlreadyMember,
    ensures
        !stops_batch(member, pool_uuid, force),
        admitted(candidates.push(member), pool_uuid, force) == admitted(candidates, pool_uuid, force),
{
    assert(candidates.push(member).drop_last() =~= candidates);
}

/// No two of `devs` have the same node.
pub open spec fn devnodes_distinct(devs: Seq<BlockDev>) -> bool {
    forall|i: int, j: int|
        0 <= i < j < devs.len() ==> (#[trigger] devs[i]).devnode() != (#[trigger] devs[j]).devnode()
}

/// One of `devs` has the node `devnode`.
pub open spec fn has_devnode(devs: Seq<BlockDev>, devnode: Seq<char>) -> bool {
    exists|i: int| 0 <= i < devs.len() && (#[trigger] devs[i]).devnode() == devnode
}

/// The place in `devs` of a device with the node `devnode`.
pub open spec fn index_of_devnode(devs: Seq<BlockDev>, devnode: Seq<char>) -> int {
    choose|i: int| 0 <= i < devs.len() && (#[trigger] devs[i]).devnode() == devnode
}

/// `devs` with `bd` put in: in place of the device with the same node where
/// there is one, at the end otherwise.
pub open spec fn insert_dev(devs: Seq<BlockDev>, bd: BlockDev) -> Seq<BlockDev> {
    if has_devnode(devs, bd.devnode()) {
        devs.update(index_of_devnode(devs, bd.devnode()), bd)
    } else {
        devs.push(bd)
    }
}

/// `devs` with each of `new` put in, in order.
pub open spec fn insert_all(devs: Seq<BlockDev>, new: Seq<BlockDev>) -> Seq<BlockDev>
    decreases new.len(),
{
    if new.len() == 0 {
        devs
    } else {
        insert_dev(insert_all(devs, new.drop_last()), new.last())
    }
}

/// Every device of `devs` is well formed.
pub open spec fn all_wf(devs: Seq<BlockDev>) -> bool {
    forall|i: int| 0 <= i < devs.len() ==> (#[trigger] devs[i]).wf()
}

/// The free sectors of all of `devs` together.
pub open spec fn total_avail(devs: Seq<BlockDev>) -> int
    decreases devs.len(),
{
    if devs.len() == 0 {
        0
    } else {
        total_avail(devs.drop_last()) + devs.last().spec_available()
    }
}

/// The node of each device, in order.
pub open spec fn devnodes_of(devs: Seq<BlockDev>) -> Seq<Seq<char>> {
    Seq::new(devs.len(), |i: int| devs[i].devnode())
}

/// Putting a device in keeps the nodes distinct and the devices well formed,
/// and the device is then found under its node.
pub proof fn lemma_insert_dev(devs: Seq<BlockDev>, bd: BlockDev)
    requires
        devnodes_distinct(devs),
    ensures
        devnodes_distinct(insert_dev(devs, bd)),
        all_wf(devs) && bd.wf() ==> all_wf(insert_dev(devs, bd)),
        has_devnode(insert_dev(devs, bd), bd.devnode()),
        insert_dev(devs, bd)[index_of_devnode(insert_dev(devs, bd), bd.devnode())] == bd,
        forall|d: Seq<char>|
            d != bd.devnode() ==> (has_devnode(insert_dev(devs, bd), d) <==> has_devnode(devs, d)),
{
    let out = insert_dev(devs, bd);
    let at = if has_devnode(devs, bd.devnode()) {
        index_of_devnode(devs, bd.devnode())
    } else {
        devs.len() as int
    };
    assert(out[at] == bd);
    assert(has_devnode(out, bd.devnode()));
    assert forall|i: int, j: int| 0 <= i < j < out.len() implies (#[trigger] out[i]).devnode() != (
    #[trigger] out[j]).devnode() by {
        if i != at && j != at {
            assert(out[i] == devs[i]);
            assert(out[j] == devs[j]);
        } else if i == at {
            assert(out[j] == devs[j]);
            if has_devnode(devs, bd.devnode()) {
                assert(devs[at].devnode() == bd.devnode());
            }
        } else {
            assert(out[i] == devs[i]);
            if has_devnode(devs, bd.devnode()) {
                assert(devs[at].devnode() == bd.devnode());
            }
        }
    }
    let found = index_of_devnode(out, bd.devnode());
    if found != at {
        if found < at {
            assert(out[found].devnode() != out[at].devnode());
        } else {
            assert(out[at].devnode() != out[found].devnode());
        }
    }
    assert forall|d: Seq<char>| d != bd.devnode() implies (has_devnode(out, d) <==> has_devnode(
        devs,
        d,
    )) by {
        if has_devnode(out, d) {
            let i = choose|i: int| 0 <= i < out.len() && (#[trigger] out[i]).devnode() == d;
            assert(devs[i].devnode() == d);
        }
        if has_devnode(devs, d) {
            let i = choose|i: int| 0 <= i < devs.len() && (#[trigger] devs[i]).devnode() == d;
            assert(out[i].devnode() == d);
        }
    }
}

/// Putting several devices in keeps the nodes distinct and the devices well
/// formed.
pub proof fn lemma_insert_all(devs: Seq<BlockDev>, new: Seq<BlockDev>)
    requires
        devnodes_distinct(devs),
    ensures
        devnodes_distinct(insert_all(devs, new)),
        all_wf(devs) && all_wf(new) ==> all_wf(insert_all(devs, new)),
    decreases new.len(),
{
    if new.len() > 0 {
        lemma_insert_all(devs, new.drop_last());
        lemma_insert_dev(insert_all(devs, new.drop_last()), new.last());
        if all_wf(new) {
            assert forall|i: int| 0 <= i < new.drop_last().len() implies (
            #[trigger] new.drop_last()[i]).wf() by {
                assert(new.drop_last()[i] == new[i]);
            }
            assert(new.last().wf());
        }
    }
}

/// The free space of well-formed devices is never negative.
pub proof fn lemma_total_avail_nonneg(devs: Seq<BlockDev>)
    requires
        all_wf(devs),
    ensures
        0 <= total_avail(devs),
    decreases devs.len(),
{
    if devs.len() > 0 {
        let init = devs.drop_last();
        assert forall|i: int| 0 <= i < init.len() implies (#[trigger] init[i]).wf() by {
            assert(init[i] == devs[i]);
        }
        lemma_total_avail_nonneg(init);
        crate::range_alloc::lemma_total_len_nonneg(devs.last().allocator().free());
    }
}

/// The extents `extents` of the device `device`, as segments.
pub open spec fn to_segments(device: Device, extents: Seq<Extent>) -> Seq<Segment> {
    Seq::new(
        extents.len(),
        |i: int| Segment { start: extents[i].0, length: extents[i].1, device },
    )
}

/// The sectors in `segs`, counting each segment's length.
pub open spec fn seg_total(segs: Seq<Segment>) -> int
    decreases segs.len(),
{
    if segs.len() == 0 {
        0
    } else {
        seg_total(segs.drop_last()) + segs.last().length
    }
}

/// What is still asked of the device at place `at`, when `amount` sectors
/// are asked of `devs` in order: what the devices before it could not give.
pub open spec fn needed_at(devs: Seq<BlockDev>, amount: int, at: int) -> int {
    amount - min_int(amount, total_avail(devs.take(at)))
}

/// The segments granted when `amount` sectors are asked of `devs` in order:
/// each device grants from its lowest free sectors what is still asked of it.
pub open spec fn pool_granted(devs: Seq<BlockDev>, amount: int) -> Seq<Segment>
    decreases devs.len(),
{
    if devs.len() == 0 {
        seq![]
    } else {
        pool_granted(devs.drop_last(), amount) + to_segments(
            devs.last().device(),
            granted(devs.last().allocator().free(), needed_at(devs, amount, devs.len() - 1)),
        )
    }
}

/// `after` is the device `before` once `needed` sectors were asked of it:
/// the same device, with what was granted gone from its free space.
pub open spec fn after_request(before: BlockDev, after: BlockDev, needed: int) -> bool {
    &&& after.wf()
    &&& after.device() == before.device()
    &&& after.devnode() == before.devnode()
    &&& after.bda() == before.bda()
    &&& after.allocator().limit() == before.allocator().limit()
    &&& after.allocator().free() == remaining(before.allocator().free(), needed)
}

/// `after` is what `before` becomes when `amount` sectors are allocated from
/// it: each device in place, having been asked for what was still needed.
pub open spec fn after_alloc(before: Seq<BlockDev>, after: Seq<BlockDev>, amount: int) -> bool {
    &&& after.len() == before.len()
    &&& forall|i: int|
        0 <= i < before.len() ==> after_request(before[i], #[trigger] after[i], needed_at(before, amount, i))
}

/// The total of two runs of segments is the sum of their totals.
pub proof fn lemma_seg_total_concat(a: Seq<Segment>, b: Seq<Segment>)
    ensures
        seg_total(a + b) == seg_total(a) + seg_total(b),
    decreases b.len(),
{
    if b.len() == 0 {
        assert(a + b =~= a);
    } else {
        assert((a + b).drop_last() =~= a + b.drop_last());
        lemma_seg_total_concat(a, b.drop_last());
    }
}

/// Segments hold as many sectors as the extents that they were made from.
pub proof fn lemma_seg_total_of_extents(device: Device, extents: Seq<Extent>)
    ensures
        seg_total(to_segments(device, extents)) == crate::range_alloc::total_len(extents),
    decreases extents.len(),
{
    if extents.len() == 0 {
    } else {
        let init = extents.drop_last();
        assert(to_segments(device, extents).drop_last() =~= to_segments(device, init));
        lemma_seg_total_of_extents(device, init);
        crate::range_alloc::lemma_total_len_push(init, extents.last());
        assert(init.push(extents.last()) =~= extents);
    }
}

/// The free space of the first `at + 1` devices is that of the first `at`
/// and that of the device at `at`.
pub proof fn lemma_total_avail_step(devs: Seq<BlockDev>, at: int)
    requires
        0 <= at < devs.len(),
    ensures
        total_avail(devs.take(at + 1)) == total_avail(devs.take(at)) + devs[at].spec_available(),
{
    assert(devs.take(at + 1).drop_last() =~= devs.take(at));
    assert(devs.take(at + 1).last() == devs[at]);
}

/// The free space of a part of the devices is no more than that of all.
pub proof fn lemma_total_avail_monotone(devs: Seq<BlockDev>, at: int)
    requires
        all_wf(devs),
        0 <= at <= devs.len(),
    ensures
        0 <= total_avail(devs.take(at)) <= total_avail(devs),
    decreases devs.len() - at,
{
    if at == devs.len() {
        assert(devs.take(at) =~= devs);
        lemma_total_avail_nonneg(devs);
    } else {
        lemma_total_avail_monotone(devs, at + 1);
        lemma_total_avail_step(devs, at);
        crate::range_alloc::lemma_total_len_nonneg(devs[at].allocator().free());
        assert forall|i: int| 0 <= i < devs.take(at).len() implies (#[trigger] devs.take(at)[i]).wf() by {
            assert(devs.take(at)[i] == devs[i]);
        }
        lemma_total_avail_nonneg(devs.take(at));
    }
}

/// An allocation grants exactly what was asked for where that much is free,
/// and all that is free otherwise; and it takes that much from the free
/// space.
pub proof fn lemma_pool_granted_total(before: Seq<BlockDev>, after: Seq<BlockDev>, amount: int)
    requires
        all_wf(before),
        0 <= amount,
        after_alloc(before, after, amount),
    ensures
        seg_total(pool_granted(before, amount)) == min_int(amount, total_avail(before)),
        total_avail(after) == total_avail(before) - min_int(amount, total_avail(before)),
    decreases before.len(),
{
    if before.len() == 0 {
        assert(after =~= Seq::<BlockDev>::empty());
    } else {
        let n = before.len() - 1;
        let b0 = before.drop_last();
        let a0 = after.drop_last();
        assert(before.take(n) =~= b0);
        assert forall|i: int| 0 <= i < b0.len() implies (#[trigger] b0[i]).wf() by {
            assert(b0[i] == before[i]);
        }
        assert forall|i: int| 0 <= i < b0.len() implies after_request(
            b0[i],
            #[trigger] a0[i],
            needed_at(b0, amount, i),
        ) by {
            assert(a0[i] == after[i]);
            assert(b0[i] == before[i]);
            assert(b0.take(i) =~= before.take(i));
        }
        lemma_pool_granted_total(b0, a0, amount);
        lemma_total_avail_nonneg(b0);
        let needed = needed_at(before, amount, n);
        let free = before.last().allocator().free();
        crate::range_alloc::lemma_request_totals(free, needed);
        crate::range_alloc::lemma_total_len_nonneg(free);
        lemma_seg_total_of_extents(before.last().device(), granted(free, needed));
        lemma_seg_total_concat(
            pool_granted(b0, amount),
            to_segments(before.last().device(), granted(free, needed)),
        );
        assert(after.last() == after[n]);
    }
}

/// Once the devices before `at` have granted all that was asked for, the
/// devices from `at` on grant nothing.
pub proof fn lemma_granted_by_prefix(devs: Seq<BlockDev>, amount: int, at: int)
    requires
        all_wf(devs),
        0 <= at <= devs.len(),
        0 <= amount,
        needed_at(devs, amount, at) == 0,
    ensures
        pool_granted(devs, amount) == pool_granted(devs.take(at), amount),
        forall|k: int| at <= k <= devs.len() ==> needed_at(devs, amount, k) == 0,
    decreases devs.len(),
{
    if at == devs.len() {
        assert(devs.take(at) =~= devs);
    } else {
        let init = devs.drop_last();
        let n = devs.len() - 1;
        assert forall|i: int| 0 <= i < init.len() implies (#[trigger] init[i]).wf() by {
            assert(init[i] == devs[i]);
        }
        assert(init.take(at) =~= devs.take(at));
        assert(devs.take(n) =~= init);
        lemma_total_avail_monotone(init, at);
        lemma_granted_by_prefix(init, amount, at);
        assert(needed_at(devs, amount, n) == 0);
        let nothing = granted(devs.last().allocator().free(), 0);
        assert(to_segments(devs.last().device(), nothing) =~= Seq::<Segment>::empty());
        assert(pool_granted(devs, amount) =~= pool_granted(init, amount));
        assert forall|k: int| at <= k <= devs.len() implies needed_at(devs, amount, k) == 0 by {
            if k <= n {
                assert(init.take(k) =~= devs.take(k));
                assert(needed_at(init, amount, k) == 0);
            } else {
                lemma_total_avail_monotone(devs, at);
                assert(devs.take(k) =~= devs);
            }
        }
    }
}

/// Every device of `devs` can store `metadata` under `time`.
pub open spec fn all_accept(devs: Seq<BlockDev>, time: Timestamp, metadata: Seq<u8>) -> bool {
    forall|i: int| 0 <= i < devs.len() ==> (#[trigger] devs[i]).bda().accepts(time, metadata)
}

/// `after` is the device `before` once `metadata` was stored on it under
/// `time`, and `write` says what to write to it: the device's node, and the
/// slot header and offsets for the version.
pub open spec fn after_save(
    before: BlockDev,
    after: BlockDev,
    time: Timestamp,
    metadata: Seq<u8>,
    write: (String, RegionWrite),
) -> bool {
    &&& after.wf()
    &&& after.device() == before.device()
    &&& after.devnode() == before.devnode()
    &&& after.allocator() == before.allocator()
    &&& write.0@ == before.devnode()
    &&& before.bda().saved_as(time, metadata, after.bda(), write.1)
}

/// `new` are the devices that join when `candidates` are admitted to the
/// pool with a metadata region of `mda_size` sectors.
pub open spec fn joined(
    new: Seq<BlockDev>,
    candidates: Seq<Candidate>,
    pool_uuid: PoolUuid,
    mda_size: Sectors,
    force: bool,
) -> bool {
    &&& new.len() == admitted(candidates, pool_uuid, force).len()
    &&& forall|k: int|
        0 <= k < new.len() ==> initialized_from(
            #[trigger] new[k],
            admitted(candidates, pool_uuid, force)[k],
            pool_uuid,
            mda_size,
        )
}

/// The outcomes that are failures, in order, each with its device's node.
pub open spec fn failures_of(outcomes: Seq<(String, EngineResult<()>)>) -> Seq<(String, EngineError)>
    decreases outcomes.len(),
{
    if outcomes.len() == 0 {
        seq![]
    } else {
        let init = failures_of(outcomes.drop_last());
        match outcomes.last().1 {
            Err(e) => init.push((outcomes.last().0, e)),
            Ok(_) => init,
        }
    }
}

/// What an allocation does to one device: every sector that was in use
/// stays in use, so neither the metadata area nor an earlier grant is given
/// out again; and every sector that the device grants was free before and is
/// in use afterwards. The extents that one device grants ascend and do not
/// touch each other.
pub proof fn lemma_alloc_takes_free_sectors(
    before: Seq<BlockDev>,
    after: Seq<BlockDev>,
    amount: int,
    i: int,
)
    requires
        all_wf(before),
        0 <= amount,
        after_alloc(before, after, amount),
        0 <= i < before.len(),
    ensures
        forall|s: int| before[i].allocator().is_used(s) ==> after[i].allocator().is_used(s),
        forall|s: int|
            covers(granted(before[i].allocator().free(), needed_at(before, amount, i)), s) ==> {
                &&& before[i].allocator().is_free(s)
                &&& after[i].allocator().is_used(s)
            },
        free_list_wf(
            granted(before[i].allocator().free(), needed_at(before, amount, i)),
            before[i].allocator().limit() as int,
        ),
{
    let free = before[i].allocator().free();
    let limit = before[i].allocator().limit() as int;
    let needed = needed_at(before, amount, i);
    assert(before[i].wf());
    assert(after_request(before[i], after[i], needed));
    lemma_request_splits(free, limit, needed);
    assert forall|s: int| covers(granted(free, needed), s) implies before[i].allocator().is_free(s)
        && after[i].allocator().is_used(s) by {
        assert(covers(free, s));
        let k = choose|k: int| 0 <= k < free.len() && (#[trigger] free[k]).0 <= s < end_of(free[k]);
        if covers(remaining(free, needed), s) {
            // A sector cannot be granted and stay free: what is granted lies
            // below what stays free.
            assert(s < s);
        }
    }
}

/// The extents that the device at place `i` grants when `amount` sectors are
/// asked of `devs` in order.
pub open spec fn device_grant(devs: Seq<BlockDev>, amount: int, i: int) -> Seq<Extent> {
    granted(devs[i].allocator().free(), needed_at(devs, amount, i))
}

/// `seg` is the extent at place `j` among those that the device at place `i`
/// grants, on that device.
pub open spec fn is_grant_of(seg: Segment, devs: Seq<BlockDev>, amount: int, i: int, j: int) -> bool {
    &&& 0 <= i < devs.len()
    &&& 0 <= j < device_grant(devs, amount, i).len()
    &&& seg == (Segment {
        start: device_grant(devs, amount, i)[j].0,
        length: device_grant(devs, amount, i)[j].1,
        device: devs[i].device(),
    })
}

/// Every segment that an allocation returns is an extent granted by one of
/// the devices, on that device.
pub proof fn lemma_segment_origin(devs: Seq<BlockDev>, amount: int, k: int)
    requires
        0 <= k < pool_granted(devs, amount).len(),
    ensures
        exists|i: int, j: int| is_grant_of(pool_granted(devs, amount)[k], devs, amount, i, j),
    decreases devs.len(),
{
    let init = devs.drop_last();
    let n = devs.len() - 1;
    let head = pool_granted(init, amount);
    if k < head.len() {
        lemma_segment_origin(init, amount, k);
        let (i, j) = choose|i: int, j: int| is_grant_of(head[k], init, amount, i, j);
        assert(init[i] == devs[i]);
        assert(init.take(i) =~= devs.take(i));
        assert(is_grant_of(pool_granted(devs, amount)[k], devs, amount, i, j));
    } else {
        let j = k - head.len();
        assert(devs[n] == devs.last());
        assert(is_grant_of(pool_granted(devs, amount)[k], devs, amount, n, j));
    }
}

/// Allocating all that is free leaves nothing: the segments hold exactly the
/// free space, and afterwards a request for `next` sectors, be it one
/// sector, is more than what is free.
pub proof fn lemma_alloc_everything(before: Seq<BlockDev>, after: Seq<BlockDev>, next: Sectors)
    requires
        all_wf(before),
        after_alloc(before, after, total_avail(before)),
        1 <= next,
    ensures
        seg_total(pool_granted(before, total_avail(before))) == total_avail(before),
        total_avail(after) == 0,
        !(next <= total_avail(after)),
{
    lemma_total_avail_nonneg(before);
    lemma_pool_granted_total(before, after, total_avail(before));
}

/// A version that is not later than the newest one on some device is not
/// accepted by the pool.
pub proof fn lemma_stale_time_stops_save(
    devs: Seq<BlockDev>,
    time: Timestamp,
    metadata: Seq<u8>,
    i: int,
)
    requires
        0 <= i < devs.len(),
        devs[i].bda().spec_last_update_time() matches Some(last) && !time.spec_later_than(last),
    ensures
        !all_accept(devs, time, metadata),
{
    assert(!devs[i].bda().accepts(time, metadata));
}

/// The devices of one pool, each under the path of its node.
#[derive(Debug)]
pub struct BlockDevMgr {
    block_devs: Vec<BlockDev>,
}

impl BlockDevMgr {
    /// The devices, in the order in which their nodes were first put in.
    pub closed spec fn devs(&self) -> Seq<BlockDev> {
        self.block_devs@
    }

    /// The nodes are distinct and the devices well formed.
    pub open spec fn wf(&self) -> bool {
        devnodes_distinct(self.devs()) && all_wf(self.devs())
    }

    /// A manager of the devices given. Where two of them have one node, the
    /// later takes the earlier one's place.
    pub fn new(block_devs: Vec<BlockDev>) -> (mgr: BlockDevMgr)
        ensures
            mgr.devs() == insert_all(Seq::<BlockDev>::empty(), block_devs@),
            devnodes_distinct(mgr.devs()),
            all_wf(block_devs@) ==> mgr.wf(),
    {
        let mut mgr = BlockDevMgr { block_devs: Vec::new() };
        mgr.insert_devs(block_devs);
        mgr
    }

    /// Puts each of `new` in, in order.
    fn insert_devs(&mut self, new: Vec<BlockDev>)
        requires
            devnodes_distinct(old(self).devs()),
        ensures
            final(self).devs() == insert_all(old(self).devs(), new@),
            devnodes_distinct(final(self).devs()),
            all_wf(old(self).devs()) && all_wf(new@) ==> all_wf(final(self).devs()),
    {
        let ghost all = new@;
        let ghost start = self.block_devs@;
        for bd in it: new
            invariant
                it.seq() == all,
                self.block_devs@ == insert_all(start, all.take(it.index() as int)),
                devnodes_distinct(self.block_devs@),
        {
            let ghost at = it.index() as int;
            assert(bd == all[at]);
            proof {
                assert(all.take(at + 1).drop_last() =~= all.take(at));
                assert(all.take(at + 1).last() == all[at]);
                lemma_insert_dev(self.block_devs@, bd);
            }
            self.insert(bd);
        }
        proof {
            assert(all.take(all.len() as int) =~= all);
            lemma_insert_all(start, all);
        }
    }

    /// Puts `bd` in: in place of the device with the same node where there
    /// is one, at the end otherwise.
    fn insert(&mut self, bd: BlockDev)
        requires
            devnodes_distinct(old(self).devs()),
        ensures
            final(self).devs() == insert_dev(old(self).devs(), bd),
    {
        let devnode = bd.devnode_path();
        let mut i: usize = 0;
        while i < self.block_devs.len()
            invariant
                0 <= i <= self.block_devs.len(),
                self.block_devs@ == old(self).block_devs@,
                devnode@ == bd.devnode(),
                devnodes_distinct(self.block_devs@),
                forall|k: int| 0 <= k < i ==> (#[trigger] self.block_devs@[k]).devnode() != devnode@,
            decreases self.block_devs.len() - i,
        {
            if self.block_devs[i].devnode_path() == devnode {
                proof {
                    let found = index_of_devnode(self.block_devs@, bd.devnode());
                    assert(self.block_devs@[i as int].devnode() == bd.devnode());
                    if found < i {
                        assert(self.block_devs@[found].devnode() != bd.devnode());
                    } else if found > i {
                        assert(self.block_devs@[i as int].devnode() != self.block_devs@[found].devnode());
                    }
                }
                self.block_devs.set(i, bd);
                return ;
            }
            i = i + 1;
        }
        self.block_devs.push(bd);
    }

    /// The devices, in order.
    pub fn block_devs(&self) -> (devs: &Vec<BlockDev>)
        ensures
            devs@ == self.devs(),
    {
        &self.block_devs
    }

    /// The number of devices.
    pub fn len(&self) -> (n: usize)
        ensures
            n == self.devs().len(),
    {
        self.block_devs.len()
    }

    /// The free sectors of all devices together; `u64::MAX` where they are
    /// more than that.
    pub fn avail_space(&self) -> (avail: Sectors)
        requires
            self.wf(),
        ensures
            avail == min_int(total_avail(self.devs()), u64::MAX as int),
    {
        let mut avail: Sectors = 0;
        let mut i: usize = 0;
        proof {
            assert(self.block_devs@.take(0) =~= Seq::<BlockDev>::empty());
        }
        while i < self.block_devs.len()
            invariant
                0 <= i <= self.block_devs.len(),
                all_wf(self.block_devs@),
                0 <= total_avail(self.block_devs@.take(i as int)),
                avail == min_int(total_avail(self.block_devs@.take(i as int)), u64::MAX as int),
            decreases self.block_devs.len() - i,
        {
            proof {
                assert(self.block_devs@.take(i + 1).drop_last() =~= self.block_devs@.take(i as int));
                assert(self.block_devs@.take(i + 1).last() == self.block_devs@[i as int]);
                crate::range_alloc::lemma_total_len_nonneg(self.block_devs@[i as int].allocator().free());
            }
            avail = avail.saturating_add(self.block_devs[i].available());
            i = i + 1;
        }
        proof {
            assert(self.block_devs@.take(self.block_devs.len() as int) =~= self.block_devs@);
        }
        avail
    }

    /// The path of each device's node, in order.
    pub fn devnodes(&self) -> (paths: Vec<String>)
        ensures
            paths@.len() == self.devs().len(),
            forall|i: int| 0 <= i < paths@.len() ==> (#[trigger] paths@[i])@ == self.devs()[i].devnode(),
    {
        let mut paths: Vec<String> = Vec::new();
        let mut i: usize = 0;
        while i < self.block_devs.len()
            invariant
                0 <= i <= self.block_devs.len(),
                paths@.len() == i,
                forall|k: int| 0 <= k < i ==> (#[trigger] paths@[k])@ == self.block_devs@[k].devnode(),
            decreases self.block_devs.len() - i,
        {
            paths.push(self.block_devs[i].devnode_path());
            i = i + 1;
        }
        paths
    }

    /// Allocates `size` sectors from the pool. Returns `None`, and changes
    /// nothing, where fewer sectors are free. Otherwise the devices are asked
    /// in order, each for what the ones before it could not give, and the
    /// segments granted are returned in that order; together they hold
    /// exactly `size` sectors, none of which was in use before.
    pub fn alloc_space(&mut self, size: Sectors) -> (res: Option<Vec<Segment>>)
        requires
            old(self).wf(),
        ensures
            final(self).wf(),
            res is Some <==> size <= total_avail(old(self).devs()),
            res is None ==> final(self).devs() == old(self).devs(),
            res matches Some(segs) ==> {
                &&& segs@ == pool_granted(old(self).devs(), size as int)
                &&& after_alloc(old(self).devs(), final(self).devs(), size as int)
                &&& seg_total(segs@) == size
                &&& total_avail(final(self).devs()) == total_avail(old(self).devs()) - size
            },
    {
        let mut needed: Sectors = size;
        let mut segs: Vec<Segment> = Vec::new();
        if self.avail_space() < size {
            return None;
        }
        let ghost before = self.block_devs@;
        let n = self.block_devs.len();
        let mut i: usize = 0;
        proof {
            assert(before.take(0) =~= Seq::<BlockDev>::empty());
            lemma_total_avail_nonneg(before);
        }
        while i < n && needed > 0
            invariant
                0 <= i <= n,
                n == before.len(),
                self.block_devs@.len() == n,
                all_wf(before),
                devnodes_distinct(before),
                size <= total_avail(before),
                needed == needed_at(before, size as int, i as int),
                segs@ == pool_granted(before.take(i as int), size as int),
                forall|k: int|
                    0 <= k < i ==> after_request(
                        before[k],
                        #[trigger] self.block_devs@[k],
                        needed_at(before, size as int, k),
                    ),
                forall|k: int| i <= k < n ==> self.block_devs@[k] == before[k],
            decreases n - i,
        {
            assert(self.block_devs@[i as int] == before[i as int]);
            assert(before[i as int].wf());
            let device = self.block_devs[i].dev();
            let (gotten, r_segs) = self.block_devs[i].request_space(needed);
            let ghost base = segs@;
            let mut j: usize = 0;
            while j < r_segs.len()
                invariant
                    0 <= j <= r_segs.len(),
                    segs@ == base + to_segments(device, r_segs@.take(j as int)),
                decreases r_segs.len() - j,
            {
                let (start, len) = r_segs[j];
                segs.push(Segment::new(device, start, len));
                proof {
                    assert(segs@ =~= base + to_segments(device, r_segs@.take(j + 1)));
                }
                j = j + 1;
            }
            proof {
                assert(r_segs@.take(r_segs.len() as int) =~= r_segs@);
                assert(before.take(i + 1).drop_last() =~= before.take(i as int));
                assert(before.take(i + 1).last() == before[i as int]);
                assert(before.take(i + 1).take(i as int) =~= before.take(i as int));
                lemma_total_avail_step(before, i as int);
                crate::range_alloc::lemma_total_len_nonneg(before[i as int].allocator().free());
                lemma_total_avail_monotone(before, i as int);
            }
            needed = needed - gotten;
            i = i + 1;
        }
        proof {
            lemma_total_avail_monotone(before, i as int);
            if i < n {
                lemma_granted_by_prefix(before, size as int, i as int);
            } else {
                assert(before.take(n as int) =~= before);
            }
            let after = self.block_devs@;
            assert forall|k: int| 0 <= k < n implies after_request(
                before[k],
                #[trigger] after[k],
                needed_at(before, size as int, k),
            ) by {
                if k >= i {
                    assert(needed_at(before, size as int, k) == 0);
                }
            }
            assert forall|a: int, b: int| 0 <= a < b < n implies (#[trigger] after[a]).devnode() != (
            #[trigger] after[b]).devnode() by {
                assert(after_request(before[a], after[a], needed_at(before, size as int, a)));
                assert(after_request(before[b], after[b], needed_at(before, size as int, b)));
            }
            lemma_pool_granted_total(before, after, size as int);
        }
        Some(segs)
    }

    /// A manager for the pool `pool_uuid` with the candidates that join it.
    /// Fails as `initialize` does, and then no device is to be written to.
    /// On success the caller writes each device's static header to it.
    pub fn initialize(
        pool_uuid: PoolUuid,
        candidates: Vec<Candidate>,
        mda_size: Sectors,
        force: bool,
    ) -> (res: EngineResult<BlockDevMgr>)
        ensures
            res is Ok <==> {
                &&& mda_size_valid(mda_size)
                &&& batch_passes(candidates@, pool_uuid, force)
                &&& all_fit(admitted(candidates@, pool_uuid, force), mda_size)
            },
            res matches Ok(mgr) ==> mgr.wf() && exists|new: Seq<BlockDev>|
                #![trigger insert_all(Seq::<BlockDev>::empty(), new)]
                joined(new, candidates@, pool_uuid, mda_size, force) && mgr.devs() == insert_all(
                    Seq::<BlockDev>::empty(),
                    new,
                ),
            res matches Err(e) ==> {
                if mda_size_valid(mda_size) && !batch_passes(candidates@, pool_uuid, force) {
                    exists|at: int|
                        is_first_stop(candidates@, pool_uuid, force, at) && is_stop_error(
                            e,
                            #[trigger] candidates@[at],
                            pool_uuid,
                            force,
                        )
                } else {
                    e.is_invalid()
                }
            },
    {
        match initialize(pool_uuid, candidates, mda_size, force) {
            Ok(bds) => {
                let ghost new = bds@;
                proof {
                    assert forall|k: int| 0 <= k < new.len() implies (#[trigger] new[k]).wf() by {
                        assert(initialized_from(
                            new[k],
                            admitted(candidates@, pool_uuid, force)[k],
                            pool_uuid,
                            mda_size,
                        ));
                    }
                }
                Ok(BlockDevMgr::new(bds))
            },
            Err(e) => Err(e),
        }
    }

    /// Admits the candidates that join the pool `pool_uuid`, with the
    /// smallest metadata region, and returns the paths of their nodes. A
    /// device whose node the manager holds already takes that device's
    /// place. Fails as `initialize` does, and then nothing is changed.
    pub fn add(&mut self, pool_uuid: PoolUuid, candidates: Vec<Candidate>, force: bool) -> (res:
        EngineResult<Vec<String>>)
        requires
            old(self).wf(),
        ensures
            final(self).wf(),
            res is Ok <==> {
                &&& batch_passes(candidates@, pool_uuid, force)
                &&& all_fit(admitted(candidates@, pool_uuid, force), MIN_MDA_SECTORS)
            },
            res matches Ok(paths) ==> {
                &&& paths@.len() == admitted(candidates@, pool_uuid, force).len()
                &&& forall|k: int|
                    0 <= k < paths@.len() ==> (#[trigger] paths@[k])@ == admitted(
                        candidates@,
                        pool_uuid,
                        force,
                    )[k].1.devnode@
                &&& exists|new: Seq<BlockDev>|
                    #![trigger insert_all(old(self).devs(), new)]
                    joined(new, candidates@, pool_uuid, MIN_MDA_SECTORS, force) && final(self).devs()
                        == insert_all(old(self).devs(), new)
            },
            res matches Err(e) ==> {
                &&& final(self).devs() == old(self).devs()
                &&& if !batch_passes(candidates@, pool_uuid, force) {
                    exists|at: int|
                        is_first_stop(candidates@, pool_uuid, force, at) && is_stop_error(
                            e,
                            #[trigger] candidates@[at],
                            pool_uuid,
                            force,
                        )
                } else {
                    e.is_invalid()
                }
            },
    {
        let bds = match initialize(pool_uuid, candidates, MIN_MDA_SECTORS, force) {
            Ok(bds) => bds,
            Err(e) => {
                return Err(e);
            },
        };
        let ghost new = bds@;
        let ghost joining = admitted(candidates@, pool_uuid, force);
        let mut bdev_paths: Vec<String> = Vec::new();
        let mut i: usize = 0;
        while i < bds.len()
            invariant
                0 <= i <= bds.len(),
                bds@ == new,
                joined(new, candidates@, pool_uuid, MIN_MDA_SECTORS, force),
                joining == admitted(candidates@, pool_uuid, force),
                bdev_paths@.len() == i,
                forall|k: int| 0 <= k < i ==> (#[trigger] bdev_paths@[k])@ == joining[k].1.devnode@,
            decreases bds.len() - i,
        {
            assert(initialized_from(new[i as int], joining[i as int], pool_uuid, MIN_MDA_SECTORS));
            bdev_paths.push(bds[i].devnode_path());
            i = i + 1;
        }
        proof {
            assert forall|k: int| 0 <= k < new.len() implies (#[trigger] new[k]).wf() by {
                assert(initialized_from(new[k], joining[k], pool_uuid, MIN_MDA_SECTORS));
            }
        }
        self.insert_devs(bds);
        Ok(bdev_paths)
    }

    /// Gives up all devices. Returns, for each device in order, the path of
    /// its node and the bytes to write at its start to erase its static
    /// header. The caller writes to every device, whether or not an earlier
    /// write failed, and reports by `destroy_report`.
    pub fn destroy_all(self) -> (wipes: Vec<(String, Vec<u8>)>)
        ensures
            wipes@.len() == self.devs().len(),
            forall|i: int|
                0 <= i < wipes@.len() ==> {
                    &&& (#[trigger] wipes@[i]).0@ == self.devs()[i].devnode()
                    &&& wipes@[i].1@ == crate::metadata::zeros(
                        crate::metadata::BDA_STATIC_HDR_SIZE as nat,
                    )
                },
    {
        let mut wipes: Vec<(String, Vec<u8>)> = Vec::new();
        let ghost all = self.block_devs@;
        for bd in it: self.block_devs
            invariant
                it.seq() == all,
                wipes@.len() == it.index(),
                forall|i: int|
                    0 <= i < wipes@.len() ==> {
                        &&& (#[trigger] wipes@[i]).0@ == all[i].devnode()
                        &&& wipes@[i].1@ == crate::metadata::zeros(
                            crate::metadata::BDA_STATIC_HDR_SIZE as nat,
                        )
                    },
        {
            assert(bd == all[it.index() as int]);
            wipes.push(bd.wipe_metadata());
        }
        wipes
    }

    /// Stores `metadata` under `time` on every device, and returns what to
    /// write to each: the path of its node, the slot header, and the offsets
    /// at which the header and then `metadata` go. Fails with `Invalid`, and
    /// changes nothing on any device, where one device cannot hold
    /// `metadata` or has a version that is not older than `time`.
    pub fn save_state(&mut self, time: &Timestamp, metadata: &[u8]) -> (res: EngineResult<
        Vec<(String, RegionWrite)>,
    >)
        requires
            old(self).wf(),
        ensures
            final(self).wf(),
            res is Ok <==> all_accept(old(self).devs(), *time, metadata@),
            res matches Err(e) ==> e.is_invalid() && final(self).devs() == old(self).devs(),
            res matches Ok(writes) ==> {
                &&& writes@.len() == old(self).devs().len()
                &&& final(self).devs().len() == old(self).devs().len()
                &&& forall|i: int|
                    0 <= i < writes@.len() ==> after_save(
                        old(self).devs()[i],
                        final(self).devs()[i],
                        *time,
                        metadata@,
                        #[trigger] writes@[i],
                    )
            },
    {
        let n = self.block_devs.len();
        let mut i: usize = 0;
        while i < n
            invariant
                0 <= i <= n,
                n == self.block_devs@.len(),
                self.block_devs@ == old(self).block_devs@,
                all_wf(self.block_devs@),
                devnodes_distinct(self.block_devs@),
                forall|k: int|
                    0 <= k < i ==> (#[trigger] self.block_devs@[k]).bda().accepts(*time, metadata@),
            decreases n - i,
        {
            if !self.block_devs[i].can_save(time, metadata.len()) {
                return Err(
                    EngineError::invalid(
                        String::from_str("metadata is too large or not newer than what is stored"),
                    ),
                );
            }
            i = i + 1;
        }
        let ghost before = self.block_devs@;
        let mut writes: Vec<(String, RegionWrite)> = Vec::new();
        let mut i: usize = 0;
        while i < n
            invariant
                0 <= i <= n,
                n == before.len(),
                self.block_devs@.len() == n,
                all_wf(before),
                devnodes_distinct(before),
                all_accept(before, *time, metadata@),
                writes@.len() == i,
                forall|k: int|
                    0 <= k < i ==> after_save(
                        before[k],
                        self.block_devs@[k],
                        *time,
                        metadata@,
                        #[trigger] writes@[k],
                    ),
                forall|k: int| i <= k < n ==> self.block_devs@[k] == before[k],
            decreases n - i,
        {
            assert(self.block_devs@[i as int] == before[i as int]);
            assert(before[i as int].wf());
            assert(before[i as int].bda().accepts(*time, metadata@));
            let devnode = self.block_devs[i].devnode_path();
            match self.block_devs[i].save_state(time, metadata) {
                Ok(write) => {
                    writes.push((devnode, write));
                },
                Err(e) => {
                    return Err(e);
                },
            }
            i = i + 1;
        }
        proof {
            let after = self.block_devs@;
            assert forall|k: int| 0 <= k < n implies (#[trigger] after[k]).wf() by {
                assert(after_save(before[k], after[k], *time, metadata@, writes@[k]));
            }
            assert forall|a: int, b: int| 0 <= a < b < n implies (#[trigger] after[a]).devnode() != (
            #[trigger] after[b]).devnode() by {
                assert(after_save(before[a], after[a], *time, metadata@, writes@[a]));
                assert(after_save(before[b], after[b], *time, metadata@, writes@[b]));
            }
        }
        Ok(writes)
    }
}

/// Sums up how erasing the devices went: succeeds where every write did;
/// otherwise returns each failure, in order, with the path of its device's
/// node.
pub fn destroy_report(outcomes: Vec<(String, EngineResult<()>)>) -> (res: Result<
    (),
    Vec<(String, EngineError)>,
>)
    ensures
        res is Ok <==> failures_of(outcomes@).len() == 0,
        res matches Err(failures) ==> failures@ == failures_of(outcomes@),
{
    let mut failures: Vec<(String, EngineError)> = Vec::new();
    let ghost all = outcomes@;
    for outcome in it: outcomes
        invariant
            it.seq() == all,
            failures@ == failures_of(all.take(it.index() as int)),
    {
        let ghost at = it.index() as int;
        assert(outcome == all[at]);
        proof {
            assert(all.take(at + 1).drop_last() =~= all.take(at));
            assert(all.take(at + 1).last() == all[at]);
        }
        let (devnode, result) = outcome;
        match result {
            Err(e) => {
                failures.push((devnode, e));
            },
            Ok(_) => {},
        }
    }
    proof {
        assert(all.take(all.len() as int) =~= all);
    }
    if failures.len() == 0 {
        Ok(())
    } else {
        Err(failures)
    }
}

} // verus!
