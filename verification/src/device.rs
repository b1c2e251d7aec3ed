//! Device identities, what is known of a device before it is admitted, and
//! the extents handed out on it.

use vstd::prelude::*;

use crate::units::{Bytes, Sectors};

verus! {

/// The identifier of a pool.
pub type PoolUuid = u128;

/// The identifier of one device within a pool.
pub type DevUuid = u128;

/// A block device, named by its device number. Two paths that lead to one
/// device give equal values.
#[derive(Debug, Clone, Copy, PartialEq, Eq, Structural, Hash)]
pub struct Device {
    pub major: u32,
    pub minor: u32,
}

/// A run of sectors on one device.
#[derive(Debug, Clone, Copy, PartialEq, Eq, Structural)]
pub struct Segment {
    pub start: Sectors,
    pub length: Sectors,
    pub device: Device,
}

impl Segment {
    /// The run of `length` sectors that starts at `start` on `device`.
    pub fn new(device: Device, start: Sectors, length: Sectors) -> (seg: Segment)
        ensures
            seg == (Segment { start, length, device }),
    {
        Segment { start, length, device }
    }
}

/// To whom a device belongs, as its first sectors tell.
#[derive(Debug, Clone, Copy, PartialEq, Eq, Structural)]
pub enum DevOwnership {
    /// The device holds nothing.
    Unowned,
    /// The device holds data that is not a pool's.
    Theirs,
    /// The device is a member of the pool named.
    Ours(PoolUuid),
}

/// What a caller found out about a device: its node, its size, and its owner.
#[derive(Debug)]
pub struct DevInfo {
    pub devnode: String,
    pub size: Bytes,
    pub ownership: DevOwnership,
}

/// The devices of `devs` without repetition, each at the place of its first
/// occurrence.
pub open spec fn distinct_devices(devs: Seq<Device>) -> Seq<Device>
    decreases devs.len(),
{
    if devs.len() == 0 {
        seq![]
    } else {
        let init = distinct_devices(devs.drop_last());
        if init.contains(devs.last()) {
            init
        } else {
            init.push(devs.last())
        }
    }
}

/// `results[at]` is the first failure among `results`.
pub open spec fn is_first_failure<T, E>(results: Seq<Result<T, E>>, at: int) -> bool {
    &&& 0 <= at < results.len()
    &&& results[at] is Err
    &&& forall|k: int| 0 <= k < at ==> (#[trigger] results[k]) is Ok
}

/// No result in `results` is a failure.
pub open spec fn all_ok<T, E>(results: Seq<Result<T, E>>) -> bool {
    forall|k: int| 0 <= k < results.len() ==> (#[trigger] results[k]) is Ok
}

/// The device that each lookup found.
pub open spec fn found_devices(lookups: Seq<Result<Device, std::io::Error>>) -> Seq<Device> {
    Seq::new(lookups.len(), |i: int| lookups[i]->Ok_0)
}

/// `distinct_devices` keeps every device, and keeps it once.
pub proof fn lemma_distinct_devices(devs: Seq<Device>)
    ensures
        distinct_devices(devs).no_duplicates(),
        distinct_devices(devs).len() <= devs.len(),
        forall|d: Device| distinct_devices(devs).contains(d) <==> devs.contains(d),
    decreases devs.len(),
{
    if devs.len() > 0 {
        let init = devs.drop_last();
        let last = devs.last();
        lemma_distinct_devices(init);
        let out = distinct_devices(devs);
        assert forall|d: Device| out.contains(d) <==> devs.contains(d) by {
            if devs.contains(d) {
                let i = choose|i: int| 0 <= i < devs.len() && devs[i] == d;
                if i < init.len() {
                    assert(init[i] == d);
                    assert(init.contains(d));
                    assert(distinct_devices(init).contains(d));
                    let k = choose|k: int|
                        0 <= k < distinct_devices(init).len() && distinct_devices(init)[k] == d;
                    assert(out[k] == d);
                } else if !distinct_devices(init).contains(last) {
                    assert(out[out.len() - 1] == d);
                }
            }
            if out.contains(d) {
                let k = choose|k: int| 0 <= k < out.len() && out[k] == d;
                if k < distinct_devices(init).len() {
                    assert(distinct_devices(init)[k] == d);
                    assert(init.contains(d));
                    let i = choose|i: int| 0 <= i < init.len() && init[i] == d;
                    assert(devs[i] == d);
                } else {
                    assert(devs[devs.len() - 1] == d);
                }
            }
        }
    }
}

/// Two lookups that found one device leave one entry: the law behind
/// resolving a device by two of its paths.
pub proof fn lemma_same_device_once(devs: Seq<Device>, i: int, j: int)
    requires
        0 <= i < j < devs.len(),
        devs[i] == devs[j],
    ensures
        distinct_devices(devs).len() < devs.len(),
        distinct_devices(devs).contains(devs[i]),
    decreases devs.len(),
{
    let init = devs.drop_last();
    lemma_distinct_devices(init);
    lemma_distinct_devices(devs);
    assert(devs.contains(devs[i]));
    if j == devs.len() - 1 {
        assert(init[i] == devs.last());
        assert(init.contains(devs.last()));
    } else {
        assert(init[i] == init[j]);
        lemma_same_device_once(init, i, j);
    }
}

/// Turns the outcome of looking up each path into the set of devices to work
/// on. Fails with the first lookup's error where one failed; otherwise
/// returns each device once, in the order in which it was first found.
pub fn resolve_devices(lookups: Vec<Result<Device, std::io::Error>>) -> (res: Result<
    Vec<Device>,
    std::io::Error,
>)
    ensures
        res is Ok <==> all_ok(lookups@),
        res matches Ok(devices) ==> devices@ == distinct_devices(found_devices(lookups@)),
        res matches Err(e) ==> exists|at: int|
            is_first_failure(lookups@, at) && e == (#[trigger] lookups@[at])->Err_0,
{
    let mut devices: Vec<Device> = Vec::new();
    let ghost all = lookups@;
    for lookup in it: lookups
        invariant
            it.seq() == all,
            forall|k: int| 0 <= k < it.index() ==> (#[trigger] all[k]) is Ok,
            devices@ == distinct_devices(found_devices(all.take(it.index() as int))),
    {
        let ghost at = it.index() as int;
        assert(lookup == all[at]);
        match lookup {
            Ok(device) => {
                let ghost before = found_devices(all.take(at));
                if !contains_device(&devices, device) {
                    devices.push(device);
                }
                proof {
                    let now = found_devices(all.take(at + 1));
                    assert(now.drop_last() =~= before);
                    assert(now.last() == device);
                }
            },
            Err(e) => {
                assert(is_first_failure(all, at));
                return Err(e);
            },
        }
    }
    proof {
        assert(all.take(all.len() as int) =~= all);
    }
    Ok(devices)
}

/// Whether `devices` holds `device`.
pub fn contains_device(devices: &Vec<Device>, device: Device) -> (found: bool)
    ensures
        found == devices@.contains(device),
{
    let mut i: usize = 0;
    while i < devices.len()
        invariant
            0 <= i <= devices.len(),
            forall|k: int| 0 <= k < i ==> devices@[k] != device,
        decreases devices.len() - i,
    {
        if devices[i] == device {
            return true;
        }
        i = i + 1;
    }
    false
}

} // verus!
