//! What the engine tells its callers about a filesystem of a pool.

use vstd::prelude::*;
use vstd::string::StringExecFns;

use crate::errors::{EngineError, EngineResult, ErrorEnum};
use crate::units::{Bytes, Sectors, SECTOR_SIZE};

verus! {

/// The latest creation time that a filesystem can have, in seconds since the
/// epoch: the last second of the year 9999.
pub const MAX_CREATED_SECS: i64 = 253402300799;

/// The directory under which the filesystems of all pools are found.
pub open spec fn dev_path() -> Seq<char> {
    "/dev/stratis"@
}

/// The name of a pool or of a filesystem.
#[derive(Debug)]
pub struct Name(String);

impl View for Name {
    type V = Seq<char>;

    closed spec fn view(&self) -> Seq<char> {
        self.0@
    }
}

impl Name {
    /// The name with the text given.
    pub fn new(name: String) -> (n: Name)
        ensures
            n@ == name@,
    {
        Name(name)
    }

    /// The text of the name.
    pub fn to_owned(&self) -> (text: String)
        ensures
            text@ == self@,
    {
        self.0.clone()
    }

    /// The text of the name, borrowed.
    pub fn as_str(&self) -> (text: &str)
        ensures
            text@ == self@,
    {
        self.0.as_str()
    }
}

/// A filesystem of a pool, as far as its properties are asked for.
pub trait Filesystem {
    /// The path under which the filesystem is mounted, given the names of
    /// its pool and of itself.
    spec fn mount_path(&self, pool_name: Seq<char>, fs_name: Seq<char>) -> Seq<char>;

    /// When the filesystem was created, in seconds since the epoch.
    spec fn created_secs(&self) -> i64;

    /// The size of the filesystem, in bytes.
    spec fn size_bytes(&self) -> Bytes;

    /// The bytes in use on the filesystem, where that is known.
    spec fn used_bytes(&self) -> Option<Bytes>;

    fn path_to_mount_filesystem(&self, pool_name: &Name, fs_name: &Name) -> (path: String)
        ensures
            path@ == self.mount_path(pool_name@, fs_name@),
    ;

    fn created(&self) -> (secs: i64)
        ensures
            secs == self.created_secs(),
            0 <= secs <= MAX_CREATED_SECS,
    ;

    fn size(&self) -> (bytes: Bytes)
        ensures
            bytes == self.size_bytes(),
    ;

    /// Fails where the use of the filesystem is not known.
    fn used(&self) -> (res: EngineResult<Bytes>)
        ensures
            res is Ok <==> self.used_bytes() is Some,
            res matches Ok(bytes) ==> Some(bytes) == self.used_bytes(),
    ;
}

/// A filesystem that exists in memory alone: it records what it was made
/// with and what it was told of its use.
#[derive(Debug)]
pub struct SimFilesystem {
    created: i64,
    size: Sectors,
    used: Option<Bytes>,
}

impl SimFilesystem {
    #[verifier::type_invariant]
    spec fn inv(self) -> bool {
        0 <= self.created <= MAX_CREATED_SECS && self.size <= u64::MAX / SECTOR_SIZE
    }

    /// A filesystem of `size` sectors created at `created` seconds since the
    /// epoch, whose use is not known yet. `None` where the time is before the
    /// epoch or after `MAX_CREATED_SECS`, or the size in bytes does not fit
    /// in 64 bits.
    pub fn new(size: Sectors, created: i64) -> (fs: Option<SimFilesystem>)
        ensures
            fs is Some <==> 0 <= created <= MAX_CREATED_SECS && size <= u64::MAX / SECTOR_SIZE,
            fs matches Some(f) ==> {
                &&& f.created_secs() == created
                &&& f.size_bytes() == size * SECTOR_SIZE
                &&& f.used_bytes() is None
            },
    {
        if created < 0 || created > MAX_CREATED_SECS || size > u64::MAX / SECTOR_SIZE {
            None
        } else {
            Some(SimFilesystem { created, size, used: None })
        }
    }

    /// Records how many bytes are in use, or that this is not known.
    pub fn set_used(&mut self, used: Option<Bytes>)
        ensures
            final(self).used_bytes() == used,
            final(self).created_secs() == old(self).created_secs(),
            final(self).size_bytes() == old(self).size_bytes(),
    {
        proof {
            use_type_invariant(&*self);
        }
        self.used = used;
    }
}

impl Filesystem for SimFilesystem {
    closed spec fn mount_path(&self, pool_name: Seq<char>, fs_name: Seq<char>) -> Seq<char> {
        dev_path() + "/"@ + pool_name + "/"@ + fs_name
    }

    closed spec fn created_secs(&self) -> i64 {
        self.created
    }

    closed spec fn size_bytes(&self) -> Bytes {
        (self.size * SECTOR_SIZE) as u64
    }

    closed spec fn used_bytes(&self) -> Option<Bytes> {
        self.used
    }

    fn path_to_mount_filesystem(&self, pool_name: &Name, fs_name: &Name) -> (path: String) {
        String::from_str("/dev/stratis").concat("/").concat(pool_name.as_str()).concat("/").concat(
            fs_name.as_str(),
        )
    }

    fn created(&self) -> (secs: i64) {
        proof {
            use_type_invariant(self);
        }
        self.created
    }

    fn size(&self) -> (bytes: Bytes) {
        proof {
            use_type_invariant(self);
        }
        self.size * SECTOR_SIZE
    }

    fn used(&self) -> (res: EngineResult<Bytes>) {
        match self.used {
            Some(bytes) => Ok(bytes),
            None => Err(
                EngineError::Engine(ErrorEnum::Error, String::from_str("use of filesystem is not known")),
            ),
        }
    }
}

} // verus!
