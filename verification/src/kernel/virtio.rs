//! The virtio block device: the register-level types, feature negotiation
//! and the bookkeeping of the descriptor ring that read and write requests
//! go through.

use vstd::prelude::*;

verus! {

/// The kinds of virtio devices, by device id.
#[derive(Debug, Copy, Clone, PartialEq, Eq, Structural)]
pub enum VirtioDeviceType {
    Reserved,
    Network,
    Block,
    Console,
    EntropySource,
    MemoryBallooningTraditional,
    IoMemory,
    Rpmsg,
    ScsiHost,
    NinePTransport,
    Mac80211Wlan,
    RprocSerial,
    Caif,
    MemoryBalloon,
    Gpu,
    TimerClock,
    Input,
    Socket,
    Crypto,
    SignalDistributionModule,
    Pstore,
    Iommu,
    Memory,
    Sound,
    FileSystem,
    Pmem,
    Rpmb,
    Mac80211Hwsim,
    VideoEncoder,
    VideoDecoder,
    Scmi,
    NitroSecureModule,
    I2cAdapter,
    Watchdog,
    Can,
    ParameterServer,
    AudioPolicy,
    Bluetooth,
    Gpio,
    Rdma,
    Camera,
    Ism,
    SpiMaster,
    Unknown,
}

/// The device type of a device id (`Unknown` for ids with no type).
pub open spec fn spec_device_type(id: u32) -> VirtioDeviceType {
    if id == 0 {
        VirtioDeviceType::Reserved
    } else if id == 1 {
        VirtioDeviceType::Network
    } else if id == 2 {
        VirtioDeviceType::Block
    } else if id == 3 {
        VirtioDeviceType::Console
    } else if id == 4 {
        VirtioDeviceType::EntropySource
    } else if id == 5 {
        VirtioDeviceType::MemoryBallooningTraditional
    } else if id == 6 {
        VirtioDeviceType::IoMemory
    } else if id == 7 {
        VirtioDeviceType::Rpmsg
    } else if id == 8 {
        VirtioDeviceType::ScsiHost
    } else if id == 9 {
        VirtioDeviceType::NinePTransport
    } else if id == 10 {
        VirtioDeviceType::Mac80211Wlan
    } else if id == 11 {
        VirtioDeviceType::RprocSerial
    } else if id == 12 {
        VirtioDeviceType::Caif
    } else if id == 13 {
        VirtioDeviceType::MemoryBalloon
    } else if id == 16 {
        VirtioDeviceType::Gpu
    } else if id == 17 {
        VirtioDeviceType::TimerClock
    } else if id == 18 {
        VirtioDeviceType::Input
    } else if id == 19 {
        VirtioDeviceType::Socket
    } else if id == 20 {
        VirtioDeviceType::Crypto
    } else if id == 21 {
        VirtioDeviceType::SignalDistributionModule
    } else if id == 22 {
        VirtioDeviceType::Pstore
    } else if id == 23 {
        VirtioDeviceType::Iommu
    } else if id == 24 {
        VirtioDeviceType::Memory
    } else if id == 25 {
        VirtioDeviceType::Sound
    } else if id == 26 {
        VirtioDeviceType::FileSystem
    } else if id == 27 {
        VirtioDeviceType::Pmem
    } else if id == 28 {
        VirtioDeviceType::Rpmb
    } else if id == 29 {
        VirtioDeviceType::Mac80211Hwsim
    } else if id == 30 {
        VirtioDeviceType::VideoEncoder
    } else if id == 31 {
        VirtioDeviceType::VideoDecoder
    } else if id == 32 {
        VirtioDeviceType::Scmi
    } else if id == 33 {
        VirtioDeviceType::NitroSecureModule
    } else if id == 34 {
        VirtioDeviceType::I2cAdapter
    } else if id == 35 {
        VirtioDeviceType::Watchdog
    } else if id == 36 {
        VirtioDeviceType::Can
    } else if id == 38 {
        VirtioDeviceType::ParameterServer
    } else if id == 39 {
        VirtioDeviceType::AudioPolicy
    } else if id == 40 {
        VirtioDeviceType::Bluetooth
    } else if id == 41 {
        VirtioDeviceType::Gpio
    } else if id == 42 {
        VirtioDeviceType::Rdma
    } else if id == 43 {
        VirtioDeviceType::Camera
    } else if id == 44 {
        VirtioDeviceType::Ism
    } else if id == 45 {
        VirtioDeviceType::SpiMaster
    } else {
        VirtioDeviceType::Unknown
    }
}

impl VirtioDeviceType {
    /// The device type of a device id.
    pub fn from_id(id: u32) -> (r: VirtioDeviceType)
        ensures
            r == spec_device_type(id),
    {
        match id {
            0 => VirtioDeviceType::Reserved,
            1 => VirtioDeviceType::Network,
            2 => VirtioDeviceType::Block,
            3 => VirtioDeviceType::Console,
            4 => VirtioDeviceType::EntropySource,
            5 => VirtioDeviceType::MemoryBallooningTraditional,
            6 => VirtioDeviceType::IoMemory,
            7 => VirtioDeviceType::Rpmsg,
            8 => VirtioDeviceType::ScsiHost,
            9 => VirtioDeviceType::NinePTransport,
            10 => VirtioDeviceType::Mac80211Wlan,
            11 => VirtioDeviceType::RprocSerial,
            12 => VirtioDeviceType::Caif,
            13 => VirtioDeviceType::MemoryBalloon,
            16 => VirtioDeviceType::Gpu,
            17 => VirtioDeviceType::TimerClock,
            18 => VirtioDeviceType::Input,
            19 => VirtioDeviceType::Socket,
            20 => VirtioDeviceType::Crypto,
            21 => VirtioDeviceType::SignalDistributionModule,
            22 => VirtioDeviceType::Pstore,
            23 => VirtioDeviceType::Iommu,
            24 => VirtioDeviceType::Memory,
            25 => VirtioDeviceType::Sound,
            26 => VirtioDeviceType::FileSystem,
            27 => VirtioDeviceType::Pmem,
            28 => VirtioDeviceType::Rpmb,
            29 => VirtioDeviceType::Mac80211Hwsim,
            30 => VirtioDeviceType::VideoEncoder,
            31 => VirtioDeviceType::VideoDecoder,
            32 => VirtioDeviceType::Scmi,
            33 => VirtioDeviceType::NitroSecureModule,
            34 => VirtioDeviceType::I2cAdapter,
            35 => VirtioDeviceType::Watchdog,
            36 => VirtioDeviceType::Can,
            38 => VirtioDeviceType::ParameterServer,
            39 => VirtioDeviceType::AudioPolicy,
            40 => VirtioDeviceType::Bluetooth,
            41 => VirtioDeviceType::Gpio,
            42 => VirtioDeviceType::Rdma,
            43 => VirtioDeviceType::Camera,
            44 => VirtioDeviceType::Ism,
            45 => VirtioDeviceType::SpiMaster,
            _ => VirtioDeviceType::Unknown,
        }
    }
}

/// The magic number of the virtio registers ("virt", little-endian).
pub const VIRTIO_MAGIC: u32 = 0x74726976;

/// Whether the magic number and version read from the registers belong to
/// a (non-legacy) virtio device.
pub fn is_valid(magic: u32, version: u32) -> (r: bool)
    ensures
        r == (magic == VIRTIO_MAGIC && version == 2),
{
    magic == VIRTIO_MAGIC && version == 2
}

/// The low and high 32 bits of a 64-bit register value, in the order they
/// are written.
pub fn split_u64(value: u64) -> (r: (u32, u32))
    ensures
        r.0 == value % 0x1_0000_0000,
        r.1 == value / 0x1_0000_0000,
{
    ((value % 0x1_0000_0000) as u32, (value / 0x1_0000_0000) as u32)
}

pub const VIRTIO_F_ANY_LAYOUT: u32 = 27;

pub const VIRTIO_F_INDIRECT_DESC: u32 = 28;

pub const VIRTIO_F_EVENT_IDX: u32 = 29;

pub const VIRTIO_BLK_F_RO: u32 = 5;

pub const VIRTIO_BLK_F_SCSI: u32 = 7;

pub const VIRTIO_BLK_F_CONFIG_WCE: u32 = 11;

pub const VIRTIO_BLK_F_MQ: u32 = 12;

/// The feature bits the driver turns down: read-only, SCSI, config
/// write-cache, multiqueue, any layout, indirect descriptors and event
/// index.
pub const REFUSED_FEATURES: u32 = 0x3800_18A0;

/// The features the driver accepts out of those the device offers: all but
/// the refused ones.
pub fn negotiate_features(device_features: u32) -> (r: u32)
    ensures
        r == device_features & !REFUSED_FEATURES,
        r & (1u32 << VIRTIO_BLK_F_RO) == 0,
        r & (1u32 << VIRTIO_BLK_F_SCSI) == 0,
        r & (1u32 << VIRTIO_BLK_F_CONFIG_WCE) == 0,
        r & (1u32 << VIRTIO_BLK_F_MQ) == 0,
        r & (1u32 << VIRTIO_F_ANY_LAYOUT) == 0,
        r & (1u32 << VIRTIO_F_INDIRECT_DESC) == 0,
        r & (1u32 << VIRTIO_F_EVENT_IDX) == 0,
{
    let mut features = device_features;
    features = features & !(1u32 << VIRTIO_BLK_F_RO);
    features = features & !(1u32 << VIRTIO_BLK_F_SCSI);
    features = features & !(1u32 << VIRTIO_BLK_F_CONFIG_WCE);
    features = features & !(1u32 << VIRTIO_BLK_F_MQ);
    features = features & !(1u32 << VIRTIO_F_ANY_LAYOUT);
    features = features & !(1u32 << VIRTIO_F_INDIRECT_DESC);
    features = features & !(1u32 << VIRTIO_F_EVENT_IDX);
    assert(features == device_features & !0x3800_18A0u32 && features & (1u32 << 5u32) == 0
        && features & (1u32 << 7u32) == 0 && features & (1u32 << 11u32) == 0 && features & (1u32
        << 12u32) == 0 && features & (1u32 << 27u32) == 0 && features & (1u32 << 28u32) == 0
        && features & (1u32 << 29u32) == 0) by (bit_vector)
        requires
            features == device_features & !(1u32 << 5u32) & !(1u32 << 7u32) & !(1u32 << 11u32)
                & !(1u32 << 12u32) & !(1u32 << 27u32) & !(1u32 << 28u32) & !(1u32 << 29u32),
    ;
    features
}

/// The status bits of a virtio device.
#[derive(Clone, Copy, PartialEq, Eq, Structural)]
pub struct DeviceStatus {
    bits: u32,
}

/// Every status bit the driver knows of.
pub const DEVICE_STATUS_ALL: u32 = 0xCF;

impl DeviceStatus {
    /// The bits held.
    pub closed spec fn spec_bits(&self) -> u32 {
        self.bits
    }

    /// The guest has found the device.
    pub fn acknowledge() -> (r: Self)
        ensures
            r.spec_bits() == 1,
    {
        DeviceStatus { bits: 1 }
    }

    /// The guest knows how to drive the device.
    pub fn driver() -> (r: Self)
        ensures
            r.spec_bits() == 2,
    {
        DeviceStatus { bits: 2 }
    }

    /// The driver is set up and ready.
    pub fn driver_ok() -> (r: Self)
        ensures
            r.spec_bits() == 4,
    {
        DeviceStatus { bits: 4 }
    }

    /// Feature negotiation is complete.
    pub fn features_ok() -> (r: Self)
        ensures
            r.spec_bits() == 8,
    {
        DeviceStatus { bits: 8 }
    }

    /// The device has hit an error it cannot recover from.
    pub fn device_needs_reset() -> (r: Self)
        ensures
            r.spec_bits() == 64,
    {
        DeviceStatus { bits: 64 }
    }

    /// The guest has given up on the device.
    pub fn failed() -> (r: Self)
        ensures
            r.spec_bits() == 128,
    {
        DeviceStatus { bits: 128 }
    }

    /// No bit set.
    pub fn empty() -> (r: Self)
        ensures
            r.spec_bits() == 0,
    {
        DeviceStatus { bits: 0 }
    }

    /// The bits held.
    pub fn bits(&self) -> (r: u32)
        ensures
            r == self.spec_bits(),
    {
        self.bits
    }

    /// The status with bits `bits`, when every one of them is known.
    pub fn from_bits(bits: u32) -> (r: Option<Self>)
        ensures
            r is Some <==> bits & !DEVICE_STATUS_ALL == 0,
            r is Some ==> r->0.spec_bits() == bits,
    {
        if bits & !DEVICE_STATUS_ALL == 0 {
            Some(DeviceStatus { bits })
        } else {
            None
        }
    }

    /// The bits of both.
    pub fn union(self, other: Self) -> (r: Self)
        ensures
            r.spec_bits() == self.spec_bits() | other.spec_bits(),
    {
        DeviceStatus { bits: self.bits | other.bits }
    }

    /// Whether every bit of `other` is set.
    pub fn contains(&self, other: Self) -> (r: bool)
        ensures
            r == (self.spec_bits() & other.spec_bits() == other.spec_bits()),
    {
        self.bits & other.bits == other.bits
    }
}

/// The flags of a descriptor.
#[derive(Debug, Clone, Copy, PartialEq, Eq, Structural)]
pub struct VirtqDescFlags {
    pub bits: u16,
}

/// The buffer continues in the descriptor named by `next`.
pub const VIRTQ_DESC_F_NEXT: u16 = 1;

/// The buffer is written by the device (otherwise read by it).
pub const VIRTQ_DESC_F_WRITE: u16 = 2;

/// The buffer holds a list of descriptors.
pub const VIRTQ_DESC_F_INDIRECT: u16 = 4;

impl VirtqDescFlags {
    /// No flag.
    pub fn empty() -> (r: Self)
        ensures
            r.bits == 0,
    {
        VirtqDescFlags { bits: 0 }
    }

    /// Whether every flag of `other` is set.
    pub fn contains(&self, other: Self) -> (r: bool)
        ensures
            r == (self.bits & other.bits == other.bits),
    {
        self.bits & other.bits == other.bits
    }
}

/// A descriptor: a buffer of the guest that the device reads or writes,
/// possibly continued by the descriptor `next`.
#[derive(Debug, Clone, Copy)]
pub struct VirtqDesc {
    pub addr: u64,
    pub len: u32,
    pub flags: VirtqDescFlags,
    pub next: u16,
}

/// The descriptor with nothing in it.
pub open spec fn empty_desc() -> VirtqDesc {
    VirtqDesc { addr: 0, len: 0, flags: VirtqDescFlags { bits: 0 }, next: 0 }
}

impl VirtqDesc {
    /// A descriptor with nothing in it; used to reset one.
    pub fn empty() -> (r: Self)
        ensures
            r == empty_desc(),
    {
        VirtqDesc { addr: 0, len: 0, flags: VirtqDescFlags::empty(), next: 0 }
    }
}

/// The number of descriptors of the queue.
pub const VIRTQ_RING_SIZE: usize = 8;

/// The ring the driver offers descriptor chains in.
#[derive(Debug, Default)]
pub struct VirtqAvail {
    pub flags: u16,
    pub idx: u16,
    pub ring: [u16; 8],
    pub used_event: u16,
}

/// A chain the device has finished with.
#[derive(Debug, Clone, Copy, Default)]
pub struct VirtqUsedElem {
    pub id: u32,
    pub len: u32,
}

/// The ring the device hands finished chains back in.
#[derive(Debug, Clone, Copy, Default)]
pub struct VirtqUsed {
    pub flags: u16,
    pub idx: u16,
    pub ring: [VirtqUsedElem; 8],
    pub avail_event: u16,
}

/// The type of a block request.
#[derive(Debug, Copy, Clone, PartialEq, Eq, Structural)]
pub enum VirtioBlkReqType {
    In,
    Out,
    Flush,
    GetId,
    GetLifeTime,
    Discard,
    WriteZeros,
    SecureErase,
}

/// The request that heads a descriptor chain.
#[derive(Debug, Clone, Copy)]
pub struct VirtioBlkReq {
    pub typ: VirtioBlkReqType,
    pub reserved: u32,
    /// The offset of the request, in 512-byte sectors.
    pub sector: u64,
}

/// The status byte of a request, as the device reports it.
#[derive(Clone, Copy)]
pub struct Info {
    pub status: u8,
}

impl Info {
    /// A status of 0.
    pub fn new() -> (r: Self)
        ensures
            r.status == 0,
    {
        Info { status: 0 }
    }

    /// Marks the request as not yet answered (status `0xff`).
    pub fn reset(&mut self)
        ensures
            final(self).status == 0xff,
    {
        self.status = 0xff;
    }
}

/// The size of a block read or written by one request.
pub const BLOCK_BYTES: u32 = 4096;

/// The size of the request that heads a chain.
pub const BLK_REQ_SIZE: u32 = 16;

/// The descriptors visited from `i` by following `next` while `NEXT` is
/// set, at most `n` of them.
pub open spec fn chain_from(desc: Seq<VirtqDesc>, i: int, n: nat) -> Seq<int>
    decreases n,
{
    if n == 0 {
        Seq::empty()
    } else if desc[i].flags.bits & VIRTQ_DESC_F_NEXT == VIRTQ_DESC_F_NEXT {
        seq![i] + chain_from(desc, desc[i].next as int, (n - 1) as nat)
    } else {
        seq![i]
    }
}

/// Whether the chain from `head` ends within the ring, and visits distinct
/// descriptors that are all in use.
pub open spec fn chain_ok(desc: Seq<VirtqDesc>, free: Seq<bool>, head: int) -> bool {
    let c = chain_from(desc, head, 8);
    &&& 0 <= head < 8
    &&& forall|k: int| 0 <= k < c.len() ==> 0 <= #[trigger] c[k] < 8 && !free[c[k]]
    &&& forall|k: int, l: int| 0 <= k < l < c.len() ==> c[k] != c[l]
    &&& desc[c.last()].flags.bits & VIRTQ_DESC_F_NEXT != VIRTQ_DESC_F_NEXT
}

/// The descriptor ring of the block device and what each chain head asks
/// and is answered.
pub struct SharedVirtioBlockDevice {
    pub desc: [VirtqDesc; 8],
    pub avail: VirtqAvail,
    pub used: VirtqUsed,
    pub used_idx: u16,
    pub free: [bool; 8],
    pub ops: [VirtioBlkReq; 8],
    pub info: [Info; 8],
}

/// Descriptor `x` is the lowest free one from `lo` on.
pub open spec fn lowest_free_from(free: Seq<bool>, lo: int, x: int) -> bool {
    &&& lo <= x < 8
    &&& free[x]
    &&& forall|j: int| lo <= j < x ==> !#[trigger] free[j]
}

impl SharedVirtioBlockDevice {
    /// Every free descriptor is empty.
    pub open spec fn ring_wf(&self) -> bool {
        forall|i: int| 0 <= i < 8 && #[trigger] self.free@[i] ==> self.desc@[i] == empty_desc()
    }

    /// A ring with every descriptor free and empty, and both rings at 0.
    pub fn new() -> (r: Self)
        ensures
            forall|i: int| 0 <= i < 8 ==> r.free@[i] && r.desc@[i] == empty_desc(),
            r.ring_wf(),
            r.used_idx == 0,
            r.avail.idx == 0,
    {
        let d = VirtqDesc::empty();
        let req = VirtioBlkReq { typ: VirtioBlkReqType::In, reserved: 0, sector: 0 };
        SharedVirtioBlockDevice {
            desc: [d, d, d, d, d, d, d, d],
            avail: VirtqAvail { flags: 0, idx: 0, ring: [0; 8], used_event: 0 },
            used: VirtqUsed {
                flags: 0,
                idx: 0,
                ring: [VirtqUsedElem { id: 0, len: 0 }; 8],
                avail_event: 0,
            },
            used_idx: 0,
            free: [true; 8],
            ops: [req; 8],
            info: [Info { status: 0 }; 8],
        }
    }

    /// Takes the first free descriptor: marks it in use and returns its
    /// index.
    pub fn alloc_desc(&mut self) -> (r: Option<usize>)
        ensures
            old(self).ring_wf() ==> final(self).ring_wf(),
            final(self).desc == old(self).desc,
            match r {
                Some(i) => {
                    &&& i < 8
                    &&& old(self).free@[i as int]
                    &&& forall|j: int| 0 <= j < i ==> !old(self).free@[j]
                    &&& final(self).free@ == old(self).free@.update(i as int, false)
                },
                None => {
                    &&& forall|j: int| 0 <= j < 8 ==> !old(self).free@[j]
                    &&& final(self).free@ == old(self).free@
                },
            },
    {
        let mut idx: usize = 0;
        while idx < 8
            invariant
                idx <= 8,
                self.free == old(self).free,
                self.desc == old(self).desc,
                forall|j: int| 0 <= j < idx ==> !old(self).free@[j],
            decreases 8 - idx,
        {
            if self.free[idx] {
                self.free[idx] = false;
                return Some(idx);
            }
            idx += 1;
        }
        None
    }

    /// Frees the descriptor at `index` and empties it.
    pub fn free_desc(&mut self, index: usize)
        requires
            index < 8,
            !old(self).free@[index as int],
        ensures
            old(self).ring_wf() ==> final(self).ring_wf(),
            final(self).free@ == old(self).free@.update(index as int, true),
            final(self).desc@ == old(self).desc@.update(index as int, empty_desc()),
    {
        self.free[index] = true;
        self.desc[index] = VirtqDesc::empty();
    }

    /// Takes three descriptors for a request chain, or none when fewer than
    /// three are free.
    pub fn alloc3_desc(&mut self) -> (r: Option<[usize; 3]>)
        requires
            old(self).ring_wf(),
        ensures
            final(self).ring_wf(),
            match r {
                Some(idx) => {
                    &&& idx@[0] < 8 && idx@[1] < 8 && idx@[2] < 8
                    &&& idx@[0] != idx@[1] && idx@[1] != idx@[2] && idx@[0] != idx@[2]
                    &&& old(self).free@[idx@[0] as int] && old(self).free@[idx@[1] as int]
                        && old(self).free@[idx@[2] as int]
                    &&& final(self).free@ == old(self).free@.update(idx@[0] as int, false).update(
                        idx@[1] as int,
                        false,
                    ).update(idx@[2] as int, false)
                    &&& final(self).desc == old(self).desc
                    &&& lowest_free_from(old(self).free@, 0, idx@[0] as int)
                    &&& lowest_free_from(old(self).free@, idx@[0] + 1, idx@[1] as int)
                    &&& lowest_free_from(old(self).free@, idx@[1] + 1, idx@[2] as int)
                },
                None => {
                    &&& final(self).free@ == old(self).free@
                    &&& final(self).desc@ == old(self).desc@
                    &&& forall|a: int, b: int, c: int|
                        0 <= a < b < c < 8 ==> !(old(self).free@[a] && old(self).free@[b] && old(self).free@[c])
                },
            },
    {
        let mut idx: [usize; 3] = [0; 3];
        let mut i: usize = 0;
        while i < 3
            invariant
                i <= 3,
                forall|k: int| 0 <= k < i ==> idx@[k] < 8 && old(self).free@[idx@[k] as int],
                forall|k: int, l: int| 0 <= k < l < i ==> idx@[k] != idx@[l],
                forall|j: int|
                    0 <= j < 8 ==> self.free@[j] == (old(self).free@[j] && !(exists|k: int|
                        0 <= k < i && idx@[k] == j)),
                self.desc == old(self).desc,
                old(self).ring_wf(),
                forall|k: int, l: int| 0 <= k < l < i ==> idx@[k] < idx@[l],
                i > 0 ==> forall|j: int| 0 <= j <= idx@[i - 1] ==> !#[trigger] self.free@[j],
                i > 0 ==> lowest_free_from(old(self).free@, 0, idx@[0] as int),
                i > 1 ==> lowest_free_from(old(self).free@, idx@[0] + 1, idx@[1] as int),
                i > 2 ==> lowest_free_from(old(self).free@, idx@[1] + 1, idx@[2] as int),
            decreases 3 - i,
        {
            let ghost cur = self.free@;
            match self.alloc_desc() {
                Some(desc_idx) => {
                    proof {
                        if i > 0 {
                            assert(!cur[idx@[i - 1] as int]);
                            assert(desc_idx > idx@[i - 1]);
                            assert forall|j: int| idx@[i - 1] + 1 <= j < desc_idx implies !#[trigger] old(
                                self,
                            ).free@[j] by {
                                assert(!cur[j]);
                                if exists|k: int| 0 <= k < i && idx@[k] == j {
                                    let k = choose|k: int| 0 <= k < i && idx@[k] == j;
                                    if k < i - 1 {
                                        assert(idx@[k] < idx@[i - 1]);
                                    }
                                }
                            }
                        } else {
                            assert forall|j: int| 0 <= j < desc_idx implies !#[trigger] old(self).free@[j] by {
                                assert(!cur[j]);
                            }
                        }
                    }
                    let ghost prev = idx;
                    idx[i] = desc_idx;
                    proof {
                        assert forall|k: int| 0 <= k < i implies idx@[k] != desc_idx by {
                            assert(idx@[k] == prev@[k]);
                        }
                    }
                    i += 1;
                    proof {
                        assert forall|j: int| 0 <= j < 8 implies self.free@[j] == (old(self).free@[j]
                            && !(exists|k: int| 0 <= k < i && idx@[k] == j)) by {
                            if j == desc_idx {
                                assert(idx@[i - 1] == j);
                            } else {
                                if exists|k: int| 0 <= k < i && idx@[k] == j {
                                    let k = choose|k: int| 0 <= k < i && idx@[k] == j;
                                    assert(k < i - 1);
                                    assert(prev@[k] == j);
                                }
                                if exists|k: int| 0 <= k < i - 1 && prev@[k] == j {
                                    let k = choose|k: int| 0 <= k < i - 1 && prev@[k] == j;
                                    assert(idx@[k] == j);
                                }
                            }
                        }
                    }
                },
                None => {
                    proof {
                        assert forall|a: int, b: int, c: int|
                            0 <= a < b < c < 8 implies !(old(self).free@[a] && old(self).free@[b] && old(
                                self,
                            ).free@[c]) by {
                            if old(self).free@[a] && old(self).free@[b] && old(self).free@[c] {
                                assert(!cur[a] && !cur[b] && !cur[c]);
                                let ka = choose|k: int| 0 <= k < i && idx@[k] == a;
                                let kb = choose|k: int| 0 <= k < i && idx@[k] == b;
                                let kc = choose|k: int| 0 <= k < i && idx@[k] == c;
                                assert(ka != kb && kb != kc && ka != kc);
                            }
                        }
                    }
                    let mut k: usize = 0;
                    while k < i
                        invariant
                            i <= 3,
                            k <= i,
                            forall|m: int| 0 <= m < i ==> idx@[m] < 8 && old(self).free@[idx@[m] as int],
                            forall|m: int, l: int| 0 <= m < l < i ==> idx@[m] != idx@[l],
                            forall|j: int|
                                0 <= j < 8 ==> self.free@[j] == (old(self).free@[j] && !(exists|m: int|
                                    k <= m < i && idx@[m] == j)),
                            self.desc@ =~= old(self).desc@,
                            old(self).ring_wf(),
                        decreases i - k,
                    {
                        self.free_desc(idx[k]);
                        k += 1;
                    }
                    return None;
                },
            }
        }
        proof {
            assert(self.free@ =~= old(self).free@.update(idx@[0] as int, false).update(
                idx@[1] as int,
                false,
            ).update(idx@[2] as int, false));
        }
        Some(idx)
    }
    /// Frees every descriptor of the chain that starts at `header_desc_idx`.
    pub fn free_chain(&mut self, header_desc_idx: usize)
        requires
            old(self).ring_wf(),
            chain_ok(old(self).desc@, old(self).free@, header_desc_idx as int),
        ensures
            final(self).ring_wf(),
            forall|j: int|
                0 <= j < 8 ==> #[trigger] final(self).free@[j] == (old(self).free@[j] || chain_from(
                    old(self).desc@,
                    header_desc_idx as int,
                    8,
                ).contains(j)),
            forall|j: int|
                0 <= j < 8 ==> #[trigger] final(self).desc@[j] == if chain_from(
                    old(self).desc@,
                    header_desc_idx as int,
                    8,
                ).contains(j) {
                    empty_desc()
                } else {
                    old(self).desc@[j]
                },
    {
        let ghost c = chain_from(self.desc@, header_desc_idx as int, 8);
        let ghost od = self.desc@;
        let ghost of = self.free@;
        let ghost mut k: int = 0;
        let mut h = header_desc_idx;
        proof {
            lemma_chain_step(od, header_desc_idx as int, 8, 0);
        }
        loop
            invariant_except_break
                forall|j: int|
                    0 <= j < 8 ==> #[trigger] self.free@[j] == (of[j] || c.subrange(0, k).contains(j)),
                forall|j: int|
                    0 <= j < 8 ==> #[trigger] self.desc@[j] == if c.subrange(0, k).contains(j) {
                        empty_desc()
                    } else {
                        od[j]
                    },
            invariant
                c == chain_from(od, header_desc_idx as int, 8),
                chain_ok(od, of, header_desc_idx as int),
                0 <= k < c.len(),
                h == c[k],
                self.ring_wf(),
            ensures
                forall|j: int| 0 <= j < 8 ==> #[trigger] self.free@[j] == (of[j] || c.contains(j)),
                forall|j: int|
                    0 <= j < 8 ==> #[trigger] self.desc@[j] == if c.contains(j) {
                        empty_desc()
                    } else {
                        od[j]
                    },
                self.ring_wf(),
            decreases c.len() - k,
        {
            proof {
                lemma_chain_step(od, header_desc_idx as int, 8, k);
                assert(!c.subrange(0, k).contains(h as int)) by {
                    if c.subrange(0, k).contains(h as int) {
                        let m = choose|m: int| 0 <= m < k && c.subrange(0, k)[m] == h;
                        assert(c[m] == c[k]);
                    }
                }
            }
            let desc = self.desc[h];
            let ghost pf = self.free@;
            let ghost pd = self.desc@;
            self.free_desc(h);
            proof {
                let s0 = c.subrange(0, k);
                let s1 = c.subrange(0, k + 1);
                assert(s1 =~= s0.push(h as int));
                assert forall|j: int| 0 <= j < 8 implies #[trigger] self.free@[j] == (of[j]
                    || s1.contains(j)) && self.desc@[j] == (if s1.contains(j) {
                    empty_desc()
                } else {
                    od[j]
                }) by {
                    if j == h {
                        assert(s1[k] == j);
                    } else {
                        if s1.contains(j) {
                            let m = choose|m: int| 0 <= m < s1.len() && s1[m] == j;
                            assert(m < k);
                            assert(s0[m] == j);
                        }
                        if s0.contains(j) {
                            let m = choose|m: int| 0 <= m < s0.len() && s0[m] == j;
                            assert(s1[m] == j);
                        }
                    }
                }
                assert forall|j: int| 0 <= j < 8 implies #[trigger] self.desc@[j] == (if s1.contains(
                    j,
                ) {
                    empty_desc()
                } else {
                    od[j]
                }) by {
                    assert(self.free@[j] == (of[j] || s1.contains(j)));
                }
            }
            if desc.flags.bits & VIRTQ_DESC_F_NEXT == VIRTQ_DESC_F_NEXT {
                h = desc.next as usize;
                proof {
                    k = k + 1;
                }
            } else {
                proof {
                    assert(k == c.len() - 1);
                    assert(c.subrange(0, k + 1) =~= c);
                }
                break;
            }
        }
    }

    /// Fills the descriptor at `desc_idx` with the read or write request for
    /// `sector`, held at `req_addr`, continued by `next_idx`.
    pub fn setup_req_desc(
        &mut self,
        desc_idx: usize,
        next_idx: usize,
        sector: u64,
        write: bool,
        req_addr: u64,
    )
        requires
            desc_idx < 8,
            next_idx < 8,
        ensures
            final(self).ops@ == old(self).ops@.update(
                desc_idx as int,
                VirtioBlkReq {
                    typ: if write {
                        VirtioBlkReqType::Out
                    } else {
                        VirtioBlkReqType::In
                    },
                    reserved: 0,
                    sector,
                },
            ),
            final(self).desc@ == old(self).desc@.update(
                desc_idx as int,
                VirtqDesc {
                    addr: req_addr,
                    len: BLK_REQ_SIZE,
                    flags: VirtqDescFlags { bits: VIRTQ_DESC_F_NEXT },
                    next: next_idx as u16,
                },
            ),
            final(self).free == old(self).free,
            final(self).info == old(self).info,
            final(self).avail == old(self).avail,
    {
        self.ops[desc_idx] = VirtioBlkReq {
            typ: if write {
                VirtioBlkReqType::Out
            } else {
                VirtioBlkReqType::In
            },
            reserved: 0,
            sector,
        };
        self.desc[desc_idx] = VirtqDesc {
            addr: req_addr,
            len: BLK_REQ_SIZE,
            flags: VirtqDescFlags { bits: VIRTQ_DESC_F_NEXT },
            next: next_idx as u16,
        };
    }

    /// Fills the descriptor at `desc_idx` with the block buffer at
    /// `buf_addr`: the device reads it for a write and writes it for a read.
    pub fn setup_data_desc(
        &mut self,
        desc_idx: usize,
        next_idx: usize,
        buf_addr: u64,
        write: bool,
    )
        requires
            desc_idx < 8,
            next_idx < 8,
        ensures
            final(self).desc@ == old(self).desc@.update(
                desc_idx as int,
                VirtqDesc {
                    addr: buf_addr,
                    len: BLOCK_BYTES,
                    flags: VirtqDescFlags {
                        bits: if write {
                            VIRTQ_DESC_F_NEXT
                        } else {
                            VIRTQ_DESC_F_WRITE | VIRTQ_DESC_F_NEXT
                        },
                    },
                    next: next_idx as u16,
                },
            ),
            final(self).ops == old(self).ops,
            final(self).free == old(self).free,
            final(self).info == old(self).info,
            final(self).avail == old(self).avail,
    {
        let flags: u16 = if write {
            VIRTQ_DESC_F_NEXT
        } else {
            VIRTQ_DESC_F_WRITE | VIRTQ_DESC_F_NEXT
        };
        self.desc[desc_idx] = VirtqDesc {
            addr: buf_addr,
            len: BLOCK_BYTES,
            flags: VirtqDescFlags { bits: flags },
            next: next_idx as u16,
        };
    }

    /// Fills the descriptor at `desc_idx`, the last of the chain headed by
    /// `head_idx`, with the status byte at `status_addr` that the device
    /// writes, and marks that status as not yet answered.
    pub fn setup_status_desc(&mut self, desc_idx: usize, head_idx: usize, status_addr: u64)
        requires
            desc_idx < 8,
            head_idx < 8,
        ensures
            final(self).info@ == old(self).info@.update(head_idx as int, Info { status: 0xff }),
            final(self).desc@ == old(self).desc@.update(
                desc_idx as int,
                VirtqDesc {
                    addr: status_addr,
                    len: 1,
                    flags: VirtqDescFlags { bits: VIRTQ_DESC_F_WRITE },
                    next: 0,
                },
            ),
            final(self).ops == old(self).ops,
            final(self).free == old(self).free,
            final(self).avail == old(self).avail,
    {
        self.info[head_idx].reset();
        self.desc[desc_idx] = VirtqDesc {
            addr: status_addr,
            len: 1,
            flags: VirtqDescFlags { bits: VIRTQ_DESC_F_WRITE },
            next: 0,
        };
        proof {
            assert(self.info@ =~= old(self).info@.update(head_idx as int, Info { status: 0xff }));
        }
    }

    /// Builds the three-descriptor chain that reads or writes block
    /// `block_id` (request, data buffer, status) and offers it in the
    /// available ring. Returns the status of the request, not yet answered.
    pub fn send_rw_command(
        &mut self,
        desc_idx: [usize; 3],
        block_id: u64,
        buf_addr: u64,
        write: bool,
        req_addr: u64,
        status_addr: u64,
    ) -> (r: Info)
        requires
            desc_idx@[0] < 8,
            desc_idx@[1] < 8,
            desc_idx@[2] < 8,
            desc_idx@[0] != desc_idx@[1],
            desc_idx@[1] != desc_idx@[2],
            desc_idx@[0] != desc_idx@[2],
            block_id <= u64::MAX / 8,
        ensures
            r.status == 0xff,
            final(self).info@ == old(self).info@.update(desc_idx@[0] as int, Info { status: 0xff }),
            final(self).ops@ == old(self).ops@.update(
                desc_idx@[0] as int,
                VirtioBlkReq {
                    typ: if write {
                        VirtioBlkReqType::Out
                    } else {
                        VirtioBlkReqType::In
                    },
                    reserved: 0,
                    sector: (block_id * 8) as u64,
                },
            ),
            final(self).desc@ == old(self).desc@.update(
                desc_idx@[0] as int,
                VirtqDesc {
                    addr: req_addr,
                    len: BLK_REQ_SIZE,
                    flags: VirtqDescFlags { bits: VIRTQ_DESC_F_NEXT },
                    next: desc_idx@[1] as u16,
                },
            ).update(
                desc_idx@[1] as int,
                VirtqDesc {
                    addr: buf_addr,
                    len: BLOCK_BYTES,
                    flags: VirtqDescFlags {
                        bits: if write {
                            VIRTQ_DESC_F_NEXT
                        } else {
                            VIRTQ_DESC_F_WRITE | VIRTQ_DESC_F_NEXT
                        },
                    },
                    next: desc_idx@[2] as u16,
                },
            ).update(
                desc_idx@[2] as int,
                VirtqDesc {
                    addr: status_addr,
                    len: 1,
                    flags: VirtqDescFlags { bits: VIRTQ_DESC_F_WRITE },
                    next: 0,
                },
            ),
            final(self).avail.ring@ == old(self).avail.ring@.update(
                (old(self).avail.idx % 8) as int,
                desc_idx@[0] as u16,
            ),
            final(self).avail.idx == (old(self).avail.idx + 1) % 0x1_0000,
            final(self).free == old(self).free,
    {
        let sector_id = block_id * 8;
        let idx0 = desc_idx[0];
        let idx1 = desc_idx[1];
        let idx2 = desc_idx[2];
        self.setup_req_desc(idx0, idx1, sector_id, write, req_addr);
        self.setup_data_desc(idx1, idx2, buf_addr, write);
        self.setup_status_desc(idx2, idx0, status_addr);
        let slot = (self.avail.idx % 8) as usize;
        self.avail.ring[slot] = idx0 as u16;
        self.avail.idx = self.avail.idx.wrapping_add(1);
        self.info[idx0]
    }

    /// Takes the head of the next chain the device has finished with, if
    /// any, and moves past it in the used ring.
    pub fn pop_used(&mut self) -> (r: Option<u32>)
        ensures
            old(self).used.idx == old(self).used_idx ==> r is None && final(self).used_idx == old(
                self,
            ).used_idx,
            old(self).used.idx != old(self).used_idx ==> r == Some(
                old(self).used.ring@[(old(self).used_idx % 8) as int].id,
            ) && final(self).used_idx == (old(self).used_idx + 1) % 0x1_0000,
            final(self).used == old(self).used,
            final(self).info == old(self).info,
            final(self).free == old(self).free,
            final(self).desc == old(self).desc,
    {
        if self.used.idx != self.used_idx {
            let id = self.used.ring[(self.used_idx % 8) as usize].id;
            self.used_idx = self.used_idx.wrapping_add(1);
            Some(id)
        } else {
            None
        }
    }
}

/// In a chain, each descriptor after the first is the `next` of the one
/// before it, and only the last lacks `NEXT` (or the walk ran out).
proof fn lemma_chain_step(d: Seq<VirtqDesc>, i: int, n: nat, k: int)
    requires
        0 <= k < chain_from(d, i, n).len(),
    ensures
        chain_from(d, i, n).len() <= n,
        chain_from(d, i, n)[0] == i,
        k + 1 < chain_from(d, i, n).len() ==> d[chain_from(d, i, n)[k]].flags.bits & VIRTQ_DESC_F_NEXT
            == VIRTQ_DESC_F_NEXT && chain_from(d, i, n)[k + 1] == d[chain_from(d, i, n)[k]].next,
        k + 1 == chain_from(d, i, n).len() && n > k + 1 ==> d[chain_from(d, i, n)[k]].flags.bits
            & VIRTQ_DESC_F_NEXT != VIRTQ_DESC_F_NEXT,
    decreases n,
{
    if n > 0 && d[i].flags.bits & VIRTQ_DESC_F_NEXT == VIRTQ_DESC_F_NEXT {
        let rest = chain_from(d, d[i].next as int, (n - 1) as nat);
        if k >= 1 {
            lemma_chain_step(d, d[i].next as int, (n - 1) as nat, k - 1);
        } else if rest.len() > 0 {
            lemma_chain_step(d, d[i].next as int, (n - 1) as nat, 0);
        } else {
            assert(n - 1 == 0 || rest.len() > 0) by {
                if n - 1 > 0 {
                    reveal_with_fuel(chain_from, 2);
                }
            }
        }
    }
}

} // verus!
