//! The bring-up of the virtio block device as a sequence of steps: each
//! step takes the state and the value of the register the last action
//! read, and gives the next state and the register access to perform.
//! The accesses themselves are memory-mapped I/O and stay outside.

use vstd::prelude::*;
use crate::kernel::virtio::{negotiate_features, VIRTQ_RING_SIZE, REFUSED_FEATURES};

verus! {

/// The queue the block device uses.
pub const QUEUE_INDEX: u32 = 0;

/// The status bits the driver sets, in the order it sets them.
pub const STATUS_ACKNOWLEDGE_DRIVER: u32 = 3;

pub const STATUS_FEATURES_OK: u32 = 8;

pub const STATUS_DRIVER_OK: u32 = 4;

/// Where the bring-up stands; `status` is the device status read back
/// after feature negotiation.
#[derive(Clone, Copy, Debug, PartialEq, Eq, Structural)]
pub enum VirtioInitState {
    Probe,
    Reset,
    Acknowledged,
    FeaturesAsked,
    FeaturesWritten,
    FeaturesOkWritten,
    StatusAsked,
    QueueSelected { status: u32 },
    ReadyAsked { status: u32 },
    MaxAsked { status: u32 },
    QueueSized { status: u32 },
    RingsWritten { status: u32 },
    QueueReady { status: u32 },
    DriverOk,
    Done,
}

/// Why the bring-up stops.
#[derive(Clone, Copy, Debug, PartialEq, Eq, Structural)]
pub enum VirtioInitFailure {
    NoDevice,
    FeaturesRefused,
    QueueAlreadyReady,
    NoQueue,
    QueueTooShort,
}

/// The register access a step asks for.
#[derive(Clone, Copy, Debug, PartialEq, Eq, Structural)]
pub enum VirtioInitAction {
    WriteStatus(u32),
    ReadDeviceFeatures,
    WriteDriverFeatures(u32),
    ReadStatus,
    SelectQueue(u32),
    ReadQueueReady,
    ReadQueueSizeMax,
    WriteQueueSize(u32),
    WriteRingAddresses,
    WriteQueueReady(u32),
    WriteInterruptAck(u32),
    Fail(VirtioInitFailure),
    Finished,
}

/// The next state and action of the bring-up from `state`, `reg` being what
/// the last action read (for the probe: 1 when a virtio block device
/// answers, 0 otherwise). A failure leaves the state as it was.
pub open spec fn init_next(state: VirtioInitState, reg: u32) -> (VirtioInitState, VirtioInitAction) {
    match state {
        VirtioInitState::Probe => if reg == 0 {
            (state, VirtioInitAction::Fail(VirtioInitFailure::NoDevice))
        } else {
            (VirtioInitState::Reset, VirtioInitAction::WriteStatus(0))
        },
        VirtioInitState::Reset => (
            VirtioInitState::Acknowledged,
            VirtioInitAction::WriteStatus(STATUS_ACKNOWLEDGE_DRIVER),
        ),
        VirtioInitState::Acknowledged => (VirtioInitState::FeaturesAsked, VirtioInitAction::ReadDeviceFeatures),
        VirtioInitState::FeaturesAsked => (
            VirtioInitState::FeaturesWritten,
            VirtioInitAction::WriteDriverFeatures(reg & !REFUSED_FEATURES),
        ),
        VirtioInitState::FeaturesWritten => (
            VirtioInitState::FeaturesOkWritten,
            VirtioInitAction::WriteStatus(STATUS_ACKNOWLEDGE_DRIVER | STATUS_FEATURES_OK),
        ),
        VirtioInitState::FeaturesOkWritten => (VirtioInitState::StatusAsked, VirtioInitAction::ReadStatus),
        VirtioInitState::StatusAsked => if reg & STATUS_FEATURES_OK == 0 {
            (state, VirtioInitAction::Fail(VirtioInitFailure::FeaturesRefused))
        } else {
            (VirtioInitState::QueueSelected { status: reg }, VirtioInitAction::SelectQueue(QUEUE_INDEX))
        },
        VirtioInitState::QueueSelected { status } => (
            VirtioInitState::ReadyAsked { status },
            VirtioInitAction::ReadQueueReady,
        ),
        VirtioInitState::ReadyAsked { status } => if reg != 0 {
            (state, VirtioInitAction::Fail(VirtioInitFailure::QueueAlreadyReady))
        } else {
            (VirtioInitState::MaxAsked { status }, VirtioInitAction::ReadQueueSizeMax)
        },
        VirtioInitState::MaxAsked { status } => if reg == 0 {
            (state, VirtioInitAction::Fail(VirtioInitFailure::NoQueue))
        } else if reg < VIRTQ_RING_SIZE {
            (state, VirtioInitAction::Fail(VirtioInitFailure::QueueTooShort))
        } else {
            (VirtioInitState::QueueSized { status }, VirtioInitAction::WriteQueueSize(VIRTQ_RING_SIZE as u32))
        },
        VirtioInitState::QueueSized { status } => (
            VirtioInitState::RingsWritten { status },
            VirtioInitAction::WriteRingAddresses,
        ),
        VirtioInitState::RingsWritten { status } => (
            VirtioInitState::QueueReady { status },
            VirtioInitAction::WriteQueueReady(1),
        ),
        VirtioInitState::QueueReady { status } => (
            VirtioInitState::DriverOk,
            VirtioInitAction::WriteStatus(status | STATUS_DRIVER_OK),
        ),
        VirtioInitState::DriverOk => (VirtioInitState::Done, VirtioInitAction::WriteInterruptAck(0)),
        VirtioInitState::Done => (state, VirtioInitAction::Finished),
    }
}

/// One step of the bring-up.
pub fn init_step(state: VirtioInitState, reg: u32) -> (r: (VirtioInitState, VirtioInitAction))
    ensures
        r == init_next(state, reg),
{
    match state {
        VirtioInitState::Probe => if reg == 0 {
            (state, VirtioInitAction::Fail(VirtioInitFailure::NoDevice))
        } else {
            (VirtioInitState::Reset, VirtioInitAction::WriteStatus(0))
        },
        VirtioInitState::Reset => (
            VirtioInitState::Acknowledged,
            VirtioInitAction::WriteStatus(STATUS_ACKNOWLEDGE_DRIVER),
        ),
        VirtioInitState::Acknowledged => (VirtioInitState::FeaturesAsked, VirtioInitAction::ReadDeviceFeatures),
        VirtioInitState::FeaturesAsked => (
            VirtioInitState::FeaturesWritten,
            VirtioInitAction::WriteDriverFeatures(negotiate_features(reg)),
        ),
        VirtioInitState::FeaturesWritten => (
            VirtioInitState::FeaturesOkWritten,
            VirtioInitAction::WriteStatus(STATUS_ACKNOWLEDGE_DRIVER | STATUS_FEATURES_OK),
        ),
        VirtioInitState::FeaturesOkWritten => (VirtioInitState::StatusAsked, VirtioInitAction::ReadStatus),
        VirtioInitState::StatusAsked => if reg & STATUS_FEATURES_OK == 0 {
            (state, VirtioInitAction::Fail(VirtioInitFailure::FeaturesRefused))
        } else {
            (VirtioInitState::QueueSelected { status: reg }, VirtioInitAction::SelectQueue(QUEUE_INDEX))
        },
        VirtioInitState::QueueSelected { status } => (
            VirtioInitState::ReadyAsked { status },
            VirtioInitAction::ReadQueueReady,
        ),
        VirtioInitState::ReadyAsked { status } => if reg != 0 {
            (state, VirtioInitAction::Fail(VirtioInitFailure::QueueAlreadyReady))
        } else {
            (VirtioInitState::MaxAsked { status }, VirtioInitAction::ReadQueueSizeMax)
        },
        VirtioInitState::MaxAsked { status } => if reg == 0 {
            (state, VirtioInitAction::Fail(VirtioInitFailure::NoQueue))
        } else if (reg as usize) < VIRTQ_RING_SIZE {
            (state, VirtioInitAction::Fail(VirtioInitFailure::QueueTooShort))
        } else {
            (VirtioInitState::QueueSized { status }, VirtioInitAction::WriteQueueSize(8))
        },
        VirtioInitState::QueueSized { status } => (
            VirtioInitState::RingsWritten { status },
            VirtioInitAction::WriteRingAddresses,
        ),
        VirtioInitState::RingsWritten { status } => (
            VirtioInitState::QueueReady { status },
            VirtioInitAction::WriteQueueReady(1),
        ),
        VirtioInitState::QueueReady { status } => (
            VirtioInitState::DriverOk,
            VirtioInitAction::WriteStatus(status | STATUS_DRIVER_OK),
        ),
        VirtioInitState::DriverOk => (VirtioInitState::Done, VirtioInitAction::WriteInterruptAck(0)),
        VirtioInitState::Done => (state, VirtioInitAction::Finished),
    }
}

} // verus!
