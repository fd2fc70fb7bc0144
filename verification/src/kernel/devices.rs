//! Character devices: what each one reports of itself, and the two devices
//! that every system has, `null` and `zero`.

use vstd::prelude::*;
use crate::errors::SysError;

verus! {

/// The device number of `null`.
pub const NULL_DEV_NO: u32 = 2;

/// The device number of `zero`.
pub const ZERO_DEV_NO: u32 = 3;

/// What a device reports of itself.
#[derive(Debug, Clone, Copy)]
pub struct DeviceInfo {
    pub device_no: u32,
    pub name: &'static str,
    pub file_name: &'static str,
}

/// A device that files in `/dev` stand for.
pub trait Device {
    /// The device's number and names.
    fn info(&self) -> DeviceInfo;

    /// Reads from the device at `offset` into `buf`; gives how many bytes
    /// were read.
    fn dev_read(&self, offset: u64, buf: &mut [u8]) -> Result<u64, SysError>;

    /// Writes `buf` to the device at `offset`; gives how many bytes were
    /// taken.
    fn dev_write(&self, offset: u64, buf: &[u8]) -> Result<u64, SysError>;
}

/// The device that gives nothing and takes nothing.
pub struct NullDev;

impl Device for NullDev {
    fn info(&self) -> (r: DeviceInfo)
        ensures
            r.device_no == NULL_DEV_NO,
            r.name@ == "null"@,
            r.file_name@ == "null"@,
    {
        DeviceInfo { device_no: NULL_DEV_NO, name: "null", file_name: "null" }
    }

    fn dev_read(&self, offset: u64, buf: &mut [u8]) -> (r: Result<u64, SysError>)
        ensures
            r matches Ok(n) && n == 0,
            final(buf)@ == old(buf)@,
    {
        Ok(0)
    }

    fn dev_write(&self, offset: u64, buf: &[u8]) -> (r: Result<u64, SysError>)
        ensures
            r matches Ok(n) && n == 0,
    {
        Ok(0)
    }
}

/// The device that reads as endless zero bytes and takes all it is given.
pub struct ZeroDev;

impl Device for ZeroDev {
    fn info(&self) -> (r: DeviceInfo)
        ensures
            r.device_no == ZERO_DEV_NO,
            r.name@ == "zero"@,
            r.file_name@ == "zero"@,
    {
        DeviceInfo { device_no: ZERO_DEV_NO, name: "zero", file_name: "zero" }
    }

    fn dev_read(&self, offset: u64, buf: &mut [u8]) -> (r: Result<u64, SysError>)
        ensures
            r matches Ok(n) && n == old(buf)@.len(),
            final(buf)@.len() == old(buf)@.len(),
            forall|i: int| 0 <= i < final(buf)@.len() ==> final(buf)@[i] == 0,
    {
        let mut i: usize = 0;
        while i < buf.len()
            invariant
                i <= buf@.len(),
                buf@.len() == old(buf)@.len(),
                forall|k: int| 0 <= k < i ==> buf@[k] == 0,
            decreases buf@.len() - i,
        {
            buf[i] = 0;
            i += 1;
        }
        Ok(buf.len() as u64)
    }

    fn dev_write(&self, offset: u64, buf: &[u8]) -> (r: Result<u64, SysError>)
        ensures
            r matches Ok(n) && n == buf@.len(),
    {
        Ok(buf.len() as u64)
    }
}

} // verus!
