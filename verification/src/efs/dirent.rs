//! Directory entries as stored in a directory's content: the inode number,
//! the type, the name's length and the name, 80 bytes in all.

use vstd::prelude::*;
use vstd::utf8::{valid_utf8, decode_utf8};
use crate::text::{utf8_lossy, lossy_text};
use vstd::string::StringSliceAdditionalSpecFns;
use crate::le::{le_value, le_bytes, read_le, write_le, lemma_le_round_trip, lemma_pow256_values, lemma_le_value_bound};
use crate::efs::consts::{FILE_NAME_LEN, INVALID_INODE_NO};
use crate::efs::inode::{FileType, spec_type_code, spec_type_of};

verus! {

/// The size of an entry as a `usize`.
pub const DIRENT_BYTES: usize = 80;

/// A directory entry.
#[derive(Clone, Copy, Debug)]
pub struct RawDirent {
    pub inode_no: u64,
    pub typ: FileType,
    pub name_len: u32,
    pub name: [u8; 64],
}

/// The type a stored number reads as; a number that names no type reads
/// as `Unknown`.
pub open spec fn stored_type(n: u32) -> FileType {
    match spec_type_of(n) {
        Some(t) => t,
        None => FileType::Unknown,
    }
}

/// Whether `b` is the on-disk form of `d`.
pub open spec fn dirent_bytes(b: Seq<u8>, d: RawDirent) -> bool {
    &&& b.len() == DIRENT_BYTES
    &&& le_value(b.subrange(0, 8)) == d.inode_no
    &&& stored_type(le_value(b.subrange(8, 12)) as u32) == d.typ
    &&& le_value(b.subrange(12, 16)) == d.name_len
    &&& b.subrange(16, 80) == d.name@
}

/// The name of an entry whose length field is at most 64.
pub open spec fn dirent_name(d: RawDirent) -> Seq<u8> {
    d.name@.subrange(0, d.name_len as int)
}

/// The message of a directory whose content ends within an entry.
pub open spec fn short_dirent_msg() -> Seq<char> {
    "there is no enough data to read a directory entry"@
}

impl RawDirent {
    /// The entry naming inode `inode_no` of type `typ` as `name`.
    pub fn new(inode_no: u64, typ: FileType, name: &str) -> (r: Self)
        requires
            typ != FileType::Unknown,
            name.spec_bytes().len() <= FILE_NAME_LEN,
        ensures
            r.inode_no == inode_no,
            r.typ == typ,
            r.name_len == name.spec_bytes().len(),
            dirent_name(r) == name.spec_bytes(),
            forall|i: int| name.spec_bytes().len() <= i < 64 ==> #[trigger] r.name@[i] == 0,
    {
        let bytes = name.as_bytes();
        let mut arr: [u8; 64] = [0u8; 64];
        let mut i: usize = 0;
        while i < bytes.len()
            invariant
                bytes@ == name.spec_bytes(),
                bytes@.len() <= 64,
                i <= bytes@.len(),
                forall|j: int| 0 <= j < i ==> #[trigger] arr@[j] == bytes@[j],
                forall|j: int| bytes@.len() <= j < 64 ==> #[trigger] arr@[j] == 0,
            decreases bytes@.len() - i,
        {
            arr[i] = bytes[i];
            i += 1;
        }
        let r = RawDirent { inode_no, typ, name_len: bytes.len() as u32, name: arr };
        assert(dirent_name(r) =~= name.spec_bytes());
        r
    }

    /// The name of the entry.
    pub fn name(&self) -> (r: &[u8])
        requires
            self.name_len <= 64,
        ensures
            r@ == dirent_name(*self),
    {
        let s: &[u8] = self.name.as_slice();
        &s[0..self.name_len as usize]
    }

    /// The name as text, each invalid UTF-8 sequence replaced by U+FFFD.
    pub fn name_as_utf8(&self) -> (r: String)
        requires
            self.name_len <= 64,
        ensures
            r@ == lossy_text(dirent_name(*self)),
            valid_utf8(dirent_name(*self)) ==> r@ == decode_utf8(dirent_name(*self)),
    {
        utf8_lossy(self.name())
    }

    /// Whether the entry is free (names no inode).
    pub fn is_unused(&self) -> (r: bool)
        ensures
            r == (self.inode_no == INVALID_INODE_NO),
    {
        self.inode_no == INVALID_INODE_NO
    }

    /// The on-disk form of the entry.
    pub fn to_bytes(&self) -> (r: Vec<u8>)
        ensures
            dirent_bytes(r@, *self),
    {
        let mut b: Vec<u8> = vec![0u8; DIRENT_BYTES];
        proof {
            lemma_pow256_values();
        }
        write_le(&mut b, 0, 8, self.inode_no);
        let ghost s0 = b@;
        write_le(&mut b, 8, 4, self.typ.to_u32() as u64);
        let ghost s1 = b@;
        write_le(&mut b, 12, 4, self.name_len as u64);
        let ghost s2 = b@;
        let mut i: usize = 0;
        while i < FILE_NAME_LEN
            invariant
                b@.len() == DIRENT_BYTES,
                b@.subrange(0, 16) == s2.subrange(0, 16),
                s2.len() == DIRENT_BYTES,
                i <= 64,
                forall|j: int| 0 <= j < i ==> #[trigger] b@[16 + j] == self.name@[j],
            decreases 64 - i,
        {
            let ghost pre = b@;
            b.set(16 + i, self.name[i]);
            assert(b@.subrange(0, 16) =~= pre.subrange(0, 16));
            i += 1;
        }
        proof {
            let s = b@;
            assert(self.name@.len() == 64);
            assert forall|j: int| 0 <= j < 64 implies #[trigger] s.subrange(16, 80)[j] == self.name@[j] by {
                assert(s[16 + j] == self.name@[j]);
            }
            assert(s.subrange(16, 80) =~= self.name@);
            assert(s.subrange(0, 8) =~= s.subrange(0, 16).subrange(0, 8));
            assert(s2.subrange(0, 8) =~= s2.subrange(0, 16).subrange(0, 8));
            assert(s.subrange(8, 12) =~= s.subrange(0, 16).subrange(8, 12));
            assert(s2.subrange(8, 12) =~= s2.subrange(0, 16).subrange(8, 12));
            assert(s.subrange(12, 16) =~= s.subrange(0, 16).subrange(12, 16));
            assert(s2.subrange(12, 16) =~= s2.subrange(0, 16).subrange(12, 16));
            assert(s2.subrange(0, 8) =~= s0.subrange(0, 8));
            assert(s2.subrange(8, 12) =~= s1.subrange(8, 12));
            lemma_le_round_trip(self.inode_no as nat, 8);
            lemma_le_round_trip(spec_type_code(self.typ) as nat, 4);
            lemma_le_round_trip(self.name_len as nat, 4);
            assert(stored_type(spec_type_code(self.typ)) == self.typ);
        }
        b
    }

    /// The entry whose on-disk form is `b`.
    pub fn from_bytes(b: &[u8]) -> (r: Self)
        requires
            b@.len() == DIRENT_BYTES,
        ensures
            dirent_bytes(b@, r),
    {
        proof {
            lemma_pow256_values();
            lemma_le_value_bound(b@.subrange(8, 12));
            lemma_le_value_bound(b@.subrange(12, 16));
        }
        let mut arr: [u8; 64] = [0u8; 64];
        let mut i: usize = 0;
        while i < FILE_NAME_LEN
            invariant
                b@.len() == DIRENT_BYTES,
                i <= 64,
                forall|j: int| 0 <= j < i ==> #[trigger] arr@[j] == b@[16 + j],
            decreases 64 - i,
        {
            arr[i] = b[16 + i];
            i += 1;
        }
        let t = read_le(b, 8, 4);
        let typ = match FileType::try_from_primitive(t as u32) {
            Some(ft) => ft,
            None => FileType::Unknown,
        };
        let n = read_le(b, 12, 4);
        let r = RawDirent { inode_no: read_le(b, 0, 8), typ, name_len: n as u32, name: arr };
        assert(b@.subrange(16, 80) =~= r.name@);
        r
    }
}

} // verus!
