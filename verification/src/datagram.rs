//! Bounds-checked, endianness-normalized binary message builder.
//!
//! A [`Datagram`] is an append-only byte buffer capped at 65535 bytes, so
//! that its total size always fits a 16-bit length prefix.  Every append
//! first checks whether the new total would exceed the cap; on overflow it
//! fails with [`DgError::DatagramOverflow`] and performs no mutation at all.
//! Multi-byte values are stored little-endian regardless of host order.

use vstd::prelude::*;
use vstd::string::StringSliceAdditionalSpecFns;
use vstd::string::StrSliceExecFns;

verus! {

/// Greatest number of bytes a datagram may hold: the largest size that a
/// 16-bit length tag can describe.
pub const DG_SIZE_MAX: u16 = 65535;

/// A 16-bit size tag on the wire.
pub type DgSize = u16;

/// A 64-bit channel identifier.
pub type Channel = u64;

/// A 32-bit distributed object identifier.
pub type DoId = u32;

/// A 32-bit zone identifier.
pub type Zone = u32;

/// The sole error of the datagram builder: the next write would push the
/// buffer past [`DG_SIZE_MAX`] bytes.  The append performs no mutation in
/// that case, so the caller may recover (for example by splitting the
/// payload over several messages).
#[derive(Clone, Copy, Debug, PartialEq, Eq, Structural)]
pub enum DgError {
    DatagramOverflow,
}

/// Result of appending to a datagram.
pub type DgResult = Result<(), DgError>;

/// The little-endian bytes of a 16-bit value: least significant byte first.
pub open spec fn le16(v: u16) -> Seq<u8> {
    seq![(v % 0x100) as u8, (v / 0x100) as u8]
}

/// The little-endian bytes of a 32-bit value.
pub open spec fn le32(v: u32) -> Seq<u8> {
    seq![
        (v % 0x100) as u8,
        (v / 0x100 % 0x100) as u8,
        (v / 0x10000 % 0x100) as u8,
        (v / 0x1000000 % 0x100) as u8,
    ]
}

/// The little-endian bytes of a 64-bit value.
pub open spec fn le64(v: u64) -> Seq<u8> {
    seq![
        (v % 0x100) as u8,
        (v / 0x100 % 0x100) as u8,
        (v / 0x10000 % 0x100) as u8,
        (v / 0x1000000 % 0x100) as u8,
        (v / 0x100000000 % 0x100) as u8,
        (v / 0x10000000000 % 0x100) as u8,
        (v / 0x1000000000000 % 0x100) as u8,
        (v / 0x100000000000000 % 0x100) as u8,
    ]
}

/// Two's-complement reinterpretation of a signed 8-bit value.
pub open spec fn as_u8(v: i8) -> u8 {
    if v >= 0 {
        v as u8
    } else {
        (v + 0x100) as u8
    }
}

/// Two's-complement reinterpretation of a signed 16-bit value.
pub open spec fn as_u16(v: i16) -> u16 {
    if v >= 0 {
        v as u16
    } else {
        (v + 0x10000) as u16
    }
}

/// Two's-complement reinterpretation of a signed 32-bit value.
pub open spec fn as_u32(v: i32) -> u32 {
    if v >= 0 {
        v as u32
    } else {
        (v + 0x100000000) as u32
    }
}

/// Two's-complement reinterpretation of a signed 64-bit value.
pub open spec fn as_u64(v: i64) -> u64 {
    if v >= 0 {
        v as u64
    } else {
        (v + 0x10000000000000000) as u64
    }
}

/// An append-only binary message bounded to [`DG_SIZE_MAX`] bytes.
///
/// The view of a datagram is the byte sequence written so far.
pub struct Datagram {
    buffer: Vec<u8>,
}

impl View for Datagram {
    type V = Seq<u8>;

    closed spec fn view(&self) -> Seq<u8> {
        self.buffer@
    }
}

impl Datagram {
    #[verifier::type_invariant]
    spec fn inv(self) -> bool {
        self.buffer@.len() <= DG_SIZE_MAX as int
    }

    /// A fresh, empty datagram.
    pub fn new() -> (r: Datagram)
        ensures
            r@ == Seq::<u8>::empty(),
    {
        Datagram { buffer: Vec::new() }
    }

    /// How many bytes the datagram holds so far.
    pub fn size(&self) -> (r: usize)
        ensures
            r == self@.len(),
    {
        self.buffer.len()
    }

    /// Hands the finished wire bytes to the caller.
    pub fn get_data(self) -> (r: Vec<u8>)
        ensures
            r@ == self@,
    {
        self.buffer
    }

    /// Whether `length` more bytes still fit under the size cap.
    fn check_add_length(&self, length: DgSize) -> (r: DgResult)
        ensures
            r is Ok <==> self@.len() + length as int <= DG_SIZE_MAX as int,
            r is Err ==> r == Err::<(), DgError>(DgError::DatagramOverflow),
    {
        proof {
            use_type_invariant(&*self);
        }
        let new_offset: usize = self.buffer.len() + length as usize;
        if new_offset > DG_SIZE_MAX as usize {
            Err(DgError::DatagramOverflow)
        } else {
            Ok(())
        }
    }

    /// Appends the bytes of `more`, which the caller has already checked to
    /// fit under the size cap.
    fn push_all(&mut self, more: Vec<u8>)
        requires
            old(self)@.len() + more@.len() <= DG_SIZE_MAX as int,
        ensures
            final(self)@ == old(self)@ + more@,
    {
        proof {
            use_type_invariant(&*self);
        }
        let mut moved: Vec<u8> = more;
        let mut buf: Vec<u8> = Vec::new();
        core::mem::swap(&mut buf, &mut self.buffer);
        buf.append(&mut moved);
        self.buffer = buf;
    }

    /// Appends a boolean as one byte: 1 for true, 0 for false.
    pub fn add_bool(&mut self, v: bool) -> (r: DgResult)
        ensures
            old(self)@.len() + 1 <= DG_SIZE_MAX as int ==> r is Ok && final(self)@ == old(self)@
                + seq![if v { 1u8 } else { 0u8 }],
            old(self)@.len() + 1 > DG_SIZE_MAX as int ==> r == Err::<(), DgError>(
                DgError::DatagramOverflow,
            ) && final(self)@ == old(self)@,
    {
        if v {
            self.add_u8(1)
        } else {
            self.add_u8(0)
        }
    }

    /// Appends an unsigned 8-bit value.
    pub fn add_u8(&mut self, v: u8) -> (r: DgResult)
        ensures
            old(self)@.len() + 1 <= DG_SIZE_MAX as int ==> r is Ok && final(self)@ == old(self)@
                + seq![v],
            old(self)@.len() + 1 > DG_SIZE_MAX as int ==> r == Err::<(), DgError>(
                DgError::DatagramOverflow,
            ) && final(self)@ == old(self)@,
    {
        let res: DgResult = self.check_add_length(1);
        if res.is_err() {
            return res;
        }
        let mut more: Vec<u8> = Vec::new();
        more.push(v);
        self.push_all(more);
        Ok(())
    }

    /// Appends an unsigned 16-bit value as two little-endian bytes.
    pub fn add_u16(&mut self, v: u16) -> (r: DgResult)
        ensures
            old(self)@.len() + 2 <= DG_SIZE_MAX as int ==> r is Ok && final(self)@ == old(self)@
                + le16(v),
            old(self)@.len() + 2 > DG_SIZE_MAX as int ==> r == Err::<(), DgError>(
                DgError::DatagramOverflow,
            ) && final(self)@ == old(self)@,
    {
        let res: DgResult = self.check_add_length(2);
        if res.is_err() {
            return res;
        }
        let mut more: Vec<u8> = Vec::new();
        more.push((v % 0x100) as u8);
        more.push((v / 0x100) as u8);
        proof {
            assert(more@ =~= le16(v));
        }
        self.push_all(more);
        Ok(())
    }

    /// Appends an unsigned 32-bit value as four little-endian bytes.
    pub fn add_u32(&mut self, v: u32) -> (r: DgResult)
        ensures
            old(self)@.len() + 4 <= DG_SIZE_MAX as int ==> r is Ok && final(self)@ == old(self)@
                + le32(v),
            old(self)@.len() + 4 > DG_SIZE_MAX as int ==> r == Err::<(), DgError>(
                DgError::DatagramOverflow,
            ) && final(self)@ == old(self)@,
    {
        let res: DgResult = self.check_add_length(4);
        if res.is_err() {
            return res;
        }
        let mut more: Vec<u8> = Vec::new();
        more.push((v % 0x100) as u8);
        more.push((v / 0x100 % 0x100) as u8);
        more.push((v / 0x10000 % 0x100) as u8);
        more.push((v / 0x1000000) as u8);
        proof {
            assert(more@ =~= le32(v));
        }
        self.push_all(more);
        Ok(())
    }

    /// Appends an unsigned 64-bit value as eight little-endian bytes.
    pub fn add_u64(&mut self, v: u64) -> (r: DgResult)
        ensures
            old(self)@.len() + 8 <= DG_SIZE_MAX as int ==> r is Ok && final(self)@ == old(self)@
                + le64(v),
            old(self)@.len() + 8 > DG_SIZE_MAX as int ==> r == Err::<(), DgError>(
                DgError::DatagramOverflow,
            ) && final(self)@ == old(self)@,
    {
        let res: DgResult = self.check_add_length(8);
        if res.is_err() {
            return res;
        }
        let mut more: Vec<u8> = Vec::new();
        more.push((v % 0x100) as u8);
        more.push((v / 0x100 % 0x100) as u8);
        more.push((v / 0x10000 % 0x100) as u8);
        more.push((v / 0x1000000 % 0x100) as u8);
        more.push((v / 0x100000000 % 0x100) as u8);
        more.push((v / 0x10000000000 % 0x100) as u8);
        more.push((v / 0x1000000000000 % 0x100) as u8);
        more.push((v / 0x100000000000000) as u8);
        proof {
            assert(more@ =~= le64(v));
        }
        self.push_all(more);
        Ok(())
    }

    /// Appends a signed 8-bit value, reinterpreted as its unsigned bits.
    pub fn add_i8(&mut self, v: i8) -> (r: DgResult)
        ensures
            old(self)@.len() + 1 <= DG_SIZE_MAX as int ==> r is Ok && final(self)@ == old(self)@
                + seq![as_u8(v)],
            old(self)@.len() + 1 > DG_SIZE_MAX as int ==> r == Err::<(), DgError>(
                DgError::DatagramOverflow,
            ) && final(self)@ == old(self)@,
    {
        let u: u8 = if v >= 0 {
            v as u8
        } else {
            ((v as i16) + 0x100) as u8
        };
        self.add_u8(u)
    }

    /// Appends a signed 16-bit value, reinterpreted as its unsigned bits.
    pub fn add_i16(&mut self, v: i16) -> (r: DgResult)
        ensures
            old(self)@.len() + 2 <= DG_SIZE_MAX as int ==> r is Ok && final(self)@ == old(self)@
                + le16(as_u16(v)),
            old(self)@.len() + 2 > DG_SIZE_MAX as int ==> r == Err::<(), DgError>(
                DgError::DatagramOverflow,
            ) && final(self)@ == old(self)@,
    {
        let u: u16 = if v >= 0 {
            v as u16
        } else {
            ((v as i32) + 0x10000) as u16
        };
        self.add_u16(u)
    }

    /// Appends a signed 32-bit value, reinterpreted as its unsigned bits.
    pub fn add_i32(&mut self, v: i32) -> (r: DgResult)
        ensures
            old(self)@.len() + 4 <= DG_SIZE_MAX as int ==> r is Ok && final(self)@ == old(self)@
                + le32(as_u32(v)),
            old(self)@.len() + 4 > DG_SIZE_MAX as int ==> r == Err::<(), DgError>(
                DgError::DatagramOverflow,
            ) && final(self)@ == old(self)@,
    {
        let u: u32 = if v >= 0 {
            v as u32
        } else {
            ((v as i64) + 0x100000000) as u32
        };
        self.add_u32(u)
    }

    /// Appends a signed 64-bit value, reinterpreted as its unsigned bits.
    pub fn add_i64(&mut self, v: i64) -> (r: DgResult)
        ensures
            old(self)@.len() + 8 <= DG_SIZE_MAX as int ==> r is Ok && final(self)@ == old(self)@
                + le64(as_u64(v)),
            old(self)@.len() + 8 > DG_SIZE_MAX as int ==> r == Err::<(), DgError>(
                DgError::DatagramOverflow,
            ) && final(self)@ == old(self)@,
    {
        let u: u64 = if v >= 0 {
            v as u64
        } else {
            ((v as i128) + 0x10000000000000000) as u64
        };
        self.add_u64(u)
    }

    /// Appends a datagram or field length tag.
    pub fn add_size(&mut self, v: DgSize) -> (r: DgResult)
        ensures
            old(self)@.len() + 2 <= DG_SIZE_MAX as int ==> r is Ok && final(self)@ == old(self)@
                + le16(v),
            old(self)@.len() + 2 > DG_SIZE_MAX as int ==> r == Err::<(), DgError>(
                DgError::DatagramOverflow,
            ) && final(self)@ == old(self)@,
    {
        self.add_u16(v)
    }

    /// Appends a 64-bit channel identifier.
    pub fn add_channel(&mut self, v: Channel) -> (r: DgResult)
        ensures
            old(self)@.len() + 8 <= DG_SIZE_MAX as int ==> r is Ok && final(self)@ == old(self)@
                + le64(v),
            old(self)@.len() + 8 > DG_SIZE_MAX as int ==> r == Err::<(), DgError>(
                DgError::DatagramOverflow,
            ) && final(self)@ == old(self)@,
    {
        self.add_u64(v)
    }

    /// Appends a 32-bit distributed object identifier.
    pub fn add_doid(&mut self, v: DoId) -> (r: DgResult)
        ensures
            old(self)@.len() + 4 <= DG_SIZE_MAX as int ==> r is Ok && final(self)@ == old(self)@
                + le32(v),
            old(self)@.len() + 4 > DG_SIZE_MAX as int ==> r == Err::<(), DgError>(
                DgError::DatagramOverflow,
            ) && final(self)@ == old(self)@,
    {
        self.add_u32(v)
    }

    /// Appends a 32-bit zone identifier.
    pub fn add_zone(&mut self, v: Zone) -> (r: DgResult)
        ensures
            old(self)@.len() + 4 <= DG_SIZE_MAX as int ==> r is Ok && final(self)@ == old(self)@
                + le32(v),
            old(self)@.len() + 4 > DG_SIZE_MAX as int ==> r == Err::<(), DgError>(
                DgError::DatagramOverflow,
            ) && final(self)@ == old(self)@,
    {
        self.add_u32(v)
    }

    /// Appends a (parent, zone) location as one atomic eight-byte write.
    pub fn add_location(&mut self, parent: DoId, zone: Zone) -> (r: DgResult)
        ensures
            old(self)@.len() + 8 <= DG_SIZE_MAX as int ==> r is Ok && final(self)@ == old(self)@
                + le32(parent) + le32(zone),
            old(self)@.len() + 8 > DG_SIZE_MAX as int ==> r == Err::<(), DgError>(
                DgError::DatagramOverflow,
            ) && final(self)@ == old(self)@,
    {
        let res: DgResult = self.check_add_length(8);
        if res.is_err() {
            return res;
        }
        let res2: DgResult = self.add_u32(parent);
        proof {
            assert(res2 is Ok);
        }
        let res3: DgResult = self.add_u32(zone);
        proof {
            assert(res3 is Ok);
        }
        Ok(())
    }

    /// Appends raw bytes verbatim, with no length prefix.
    pub fn add_data(&mut self, v: Vec<u8>) -> (r: DgResult)
        ensures
            old(self)@.len() + v@.len() <= DG_SIZE_MAX as int ==> r is Ok && final(self)@ == old(
                self,
            )@ + v@,
            old(self)@.len() + v@.len() > DG_SIZE_MAX as int ==> r == Err::<(), DgError>(
                DgError::DatagramOverflow,
            ) && final(self)@ == old(self)@,
    {
        proof {
            use_type_invariant(&*self);
        }
        if v.len() > DG_SIZE_MAX as usize {
            return Err(DgError::DatagramOverflow);
        }
        let res: DgResult = self.check_add_length(v.len() as u16);
        if res.is_err() {
            return res;
        }
        self.push_all(v);
        Ok(())
    }

    /// Appends the full contents of another datagram.
    pub fn add_datagram(&mut self, dg: Datagram) -> (r: DgResult)
        ensures
            old(self)@.len() + dg@.len() <= DG_SIZE_MAX as int ==> r is Ok && final(self)@ == old(
                self,
            )@ + dg@,
            old(self)@.len() + dg@.len() > DG_SIZE_MAX as int ==> r == Err::<(), DgError>(
                DgError::DatagramOverflow,
            ) && final(self)@ == old(self)@,
    {
        proof {
            use_type_invariant(&dg);
        }
        let other: Vec<u8> = dg.buffer;
        let res: DgResult = self.check_add_length(other.len() as u16);
        if res.is_err() {
            return res;
        }
        self.push_all(other);
        Ok(())
    }

    /// Appends a string as a 16-bit length tag followed by its UTF-8 bytes.
    /// Fails, writing nothing, when the byte length cannot fit the tag or
    /// the total would exceed the size cap.
    pub fn add_string(&mut self, v: &str) -> (r: DgResult)
        ensures
            v.spec_bytes().len() <= DG_SIZE_MAX as int && old(self)@.len() + 2
                + v.spec_bytes().len() <= DG_SIZE_MAX as int ==> r is Ok && final(self)@ == old(
                self,
            )@ + le16(v.spec_bytes().len() as u16) + v.spec_bytes(),
            v.spec_bytes().len() > DG_SIZE_MAX as int || old(self)@.len() + 2
                + v.spec_bytes().len() > DG_SIZE_MAX as int ==> r == Err::<(), DgError>(
                DgError::DatagramOverflow,
            ) && final(self)@ == old(self)@,
    {
        let bytes: Vec<u8> = v.as_bytes_vec();
        self.add_blob(bytes)
    }

    /// Appends a blob as a 16-bit length tag followed by its bytes.  Fails,
    /// writing nothing, when the byte length cannot fit the tag or the
    /// total would exceed the size cap.
    pub fn add_blob(&mut self, v: Vec<u8>) -> (r: DgResult)
        ensures
            v@.len() <= DG_SIZE_MAX as int && old(self)@.len() + 2 + v@.len() <= DG_SIZE_MAX
                as int ==> r is Ok && final(self)@ == old(self)@ + le16(v@.len() as u16) + v@,
            v@.len() > DG_SIZE_MAX as int || old(self)@.len() + 2 + v@.len() > DG_SIZE_MAX
                as int ==> r == Err::<(), DgError>(DgError::DatagramOverflow) && final(self)@ == old(
                self,
            )@,
    {
        proof {
            use_type_invariant(&*self);
        }
        if v.len() > DG_SIZE_MAX as usize {
            return Err(DgError::DatagramOverflow);
        }
        let tag: u16 = v.len() as u16;
        if self.buffer.len() + 2 + v.len() > DG_SIZE_MAX as usize {
            return Err(DgError::DatagramOverflow);
        }
        let res: DgResult = self.add_size(tag);
        proof {
            assert(res is Ok);
        }
        let res2: DgResult = self.add_data(v);
        proof {
            assert(res2 is Ok);
        }
        Ok(())
    }
}

} // verus!
