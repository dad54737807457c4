//! The fixed-width record (row) codec: an unsigned 32-bit id and two
//! sentinel-terminated, fixed-capacity byte fields, serialized back to back.

use crate::buf::{
    bytes_eq_except, read_bytes, read_u32_at, u32_at, write_bytes_at, write_u32_at,
};
use crate::error::{DbError, DbResult};
use vstd::bytes::{lemma_auto_spec_u32_to_from_le_bytes, spec_u32_to_le_bytes};
use vstd::prelude::*;

verus! {

/// Greatest number of username bytes a record may carry.
pub const COLUMN_USERNAME_SIZE: usize = 32;

/// Greatest number of email bytes a record may carry.
pub const COLUMN_EMAIL_SIZE: usize = 255;

pub const ID_SIZE: usize = 4;

/// Stored username width: the capacity plus one terminator byte.
pub const USERNAME_SIZE: usize = COLUMN_USERNAME_SIZE + 1;

/// Stored email width: the capacity plus one terminator byte.
pub const EMAIL_SIZE: usize = COLUMN_EMAIL_SIZE + 1;

pub const ID_OFFSET: usize = 0;

pub const USERNAME_OFFSET: usize = ID_OFFSET + ID_SIZE;

pub const EMAIL_OFFSET: usize = USERNAME_OFFSET + USERNAME_SIZE;

/// On-disk size of one record: the sum of its field widths.
pub const ROW_SIZE: usize = ID_SIZE + USERNAME_SIZE + EMAIL_SIZE;

/// One table record. The string fields always hold exactly their stored
/// width; bytes after the data are zero.
#[derive(Debug, Clone, PartialEq)]
pub struct Row {
    pub id: u32,
    pub username: Vec<u8>,
    pub email: Vec<u8>,
}

impl Row {
    /// Both string fields hold exactly their stored width.
    pub open spec fn wf(self) -> bool {
        &&& self.username@.len() == USERNAME_SIZE
        &&& self.email@.len() == EMAIL_SIZE
    }

    /// The exact byte image this record serializes to.
    pub open spec fn spec_bytes(self) -> Seq<u8> {
        spec_u32_to_le_bytes(self.id) + self.username@ + self.email@
    }

    /// The record's fields as read back from the byte image `b`.
    pub open spec fn matches_bytes(self, b: Seq<u8>) -> bool {
        &&& self.id == u32_at(b, ID_OFFSET as int)
        &&& self.username@ == b.subrange(
            USERNAME_OFFSET as int,
            USERNAME_OFFSET as int + USERNAME_SIZE as int,
        )
        &&& self.email@ == b.subrange(
            EMAIL_OFFSET as int,
            EMAIL_OFFSET as int + EMAIL_SIZE as int,
        )
    }

    /// Write this record's byte image into `dst` at `off`; no other byte of
    /// `dst` changes.
    pub fn serialize_row(&self, dst: &mut Vec<u8>, off: usize)
        requires
            self.wf(),
            off + ROW_SIZE <= old(dst).len(),
        ensures
            final(dst)@.len() == old(dst)@.len(),
            final(dst)@.subrange(off as int, off as int + ROW_SIZE as int) == self.spec_bytes(),
            bytes_eq_except(old(dst)@, final(dst)@, off as int, off as int + ROW_SIZE as int),
    {
        write_u32_at(dst, off + ID_OFFSET, self.id);
        write_bytes_at(dst, off + USERNAME_OFFSET, &self.username);
        write_bytes_at(dst, off + EMAIL_OFFSET, &self.email);
        proof {
            let f = dst@;
            assert(f.subrange(off as int, off as int + 4) =~= spec_u32_to_le_bytes(self.id));
            assert(f.subrange(off as int, off as int + ROW_SIZE as int) =~= self.spec_bytes());
        }
    }

    /// Read the record stored in `src` at `off` into this record.
    pub fn deserialize_row(&mut self, src: &Vec<u8>, off: usize)
        requires
            off + ROW_SIZE <= src.len(),
        ensures
            final(self).wf(),
            final(self).matches_bytes(src@.subrange(off as int, off as int + ROW_SIZE as int)),
    {
        self.id = read_u32_at(src, off + ID_OFFSET);
        self.username = read_bytes(src, off + USERNAME_OFFSET, USERNAME_SIZE);
        self.email = read_bytes(src, off + EMAIL_OFFSET, EMAIL_SIZE);
        proof {
            let region = src@.subrange(off as int, off as int + ROW_SIZE as int);
            assert(region.subrange(ID_OFFSET as int, ID_OFFSET as int + 4) =~= src@.subrange(
                off as int,
                off as int + 4,
            ));
            assert(region.subrange(
                USERNAME_OFFSET as int,
                USERNAME_OFFSET as int + USERNAME_SIZE as int,
            ) =~= src@.subrange(
                off as int + USERNAME_OFFSET as int,
                off as int + USERNAME_OFFSET as int + USERNAME_SIZE as int,
            ));
            assert(region.subrange(
                EMAIL_OFFSET as int,
                EMAIL_OFFSET as int + EMAIL_SIZE as int,
            ) =~= src@.subrange(
                off as int + EMAIL_OFFSET as int,
                off as int + EMAIL_OFFSET as int + EMAIL_SIZE as int,
            ));
        }
    }

    /// Store `username`, zero-padded to the stored width; rejected if it
    /// exceeds the field's capacity.
    pub fn set_username(&mut self, username: &[u8]) -> (r: DbResult<()>)
        requires
            old(self).wf(),
        ensures
            final(self).wf(),
            r is Ok <==> username@.len() <= COLUMN_USERNAME_SIZE,
            r is Ok ==> final(self).username@ == username@ + Seq::new(
                (USERNAME_SIZE - username@.len()) as nat,
                |i: int| 0u8,
            ),
            r is Ok ==> final(self).id == old(self).id && final(self).email == old(self).email,
            r is Err ==> r->Err_0 is FieldOverflow && *final(self) == *old(self),
    {
        if username.len() > COLUMN_USERNAME_SIZE {
            return Err(DbError::FieldOverflow);
        }
        self.username = pad_field(username, USERNAME_SIZE);
        Ok(())
    }

    /// Store `email`, zero-padded to the stored width; rejected if it
    /// exceeds the field's capacity.
    pub fn set_email(&mut self, email: &[u8]) -> (r: DbResult<()>)
        requires
            old(self).wf(),
        ensures
            final(self).wf(),
            r is Ok <==> email@.len() <= COLUMN_EMAIL_SIZE,
            r is Ok ==> final(self).email@ == email@ + Seq::new(
                (EMAIL_SIZE - email@.len()) as nat,
                |i: int| 0u8,
            ),
            r is Ok ==> final(self).id == old(self).id && final(self).username == old(
                self,
            ).username,
            r is Err ==> r->Err_0 is FieldOverflow && *final(self) == *old(self),
    {
        if email.len() > COLUMN_EMAIL_SIZE {
            return Err(DbError::FieldOverflow);
        }
        self.email = pad_field(email, EMAIL_SIZE);
        Ok(())
    }
}

/// `src` followed by zero bytes up to `width`.
fn pad_field(src: &[u8], width: usize) -> (r: Vec<u8>)
    requires
        src@.len() < width,
    ensures
        r@ == src@ + Seq::new((width - src@.len()) as nat, |i: int| 0u8),
        r@.len() == width,
{
    let mut r: Vec<u8> = Vec::new();
    let mut i: usize = 0;
    while i < src.len()
        invariant
            i <= src@.len(),
            r@ =~= src@.subrange(0, i as int),
        decreases src@.len() - i,
    {
        r.push(src[i]);
        i = i + 1;
    }
    while r.len() < width
        invariant
            src@.len() <= r@.len() <= width,
            r@.subrange(0, src@.len() as int) =~= src@,
            forall|j: int| src@.len() <= j < r@.len() ==> r@[j] == 0u8,
        decreases width - r.len(),
    {
        r.push(0u8);
    }
    proof {
        assert(r@ =~= src@ + Seq::new((width - src@.len()) as nat, |i: int| 0u8));
    }
    r
}

impl Default for Row {
    /// The zero record: id 0 and both string fields all zero.
    fn default() -> (r: Row)
        ensures
            r.wf(),
            r.id == 0,
            r.username@ == Seq::new(USERNAME_SIZE as nat, |i: int| 0u8),
            r.email@ == Seq::new(EMAIL_SIZE as nat, |i: int| 0u8),
    {
        let empty: [u8; 0] = [];
        let username = pad_field(&empty, USERNAME_SIZE);
        let email = pad_field(&empty, EMAIL_SIZE);
        proof {
            assert(username@ =~= Seq::new(USERNAME_SIZE as nat, |i: int| 0u8));
            assert(email@ =~= Seq::new(EMAIL_SIZE as nat, |i: int| 0u8));
        }
        Row { id: 0, username, email }
    }
}

/// Round-trip law: any record read back from the byte image of a
/// well-formed record equals that record, field for field.
pub proof fn lemma_row_round_trip(r1: Row, r2: Row)
    requires
        r1.wf(),
        r2.matches_bytes(r1.spec_bytes()),
    ensures
        r2.id == r1.id,
        r2.username@ == r1.username@,
        r2.email@ == r1.email@,
{
    lemma_auto_spec_u32_to_from_le_bytes();
    let b = r1.spec_bytes();
    assert(b.subrange(ID_OFFSET as int, ID_OFFSET as int + 4) =~= spec_u32_to_le_bytes(r1.id));
    assert(b.subrange(USERNAME_OFFSET as int, USERNAME_OFFSET as int + USERNAME_SIZE as int)
        =~= r1.username@);
    assert(b.subrange(EMAIL_OFFSET as int, EMAIL_OFFSET as int + EMAIL_SIZE as int)
        =~= r1.email@);
}

} // verus!
