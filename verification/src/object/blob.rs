//! The blob: the contents of one file, byte for byte.

use vstd::prelude::*;
use crate::bytes::subvec;
use crate::object::error::ObjectError;
use crate::object::Object;

verus! {

/// The contents of a file.
pub struct Blob {
    data: Vec<u8>,
}

impl View for Blob {
    type V = Seq<u8>;

    closed spec fn view(&self) -> Seq<u8> {
        self.data@
    }
}

impl Object for Blob {
    open spec fn valid(&self) -> bool {
        true
    }

    open spec fn payload(&self) -> Seq<u8> {
        self@
    }

    open spec fn parses(data: Seq<u8>) -> bool {
        true
    }

    fn serialize(&mut self) -> (out: Vec<u8>)
        ensures
            final(self)@ == old(self)@,
    {
        let out = subvec(self.data.as_slice(), 0, self.data.len());
        assert(self.data@.subrange(0, self.data@.len() as int) =~= self.data@);
        out
    }

    fn deserialize(data: &[u8]) -> (r: Result<Self, ObjectError>)
        ensures
            r matches Ok(blob) && blob@ == data@,
    {
        let copy = subvec(data, 0, data.len());
        assert(data@.subrange(0, data@.len() as int) =~= data@);
        Ok(Blob { data: copy })
    }
}

impl Blob {
    /// A copy of the contents.
    pub fn get_data(&self) -> (r: Vec<u8>)
        ensures
            r@ == self@,
    {
        let out = subvec(self.data.as_slice(), 0, self.data.len());
        assert(self.data@.subrange(0, self.data@.len() as int) =~= self.data@);
        out
    }
}

} // verus!
