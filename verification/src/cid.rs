//! Content identifiers and blocks.
use vstd::prelude::*;

verus! {

/// A content identifier, held in its binary form.
#[derive(Debug, PartialEq, Eq, Hash)]
pub struct Cid {
    pub bytes: Vec<u8>,
}

impl View for Cid {
    type V = Seq<u8>;

    open spec fn view(&self) -> Seq<u8> {
        self.bytes@
    }
}

impl Clone for Cid {
    fn clone(&self) -> (r: Self)
        ensures r@ == self@,
    {
        Cid { bytes: self.bytes.clone() }
    }
}

impl Default for Cid {
    /// The CID with an empty binary form.
    fn default() -> (r: Self)
        ensures r@ == Seq::<u8>::empty(),
    {
        Cid { bytes: Vec::new() }
    }
}

impl Cid {
    /// A CID from its binary form.
    pub fn from_bytes(bytes: Vec<u8>) -> (r: Cid)
        ensures r@ == bytes@,
    {
        Cid { bytes }
    }

    /// The binary form of this CID.
    pub fn to_bytes(&self) -> (r: Vec<u8>)
        ensures r@ == self@,
    {
        self.bytes.clone()
    }

    /// Whether two CIDs are the same.
    pub fn same_as(&self, other: &Cid) -> (r: bool)
        ensures r == (self@ == other@),
    {
        bytes_eq(&self.bytes, &other.bytes)
    }
}

/// Whether two byte vectors hold the same bytes.
pub fn bytes_eq(a: &Vec<u8>, b: &Vec<u8>) -> (r: bool)
    ensures r == (a@ == b@),
{
    if a.len() != b.len() {
        return false;
    }
    let mut i: usize = 0;
    while i < a.len()
        invariant i <= a.len(), a.len() == b.len(), forall|k: int| 0 <= k < i ==> a@[k] == b@[k],
        decreases a.len() - i,
    {
        if a[i] != b[i] {
            return false;
        }
        i += 1;
    }
    assert(a@ =~= b@);
    true
}

/// A block: content bytes with the CID that addresses them.
#[derive(Debug)]
pub struct Block {
    pub cid: Cid,
    pub data: Vec<u8>,
}

impl View for Block {
    type V = (Seq<u8>, Seq<u8>);

    /// The CID's bytes and the data.
    open spec fn view(&self) -> (Seq<u8>, Seq<u8>) {
        (self.cid@, self.data@)
    }
}

impl Clone for Block {
    fn clone(&self) -> (r: Self)
        ensures r@ == self@,
    {
        Block { cid: self.cid.clone(), data: self.data.clone() }
    }
}

impl Block {
    /// A block from its CID and its bytes.
    pub fn from_parts(cid: Cid, data: Vec<u8>) -> (r: Block)
        ensures r.cid@ == cid@, r.data@ == data@,
    {
        Block { cid, data }
    }

    /// The CID of this block.
    pub fn cid(&self) -> (r: &Cid)
        ensures r@ == self.cid@,
    {
        &self.cid
    }

    /// The bytes of this block.
    pub fn data(&self) -> (r: &Vec<u8>)
        ensures r@ == self.data@,
    {
        &self.data
    }

    /// The size of this block in bytes.
    pub fn size(&self) -> (r: u64)
        ensures r == self.data@.len(),
    {
        self.data.len() as u64
    }
}

} // verus!
