//! The values that the two pipelines exchange: identifiers, part files, the
//! descriptor of a run and the metadata file.

use crate::naming::md5_digest;
use crate::naming::md5_of;
use crate::wire::ByteIter;
use vstd::prelude::*;
use vstd::slice::slice_subrange;
use vstd::utf8::encode_utf8;

verus! {

/// The number of bytes of an identifier.
pub const HASH_LEN: usize = 16;

/// The identifier of a part: 16 bytes derived from the part's naming key.
#[derive(Debug, Clone, Copy, PartialEq, Eq)]
pub struct HashPart(pub [u8; 16]);

impl View for HashPart {
    type V = Seq<u8>;

    open spec fn view(&self) -> Seq<u8> {
        self.0@
    }
}

impl HashPart {
    /// Reads the next 16 bytes of `src` as an identifier. Where fewer are
    /// left nothing is read.
    pub fn read(src: &mut ByteIter) -> (hash: Option<HashPart>)
        ensures
            old(src).remaining().len() < 16 ==> hash is None
                && final(src).remaining() == old(src).remaining(),
            old(src).remaining().len() >= 16 ==> hash is Some
                && hash->0@ == old(src).remaining().take(16)
                && final(src).remaining() == old(src).remaining().skip(16),
    {
        match src.take(HASH_LEN) {
            None => None,
            Some(bytes) => {
                let mut hash = [0u8; 16];
                let mut i: usize = 0;
                while i < 16
                    invariant
                        i <= 16,
                        bytes@.len() == 16,
                        forall|j: int| 0 <= j < i ==> hash@[j] == bytes@[j],
                    decreases 16 - i,
                {
                    hash[i] = bytes[i];
                    i += 1;
                }
                assert(hash@ =~= bytes@);
                Some(HashPart(hash))
            },
        }
    }

    /// The identifier that belongs to a naming key: the MD5 digest of the
    /// key's UTF-8 bytes.
    pub fn of_key(key: &str) -> (hash: HashPart)
        ensures
            hash@ == md5_digest(encode_utf8(key@)),
    {
        HashPart(md5_of(key.as_bytes()))
    }

    /// Whether two identifiers agree in every byte.
    pub fn same(&self, other: &HashPart) -> (equal: bool)
        ensures
            equal == (self@ == other@),
    {
        let mut i: usize = 0;
        while i < 16
            invariant
                i <= 16,
                forall|j: int| 0 <= j < i ==> self.0@[j] == other.0@[j],
            decreases 16 - i,
        {
            if self.0[i] != other.0[i] {
                return false;
            }
            i += 1;
        }
        assert(self@ =~= other@);
        true
    }
}

/// The views of a list of identifiers.
pub open spec fn hash_views(parts: Seq<HashPart>) -> Seq<Seq<u8>> {
    Seq::new(parts.len(), |i: int| parts[i]@)
}

/// A part file as a value: its name, its identifier and its bytes.
#[derive(Debug, Clone, PartialEq, Eq)]
pub struct FilePart {
    /// The bytes of the part file: the identifier, then the chunk.
    pub part_file: Vec<u8>,
    /// The identifier of the part.
    pub hash_bytes: HashPart,
    /// The name of the part file.
    pub part_file_name: String,
}

impl FilePart {
    /// The file starts with the identifier.
    pub open spec fn well_formed(&self) -> bool {
        &&& self.part_file@.len() >= 16
        &&& self.part_file@.take(16) == self.hash_bytes@
    }

    /// The bytes of the source file that the part carries: what stands
    /// behind the identifier. A file that is shorter than an identifier
    /// carries nothing.
    pub open spec fn chunk(&self) -> Seq<u8> {
        if self.part_file@.len() >= 16 {
            self.part_file@.skip(16)
        } else {
            Seq::empty()
        }
    }

    /// Puts an identifier in front of a chunk.
    pub fn assemble(part_file_name: String, hash_bytes: HashPart, data: &[u8]) -> (part: FilePart)
        ensures
            part.part_file_name == part_file_name,
            part.hash_bytes == hash_bytes,
            part.part_file@ == hash_bytes@ + data@,
            part.well_formed(),
            part.chunk() == data@,
    {
        let mut part_file: Vec<u8> = Vec::new();
        part_file.extend_from_slice(hash_bytes.0.as_slice());
        part_file.extend_from_slice(data);
        assert(part_file@.take(16) =~= hash_bytes@);
        assert(part_file@.skip(16) =~= data@);
        FilePart { part_file, hash_bytes, part_file_name }
    }

    /// The bytes of the source file that the part carries.
    pub fn data(&self) -> (data: &[u8])
        ensures
            data@ == self.chunk(),
    {
        let len = self.part_file.len();
        if len >= HASH_LEN {
            slice_subrange(self.part_file.as_slice(), HASH_LEN, len)
        } else {
            slice_subrange(self.part_file.as_slice(), len, len)
        }
    }
}

/// What a descriptor says, as mathematical values.
#[verifier::ext_equal]
pub ghost struct Descriptor {
    /// The name of the source file, without its extension.
    pub filename: Seq<char>,
    /// The extension of the source file.
    pub file_extension: Seq<char>,
    /// The grouping token of the run.
    pub uuid_parts: Seq<char>,
    /// The identifiers of the parts, in sequence order.
    pub parts: Seq<Seq<u8>>,
}

/// The descriptor of a run: what is needed to put the source file together
/// again from its parts.
#[derive(Debug, Clone, PartialEq, Eq)]
pub struct CompositeFile {
    /// The name of the source file, without its extension.
    pub filename: String,
    /// The extension of the source file.
    pub file_extension: String,
    /// The identifiers of the parts, in sequence order.
    pub parts: Vec<HashPart>,
    /// The grouping token of the run, from which part file names derive.
    pub uuid_parts: String,
}

impl View for CompositeFile {
    type V = Descriptor;

    open spec fn view(&self) -> Descriptor {
        Descriptor {
            filename: self.filename@,
            file_extension: self.file_extension@,
            uuid_parts: self.uuid_parts@,
            parts: hash_views(self.parts@),
        }
    }
}

/// The metadata file as a value: its name and its bytes.
#[derive(Debug, Clone, PartialEq, Eq)]
pub struct MetaFile {
    /// The name of the metadata file.
    pub name: String,
    /// The bytes of the metadata file.
    pub bytes: Vec<u8>,
}

} // verus!
