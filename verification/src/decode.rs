//! Reading: the metadata file, one part file, and the whole reassembly.

use crate::errors::DecodeErrors;
use crate::errors::MetadataFault;
use crate::layout::parse_int;
use crate::layout::parse_meta;
use crate::layout::parse_str;
use crate::layout::split_hashes;
use crate::model::hash_views;
use crate::model::CompositeFile;
use crate::model::Descriptor;
use crate::model::FilePart;
use crate::model::HashPart;
use crate::naming::output_file_name;
use crate::naming::output_name;
use crate::naming::part_file_name;
use crate::naming::part_name;
use crate::wire::be_decode;
use crate::wire::ByteIter;
use vstd::prelude::*;
use vstd::slice::slice_subrange;
use vstd::slice::slice_to_vec;
use vstd::utf8::decode_utf8;
use vstd::utf8::valid_utf8;

verus! {

/// The width of an integer that stands in front of a text or a list.
#[derive(Debug, Clone, Copy, PartialEq, Eq, Structural)]
pub enum DecodeType {
    /// One byte.
    U8,
    /// Eight bytes, most significant first.
    U64,
}

impl DecodeType {
    /// The number of bytes of such an integer.
    pub open spec fn width(self) -> nat {
        match self {
            DecodeType::U8 => 1,
            DecodeType::U64 => 8,
        }
    }

    /// The number of bytes of such an integer.
    pub fn byte_len(self) -> (len: usize)
        ensures
            len == self.width(),
    {
        match self {
            DecodeType::U8 => 1,
            DecodeType::U64 => 8,
        }
    }

    /// Reads one integer of this width from `iter`. Where too few bytes are
    /// left, nothing is read.
    pub fn decode_from_iter(self, iter: &mut ByteIter) -> (decoded: Result<u64, DecodeErrors>)
        ensures
            match parse_int(self.width(), old(iter).remaining()) {
                None => decoded == Err::<u64, _>(
                    DecodeErrors::MalformedMetadata(MetadataFault::Truncated),
                ) && final(iter).remaining() == old(iter).remaining(),
                Some((value, rest)) => decoded matches Ok(v) && v == value
                    && final(iter).remaining() == rest,
            },
    {
        match iter.take(self.byte_len()) {
            None => Err(DecodeErrors::MalformedMetadata(MetadataFault::Truncated)),
            Some(bytes) => Ok(be_decode(bytes)),
        }
    }
}

/// Calls `String::from_utf8` and drops the reason of a failure. The bytes
/// make a string exactly where they are valid UTF-8, and the string then
/// holds the characters that they spell.
#[verifier::external_body]
pub(crate) fn text_from_utf8(bytes: Vec<u8>) -> (text: Option<String>)
    ensures
        text is Some <==> valid_utf8(bytes@),
        text matches Some(s) ==> s@ == decode_utf8(bytes@),
{
    String::from_utf8(bytes).ok()
}

/// Reads a text that stands behind its length, an integer of the given
/// width that counts the text's bytes. Where the text cannot be read,
/// nothing is read.
pub fn decode_str(width: DecodeType, iter: &mut ByteIter) -> (decoded: Result<String, DecodeErrors>)
    ensures
        match parse_str(width.width(), old(iter).remaining()) {
            Err(fault) => decoded == Err::<String, _>(DecodeErrors::MalformedMetadata(fault))
                && final(iter).remaining() == old(iter).remaining(),
            Ok((text, rest)) => decoded matches Ok(s) && s@ == text && final(iter).remaining()
                == rest,
        },
{
    let all = iter.rest();
    let w = width.byte_len();
    if all.len() < w {
        return Err(DecodeErrors::MalformedMetadata(MetadataFault::Truncated));
    }
    let len = be_decode(slice_subrange(all, 0, w));
    if ((all.len() - w) as u64) < len {
        assert(all@.skip(w as int).len() < len);
        return Err(DecodeErrors::MalformedMetadata(MetadataFault::Truncated));
    }
    let n = len as usize;
    let body = slice_subrange(all, w, w + n);
    assert(body@ =~= all@.skip(w as int).take(n as int));
    match text_from_utf8(slice_to_vec(body)) {
        None => Err(DecodeErrors::MalformedMetadata(MetadataFault::InvalidUtf8)),
        Some(text) => {
            let taken = iter.take(w + n);
            assert(final(iter).remaining() =~= all@.skip(w as int).skip(n as int));
            Ok(text)
        },
    }
}

/// Reads a file extension that stands behind an eight-byte length.
pub fn decode_input_file_extension(src: &mut ByteIter) -> (decoded: Result<String, DecodeErrors>)
    ensures
        match parse_str(8, old(src).remaining()) {
            Err(fault) => decoded == Err::<String, _>(DecodeErrors::MalformedMetadata(fault))
                && final(src).remaining() == old(src).remaining(),
            Ok((text, rest)) => decoded matches Ok(s) && s@ == text && final(src).remaining()
                == rest,
        },
{
    decode_str(DecodeType::U64, src)
}

/// Reads a metadata file: the three texts, the number of parts and the
/// identifiers. The result is the descriptor that the bytes spell, or the
/// first fault met on the way.
pub fn decode_metafile(bytes: &[u8]) -> (decoded: Result<CompositeFile, DecodeErrors>)
    ensures
        match parse_meta(bytes@) {
            Err(fault) => decoded == Err::<CompositeFile, _>(
                DecodeErrors::MalformedMetadata(fault),
            ),
            Ok(d) => decoded matches Ok(composite) && composite@ == d,
        },
{
    let mut iter = ByteIter::new(bytes);
    let filename = match decode_str(DecodeType::U8, &mut iter) {
        Err(e) => {
            return Err(e);
        },
        Ok(text) => text,
    };
    let file_extension = match decode_str(DecodeType::U8, &mut iter) {
        Err(e) => {
            return Err(e);
        },
        Ok(text) => text,
    };
    let uuid_parts = match decode_str(DecodeType::U8, &mut iter) {
        Err(e) => {
            return Err(e);
        },
        Ok(text) => text,
    };
    let count = match DecodeType::U64.decode_from_iter(&mut iter) {
        Err(e) => {
            return Err(e);
        },
        Ok(count) => count,
    };
    let ghost block = iter.remaining();
    let block_len = iter.len();
    if block_len % 16 != 0 || ((block_len / 16) as u64) != count {
        return Err(DecodeErrors::MalformedMetadata(MetadataFault::CountMismatch));
    }
    let n = block_len / 16;
    let mut parts: Vec<HashPart> = Vec::new();
    let mut i: usize = 0;
    while i < n
        invariant
            i <= n,
            block.len() == 16 * n,
            parts@.len() == i,
            iter.remaining() == block.skip(16 * i),
            forall|j: int| 0 <= j < i ==> (#[trigger] parts@[j])@ == split_hashes(block)[j],
        decreases n - i,
    {
        let hash = HashPart::read(&mut iter);
        assert(hash is Some);
        let hash = hash.unwrap();
        assert(hash@ =~= block.subrange(16 * i, 16 * i + 16));
        assert(iter.remaining() =~= block.skip(16 * (i + 1)));
        parts.push(hash);
        i += 1;
    }
    let composite = CompositeFile { filename, file_extension, parts, uuid_parts };
    assert(hash_views(composite.parts@) =~= split_hashes(block));
    Ok(composite)
}

/// The bytes of a file that was looked for, if it was found.
pub open spec fn found_view(found: Option<Vec<u8>>) -> Option<Seq<u8>> {
    match found {
        None => None,
        Some(bytes) => Some(bytes@),
    }
}

/// What the part with sequence number `number` gives, where `expected` is
/// its recorded identifier and `found` are the bytes of its file, if there
/// is one: the chunk behind the identifier, or the reason why the part is
/// refused.
pub open spec fn check_part(expected: Seq<u8>, number: nat, found: Option<Seq<u8>>) -> Result<
    Seq<u8>,
    DecodeErrors,
> {
    match found {
        None => Err(DecodeErrors::MissingPart(number as u64)),
        Some(bytes) => {
            if bytes.len() < 16 || bytes.take(16) != expected {
                Err(DecodeErrors::CorruptPart(number as u64))
            } else {
                Ok(bytes.skip(16))
            }
        },
    }
}

/// Checks one part file against its recorded identifier. `found` holds the
/// bytes of the file named after `part_uuid` and `part_number`, or nothing
/// where there is no such file. A file that is shorter than an identifier,
/// or starts with another identifier than `part_hash`, is corrupt.
pub fn decode_part(
    part_uuid: &str,
    part_number: u64,
    part_hash: &HashPart,
    found: Option<Vec<u8>>,
) -> (decoded: Result<FilePart, DecodeErrors>)
    ensures
        match check_part(part_hash@, part_number as nat, found_view(found)) {
            Err(e) => decoded == Err::<FilePart, _>(e),
            Ok(chunk) => {
                &&& decoded matches Ok(part)
                &&& part.part_file_name@ == part_name(part_uuid@, part_number as nat)
                &&& part.hash_bytes == *part_hash
                &&& Some(part.part_file@) == found_view(found)
                &&& part.well_formed()
                &&& part.chunk() == chunk
            },
        },
{
    let part_file = match found {
        None => {
            return Err(DecodeErrors::MissingPart(part_number));
        },
        Some(bytes) => bytes,
    };
    let mut iter = ByteIter::new(part_file.as_slice());
    let embedded = match HashPart::read(&mut iter) {
        None => {
            return Err(DecodeErrors::CorruptPart(part_number));
        },
        Some(hash) => hash,
    };
    if !embedded.same(part_hash) {
        return Err(DecodeErrors::CorruptPart(part_number));
    }
    Ok(
        FilePart {
            part_file,
            hash_bytes: *part_hash,
            part_file_name: part_file_name(part_uuid, part_number),
        },
    )
}

/// What the first `count` parts give together: their chunks one after the
/// other, or the error of the first part that is refused.
pub open spec fn reassemble_prefix(
    hashes: Seq<Seq<u8>>,
    found: Seq<Option<Seq<u8>>>,
    count: nat,
) -> Result<Seq<u8>, DecodeErrors>
    decreases count,
{
    if count == 0 {
        Ok(Seq::empty())
    } else {
        match reassemble_prefix(hashes, found, (count - 1) as nat) {
            Err(e) => Err(e),
            Ok(front) => match check_part(hashes[count - 1], count, found[count - 1]) {
                Err(e) => Err(e),
                Ok(chunk) => Ok(front + chunk),
            },
        }
    }
}

/// What the parts give together, where `hashes` are the recorded
/// identifiers and `found[i]` is what was found under the name of part
/// `i + 1`.
pub open spec fn reassemble(hashes: Seq<Seq<u8>>, found: Seq<Option<Seq<u8>>>) -> Result<
    Seq<u8>,
    DecodeErrors,
> {
    reassemble_prefix(hashes, found, hashes.len())
}

/// One run of putting a file together: it holds the descriptor and knows
/// how many parts have been taken.
///
/// [`Decoder::start`] reads the metadata file and makes sure that it lists
/// as many identifiers as it declares. Then the parts are taken in order:
/// as long as [`Decoder::next_part_name`] names a part file, the caller
/// looks for that file and hands what it found to [`Decoder::accept`],
/// which gives the chunk to append to the output. The run is done when no
/// part is due any more. A part that is refused is never skipped: the run
/// stays at this part, and the output is complete only if every part was
/// taken.
pub struct Decoder {
    composite: CompositeFile,
    done: usize,
}

impl Decoder {
    #[verifier::type_invariant]
    spec fn valid(self) -> bool {
        self.done <= self.composite.parts@.len()
    }

    /// What the metadata file says.
    pub closed spec fn descriptor(self) -> Descriptor {
        self.composite@
    }

    /// How many parts have been taken.
    pub closed spec fn consumed(self) -> nat {
        self.done as nat
    }

    /// Starts a run: reads the metadata file.
    pub fn start(meta: &[u8]) -> (started: Result<Decoder, DecodeErrors>)
        ensures
            match parse_meta(meta@) {
                Err(fault) => started == Err::<Decoder, _>(DecodeErrors::MalformedMetadata(fault)),
                Ok(d) => started matches Ok(decoder) && decoder.descriptor() == d
                    && decoder.consumed() == 0,
            },
    {
        match decode_metafile(meta) {
            Err(e) => Err(e),
            Ok(composite) => Ok(Decoder { composite, done: 0 }),
        }
    }

    /// The name of the file that is put together.
    pub fn output_file_name(&self) -> (name: String)
        ensures
            name@ == output_name(self.descriptor().filename, self.descriptor().file_extension),
    {
        output_file_name(self.composite.filename.as_str(), self.composite.file_extension.as_str())
    }

    /// How many parts the metadata file declares.
    pub fn count_parts(&self) -> (count: usize)
        ensures
            count == self.descriptor().parts.len(),
    {
        self.composite.parts.len()
    }

    /// How many parts have been taken.
    pub fn count_taken(&self) -> (count: usize)
        ensures
            count == self.consumed(),
            count <= self.descriptor().parts.len(),
    {
        proof {
            use_type_invariant(self);
        }
        self.done
    }

    /// The name of the part file that is due, or nothing where all parts
    /// have been taken.
    pub fn next_part_name(&self) -> (name: Option<String>)
        ensures
            self.consumed() <= self.descriptor().parts.len(),
            self.consumed() == self.descriptor().parts.len() ==> name is None,
            self.consumed() < self.descriptor().parts.len() ==> name is Some && name->0@
                == part_name(self.descriptor().uuid_parts, self.consumed() + 1),
    {
        proof {
            use_type_invariant(self);
        }
        let total = self.composite.parts.len();
        if self.done < total {
            Some(part_file_name(self.composite.uuid_parts.as_str(), self.done as u64 + 1))
        } else {
            None
        }
    }

    /// Takes what was found under the name of the part that is due. A part
    /// that is missing or corrupt is refused with its sequence number, and
    /// the run stays where it was. A part that carries the recorded
    /// identifier is taken, and its chunk is the next piece of the output.
    pub fn accept(&mut self, found: Option<Vec<u8>>) -> (taken: Result<FilePart, DecodeErrors>)
        requires
            old(self).consumed() < old(self).descriptor().parts.len(),
        ensures
            final(self).descriptor() == old(self).descriptor(),
            ({
                let d = old(self).descriptor();
                let at = old(self).consumed();
                match check_part(d.parts[at as int], at + 1, found_view(found)) {
                    Err(e) => taken == Err::<FilePart, _>(e) && final(self).consumed() == at,
                    Ok(chunk) => {
                        &&& taken matches Ok(part)
                        &&& part.part_file_name@ == part_name(d.uuid_parts, at + 1)
                        &&& part.hash_bytes@ == d.parts[at as int]
                        &&& Some(part.part_file@) == found_view(found)
                        &&& part.well_formed()
                        &&& part.chunk() == chunk
                        &&& final(self).consumed() == at + 1
                    },
                }
            }),
    {
        proof {
            use_type_invariant(&*self);
        }
        let total = self.composite.parts.len();
        assert(self.done < total);
        let number: u64 = self.done as u64 + 1;
        let decoded = decode_part(
            self.composite.uuid_parts.as_str(),
            number,
            &self.composite.parts[self.done],
            found,
        );
        if decoded.is_ok() {
            self.done = self.done + 1;
        }
        decoded
    }
}

/// The bytes of the first file in `store` that is called `name`.
pub open spec fn lookup(store: Seq<FilePart>, name: Seq<char>) -> Option<Seq<u8>>
    decreases store.len(),
{
    if store.len() == 0 {
        None
    } else if store[0].part_file_name@ == name {
        Some(store[0].part_file@)
    } else {
        lookup(store.drop_first(), name)
    }
}

/// What is found in `store` under the names of the parts 1 to `count` of
/// the run with grouping token `token`.
pub open spec fn found_parts(store: Seq<FilePart>, token: Seq<char>, count: nat) -> Seq<
    Option<Seq<u8>>,
> {
    Seq::new(count, |i: int| lookup(store, part_name(token, (i + 1) as nat)))
}

/// What putting a file together gives: the name of the output file and its
/// content, or the first error on the way.
pub open spec fn decoded_file(meta: Seq<u8>, store: Seq<FilePart>) -> Result<
    (Seq<char>, Seq<u8>),
    DecodeErrors,
> {
    match parse_meta(meta) {
        Err(fault) => Err(DecodeErrors::MalformedMetadata(fault)),
        Ok(d) => match reassemble(d.parts, found_parts(store, d.uuid_parts, d.parts.len())) {
            Err(e) => Err(e),
            Ok(content) => Ok((output_name(d.filename, d.file_extension), content)),
        },
    }
}

/// Once a part has been refused, more parts change nothing.
pub proof fn lemma_refusal_stays(
    hashes: Seq<Seq<u8>>,
    found: Seq<Option<Seq<u8>>>,
    at: nat,
    count: nat,
)
    requires
        at <= count,
        reassemble_prefix(hashes, found, at) is Err,
    ensures
        reassemble_prefix(hashes, found, count) == reassemble_prefix(hashes, found, at),
    decreases count,
{
    if at < count {
        lemma_refusal_stays(hashes, found, at, (count - 1) as nat);
    }
}

/// Looks for the file called `name` among `store`, and copies its bytes.
pub fn find_part(store: &Vec<FilePart>, name: &String) -> (found: Option<Vec<u8>>)
    ensures
        found_view(found) == lookup(store@, name@),
{
    let mut i: usize = 0;
    assert(store@.skip(0) =~= store@);
    while i < store.len()
        invariant
            i <= store@.len(),
            lookup(store@, name@) == lookup(store@.skip(i as int), name@),
        decreases store@.len() - i,
    {
        if store[i].part_file_name == *name {
            return Some(slice_to_vec(store[i].part_file.as_slice()));
        }
        assert(store@.skip(i as int).drop_first() =~= store@.skip(i + 1));
        i += 1;
    }
    None
}

/// A file that was put together: its name and its content.
#[derive(Debug, Clone, PartialEq, Eq)]
pub struct RebuiltFile {
    /// The name of the file: the source's file name, a `.` and its
    /// extension.
    pub name: String,
    /// The bytes of the file.
    pub content: Vec<u8>,
}

/// Puts a file together from the bytes of its metadata file and the part
/// files in `store`. Each part is looked up under the name that the
/// grouping token and its sequence number give, checked against its
/// recorded identifier, and its chunk is appended. The first part that is
/// missing or corrupt ends the run with its error.
pub fn decode_file(meta: &[u8], store: &Vec<FilePart>) -> (decoded: Result<
    RebuiltFile,
    DecodeErrors,
>)
    ensures
        match decoded_file(meta@, store@) {
            Err(e) => decoded == Err::<RebuiltFile, _>(e),
            Ok((name, content)) => decoded matches Ok(file) && file.name@ == name
                && file.content@ == content,
        },
{
    let mut decoder = match Decoder::start(meta) {
        Err(e) => {
            return Err(e);
        },
        Ok(decoder) => decoder,
    };
    let ghost d = decoder.descriptor();
    let ghost found_all = found_parts(store@, d.uuid_parts, d.parts.len());
    let count = decoder.count_parts();
    let mut content: Vec<u8> = Vec::new();
    let mut taken: usize = 0;
    while taken < count
        invariant
            decoder.descriptor() == d,
            found_all == found_parts(store@, d.uuid_parts, d.parts.len()),
            count == d.parts.len(),
            taken == decoder.consumed(),
            taken <= count,
            reassemble_prefix(d.parts, found_all, taken as nat) == Ok::<_, DecodeErrors>(content@),
            parse_meta(meta@) == Ok::<_, MetadataFault>(d),
        decreases count - taken,
    {
        let name = decoder.next_part_name().unwrap();
        let found = find_part(store, &name);
        let ghost before = content@;
        assert(found_view(found) == found_all[taken as int]);
        match decoder.accept(found) {
            Err(e) => {
                proof {
                    assert(reassemble_prefix(d.parts, found_all, (taken + 1) as nat) == Err::<
                        Seq<u8>,
                        _,
                    >(e));
                    lemma_refusal_stays(d.parts, found_all, (taken + 1) as nat, d.parts.len());
                }
                return Err(e);
            },
            Ok(part) => {
                content.extend_from_slice(part.data());
                proof {
                    assert(check_part(
                        d.parts[taken as int],
                        (taken + 1) as nat,
                        found_all[taken as int],
                    ) == Ok::<_, DecodeErrors>(part.chunk()));
                    assert(content@ == before + part.chunk());
                    assert(reassemble_prefix(d.parts, found_all, (taken + 1) as nat) == Ok::<
                        _,
                        DecodeErrors,
                    >(content@));
                }
            },
        }
        taken = taken + 1;
    }
    Ok(RebuiltFile { name: decoder.output_file_name(), content })
}

} // verus!
