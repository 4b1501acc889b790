//! Writing: one part file, the metadata file, and the whole splitting.

use crate::errors::EncodeErrors;
use crate::layout::join;
use crate::layout::meta_bytes;
use crate::layout::str_field;
use crate::layout::writable;
use crate::model::hash_views;
use crate::model::CompositeFile;
use crate::model::Descriptor;
use crate::model::FilePart;
use crate::model::HashPart;
use crate::model::MetaFile;
use crate::naming::meta_file_name;
use crate::naming::meta_name;
use crate::naming::part_file_name;
use crate::naming::part_hash;
use crate::naming::part_hashes;
use crate::naming::part_name;
use crate::naming::random_token;
use crate::naming::source_name;
use crate::naming::split_source_path;
use crate::wire::be_bytes;
use crate::wire::be_encode;
use vstd::prelude::*;
use vstd::slice::slice_subrange;
use vstd::utf8::encode_utf8;
use vstd::utf8::is_ascii_chars;
use vstd::utf8::is_ascii_chars_encode_utf8;

verus! {

/// The chunk size that is used where none is asked for: 1 GiB.
pub const DEFAULT_SIZE_PART: usize = 1_073_741_824;

/// The chunk size that a configuration asks for.
pub open spec fn size_part_of(size_part_opt: Option<usize>) -> nat {
    match size_part_opt {
        Some(size) => size as nat,
        None => DEFAULT_SIZE_PART as nat,
    }
}

/// `part` is the part file with sequence number `number` of the run with
/// grouping token `token`, and carries `data`.
pub open spec fn is_part(part: FilePart, token: Seq<char>, number: nat, data: Seq<u8>) -> bool {
    &&& part.part_file_name@ == part_name(token, number)
    &&& part.hash_bytes@ == part_hash(token, number)
    &&& part.part_file@ == part_hash(token, number) + data
}

/// Makes the part file for one chunk: its name from the grouping token and
/// the sequence number, its identifier from the name, and its bytes, the
/// identifier in front of the chunk.
pub fn encode_part(part_uuid: &str, part_number: u64, data: &[u8]) -> (part: FilePart)
    ensures
        is_part(part, part_uuid@, part_number as nat, data@),
        part.well_formed(),
        part.chunk() == data@,
{
    let name = part_file_name(part_uuid, part_number);
    let hash = HashPart::of_key(name.as_str());
    FilePart::assemble(name, hash, data)
}

/// The three texts of a descriptor fit their one-byte lengths.
pub open spec fn texts_fit(d: Descriptor) -> bool {
    &&& encode_utf8(d.filename).len() <= 255
    &&& encode_utf8(d.file_extension).len() <= 255
    &&& encode_utf8(d.uuid_parts).len() <= 255
}

/// A descriptor with identifiers of the right length, and no more of them
/// than a machine can hold, can be written as soon as its texts fit.
pub proof fn lemma_composite_writable(composite: CompositeFile)
    ensures
        writable(composite@) == texts_fit(composite@),
{
    let parts = hash_views(composite.parts@);
    assert forall|i: int| 0 <= i < parts.len() implies (#[trigger] parts[i]).len() == 16 by {
        assert(parts[i] == composite.parts@[i].0@);
    }
    assert(composite.parts.len() == parts.len());
}

/// The number of bytes that a text takes in UTF-8.
pub fn utf8_len(text: &str) -> (len: usize)
    ensures
        len == encode_utf8(text@).len(),
{
    text.as_bytes().len()
}

fn push_text(out: &mut Vec<u8>, text: &str)
    requires
        encode_utf8(text@).len() <= 255,
    ensures
        final(out)@ == old(out)@ + str_field(1, text@),
{
    let bytes = text.as_bytes();
    be_encode(out, bytes.len() as u64, 1);
    out.extend_from_slice(bytes);
    assert(final(out)@ =~= old(out)@ + str_field(1, text@));
}

/// Makes the metadata file of a descriptor: its name from the name of the
/// source file, and its bytes in the layout of the metadata file. A
/// descriptor with a text of more than 255 bytes is refused.
pub fn encode_metafile(composite_file: &CompositeFile) -> (encoded: Result<MetaFile, EncodeErrors>)
    ensures
        if texts_fit(composite_file@) {
            &&& encoded matches Ok(meta)
            &&& meta.name@ == meta_name(composite_file@.filename)
            &&& meta.bytes@ == meta_bytes(composite_file@)
        } else {
            encoded == Err::<MetaFile, _>(EncodeErrors::MalformedMetadata)
        },
{
    if utf8_len(composite_file.filename.as_str()) > 255 || utf8_len(
        composite_file.file_extension.as_str(),
    ) > 255 || utf8_len(composite_file.uuid_parts.as_str()) > 255 {
        return Err(EncodeErrors::MalformedMetadata);
    }
    let ghost d = composite_file@;
    let mut bytes: Vec<u8> = Vec::new();
    push_text(&mut bytes, composite_file.filename.as_str());
    push_text(&mut bytes, composite_file.file_extension.as_str());
    push_text(&mut bytes, composite_file.uuid_parts.as_str());
    be_encode(&mut bytes, composite_file.parts.len() as u64, 8);
    let ghost header = bytes@;
    assert(header =~= str_field(1, d.filename) + str_field(1, d.file_extension) + str_field(
        1,
        d.uuid_parts,
    ) + be_bytes(d.parts.len(), 8));
    let mut i: usize = 0;
    while i < composite_file.parts.len()
        invariant
            i <= composite_file.parts@.len(),
            d == composite_file@,
            bytes@ == header + join(d.parts.take(i as int)),
        decreases composite_file.parts@.len() - i,
    {
        bytes.extend_from_slice(composite_file.parts[i].0.as_slice());
        proof {
            let next = d.parts.take(i + 1);
            assert(next.drop_last() =~= d.parts.take(i as int));
            assert(next.last() == composite_file.parts@[i as int]@);
            assert(bytes@ =~= header + join(next));
        }
        i += 1;
    }
    assert(d.parts.take(i as int) =~= d.parts);
    assert(bytes@ =~= meta_bytes(d));
    Ok(MetaFile { name: meta_file_name(composite_file.filename.as_str()), bytes })
}

/// A byte string cut into chunks of `size` bytes; the last chunk holds
/// what is left and may be shorter. Nothing gives no chunk.
pub open spec fn chunks(content: Seq<u8>, size: nat) -> Seq<Seq<u8>>
    decreases content.len(),
{
    if size == 0 || content.len() == 0 {
        Seq::empty()
    } else if content.len() <= size {
        seq![content]
    } else {
        seq![content.take(size as int)] + chunks(content.skip(size as int), size)
    }
}

/// The descriptor of a run that has written `count` parts.
pub open spec fn run_descriptor(
    filename: Seq<char>,
    file_extension: Seq<char>,
    uuid_parts: Seq<char>,
    count: nat,
) -> Descriptor {
    Descriptor { filename, file_extension, uuid_parts, parts: part_hashes(uuid_parts, count) }
}

/// One run of splitting a file: it holds the descriptor as far as the
/// parts have been made.
///
/// A run goes through three steps. [`Encoder::start`] takes the file name
/// and the extension from the path and draws the grouping token. While the
/// chunks stream in, [`Encoder::push`] takes them in order and gives, for
/// each, the part file to write. At last [`Encoder::finish`] gives the
/// metadata file; it takes the run away, so that no part can follow. A
/// step that fails returns its error and leaves the run as it was; a
/// caller that cannot read or write a file gives the run up.
pub struct Encoder {
    composite: CompositeFile,
    size_part: usize,
}

impl Encoder {
    #[verifier::type_invariant]
    spec fn valid(self) -> bool {
        &&& texts_fit(self.composite@)
        &&& self.size_part >= 1
        &&& self.composite@.parts == part_hashes(
            self.composite@.uuid_parts,
            self.composite@.parts.len(),
        )
    }

    /// The descriptor as far as the parts have been made.
    pub closed spec fn descriptor(self) -> Descriptor {
        self.composite@
    }

    /// The configured chunk size.
    pub closed spec fn chunk_size(self) -> nat {
        self.size_part as nat
    }

    /// Starts a run on the source file at `path`, with a fresh random
    /// grouping token. The chunk size is `size_part_opt`, or 1 GiB where
    /// none is given.
    ///
    /// Whether the run starts depends on the path alone: it needs a last
    /// component that holds a `.`, and a file name and an extension of at
    /// most 255 bytes each.
    pub fn start(path: &str, size_part_opt: Option<usize>) -> (started: Result<
        Encoder,
        EncodeErrors,
    >)
        requires
            size_part_opt != Some(0usize),
        ensures
            match source_name(path@) {
                None => started == Err::<Encoder, _>(EncodeErrors::InvalidPath),
                Some((filename, file_extension)) => {
                    if encode_utf8(filename).len() > 255 || encode_utf8(file_extension).len()
                        > 255 {
                        started == Err::<Encoder, _>(EncodeErrors::MalformedMetadata)
                    } else {
                        &&& started matches Ok(encoder)
                        &&& encoder.descriptor().filename == filename
                        &&& encoder.descriptor().file_extension == file_extension
                        &&& encoder.descriptor().uuid_parts.len() == 36
                        &&& is_ascii_chars(encoder.descriptor().uuid_parts)
                        &&& encoder.descriptor().parts.len() == 0
                        &&& encoder.chunk_size() == size_part_of(size_part_opt)
                    }
                },
            },
    {
        let token = random_token();
        proof {
            is_ascii_chars_encode_utf8(token@);
        }
        Encoder::start_with_token(path, token, size_part_opt)
    }

    /// Starts a run on the source file at `path` with the grouping token
    /// `token`.
    pub fn start_with_token(path: &str, token: String, size_part_opt: Option<usize>) -> (started:
        Result<Encoder, EncodeErrors>)
        requires
            size_part_opt != Some(0usize),
        ensures
            match source_name(path@) {
                None => started == Err::<Encoder, _>(EncodeErrors::InvalidPath),
                Some((filename, file_extension)) => {
                    if encode_utf8(filename).len() > 255 || encode_utf8(file_extension).len() > 255
                        || encode_utf8(token@).len() > 255 {
                        started == Err::<Encoder, _>(EncodeErrors::MalformedMetadata)
                    } else {
                        &&& started matches Ok(encoder)
                        &&& encoder.descriptor() == run_descriptor(
                            filename,
                            file_extension,
                            token@,
                            0,
                        )
                        &&& encoder.chunk_size() == size_part_of(size_part_opt)
                    }
                },
            },
    {
        let (filename, file_extension) = match split_source_path(path) {
            Err(e) => {
                return Err(e);
            },
            Ok(names) => names,
        };
        if utf8_len(filename.as_str()) > 255 || utf8_len(file_extension.as_str()) > 255
            || utf8_len(token.as_str()) > 255 {
            return Err(EncodeErrors::MalformedMetadata);
        }
        let size_part = match size_part_opt {
            Some(size) => size,
            None => DEFAULT_SIZE_PART,
        };
        let composite = CompositeFile {
            filename,
            file_extension,
            parts: Vec::new(),
            uuid_parts: token,
        };
        assert(composite@.parts =~= part_hashes(composite@.uuid_parts, 0));
        Ok(Encoder { composite, size_part })
    }

    /// The configured chunk size: how many bytes of the source to read for
    /// the next part.
    pub fn size_part(&self) -> (size: usize)
        ensures
            size == self.chunk_size(),
            size >= 1,
    {
        proof {
            use_type_invariant(self);
        }
        self.size_part
    }

    /// How many parts have been made.
    pub fn count_parts(&self) -> (count: usize)
        ensures
            count == self.descriptor().parts.len(),
    {
        self.composite.parts.len()
    }

    /// Takes the next chunk of the source and gives the part file to
    /// write for it. An empty chunk says that the source is exhausted: it
    /// makes no part. The sequence number of the new part is one more than
    /// the number of parts made before; a run that already has as many
    /// parts as 64 bits can count takes no more.
    pub fn push(&mut self, data: &[u8]) -> (pushed: Result<Option<FilePart>, EncodeErrors>)
        ensures
            final(self).chunk_size() == old(self).chunk_size(),
            data@.len() == 0 ==> pushed == Ok::<_, EncodeErrors>(None::<FilePart>)
                && final(self).descriptor() == old(self).descriptor(),
            data@.len() > 0 && old(self).descriptor().parts.len() >= u64::MAX ==> pushed
                == Err::<Option<FilePart>, _>(EncodeErrors::MalformedMetadata)
                && final(self).descriptor() == old(self).descriptor(),
            data@.len() > 0 && old(self).descriptor().parts.len() < u64::MAX ==> {
                let before = old(self).descriptor();
                &&& pushed matches Ok(Some(part))
                &&& is_part(part, before.uuid_parts, before.parts.len() + 1, data@)
                &&& part.well_formed()
                &&& part.chunk() == data@
                &&& final(self).descriptor() == run_descriptor(
                    before.filename,
                    before.file_extension,
                    before.uuid_parts,
                    before.parts.len() + 1,
                )
            },
    {
        proof {
            use_type_invariant(&*self);
        }
        if data.len() == 0 {
            return Ok(None);
        }
        let made = self.composite.parts.len();
        if made as u64 >= u64::MAX {
            return Err(EncodeErrors::MalformedMetadata);
        }
        let number: u64 = made as u64 + 1;
        let mut run = Encoder::idle();
        core::mem::swap(self, &mut run);
        let Encoder { composite, size_part } = run;
        let CompositeFile { filename, file_extension, mut parts, uuid_parts } = composite;
        let part = encode_part(uuid_parts.as_str(), number, data);
        parts.push(part.hash_bytes);
        let composite = CompositeFile { filename, file_extension, parts, uuid_parts };
        proof {
            let before = old(self).composite@;
            let after = part_hashes(before.uuid_parts, number as nat);
            assert forall|i: int| 0 <= i < after.len() implies composite@.parts[i] == after[i] by {
                if i < made {
                    assert(before.parts[i] == part_hashes(before.uuid_parts, made as nat)[i]);
                }
            }
            assert(composite@.parts =~= after);
        }
        *self = Encoder { composite, size_part };
        Ok(Some(part))
    }

    /// A run without names and parts, to stand in while a run is rebuilt.
    fn idle() -> (run: Encoder)
        ensures
            run.descriptor() == run_descriptor(Seq::empty(), Seq::empty(), Seq::empty(), 0),
            run.chunk_size() == 1,
    {
        let composite = CompositeFile {
            filename: String::new(),
            file_extension: String::new(),
            parts: Vec::new(),
            uuid_parts: String::new(),
        };
        assert(composite@.parts =~= part_hashes(composite@.uuid_parts, 0));
        assert(composite@ =~= run_descriptor(Seq::empty(), Seq::empty(), Seq::empty(), 0));
        Encoder { composite, size_part: 1 }
    }

    /// Ends the run and gives the metadata file to write.
    pub fn finish(self) -> (meta: MetaFile)
        ensures
            meta.name@ == meta_name(self.descriptor().filename),
            meta.bytes@ == meta_bytes(self.descriptor()),
    {
        proof {
            use_type_invariant(&self);
        }
        encode_metafile(&self.composite).unwrap()
    }
}

/// `parts` are the part files of the run with grouping token `token` for
/// the chunks `pieces`, in order, with the sequence numbers from 1 on.
pub open spec fn are_parts(parts: Seq<FilePart>, token: Seq<char>, pieces: Seq<Seq<u8>>) -> bool {
    &&& parts.len() == pieces.len()
    &&& forall|i: int|
        0 <= i < pieces.len() ==> is_part(#[trigger] parts[i], token, (i + 1) as nat, pieces[i])
}

/// What splitting a file gives: the part files in order, and the metadata
/// file.
#[derive(Debug, Clone, PartialEq, Eq)]
pub struct EncodedFile {
    /// The part files, in sequence order.
    pub parts: Vec<FilePart>,
    /// The metadata file.
    pub meta: MetaFile,
}

/// Cutting off the first chunk of what is left of a byte string.
proof fn lemma_chunks_step(content: Seq<u8>, size: nat, pos: int, end: int)
    requires
        size >= 1,
        0 <= pos < content.len(),
        end == if content.len() - pos <= size {
            content.len() as int
        } else {
            pos + size
        },
    ensures
        chunks(content.skip(pos), size) == seq![content.subrange(pos, end)] + chunks(
            content.skip(end),
            size,
        ),
{
    let rest = content.skip(pos);
    if rest.len() <= size {
        assert(content.subrange(pos, end) =~= rest);
        assert(chunks(content.skip(end), size) =~= Seq::<Seq<u8>>::empty());
        assert(chunks(rest, size) =~= seq![content.subrange(pos, end)] + chunks(
            content.skip(end),
            size,
        ));
    } else {
        assert(content.subrange(pos, end) =~= rest.take(size as int));
        assert(content.skip(end) =~= rest.skip(size as int));
    }
}

/// Splits a file that is held in memory, with the grouping token `token`:
/// the content is cut into chunks of the configured size, each chunk
/// becomes a part file, and the metadata file lists the identifiers.
pub fn encode_file_with_token(
    path: &str,
    content: &[u8],
    size_part_opt: Option<usize>,
    token: String,
) -> (encoded: Result<EncodedFile, EncodeErrors>)
    requires
        size_part_opt != Some(0usize),
    ensures
        match source_name(path@) {
            None => encoded == Err::<EncodedFile, _>(EncodeErrors::InvalidPath),
            Some((filename, file_extension)) => {
                if encode_utf8(filename).len() > 255 || encode_utf8(file_extension).len() > 255
                    || encode_utf8(token@).len() > 255 {
                    encoded == Err::<EncodedFile, _>(EncodeErrors::MalformedMetadata)
                } else {
                    let pieces = chunks(content@, size_part_of(size_part_opt));
                    &&& encoded matches Ok(files)
                    &&& are_parts(files.parts@, token@, pieces)
                    &&& files.meta.name@ == meta_name(filename)
                    &&& files.meta.bytes@ == meta_bytes(
                        run_descriptor(filename, file_extension, token@, pieces.len()),
                    )
                }
            },
        },
{
    let ghost token_view = token@;
    let mut encoder = match Encoder::start_with_token(path, token, size_part_opt) {
        Err(e) => {
            return Err(e);
        },
        Ok(encoder) => encoder,
    };
    let ghost filename = encoder.descriptor().filename;
    let ghost file_extension = encoder.descriptor().file_extension;
    let size = encoder.size_part();
    let mut parts: Vec<FilePart> = Vec::new();
    let ghost mut done: Seq<Seq<u8>> = Seq::empty();
    let mut pos: usize = 0;
    assert(content@.skip(0) =~= content@);
    while pos < content.len()
        invariant
            pos <= content@.len(),
            size >= 1,
            size == encoder.chunk_size(),
            encoder.descriptor() == run_descriptor(
                filename,
                file_extension,
                token_view,
                parts@.len(),
            ),
            chunks(content@, size as nat) == done + chunks(content@.skip(pos as int), size as nat),
            are_parts(parts@, token_view, done),
            parts@.len() <= pos,
        decreases content@.len() - pos,
    {
        let end: usize = if content.len() - pos <= size {
            content.len()
        } else {
            pos + size
        };
        let chunk = slice_subrange(content, pos, end);
        proof {
            lemma_chunks_step(content@, size as nat, pos as int, end as int);
            assert(run_descriptor(filename, file_extension, token_view, parts@.len()).parts.len()
                == parts@.len());
        }
        let part = encoder.push(chunk).unwrap().unwrap();
        parts.push(part);
        proof {
            let rest = chunks(content@.skip(end as int), size as nat);
            assert(done + (seq![chunk@] + rest) =~= done.push(chunk@) + rest);
            done = done.push(chunk@);
        }
        pos = end;
    }
    proof {
        assert(chunks(content@.skip(pos as int), size as nat) =~= Seq::<Seq<u8>>::empty());
        assert(done =~= chunks(content@, size as nat));
    }
    let meta = encoder.finish();
    Ok(EncodedFile { parts, meta })
}

/// Splits a file that is held in memory, with a fresh random grouping
/// token of 36 ASCII characters. Whether this succeeds depends on the path
/// alone; the names and the identifiers of the parts depend on the token.
pub fn encode_file(path: &str, content: &[u8], size_part_opt: Option<usize>) -> (encoded: Result<
    EncodedFile,
    EncodeErrors,
>)
    requires
        size_part_opt != Some(0usize),
    ensures
        match source_name(path@) {
            None => encoded == Err::<EncodedFile, _>(EncodeErrors::InvalidPath),
            Some((filename, file_extension)) => {
                if encode_utf8(filename).len() > 255 || encode_utf8(file_extension).len() > 255 {
                    encoded == Err::<EncodedFile, _>(EncodeErrors::MalformedMetadata)
                } else {
                    let pieces = chunks(content@, size_part_of(size_part_opt));
                    &&& encoded matches Ok(files)
                    &&& files.meta.name@ == meta_name(filename)
                    &&& exists|token: Seq<char>|
                        {
                            &&& token.len() == 36
                            &&& is_ascii_chars(token)
                            &&& #[trigger] are_parts(files.parts@, token, pieces)
                            &&& files.meta.bytes@ == meta_bytes(
                                run_descriptor(filename, file_extension, token, pieces.len()),
                            )
                        }
                }
            },
        },
{
    let token = random_token();
    proof {
        is_ascii_chars_encode_utf8(token@);
    }
    encode_file_with_token(path, content, size_part_opt, token)
}

} // verus!
