//! The byte layout of the metadata file, and what reading and writing it
//! have to do with each other.
//!
//! ```text
//! u8  length of the file name      the file name in UTF-8
//! u8  length of the extension      the extension in UTF-8
//! u8  length of the grouping token the grouping token in UTF-8
//! u64 number of parts, big-endian  the identifiers, 16 bytes each
//! ```

use crate::errors::MetadataFault;
use crate::model::Descriptor;
use crate::wire::be_bytes;
use crate::wire::be_value;
use crate::wire::lemma_be_bytes_len;
use crate::wire::lemma_be_bytes_of_value;
use crate::wire::lemma_be_value_bound;
use crate::wire::lemma_be_value_of_bytes;
use crate::wire::lemma_pow256_eight;
use crate::wire::pow256;
use vstd::prelude::*;
use vstd::utf8::decode_utf8;
use vstd::utf8::decode_utf8_encode_utf8;
use vstd::utf8::encode_utf8;
use vstd::utf8::encode_utf8_decode_utf8;
use vstd::utf8::encode_utf8_valid_utf8;
use vstd::utf8::valid_utf8;

verus! {

/// All the pieces one after the other.
pub open spec fn join(pieces: Seq<Seq<u8>>) -> Seq<u8>
    decreases pieces.len(),
{
    if pieces.len() == 0 {
        Seq::empty()
    } else {
        join(pieces.drop_last()) + pieces.last()
    }
}

/// A text behind its length: the number of its UTF-8 bytes as a big-endian
/// integer of `width` bytes, then the bytes.
pub open spec fn str_field(width: nat, text: Seq<char>) -> Seq<u8> {
    be_bytes(encode_utf8(text).len(), width) + encode_utf8(text)
}

/// The bytes of the metadata file that says `d`.
pub open spec fn meta_bytes(d: Descriptor) -> Seq<u8> {
    str_field(1, d.filename) + str_field(1, d.file_extension) + str_field(1, d.uuid_parts)
        + be_bytes(d.parts.len(), 8) + join(d.parts)
}

/// Every identifier has 16 bytes.
pub open spec fn all_hashes(parts: Seq<Seq<u8>>) -> bool {
    forall|i: int| 0 <= i < parts.len() ==> (#[trigger] parts[i]).len() == 16
}

/// The descriptor can be written: each text fits its one-byte length, the
/// number of parts fits in 64 bits, and every identifier has 16 bytes.
pub open spec fn writable(d: Descriptor) -> bool {
    &&& encode_utf8(d.filename).len() <= 255
    &&& encode_utf8(d.file_extension).len() <= 255
    &&& encode_utf8(d.uuid_parts).len() <= 255
    &&& d.parts.len() <= u64::MAX
    &&& all_hashes(d.parts)
}

/// Reads a big-endian integer of `width` bytes from the front of `s`: the
/// number and what follows it, or nothing where `s` is too short.
pub open spec fn parse_int(width: nat, s: Seq<u8>) -> Option<(nat, Seq<u8>)> {
    if s.len() < width {
        None
    } else {
        Some((be_value(s.take(width as int)), s.skip(width as int)))
    }
}

/// Reads a text behind a length of `width` bytes from the front of `s`: the
/// text and what follows it.
pub open spec fn parse_str(width: nat, s: Seq<u8>) -> Result<(Seq<char>, Seq<u8>), MetadataFault> {
    match parse_int(width, s) {
        None => Err(MetadataFault::Truncated),
        Some((len, rest)) => {
            if rest.len() < len {
                Err(MetadataFault::Truncated)
            } else if !valid_utf8(rest.take(len as int)) {
                Err(MetadataFault::InvalidUtf8)
            } else {
                Ok((decode_utf8(rest.take(len as int)), rest.skip(len as int)))
            }
        },
    }
}

/// A block of bytes cut into identifiers of 16 bytes.
pub open spec fn split_hashes(block: Seq<u8>) -> Seq<Seq<u8>> {
    Seq::new(block.len() / 16, |i: int| block.subrange(16 * i, 16 * i + 16))
}

/// The three texts at the front of a metadata file, and what follows
/// them.
pub open spec fn parse_texts(s: Seq<u8>) -> Result<
    (Seq<char>, Seq<char>, Seq<char>, Seq<u8>),
    MetadataFault,
> {
    match parse_str(1, s) {
        Err(fault) => Err(fault),
        Ok((filename, after_name)) => match parse_str(1, after_name) {
            Err(fault) => Err(fault),
            Ok((file_extension, after_extension)) => match parse_str(1, after_extension) {
                Err(fault) => Err(fault),
                Ok((uuid_parts, after_token)) => Ok(
                    (filename, file_extension, uuid_parts, after_token),
                ),
            },
        },
    }
}

/// The identifiers behind their number: the block behind the number has
/// to hold exactly as many identifiers as the number declares.
pub open spec fn parse_hashes(list: Seq<u8>) -> Result<Seq<Seq<u8>>, MetadataFault> {
    match parse_int(8, list) {
        None => Err(MetadataFault::Truncated),
        Some((count, block)) => {
            if block.len() != 16 * count {
                Err(MetadataFault::CountMismatch)
            } else {
                Ok(split_hashes(block))
            }
        },
    }
}

/// The number that stands in the first eight bytes of a list of
/// identifiers.
pub open spec fn list_count(list: Seq<u8>) -> Option<nat> {
    match parse_int(8, list) {
        None => None,
        Some((count, block)) => Some(count),
    }
}

/// The number of parts that a metadata file declares: the integer behind
/// its three texts.
pub open spec fn declared_count(s: Seq<u8>) -> Option<nat> {
    match parse_texts(s) {
        Err(fault) => None,
        Ok((filename, file_extension, uuid_parts, list)) => list_count(list),
    }
}

/// What a metadata file says, or why it says nothing.
pub open spec fn parse_meta(s: Seq<u8>) -> Result<Descriptor, MetadataFault> {
    match parse_texts(s) {
        Err(fault) => Err(fault),
        Ok((filename, file_extension, uuid_parts, list)) => match parse_hashes(list) {
            Err(fault) => Err(fault),
            Ok(parts) => Ok(Descriptor { filename, file_extension, uuid_parts, parts }),
        },
    }
}

/// An integer that was written in `width` bytes is read back, and what
/// stood behind it is left over.
pub proof fn lemma_parse_int_written(width: nat, value: nat, rest: Seq<u8>)
    requires
        value < pow256(width),
    ensures
        parse_int(width, be_bytes(value, width) + rest) == Some((value, rest)),
{
    let written = be_bytes(value, width);
    lemma_be_bytes_len(value, width);
    lemma_be_value_of_bytes(value, width);
    assert((written + rest).take(width as int) =~= written);
    assert((written + rest).skip(width as int) =~= rest);
}

/// A text that was written behind its length is read back, and what stood
/// behind it is left over.
pub proof fn lemma_parse_str_written(width: nat, text: Seq<char>, rest: Seq<u8>)
    requires
        encode_utf8(text).len() < pow256(width),
    ensures
        parse_str(width, str_field(width, text) + rest) == Ok::<_, MetadataFault>((text, rest)),
{
    let bytes = encode_utf8(text);
    let len = bytes.len();
    assert(str_field(width, text) + rest =~= be_bytes(len, width) + (bytes + rest));
    lemma_parse_int_written(width, len, bytes + rest);
    assert((bytes + rest).take(len as int) =~= bytes);
    assert((bytes + rest).skip(len as int) =~= rest);
    encode_utf8_valid_utf8(text);
    encode_utf8_decode_utf8(text);
}

/// What `parse_int` reads and leaves over is what stands in the bytes.
pub proof fn lemma_parse_int_canonical(width: nat, s: Seq<u8>)
    requires
        parse_int(width, s) is Some,
    ensures
        parse_int(width, s) matches Some((value, rest)) && {
            &&& s == be_bytes(value, width) + rest
            &&& value < pow256(width)
        },
{
    let head = s.take(width as int);
    lemma_be_bytes_of_value(head);
    lemma_be_value_bound(head);
    assert(s =~= head + s.skip(width as int));
}

/// What `parse_str` reads and leaves over is what stands in the bytes.
pub proof fn lemma_parse_str_canonical(width: nat, s: Seq<u8>)
    requires
        parse_str(width, s) is Ok,
    ensures
        parse_str(width, s) matches Ok((text, rest)) && {
            &&& s == str_field(width, text) + rest
            &&& encode_utf8(text).len() < pow256(width)
        },
{
    lemma_parse_int_canonical(width, s);
    let (len, rest) = parse_int(width, s)->0;
    let bytes = rest.take(len as int);
    decode_utf8_encode_utf8(bytes);
    assert(rest =~= bytes + rest.skip(len as int));
    assert(s =~= be_bytes(len, width) + bytes + rest.skip(len as int));
}

/// The length of a run of identifiers.
pub proof fn lemma_join_len(parts: Seq<Seq<u8>>)
    requires
        all_hashes(parts),
    ensures
        join(parts).len() == 16 * parts.len(),
    decreases parts.len(),
{
    if parts.len() > 0 {
        lemma_join_len(parts.drop_last());
    }
}

/// Identifiers that were written one after the other are cut apart again.
pub proof fn lemma_split_joined(parts: Seq<Seq<u8>>)
    requires
        all_hashes(parts),
    ensures
        split_hashes(join(parts)) == parts,
    decreases parts.len(),
{
    lemma_join_len(parts);
    if parts.len() > 0 {
        let front = parts.drop_last();
        lemma_split_joined(front);
        lemma_join_len(front);
        let block = join(parts);
        assert forall|i: int| 0 <= i < parts.len() implies split_hashes(block)[i] == parts[i] by {
            if i < front.len() {
                assert(split_hashes(join(front))[i] == front[i]);
                assert(block.subrange(16 * i, 16 * i + 16) =~= join(front).subrange(
                    16 * i,
                    16 * i + 16,
                ));
            } else {
                assert(block.subrange(16 * i, 16 * i + 16) =~= parts.last());
            }
        }
    }
    assert(split_hashes(join(parts)) =~= parts);
}

/// A block of whole identifiers is the run of the identifiers it is cut
/// into.
pub proof fn lemma_join_split(block: Seq<u8>)
    requires
        block.len() % 16 == 0,
    ensures
        join(split_hashes(block)) == block,
        all_hashes(split_hashes(block)),
        split_hashes(block).len() == block.len() / 16,
    decreases block.len(),
{
    let parts = split_hashes(block);
    if block.len() == 0 {
        assert(join(parts) =~= block);
    } else {
        let shorter = block.take(block.len() - 16);
        lemma_join_split(shorter);
        assert(split_hashes(shorter) =~= parts.drop_last()) by {
            assert forall|i: int| 0 <= i < parts.len() - 1 implies split_hashes(shorter)[i]
                == parts[i] by {
                assert(shorter.subrange(16 * i, 16 * i + 16) =~= block.subrange(
                    16 * i,
                    16 * i + 16,
                ));
            }
        }
        assert(parts.last() =~= block.skip(block.len() - 16));
        assert(join(parts) =~= block);
    }
}

/// The three texts that were written are read back, and what stood
/// behind them is left over.
pub proof fn lemma_parse_texts_written(
    filename: Seq<char>,
    file_extension: Seq<char>,
    uuid_parts: Seq<char>,
    list: Seq<u8>,
)
    requires
        encode_utf8(filename).len() <= 255,
        encode_utf8(file_extension).len() <= 255,
        encode_utf8(uuid_parts).len() <= 255,
    ensures
        parse_texts(
            str_field(1, filename) + str_field(1, file_extension) + str_field(1, uuid_parts)
                + list,
        ) == Ok::<_, MetadataFault>((filename, file_extension, uuid_parts, list)),
{
    lemma_pow256_eight();
    let after_extension = str_field(1, uuid_parts) + list;
    let after_name = str_field(1, file_extension) + after_extension;
    let all = str_field(1, filename) + str_field(1, file_extension) + str_field(1, uuid_parts)
        + list;
    assert(all =~= str_field(1, filename) + after_name);
    lemma_parse_str_written(1, filename, after_name);
    lemma_parse_str_written(1, file_extension, after_extension);
    lemma_parse_str_written(1, uuid_parts, list);
}

/// What `parse_texts` reads and leaves over is what stands in the bytes.
pub proof fn lemma_parse_texts_canonical(s: Seq<u8>)
    requires
        parse_texts(s) is Ok,
    ensures
        parse_texts(s) matches Ok((filename, file_extension, uuid_parts, list)) && {
            &&& s == str_field(1, filename) + str_field(1, file_extension) + str_field(
                1,
                uuid_parts,
            ) + list
            &&& encode_utf8(filename).len() <= 255
            &&& encode_utf8(file_extension).len() <= 255
            &&& encode_utf8(uuid_parts).len() <= 255
        },
{
    lemma_pow256_eight();
    lemma_parse_str_canonical(1, s);
    let (filename, after_name) = parse_str(1, s)->Ok_0;
    lemma_parse_str_canonical(1, after_name);
    let (file_extension, after_extension) = parse_str(1, after_name)->Ok_0;
    lemma_parse_str_canonical(1, after_extension);
    let (uuid_parts, list) = parse_str(1, after_extension)->Ok_0;
    assert(s =~= str_field(1, filename) + str_field(1, file_extension) + str_field(1, uuid_parts)
        + list);
}

/// Identifiers that were written behind their number are read back.
pub proof fn lemma_parse_hashes_written(parts: Seq<Seq<u8>>)
    requires
        parts.len() <= u64::MAX,
        all_hashes(parts),
    ensures
        parse_hashes(be_bytes(parts.len(), 8) + join(parts)) == Ok::<_, MetadataFault>(parts),
{
    lemma_pow256_eight();
    lemma_parse_int_written(8, parts.len(), join(parts));
    lemma_join_len(parts);
    lemma_split_joined(parts);
}

/// A list of identifiers that parses is the number of the identifiers and
/// then the identifiers.
pub proof fn lemma_parse_hashes_canonical(list: Seq<u8>)
    requires
        parse_hashes(list) is Ok,
    ensures
        parse_hashes(list) matches Ok(parts) && {
            &&& list == be_bytes(parts.len(), 8) + join(parts)
            &&& parts.len() <= u64::MAX
            &&& all_hashes(parts)
            &&& list_count(list) == Some(parts.len())
        },
{
    lemma_pow256_eight();
    lemma_parse_int_canonical(8, list);
    let (count, block) = parse_int(8, list)->0;
    lemma_join_split(block);
}

/// Reading what was written gives the descriptor back: for every
/// descriptor that can be written, the bytes of its metadata file parse,
/// and they parse to that descriptor.
pub proof fn theorem_parse_written(d: Descriptor)
    requires
        writable(d),
    ensures
        parse_meta(meta_bytes(d)) == Ok::<_, MetadataFault>(d),
{
    let list = be_bytes(d.parts.len(), 8) + join(d.parts);
    lemma_parse_texts_written(d.filename, d.file_extension, d.uuid_parts, list);
    lemma_parse_hashes_written(d.parts);
    assert(meta_bytes(d) =~= str_field(1, d.filename) + str_field(1, d.file_extension)
        + str_field(1, d.uuid_parts) + list);
    let parsed = parse_meta(meta_bytes(d));
    assert(parsed is Ok);
    assert(parsed->Ok_0 =~= d);
}

/// A metadata file has one spelling: bytes that parse to a descriptor are
/// exactly the bytes that writing this descriptor gives, and the
/// descriptor can be written.
pub proof fn theorem_written_parsed(s: Seq<u8>)
    requires
        parse_meta(s) is Ok,
    ensures
        writable(parse_meta(s)->Ok_0),
        meta_bytes(parse_meta(s)->Ok_0) == s,
{
    let d = parse_meta(s)->Ok_0;
    lemma_parse_texts_canonical(s);
    let (filename, file_extension, uuid_parts, list) = parse_texts(s)->Ok_0;
    lemma_parse_hashes_canonical(list);
    assert(meta_bytes(d) =~= str_field(1, filename) + str_field(1, file_extension) + str_field(
        1,
        uuid_parts,
    ) + (be_bytes(d.parts.len(), 8) + join(d.parts)));
}

/// The number of parts that a metadata file declares is the number of
/// identifiers that it lists.
pub proof fn theorem_declared_count(s: Seq<u8>)
    requires
        parse_meta(s) is Ok,
    ensures
        declared_count(s) == Some(parse_meta(s)->Ok_0.parts.len()),
{
    let (filename, file_extension, uuid_parts, list) = parse_texts(s)->Ok_0;
    lemma_parse_hashes_canonical(list);
}

} // verus!
