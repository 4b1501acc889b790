//! What splitting and putting together promise each other.
//!
//! The statements speak of a run by its names, its grouping token, the
//! content of the source and the chunk size, and of a store that holds
//! exactly the part files of that run.

use crate::decode::check_part;
use crate::decode::decoded_file;
use crate::decode::found_parts;
use crate::decode::lemma_refusal_stays;
use crate::decode::lookup;
use crate::decode::reassemble;
use crate::decode::reassemble_prefix;
use crate::encode::are_parts;
use crate::encode::chunks;
use crate::encode::is_part;
use crate::encode::lemma_composite_writable;
use crate::encode::run_descriptor;
use crate::encode::texts_fit;
use crate::errors::DecodeErrors;
use crate::errors::MetadataFault;
use crate::layout::all_hashes;
use crate::layout::declared_count;
use crate::layout::join;
use crate::layout::meta_bytes;
use crate::layout::parse_meta;
use crate::layout::theorem_declared_count;
use crate::layout::theorem_parse_written;
use crate::layout::writable;
use crate::model::CompositeFile;
use crate::model::FilePart;
use crate::naming::base_name;
use crate::naming::lemma_part_name_injective;
use crate::naming::lemma_source_name_rebuilt;
use crate::naming::output_name;
use crate::naming::part_hash;
use crate::naming::part_hashes;
use crate::naming::part_name;
use crate::naming::source_name;
use vstd::prelude::*;
use vstd::utf8::encode_utf8;

verus! {

/// The chunks of a byte string, one after the other, are the byte string.
/// No chunk is empty, none is longer than the chunk size, and there are
/// no more chunks than bytes.
pub proof fn lemma_chunks(content: Seq<u8>, size: nat)
    requires
        size >= 1,
    ensures
        join(chunks(content, size)) == content,
        chunks(content, size).len() <= content.len(),
        content.len() == 0 <==> chunks(content, size).len() == 0,
        forall|i: int|
            0 <= i < chunks(content, size).len() ==> 1 <= (#[trigger] chunks(
                content,
                size,
            )[i]).len() <= size,
    decreases content.len(),
{
    let pieces = chunks(content, size);
    if content.len() == 0 {
        assert(join(pieces) =~= content);
    } else if content.len() <= size {
        assert(pieces.drop_last() =~= Seq::<Seq<u8>>::empty());
        assert(join(pieces.drop_last()) =~= Seq::<u8>::empty());
        assert(pieces.last() == content);
        assert(join(pieces) =~= content);
    } else {
        let head = content.take(size as int);
        let tail = content.skip(size as int);
        lemma_chunks(tail, size);
        lemma_join_front(head, chunks(tail, size));
        assert(head + tail =~= content);
        assert forall|i: int| 0 <= i < pieces.len() implies 1 <= (#[trigger] pieces[i]).len()
            <= size by {
            if i > 0 {
                assert(pieces[i] == chunks(tail, size)[i - 1]);
            }
        }
    }
}

/// The end of the chunk that starts at `start`.
pub open spec fn chunk_end(len: nat, size: nat, start: int) -> int {
    if start + size <= len {
        start + size
    } else {
        len as int
    }
}

/// Where the chunks lie: chunk `i` holds the bytes from `i * size` on, as
/// many as `size` or as are left, and there are as many chunks as it takes
/// to hold all bytes, the length divided by the chunk size and rounded up.
pub proof fn theorem_chunk_places(content: Seq<u8>, size: nat)
    requires
        size >= 1,
    ensures
        (chunks(content, size).len() - 1) * size < content.len() <= chunks(content, size).len()
            * size,
        chunks(content, size).len() == (content.len() + size - 1) / (size as int),
        forall|i: int|
            0 <= i < chunks(content, size).len() ==> #[trigger] chunks(content, size)[i]
                == content.subrange(i * size, chunk_end(content.len(), size, i * size)),
    decreases content.len(),
{
    let pieces = chunks(content, size);
    let len = content.len() as int;
    let step = size as int;
    assert(0 * step == 0) by (nonlinear_arith);
    assert(1 * step == step) by (nonlinear_arith);
    if len == 0 {
    } else if len <= step {
        assert(pieces[0] =~= content.subrange(0, len));
    } else {
        let tail = content.skip(step);
        let behind = chunks(tail, size);
        theorem_chunk_places(tail, size);
        assert(pieces.len() == behind.len() + 1);
        assert(behind.len() * step + step == (behind.len() + 1) * step) by (nonlinear_arith);
        assert((behind.len() - 1) * step + step == behind.len() * step) by (nonlinear_arith);
        assert forall|i: int| 0 <= i < pieces.len() implies #[trigger] pieces[i]
            == content.subrange(i * step, chunk_end(content.len(), size, i * step)) by {
            if i == 0 {
                assert(pieces[0] =~= content.subrange(0, step));
            } else {
                let from = (i - 1) * step;
                assert(from + step == i * step) by (nonlinear_arith)
                    requires
                        from == (i - 1) * step,
                ;
                assert(from >= 0) by (nonlinear_arith)
                    requires
                        from == (i - 1) * step,
                        i >= 1,
                        step >= 1,
                ;
                assert(pieces[i] == behind[i - 1]);
                assert(from <= chunk_end(tail.len(), size, from) <= tail.len()) by {
                    assert(from < tail.len()) by (nonlinear_arith)
                        requires
                            from == (i - 1) * step,
                            i - 1 <= behind.len() - 1,
                            (behind.len() - 1) * step < tail.len(),
                            step >= 1,
                    ;
                }
                assert(tail.subrange(from, chunk_end(tail.len(), size, from))
                    =~= content.subrange(i * step, chunk_end(content.len(), size, i * step)));
            }
        }
    }
    let count = pieces.len() as int;
    assert((count - 1) * step < len <= count * step);
    if len > 0 {
        let rest = len - 1 - (count - 1) * step;
        assert(count * step == (count - 1) * step + step) by (nonlinear_arith);
        assert(len + step - 1 == count * step + rest);
        vstd::arithmetic::div_mod::lemma_fundamental_div_mod_converse(
            len + step - 1,
            step,
            count,
            rest,
        );
    } else {
        vstd::arithmetic::div_mod::lemma_fundamental_div_mod_converse(step - 1, step, 0, step - 1);
    }
}

/// Joining with one more piece in front.
proof fn lemma_join_front(head: Seq<u8>, pieces: Seq<Seq<u8>>)
    ensures
        join(seq![head] + pieces) == head + join(pieces),
    decreases pieces.len(),
{
    let all = seq![head] + pieces;
    if pieces.len() == 0 {
        assert(all.drop_last() =~= Seq::<Seq<u8>>::empty());
        assert(join(all.drop_last()) =~= Seq::<u8>::empty());
        assert(all.last() == head);
        assert(join(all) =~= head + join(pieces));
    } else {
        lemma_join_front(head, pieces.drop_last());
        assert(all.drop_last() =~= seq![head] + pieces.drop_last());
        assert(join(all) =~= head + join(pieces));
    }
}

/// A file that is the first of its name in a store is the one that is
/// found under that name.
pub proof fn lemma_lookup_first(store: Seq<FilePart>, name: Seq<char>, at: int)
    requires
        0 <= at < store.len(),
        store[at].part_file_name@ == name,
        forall|j: int| 0 <= j < at ==> (#[trigger] store[j]).part_file_name@ != name,
    ensures
        lookup(store, name) == Some(store[at].part_file@),
    decreases at,
{
    if at > 0 {
        let rest = store.drop_first();
        assert(store[0].part_file_name@ != name);
        assert forall|j: int| 0 <= j < at - 1 implies (#[trigger] rest[j]).part_file_name@
            != name by {
            assert(rest[j] == store[j + 1]);
        }
        lemma_lookup_first(rest, name, at - 1);
    }
}

/// Under a name that no file of a store carries, nothing is found.
pub proof fn lemma_lookup_none(store: Seq<FilePart>, name: Seq<char>)
    requires
        forall|j: int| 0 <= j < store.len() ==> (#[trigger] store[j]).part_file_name@ != name,
    ensures
        lookup(store, name) is None,
    decreases store.len(),
{
    if store.len() > 0 {
        let rest = store.drop_first();
        assert(store[0].part_file_name@ != name);
        assert forall|j: int| 0 <= j < rest.len() implies (#[trigger] rest[j]).part_file_name@
            != name by {
            assert(rest[j] == store[j + 1]);
        }
        lemma_lookup_none(rest, name);
    }
}

/// In a store that holds the part files of a run, each part is found under
/// its own name, and the identifiers have 16 bytes.
pub proof fn lemma_parts_found(store: Seq<FilePart>, token: Seq<char>, pieces: Seq<Seq<u8>>)
    requires
        are_parts(store, token, pieces),
    ensures
        all_hashes(part_hashes(token, pieces.len())),
        forall|i: int|
            0 <= i < pieces.len() ==> #[trigger] found_parts(store, token, pieces.len())[i]
                == Some(part_hash(token, (i + 1) as nat) + pieces[i]),
{
    assert forall|i: int| 0 <= i < pieces.len() implies (#[trigger] part_hashes(
        token,
        pieces.len(),
    )[i]).len() == 16 by {
        assert(is_part(store[i], token, (i + 1) as nat, pieces[i]));
        assert(store[i].hash_bytes@ == store[i].hash_bytes.0@);
    }
    assert forall|i: int| 0 <= i < pieces.len() implies #[trigger] found_parts(
        store,
        token,
        pieces.len(),
    )[i] == Some(part_hash(token, (i + 1) as nat) + pieces[i]) by {
        let name = part_name(token, (i + 1) as nat);
        assert(is_part(store[i], token, (i + 1) as nat, pieces[i]));
        assert forall|j: int| 0 <= j < i implies (#[trigger] store[j]).part_file_name@ != name by {
            assert(is_part(store[j], token, (j + 1) as nat, pieces[j]));
            if store[j].part_file_name@ == name {
                lemma_part_name_injective(token, (j + 1) as nat, (i + 1) as nat);
            }
        }
        lemma_lookup_first(store, name, i);
    }
}

/// Parts that are found as they were written give their chunks, one after
/// the other.
pub proof fn lemma_reassemble_written(
    hashes: Seq<Seq<u8>>,
    found: Seq<Option<Seq<u8>>>,
    pieces: Seq<Seq<u8>>,
    count: nat,
)
    requires
        count <= pieces.len(),
        count <= hashes.len(),
        count <= found.len(),
        forall|i: int| 0 <= i < count ==> (#[trigger] hashes[i]).len() == 16,
        forall|i: int| 0 <= i < count ==> #[trigger] found[i] == Some(hashes[i] + pieces[i]),
    ensures
        reassemble_prefix(hashes, found, count) == Ok::<_, DecodeErrors>(
            join(pieces.take(count as int)),
        ),
    decreases count,
{
    if count == 0 {
        assert(join(pieces.take(0)) =~= Seq::<u8>::empty());
    } else {
        let last = count - 1;
        lemma_reassemble_written(hashes, found, pieces, last as nat);
        let bytes = hashes[last] + pieces[last];
        assert(found[last] == Some(bytes));
        assert(hashes[last].len() == 16);
        assert(bytes.take(16) =~= hashes[last]);
        assert(bytes.skip(16) =~= pieces[last]);
        assert(pieces.take(count as int).drop_last() =~= pieces.take(last));
        assert(pieces.take(count as int).last() == pieces[last]);
    }
}

/// What the first parts give does not depend on the parts behind them.
pub proof fn lemma_reassemble_same_front(
    hashes: Seq<Seq<u8>>,
    found: Seq<Option<Seq<u8>>>,
    other: Seq<Option<Seq<u8>>>,
    count: nat,
)
    requires
        forall|i: int| 0 <= i < count ==> found[i] == other[i],
    ensures
        reassemble_prefix(hashes, found, count) == reassemble_prefix(hashes, other, count),
    decreases count,
{
    if count > 0 {
        lemma_reassemble_same_front(hashes, found, other, (count - 1) as nat);
    }
}

/// A descriptor that `encode_metafile` writes is the descriptor that
/// `decode_metafile` reads from the bytes: nothing is lost on the way
/// through the metadata file.
pub proof fn theorem_metafile_round_trip(composite: CompositeFile)
    requires
        texts_fit(composite@),
    ensures
        parse_meta(meta_bytes(composite@)) == Ok::<_, MetadataFault>(composite@),
{
    lemma_composite_writable(composite);
    theorem_parse_written(composite@);
}

/// The names and the token of a run fit the lengths of the metadata file,
/// and the source has no more bytes than 64 bits can count.
pub open spec fn run_fits(
    filename: Seq<char>,
    file_extension: Seq<char>,
    uuid_parts: Seq<char>,
    content: Seq<u8>,
) -> bool {
    &&& encode_utf8(filename).len() <= 255
    &&& encode_utf8(file_extension).len() <= 255
    &&& encode_utf8(uuid_parts).len() <= 255
    &&& content.len() <= u64::MAX
}

/// The metadata file of a run parses to the descriptor of the run.
pub proof fn lemma_run_parsed(
    filename: Seq<char>,
    file_extension: Seq<char>,
    uuid_parts: Seq<char>,
    content: Seq<u8>,
    size: nat,
    store: Seq<FilePart>,
)
    requires
        size >= 1,
        run_fits(filename, file_extension, uuid_parts, content),
        are_parts(store, uuid_parts, chunks(content, size)),
    ensures
        parse_meta(
            meta_bytes(
                run_descriptor(filename, file_extension, uuid_parts, chunks(content, size).len()),
            ),
        ) == Ok::<_, MetadataFault>(
            run_descriptor(filename, file_extension, uuid_parts, chunks(content, size).len()),
        ),
{
    let pieces = chunks(content, size);
    let d = run_descriptor(filename, file_extension, uuid_parts, pieces.len());
    lemma_chunks(content, size);
    lemma_parts_found(store, uuid_parts, pieces);
    assert(writable(d));
    theorem_parse_written(d);
}

/// Putting together what was split gives the source back, byte for byte
/// and under its name: for every content, the empty one too, and every
/// chunk size of at least one byte.
pub proof fn theorem_round_trip(
    filename: Seq<char>,
    file_extension: Seq<char>,
    uuid_parts: Seq<char>,
    content: Seq<u8>,
    size: nat,
    store: Seq<FilePart>,
)
    requires
        size >= 1,
        run_fits(filename, file_extension, uuid_parts, content),
        are_parts(store, uuid_parts, chunks(content, size)),
    ensures
        decoded_file(
            meta_bytes(
                run_descriptor(filename, file_extension, uuid_parts, chunks(content, size).len()),
            ),
            store,
        ) == Ok::<_, DecodeErrors>((output_name(filename, file_extension), content)),
{
    let pieces = chunks(content, size);
    let d = run_descriptor(filename, file_extension, uuid_parts, pieces.len());
    let found = found_parts(store, uuid_parts, pieces.len());
    lemma_run_parsed(filename, file_extension, uuid_parts, content, size, store);
    lemma_chunks(content, size);
    lemma_parts_found(store, uuid_parts, pieces);
    lemma_reassemble_written(d.parts, found, pieces, pieces.len());
    assert(pieces.take(pieces.len() as int) =~= pieces);
    assert(reassemble(d.parts, found) == Ok::<_, DecodeErrors>(content));
}

/// The file that is put together carries the name of the source: where a
/// run was started on `path`, the output is called like the last component
/// of `path` and holds the content of the source.
pub proof fn theorem_name_kept(
    path: Seq<char>,
    uuid_parts: Seq<char>,
    content: Seq<u8>,
    size: nat,
    store: Seq<FilePart>,
)
    requires
        size >= 1,
        source_name(path) matches Some((filename, file_extension)) && run_fits(
            filename,
            file_extension,
            uuid_parts,
            content,
        ),
        are_parts(store, uuid_parts, chunks(content, size)),
    ensures
        source_name(path) matches Some((filename, file_extension)) && decoded_file(
            meta_bytes(
                run_descriptor(filename, file_extension, uuid_parts, chunks(content, size).len()),
            ),
            store,
        ) == Ok::<_, DecodeErrors>((base_name(path), content)),
{
    let (filename, file_extension) = source_name(path)->0;
    theorem_round_trip(filename, file_extension, uuid_parts, content, size, store);
    lemma_source_name_rebuilt(path);
}

/// The identifier of a part depends on the grouping token and the
/// sequence number alone: two part files made for the same token and
/// number carry the same name and the same 16-byte identifier, whatever
/// their chunks are and whenever they were made.
pub proof fn theorem_identifier_deterministic(
    first: FilePart,
    second: FilePart,
    token: Seq<char>,
    number: nat,
    data: Seq<u8>,
    other_data: Seq<u8>,
)
    requires
        is_part(first, token, number, data),
        is_part(second, token, number, other_data),
    ensures
        first.part_file_name@ == second.part_file_name@,
        first.hash_bytes@ == second.hash_bytes@,
        first.hash_bytes@.len() == 16,
        first.part_file@.take(16) == second.part_file@.take(16),
{
    assert(first.hash_bytes@ == first.hash_bytes.0@);
    assert(first.part_file@.take(16) =~= part_hash(token, number));
    assert(second.part_file@.take(16) =~= part_hash(token, number));
}

/// The count of a run is one number: the metadata file declares as many
/// parts as it lists identifiers, and that many part files were made.
pub proof fn theorem_count(
    filename: Seq<char>,
    file_extension: Seq<char>,
    uuid_parts: Seq<char>,
    content: Seq<u8>,
    size: nat,
    store: Seq<FilePart>,
)
    requires
        size >= 1,
        run_fits(filename, file_extension, uuid_parts, content),
        are_parts(store, uuid_parts, chunks(content, size)),
    ensures
        ({
            let meta = meta_bytes(
                run_descriptor(filename, file_extension, uuid_parts, chunks(content, size).len()),
            );
            &&& declared_count(meta) == Some(store.len())
            &&& parse_meta(meta) is Ok
            &&& parse_meta(meta)->Ok_0.parts.len() == store.len()
        }),
{
    let pieces = chunks(content, size);
    let d = run_descriptor(filename, file_extension, uuid_parts, pieces.len());
    lemma_run_parsed(filename, file_extension, uuid_parts, content, size, store);
    theorem_declared_count(meta_bytes(d));
}

/// A changed byte in the identifier of a part file is noticed: where the
/// file of part `k + 1` differs from what was written in one of its first
/// 16 bytes, putting together fails with a corrupt-part error that names
/// this sequence number.
pub proof fn theorem_tamper_detected(
    filename: Seq<char>,
    file_extension: Seq<char>,
    uuid_parts: Seq<char>,
    content: Seq<u8>,
    size: nat,
    store: Seq<FilePart>,
    k: int,
    j: int,
    tampered: FilePart,
)
    requires
        size >= 1,
        run_fits(filename, file_extension, uuid_parts, content),
        are_parts(store, uuid_parts, chunks(content, size)),
        0 <= k < store.len(),
        0 <= j < 16,
        tampered.part_file_name == store[k].part_file_name,
        tampered.part_file@.len() == store[k].part_file@.len(),
        tampered.part_file@[j] != store[k].part_file@[j],
    ensures
        decoded_file(
            meta_bytes(
                run_descriptor(filename, file_extension, uuid_parts, chunks(content, size).len()),
            ),
            store.update(k, tampered),
        ) == Err::<(Seq<char>, Seq<u8>), _>(DecodeErrors::CorruptPart((k + 1) as u64)),
{
    let pieces = chunks(content, size);
    let count = pieces.len();
    let d = run_descriptor(filename, file_extension, uuid_parts, count);
    let changed = store.update(k, tampered);
    let found = found_parts(store, uuid_parts, count);
    let found_changed = found_parts(changed, uuid_parts, count);
    lemma_run_parsed(filename, file_extension, uuid_parts, content, size, store);
    lemma_parts_found(store, uuid_parts, pieces);
    assert forall|i: int| 0 <= i <= k implies #[trigger] found_changed[i] == Some(
        changed[i].part_file@,
    ) by {
        let name = part_name(uuid_parts, (i + 1) as nat);
        assert(is_part(store[i], uuid_parts, (i + 1) as nat, pieces[i]));
        assert forall|m: int| 0 <= m < i implies (#[trigger] changed[m]).part_file_name@
            != name by {
            assert(is_part(store[m], uuid_parts, (m + 1) as nat, pieces[m]));
            if changed[m].part_file_name@ == name {
                lemma_part_name_injective(uuid_parts, (m + 1) as nat, (i + 1) as nat);
            }
        }
        lemma_lookup_first(changed, name, i);
    }
    assert forall|i: int| 0 <= i < k implies found[i] == found_changed[i] by {
        assert(is_part(store[i], uuid_parts, (i + 1) as nat, pieces[i]));
    }
    lemma_reassemble_written(d.parts, found, pieces, k as nat);
    lemma_reassemble_same_front(d.parts, found, found_changed, k as nat);
    let written = store[k].part_file@;
    let read = tampered.part_file@;
    assert(is_part(store[k], uuid_parts, (k + 1) as nat, pieces[k]));
    assert(written.take(16) =~= d.parts[k]) by {
        assert(d.parts[k].len() == 16);
    }
    assert(read.len() < 16 || read.take(16) != d.parts[k]) by {
        if read.len() >= 16 {
            assert(read.take(16)[j] != written.take(16)[j]);
        }
    }
    assert(check_part(d.parts[k], (k + 1) as nat, found_changed[k]) == Err::<Seq<u8>, _>(
        DecodeErrors::CorruptPart((k + 1) as u64),
    ));
    assert(reassemble_prefix(d.parts, found_changed, (k + 1) as nat) == Err::<Seq<u8>, _>(
        DecodeErrors::CorruptPart((k + 1) as u64),
    ));
    lemma_refusal_stays(d.parts, found_changed, (k + 1) as nat, count);
}

/// A missing part file is noticed: where the file of part `k + 1` has
/// been taken out of the store, putting together fails with a missing-part
/// error that names this sequence number, and gives no output.
pub proof fn theorem_missing_detected(
    filename: Seq<char>,
    file_extension: Seq<char>,
    uuid_parts: Seq<char>,
    content: Seq<u8>,
    size: nat,
    store: Seq<FilePart>,
    k: int,
)
    requires
        size >= 1,
        run_fits(filename, file_extension, uuid_parts, content),
        are_parts(store, uuid_parts, chunks(content, size)),
        0 <= k < store.len(),
    ensures
        decoded_file(
            meta_bytes(
                run_descriptor(filename, file_extension, uuid_parts, chunks(content, size).len()),
            ),
            store.remove(k),
        ) == Err::<(Seq<char>, Seq<u8>), _>(DecodeErrors::MissingPart((k + 1) as u64)),
{
    let pieces = chunks(content, size);
    let count = pieces.len();
    let d = run_descriptor(filename, file_extension, uuid_parts, count);
    let fewer = store.remove(k);
    let found = found_parts(store, uuid_parts, count);
    let found_fewer = found_parts(fewer, uuid_parts, count);
    lemma_run_parsed(filename, file_extension, uuid_parts, content, size, store);
    lemma_parts_found(store, uuid_parts, pieces);
    assert forall|i: int| 0 <= i < k implies found[i] == found_fewer[i] by {
        let name = part_name(uuid_parts, (i + 1) as nat);
        assert(is_part(store[i], uuid_parts, (i + 1) as nat, pieces[i]));
        assert forall|m: int| 0 <= m < i implies (#[trigger] fewer[m]).part_file_name@ != name by {
            assert(is_part(store[m], uuid_parts, (m + 1) as nat, pieces[m]));
            if fewer[m].part_file_name@ == name {
                lemma_part_name_injective(uuid_parts, (m + 1) as nat, (i + 1) as nat);
            }
        }
        lemma_lookup_first(fewer, name, i);
    }
    assert(found_fewer[k] is None) by {
        let name = part_name(uuid_parts, (k + 1) as nat);
        assert forall|m: int| 0 <= m < fewer.len() implies (#[trigger] fewer[m]).part_file_name@
            != name by {
            let from = if m < k {
                m
            } else {
                m + 1
            };
            assert(fewer[m] == store[from]);
            assert(is_part(store[from], uuid_parts, (from + 1) as nat, pieces[from]));
            if fewer[m].part_file_name@ == name {
                lemma_part_name_injective(uuid_parts, (from + 1) as nat, (k + 1) as nat);
            }
        }
        lemma_lookup_none(fewer, name);
    }
    lemma_reassemble_written(d.parts, found, pieces, k as nat);
    lemma_reassemble_same_front(d.parts, found, found_fewer, k as nat);
    assert(reassemble_prefix(d.parts, found_fewer, (k + 1) as nat) == Err::<Seq<u8>, _>(
        DecodeErrors::MissingPart((k + 1) as u64),
    ));
    lemma_refusal_stays(d.parts, found_fewer, (k + 1) as nat, count);
}

} // verus!
