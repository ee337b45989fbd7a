//! Writing an archive, and the law that opening one gives back what was written.

use super::bsa_archive::{
    entry_fault, entry_of, header_of, name_at, names_of, nul_from, opens_to, tables_of,
    BsaEntryModel, BsaModel, MAGIC,
};
use super::error::VfsError;
use super::normalized_path::normalized;
use crate::bytes::{
    flat, law_flat_piece, law_le32_reads_back, le32, le32_bytes, lemma_flat_len, lemma_total_grows,
    lemma_total_prefix, push_le32, total,
};
use vstd::prelude::*;
use vstd::utf8::encode_utf8;

verus! {

/// A file to put into an archive: its name and its contents.
#[verifier::ext_equal]
pub struct FileModel {
    pub name: Seq<char>,
    pub contents: Seq<u8>,
}

/// What a list of names and contents is.
pub open spec fn files_of(files: Seq<(&str, &[u8])>) -> Seq<FileModel> {
    Seq::new(files.len(), |i: int| FileModel { name: files[i].0@, contents: files[i].1@ })
}

/// The contents, one piece a file.
pub open spec fn data_parts(files: Seq<FileModel>) -> Seq<Seq<u8>> {
    Seq::new(files.len(), |i: int| files[i].contents)
}

/// The names as the name buffer holds them: UTF-8, each ended by a NUL.
pub open spec fn name_parts(files: Seq<FileModel>) -> Seq<Seq<u8>> {
    Seq::new(files.len(), |i: int| encode_utf8(files[i].name).push(0))
}

/// The sizes and offsets, one pair a file.
pub open spec fn span_parts(files: Seq<FileModel>) -> Seq<Seq<u8>> {
    Seq::new(
        files.len(),
        |i: int|
            le32_bytes(files[i].contents.len() as int) + le32_bytes(total(data_parts(files), i)),
    )
}

/// The name offsets, one a file.
pub open spec fn name_offset_parts(files: Seq<FileModel>) -> Seq<Seq<u8>> {
    Seq::new(files.len(), |i: int| le32_bytes(total(name_parts(files), i)))
}

/// The sections of an archive after its header.
pub open spec fn sections(files: Seq<FileModel>) -> Seq<Seq<u8>> {
    seq![
        flat(span_parts(files)),
        flat(name_offset_parts(files)),
        flat(name_parts(files)),
        Seq::new(8 * files.len(), |i: int| 0u8),
        flat(data_parts(files)),
    ]
}

/// The header of an archive of `files`.
pub open spec fn header_bytes(files: Seq<FileModel>) -> Seq<u8> {
    le32_bytes(MAGIC as int) + le32_bytes(
        (12 * files.len() + flat(name_parts(files)).len()) as int,
    )
        + le32_bytes(files.len() as int)
}

/// An archive holding `files`.
pub open spec fn bsa_image(files: Seq<FileModel>) -> Seq<u8> {
    header_bytes(files) + flat(sections(files))
}

/// Whether `files` can be put into one archive: every size and offset fits its 32-bit field.
pub open spec fn packable(files: Seq<FileModel>) -> bool {
    &&& 12 * files.len() + flat(name_parts(files)).len() <= u32::MAX
    &&& flat(data_parts(files)).len() <= u32::MAX
}

/// Where the pieces of one kind are written one after the other, the next one goes at the end.
proof fn lemma_flat_step(parts: Seq<Seq<u8>>, i: int)
    requires
        0 <= i < parts.len(),
    ensures
        flat(parts.take(i + 1)) == flat(parts.take(i)) + parts[i],
{
    assert(parts.take(i + 1).drop_last() =~= parts.take(i));
}

/// The totals a running count goes through stay within the whole.
proof fn lemma_running(parts: Seq<Seq<u8>>, i: int)
    requires
        0 <= i <= parts.len(),
    ensures
        0 <= total(parts, i) <= flat(parts).len(),
        total(parts, i) == flat(parts.take(i)).len(),
{
    lemma_flat_len(parts);
    lemma_total_grows(parts, i, parts.len() as int);
    lemma_flat_len(parts.take(i));
    lemma_total_prefix(parts.take(i), parts, i);
}

/// The name buffer of an archive of `files`.
fn name_buffer(files: &[(&str, &[u8])]) -> (names: Vec<u8>)
    ensures
        names@ == flat(name_parts(files_of(files@))),
{
    let ghost model = files_of(files@);
    let ghost parts = name_parts(model);
    let mut names: Vec<u8> = Vec::new();
    let mut i: usize = 0;
    while i < files.len()
        invariant
            model == files_of(files@),
            parts == name_parts(model),
            i <= files@.len(),
            names@ == flat(parts.take(i as int)),
        decreases files@.len() - i,
    {
        let ghost before = names@;
        names.extend_from_slice(files[i].0.as_bytes());
        names.push(0);
        proof {
            lemma_flat_step(parts, i as int);
            assert(names@ =~= before + parts[i as int]);
        }
        i = i + 1;
    }
    assert(parts.take(i as int) =~= parts);
    names
}

/// Appends the sizes and offsets.
fn push_spans(out: &mut Vec<u8>, files: &[(&str, &[u8])])
    requires
        flat(data_parts(files_of(files@))).len() <= u32::MAX,
    ensures
        final(out)@ == old(out)@ + flat(span_parts(files_of(files@))),
{
    let ghost model = files_of(files@);
    let ghost parts = span_parts(model);
    let ghost data = data_parts(model);
    let mut running: u32 = 0;
    let mut i: usize = 0;
    assert(old(out)@ + flat(parts.take(0)) =~= old(out)@);
    while i < files.len()
        invariant
            model == files_of(files@),
            parts == span_parts(model),
            data == data_parts(model),
            flat(data).len() <= u32::MAX,
            i <= files@.len(),
            running == total(data, i as int),
            out@ == old(out)@ + flat(parts.take(i as int)),
        decreases files@.len() - i,
    {
        proof {
            lemma_running(data, i as int);
            lemma_running(data, i + 1);
            lemma_flat_step(parts, i as int);
            assert(files@[i as int].1@.len() == files@[i as int].1.len());
        }
        let ghost before = out@;
        let size: u32 = files[i].1.len() as u32;
        push_le32(out, size);
        push_le32(out, running);
        assert(out@ =~= before + parts[i as int]);
        assert(out@ =~= old(out)@ + flat(parts.take(i + 1)));
        running = running + size;
        i = i + 1;
    }
    assert(parts.take(i as int) =~= parts);
}

/// Appends the name offsets.
fn push_name_offsets(out: &mut Vec<u8>, files: &[(&str, &[u8])])
    requires
        flat(name_parts(files_of(files@))).len() <= u32::MAX,
    ensures
        final(out)@ == old(out)@ + flat(name_offset_parts(files_of(files@))),
{
    let ghost model = files_of(files@);
    let ghost parts = name_offset_parts(model);
    let ghost names = name_parts(model);
    let mut running: u32 = 0;
    let mut i: usize = 0;
    assert(old(out)@ + flat(parts.take(0)) =~= old(out)@);
    while i < files.len()
        invariant
            model == files_of(files@),
            parts == name_offset_parts(model),
            names == name_parts(model),
            flat(names).len() <= u32::MAX,
            i <= files@.len(),
            running == total(names, i as int),
            out@ == old(out)@ + flat(parts.take(i as int)),
        decreases files@.len() - i,
    {
        proof {
            lemma_running(names, i as int);
            lemma_running(names, i + 1);
            lemma_flat_step(parts, i as int);
        }
        let ghost before = out@;
        let bytes: &[u8] = files[i].0.as_bytes();
        assert(bytes@.len() + 1 == names[i as int].len());
        assert(bytes@.len() == bytes.len());
        push_le32(out, running);
        assert(out@ =~= old(out)@ + flat(parts.take(i + 1)));
        running = running + bytes.len() as u32 + 1;
        i = i + 1;
    }
    assert(parts.take(i as int) =~= parts);
}

/// Appends the contents.
fn push_contents(out: &mut Vec<u8>, files: &[(&str, &[u8])])
    ensures
        final(out)@ == old(out)@ + flat(data_parts(files_of(files@))),
{
    let ghost model = files_of(files@);
    let ghost parts = data_parts(model);
    let mut i: usize = 0;
    assert(old(out)@ + flat(parts.take(0)) =~= old(out)@);
    while i < files.len()
        invariant
            model == files_of(files@),
            parts == data_parts(model),
            i <= files@.len(),
            out@ == old(out)@ + flat(parts.take(i as int)),
        decreases files@.len() - i,
    {
        proof {
            lemma_flat_step(parts, i as int);
        }
        out.extend_from_slice(files[i].1);
        assert(out@ =~= old(out)@ + flat(parts.take(i + 1)));
        i = i + 1;
    }
    assert(parts.take(i as int) =~= parts);
}

/// Builds a well-formed archive holding `files` as name and contents.
pub fn build_bsa(files: &[(&str, &[u8])]) -> (out: Vec<u8>)
    requires
        packable(files_of(files@)),
    ensures
        out@ == bsa_image(files_of(files@)),
{
    let ghost model = files_of(files@);
    let names: Vec<u8> = name_buffer(files);
    assert(files@.len() == files.len());
    let count: u32 = files.len() as u32;
    let directory_size: u32 = 12 * count + names.len() as u32;
    let mut out: Vec<u8> = Vec::new();
    push_le32(&mut out, MAGIC);
    push_le32(&mut out, directory_size);
    push_le32(&mut out, count);
    assert(out@ =~= header_bytes(model));
    push_spans(&mut out, files);
    push_name_offsets(&mut out, files);
    out.extend_from_slice(names.as_slice());
    let ghost before = out@;
    let mut i: u64 = 0;
    // The hashes are never read back, but the data block only starts after them.
    while i < 8 * count as u64
        invariant
            i <= 8 * count,
            out@ == before + Seq::new(i as nat, |k: int| 0u8),
        decreases 8 * count - i,
    {
        out.push(0);
        i = i + 1;
        assert(out@ =~= before + Seq::new(i as nat, |k: int| 0u8));
    }
    push_contents(&mut out, files);
    proof {
        lemma_sections(model);
        assert(out@ =~= bsa_image(model));
    }
    out
}

/// The sections one after the other.
proof fn lemma_sections(files: Seq<FileModel>)
    ensures
        flat(sections(files)) == flat(span_parts(files)) + flat(name_offset_parts(files)) + flat(
            name_parts(files),
        ) + Seq::new(8 * files.len(), |i: int| 0u8) + flat(data_parts(files)),
{
    let s = sections(files);
    let (a, b, c, d, e) = (s[0], s[1], s[2], s[3], s[4]);
    assert(s.drop_last() =~= seq![a, b, c, d]);
    assert(seq![a, b, c, d].drop_last() =~= seq![a, b, c]);
    assert(seq![a, b, c].drop_last() =~= seq![a, b]);
    assert(seq![a, b].drop_last() =~= seq![a]);
    assert(seq![a].drop_last() =~= Seq::<Seq<u8>>::empty());
    reveal_with_fuel(flat, 6);
    assert(flat(s) =~= a + b + c + d + e);
}

/// The bytes of a scalar other than zero are other than zero.
proof fn lemma_scalar_bytes(s: u32)
    by (bit_vector)
    ensures
        0 < s <= 0x7F ==> vstd::utf8::leading_byte_width_1(s) != 0,
        vstd::utf8::leading_byte_width_2(s) != 0,
        vstd::utf8::leading_byte_width_3(s) != 0,
        vstd::utf8::leading_byte_width_4(s) != 0,
        vstd::utf8::last_continuation_byte(s) != 0,
        vstd::utf8::second_last_continuation_byte(s) != 0,
        vstd::utf8::third_last_continuation_byte(s) != 0,
{
}

/// A name without a NUL has no NUL among its bytes.
proof fn lemma_no_nul(name: Seq<char>, k: int)
    requires
        forall|i: int| 0 <= i < name.len() ==> name[i] as u32 != 0,
        0 <= k < encode_utf8(name).len(),
    ensures
        encode_utf8(name)[k] != 0,
    decreases name.len(),
{
    if name.len() > 0 {
        let first = vstd::utf8::encode_scalar(name[0] as u32);
        let rest = name.drop_first();
        lemma_scalar_bytes(name[0] as u32);
        assert(forall|i: int| 0 <= i < rest.len() ==> rest[i] == name[i + 1]);
        if k >= first.len() {
            lemma_no_nul(rest, k - first.len());
        }
    }
}

/// The first NUL at or after a place is where everything before it is not one.
proof fn lemma_nul_found(b: Seq<u8>, at: int, end: int)
    requires
        0 <= at <= end < b.len(),
        b[end] == 0,
        forall|k: int| at <= k < end ==> b[k] != 0,
    ensures
        nul_from(b, at) == end,
    decreases end - at,
{
    if at < end {
        lemma_nul_found(b, at + 1, end);
    }
}

/// Pieces of one size stand at multiples of it.
proof fn lemma_even_total(parts: Seq<Seq<u8>>, size: int, i: int)
    requires
        0 <= i <= parts.len(),
        forall|k: int| 0 <= k < parts.len() ==> #[trigger] parts[k].len() == size,
    ensures
        total(parts, i) == size * i,
    decreases i,
{
    if i > 0 {
        lemma_even_total(parts, size, i - 1);
        assert(parts[i - 1].len() == size);
        assert(size * i == size * (i - 1) + size) by (nonlinear_arith);
    }
}

/// Where the sections of a written archive stand.
proof fn lemma_layout(files: Seq<FileModel>)
    requires
        packable(files),
    ensures
        ({
            let image = bsa_image(files);
            let n = files.len() as int;
            let names = flat(name_parts(files));
            let data = flat(data_parts(files));
            &&& le32(image, 0) == MAGIC
            &&& header_of(image).file_count == n
            &&& header_of(image).directory_size == 12 * n + names.len()
            &&& image.len() == 12 + 12 * n + names.len() + 8 * n + data.len()
            &&& tables_of(image) == flat(span_parts(files)) + flat(name_offset_parts(files))
            &&& flat(span_parts(files)).len() == 8 * n
            &&& flat(name_offset_parts(files)).len() == 4 * n
            &&& names_of(image) == names
            &&& image.subrange(header_of(image).data(), image.len() as int) == data
        }),
{
    let image = bsa_image(files);
    let n = files.len() as int;
    let names = flat(name_parts(files));
    let data = flat(data_parts(files));
    let spans = flat(span_parts(files));
    let offsets = flat(name_offset_parts(files));
    let head = header_bytes(files);
    lemma_sections(files);
    lemma_flat_len(span_parts(files));
    lemma_flat_len(name_offset_parts(files));
    lemma_even_total(span_parts(files), 8, n);
    lemma_even_total(name_offset_parts(files), 4, n);
    assert(head.len() == 12);
    assert(image.subrange(0, 4) =~= le32_bytes(MAGIC as int));
    assert(image.subrange(4, 8) =~= le32_bytes(12 * n + names.len()));
    assert(image.subrange(8, 12) =~= le32_bytes(n));
    law_le32_reads_back(image, 0, MAGIC as int);
    law_le32_reads_back(image, 4, 12 * n + names.len());
    law_le32_reads_back(image, 8, n);
    assert(tables_of(image) =~= spans + offsets);
    assert(names_of(image) =~= names);
    assert(image.subrange(header_of(image).data(), image.len() as int) =~= data);
}

/// Where the directory of a written archive says one file is, and how long it is.
proof fn lemma_written_span(files: Seq<FileModel>, i: int)
    requires
        packable(files),
        0 <= i < files.len(),
    ensures
        le32(tables_of(bsa_image(files)), 8 * i) == files[i].contents.len(),
        le32(tables_of(bsa_image(files)), 8 * i + 4) == total(data_parts(files), i),
        total(data_parts(files), i) + files[i].contents.len() <= flat(data_parts(files)).len(),
{
    let tables = tables_of(bsa_image(files));
    lemma_layout(files);
    let spans = span_parts(files);
    let pair = spans[i];
    let at = total(data_parts(files), i);
    lemma_even_total(spans, 8, i);
    law_flat_piece(spans, i);
    law_flat_piece(data_parts(files), i);
    let size = le32_bytes(files[i].contents.len() as int);
    assert(pair == size + le32_bytes(at));
    let whole = tables.subrange(8 * i, 8 * i + 8);
    assert(whole =~= pair);
    assert(tables.subrange(8 * i, 8 * i + 4) =~= whole.subrange(0, 4));
    assert(tables.subrange(8 * i + 4, 8 * i + 4 + 4) =~= whole.subrange(4, 8));
    assert(pair.subrange(0, 4) =~= size);
    assert(pair.subrange(4, 8) =~= le32_bytes(at));
    law_le32_reads_back(tables, 8 * i, files[i].contents.len() as int);
    law_le32_reads_back(tables, 8 * i + 4, at);
}

/// Where the directory of a written archive says one file's name is.
proof fn lemma_written_name_at(files: Seq<FileModel>, i: int)
    requires
        packable(files),
        0 <= i < files.len(),
    ensures
        name_at(header_of(bsa_image(files)), tables_of(bsa_image(files)), i) == total(
            name_parts(files),
            i,
        ),
{
    let image = bsa_image(files);
    let tables = tables_of(image);
    let n = files.len() as int;
    lemma_layout(files);
    let offsets = name_offset_parts(files);
    lemma_even_total(offsets, 4, i);
    law_flat_piece(offsets, i);
    law_flat_piece(name_parts(files), i);
    let at = total(name_parts(files), i);
    assert(offsets[i] == le32_bytes(at));
    assert(tables.subrange(8 * n + 4 * i, 8 * n + 4 * i + 4) =~= flat(offsets).subrange(
        4 * i,
        4 * i + 4,
    ));
    law_le32_reads_back(tables, 8 * n + 4 * i, at);
}

/// What stands in the name buffer of a written archive where one file's name is said to be.
proof fn lemma_written_name(files: Seq<FileModel>, i: int)
    requires
        packable(files),
        0 <= i < files.len(),
        forall|k: int| 0 <= k < files[i].name.len() ==> files[i].name[k] as u32 != 0,
    ensures
        ({
            let names = flat(name_parts(files));
            let at = total(name_parts(files), i);
            let encoded = encode_utf8(files[i].name);
            &&& 0 <= at
            &&& at + encoded.len() < names.len()
            &&& nul_from(names, at) == at + encoded.len()
            &&& names.subrange(at, at + encoded.len()) == encoded
        }),
{
    let names = flat(name_parts(files));
    let at = total(name_parts(files), i);
    let encoded = encode_utf8(files[i].name);
    let piece = name_parts(files)[i];
    law_flat_piece(name_parts(files), i);
    let there = names.subrange(at, at + piece.len());
    assert(there == piece);
    assert(piece == encoded.push(0));
    assert forall|k: int| at <= k < at + encoded.len() implies names[k] != 0 by {
        assert(names[k] == there[k - at]);
        lemma_no_nul(files[i].name, k - at);
    }
    let end = encoded.len() as int;
    assert(names[at + end] == there[end]);
    lemma_nul_found(names, at, at + end);
    assert(names.subrange(at, at + end) =~= there.subrange(0, end));
    assert(piece.subrange(0, end) =~= encoded);
}

/// What the directory of a written archive says of one file.
proof fn lemma_written_entry(files: Seq<FileModel>, i: int)
    requires
        packable(files),
        0 <= i < files.len(),
        forall|k: int| 0 <= k < files[i].name.len() ==> files[i].name[k] as u32 != 0,
    ensures
        ({
            let image = bsa_image(files);
            let header = header_of(image);
            &&& entry_fault(
                header,
                image.len() as int,
                tables_of(image),
                names_of(image),
                i,
            ) is None
            &&& entry_of(header, tables_of(image), names_of(image), i) == (BsaEntryModel {
                offset: header.data() + total(data_parts(files), i),
                size: files[i].contents.len() as int,
                name: normalized(files[i].name),
            })
        }),
{
    lemma_layout(files);
    lemma_written_span(files, i);
    lemma_written_name_at(files, i);
    lemma_written_name(files, i);
    vstd::utf8::encode_utf8_valid_utf8(files[i].name);
    vstd::utf8::encode_utf8_decode_utf8(files[i].name);
}

/// **Opening a written archive gives back what was written**: every file under its normalized name,
/// and where its entry says, exactly its contents.
pub proof fn law_written_archives_read_back(path: Seq<char>, files: Seq<FileModel>)
    requires
        packable(files),
        forall|i: int, k: int|
            0 <= i < files.len() && 0 <= k < files[i].name.len()
                ==> #[trigger] files[i].name[k] as u32 != 0,
    ensures
        ({
            let image = bsa_image(files);
            &&& forall|r: Result<BsaModel, VfsError>| #[trigger]
                opens_to(path, image, r) ==> {
                    &&& r matches Ok(archive)
                    &&& archive.entries.len() == files.len()
                    &&& forall|i: int|
                        0 <= i < files.len() ==> {
                            let entry = #[trigger] archive.entries[i];
                            &&& entry.name == normalized(files[i].name)
                            &&& entry.size == files[i].contents.len()
                            &&& 0 <= entry.offset
                            &&& entry.offset + entry.size <= image.len()
                            &&& image.subrange(entry.offset, entry.offset + entry.size)
                                == files[i].contents
                        }
                }
        }),
{
    let image = bsa_image(files);
    let header = header_of(image);
    lemma_layout(files);
    let n = files.len() as int;
    let parts = name_parts(files);
    lemma_flat_len(parts);
    lemma_names_at_least(files, n);
    assert(header.fits(image.len() as int));
    assert forall|i: int| 0 <= i < n implies #[trigger] entry_fault(
        header,
        image.len() as int,
        tables_of(image),
        names_of(image),
        i,
    ) is None by {
        lemma_written_entry(files, i);
    }
    assert forall|r: Result<BsaModel, VfsError>| #[trigger] opens_to(path, image, r) implies {
        &&& r matches Ok(archive)
        &&& archive.entries.len() == files.len()
        &&& forall|i: int|
            0 <= i < files.len() ==> {
                let entry = #[trigger] archive.entries[i];
                &&& entry.name == normalized(files[i].name)
                &&& entry.size == files[i].contents.len()
                &&& 0 <= entry.offset
                &&& entry.offset + entry.size <= image.len()
                &&& image.subrange(entry.offset, entry.offset + entry.size) == files[i].contents
            }
    } by {
        match r {
            Ok(archive) => {
                assert forall|i: int| 0 <= i < n implies {
                    let entry = #[trigger] archive.entries[i];
                    &&& entry.name == normalized(files[i].name)
                    &&& entry.size == files[i].contents.len()
                    &&& 0 <= entry.offset
                    &&& entry.offset + entry.size <= image.len()
                    &&& image.subrange(entry.offset, entry.offset + entry.size)
                        == files[i].contents
                } by {
                    lemma_written_entry(files, i);
                    let entry = archive.entries[i];
                    assert(entry == entry_of(header, tables_of(image), names_of(image), i));
                    let data = flat(data_parts(files));
                    let at = total(data_parts(files), i);
                    law_flat_piece(data_parts(files), i);
                    let block = image.subrange(header.data(), image.len() as int);
                    assert(block == data);
                    assert(image.subrange(entry.offset, entry.offset + entry.size)
                        =~= block.subrange(at, at + entry.size));
                }
            },
            Err(error) => {
                let i = choose|i: int| #[trigger]
                    super::bsa_archive::first_fault_of(image, i) && error.is_malformed(
                        path,
                        entry_fault(
                            header,
                            image.len() as int,
                            tables_of(image),
                            names_of(image),
                            i,
                        )->0,
                    );
                assert(super::bsa_archive::first_fault_of(image, i));
                assert(false);
            },
        }
    }
}

/// Every name costs at least its terminator.
proof fn lemma_names_at_least(files: Seq<FileModel>, i: int)
    requires
        0 <= i <= files.len(),
    ensures
        total(name_parts(files), i) >= i,
    decreases i,
{
    if i > 0 {
        lemma_names_at_least(files, i - 1);
        assert(name_parts(files)[i - 1].len() >= 1);
    }
}

} // verus!
