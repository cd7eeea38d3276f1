//! Archives: a header, a boundary mark and the packed payload in one run of
//! bytes, and the way back to the files.

use crate::bits::{packed, padding, zeros};
use crate::error::ArchiveError;
use crate::header::{current_version, parsed_header, texts_of, Header, HeaderView};
use crate::pack::{encode, huffe, lemma_text_table, text_table};
use crate::transcode::{encode_string, from_text, text_length, transcoded, untranscoded};
use crate::unpack::{
    decode, huffd, lemma_pack_unpack_inverse, lemma_unpack_packed, padding_is_silent, unpacked,
};
use vstd::prelude::*;
use vstd::slice::slice_subrange;
use vstd::string::StringExecFns;

verus! {

/// The byte that stands twice between header and payload: `$`.
pub const MARK: u8 = 36;

/// The byte of the character `0`.
pub const ZERO: u8 = 48;

/// The byte of the character `1`.
pub const ONE: u8 = 49;

/// Header, two marks and payload in one run of bytes.
pub open spec fn assembled(header: Seq<u8>, payload: Seq<u8>) -> Seq<u8> {
    header + seq![MARK, MARK] + payload
}

/// At `i` stands the byte of `0` or `1`, and two marks follow it.
pub open spec fn is_boundary(bytes: Seq<u8>, i: int) -> bool {
    &&& 0 <= i
    &&& i + 2 < bytes.len()
    &&& (bytes[i] == ZERO || bytes[i] == ONE)
    &&& bytes[i + 1] == MARK
    &&& bytes[i + 2] == MARK
}

/// The first boundary before position `n`; `n` where there is none.
pub open spec fn first_boundary(bytes: Seq<u8>, n: int) -> int
    decreases n,
{
    if n <= 0 {
        n
    } else {
        let before = first_boundary(bytes, n - 1);
        if before < n - 1 {
            before
        } else if is_boundary(bytes, n - 1) {
            n - 1
        } else {
            n
        }
    }
}

/// Header and payload of an archive: the header ends with the byte of the
/// first boundary, the payload begins behind the two marks. None where the
/// archive has no boundary.
pub open spec fn split(bytes: Seq<u8>) -> Option<(Seq<u8>, Seq<u8>)> {
    let i = first_boundary(bytes, bytes.len() as int);
    if i < bytes.len() {
        Some((bytes.take(i + 1), bytes.skip(i + 3)))
    } else {
        None
    }
}

/// `first_boundary` gives a position before `n` or `n` itself; at a
/// position stands the first boundary, and at `n` there is none before it.
pub proof fn lemma_first_boundary(bytes: Seq<u8>, n: int)
    requires
        0 <= n,
    ensures
        0 <= first_boundary(bytes, n) <= n,
        first_boundary(bytes, n) < n ==> is_boundary(bytes, first_boundary(bytes, n)),
        forall|k: int| 0 <= k < first_boundary(bytes, n) ==> !is_boundary(bytes, k),
    decreases n,
{
    if n > 0 {
        lemma_first_boundary(bytes, n - 1);
    }
}

/// Sum of the sizes.
pub open spec fn total_size(sizes: Seq<usize>) -> nat
    decreases sizes.len(),
{
    if sizes.len() == 0 {
        0
    } else {
        total_size(sizes.drop_last()) + sizes.last() as nat
    }
}

/// The stretches of `text` of the given sizes, one behind the other from
/// the front. None where `text` is shorter than the sizes together.
pub open spec fn split_texts(text: Seq<char>, sizes: Seq<usize>) -> Option<Seq<Seq<char>>>
    decreases sizes.len(),
{
    if sizes.len() == 0 {
        Some(Seq::empty())
    } else {
        match split_texts(text, sizes.drop_last()) {
            Some(front) => {
                let start = total_size(sizes.drop_last()) as int;
                let end = start + sizes.last();
                if end <= text.len() {
                    Some(front.push(text.subrange(start, end)))
                } else {
                    None
                }
            },
            None => None,
        }
    }
}

/// The contents of a sequence of vectors.
pub open spec fn views<T>(parts: Seq<Vec<T>>) -> Seq<Seq<T>> {
    Seq::new(parts.len(), |k: int| parts[k]@)
}

/// Finds the first boundary of an archive and hands out the header before
/// it, the boundary's own byte included, and the payload behind its two
/// marks. An archive without a boundary is a format error.
pub fn split_archive<'a>(archive: &'a [u8]) -> (r: Result<(&'a [u8], &'a [u8]), ArchiveError>)
    ensures
        match split(archive@) {
            Some((header, payload)) => r matches Ok(parts) && parts.0@ == header && parts.1@
                == payload,
            None => r matches Err(e) && e == ArchiveError::Format,
        },
{
    let n: usize = archive.len();
    let mut i: usize = 0;
    while i < n
        invariant
            i <= n,
            n == archive.len(),
            first_boundary(archive@, i as int) == i,
        decreases n - i,
    {
        if n - i > 2 && (archive[i] == ZERO || archive[i] == ONE) && archive[i + 1] == MARK
            && archive[i + 2] == MARK {
            proof {
                lemma_boundary_found(archive@, i as int, n as int);
            }
            let header = slice_subrange(archive, 0, i + 1);
            let payload = slice_subrange(archive, i + 3, n);
            return Ok((header, payload));
        }
        i += 1;
    }
    Err(ArchiveError::Format)
}

/// Where no boundary stands before `i` and one stands at `i`, `i` is the
/// first boundary before any later position.
pub proof fn lemma_boundary_found(bytes: Seq<u8>, i: int, n: int)
    requires
        0 <= i < n,
        first_boundary(bytes, i) == i,
        is_boundary(bytes, i),
    ensures
        first_boundary(bytes, n) == i,
    decreases n - i,
{
    if n > i + 1 {
        lemma_boundary_found(bytes, i, n - 1);
    }
}

/// Cuts `text` into stretches of the given sizes, from the front. A text
/// shorter than the sizes together is a format error.
pub fn split_files(text: &[char], sizes: &[usize]) -> (r: Result<Vec<Vec<char>>, ArchiveError>)
    ensures
        match split_texts(text@, sizes@) {
            Some(texts) => r matches Ok(parts) && views(parts@) == texts,
            None => r matches Err(e) && e == ArchiveError::Format,
        },
{
    let mut parts: Vec<Vec<char>> = Vec::new();
    let mut start: usize = 0;
    let mut k: usize = 0;
    while k < sizes.len()
        invariant
            k <= sizes.len(),
            start <= text.len(),
            start == total_size(sizes@.take(k as int)),
            split_texts(text@, sizes@.take(k as int)) == Some(views(parts@)),
        decreases sizes.len() - k,
    {
        let size: usize = sizes[k];
        proof {
            assert(sizes@.take(k + 1).drop_last() =~= sizes@.take(k as int));
            assert(sizes@ =~= sizes@.take(sizes@.len() as int));
        }
        if size > text.len() - start {
            proof {
                lemma_split_texts_fails(text@, sizes@, k + 1);
            }
            return Err(ArchiveError::Format);
        }
        let mut part: Vec<char> = Vec::new();
        let mut j: usize = 0;
        while j < size
            invariant
                j <= size,
                start + size <= text.len(),
                part@ == text@.subrange(start as int, start + j),
            decreases size - j,
        {
            part.push(text[start + j]);
            assert(part@ =~= text@.subrange(start as int, start + j + 1));
            j += 1;
        }
        let ghost before = views(parts@);
        let ghost stretch = part@;
        parts.push(part);
        proof {
            assert(views(parts@) =~= before.push(stretch));
        }
        start = start + size;
        k += 1;
    }
    proof {
        assert(sizes@.take(k as int) =~= sizes@);
    }
    Ok(parts)
}

/// Where the first `k` sizes cannot be cut from a text, all of them cannot.
pub proof fn lemma_split_texts_fails(text: Seq<char>, sizes: Seq<usize>, k: int)
    requires
        0 <= k <= sizes.len(),
        split_texts(text, sizes.take(k)) is None,
    ensures
        split_texts(text, sizes) is None,
    decreases sizes.len() - k,
{
    if k < sizes.len() {
        assert(sizes.take(k + 1).drop_last() =~= sizes.take(k));
        lemma_split_texts_fails(text, sizes, k + 1);
    } else {
        assert(sizes.take(k) =~= sizes);
    }
}

/// The bytes that the texts stand for, text by text; none where one of the
/// texts stands for no bytes.
pub open spec fn all_untranscoded(texts: Seq<Seq<char>>) -> Option<Seq<Seq<u8>>>
    decreases texts.len(),
{
    if texts.len() == 0 {
        Some(Seq::empty())
    } else {
        match all_untranscoded(texts.drop_last()) {
            Some(front) => match untranscoded(texts.last()) {
                Some(bytes) => Some(front.push(bytes)),
                None => None,
            },
            None => None,
        }
    }
}

/// Names and contents side by side.
pub open spec fn paired(names: Seq<Seq<char>>, contents: Seq<Seq<u8>>) -> Seq<
    (Seq<char>, Seq<u8>),
> {
    Seq::new(names.len(), |k: int| (names[k], contents[k]))
}

/// Files as mathematical values: the name's characters and the bytes.
pub open spec fn files_view(files: Seq<(String, Vec<u8>)>) -> Seq<(Seq<char>, Seq<u8>)> {
    Seq::new(files.len(), |k: int| (files[k].0@, files[k].1@))
}

/// The files that an archive holds: it is split at its first boundary, the
/// header is read, the payload unpacked under the header's code table, the
/// text cut by the header's sizes, and each stretch turned back into bytes.
/// A failure of the last step is a decoding error, one of any step before
/// it a format error.
pub open spec fn extracted(bytes: Seq<u8>) -> Result<Seq<(Seq<char>, Seq<u8>)>, ArchiveError> {
    match split(bytes) {
        None => Err(ArchiveError::Format),
        Some((header_bytes, payload)) => match parsed_header(header_bytes) {
            None => Err(ArchiveError::Format),
            Some(header) => match split_texts(
                unpacked(payload, header.code_table),
                header.file_sizes,
            ) {
                None => Err(ArchiveError::Format),
                Some(texts) => match all_untranscoded(texts) {
                    None => Err(ArchiveError::Decode),
                    Some(contents) => Ok(paired(header.file_names, contents)),
                },
            },
        },
    }
}

/// Where the first `k` texts do not all stand for bytes, all of them do not.
pub proof fn lemma_all_untranscoded_fails(texts: Seq<Seq<char>>, k: int)
    requires
        0 <= k <= texts.len(),
        all_untranscoded(texts.take(k)) is None,
    ensures
        all_untranscoded(texts) is None,
    decreases texts.len() - k,
{
    if k < texts.len() {
        assert(texts.take(k + 1).drop_last() =~= texts.take(k));
        lemma_all_untranscoded_fails(texts, k + 1);
    } else {
        assert(texts.take(k) =~= texts);
    }
}

/// A text cut by sizes gives one stretch for each size.
pub proof fn lemma_split_texts_len(text: Seq<char>, sizes: Seq<usize>)
    ensures
        split_texts(text, sizes) matches Some(texts) ==> texts.len() == sizes.len(),
    decreases sizes.len(),
{
    if sizes.len() > 0 {
        lemma_split_texts_len(text, sizes.drop_last());
    }
}

/// Reads the files out of an archive.
pub fn extract(archive: &[u8]) -> (r: Result<Vec<(String, Vec<u8>)>, ArchiveError>)
    ensures
        match extracted(archive@) {
            Ok(files) => r matches Ok(found) && files_view(found@) == files,
            Err(e) => r matches Err(x) && x == e,
        },
{
    let (header_bytes, payload) = match split_archive(archive) {
        Ok(parts) => parts,
        Err(e) => {
            return Err(e);
        },
    };
    let header = match Header::get_deserialized(header_bytes) {
        Ok(header) => header,
        Err(e) => {
            return Err(e);
        },
    };
    let text = huffd(payload, &header.code_table);
    let texts = match split_files(text.as_slice(), header.file_sizes.as_slice()) {
        Ok(texts) => texts,
        Err(e) => {
            return Err(e);
        },
    };
    proof {
        lemma_split_texts_len(text@, header.file_sizes@);
    }
    let ghost names = header@.file_names;
    let mut files: Vec<(String, Vec<u8>)> = Vec::new();
    let ghost mut contents: Seq<Seq<u8>> = Seq::empty();
    let mut k: usize = 0;
    while k < texts.len()
        invariant
            k <= texts.len(),
            texts.len() == header.file_names.len(),
            names == header@.file_names,
            contents.len() == k,
            files@.len() == k,
            extracted(archive@) == match all_untranscoded(views(texts@)) {
                None => Err::<Seq<(Seq<char>, Seq<u8>)>, ArchiveError>(ArchiveError::Decode),
                Some(all) => Ok(paired(names, all)),
            },
            all_untranscoded(views(texts@).take(k as int)) == Some(contents),
            files_view(files@) == paired(names.take(k as int), contents),
        decreases texts.len() - k,
    {
        proof {
            assert(views(texts@).take(k + 1).drop_last() =~= views(texts@).take(k as int));
        }
        match from_text(texts[k].as_slice()) {
            Ok(bytes) => {
                assert(views(texts@).take(k + 1).last() == texts@[k as int]@);
                let ghost before = files_view(files@);
                let ghost found = bytes@;
                files.push((header.file_names[k].clone(), bytes));
                proof {
                    contents = contents.push(found);
                    assert(files_view(files@) =~= paired(names.take(k + 1), contents)) by {
                        assert forall|m: int| 0 <= m < k implies files_view(files@)[m]
                            == paired(names.take(k + 1), contents)[m] by {
                            assert(files_view(files@)[m] == before[m]);
                        }
                    }
                }
            },
            Err(e) => {
                proof {
                    assert(views(texts@).take(k + 1).last() == texts@[k as int]@);
                    lemma_all_untranscoded_fails(views(texts@), k + 1);
                }
                return Err(e);
            },
        }
        k += 1;
    }
    proof {
        assert(views(texts@).take(k as int) =~= views(texts@));
        assert(names.take(k as int) =~= names);
    }
    Ok(files)
}

/// The names of files.
pub open spec fn names_of(files: Seq<(Seq<char>, Seq<u8>)>) -> Seq<Seq<char>> {
    Seq::new(files.len(), |k: int| files[k].0)
}

/// The contents of files.
pub open spec fn contents_of(files: Seq<(Seq<char>, Seq<u8>)>) -> Seq<Seq<u8>> {
    Seq::new(files.len(), |k: int| files[k].1)
}

/// The texts that stand for the contents of files.
pub open spec fn texts_for(files: Seq<(Seq<char>, Seq<u8>)>) -> Seq<Seq<char>> {
    Seq::new(files.len(), |k: int| transcoded(files[k].1))
}

/// The texts one behind the other.
pub open spec fn joined(texts: Seq<Seq<char>>) -> Seq<char>
    decreases texts.len(),
{
    if texts.len() == 0 {
        Seq::empty()
    } else {
        joined(texts.drop_last()) + texts.last()
    }
}

/// The lengths of the texts.
pub open spec fn lengths(texts: Seq<Seq<char>>) -> Seq<usize> {
    Seq::new(texts.len(), |k: int| texts[k].len() as usize)
}

/// The header of the archive of `files`: the current version, the names,
/// the lengths of the texts, and the code table of the joined texts.
pub open spec fn archive_header(files: Seq<(Seq<char>, Seq<u8>)>) -> HeaderView {
    HeaderView {
        version: current_version(),
        file_names: names_of(files),
        file_sizes: lengths(texts_for(files)),
        code_table: text_table(joined(texts_for(files))),
    }
}

/// The payload of the archive of `files`: their joined texts, packed under
/// the code table of the header.
pub open spec fn archive_payload(files: Seq<(Seq<char>, Seq<u8>)>) -> Seq<u8> {
    packed(encode(joined(texts_for(files)), text_table(joined(texts_for(files)))))
}

/// The archive of `files`.
pub open spec fn archived(files: Seq<(Seq<char>, Seq<u8>)>) -> Seq<u8> {
    assembled(archive_header(files).encoding(), archive_payload(files))
}

/// The first boundary of the archive is the one that was written: the last
/// byte of the header and the two marks behind it.
pub open spec fn unambiguous(header: Seq<u8>, payload: Seq<u8>) -> bool {
    first_boundary(assembled(header, payload), assembled(header, payload).len() as int)
        == header.len() - 1
}

/// An archive whose first boundary is the one that was written splits into
/// the header and the payload that it was made of.
pub proof fn lemma_split_assembled(header: Seq<u8>, payload: Seq<u8>)
    requires
        unambiguous(header, payload),
    ensures
        split(assembled(header, payload)) == Some((header, payload)),
{
    let bytes = assembled(header, payload);
    let i = header.len() - 1;
    lemma_first_boundary(bytes, bytes.len() as int);
    assert(bytes.take(i + 1) =~= header);
    assert(bytes.skip(i + 3) =~= payload);
}

/// Texts that were joined are cut apart again by their lengths, whatever
/// follows them, and their lengths add up to the length of the joined text.
pub proof fn lemma_split_joined(texts: Seq<Seq<char>>, rest: Seq<char>)
    requires
        joined(texts).len() <= usize::MAX,
    ensures
        total_size(lengths(texts)) == joined(texts).len(),
        split_texts(joined(texts) + rest, lengths(texts)) == Some(texts),
    decreases texts.len(),
{
    if texts.len() > 0 {
        let front = texts.drop_last();
        lemma_split_joined(front, texts.last() + rest);
        assert(lengths(texts).drop_last() =~= lengths(front));
        assert(joined(front) + (texts.last() + rest) =~= joined(texts) + rest);
        let start = joined(front).len() as int;
        assert((joined(texts) + rest).subrange(start, start + texts.last().len())
            =~= texts.last());
        assert(front.push(texts.last()) =~= texts);
    } else {
        assert(lengths(texts) =~= Seq::<usize>::empty());
    }
}

/// Where every text is read back as the bytes it stands for, so are the
/// texts of files.
pub proof fn lemma_all_untranscoded(files: Seq<(Seq<char>, Seq<u8>)>)
    requires
        forall|k: int|
            0 <= k < files.len() ==> untranscoded(transcoded((#[trigger] files[k]).1)) == Some(
                files[k].1,
            ),
    ensures
        all_untranscoded(texts_for(files)) == Some(contents_of(files)),
        paired(names_of(files), contents_of(files)) == files,
    decreases files.len(),
{
    if files.len() > 0 {
        let front = files.drop_last();
        assert forall|k: int| 0 <= k < front.len() implies untranscoded(
            transcoded((#[trigger] front[k]).1),
        ) == Some(front[k].1) by {
            assert(front[k] == files[k]);
        }
        lemma_all_untranscoded(front);
        assert(texts_for(files).drop_last() =~= texts_for(front));
        assert(untranscoded(transcoded(files[files.len() - 1].1)) == Some(files.last().1));
        assert(contents_of(front).push(files.last().1) =~= contents_of(files));
    } else {
        assert(contents_of(files) =~= Seq::<Seq<u8>>::empty());
    }
    assert(paired(names_of(files), contents_of(files)) =~= files);
}

/// Round trip: the files that went into an archive come out of it, names
/// and contents, where the joined texts are not empty and fit the machine,
/// the outside codings read back what they wrote (each text its bytes, the
/// header's bytes the header), and the first boundary of the archive is the
/// one that was written.
pub proof fn lemma_round_trip(files: Seq<(Seq<char>, Seq<u8>)>)
    requires
        0 < joined(texts_for(files)).len() <= usize::MAX,
        forall|k: int|
            0 <= k < files.len() ==> untranscoded(transcoded((#[trigger] files[k]).1)) == Some(
                files[k].1,
            ),
        parsed_header(archive_header(files).encoding()) == Some(archive_header(files)),
        unambiguous(archive_header(files).encoding(), archive_payload(files)),
    ensures
        extracted(archived(files)) == Ok::<Seq<(Seq<char>, Seq<u8>)>, ArchiveError>(files),
{
    let texts = texts_for(files);
    let text = joined(texts);
    let table = text_table(text);
    let header = archive_header(files);
    let rest = decode(zeros(padding(encode(text, table).len())), table);
    lemma_split_assembled(header.encoding(), archive_payload(files));
    lemma_text_table(text);
    lemma_unpack_packed(text, table);
    lemma_split_joined(texts, rest);
    lemma_all_untranscoded(files);
}

/// Total length: the text that the payload of an archive unpacks to is as
/// long as the sizes of its header together, and longer by the symbols that
/// the padding bits read as.
pub proof fn lemma_total_length(files: Seq<(Seq<char>, Seq<u8>)>)
    requires
        0 < joined(texts_for(files)).len() <= usize::MAX,
    ensures
        unpacked(archive_payload(files), archive_header(files).code_table).len() == total_size(
            archive_header(files).file_sizes,
        ) + decode(
            zeros(
                padding(
                    encode(joined(texts_for(files)), archive_header(files).code_table).len(),
                ),
            ),
            archive_header(files).code_table,
        ).len(),
{
    let text = joined(texts_for(files));
    lemma_text_table(text);
    lemma_unpack_packed(text, text_table(text));
    lemma_split_joined(texts_for(files), Seq::empty());
}

/// Total length: the sizes of the header of an archive add up to the
/// length of the text that its payload unpacks to, where the padding is
/// silent.
pub proof fn lemma_total_length_exact(files: Seq<(Seq<char>, Seq<u8>)>)
    requires
        0 < joined(texts_for(files)).len() <= usize::MAX,
        padding_is_silent(joined(texts_for(files)), archive_header(files).code_table),
    ensures
        total_size(archive_header(files).file_sizes) == unpacked(
            archive_payload(files),
            archive_header(files).code_table,
        ).len(),
{
    let text = joined(texts_for(files));
    lemma_text_table(text);
    lemma_pack_unpack_inverse(text, text_table(text));
    lemma_split_joined(texts_for(files), Seq::empty());
}

/// Cut short: an archive that ends in its header, or with it, holds no
/// files but is a format error, where the header's bytes read as no header
/// when they end before their end.
pub proof fn lemma_cut_short(header: Seq<u8>, payload: Seq<u8>, n: int)
    requires
        forall|m: int| 0 <= m < header.len() ==> parsed_header(#[trigger] header.take(m)) is None,
        0 <= n <= header.len(),
    ensures
        extracted(assembled(header, payload).take(n)) == Err::<
            Seq<(Seq<char>, Seq<u8>)>,
            ArchiveError,
        >(ArchiveError::Format),
{
    let bytes = assembled(header, payload).take(n);
    let i = first_boundary(bytes, bytes.len() as int);
    lemma_first_boundary(bytes, bytes.len() as int);
    if i < bytes.len() {
        assert(bytes.take(i + 1) =~= header.take(i + 1));
    }
}

/// The first `n` of the files have no bytes.
pub open spec fn all_empty(files: Seq<(Seq<char>, Seq<u8>)>, n: int) -> bool {
    forall|k: int| 0 <= k < n ==> (#[trigger] files[k]).1.len() == 0
}

/// Header, two marks and payload in one run of bytes.
pub fn assemble(header: Vec<u8>, payload: Vec<u8>) -> (bytes: Vec<u8>)
    ensures
        bytes@ == assembled(header@, payload@),
{
    let mut bytes = header;
    let mut rest = payload;
    bytes.push(MARK);
    bytes.push(MARK);
    bytes.append(&mut rest);
    assert(bytes@ =~= assembled(header@, payload@));
    bytes
}

/// Builds the archive of `files`: each file's bytes become a text, the
/// texts are joined and compressed, and the header with the names, the
/// lengths of the texts and the code table goes before the payload.
///
/// Files that are all empty leave nothing to build a tree from; all others
/// have an archive. The files that went in come out of the archive again
/// where its first boundary is the one that was written. An archive cut
/// short in its header is a format error to `extract`.
pub fn archive(files: &[(String, Vec<u8>)]) -> (r: Result<Vec<u8>, ArchiveError>)
    ensures
        all_empty(files_view(files@), files@.len() as int) ==> r == Err::<Vec<u8>, ArchiveError>(
            ArchiveError::Tree,
        ),
        !all_empty(files_view(files@), files@.len() as int) ==> r is Ok,
        r matches Ok(bytes) ==> bytes@ == archived(files_view(files@)),
        r matches Ok(bytes) ==> (unambiguous(
            archive_header(files_view(files@)).encoding(),
            archive_payload(files_view(files@)),
        ) ==> extracted(bytes@) == Ok::<Seq<(Seq<char>, Seq<u8>)>, ArchiveError>(
            files_view(files@),
        )),
        r matches Ok(bytes) ==> forall|n: int|
            0 <= n <= archive_header(files_view(files@)).encoding().len() ==> extracted(
                #[trigger] bytes@.take(n),
            ) == Err::<Seq<(Seq<char>, Seq<u8>)>, ArchiveError>(ArchiveError::Format),
{
    let ghost all = files_view(files@);
    let mut names: Vec<String> = Vec::new();
    let mut sizes: Vec<usize> = Vec::new();
    let mut text: Vec<char> = Vec::new();
    let mut k: usize = 0;
    while k < files.len()
        invariant
            k <= files.len(),
            all == files_view(files@),
            texts_of(names@) == names_of(all).take(k as int),
            sizes@ == lengths(texts_for(all)).take(k as int),
            text@ == joined(texts_for(all).take(k as int)),
            text@.len() == 0 <==> all_empty(all, k as int),
            forall|m: int|
                0 <= m < k ==> untranscoded(transcoded((#[trigger] all[m]).1)) == Some(all[m].1),
        decreases files.len() - k,
    {
        let mut part = encode_string(files[k].1.as_slice());
        proof {
            assert(texts_for(all).take(k + 1).drop_last() =~= texts_for(all).take(k as int));
            assert(texts_for(all).take(k + 1).last() == part@);
        }
        proof {
            let n = all[k as int].1.len();
            assert(text_length(n) == 0 <==> n == 0);
            if all_empty(all, k + 1) {
                assert forall|m: int| 0 <= m < k implies (#[trigger] all[m]).1.len() == 0 by {}
            }
        }
        let ghost names_before = texts_of(names@);
        names.push(files[k].0.clone());
        sizes.push(part.len());
        text.append(&mut part);
        proof {
            assert(texts_of(names@) =~= names_before.push(all[k as int].0));
            assert(texts_of(names@) =~= names_of(all).take(k + 1));
            assert(sizes@ =~= lengths(texts_for(all)).take(k + 1));
        }
        k += 1;
    }
    proof {
        assert(texts_for(all).take(k as int) =~= texts_for(all));
        assert(names_of(all).take(k as int) =~= names_of(all));
        assert(lengths(texts_for(all)).take(k as int) =~= lengths(texts_for(all)));
    }
    let (payload, table) = match huffe(text.as_slice()) {
        Ok(done) => done,
        Err(e) => {
            return Err(e);
        },
    };
    let header = Header::new(String::from_str("0.0.1"), names, sizes, table);
    proof {
        assert(text@.len() == text.len());
        assert(header@ == archive_header(all));
    }
    match header.get_serialized() {
        Ok(header_bytes) => {
            proof {
                if unambiguous(archive_header(all).encoding(), archive_payload(all)) {
                    lemma_round_trip(all);
                }
                assert forall|n: int| 0 <= n <= header_bytes@.len() implies extracted(
                    #[trigger] assembled(header_bytes@, payload@).take(n),
                ) == Err::<Seq<(Seq<char>, Seq<u8>)>, ArchiveError>(ArchiveError::Format) by {
                    lemma_cut_short(header_bytes@, payload@, n);
                }
            }
            Ok(assemble(header_bytes, payload))
        },
        Err(e) => Err(e),
    }
}

} // verus!
