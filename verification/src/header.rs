//! The header of an archive and its form in bytes.
//!
//! The bytes are those of `bincode` for the header's fields in their order,
//! each bit string written as a text of `0` and `1`. Nothing of that coding
//! is proved here: its results are named, and the contracts speak of the
//! names.

use crate::error::ArchiveError;
use crate::table::{valid_table, CodeTable};
use vstd::prelude::*;
use vstd::string::StringExecFns;

verus! {

/// `bincode::ErrorKind`: what `bincode` says of a value that it cannot
/// write or of bytes that it cannot read. Nothing inside it is read here.
#[verifier::external_type_specification]
#[verifier::external_body]
pub struct ExErrorKind(bincode::ErrorKind);

/// What an archive records besides its payload.
#[derive(Debug)]
pub struct Header {
    pub version: String,
    pub file_names: Vec<String>,
    pub file_sizes: Vec<usize>,
    pub code_table: CodeTable,
}

/// A header as a mathematical value.
pub struct HeaderView {
    pub version: Seq<char>,
    pub file_names: Seq<Seq<char>>,
    pub file_sizes: Seq<usize>,
    pub code_table: Seq<(char, Seq<bool>)>,
}

/// The version that this crate writes and reads.
pub open spec fn current_version() -> Seq<char> {
    "0.0.1"@
}

/// The texts of a sequence of strings.
pub open spec fn texts_of(strings: Seq<String>) -> Seq<Seq<char>> {
    Seq::new(strings.len(), |k: int| strings[k]@)
}

/// A bit string as a text of `0` and `1`.
pub open spec fn wire_code(bits: Seq<bool>) -> Seq<char> {
    Seq::new(
        bits.len(),
        |k: int|
            if bits[k] {
                '1'
            } else {
                '0'
            },
    )
}

/// The bit string that a text of `0` and `1` spells.
pub open spec fn read_code(text: Seq<char>) -> Seq<bool> {
    Seq::new(text.len(), |k: int| text[k] == '1')
}

/// Every character of `text` is `0` or `1`.
pub open spec fn is_code_text(text: Seq<char>) -> bool {
    forall|k: int| 0 <= k < text.len() ==> #[trigger] text[k] == '0' || text[k] == '1'
}

/// A code table with its bit strings as texts.
pub open spec fn wire_table(table: Seq<(char, Seq<bool>)>) -> Seq<(char, Seq<char>)> {
    Seq::new(table.len(), |k: int| (table[k].0, wire_code(table[k].1)))
}

/// The code table that a table of texts spells.
pub open spec fn read_table(wire: Seq<(char, Seq<char>)>) -> Seq<(char, Seq<bool>)> {
    Seq::new(wire.len(), |k: int| (wire[k].0, read_code(wire[k].1)))
}

/// Sizes as they are written.
pub open spec fn wire_sizes(sizes: Seq<usize>) -> Seq<u64> {
    Seq::new(sizes.len(), |k: int| sizes[k] as u64)
}

/// Sizes as they are read.
pub open spec fn read_sizes(wire: Seq<u64>) -> Seq<usize> {
    Seq::new(wire.len(), |k: int| wire[k] as usize)
}

/// The entries of a table whose bit strings are held as characters.
pub open spec fn wire_entries(entries: Seq<(char, Vec<char>)>) -> Seq<(char, Seq<char>)> {
    Seq::new(entries.len(), |k: int| (entries[k].0, entries[k].1@))
}

/// The bytes that `bincode` writes for a version, file names, file sizes
/// and a code table of texts.
pub uninterp spec fn header_bytes(
    version: Seq<char>,
    file_names: Seq<Seq<char>>,
    file_sizes: Seq<u64>,
    code_table: Seq<(char, Seq<char>)>,
) -> Seq<u8>;

/// What `bincode` reads from `bytes` as a version, file names, file sizes
/// and a code table of texts; none where it fails.
pub uninterp spec fn header_fields(bytes: Seq<u8>) -> Option<
    (Seq<char>, Seq<Seq<char>>, Seq<u64>, Seq<(char, Seq<char>)>),
>;

impl HeaderView {
    /// What a header promises: the current version, one size for each name,
    /// and a valid code table.
    pub open spec fn wf(self) -> bool {
        &&& self.version == current_version()
        &&& self.file_names.len() == self.file_sizes.len()
        &&& valid_table(self.code_table)
    }

    /// The header's bytes.
    pub open spec fn encoding(self) -> Seq<u8> {
        header_bytes(
            self.version,
            self.file_names,
            wire_sizes(self.file_sizes),
            wire_table(self.code_table),
        )
    }
}

/// The header that fields read from bytes make; none where a size does not
/// fit the machine, a bit string holds another character than `0` and `1`,
/// or the header would not be well formed.
pub open spec fn checked(
    fields: (Seq<char>, Seq<Seq<char>>, Seq<u64>, Seq<(char, Seq<char>)>),
) -> Option<HeaderView> {
    let header = HeaderView {
        version: fields.0,
        file_names: fields.1,
        file_sizes: read_sizes(fields.2),
        code_table: read_table(fields.3),
    };
    if (forall|k: int| 0 <= k < fields.2.len() ==> #[trigger] fields.2[k] <= usize::MAX) && (forall|
        k: int,
    |
        0 <= k < fields.3.len() ==> is_code_text((#[trigger] fields.3[k]).1)) && header.wf() {
        Some(header)
    } else {
        None
    }
}

/// The header that `bytes` hold; none where they hold none.
pub open spec fn parsed_header(bytes: Seq<u8>) -> Option<HeaderView> {
    match header_fields(bytes) {
        Some(fields) => checked(fields),
        None => None,
    }
}

impl View for Header {
    type V = HeaderView;

    open spec fn view(&self) -> HeaderView {
        HeaderView {
            version: self.version@,
            file_names: texts_of(self.file_names@),
            file_sizes: self.file_sizes@,
            code_table: self.code_table@,
        }
    }
}

/// Calls `bincode::serialize` on the four fields as one tuple, each bit
/// string as a `String`. Believed of it: it succeeds, as no size limit is
/// set, every sequence knows its length and the bytes go into a vector;
/// the bytes depend on the fields alone; `bincode::deserialize` reads the
/// fields back from them; and it reads nothing from bytes that end before
/// these do, as its reader refuses every read past the end.
#[verifier::external_body]
fn serialize(
    version: &String,
    file_names: &Vec<String>,
    file_sizes: &Vec<u64>,
    code_table: &Vec<(char, Vec<char>)>,
) -> (r: Result<Vec<u8>, Box<bincode::ErrorKind>>)
    ensures
        r is Ok,
        r matches Ok(bytes) ==> bytes@ == header_bytes(
            version@,
            texts_of(file_names@),
            file_sizes@,
            wire_entries(code_table@),
        ) && header_fields(bytes@) == Some(
            (version@, texts_of(file_names@), file_sizes@, wire_entries(code_table@)),
        ),
        r matches Ok(bytes) ==> forall|n: int|
            0 <= n < bytes@.len() ==> header_fields(#[trigger] bytes@.take(n)) is None,
{
    let table: Vec<(char, String)> = code_table.iter().map(|e| (e.0, e.1.iter().collect())).collect();
    bincode::serialize(&(version, file_names, file_sizes, &table))
}

/// Calls `bincode::deserialize` for the four fields as one tuple, each bit
/// string as a `String`. Believed of it: whether it succeeds, and with
/// which fields, depends on the bytes alone.
#[verifier::external_body]
fn deserialize(bytes: &[u8]) -> (r: Result<
    (String, Vec<String>, Vec<u64>, Vec<(char, Vec<char>)>),
    Box<bincode::ErrorKind>,
>)
    ensures
        match r {
            Ok(fields) => header_fields(bytes@) == Some(
                (fields.0@, texts_of(fields.1@), fields.2@, wire_entries(fields.3@)),
            ),
            Err(_) => header_fields(bytes@) is None,
        },
{
    let fields: (String, Vec<String>, Vec<u64>, Vec<(char, String)>) = bincode::deserialize(bytes)?;
    let table = fields.3.into_iter().map(|e| (e.0, e.1.chars().collect())).collect();
    Ok((fields.0, fields.1, fields.2, table))
}

/// The bit string `bits` as characters `0` and `1`.
pub fn code_chars(bits: &Vec<bool>) -> (text: Vec<char>)
    ensures
        text@ == wire_code(bits@),
{
    let mut text: Vec<char> = Vec::new();
    let mut k: usize = 0;
    while k < bits.len()
        invariant
            k <= bits.len(),
            text@ == wire_code(bits@.take(k as int)),
        decreases bits.len() - k,
    {
        text.push(if bits[k] {
            '1'
        } else {
            '0'
        });
        assert(text@ =~= wire_code(bits@.take(k + 1)));
        k += 1;
    }
    assert(bits@.take(k as int) =~= bits@);
    text
}

/// The bit string that characters `0` and `1` spell; none where another
/// character stands among them.
pub fn chars_code(text: &Vec<char>) -> (bits: Option<Vec<bool>>)
    ensures
        match bits {
            Some(code) => is_code_text(text@) && code@ == read_code(text@),
            None => !is_code_text(text@),
        },
{
    let mut code: Vec<bool> = Vec::new();
    let mut k: usize = 0;
    while k < text.len()
        invariant
            k <= text.len(),
            is_code_text(text@.take(k as int)),
            code@ == read_code(text@.take(k as int)),
        decreases text.len() - k,
    {
        let c = text[k];
        if c != '0' && c != '1' {
            assert(text@[k as int] != '0' && text@[k as int] != '1');
            return None;
        }
        code.push(c == '1');
        proof {
            let next = text@.take(k + 1);
            assert forall|m: int| 0 <= m < next.len() implies #[trigger] next[m] == '0' || next[m]
                == '1' by {
                if m < k {
                    assert(text@.take(k as int)[m] == next[m]);
                }
            }
            assert(code@ =~= read_code(next));
        }
        k += 1;
    }
    assert(text@.take(k as int) =~= text@);
    Some(code)
}

/// Reading a written bit string gives it back.
pub proof fn lemma_read_wire_code(bits: Seq<bool>)
    ensures
        is_code_text(wire_code(bits)),
        read_code(wire_code(bits)) == bits,
{
    assert(read_code(wire_code(bits)) =~= bits);
}

/// Reading a written header gives it back: a well-formed header comes out
/// of the check as it is, and one that is not well formed does not come
/// out of it.
pub proof fn lemma_checked_wire(header: HeaderView)
    ensures
        checked(
            (
                header.version,
                header.file_names,
                wire_sizes(header.file_sizes),
                wire_table(header.code_table),
            ),
        ) == if header.wf() {
            Some(header)
        } else {
            None
        },
{
    let sizes = wire_sizes(header.file_sizes);
    let table = wire_table(header.code_table);
    assert(read_sizes(sizes) =~= header.file_sizes);
    assert forall|k: int| 0 <= k < table.len() implies is_code_text((#[trigger] table[k]).1) by {
        lemma_read_wire_code(header.code_table[k].1);
    }
    assert forall|k: int| 0 <= k < table.len() implies read_table(table)[k]
        == header.code_table[k] by {
        lemma_read_wire_code(header.code_table[k].1);
    }
    assert(read_table(table) =~= header.code_table);
}

impl Header {
    /// A header of the given fields.
    pub fn new(
        version: String,
        file_names: Vec<String>,
        file_sizes: Vec<usize>,
        code_table: CodeTable,
    ) -> (header: Header)
        ensures
            header.version == version,
            header.file_names == file_names,
            header.file_sizes == file_sizes,
            header.code_table == code_table,
    {
        Header { version, file_names, file_sizes, code_table }
    }

    /// What became of writing a header: the bytes, or a format error.
    pub fn serialized(outcome: Result<Vec<u8>, Box<bincode::ErrorKind>>) -> (r: Result<
        Vec<u8>,
        ArchiveError,
    >)
        ensures
            match outcome {
                Ok(bytes) => r matches Ok(same) && same@ == bytes@,
                Err(_) => r == Err::<Vec<u8>, ArchiveError>(ArchiveError::Format),
            },
    {
        match outcome {
            Ok(bytes) => Ok(bytes),
            Err(_) => Err(ArchiveError::Format),
        }
    }

    /// The header in bytes; writing does not fail. From the bytes of a
    /// well-formed header the same header is read back; the bytes of one
    /// that is not well formed, one of another version among them, read as
    /// no header; and bytes cut short before their end read as none.
    pub fn get_serialized(&self) -> (r: Result<Vec<u8>, ArchiveError>)
        ensures
            r is Ok,
            r matches Ok(bytes) ==> bytes@ == self@.encoding(),
            r matches Ok(bytes) ==> parsed_header(bytes@) == if self@.wf() {
                Some(self@)
            } else {
                None
            },
            r matches Ok(bytes) ==> forall|n: int|
                0 <= n < bytes@.len() ==> parsed_header(#[trigger] bytes@.take(n)) is None,
    {
        let mut sizes: Vec<u64> = Vec::new();
        let mut k: usize = 0;
        while k < self.file_sizes.len()
            invariant
                k <= self.file_sizes.len(),
                sizes@ == wire_sizes(self.file_sizes@.take(k as int)),
            decreases self.file_sizes.len() - k,
        {
            sizes.push(self.file_sizes[k] as u64);
            assert(sizes@ =~= wire_sizes(self.file_sizes@.take(k + 1)));
            k += 1;
        }
        assert(self.file_sizes@.take(k as int) =~= self.file_sizes@);
        let mut table: Vec<(char, Vec<char>)> = Vec::new();
        let mut i: usize = 0;
        while i < self.code_table.entries.len()
            invariant
                i <= self.code_table.entries.len(),
                table@.len() == i,
                wire_entries(table@) == wire_table(self.code_table@.take(i as int)),
            decreases self.code_table.entries.len() - i,
        {
            let entry = &self.code_table.entries[i];
            let ghost before = wire_entries(table@);
            table.push((entry.0, code_chars(&entry.1)));
            proof {
                let after = wire_entries(table@);
                let next = wire_table(self.code_table@.take(i + 1));
                assert forall|m: int| 0 <= m < after.len() implies after[m] == next[m] by {
                    if m < i {
                        assert(after[m] == before[m]);
                        assert(before[m] == wire_table(self.code_table@.take(i as int))[m]);
                    }
                }
                assert(after =~= next);
            }
            i += 1;
        }
        assert(self.code_table@.take(i as int) =~= self.code_table@);
        proof {
            lemma_checked_wire(self@);
        }
        Header::serialized(serialize(&self.version, &self.file_names, &sizes, &table))
    }

    /// The header that the fields read from bytes make: the sizes must fit
    /// the machine, the bit strings be texts of `0` and `1`, and the header
    /// be well formed. Anything else is a format error.
    pub fn from_fields(
        version: String,
        file_names: Vec<String>,
        file_sizes: Vec<u64>,
        code_table: Vec<(char, Vec<char>)>,
    ) -> (r: Result<Header, ArchiveError>)
        ensures
            match checked(
                (version@, texts_of(file_names@), file_sizes@, wire_entries(code_table@)),
            ) {
                Some(header) => r matches Ok(found) && found@ == header,
                None => r == Err::<Header, ArchiveError>(ArchiveError::Format),
            },
    {
        let ghost wire = wire_entries(code_table@);
        let mut sizes: Vec<usize> = Vec::new();
        let mut k: usize = 0;
        while k < file_sizes.len()
            invariant
                k <= file_sizes.len(),
                forall|m: int| 0 <= m < k ==> #[trigger] file_sizes@[m] <= usize::MAX,
                sizes@ == read_sizes(file_sizes@.take(k as int)),
            decreases file_sizes.len() - k,
        {
            if file_sizes[k] > usize::MAX as u64 {
                return Err(ArchiveError::Format);
            }
            sizes.push(file_sizes[k] as usize);
            assert(sizes@ =~= read_sizes(file_sizes@.take(k + 1)));
            k += 1;
        }
        assert(file_sizes@.take(k as int) =~= file_sizes@);
        let mut table = CodeTable::new();
        let mut i: usize = 0;
        while i < code_table.len()
            invariant
                i <= code_table.len(),
                wire == wire_entries(code_table@),
                forall|m: int| 0 <= m < i ==> is_code_text((#[trigger] wire[m]).1),
                table@.len() == i,
                table@ == read_table(wire.take(i as int)),
            decreases code_table.len() - i,
        {
            match chars_code(&code_table[i].1) {
                Some(code) => {
                    let ghost before = table@;
                    table.entries.push((code_table[i].0, code));
                    proof {
                        let next = read_table(wire.take(i + 1));
                        assert forall|m: int| 0 <= m < table@.len() implies table@[m]
                            == next[m] by {
                            if m < i {
                                assert(table@[m] == before[m]);
                                assert(before[m] == read_table(wire.take(i as int))[m]);
                            }
                        }
                        assert(table@ =~= next);
                    }
                },
                None => {
                    assert(!is_code_text(wire[i as int].1));
                    return Err(ArchiveError::Format);
                },
            }
            i += 1;
        }
        assert(wire.take(i as int) =~= wire);
        let current = String::from_str("0.0.1");
        if version != current || file_names.len() != sizes.len() || !table.is_valid() {
            return Err(ArchiveError::Format);
        }
        Ok(Header { version, file_names, file_sizes: sizes, code_table: table })
    }

    /// Reads a header from bytes. The bytes must be those of a well-formed
    /// header of the current version; bytes cut short or otherwise
    /// malformed are a format error.
    pub fn get_deserialized(input: &[u8]) -> (r: Result<Header, ArchiveError>)
        ensures
            match parsed_header(input@) {
                Some(header) => r matches Ok(found) && found@ == header,
                None => r == Err::<Header, ArchiveError>(ArchiveError::Format),
            },
    {
        match deserialize(input) {
            Ok(fields) => Header::from_fields(fields.0, fields.1, fields.2, fields.3),
            Err(_) => Err(ArchiveError::Format),
        }
    }
}

} // verus!
