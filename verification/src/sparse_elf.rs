//! A sparse view of an ELF object: its class and byte order, the headers of
//! `.dynamic`, `.dynstr` and `.interp`, and queries over the dynamic table and
//! the dynamic string table. The object is held in memory and read through
//! the `elf` crate; nothing is cached across queries.

use crate::serialize::{decode_signed, decode_unsigned, word_width, AnyEndian, Class};
use elf::string_table::StringTable;
use elf::ParseError;
use vstd::prelude::*;
use vstd::string::StringSliceAdditionalSpecFns;
use vstd::utf8::{encode_utf8, valid_utf8};

verus! {

/// `elf::ParseError`, carried through unread.
#[verifier::external_type_specification]
#[verifier::external_body]
pub struct ExParseError(ParseError);

/// `elf::string_table::StringTable`, a borrowed blob of NUL-terminated strings.
#[verifier::external_type_specification]
#[verifier::external_body]
pub struct ExStringTable<'data>(StringTable<'data>);

/// An ELF object in memory behind `elf::ElfStream`, which parsed its file
/// header, section headers and program headers when it was opened. The
/// stream's type is bound by traits of `elf` and of `std::io`, so the
/// verifier cannot be told of it; it is held here in a struct whose body the
/// verifier does not read. What is known of a value are the bytes it reads,
/// `image_bytes`, through the contracts of the functions below.
#[verifier::external_body]
pub struct ElfImage {
    stream: elf::ElfStream<elf::endian::AnyEndian, std::io::Cursor<Vec<u8>>>,
}

/// The bytes of the object that the stream reads.
pub uninterp spec fn image_bytes(elf: ElfImage) -> Seq<u8>;

/// Whether `elf::ElfStream::open_stream` accepts the bytes as an ELF object.
pub uninterp spec fn opens(bytes: Seq<u8>) -> bool;

/// What `elf::ElfStream::section_header_by_name` finds in an object that
/// opens: `None` where the lookup fails, `Some(None)` where no section has the
/// name, else the first section header with the name.
pub uninterp spec fn section_by_name(bytes: Seq<u8>, name: Seq<char>) -> Option<
    Option<SectionHeader>,
>;

/// Where `elf::ElfStream::dynamic` finds the dynamic table of an object that
/// opens: `None` where the lookup fails, `Some(None)` where the object has no
/// dynamic table, else the table's first file offset and the one past its last.
pub uninterp spec fn dynamic_span(bytes: Seq<u8>) -> Option<Option<(nat, nat)>>;

/// The bytes that a string table was made over.
pub uninterp spec fn table_bytes(table: StringTable) -> Seq<u8>;

/// A section header, independent of the class.
#[derive(Copy, Clone, Debug, PartialEq, Eq, Structural)]
pub struct SectionHeader {
    pub sh_name: u32,
    pub sh_type: u32,
    pub sh_flags: u64,
    pub sh_addr: u64,
    pub sh_offset: u64,
    pub sh_size: u64,
    pub sh_link: u32,
    pub sh_info: u32,
    pub sh_addralign: u64,
    pub sh_entsize: u64,
}

/// An entry of the dynamic table.
#[derive(Copy, Clone, Debug, PartialEq, Eq, Structural)]
pub struct Dyn {
    pub d_tag: i64,
    pub d_val: u64,
}

/// Why there is no view of an object, or why a query on one failed.
#[derive(Debug)]
pub enum Error {
    /// The `elf` reader rejected the object or one of its structures.
    ParseElf { source: ParseError },
    NoDynamicSection,
    NoDynstrSection,
    NoInterpSection,
}

/// The reasons for which the view fails, without the causes that the
/// errors carry.
pub enum Fault {
    ParseElf,
    NoDynamicSection,
    NoDynstrSection,
    NoInterpSection,
}

impl Error {
    /// The reason that this error reports.
    pub open spec fn fault(self) -> Fault {
        match self {
            Error::ParseElf { .. } => Fault::ParseElf,
            Error::NoDynamicSection => Fault::NoDynamicSection,
            Error::NoDynstrSection => Fault::NoDynstrSection,
            Error::NoInterpSection => Fault::NoInterpSection,
        }
    }
}

/// Section type of a string table.
pub const SHT_STRTAB: u32 = 3;

/// The class that the identification bytes of an object that opens give.
pub open spec fn class_of(bytes: Seq<u8>) -> Class {
    if bytes[4] == 1 {
        Class::ELF32
    } else {
        Class::ELF64
    }
}

/// The byte order that the identification bytes of an object that opens give.
pub open spec fn endianness_of(bytes: Seq<u8>) -> AnyEndian {
    if bytes[5] == 1 {
        AnyEndian::Little
    } else {
        AnyEndian::Big
    }
}

/// Bytes of one dynamic entry: a tag word and a value word.
pub open spec fn dyn_entry_width(class: Class) -> nat {
    2 * word_width(class)
}

/// The dynamic entry at index `i` of a table's bytes.
pub open spec fn dyn_at(data: Seq<u8>, i: int, class: Class, endian: AnyEndian) -> Dyn {
    let w = word_width(class) as int;
    let at = i * (2 * w);
    Dyn {
        d_tag: decode_signed(data.subrange(at, at + w), endian) as i64,
        d_val: decode_unsigned(data.subrange(at + w, at + 2 * w), endian) as u64,
    }
}

/// The entries of a dynamic table: as many whole entries as its bytes hold.
pub open spec fn dyn_table(data: Seq<u8>, class: Class, endian: AnyEndian) -> Seq<Dyn> {
    Seq::new(
        data.len() / dyn_entry_width(class),
        |i: int| dyn_at(data, i, class, endian),
    )
}

/// Whether the data of a section can be read as a string table: the section
/// is one, and its range of the file exists.
pub open spec fn strtab_readable(bytes: Seq<u8>, shdr: SectionHeader) -> bool {
    &&& shdr.sh_type == SHT_STRTAB
    &&& shdr.sh_offset + shdr.sh_size <= usize::MAX
    &&& shdr.sh_offset + shdr.sh_size <= bytes.len()
}

/// The file's bytes that a section header spans.
pub open spec fn section_data(bytes: Seq<u8>, shdr: SectionHeader) -> Seq<u8> {
    bytes.subrange(shdr.sh_offset as int, shdr.sh_offset + shdr.sh_size)
}

/// Index of the first NUL at or after `i`, or the length where there is none.
pub open spec fn nul_from(data: Seq<u8>, i: int) -> int
    decreases data.len() - i,
{
    if i < 0 || i >= data.len() {
        data.len() as int
    } else if data[i] == 0 {
        i
    } else {
        nul_from(data, i + 1)
    }
}

/// The bytes of the string that starts at offset `i`, without its NUL.
pub open spec fn entry_at(data: Seq<u8>, i: int) -> Seq<u8> {
    data.subrange(i, nul_from(data, i))
}

/// Whether a string can be read at offset `i`: the offset lies in the table,
/// a NUL ends the string, and the string is UTF-8.
pub open spec fn entry_readable(data: Seq<u8>, i: int) -> bool {
    &&& 0 <= i < data.len()
    &&& nul_from(data, i) < data.len()
    &&& valid_utf8(entry_at(data, i))
}

/// `elf::ElfStream::open_stream` over the bytes: accepts what `opens` says,
/// and the stream then reads exactly these bytes.
#[verifier::external_body]
fn open_stream(image: Vec<u8>) -> (r: Result<ElfImage, ParseError>)
    ensures
        r is Ok <==> opens(image@),
        r matches Ok(elf) ==> image_bytes(elf) == image@,
{
    Ok(ElfImage { stream: elf::ElfStream::open_stream(std::io::Cursor::new(image))? })
}

/// The `class` that `elf::ElfStream::open_stream` read from the fifth
/// identification byte: 1 for ELF32, else 2 for ELF64.
#[verifier::external_body]
fn image_class(elf: &ElfImage) -> (class: Class)
    ensures
        class == class_of(image_bytes(*elf)),
{
    match elf.stream.ehdr.class {
        elf::file::Class::ELF32 => Class::ELF32,
        elf::file::Class::ELF64 => Class::ELF64,
    }
}

/// The `endianness` that `elf::ElfStream::open_stream` read from the sixth
/// identification byte: 1 for little-endian, else 2 for big-endian.
#[verifier::external_body]
fn image_endianness(elf: &ElfImage) -> (endian: AnyEndian)
    ensures
        endian == endianness_of(image_bytes(*elf)),
{
    match elf.stream.ehdr.endianness {
        elf::endian::AnyEndian::Little => AnyEndian::Little,
        elf::endian::AnyEndian::Big => AnyEndian::Big,
    }
}

/// `elf::ElfStream::section_header_by_name`: the result is what
/// `section_by_name` names for the object's bytes, which stay as they are.
#[verifier::external_body]
fn find_section(elf: &mut ElfImage, name: &str) -> (r: Result<Option<SectionHeader>, ParseError>)
    ensures
        image_bytes(*final(elf)) == image_bytes(*old(elf)),
        match r {
            Ok(found) => section_by_name(image_bytes(*old(elf)), name@) == Some(found),
            Err(_) => section_by_name(image_bytes(*old(elf)), name@) is None,
        },
{
    Ok(elf.stream.section_header_by_name(name)?.map(|h| SectionHeader {
        sh_name: h.sh_name,
        sh_type: h.sh_type,
        sh_flags: h.sh_flags,
        sh_addr: h.sh_addr,
        sh_offset: h.sh_offset,
        sh_size: h.sh_size,
        sh_link: h.sh_link,
        sh_info: h.sh_info,
        sh_addralign: h.sh_addralign,
        sh_entsize: h.sh_entsize,
    }))
}

/// `elf::ElfStream::dynamic`, with the entries of the table it returns handed
/// out in order. The table spans the file range that `dynamic_span` names,
/// which lies inside the file; its entries are the whole entries of that
/// range, each a tag word and a value word in the object's class and byte
/// order. The object's bytes stay as they are.
#[verifier::external_body]
fn read_dynamic(elf: &mut ElfImage) -> (r: Result<Option<Vec<Dyn>>, ParseError>)
    ensures
        image_bytes(*final(elf)) == image_bytes(*old(elf)),
        match r {
            Ok(Some(entries)) => {
                &&& dynamic_span(image_bytes(*old(elf))) matches Some(Some((start, end)))
                &&& start <= end <= image_bytes(*old(elf)).len()
                &&& entries@ == dyn_table(
                    image_bytes(*old(elf)).subrange(start as int, end as int),
                    class_of(image_bytes(*old(elf))),
                    endianness_of(image_bytes(*old(elf))),
                )
            },
            Ok(None) => dynamic_span(image_bytes(*old(elf))) == Some(None::<(nat, nat)>),
            Err(_) => dynamic_span(image_bytes(*old(elf))) is None,
        },
{
    Ok(elf.stream.dynamic()?.map(|table| {
        table.iter().map(|d| Dyn { d_tag: d.d_tag, d_val: d.d_val() }).collect()
    }))
}

/// `elf::ElfStream::section_data_as_strtab`: succeeds where the header is of
/// a string table whose range lies inside the file, and the table is then
/// made over exactly the bytes of that range. The object's bytes stay as they
/// are.
#[verifier::external_body]
fn read_strtab<'a>(elf: &'a mut ElfImage, shdr: &SectionHeader) -> (r: Result<StringTable<'a>, ParseError>)
    ensures
        image_bytes(*final(elf)) == image_bytes(*old(elf)),
        r is Ok <==> strtab_readable(image_bytes(*old(elf)), *shdr),
        r matches Ok(table) ==> table_bytes(table) == section_data(image_bytes(*old(elf)), *shdr),
{
    elf.stream.section_data_as_strtab(&elf::section::SectionHeader {
        sh_name: shdr.sh_name,
        sh_type: shdr.sh_type,
        sh_flags: shdr.sh_flags,
        sh_addr: shdr.sh_addr,
        sh_offset: shdr.sh_offset,
        sh_size: shdr.sh_size,
        sh_link: shdr.sh_link,
        sh_info: shdr.sh_info,
        sh_addralign: shdr.sh_addralign,
        sh_entsize: shdr.sh_entsize,
    })
}

/// `elf::string_table::StringTable::get`: the string from the offset up to
/// the next NUL. It fails where the offset lies outside the table, where no
/// NUL follows, and where the bytes are not UTF-8.
pub assume_specification<'data>[ StringTable::<'data>::get ](
    table: &StringTable<'data>,
    offset: usize,
) -> (r: Result<&'data str, ParseError>)
    ensures
        r is Ok <==> entry_readable(table_bytes(*table), offset as int),
        r matches Ok(entry) ==> entry.spec_bytes() == entry_at(table_bytes(*table), offset as int),
;

/// A NUL found from `i` on lies at or after `i`, inside the table, and no
/// NUL precedes it from `i` on.
pub proof fn lemma_nul_from(data: Seq<u8>, i: int)
    requires
        0 <= i <= data.len(),
    ensures
        i <= nul_from(data, i) <= data.len(),
        nul_from(data, i) < data.len() ==> data[nul_from(data, i)] == 0,
        forall|k: int| i <= k < nul_from(data, i) ==> data[k] != 0,
    decreases data.len() - i,
{
    if i < data.len() && data[i] != 0 {
        lemma_nul_from(data, i + 1);
    }
}

/// The entries that a scan from offset `from` reads, each with its offset:
/// every string in turn, the next one starting behind the NUL of the last, up
/// to the table's end or the first string that cannot be read.
pub open spec fn entries_from(data: Seq<u8>, from: int) -> Seq<(int, Seq<u8>)>
    decreases data.len() - from,
{
    if 0 <= from < data.len() && entry_readable(data, from) {
        proof {
            lemma_nul_from(data, from);
        }
        seq![(from, entry_at(data, from))] + entries_from(data, nul_from(data, from) + 1)
    } else {
        Seq::empty()
    }
}

/// Whether a scan from offset `from` meets a string that cannot be read.
pub open spec fn scan_fails(data: Seq<u8>, from: int) -> bool
    decreases data.len() - from,
{
    if 0 <= from < data.len() {
        if entry_readable(data, from) {
            proof {
                lemma_nul_from(data, from);
            }
            scan_fails(data, nul_from(data, from) + 1)
        } else {
            true
        }
    } else {
        false
    }
}

/// Whether the bytes of `hay` from index `i` on begin with `needle`.
pub open spec fn occurs_at(hay: Seq<u8>, needle: Seq<u8>, i: int) -> bool {
    &&& 0 <= i
    &&& i + needle.len() <= hay.len()
    &&& hay.subrange(i, i + needle.len()) == needle
}

/// Whether `needle` occurs in `hay` as a run of consecutive bytes.
pub open spec fn contains_bytes(hay: Seq<u8>, needle: Seq<u8>) -> bool {
    exists|i: int| occurs_at(hay, needle, i)
}

/// Whether one of the entries has `needle` as a substring.
pub open spec fn any_contains(entries: Seq<(int, Seq<u8>)>, needle: Seq<u8>) -> bool {
    exists|k: int| 0 <= k < entries.len() && contains_bytes(#[trigger] entries[k].1, needle)
}

/// The offsets and the bytes of scanned entries that were handed out as
/// strings.
pub open spec fn entries_view(entries: Seq<(usize, String)>) -> Seq<(int, Seq<u8>)> {
    Seq::new(entries.len(), |k: int| (entries[k].0 as int, encode_utf8(entries[k].1@)))
}

/// The indices, tags and values of a dynamic table's entries.
pub open spec fn indexed(table: Seq<Dyn>) -> Seq<(usize, i64, u64)> {
    Seq::new(table.len(), |i: int| (i as usize, table[i].d_tag, table[i].d_val))
}

/// Whether one of the entries has the tag.
pub open spec fn has_tag(table: Seq<Dyn>, d_tag: i64) -> bool {
    exists|i: int| 0 <= i < table.len() && #[trigger] table[i].d_tag == d_tag
}

/// The dynamic table of an object as the reader finds it, or the reason why
/// it finds none.
pub open spec fn dynamic_of(bytes: Seq<u8>) -> Result<Seq<Dyn>, Fault> {
    match dynamic_span(bytes) {
        Some(Some((start, end))) => Ok(
            dyn_table(bytes.subrange(start as int, end as int), class_of(bytes), endianness_of(bytes)),
        ),
        Some(None) => Err(Fault::NoDynamicSection),
        None => Err(Fault::ParseElf),
    }
}

/// Whether `needle` occurs in `hay`.
pub fn bytes_contain(hay: &[u8], needle: &[u8]) -> (found: bool)
    ensures
        found == contains_bytes(hay@, needle@),
{
    if needle.len() > hay.len() {
        return false;
    }
    let last: usize = hay.len() - needle.len();
    let mut i: usize = 0;
    while i <= last
        invariant
            last == hay.len() - needle.len(),
            i <= last + 1,
            forall|k: int| 0 <= k < i ==> !occurs_at(hay@, needle@, k),
        decreases last + 1 - i,
    {
        let mut j: usize = 0;
        while j < needle.len() && hay[i + j] == needle[j]
            invariant
                last == hay.len() - needle.len(),
                i <= last,
                j <= needle.len(),
                forall|k: int| 0 <= k < j ==> hay@[i + k] == needle@[k],
            decreases needle.len() - j,
        {
            j += 1;
        }
        if j == needle.len() {
            assert(hay@.subrange(i as int, i + needle@.len()) =~= needle@);
            assert(occurs_at(hay@, needle@, i as int));
            return true;
        }
        i += 1;
    }
    false
}

/// The sparse view of one ELF object.
pub struct SparseElf {
    pub elf_stream: ElfImage,
    pub shdr_dynamic: SectionHeader,
    pub shdr_dynstr: SectionHeader,
    pub shdr_interp: SectionHeader,
}

/// The three headers of a view.
pub struct Headers {
    pub dynamic: SectionHeader,
    pub dynstr: SectionHeader,
    pub interp: SectionHeader,
}

/// The view's three headers as the reader finds them, looked up in the order
/// `.dynamic`, `.dynstr`, `.interp`; the first lookup that fails or finds
/// nothing decides the error.
pub open spec fn find_headers(bytes: Seq<u8>) -> Result<Headers, Fault> {
    if !opens(bytes) {
        Err(Fault::ParseElf)
    } else {
        match section_by_name(bytes, ".dynamic"@) {
            None => Err(Fault::ParseElf),
            Some(None) => Err(Fault::NoDynamicSection),
            Some(Some(dynamic)) => match section_by_name(bytes, ".dynstr"@) {
                None => Err(Fault::ParseElf),
                Some(None) => Err(Fault::NoDynstrSection),
                Some(Some(dynstr)) => match section_by_name(bytes, ".interp"@) {
                    None => Err(Fault::ParseElf),
                    Some(None) => Err(Fault::NoInterpSection),
                    Some(Some(interp)) => Ok(Headers { dynamic, dynstr, interp }),
                },
            },
        }
    }
}

impl SparseElf {
    /// The bytes of the object.
    pub open spec fn image(&self) -> Seq<u8> {
        image_bytes(self.elf_stream)
    }

    /// The three headers.
    pub open spec fn headers(&self) -> Headers {
        Headers { dynamic: self.shdr_dynamic, dynstr: self.shdr_dynstr, interp: self.shdr_interp }
    }

    /// Whether both views show the same object: the same bytes and headers.
    pub open spec fn same_as(&self, other: &Self) -> bool {
        &&& self.image() == other.image()
        &&& self.shdr_dynamic == other.shdr_dynamic
        &&& self.shdr_dynstr == other.shdr_dynstr
        &&& self.shdr_interp == other.shdr_interp
    }

    /// The bytes of the dynamic string table.
    pub open spec fn dynstr_data(&self) -> Seq<u8> {
        section_data(self.image(), self.shdr_dynstr)
    }

    /// Parses the object and looks up the three sections.
    pub fn new(image: Vec<u8>) -> (r: Result<Self, Error>)
        ensures
            match r {
                Ok(elf) => elf.image() == image@ && find_headers(image@) == Ok::<Headers, Fault>(
                    elf.headers(),
                ),
                Err(e) => find_headers(image@) == Err::<Headers, Fault>(e.fault()),
            },
    {
        let mut elf_stream = match open_stream(image) {
            Ok(stream) => stream,
            Err(source) => {
                return Err(Error::ParseElf { source });
            },
        };
        let shdr_dynamic = match find_section(&mut elf_stream, ".dynamic") {
            Ok(Some(shdr)) => shdr,
            Ok(None) => {
                return Err(Error::NoDynamicSection);
            },
            Err(source) => {
                return Err(Error::ParseElf { source });
            },
        };
        let shdr_dynstr = match find_section(&mut elf_stream, ".dynstr") {
            Ok(Some(shdr)) => shdr,
            Ok(None) => {
                return Err(Error::NoDynstrSection);
            },
            Err(source) => {
                return Err(Error::ParseElf { source });
            },
        };
        let shdr_interp = match find_section(&mut elf_stream, ".interp") {
            Ok(Some(shdr)) => shdr,
            Ok(None) => {
                return Err(Error::NoInterpSection);
            },
            Err(source) => {
                return Err(Error::ParseElf { source });
            },
        };
        Ok(Self { elf_stream, shdr_dynamic, shdr_dynstr, shdr_interp })
    }

    /// The entries of the dynamic table, in order.
    pub fn dynamic(&mut self) -> (r: Result<Vec<Dyn>, Error>)
        ensures
            final(self).same_as(old(self)),
            match r {
                Ok(table) => dynamic_of(old(self).image()) == Ok::<Seq<Dyn>, Fault>(table@),
                Err(e) => dynamic_of(old(self).image()) == Err::<Seq<Dyn>, Fault>(e.fault()),
            },
    {
        match read_dynamic(&mut self.elf_stream) {
            Ok(Some(table)) => Ok(table),
            Ok(None) => Err(Error::NoDynamicSection),
            Err(source) => Err(Error::ParseElf { source }),
        }
    }

    /// The dynamic string table, read from the section that `shdr_dynstr`
    /// describes.
    pub fn dynstr(&mut self) -> (r: Result<StringTable<'_>, Error>)
        ensures
            final(self).same_as(old(self)),
            r is Ok <==> strtab_readable(old(self).image(), old(self).shdr_dynstr),
            r matches Ok(table) ==> table_bytes(table) == old(self).dynstr_data(),
            r matches Err(e) ==> e is ParseElf,
    {
        match read_strtab(&mut self.elf_stream, &self.shdr_dynstr) {
            Ok(table) => Ok(table),
            Err(source) => Err(Error::ParseElf { source }),
        }
    }

    /// Whether an entry of `.dynstr` has `needle` as a substring. The scan
    /// starts at offset 1 and stops at the first such entry; it fails where
    /// the table or an entry before that cannot be read.
    #[verifier::loop_isolation(false)]
    pub fn dynstr_contains(&mut self, needle: &str) -> (r: Result<bool, Error>)
        ensures
            final(self).same_as(old(self)),
            r is Ok <==> strtab_readable(old(self).image(), old(self).shdr_dynstr) && (any_contains(
                entries_from(old(self).dynstr_data(), 1),
                needle.spec_bytes(),
            ) || !scan_fails(old(self).dynstr_data(), 1)),
            r matches Ok(found) ==> found == any_contains(
                entries_from(old(self).dynstr_data(), 1),
                needle.spec_bytes(),
            ),
            r matches Err(e) ==> e is ParseElf,
    {
        let size: u64 = self.shdr_dynstr.sh_size;
        let table = match self.dynstr() {
            Ok(table) => table,
            Err(e) => {
                return Err(e);
            },
        };
        let ghost data = table_bytes(table);
        let ghost mut seen: Seq<(int, Seq<u8>)> = Seq::empty();
        let mut dynstr_index: usize = 1;
        while (dynstr_index as u64) < size
            invariant
                data == table_bytes(table),
                data.len() == size,
                1 <= dynstr_index,
                entries_from(data, 1) == seen + entries_from(data, dynstr_index as int),
                scan_fails(data, 1) == scan_fails(data, dynstr_index as int),
                !any_contains(seen, needle.spec_bytes()),
            decreases size - dynstr_index,
        {
            let entry = match table.get(dynstr_index) {
                Ok(entry) => entry,
                Err(source) => {
                    return Err(Error::ParseElf { source });
                },
            };
            proof {
                lemma_nul_from(data, dynstr_index as int);
            }
            let ghost item = (dynstr_index as int, entry_at(data, dynstr_index as int));
            if bytes_contain(entry.as_bytes(), needle.as_bytes()) {
                assert(contains_bytes(
                    entries_from(data, 1)[seen.len() as int].1,
                    needle.spec_bytes(),
                ));
                return Ok(true);
            }
            proof {
                seen = seen.push(item);
                assert(entries_from(data, 1) =~= seen + entries_from(
                    data,
                    nul_from(data, dynstr_index as int) + 1,
                ));
            }
            dynstr_index += entry.len() + 1;
        }
        Ok(false)
    }

    /// Whether an entry of the dynamic table has the tag.
    #[verifier::loop_isolation(false)]
    pub fn dynamic_contains(&mut self, d_tag: i64) -> (r: Result<bool, Error>)
        ensures
            final(self).same_as(old(self)),
            match r {
                Ok(found) => dynamic_of(old(self).image()) matches Ok(table) && found == has_tag(
                    table,
                    d_tag,
                ),
                Err(e) => dynamic_of(old(self).image()) == Err::<Seq<Dyn>, Fault>(e.fault()),
            },
    {
        let section_dynamic = match self.dynamic() {
            Ok(table) => table,
            Err(e) => {
                return Err(e);
            },
        };
        let mut i: usize = 0;
        while i < section_dynamic.len()
            invariant
                i <= section_dynamic.len(),
                forall|k: int| 0 <= k < i ==> section_dynamic@[k].d_tag != d_tag,
            decreases section_dynamic.len() - i,
        {
            if section_dynamic[i].d_tag == d_tag {
                return Ok(true);
            }
            i += 1;
        }
        Ok(false)
    }

    /// The entries of `.dynstr`, each with its offset, scanned from offset
    /// 1 to the table's end. It fails where the table or one of the entries
    /// cannot be read.
    #[verifier::loop_isolation(false)]
    pub fn dynstr_entries(&mut self) -> (r: Result<Vec<(usize, String)>, Error>)
        ensures
            final(self).same_as(old(self)),
            r is Ok <==> strtab_readable(old(self).image(), old(self).shdr_dynstr) && !scan_fails(
                old(self).dynstr_data(),
                1,
            ),
            r matches Ok(entries) ==> entries_view(entries@) == entries_from(
                old(self).dynstr_data(),
                1,
            ),
            r matches Err(e) ==> e is ParseElf,
    {
        let size: u64 = self.shdr_dynstr.sh_size;
        let table = match self.dynstr() {
            Ok(table) => table,
            Err(e) => {
                return Err(e);
            },
        };
        let ghost data = table_bytes(table);
        let mut entries: Vec<(usize, String)> = Vec::new();
        let mut dynstr_index: usize = 1;
        while (dynstr_index as u64) < size
            invariant
                data == table_bytes(table),
                data.len() == size,
                1 <= dynstr_index,
                entries_from(data, 1) == entries_view(entries@) + entries_from(
                    data,
                    dynstr_index as int,
                ),
                scan_fails(data, 1) == scan_fails(data, dynstr_index as int),
            decreases size - dynstr_index,
        {
            let entry = match table.get(dynstr_index) {
                Ok(entry) => entry,
                Err(source) => {
                    return Err(Error::ParseElf { source });
                },
            };
            proof {
                lemma_nul_from(data, dynstr_index as int);
            }
            entries.push((dynstr_index, entry.to_owned()));
            assert(entries_from(data, 1) =~= entries_view(entries@) + entries_from(
                data,
                nul_from(data, dynstr_index as int) + 1,
            ));
            dynstr_index += entry.len() + 1;
        }
        Ok(entries)
    }

    /// The entries of the dynamic table, each with its index.
    #[verifier::loop_isolation(false)]
    pub fn dynamic_entries(&mut self) -> (r: Result<Vec<(usize, i64, u64)>, Error>)
        ensures
            final(self).same_as(old(self)),
            match r {
                Ok(entries) => dynamic_of(old(self).image()) matches Ok(table) && entries@
                    == indexed(table),
                Err(e) => dynamic_of(old(self).image()) == Err::<Seq<Dyn>, Fault>(e.fault()),
            },
    {
        let table = match self.dynamic() {
            Ok(table) => table,
            Err(e) => {
                return Err(e);
            },
        };
        let mut entries: Vec<(usize, i64, u64)> = Vec::new();
        let mut i: usize = 0;
        while i < table.len()
            invariant
                i <= table.len(),
                entries@ == indexed(table@.take(i as int)),
            decreases table.len() - i,
        {
            entries.push((i, table[i].d_tag, table[i].d_val));
            i += 1;
        }
        Ok(entries)
    }

    /// The class of the object.
    pub fn class(&self) -> (class: Class)
        ensures
            class == class_of(self.image()),
    {
        image_class(&self.elf_stream)
    }

    /// The byte order of the object.
    pub fn endianess(&self) -> (endian: AnyEndian)
        ensures
            endian == endianness_of(self.image()),
    {
        image_endianness(&self.elf_stream)
    }
}

} // verus!
