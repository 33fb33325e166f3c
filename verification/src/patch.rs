//! The patch planner and applier.
//!
//! The planner turns a requested interpreter path or runpath into patches:
//! byte strings to be written at absolute file offsets, none of which extends
//! the file. The applier writes a patch set into the object's bytes in order
//! of offset.

use crate::serialize;
use crate::serialize::{
    encode_signed, encode_unsigned, unsigned_in_range, word_width, AnyEndian, ArchSerializer, Class,
};
use crate::sparse_elf;
use crate::sparse_elf::{
    any_contains, class_of, dyn_entry_width, dynamic_of, endianness_of, entries_from, has_tag,
    entries_view, entry_at, entry_readable, find_headers, lemma_nul_from, nul_from, scan_fails,
    section_data, strtab_readable, Dyn, Headers, SectionHeader, SparseElf,
};
use core::num::TryFromIntError;
use elf::ParseError;
use vstd::prelude::*;
use vstd::string::StringSliceAdditionalSpecFns;

verus! {

/// Tag of the entries that end the dynamic table.
pub const DT_NULL: i64 = 0;

/// Tag of the entry that holds the `.dynstr` offset of the library search
/// path.
pub const DT_RUNPATH: i64 = 29;

/// Why a patch could not be planned or applied.
#[derive(Debug)]
#[allow(inconsistent_fields)]
pub enum Error {
    /// A patch does not lie inside the object; `offset` is where it starts.
    SeekElf { offset: usize },
    /// The `elf` reader could not read an entry of `.dynstr`.
    ParseElf { source: ParseError },
    SparseElf { source: sparse_elf::Error },
    IntConversion { source: TryFromIntError },
    Serializing { source: serialize::Error },
    IntegerOverflow,
    NoDynstrReplacementCandidate,
    NoApplicableDynamicEntry,
    CannotFitInterpreterPath { section_size: usize, requested_size: usize },
    /// The object has a `DT_RUNPATH` already; it is not overwritten.
    RunpathAlreadySet,
}

/// The reasons for which planning or applying fails, without the causes that
/// the errors carry.
pub enum Fault {
    SeekElf { offset: usize },
    ParseElf,
    SparseElf { fault: sparse_elf::Fault },
    IntConversion,
    Serializing,
    IntegerOverflow,
    NoDynstrReplacementCandidate,
    NoApplicableDynamicEntry,
    CannotFitInterpreterPath { section_size: usize, requested_size: usize },
    RunpathAlreadySet,
}

impl Error {
    /// The reason that this error reports.
    pub open spec fn fault(self) -> Fault {
        match self {
            Error::SeekElf { offset } => Fault::SeekElf { offset },
            Error::ParseElf { .. } => Fault::ParseElf,
            Error::SparseElf { source } => Fault::SparseElf { fault: source.fault() },
            Error::IntConversion { .. } => Fault::IntConversion,
            Error::Serializing { .. } => Fault::Serializing,
            Error::IntegerOverflow => Fault::IntegerOverflow,
            Error::NoDynstrReplacementCandidate => Fault::NoDynstrReplacementCandidate,
            Error::NoApplicableDynamicEntry => Fault::NoApplicableDynamicEntry,
            Error::CannotFitInterpreterPath { section_size, requested_size } => {
                Fault::CannotFitInterpreterPath { section_size, requested_size }
            },
            Error::RunpathAlreadySet => Fault::RunpathAlreadySet,
        }
    }
}

/// Bytes to be written at an absolute offset of the file.
#[derive(Debug)]
pub struct Patch {
    pub offset: usize,
    pub data: Vec<u8>,
}

impl View for Patch {
    type V = (int, Seq<u8>);

    open spec fn view(&self) -> (int, Seq<u8>) {
        (self.offset as int, self.data@)
    }
}

/// The offsets and bytes of a list of patches.
pub open spec fn patch_views(patches: Seq<Patch>) -> Seq<(int, Seq<u8>)> {
    Seq::new(patches.len(), |i: int| patches[i]@)
}

/// The `.dynstr` entries that may be overwritten: names of symbols that a
/// program only uses when it is linked against the runtime they belong to.
#[derive(Copy, Clone, Debug, PartialEq, Eq, Structural)]
pub enum DynstrPatchCandidates {
    GmonStart,
    ITMDeregisterTMCloneTable,
}

impl DynstrPatchCandidates {
    /// The symbol's name.
    pub open spec fn name(self) -> &'static str {
        match self {
            Self::GmonStart => "__gmon_start__",
            Self::ITMDeregisterTMCloneTable => "_ITM_deregisterTMCloneTable",
        }
    }

    /// The substring of `.dynstr` that shows the symbol's runtime to be
    /// linked, so that the name is in use.
    pub open spec fn runtime_mark(self) -> &'static str {
        match self {
            Self::GmonStart => "mcount",
            Self::ITMDeregisterTMCloneTable => "libitm.so",
        }
    }

    /// The candidate's rank: the smaller, the more preferred.
    pub open spec fn rank(self) -> nat {
        match self {
            Self::ITMDeregisterTMCloneTable => 1,
            Self::GmonStart => 10,
        }
    }

    /// The symbol's name.
    pub fn as_string(&self) -> (name: &'static str)
        ensures
            name == self.name(),
    {
        match self {
            Self::GmonStart => "__gmon_start__",
            Self::ITMDeregisterTMCloneTable => "_ITM_deregisterTMCloneTable",
        }
    }

    /// The candidate's rank: the smaller, the more preferred.
    pub fn priority(&self) -> (rank: u32)
        ensures
            rank == self.rank(),
    {
        match self {
            Self::ITMDeregisterTMCloneTable => 1,
            Self::GmonStart => 10,
        }
    }

    /// All candidates, the most preferred first.
    pub fn by_priority() -> (all: [Self; 2])
        ensures
            all@ == by_rank(),
    {
        let all: [Self; 2] = [Self::ITMDeregisterTMCloneTable, Self::GmonStart];
        assert(all@ =~= by_rank());
        all
    }

    /// The candidates whose runtime `.dynstr` does not show: `GmonStart`
    /// where nothing contains `mcount`, then `ITMDeregisterTMCloneTable` where
    /// nothing contains `libitm.so`.
    pub fn get_valid_candiates(elf: &mut SparseElf) -> (r: Result<Vec<Self>, Error>)
        ensures
            final(elf).same_as(old(elf)),
            r is Ok <==> strtab_readable(old(elf).image(), old(elf).shdr_dynstr) && (!scan_fails(
                old(elf).dynstr_data(),
                1,
            ) || (shows_runtime(entries_from(old(elf).dynstr_data(), 1), Self::GmonStart)
                && shows_runtime(
                entries_from(old(elf).dynstr_data(), 1),
                Self::ITMDeregisterTMCloneTable,
            ))),
            r matches Ok(valid) ==> valid@ == valid_candidates(
                entries_from(old(elf).dynstr_data(), 1),
            ),
            r matches Err(e) ==> e.fault() == (Fault::SparseElf { fault: sparse_elf::Fault::ParseElf }),
    {
        let mut res: Vec<Self> = Vec::new();
        match elf.dynstr_contains("mcount") {
            Ok(found) => {
                if !found {
                    res.push(Self::GmonStart);
                }
            },
            Err(source) => {
                return Err(Error::SparseElf { source });
            },
        }
        match elf.dynstr_contains("libitm.so") {
            Ok(found) => {
                if !found {
                    res.push(Self::ITMDeregisterTMCloneTable);
                }
            },
            Err(source) => {
                return Err(Error::SparseElf { source });
            },
        }
        assert(res@ =~= valid_candidates(entries_from(old(elf).dynstr_data(), 1)));
        Ok(res)
    }
}

/// All candidates in order of rank.
pub open spec fn by_rank() -> Seq<DynstrPatchCandidates> {
    seq![DynstrPatchCandidates::ITMDeregisterTMCloneTable, DynstrPatchCandidates::GmonStart]
}

/// The order of rank names every candidate once, the smaller rank first.
pub proof fn lemma_by_rank()
    ensures
        forall|c: DynstrPatchCandidates| by_rank().contains(c),
        forall|i: int, j: int|
            0 <= i < j < by_rank().len() ==> (#[trigger] by_rank()[i]).rank() < (
            #[trigger] by_rank()[j]).rank(),
{
    assert forall|c: DynstrPatchCandidates| by_rank().contains(c) by {
        match c {
            DynstrPatchCandidates::ITMDeregisterTMCloneTable => {
                assert(by_rank()[0] == c);
            },
            DynstrPatchCandidates::GmonStart => {
                assert(by_rank()[1] == c);
            },
        }
    }
}

/// Whether the entries show the candidate's runtime to be linked.
pub open spec fn shows_runtime(entries: Seq<(int, Seq<u8>)>, c: DynstrPatchCandidates) -> bool {
    any_contains(entries, c.runtime_mark().spec_bytes())
}

/// The candidates that the entries leave safe to overwrite.
pub open spec fn valid_candidates(entries: Seq<(int, Seq<u8>)>) -> Seq<DynstrPatchCandidates> {
    (if shows_runtime(entries, DynstrPatchCandidates::GmonStart) {
        Seq::empty()
    } else {
        seq![DynstrPatchCandidates::GmonStart]
    }) + (if shows_runtime(entries, DynstrPatchCandidates::ITMDeregisterTMCloneTable) {
        Seq::empty()
    } else {
        seq![DynstrPatchCandidates::ITMDeregisterTMCloneTable]
    })
}

/// Index of the first entry from index `i` on whose string is `name`, or the
/// number of entries where there is none.
pub open spec fn first_named(entries: Seq<(int, Seq<u8>)>, name: Seq<u8>, i: int) -> int
    decreases entries.len() - i,
{
    if i < 0 || i >= entries.len() {
        entries.len() as int
    } else if entries[i].1 == name {
        i
    } else {
        first_named(entries, name, i + 1)
    }
}

/// Whether the candidate can take a path of `need` bytes: it is valid, its
/// name is long enough, and the name is one of the entries.
pub open spec fn usable(
    entries: Seq<(int, Seq<u8>)>,
    valid: Seq<DynstrPatchCandidates>,
    need: nat,
    c: DynstrPatchCandidates,
) -> bool {
    &&& valid.contains(c)
    &&& c.name().spec_bytes().len() >= need
    &&& first_named(entries, c.name().spec_bytes(), 0) < entries.len()
}

/// The candidate to overwrite, from the `i`-th in order of rank on: the first
/// usable one.
pub open spec fn best_from(
    entries: Seq<(int, Seq<u8>)>,
    valid: Seq<DynstrPatchCandidates>,
    need: nat,
    i: int,
) -> Option<DynstrPatchCandidates>
    decreases by_rank().len() - i,
{
    if i < 0 || i >= by_rank().len() {
        None
    } else if usable(entries, valid, need, by_rank()[i]) {
        Some(by_rank()[i])
    } else {
        best_from(entries, valid, need, i + 1)
    }
}

/// The entry to overwrite with a path of `need` bytes: the candidate and the
/// offset in `.dynstr` of the first entry with its name.
pub open spec fn victim_of(
    entries: Seq<(int, Seq<u8>)>,
    valid: Seq<DynstrPatchCandidates>,
    need: nat,
) -> Option<(DynstrPatchCandidates, int)> {
    match best_from(entries, valid, need, 0) {
        Some(c) => Some((c, entries[first_named(entries, c.name().spec_bytes(), 0)].0)),
        None => None,
    }
}

/// Whether both byte strings are the same.
pub fn bytes_equal(a: &[u8], b: &[u8]) -> (same: bool)
    ensures
        same == (a@ == b@),
{
    if a.len() != b.len() {
        return false;
    }
    let mut i: usize = 0;
    while i < a.len()
        invariant
            a.len() == b.len(),
            i <= a.len(),
            forall|k: int| 0 <= k < i ==> a@[k] == b@[k],
        decreases a.len() - i,
    {
        if a[i] != b[i] {
            return false;
        }
        i += 1;
    }
    assert(a@ =~= b@);
    true
}

/// The offset of the first entry whose string is `name`.
pub fn find_entry(entries: &Vec<(usize, String)>, name: &str) -> (r: Option<usize>)
    ensures
        match r {
            Some(offset) => {
                &&& first_named(entries_view(entries@), name.spec_bytes(), 0) < entries.len()
                &&& offset == entries_view(entries@)[first_named(
                    entries_view(entries@),
                    name.spec_bytes(),
                    0,
                )].0
            },
            None => first_named(entries_view(entries@), name.spec_bytes(), 0) == entries.len(),
        },
{
    let mut i: usize = 0;
    while i < entries.len()
        invariant
            i <= entries.len(),
            first_named(entries_view(entries@), name.spec_bytes(), 0) == first_named(
                entries_view(entries@),
                name.spec_bytes(),
                i as int,
            ),
        decreases entries.len() - i,
    {
        if bytes_equal(entries[i].1.as_str().as_bytes(), name.as_bytes()) {
            return Some(entries[i].0);
        }
        i += 1;
    }
    None
}

/// Whether the candidate is in the list.
pub fn is_valid(valid: &Vec<DynstrPatchCandidates>, c: DynstrPatchCandidates) -> (r: bool)
    ensures
        r == valid@.contains(c),
{
    let mut i: usize = 0;
    while i < valid.len()
        invariant
            i <= valid.len(),
            forall|k: int| 0 <= k < i ==> valid@[k] != c,
        decreases valid.len() - i,
    {
        if valid[i] == c {
            return true;
        }
        i += 1;
    }
    false
}

/// Picks the entry to overwrite with a path of `need` bytes: among the valid
/// candidates whose name is long enough and occurs in `entries`, the one of
/// the smallest rank, at its first occurrence.
pub fn choose_victim(
    entries: &Vec<(usize, String)>,
    valid: &Vec<DynstrPatchCandidates>,
    need: usize,
) -> (r: Option<(DynstrPatchCandidates, usize)>)
    ensures
        match r {
            Some((c, offset)) => victim_of(entries_view(entries@), valid@, need as nat) == Some(
                (c, offset as int),
            ),
            None => victim_of(entries_view(entries@), valid@, need as nat) is None,
        },
{
    let order = DynstrPatchCandidates::by_priority();
    let mut i: usize = 0;
    while i < 2
        invariant
            i <= 2,
            order@ == by_rank(),
            best_from(entries_view(entries@), valid@, need as nat, 0) == best_from(
                entries_view(entries@),
                valid@,
                need as nat,
                i as int,
            ),
        decreases 2 - i,
    {
        let c = order[i];
        if is_valid(valid, c) && c.as_string().as_bytes().len() >= need {
            match find_entry(entries, c.as_string()) {
                Some(offset) => {
                    return Some((c, offset));
                },
                None => {},
            }
        }
        i += 1;
    }
    None
}

/// Index of the first entry from index `i` on that has the tag, or the
/// number of entries where there is none.
pub open spec fn first_tagged(table: Seq<Dyn>, d_tag: i64, i: int) -> int
    decreases table.len() - i,
{
    if i < 0 || i >= table.len() {
        table.len() as int
    } else if table[i].d_tag == d_tag {
        i
    } else {
        first_tagged(table, d_tag, i + 1)
    }
}

/// Index of the first entry from index `i` on that has the value, or the
/// number of entries where there is none.
pub open spec fn first_valued(table: Seq<Dyn>, d_val: u64, i: int) -> int
    decreases table.len() - i,
{
    if i < 0 || i >= table.len() {
        table.len() as int
    } else if table[i].d_val == d_val {
        i
    } else {
        first_valued(table, d_val, i + 1)
    }
}

/// The slot of the dynamic table that takes the new entry. Where an entry
/// follows the first `DT_NULL`, it is that `DT_NULL`: a spare terminator.
/// Where the first `DT_NULL` is the table's last entry, it is the first
/// entry whose value is `victim`, the offset of the overwritten string.
pub open spec fn slot_of(table: Seq<Dyn>, victim: u64) -> Option<int> {
    let k = first_tagged(table, DT_NULL, 0);
    let m = first_valued(table, victim, 0);
    if k >= table.len() {
        None
    } else if k + 1 < table.len() {
        Some(k)
    } else if m < table.len() {
        Some(m)
    } else {
        None
    }
}

/// Picks the slot of the dynamic table that takes the new entry.
pub fn choose_slot(table: &Vec<Dyn>, victim: u64) -> (r: Option<usize>)
    ensures
        match r {
            Some(slot) => slot_of(table@, victim) == Some(slot as int),
            None => slot_of(table@, victim) is None,
        },
{
    let mut k: usize = 0;
    while k < table.len() && table[k].d_tag != DT_NULL
        invariant
            k <= table.len(),
            first_tagged(table@, DT_NULL, 0) == first_tagged(table@, DT_NULL, k as int),
        decreases table.len() - k,
    {
        k += 1;
    }
    if k >= table.len() {
        return None;
    }
    if k + 1 < table.len() {
        return Some(k);
    }
    let mut m: usize = 0;
    while m < table.len() && table[m].d_val != victim
        invariant
            m <= table.len(),
            first_valued(table@, victim, 0) == first_valued(table@, victim, m as int),
        decreases table.len() - m,
    {
        m += 1;
    }
    if m < table.len() {
        Some(m)
    } else {
        None
    }
}

/// The path followed by the NUL that ends it.
pub fn with_nul(path: &[u8]) -> (data: Vec<u8>)
    ensures
        data@ == path@.push(0),
{
    let mut data: Vec<u8> = Vec::new();
    let mut i: usize = 0;
    while i < path.len()
        invariant
            i <= path.len(),
            data@ == path@.take(i as int),
        decreases path.len() - i,
    {
        data.push(path[i]);
        assert(data@ =~= path@.take(i + 1));
        i += 1;
    }
    assert(path@.take(i as int) =~= path@);
    data.push(0);
    data
}

/// The bytes of `head` followed by the bytes of `tail`.
pub fn joined(head: &[u8], tail: &[u8]) -> (data: Vec<u8>)
    ensures
        data@ == head@ + tail@,
{
    let mut data: Vec<u8> = Vec::new();
    let mut i: usize = 0;
    while i < head.len()
        invariant
            i <= head.len(),
            data@ == head@.take(i as int),
        decreases head.len() - i,
    {
        data.push(head[i]);
        assert(data@ =~= head@.take(i + 1));
        i += 1;
    }
    let mut j: usize = 0;
    while j < tail.len()
        invariant
            i == head.len(),
            j <= tail.len(),
            data@ == head@.take(i as int) + tail@.take(j as int),
        decreases tail.len() - j,
    {
        data.push(tail[j]);
        assert(data@ =~= head@.take(i as int) + tail@.take(j + 1));
        j += 1;
    }
    assert(head@.take(i as int) =~= head@);
    assert(tail@.take(j as int) =~= tail@);
    data
}

/// The patch that sets the interpreter: the path and its NUL at the start of
/// `.interp`, where both fit the section.
pub open spec fn interp_plan(shdr: SectionHeader, path: Seq<u8>) -> Result<(int, Seq<u8>), Fault> {
    if shdr.sh_size > usize::MAX {
        Err(Fault::IntConversion)
    } else if path.len() + 1 > shdr.sh_size {
        Err(
            Fault::CannotFitInterpreterPath {
                section_size: shdr.sh_size as usize,
                requested_size: path.len() as usize,
            },
        )
    } else if shdr.sh_offset > usize::MAX {
        Err(Fault::IntConversion)
    } else {
        Ok((shdr.sh_offset as int, path.push(0)))
    }
}

/// The first phase of setting the runpath: the offset in `.dynstr` of the
/// string to overwrite, and the patch that puts the path and its NUL there.
/// The table is scanned for the marks of the two runtimes, each scan up to
/// the mark, and then for the names, to its end.
pub open spec fn dynstr_plan(image: Seq<u8>, shdr: SectionHeader, path: Seq<u8>) -> Result<
    (int, (int, Seq<u8>)),
    Fault,
> {
    let data = section_data(image, shdr);
    let entries = entries_from(data, 1);
    if !strtab_readable(image, shdr) {
        Err(Fault::SparseElf { fault: sparse_elf::Fault::ParseElf })
    } else if scan_fails(data, 1) {
        if shows_runtime(entries, DynstrPatchCandidates::GmonStart) && shows_runtime(
            entries,
            DynstrPatchCandidates::ITMDeregisterTMCloneTable,
        ) {
            Err(Fault::ParseElf)
        } else {
            Err(Fault::SparseElf { fault: sparse_elf::Fault::ParseElf })
        }
    } else {
        match victim_of(entries, valid_candidates(entries), path.len()) {
            None => Err(Fault::NoDynstrReplacementCandidate),
            Some((_, victim)) => Ok((victim, (shdr.sh_offset + victim, path.push(0)))),
        }
    }
}

/// The second phase of setting the runpath: the patch that writes a
/// `DT_RUNPATH` entry with the value `victim` into its slot of the dynamic
/// table. `table` is the table as it was read, if it could be; `sh_offset`
/// is where `.dynamic` starts in the file; entries are as wide as `class`
/// says, and the entry's two words are written as wide as `word` says, in
/// the byte order `order`.
pub open spec fn dynamic_plan(
    table: Result<Seq<Dyn>, sparse_elf::Fault>,
    sh_offset: u64,
    victim: u64,
    class: Class,
    word: Class,
    order: AnyEndian,
) -> Result<(int, Seq<u8>), Fault> {
    if sh_offset > usize::MAX {
        Err(Fault::IntConversion)
    } else if table is Err {
        Err(Fault::SparseElf { fault: table->Err_0 })
    } else {
        match slot_of(table->Ok_0, victim) {
            None => Err(Fault::NoApplicableDynamicEntry),
            Some(slot) => {
                let at = slot * dyn_entry_width(class);
                if at > usize::MAX || sh_offset + at > usize::MAX {
                    Err(Fault::IntegerOverflow)
                } else if !unsigned_in_range(victim as int, word_width(word)) {
                    Err(Fault::Serializing)
                } else {
                    Ok(
                        (
                            sh_offset + at,
                            encode_signed(DT_RUNPATH as int, word_width(word), order)
                                + encode_unsigned(victim as int, word_width(word), order),
                        ),
                    )
                }
            },
        }
    }
}

/// The candidate whose name the first phase of setting the runpath
/// overwrites, where it finds one.
pub open spec fn overwritten_by(image: Seq<u8>, shdr: SectionHeader, path: Seq<u8>) -> Option<
    DynstrPatchCandidates,
> {
    let entries = entries_from(section_data(image, shdr), 1);
    match victim_of(entries, valid_candidates(entries), path.len()) {
        Some((c, _)) => if dynstr_plan(image, shdr, path) is Ok {
            Some(c)
        } else {
            None
        },
        None => None,
    }
}

/// The patches that set the runpath of an object that has none yet: first
/// the one for `.dynstr`, then the one for the dynamic table, which points
/// at the string that the first overwrites. `table` is the dynamic table as
/// it was read, if it could be. An object whose table holds a `DT_RUNPATH`
/// gets no patch.
pub open spec fn runpath_plan(
    image: Seq<u8>,
    shdr_dynstr: SectionHeader,
    table: Result<Seq<Dyn>, sparse_elf::Fault>,
    shdr_dynamic: SectionHeader,
    path: Seq<u8>,
    word: Class,
    order: AnyEndian,
) -> Result<Seq<(int, Seq<u8>)>, Fault> {
    if table is Err {
        Err(Fault::SparseElf { fault: table->Err_0 })
    } else if has_tag(table->Ok_0, DT_RUNPATH) {
        Err(Fault::RunpathAlreadySet)
    } else {
        match dynstr_plan(image, shdr_dynstr, path) {
            Err(fault) => Err(fault),
            Ok((victim, first)) => match dynamic_plan(
                table,
                shdr_dynamic.sh_offset,
                victim as u64,
                class_of(image),
                word,
                order,
            ) {
                Err(fault) => Err(fault),
                Ok(second) => Ok(seq![first, second]),
            },
        }
    }
}

/// Every scanned entry starts at or behind the scan's start, is the string
/// read at its offset, and ends with its NUL inside the table.
pub proof fn lemma_entries_from(data: Seq<u8>, from: int, k: int)
    requires
        0 <= k < entries_from(data, from).len(),
    ensures
        from <= entries_from(data, from)[k].0,
        entries_from(data, from)[k].0 + entries_from(data, from)[k].1.len() < data.len(),
        entries_from(data, from)[k].1 == entry_at(data, entries_from(data, from)[k].0),
        entry_readable(data, entries_from(data, from)[k].0),
    decreases data.len() - from,
{
    lemma_nul_from(data, from);
    if k > 0 {
        lemma_entries_from(data, nul_from(data, from) + 1, k - 1);
    }
}

/// The first entry with the name lies at or behind the start of the search
/// and has the name; no entry between the two has it.
pub proof fn lemma_first_named(entries: Seq<(int, Seq<u8>)>, name: Seq<u8>, i: int)
    requires
        0 <= i <= entries.len(),
    ensures
        i <= first_named(entries, name, i) <= entries.len(),
        first_named(entries, name, i) < entries.len() ==> entries[first_named(
            entries,
            name,
            i,
        )].1 == name,
        forall|k: int| i <= k < first_named(entries, name, i) ==> entries[k].1 != name,
    decreases entries.len() - i,
{
    if i < entries.len() && entries[i].1 != name {
        lemma_first_named(entries, name, i + 1);
    }
}

/// The choice among the candidates from the `i`-th in order of rank on is
/// usable, and no candidate between the `i`-th and the choice is.
pub proof fn lemma_best_from(
    entries: Seq<(int, Seq<u8>)>,
    valid: Seq<DynstrPatchCandidates>,
    need: nat,
    i: int,
)
    requires
        0 <= i <= by_rank().len(),
    ensures
        match best_from(entries, valid, need, i) {
            Some(c) => {
                &&& usable(entries, valid, need, c)
                &&& exists|j: int|
                    i <= j < by_rank().len() && by_rank()[j] == c && forall|k: int|
                        i <= k < j ==> !usable(entries, valid, need, #[trigger] by_rank()[k])
            },
            None => forall|k: int|
                i <= k < by_rank().len() ==> !usable(entries, valid, need, #[trigger] by_rank()[k]),
        },
    decreases by_rank().len() - i,
{
    if i < by_rank().len() && !usable(entries, valid, need, by_rank()[i]) {
        lemma_best_from(entries, valid, need, i + 1);
        if best_from(entries, valid, need, i) is Some {
            let c = best_from(entries, valid, need, i)->0;
            let j = choose|j: int|
                i + 1 <= j < by_rank().len() && by_rank()[j] == c && forall|k: int|
                    i + 1 <= k < j ==> !usable(entries, valid, need, #[trigger] by_rank()[k]);
            assert(i <= j < by_rank().len() && by_rank()[j] == c && forall|k: int|
                i <= k < j ==> !usable(entries, valid, need, #[trigger] by_rank()[k]));
        }
    } else if i < by_rank().len() {
        assert(by_rank()[i] == best_from(entries, valid, need, i)->0);
    }
}

/// Whether the patch lies inside a file of `len` bytes.
pub open spec fn inside(patch: (int, Seq<u8>), len: nat) -> bool {
    0 <= patch.0 && patch.0 + patch.1.len() <= len
}

/// Whether every patch lies inside a file of `len` bytes.
pub open spec fn all_inside(patches: Seq<(int, Seq<u8>)>, len: nat) -> bool {
    forall|i: int| 0 <= i < patches.len() ==> inside(#[trigger] patches[i], len)
}

/// Whether two patches have no byte of the file in common.
pub open spec fn apart(a: (int, Seq<u8>), b: (int, Seq<u8>)) -> bool {
    a.0 + a.1.len() <= b.0 || b.0 + b.1.len() <= a.0
}

/// Whether no two of the patches overlap.
pub open spec fn pairwise_apart(patches: Seq<(int, Seq<u8>)>) -> bool {
    forall|i: int, j: int|
        0 <= i < j < patches.len() ==> apart(#[trigger] patches[i], #[trigger] patches[j])
}

/// The bytes of a file after the patch is written into it.
pub open spec fn written(image: Seq<u8>, patch: (int, Seq<u8>)) -> Seq<u8> {
    image.subrange(0, patch.0) + patch.1 + image.subrange(
        patch.0 + patch.1.len(),
        image.len() as int,
    )
}

/// The bytes of a file after the patches are written into it one after the
/// other.
pub open spec fn applied(image: Seq<u8>, patches: Seq<(int, Seq<u8>)>) -> Seq<u8>
    decreases patches.len(),
{
    if patches.len() == 0 {
        image
    } else {
        written(applied(image, patches.drop_last()), patches.last())
    }
}

/// Index of the first patch from index `i` on that does not lie inside a
/// file of `len` bytes, or the number of patches where all do.
pub open spec fn first_outside(patches: Seq<(int, Seq<u8>)>, len: nat, i: int) -> int
    decreases patches.len() - i,
{
    if i < 0 || i >= patches.len() {
        patches.len() as int
    } else if !inside(patches[i], len) {
        i
    } else {
        first_outside(patches, len, i + 1)
    }
}

/// Index of the first patch from index `i` on that starts at or behind
/// `offset`, or the number of patches where none does.
pub open spec fn first_not_before(patches: Seq<(int, Seq<u8>)>, offset: int, i: int) -> int
    decreases patches.len() - i,
{
    if i < 0 || i >= patches.len() {
        patches.len() as int
    } else if patches[i].0 >= offset {
        i
    } else {
        first_not_before(patches, offset, i + 1)
    }
}

/// The patches in order of offset, those of one offset in the order in
/// which they were planned.
pub open spec fn ordered(patches: Seq<(int, Seq<u8>)>) -> Seq<(int, Seq<u8>)>
    decreases patches.len(),
{
    if patches.len() == 0 {
        Seq::empty()
    } else {
        let rest = ordered(patches.drop_first());
        rest.insert(first_not_before(rest, patches[0].0, 0), patches[0])
    }
}

/// Whether the offsets of the patches never fall.
pub open spec fn ascending(patches: Seq<(int, Seq<u8>)>) -> bool {
    forall|i: int, j: int|
        0 <= i <= j < patches.len() ==> (#[trigger] patches[i]).0 <= (#[trigger] patches[j]).0
}

/// The first patch that starts at or behind `offset` lies at or behind the
/// start of the search; every patch between the two starts before `offset`.
pub proof fn lemma_first_not_before(patches: Seq<(int, Seq<u8>)>, offset: int, i: int)
    requires
        0 <= i <= patches.len(),
    ensures
        i <= first_not_before(patches, offset, i) <= patches.len(),
        first_not_before(patches, offset, i) < patches.len() ==> patches[first_not_before(
            patches,
            offset,
            i,
        )].0 >= offset,
        forall|k: int| i <= k < first_not_before(patches, offset, i) ==> patches[k].0 < offset,
    decreases patches.len() - i,
{
    if i < patches.len() && patches[i].0 < offset {
        lemma_first_not_before(patches, offset, i + 1);
    }
}

/// Ordering keeps every patch, as often as it was planned, and leaves the
/// offsets ascending.
pub proof fn lemma_ordered(patches: Seq<(int, Seq<u8>)>)
    ensures
        ordered(patches).len() == patches.len(),
        ordered(patches).to_multiset() == patches.to_multiset(),
        ascending(ordered(patches)),
    decreases patches.len(),
{
    if patches.len() > 0 {
        let rest = ordered(patches.drop_first());
        let at = first_not_before(rest, patches[0].0, 0);
        lemma_ordered(patches.drop_first());
        lemma_first_not_before(rest, patches[0].0, 0);
        let sorted = rest.insert(at, patches[0]);
        assert forall|i: int, j: int| 0 <= i <= j < sorted.len() implies (#[trigger] sorted[i]).0
            <= (#[trigger] sorted[j]).0 by {
            if i < at && j > at {
                assert(sorted[i] == rest[i]);
                assert(sorted[j] == rest[j - 1]);
            } else if i > at {
                assert(sorted[i] == rest[i - 1]);
                assert(sorted[j] == rest[j - 1]);
            } else if j < at {
                assert(sorted[i] == rest[i]);
                assert(sorted[j] == rest[j]);
            } else if i == at && j > at {
                assert(sorted[j] == rest[j - 1]);
            } else if i < at && j == at {
                assert(sorted[i] == rest[i]);
            }
        }
        vstd::seq_lib::to_multiset_insert(rest, at, patches[0]);
        vstd::seq_lib::to_multiset_insert(patches.drop_first(), 0, patches[0]);
        assert(patches.drop_first().insert(0, patches[0]) =~= patches);
    } else {
        assert(ordered(patches) =~= patches);
    }
}

/// The first patch outside the file lies at or behind the start of the
/// search and is outside; every patch between the two is inside.
pub proof fn lemma_first_outside(patches: Seq<(int, Seq<u8>)>, len: nat, i: int)
    requires
        0 <= i <= patches.len(),
    ensures
        i <= first_outside(patches, len, i) <= patches.len(),
        first_outside(patches, len, i) < patches.len() ==> !inside(
            patches[first_outside(patches, len, i)],
            len,
        ),
        forall|k: int| i <= k < first_outside(patches, len, i) ==> inside(patches[k], len),
    decreases patches.len() - i,
{
    if i < patches.len() && inside(patches[i], len) {
        lemma_first_outside(patches, len, i + 1);
    }
}

/// Whether a patch starts at `offset`.
pub open spec fn starts_at(offset: int) -> spec_fn((int, Seq<u8>)) -> bool {
    |patch: (int, Seq<u8>)| patch.0 == offset
}

/// Ordering is stable: the patches that start at one offset stand in the
/// order in which they were planned.
pub proof fn lemma_ordered_stable(patches: Seq<(int, Seq<u8>)>, offset: int)
    ensures
        ordered(patches).filter(starts_at(offset)) == patches.filter(starts_at(offset)),
    decreases patches.len(),
{
    let here = starts_at(offset);
    if patches.len() > 0 {
        let first = patches[0];
        let tail = patches.drop_first();
        let rest = ordered(tail);
        let at = first_not_before(rest, first.0, 0);
        lemma_ordered_stable(tail, offset);
        lemma_ordered(tail);
        lemma_first_not_before(rest, first.0, 0);
        let head = rest.subrange(0, at);
        let back = rest.subrange(at, rest.len() as int);
        assert(rest =~= head + back);
        assert(rest.insert(at, first) =~= (head + seq![first]) + back);
        assert(patches =~= seq![first] + tail);
        Seq::filter_distributes_over_add(head, back, here);
        Seq::filter_distributes_over_add(head + seq![first], back, here);
        Seq::filter_distributes_over_add(head, seq![first], here);
        Seq::filter_distributes_over_add(seq![first], tail, here);
        if first.0 == offset {
            assert(head.all(|patch: (int, Seq<u8>)| !here(patch))) by {
                assert forall|i: int| 0 <= i < head.len() implies !here(#[trigger] head[i]) by {
                    assert(head[i] == rest[i]);
                }
            }
            head.lemma_all_neg_filter_empty(here);
            assert(head.filter(here) =~= Seq::empty());
            assert(head.filter(here) + seq![first].filter(here) + back.filter(here) =~= seq![
                first,
            ].filter(here) + (head.filter(here) + back.filter(here)));
        } else {
            assert(seq![first].filter(here) =~= Seq::empty()) by {
                reveal_with_fuel(Seq::filter, 2);
                assert(seq![first].drop_last() =~= Seq::<(int, Seq<u8>)>::empty());
            }
            assert(head.filter(here) + seq![first].filter(here) + back.filter(here) =~= seq![
                first,
            ].filter(here) + (head.filter(here) + back.filter(here)));
        }
    } else {
        assert(ordered(patches) =~= patches);
    }
}

/// Ordering neither drops a patch nor makes one up.
pub proof fn lemma_ordered_members(patches: Seq<(int, Seq<u8>)>)
    ensures
        forall|i: int|
            0 <= i < ordered(patches).len() ==> patches.contains(#[trigger] ordered(patches)[i]),
        forall|i: int| 0 <= i < patches.len() ==> ordered(patches).contains(#[trigger] patches[i]),
{
    let sorted = ordered(patches);
    lemma_ordered(patches);
    assert forall|i: int| 0 <= i < sorted.len() implies patches.contains(#[trigger] sorted[i]) by {
        vstd::seq_lib::to_multiset_contains(sorted, sorted[i]);
        vstd::seq_lib::to_multiset_contains(patches, sorted[i]);
        assert(sorted.contains(sorted[i]));
    }
    assert forall|i: int| 0 <= i < patches.len() implies sorted.contains(#[trigger] patches[i]) by {
        vstd::seq_lib::to_multiset_contains(sorted, patches[i]);
        vstd::seq_lib::to_multiset_contains(patches, patches[i]);
        assert(patches.contains(patches[i]));
    }
}

/// All patches lie inside the file exactly if all do once they are ordered,
/// and then none of the ordered ones is the first outside.
pub proof fn lemma_all_inside_ordered(patches: Seq<(int, Seq<u8>)>, len: nat)
    ensures
        all_inside(patches, len) <==> all_inside(ordered(patches), len),
        all_inside(patches, len) <==> first_outside(ordered(patches), len, 0) == patches.len(),
{
    let sorted = ordered(patches);
    lemma_ordered(patches);
    lemma_ordered_members(patches);
    lemma_first_outside(sorted, len, 0);
    if all_inside(patches, len) {
        assert forall|i: int| 0 <= i < sorted.len() implies inside(#[trigger] sorted[i], len) by {
            assert(patches.contains(sorted[i]));
        }
    }
    if all_inside(sorted, len) {
        assert forall|i: int| 0 <= i < patches.len() implies inside(#[trigger] patches[i], len) by {
            assert(sorted.contains(patches[i]));
        }
    }
}

/// Puts the patches in order of offset; patches of one offset keep the
/// order in which they stand.
pub fn sort_patches(patches: &mut Vec<Patch>)
    ensures
        patch_views(final(patches)@) == ordered(patch_views(old(patches)@)),
{
    let ghost plan = patch_views(patches@);
    let mut sorted: Vec<Patch> = Vec::new();
    assert(plan.skip(plan.len() as int) =~= Seq::empty());
    while patches.len() > 0
        invariant
            patches@.len() <= plan.len(),
            patch_views(patches@) == plan.take(patches@.len() as int),
            patch_views(sorted@) == ordered(plan.skip(patches@.len() as int)),
        decreases patches@.len(),
    {
        let ghost left = patches@.len() as int;
        let patch = patches.pop().unwrap();
        let ghost rest = patch_views(sorted@);
        assert(patch@ == plan[left - 1]) by {
            assert(plan.take(left)[left - 1] == plan[left - 1]);
        }
        let mut at: usize = 0;
        while at < sorted.len() && sorted[at].offset < patch.offset
            invariant
                at <= sorted.len(),
                rest == patch_views(sorted@),
                first_not_before(rest, patch.offset as int, 0) == first_not_before(
                    rest,
                    patch.offset as int,
                    at as int,
                ),
            decreases sorted.len() - at,
        {
            at += 1;
        }
        sorted.insert(at, patch);
        proof {
            assert(patch_views(sorted@) =~= rest.insert(at as int, plan[left - 1]));
            assert(plan.skip(left - 1).drop_first() =~= plan.skip(left));
            assert(patch_views(patches@) =~= plan.take(left - 1));
        }
    }
    assert(plan.skip(0) =~= plan);
    *patches = sorted;
}

/// Writes the patch into the bytes of the file.
#[verifier::loop_isolation(false)]
fn write_patch(image: &mut Vec<u8>, patch: &Patch)
    requires
        inside(patch@, old(image)@.len()),
    ensures
        final(image)@ == written(old(image)@, patch@),
{
    let len: usize = image.len();
    let mut j: usize = 0;
    while j < patch.data.len()
        invariant
            j <= patch.data.len(),
            inside(patch@, old(image)@.len()),
            image@.len() == old(image)@.len(),
            image@ == old(image)@.subrange(0, patch.offset as int) + patch.data@.take(j as int)
                + old(image)@.subrange(patch.offset + j, old(image)@.len() as int),
        decreases patch.data.len() - j,
    {
        image.set(patch.offset + j, patch.data[j]);
        assert(image@ =~= old(image)@.subrange(0, patch.offset as int) + patch.data@.take(j + 1)
            + old(image)@.subrange(patch.offset + j + 1, old(image)@.len() as int));
        j += 1;
    }
    assert(patch.data@.take(j as int) =~= patch.data@);
}

/// Plans patches for one ELF object.
pub struct Patcher {
    pub elf: SparseElf,
    pub patches: Vec<Patch>,
    pub serializer: ArchSerializer,
    /// The candidate whose name in `.dynstr` the plan overwrites, once a
    /// runpath is planned.
    pub overwritten: Option<DynstrPatchCandidates>,
}

impl Patcher {
    /// The offsets and bytes of the patches planned so far.
    pub open spec fn plan(&self) -> Seq<(int, Seq<u8>)> {
        patch_views(self.patches@)
    }

    /// Whether the planner is well formed: the serializer has the class and
    /// byte order of the object. `new` makes it so, and every method keeps
    /// it so.
    pub open spec fn wf(&self) -> bool {
        &&& self.serializer.class() == class_of(self.elf.image())
        &&& self.serializer.endianness() == endianness_of(self.elf.image())
    }

    /// Whether `self` is `before` with nothing but new patches: the same
    /// object and the same serializer.
    pub open spec fn plans_on(&self, before: &Self) -> bool {
        &&& self.elf.same_as(&before.elf)
        &&& self.serializer == before.serializer
    }

    /// A planner with no patches over the object that the bytes hold.
    pub fn new(image: Vec<u8>) -> (r: Result<Self, Error>)
        ensures
            match r {
                Ok(patcher) => {
                    &&& patcher.elf.image() == image@
                    &&& find_headers(image@) == Ok::<Headers, sparse_elf::Fault>(
                        patcher.elf.headers(),
                    )
                    &&& patcher.patches@.len() == 0
                    &&& patcher.overwritten is None
                    &&& patcher.wf()
                },
                Err(e) => find_headers(image@) matches Err(fault) && e.fault() == (
                    Fault::SparseElf { fault }),
            },
    {
        let elf = match SparseElf::new(image) {
            Ok(elf) => elf,
            Err(source) => {
                return Err(Error::SparseElf { source });
            },
        };
        let serializer = ArchSerializer::new(elf.class(), elf.endianess());
        Ok(Self { elf, patches: Vec::new(), serializer, overwritten: None })
    }

    /// Whether no patch has been planned.
    pub fn is_empty(&self) -> (empty: bool)
        ensures
            empty == (self.plan().len() == 0),
    {
        self.patches.is_empty()
    }

    /// Adds a patch to the plan.
    fn add_patch(&mut self, offset: usize, data: Vec<u8>)
        ensures
            final(self).plans_on(old(self)),
            old(self).wf() ==> final(self).wf(),
            final(self).plan() == old(self).plan().push((offset as int, data@)),
            final(self).overwritten == old(self).overwritten,
    {
        self.patches.push(Patch { offset, data });
        assert(self.plan() =~= old(self).plan().push((offset as int, data@)));
    }

    /// Puts the patches in order of offset and writes them into the bytes
    /// of the file, one after the other. The file keeps its length. The
    /// first patch that does not lie inside the file stops the work: the
    /// patches before it are written, and the error gives its offset.
    #[verifier::loop_isolation(false)]
    pub fn apply(&mut self, image: &mut Vec<u8>) -> (r: Result<(), Error>)
        ensures
            final(self).plans_on(old(self)),
            old(self).wf() ==> final(self).wf(),
            final(self).plan() == ordered(old(self).plan()),
            final(self).overwritten == old(self).overwritten,
            final(image)@.len() == old(image)@.len(),
            final(image)@ == applied(
                old(image)@,
                ordered(old(self).plan()).take(
                    first_outside(ordered(old(self).plan()), old(image)@.len(), 0),
                ),
            ),
            r is Ok <==> all_inside(old(self).plan(), old(image)@.len()),
            r matches Err(e) ==> e.fault() == (Fault::SeekElf {
                offset: ordered(old(self).plan())[first_outside(
                    ordered(old(self).plan()),
                    old(image)@.len(),
                    0,
                )].0 as usize,
            }),
    {
        sort_patches(&mut self.patches);
        let ghost plan = self.plan();
        let ghost len = image@.len();
        proof {
            lemma_all_inside_ordered(old(self).plan(), len);
        }
        let mut i: usize = 0;
        while i < self.patches.len()
            invariant
                i <= self.patches.len(),
                self.plan() == plan,
                self.plans_on(old(self)),
                image@.len() == len,
                first_outside(plan, len, 0) == first_outside(plan, len, i as int),
                image@ == applied(old(image)@, plan.take(i as int)),
            decreases self.patches.len() - i,
        {
            let patch = &self.patches[i];
            assert(patch@ == plan[i as int]);
            if patch.offset > image.len() || patch.data.len() > image.len() - patch.offset {
                proof {
                    lemma_first_outside(plan, len, 0);
                }
                return Err(Error::SeekElf { offset: patch.offset });
            }
            write_patch(image, patch);
            assert(plan.take(i + 1).drop_last() =~= plan.take(i as int));
            i += 1;
        }
        proof {
            lemma_first_outside(plan, len, 0);
        }
        Ok(())
    }

    /// Plans the patch that makes `new_interpreter_path` the interpreter. The
    /// path and its NUL must fit `.interp`; what the section holds behind
    /// them stays.
    pub fn set_interpreter_path(&mut self, new_interpreter_path: &str) -> (r: Result<(), Error>)
        ensures
            final(self).plans_on(old(self)),
            old(self).wf() ==> final(self).wf(),
            final(self).overwritten == old(self).overwritten,
            match interp_plan(old(self).elf.shdr_interp, new_interpreter_path.spec_bytes()) {
                Ok(patch) => r is Ok && final(self).plan() == old(self).plan().push(patch),
                Err(fault) => {
                    &&& r matches Err(e)
                    &&& e.fault() == fault
                    &&& final(self).plan() == old(self).plan()
                },
            },
    {
        let path = new_interpreter_path.as_bytes();
        let interp_sh_size = match usize::try_from(self.elf.shdr_interp.sh_size) {
            Ok(size) => size,
            Err(source) => {
                return Err(Error::IntConversion { source });
            },
        };
        if interp_sh_size <= path.len() {
            return Err(
                Error::CannotFitInterpreterPath {
                    section_size: interp_sh_size,
                    requested_size: path.len(),
                },
            );
        }
        let interp_sh_offset = match usize::try_from(self.elf.shdr_interp.sh_offset) {
            Ok(offset) => offset,
            Err(source) => {
                return Err(Error::IntConversion { source });
            },
        };
        self.add_patch(interp_sh_offset, with_nul(path));
        Ok(())
    }

    /// Plans both patches that make `new_runpath` the runpath, or none. An
    /// object whose dynamic table holds a `DT_RUNPATH` is refused with
    /// `RunpathAlreadySet`, and nothing is planned.
    pub fn set_runpath(&mut self, new_runpath: &str) -> (r: Result<(), Error>)
        ensures
            final(self).plans_on(old(self)),
            old(self).wf() ==> final(self).wf(),
            final(self).overwritten == if r is Ok {
                overwritten_by(
                    old(self).elf.image(),
                    old(self).elf.shdr_dynstr,
                    new_runpath.spec_bytes(),
                )
            } else {
                old(self).overwritten
            },
            match runpath_plan(
                old(self).elf.image(),
                old(self).elf.shdr_dynstr,
                dynamic_of(old(self).elf.image()),
                old(self).elf.shdr_dynamic,
                new_runpath.spec_bytes(),
                old(self).serializer.class(),
                old(self).serializer.endianness(),
            ) {
                Ok(patches) => r is Ok && final(self).plan() == old(self).plan() + patches,
                Err(fault) => {
                    &&& r matches Err(e)
                    &&& e.fault() == fault
                    &&& final(self).plan() == old(self).plan()
                },
            },
    {
        match self.elf.dynamic_contains(DT_RUNPATH) {
            Ok(true) => {
                return Err(Error::RunpathAlreadySet);
            },
            Ok(false) => {},
            Err(source) => {
                return Err(Error::SparseElf { source });
            },
        }
        let overwritten = self.overwritten;
        let dynstr_entry_offset = match self.set_runpath_dynstr(new_runpath) {
            Ok(offset) => offset,
            Err(e) => {
                return Err(e);
            },
        };
        let ghost planned = self.plan();
        match self.set_runpath_dynamic(dynstr_entry_offset as u64) {
            Ok(()) => {
                assert(self.plan() =~= old(self).plan() + seq![planned.last(), self.plan().last()]);
                Ok(())
            },
            Err(e) => {
                self.patches.pop();
                self.overwritten = overwritten;
                assert(self.plan() =~= planned.drop_last());
                assert(planned.drop_last() =~= old(self).plan());
                Err(e)
            },
        }
    }

    /// The first phase of `set_runpath`: picks the string of `.dynstr` to
    /// overwrite, plans the patch that puts the path and its NUL there, and
    /// returns the string's offset in `.dynstr`.
    pub fn set_runpath_dynstr(&mut self, new_runpath: &str) -> (r: Result<usize, Error>)
        ensures
            final(self).plans_on(old(self)),
            old(self).wf() ==> final(self).wf(),
            final(self).overwritten == if r is Ok {
                overwritten_by(
                    old(self).elf.image(),
                    old(self).elf.shdr_dynstr,
                    new_runpath.spec_bytes(),
                )
            } else {
                old(self).overwritten
            },
            match dynstr_plan(
                old(self).elf.image(),
                old(self).elf.shdr_dynstr,
                new_runpath.spec_bytes(),
            ) {
                Ok((victim, patch)) => {
                    &&& r matches Ok(offset)
                    &&& offset == victim
                    &&& final(self).plan() == old(self).plan().push(patch)
                },
                Err(fault) => {
                    &&& r matches Err(e)
                    &&& e.fault() == fault
                    &&& final(self).plan() == old(self).plan()
                },
            },
    {
        let path = new_runpath.as_bytes();
        let valid_candidates = match DynstrPatchCandidates::get_valid_candiates(&mut self.elf) {
            Ok(valid) => valid,
            Err(e) => {
                return Err(e);
            },
        };
        let entries = match self.elf.dynstr_entries() {
            Ok(entries) => entries,
            Err(sparse_elf::Error::ParseElf { source }) => {
                return Err(Error::ParseElf { source });
            },
            Err(source) => {
                return Err(Error::SparseElf { source });
            },
        };
        let (candidate, dynstr_index) = match choose_victim(
            &entries,
            &valid_candidates,
            path.len(),
        ) {
            Some(victim) => victim,
            None => {
                return Err(Error::NoDynstrReplacementCandidate);
            },
        };
        proof {
            let data = old(self).elf.dynstr_data();
            let scanned = entries_from(data, 1);
            let c = best_from(scanned, valid_candidates@, path@.len(), 0)->0;
            lemma_best_from(scanned, valid_candidates@, path@.len(), 0);
            lemma_first_named(scanned, c.name().spec_bytes(), 0);
            lemma_entries_from(data, 1, first_named(scanned, c.name().spec_bytes(), 0));
        }
        let dynstr_target_offset = self.elf.shdr_dynstr.sh_offset as usize + dynstr_index;
        self.add_patch(dynstr_target_offset, with_nul(path));
        self.overwritten = Some(candidate);
        Ok(dynstr_index)
    }

    /// The second phase of `set_runpath`: picks the slot of the dynamic
    /// table and plans the patch that writes the `DT_RUNPATH` entry there.
    pub fn set_runpath_dynamic(&mut self, dynstr_entry_offset: u64) -> (r: Result<(), Error>)
        ensures
            final(self).plans_on(old(self)),
            old(self).wf() ==> final(self).wf(),
            final(self).overwritten == old(self).overwritten,
            match dynamic_plan(
                dynamic_of(old(self).elf.image()),
                old(self).elf.shdr_dynamic.sh_offset,
                dynstr_entry_offset,
                class_of(old(self).elf.image()),
                old(self).serializer.class(),
                old(self).serializer.endianness(),
            ) {
                Ok(patch) => r is Ok && final(self).plan() == old(self).plan().push(patch),
                Err(fault) => {
                    &&& r matches Err(e)
                    &&& e.fault() == fault
                    &&& final(self).plan() == old(self).plan()
                },
            },
    {
        let dynamic_sh_offset = match usize::try_from(self.elf.shdr_dynamic.sh_offset) {
            Ok(offset) => offset,
            Err(source) => {
                return Err(Error::IntConversion { source });
            },
        };
        let dynamic_data = match self.elf.dynamic() {
            Ok(table) => table,
            Err(source) => {
                return Err(Error::SparseElf { source });
            },
        };
        let dyn_entry_position = match choose_slot(&dynamic_data, dynstr_entry_offset) {
            Some(slot) => slot,
            None => {
                return Err(Error::NoApplicableDynamicEntry);
            },
        };
        let entry_size: usize = match self.elf.class() {
            Class::ELF32 => 8,
            Class::ELF64 => 16,
        };
        let dyn_table_offset = match dyn_entry_position.checked_mul(entry_size) {
            Some(offset) => offset,
            None => {
                return Err(Error::IntegerOverflow);
            },
        };
        let dyn_entry_offset = match dynamic_sh_offset.checked_add(dyn_table_offset) {
            Some(offset) => offset,
            None => {
                return Err(Error::IntegerOverflow);
            },
        };
        proof {
            serialize::lemma_pow256_values();
        }
        let dyn_d_tag_data = match self.serializer.bytes_from_signed_long(DT_RUNPATH) {
            Ok(word) => word,
            Err(source) => {
                return Err(Error::Serializing { source });
            },
        };
        let dyn_d_un_data = match self.serializer.bytes_from_unsigned_long(dynstr_entry_offset) {
            Ok(word) => word,
            Err(source) => {
                return Err(Error::Serializing { source });
            },
        };
        self.add_patch(dyn_entry_offset, joined(dyn_d_tag_data.bytes(), dyn_d_un_data.bytes()));
        Ok(())
    }
}

} // verus!
