//! What holds of every plan. The patches lie inside the file and apart from
//! each other; applying them keeps the file's length and changes nothing
//! outside the sections they are planned for; a runpath and an interpreter
//! that were set are read back from the patched bytes. The laws are stated
//! for the plan of the planner's `set_runpath` and for the plan of a whole
//! run.
//!
//! Where the dynamic table lies in the file is for the reader to say. The
//! laws that speak of the place of the new entry therefore ask that the
//! table given to them is the one that `.dynamic` holds.

use crate::patch::{
    all_inside, apart, applied, by_rank, dynamic_plan, dynstr_plan, first_named, first_not_before,
    first_tagged, first_valued, inside, interp_plan, lemma_all_inside_ordered, lemma_best_from,
    lemma_entries_from, lemma_first_named, lemma_first_not_before, lemma_ordered,
    lemma_ordered_members, ordered, pairwise_apart, slot_of, usable, valid_candidates, victim_of,
    written, DynstrPatchCandidates, DT_NULL, DT_RUNPATH,
};
use crate::patch::runpath_plan;
use crate::patchelfdd::run_plan;
use crate::serialize::{
    encode_signed, encode_unsigned, lemma_encode_len, lemma_pow256_values,
    lemma_signed_round_trip, lemma_unsigned_round_trip, unsigned_in_range, word_width, AnyEndian,
    Class,
};
use crate::sparse_elf::{
    class_of, dyn_at, dyn_entry_width, dyn_table, endianness_of, entries_from, entry_at,
    has_tag, nul_from, section_data, Dyn, Fault, SectionHeader,
};
use vstd::prelude::*;
use vstd::string::StringSliceAdditionalSpecFns;

verus! {

/// Whether the patch writes the byte at `pos`.
pub open spec fn covers(patch: (int, Seq<u8>), pos: int) -> bool {
    patch.0 <= pos < patch.0 + patch.1.len()
}

/// Whether none of the patches writes the byte at `pos`.
pub open spec fn untouched(patches: Seq<(int, Seq<u8>)>, pos: int) -> bool {
    forall|i: int| 0 <= i < patches.len() ==> !covers(#[trigger] patches[i], pos)
}

/// Applying patches that lie inside the file and apart from each other keeps
/// the file's length, puts every patch's bytes at its offset, and leaves
/// every other byte as it was.
pub proof fn lemma_applied_bytes(image: Seq<u8>, patches: Seq<(int, Seq<u8>)>)
    requires
        all_inside(patches, image.len()),
        pairwise_apart(patches),
    ensures
        applied(image, patches).len() == image.len(),
        forall|i: int, pos: int|
            0 <= i < patches.len() && #[trigger] covers(patches[i], pos) ==> applied(
                image,
                patches,
            )[pos] == patches[i].1[pos - patches[i].0],
        forall|pos: int|
            0 <= pos < image.len() && #[trigger] untouched(patches, pos) ==> applied(
                image,
                patches,
            )[pos] == image[pos],
    decreases patches.len(),
{
    if patches.len() > 0 {
        let init = patches.drop_last();
        let last = patches.last();
        assert forall|i: int| 0 <= i < init.len() implies inside(#[trigger] init[i], image.len()) by {
            assert(init[i] == patches[i]);
        }
        assert forall|i: int, j: int| 0 <= i < j < init.len() implies apart(
            #[trigger] init[i],
            #[trigger] init[j],
        ) by {
            assert(init[i] == patches[i]);
            assert(init[j] == patches[j]);
        }
        lemma_applied_bytes(image, init);
        let prior = applied(image, init);
        let after = applied(image, patches);
        assert(after == written(prior, last));
        assert(inside(last, image.len()));
        assert forall|i: int, pos: int|
            0 <= i < patches.len() && #[trigger] covers(patches[i], pos) implies after[pos]
            == patches[i].1[pos - patches[i].0] by {
            assert(inside(patches[i], image.len()));
            if i < init.len() {
                assert(init[i] == patches[i]);
                assert(apart(patches[i], patches[patches.len() - 1]));
                assert(covers(init[i], pos));
                assert(after[pos] == prior[pos]);
            }
        }
        assert forall|pos: int| 0 <= pos < image.len() && #[trigger] untouched(patches, pos) implies after[pos]
            == image[pos] by {
            assert(!covers(patches[patches.len() - 1], pos));
            assert forall|i: int| 0 <= i < init.len() implies !covers(#[trigger] init[i], pos) by {
                assert(init[i] == patches[i]);
            }
            assert(untouched(init, pos));
            assert(after[pos] == prior[pos]);
        }
    }
}

/// Applying patches that lie inside the file keeps its length.
pub proof fn lemma_applied_len(image: Seq<u8>, patches: Seq<(int, Seq<u8>)>)
    requires
        all_inside(patches, image.len()),
    ensures
        applied(image, patches).len() == image.len(),
    decreases patches.len(),
{
    if patches.len() > 0 {
        let init = patches.drop_last();
        assert forall|i: int| 0 <= i < init.len() implies inside(#[trigger] init[i], image.len()) by {
            assert(init[i] == patches[i]);
        }
        lemma_applied_len(image, init);
        assert(inside(patches[patches.len() - 1], image.len()));
    }
}

/// Patches that lie apart from each other still do once they are ordered.
pub proof fn lemma_ordered_apart(patches: Seq<(int, Seq<u8>)>)
    requires
        pairwise_apart(patches),
    ensures
        pairwise_apart(ordered(patches)),
    decreases patches.len(),
{
    if patches.len() > 0 {
        let tail = patches.drop_first();
        let rest = ordered(tail);
        let at = first_not_before(rest, patches[0].0, 0);
        assert forall|i: int, j: int| 0 <= i < j < tail.len() implies apart(
            #[trigger] tail[i],
            #[trigger] tail[j],
        ) by {
            assert(tail[i] == patches[i + 1]);
            assert(tail[j] == patches[j + 1]);
        }
        lemma_ordered_apart(tail);
        lemma_ordered_members(tail);
        lemma_ordered(tail);
        lemma_first_not_before(rest, patches[0].0, 0);
        let sorted = rest.insert(at, patches[0]);
        assert forall|k: int| 0 <= k < rest.len() implies apart(patches[0], #[trigger] rest[k]) by {
            assert(tail.contains(rest[k]));
            let m = choose|m: int| 0 <= m < tail.len() && tail[m] == rest[k];
            assert(tail[m] == patches[m + 1]);
            assert(apart(patches[0], patches[m + 1]));
        }
        assert forall|i: int, j: int| 0 <= i < j < sorted.len() implies apart(
            #[trigger] sorted[i],
            #[trigger] sorted[j],
        ) by {
            if i == at {
                assert(sorted[j] == rest[j - 1]);
            } else if j == at {
                assert(sorted[i] == rest[i]);
            } else if i < at && j < at {
                assert(sorted[i] == rest[i] && sorted[j] == rest[j]);
            } else if i < at {
                assert(sorted[i] == rest[i] && sorted[j] == rest[j - 1]);
            } else {
                assert(sorted[i] == rest[i - 1] && sorted[j] == rest[j - 1]);
            }
        }
    }
}

/// Applying a plan in order of offset changes nothing but the bytes that its
/// patches write: where the patches lie inside the file and apart from each
/// other, the file keeps its length, every patch's bytes stand at its
/// offset, and every other byte is as it was.
pub proof fn lemma_apply_writes_the_plan(image: Seq<u8>, plan: Seq<(int, Seq<u8>)>)
    requires
        all_inside(plan, image.len()),
        pairwise_apart(plan),
    ensures
        applied(image, ordered(plan)).len() == image.len(),
        forall|i: int, pos: int|
            0 <= i < plan.len() && #[trigger] covers(plan[i], pos) ==> applied(
                image,
                ordered(plan),
            )[pos] == plan[i].1[pos - plan[i].0],
        forall|pos: int|
            0 <= pos < image.len() && #[trigger] untouched(plan, pos) ==> applied(
                image,
                ordered(plan),
            )[pos] == image[pos],
{
    let sorted = ordered(plan);
    lemma_all_inside_ordered(plan, image.len());
    lemma_ordered_apart(plan);
    lemma_ordered_members(plan);
    lemma_applied_bytes(image, sorted);
    assert forall|i: int, pos: int| 0 <= i < plan.len() && #[trigger] covers(plan[i], pos) implies applied(
        image,
        sorted,
    )[pos] == plan[i].1[pos - plan[i].0] by {
        assert(sorted.contains(plan[i]));
        let k = choose|k: int| 0 <= k < sorted.len() && sorted[k] == plan[i];
        assert(covers(sorted[k], pos));
    }
    assert forall|pos: int| 0 <= pos < image.len() && #[trigger] untouched(plan, pos) implies applied(
        image,
        sorted,
    )[pos] == image[pos] by {
        assert forall|k: int| 0 <= k < sorted.len() implies !covers(#[trigger] sorted[k], pos) by {
            assert(plan.contains(sorted[k]));
            let i = choose|i: int| 0 <= i < plan.len() && plan[i] == sorted[k];
            assert(!covers(plan[i], pos));
        }
        assert(untouched(sorted, pos));
    }
}

/// The interpreter is set exactly where the path and its NUL fit `.interp`,
/// as far as the section's size and offset fit the machine's addresses.
pub proof fn lemma_interpreter_fits(shdr: SectionHeader, path: Seq<u8>)
    ensures
        interp_plan(shdr, path) is Ok <==> {
            &&& path.len() + 1 <= shdr.sh_size
            &&& shdr.sh_size <= usize::MAX
            &&& shdr.sh_offset <= usize::MAX
        },
{
}

/// The candidate that is overwritten is usable, and no usable candidate has
/// a smaller rank; it is overwritten where its name first occurs. Where no
/// candidate is usable, nothing is overwritten.
pub proof fn lemma_victim_by_rank(
    entries: Seq<(int, Seq<u8>)>,
    valid: Seq<DynstrPatchCandidates>,
    need: nat,
)
    ensures
        match victim_of(entries, valid, need) {
            Some((c, offset)) => {
                &&& usable(entries, valid, need, c)
                &&& forall|other: DynstrPatchCandidates|
                    usable(entries, valid, need, other) ==> c.rank() <= other.rank()
                &&& offset == entries[first_named(entries, c.name().spec_bytes(), 0)].0
            },
            None => forall|other: DynstrPatchCandidates| !usable(entries, valid, need, other),
        },
{
    lemma_best_from(entries, valid, need, 0);
    assert(by_rank()[0] == DynstrPatchCandidates::ITMDeregisterTMCloneTable);
    assert(by_rank()[1] == DynstrPatchCandidates::GmonStart);
    assert forall|other: DynstrPatchCandidates| #[trigger]
        usable(entries, valid, need, other) implies other == by_rank()[0] || other == by_rank()[1] by {}
}

/// Where both names can be overwritten, `_ITM_deregisterTMCloneTable` is.
pub proof fn lemma_itm_before_gmon(
    entries: Seq<(int, Seq<u8>)>,
    valid: Seq<DynstrPatchCandidates>,
    need: nat,
)
    requires
        usable(entries, valid, need, DynstrPatchCandidates::ITMDeregisterTMCloneTable),
        usable(entries, valid, need, DynstrPatchCandidates::GmonStart),
    ensures
        victim_of(entries, valid, need) matches Some((c, _))
            && c == DynstrPatchCandidates::ITMDeregisterTMCloneTable,
{
    lemma_victim_by_rank(entries, valid, need);
}

/// Whether the patch writes nothing but bytes of the section.
pub open spec fn within(patch: (int, Seq<u8>), shdr: SectionHeader) -> bool {
    shdr.sh_offset <= patch.0 && patch.0 + patch.1.len() <= shdr.sh_offset + shdr.sh_size
}

/// The patch for the interpreter writes nothing but bytes of `.interp`.
pub proof fn lemma_interp_patch_within(shdr: SectionHeader, path: Seq<u8>)
    requires
        interp_plan(shdr, path) is Ok,
    ensures
        within(interp_plan(shdr, path)->Ok_0, shdr),
{
}

/// The patch for the interpreter writes no byte of a section that lies
/// apart from `.interp`.
pub proof fn lemma_interp_patch_clear(shdr: SectionHeader, path: Seq<u8>, other: SectionHeader)
    requires
        interp_plan(shdr, path) is Ok,
        sections_apart(shdr, other),
    ensures
        clear_of(interp_plan(shdr, path)->Ok_0, other),
{
}

/// The string that is overwritten lies behind the table's first byte, and
/// the path and its NUL end inside the table: the patch for `.dynstr` writes
/// nothing but bytes of `.dynstr`, which lies inside the file.
pub proof fn lemma_dynstr_patch_within(image: Seq<u8>, shdr: SectionHeader, path: Seq<u8>)
    requires
        dynstr_plan(image, shdr, path) is Ok,
    ensures
        ({
            let (victim, patch) = dynstr_plan(image, shdr, path)->Ok_0;
            &&& 1 <= victim
            &&& victim + path.len() < shdr.sh_size
            &&& patch == (shdr.sh_offset + victim, path.push(0))
            &&& within(patch, shdr)
            &&& shdr.sh_offset + shdr.sh_size <= image.len()
        }),
{
    let data = section_data(image, shdr);
    let entries = entries_from(data, 1);
    let valid = valid_candidates(entries);
    lemma_best_from(entries, valid, path.len(), 0);
    let (c, _) = victim_of(entries, valid, path.len())->0;
    lemma_first_named(entries, c.name().spec_bytes(), 0);
    lemma_entries_from(data, 1, first_named(entries, c.name().spec_bytes(), 0));
}

/// The first entry with the tag lies at or behind the start of the search
/// and has the tag; no entry between the two has it.
pub proof fn lemma_first_tagged(table: Seq<Dyn>, d_tag: i64, i: int)
    requires
        0 <= i <= table.len(),
    ensures
        i <= first_tagged(table, d_tag, i) <= table.len(),
        first_tagged(table, d_tag, i) < table.len() ==> table[first_tagged(table, d_tag, i)].d_tag
            == d_tag,
        forall|k: int| i <= k < first_tagged(table, d_tag, i) ==> table[k].d_tag != d_tag,
    decreases table.len() - i,
{
    if i < table.len() && table[i].d_tag != d_tag {
        lemma_first_tagged(table, d_tag, i + 1);
    }
}

/// The first entry with the value lies at or behind the start of the search
/// and has the value; no entry between the two has it.
pub proof fn lemma_first_valued(table: Seq<Dyn>, d_val: u64, i: int)
    requires
        0 <= i <= table.len(),
    ensures
        i <= first_valued(table, d_val, i) <= table.len(),
        first_valued(table, d_val, i) < table.len() ==> table[first_valued(table, d_val, i)].d_val
            == d_val,
        forall|k: int| i <= k < first_valued(table, d_val, i) ==> table[k].d_val != d_val,
    decreases table.len() - i,
{
    if i < table.len() && table[i].d_val != d_val {
        lemma_first_valued(table, d_val, i + 1);
    }
}

/// The slot that takes the new entry is an entry of the table: the first
/// `DT_NULL` where another entry follows it, else the first entry with the
/// value `victim`.
pub proof fn lemma_slot_of(table: Seq<Dyn>, victim: u64)
    ensures
        slot_of(table, victim) matches Some(slot) ==> {
            &&& 0 <= slot < table.len()
            &&& table[slot].d_tag == DT_NULL && slot + 1 < table.len() || table[slot].d_val
                == victim
        },
{
    lemma_first_tagged(table, DT_NULL, 0);
    lemma_first_valued(table, victim, 0);
}

/// The patch for the dynamic table writes exactly the bytes of one entry of
/// the table, where the table is read from `.dynamic` and the words are as
/// wide as the object's class says.
pub proof fn lemma_dynamic_patch_within(
    image: Seq<u8>,
    shdr: SectionHeader,
    victim: u64,
    class: Class,
    order: AnyEndian,
)
    requires
        shdr.sh_offset + shdr.sh_size <= image.len(),
        dynamic_plan(
            Ok(dyn_table(section_data(image, shdr), class, order)),
            shdr.sh_offset,
            victim,
            class,
            class,
            order,
        ) is Ok,
    ensures
        ({
            let table = dyn_table(section_data(image, shdr), class, order);
            let patch = dynamic_plan(Ok(table), shdr.sh_offset, victim, class, class, order)->Ok_0;
            let slot = slot_of(table, victim)->0;
            &&& slot_of(table, victim) is Some
            &&& 0 <= slot < table.len()
            &&& patch.0 == shdr.sh_offset + slot * dyn_entry_width(class)
            &&& patch.1.len() == dyn_entry_width(class)
            &&& patch.1 == encode_signed(DT_RUNPATH as int, word_width(class), order)
                + encode_unsigned(victim as int, word_width(class), order)
            &&& unsigned_in_range(victim as int, word_width(class))
            &&& within(patch, shdr)
        }),
{
    let data = section_data(image, shdr);
    let table = dyn_table(data, class, order);
    lemma_slot_of(table, victim);
    lemma_encode_len(DT_RUNPATH as int, word_width(class), order);
    lemma_encode_len(victim as int, word_width(class), order);
    let slot = slot_of(table, victim)->0;
    assert(data.len() == shdr.sh_size);
    lemma_whole_entries(data.len() as int, dyn_entry_width(class) as int);
    lemma_times_width(slot, dyn_entry_width(class) as int);
    lemma_times_width(table.len() as int, dyn_entry_width(class) as int);
}

/// A string that holds no NUL and is followed by one is read back as it is.
pub proof fn lemma_entry_reads_back(names: Seq<u8>, at: int, path: Seq<u8>)
    requires
        0 <= at,
        at + path.len() < names.len(),
        forall|k: int| 0 <= k < path.len() ==> path[k] != 0,
        forall|k: int| 0 <= k < path.len() ==> names[at + k] == path[k],
        names[at + path.len()] == 0,
    ensures
        nul_from(names, at) == at + path.len(),
        entry_at(names, at) == path,
    decreases path.len(),
{
    if path.len() > 0 {
        let rest = path.drop_first();
        assert forall|k: int| 0 <= k < rest.len() implies names[at + 1 + k] == rest[k] by {
            assert(rest[k] == path[k + 1]);
        }
        assert forall|k: int| 0 <= k < rest.len() implies rest[k] != 0 by {
            assert(rest[k] == path[k + 1]);
        }
        assert(names[at + 0] == path[0]);
        lemma_entry_reads_back(names, at + 1, rest);
    }
    assert(entry_at(names, at) =~= path);
}

/// Products with the width of an entry, which is 8 or 16.
proof fn lemma_times_width(a: int, width: int)
    by (nonlinear_arith)
    requires
        width == 8 || width == 16,
    ensures
        width == 8 ==> a * width == 8 * a,
        width == 16 ==> a * width == 16 * a,
        (a + 1) * width == a * width + width,
{
}

/// As many whole entries as bytes hold fit into these bytes.
proof fn lemma_whole_entries(len: int, width: int)
    by (nonlinear_arith)
    requires
        0 <= len,
        width == 8 || width == 16,
    ensures
        0 <= (len / width) * width <= len,
        len < (len / width) * width + width,
{
}

/// A table of which one entry is overwritten with a `DT_RUNPATH` and a
/// value reads back with that entry in the slot and every other entry as it
/// was.
pub proof fn lemma_table_reads_back(
    before: Seq<u8>,
    after: Seq<u8>,
    class: Class,
    order: AnyEndian,
    slot: int,
    victim: u64,
)
    requires
        after.len() == before.len(),
        0 <= slot < dyn_table(before, class, order).len(),
        unsigned_in_range(victim as int, word_width(class)),
        forall|k: int|
            0 <= k < before.len() && !(slot * dyn_entry_width(class) <= k < (slot + 1)
                * dyn_entry_width(class)) ==> after[k] == before[k],
        forall|k: int|
            0 <= k < dyn_entry_width(class) ==> after[slot * dyn_entry_width(class) + k] == (
            encode_signed(DT_RUNPATH as int, word_width(class), order) + encode_unsigned(
                victim as int,
                word_width(class),
                order,
            ))[k],
    ensures
        dyn_table(after, class, order).len() == dyn_table(before, class, order).len(),
        dyn_table(after, class, order)[slot] == (Dyn { d_tag: DT_RUNPATH, d_val: victim }),
        forall|j: int|
            0 <= j < dyn_table(after, class, order).len() && j != slot ==> dyn_table(
                after,
                class,
                order,
            )[j] == dyn_table(before, class, order)[j],
{
    let w = word_width(class) as int;
    let es = dyn_entry_width(class) as int;
    let tag = encode_signed(DT_RUNPATH as int, word_width(class), order);
    let val = encode_unsigned(victim as int, word_width(class), order);
    lemma_encode_len(DT_RUNPATH as int, word_width(class), order);
    lemma_encode_len(victim as int, word_width(class), order);
    lemma_pow256_values();
    lemma_signed_round_trip(DT_RUNPATH as int, word_width(class), order);
    lemma_unsigned_round_trip(victim as int, word_width(class), order);
    assert(es == 2 * w);
    assert(w == 4 || w == 8);
    let n = dyn_table(before, class, order).len() as int;
    assert(n == before.len() as int / es);
    lemma_whole_entries(before.len() as int, es);
    lemma_times_width(n, es);
    lemma_times_width(slot, es);
    assert(n * es <= before.len());
    assert(slot * es + es <= before.len());
    assert(after.subrange(slot * es, slot * es + w) =~= tag) by {
        assert forall|k: int| 0 <= k < w implies after[slot * es + k] == tag[k] by {
            assert((tag + val)[k] == tag[k]);
        }
    }
    assert(after.subrange(slot * es + w, slot * es + 2 * w) =~= val) by {
        assert forall|k: int| 0 <= k < w implies after[slot * es + w + k] == val[k] by {
            assert((tag + val)[w + k] == val[k]);
        }
    }
    assert(dyn_at(after, slot, class, order) == (Dyn { d_tag: DT_RUNPATH, d_val: victim }));
    assert forall|j: int| 0 <= j < n && j != slot implies dyn_table(after, class, order)[j]
        == dyn_table(before, class, order)[j] by {
        lemma_times_width(j, es);
        assert(j * es + es <= before.len() && (j * es + es <= slot * es || (slot + 1) * es <= j
            * es));
        assert(after.subrange(j * es, j * es + w) =~= before.subrange(j * es, j * es + w));
        assert(after.subrange(j * es + w, j * es + 2 * w) =~= before.subrange(
            j * es + w,
            j * es + 2 * w,
        ));
    }
}

/// Whether two sections have no byte of the file in common.
pub open spec fn sections_apart(a: SectionHeader, b: SectionHeader) -> bool {
    a.sh_offset + a.sh_size <= b.sh_offset || b.sh_offset + b.sh_size <= a.sh_offset
}

/// Whether the section lies inside a file of `len` bytes.
pub open spec fn lies_in(shdr: SectionHeader, len: nat) -> bool {
    shdr.sh_offset + shdr.sh_size <= len
}

/// Whether the dynamic table is what `.dynamic` holds: the section lies
/// inside the file, and the table is read from its bytes.
pub open spec fn table_is_dynamic(
    image: Seq<u8>,
    shdr_dynamic: SectionHeader,
    table: Result<Seq<Dyn>, Fault>,
) -> bool {
    &&& lies_in(shdr_dynamic, image.len())
    &&& table == Ok::<Seq<Dyn>, Fault>(
        dyn_table(section_data(image, shdr_dynamic), class_of(image), endianness_of(image)),
    )
}

/// Whether the object is laid out as a linker lays it out: the three
/// sections lie inside the file and apart from each other, and the dynamic
/// table is what `.dynamic` holds.
pub open spec fn sound_layout(
    image: Seq<u8>,
    shdr_dynamic: SectionHeader,
    shdr_dynstr: SectionHeader,
    shdr_interp: SectionHeader,
    table: Result<Seq<Dyn>, Fault>,
) -> bool {
    &&& table_is_dynamic(image, shdr_dynamic, table)
    &&& lies_in(shdr_dynstr, image.len())
    &&& lies_in(shdr_interp, image.len())
    &&& sections_apart(shdr_dynamic, shdr_dynstr)
    &&& sections_apart(shdr_dynamic, shdr_interp)
    &&& sections_apart(shdr_dynstr, shdr_interp)
}

/// Whether the patched bytes, read with the same headers, class and byte
/// order, show exactly one `DT_RUNPATH`, whose value is the offset in
/// `.dynstr`, behind its first byte, of a NUL-terminated string that is the
/// path.
pub open spec fn reads_back(
    patched: Seq<u8>,
    shdr_dynamic: SectionHeader,
    shdr_dynstr: SectionHeader,
    class: Class,
    order: AnyEndian,
    path: Seq<u8>,
) -> bool {
    let table = dyn_table(section_data(patched, shdr_dynamic), class, order);
    let names = section_data(patched, shdr_dynstr);
    exists|slot: int|
        {
            &&& 0 <= slot < table.len()
            &&& (#[trigger] table[slot]).d_tag == DT_RUNPATH
            &&& forall|other: int|
                0 <= other < table.len() && (#[trigger] table[other]).d_tag == DT_RUNPATH
                    ==> other == slot
            &&& 1 <= table[slot].d_val < names.len()
            &&& nul_from(names, table[slot].d_val as int) < names.len()
            &&& entry_at(names, table[slot].d_val as int) == path
        }
}

/// The parts of a plan: the patch for `.dynstr` and the one for the dynamic
/// table, where a runpath is asked for, then the one for `.interp`, where an
/// interpreter is asked for. Each writes nothing but bytes of its section,
/// and the second exactly one entry, where the dynamic table is what
/// `.dynamic` holds.
pub proof fn lemma_plan_parts(
    image: Seq<u8>,
    shdr_dynamic: SectionHeader,
    shdr_dynstr: SectionHeader,
    shdr_interp: SectionHeader,
    table: Result<Seq<Dyn>, Fault>,
    set_runpath: Option<Seq<u8>>,
    set_interpreter: Option<Seq<u8>>,
)
    requires
        set_runpath is Some ==> table_is_dynamic(image, shdr_dynamic, table),
        run_plan(
            image,
            shdr_dynamic,
            shdr_dynstr,
            shdr_interp,
            table,
            set_runpath,
            set_interpreter,
        ) is Ok,
    ensures
        ({
            let plan = run_plan(
                image,
                shdr_dynamic,
                shdr_dynstr,
                shdr_interp,
                table,
                set_runpath,
                set_interpreter,
            )->Ok_0;
            let first = if set_runpath is Some {
                2int
            } else {
                0int
            };
            &&& plan.len() == first + if set_interpreter is Some {
                1int
            } else {
                0int
            }
            &&& set_runpath matches Some(path) ==> {
                let (victim, patch) = dynstr_plan(image, shdr_dynstr, path)->Ok_0;
                let slot = slot_of(table->Ok_0, victim as u64)->0;
                &&& !has_tag(table->Ok_0, DT_RUNPATH)
                &&& dynstr_plan(image, shdr_dynstr, path) is Ok
                &&& 1 <= victim
                &&& victim + path.len() < shdr_dynstr.sh_size
                &&& plan[0] == (shdr_dynstr.sh_offset + victim, path.push(0))
                &&& within(plan[0], shdr_dynstr)
                &&& slot_of(table->Ok_0, victim as u64) is Some
                &&& 0 <= slot < (table->Ok_0).len()
                &&& unsigned_in_range(victim, word_width(class_of(image)))
                &&& plan[1] == (
                    shdr_dynamic.sh_offset + slot * dyn_entry_width(class_of(image)),
                    encode_signed(
                        DT_RUNPATH as int,
                        word_width(class_of(image)),
                        endianness_of(image),
                    ) + encode_unsigned(
                        victim,
                        word_width(class_of(image)),
                        endianness_of(image),
                    ),
                )
                &&& plan[1].1.len() == dyn_entry_width(class_of(image))
                &&& within(plan[1], shdr_dynamic)
            }
            &&& set_interpreter matches Some(path) ==> {
                &&& plan[first] == (shdr_interp.sh_offset as int, path.push(0))
                &&& within(plan[first], shdr_interp)
            }
        }),
{
    if set_runpath is Some {
        lemma_runpath_parts(image, shdr_dynstr, table, shdr_dynamic, set_runpath->0);
    }
    if set_interpreter is Some {
        lemma_interp_patch_within(shdr_interp, set_interpreter->0);
    }
}

/// Every planned patch lies inside the file, where the sections that the
/// plan writes to do: `.interp`, where an interpreter is asked for, and
/// `.dynamic`, which holds the dynamic table, where a runpath is asked for.
pub proof fn lemma_plan_inside(
    image: Seq<u8>,
    shdr_dynamic: SectionHeader,
    shdr_dynstr: SectionHeader,
    shdr_interp: SectionHeader,
    table: Result<Seq<Dyn>, Fault>,
    set_runpath: Option<Seq<u8>>,
    set_interpreter: Option<Seq<u8>>,
)
    requires
        set_runpath is Some ==> table_is_dynamic(image, shdr_dynamic, table),
        set_interpreter is Some ==> lies_in(shdr_interp, image.len()),
        run_plan(
            image,
            shdr_dynamic,
            shdr_dynstr,
            shdr_interp,
            table,
            set_runpath,
            set_interpreter,
        ) is Ok,
    ensures
        all_inside(
            run_plan(
                image,
                shdr_dynamic,
                shdr_dynstr,
                shdr_interp,
                table,
                set_runpath,
                set_interpreter,
            )->Ok_0,
            image.len(),
        ),
{
    lemma_plan_parts(
        image,
        shdr_dynamic,
        shdr_dynstr,
        shdr_interp,
        table,
        set_runpath,
        set_interpreter,
    );
}

/// No two planned patches overlap, where the sections that the plan writes
/// to do not: `.dynstr` and `.dynamic`, which holds the dynamic table, where
/// a runpath is asked for, and `.interp`, where an interpreter is asked for
/// too.
pub proof fn lemma_plan_apart(
    image: Seq<u8>,
    shdr_dynamic: SectionHeader,
    shdr_dynstr: SectionHeader,
    shdr_interp: SectionHeader,
    table: Result<Seq<Dyn>, Fault>,
    set_runpath: Option<Seq<u8>>,
    set_interpreter: Option<Seq<u8>>,
)
    requires
        set_runpath is Some ==> table_is_dynamic(image, shdr_dynamic, table) && sections_apart(
            shdr_dynamic,
            shdr_dynstr,
        ),
        set_runpath is Some && set_interpreter is Some ==> sections_apart(
            shdr_dynamic,
            shdr_interp,
        ) && sections_apart(shdr_dynstr, shdr_interp),
        run_plan(
            image,
            shdr_dynamic,
            shdr_dynstr,
            shdr_interp,
            table,
            set_runpath,
            set_interpreter,
        ) is Ok,
    ensures
        pairwise_apart(
            run_plan(
                image,
                shdr_dynamic,
                shdr_dynstr,
                shdr_interp,
                table,
                set_runpath,
                set_interpreter,
            )->Ok_0,
        ),
{
    lemma_plan_parts(
        image,
        shdr_dynamic,
        shdr_dynstr,
        shdr_interp,
        table,
        set_runpath,
        set_interpreter,
    );
}

/// Whether the patch writes no byte of the section.
pub open spec fn clear_of(patch: (int, Seq<u8>), shdr: SectionHeader) -> bool {
    patch.0 + patch.1.len() <= shdr.sh_offset || shdr.sh_offset + shdr.sh_size <= patch.0
}

/// Whether from its first `DT_NULL` on the table holds nothing but
/// terminators: entries with the tag `DT_NULL` and the value 0.
pub open spec fn terminated(table: Seq<Dyn>) -> bool {
    forall|j: int|
        first_tagged(table, DT_NULL, 0) <= j < table.len() ==> #[trigger] table[j] == (Dyn {
            d_tag: DT_NULL,
            d_val: 0,
        })
}

/// The patches that a well-formed planner plans for a runpath: the plan
/// with the words written in the class and byte order of the object.
pub open spec fn runpath_patches(
    image: Seq<u8>,
    shdr_dynstr: SectionHeader,
    table: Result<Seq<Dyn>, Fault>,
    shdr_dynamic: SectionHeader,
    path: Seq<u8>,
) -> Result<Seq<(int, Seq<u8>)>, crate::patch::Fault> {
    runpath_plan(
        image,
        shdr_dynstr,
        table,
        shdr_dynamic,
        path,
        class_of(image),
        endianness_of(image),
    )
}

/// The two patches of a runpath, where the dynamic table is what `.dynamic`
/// holds. The table has no `DT_RUNPATH`. The first patch is the path and
/// its NUL at the offset of the overwritten string, which lies behind the
/// first byte of `.dynstr`; the second is one entry of the table, a
/// `DT_RUNPATH` whose value is that offset, at the place of the chosen slot.
pub proof fn lemma_runpath_parts(
    image: Seq<u8>,
    shdr_dynstr: SectionHeader,
    table: Result<Seq<Dyn>, Fault>,
    shdr_dynamic: SectionHeader,
    path: Seq<u8>,
)
    requires
        table_is_dynamic(image, shdr_dynamic, table),
        runpath_patches(image, shdr_dynstr, table, shdr_dynamic, path) is Ok,
    ensures
        ({
            let plan = runpath_patches(image, shdr_dynstr, table, shdr_dynamic, path)->Ok_0;
            let (victim, patch) = dynstr_plan(image, shdr_dynstr, path)->Ok_0;
            let slot = slot_of(table->Ok_0, victim as u64)->0;
            &&& plan.len() == 2
            &&& !has_tag(table->Ok_0, DT_RUNPATH)
            &&& dynstr_plan(image, shdr_dynstr, path) is Ok
            &&& 1 <= victim
            &&& victim + path.len() < shdr_dynstr.sh_size
            &&& lies_in(shdr_dynstr, image.len())
            &&& plan[0] == (shdr_dynstr.sh_offset + victim, path.push(0))
            &&& within(plan[0], shdr_dynstr)
            &&& slot_of(table->Ok_0, victim as u64) is Some
            &&& 0 <= slot < (table->Ok_0).len()
            &&& unsigned_in_range(victim, word_width(class_of(image)))
            &&& plan[1] == (
                shdr_dynamic.sh_offset + slot * dyn_entry_width(class_of(image)),
                encode_signed(DT_RUNPATH as int, word_width(class_of(image)), endianness_of(image))
                    + encode_unsigned(victim, word_width(class_of(image)), endianness_of(image)),
            )
            &&& plan[1].1.len() == dyn_entry_width(class_of(image))
            &&& within(plan[1], shdr_dynamic)
        }),
{
    lemma_dynstr_patch_within(image, shdr_dynstr, path);
    let (victim, _) = dynstr_plan(image, shdr_dynstr, path)->Ok_0;
    lemma_dynamic_patch_within(
        image,
        shdr_dynamic,
        victim as u64,
        class_of(image),
        endianness_of(image),
    );
}

/// Whether the patch writes exactly the entry at index `slot` of the
/// dynamic table that `.dynamic` holds.
pub open spec fn fills_slot(
    patch: (int, Seq<u8>),
    shdr_dynamic: SectionHeader,
    class: Class,
    slot: int,
) -> bool {
    &&& patch.0 == shdr_dynamic.sh_offset + slot * dyn_entry_width(class)
    &&& patch.1.len() == dyn_entry_width(class)
}

/// Both patches of a runpath lie inside the file: the first inside
/// `.dynstr`, the second inside `.dynamic`, where it is one whole entry, 8
/// bytes on ELF32 and 16 on ELF64. The dynamic table must be what `.dynamic`
/// holds.
pub proof fn lemma_set_runpath_inside(
    image: Seq<u8>,
    shdr_dynstr: SectionHeader,
    table: Result<Seq<Dyn>, Fault>,
    shdr_dynamic: SectionHeader,
    path: Seq<u8>,
)
    requires
        table_is_dynamic(image, shdr_dynamic, table),
        runpath_patches(image, shdr_dynstr, table, shdr_dynamic, path) is Ok,
    ensures
        ({
            let plan = runpath_patches(image, shdr_dynstr, table, shdr_dynamic, path)->Ok_0;
            &&& plan.len() == 2
            &&& all_inside(plan, image.len())
            &&& within(plan[0], shdr_dynstr)
            &&& within(plan[1], shdr_dynamic)
            &&& plan[1].1.len() == dyn_entry_width(class_of(image))
            &&& exists|slot: int|
                0 <= slot < (table->Ok_0).len() && #[trigger] fills_slot(
                    plan[1],
                    shdr_dynamic,
                    class_of(image),
                    slot,
                )
        }),
{
    lemma_runpath_parts(image, shdr_dynstr, table, shdr_dynamic, path);
    let (victim, _) = dynstr_plan(image, shdr_dynstr, path)->Ok_0;
    let slot = slot_of(table->Ok_0, victim as u64)->0;
    let plan = runpath_patches(image, shdr_dynstr, table, shdr_dynamic, path)->Ok_0;
    assert(fills_slot(plan[1], shdr_dynamic, class_of(image), slot));
}

/// The patches of a runpath overlap neither each other nor the patches
/// that were planned before, where those lie apart from each other and
/// write no byte of `.dynstr` and `.dynamic`, the two sections lie apart,
/// and the dynamic table is what `.dynamic` holds.
pub proof fn lemma_set_runpath_apart(
    before: Seq<(int, Seq<u8>)>,
    image: Seq<u8>,
    shdr_dynstr: SectionHeader,
    table: Result<Seq<Dyn>, Fault>,
    shdr_dynamic: SectionHeader,
    path: Seq<u8>,
)
    requires
        pairwise_apart(before),
        forall|i: int|
            0 <= i < before.len() ==> clear_of(#[trigger] before[i], shdr_dynstr) && clear_of(
                before[i],
                shdr_dynamic,
            ),
        table_is_dynamic(image, shdr_dynamic, table),
        sections_apart(shdr_dynamic, shdr_dynstr),
        runpath_patches(image, shdr_dynstr, table, shdr_dynamic, path) is Ok,
    ensures
        pairwise_apart(
            before + runpath_patches(image, shdr_dynstr, table, shdr_dynamic, path)->Ok_0,
        ),
{
    lemma_runpath_parts(image, shdr_dynstr, table, shdr_dynamic, path);
    let plan = runpath_patches(image, shdr_dynstr, table, shdr_dynamic, path)->Ok_0;
    let all = before + plan;
    assert forall|i: int, j: int| 0 <= i < j < all.len() implies apart(
        #[trigger] all[i],
        #[trigger] all[j],
    ) by {
        if j < before.len() {
            assert(all[i] == before[i] && all[j] == before[j]);
        } else if i < before.len() {
            assert(all[i] == before[i]);
            assert(all[j] == plan[j - before.len()]);
        } else {
            assert(all[i] == plan[0] && all[j] == plan[1]);
        }
    }
}

/// A table whose slot is overwritten with a `DT_RUNPATH` keeps its
/// terminator, and the new entry stands before it: where the table held
/// nothing but terminators from its first `DT_NULL` on, and the value of the
/// new entry is not 0, the first `DT_NULL` afterwards is an entry of the
/// table behind the slot.
pub proof fn lemma_runpath_before_terminator(
    before: Seq<Dyn>,
    after: Seq<Dyn>,
    victim: u64,
    slot: int,
)
    requires
        terminated(before),
        victim != 0,
        slot_of(before, victim) == Some(slot),
        after.len() == before.len(),
        after[slot].d_tag == DT_RUNPATH,
        forall|j: int| 0 <= j < before.len() && j != slot ==> after[j] == before[j],
    ensures
        0 <= slot < first_tagged(after, DT_NULL, 0) < after.len(),
{
    lemma_slot_of(before, victim);
    lemma_first_tagged(before, DT_NULL, 0);
    lemma_first_valued(before, victim, 0);
    lemma_first_tagged(after, DT_NULL, 0);
    let k = first_tagged(before, DT_NULL, 0);
    let found = first_tagged(after, DT_NULL, 0);
    assert(before[k] == (Dyn { d_tag: DT_NULL, d_val: 0 }));
    if k + 1 < before.len() {
        assert(slot == k);
        assert(before[k + 1] == (Dyn { d_tag: DT_NULL, d_val: 0 }));
        assert(after[k + 1] == before[k + 1]);
        assert forall|j: int| 0 <= j <= k implies after[j].d_tag != DT_NULL by {
            if j < k {
                assert(after[j] == before[j]);
            }
        }
        if found <= k {
            assert(after[found].d_tag != DT_NULL);
        }
    } else {
        assert(slot != k);
        assert(after[k] == before[k]);
        assert forall|j: int| 0 <= j < k implies after[j].d_tag != DT_NULL by {
            if j != slot {
                assert(after[j] == before[j]);
            }
        }
        if found < k {
            assert(after[found].d_tag != DT_NULL);
        }
    }
}

/// Whether the patched bytes show a `DT_RUNPATH` that stands before the
/// table's first `DT_NULL`, which the table still has.
pub open spec fn runpath_before_terminator(
    patched: Seq<u8>,
    shdr_dynamic: SectionHeader,
    class: Class,
    order: AnyEndian,
) -> bool {
    let table = dyn_table(section_data(patched, shdr_dynamic), class, order);
    exists|slot: int|
        0 <= slot < first_tagged(table, DT_NULL, 0) < table.len() && (#[trigger] table[slot]).d_tag
            == DT_RUNPATH
}

/// The read-back of a plan that holds the two patches of a runpath, at the
/// indices `i0` and `i1`, among patches that write no byte of `.dynstr` and
/// `.dynamic`.
proof fn lemma_reads_back_core(
    image: Seq<u8>,
    plan: Seq<(int, Seq<u8>)>,
    i0: int,
    i1: int,
    shdr_dynamic: SectionHeader,
    shdr_dynstr: SectionHeader,
    path: Seq<u8>,
    victim: int,
    slot: int,
)
    requires
        all_inside(plan, image.len()),
        pairwise_apart(plan),
        0 <= i0 < plan.len(),
        0 <= i1 < plan.len(),
        forall|m: int|
            0 <= m < plan.len() && m != i0 && m != i1 ==> clear_of(
                #[trigger] plan[m],
                shdr_dynamic,
            ),
        lies_in(shdr_dynamic, image.len()),
        lies_in(shdr_dynstr, image.len()),
        sections_apart(shdr_dynamic, shdr_dynstr),
        !has_tag(
            dyn_table(section_data(image, shdr_dynamic), class_of(image), endianness_of(image)),
            DT_RUNPATH,
        ),
        0 <= slot < dyn_table(
            section_data(image, shdr_dynamic),
            class_of(image),
            endianness_of(image),
        ).len(),
        1 <= victim <= u64::MAX,
        victim + path.len() < shdr_dynstr.sh_size,
        unsigned_in_range(victim, word_width(class_of(image))),
        plan[i0] == (shdr_dynstr.sh_offset + victim, path.push(0)),
        plan[i1] == (
            shdr_dynamic.sh_offset + slot * dyn_entry_width(class_of(image)),
            encode_signed(DT_RUNPATH as int, word_width(class_of(image)), endianness_of(image))
                + encode_unsigned(victim, word_width(class_of(image)), endianness_of(image)),
        ),
        forall|k: int| 0 <= k < path.len() ==> path[k] != 0,
    ensures
        applied(image, ordered(plan)).len() == image.len(),
        reads_back(
            applied(image, ordered(plan)),
            shdr_dynamic,
            shdr_dynstr,
            class_of(image),
            endianness_of(image),
            path,
        ),
        ({
            let before = dyn_table(
                section_data(image, shdr_dynamic),
                class_of(image),
                endianness_of(image),
            );
            let after = dyn_table(
                section_data(applied(image, ordered(plan)), shdr_dynamic),
                class_of(image),
                endianness_of(image),
            );
            &&& after.len() == before.len()
            &&& after[slot] == (Dyn { d_tag: DT_RUNPATH, d_val: victim as u64 })
            &&& forall|j: int| 0 <= j < before.len() && j != slot ==> after[j] == before[j]
        }),
{
    let class = class_of(image);
    let order = endianness_of(image);
    lemma_apply_writes_the_plan(image, plan);
    let patched = applied(image, ordered(plan));
    let width = dyn_entry_width(class) as int;
    let entry = plan[i1].1;
    lemma_encode_len(DT_RUNPATH as int, word_width(class), order);
    lemma_encode_len(victim, word_width(class), order);

    // The strings: the path and its NUL stand where the overwritten name stood.
    let names = section_data(patched, shdr_dynstr);
    assert forall|k: int| 0 <= k <= path.len() implies names[victim + k] == path.push(0)[k] by {
        assert(covers(plan[i0], shdr_dynstr.sh_offset + victim + k));
    }
    assert forall|k: int| 0 <= k < path.len() implies names[victim + k] == path[k] by {
        assert(names[victim + k] == path.push(0)[k]);
    }
    assert(names[victim + path.len()] == path.push(0)[path.len() as int]);
    lemma_entry_reads_back(names, victim, path);

    // The table: the slot holds the new entry, every other entry is as it was.
    let before = section_data(image, shdr_dynamic);
    let after = section_data(patched, shdr_dynamic);
    let table = dyn_table(before, class, order);
    lemma_whole_entries(before.len() as int, width);
    lemma_times_width(slot, width);
    lemma_times_width(table.len() as int, width);
    assert forall|k: int| 0 <= k < width implies after[slot * width + k] == entry[k] by {
        assert(covers(plan[i1], shdr_dynamic.sh_offset + slot * width + k));
    }
    assert forall|k: int| 0 <= k < before.len() && !(slot * width <= k < (slot + 1) * width) implies after[k]
        == before[k] by {
        let pos = shdr_dynamic.sh_offset + k;
        assert forall|m: int| 0 <= m < plan.len() implies !covers(#[trigger] plan[m], pos) by {
            if m == i0 {
                assert(within(plan[i0], shdr_dynstr));
            } else if m == i1 {
                assert(plan[i1].0 == shdr_dynamic.sh_offset + slot * width);
            } else {
                assert(clear_of(plan[m], shdr_dynamic));
            }
        }
        assert(untouched(plan, pos));
    }
    lemma_table_reads_back(before, after, class, order, slot, victim as u64);
    let read = dyn_table(after, class, order);
    assert(read[slot].d_tag == DT_RUNPATH);
    assert forall|other: int| 0 <= other < read.len() && (#[trigger] read[other]).d_tag
        == DT_RUNPATH implies other == slot by {
        if other != slot {
            assert(read[other] == table[other]);
            assert(table[other].d_tag != DT_RUNPATH);
        }
    }
    assert(read[slot].d_val == victim);
}

/// A runpath that the planner sets is read back. Let the patches planned
/// before lie inside the file, apart from each other, and write no byte of
/// `.dynstr` and `.dynamic`; let the two sections lie apart and the dynamic
/// table be what `.dynamic` holds; let the path hold no NUL. Where the plan
/// for the runpath succeeds, the bytes with all patches applied in order of
/// offset have the length of the file and, read with the same headers,
/// class and byte order, show exactly one `DT_RUNPATH`, whose value is the
/// offset in `.dynstr` of a NUL-terminated string that is the path. Where
/// the table held nothing but terminators from its first `DT_NULL` on, the
/// `DT_RUNPATH` stands before the first `DT_NULL` that is left.
pub proof fn lemma_set_runpath_reads_back(
    before: Seq<(int, Seq<u8>)>,
    image: Seq<u8>,
    shdr_dynstr: SectionHeader,
    table: Result<Seq<Dyn>, Fault>,
    shdr_dynamic: SectionHeader,
    path: Seq<u8>,
)
    requires
        all_inside(before, image.len()),
        pairwise_apart(before),
        forall|i: int|
            0 <= i < before.len() ==> clear_of(#[trigger] before[i], shdr_dynstr) && clear_of(
                before[i],
                shdr_dynamic,
            ),
        table_is_dynamic(image, shdr_dynamic, table),
        sections_apart(shdr_dynamic, shdr_dynstr),
        forall|k: int| 0 <= k < path.len() ==> path[k] != 0,
        runpath_patches(image, shdr_dynstr, table, shdr_dynamic, path) is Ok,
    ensures
        ({
            let plan = before + runpath_patches(
                image,
                shdr_dynstr,
                table,
                shdr_dynamic,
                path,
            )->Ok_0;
            let patched = applied(image, ordered(plan));
            &&& patched.len() == image.len()
            &&& reads_back(
                patched,
                shdr_dynamic,
                shdr_dynstr,
                class_of(image),
                endianness_of(image),
                path,
            )
            &&& terminated(table->Ok_0) ==> runpath_before_terminator(
                patched,
                shdr_dynamic,
                class_of(image),
                endianness_of(image),
            )
        }),
{
    lemma_runpath_parts(image, shdr_dynstr, table, shdr_dynamic, path);
    lemma_set_runpath_inside(image, shdr_dynstr, table, shdr_dynamic, path);
    lemma_set_runpath_apart(before, image, shdr_dynstr, table, shdr_dynamic, path);
    let new = runpath_patches(image, shdr_dynstr, table, shdr_dynamic, path)->Ok_0;
    let plan = before + new;
    let (victim, _) = dynstr_plan(image, shdr_dynstr, path)->Ok_0;
    let slot = slot_of(table->Ok_0, victim as u64)->0;
    let i0 = before.len() as int;
    assert(plan[i0] == new[0]);
    assert(plan[i0 + 1] == new[1]);
    assert forall|i: int| 0 <= i < plan.len() implies inside(#[trigger] plan[i], image.len()) by {
        if i < before.len() {
            assert(plan[i] == before[i]);
        } else {
            assert(plan[i] == new[i - before.len()]);
        }
    }
    assert forall|m: int| 0 <= m < plan.len() && m != i0 && m != i0 + 1 implies clear_of(
        #[trigger] plan[m],
        shdr_dynamic,
    ) by {
        assert(plan[m] == before[m]);
    }
    lemma_reads_back_core(image, plan, i0, i0 + 1, shdr_dynamic, shdr_dynstr, path, victim, slot);
    if terminated(table->Ok_0) {
        let patched = applied(image, ordered(plan));
        let after = dyn_table(
            section_data(patched, shdr_dynamic),
            class_of(image),
            endianness_of(image),
        );
        lemma_runpath_before_terminator(table->Ok_0, after, victim as u64, slot);
        assert(after[slot].d_tag == DT_RUNPATH);
    }
}

/// A runpath that a run sets is read back. Let the object be laid out
/// soundly, the path hold no NUL, and the plan of a run that is asked for
/// the runpath succeed. Then the bytes with the plan applied in order of
/// offset have the length of the file and, read with the same headers, class
/// and byte order, show exactly one `DT_RUNPATH`, whose value is the offset
/// in `.dynstr` of a NUL-terminated string that is the path. Where the
/// table held nothing but terminators from its first `DT_NULL` on, the
/// `DT_RUNPATH` stands before the first `DT_NULL` that is left.
pub proof fn lemma_runpath_reads_back(
    image: Seq<u8>,
    shdr_dynamic: SectionHeader,
    shdr_dynstr: SectionHeader,
    shdr_interp: SectionHeader,
    table: Result<Seq<Dyn>, Fault>,
    path: Seq<u8>,
    set_interpreter: Option<Seq<u8>>,
)
    requires
        sound_layout(image, shdr_dynamic, shdr_dynstr, shdr_interp, table),
        forall|k: int| 0 <= k < path.len() ==> path[k] != 0,
        run_plan(
            image,
            shdr_dynamic,
            shdr_dynstr,
            shdr_interp,
            table,
            Some(path),
            set_interpreter,
        ) is Ok,
    ensures
        ({
            let plan = run_plan(
                image,
                shdr_dynamic,
                shdr_dynstr,
                shdr_interp,
                table,
                Some(path),
                set_interpreter,
            )->Ok_0;
            let patched = applied(image, ordered(plan));
            &&& patched.len() == image.len()
            &&& reads_back(
                patched,
                shdr_dynamic,
                shdr_dynstr,
                class_of(image),
                endianness_of(image),
                path,
            )
            &&& terminated(table->Ok_0) ==> runpath_before_terminator(
                patched,
                shdr_dynamic,
                class_of(image),
                endianness_of(image),
            )
        }),
{
    let plan = run_plan(
        image,
        shdr_dynamic,
        shdr_dynstr,
        shdr_interp,
        table,
        Some(path),
        set_interpreter,
    )->Ok_0;
    lemma_plan_parts(
        image,
        shdr_dynamic,
        shdr_dynstr,
        shdr_interp,
        table,
        Some(path),
        set_interpreter,
    );
    lemma_plan_inside(
        image,
        shdr_dynamic,
        shdr_dynstr,
        shdr_interp,
        table,
        Some(path),
        set_interpreter,
    );
    lemma_plan_apart(
        image,
        shdr_dynamic,
        shdr_dynstr,
        shdr_interp,
        table,
        Some(path),
        set_interpreter,
    );
    let (victim, _) = dynstr_plan(image, shdr_dynstr, path)->Ok_0;
    let slot = slot_of(table->Ok_0, victim as u64)->0;
    assert forall|m: int| 0 <= m < plan.len() && m != 0 && m != 1 implies clear_of(
        #[trigger] plan[m],
        shdr_dynamic,
    ) by {
        assert(within(plan[2], shdr_interp));
    }
    lemma_reads_back_core(image, plan, 0, 1, shdr_dynamic, shdr_dynstr, path, victim, slot);
    if terminated(table->Ok_0) {
        let patched = applied(image, ordered(plan));
        let after = dyn_table(
            section_data(patched, shdr_dynamic),
            class_of(image),
            endianness_of(image),
        );
        lemma_runpath_before_terminator(table->Ok_0, after, victim as u64, slot);
        assert(after[slot].d_tag == DT_RUNPATH);
    }
}

/// An interpreter that a run sets is read back. Let the object be laid out
/// soundly, the path hold no NUL, and the plan of a run that is asked for
/// the interpreter succeed. Then in the bytes with the plan applied in
/// order of offset the NUL-terminated string at the start of `.interp` is
/// the path, and what `.interp` holds behind that NUL is as it was.
pub proof fn lemma_interpreter_reads_back(
    image: Seq<u8>,
    shdr_dynamic: SectionHeader,
    shdr_dynstr: SectionHeader,
    shdr_interp: SectionHeader,
    table: Result<Seq<Dyn>, Fault>,
    set_runpath: Option<Seq<u8>>,
    path: Seq<u8>,
)
    requires
        sound_layout(image, shdr_dynamic, shdr_dynstr, shdr_interp, table),
        forall|k: int| 0 <= k < path.len() ==> path[k] != 0,
        run_plan(
            image,
            shdr_dynamic,
            shdr_dynstr,
            shdr_interp,
            table,
            set_runpath,
            Some(path),
        ) is Ok,
    ensures
        ({
            let plan = run_plan(
                image,
                shdr_dynamic,
                shdr_dynstr,
                shdr_interp,
                table,
                set_runpath,
                Some(path),
            )->Ok_0;
            let old_section = section_data(image, shdr_interp);
            let section = section_data(applied(image, ordered(plan)), shdr_interp);
            &&& section.len() == old_section.len()
            &&& path.len() < section.len()
            &&& nul_from(section, 0) == path.len()
            &&& entry_at(section, 0) == path
            &&& forall|k: int| path.len() < k < section.len() ==> section[k] == old_section[k]
        }),
{
    let plan = run_plan(
        image,
        shdr_dynamic,
        shdr_dynstr,
        shdr_interp,
        table,
        set_runpath,
        Some(path),
    )->Ok_0;
    lemma_plan_parts(image, shdr_dynamic, shdr_dynstr, shdr_interp, table, set_runpath, Some(path));
    lemma_plan_inside(image, shdr_dynamic, shdr_dynstr, shdr_interp, table, set_runpath, Some(path));
    lemma_plan_apart(image, shdr_dynamic, shdr_dynstr, shdr_interp, table, set_runpath, Some(path));
    lemma_apply_writes_the_plan(image, plan);
    let last = plan.len() - 1;
    let section = section_data(applied(image, ordered(plan)), shdr_interp);
    assert forall|k: int| 0 <= k <= path.len() implies section[k] == path.push(0)[k] by {
        assert(covers(plan[last], shdr_interp.sh_offset + k));
    }
    assert forall|k: int| 0 <= k < path.len() implies section[0int + k] == path[k] by {
        assert(section[k] == path.push(0)[k]);
    }
    assert(section[path.len() as int] == path.push(0)[path.len() as int]);
    lemma_entry_reads_back(section, 0, path);
    assert forall|k: int| path.len() < k < section.len() implies section[k] == section_data(
        image,
        shdr_interp,
    )[k] by {
        let pos = shdr_interp.sh_offset + k;
        assert forall|m: int| 0 <= m < plan.len() implies !covers(#[trigger] plan[m], pos) by {
            if m < last {
                if m == 0 {
                    assert(within(plan[0], shdr_dynstr));
                } else {
                    assert(within(plan[1], shdr_dynamic));
                }
            }
        }
        assert(untouched(plan, pos));
    }
}

/// Whether the byte at `pos` belongs to the section.
pub open spec fn in_section(shdr: SectionHeader, pos: int) -> bool {
    shdr.sh_offset <= pos < shdr.sh_offset + shdr.sh_size
}

/// A run changes nothing outside the three sections. Let the object be laid
/// out soundly and the plan of a run succeed. Then the bytes with the plan
/// applied in order of offset have the length of the file, and every byte
/// that belongs to none of `.interp`, `.dynstr` and `.dynamic` is as it was:
/// the file header, the section headers and the program headers, which lie
/// outside the sections, among them.
pub proof fn lemma_run_changes_sections_only(
    image: Seq<u8>,
    shdr_dynamic: SectionHeader,
    shdr_dynstr: SectionHeader,
    shdr_interp: SectionHeader,
    table: Result<Seq<Dyn>, Fault>,
    set_runpath: Option<Seq<u8>>,
    set_interpreter: Option<Seq<u8>>,
)
    requires
        sound_layout(image, shdr_dynamic, shdr_dynstr, shdr_interp, table),
        run_plan(
            image,
            shdr_dynamic,
            shdr_dynstr,
            shdr_interp,
            table,
            set_runpath,
            set_interpreter,
        ) is Ok,
    ensures
        ({
            let plan = run_plan(
                image,
                shdr_dynamic,
                shdr_dynstr,
                shdr_interp,
                table,
                set_runpath,
                set_interpreter,
            )->Ok_0;
            let patched = applied(image, ordered(plan));
            &&& patched.len() == image.len()
            &&& forall|pos: int|
                0 <= pos < image.len() && !in_section(shdr_interp, pos) && !in_section(
                    shdr_dynstr,
                    pos,
                ) && !in_section(shdr_dynamic, pos) ==> #[trigger] patched[pos] == image[pos]
        }),
{
    let plan = run_plan(
        image,
        shdr_dynamic,
        shdr_dynstr,
        shdr_interp,
        table,
        set_runpath,
        set_interpreter,
    )->Ok_0;
    lemma_plan_parts(
        image,
        shdr_dynamic,
        shdr_dynstr,
        shdr_interp,
        table,
        set_runpath,
        set_interpreter,
    );
    lemma_plan_inside(
        image,
        shdr_dynamic,
        shdr_dynstr,
        shdr_interp,
        table,
        set_runpath,
        set_interpreter,
    );
    lemma_plan_apart(
        image,
        shdr_dynamic,
        shdr_dynstr,
        shdr_interp,
        table,
        set_runpath,
        set_interpreter,
    );
    lemma_apply_writes_the_plan(image, plan);
    let patched = applied(image, ordered(plan));
    assert forall|pos: int|
        0 <= pos < image.len() && !in_section(shdr_interp, pos) && !in_section(shdr_dynstr, pos)
            && !in_section(shdr_dynamic, pos) implies #[trigger] patched[pos] == image[pos] by {
        assert forall|m: int| 0 <= m < plan.len() implies !covers(#[trigger] plan[m], pos) by {
            if set_runpath is Some {
                if m == 0 {
                    assert(within(plan[0], shdr_dynstr));
                } else if m == 1 {
                    assert(within(plan[1], shdr_dynamic));
                } else {
                    assert(within(plan[2], shdr_interp));
                }
            } else {
                assert(within(plan[0], shdr_interp));
            }
        }
        assert(untouched(plan, pos));
    }
}

/// Applying a plan whose patches lie inside the file, in order of offset,
/// keeps the file's length.
pub proof fn lemma_apply_keeps_len(image: Seq<u8>, plan: Seq<(int, Seq<u8>)>)
    requires
        all_inside(plan, image.len()),
    ensures
        applied(image, ordered(plan)).len() == image.len(),
{
    lemma_all_inside_ordered(plan, image.len());
    lemma_applied_len(image, ordered(plan));
}

} // verus!
