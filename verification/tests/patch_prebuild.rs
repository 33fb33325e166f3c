use patchelfdd::opts::Opts;
use patchelfdd::patch::{
    bytes_equal, choose_slot, choose_victim, find_entry, is_valid, joined, sort_patches, with_nul,
    DynstrPatchCandidates, Error as PatchError, Patch, Patcher, DT_NULL, DT_RUNPATH,
};
use patchelfdd::serialize::{AnyEndian, Class};
use patchelfdd::sparse_elf::{bytes_contain, Dyn, Error as SparseError, SparseElf};
use patchelfdd::{run, Error, Outcome};

use std::path::PathBuf;

const TEST_INTERPPATH: &str = "/lib-sus.so";
const ITM: &str = "_ITM_deregisterTMCloneTable";
const GMON: &str = "__gmon_start__";
const DT_NEEDED: i64 = 1;
const DT_STRTAB: i64 = 5;

/// What goes into an ELF object that is built in memory.
struct Fixture {
    wide: bool,
    little: bool,
    interp: Vec<u8>,
    dynstr: Vec<u8>,
    dynamic: Vec<(i64, u64)>,
    dynamic_tail: Vec<u8>,
    names: [&'static str; 3],
}

/// The object and where its three sections start.
struct Built {
    image: Vec<u8>,
    interp_at: usize,
    dynstr_at: usize,
    dynamic_at: usize,
}

fn put(out: &mut Vec<u8>, value: u64, width: usize, little: bool) {
    let bytes = value.to_le_bytes();
    if little {
        out.extend_from_slice(&bytes[..width]);
    } else {
        let mut part = bytes[..width].to_vec();
        part.reverse();
        out.extend_from_slice(&part);
    }
}

fn strtab(names: &[&str]) -> Vec<u8> {
    let mut out = vec![0u8];
    for name in names {
        out.extend_from_slice(name.as_bytes());
        out.push(0);
    }
    out
}

fn offset_in(table: &[u8], name: &str) -> u64 {
    let mut needle = vec![0u8];
    needle.extend_from_slice(name.as_bytes());
    needle.push(0);
    let at = table
        .windows(needle.len())
        .position(|window| window == needle.as_slice())
        .expect("name is in the table");
    at as u64 + 1
}

fn section_header(
    out: &mut Vec<u8>,
    fixture: &Fixture,
    name: u64,
    kind: u64,
    offset: u64,
    size: u64,
    entsize: u64,
) {
    let word = if fixture.wide { 8 } else { 4 };
    put(out, name, 4, fixture.little);
    put(out, kind, 4, fixture.little);
    put(out, 0, word, fixture.little);
    put(out, 0, word, fixture.little);
    put(out, offset, word, fixture.little);
    put(out, size, word, fixture.little);
    put(out, 0, 4, fixture.little);
    put(out, 0, 4, fixture.little);
    put(out, 1, word, fixture.little);
    put(out, entsize, word, fixture.little);
}

fn build(fixture: &Fixture) -> Built {
    let word = if fixture.wide { 8 } else { 4 };
    let header_len = if fixture.wide { 64 } else { 52 };
    let shstrtab = strtab(&[fixture.names[0], fixture.names[1], fixture.names[2], ".shstrtab"]);
    let mut dynamic = Vec::new();
    for (tag, value) in &fixture.dynamic {
        put(&mut dynamic, *tag as u64, word, fixture.little);
        put(&mut dynamic, *value, word, fixture.little);
    }
    dynamic.extend_from_slice(&fixture.dynamic_tail);
    let interp_at = header_len;
    let dynstr_at = interp_at + fixture.interp.len();
    let dynamic_at = dynstr_at + fixture.dynstr.len();
    let shstrtab_at = dynamic_at + dynamic.len();
    let headers_at = shstrtab_at + shstrtab.len();

    let mut image = vec![0x7f, b'E', b'L', b'F'];
    image.push(if fixture.wide { 2 } else { 1 });
    image.push(if fixture.little { 1 } else { 2 });
    image.push(1);
    image.extend_from_slice(&[0u8; 9]);
    put(&mut image, 3, 2, fixture.little);
    put(&mut image, if fixture.wide { 62 } else { 3 }, 2, fixture.little);
    put(&mut image, 1, 4, fixture.little);
    put(&mut image, 0, word, fixture.little);
    put(&mut image, 0, word, fixture.little);
    put(&mut image, headers_at as u64, word, fixture.little);
    put(&mut image, 0, 4, fixture.little);
    put(&mut image, header_len as u64, 2, fixture.little);
    put(&mut image, 0, 2, fixture.little);
    put(&mut image, 0, 2, fixture.little);
    put(&mut image, if fixture.wide { 64 } else { 40 }, 2, fixture.little);
    put(&mut image, 5, 2, fixture.little);
    put(&mut image, 4, 2, fixture.little);
    assert_eq!(image.len(), header_len);

    image.extend_from_slice(&fixture.interp);
    image.extend_from_slice(&fixture.dynstr);
    image.extend_from_slice(&dynamic);
    image.extend_from_slice(&shstrtab);

    let name_of = |index: usize| -> u64 {
        let mut at = 1;
        for name in &fixture.names[..index] {
            at += name.len() + 1;
        }
        at as u64
    };
    let shstrtab_name = name_of(3);
    section_header(&mut image, fixture, 0, 0, 0, 0, 0);
    section_header(&mut image, fixture, name_of(0), 1, interp_at as u64, fixture.interp.len() as u64, 0);
    section_header(&mut image, fixture, name_of(1), 3, dynstr_at as u64, fixture.dynstr.len() as u64, 0);
    section_header(
        &mut image,
        fixture,
        name_of(2),
        6,
        dynamic_at as u64,
        dynamic.len() as u64,
        2 * word as u64,
    );
    section_header(&mut image, fixture, shstrtab_name, 3, shstrtab_at as u64, shstrtab.len() as u64, 0);
    Built { image, interp_at, dynstr_at, dynamic_at }
}

/// A small executable: it needs `libc.so.6`, names the two housekeeping
/// symbols, and ends its dynamic table with spare terminators.
fn minimal(wide: bool, little: bool) -> Fixture {
    let dynstr = strtab(&[
        "libc.so.6",
        GMON,
        ITM,
        "_ITM_registerTMCloneTable",
        "__libc_start_main",
    ]);
    let needed = offset_in(&dynstr, "libc.so.6");
    Fixture {
        wide,
        little,
        interp: b"/lib64/ld-linux-x86-64.so.2\0".to_vec(),
        dynamic: vec![(DT_NEEDED, needed), (DT_STRTAB, 0x400), (DT_NULL, 0), (DT_NULL, 0), (DT_NULL, 0)],
        dynstr,
        dynamic_tail: vec![],
        names: [".interp", ".dynstr", ".dynamic"],
    }
}

fn opts(set_runpath: Option<&str>, set_interpreter: Option<&str>) -> Opts {
    Opts {
        bin: PathBuf::from("object"),
        set_runpath: set_runpath.map(|path| path.to_string()),
        set_interpreter: set_interpreter.map(|path| path.to_string()),
    }
}

fn string_at(table: &[u8], at: usize) -> Vec<u8> {
    let end = table[at..].iter().position(|&byte| byte == 0).expect("a NUL ends the string");
    table[at..at + end].to_vec()
}

/// Patches a copy of the object and reads the result back: one `DT_RUNPATH`
/// that points at the path, the interpreter as asked, nothing else touched.
fn test_prebuild_patch(fixture: &Fixture, scratch_dir: &str) -> Result<(), Error> {
    let built = build(fixture);
    let mut image = built.image.clone();

    let outcome = run(opts(Some(scratch_dir), Some(TEST_INTERPPATH)), &mut image)?;
    let written = match outcome {
        Outcome::Patched { patches, overwritten } => {
            assert_eq!(overwritten, Some(DynstrPatchCandidates::ITMDeregisterTMCloneTable));
            patches
        }
        Outcome::NothingToDo => panic!("patches were asked for"),
    };
    assert_eq!(written.len(), 3);
    assert!(written.windows(2).all(|pair| pair[0].offset <= pair[1].offset));
    for patch in &written {
        assert_eq!(&image[patch.offset..patch.offset + patch.data.len()], patch.data.as_slice());
    }
    assert_eq!(image.len(), built.image.len());

    let mut elf = SparseElf::new(image.clone()).expect("the patched object parses");
    let table = elf.dynamic().expect("the patched object has a dynamic table");
    let runpaths: Vec<&Dyn> = table.iter().filter(|entry| entry.d_tag == DT_RUNPATH).collect();
    assert_eq!(runpaths.len(), 1);
    let runpath_at = table.iter().position(|entry| entry.d_tag == DT_RUNPATH).unwrap();
    let terminator_at = table.iter().position(|entry| entry.d_tag == DT_NULL).unwrap();
    assert!(runpath_at < terminator_at);
    let dynstr = &image[built.dynstr_at..built.dynstr_at + fixture.dynstr.len()];
    assert_eq!(string_at(dynstr, runpaths[0].d_val as usize), scratch_dir.as_bytes());
    assert_eq!(
        elf.dynstr().unwrap().get(runpaths[0].d_val as usize).unwrap(),
        scratch_dir
    );
    assert_eq!(string_at(&image, built.interp_at), TEST_INTERPPATH.as_bytes());

    let victim = offset_in(&fixture.dynstr, ITM) as usize;
    assert_eq!(runpaths[0].d_val as usize, victim);
    let width = if fixture.wide { 16 } else { 8 };
    let slot = fixture.dynamic.iter().position(|entry| entry.0 == DT_NULL).unwrap();
    let touched = [
        (built.interp_at, TEST_INTERPPATH.len() + 1),
        (built.dynstr_at + victim, scratch_dir.len() + 1),
        (built.dynamic_at + slot * width, width),
    ];
    for (at, byte) in image.iter().enumerate() {
        if !touched.iter().any(|(start, len)| *start <= at && at < start + len) {
            assert_eq!(*byte, built.image[at], "byte {} changed", at);
        }
    }
    Ok(())
}

#[test]
fn patch_minimal_amd64() -> Result<(), Error> {
    test_prebuild_patch(&minimal(true, true), "/tmp/elf64dd")?;
    Ok(())
}

#[test]
fn patch_minimal_i386() -> Result<(), Error> {
    test_prebuild_patch(&minimal(false, true), "/tmp/elf32dd")?;
    Ok(())
}

#[test]
fn patch_itm_gprof_amd64() -> Result<(), String> {
    let mut fixture = minimal(true, true);
    fixture.dynstr = strtab(&["libc.so.6", "libitm.so.1", GMON, ITM, "mcount"]);
    let built = build(&fixture);
    let mut image = built.image.clone();
    match run(opts(Some("/tmp/elf64dd"), Some(TEST_INTERPPATH)), &mut image) {
        Ok(_) => Err("Should fail".to_string()),
        Err(e) => {
            assert!(matches!(
                e,
                Error::PatchElf { source: PatchError::NoDynstrReplacementCandidate }
            ));
            assert_eq!(image, built.image);
            Ok(())
        }
    }
}

#[test]
fn patch_big_endian_objects() -> Result<(), Error> {
    test_prebuild_patch(&minimal(true, false), "/tmp/elf64dd")?;
    test_prebuild_patch(&minimal(false, false), "/tmp/elf32dd")?;
    Ok(())
}

#[test]
fn runpath_entry_has_the_bytes_of_the_class_and_byte_order() {
    for (wide, little, expected) in [
        (false, true, vec![29u8, 0, 0, 0, 26, 0, 0, 0]),
        (false, false, vec![0, 0, 0, 29, 0, 0, 0, 26]),
        (true, true, vec![29, 0, 0, 0, 0, 0, 0, 0, 26, 0, 0, 0, 0, 0, 0, 0]),
        (true, false, vec![0, 0, 0, 0, 0, 0, 0, 29, 0, 0, 0, 0, 0, 0, 0, 26]),
    ] {
        let fixture = minimal(wide, little);
        assert_eq!(offset_in(&fixture.dynstr, ITM), 26);
        let built = build(&fixture);
        let mut patcher = Patcher::new(built.image.clone()).unwrap();
        patcher.set_runpath("/opt/lib").unwrap();
        assert_eq!(patcher.patches.len(), 2);
        assert_eq!(patcher.patches[0].offset, built.dynstr_at + 26);
        assert_eq!(patcher.patches[0].data, b"/opt/lib\0");
        assert_eq!(patcher.patches[1].offset, built.dynamic_at + 2 * expected.len());
        assert_eq!(patcher.patches[1].data, expected);
    }
}

#[test]
fn runpath_already_set() {
    let mut fixture = minimal(true, true);
    fixture.dynamic = vec![(DT_NEEDED, 1), (DT_RUNPATH, 1), (DT_NULL, 0), (DT_NULL, 0)];
    let built = build(&fixture);
    let mut image = built.image.clone();
    let result = run(opts(Some("/tmp/elf64dd"), Some(TEST_INTERPPATH)), &mut image);
    assert!(matches!(result, Err(Error::RunpathAlreadySet)));
    assert_eq!(image, built.image);

    let mut image = built.image.clone();
    let result = run(opts(None, Some(TEST_INTERPPATH)), &mut image);
    assert!(matches!(result, Ok(Outcome::Patched { .. })));
    assert_eq!(string_at(&image, built.interp_at), TEST_INTERPPATH.as_bytes());
}

#[test]
fn the_planner_refuses_an_object_that_has_a_runpath() {
    for (wide, little) in [(true, true), (true, false), (false, true), (false, false)] {
        let mut fixture = minimal(wide, little);
        fixture.dynamic = vec![(DT_NEEDED, 1), (DT_RUNPATH, 1), (DT_NULL, 0), (DT_NULL, 0)];
        let built = build(&fixture);
        for path in ["", "/", "/tmp/elf64dd", "/a/path/that/is/longer/than/any/name/in/the/table"] {
            let mut patcher = Patcher::new(built.image.clone()).unwrap();
            assert!(matches!(patcher.set_runpath(path), Err(PatchError::RunpathAlreadySet)));
            assert!(patcher.is_empty());
            assert_eq!(patcher.patches.len(), 0);
            assert_eq!(patcher.overwritten, None);
        }

        let mut patcher = Patcher::new(built.image.clone()).unwrap();
        patcher.set_interpreter_path(TEST_INTERPPATH).unwrap();
        assert!(matches!(patcher.set_runpath("/tmp"), Err(PatchError::RunpathAlreadySet)));
        assert_eq!(patcher.patches.len(), 1);
        assert_eq!(patcher.patches[0].offset, built.interp_at);
        assert_eq!(patcher.patches[0].data, b"/lib-sus.so\0");
    }

    let mut fixture = minimal(true, true);
    fixture.dynamic = vec![(DT_NULL, 0), (DT_NULL, 0), (DT_RUNPATH, 1)];
    let mut patcher = Patcher::new(build(&fixture).image).unwrap();
    assert!(matches!(patcher.set_runpath("/tmp"), Err(PatchError::RunpathAlreadySet)));
    assert!(patcher.is_empty());
}

#[test]
fn the_overwritten_name_is_told() {
    let built = build(&minimal(true, true));
    let mut patcher = Patcher::new(built.image.clone()).unwrap();
    assert_eq!(patcher.overwritten, None);
    patcher.set_interpreter_path(TEST_INTERPPATH).unwrap();
    assert_eq!(patcher.overwritten, None);
    patcher.set_runpath("/opt").unwrap();
    assert_eq!(patcher.overwritten, Some(DynstrPatchCandidates::ITMDeregisterTMCloneTable));

    let mut fixture = minimal(true, true);
    fixture.dynstr = strtab(&["libc.so.6", "libitm.so.1", ITM, GMON]);
    let built = build(&fixture);
    let mut image = built.image.clone();
    match run(opts(Some("/opt"), None), &mut image).unwrap() {
        Outcome::Patched { patches, overwritten } => {
            assert_eq!(overwritten, Some(DynstrPatchCandidates::GmonStart));
            assert_eq!(patches.len(), 2);
        }
        Outcome::NothingToDo => panic!("a runpath was asked for"),
    }
    let mut image = built.image.clone();
    match run(opts(None, Some("/ld.so")), &mut image).unwrap() {
        Outcome::Patched { patches, overwritten } => {
            assert_eq!(overwritten, None);
            assert_eq!(patches.len(), 1);
        }
        Outcome::NothingToDo => panic!("an interpreter was asked for"),
    }

    fixture.dynamic = vec![(DT_NEEDED, 1), (DT_NULL, 0)];
    let mut patcher = Patcher::new(build(&fixture).image).unwrap();
    assert!(matches!(patcher.set_runpath("/opt"), Err(PatchError::NoApplicableDynamicEntry)));
    assert_eq!(patcher.overwritten, None);
    assert!(patcher.is_empty());
}

#[test]
fn nothing_to_do() {
    let built = build(&minimal(true, true));
    let mut image = built.image.clone();
    let result = run(opts(None, None), &mut image);
    assert!(matches!(result, Ok(Outcome::NothingToDo)));
    assert_eq!(image, built.image);

    let patcher = Patcher::new(built.image.clone()).unwrap();
    assert!(patcher.is_empty());
}

#[test]
fn interpreter_must_fit_with_its_nul() {
    let fixture = minimal(true, true);
    let section_size = fixture.interp.len();
    let built = build(&fixture);

    let one_too_long = "/".repeat(section_size + 1);
    let mut patcher = Patcher::new(built.image.clone()).unwrap();
    match patcher.set_interpreter_path(&one_too_long) {
        Err(PatchError::CannotFitInterpreterPath { section_size: size, requested_size }) => {
            assert_eq!(size, section_size);
            assert_eq!(requested_size, section_size + 1);
        }
        other => panic!("unexpected: {:?}", other),
    }
    assert!(patcher.is_empty());

    let no_room_for_the_nul = "/".repeat(section_size);
    match patcher.set_interpreter_path(&no_room_for_the_nul) {
        Err(PatchError::CannotFitInterpreterPath { section_size: size, requested_size }) => {
            assert_eq!(size, section_size);
            assert_eq!(requested_size, section_size);
        }
        other => panic!("unexpected: {:?}", other),
    }
    assert!(patcher.is_empty());

    let exact = "/".repeat(section_size - 1);
    patcher.set_interpreter_path(&exact).unwrap();
    assert!(!patcher.is_empty());
    assert_eq!(patcher.patches.len(), 1);
    assert_eq!(patcher.patches[0].offset, built.interp_at);
    let mut expected = exact.as_bytes().to_vec();
    expected.push(0);
    assert_eq!(patcher.patches[0].data, expected);

    let mut image = built.image.clone();
    let result = run(opts(None, Some(&one_too_long)), &mut image);
    assert!(matches!(
        result,
        Err(Error::PatchElf { source: PatchError::CannotFitInterpreterPath { .. } })
    ));
    assert_eq!(image, built.image);
}

#[test]
fn shorter_interpreter_leaves_the_tail_of_the_old_one() {
    let fixture = minimal(true, true);
    let built = build(&fixture);
    let mut image = built.image.clone();
    run(opts(None, Some("/ld.so")), &mut image).unwrap();
    assert_eq!(&image[built.interp_at..built.interp_at + 7], b"/ld.so\0");
    assert_eq!(
        &image[built.interp_at + 7..built.interp_at + fixture.interp.len()],
        &fixture.interp[7..]
    );
}

#[test]
fn the_more_preferred_candidate_is_chosen() {
    let mut fixture = minimal(true, true);
    fixture.dynstr = strtab(&["libc.so.6", GMON, "puts", ITM]);
    let built = build(&fixture);
    let mut patcher = Patcher::new(built.image.clone()).unwrap();
    let victim = patcher.set_runpath_dynstr("/opt").unwrap();
    assert_eq!(victim as u64, offset_in(&fixture.dynstr, ITM));
    assert_eq!(patcher.patches.len(), 1);
    assert_eq!(patcher.patches[0].offset, built.dynstr_at + victim);
    assert_eq!(patcher.patches[0].data, b"/opt\0");
}

#[test]
fn a_candidate_whose_runtime_is_linked_is_left_alone() {
    let mut fixture = minimal(true, true);
    fixture.dynstr = strtab(&["libc.so.6", "libitm.so.1", ITM, GMON]);
    let mut patcher = Patcher::new(build(&fixture).image).unwrap();
    let victim = patcher.set_runpath_dynstr("/opt").unwrap();
    assert_eq!(victim as u64, offset_in(&fixture.dynstr, GMON));

    fixture.dynstr = strtab(&["libc.so.6", "mcount", GMON, ITM]);
    let mut patcher = Patcher::new(build(&fixture).image).unwrap();
    let victim = patcher.set_runpath_dynstr("/opt").unwrap();
    assert_eq!(victim as u64, offset_in(&fixture.dynstr, ITM));
}

#[test]
fn the_path_must_fit_the_overwritten_name() {
    let fixture = minimal(true, true);
    let built = build(&fixture);

    let as_long_as_gmon = "/".repeat(GMON.len());
    let mut only_gmon = minimal(true, true);
    only_gmon.dynstr = strtab(&["libc.so.6", GMON]);
    let mut patcher = Patcher::new(build(&only_gmon).image).unwrap();
    let victim = patcher.set_runpath_dynstr(&as_long_as_gmon).unwrap();
    assert_eq!(victim as u64, offset_in(&only_gmon.dynstr, GMON));
    let mut patcher = Patcher::new(build(&only_gmon).image).unwrap();
    assert!(matches!(
        patcher.set_runpath_dynstr(&"/".repeat(GMON.len() + 1)),
        Err(PatchError::NoDynstrReplacementCandidate)
    ));
    assert!(patcher.is_empty());

    let as_long_as_itm = "/".repeat(ITM.len());
    let mut patcher = Patcher::new(built.image.clone()).unwrap();
    let victim = patcher.set_runpath_dynstr(&as_long_as_itm).unwrap();
    assert_eq!(victim as u64, offset_in(&fixture.dynstr, ITM));

    let too_long = "/".repeat(ITM.len() + 1);
    let mut patcher = Patcher::new(built.image.clone()).unwrap();
    assert!(matches!(
        patcher.set_runpath(&too_long),
        Err(PatchError::NoDynstrReplacementCandidate)
    ));
    assert!(patcher.is_empty());
}

#[test]
fn the_first_spare_terminator_takes_the_entry() {
    let mut fixture = minimal(true, true);
    fixture.dynamic = vec![(DT_NEEDED, 1), (DT_NULL, 0), (DT_NULL, 0)];
    let built = build(&fixture);
    let mut patcher = Patcher::new(built.image.clone()).unwrap();
    patcher.set_runpath_dynamic(26).unwrap();
    assert_eq!(patcher.patches.len(), 1);
    assert_eq!(patcher.patches[0].offset, built.dynamic_at + 16);
}

#[test]
fn a_lone_terminator_is_kept_and_the_referrer_is_taken() {
    let mut fixture = minimal(true, true);
    let victim = offset_in(&fixture.dynstr, ITM);
    fixture.dynamic = vec![(DT_NEEDED, 1), (DT_STRTAB, 0x400), (12, victim), (DT_NULL, 0)];
    let built = build(&fixture);
    let mut image = built.image.clone();
    let outcome = run(opts(Some("/tmp/elf64dd"), None), &mut image).unwrap();
    assert!(matches!(outcome, Outcome::Patched { .. }));
    let mut elf = SparseElf::new(image).unwrap();
    let entries = elf.dynamic_entries().unwrap();
    assert_eq!(
        entries,
        vec![(0, DT_NEEDED, 1), (1, DT_STRTAB, 0x400), (2, DT_RUNPATH, victim), (3, DT_NULL, 0)]
    );
}

#[test]
fn a_runpath_planned_after_an_interpreter() {
    for (wide, little) in [(true, true), (false, false)] {
        let fixture = minimal(wide, little);
        let built = build(&fixture);
        let mut patcher = Patcher::new(built.image.clone()).unwrap();
        patcher.set_interpreter_path(TEST_INTERPPATH).unwrap();
        patcher.set_runpath("/tmp/dd").unwrap();
        assert_eq!(patcher.patches.len(), 3);
        let width = if wide { 16 } else { 8 };
        assert_eq!(patcher.patches[0].offset, built.interp_at);
        assert_eq!(patcher.patches[1].offset, built.dynstr_at + 26);
        assert_eq!(patcher.patches[1].data, b"/tmp/dd\0");
        assert_eq!(patcher.patches[2].offset, built.dynamic_at + 2 * width);
        assert_eq!(patcher.patches[2].data.len(), width);
        for (i, a) in patcher.patches.iter().enumerate() {
            assert!(a.offset + a.data.len() <= built.image.len());
            for b in &patcher.patches[i + 1..] {
                assert!(a.offset + a.data.len() <= b.offset || b.offset + b.data.len() <= a.offset);
            }
        }
        let mut image = built.image.clone();
        patcher.apply(&mut image).unwrap();
        let mut elf = SparseElf::new(image.clone()).unwrap();
        let table = elf.dynamic().unwrap();
        assert_eq!(table.iter().filter(|entry| entry.d_tag == DT_RUNPATH).count(), 1);
        assert_eq!(table[2], Dyn { d_tag: DT_RUNPATH, d_val: 26 });
        assert_eq!(table[3], Dyn { d_tag: DT_NULL, d_val: 0 });
        assert_eq!(elf.dynstr().unwrap().get(26).unwrap(), "/tmp/dd");
        assert_eq!(string_at(&image, built.interp_at), TEST_INTERPPATH.as_bytes());
        assert_eq!(
            &image[built.interp_at + 12..built.interp_at + fixture.interp.len()],
            &fixture.interp[12..]
        );
    }
}

#[test]
fn no_slot_for_the_entry() {
    let mut fixture = minimal(true, true);
    fixture.dynamic = vec![(DT_NEEDED, 1), (DT_STRTAB, 0x400), (DT_NULL, 0)];
    let built = build(&fixture);
    let mut image = built.image.clone();
    let result = run(opts(Some("/tmp/elf64dd"), None), &mut image);
    assert!(matches!(
        result,
        Err(Error::PatchElf { source: PatchError::NoApplicableDynamicEntry })
    ));
    assert_eq!(image, built.image);

    let mut patcher = Patcher::new(built.image.clone()).unwrap();
    assert!(matches!(
        patcher.set_runpath("/tmp/elf64dd"),
        Err(PatchError::NoApplicableDynamicEntry)
    ));
    assert!(patcher.is_empty());

    fixture.dynamic = vec![(DT_NEEDED, 1), (DT_STRTAB, 0x400)];
    let mut patcher = Patcher::new(build(&fixture).image).unwrap();
    assert!(matches!(
        patcher.set_runpath_dynamic(26),
        Err(PatchError::NoApplicableDynamicEntry)
    ));
}

#[test]
fn slot_choice_on_given_tables() {
    let entry = |d_tag: i64, d_val: u64| Dyn { d_tag, d_val };
    assert_eq!(choose_slot(&vec![], 7), None);
    assert_eq!(choose_slot(&vec![entry(1, 7)], 7), None);
    assert_eq!(choose_slot(&vec![entry(0, 0)], 7), None);
    assert_eq!(choose_slot(&vec![entry(0, 7)], 7), Some(0));
    assert_eq!(choose_slot(&vec![entry(1, 7), entry(0, 0)], 7), Some(0));
    assert_eq!(choose_slot(&vec![entry(1, 7), entry(0, 0), entry(0, 0)], 7), Some(1));
    assert_eq!(choose_slot(&vec![entry(1, 7), entry(0, 0), entry(5, 7)], 7), Some(1));
    assert_eq!(choose_slot(&vec![entry(1, 3), entry(2, 7), entry(3, 7), entry(0, 0)], 7), Some(1));
    assert_eq!(choose_slot(&vec![entry(1, 3), entry(2, 4), entry(0, 0)], 7), None);
}

#[test]
fn victim_choice_on_given_entries() {
    let entries = |names: &[&str]| -> Vec<(usize, String)> {
        let mut at = 1;
        let mut out = Vec::new();
        for name in names {
            out.push((at, name.to_string()));
            at += name.len() + 1;
        }
        out
    };
    let both = vec![DynstrPatchCandidates::GmonStart, DynstrPatchCandidates::ITMDeregisterTMCloneTable];
    let found = entries(&["libc.so.6", GMON, ITM, GMON, ITM]);
    assert_eq!(
        choose_victim(&found, &both, 5),
        Some((DynstrPatchCandidates::ITMDeregisterTMCloneTable, 26))
    );
    assert_eq!(
        choose_victim(&found, &vec![DynstrPatchCandidates::GmonStart], 5),
        Some((DynstrPatchCandidates::GmonStart, 11))
    );
    assert_eq!(choose_victim(&found, &vec![], 5), None);
    assert_eq!(choose_victim(&found, &both, 14), Some((DynstrPatchCandidates::ITMDeregisterTMCloneTable, 26)));
    assert_eq!(choose_victim(&found, &vec![DynstrPatchCandidates::GmonStart], 14), Some((DynstrPatchCandidates::GmonStart, 11)));
    assert_eq!(choose_victim(&found, &vec![DynstrPatchCandidates::GmonStart], 15), None);
    assert_eq!(choose_victim(&found, &both, 27), Some((DynstrPatchCandidates::ITMDeregisterTMCloneTable, 26)));
    assert_eq!(choose_victim(&found, &both, 28), None);
    assert_eq!(choose_victim(&entries(&["libc.so.6", "__gmon_start__x"]), &both, 1), None);
    assert_eq!(choose_victim(&entries(&[]), &both, 0), None);

    assert_eq!(find_entry(&found, GMON), Some(11));
    assert_eq!(find_entry(&found, "puts"), None);
    assert!(is_valid(&both, DynstrPatchCandidates::GmonStart));
    assert!(!is_valid(&vec![DynstrPatchCandidates::GmonStart], DynstrPatchCandidates::ITMDeregisterTMCloneTable));
}

#[test]
fn the_candidate_table() {
    assert_eq!(DynstrPatchCandidates::GmonStart.as_string(), GMON);
    assert_eq!(DynstrPatchCandidates::ITMDeregisterTMCloneTable.as_string(), ITM);
    assert_eq!(DynstrPatchCandidates::ITMDeregisterTMCloneTable.priority(), 1);
    assert_eq!(DynstrPatchCandidates::GmonStart.priority(), 10);
    assert_eq!(
        DynstrPatchCandidates::by_priority(),
        [DynstrPatchCandidates::ITMDeregisterTMCloneTable, DynstrPatchCandidates::GmonStart]
    );

    let mut fixture = minimal(true, true);
    let mut elf = SparseElf::new(build(&fixture).image).unwrap();
    assert_eq!(
        DynstrPatchCandidates::get_valid_candiates(&mut elf).unwrap(),
        vec![DynstrPatchCandidates::GmonStart, DynstrPatchCandidates::ITMDeregisterTMCloneTable]
    );
    fixture.dynstr = strtab(&["_mcount", GMON, ITM]);
    let mut elf = SparseElf::new(build(&fixture).image).unwrap();
    assert_eq!(
        DynstrPatchCandidates::get_valid_candiates(&mut elf).unwrap(),
        vec![DynstrPatchCandidates::ITMDeregisterTMCloneTable]
    );
    fixture.dynstr = strtab(&["libitm.so.1", GMON, ITM]);
    let mut elf = SparseElf::new(build(&fixture).image).unwrap();
    assert_eq!(
        DynstrPatchCandidates::get_valid_candiates(&mut elf).unwrap(),
        vec![DynstrPatchCandidates::GmonStart]
    );
    fixture.dynstr = strtab(&["libitm.so.1", "mcount"]);
    let mut elf = SparseElf::new(build(&fixture).image).unwrap();
    assert_eq!(DynstrPatchCandidates::get_valid_candiates(&mut elf).unwrap(), vec![]);
}

#[test]
fn the_view_of_an_object() {
    for (wide, little) in [(true, true), (true, false), (false, true), (false, false)] {
        let fixture = minimal(wide, little);
        let built = build(&fixture);
        let mut elf = SparseElf::new(built.image.clone()).unwrap();
        assert_eq!(elf.class(), if wide { Class::ELF64 } else { Class::ELF32 });
        assert_eq!(elf.endianess(), if little { AnyEndian::Little } else { AnyEndian::Big });
        assert_eq!(elf.shdr_interp.sh_offset, built.interp_at as u64);
        assert_eq!(elf.shdr_interp.sh_size, fixture.interp.len() as u64);
        assert_eq!(elf.shdr_dynstr.sh_offset, built.dynstr_at as u64);
        assert_eq!(elf.shdr_dynstr.sh_size, fixture.dynstr.len() as u64);
        assert_eq!(elf.shdr_dynstr.sh_type, 3);
        assert_eq!(elf.shdr_dynamic.sh_offset, built.dynamic_at as u64);
        assert_eq!(
            elf.shdr_dynamic.sh_size,
            (fixture.dynamic.len() * if wide { 16 } else { 8 }) as u64
        );
        assert_eq!(elf.shdr_dynamic.sh_type, 6);
        assert_eq!(elf.shdr_dynamic.sh_entsize, if wide { 16 } else { 8 });

        let table = elf.dynamic().unwrap();
        let expected: Vec<Dyn> =
            fixture.dynamic.iter().map(|(d_tag, d_val)| Dyn { d_tag: *d_tag, d_val: *d_val }).collect();
        assert_eq!(table, expected);
        assert_eq!(
            elf.dynamic_entries().unwrap(),
            vec![(0, DT_NEEDED, 1), (1, DT_STRTAB, 0x400), (2, 0, 0), (3, 0, 0), (4, 0, 0)]
        );
        assert!(elf.dynamic_contains(DT_NEEDED).unwrap());
        assert!(elf.dynamic_contains(DT_NULL).unwrap());
        assert!(!elf.dynamic_contains(DT_RUNPATH).unwrap());

        assert_eq!(
            elf.dynstr_entries().unwrap(),
            vec![
                (1, "libc.so.6".to_string()),
                (11, GMON.to_string()),
                (26, ITM.to_string()),
                (54, "_ITM_registerTMCloneTable".to_string()),
                (80, "__libc_start_main".to_string()),
            ]
        );
        assert!(elf.dynstr_contains("libc").unwrap());
        assert!(elf.dynstr_contains("_start_").unwrap());
        assert!(elf.dynstr_contains("main").unwrap());
        assert!(elf.dynstr_contains("").unwrap());
        assert!(!elf.dynstr_contains("mcount").unwrap());
        assert!(!elf.dynstr_contains("libitm.so").unwrap());
        assert!(!elf.dynstr_contains("6_").unwrap());
        let names = elf.dynstr().unwrap();
        assert_eq!(names.get(1).unwrap(), "libc.so.6");
        assert_eq!(names.get(6).unwrap(), "so.6");
        assert_eq!(names.get(0).unwrap(), "");
        assert!(names.get(fixture.dynstr.len()).is_err());
    }
}

#[test]
fn negative_tags_are_read_with_their_sign() {
    for (wide, little) in [(true, true), (true, false), (false, true), (false, false)] {
        let mut fixture = minimal(wide, little);
        let value = if wide { 0x0102_0304_0506_0708 } else { 0x0102_0304 };
        fixture.dynamic = vec![(-2, value), (0x6fff_fffe, 3), (DT_NULL, 0)];
        if !wide {
            fixture.dynamic[0].0 = (-2i32) as u32 as i64;
        }
        let mut elf = SparseElf::new(build(&fixture).image).unwrap();
        assert_eq!(
            elf.dynamic().unwrap(),
            vec![
                Dyn { d_tag: -2, d_val: value },
                Dyn { d_tag: 0x6fff_fffe, d_val: 3 },
                Dyn { d_tag: 0, d_val: 0 },
            ]
        );
        assert!(elf.dynamic_contains(-2).unwrap());
    }
}

#[test]
fn bytes_behind_the_last_whole_entry_are_no_entry() {
    for (wide, little) in [(true, true), (false, false)] {
        let mut fixture = minimal(wide, little);
        fixture.dynamic = vec![(DT_NEEDED, 1), (DT_NULL, 0)];
        fixture.dynamic_tail = vec![0; if wide { 15 } else { 7 }];
        let built = build(&fixture);
        let mut elf = SparseElf::new(built.image.clone()).unwrap();
        assert_eq!(
            elf.dynamic().unwrap(),
            vec![Dyn { d_tag: DT_NEEDED, d_val: 1 }, Dyn { d_tag: DT_NULL, d_val: 0 }]
        );
        let mut patcher = Patcher::new(built.image).unwrap();
        assert!(matches!(
            patcher.set_runpath_dynamic(26),
            Err(PatchError::NoApplicableDynamicEntry)
        ));
        assert!(patcher.set_runpath_dynamic(1).is_ok());
        assert_eq!(patcher.patches[0].offset, built.dynamic_at);
    }
}

#[test]
fn offsets_in_the_string_table_count_bytes() {
    let mut fixture = minimal(true, true);
    fixture.dynstr = strtab(&["lib\u{e9}t\u{e9}.so", "\u{4e2d}\u{6587}", GMON]);
    let built = build(&fixture);
    let mut elf = SparseElf::new(built.image.clone()).unwrap();
    assert_eq!(
        elf.dynstr_entries().unwrap(),
        vec![
            (1, "lib\u{e9}t\u{e9}.so".to_string()),
            (13, "\u{4e2d}\u{6587}".to_string()),
            (20, GMON.to_string()),
        ]
    );
    assert!(elf.dynstr_contains("\u{e9}t").unwrap());
    assert!(elf.dynstr_contains("\u{6587}").unwrap());
    assert!(!elf.dynstr_contains("\u{e8}").unwrap());

    let mut image = built.image.clone();
    let path = "/opt/\u{e9}t\u{e9}";
    assert_eq!(path.len(), 10);
    run(opts(Some(path), None), &mut image).unwrap();
    assert_eq!(string_at(&image[built.dynstr_at..], 20), path.as_bytes());

    let mut patcher = Patcher::new(built.image.clone()).unwrap();
    let fits = "\u{e9}".repeat(7);
    assert_eq!(fits.len(), GMON.len());
    assert_eq!(patcher.set_runpath_dynstr(&fits).unwrap(), 20);
    let mut patcher = Patcher::new(built.image).unwrap();
    let too_long = "\u{e9}".repeat(7) + "x";
    assert!(matches!(
        patcher.set_runpath_dynstr(&too_long),
        Err(PatchError::NoDynstrReplacementCandidate)
    ));
}

#[test]
fn an_object_without_one_of_the_sections() {
    let mut fixture = minimal(true, true);
    fixture.names = [".interp", ".dynstr", ".dynamo"];
    assert!(matches!(SparseElf::new(build(&fixture).image), Err(SparseError::NoDynamicSection)));
    fixture.names = [".interp", ".dynsym", ".dynamic"];
    assert!(matches!(SparseElf::new(build(&fixture).image), Err(SparseError::NoDynstrSection)));
    fixture.names = [".intern", ".dynstr", ".dynamic"];
    assert!(matches!(SparseElf::new(build(&fixture).image), Err(SparseError::NoInterpSection)));
    fixture.names = [".intern", ".dynsym", ".dynamo"];
    assert!(matches!(SparseElf::new(build(&fixture).image), Err(SparseError::NoDynamicSection)));

    fixture.names = [".intern", ".dynstr", ".dynamic"];
    let built = build(&fixture);
    let mut image = built.image.clone();
    let result = run(opts(None, Some(TEST_INTERPPATH)), &mut image);
    assert!(matches!(
        result,
        Err(Error::PatchElf { source: PatchError::SparseElf { source: SparseError::NoInterpSection } })
    ));
    assert_eq!(image, built.image);
    assert!(matches!(
        Patcher::new(built.image),
        Err(PatchError::SparseElf { source: SparseError::NoInterpSection })
    ));
}

#[test]
fn bytes_that_are_no_object() {
    assert!(matches!(SparseElf::new(vec![]), Err(SparseError::ParseElf { .. })));
    assert!(matches!(SparseElf::new(b"not an object".to_vec()), Err(SparseError::ParseElf { .. })));
    let built = build(&minimal(true, true));
    let mut cut = built.image.clone();
    cut.truncate(built.image.len() - 1);
    assert!(matches!(SparseElf::new(cut), Err(SparseError::ParseElf { .. })));
    let mut bad_class = built.image.clone();
    bad_class[4] = 3;
    assert!(matches!(SparseElf::new(bad_class), Err(SparseError::ParseElf { .. })));
    let mut bad_order = built.image.clone();
    bad_order[5] = 0;
    assert!(matches!(SparseElf::new(bad_order), Err(SparseError::ParseElf { .. })));

    let mut image = b"not an object".to_vec();
    let result = run(opts(Some("/tmp"), None), &mut image);
    assert!(matches!(
        result,
        Err(Error::PatchElf { source: PatchError::SparseElf { source: SparseError::ParseElf { .. } } })
    ));
    assert_eq!(image, b"not an object");
}

#[test]
fn a_string_table_that_cannot_be_read() {
    let mut fixture = minimal(true, true);
    fixture.dynstr = b"\0libc.so.6\0mcount\0__gmon_start__".to_vec();
    let built = build(&fixture);
    let mut elf = SparseElf::new(built.image.clone()).unwrap();
    assert!(elf.dynstr_contains("libc").unwrap());
    assert!(elf.dynstr_contains("mcount").unwrap());
    assert!(matches!(elf.dynstr_contains("gmon"), Err(SparseError::ParseElf { .. })));
    assert!(matches!(elf.dynstr_contains("libitm.so"), Err(SparseError::ParseElf { .. })));
    assert!(matches!(elf.dynstr_entries(), Err(SparseError::ParseElf { .. })));
    let mut patcher = Patcher::new(built.image.clone()).unwrap();
    assert!(matches!(patcher.set_runpath("/opt"), Err(PatchError::SparseElf { .. })));
    assert!(patcher.is_empty());

    fixture.dynstr = b"\0libitm.so.1\0_mcount\0__gmon_start__".to_vec();
    let built = build(&fixture);
    let mut elf = SparseElf::new(built.image.clone()).unwrap();
    assert_eq!(DynstrPatchCandidates::get_valid_candiates(&mut elf).unwrap(), vec![]);
    let mut patcher = Patcher::new(built.image.clone()).unwrap();
    assert!(matches!(patcher.set_runpath("/opt"), Err(PatchError::ParseElf { .. })));
    assert!(patcher.is_empty());
    let mut image = built.image.clone();
    assert!(matches!(
        run(opts(Some("/opt"), None), &mut image),
        Err(Error::PatchElf { source: PatchError::ParseElf { .. } })
    ));
    assert_eq!(image, built.image);

    fixture.dynstr = b"\0libc.so.6\0\xff\xfe\0__gmon_start__\0".to_vec();
    let mut elf = SparseElf::new(build(&fixture).image).unwrap();
    assert!(elf.dynstr_contains("libc").unwrap());
    assert!(matches!(elf.dynstr_contains("gmon"), Err(SparseError::ParseElf { .. })));
    assert!(matches!(elf.dynstr_entries(), Err(SparseError::ParseElf { .. })));

    let fixture = minimal(true, true);
    let mut elf = SparseElf::new(build(&fixture).image).unwrap();
    elf.shdr_dynstr.sh_type = 1;
    assert!(matches!(elf.dynstr(), Err(SparseError::ParseElf { .. })));
    assert!(matches!(elf.dynstr_contains("libc"), Err(SparseError::ParseElf { .. })));
    assert!(matches!(elf.dynstr_entries(), Err(SparseError::ParseElf { .. })));
    elf.shdr_dynstr.sh_type = 3;
    elf.shdr_dynstr.sh_size = u64::MAX;
    assert!(matches!(elf.dynstr(), Err(SparseError::ParseElf { .. })));
    elf.shdr_dynstr.sh_size = 1 << 40;
    assert!(matches!(elf.dynstr_entries(), Err(SparseError::ParseElf { .. })));
    elf.shdr_dynstr.sh_size = 0;
    assert_eq!(elf.dynstr_entries().unwrap(), vec![]);
    assert!(!elf.dynstr_contains("").unwrap());
}

#[test]
fn an_object_without_a_dynamic_table() {
    let mut fixture = minimal(true, true);
    fixture.names = [".interp", ".dynstr", ".dynamic"];
    let built = build(&fixture);
    let mut image = built.image.clone();
    let headers_at = u64::from_le_bytes(image[40..48].try_into().unwrap()) as usize;
    let type_of_dynamic = headers_at + 3 * 64 + 4;
    image[type_of_dynamic] = 1;
    let mut elf = SparseElf::new(image.clone()).unwrap();
    assert!(matches!(elf.dynamic(), Err(SparseError::NoDynamicSection)));
    assert!(matches!(elf.dynamic_contains(DT_NULL), Err(SparseError::NoDynamicSection)));
    assert!(matches!(elf.dynamic_entries(), Err(SparseError::NoDynamicSection)));
    let before = image.clone();
    let result = run(opts(Some("/tmp"), None), &mut image);
    assert!(matches!(result, Err(Error::SparseElf { source: SparseError::NoDynamicSection })));
    assert_eq!(image, before);
    let mut patcher = Patcher::new(before.clone()).unwrap();
    assert!(matches!(
        patcher.set_runpath_dynamic(26),
        Err(PatchError::SparseElf { source: SparseError::NoDynamicSection })
    ));
    assert!(matches!(
        patcher.set_runpath("/tmp"),
        Err(PatchError::SparseElf { source: SparseError::NoDynamicSection })
    ));
    assert!(patcher.is_empty());

    let size_of_dynamic = headers_at + 3 * 64 + 32;
    let mut image = built.image.clone();
    image[size_of_dynamic + 4] = 1;
    let mut elf = SparseElf::new(image.clone()).unwrap();
    assert!(matches!(elf.dynamic(), Err(SparseError::ParseElf { .. })));
    let result = run(opts(Some("/tmp"), None), &mut image);
    assert!(matches!(result, Err(Error::SparseElf { source: SparseError::ParseElf { .. } })));
}

#[test]
fn offsets_that_overflow() {
    let mut fixture = minimal(true, true);
    fixture.dynamic = vec![(DT_NEEDED, 1), (DT_NULL, 0), (DT_NULL, 0)];
    let mut patcher = Patcher::new(build(&fixture).image).unwrap();
    patcher.elf.shdr_dynamic.sh_offset = u64::MAX - 15;
    assert!(matches!(patcher.set_runpath_dynamic(26), Err(PatchError::IntegerOverflow)));
    assert!(patcher.is_empty());
    patcher.elf.shdr_dynamic.sh_offset = u64::MAX - 16;
    patcher.set_runpath_dynamic(26).unwrap();
    assert_eq!(patcher.patches[0].offset, usize::MAX);
}

#[test]
fn a_value_that_does_not_fit_the_word() {
    let mut patcher = Patcher::new(build(&minimal(false, true)).image).unwrap();
    assert!(matches!(
        patcher.set_runpath_dynamic(1 << 32),
        Err(PatchError::Serializing { .. })
    ));
    assert!(patcher.is_empty());
    patcher.set_runpath_dynamic(u32::MAX as u64).unwrap();
    assert_eq!(patcher.patches[0].data, vec![29, 0, 0, 0, 255, 255, 255, 255]);
}

#[test]
fn a_patch_outside_the_object_stops_the_applier() {
    let fixture = minimal(true, true);
    let built = build(&fixture);
    let len = built.image.len();
    let headers_at = u64::from_le_bytes(built.image[40..48].try_into().unwrap()) as usize;
    let offset_of_interp = headers_at + 64 + 24;
    let mut image = built.image.clone();
    image[offset_of_interp..offset_of_interp + 8].copy_from_slice(&(len as u64 - 4).to_le_bytes());
    let before = image.clone();
    let result = run(opts(Some("/tmp/elf64dd"), Some(TEST_INTERPPATH)), &mut image);
    match result {
        Err(Error::PatchElf { source: PatchError::SeekElf { offset } }) => assert_eq!(offset, len - 4),
        other => panic!("unexpected: {:?}", other),
    }
    assert_eq!(image, before);

    let mut patcher = Patcher::new(before.clone()).unwrap();
    patcher.set_interpreter_path(TEST_INTERPPATH).unwrap();
    patcher.set_runpath("/tmp/elf64dd").unwrap();
    let mut image = before.clone();
    assert!(matches!(patcher.apply(&mut image), Err(PatchError::SeekElf { offset }) if offset == len - 4));
    assert_eq!(image.len(), len);
    assert_eq!(string_at(&image[built.dynstr_at..], 26), b"/tmp/elf64dd");
    assert_eq!(&image[len - 4..], &before[len - 4..]);
}

#[test]
fn patches_are_applied_in_order_of_offset() {
    let patch = |offset: usize, data: &[u8]| Patch { offset, data: data.to_vec() };
    let mut patches = vec![
        patch(9, b"a"),
        patch(4, b"first"),
        patch(0, b"b"),
        patch(4, b"then"),
        patch(9, b"c"),
        patch(4, b"at"),
    ];
    sort_patches(&mut patches);
    let order: Vec<(usize, &[u8])> = patches.iter().map(|p| (p.offset, p.data.as_slice())).collect();
    assert_eq!(
        order,
        vec![
            (0, &b"b"[..]),
            (4, &b"first"[..]),
            (4, &b"then"[..]),
            (4, &b"at"[..]),
            (9, &b"a"[..]),
            (9, &b"c"[..]),
        ]
    );
    let mut none: Vec<Patch> = vec![];
    sort_patches(&mut none);
    assert!(none.is_empty());

    let mut patcher = Patcher::new(build(&minimal(true, true)).image).unwrap();
    patcher.patches = vec![
        patch(9, b"a"),
        patch(4, b"first"),
        patch(0, b"b"),
        patch(4, b"then"),
        patch(9, b"c"),
        patch(4, b"at"),
    ];
    let mut image = b"0123456789".to_vec();
    patcher.apply(&mut image).unwrap();
    assert_eq!(image, b"b123atentc");
    assert_eq!(patcher.patches.len(), 6);
    assert_eq!(patcher.patches[0].offset, 0);
    assert_eq!(patcher.patches[5].data, b"c");

    patcher.patches = vec![patch(8, b"xyz"), patch(2, b"ok"), patch(10, b"")];
    let mut image = b"0123456789".to_vec();
    assert!(matches!(patcher.apply(&mut image), Err(PatchError::SeekElf { offset: 8 })));
    assert_eq!(image, b"01ok456789");

    patcher.patches = vec![patch(10, b""), patch(7, b"end")];
    let mut image = b"0123456789".to_vec();
    patcher.apply(&mut image).unwrap();
    assert_eq!(image, b"0123456end");

    patcher.patches = vec![patch(11, b"")];
    assert!(matches!(patcher.apply(&mut image), Err(PatchError::SeekElf { offset: 11 })));
    patcher.patches = vec![patch(usize::MAX, b"far")];
    assert!(matches!(patcher.apply(&mut image), Err(PatchError::SeekElf { offset: usize::MAX })));
    assert_eq!(image, b"0123456end");
}

#[test]
fn planned_patches_lie_inside_the_object_and_apart() {
    for (wide, little) in [(true, true), (true, false), (false, true), (false, false)] {
        let built = build(&minimal(wide, little));
        let mut patcher = Patcher::new(built.image.clone()).unwrap();
        patcher.set_runpath("/tmp/dd").unwrap();
        patcher.set_interpreter_path(TEST_INTERPPATH).unwrap();
        assert_eq!(patcher.patches.len(), 3);
        for patch in &patcher.patches {
            assert!(patch.offset + patch.data.len() <= built.image.len());
        }
        for (i, a) in patcher.patches.iter().enumerate() {
            for b in &patcher.patches[i + 1..] {
                assert!(a.offset + a.data.len() <= b.offset || b.offset + b.data.len() <= a.offset);
            }
        }
        let mut image = built.image.clone();
        patcher.apply(&mut image).unwrap();
        assert_eq!(image.len(), built.image.len());
    }
}

#[test]
fn byte_strings() {
    assert!(bytes_contain(b"libitm.so.1", b"libitm.so"));
    assert!(bytes_contain(b"_mcount", b"mcount"));
    assert!(bytes_contain(b"abc", b""));
    assert!(bytes_contain(b"", b""));
    assert!(bytes_contain(b"aab", b"ab"));
    assert!(!bytes_contain(b"", b"a"));
    assert!(!bytes_contain(b"mcoun", b"mcount"));
    assert!(!bytes_contain(b"mcuont", b"mcount"));
    assert!(bytes_equal(b"", b""));
    assert!(bytes_equal(b"abc", b"abc"));
    assert!(!bytes_equal(b"abc", b"abd"));
    assert!(!bytes_equal(b"abc", b"ab"));
    assert_eq!(with_nul(b"/opt"), b"/opt\0");
    assert_eq!(with_nul(b""), b"\0");
    assert_eq!(joined(b"ab", b"cde"), b"abcde");
    assert_eq!(joined(b"", b""), b"");
}
