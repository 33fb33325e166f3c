//! A whole run: plan what was asked for, then apply the plan.

use crate::opts::Opts;
use crate::patch;
use crate::patch::{
    all_inside, applied, interp_plan, ordered, overwritten_by, patch_views, runpath_plan,
    DynstrPatchCandidates, Fault, Patch, Patcher, DT_RUNPATH,
};
use crate::sparse_elf;
use crate::sparse_elf::{
    class_of, dynamic_of, endianness_of, find_headers, has_tag, Dyn, SectionHeader,
};
use vstd::prelude::*;
use vstd::utf8::encode_utf8;

verus! {

/// Why a run failed.
#[derive(Debug)]
#[allow(inconsistent_fields)]
pub enum Error {
    PatchElf { source: patch::Error },
    SparseElf { source: sparse_elf::Error },
    /// The object has a `DT_RUNPATH` already; it is not overwritten.
    RunpathAlreadySet,
}

/// The reasons for which a run fails, without the causes that the errors
/// carry.
#[allow(inconsistent_fields)]
pub enum RunFault {
    PatchElf { fault: Fault },
    SparseElf { fault: sparse_elf::Fault },
    RunpathAlreadySet,
}

impl Error {
    /// The reason that this error reports.
    pub open spec fn fault(self) -> RunFault {
        match self {
            Error::PatchElf { source } => RunFault::PatchElf { fault: source.fault() },
            Error::SparseElf { source } => RunFault::SparseElf { fault: source.fault() },
            Error::RunpathAlreadySet => RunFault::RunpathAlreadySet,
        }
    }
}

/// How a run without error ended.
#[derive(Debug)]
pub enum Outcome {
    /// Nothing was asked for; the object is as it was.
    NothingToDo,
    /// The planned patches are written into the bytes of the object; these
    /// are the patches, in the order in which they were written, and the
    /// candidate whose name in `.dynstr` the new runpath overwrites, where
    /// one was asked for.
    Patched { patches: Vec<Patch>, overwritten: Option<DynstrPatchCandidates> },
}

/// The bytes of the path that an option holds.
pub open spec fn path_of(option: Option<String>) -> Option<Seq<u8>> {
    match option {
        Some(path) => Some(encode_utf8(path@)),
        None => None,
    }
}

/// The patches that set the runpath of an object in a run, which looks for
/// a `DT_RUNPATH` itself before it asks the planner.
pub open spec fn new_runpath_plan(
    image: Seq<u8>,
    shdr_dynstr: SectionHeader,
    table: Result<Seq<Dyn>, sparse_elf::Fault>,
    shdr_dynamic: SectionHeader,
    path: Seq<u8>,
) -> Result<Seq<(int, Seq<u8>)>, RunFault> {
    if table is Err {
        Err(RunFault::SparseElf { fault: table->Err_0 })
    } else if has_tag(table->Ok_0, DT_RUNPATH) {
        Err(RunFault::RunpathAlreadySet)
    } else {
        match runpath_plan(
            image,
            shdr_dynstr,
            table,
            shdr_dynamic,
            path,
            class_of(image),
            endianness_of(image),
        ) {
            Ok(patches) => Ok(patches),
            Err(fault) => Err(RunFault::PatchElf { fault }),
        }
    }
}

/// The patches of a run over an object with the given headers and dynamic
/// table: those for the runpath, where one is asked for, then the one for
/// the interpreter, where one is asked for.
pub open spec fn run_plan(
    image: Seq<u8>,
    shdr_dynamic: SectionHeader,
    shdr_dynstr: SectionHeader,
    shdr_interp: SectionHeader,
    table: Result<Seq<Dyn>, sparse_elf::Fault>,
    set_runpath: Option<Seq<u8>>,
    set_interpreter: Option<Seq<u8>>,
) -> Result<Seq<(int, Seq<u8>)>, RunFault> {
    let first = match set_runpath {
        Some(path) => new_runpath_plan(image, shdr_dynstr, table, shdr_dynamic, path),
        None => Ok(Seq::empty()),
    };
    match (first, set_interpreter) {
        (Err(fault), _) => Err(fault),
        (Ok(patches), None) => Ok(patches),
        (Ok(patches), Some(path)) => match interp_plan(shdr_interp, path) {
            Ok(patch) => Ok(patches.push(patch)),
            Err(fault) => Err(RunFault::PatchElf { fault }),
        },
    }
}

/// The patches that a run plans for an object, or the reason why the
/// object has no view or no plan.
pub open spec fn planned(
    image: Seq<u8>,
    set_runpath: Option<Seq<u8>>,
    set_interpreter: Option<Seq<u8>>,
) -> Result<Seq<(int, Seq<u8>)>, RunFault> {
    match find_headers(image) {
        Ok(headers) => run_plan(
            image,
            headers.dynamic,
            headers.dynstr,
            headers.interp,
            dynamic_of(image),
            set_runpath,
            set_interpreter,
        ),
        Err(fault) => Err(RunFault::PatchElf { fault: Fault::SparseElf { fault } }),
    }
}

/// What a run makes of an object: its bytes afterwards, or the reason why
/// nothing is written.
pub open spec fn run_result(
    image: Seq<u8>,
    set_runpath: Option<Seq<u8>>,
    set_interpreter: Option<Seq<u8>>,
) -> Result<Seq<u8>, RunFault> {
    match planned(image, set_runpath, set_interpreter) {
        Err(fault) => Err(fault),
        Ok(patches) => if all_inside(patches, image.len()) {
            Ok(applied(image, ordered(patches)))
        } else {
            Err(
                RunFault::PatchElf {
                    fault: Fault::SeekElf {
                        offset: ordered(patches)[patch::first_outside(
                            ordered(patches),
                            image.len(),
                            0,
                        )].0 as usize,
                    },
                },
            )
        },
    }
}

/// Plans what `opts` asks for on the object that `image` holds, and writes
/// the plan into `image`. An object that has a `DT_RUNPATH` gets no other.
/// Whatever fails, `image` stays as it was; it never changes its length.
pub fn run(opts: Opts, image: &mut Vec<u8>) -> (r: Result<Outcome, Error>)
    ensures
        final(image)@.len() == old(image)@.len(),
        match run_result(old(image)@, path_of(opts.set_runpath), path_of(opts.set_interpreter)) {
            Ok(patched) => {
                &&& final(image)@ == patched
                &&& r matches Ok(outcome)
                &&& outcome is NothingToDo <==> opts.set_runpath is None
                    && opts.set_interpreter is None
                &&& outcome matches Outcome::Patched { patches, overwritten } ==> {
                    &&& patch_views(patches@) == ordered(
                        planned(
                            old(image)@,
                            path_of(opts.set_runpath),
                            path_of(opts.set_interpreter),
                        )->Ok_0,
                    )
                    &&& overwritten == match path_of(opts.set_runpath) {
                        Some(path) => overwritten_by(
                            old(image)@,
                            find_headers(old(image)@)->Ok_0.dynstr,
                            path,
                        ),
                        None => None,
                    }
                }
            },
            Err(fault) => {
                &&& final(image)@ == old(image)@
                &&& r matches Err(e)
                &&& e.fault() == fault
            },
        },
        ({
            &&& opts.set_runpath is Some
            &&& find_headers(old(image)@) is Ok
            &&& dynamic_of(old(image)@) is Ok
            &&& has_tag(dynamic_of(old(image)@)->Ok_0, DT_RUNPATH)
        }) ==> r matches Err(Error::RunpathAlreadySet),
{
    let mut patcher = match Patcher::new(image.clone()) {
        Ok(patcher) => patcher,
        Err(source) => {
            return Err(Error::PatchElf { source });
        },
    };
    let ghost layout = patcher.elf;
    let ghost table = dynamic_of(image@);
    assert(patcher.plan() =~= Seq::empty());
    if let Some(runpath) = opts.set_runpath {
        match patcher.elf.dynamic_contains(DT_RUNPATH) {
            Ok(true) => {
                return Err(Error::RunpathAlreadySet);
            },
            Ok(false) => {},
            Err(source) => {
                return Err(Error::SparseElf { source });
            },
        }
        match patcher.set_runpath(runpath.as_str()) {
            Ok(()) => {},
            Err(patch::Error::RunpathAlreadySet) => {
                return Err(Error::RunpathAlreadySet);
            },
            Err(source) => {
                return Err(Error::PatchElf { source });
            },
        }
        assert(new_runpath_plan(
            image@,
            layout.shdr_dynstr,
            table,
            layout.shdr_dynamic,
            encode_utf8(runpath@),
        ) == Ok::<Seq<(int, Seq<u8>)>, RunFault>(patcher.plan())) by {
            let patches = runpath_plan(
                image@,
                layout.shdr_dynstr,
                table,
                layout.shdr_dynamic,
                encode_utf8(runpath@),
                class_of(image@),
                endianness_of(image@),
            )->Ok_0;
            assert(Seq::<(int, Seq<u8>)>::empty() + patches =~= patches);
        }
    }
    if let Some(interpreter_path) = opts.set_interpreter {
        match patcher.set_interpreter_path(interpreter_path.as_str()) {
            Ok(()) => {},
            Err(source) => {
                return Err(Error::PatchElf { source });
            },
        }
    }
    let ghost plan = patcher.plan();
    proof {
        assert(run_plan(
            image@,
            patcher.elf.shdr_dynamic,
            patcher.elf.shdr_dynstr,
            patcher.elf.shdr_interp,
            dynamic_of(image@),
            path_of(opts.set_runpath),
            path_of(opts.set_interpreter),
        ) == Ok::<Seq<(int, Seq<u8>)>, RunFault>(plan));
    }
    if patcher.is_empty() {
        assert(plan =~= Seq::empty());
        assert(ordered(plan) =~= Seq::empty());
        return Ok(Outcome::NothingToDo);
    }
    let mut patched = image.clone();
    assert(patched@ == image@);
    proof {
        patch::lemma_all_inside_ordered(plan, image@.len());
        patch::lemma_ordered(plan);
        assert(ordered(plan).take(ordered(plan).len() as int) =~= ordered(plan));
    }
    match patcher.apply(&mut patched) {
        Ok(()) => {},
        Err(source) => {
            return Err(Error::PatchElf { source });
        },
    }
    *image = patched;
    Ok(Outcome::Patched { patches: patcher.patches, overwritten: patcher.overwritten })
}

} // verus!
