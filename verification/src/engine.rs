//! What the run harness decides: the arguments that the guest sees, and how
//! the end of its run is judged.

use vstd::prelude::*;

verus! {

/// The name under which a guest runs where the path of its file has no file
/// name.
pub open spec fn default_program_name() -> Seq<char> {
    "component"@
}

/// The file name that `std::path::Path::file_name` reads from the text of a
/// path, on the platform the library is built for: a function of the text
/// alone.
pub uninterp spec fn path_file_name(path: Seq<char>) -> Option<Seq<char>>;

/// `std::path::Path::file_name`: the last component of the path, where it
/// has one that is text.
#[verifier::external_body]
fn file_name_of(path: &str) -> (r: Option<String>)
    ensures
        r.deep_view() == path_file_name(path@),
{
    std::path::Path::new(path).file_name().and_then(|n| n.to_str()).map(|n| n.to_string())
}

/// The arguments that a guest sees when its file has the given name: the
/// name, or `component` where there is none, and behind it the arguments
/// that were handed on.
pub open spec fn arguments_for(file_name: Option<Seq<char>>, args: Seq<Seq<char>>) -> Seq<
    Seq<char>,
> {
    match file_name {
        Some(name) => seq![name] + args,
        None => seq![default_program_name()] + args,
    }
}

/// The arguments that a guest sees when its file has the given name.
pub fn guest_arguments_named(file_name: Option<String>, args: &Vec<String>) -> (r: Vec<String>)
    ensures
        r.deep_view() == arguments_for(file_name.deep_view(), args.deep_view()),
{
    let mut out: Vec<String> = Vec::new();
    match file_name {
        Some(name) => out.push(name),
        None => out.push("component".to_owned()),
    }
    let ghost first = out.deep_view();
    let mut i: usize = 0;
    assert(first + args.deep_view().take(0) =~= out.deep_view());
    while i < args.len()
        invariant
            i <= args.len(),
            out.deep_view() == first + args.deep_view().take(i as int),
        decreases args.len() - i,
    {
        let ghost before = out.deep_view();
        out.push(args[i].clone());
        assert(out.deep_view() =~= before.push(args[i as int]@));
        assert(first + args.deep_view().take(i + 1) =~= before.push(args[i as int]@));
        i += 1;
    }
    assert(args.deep_view().take(i as int) =~= args.deep_view());
    assert(first =~= seq![first[0]]);
    out
}

/// The arguments that a guest sees: the file name of the component, or
/// `component` where its path has none, and behind it the arguments that
/// were handed on.
pub fn guest_arguments(wasm_path: &str, args: &Vec<String>) -> (r: Vec<String>)
    ensures
        r.deep_view() == arguments_for(path_file_name(wasm_path@), args.deep_view()),
{
    guest_arguments_named(file_name_of(wasm_path), args)
}

/// The code that is recorded for a guest that leaves with a status and no
/// code: 0 for success, 1 for failure.
pub fn exit_code(succeeded: bool) -> (code: i32)
    ensures
        code == if succeeded {
            0i32
        } else {
            1i32
        },
{
    if succeeded {
        0
    } else {
        1
    }
}

/// How the run of a guest ended.
#[derive(Debug, Clone, Copy, PartialEq, Eq, Structural)]
pub enum GuestOutcome {
    /// The entry point returned success.
    Completed,
    /// The entry point returned failure.
    Failed,
    /// The guest left through the exit call.
    Exited,
    /// The guest was stopped by any other trap.
    Trapped,
}

/// What the harness does once the guest has ended.
#[derive(Debug, Clone, Copy, PartialEq, Eq, Structural)]
pub enum RunVerdict {
    /// The run counts: the recording is saved, or the replay is finished.
    Finalize,
    /// The run failed with the generic error of a run.
    Fail,
    /// The trap is handed on as it is.
    Propagate,
}

/// Judges the end of a run. An exit is no failure: it was recorded as an
/// event, and the run is finalized as after a success. A failure of the entry
/// point fails the run; any other trap is handed on.
pub fn judge(outcome: GuestOutcome) -> (r: RunVerdict)
    ensures
        r == match outcome {
            GuestOutcome::Completed => RunVerdict::Finalize,
            GuestOutcome::Exited => RunVerdict::Finalize,
            GuestOutcome::Failed => RunVerdict::Fail,
            GuestOutcome::Trapped => RunVerdict::Propagate,
        },
{
    match outcome {
        GuestOutcome::Completed => RunVerdict::Finalize,
        GuestOutcome::Exited => RunVerdict::Finalize,
        GuestOutcome::Failed => RunVerdict::Fail,
        GuestOutcome::Trapped => RunVerdict::Propagate,
    }
}

} // verus!
