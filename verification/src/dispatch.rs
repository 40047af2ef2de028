//! Decisions the command dispatcher delegates to the core: which builder
//! an operation name denotes, where an inspection reads from, and the
//! final command substitution of the run verb.

use vstd::prelude::*;
use vstd::string::StrSliceExecFns;
use vstd::string::StringExecFns;
use crate::model::Context;
use crate::placeholder::{has_unique_ph, is_ph_at, ph_index, replace_ph, splice};
use crate::FrsError;

verus! {

/// The builders the composition entry point knows.
#[derive(Clone, Copy, Debug, PartialEq, Eq, Structural)]
pub enum BuilderKind {
    /// Enter a working directory.
    Workdir,
    /// Extend the search path.
    SearchPath,
    /// Inject an environment variable.
    EnvVar,
    /// Prepend a literal command.
    RunCommand,
    /// Wrap in a container.
    Docker,
    /// Replace the context with a named one.
    NamedContext,
    /// Replace the context with a fresh base context.
    Empty,
}

/// Which builder a name denotes, if any.
pub open spec fn builder_kind_of(n: Seq<char>) -> Option<BuilderKind> {
    if n == "workdir"@ {
        Option::Some(BuilderKind::Workdir)
    } else if n == "path"@ {
        Option::Some(BuilderKind::SearchPath)
    } else if n == "env"@ {
        Option::Some(BuilderKind::EnvVar)
    } else if n == "command"@ {
        Option::Some(BuilderKind::RunCommand)
    } else if n == "docker"@ {
        Option::Some(BuilderKind::Docker)
    } else if n == "context"@ {
        Option::Some(BuilderKind::NamedContext)
    } else if n == "empty"@ {
        Option::Some(BuilderKind::Empty)
    } else {
        Option::None
    }
}

/// Whether two string slices hold the same characters.
fn str_eq(a: &str, b: &str) -> (r: bool)
    ensures
        r == (a@ == b@),
{
    let x = String::from_str(a);
    let y = String::from_str(b);
    x == y
}

/// Resolve an operation name handed to the composition entry point; a
/// name outside the builder list is an unknown-operation error, and
/// nothing else is.
pub fn resolve_builder(builder: &str) -> (r: Result<BuilderKind, FrsError>)
    ensures
        r is Ok <==> builder_kind_of(builder@) is Some,
        r matches Ok(k) ==> builder_kind_of(builder@) == Some(k),
        r matches Err(e) ==> e == FrsError::UnknownOperation,
{
    if str_eq(builder, "workdir") {
        Ok(BuilderKind::Workdir)
    } else if str_eq(builder, "path") {
        Ok(BuilderKind::SearchPath)
    } else if str_eq(builder, "env") {
        Ok(BuilderKind::EnvVar)
    } else if str_eq(builder, "command") {
        Ok(BuilderKind::RunCommand)
    } else if str_eq(builder, "docker") {
        Ok(BuilderKind::Docker)
    } else if str_eq(builder, "context") {
        Ok(BuilderKind::NamedContext)
    } else if str_eq(builder, "empty") {
        Ok(BuilderKind::Empty)
    } else {
        Err(FrsError::UnknownOperation)
    }
}

/// Where an inspection reads its context from.
#[derive(Clone, Copy, Debug, PartialEq, Eq, Structural)]
pub enum InspectSource {
    /// The current session's context.
    SessionCurrent,
    /// The named record at `(namespace, name)`.
    NamedRecord,
}

/// Decide where `inspect` reads from: the default name means the current
/// session context, but only within the default namespace; any other name
/// is a named load.
pub fn inspect_source(namespace: &str, name: &str) -> (r: Result<InspectSource, FrsError>)
    ensures
        name@ != "default"@ ==> r == Ok::<InspectSource, FrsError>(InspectSource::NamedRecord),
        name@ == "default"@ && namespace@ == "default"@ ==> r == Ok::<InspectSource, FrsError>(
            InspectSource::SessionCurrent,
        ),
        name@ == "default"@ && namespace@ != "default"@ ==> r == Err::<InspectSource, FrsError>(
            FrsError::Configuration,
        ),
{
    if str_eq(name, "default") {
        if str_eq(namespace, "default") {
            Ok(InspectSource::SessionCurrent)
        } else {
            Err(FrsError::Configuration)
        }
    } else {
        Ok(InspectSource::NamedRecord)
    }
}

/// Substitute the caller's final command for the placeholder: the command
/// string the run verb hands to the external shell.
pub fn render_run(context: &Context, command: &str) -> (r: String)
    ensures
        has_unique_ph(context@.template) ==> r@ == splice(
            context@.template,
            ph_index(context@.template),
            command@,
        ),
        (forall|j: int| !is_ph_at(context@.template, j)) ==> r@ == context@.template,
{
    replace_ph(context.template.as_str(), command)
}

} // verus!
