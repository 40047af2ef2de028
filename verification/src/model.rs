//! The context model: metadata, step log, environment snapshot and shell
//! template, together with their mathematical views.

use vstd::prelude::*;
use vstd::string::StrSliceExecFns;
use vstd::string::StringExecFns;
use crate::placeholder::{has_unique_ph, ph, placeholder_str};

verus! {

/// One recorded composition step: a full literal record of the operation,
/// and an optional short summary for interactive displays.
#[derive(Debug, PartialEq)]
pub struct MetadataStepLog {
    /// Full literal record of the operation and its arguments.
    pub description: String,
    /// Short human-facing summary; absent when the operation should not
    /// appear in compact views.
    pub prompt: Option<String>,
}

/// Metadata of a context: its address, dirtiness, and provenance trail.
#[derive(Debug, PartialEq)]
pub struct Metadata {
    /// User-chosen grouping for saved contexts.
    pub namespace: String,
    /// The context's name; empty for an unsaved context.
    pub name: String,
    /// Whether the context changed since creation, load or save.
    pub is_dirty: bool,
    /// Ordered, append-only audit trail of the operations applied.
    pub step_log: Vec<MetadataStepLog>,
}

/// The full composable state flowing through operations.
#[derive(Debug, PartialEq)]
pub struct Context {
    /// The context's metadata.
    pub meta: Metadata,
    /// Accumulated display snapshot of environment entries, keys unique.
    pub env: Vec<(String, String)>,
    /// Shell source holding exactly one placeholder occurrence.
    pub template: String,
}

/// The mathematical value of one step-log entry.
#[verifier::ext_equal]
pub ghost struct StepView {
    /// The entry's full description.
    pub description: Seq<char>,
    /// The entry's optional prompt fragment.
    pub prompt: Option<Seq<char>>,
}

/// The mathematical value of a context's metadata.
#[verifier::ext_equal]
pub ghost struct MetaView {
    /// The namespace, as characters.
    pub namespace: Seq<char>,
    /// The name, as characters.
    pub name: Seq<char>,
    /// The dirtiness flag.
    pub is_dirty: bool,
    /// The step log, in order.
    pub step_log: Seq<StepView>,
}

/// The mathematical value of a whole context.
#[verifier::ext_equal]
pub ghost struct CtxView {
    /// The metadata.
    pub meta: MetaView,
    /// The environment entries, in insertion order.
    pub env: Seq<(Seq<char>, Seq<char>)>,
    /// The template, as characters.
    pub template: Seq<char>,
}

impl View for MetadataStepLog {
    type V = StepView;

    open spec fn view(&self) -> StepView {
        StepView {
            description: self.description@,
            prompt: match self.prompt {
                Option::Some(p) => Option::Some(p@),
                Option::None => Option::None,
            },
        }
    }
}

impl View for Metadata {
    type V = MetaView;

    open spec fn view(&self) -> MetaView {
        MetaView {
            namespace: self.namespace@,
            name: self.name@,
            is_dirty: self.is_dirty,
            step_log: self.step_log@.map_values(|s: MetadataStepLog| s@),
        }
    }
}

impl View for Context {
    type V = CtxView;

    open spec fn view(&self) -> CtxView {
        CtxView {
            meta: self.meta@,
            env: self.env@.map_values(|p: (String, String)| (p.0@, p.1@)),
            template: self.template@,
        }
    }
}

/// The environment snapshot maps each key to at most one value.
pub open spec fn env_keys_unique(env: Seq<(Seq<char>, Seq<char>)>) -> bool {
    forall|i: int, j: int| 0 <= i < j < env.len() ==> (#[trigger] env[i]).0 != (#[trigger] env[j]).0
}

/// A well-formed context: its template holds exactly one placeholder
/// occurrence and its environment keys are unique.
pub open spec fn ctx_wf(c: CtxView) -> bool {
    has_unique_ph(c.template) && env_keys_unique(c.env)
}

/// The version entry every base context starts its environment with.
pub open spec fn base_env() -> Seq<(Seq<char>, Seq<char>)> {
    seq![("FRS_VERSION"@, "0.1.0"@)]
}

/// The value of a freshly created base context.
pub open spec fn base_context_view() -> CtxView {
    CtxView {
        meta: MetaView {
            namespace: "default"@,
            name: "default"@,
            is_dirty: false,
            step_log: Seq::empty(),
        },
        env: base_env(),
        template: ph(),
    }
}

/// Create the anonymous base context: addressed `default`/`default`, clean,
/// with an empty step log and a template that is the bare placeholder.
pub fn get_base_context() -> (r: Context)
    ensures
        r@ == base_context_view(),
        ctx_wf(r@),
{
    let mut env: Vec<(String, String)> = Vec::new();
    env.push((String::from_str("FRS_VERSION"), String::from_str("0.1.0")));
    let r = Context {
        meta: Metadata {
            namespace: String::from_str("default"),
            name: String::from_str("default"),
            is_dirty: false,
            step_log: Vec::new(),
        },
        env,
        template: String::from_str(placeholder_str()),
    };
    proof {
        assert(r@.env =~= base_env());
        assert(r@.meta.step_log =~= Seq::<StepView>::empty());
        assert(r@ =~= base_context_view()) by {
            crate::placeholder::lemma_ph_alone_unique();
        }
        crate::placeholder::lemma_ph_alone_unique();
    }
    r
}

/// Replace the whole in-memory context with one loaded from a named
/// address: a substitution, not a wrap; nothing of the old context is kept.
pub fn activate_context(context: Context, loaded: Context) -> (r: Context)
    ensures
        r@ == loaded@,
{
    let _ = context;
    loaded
}

} // verus!
