//! The composition engine: pure operations mapping a context to a new
//! context by template rewriting and provenance appending.

use vstd::prelude::*;
use vstd::string::StrSliceExecFns;
use vstd::string::StringExecFns;
use crate::model::{Context, CtxView, MetaView, MetadataStepLog, StepView};
use crate::placeholder::{
    has_unique_ph, lemma_ph_index, lemma_splice_unique, ph, ph_index, placeholder_str, pre_ok,
    replace_ph, splice, wrap_text,
};
use crate::text::{
    first_token, first_token_str, last_component, parent_path, path_last, path_parent, quoted,
    append_quoted,
};

verus! {

/// No parenthesis occurs in `s`.  Arguments clear of parentheses keep the
/// spliced template's placeholder occurrence unique.
pub open spec fn paren_free(s: Seq<char>) -> bool {
    forall|i: int| 0 <= i < s.len() ==> #[trigger] s[i] != '(' && s[i] != ')'
}

/// The opening text `with_workdir` wraps around the placeholder.
pub open spec fn pre_workdir(w: Seq<char>) -> Seq<char> {
    "(cd "@ + w + ";\n "@
}

/// The opening text `with_path` wraps around the placeholder.
pub open spec fn pre_path(p: Seq<char>) -> Seq<char> {
    "(export PATH=${PATH}:"@ + p + ";\n "@
}

/// The opening text `with_env` wraps around the placeholder.
pub open spec fn pre_env(k: Seq<char>, v: Seq<char>) -> Seq<char> {
    "(export "@ + k + "="@ + v + ";\n "@
}

/// The opening text `with_command` wraps around the placeholder.
pub open spec fn pre_command(c: Seq<char>) -> Seq<char> {
    "("@ + c + ";\n "@
}

/// The opening text `with_docker` wraps around the placeholder.
pub open spec fn pre_docker(d: Seq<char>) -> Seq<char> {
    "(docker run "@ + d + " "@
}

/// The step-log entry `with_workdir` appends.
pub open spec fn step_workdir(w: Seq<char>) -> StepView {
    StepView {
        description: "core::with_workdir "@ + quoted(w),
        prompt: Option::Some("wd(.."@ + last_component(w) + ")"@),
    }
}

/// The step-log entry `with_path` appends: a toolchain summary when the
/// path's last component is literally `bin`, else a plain path summary.
pub open spec fn step_path(p: Seq<char>) -> StepView {
    StepView {
        description: "core::with_path "@ + quoted(p),
        prompt: Option::Some(
            if last_component(p) == "bin"@ {
                "toolchain("@ + last_component(parent_path(p)) + ")"@
            } else {
                "path("@ + last_component(p) + ")"@
            },
        ),
    }
}

/// The step-log entry `with_env` appends.
pub open spec fn step_env(k: Seq<char>, v: Seq<char>) -> StepView {
    StepView {
        description: "core::with_env "@ + quoted(k) + "="@ + quoted(v),
        prompt: Option::Some("env("@ + k + ")"@),
    }
}

/// The step-log entry `with_command` appends.
pub open spec fn step_command(c: Seq<char>) -> StepView {
    StepView {
        description: "core::with_command "@ + quoted(c),
        prompt: Option::Some("exec("@ + first_token(c) + ")"@),
    }
}

/// The step-log entry `with_docker` appends.
pub open spec fn step_docker(d: Seq<char>) -> StepView {
    StepView {
        description: "core::with_docker "@ + quoted(d),
        prompt: Option::Some("ctr("@ + d + ")"@),
    }
}

/// One wrap-style operation, reduced to what it does: the opening text it
/// splices in, and the step-log entry it appends.
#[verifier::ext_equal]
pub ghost struct WrapView {
    /// The opening text put before the fresh placeholder.
    pub pre: Seq<char>,
    /// The appended provenance entry.
    pub step: StepView,
}

/// What `with_workdir` does.
pub open spec fn wrap_workdir(w: Seq<char>) -> WrapView {
    WrapView { pre: pre_workdir(w), step: step_workdir(w) }
}

/// What `with_path` does.
pub open spec fn wrap_path(p: Seq<char>) -> WrapView {
    WrapView { pre: pre_path(p), step: step_path(p) }
}

/// What `with_env` does.
pub open spec fn wrap_env(k: Seq<char>, v: Seq<char>) -> WrapView {
    WrapView { pre: pre_env(k, v), step: step_env(k, v) }
}

/// What `with_command` does.
pub open spec fn wrap_command(c: Seq<char>) -> WrapView {
    WrapView { pre: pre_command(c), step: step_command(c) }
}

/// What `with_docker` does.
pub open spec fn wrap_docker(d: Seq<char>) -> WrapView {
    WrapView { pre: pre_docker(d), step: step_docker(d) }
}

/// One wrap applied to a context value: it turns the dirty flag on,
/// appends exactly one step-log entry, leaves namespace, name and
/// environment alone, and splices the wrap over the sole placeholder.
pub open spec fn apply_wrap_view(c: CtxView, w: WrapView) -> CtxView {
    CtxView {
        meta: MetaView {
            namespace: c.meta.namespace,
            name: c.meta.name,
            is_dirty: true,
            step_log: c.meta.step_log.push(w.step),
        },
        env: c.env,
        template: splice(c.template, ph_index(c.template), wrap_text(w.pre)),
    }
}

/// A chain of wraps applied in call order.
pub open spec fn apply_wraps_view(c: CtxView, ws: Seq<WrapView>) -> CtxView
    decreases ws.len(),
{
    if ws.len() == 0 {
        c
    } else {
        apply_wraps_view(apply_wrap_view(c, ws.first()), ws.drop_first())
    }
}

/// A well-shaped opening text for each wrap in a chain.
pub open spec fn wraps_ok(ws: Seq<WrapView>) -> bool {
    forall|i: int| 0 <= i < ws.len() ==> pre_ok((#[trigger] ws[i]).pre)
}

/// Placeholder invariant, order and count: a chain of `N` well-shaped
/// wraps, starting from a template with exactly one placeholder
/// occurrence, keeps exactly one occurrence; its step log is the old one
/// with the `N` wraps' entries appended in call order; namespace, name and
/// environment stay as they were; and after at least one wrap the context
/// is dirty.
pub proof fn lemma_wrap_chain(c: CtxView, ws: Seq<WrapView>)
    requires
        has_unique_ph(c.template),
        wraps_ok(ws),
    ensures
        has_unique_ph(apply_wraps_view(c, ws).template),
        apply_wraps_view(c, ws).meta.step_log == c.meta.step_log + ws.map_values(
            |w: WrapView| w.step,
        ),
        apply_wraps_view(c, ws).meta.step_log.len() == c.meta.step_log.len() + ws.len(),
        ws.len() > 0 ==> apply_wraps_view(c, ws).meta.is_dirty,
        ws.len() == 0 ==> apply_wraps_view(c, ws) == c,
        apply_wraps_view(c, ws).meta.namespace == c.meta.namespace,
        apply_wraps_view(c, ws).meta.name == c.meta.name,
        apply_wraps_view(c, ws).env == c.env,
    decreases ws.len(),
{
    if ws.len() == 0 {
        assert(c.meta.step_log + ws.map_values(|w: WrapView| w.step) =~= c.meta.step_log);
    } else {
        lemma_ph_index(c.template);
        lemma_splice_unique(c.template, ph_index(c.template), ws.first().pre);
        let c1 = apply_wrap_view(c, ws.first());
        assert(has_unique_ph(c1.template));
        lemma_wrap_chain(c1, ws.drop_first());
        assert(c1.meta.step_log + ws.drop_first().map_values(|w: WrapView| w.step)
            =~= c.meta.step_log + ws.map_values(|w: WrapView| w.step));
    }
}

/// Placeholder invariant from the start: any chain of well-shaped wraps
/// applied to a fresh base context leaves a template with exactly one
/// placeholder occurrence.
pub proof fn lemma_placeholder_invariant(ws: Seq<WrapView>)
    requires
        wraps_ok(ws),
    ensures
        has_unique_ph(apply_wraps_view(crate::model::base_context_view(), ws).template),
{
    crate::placeholder::lemma_ph_alone_unique();
    lemma_wrap_chain(crate::model::base_context_view(), ws);
}

/// `pre_ok` for an opening text assembled out of parenthesis-free pieces
/// behind a leading `(`.
proof fn lemma_pre_ok_concat(
    a: Seq<char>,
    m1: Seq<char>,
    b: Seq<char>,
    m2: Seq<char>,
    e: Seq<char>,
)
    requires
        a.len() >= 1,
        a[0] == '(',
        forall|q: int| 1 <= q < a.len() ==> #[trigger] a[q] != '(' && a[q] != ')',
        paren_free(m1),
        paren_free(b),
        paren_free(m2),
        paren_free(e),
        a.len() + m1.len() + b.len() + m2.len() + e.len() >= 4,
    ensures
        pre_ok(a + m1 + b + m2 + e),
{
    let s = a + m1 + b + m2 + e;
    assert forall|q: int| 1 <= q < s.len() implies #[trigger] s[q] != '(' && s[q] != ')' by {
        if q < a.len() {
            assert(s[q] == a[q]);
        } else if q < a.len() + m1.len() {
            assert(s[q] == m1[q - a.len()]);
        } else if q < a.len() + m1.len() + b.len() {
            assert(s[q] == b[q - a.len() - m1.len()]);
        } else if q < a.len() + m1.len() + b.len() + m2.len() {
            assert(s[q] == m2[q - a.len() - m1.len() - b.len()]);
        } else {
            assert(s[q] == e[q - a.len() - m1.len() - b.len() - m2.len()]);
        }
    }
    assert(s[0] == a[0]);
}

/// Parenthesis-free working directories give `with_workdir` a well-shaped
/// opening text.
pub proof fn lemma_pre_workdir_ok(w: Seq<char>)
    requires
        paren_free(w),
    ensures
        pre_ok(pre_workdir(w)),
{
    reveal_strlit("(cd ");
    reveal_strlit(";\n ");
    lemma_pre_ok_concat("(cd "@, w, ";\n "@, Seq::empty(), Seq::empty());
    assert("(cd "@ + w + ";\n "@ + Seq::<char>::empty() + Seq::<char>::empty() =~= pre_workdir(w));
}

/// Parenthesis-free paths give `with_path` a well-shaped opening text.
pub proof fn lemma_pre_path_ok(p: Seq<char>)
    requires
        paren_free(p),
    ensures
        pre_ok(pre_path(p)),
{
    reveal_strlit("(export PATH=${PATH}:");
    reveal_strlit(";\n ");
    lemma_pre_ok_concat("(export PATH=${PATH}:"@, p, ";\n "@, Seq::empty(), Seq::empty());
    assert("(export PATH=${PATH}:"@ + p + ";\n "@ + Seq::<char>::empty() + Seq::<char>::empty()
        =~= pre_path(p));
}

/// Parenthesis-free keys and values give `with_env` a well-shaped opening
/// text.
pub proof fn lemma_pre_env_ok(k: Seq<char>, v: Seq<char>)
    requires
        paren_free(k),
        paren_free(v),
    ensures
        pre_ok(pre_env(k, v)),
{
    reveal_strlit("(export ");
    reveal_strlit("=");
    reveal_strlit(";\n ");
    lemma_pre_ok_concat("(export "@, k, "="@, v, ";\n "@);
    assert("(export "@ + k + "="@ + v + ";\n "@ =~= pre_env(k, v));
}

/// Parenthesis-free commands give `with_command` a well-shaped opening
/// text.
pub proof fn lemma_pre_command_ok(c: Seq<char>)
    requires
        paren_free(c),
    ensures
        pre_ok(pre_command(c)),
{
    reveal_strlit("(");
    reveal_strlit(";\n ");
    lemma_pre_ok_concat("("@, c, ";\n "@, Seq::empty(), Seq::empty());
    assert("("@ + c + ";\n "@ + Seq::<char>::empty() + Seq::<char>::empty() =~= pre_command(c));
}

/// Parenthesis-free container names give `with_docker` a well-shaped
/// opening text.
pub proof fn lemma_pre_docker_ok(d: Seq<char>)
    requires
        paren_free(d),
    ensures
        pre_ok(pre_docker(d)),
{
    reveal_strlit("(docker run ");
    reveal_strlit(" ");
    lemma_pre_ok_concat("(docker run "@, d, " "@, Seq::empty(), Seq::empty());
    assert("(docker run "@ + d + " "@ + Seq::<char>::empty() + Seq::<char>::empty() =~= pre_docker(
        d,
    ));
}

/// Splice the assembled wrap text over the placeholder and append the
/// step entry; shared tail of every wrap operation.
fn finish_wrap(context: Context, pre: String, entry: MetadataStepLog, Ghost(w): Ghost<WrapView>)
    -> (r: Context)
    requires
        has_unique_ph(context@.template),
        pre@ == w.pre,
        entry@ == w.step,
    ensures
        r@ == apply_wrap_view(context@, w),
        pre_ok(w.pre) ==> has_unique_ph(r@.template),
{
    let ghost old_ctx = context@;
    let mut context = context;
    context.meta.is_dirty = true;
    context.meta.step_log.push(entry);
    let mut full = pre;
    full.append(placeholder_str());
    full.append(")");
    proof {
        reveal_strlit(")");
        assert(full@ =~= wrap_text(w.pre));
    }
    let rewritten = replace_ph(context.template.as_str(), full.as_str());
    context.template = rewritten;
    proof {
        lemma_ph_index(old_ctx.template);
        assert(context@.meta.step_log =~= old_ctx.meta.step_log.push(w.step));
        assert(context@ =~= apply_wrap_view(old_ctx, w));
        if pre_ok(w.pre) {
            lemma_splice_unique(old_ctx.template, ph_index(old_ctx.template), w.pre);
        }
    }
    context
}

/// Enter `workdir`, then run the inner command: wraps the template, turns
/// the dirty flag on, and records a `wd(..)` step.
pub fn with_workdir(context: Context, workdir: String) -> (r: Context)
    requires
        has_unique_ph(context@.template),
    ensures
        r@ == apply_wrap_view(context@, wrap_workdir(workdir@)),
        paren_free(workdir@) ==> has_unique_ph(r@.template),
{
    let mut desc = String::from_str("core::with_workdir ");
    append_quoted(&mut desc, workdir.as_str());
    let mut prompt = String::from_str("wd(..");
    let lc = path_last(workdir.as_str());
    prompt.append(lc.as_str());
    prompt.append(")");
    let mut pre = String::from_str("(cd ");
    pre.append(workdir.as_str());
    pre.append(";\n ");
    proof {
        if paren_free(workdir@) {
            lemma_pre_workdir_ok(workdir@);
        }
    }
    finish_wrap(
        context,
        pre,
        MetadataStepLog { description: desc, prompt: Some(prompt) },
        Ghost(wrap_workdir(workdir@)),
    )
}

/// Extend `PATH` with `path`, then run the inner command: wraps the
/// template, turns the dirty flag on, and records a `path(..)` or
/// `toolchain(..)` step.
pub fn with_path(context: Context, path: String) -> (r: Context)
    requires
        has_unique_ph(context@.template),
    ensures
        r@ == apply_wrap_view(context@, wrap_path(path@)),
        paren_free(path@) ==> has_unique_ph(r@.template),
{
    let mut desc = String::from_str("core::with_path ");
    append_quoted(&mut desc, path.as_str());
    let file_name = path_last(path.as_str());
    let prompt = if file_name == String::from_str("bin") {
        let parent = path_parent(path.as_str());
        let parent_name = path_last(parent.as_str());
        let mut p = String::from_str("toolchain(");
        p.append(parent_name.as_str());
        p.append(")");
        p
    } else {
        let mut p = String::from_str("path(");
        p.append(file_name.as_str());
        p.append(")");
        p
    };
    let mut pre = String::from_str("(export PATH=${PATH}:");
    pre.append(path.as_str());
    pre.append(";\n ");
    proof {
        if paren_free(path@) {
            lemma_pre_path_ok(path@);
        }
    }
    finish_wrap(
        context,
        pre,
        MetadataStepLog { description: desc, prompt: Some(prompt) },
        Ghost(wrap_path(path@)),
    )
}

/// Export `key=value`, then run the inner command: wraps the template,
/// turns the dirty flag on, and records an `env(..)` step.
pub fn with_env(context: Context, key: String, value: String) -> (r: Context)
    requires
        has_unique_ph(context@.template),
    ensures
        r@ == apply_wrap_view(context@, wrap_env(key@, value@)),
        paren_free(key@) && paren_free(value@) ==> has_unique_ph(r@.template),
{
    let mut desc = String::from_str("core::with_env ");
    append_quoted(&mut desc, key.as_str());
    desc.append("=");
    append_quoted(&mut desc, value.as_str());
    let mut prompt = String::from_str("env(");
    prompt.append(key.as_str());
    prompt.append(")");
    let mut pre = String::from_str("(export ");
    pre.append(key.as_str());
    pre.append("=");
    pre.append(value.as_str());
    pre.append(";\n ");
    proof {
        if paren_free(key@) && paren_free(value@) {
            lemma_pre_env_ok(key@, value@);
        }
    }
    finish_wrap(
        context,
        pre,
        MetadataStepLog { description: desc, prompt: Some(prompt) },
        Ghost(wrap_env(key@, value@)),
    )
}

/// Run `cmd`, then run the inner command: wraps the template, turns the
/// dirty flag on, and records an `exec(..)` step naming the command's
/// first token.
pub fn with_command(context: Context, cmd: String) -> (r: Context)
    requires
        has_unique_ph(context@.template),
    ensures
        r@ == apply_wrap_view(context@, wrap_command(cmd@)),
        paren_free(cmd@) ==> has_unique_ph(r@.template),
{
    let mut desc = String::from_str("core::with_command ");
    append_quoted(&mut desc, cmd.as_str());
    let cmd_first = first_token_str(cmd.as_str());
    let mut prompt = String::from_str("exec(");
    prompt.append(cmd_first.as_str());
    prompt.append(")");
    let mut pre = String::from_str("(");
    pre.append(cmd.as_str());
    pre.append(";\n ");
    proof {
        if paren_free(cmd@) {
            lemma_pre_command_ok(cmd@);
        }
    }
    finish_wrap(
        context,
        pre,
        MetadataStepLog { description: desc, prompt: Some(prompt) },
        Ghost(wrap_command(cmd@)),
    )
}

/// Run the inner command inside `container`: wraps the template, turns
/// the dirty flag on, and records a `ctr(..)` step.
pub fn with_docker(context: Context, container: String) -> (r: Context)
    requires
        has_unique_ph(context@.template),
    ensures
        r@ == apply_wrap_view(context@, wrap_docker(container@)),
        paren_free(container@) ==> has_unique_ph(r@.template),
{
    let mut desc = String::from_str("core::with_docker ");
    append_quoted(&mut desc, container.as_str());
    let mut prompt = String::from_str("ctr(");
    prompt.append(container.as_str());
    prompt.append(")");
    let mut pre = String::from_str("(docker run ");
    pre.append(container.as_str());
    pre.append(" ");
    proof {
        if paren_free(container@) {
            lemma_pre_docker_ok(container@);
        }
    }
    finish_wrap(
        context,
        pre,
        MetadataStepLog { description: desc, prompt: Some(prompt) },
        Ghost(wrap_docker(container@)),
    )
}

} // verus!
