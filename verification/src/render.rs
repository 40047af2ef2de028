//! The presentation layer: three pure renderings of a context, with the
//! exact text each produces stated in full.

use vstd::prelude::*;
use vstd::string::StrSliceExecFns;
use vstd::string::StringExecFns;
use crate::codec::{enc_ctx, encode_context};
use crate::model::{Context, CtxView, MetaView, StepView};
use crate::strutil::push_char;
use crate::text::{append_quoted, quoted, sanitize_string, sanitized};

verus! {

/// One line break.
pub open spec fn nl() -> Seq<char> {
    seq!['\n']
}

/// The comment lines one step-log entry contributes: its prompt line when
/// it has a prompt, then always its description line.
pub open spec fn step_line(st: StepView) -> Seq<char> {
    (match st.prompt {
        Option::Some(p) => "# $ "@ + p + nl(),
        Option::None => Seq::empty(),
    }) + "# ! "@ + st.description + nl()
}

/// The comment lines of a run of step-log entries, in order.
pub open spec fn step_lines(steps: Seq<StepView>) -> Seq<char>
    decreases steps.len(),
{
    if steps.len() == 0 {
        Seq::empty()
    } else {
        step_line(steps.first()) + step_lines(steps.drop_first())
    }
}

/// The display lines of a run of environment entries, in order.
pub open spec fn env_lines(env: Seq<(Seq<char>, Seq<char>)>) -> Seq<char>
    decreases env.len(),
{
    if env.len() == 0 {
        Seq::empty()
    } else {
        "# frs_env: "@ + env.first().0 + "="@ + env.first().1 + nl() + env_lines(env.drop_first())
    }
}

/// The sanitized prompt fragments of a run of step-log entries: entries
/// without a prompt contribute nothing.
pub open spec fn prompt_fragments(steps: Seq<StepView>) -> Seq<char>
    decreases steps.len(),
{
    if steps.len() == 0 {
        Seq::empty()
    } else {
        (match steps.first().prompt {
            Option::Some(p) => seq![' '] + sanitized(p),
            Option::None => Seq::empty(),
        }) + prompt_fragments(steps.drop_first())
    }
}

/// How a context announces itself: its name, prefixed by its namespace
/// unless that is `default`.
pub open spec fn display_name(m: MetaView) -> Seq<char> {
    if m.namespace == "default"@ {
        m.name
    } else {
        m.namespace + "::"@ + m.name
    }
}

/// The executable form: the template, one comment block per step-log
/// entry, and a trailing comment embedding the whole encoded context as a
/// quoted literal.
pub open spec fn shell_form(c: CtxView) -> Seq<char> {
    c.template + nl() + step_lines(c.meta.step_log) + "# FRS_META="@ + quoted(enc_ctx(c)) + nl()
}

/// The inspection form: a name header, the step lines, the environment
/// lines, and the template.
pub open spec fn inspect_form(c: CtxView) -> Seq<char> {
    "# name: "@ + display_name(c.meta) + nl() + step_lines(c.meta.step_log) + env_lines(c.env)
        + c.template + nl()
}

/// The prompt-fragment form: the parenthesized name, then — only when the
/// context is dirty — the sanitized prompt fragments.
pub open spec fn prompt_form(c: CtxView) -> Seq<char> {
    seq!['('] + display_name(c.meta) + seq![')'] + (if c.meta.is_dirty {
        prompt_fragments(c.meta.step_log)
    } else {
        Seq::empty()
    })
}

/// Appending an entry extends the step lines at their end.
proof fn lemma_step_lines_snoc(steps: Seq<StepView>, st: StepView)
    ensures
        step_lines(steps.push(st)) == step_lines(steps) + step_line(st),
    decreases steps.len(),
{
    let whole = steps.push(st);
    assert(whole.first() == if steps.len() == 0 { st } else { steps.first() });
    if steps.len() == 0 {
        assert(whole.drop_first() =~= Seq::<StepView>::empty());
        assert(step_lines(whole) == step_line(st) + step_lines(Seq::<StepView>::empty()));
        assert(step_lines(whole) =~= step_lines(steps) + step_line(st));
    } else {
        assert(whole.drop_first() =~= steps.drop_first().push(st));
        lemma_step_lines_snoc(steps.drop_first(), st);
        assert(step_lines(whole) == step_line(steps.first()) + (step_lines(steps.drop_first())
            + step_line(st)));
        assert(step_lines(whole) =~= step_lines(steps) + step_line(st));
    }
}

/// Appending an entry extends the environment lines at their end.
proof fn lemma_env_lines_snoc(env: Seq<(Seq<char>, Seq<char>)>, p: (Seq<char>, Seq<char>))
    ensures
        env_lines(env.push(p)) == env_lines(env) + ("# frs_env: "@ + p.0 + "="@ + p.1 + nl()),
    decreases env.len(),
{
    let whole = env.push(p);
    assert(whole.first() == if env.len() == 0 { p } else { env.first() });
    if env.len() == 0 {
        assert(whole.drop_first() =~= Seq::<(Seq<char>, Seq<char>)>::empty());
        assert(env_lines(whole) == "# frs_env: "@ + whole.first().0 + "="@ + whole.first().1 + nl()
            + env_lines(Seq::<(Seq<char>, Seq<char>)>::empty()));
        assert(env_lines(whole) =~= env_lines(env) + ("# frs_env: "@ + p.0 + "="@ + p.1 + nl()));
    } else {
        assert(whole.drop_first() =~= env.drop_first().push(p));
        lemma_env_lines_snoc(env.drop_first(), p);
        assert(env_lines(whole) == "# frs_env: "@ + env.first().0 + "="@ + env.first().1 + nl() + (
        env_lines(env.drop_first()) + ("# frs_env: "@ + p.0 + "="@ + p.1 + nl())));
        assert(env_lines(whole) =~= env_lines(env) + ("# frs_env: "@ + p.0 + "="@ + p.1 + nl()));
    }
}

/// Appending an entry extends the prompt fragments at their end.
proof fn lemma_prompt_fragments_snoc(steps: Seq<StepView>, st: StepView)
    ensures
        prompt_fragments(steps.push(st)) == prompt_fragments(steps) + (match st.prompt {
            Option::Some(p) => seq![' '] + sanitized(p),
            Option::None => Seq::empty(),
        }),
    decreases steps.len(),
{
    let whole = steps.push(st);
    let frag = (match st.prompt {
        Option::Some(p) => seq![' '] + sanitized(p),
        Option::None => Seq::<char>::empty(),
    });
    assert(whole.first() == if steps.len() == 0 { st } else { steps.first() });
    if steps.len() == 0 {
        assert(whole.drop_first() =~= Seq::<StepView>::empty());
        assert(prompt_fragments(whole) == (match whole.first().prompt {
            Option::Some(p) => seq![' '] + sanitized(p),
            Option::None => Seq::<char>::empty(),
        }) + prompt_fragments(Seq::<StepView>::empty()));
        assert(prompt_fragments(whole) =~= prompt_fragments(steps) + frag);
    } else {
        assert(whole.drop_first() =~= steps.drop_first().push(st));
        lemma_prompt_fragments_snoc(steps.drop_first(), st);
        assert(prompt_fragments(whole) =~= prompt_fragments(steps) + frag);
    }
}

/// Append the comment lines of every step-log entry onto `out`.
fn append_step_lines(out: &mut String, c: &Context)
    ensures
        final(out)@ == old(out)@ + step_lines(c@.meta.step_log),
{
    let mut i: usize = 0;
    proof {
        assert(step_lines(c@.meta.step_log.subrange(0, 0)) =~= Seq::<char>::empty());
        assert(out@ =~= old(out)@ + step_lines(c@.meta.step_log.subrange(0, 0)));
    }
    while i < c.meta.step_log.len()
        invariant
            i <= c.meta.step_log@.len(),
            c@.meta.step_log.len() == c.meta.step_log@.len(),
            out@ == old(out)@ + step_lines(c@.meta.step_log.subrange(0, i as int)),
        decreases c.meta.step_log@.len() - i,
    {
        let entry = &c.meta.step_log[i];
        match &entry.prompt {
            Some(p) => {
                out.append("# $ ");
                out.append(p.as_str());
                push_char(out, '\n');
            },
            None => {},
        }
        out.append("# ! ");
        out.append(entry.description.as_str());
        push_char(out, '\n');
        proof {
            lemma_step_lines_snoc(c@.meta.step_log.subrange(0, i as int), c@.meta.step_log[i as int]);
            assert(c@.meta.step_log.subrange(0, i as int).push(c@.meta.step_log[i as int])
                =~= c@.meta.step_log.subrange(0, i + 1));
            assert(c@.meta.step_log[i as int] == entry@);
            assert(out@ =~= old(out)@ + step_lines(c@.meta.step_log.subrange(0, i + 1)));
        }
        i += 1;
    }
    proof {
        assert(c@.meta.step_log.subrange(0, c@.meta.step_log.len() as int) =~= c@.meta.step_log);
    }
}

/// Append the context's display name onto `out`.
fn append_display_name(out: &mut String, c: &Context)
    ensures
        final(out)@ == old(out)@ + display_name(c@.meta),
{
    if c.meta.namespace == String::from_str("default") {
        out.append(c.meta.name.as_str());
    } else {
        out.append(c.meta.namespace.as_str());
        out.append("::");
        out.append(c.meta.name.as_str());
        proof {
            assert(out@ =~= old(out)@ + display_name(c@.meta));
        }
    }
}

impl Context {
    /// Render the executable form: the template, the provenance comments,
    /// and the whole context encoded into one trailing comment line.
    pub fn to_shell(&self) -> (r: String)
        ensures
            r@ == shell_form(self@),
    {
        let mut out = String::new();
        out.append(self.template.as_str());
        push_char(&mut out, '\n');
        append_step_lines(&mut out, self);
        out.append("# FRS_META=");
        let enc = encode_context(self);
        append_quoted(&mut out, enc.as_str());
        push_char(&mut out, '\n');
        proof {
            assert(out@ =~= shell_form(self@));
        }
        out
    }

    /// The verbose inspection view of this context.
    pub fn pretty_print<'a>(&'a self) -> (r: PrettyContext<'a>)
        ensures
            r.0 == self,
    {
        PrettyContext(self)
    }

    /// The compact prompt view of this context.
    pub fn pretty_prompt<'a>(&'a self) -> (r: PrettyPrompt<'a>)
        ensures
            r.0 == self,
    {
        PrettyPrompt(self)
    }
}

/// A context about to be rendered in its verbose inspection form.
pub struct PrettyContext<'a>(pub &'a Context);

impl<'a> PrettyContext<'a> {
    /// Render the inspection form: a name header, one line per step-log
    /// entry and environment entry, then the template.
    pub fn render(&self) -> (r: String)
        ensures
            r@ == inspect_form(self.0@),
    {
        let c = self.0;
        let mut out = String::from_str("# name: ");
        append_display_name(&mut out, c);
        push_char(&mut out, '\n');
        append_step_lines(&mut out, c);
        let ghost mid = out@;
        let mut j: usize = 0;
        proof {
            assert(env_lines(c@.env.subrange(0, 0)) =~= Seq::<char>::empty());
            assert(out@ =~= mid + env_lines(c@.env.subrange(0, 0)));
        }
        while j < c.env.len()
            invariant
                j <= c.env@.len(),
                c@.env.len() == c.env@.len(),
                out@ == mid + env_lines(c@.env.subrange(0, j as int)),
            decreases c.env@.len() - j,
        {
            let pair = &c.env[j];
            out.append("# frs_env: ");
            out.append(pair.0.as_str());
            push_char(&mut out, '=');
            out.append(pair.1.as_str());
            push_char(&mut out, '\n');
            proof {
                reveal_strlit("=");
                assert("="@ =~= seq!['=']);
                lemma_env_lines_snoc(c@.env.subrange(0, j as int), c@.env[j as int]);
                assert(c@.env.subrange(0, j as int).push(c@.env[j as int]) =~= c@.env.subrange(
                    0,
                    j + 1,
                ));
                assert(out@ =~= mid + env_lines(c@.env.subrange(0, j + 1)));
            }
            j += 1;
        }
        proof {
            assert(c@.env.subrange(0, c@.env.len() as int) =~= c@.env);
        }
        out.append(c.template.as_str());
        push_char(&mut out, '\n');
        proof {
            assert(out@ =~= inspect_form(c@));
        }
        out
    }
}

/// A context about to be rendered in its compact prompt form.
pub struct PrettyPrompt<'a>(pub &'a Context);

impl<'a> PrettyPrompt<'a> {
    /// Render the prompt-fragment form: the parenthesized name, then the
    /// sanitized fragments when the context is dirty.
    pub fn render(&self) -> (r: String)
        ensures
            r@ == prompt_form(self.0@),
    {
        let c = self.0;
        let mut out = String::new();
        push_char(&mut out, '(');
        append_display_name(&mut out, c);
        push_char(&mut out, ')');
        if !c.meta.is_dirty {
            proof {
                assert(out@ =~= prompt_form(c@));
            }
            return out;
        }
        let ghost mid = out@;
        let mut i: usize = 0;
        proof {
            assert(prompt_fragments(c@.meta.step_log.subrange(0, 0)) =~= Seq::<char>::empty());
            assert(out@ =~= mid + prompt_fragments(c@.meta.step_log.subrange(0, 0)));
        }
        while i < c.meta.step_log.len()
            invariant
                i <= c.meta.step_log@.len(),
                c@.meta.step_log.len() == c.meta.step_log@.len(),
                out@ == mid + prompt_fragments(c@.meta.step_log.subrange(0, i as int)),
            decreases c.meta.step_log@.len() - i,
        {
            let entry = &c.meta.step_log[i];
            match &entry.prompt {
                Some(p) => {
                    push_char(&mut out, ' ');
                    let clean = sanitize_string(p.as_str());
                    out.append(clean.as_str());
                },
                None => {},
            }
            proof {
                lemma_prompt_fragments_snoc(
                    c@.meta.step_log.subrange(0, i as int),
                    c@.meta.step_log[i as int],
                );
                assert(c@.meta.step_log.subrange(0, i as int).push(c@.meta.step_log[i as int])
                    =~= c@.meta.step_log.subrange(0, i + 1));
                assert(c@.meta.step_log[i as int] == entry@);
                assert(out@ =~= mid + prompt_fragments(c@.meta.step_log.subrange(0, i + 1)));
            }
            i += 1;
        }
        proof {
            assert(c@.meta.step_log.subrange(0, c@.meta.step_log.len() as int)
                =~= c@.meta.step_log);
            assert(out@ =~= prompt_form(c@));
        }
        out
    }
}

} // verus!
