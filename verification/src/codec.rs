//! The textual record a context is persisted as: a length-prefixed,
//! self-describing encoding with a proved round trip.

use vstd::prelude::*;
use vstd::string::StrSliceExecFns;
use vstd::string::StringExecFns;
use crate::model::{Context, CtxView, MetaView, Metadata, MetadataStepLog, StepView};
use crate::strutil::{
    chars_string, dec_digits, lemma_dec_digits_props, lemma_parse_of_dec, parse_dec, push_char,
    spec_parse_dec, str_chars, u64_to_dec,
};
use crate::FrsError;

verus! {

/// Every length a record stores fits an unsigned 64-bit number.
pub open spec fn len_bound() -> nat {
    0x1_0000_0000_0000_0000
}

/// One string, written as its length, a colon, and its characters.
pub open spec fn enc_str(s: Seq<char>) -> Seq<char> {
    dec_digits(s.len()) + seq![':'] + s
}

/// One optional string: `S` and the string, or a bare `N`.
pub open spec fn enc_opt(p: Option<Seq<char>>) -> Seq<char> {
    match p {
        Option::Some(s) => seq!['S'] + enc_str(s),
        Option::None => seq!['N'],
    }
}

/// One truth value: `T` or `F`.
pub open spec fn enc_bool(b: bool) -> Seq<char> {
    if b {
        seq!['T']
    } else {
        seq!['F']
    }
}

/// One element count, written as digits and a colon.
pub open spec fn enc_count(n: nat) -> Seq<char> {
    dec_digits(n) + seq![':']
}

/// One step-log entry.
pub open spec fn enc_step(st: StepView) -> Seq<char> {
    enc_str(st.description) + enc_opt(st.prompt)
}

/// A run of step-log entries, in order.
pub open spec fn enc_steps(steps: Seq<StepView>) -> Seq<char>
    decreases steps.len(),
{
    if steps.len() == 0 {
        Seq::empty()
    } else {
        enc_step(steps.first()) + enc_steps(steps.drop_first())
    }
}

/// One environment entry.
pub open spec fn enc_pair(p: (Seq<char>, Seq<char>)) -> Seq<char> {
    enc_str(p.0) + enc_str(p.1)
}

/// A run of environment entries, in order.
pub open spec fn enc_pairs(env: Seq<(Seq<char>, Seq<char>)>) -> Seq<char>
    decreases env.len(),
{
    if env.len() == 0 {
        Seq::empty()
    } else {
        enc_pair(env.first()) + enc_pairs(env.drop_first())
    }
}

/// The whole record of a context.
pub open spec fn enc_ctx(c: CtxView) -> Seq<char> {
    enc_str(c.meta.namespace) + enc_str(c.meta.name) + enc_bool(c.meta.is_dirty) + enc_count(
        c.meta.step_log.len(),
    ) + enc_steps(c.meta.step_log) + enc_count(c.env.len()) + enc_pairs(c.env) + enc_str(
        c.template,
    )
}

/// Every length and count occurring in `c`'s record fits.
pub open spec fn enc_wf(c: CtxView) -> bool {
    &&& c.meta.namespace.len() < len_bound()
    &&& c.meta.name.len() < len_bound()
    &&& c.template.len() < len_bound()
    &&& c.meta.step_log.len() < len_bound()
    &&& c.env.len() < len_bound()
    &&& forall|i: int|
        0 <= i < c.meta.step_log.len() ==> (#[trigger] c.meta.step_log[i]).description.len()
            < len_bound() && match c.meta.step_log[i].prompt {
            Option::Some(p) => p.len() < len_bound(),
            Option::None => true,
        }
    &&& forall|i: int|
        0 <= i < c.env.len() ==> (#[trigger] c.env[i]).0.len() < len_bound()
            && c.env[i].1.len() < len_bound()
}

/// Appending an entry extends a run's encoding at its end.
pub proof fn lemma_enc_steps_snoc(steps: Seq<StepView>, st: StepView)
    ensures
        enc_steps(steps.push(st)) == enc_steps(steps) + enc_step(st),
    decreases steps.len(),
{
    let whole = steps.push(st);
    assert(whole.first() == if steps.len() == 0 { st } else { steps.first() });
    if steps.len() == 0 {
        assert(whole.drop_first() =~= Seq::<StepView>::empty());
        assert(enc_steps(whole) == enc_step(st) + enc_steps(Seq::<StepView>::empty()));
        assert(enc_steps(whole) =~= enc_steps(steps) + enc_step(st));
    } else {
        assert(whole.drop_first() =~= steps.drop_first().push(st));
        lemma_enc_steps_snoc(steps.drop_first(), st);
        assert(enc_steps(whole) == enc_step(steps.first()) + (enc_steps(steps.drop_first())
            + enc_step(st)));
        assert(enc_steps(whole) =~= enc_steps(steps) + enc_step(st));
    }
}

/// Appending an entry extends a run's encoding at its end.
pub proof fn lemma_enc_pairs_snoc(env: Seq<(Seq<char>, Seq<char>)>, p: (Seq<char>, Seq<char>))
    ensures
        enc_pairs(env.push(p)) == enc_pairs(env) + enc_pair(p),
    decreases env.len(),
{
    let whole = env.push(p);
    assert(whole.first() == if env.len() == 0 { p } else { env.first() });
    if env.len() == 0 {
        assert(whole.drop_first() =~= Seq::<(Seq<char>, Seq<char>)>::empty());
        assert(enc_pairs(whole) == enc_pair(p) + enc_pairs(Seq::<(Seq<char>, Seq<char>)>::empty()));
        assert(enc_pairs(whole) =~= enc_pairs(env) + enc_pair(p));
    } else {
        assert(whole.drop_first() =~= env.drop_first().push(p));
        lemma_enc_pairs_snoc(env.drop_first(), p);
        assert(enc_pairs(whole) == enc_pair(env.first()) + (enc_pairs(env.drop_first())
            + enc_pair(p)));
        assert(enc_pairs(whole) =~= enc_pairs(env) + enc_pair(p));
    }
}

/// Append one string's record onto `out`.
fn append_enc_str(out: &mut String, s: &str)
    ensures
        final(out)@ == old(out)@ + enc_str(s@),
        s@.len() < len_bound(),
{
    let n = s.unicode_len();
    let num = u64_to_dec(n as u64);
    out.append(num.as_str());
    push_char(out, ':');
    out.append(s);
    proof {
        assert(out@ =~= old(out)@ + enc_str(s@));
    }
}

/// Append one count onto `out`.
fn append_enc_count(out: &mut String, n: usize)
    ensures
        final(out)@ == old(out)@ + enc_count(n as nat),
{
    let num = u64_to_dec(n as u64);
    out.append(num.as_str());
    push_char(out, ':');
    proof {
        assert(out@ =~= old(out)@ + enc_count(n as nat));
    }
}

/// Encode a context as its textual record.
pub fn encode_context(c: &Context) -> (r: String)
    ensures
        r@ == enc_ctx(c@),
        enc_wf(c@),
{
    let mut out = String::new();
    append_enc_str(&mut out, c.meta.namespace.as_str());
    append_enc_str(&mut out, c.meta.name.as_str());
    push_char(&mut out, if c.meta.is_dirty { 'T' } else { 'F' });
    let ghost head0 = out@;
    append_enc_count(&mut out, c.meta.step_log.len());
    let ghost head = out@;
    let mut i: usize = 0;
    while i < c.meta.step_log.len()
        invariant
            i <= c.meta.step_log@.len(),
            out@ == head + enc_steps(c@.meta.step_log.subrange(0, i as int)),
            head == head0 + enc_count(c@.meta.step_log.len()),
            c@.meta.step_log.len() == c.meta.step_log@.len(),
            forall|k: int|
                0 <= k < i ==> (#[trigger] c@.meta.step_log[k]).description.len() < len_bound()
                    && match c@.meta.step_log[k].prompt {
                    Option::Some(p) => p.len() < len_bound(),
                    Option::None => true,
                },
        decreases c.meta.step_log@.len() - i,
    {
        proof {
            assert(enc_steps(c@.meta.step_log.subrange(0, 0)) =~= Seq::<char>::empty());
        }
        let entry = &c.meta.step_log[i];
        append_enc_str(&mut out, entry.description.as_str());
        match &entry.prompt {
            Some(p) => {
                push_char(&mut out, 'S');
                append_enc_str(&mut out, p.as_str());
            },
            None => {
                push_char(&mut out, 'N');
            },
        }
        proof {
            assert(c@.meta.step_log.subrange(0, i + 1).drop_last() =~= c@.meta.step_log.subrange(
                0,
                i as int,
            ));
            lemma_enc_steps_snoc(c@.meta.step_log.subrange(0, i as int), c@.meta.step_log[i as int]);
            assert(c@.meta.step_log.subrange(0, i as int).push(c@.meta.step_log[i as int])
                =~= c@.meta.step_log.subrange(0, i + 1));
            assert(c@.meta.step_log[i as int] == entry@);
            assert(out@ =~= head + enc_steps(c@.meta.step_log.subrange(0, i + 1)));
        }
        i += 1;
    }
    proof {
        assert(c@.meta.step_log.subrange(0, c@.meta.step_log.len() as int) =~= c@.meta.step_log);
    }
    let ghost head1 = out@;
    append_enc_count(&mut out, c.env.len());
    let ghost head2 = out@;
    let mut j: usize = 0;
    while j < c.env.len()
        invariant
            j <= c.env@.len(),
            out@ == head2 + enc_pairs(c@.env.subrange(0, j as int)),
            head2 == head1 + enc_count(c@.env.len()),
            c@.env.len() == c.env@.len(),
            forall|k: int|
                0 <= k < j ==> (#[trigger] c@.env[k]).0.len() < len_bound() && c@.env[k].1.len()
                    < len_bound(),
        decreases c.env@.len() - j,
    {
        proof {
            assert(enc_pairs(c@.env.subrange(0, 0)) =~= Seq::<char>::empty());
        }
        let pair = &c.env[j];
        append_enc_str(&mut out, pair.0.as_str());
        append_enc_str(&mut out, pair.1.as_str());
        proof {
            lemma_enc_pairs_snoc(c@.env.subrange(0, j as int), c@.env[j as int]);
            assert(c@.env.subrange(0, j as int).push(c@.env[j as int]) =~= c@.env.subrange(
                0,
                j + 1,
            ));
            assert(out@ =~= head2 + enc_pairs(c@.env.subrange(0, j + 1)));
        }
        j += 1;
    }
    proof {
        assert(c@.env.subrange(0, c@.env.len() as int) =~= c@.env);
    }
    append_enc_str(&mut out, c.template.as_str());
    proof {
        assert(out@ =~= enc_ctx(c@));
    }
    out
}

/// What parsing one string at `i` yields.
pub open spec fn sp_str(s: Seq<char>, i: int) -> Option<(Seq<char>, int)> {
    match spec_parse_dec(s, i) {
        Option::Some((n, j)) => {
            if j < s.len() && s[j] == ':' && j + 1 + n <= s.len() {
                Option::Some((s.subrange(j + 1, j + 1 + n), j + 1 + n))
            } else {
                Option::None
            }
        },
        Option::None => Option::None,
    }
}

/// What parsing one count at `i` yields.
pub open spec fn sp_count(s: Seq<char>, i: int) -> Option<(nat, int)> {
    match spec_parse_dec(s, i) {
        Option::Some((n, j)) => {
            if j < s.len() && s[j] == ':' {
                Option::Some((n, j + 1))
            } else {
                Option::None
            }
        },
        Option::None => Option::None,
    }
}

/// What parsing one truth value at `i` yields.
pub open spec fn sp_bool(s: Seq<char>, i: int) -> Option<(bool, int)> {
    if 0 <= i < s.len() && s[i] == 'T' {
        Option::Some((true, i + 1))
    } else if 0 <= i < s.len() && s[i] == 'F' {
        Option::Some((false, i + 1))
    } else {
        Option::None
    }
}

/// What parsing one optional string at `i` yields.
pub open spec fn sp_opt(s: Seq<char>, i: int) -> Option<(Option<Seq<char>>, int)> {
    if 0 <= i < s.len() && s[i] == 'S' {
        match sp_str(s, i + 1) {
            Option::Some((v, j)) => Option::Some((Option::Some(v), j)),
            Option::None => Option::None,
        }
    } else if 0 <= i < s.len() && s[i] == 'N' {
        Option::Some((Option::None, i + 1))
    } else {
        Option::None
    }
}

/// What parsing one step-log entry at `i` yields.
pub open spec fn sp_step(s: Seq<char>, i: int) -> Option<(StepView, int)> {
    match sp_str(s, i) {
        Option::Some((d, j)) => match sp_opt(s, j) {
            Option::Some((p, j2)) => Option::Some((StepView { description: d, prompt: p }, j2)),
            Option::None => Option::None,
        },
        Option::None => Option::None,
    }
}

/// What parsing `k` step-log entries at `i` yields.
pub open spec fn sp_steps(s: Seq<char>, i: int, k: nat) -> Option<(Seq<StepView>, int)>
    decreases k,
{
    if k == 0 {
        Option::Some((Seq::empty(), i))
    } else {
        match sp_step(s, i) {
            Option::Some((st, j)) => match sp_steps(s, j, (k - 1) as nat) {
                Option::Some((rest, j2)) => Option::Some((seq![st] + rest, j2)),
                Option::None => Option::None,
            },
            Option::None => Option::None,
        }
    }
}

/// What parsing `k` environment entries at `i` yields.
pub open spec fn sp_pairs(s: Seq<char>, i: int, k: nat) -> Option<
    (Seq<(Seq<char>, Seq<char>)>, int),
>
    decreases k,
{
    if k == 0 {
        Option::Some((Seq::empty(), i))
    } else {
        match sp_str(s, i) {
            Option::Some((a, j)) => match sp_str(s, j) {
                Option::Some((b, j2)) => match sp_pairs(s, j2, (k - 1) as nat) {
                    Option::Some((rest, j3)) => Option::Some((seq![(a, b)] + rest, j3)),
                    Option::None => Option::None,
                },
                Option::None => Option::None,
            },
            Option::None => Option::None,
        }
    }
}

/// What decoding a whole record yields: the context it describes, provided
/// every part parses and the record ends exactly at its end.
pub open spec fn sp_ctx(s: Seq<char>) -> Option<CtxView> {
    match sp_str(s, 0) {
        Option::Some((ns, i1)) => match sp_str(s, i1) {
            Option::Some((nm, i2)) => match sp_bool(s, i2) {
                Option::Some((dirty, i3)) => match sp_count(s, i3) {
                    Option::Some((nsteps, i4)) => match sp_steps(s, i4, nsteps) {
                        Option::Some((steps, i5)) => match sp_count(s, i5) {
                            Option::Some((nenv, i6)) => match sp_pairs(s, i6, nenv) {
                                Option::Some((env, i7)) => match sp_str(s, i7) {
                                    Option::Some((tmpl, i8)) => {
                                        if i8 == s.len() {
                                            Option::Some(
                                                CtxView {
                                                    meta: MetaView {
                                                        namespace: ns,
                                                        name: nm,
                                                        is_dirty: dirty,
                                                        step_log: steps,
                                                    },
                                                    env,
                                                    template: tmpl,
                                                },
                                            )
                                        } else {
                                            Option::None
                                        }
                                    },
                                    Option::None => Option::None,
                                },
                                Option::None => Option::None,
                            },
                            Option::None => Option::None,
                        },
                        Option::None => Option::None,
                    },
                    Option::None => Option::None,
                },
                Option::None => Option::None,
            },
            Option::None => Option::None,
        },
        Option::None => Option::None,
    }
}

/// Read one string record out of `v` at `i`.
fn p_str(v: &Vec<char>, i: usize) -> (r: Option<(String, usize)>)
    requires
        i <= v@.len(),
    ensures
        r is Some <==> sp_str(v@, i as int) is Some,
        r matches Some((x, j)) ==> sp_str(v@, i as int) == Some((x@, j as int)) && i < j
            <= v@.len(),
{
    match parse_dec(v, i) {
        Some((n, j)) => {
            if j < v.len() && v[j] == ':' {
                let rem = (v.len() - (j + 1)) as u64;
                if n <= rem {
                    let take = n as usize;
                    let x = chars_string(v, j + 1, j + 1 + take);
                    Some((x, j + 1 + take))
                } else {
                    None
                }
            } else {
                None
            }
        },
        None => None,
    }
}

/// Read one count out of `v` at `i`.
fn p_count(v: &Vec<char>, i: usize) -> (r: Option<(u64, usize)>)
    requires
        i <= v@.len(),
    ensures
        r is Some <==> sp_count(v@, i as int) is Some,
        r matches Some((n, j)) ==> sp_count(v@, i as int) == Some((n as nat, j as int)) && i < j
            <= v@.len(),
{
    match parse_dec(v, i) {
        Some((n, j)) => {
            if j < v.len() && v[j] == ':' {
                Some((n, j + 1))
            } else {
                None
            }
        },
        None => None,
    }
}

/// Read one truth value out of `v` at `i`.
fn p_bool(v: &Vec<char>, i: usize) -> (r: Option<(bool, usize)>)
    requires
        i <= v@.len(),
    ensures
        r is Some <==> sp_bool(v@, i as int) is Some,
        r matches Some((b, j)) ==> sp_bool(v@, i as int) == Some((b, j as int)) && i < j
            <= v@.len(),
{
    if i < v.len() && v[i] == 'T' {
        Some((true, i + 1))
    } else if i < v.len() && v[i] == 'F' {
        Some((false, i + 1))
    } else {
        None
    }
}

/// Read one optional string out of `v` at `i`.
fn p_opt(v: &Vec<char>, i: usize) -> (r: Option<(Option<String>, usize)>)
    requires
        i <= v@.len(),
    ensures
        r is Some <==> sp_opt(v@, i as int) is Some,
        r matches Some((x, j)) ==> sp_opt(v@, i as int) == Some(
            (
                match x {
                    Option::Some(p) => Option::Some(p@),
                    Option::None => Option::None,
                },
                j as int,
            ),
        ) && i < j <= v@.len(),
{
    if i < v.len() && v[i] == 'S' {
        match p_str(v, i + 1) {
            Some((x, j)) => Some((Some(x), j)),
            None => None,
        }
    } else if i < v.len() && v[i] == 'N' {
        Some((None, i + 1))
    } else {
        None
    }
}

/// Read one step-log entry out of `v` at `i`.
fn p_step(v: &Vec<char>, i: usize) -> (r: Option<(MetadataStepLog, usize)>)
    requires
        i <= v@.len(),
    ensures
        r is Some <==> sp_step(v@, i as int) is Some,
        r matches Some((st, j)) ==> sp_step(v@, i as int) == Some((st@, j as int)) && i < j
            <= v@.len(),
{
    match p_str(v, i) {
        Some((d, j)) => match p_opt(v, j) {
            Some((p, j2)) => Some((MetadataStepLog { description: d, prompt: p }, j2)),
            None => None,
        },
        None => None,
    }
}

/// `sp_steps` with entries already read in front of it.
pub open spec fn steps_cont(s: Seq<char>, i: int, k: nat, done: Seq<StepView>) -> Option<
    (Seq<StepView>, int),
> {
    match sp_steps(s, i, k) {
        Option::Some((rest, e)) => Option::Some((done + rest, e)),
        Option::None => Option::None,
    }
}

/// Read `n` step-log entries out of `v` at `i`.
fn p_steps(v: &Vec<char>, i: usize, n: u64) -> (r: Option<(Vec<MetadataStepLog>, usize)>)
    requires
        i <= v@.len(),
    ensures
        r is Some <==> sp_steps(v@, i as int, n as nat) is Some,
        r matches Some((items, j)) ==> sp_steps(v@, i as int, n as nat) == Some(
            (items@.map_values(|st: MetadataStepLog| st@), j as int),
        ) && j <= v@.len(),
{
    let mut items: Vec<MetadataStepLog> = Vec::new();
    let mut pos: usize = i;
    let mut t: u64 = 0;
    proof {
        assert(items@.map_values(|st: MetadataStepLog| st@) + sp_steps(
            v@,
            i as int,
            n as nat,
        )->Some_0.0 =~= sp_steps(v@, i as int, n as nat)->Some_0.0) by {
            assert(items@.map_values(|st: MetadataStepLog| st@) =~= Seq::<StepView>::empty());
        }
    }
    while t < n
        invariant
            t <= n,
            i <= pos <= v@.len(),
            sp_steps(v@, i as int, n as nat) == steps_cont(
                v@,
                pos as int,
                (n - t) as nat,
                items@.map_values(|st: MetadataStepLog| st@),
            ),
        decreases n - t,
    {
        let ghost done = items@.map_values(|st: MetadataStepLog| st@);
        match p_step(v, pos) {
            Some((st, j)) => {
                items.push(st);
                proof {
                    let rest_k = (n - t - 1) as nat;
                    assert(items@.map_values(|s2: MetadataStepLog| s2@) =~= done.push(st@));
                    if sp_steps(v@, j as int, rest_k) is Some {
                        let rest = sp_steps(v@, j as int, rest_k)->Some_0.0;
                        assert(done.push(st@) + rest =~= done + (seq![st@] + rest));
                    }
                }
                pos = j;
            },
            None => {
                proof {
                    assert(sp_steps(v@, pos as int, (n - t) as nat) is None);
                }
                return None;
            },
        }
        t += 1;
    }
    proof {
        assert(items@.map_values(|st: MetadataStepLog| st@) + Seq::<StepView>::empty()
            =~= items@.map_values(|st: MetadataStepLog| st@));
    }
    Some((items, pos))
}

/// `sp_pairs` with entries already read in front of it.
pub open spec fn pairs_cont(
    s: Seq<char>,
    i: int,
    k: nat,
    done: Seq<(Seq<char>, Seq<char>)>,
) -> Option<(Seq<(Seq<char>, Seq<char>)>, int)> {
    match sp_pairs(s, i, k) {
        Option::Some((rest, e)) => Option::Some((done + rest, e)),
        Option::None => Option::None,
    }
}

/// Read `n` environment entries out of `v` at `i`.
fn p_pairs(v: &Vec<char>, i: usize, n: u64) -> (r: Option<(Vec<(String, String)>, usize)>)
    requires
        i <= v@.len(),
    ensures
        r is Some <==> sp_pairs(v@, i as int, n as nat) is Some,
        r matches Some((items, j)) ==> sp_pairs(v@, i as int, n as nat) == Some(
            (items@.map_values(|p: (String, String)| (p.0@, p.1@)), j as int),
        ) && j <= v@.len(),
{
    let mut items: Vec<(String, String)> = Vec::new();
    let mut pos: usize = i;
    let mut t: u64 = 0;
    proof {
        assert(items@.map_values(|p: (String, String)| (p.0@, p.1@)) + sp_pairs(
            v@,
            i as int,
            n as nat,
        )->Some_0.0 =~= sp_pairs(v@, i as int, n as nat)->Some_0.0) by {
            assert(items@.map_values(|p: (String, String)| (p.0@, p.1@)) =~= Seq::<
                (Seq<char>, Seq<char>),
            >::empty());
        }
    }
    while t < n
        invariant
            t <= n,
            i <= pos <= v@.len(),
            sp_pairs(v@, i as int, n as nat) == pairs_cont(
                v@,
                pos as int,
                (n - t) as nat,
                items@.map_values(|p: (String, String)| (p.0@, p.1@)),
            ),
        decreases n - t,
    {
        let ghost done = items@.map_values(|p: (String, String)| (p.0@, p.1@));
        match p_str(v, pos) {
            Some((a, j)) => match p_str(v, j) {
                Some((b, j2)) => {
                    items.push((a, b));
                    proof {
                        let rest_k = (n - t - 1) as nat;
                        assert(items@.map_values(|p: (String, String)| (p.0@, p.1@)) =~= done.push(
                            (a@, b@),
                        ));
                        if sp_pairs(v@, j2 as int, rest_k) is Some {
                            let rest = sp_pairs(v@, j2 as int, rest_k)->Some_0.0;
                            assert(done.push((a@, b@)) + rest =~= done + (seq![(a@, b@)] + rest));
                        }
                    }
                    pos = j2;
                },
                None => {
                    proof {
                        assert(sp_pairs(v@, pos as int, (n - t) as nat) is None);
                    }
                    return None;
                },
            },
            None => {
                proof {
                    assert(sp_pairs(v@, pos as int, (n - t) as nat) is None);
                }
                return None;
            },
        }
        t += 1;
    }
    proof {
        assert(items@.map_values(|p: (String, String)| (p.0@, p.1@)) + Seq::<
            (Seq<char>, Seq<char>),
        >::empty() =~= items@.map_values(|p: (String, String)| (p.0@, p.1@)));
    }
    Some((items, pos))
}

/// Decode a textual record back into a context.  Exactly the records the
/// encoding produces decode; anything else is an encoding error.
pub fn decode_context(data: &str) -> (r: Result<Context, FrsError>)
    ensures
        r is Ok <==> sp_ctx(data@) is Some,
        r matches Ok(c) ==> sp_ctx(data@) == Some(c@),
        r matches Err(e) ==> e == FrsError::Encoding,
{
    let v = str_chars(data);
    let (namespace, i1) = match p_str(&v, 0) {
        Some(x) => x,
        None => {
            return Err(FrsError::Encoding);
        },
    };
    let (name, i2) = match p_str(&v, i1) {
        Some(x) => x,
        None => {
            return Err(FrsError::Encoding);
        },
    };
    let (is_dirty, i3) = match p_bool(&v, i2) {
        Some(x) => x,
        None => {
            return Err(FrsError::Encoding);
        },
    };
    let (nsteps, i4) = match p_count(&v, i3) {
        Some(x) => x,
        None => {
            return Err(FrsError::Encoding);
        },
    };
    let (step_log, i5) = match p_steps(&v, i4, nsteps) {
        Some(x) => x,
        None => {
            return Err(FrsError::Encoding);
        },
    };
    let (nenv, i6) = match p_count(&v, i5) {
        Some(x) => x,
        None => {
            return Err(FrsError::Encoding);
        },
    };
    let (env, i7) = match p_pairs(&v, i6, nenv) {
        Some(x) => x,
        None => {
            return Err(FrsError::Encoding);
        },
    };
    let (template, i8) = match p_str(&v, i7) {
        Some(x) => x,
        None => {
            return Err(FrsError::Encoding);
        },
    };
    if i8 != v.len() {
        return Err(FrsError::Encoding);
    }
    let c = Context {
        meta: Metadata { namespace, name, is_dirty, step_log },
        env,
        template,
    };
    proof {
        assert(sp_ctx(data@) == Some(c@)) by {
            assert(sp_ctx(data@)->0 =~= c@);
        }
    }
    Ok(c)
}

/// A string record laid down at `i` parses back to exactly that string.
proof fn lemma_sp_str_at(s: Seq<char>, i: int, x: Seq<char>)
    requires
        0 <= i,
        i + enc_str(x).len() <= s.len(),
        forall|q: int| 0 <= q < enc_str(x).len() ==> s[i + q] == #[trigger] enc_str(x)[q],
        x.len() < len_bound(),
    ensures
        sp_str(s, i) == Some((x, i + enc_str(x).len())),
{
    let ds = dec_digits(x.len());
    lemma_dec_digits_props(x.len());
    let el = enc_str(x).len() as int;
    assert(el == ds.len() + 1 + x.len());
    assert forall|q: int| 0 <= q < ds.len() implies s.subrange(i, i + ds.len())[q] == ds[q] by {
        assert(enc_str(x)[q] == ds[q]);
    }
    assert(s.subrange(i, i + ds.len() as int) =~= ds);
    assert(s[i + ds.len()] == ':') by {
        assert(enc_str(x)[ds.len() as int] == ':');
    }
    assert(!crate::strutil::is_digit(':'));
    lemma_parse_of_dec(s, i, x.len());
    let j = i + ds.len() as int;
    assert(spec_parse_dec(s, i) == Some((x.len(), j)));
    assert forall|q: int| 0 <= q < x.len() implies s.subrange(j + 1, j + 1 + x.len())[q] == x[q] by {
        assert(enc_str(x)[ds.len() + 1 + q] == x[q]);
        assert(s[i + (ds.len() + 1 + q)] == enc_str(x)[ds.len() + 1 + q]);
    }
    assert(s.subrange(j + 1, j + 1 + x.len() as int) =~= x);
}

/// A count laid down at `i` parses back to exactly that count.
proof fn lemma_sp_count_at(s: Seq<char>, i: int, n: nat)
    requires
        0 <= i,
        i + enc_count(n).len() <= s.len(),
        forall|q: int| 0 <= q < enc_count(n).len() ==> s[i + q] == #[trigger] enc_count(n)[q],
        n < len_bound(),
    ensures
        sp_count(s, i) == Some((n, i + enc_count(n).len())),
{
    let ds = dec_digits(n);
    lemma_dec_digits_props(n);
    assert forall|q: int| 0 <= q < ds.len() implies s.subrange(i, i + ds.len())[q] == ds[q] by {
        assert(enc_count(n)[q] == ds[q]);
    }
    assert(s.subrange(i, i + ds.len() as int) =~= ds);
    assert(s[i + ds.len()] == ':') by {
        assert(enc_count(n)[ds.len() as int] == ':');
    }
    assert(!crate::strutil::is_digit(':'));
    lemma_parse_of_dec(s, i, n);
}

/// A run of step-log entries laid down at `i` parses back to exactly
/// those entries.
proof fn lemma_sp_steps_at(s: Seq<char>, i: int, steps: Seq<StepView>)
    requires
        0 <= i,
        i + enc_steps(steps).len() <= s.len(),
        forall|q: int| 0 <= q < enc_steps(steps).len() ==> s[i + q] == #[trigger] enc_steps(
            steps,
        )[q],
        forall|k: int|
            0 <= k < steps.len() ==> (#[trigger] steps[k]).description.len() < len_bound()
                && match steps[k].prompt {
                Option::Some(p) => p.len() < len_bound(),
                Option::None => true,
            },
    ensures
        sp_steps(s, i, steps.len()) == Some((steps, i + enc_steps(steps).len())),
    decreases steps.len(),
{
    if steps.len() == 0 {
        assert(sp_steps(s, i, 0) == Some((Seq::<StepView>::empty(), i)));
        assert(Seq::<StepView>::empty() =~= steps);
    } else {
        let st = steps.first();
        let d = st.description;
        let whole = enc_steps(steps);
        assert(whole == enc_step(st) + enc_steps(steps.drop_first()));
        assert(enc_step(st) == enc_str(d) + enc_opt(st.prompt));
        assert forall|q: int| 0 <= q < enc_str(d).len() implies s[i + q] == #[trigger] enc_str(
            d,
        )[q] by {
            assert(whole[q] == enc_step(st)[q]);
            assert(enc_step(st)[q] == enc_str(d)[q]);
        }
        lemma_sp_str_at(s, i, d);
        let i2 = i + enc_str(d).len() as int;
        let i3 = i + enc_step(st).len() as int;
        match st.prompt {
            Option::Some(p) => {
                assert(enc_opt(st.prompt) == seq!['S'] + enc_str(p));
                assert(s[i2] == 'S') by {
                    assert(whole[enc_str(d).len() as int] == enc_step(st)[enc_str(d).len() as int]);
                    assert(enc_step(st)[enc_str(d).len() as int] == 'S');
                }
                assert forall|q: int| 0 <= q < enc_str(p).len() implies s[i2 + 1 + q]
                    == #[trigger] enc_str(p)[q] by {
                    let off = enc_str(d).len() + 1 + q;
                    assert(whole[off] == enc_step(st)[off]);
                    assert(enc_step(st)[off] == enc_opt(st.prompt)[off - enc_str(d).len()]);
                    assert(enc_opt(st.prompt)[1 + q] == enc_str(p)[q]);
                }
                lemma_sp_str_at(s, i2 + 1, p);
                assert(sp_opt(s, i2) == Some((Option::Some(p), i3)));
            },
            Option::None => {
                assert(s[i2] == 'N') by {
                    assert(whole[enc_str(d).len() as int] == enc_step(st)[enc_str(d).len() as int]);
                    assert(enc_step(st)[enc_str(d).len() as int] == 'N');
                }
                assert(sp_opt(s, i2) == Some((Option::<Seq<char>>::None, i3)));
            },
        }
        assert(sp_step(s, i) matches Some((got, j)) && got =~= st && j == i3) by {
            assert(sp_step(s, i)->Some_0.0 =~= st);
        }
        assert forall|q: int| 0 <= q < enc_steps(steps.drop_first()).len() implies s[i3 + q]
            == #[trigger] enc_steps(steps.drop_first())[q] by {
            let off = enc_step(st).len() + q;
            assert(whole[off] == enc_steps(steps.drop_first())[q]);
            assert(s[i + off] == whole[off]);
        }
        assert forall|k: int|
            0 <= k < steps.drop_first().len() implies (#[trigger] steps.drop_first()[
        k]).description.len() < len_bound() && match steps.drop_first()[k].prompt {
            Option::Some(p) => p.len() < len_bound(),
            Option::None => true,
        } by {
            assert(steps.drop_first()[k] == steps[k + 1]);
        }
        lemma_sp_steps_at(s, i3, steps.drop_first());
        assert(seq![st] + steps.drop_first() =~= steps);
        assert(sp_steps(s, i, steps.len()) == Some((steps, i + enc_steps(steps).len())));
    }
}

/// A run of environment entries laid down at `i` parses back to exactly
/// those entries.
proof fn lemma_sp_pairs_at(s: Seq<char>, i: int, env: Seq<(Seq<char>, Seq<char>)>)
    requires
        0 <= i,
        i + enc_pairs(env).len() <= s.len(),
        forall|q: int| 0 <= q < enc_pairs(env).len() ==> s[i + q] == #[trigger] enc_pairs(env)[q],
        forall|k: int|
            0 <= k < env.len() ==> (#[trigger] env[k]).0.len() < len_bound() && env[k].1.len()
                < len_bound(),
    ensures
        sp_pairs(s, i, env.len()) == Some((env, i + enc_pairs(env).len())),
    decreases env.len(),
{
    if env.len() == 0 {
        assert(sp_pairs(s, i, 0) == Some((Seq::<(Seq<char>, Seq<char>)>::empty(), i)));
        assert(Seq::<(Seq<char>, Seq<char>)>::empty() =~= env);
    } else {
        let p = env.first();
        let whole = enc_pairs(env);
        assert(whole == enc_pair(p) + enc_pairs(env.drop_first()));
        assert(enc_pair(p) == enc_str(p.0) + enc_str(p.1));
        assert forall|q: int| 0 <= q < enc_str(p.0).len() implies s[i + q] == #[trigger] enc_str(
            p.0,
        )[q] by {
            assert(whole[q] == enc_pair(p)[q]);
            assert(enc_pair(p)[q] == enc_str(p.0)[q]);
        }
        lemma_sp_str_at(s, i, p.0);
        let i2 = i + enc_str(p.0).len() as int;
        assert forall|q: int| 0 <= q < enc_str(p.1).len() implies s[i2 + q] == #[trigger] enc_str(
            p.1,
        )[q] by {
            let off = enc_str(p.0).len() + q;
            assert(whole[off] == enc_pair(p)[off]);
            assert(enc_pair(p)[off] == enc_str(p.1)[q]);
        }
        lemma_sp_str_at(s, i2, p.1);
        let i3 = i + enc_pair(p).len() as int;
        assert forall|q: int| 0 <= q < enc_pairs(env.drop_first()).len() implies s[i3 + q]
            == #[trigger] enc_pairs(env.drop_first())[q] by {
            let off = enc_pair(p).len() + q;
            assert(whole[off] == enc_pairs(env.drop_first())[q]);
            assert(s[i + off] == whole[off]);
        }
        assert forall|k: int|
            0 <= k < env.drop_first().len() implies (#[trigger] env.drop_first()[k]).0.len()
            < len_bound() && env.drop_first()[k].1.len() < len_bound() by {
            assert(env.drop_first()[k] == env[k + 1]);
        }
        lemma_sp_pairs_at(s, i3, env.drop_first());
        assert(seq![p] + env.drop_first() =~= env);
        assert(sp_pairs(s, i, env.len()) == Some((env, i + enc_pairs(env).len())));
    }
}

/// Round trip: decoding the record a context encodes to yields that very
/// context, field for field, step-log order and optional prompts included.
pub proof fn lemma_codec_round_trip(c: CtxView)
    requires
        enc_wf(c),
    ensures
        sp_ctx(enc_ctx(c)) == Some(c),
{
    let s = enc_ctx(c);
    let a1 = enc_str(c.meta.namespace);
    let a2 = enc_str(c.meta.name);
    let a3 = enc_bool(c.meta.is_dirty);
    let a4 = enc_count(c.meta.step_log.len());
    let a5 = enc_steps(c.meta.step_log);
    let a6 = enc_count(c.env.len());
    let a7 = enc_pairs(c.env);
    let a8 = enc_str(c.template);
    let o1: int = 0;
    let o2 = o1 + a1.len();
    let o3 = o2 + a2.len();
    let o4 = o3 + a3.len();
    let o5 = o4 + a4.len();
    let o6 = o5 + a5.len();
    let o7 = o6 + a6.len();
    let o8 = o7 + a7.len();
    let o9 = o8 + a8.len();
    assert(s == a1 + a2 + a3 + a4 + a5 + a6 + a7 + a8);
    assert(s.len() == o9);
    assert forall|q: int| 0 <= q < a1.len() implies s[o1 + q] == #[trigger] a1[q] by {}
    assert forall|q: int| 0 <= q < a2.len() implies s[o2 + q] == #[trigger] a2[q] by {}
    assert forall|q: int| 0 <= q < a3.len() implies s[o3 + q] == #[trigger] a3[q] by {}
    assert forall|q: int| 0 <= q < a4.len() implies s[o4 + q] == #[trigger] a4[q] by {}
    assert forall|q: int| 0 <= q < a5.len() implies s[o5 + q] == #[trigger] a5[q] by {}
    assert forall|q: int| 0 <= q < a6.len() implies s[o6 + q] == #[trigger] a6[q] by {}
    assert forall|q: int| 0 <= q < a7.len() implies s[o7 + q] == #[trigger] a7[q] by {}
    assert forall|q: int| 0 <= q < a8.len() implies s[o8 + q] == #[trigger] a8[q] by {}
    lemma_sp_str_at(s, o1, c.meta.namespace);
    lemma_sp_str_at(s, o2, c.meta.name);
    assert(sp_bool(s, o3) == Some((c.meta.is_dirty, o4))) by {
        assert(s[o3] == a3[0]);
    }
    lemma_sp_count_at(s, o4, c.meta.step_log.len());
    lemma_sp_steps_at(s, o5, c.meta.step_log);
    lemma_sp_count_at(s, o6, c.env.len());
    lemma_sp_pairs_at(s, o7, c.env);
    lemma_sp_str_at(s, o8, c.template);
    assert(sp_ctx(s) matches Some(got) && got =~= c) by {
        assert(sp_ctx(s)->0 =~= c);
    }
}

} // verus!
