//! Persistence addressing: the named address scheme under the per-user
//! configuration root, the per-terminal session address, and the pure
//! parts of loading and saving.

use vstd::prelude::*;
use vstd::string::StrSliceExecFns;
use vstd::string::StringExecFns;
use crate::codec::{enc_ctx, enc_wf, lemma_codec_round_trip, sp_ctx};
use crate::model::{base_context_view, get_base_context, Context, CtxView, MetaView};
use crate::strutil::{
    dec_digits, is_digit, lemma_dec_digits_props, push_char, u64_to_dec,
};
use crate::FrsError;

verus! {

/// One path-unsafe separator mapped to the safe placeholder character, so
/// a crafted name cannot escape the storage directory.
pub open spec fn safe_char(c: char) -> char {
    if c == '/' || c == '\\' {
        '\u{b7}'
    } else {
        c
    }
}

/// An address component with every separator replaced.
pub open spec fn safe_part(s: Seq<char>) -> Seq<char> {
    s.map_values(|c: char| safe_char(c))
}

/// Replace path separators in an address component.
fn safe_component(s: &str) -> (r: String)
    ensures
        r@ == safe_part(s@),
{
    let n = s.unicode_len();
    let mut out = String::new();
    let mut i: usize = 0;
    while i < n
        invariant
            i <= n,
            n == s@.len(),
            out@ == safe_part(s@.subrange(0, i as int)),
        decreases n - i,
    {
        let c = s.get_char(i);
        if c == '/' || c == '\\' {
            push_char(&mut out, '\u{b7}');
        } else {
            push_char(&mut out, c);
        }
        proof {
            assert(out@ =~= safe_part(s@.subrange(0, i + 1)));
        }
        i += 1;
    }
    proof {
        assert(s@.subrange(0, n as int) =~= s@);
    }
    out
}

/// The file a named context lives in, under the per-user configuration
/// root.
pub open spec fn saved_path_view(home: Seq<char>, ns: Seq<char>, name: Seq<char>) -> Seq<char> {
    home + "/.config/frs/context/"@ + safe_part(ns) + "/"@ + safe_part(name) + ".json"@
}

/// Compute the deterministic path of the named address `(namespace,
/// name)` under `home`; separators in either component are made safe.
pub fn get_saved_context_path(home: &str, namespace: &str, name: &str) -> (r: String)
    ensures
        r@ == saved_path_view(home@, namespace@, name@),
{
    let mut out = String::from_str(home);
    out.append("/.config/frs/context/");
    let ns = safe_component(namespace);
    out.append(ns.as_str());
    out.append("/");
    let nm = safe_component(name);
    out.append(nm.as_str());
    out.append(".json");
    proof {
        assert(out@ =~= saved_path_view(home@, namespace@, name@));
    }
    out
}

/// The scratch file of one terminal session, determined by the parent
/// process id paired with that process's start time.
pub open spec fn session_path_view(pid: nat, start_time: nat) -> Seq<char> {
    "/tmp/"@ + dec_digits(pid) + "."@ + dec_digits(start_time) + ".json"@
}

/// Compute the session scratch path for the identity `(pid, start_time)`.
/// The derivation is deterministic: the same pair always yields the same
/// path.
pub fn get_session_path(pid: u64, start_time: u64) -> (r: String)
    ensures
        r@ == session_path_view(pid as nat, start_time as nat),
{
    let mut out = String::from_str("/tmp/");
    let p = u64_to_dec(pid);
    out.append(p.as_str());
    out.append(".");
    let t = u64_to_dec(start_time);
    out.append(t.as_str());
    out.append(".json");
    proof {
        assert(out@ =~= session_path_view(pid as nat, start_time as nat));
    }
    out
}

/// The leading characters of `s` before its first space.
pub open spec fn until_space(s: Seq<char>) -> Seq<char>
    decreases s.len(),
{
    if s.len() == 0 || s.first() == ' ' {
        Seq::empty()
    } else {
        seq![s.first()] + until_space(s.drop_first())
    }
}

/// What follows the first space of `s`; everything gone when there is
/// none.
pub open spec fn after_space(s: Seq<char>) -> Seq<char>
    decreases s.len(),
{
    if s.len() == 0 {
        s
    } else if s.first() == ' ' {
        s.drop_first()
    } else {
        after_space(s.drop_first())
    }
}

/// `s` with its first `k` space-separated fields dropped.
pub open spec fn drop_fields(s: Seq<char>, k: nat) -> Seq<char>
    decreases k,
{
    if k == 0 {
        s
    } else {
        drop_fields(after_space(s), (k - 1) as nat)
    }
}

/// The field of `s` at position `k`, counting single spaces as
/// separators.
pub open spec fn space_field(s: Seq<char>, k: nat) -> Seq<char> {
    until_space(drop_fields(s, k))
}

/// Dropping fields of nothing leaves nothing.
proof fn lemma_drop_fields_empty(s: Seq<char>, k: nat)
    requires
        s.len() == 0,
    ensures
        drop_fields(s, k).len() == 0,
    decreases k,
{
    if k > 0 {
        lemma_drop_fields_empty(after_space(s), (k - 1) as nat);
    }
}

/// Read the start time out of a kernel process-status line: its
/// twenty-second space-separated field, as a decimal number.  The read
/// fails, as a configuration error, exactly when that field is not a
/// plain decimal number.
pub fn parse_stat_start_time(stat: &str) -> (r: Result<u64, FrsError>)
    ensures
        r matches Ok(v) ==> crate::strutil::spec_parse_dec(space_field(stat@, 21), 0) == Some(
            (v as nat, space_field(stat@, 21).len() as int),
        ),
        r is Ok <==> (crate::strutil::spec_parse_dec(space_field(stat@, 21), 0) matches Some((
            n,
            e,
        )) && e == space_field(stat@, 21).len()),
        r matches Err(e) ==> e == FrsError::Configuration,
{
    let n = stat.unicode_len();
    proof {
        assert(stat@.subrange(0, n as int) =~= stat@);
    }
    let mut i: usize = 0;
    let mut count: usize = 0;
    while count < 21 && i < n
        invariant
            i <= n,
            count <= 21,
            n == stat@.len(),
            drop_fields(stat@, 21) == drop_fields(stat@.subrange(i as int, n as int), (21 - count) as nat),
        decreases n - i,
    {
        let c = stat.get_char(i);
        proof {
            let t = stat@.subrange(i as int, n as int);
            assert(t.first() == stat@[i as int]);
            assert(t.drop_first() =~= stat@.subrange(i + 1, n as int));
            if c == ' ' {
                assert(after_space(t) == stat@.subrange(i + 1, n as int));
            } else {
                assert(after_space(t) == after_space(stat@.subrange(i + 1, n as int)));
            }
        }
        if c == ' ' {
            count += 1;
        }
        i += 1;
    }
    proof {
        if count < 21 {
            lemma_drop_fields_empty(stat@.subrange(i as int, n as int), (21 - count) as nat);
        }
        assert(drop_fields(stat@, 21) == if count == 21 {
            stat@.subrange(i as int, n as int)
        } else {
            drop_fields(stat@, 21)
        });
    }
    if count < 21 {
        proof {
            assert(space_field(stat@, 21).len() == 0);
            assert(crate::strutil::digit_run_end(space_field(stat@, 21), 0) == 0);
        }
        return Err(FrsError::Configuration);
    }
    let mut e: usize = i;
    while e < n && stat.get_char(e) != ' '
        invariant
            i <= e <= n,
            n == stat@.len(),
            drop_fields(stat@, 21) == stat@.subrange(i as int, n as int),
            until_space(stat@.subrange(i as int, n as int)) == stat@.subrange(i as int, e as int)
                + until_space(stat@.subrange(e as int, n as int)),
        decreases n - e,
    {
        proof {
            let t = stat@.subrange(e as int, n as int);
            assert(t.first() == stat@[e as int]);
            assert(t.drop_first() =~= stat@.subrange(e + 1, n as int));
            assert(stat@.subrange(i as int, e as int) + (seq![stat@[e as int]] + until_space(
                stat@.subrange(e + 1, n as int),
            )) =~= stat@.subrange(i as int, e + 1) + until_space(stat@.subrange(e + 1, n as int)));
        }
        e += 1;
    }
    proof {
        if e < n {
            assert(stat@.subrange(e as int, n as int).first() == stat@[e as int]);
        }
        assert(until_space(stat@.subrange(e as int, n as int)) =~= Seq::<char>::empty());
        assert(space_field(stat@, 21) =~= stat@.subrange(i as int, e as int));
    }
    let field = stat.substring_char(i, e);
    let v = crate::strutil::str_chars(field);
    match crate::strutil::parse_dec(&v, 0) {
        Some((value, end)) => {
            if end == v.len() {
                Ok(value)
            } else {
                Err(FrsError::Configuration)
            }
        },
        None => Err(FrsError::Configuration),
    }
}

/// Equal sequences with the same prefix have equal remainders.
proof fn lemma_concat_cancel_left(a: Seq<char>, x: Seq<char>, y: Seq<char>)
    requires
        a + x == a + y,
    ensures
        x == y,
{
    assert((a + x).len() == a.len() + x.len());
    assert((a + y).len() == a.len() + y.len());
    assert(x.len() == y.len());
    assert forall|q: int| 0 <= q < x.len() implies x[q] == y[q] by {
        assert((a + x)[a.len() + q] == x[q]);
        assert((a + y)[a.len() + q] == y[q]);
    }
    assert(x =~= y);
}

/// Digit runs followed by a dot determine each other: shared head of the
/// session-path distinctness argument.
proof fn lemma_dec_dot_prefix(x1: nat, x2: nat, t1: Seq<char>, t2: Seq<char>)
    requires
        dec_digits(x1) + seq!['.'] + t1 == dec_digits(x2) + seq!['.'] + t2,
    ensures
        x1 == x2,
        t1 == t2,
{
    let d1 = dec_digits(x1);
    let d2 = dec_digits(x2);
    lemma_dec_digits_props(x1);
    lemma_dec_digits_props(x2);
    let s1 = d1 + seq!['.'] + t1;
    let s2 = d2 + seq!['.'] + t2;
    assert(forall|c: char| is_digit(c) ==> c != '.');
    if d1.len() < d2.len() {
        assert(s1[d1.len() as int] == '.');
        assert(s2[d1.len() as int] == d2[d1.len() as int]);
        assert(is_digit(d2[d1.len() as int]));
        assert(false);
    } else if d2.len() < d1.len() {
        assert(s2[d2.len() as int] == '.');
        assert(s1[d2.len() as int] == d1[d2.len() as int]);
        assert(is_digit(d1[d2.len() as int]));
        assert(false);
    } else {
        assert(d1 =~= d2) by {
            assert forall|q: int| 0 <= q < d1.len() implies d1[q] == d2[q] by {
                assert(s1[q] == d1[q]);
                assert(s2[q] == d2[q]);
            }
        }
        assert(crate::strutil::seq_val(d1) == x1);
        assert(crate::strutil::seq_val(d2) == x2);
        assert(s1.len() == d1.len() + 1 + t1.len());
        assert(s2.len() == d2.len() + 1 + t2.len());
        assert(t1.len() == t2.len());
        assert(t1 =~= t2) by {
            assert forall|q: int| 0 <= q < t1.len() implies t1[q] == t2[q] by {
                assert(s1[d1.len() + 1 + q] == t1[q]);
                assert(s2[d2.len() + 1 + q] == t2[q]);
            }
        }
    }
}

/// Two distinct `(pid, start-time)` pairs resolve to two distinct scratch
/// paths, and the same pair always resolves to the identical path.
pub proof fn lemma_session_paths_distinct(p1: nat, s1: nat, p2: nat, s2: nat)
    ensures
        session_path_view(p1, s1) == session_path_view(p2, s2) <==> (p1 == p2 && s1 == s2),
{
    if session_path_view(p1, s1) == session_path_view(p2, s2) {
        reveal_strlit(".json");
        reveal_strlit(".");
        reveal_strlit("json");
        let j = "json"@;
        let b1 = dec_digits(p1) + seq!['.'] + (dec_digits(s1) + seq!['.'] + j);
        let b2 = dec_digits(p2) + seq!['.'] + (dec_digits(s2) + seq!['.'] + j);
        assert("/tmp/"@ + b1 =~= session_path_view(p1, s1)) by {
            assert("."@ =~= seq!['.']);
            assert(seq!['.'] + j =~= ".json"@);
        }
        assert("/tmp/"@ + b2 =~= session_path_view(p2, s2)) by {
            assert("."@ =~= seq!['.']);
            assert(seq!['.'] + j =~= ".json"@);
        }
        lemma_concat_cancel_left("/tmp/"@, b1, b2);
        lemma_dec_dot_prefix(p1, p2, dec_digits(s1) + seq!['.'] + j, dec_digits(s2) + seq!['.'] + j);
        lemma_dec_dot_prefix(s1, s2, j, j);
    }
}

/// What an explicit save persists: the context readdressed to the save
/// target and marked clean; template, step log and environment untouched.
pub open spec fn save_target(c: CtxView, ns: Seq<char>, name: Seq<char>) -> CtxView {
    CtxView {
        meta: MetaView { namespace: ns, name, is_dirty: false, step_log: c.meta.step_log },
        env: c.env,
        template: c.template,
    }
}

/// Readdress the context to the save target `(namespace, name)` and mark
/// it clean; this is the value both the named record and the session
/// record receive on an explicit save.
pub fn prepare_save(context: Context, namespace: String, name: String) -> (r: Context)
    ensures
        r@ == save_target(context@, namespace@, name@),
{
    let ghost c0 = context@;
    let mut context = context;
    context.meta.namespace = namespace;
    context.meta.name = name;
    context.meta.is_dirty = false;
    proof {
        assert(context@ =~= save_target(c0, namespace@, name@));
    }
    context
}

/// Saving into a named address and then activating that address yields a
/// context field-identical to the one saved: the record decodes back to
/// the saved value, activation replaces the whole in-memory context with
/// it, and the address is deterministic, so the load reads the very
/// record the save wrote.
pub proof fn lemma_save_then_activate(c: CtxView, ns: Seq<char>, name: Seq<char>)
    requires
        enc_wf(c),
        ns.len() < crate::codec::len_bound(),
        name.len() < crate::codec::len_bound(),
    ensures
        sp_ctx(enc_ctx(save_target(c, ns, name))) == Some(save_target(c, ns, name)),
        !save_target(c, ns, name).meta.is_dirty,
{
    lemma_codec_round_trip(save_target(c, ns, name));
}

/// Dirty flag: a fresh base context and a just-saved context are clean,
/// a context loaded back from a saved record is clean, and a context is
/// dirty after any single wrap operation.
pub proof fn lemma_dirty_flag(c: CtxView, ns: Seq<char>, name: Seq<char>, w: crate::ops::WrapView)
    requires
        enc_wf(c),
        ns.len() < crate::codec::len_bound(),
        name.len() < crate::codec::len_bound(),
    ensures
        !base_context_view().meta.is_dirty,
        !save_target(c, ns, name).meta.is_dirty,
        sp_ctx(enc_ctx(save_target(c, ns, name))) matches Some(l) && !l.meta.is_dirty,
        crate::ops::apply_wrap_view(c, w).meta.is_dirty,
{
    lemma_codec_round_trip(save_target(c, ns, name));
}

/// The pure part of reading the session address: an absent record is the
/// expected first-use condition and yields a fresh base context; a
/// present record must decode, and a record that does not is an encoding
/// error.
pub fn get_current_shell_context(file_data: Option<&String>) -> (r: Result<Context, FrsError>)
    ensures
        file_data is None ==> (r matches Ok(c) && c@ == base_context_view()),
        file_data matches Some(d) ==> {
            &&& r is Ok <==> sp_ctx(d@) is Some
            &&& (r matches Ok(c) ==> sp_ctx(d@) == Some(c@))
            &&& (r matches Err(e) ==> e == FrsError::Encoding)
        },
{
    match file_data {
        Some(d) => crate::codec::decode_context(d.as_str()),
        None => Ok(get_base_context()),
    }
}

} // verus!
