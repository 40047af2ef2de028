//! Plain text helpers the operations and renderings build on: whitespace
//! classification, prompt sanitization, argument quoting, and path-component
//! extraction.

use vstd::prelude::*;
use vstd::string::StrSliceExecFns;
use vstd::string::StringExecFns;
use crate::strutil::push_char;

verus! {

/// The whitespace characters: the Unicode `White_Space` set.
pub open spec fn is_wsp(c: char) -> bool {
    c == '\u{9}' || c == '\u{a}' || c == '\u{b}' || c == '\u{c}' || c == '\u{d}' || c == ' '
        || c == '\u{85}' || c == '\u{a0}' || c == '\u{1680}' || c == '\u{2000}' || c == '\u{2001}'
        || c == '\u{2002}' || c == '\u{2003}' || c == '\u{2004}' || c == '\u{2005}'
        || c == '\u{2006}' || c == '\u{2007}' || c == '\u{2008}' || c == '\u{2009}'
        || c == '\u{200a}' || c == '\u{2028}' || c == '\u{2029}' || c == '\u{202f}'
        || c == '\u{205f}' || c == '\u{3000}'
}

/// Whether `c` is whitespace.
pub fn is_wsp_exec(c: char) -> (r: bool)
    ensures
        r == is_wsp(c),
{
    c == '\u{9}' || c == '\u{a}' || c == '\u{b}' || c == '\u{c}' || c == '\u{d}' || c == ' '
        || c == '\u{85}' || c == '\u{a0}' || c == '\u{1680}' || c == '\u{2000}' || c == '\u{2001}'
        || c == '\u{2002}' || c == '\u{2003}' || c == '\u{2004}' || c == '\u{2005}'
        || c == '\u{2006}' || c == '\u{2007}' || c == '\u{2008}' || c == '\u{2009}'
        || c == '\u{200a}' || c == '\u{2028}' || c == '\u{2029}' || c == '\u{202f}'
        || c == '\u{205f}' || c == '\u{3000}'
}

/// `s` with every whitespace character but the ordinary space removed.
pub open spec fn sanitized(s: Seq<char>) -> Seq<char>
    decreases s.len(),
{
    if s.len() == 0 {
        Seq::empty()
    } else if is_wsp(s.last()) && s.last() != ' ' {
        sanitized(s.drop_last())
    } else {
        sanitized(s.drop_last()).push(s.last())
    }
}

/// Strip every whitespace character except the ordinary space, so the
/// result renders on a single line.
pub fn sanitize_string(s: &str) -> (r: String)
    ensures
        r@ == sanitized(s@),
{
    let n = s.unicode_len();
    let mut out = String::new();
    let mut i: usize = 0;
    while i < n
        invariant
            i <= n,
            n == s@.len(),
            out@ == sanitized(s@.subrange(0, i as int)),
        decreases n - i,
    {
        let c = s.get_char(i);
        proof {
            assert(s@.subrange(0, i + 1).drop_last() =~= s@.subrange(0, i as int));
            assert(s@.subrange(0, i + 1).last() == s@[i as int]);
        }
        if !is_wsp_exec(c) || c == ' ' {
            push_char(&mut out, c);
            proof {
                assert(out@ =~= sanitized(s@.subrange(0, i + 1)));
            }
        }
        i += 1;
    }
    proof {
        assert(s@.subrange(0, n as int) =~= s@);
    }
    out
}

/// Sanitization renders on a single line: the only whitespace character
/// a sanitized string can hold is the ordinary space.
pub proof fn lemma_sanitized_single_line(s: Seq<char>)
    ensures
        forall|i: int|
            0 <= i < sanitized(s).len() && is_wsp(#[trigger] sanitized(s)[i]) ==> sanitized(s)[i]
                == ' ',
    decreases s.len(),
{
    if s.len() > 0 {
        lemma_sanitized_single_line(s.drop_last());
        let pre = sanitized(s.drop_last());
        if !(is_wsp(s.last()) && s.last() != ' ') {
            assert(sanitized(s) == pre.push(s.last()));
            assert forall|i: int|
                0 <= i < sanitized(s).len() && is_wsp(#[trigger] sanitized(s)[i]) implies sanitized(
                s,
            )[i] == ' ' by {
                if i < pre.len() {
                    assert(sanitized(s)[i] == pre[i]);
                } else {
                    assert(sanitized(s)[i] == s.last());
                }
            }
        }
    }
}

/// How one character is written inside a quoted literal.
pub open spec fn esc_char(c: char) -> Seq<char> {
    if c == '"' {
        seq!['\\', '"']
    } else if c == '\\' {
        seq!['\\', '\\']
    } else if c == '\n' {
        seq!['\\', 'n']
    } else if c == '\t' {
        seq!['\\', 't']
    } else if c == '\r' {
        seq!['\\', 'r']
    } else {
        seq![c]
    }
}

/// `s` written escaped, character for character.
pub open spec fn escaped(s: Seq<char>) -> Seq<char>
    decreases s.len(),
{
    if s.len() == 0 {
        Seq::empty()
    } else {
        escaped(s.drop_last()) + esc_char(s.last())
    }
}

/// `s` written as a quoted literal: escaped, between double quotes.
pub open spec fn quoted(s: Seq<char>) -> Seq<char> {
    seq!['"'] + escaped(s) + seq!['"']
}

/// Append `s` escaped onto `out`.
fn append_escaped(out: &mut String, s: &str)
    ensures
        final(out)@ == old(out)@ + escaped(s@),
{
    let n = s.unicode_len();
    let mut i: usize = 0;
    proof {
        assert(out@ + escaped(s@.subrange(0, 0)) =~= out@);
    }
    while i < n
        invariant
            i <= n,
            n == s@.len(),
            out@ == old(out)@ + escaped(s@.subrange(0, i as int)),
        decreases n - i,
    {
        let c = s.get_char(i);
        proof {
            assert(s@.subrange(0, i + 1).drop_last() =~= s@.subrange(0, i as int));
            assert(s@.subrange(0, i + 1).last() == s@[i as int]);
        }
        if c == '"' {
            push_char(out, '\\');
            push_char(out, '"');
        } else if c == '\\' {
            push_char(out, '\\');
            push_char(out, '\\');
        } else if c == '\n' {
            push_char(out, '\\');
            push_char(out, 'n');
        } else if c == '\t' {
            push_char(out, '\\');
            push_char(out, 't');
        } else if c == '\r' {
            push_char(out, '\\');
            push_char(out, 'r');
        } else {
            push_char(out, c);
        }
        proof {
            assert(out@ =~= old(out)@ + escaped(s@.subrange(0, i + 1)));
        }
        i += 1;
    }
    proof {
        assert(s@.subrange(0, n as int) =~= s@);
    }
}

/// Append `s` as a quoted literal onto `out`.
pub fn append_quoted(out: &mut String, s: &str)
    ensures
        final(out)@ == old(out)@ + quoted(s@),
{
    push_char(out, '"');
    append_escaped(out, s);
    push_char(out, '"');
    proof {
        assert(old(out)@ + seq!['"'] + escaped(s@) + seq!['"'] =~= old(out)@ + quoted(s@));
    }
}

/// `s` with its trailing slashes dropped.
pub open spec fn strip_slashes(s: Seq<char>) -> Seq<char>
    decreases s.len(),
{
    if s.len() > 0 && s.last() == '/' {
        strip_slashes(s.drop_last())
    } else {
        s
    }
}

/// The characters after the last slash of `s`.
pub open spec fn tail_after_slash(s: Seq<char>) -> Seq<char>
    decreases s.len(),
{
    if s.len() == 0 || s.last() == '/' {
        Seq::empty()
    } else {
        tail_after_slash(s.drop_last()).push(s.last())
    }
}

/// The last path component of `s`: what follows the last slash, once
/// trailing slashes are ignored.
pub open spec fn last_component(s: Seq<char>) -> Seq<char> {
    tail_after_slash(strip_slashes(s))
}

/// The leading part of `s` its last component grew out of, trailing
/// slashes included.
pub open spec fn parent_path(s: Seq<char>) -> Seq<char> {
    strip_slashes(s).subrange(
        0,
        strip_slashes(s).len() - last_component(s).len(),
    )
}

/// The last path component of `s`.
pub fn path_last(s: &str) -> (r: String)
    ensures
        r@ == last_component(s@),
{
    let n = s.unicode_len();
    proof {
        assert(s@.subrange(0, n as int) =~= s@);
    }
    let mut e: usize = n;
    while e > 0 && s.get_char(e - 1) == '/'
        invariant
            e <= n,
            n == s@.len(),
            strip_slashes(s@) == strip_slashes(s@.subrange(0, e as int)),
        decreases e,
    {
        proof {
            assert(s@.subrange(0, e as int).drop_last() =~= s@.subrange(0, e - 1));
            assert(s@.subrange(0, e as int).last() == s@[e - 1]);
        }
        e -= 1;
    }
    proof {
        if e > 0 {
            assert(s@.subrange(0, e as int).last() == s@[e - 1]);
        }
        assert(strip_slashes(s@) == s@.subrange(0, e as int));
    }
    let mut b: usize = e;
    while b > 0 && s.get_char(b - 1) != '/'
        invariant
            b <= e <= n,
            n == s@.len(),
            strip_slashes(s@) == s@.subrange(0, e as int),
            tail_after_slash(s@.subrange(0, e as int)) == tail_after_slash(
                s@.subrange(0, b as int),
            ) + s@.subrange(b as int, e as int),
        decreases b,
    {
        proof {
            assert(s@.subrange(0, b as int).drop_last() =~= s@.subrange(0, b - 1));
            assert(s@.subrange(0, b as int).last() == s@[b - 1]);
            assert(tail_after_slash(s@.subrange(0, b - 1)).push(s@[b - 1]) + s@.subrange(
                b as int,
                e as int,
            ) =~= tail_after_slash(s@.subrange(0, b - 1)) + s@.subrange(b - 1, e as int));
        }
        b -= 1;
    }
    proof {
        if b > 0 {
            assert(s@.subrange(0, b as int).last() == s@[b - 1]);
        }
        assert(tail_after_slash(s@.subrange(0, b as int)) =~= Seq::<char>::empty());
        assert(last_component(s@) =~= s@.subrange(b as int, e as int));
    }
    String::from_str(s.substring_char(b, e))
}

/// The leading part of `s` before its last component.
pub fn path_parent(s: &str) -> (r: String)
    ensures
        r@ == parent_path(s@),
{
    let n = s.unicode_len();
    proof {
        assert(s@.subrange(0, n as int) =~= s@);
    }
    let mut e: usize = n;
    while e > 0 && s.get_char(e - 1) == '/'
        invariant
            e <= n,
            n == s@.len(),
            strip_slashes(s@) == strip_slashes(s@.subrange(0, e as int)),
        decreases e,
    {
        proof {
            assert(s@.subrange(0, e as int).drop_last() =~= s@.subrange(0, e - 1));
            assert(s@.subrange(0, e as int).last() == s@[e - 1]);
        }
        e -= 1;
    }
    proof {
        if e > 0 {
            assert(s@.subrange(0, e as int).last() == s@[e - 1]);
        }
        assert(strip_slashes(s@) == s@.subrange(0, e as int));
    }
    let mut b: usize = e;
    while b > 0 && s.get_char(b - 1) != '/'
        invariant
            b <= e <= n,
            n == s@.len(),
            strip_slashes(s@) == s@.subrange(0, e as int),
            tail_after_slash(s@.subrange(0, e as int)) == tail_after_slash(
                s@.subrange(0, b as int),
            ) + s@.subrange(b as int, e as int),
        decreases b,
    {
        proof {
            assert(s@.subrange(0, b as int).drop_last() =~= s@.subrange(0, b - 1));
            assert(s@.subrange(0, b as int).last() == s@[b - 1]);
            assert(tail_after_slash(s@.subrange(0, b - 1)).push(s@[b - 1]) + s@.subrange(
                b as int,
                e as int,
            ) =~= tail_after_slash(s@.subrange(0, b - 1)) + s@.subrange(b - 1, e as int));
        }
        b -= 1;
    }
    proof {
        if b > 0 {
            assert(s@.subrange(0, b as int).last() == s@[b - 1]);
        }
        assert(tail_after_slash(s@.subrange(0, b as int)) =~= Seq::<char>::empty());
        assert(last_component(s@) =~= s@.subrange(b as int, e as int));
        assert(parent_path(s@) =~= s@.subrange(0, b as int));
    }
    String::from_str(s.substring_char(0, b))
}

/// The part of `s` before any whitespace, leading whitespace skipped.
pub open spec fn skip_ws_front(s: Seq<char>) -> Seq<char>
    decreases s.len(),
{
    if s.len() > 0 && is_wsp(s.first()) {
        skip_ws_front(s.drop_first())
    } else {
        s
    }
}

/// The leading non-whitespace run of `s`.
pub open spec fn take_tok(s: Seq<char>) -> Seq<char>
    decreases s.len(),
{
    if s.len() == 0 || is_wsp(s.first()) {
        Seq::empty()
    } else {
        seq![s.first()] + take_tok(s.drop_first())
    }
}

/// The first whitespace-delimited token of `s`, empty when there is none.
pub open spec fn first_token(s: Seq<char>) -> Seq<char> {
    take_tok(skip_ws_front(s))
}

/// The first whitespace-delimited token of `s`.
pub fn first_token_str(s: &str) -> (r: String)
    ensures
        r@ == first_token(s@),
{
    let n = s.unicode_len();
    proof {
        assert(s@.subrange(0, n as int) =~= s@);
    }
    let mut b: usize = 0;
    while b < n && is_wsp_exec(s.get_char(b))
        invariant
            b <= n,
            n == s@.len(),
            skip_ws_front(s@) == skip_ws_front(s@.subrange(b as int, n as int)),
        decreases n - b,
    {
        proof {
            assert(s@.subrange(b as int, n as int).drop_first() =~= s@.subrange(b + 1, n as int));
            assert(s@.subrange(b as int, n as int).first() == s@[b as int]);
        }
        b += 1;
    }
    proof {
        if b < n {
            assert(s@.subrange(b as int, n as int).first() == s@[b as int]);
        }
        assert(skip_ws_front(s@) == s@.subrange(b as int, n as int));
    }
    let mut e: usize = b;
    while e < n && !is_wsp_exec(s.get_char(e))
        invariant
            b <= e <= n,
            n == s@.len(),
            skip_ws_front(s@) == s@.subrange(b as int, n as int),
            take_tok(s@.subrange(b as int, n as int)) == s@.subrange(b as int, e as int)
                + take_tok(s@.subrange(e as int, n as int)),
        decreases n - e,
    {
        proof {
            assert(s@.subrange(e as int, n as int).drop_first() =~= s@.subrange(e + 1, n as int));
            assert(s@.subrange(e as int, n as int).first() == s@[e as int]);
            assert(s@.subrange(b as int, e as int) + (seq![s@[e as int]] + take_tok(
                s@.subrange(e + 1, n as int),
            )) =~= s@.subrange(b as int, e + 1) + take_tok(s@.subrange(e + 1, n as int)));
        }
        e += 1;
    }
    proof {
        if e < n {
            assert(s@.subrange(e as int, n as int).first() == s@[e as int]);
        }
        assert(take_tok(s@.subrange(e as int, n as int)) =~= Seq::<char>::empty());
        assert(first_token(s@) =~= s@.subrange(b as int, e as int));
    }
    String::from_str(s.substring_char(b, e))
}

} // verus!
