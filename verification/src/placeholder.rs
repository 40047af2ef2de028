//! The placeholder token and the machinery that keeps a template holding
//! exactly one occurrence of it while operations splice wrapping text in.

use vstd::prelude::*;

verus! {

/// The fixed marker substring denoting where the caller's final command is
/// inserted at render time.
pub open spec fn ph() -> Seq<char> {
    "(((( echo 'frs placeholder' ))))"@
}

/// The placeholder token as a borrowed string.
pub fn placeholder_str() -> (r: &'static str)
    ensures
        r@ == ph(),
{
    "(((( echo 'frs placeholder' ))))"
}

/// Shape facts about the placeholder token: its length, its first and last
/// characters, and where its parentheses lie.
pub proof fn lemma_ph_shape()
    ensures
        ph().len() == 32,
        ph()[0] == '(' && ph()[1] == '(' && ph()[2] == '(' && ph()[3] == '(',
        ph()[4] == ' ',
        ph()[28] == ')' && ph()[29] == ')' && ph()[30] == ')' && ph()[31] == ')',
        forall|i: int| 0 <= i < 32 && #[trigger] ph()[i] == '(' ==> i < 4,
        forall|i: int| 0 <= i < 32 && #[trigger] ph()[i] == ')' ==> i >= 28,
{
    reveal_strlit("(((( echo 'frs placeholder' ))))");
    assert(forall|i: int| 4 <= i < 32 ==> #[trigger] ph()[i] != '(');
    assert(forall|i: int| 0 <= i < 28 ==> #[trigger] ph()[i] != ')');
}

/// The placeholder token occurs in `s` at position `i`.
pub open spec fn is_ph_at(s: Seq<char>, i: int) -> bool {
    0 <= i && i + 32 <= s.len() && s.subrange(i, i + 32) == ph()
}

/// The placeholder token occurs in `s` at `i` and nowhere else.
pub open spec fn unique_ph_at(s: Seq<char>, i: int) -> bool {
    is_ph_at(s, i) && forall|j: int| #[trigger] is_ph_at(s, j) ==> j == i
}

/// The placeholder token occurs exactly once in `s`.
pub open spec fn has_unique_ph(s: Seq<char>) -> bool {
    exists|i: int| unique_ph_at(s, i)
}

/// The position of the sole placeholder occurrence.
pub open spec fn ph_index(s: Seq<char>) -> int {
    choose|i: int| unique_ph_at(s, i)
}

/// The sole occurrence sits at `ph_index`.
pub proof fn lemma_ph_index(s: Seq<char>)
    requires
        has_unique_ph(s),
    ensures
        unique_ph_at(s, ph_index(s)),
{
}

/// `t` with the 32 characters at `i` taken out and `w` put in their place.
pub open spec fn splice(t: Seq<char>, i: int, w: Seq<char>) -> Seq<char> {
    t.subrange(0, i) + w + t.subrange(i + 32, t.len() as int)
}

/// The text an operation puts where the placeholder stood: its own opening
/// text, a fresh placeholder, and a closing parenthesis.
pub open spec fn wrap_text(pre: Seq<char>) -> Seq<char> {
    pre + ph() + seq![')']
}

/// An opening text an operation builds: it starts with `(` and otherwise
/// stays clear of parentheses, so the spliced template keeps exactly one
/// placeholder occurrence.
pub open spec fn pre_ok(pre: Seq<char>) -> bool {
    &&& pre.len() >= 4
    &&& pre[0] == '('
    &&& forall|q: int| 1 <= q < pre.len() ==> #[trigger] pre[q] != '(' && pre[q] != ')'
}

/// The template consisting of the placeholder alone holds it exactly once.
pub proof fn lemma_ph_alone_unique()
    ensures
        unique_ph_at(ph(), 0),
        has_unique_ph(ph()),
{
    lemma_ph_shape();
    assert(ph().subrange(0, 32) =~= ph());
    assert(forall|j: int| #[trigger] is_ph_at(ph(), j) ==> j == 0);
    assert(unique_ph_at(ph(), 0));
}

/// Whether the placeholder token stands at position `i` of `t`.
fn ph_match_at(t: &str, i: usize, n: usize) -> (r: bool)
    requires
        n == t@.len(),
        i + 32 <= n,
    ensures
        r == is_ph_at(t@, i as int),
{
    proof {
        lemma_ph_shape();
    }
    let p = placeholder_str();
    let mut j: usize = 0;
    while j < 32
        invariant
            n == t@.len(),
            i + 32 <= n,
            j <= 32,
            p@ == ph(),
            forall|q: int| 0 <= q < j ==> t@[i + q] == #[trigger] ph()[q],
        decreases 32 - j,
    {
        proof {
            lemma_ph_shape();
        }
        if t.get_char(i + j) != p.get_char(j) {
            proof {
                if is_ph_at(t@, i as int) {
                    assert(t@.subrange(i as int, i + 32)[j as int] == t@[i + j]);
                }
            }
            return false;
        }
        j += 1;
    }
    proof {
        assert forall|q: int| 0 <= q < 32 implies t@.subrange(i as int, i + 32)[q] == ph()[q] by {
            assert(t@.subrange(i as int, i + 32)[q] == t@[i + q]);
        }
        assert(t@.subrange(i as int, i + 32) =~= ph());
    }
    true
}

/// Find the leftmost placeholder occurrence in `t`.
fn find_ph(t: &str) -> (r: Option<usize>)
    ensures
        r matches Some(i) ==> is_ph_at(t@, i as int) && forall|j: int|
            0 <= j < i ==> !is_ph_at(t@, j),
        r is None ==> forall|j: int| !is_ph_at(t@, j),
{
    proof {
        lemma_ph_shape();
    }
    let n = t.unicode_len();
    if n < 32 {
        return None;
    }
    let mut i: usize = 0;
    while i <= n - 32
        invariant
            32 <= n == t@.len(),
            i <= n,
            forall|j: int| 0 <= j < i ==> !is_ph_at(t@, j),
        decreases n - i,
    {
        if ph_match_at(t, i, n) {
            return Some(i);
        }
        i += 1;
    }
    proof {
        assert(forall|j: int| !is_ph_at(t@, j));
    }
    None
}

/// Build `t` with the 32 characters at `i` replaced by `w`.
fn splice_str(t: &str, i: usize, w: &str) -> (r: String)
    requires
        i + 32 <= t@.len(),
    ensures
        r@ == splice(t@, i as int, w@),
{
    let n = t.unicode_len();
    let mut out = String::from_str(t.substring_char(0, i));
    out.append(w);
    out.append(t.substring_char(i + 32, n));
    proof {
        assert(out@ =~= splice(t@, i as int, w@));
    }
    out
}

/// Whether `t` holds exactly one placeholder occurrence: the check a
/// caller runs before treating outside text as a well-formed template.
pub fn has_unique_placeholder(t: &str) -> (r: bool)
    ensures
        r == has_unique_ph(t@),
{
    proof {
        lemma_ph_shape();
    }
    let n = t.unicode_len();
    match find_ph(t) {
        None => {
            proof {
                assert(!has_unique_ph(t@));
            }
            false
        },
        Some(i) => {
            let mut j: usize = i + 1;
            while n >= 32 && j <= n - 32
                invariant
                    n == t@.len(),
                    i < j,
                    is_ph_at(t@, i as int),
                    forall|q: int| i < q < j ==> !is_ph_at(t@, q),
                decreases n - j,
            {
                if ph_match_at(t, j, n) {
                    proof {
                        assert(!has_unique_ph(t@)) by {
                            if has_unique_ph(t@) {
                                lemma_ph_index(t@);
                            }
                        }
                    }
                    return false;
                }
                j += 1;
            }
            proof {
                assert(forall|q: int| #[trigger] is_ph_at(t@, q) ==> q == i);
                assert(unique_ph_at(t@, i as int));
            }
            true
        },
    }
}

/// Replace the sole placeholder occurrence in `t` with `w`; a template
/// holding no occurrence comes back unchanged.
pub fn replace_ph(t: &str, w: &str) -> (r: String)
    ensures
        has_unique_ph(t@) ==> r@ == splice(t@, ph_index(t@), w@),
        (forall|j: int| !is_ph_at(t@, j)) ==> r@ == t@,
{
    match find_ph(t) {
        Some(i) => {
            proof {
                if has_unique_ph(t@) {
                    lemma_ph_index(t@);
                    assert(is_ph_at(t@, i as int));
                }
            }
            splice_str(t, i, w)
        },
        None => String::from_str(t),
    }
}

/// Splicing a well-shaped wrap over the sole placeholder occurrence leaves
/// exactly one occurrence, at the freshly inserted token.
pub proof fn lemma_splice_unique(t: Seq<char>, i: int, pre: Seq<char>)
    requires
        unique_ph_at(t, i),
        pre_ok(pre),
    ensures
        unique_ph_at(splice(t, i, wrap_text(pre)), i + pre.len()),
{
    lemma_ph_shape();
    let w = wrap_text(pre);
    let s = splice(t, i, w);
    let pl = pre.len() as int;
    let wl = w.len() as int;
    let k = i + pl;
    assert(wl == pl + 33);
    assert(s.len() == t.len() + wl - 32);
    assert forall|x: int| 0 <= x < i implies s[x] == t[x] by {
        assert(s[x] == t.subrange(0, i)[x]);
    }
    assert forall|x: int| 0 <= x < wl implies s[i + x] == w[x] by {}
    assert forall|x: int| i + 32 <= x < t.len() implies s[x + wl - 32] == t[x] by {
        assert(s[x + wl - 32] == t.subrange(i + 32, t.len() as int)[x - i - 32]);
    }
    assert forall|x: int| 0 <= x < pl implies w[x] == pre[x] by {}
    assert forall|y: int| 0 <= y < 32 implies w[pl + y] == ph()[y] by {}
    assert(w[wl - 1] == ')');
    // The fresh token is an occurrence.
    assert(is_ph_at(s, k)) by {
        assert forall|y: int| 0 <= y < 32 implies s.subrange(k, k + 32)[y] == ph()[y] by {
            assert(s[k + y] == w[pl + y]);
        }
        assert(s.subrange(k, k + 32) =~= ph());
    }
    // And the only one.
    assert forall|j: int| #[trigger] is_ph_at(s, j) implies j == k by {
        assert(forall|d: int| 0 <= d < 32 ==> s[j + d] == #[trigger] ph()[d]) by {
            assert(forall|d: int| 0 <= d < 32 ==> #[trigger] s.subrange(j, j + 32)[d] == ph()[d]);
            assert(forall|d: int| 0 <= d < 32 ==> #[trigger] s.subrange(j, j + 32)[d] == s[j + d]);
        }
        if j + 32 <= i {
            // Entirely before the splice: this occurrence already stood in `t`.
            assert(t.subrange(j, j + 32) =~= ph()) by {
                assert(forall|d: int| 0 <= d < 32 ==> t.subrange(j, j + 32)[d] == t[j + d]
                    == #[trigger] s[j + d]);
            }
            assert(is_ph_at(t, j));
            assert(false);
        } else if j < i {
            // Straddles the head boundary.
            let o = i - j;
            assert(1 <= o < 32);
            assert(s[j + o] == w[0] == '(');
            assert(ph()[o] == '(');
            assert(o < 4);
            if pl <= 28 {
                let d = o + pl;
                assert(d < 32);
                assert(s[j + d] == w[pl] == '(');
                assert(ph()[d] == '(');
                assert(false);
            } else {
                let d = 28 - o;
                assert(1 <= d < pl);
                assert(s[j + d] == w[d] == pre[d]);
                assert(ph()[d + o] == ph()[28]);
                assert(s[j + d + o] == ph()[d + o]);
                assert(s[i + d] == w[d]);
                assert(pre[d] == ')');
                assert(false);
            }
        } else if j + 32 <= i + wl {
            // Entirely inside the wrap text.
            let p = j - i;
            assert(0 <= p <= pl + 1);
            if p < pl {
                assert(s[j] == w[p] == pre[p]);
                assert(ph()[0] == '(');
                assert(pre[p] == '(');
                assert(p == 0);
                assert(s[j + 1] == w[1] == pre[1]);
                assert(ph()[1] == '(');
                assert(false);
            } else if p == pl + 1 {
                assert(s[j + 3] == w[p + 3] == ph()[4]);
                assert(ph()[3] == '(');
                assert(ph()[4] == ' ');
                assert(false);
            } else {
                assert(p == pl);
                assert(j == k);
            }
        } else if j < i + wl {
            // Straddles the tail boundary.
            let p = j - i;
            assert(wl - 32 < p < wl);
            assert(s[j] == w[p] == ph()[0]);
            assert(w[p] == '(');
            assert(p != 0 && p != wl - 1);
            let q = p - pl;
            assert(0 <= q < 32 ==> w[p] == ph()[q]);
            assert(1 < p < wl - 1 && p < pl ==> w[p] == pre[p] && pre[p] != '(');
            assert(pl <= p < pl + 32);
            assert(ph()[q] == '(');
            assert(q < 4);
            assert(q >= wl - 32 - pl + 1);
            assert(q == 2 || q == 3);
            let d = 4 - q;
            assert(1 <= d <= 2);
            assert(s[j + d] == w[p + d] == ph()[4] == ' ');
            assert(ph()[d] == '(');
            assert(false);
        } else {
            // Entirely after the splice: maps back into `t` past the token.
            let x = j - wl + 32;
            assert(x >= i + 32);
            assert(t.subrange(x, x + 32) =~= ph()) by {
                assert(forall|d: int| 0 <= d < 32 ==> t.subrange(x, x + 32)[d] == t[x + d]
                    == #[trigger] s[j + d]) by {
                    assert(forall|d: int| 0 <= d < 32 ==> t[x + d] == #[trigger] s[x + d + wl
                        - 32]);
                }
            }
            assert(is_ph_at(t, x));
            assert(false);
        }
    }
}

} // verus!
