//! `${VAR}` and `${VAR:-default}` substitution in configuration strings.

use std::collections::HashMap;
use vstd::prelude::*;

use crate::text::{push_char, push_str};

verus! {

/// What a variable table holds: each name (by content) to its value (by
/// content).
pub uninterp spec fn var_table(vars: HashMap<String, String>) -> Map<Seq<char>, Seq<char>>;

/// `vars.get(name).cloned()`: the value stored under `name`, if any.
#[verifier::external_body]
fn lookup_var(vars: &HashMap<String, String>, name: &String) -> (r: Option<String>)
    ensures
        match r {
            Some(v) => var_table(*vars).contains_key(name@) && var_table(*vars)[name@] == v@,
            None => !var_table(*vars).contains_key(name@),
        },
{
    vars.get(name).cloned()
}

/// `j` is the position of the first `}` in `b`.
pub open spec fn is_first_close(b: Seq<char>, j: int) -> bool {
    &&& 0 <= j < b.len()
    &&& b[j] == '}'
    &&& forall|k: int| 0 <= k < j ==> b[k] != '}'
}

/// Position of the first `}` in `b`, `-1` when there is none.
pub open spec fn find_close(b: Seq<char>) -> int {
    if exists|j: int| is_first_close(b, j) {
        choose|j: int| is_first_close(b, j)
    } else {
        -1
    }
}

/// `b` holds `:-` at positions `m`, `m + 1`.
pub open spec fn sep_at(b: Seq<char>, m: int) -> bool {
    b[m] == ':' && b[m + 1] == '-'
}

/// `k` is the position of the first `:-` in `b`.
pub open spec fn is_first_sep(b: Seq<char>, k: int) -> bool {
    &&& 0 <= k
    &&& k + 1 < b.len()
    &&& sep_at(b, k)
    &&& forall|m: int| 0 <= m < k ==> !#[trigger] sep_at(b, m)
}

/// Position of the first `:-` in `b`, `-1` when there is none.
pub open spec fn find_sep(b: Seq<char>) -> int {
    if exists|k: int| is_first_sep(b, k) {
        choose|k: int| is_first_sep(b, k)
    } else {
        -1
    }
}

/// What `${inner}` becomes: the variable's value when the name (the text
/// before the first `:-`, or all of `inner`) is known; otherwise the
/// default (the text after the first `:-`) when there is one; otherwise the
/// pattern itself, unchanged.
pub open spec fn substitution(inner: Seq<char>, t: Map<Seq<char>, Seq<char>>) -> Seq<char> {
    let k = find_sep(inner);
    let name = if k >= 0 { inner.take(k) } else { inner };
    if t.contains_key(name) {
        t[name]
    } else if k >= 0 {
        inner.skip(k + 2)
    } else {
        seq!['$', '{'] + inner + seq!['}']
    }
}

/// `s` with every closed `${...}` replaced by its [`substitution`]; an
/// unclosed `${` and everything after it is kept as is.
pub open spec fn interpolated(s: Seq<char>, t: Map<Seq<char>, Seq<char>>) -> Seq<char>
    decreases s.len(),
{
    if s.len() == 0 {
        Seq::empty()
    } else if s.len() >= 2 && s[0] == '$' && s[1] == '{' {
        let body = s.skip(2);
        let j = find_close(body);
        if 0 <= j && j < body.len() {
            substitution(body.take(j), t) + interpolated(body.skip(j + 1), t)
        } else {
            s
        }
    } else {
        seq![s[0]] + interpolated(s.skip(1), t)
    }
}

/// Appends the characters of `s` at positions `from..to`.
fn push_range(out: &mut String, s: &str, from: usize, to: usize)
    requires
        from <= to <= s@.len(),
    ensures
        final(out)@ == old(out)@ + s@.subrange(from as int, to as int),
{
    let mut i = from;
    while i < to
        invariant
            from <= i <= to <= s@.len(),
            out@ == old(out)@ + s@.subrange(from as int, i as int),
        decreases to - i,
    {
        let c = s.get_char(i);
        push_char(out, c);
        i += 1;
        proof {
            assert(out@ =~= old(out)@ + s@.subrange(from as int, i as int));
        }
    }
}

/// First position in `from..n` holding `}`, or `n`.
fn scan_close(s: &str, from: usize, n: usize) -> (j: usize)
    requires
        n == s@.len(),
        from <= n,
    ensures
        from <= j <= n,
        forall|k: int| from <= k < j ==> s@[k] != '}',
        j < n ==> s@[j as int] == '}',
{
    let mut j = from;
    while j < n
        invariant
            n == s@.len(),
            from <= j <= n,
            forall|k: int| from <= k < j ==> s@[k] != '}',
        decreases n - j,
    {
        if s.get_char(j) == '}' {
            return j;
        }
        j += 1;
    }
    j
}

/// First position `k` in `from..to - 1` with `:` at `k` and `-` at `k + 1`,
/// or `to`.
fn scan_sep(s: &str, from: usize, to: usize) -> (k: usize)
    requires
        from <= to <= s@.len(),
    ensures
        from <= k <= to,
        k < to ==> k + 1 < to && sep_at(s@, k as int),
        forall|m: int| from <= m < k && m + 1 < to ==> !#[trigger] sep_at(s@, m),
        k == to ==> forall|m: int| from <= m && m + 1 < to ==> !#[trigger] sep_at(s@, m),
{
    let mut k = from;
    while to - k > 1
        invariant
            from <= k <= to <= s@.len(),
            forall|m: int| from <= m < k && m + 1 < to ==> !#[trigger] sep_at(s@, m),
        decreases to - k,
    {
        if s.get_char(k) == ':' && s.get_char(k + 1) == '-' {
            return k;
        }
        k += 1;
    }
    to
}

/// Appends what `${inner}` becomes, for the `inner` at positions
/// `start..end` of `s`.
fn push_substitution(
    out: &mut String,
    s: &str,
    vars: &HashMap<String, String>,
    start: usize,
    end: usize,
)
    requires
        start <= end <= s@.len(),
    ensures
        final(out)@ == old(out)@ + substitution(s@.subrange(start as int, end as int), var_table(*vars)),
{
    let ghost t = var_table(*vars);
    let ghost inner = s@.subrange(start as int, end as int);
    let sep = scan_sep(s, start, end);
    let name_end = if sep < end { sep } else { end };
    let mut name = String::new();
    push_range(&mut name, s, start, name_end);
    proof {
        if sep < end {
            assert(is_first_sep(inner, sep - start)) by {
                assert(inner[sep - start] == s@[sep as int]);
                assert(inner[sep - start + 1] == s@[sep + 1]);
                assert forall|m: int| 0 <= m < sep - start implies !#[trigger] sep_at(inner, m) by {
                    assert(inner[m] == s@[start + m] && inner[m + 1] == s@[start + m + 1]);
                    assert(!sep_at(s@, start + m));
                }
            }
            assert(find_sep(inner) == sep - start) by {
                let c = choose|c: int| is_first_sep(inner, c);
                if c < sep - start {
                    assert(!sep_at(inner, c));
                }
                if sep - start < c {
                    assert(sep_at(inner, sep - start));
                }
            }
            assert(name@ =~= inner.take(sep - start));
        } else {
            assert(!exists|c: int| is_first_sep(inner, c)) by {
                if exists|c: int| is_first_sep(inner, c) {
                    let c = choose|c: int| is_first_sep(inner, c);
                    assert(inner[c] == s@[start + c] && inner[c + 1] == s@[start + c + 1]);
                    assert(sep_at(s@, start + c));
                }
            }
            assert(name@ =~= inner);
        }
    }
    match lookup_var(vars, &name) {
        Some(v) => {
            push_str(out, v.as_str());
        },
        None => {
            if sep < end {
                push_range(out, s, sep + 2, end);
                proof {
                    assert(s@.subrange(sep + 2, end as int) =~= inner.skip(sep - start + 2));
                }
            } else {
                push_char(out, '$');
                push_char(out, '{');
                push_range(out, s, start, end);
                push_char(out, '}');
                proof {
                    assert(final(out)@ =~= old(out)@ + (seq!['$', '{'] + inner + seq!['}']));
                }
            }
        },
    }
}

/// Unfolding of [`interpolated`] at a closed pattern: `s` at `i` starts
/// with `${`, and the first `}` after it is at `j`.
proof fn lemma_interpolated_closed(s: Seq<char>, t: Map<Seq<char>, Seq<char>>, i: int, j: int)
    requires
        0 <= i,
        i + 2 <= j < s.len(),
        s[i] == '$',
        s[i + 1] == '{',
        s[j] == '}',
        forall|k: int| i + 2 <= k < j ==> s[k] != '}',
    ensures
        interpolated(s.skip(i), t) == substitution(s.subrange(i + 2, j), t) + interpolated(
            s.skip(j + 1),
            t,
        ),
{
    let rest = s.skip(i);
    let body = rest.skip(2);
    let rel = j - (i + 2);
    assert(is_first_close(body, rel)) by {
        assert forall|k: int| 0 <= k < rel implies body[k] != '}' by {
            assert(body[k] == s[i + 2 + k]);
        }
    }
    assert(find_close(body) == rel) by {
        let c = choose|c: int| is_first_close(body, c);
        if c < rel {
            assert(body[c] == s[i + 2 + c]);
        }
        if rel < c {
            assert(body[rel] == '}');
        }
    }
    assert(body.take(rel) =~= s.subrange(i + 2, j));
    assert(body.skip(rel + 1) =~= s.skip(j + 1));
}

/// Unfolding of [`interpolated`] at an unclosed pattern: `s` at `i` starts
/// with `${` and no `}` follows.
proof fn lemma_interpolated_unclosed(s: Seq<char>, t: Map<Seq<char>, Seq<char>>, i: int)
    requires
        0 <= i,
        i + 2 <= s.len(),
        s[i] == '$',
        s[i + 1] == '{',
        forall|k: int| i + 2 <= k < s.len() ==> s[k] != '}',
    ensures
        interpolated(s.skip(i), t) == s.skip(i),
{
    let rest = s.skip(i);
    let body = rest.skip(2);
    assert(!exists|c: int| is_first_close(body, c)) by {
        if exists|c: int| is_first_close(body, c) {
            let c = choose|c: int| is_first_close(body, c);
            assert(body[c] == s[i + 2 + c]);
        }
    }
}

/// Unfolding of [`interpolated`] at a character that does not open a
/// pattern.
proof fn lemma_interpolated_plain(s: Seq<char>, t: Map<Seq<char>, Seq<char>>, i: int)
    requires
        0 <= i < s.len(),
        !(i + 1 < s.len() && s[i] == '$' && s[i + 1] == '{'),
    ensures
        interpolated(s.skip(i), t) == seq![s[i]] + interpolated(s.skip(i + 1), t),
{
    assert(s.skip(i).skip(1) =~= s.skip(i + 1));
}

/// Text with no `${` in it is left exactly as it is.
pub proof fn lemma_interpolate_plain_text(s: Seq<char>, t: Map<Seq<char>, Seq<char>>)
    requires
        forall|i: int| 0 <= i < s.len() - 1 ==> !(#[trigger] s[i] == '$' && s[i + 1] == '{'),
    ensures
        interpolated(s, t) == s,
    decreases s.len(),
{
    if s.len() > 0 {
        lemma_interpolated_plain(s, t, 0);
        let tail = s.skip(1);
        assert forall|i: int| 0 <= i < tail.len() - 1 implies !(#[trigger] tail[i] == '$' && tail[i
            + 1] == '{') by {
            assert(tail[i] == s[i + 1]);
            assert(tail[i + 1] == s[i + 2]);
        }
        lemma_interpolate_plain_text(tail, t);
        assert(s.skip(0) =~= s);
        assert(seq![s[0]] + tail =~= s);
    }
}

/// A `${` with no `}` after it is kept verbatim, with the rest of the text.
pub proof fn lemma_interpolate_unclosed_kept(s: Seq<char>, t: Map<Seq<char>, Seq<char>>)
    requires
        s.len() >= 2,
        s[0] == '$',
        s[1] == '{',
        forall|k: int| 2 <= k < s.len() ==> s[k] != '}',
    ensures
        interpolated(s, t) == s,
{
    lemma_interpolated_unclosed(s, t, 0);
    assert(s.skip(0) =~= s);
}

/// A known variable's value is inserted literally, never scanned again for
/// patterns: `${name}` followed by `rest` becomes the value followed by the
/// interpolation of `rest`.
pub proof fn lemma_interpolate_value_literal(
    name: Seq<char>,
    rest: Seq<char>,
    t: Map<Seq<char>, Seq<char>>,
)
    requires
        forall|k: int| 0 <= k < name.len() ==> name[k] != '}',
        forall|k: int| 0 <= k < name.len() - 1 ==> !#[trigger] sep_at(name, k),
        t.contains_key(name),
    ensures
        interpolated(seq!['$', '{'] + name + seq!['}'] + rest, t) == t[name] + interpolated(rest, t),
{
    let s = seq!['$', '{'] + name + seq!['}'] + rest;
    let j: int = name.len() as int + 2;
    assert forall|k: int| 2 <= k < j implies s[k] != '}' by {
        assert(s[k] == name[k - 2]);
    }
    assert(s[j] == '}');
    lemma_interpolated_closed(s, t, 0, j);
    assert(s.skip(0) =~= s);
    assert(s.subrange(2, j) =~= name);
    assert(s.skip(j + 1) =~= rest);
    assert(find_sep(name) == -1) by {
        if exists|k: int| is_first_sep(name, k) {
            let k = choose|k: int| is_first_sep(name, k);
            assert(sep_at(name, k));
        }
    }
}

/// An unknown variable with a default is replaced by exactly that default,
/// even an empty one: `${name:-default}` followed by `rest` becomes the
/// default followed by the interpolation of `rest`.
pub proof fn lemma_interpolate_default_used(
    name: Seq<char>,
    default: Seq<char>,
    rest: Seq<char>,
    t: Map<Seq<char>, Seq<char>>,
)
    requires
        forall|k: int| 0 <= k < name.len() ==> name[k] != '}',
        forall|k: int| 0 <= k < name.len() - 1 ==> !#[trigger] sep_at(name, k),
        forall|k: int| 0 <= k < default.len() ==> default[k] != '}',
        !t.contains_key(name),
    ensures
        interpolated(seq!['$', '{'] + name + seq![':', '-'] + default + seq!['}'] + rest, t) == default
            + interpolated(rest, t),
{
    let inner = name + seq![':', '-'] + default;
    let s = seq!['$', '{'] + inner + seq!['}'] + rest;
    assert(s =~= seq!['$', '{'] + name + seq![':', '-'] + default + seq!['}'] + rest);
    let j: int = inner.len() as int + 2;
    assert forall|k: int| 2 <= k < j implies s[k] != '}' by {
        assert(s[k] == inner[k - 2]);
        if k - 2 < name.len() {
            assert(inner[k - 2] == name[k - 2]);
        } else if k - 2 >= name.len() + 2 {
            assert(inner[k - 2] == default[k - 2 - name.len() - 2]);
        }
    }
    assert(s[j] == '}');
    lemma_interpolated_closed(s, t, 0, j);
    assert(s.skip(0) =~= s);
    assert(s.subrange(2, j) =~= inner);
    assert(s.skip(j + 1) =~= rest);
    let m: int = name.len() as int;
    assert(sep_at(inner, m));
    assert forall|q: int| 0 <= q < m implies !#[trigger] sep_at(inner, q) by {
        if q < m - 1 {
            assert(inner[q] == name[q]);
            assert(inner[q + 1] == name[q + 1]);
            assert(!sep_at(name, q));
        } else {
            assert(inner[q + 1] == ':');
        }
    }
    assert(is_first_sep(inner, m));
    assert(find_sep(inner) == m) by {
        let c = choose|c: int| is_first_sep(inner, c);
        if c < m {
            assert(!sep_at(inner, c));
        }
        if m < c {
            assert(!sep_at(inner, m));
        }
    }
    assert(inner.take(m) =~= name);
    assert(inner.skip(m + 2) =~= default);
}

/// Replace `${VAR}` and `${VAR:-default}` patterns in a single string.
///
/// A known variable is replaced by its value; an unknown one by its
/// default when it has one, and is otherwise kept as written. An unclosed
/// `${` is kept as is, with the rest of the string.
pub fn interpolate_string(s: &str, vars: &HashMap<String, String>) -> (out: String)
    ensures
        out@ == interpolated(s@, var_table(*vars)),
{
    let ghost t = var_table(*vars);
    let n = s.unicode_len();
    let mut out = String::new();
    let mut i: usize = 0;
    proof {
        assert(s@.skip(0) =~= s@);
        assert(out@ + interpolated(s@, t) =~= interpolated(s@, t));
    }
    while i < n
        invariant
            n == s@.len(),
            i <= n,
            t == var_table(*vars),
            interpolated(s@, t) == out@ + interpolated(s@.skip(i as int), t),
        decreases n - i,
    {
        let ghost out0 = out@;
        let ghost i0 = i as int;
        let ch = s.get_char(i);
        if ch == '$' && i + 1 < n && s.get_char(i + 1) == '{' {
            let start = i + 2;
            let j = scan_close(s, start, n);
            if j < n {
                push_substitution(&mut out, s, vars, start, j);
                proof {
                    lemma_interpolated_closed(s@, t, i0, j as int);
                }
                i = j + 1;
            } else {
                push_range(&mut out, s, i, n);
                proof {
                    lemma_interpolated_unclosed(s@, t, i0);
                    assert(s@.subrange(i0, n as int) =~= s@.skip(i0));
                    assert(s@.skip(n as int) =~= Seq::<char>::empty());
                }
                i = n;
            }
        } else {
            push_char(&mut out, ch);
            proof {
                lemma_interpolated_plain(s@, t, i0);
            }
            i += 1;
        }
        proof {
            assert(interpolated(s@, t) =~= out@ + interpolated(s@.skip(i as int), t));
        }
    }
    proof {
        assert(s@.skip(n as int) =~= Seq::<char>::empty());
        assert(out@ + Seq::<char>::empty() =~= out@);
    }
    out
}

} // verus!
