//! Text building helpers: escaped labels and decimal numbers.

use vstd::prelude::*;

verus! {

/// Appends one character with `String::push`.
#[verifier::external_body]
pub fn push_char(s: &mut String, c: char)
    ensures
        final(s)@ == old(s)@.push(c),
{
    s.push(c)
}

/// DOT/Mermaid escape of one character.
pub open spec fn escape_char(c: char) -> Seq<char> {
    if c == '\\' {
        seq!['\\', '\\']
    } else if c == '"' {
        seq!['\\', '"']
    } else if c == '\n' {
        seq!['\\', 'n']
    } else {
        seq![c]
    }
}

/// `s` with every character escaped by [`escape_char`].
pub open spec fn escaped(s: Seq<char>) -> Seq<char>
    decreases s.len(),
{
    if s.len() == 0 {
        Seq::empty()
    } else {
        escaped(s.drop_last()) + escape_char(s.last())
    }
}

/// Reading an escaped label back: `\\` gives `\`, `\"` gives `"`,
/// `\n` gives a newline, and any other character stands for itself.
pub open spec fn unescaped(t: Seq<char>) -> Seq<char>
    decreases t.len(),
{
    if t.len() == 0 {
        Seq::empty()
    } else if t[0] == '\\' && t.len() >= 2 {
        seq![if t[1] == 'n' { '\n' } else { t[1] }] + unescaped(t.skip(2))
    } else {
        seq![t[0]] + unescaped(t.skip(1))
    }
}

proof fn lemma_escaped_concat(a: Seq<char>, b: Seq<char>)
    ensures
        escaped(a + b) == escaped(a) + escaped(b),
    decreases b.len(),
{
    if b.len() > 0 {
        lemma_escaped_concat(a, b.drop_last());
        assert((a + b).drop_last() =~= a + b.drop_last());
        assert((a + b).last() == b.last());
        assert(escaped(a) + escaped(b.drop_last()) + escape_char(b.last()) =~= escaped(a) + (escaped(
            b.drop_last(),
        ) + escape_char(b.last())));
    }
}

proof fn lemma_unescape_chunk(c: char, rest: Seq<char>)
    ensures
        unescaped(escape_char(c) + rest) == seq![c] + unescaped(rest),
{
    let t = escape_char(c) + rest;
    if c == '\\' || c == '"' || c == '\n' {
        assert(t.skip(2) =~= rest);
    } else {
        assert(t.skip(1) =~= rest);
    }
}

/// Escaping loses nothing: reading an escaped label back gives the name.
pub proof fn lemma_escape_round_trip(s: Seq<char>)
    ensures
        unescaped(escaped(s)) == s,
    decreases s.len(),
{
    if s.len() > 0 {
        let head = seq![s[0]];
        let tail = s.skip(1);
        assert(s =~= head + tail);
        lemma_escaped_concat(head, tail);
        assert(head.drop_last() =~= Seq::<char>::empty());
        assert(escaped(head.drop_last()) =~= Seq::<char>::empty());
        assert(head.last() == s[0]);
        assert(escaped(head) =~= escape_char(s[0]));
        lemma_unescape_chunk(s[0], escaped(tail));
        lemma_escape_round_trip(tail);
        assert(seq![s[0]] + tail =~= s);
    }
}

/// An escaped label holds no raw newline, and every `"` in it is preceded
/// by a `\`, so it can stand inside a double-quoted label.
pub proof fn lemma_escaped_label_safe(s: Seq<char>)
    ensures
        forall|i: int| 0 <= i < escaped(s).len() ==> #[trigger] escaped(s)[i] != '\n',
        forall|i: int|
            0 <= i < escaped(s).len() && #[trigger] escaped(s)[i] == '"' ==> i > 0 && escaped(s)[i - 1]
                == '\\',
    decreases s.len(),
{
    if s.len() > 0 {
        let prev = escaped(s.drop_last());
        let chunk = escape_char(s.last());
        lemma_escaped_label_safe(s.drop_last());
        assert(escaped(s) == prev + chunk);
        assert forall|i: int| 0 <= i < escaped(s).len() implies #[trigger] escaped(s)[i] != '\n' by {
            if i < prev.len() {
                assert(escaped(s)[i] == prev[i]);
            } else {
                assert(escaped(s)[i] == chunk[i - prev.len()]);
            }
        }
        assert forall|i: int|
            0 <= i < escaped(s).len() && #[trigger] escaped(s)[i] == '"' implies i > 0 && escaped(s)[i
                - 1] == '\\' by {
            if i < prev.len() {
                assert(escaped(s)[i] == prev[i]);
                assert(escaped(s)[i - 1] == prev[i - 1]);
            } else {
                assert(escaped(s)[i] == chunk[i - prev.len()]);
                assert(i - prev.len() == 1);
                assert(escaped(s)[i - 1] == chunk[0]);
            }
        }
    }
}

/// Escape a module name for use inside a DOT/Mermaid double-quoted label:
/// `\` becomes `\\`, `"` becomes `\"`, a newline becomes `\n`.
pub fn escape_label(name: &str) -> (out: String)
    ensures
        out@ == escaped(name@),
{
    let mut out = String::new();
    let n = name.unicode_len();
    let mut i: usize = 0;
    while i < n
        invariant
            n == name@.len(),
            i <= n,
            out@ == escaped(name@.take(i as int)),
        decreases n - i,
    {
        let ch = name.get_char(i);
        proof {
            assert(name@.take(i + 1).drop_last() =~= name@.take(i as int));
        }
        if ch == '\\' {
            push_char(&mut out, '\\');
            push_char(&mut out, '\\');
        } else if ch == '"' {
            push_char(&mut out, '\\');
            push_char(&mut out, '"');
        } else if ch == '\n' {
            push_char(&mut out, '\\');
            push_char(&mut out, 'n');
        } else {
            push_char(&mut out, ch);
        }
        i += 1;
        proof {
            assert(out@ =~= escaped(name@.take(i as int)));
        }
    }
    proof {
        assert(name@.take(n as int) =~= name@);
    }
    out
}

/// Appends a string slice with `String::push_str`.
#[verifier::external_body]
pub fn push_str(s: &mut String, t: &str)
    ensures
        final(s)@ == old(s)@ + t@,
{
    s.push_str(t)
}

/// Decimal digit character for `d < 10`.
pub open spec fn digit_char(d: nat) -> char {
    if d == 0 {
        '0'
    } else if d == 1 {
        '1'
    } else if d == 2 {
        '2'
    } else if d == 3 {
        '3'
    } else if d == 4 {
        '4'
    } else if d == 5 {
        '5'
    } else if d == 6 {
        '6'
    } else if d == 7 {
        '7'
    } else if d == 8 {
        '8'
    } else {
        '9'
    }
}

/// Decimal representation of `n` without leading zeros.
pub open spec fn decimal(n: nat) -> Seq<char>
    decreases n,
{
    if n < 10 {
        seq![digit_char(n)]
    } else {
        decimal(n / 10) + seq![digit_char(n % 10)]
    }
}

fn digit(d: usize) -> (c: char)
    requires
        d < 10,
    ensures
        c == digit_char(d as nat),
{
    if d == 0 {
        '0'
    } else if d == 1 {
        '1'
    } else if d == 2 {
        '2'
    } else if d == 3 {
        '3'
    } else if d == 4 {
        '4'
    } else if d == 5 {
        '5'
    } else if d == 6 {
        '6'
    } else if d == 7 {
        '7'
    } else if d == 8 {
        '8'
    } else {
        '9'
    }
}

/// Appends the decimal representation of `n`.
pub fn push_decimal(s: &mut String, n: usize)
    ensures
        final(s)@ == old(s)@ + decimal(n as nat),
    decreases n,
{
    if n < 10 {
        push_char(s, digit(n));
    } else {
        push_decimal(s, n / 10);
        push_char(s, digit(n % 10));
        proof {
            assert(final(s)@ =~= old(s)@ + decimal(n as nat));
        }
    }
}

} // verus!
