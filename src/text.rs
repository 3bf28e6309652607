//! Character-level helpers on strings, with their mathematical models.

use vstd::prelude::*;
use vstd::string::*;

verus! {

/// `a` and `b` joined by one space, or `b` alone when `a` is empty.
pub open spec fn spaced(a: Seq<char>, b: Seq<char>) -> Seq<char> {
    if a.len() == 0 {
        b
    } else {
        a + seq![' '] + b
    }
}

/// The lines of `lines` joined by newline characters.
pub open spec fn join_lines(lines: Seq<Seq<char>>) -> Seq<char>
    decreases lines.len(),
{
    if lines.len() == 0 {
        Seq::empty()
    } else if lines.len() == 1 {
        lines[0]
    } else {
        join_lines(lines.drop_last()) + seq!['\n'] + lines.last()
    }
}

/// `s` without its first and last character.
pub open spec fn strip_ends(s: Seq<char>) -> Seq<char> {
    if s.len() < 2 {
        Seq::empty()
    } else {
        s.subrange(1, s.len() - 1)
    }
}

/// Whether `a` and `b` hold the same characters.
pub fn str_eq(a: &str, b: &str) -> (r: bool)
    ensures
        r == (a@ == b@),
{
    let n = a.unicode_len();
    let m = b.unicode_len();
    if n != m {
        return false;
    }
    let mut i: usize = 0;
    while i < n
        invariant
            n == a@.len(),
            m == b@.len(),
            n == m,
            i <= n,
            forall|k: int| 0 <= k < i ==> a@[k] == b@[k],
        decreases n - i,
    {
        if a.get_char(i) != b.get_char(i) {
            return false;
        }
        i = i + 1;
    }
    assert(a@ =~= b@);
    true
}

/// Whether `s` begins with `p`.
pub fn starts_with(s: &str, p: &str) -> (r: bool)
    ensures
        r == (p@.len() <= s@.len() && s@.subrange(0, p@.len() as int) == p@),
{
    let n = s.unicode_len();
    let m = p.unicode_len();
    if m > n {
        return false;
    }
    let head = s.substring_char(0, m);
    str_eq(head, p)
}

/// Relies on `String::push`: appends one character.
#[verifier::external_body]
pub(crate) fn push_char(s: &mut String, c: char)
    ensures
        final(s)@ == old(s)@.push(c),
{
    s.push(c);
}

/// Appends `t` to `s`.
pub fn push_str(s: &mut String, t: &str)
    ensures
        final(s)@ == old(s)@ + t@,
{
    s.append(t);
}

/// `s` without its first and last character.
pub fn strip_ends_of(s: &str) -> (r: String)
    ensures
        r@ == strip_ends(s@),
{
    let n = s.unicode_len();
    if n < 2 {
        return String::new();
    }
    s.substring_char(1, n - 1).to_owned()
}

/// The strings of `v` joined by newline characters.
pub fn join_with_newlines(v: &Vec<String>) -> (r: String)
    ensures
        r@ == join_lines(v@.map_values(|s: String| s@)),
{
    let ghost views = v@.map_values(|s: String| s@);
    let mut r = String::new();
    let mut i: usize = 0;
    while i < v.len()
        invariant
            i <= v.len(),
            views == v@.map_values(|s: String| s@),
            r@ == join_lines(views.subrange(0, i as int)),
        decreases v.len() - i,
    {
        if i > 0 {
            push_char(&mut r, '\n');
        }
        push_str(&mut r, v[i].as_str());
        assert(views.subrange(0, i + 1).drop_last() =~= views.subrange(0, i as int));
        i = i + 1;
    }
    assert(views.subrange(0, v.len() as int) =~= views);
    r
}

/// The decimal digit for `d`, below ten.
pub open spec fn digit_char(d: nat) -> char {
    if d == 0 {
        '0'
    } else if d == 1 {
        '1'
    } else if d == 2 {
        '2'
    } else if d == 3 {
        '3'
    } else if d == 4 {
        '4'
    } else if d == 5 {
        '5'
    } else if d == 6 {
        '6'
    } else if d == 7 {
        '7'
    } else if d == 8 {
        '8'
    } else {
        '9'
    }
}

/// The decimal numeral of `n`, without leading zeros.
pub open spec fn decimal(n: nat) -> Seq<char>
    decreases n,
{
    if n < 10 {
        seq![digit_char(n)]
    } else {
        decimal(n / 10).push(digit_char(n % 10))
    }
}

/// Appends the decimal numeral of `n`.
pub fn push_decimal(s: &mut String, n: usize)
    ensures
        final(s)@ == old(s)@ + decimal(n as nat),
    decreases n,
{
    if n >= 10 {
        push_decimal(s, n / 10);
    }
    let d = n % 10;
    let c = if d == 0 {
        '0'
    } else if d == 1 {
        '1'
    } else if d == 2 {
        '2'
    } else if d == 3 {
        '3'
    } else if d == 4 {
        '4'
    } else if d == 5 {
        '5'
    } else if d == 6 {
        '6'
    } else if d == 7 {
        '7'
    } else if d == 8 {
        '8'
    } else {
        '9'
    };
    push_char(s, c);
    assert(s@ =~= old(s)@ + decimal(n as nat));
}

} // verus!
