//! Character-level helpers on strings, stated over their `Seq<char>` views.

use vstd::prelude::*;
use vstd::string::*;

verus! {

/// The views of a sequence of strings, element by element.
pub open spec fn views(v: Seq<String>) -> Seq<Seq<char>> {
    Seq::new(v.len(), |i: int| v[i]@)
}

/// The view of an optional string.
pub open spec fn opt_view(s: Option<String>) -> Option<Seq<char>> {
    match s {
        Some(t) => Some(t@),
        None => None,
    }
}

/// Pushing a string onto a vector pushes its view onto the vector's views.
pub proof fn lemma_views_push(v: Seq<String>, s: String)
    ensures
        views(v.push(s)) == views(v).push(s@),
{
    assert(views(v.push(s)) =~= views(v).push(s@));
}

/// The characters of `s`, in order.
pub fn chars_of(s: &str) -> (r: Vec<char>)
    ensures
        r@ == s@,
{
    let mut out: Vec<char> = Vec::new();
    for c in it: s.chars()
        invariant
            it.seq() == s@,
            out@ == it.seq().take(it.index()),
    {
        out.push(c);
    }
    out
}

/// Whether the characters `p` open the characters `s`.
pub fn has_prefix(s: &Vec<char>, p: &Vec<char>) -> (r: bool)
    ensures
        r == p@.is_prefix_of(s@),
{
    if p.len() > s.len() {
        return false;
    }
    let mut i: usize = 0;
    while i < p.len()
        invariant
            i <= p.len() <= s.len(),
            forall|k: int| 0 <= k < i ==> s@[k] == p@[k],
        decreases p.len() - i,
    {
        if s[i] != p[i] {
            assert(s@.subrange(0, p@.len() as int)[i as int] != p@[i as int]);
            return false;
        }
        i += 1;
    }
    assert(p@ =~= s@.subrange(0, p@.len() as int));
    true
}

/// Whether two character vectors hold the same text.
pub fn same_chars(a: &Vec<char>, b: &Vec<char>) -> (r: bool)
    ensures
        r == (a@ == b@),
{
    if a.len() != b.len() {
        return false;
    }
    let r = has_prefix(a, b);
    assert(a@.subrange(0, a@.len() as int) =~= a@);
    r
}

/// Whether `s` starts with `prefix`.
pub fn starts_with(s: &str, prefix: &str) -> (r: bool)
    ensures
        r == prefix@.is_prefix_of(s@),
{
    let sc = chars_of(s);
    let pc = chars_of(prefix);
    has_prefix(&sc, &pc)
}

/// Whether two strings hold the same text.
pub fn same_text(a: &str, b: &str) -> (r: bool)
    ensures
        r == (a@ == b@),
{
    let ac = chars_of(a);
    let bc = chars_of(b);
    same_chars(&ac, &bc)
}

/// Whether `s` occurs among `items`.
pub fn contains_text(items: &Vec<String>, s: &str) -> (r: bool)
    ensures
        r == views(items@).contains(s@),
{
    let sc = chars_of(s);
    let mut i: usize = 0;
    while i < items.len()
        invariant
            i <= items.len(),
            sc@ == s@,
            forall|k: int| 0 <= k < i ==> views(items@)[k] != s@,
        decreases items.len() - i,
    {
        let ic = chars_of(items[i].as_str());
        if same_chars(&ic, &sc) {
            assert(views(items@)[i as int] == s@);
            return true;
        }
        i += 1;
    }
    false
}

/// The digits of `n` in base 16, lower case, without leading zeros.
pub open spec fn hex_digits(n: nat) -> Seq<char>
    decreases n,
{
    let last = "0123456789abcdef"@.subrange((n % 16) as int, (n % 16) as int + 1);
    if n < 16 {
        last
    } else {
        hex_digits(n / 16) + last
    }
}

/// Appends the digits of `n` in base 16 to `out`.
pub fn push_hex(out: &mut String, n: u64)
    ensures
        final(out)@ == old(out)@ + hex_digits(n as nat),
    decreases n,
{
    if n >= 16 {
        push_hex(out, n / 16);
    }
    let d: usize = (n % 16) as usize;
    proof {
        reveal_strlit("0123456789abcdef");
    }
    out.append("0123456789abcdef".substring_char(d, d + 1));
    assert(out@ =~= old(out)@ + hex_digits(n as nat));
}

} // verus!
