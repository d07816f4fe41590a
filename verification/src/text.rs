//! Text building with exact specifications: decimal numerals, booleans,
//! colour lists, and string comparison.

use vstd::prelude::*;

verus! {

/// The character of a decimal digit.
pub open spec fn digit_char(d: nat) -> char {
    if d == 0 { '0' }
    else if d == 1 { '1' }
    else if d == 2 { '2' }
    else if d == 3 { '3' }
    else if d == 4 { '4' }
    else if d == 5 { '5' }
    else if d == 6 { '6' }
    else if d == 7 { '7' }
    else if d == 8 { '8' }
    else { '9' }
}

/// The decimal numeral of `n`, without leading zeros.
pub open spec fn decimal(n: nat) -> Seq<char>
    decreases n,
{
    if n < 10 {
        seq![digit_char(n)]
    } else {
        decimal(n / 10).push(digit_char(n % 10))
    }
}

/// `true` or `false`, as Rust prints a boolean.
pub open spec fn bool_text(b: bool) -> Seq<char> {
    if b { "true"@ } else { "false"@ }
}

/// The elements of a colour list separated by `", "`.
pub open spec fn joined_colors(v: Seq<u8>) -> Seq<char>
    decreases v.len(),
{
    if v.len() == 0 {
        Seq::empty()
    } else if v.len() == 1 {
        decimal(v[0] as nat)
    } else {
        joined_colors(v.drop_last()) + ", "@ + decimal(v.last() as nat)
    }
}

/// Items separated by `sep`.
pub open spec fn join(items: Seq<Seq<char>>, sep: Seq<char>) -> Seq<char>
    decreases items.len(),
{
    if items.len() == 0 {
        Seq::empty()
    } else if items.len() == 1 {
        items[0]
    } else {
        join(items.drop_last(), sep) + sep + items.last()
    }
}

/// A string in double quotes, as `Debug` prints one that needs no escapes.
pub open spec fn quoted(s: Seq<char>) -> Seq<char> {
    "\""@ + s + "\""@
}

/// A list of strings as `Debug` prints it when none needs escapes:
/// `["a", "b"]`.
pub open spec fn quoted_list(items: Seq<Seq<char>>) -> Seq<char> {
    "["@ + join(items.map_values(|s: Seq<char>| quoted(s)), ", "@) + "]"@
}

/// A list of strings as character sequences.
pub open spec fn texts(s: Seq<String>) -> Seq<Seq<char>> {
    s.map_values(|x: String| x@)
}

/// A colour list as Rust's `Debug` prints it: `[a, b, c]`.
pub open spec fn list_text(v: Seq<u8>) -> Seq<char> {
    "["@ + joined_colors(v) + "]"@
}

/// The numeral of a decimal digit.
fn digit(d: usize) -> (t: &'static str)
    requires
        d < 10,
    ensures
        t@ == seq![digit_char(d as nat)],
{
    proof {
        reveal_strlit("0");
        reveal_strlit("1");
        reveal_strlit("2");
        reveal_strlit("3");
        reveal_strlit("4");
        reveal_strlit("5");
        reveal_strlit("6");
        reveal_strlit("7");
        reveal_strlit("8");
        reveal_strlit("9");
    }
    if d == 0 { "0" }
    else if d == 1 { "1" }
    else if d == 2 { "2" }
    else if d == 3 { "3" }
    else if d == 4 { "4" }
    else if d == 5 { "5" }
    else if d == 6 { "6" }
    else if d == 7 { "7" }
    else if d == 8 { "8" }
    else { "9" }
}

/// Appends `t` to `s`.
pub fn push_str(s: &mut String, t: &str)
    ensures
        final(s)@ == old(s)@ + t@,
{
    s.append(t);
}

/// Appends the decimal numeral of `n` to `s`.
pub fn push_decimal(s: &mut String, n: usize)
    ensures
        final(s)@ == old(s)@ + decimal(n as nat),
    decreases n,
{
    if n >= 10 {
        push_decimal(s, n / 10);
    }
    push_str(s, digit(n % 10));
    assert(s@ =~= old(s)@ + decimal(n as nat));
}

/// Appends `true` or `false` to `s`.
pub fn push_bool(s: &mut String, b: bool)
    ensures
        final(s)@ == old(s)@ + bool_text(b),
{
    if b {
        push_str(s, "true");
    } else {
        push_str(s, "false");
    }
}

/// Appends a colour list in `Debug` form to `s`.
pub fn push_color_list(s: &mut String, v: &Vec<u8>)
    ensures
        final(s)@ == old(s)@ + list_text(v@),
{
    let ghost start = s@;
    push_str(s, "[");
    let mut i: usize = 0;
    while i < v.len()
        invariant
            i <= v.len(),
            s@ == start + "["@ + joined_colors(v@.take(i as int)),
        decreases v.len() - i,
    {
        let ghost before = s@;
        if i > 0 {
            push_str(s, ", ");
        }
        push_decimal(s, v[i] as usize);
        i = i + 1;
        assert(v@.take(i as int).drop_last() =~= v@.take(i - 1));
        assert(s@ =~= start + "["@ + joined_colors(v@.take(i as int)));
    }
    assert(v@.take(v.len() as int) =~= v@);
    push_str(s, "]");
    assert(s@ =~= old(s)@ + list_text(v@));
}

/// Copies `items[from..to]` into a fresh vector.
pub fn copy_texts(items: &[String], from: usize, to: usize) -> (r: Vec<String>)
    requires
        from <= to <= items@.len(),
    ensures
        texts(r@) == texts(items@).subrange(from as int, to as int),
{
    let mut out: Vec<String> = Vec::new();
    let mut i: usize = from;
    while i < to
        invariant
            from <= i <= to,
            to <= items@.len(),
            out@.len() == i - from,
            forall|k: int| 0 <= k < out@.len() ==> #[trigger] out@[k]@ == items@[from + k]@,
        decreases to - i,
    {
        let item = owned(items[i].as_str());
        out.push(item);
        i = i + 1;
    }
    assert(texts(out@) =~= texts(items@).subrange(from as int, to as int)) by {
        assert forall|k: int| 0 <= k < out@.len() implies texts(out@)[k] == texts(items@).subrange(
            from as int,
            to as int,
        )[k] by {
            assert(out@[k]@ == items@[from + k]@);
        }
    }
    out
}

/// Appends a list of strings in quoted `Debug` form: `["a", "b"]`.
pub fn push_quoted_list(s: &mut String, items: &Vec<String>)
    ensures
        final(s)@ == old(s)@ + quoted_list(texts(items@)),
{
    let ghost start = s@;
    let ghost q = texts(items@).map_values(|t: Seq<char>| quoted(t));
    push_str(s, "[");
    let mut i: usize = 0;
    while i < items.len()
        invariant
            i <= items.len(),
            q == texts(items@).map_values(|t: Seq<char>| quoted(t)),
            s@ == start + "["@ + join(q.take(i as int), ", "@),
        decreases items.len() - i,
    {
        if i > 0 {
            push_str(s, ", ");
        }
        push_str(s, "\"");
        push_str(s, items[i].as_str());
        push_str(s, "\"");
        i = i + 1;
        assert(q.take(i as int).drop_last() =~= q.take(i - 1));
        assert(q.take(i as int).last() == quoted(items@[i - 1]@));
        assert(s@ =~= start + "["@ + join(q.take(i as int), ", "@));
    }
    assert(q.take(items.len() as int) =~= q);
    push_str(s, "]");
    assert(s@ =~= old(s)@ + quoted_list(texts(items@)));
}

/// Appends `items` separated by `sep`.
pub fn push_joined(s: &mut String, items: &Vec<String>, sep: &str)
    ensures
        final(s)@ == old(s)@ + join(texts(items@), sep@),
{
    let ghost start = s@;
    let ghost t = texts(items@);
    let mut i: usize = 0;
    while i < items.len()
        invariant
            i <= items.len(),
            t == texts(items@),
            s@ == start + join(t.take(i as int), sep@),
        decreases items.len() - i,
    {
        if i > 0 {
            push_str(s, sep);
        }
        push_str(s, items[i].as_str());
        i = i + 1;
        assert(t.take(i as int).drop_last() =~= t.take(i - 1));
        assert(s@ =~= start + join(t.take(i as int), sep@));
    }
    assert(t.take(items.len() as int) =~= t);
}

/// A fresh string holding `t`.
pub fn owned(t: &str) -> (r: String)
    ensures
        r@ == t@,
{
    t.to_owned()
}

/// Whether two strings hold the same characters.
pub fn str_eq(a: &str, b: &str) -> (r: bool)
    ensures
        r == (a@ == b@),
{
    a.to_owned() == b.to_owned()
}

} // verus!
