//! Names built by the compiler: synthetic temporaries, dotted tag paths and
//! the short name of a variant.
use vstd::prelude::*;

verus! {

/// The decimal digit for `d < 10`.
pub open spec fn digit_char(d: nat) -> char {
    if d == 0 { '0' }
    else if d == 1 { '1' }
    else if d == 2 { '2' }
    else if d == 3 { '3' }
    else if d == 4 { '4' }
    else if d == 5 { '5' }
    else if d == 6 { '6' }
    else if d == 7 { '7' }
    else if d == 8 { '8' }
    else { '9' }
}

/// Decimal digits of `n`, most significant first.
pub open spec fn decimal(n: nat) -> Seq<char>
    decreases n,
{
    if n < 10 {
        seq![digit_char(n)]
    } else {
        decimal(n / 10).push(digit_char(n % 10))
    }
}

/// The synthetic name `#n`.
pub open spec fn unique_name_spec(n: nat) -> Seq<char> {
    seq!['#'] + decimal(n)
}

/// Dotted path: the parts joined with `.`.
pub open spec fn join_path_spec(parts: Seq<String>) -> Seq<char>
    decreases parts.len(),
{
    if parts.len() == 0 {
        Seq::empty()
    } else if parts.len() == 1 {
        parts[0]@
    } else {
        join_path_spec(parts.subrange(0, parts.len() - 1)) + seq!['.'] + parts[parts.len() - 1]@
    }
}

/// Start of the segment that ends at `i`: just after the last `.` before `i`.
pub open spec fn segment_start(s: Seq<char>, i: int) -> int
    decreases i,
{
    if i <= 0 {
        0
    } else if s[i - 1] == '.' {
        i
    } else {
        segment_start(s, i - 1)
    }
}

/// The part of `s` after its last `.`; all of `s` when it has none.
pub open spec fn last_segment_spec(s: Seq<char>) -> Seq<char> {
    s.subrange(segment_start(s, s.len() as int), s.len() as int)
}

/// The digit `d` as text.
fn digit_str(d: u64) -> (r: &'static str)
    requires
        d < 10,
    ensures
        r@ == seq![digit_char(d as nat)],
{
    proof {
        reveal_strlit("0");
        reveal_strlit("1");
        reveal_strlit("2");
        reveal_strlit("3");
        reveal_strlit("4");
        reveal_strlit("5");
        reveal_strlit("6");
        reveal_strlit("7");
        reveal_strlit("8");
        reveal_strlit("9");
    }
    if d == 0 { "0" }
    else if d == 1 { "1" }
    else if d == 2 { "2" }
    else if d == 3 { "3" }
    else if d == 4 { "4" }
    else if d == 5 { "5" }
    else if d == 6 { "6" }
    else if d == 7 { "7" }
    else if d == 8 { "8" }
    else { "9" }
}

/// Appends the decimal digits of `n`.
pub fn push_decimal(s: &mut String, n: u64)
    ensures
        final(s)@ == old(s)@ + decimal(n as nat),
    decreases n,
{
    if n >= 10 {
        push_decimal(s, n / 10);
    }
    s.append(digit_str(n % 10));
    proof {
        if n >= 10 {
            assert(old(s)@ + decimal(n as nat) =~= old(s)@ + decimal((n / 10) as nat) + seq![digit_char((n % 10) as nat)]);
        } else {
            assert(n % 10 == n);
        }
    }
}

/// The synthetic name `#n` used for a pattern temporary.
pub fn unique_name(n: usize) -> (r: String)
    ensures
        r@ == unique_name_spec(n as nat),
{
    proof {
        reveal_strlit("#");
    }
    let mut s = String::from_str("#");
    push_decimal(&mut s, n as u64);
    s
}

/// Joins the parts of a path with `.`.
pub fn join_path(parts: &Vec<String>) -> (r: String)
    ensures
        r@ == join_path_spec(parts@),
{
    proof {
        reveal_strlit(".");
    }
    let mut s = String::new();
    let mut i: usize = 0;
    while i < parts.len()
        invariant
            i <= parts.len(),
            s@ == join_path_spec(parts@.subrange(0, i as int)),
        decreases parts.len() - i,
    {
        let ghost before = s@;
        proof {
            reveal_strlit(".");
        }
        if i > 0 {
            s.append(".");
        }
        s.append(parts[i].as_str());
        proof {
            let next = parts@.subrange(0, i + 1);
            assert(next.subrange(0, next.len() - 1) =~= parts@.subrange(0, i as int));
            assert(next[next.len() - 1] == parts@[i as int]);
            if i == 0 {
                assert(s@ =~= next[0]@);
            } else {
                assert(s@ =~= before + seq!['.'] + parts@[i as int]@);
            }
        }
        i = i + 1;
    }
    assert(parts@.subrange(0, parts.len() as int) =~= parts@);
    s
}

/// The short name of a dotted tag path: what follows its last `.`.
pub fn last_segment(name: &String) -> (r: String)
    ensures
        r@ == last_segment_spec(name@),
{
    let s = name.as_str();
    let n = s.unicode_len();
    let mut i: usize = n;
    while i > 0 && s.get_char(i - 1) != '.'
        invariant
            i <= n == s@.len(),
            segment_start(s@, i as int) == segment_start(s@, n as int),
        decreases i,
    {
        i = i - 1;
    }
    String::from_str(s.substring_char(i, n))
}

} // verus!
