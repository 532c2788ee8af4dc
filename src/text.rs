//! Character-level helpers shared by the host and port parsers: splitting at the
//! first separator and reading unsigned decimal numbers.
use vstd::prelude::*;

verus! {

/// The part of `s` before its first `sep`, and the part after it; `None` when
/// `s` holds no `sep` (the behaviour of `str::split_once`).
#[verifier::opaque]
pub open spec fn split_once_spec(s: Seq<char>, sep: char) -> Option<(Seq<char>, Seq<char>)> {
    if s.contains(sep) {
        let i = first_index(s, sep);
        Some((s.take(i), s.skip(i + 1)))
    } else {
        None
    }
}

/// Where `sep` first occurs in `s`, when it occurs.
pub open spec fn first_index(s: Seq<char>, sep: char) -> int {
    choose|i: int| 0 <= i < s.len() && s[i] == sep && !s.take(i).contains(sep)
}

/// What follows the first `sep` is shorter than the whole.
pub proof fn lemma_split_once_shorter(s: Seq<char>, sep: char)
    ensures
        split_once_spec(s, sep) matches Some((_, rest)) ==> rest.len() < s.len(),
{
    reveal(split_once_spec);
    if s.contains(sep) {
        lemma_first_index(s, sep);
    }
}

/// When `sep` occurs in `s`, `first_index` is the position of its first
/// occurrence.
pub proof fn lemma_first_index(s: Seq<char>, sep: char)
    requires
        s.contains(sep),
    ensures
        0 <= first_index(s, sep) < s.len(),
        s[first_index(s, sep)] == sep,
        !s.take(first_index(s, sep)).contains(sep),
    decreases s.len(),
{
    let t = s.drop_last();
    if t.contains(sep) {
        lemma_first_index(t, sep);
        let i = first_index(t, sep);
        assert(s.take(i) =~= t.take(i));
    } else {
        assert(s.take(s.len() - 1) =~= t);
        let k = choose|k: int| 0 <= k < s.len() && s[k] == sep;
        if k < s.len() - 1 {
            assert(t[k] == sep);
        }
    }
}

pub open spec fn is_digit(c: char) -> bool {
    '0' <= c && c <= '9'
}

pub open spec fn all_digits(s: Seq<char>) -> bool {
    forall|i: int| 0 <= i < s.len() ==> is_digit(#[trigger] s[i])
}

pub open spec fn digit_value(c: char) -> nat {
    (c as nat - '0' as nat) as nat
}

/// The number that the decimal digits `s` spell, most significant first.
pub open spec fn decimal_value(s: Seq<char>) -> nat
    decreases s.len(),
{
    if s.len() == 0 {
        0
    } else {
        decimal_value(s.drop_last()) * 10 + digit_value(s.last())
    }
}

/// The digits of an unsigned number in the text form that `str::parse` accepts:
/// one optional leading `+`.
pub open spec fn unsigned_digits(s: Seq<char>) -> Seq<char> {
    if s.len() > 0 && s[0] == '+' {
        s.skip(1)
    } else {
        s
    }
}

/// What parsing `s` as an unsigned integer type whose largest value is `max`
/// yields: an optional `+`, then at least one decimal digit, of a value that fits.
#[verifier::opaque]
pub open spec fn parse_unsigned_spec(s: Seq<char>, max: nat) -> Option<nat> {
    let d = unsigned_digits(s);
    if d.len() > 0 && all_digits(d) && decimal_value(d) <= max {
        Some(decimal_value(d))
    } else {
        None
    }
}

/// The characters of `s`, one per element.
pub fn chars_of(s: &str) -> (r: Vec<char>)
    ensures
        r@ == s@,
{
    let n = s.unicode_len();
    let mut r: Vec<char> = Vec::new();
    let mut i: usize = 0;
    while i < n
        invariant
            n == s@.len(),
            i <= n,
            r@ == s@.take(i as int),
        decreases n - i,
    {
        r.push(s.get_char(i));
        i = i + 1;
        assert(r@ =~= s@.take(i as int));
    }
    assert(r@ =~= s@);
    r
}

/// Splits `s` at its first `sep`.
pub fn split_once<'a>(s: &'a [char], sep: char) -> (r: Option<(&'a [char], &'a [char])>)
    ensures
        match r {
            Some((a, b)) => split_once_spec(s@, sep) == Some((a@, b@)),
            None => split_once_spec(s@, sep).is_none(),
        },
{
    proof {
        reveal(split_once_spec);
    }
    let n = s.len();
    let mut i: usize = 0;
    while i < n
        invariant
            n == s@.len(),
            i <= n,
            forall|j: int| 0 <= j < i ==> s@[j] != sep,
        decreases n - i,
    {
        if s[i] == sep {
            let a = vstd::slice::slice_subrange(s, 0, i);
            let b = vstd::slice::slice_subrange(s, i + 1, n);
            proof {
                let t = s@;
                assert(!t.take(i as int).contains(sep));
                assert(t.contains(sep));
                let k = first_index(t, sep);
                if k < i {
                    assert(t[k] != sep);
                } else if k > i {
                    assert(t.take(k)[i as int] == sep);
                }
                assert(k == i);
                assert(a@ =~= t.take(i as int));
                assert(b@ =~= t.skip(i + 1));
                reveal(split_once_spec);
            }
            return Some((a, b));
        }
        i = i + 1;
    }
    proof {
        if s@.contains(sep) {
            let k = choose|k: int| 0 <= k < s@.len() && s@[k] == sep;
            assert(s@[k] != sep);
        }
    }
    None
}

proof fn lemma_decimal_value_grows(s: Seq<char>, c: char)
    requires
        is_digit(c),
    ensures
        decimal_value(s.push(c)) == decimal_value(s) * 10 + digit_value(c),
        decimal_value(s.push(c)) >= decimal_value(s),
{
    assert(s.push(c).drop_last() =~= s);
}

/// Reads an unsigned number as `str::parse` does for an integer type whose
/// largest value is `max`.
pub fn parse_unsigned(s: &[char], max: u64) -> (r: Option<u64>)
    requires
        max <= u32::MAX,
    ensures
        match r {
            Some(v) => v <= max && parse_unsigned_spec(s@, max as nat) == Some(v as nat),
            None => parse_unsigned_spec(s@, max as nat).is_none(),
        },
{
    proof {
        reveal(parse_unsigned_spec);
    }
    let n = s.len();
    let mut i: usize = 0;
    if n > 0 && s[0] == '+' {
        i = 1;
    }
    let ghost start = i as int;
    let ghost d = unsigned_digits(s@);
    assert(d =~= s@.skip(start));
    if i == n {
        return None;
    }
    let mut acc: u64 = 0;
    let mut over = false;
    while i < n
        invariant
            n == s@.len(),
            0 <= start <= i <= n,
            d == s@.skip(start),
            d == unsigned_digits(s@),
            all_digits(s@.subrange(start, i as int)),
            !over ==> acc as nat == decimal_value(s@.subrange(start, i as int)) && acc <= max,
            over ==> decimal_value(s@.subrange(start, i as int)) > max,
            max <= u32::MAX,
        decreases n - i,
    {
        let c = s[i];
        if !('0' <= c && c <= '9') {
            assert(d[i - start] == c);
            proof {
                reveal(parse_unsigned_spec);
            }
            return None;
        }
        let ghost prev = s@.subrange(start, i as int);
        assert(s@.subrange(start, i + 1) =~= prev.push(c));
        proof {
            lemma_decimal_value_grows(prev, c);
        }
        if !over {
            let v = acc * 10 + (c as u64 - '0' as u64);
            if v > max {
                over = true;
            } else {
                acc = v;
            }
        }
        i = i + 1;
    }
    assert(s@.subrange(start, n as int) =~= d);
    proof {
        reveal(parse_unsigned_spec);
    }
    if over {
        None
    } else {
        Some(acc)
    }
}

} // verus!
