//! The one command-line option: `-s N` sets the number of sites.

use vstd::prelude::*;
use vstd::string::*;

verus! {

/// An argument that could not be understood.
#[derive(Clone, Copy, Debug, PartialEq, Eq, Structural)]
pub enum ArgError {
    /// The word after `-s` is not a decimal number that fits in 32 bits.
    InvalidNumber,
}

pub open spec fn is_digit(c: char) -> bool {
    '0' <= c && c <= '9'
}

pub open spec fn digit_value(c: char) -> int {
    c as int - '0' as int
}

pub open spec fn all_digits(s: Seq<char>) -> bool {
    forall|i: int| 0 <= i < s.len() ==> is_digit(#[trigger] s[i])
}

/// The number that a string of decimal digits denotes.
pub open spec fn decimal_value(s: Seq<char>) -> int
    decreases s.len(),
{
    if s.len() == 0 {
        0
    } else {
        10 * decimal_value(s.drop_last()) + digit_value(s.last())
    }
}

/// The 32-bit number that a word denotes: an optional sign and at least one
/// decimal digit, nothing else, and a value in range.
pub open spec fn parse_int(s: Seq<char>) -> Option<int> {
    if s.len() == 0 {
        None
    } else if s[0] == '-' {
        let d = s.subrange(1, s.len() as int);
        if d.len() > 0 && all_digits(d) && decimal_value(d) <= 2_147_483_648 {
            Some(-decimal_value(d))
        } else {
            None
        }
    } else {
        let d = if s[0] == '+' {
            s.subrange(1, s.len() as int)
        } else {
            s
        };
        if d.len() > 0 && all_digits(d) && decimal_value(d) <= 2_147_483_647 {
            Some(decimal_value(d))
        } else {
            None
        }
    }
}

/// The word is the option `-s`.
pub open spec fn is_flag(s: Seq<char>) -> bool {
    s.len() == 2 && s[0] == '-' && s[1] == 's'
}

/// The index of the first `-s` at or after `from`, or the number of words if there is none.
pub open spec fn first_flag(args: Seq<Seq<char>>, from: int) -> int
    decreases args.len() - from,
{
    if from < 0 || from >= args.len() {
        args.len() as int
    } else if is_flag(args[from]) {
        from
    } else {
        first_flag(args, from + 1)
    }
}

/// What the words ask for: the number after the first `-s`, nothing when no
/// `-s` has a word after it, and an error when that word is no number.
pub open spec fn requested_sites(args: Seq<Seq<char>>) -> Result<Option<int>, ArgError> {
    let i = first_flag(args, 0);
    if i + 1 < args.len() {
        match parse_int(args[i + 1]) {
            Some(v) => Ok(Some(v)),
            None => Err(ArgError::InvalidNumber),
        }
    } else {
        Ok(None)
    }
}

pub open spec fn words(args: Seq<String>) -> Seq<Seq<char>> {
    Seq::new(args.len(), |i: int| args[i]@)
}

proof fn lemma_decimal_step(d: Seq<char>, k: int)
    requires
        0 <= k < d.len(),
    ensures
        decimal_value(d.subrange(0, k + 1)) == 10 * decimal_value(d.subrange(0, k)) + digit_value(
            d[k],
        ),
{
    let s = d.subrange(0, k + 1);
    assert(s.drop_last() =~= d.subrange(0, k));
    assert(s.last() == d[k]);
}

proof fn lemma_decimal_nonnegative(d: Seq<char>)
    requires
        all_digits(d),
    ensures
        decimal_value(d) >= 0,
    decreases d.len(),
{
    if d.len() > 0 {
        assert(all_digits(d.drop_last())) by {
            assert forall|i: int| 0 <= i < d.drop_last().len() implies is_digit(
                #[trigger] d.drop_last()[i],
            ) by {
                assert(d.drop_last()[i] == d[i]);
            }
        }
        lemma_decimal_nonnegative(d.drop_last());
        assert(is_digit(d[d.len() - 1]));
    }
}

/// The value of the digits of `s` from `start` on, if they are digits, there
/// is at least one, and the value is at most `limit`.
fn parse_digits(s: &str, start: usize, limit: i64) -> (r: Option<i64>)
    requires
        start <= s@.len(),
        0 <= limit <= 2_147_483_648,
    ensures
        r.is_some() <==> ({
            let d = s@.subrange(start as int, s@.len() as int);
            d.len() > 0 && all_digits(d) && decimal_value(d) <= limit
        }),
        r matches Some(v) ==> v == decimal_value(s@.subrange(start as int, s@.len() as int)) && 0
            <= v <= limit,
{
    let n = s.unicode_len();
    let ghost d = s@.subrange(start as int, s@.len() as int);
    if start == n {
        return None;
    }
    let mut acc: i64 = 0;
    let mut over = false;
    let mut k: usize = start;
    proof {
        assert(d.subrange(0, 0) =~= Seq::<char>::empty());
    }
    while k < n
        invariant
            n == s@.len(),
            start <= k <= n,
            d == s@.subrange(start as int, s@.len() as int),
            0 <= limit <= 2_147_483_648,
            all_digits(d.subrange(0, k - start)),
            !over ==> acc == decimal_value(d.subrange(0, k - start)) && 0 <= acc <= limit,
            over ==> decimal_value(d.subrange(0, k - start)) > limit,
        decreases n - k,
    {
        let c = s.get_char(k);
        proof {
            assert(d[k - start] == c);
            lemma_decimal_step(d, k - start);
            lemma_decimal_nonnegative(d.subrange(0, k - start));
        }
        if !(c >= '0' && c <= '9') {
            proof {
                assert(!is_digit(d[k - start]));
            }
            return None;
        }
        proof {
            assert forall|i: int| 0 <= i < k - start + 1 implies is_digit(
                #[trigger] d.subrange(0, k - start + 1)[i],
            ) by {
                if i < k - start {
                    assert(d.subrange(0, k - start)[i] == d[i]);
                }
            }
        }
        if !over {
            let v: i64 = (c as u32 - '0' as u32) as i64;
            let next: i64 = acc * 10 + v;
            if next > limit {
                over = true;
            } else {
                acc = next;
            }
        }
        k += 1;
    }
    proof {
        assert(d.subrange(0, n - start) =~= d);
    }
    if over {
        None
    } else {
        Some(acc)
    }
}

/// Reads a word as a 32-bit decimal number.
pub fn parse_number(s: &str) -> (r: Option<i32>)
    ensures
        r.is_some() <==> parse_int(s@).is_some(),
        r matches Some(v) ==> parse_int(s@) == Some(v as int),
{
    let n = s.unicode_len();
    if n == 0 {
        return None;
    }
    let first = s.get_char(0);
    if first == '-' {
        match parse_digits(s, 1, 2_147_483_648) {
            Some(v) => Some((-v) as i32),
            None => None,
        }
    } else {
        let start: usize = if first == '+' {
            1
        } else {
            0
        };
        proof {
            assert(s@.subrange(0, s@.len() as int) =~= s@);
        }
        match parse_digits(s, start, 2_147_483_647) {
            Some(v) => Some(v as i32),
            None => None,
        }
    }
}

fn word_is_flag(s: &str) -> (b: bool)
    ensures
        b == is_flag(s@),
{
    s.unicode_len() == 2 && s.get_char(0) == '-' && s.get_char(1) == 's'
}

/// The number of sites that the command line asks for, if it does.
pub fn get_num_sites(args: &Vec<String>) -> (r: Result<Option<i32>, ArgError>)
    ensures
        match requested_sites(words(args@)) {
            Ok(Some(v)) => r == Ok::<Option<i32>, ArgError>(Some(v as i32)),
            Ok(None) => r == Ok::<Option<i32>, ArgError>(None),
            Err(e) => r == Err::<Option<i32>, ArgError>(e),
        },
{
    let ghost w = words(args@);
    let mut i: usize = 0;
    while i < args.len()
        invariant
            0 <= i <= args.len(),
            w == words(args@),
            first_flag(w, 0) == first_flag(w, i as int),
        decreases args.len() - i,
    {
        assert(w[i as int] == args@[i as int]@);
        if word_is_flag(args[i].as_str()) {
            if i + 1 < args.len() {
                assert(w[i + 1] == args@[i + 1]@);
                return match parse_number(args[i + 1].as_str()) {
                    Some(v) => Ok(Some(v)),
                    None => Err(ArgError::InvalidNumber),
                };
            } else {
                return Ok(None);
            }
        }
        i += 1;
    }
    Ok(None)
}

} // verus!
