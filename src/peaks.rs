use vstd::prelude::*;
use vstd::string::*;

verus! {

/// Why a peak line could not be rewritten.
#[derive(Clone, Copy, Debug, PartialEq, Eq, Structural)]
pub enum PeakLineError {
    /// The line has fewer than five tab-separated fields.
    MissingScore,
    /// The score field is empty or holds a character other than a decimal digit.
    BadScore,
}

/// The number of tabs among the first `n` characters of `s`.
pub open spec fn tabs_in(s: Seq<char>, n: int) -> nat
    decreases n,
{
    if n <= 0 {
        0
    } else {
        tabs_in(s, n - 1) + if s[n - 1] == '\t' {
            1nat
        } else {
            0
        }
    }
}

/// `[a, b)` is the fifth tab-separated field (the score) of `s`.
pub open spec fn is_score_field(s: Seq<char>, a: int, b: int) -> bool {
    &&& 0 < a <= b <= s.len()
    &&& s[a - 1] == '\t'
    &&& tabs_in(s, a) == 4
    &&& forall|k: int| a <= k < b ==> #[trigger] s[k] != '\t'
    &&& (b == s.len() || s[b] == '\t')
}

pub open spec fn is_digit(c: char) -> bool {
    '0' <= c <= '9'
}

/// The number that a string of decimal digits spells.
pub open spec fn digits_value(d: Seq<char>) -> nat
    decreases d.len(),
{
    if d.len() == 0 {
        0
    } else {
        digits_value(d.drop_last()) * 10 + (d.last() as nat - '0' as nat) as nat
    }
}

/// The highest score that a peak line may carry.
pub const MAX_SCORE: u64 = 1000;

/// The line with its score field replaced: `1000` where the score exceeds it.
pub open spec fn capped_line(s: Seq<char>, a: int, b: int) -> Seq<char> {
    if digits_value(s.subrange(a, b)) > 1000 {
        s.subrange(0, a) + seq!['1', '0', '0', '0'] + s.subrange(b, s.len() as int)
    } else {
        s
    }
}

/// Caps the score (the fifth tab-separated field) of a peak line at 1000,
/// leaving the rest of the line as it was.
pub fn cap_peak_score(line: &str) -> (r: Result<String, PeakLineError>)
    ensures
        r == Err::<String, PeakLineError>(PeakLineError::MissingScore) <==> tabs_in(line@, line@.len() as int) < 4,
        r is Err && r->Err_0 == PeakLineError::BadScore ==> exists|a: int, b: int|
            is_score_field(line@, a, b) && (a == b || exists|k: int| a <= k < b && !is_digit(#[trigger] line@[k])),
        r is Ok ==> exists|a: int, b: int|
            is_score_field(line@, a, b) && a < b && (forall|k: int| a <= k < b ==> is_digit(#[trigger] line@[k]))
                && r->Ok_0@ == capped_line(line@, a, b),
{
    let n = line.unicode_len();
    let ghost s = line@;
    let mut tabs: usize = 0;
    let mut i: usize = 0;
    while i < n && tabs < 4
        invariant
            n == s.len(),
            s == line@,
            i <= n,
            tabs == tabs_in(s, i as int),
            tabs <= 4,
            tabs == 4 ==> i > 0 && s[i - 1] == '\t',
        decreases n - i,
    {
        if line.get_char(i) == '\t' {
            tabs += 1;
        }
        i += 1;
    }
    if tabs < 4 {
        return Err(PeakLineError::MissingScore);
    }
    proof {
        lemma_tabs_monotone(s, i as int, n as int);
    }
    let a = i;
    let mut value: u64 = 0;
    let mut digits = true;
    while i < n && line.get_char(i) != '\t'
        invariant
            n == s.len(),
            s == line@,
            a <= i <= n,
            forall|k: int| a <= k < i ==> #[trigger] s[k] != '\t',
            digits == forall|k: int| a <= k < i ==> is_digit(#[trigger] s[k]),
            digits ==> value == if digits_value(s.subrange(a as int, i as int)) > 1000 {
                1001
            } else {
                digits_value(s.subrange(a as int, i as int))
            },
        decreases n - i,
    {
        let c = line.get_char(i);
        if digits && '0' <= c && c <= '9' {
            let d = (c as u32 - '0' as u32) as u64;
            let next = value * 10 + d;
            proof {
                assert(s.subrange(a as int, i + 1).drop_last() =~= s.subrange(a as int, i as int));
            }
            value = if next > 1000 {
                1001
            } else {
                next
            };
        } else {
            digits = false;
        }
        i += 1;
    }
    let b = i;
    assert(is_score_field(s, a as int, b as int));
    if !digits || a == b {
        return Err(PeakLineError::BadScore);
    }
    if value > MAX_SCORE {
        let mut out = String::from_str(line.substring_char(0, a));
        proof {
            reveal_strlit("1000");
        }
        out.append("1000");
        out.append(line.substring_char(b, n));
        Ok(out)
    } else {
        Ok(String::from_str(line))
    }
}

proof fn lemma_tabs_monotone(s: Seq<char>, m: int, n: int)
    requires
        m <= n,
    ensures
        tabs_in(s, m) <= tabs_in(s, n),
    decreases n - m,
{
    if m < n {
        lemma_tabs_monotone(s, m, n - 1);
    }
}

/// The genome size handed to the peak caller: nine tenths of the total
/// chromosome length, rounded to the nearest integer (halves up).
pub fn effective_genome_size(total: u64) -> (r: u64)
    ensures
        r == (9 * total as int + 5) / 10,
{
    let t = total as u128;
    ((9 * t + 5) / 10) as u64
}

/// The sum of the chromosome lengths, or `None` where it does not fit in 64 bits.
pub fn genome_size(lengths: &Vec<u64>) -> (r: Option<u64>)
    ensures
        match r {
            Some(t) => t == lengths_total(lengths@, lengths@.len() as int),
            None => lengths_total(lengths@, lengths@.len() as int) > u64::MAX,
        },
{
    let mut t: u64 = 0;
    let mut i: usize = 0;
    while i < lengths.len()
        invariant
            i <= lengths@.len(),
            t == lengths_total(lengths@, i as int),
        decreases lengths@.len() - i,
    {
        match t.checked_add(lengths[i]) {
            Some(x) => t = x,
            None => {
                proof {
                    lemma_lengths_monotone(lengths@, i + 1, lengths@.len() as int);
                }
                return None;
            },
        }
        i += 1;
    }
    Some(t)
}

pub open spec fn lengths_total(v: Seq<u64>, n: int) -> nat
    decreases n,
{
    if n <= 0 {
        0
    } else {
        lengths_total(v, n - 1) + v[n - 1] as nat
    }
}

proof fn lemma_lengths_monotone(v: Seq<u64>, m: int, n: int)
    requires
        m <= n,
    ensures
        lengths_total(v, m) <= lengths_total(v, n),
    decreases n - m,
{
    if m < n {
        lemma_lengths_monotone(v, m, n - 1);
    }
}

} // verus!
