//! Data sources for a sorting run: sequences of random values, and
//! line-delimited unsigned-integer text parsed into values.  Drawing a
//! random value is the one place the library leans on an outside generator;
//! the parsing is the library's own, specified byte by byte.

use vstd::prelude::*;

verus! {

/// Relies on rand::random: draws a value from the thread-local generator.
/// Nothing can be promised of the result, so nothing is.
pub assume_specification<T>[ rand::random::<T> ]() -> (r: T)
    where
        rand::distributions::Standard: rand::distributions::Distribution<T>,
;

/// A sequence of `count` values drawn from the random generator.  Only the
/// length can be promised: the values themselves are whatever the generator
/// returned.
pub fn get_random_data(count: usize) -> (r: Vec<u32>)
    ensures
        r@.len() == count,
{
    let mut data: Vec<u32> = Vec::with_capacity(count);
    let mut i: usize = 0;
    while i < count
        invariant
            data@.len() == i,
            i <= count,
        decreases count - i,
    {
        data.push(rand::random::<u32>());
        i += 1;
    }
    data
}

/// An ASCII whitespace byte: space, tab, or one of the line-break
/// controls.
pub open spec fn is_space(b: u8) -> bool {
    b == 32 || b == 9 || b == 10 || b == 13 || b == 11 || b == 12
}

/// An ASCII decimal digit.
pub open spec fn is_digit(b: u8) -> bool {
    48 <= b <= 57
}

/// The line without its leading whitespace.
pub open spec fn spec_trim_front(line: Seq<u8>) -> Seq<u8>
    decreases line.len(),
{
    if line.len() > 0 && is_space(line[0]) {
        spec_trim_front(line.skip(1))
    } else {
        line
    }
}

/// The line without its trailing whitespace.
pub open spec fn spec_trim_back(line: Seq<u8>) -> Seq<u8>
    decreases line.len(),
{
    if line.len() > 0 && is_space(line.last()) {
        spec_trim_back(line.drop_last())
    } else {
        line
    }
}

/// The line without leading and trailing whitespace.
pub open spec fn spec_trim(line: Seq<u8>) -> Seq<u8> {
    spec_trim_back(spec_trim_front(line))
}

/// A line is blank when nothing but whitespace is on it.
pub open spec fn spec_is_blank(line: Seq<u8>) -> bool {
    spec_trim(line).len() == 0
}

/// The bytes are one or more decimal digits.
pub open spec fn spec_digits(t: Seq<u8>) -> bool {
    t.len() >= 1 && forall|k: int| 0 <= k < t.len() ==> is_digit(#[trigger] t[k])
}

/// The number the digit bytes denote.
pub open spec fn spec_digits_value(t: Seq<u8>) -> int
    decreases t.len(),
{
    if t.len() == 0 {
        0
    } else {
        spec_digits_value(t.drop_last()) * 10 + (t.last() - 48)
    }
}

/// The digit part of a trimmed line: what stands after an optional
/// leading plus sign.
pub open spec fn spec_line_digits(line: Seq<u8>) -> Seq<u8> {
    let t = spec_trim(line);
    if t.len() >= 1 && t[0] == 43 {
        t.skip(1)
    } else {
        t
    }
}

/// What a trimmed line denotes: a number if it is an optional plus sign
/// followed by digits whose value fits, and nothing otherwise.
pub open spec fn spec_line_value(line: Seq<u8>) -> Option<u32> {
    let digits = spec_line_digits(line);
    if spec_digits(digits) && spec_digits_value(digits) <= u32::MAX {
        Some(spec_digits_value(digits) as u32)
    } else {
        None
    }
}

/// The position of the first line break, or -1 if there is none.
pub open spec fn first_newline(s: Seq<u8>) -> int
    decreases s.len(),
{
    if s.len() == 0 {
        -1
    } else if s[0] == 10 {
        0
    } else if first_newline(s.skip(1)) < 0 {
        -1
    } else {
        first_newline(s.skip(1)) + 1
    }
}

/// What a whole text denotes, its first line numbered `line_no`: the
/// numbers of its non-blank lines in order, or the number of the first
/// line that is neither blank nor a number.
pub open spec fn spec_parse(s: Seq<u8>, line_no: int) -> Result<Seq<u32>, int>
    decreases s.len(),
{
    let i = first_newline(s);
    let line = if 0 <= i < s.len() {
        s.take(i)
    } else {
        s
    };
    let head: Result<Seq<u32>, int> = if spec_is_blank(line) {
        Ok(Seq::empty())
    } else {
        match spec_line_value(line) {
            Some(v) => Ok(seq![v]),
            None => Err(line_no),
        }
    };
    let rest: Result<Seq<u32>, int> = if 0 <= i < s.len() {
        spec_parse(s.skip(i + 1), line_no + 1)
    } else {
        Ok(Seq::empty())
    };
    match head {
        Err(e) => Err(e),
        Ok(hs) => match rest {
            Err(e) => Err(e),
            Ok(rs) => Ok(hs + rs),
        },
    }
}

/// The first line break is where the scan that found no earlier one stops.
proof fn lemma_first_newline_at(s: Seq<u8>, i: int)
    requires
        0 <= i <= s.len(),
        forall|k: int| 0 <= k < i ==> s[k] != 10,
        i < s.len() ==> s[i] == 10,
    ensures
        first_newline(s) == if i == s.len() {
            -1int
        } else {
            i
        },
    decreases i,
{
    if i == 0 {
    } else {
        lemma_first_newline_at(s.skip(1), i - 1);
    }
}

/// A digit string's value is never below the value of any of its
/// prefixes, and never negative.
proof fn lemma_digits_value_mono(t: Seq<u8>, m: int)
    requires
        0 <= m <= t.len(),
        forall|k: int| 0 <= k < t.len() ==> is_digit(#[trigger] t[k]),
    ensures
        0 <= spec_digits_value(t.take(m)),
        spec_digits_value(t.take(m)) <= spec_digits_value(t),
    decreases t.len() - m,
{
    if m == t.len() {
        assert(t.take(m) =~= t);
        lemma_digits_value_nonneg(t);
    } else {
        lemma_digits_value_mono(t, m + 1);
        assert(t.take(m + 1).drop_last() =~= t.take(m));
        assert(t.take(m + 1).last() == t[m]);
        lemma_digits_value_nonneg(t.take(m));
    }
}

/// A digit string's value is never negative.
proof fn lemma_digits_value_nonneg(t: Seq<u8>)
    requires
        forall|k: int| 0 <= k < t.len() ==> is_digit(#[trigger] t[k]),
    ensures
        spec_digits_value(t) >= 0,
    decreases t.len(),
{
    if t.len() > 0 {
        lemma_digits_value_nonneg(t.drop_last());
    }
}

/// Classify one line: blank, a number, or neither.
fn parse_line(data: &Vec<u8>, start: usize, end: usize) -> (r: Result<Option<u32>, ()>)
    requires
        start <= end <= data@.len(),
    ensures
        ({
            let line = data@.subrange(start as int, end as int);
            match r {
                Ok(None) => spec_is_blank(line),
                Ok(Some(v)) => !spec_is_blank(line) && spec_line_value(line) == Some(v),
                Err(_) => !spec_is_blank(line) && spec_line_value(line) == None::<u32>,
            }
        }),
{
    let ghost line = data@.subrange(start as int, end as int);
    let mut lo = start;
    let mut hi = end;
    while lo < hi && (data[lo] == 32 || data[lo] == 9 || data[lo] == 10 || data[lo] == 13
        || data[lo] == 11 || data[lo] == 12)
        invariant
            start <= lo <= hi <= end <= data@.len(),
            hi == end,
            spec_trim_front(line) == spec_trim_front(
                data@.subrange(lo as int, hi as int),
            ),
        decreases hi - lo,
    {
        proof {
            assert(data@.subrange(lo as int, hi as int).skip(1) =~= data@.subrange(
                lo as int + 1,
                hi as int,
            ));
        }
        lo += 1;
    }
    proof {
        assert(spec_trim_front(line) == data@.subrange(lo as int, hi as int));
    }
    while lo < hi && (data[hi - 1] == 32 || data[hi - 1] == 9 || data[hi - 1] == 10 || data[hi
        - 1] == 13 || data[hi - 1] == 11 || data[hi - 1] == 12)
        invariant
            start <= lo <= hi <= end <= data@.len(),
            spec_trim_back(spec_trim_front(line)) == spec_trim_back(
                data@.subrange(lo as int, hi as int),
            ),
        decreases hi - lo,
    {
        proof {
            assert(data@.subrange(lo as int, hi as int).drop_last() =~= data@.subrange(
                lo as int,
                hi as int - 1,
            ));
        }
        hi -= 1;
    }
    proof {
        assert(spec_trim(line) == data@.subrange(lo as int, hi as int));
    }
    if lo == hi {
        proof {
            assert(spec_trim(line) =~= Seq::<u8>::empty());
        }
        return Ok(None);
    }
    let ghost trimmed = data@.subrange(lo as int, hi as int);
    if data[lo] == 43 {
        proof {
            assert(trimmed.skip(1) =~= data@.subrange(lo as int + 1, hi as int));
        }
        lo += 1;
    }
    let ghost digits = data@.subrange(lo as int, hi as int);
    if lo == hi {
        proof {
            assert(digits.len() == 0);
        }
        return Err(());
    }
    let mut value: u32 = 0;
    let mut k = lo;
    while k < hi
        invariant
            lo <= k <= hi <= data@.len(),
            hi > lo,
            line == data@.subrange(start as int, end as int),
            !spec_is_blank(line),
            spec_line_digits(line) == digits,
            digits == data@.subrange(lo as int, hi as int),
            forall|j: int| lo <= j < k ==> is_digit(#[trigger] data@[j]),
            value == spec_digits_value(digits.take(k as int - lo as int)),
        decreases hi - k,
    {
        let b = data[k];
        if !(48 <= b && b <= 57) {
            proof {
                assert(digits[k as int - lo as int] == b);
                assert(!spec_digits(digits));
            }
            return Err(());
        }
        let d = (b - 48) as u32;
        if value > (u32::MAX - d) / 10 {
            proof {
                assert(digits.take(k as int - lo as int + 1).drop_last() =~= digits.take(
                    k as int - lo as int,
                ));
                assert(digits.take(k as int - lo as int + 1).last() == digits[k as int
                    - lo as int]);
                vstd::arithmetic::div_mod::lemma_fundamental_div_mod(
                    u32::MAX as int - d as int,
                    10,
                );
                assert(spec_digits_value(digits.take(k as int - lo as int + 1)) > u32::MAX);
                if spec_digits(digits) {
                    lemma_digits_value_mono(digits, k as int - lo as int + 1);
                }
            }
            return Err(());
        }
        proof {
            assert(digits.take(k as int - lo as int + 1).drop_last() =~= digits.take(
                k as int - lo as int,
            ));
            assert(digits.take(k as int - lo as int + 1).last() == digits[k as int - lo as int]);
        }
        value = value * 10 + d;
        k += 1;
    }
    proof {
        assert(digits.take(hi as int - lo as int) =~= digits);
        assert(spec_digits(digits));
    }
    Ok(Some(value))
}

/// Parse line-delimited unsigned integers: the numbers of the non-blank
/// lines in order, or the 1-based number of the first malformed line.
pub fn parse_data(data: &Vec<u8>) -> (r: Result<Vec<u32>, usize>)
    requires
        data@.len() < usize::MAX,
    ensures
        ({
            let expected = spec_parse(data@, 1);
            match r {
                Ok(v) => expected == Ok::<Seq<u32>, int>(v@),
                Err(k) => expected == Err::<Seq<u32>, int>(k as int),
            }
        }),
{
    let n = data.len();
    let mut values: Vec<u32> = Vec::new();
    let mut start: usize = 0;
    let mut line_no: usize = 1;
    proof {
        assert(data@.skip(0) =~= data@);
    }
    loop
        invariant_except_break
            start <= n,
            n == data@.len(),
            n < usize::MAX,
            1 <= line_no,
            line_no <= start + 1,
            spec_parse(data@, 1) == (match spec_parse(data@.skip(start as int), line_no as int) {
                Ok(rest) => Ok::<Seq<u32>, int>(values@ + rest),
                Err(e) => Err::<Seq<u32>, int>(e),
            }),
        ensures
            spec_parse(data@, 1) == Ok::<Seq<u32>, int>(values@),
        decreases n - start,
    {
        let ghost remaining = data@.skip(start as int);
        let mut j = start;
        while j < n && data[j] != 10
            invariant
                start <= j <= n,
                n == data@.len(),
                forall|k: int| start <= k < j ==> data@[k] != 10,
            decreases n - j,
        {
            j += 1;
        }
        proof {
            assert forall|k: int| 0 <= k < j as int - start as int implies remaining[k] != 10 by {
                assert(remaining[k] == data@[start as int + k]);
            }
            if (j as int) < n as int {
                assert(remaining[j as int - start as int] == data@[j as int]);
            }
            lemma_first_newline_at(remaining, j as int - start as int);
            assert(remaining.take(j as int - start as int) =~= data@.subrange(
                start as int,
                j as int,
            ));
        }
        let parsed = parse_line(data, start, j);
        if j == n {
            // the last line: the remainder has no line break
            match parsed {
                Err(_) => {
                    proof {
                        assert(remaining.take(j as int - start as int) =~= remaining);
                    }
                    return Err(line_no);
                },
                Ok(Some(v)) => {
                    let ghost old_values = values@;
                    values.push(v);
                    proof {
                        assert(remaining.take(j as int - start as int) =~= remaining);
                        assert(spec_parse(remaining, line_no as int) == Ok::<Seq<u32>, int>(
                            seq![v],
                        ));
                        assert(old_values + seq![v] =~= values@);
                    }
                },
                Ok(None) => {
                    proof {
                        assert(remaining.take(j as int - start as int) =~= remaining);
                        assert(spec_parse(remaining, line_no as int) == Ok::<Seq<u32>, int>(
                            Seq::empty(),
                        ));
                        assert(values@ + Seq::<u32>::empty() =~= values@);
                    }
                },
            }
            break ;
        }
        let ghost i = j as int - start as int;
        let ghost tail = spec_parse(data@.skip(j as int + 1), line_no as int + 1);
        proof {
            assert(remaining.skip(i + 1) =~= data@.skip(j as int + 1));
        }
        match parsed {
            Err(_) => {
                proof {
                    assert(spec_parse(remaining, line_no as int) == Err::<Seq<u32>, int>(
                        line_no as int,
                    ));
                }
                return Err(line_no);
            },
            Ok(Some(v)) => {
                let ghost old_values = values@;
                values.push(v);
                proof {
                    match tail {
                        Ok(rs) => {
                            assert(spec_parse(remaining, line_no as int) == Ok::<Seq<u32>, int>(
                                seq![v] + rs,
                            ));
                            assert(old_values + (seq![v] + rs) =~= values@ + rs);
                        },
                        Err(e) => {
                            assert(spec_parse(remaining, line_no as int) == Err::<
                                Seq<u32>,
                                int,
                            >(e));
                        },
                    }
                }
            },
            Ok(None) => {
                proof {
                    match tail {
                        Ok(rs) => {
                            assert(spec_parse(remaining, line_no as int) == Ok::<Seq<u32>, int>(
                                Seq::empty() + rs,
                            ));
                            assert(values@ + (Seq::<u32>::empty() + rs) =~= values@ + rs);
                        },
                        Err(e) => {
                            assert(spec_parse(remaining, line_no as int) == Err::<
                                Seq<u32>,
                                int,
                            >(e));
                        },
                    }
                }
            },
        }
        start = j + 1;
        line_no += 1;
    }
    Ok(values)
}

} // verus!
