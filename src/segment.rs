//! Segment files: from a directory listing to the ordered segment numbers.
//!
//! A segment file is named by its number in decimal followed by `.log`;
//! a name of any other shape belongs to no segment and is skipped.
use vstd::prelude::*;
use vstd::string::StrSliceExecFns;

verus! {

/// The suffix of every segment file name.
pub open spec fn log_suffix() -> Seq<char> {
    seq!['.', 'l', 'o', 'g']
}

pub open spec fn is_digit(c: char) -> bool {
    '0' <= c && c <= '9'
}

/// The number that a string of decimal digits stands for.
pub open spec fn digits_value(s: Seq<char>) -> nat
    decreases s.len(),
{
    if s.len() == 0 {
        0
    } else {
        digits_value(s.drop_last()) * 10 + (s.last() as nat - '0' as nat) as nat
    }
}

/// The text of a file name before its `.log` suffix, if it has one.
pub open spec fn stem(name: Seq<char>) -> Option<Seq<char>> {
    if name.len() >= 4 && name.subrange(name.len() - 4, name.len() as int) == log_suffix() {
        Some(name.subrange(0, name.len() - 4))
    } else {
        None
    }
}

/// The digits of a stem: one optional leading `+`, as in Rust's integer syntax.
pub open spec fn unsigned_digits(s: Seq<char>) -> Seq<char> {
    if s.len() > 0 && s[0] == '+' {
        s.drop_first()
    } else {
        s
    }
}

/// The segment number of a file name: the stem must be a non-empty run of
/// decimal digits (after an optional `+`) whose value fits in 64 bits.
pub open spec fn segment_number(name: Seq<char>) -> Option<u64> {
    match stem(name) {
        None => None,
        Some(s) => {
            let d = unsigned_digits(s);
            if d.len() > 0 && (forall|i: int| 0 <= i < d.len() ==> is_digit(#[trigger] d[i]))
                && digits_value(d) <= u64::MAX {
                Some(digits_value(d) as u64)
            } else {
                None
            }
        },
    }
}

proof fn lemma_digits_value_grows(s: Seq<char>, j: int)
    requires
        0 <= j <= s.len(),
        forall|i: int| 0 <= i < s.len() ==> is_digit(#[trigger] s[i]),
    ensures
        digits_value(s.subrange(0, j)) <= digits_value(s),
    decreases s.len() - j,
{
    if j < s.len() {
        lemma_digits_value_grows(s, j + 1);
        assert(s.subrange(0, j + 1).drop_last() =~= s.subrange(0, j));
    } else {
        assert(s.subrange(0, j) =~= s);
    }
}

/// Parses the decimal number held by `name` between `from` and `to`.
fn parse_digits(name: &str, from: usize, to: usize) -> (r: Option<u64>)
    requires
        from <= to <= name@.len(),
    ensures
        ({
            let d = name@.subrange(from as int, to as int);
            r == (if (forall|i: int| 0 <= i < d.len() ==> is_digit(#[trigger] d[i]))
                && digits_value(d) <= u64::MAX {
                Some(digits_value(d) as u64)
            } else {
                None
            })
        }),
{
    let ghost d = name@.subrange(from as int, to as int);
    let mut value: u64 = 0;
    let mut i: usize = from;
    while i < to
        invariant
            from <= i <= to <= name@.len(),
            d == name@.subrange(from as int, to as int),
            forall|j: int| 0 <= j < i - from ==> is_digit(#[trigger] d[j]),
            value == digits_value(d.subrange(0, i - from)),
        decreases to - i,
    {
        let c = name.get_char(i);
        if !('0' <= c && c <= '9') {
            assert(d[i - from] == c);
            return None;
        }
        let digit = (c as u32 - '0' as u32) as u64;
        assert(d.subrange(0, i + 1 - from).drop_last() =~= d.subrange(0, i - from));
        assert(d.subrange(0, i + 1 - from).last() == c);
        if value > (u64::MAX - digit) / 10 {
            proof {
                assert(digits_value(d.subrange(0, i + 1 - from)) > u64::MAX) by (nonlinear_arith)
                    requires
                        value > (u64::MAX - digit) / 10,
                        digits_value(d.subrange(0, i + 1 - from)) == value * 10 + digit,
                ;
                if forall|j: int| 0 <= j < d.len() ==> is_digit(#[trigger] d[j]) {
                    lemma_digits_value_grows(d, i + 1 - from);
                }
            }
            return None;
        }
        value = value * 10 + digit;
        i = i + 1;
    }
    assert(d.subrange(0, i - from) =~= d);
    Some(value)
}

/// The segment number of a file name, if the name is that of a segment.
pub fn segment_number_of(name: &str) -> (r: Option<u64>)
    ensures
        r == segment_number(name@),
{
    let len = name.unicode_len();
    if len < 4 {
        return None;
    }
    let s = len - 4;
    if !(name.get_char(s) == '.' && name.get_char(s + 1) == 'l' && name.get_char(s + 2) == 'o'
        && name.get_char(s + 3) == 'g') {
        proof {
            if name@.subrange(s as int, len as int) == log_suffix() {
                assert(name@.subrange(s as int, len as int)[0] == name@[s as int]);
                assert(name@.subrange(s as int, len as int)[1] == name@[s + 1]);
                assert(name@.subrange(s as int, len as int)[2] == name@[s + 2]);
                assert(name@.subrange(s as int, len as int)[3] == name@[s + 3]);
            }
        }
        return None;
    }
    assert(name@.subrange(s as int, len as int) =~= log_suffix());
    let ghost st = name@.subrange(0, s as int);
    let from: usize = if s > 0 && name.get_char(0) == '+' {
        1
    } else {
        0
    };
    assert(unsigned_digits(st) =~= name@.subrange(from as int, s as int));
    if from == s {
        return None;
    }
    parse_digits(name, from, s)
}

/// The distinct segment numbers among `names`, in ascending order.
pub fn sort_file_by_number(names: &Vec<String>) -> (r: Vec<u64>)
    ensures
        forall|i: int, j: int| 0 <= i < j < r@.len() ==> r@[i] < r@[j],
        forall|n: u64|
            r@.contains(n) <==> exists|i: int|
                0 <= i < names@.len() && segment_number(#[trigger] names@[i]@) == Some(n),
{
    let mut out: Vec<u64> = Vec::new();
    let mut i: usize = 0;
    while i < names.len()
        invariant
            i <= names@.len(),
            forall|a: int, b: int| 0 <= a < b < out@.len() ==> out@[a] < out@[b],
            forall|n: u64|
                out@.contains(n) <==> exists|k: int|
                    0 <= k < i && segment_number(#[trigger] names@[k]@) == Some(n),
        decreases names@.len() - i,
    {
        let ghost before = out@;
        match segment_number_of(names[i].as_str()) {
            None => {
                assert forall|n: u64| out@.contains(n) <==> exists|k: int|
                    0 <= k < i + 1 && segment_number(#[trigger] names@[k]@) == Some(n) by {
                    if exists|k: int| 0 <= k < i + 1 && segment_number(#[trigger] names@[k]@) == Some(n) {
                        let k = choose|k: int| 0 <= k < i + 1 && segment_number(#[trigger] names@[k]@) == Some(n);
                        assert(k < i);
                    }
                }
            },
            Some(n) => {
                // find the first position whose number is not below `n`
                let mut p: usize = 0;
                while p < out.len() && out[p] < n
                    invariant
                        p <= out@.len(),
                        out@ == before,
                        forall|a: int| 0 <= a < p ==> out@[a] < n,
                    decreases out@.len() - p,
                {
                    p = p + 1;
                }
                if p < out.len() && out[p] == n {
                } else {
                    out.insert(p, n);
                    assert forall|a: int, b: int| 0 <= a < b < out@.len() implies out@[a] < out@[b] by {
                        if b < p {
                        } else if a < p && b == p {
                        } else if a < p {
                            assert(out@[b] == before[b - 1]);
                            assert(before[p as int] > n || p == before.len());
                            if p < before.len() {
                                assert(before[p as int] <= before[b - 1]) by {
                                    if p < b - 1 {
                                        assert(before[p as int] < before[b - 1]);
                                    }
                                }
                            }
                        } else if a == p {
                            assert(out@[b] == before[b - 1]);
                            if p < b - 1 {
                                assert(before[p as int] < before[b - 1]);
                            }
                        } else {
                            assert(out@[a] == before[a - 1]);
                            assert(out@[b] == before[b - 1]);
                        }
                    }
                }
                assert forall|m: u64| out@.contains(m) <==> exists|k: int|
                    0 <= k < i + 1 && segment_number(#[trigger] names@[k]@) == Some(m) by {
                    if out@.contains(m) {
                        if m == n {
                            assert(segment_number(names@[i as int]@) == Some(m));
                        } else {
                            let x = choose|x: int| 0 <= x < out@.len() && out@[x] == m;
                            assert(before.contains(m)) by {
                                if x < p {
                                    assert(before[x] == m);
                                } else if before.len() == out@.len() {
                                    assert(before[x] == m);
                                } else {
                                    assert(x != p);
                                    assert(before[x - 1] == m);
                                }
                            }
                        }
                    }
                    if exists|k: int| 0 <= k < i + 1 && segment_number(#[trigger] names@[k]@) == Some(m) {
                        let k = choose|k: int| 0 <= k < i + 1 && segment_number(#[trigger] names@[k]@) == Some(m);
                        if k == i {
                            if before.len() != out@.len() {
                                assert(out@[p as int] == n);
                            } else {
                                assert(out@[p as int] == n);
                            }
                        } else {
                            assert(before.contains(m));
                            let x = choose|x: int| 0 <= x < before.len() && before[x] == m;
                            if before.len() != out@.len() {
                                if x < p {
                                    assert(out@[x] == m);
                                } else {
                                    assert(out@[x + 1] == m);
                                }
                            } else {
                                assert(out@[x] == m);
                            }
                        }
                    }
                }
            },
        }
        i = i + 1;
    }
    out
}

} // verus!
