use vstd::prelude::*;
use crate::models::{Class, PurchaseRecord, Student};

verus! {

broadcast use vstd::seq_lib::group_to_multiset_ensures;

pub open spec fn is_digit(c: char) -> bool {
    '0' <= c && c <= '9'
}

pub open spec fn digit_value(c: char) -> nat {
    (c as u32 - '0' as u32) as nat
}

/// `v` capped at `cap`.
pub open spec fn saturate(v: nat, cap: nat) -> nat {
    if v > cap {
        cap
    } else {
        v
    }
}

/// Reads the run of decimal digits that starts at `i` onto `acc`,
/// saturating at `cap`.
pub open spec fn digits_from(s: Seq<char>, i: nat, acc: nat, cap: nat) -> nat
    decreases s.len() - i,
{
    if i < s.len() && is_digit(s[i as int]) {
        digits_from(s, i + 1, saturate(acc * 10 + digit_value(s[i as int]), cap), cap)
    } else {
        acc
    }
}

pub open spec fn is_space(c: char) -> bool {
    c == ' ' || c == '\t' || c == '\n' || c == '\r' || c == '\x0b' || c == '\x0c'
}

/// The position of the first character at or after `i` that is not white
/// space.
pub open spec fn skip_spaces(s: Seq<char>, i: nat) -> nat
    decreases s.len() - i,
{
    if i < s.len() && is_space(s[i as int]) {
        skip_spaces(s, i + 1)
    } else {
        i
    }
}

/// The integer that a student number sorts by, read as an integer cast
/// reads text: leading white space, an optional sign, then the decimal
/// digits that follow, saturating at the bounds of `i64`. Text with no such
/// digits reads as 0.
pub open spec fn number_key(s: Seq<char>) -> int {
    let i = skip_spaces(s, 0);
    if i < s.len() && s[i as int] == '-' {
        -(digits_from(s, i + 1, 0, 0x8000_0000_0000_0000) as int)
    } else if i < s.len() && s[i as int] == '+' {
        digits_from(s, i + 1, 0, i64::MAX as nat) as int
    } else {
        digits_from(s, i, 0, i64::MAX as nat) as int
    }
}

pub open spec fn student_key(s: Student) -> int {
    number_key(s.student_number@)
}

/// Students in ascending order of their number key.
pub open spec fn students_ordered(s: Seq<Student>) -> bool {
    forall|a: int, b: int| 0 <= a < b < s.len() ==> student_key(#[trigger] s[a]) <= student_key(#[trigger] s[b])
}

/// Classes from the newest to the oldest.
pub open spec fn classes_newest_first(s: Seq<Class>) -> bool {
    forall|a: int, b: int| 0 <= a < b < s.len() ==> (#[trigger] s[a]).created_at >= (#[trigger] s[b]).created_at
}

/// Purchase records from the newest to the oldest.
pub open spec fn records_newest_first(s: Seq<PurchaseRecord>) -> bool {
    forall|a: int, b: int| 0 <= a < b < s.len() ==> (#[trigger] s[a]).created_at >= (#[trigger] s[b]).created_at
}

/// The magnitude read from the digits of `s` from `i` on, saturating at
/// `cap`.
fn read_digits(s: &str, from: usize, cap: u64) -> (r: u64)
    requires
        from <= s@.len(),
    ensures
        r as nat == digits_from(s@, from as nat, 0, cap as nat),
        r <= cap,
{
    let n = s.unicode_len();
    let mut i = from;
    let mut acc: u64 = 0;
    while i < n
        invariant
            n == s@.len(),
            i <= n,
            acc <= cap,
            digits_from(s@, i as nat, acc as nat, cap as nat) == digits_from(s@, from as nat, 0, cap as nat),
        decreases n - i,
    {
        let c = s.get_char(i);
        if !('0' <= c && c <= '9') {
            assert(!is_digit(s@[i as int]));
            return acc;
        }
        let d = (c as u32 - '0' as u32) as u64;
        assert(d <= 9);
        let next: u64 = if d > cap || acc > (cap - d) / 10 {
            cap
        } else {
            acc * 10 + d
        };
        assert(next as nat == saturate(acc as nat * 10 + digit_value(c), cap as nat)) by (nonlinear_arith)
            requires
                d as nat == digit_value(c),
                d <= 9,
                acc <= cap,
                d > cap || acc > (cap - d) / 10 ==> next == cap,
                !(d > cap || acc > (cap - d) / 10) ==> next == acc * 10 + d,
        ;
        acc = next;
        i = i + 1;
    }
    acc
}

/// The position of the first character of `t` that is not white space.
fn first_non_space(t: &str) -> (r: usize)
    ensures
        r as nat == skip_spaces(t@, 0),
        r <= t@.len(),
{
    let n = t.unicode_len();
    let mut i: usize = 0;
    while i < n
        invariant
            n == t@.len(),
            i <= n,
            skip_spaces(t@, i as nat) == skip_spaces(t@, 0),
        decreases n - i,
    {
        let c = t.get_char(i);
        if !(c == ' ' || c == '\t' || c == '\n' || c == '\r' || c == '\x0b' || c == '\x0c') {
            return i;
        }
        i = i + 1;
    }
    i
}

/// The sort key of a student number.
pub fn number_key_of(s: &String) -> (r: i64)
    ensures
        r as int == number_key(s@),
{
    let t = s.as_str();
    let n = t.unicode_len();
    let i = first_non_space(t);
    if i < n && t.get_char(i) == '-' {
        let m = read_digits(t, i + 1, 0x8000_0000_0000_0000);
        if m == 0x8000_0000_0000_0000 {
            i64::MIN
        } else {
            let v = m as i64;
            -v
        }
    } else if i < n && t.get_char(i) == '+' {
        read_digits(t, i + 1, i64::MAX as u64) as i64
    } else {
        read_digits(t, i, i64::MAX as u64) as i64
    }
}

/// The students in ascending order of their number key; students with equal
/// keys keep their relative order.
pub fn sort_students(v: &Vec<Student>) -> (r: Vec<Student>)
    ensures
        students_ordered(r@),
        r@.to_multiset() == v@.to_multiset(),
{
    let mut out: Vec<Student> = Vec::new();
    let mut i: usize = 0;
    while i < v.len()
        invariant
            i <= v.len(),
            students_ordered(out@),
            out@.to_multiset() == v@.take(i as int).to_multiset(),
        decreases v.len() - i,
    {
        let x = v[i].copy();
        let k = number_key_of(&x.student_number);
        let mut j: usize = 0;
        while j < out.len() && number_key_of(&out[j].student_number) <= k
            invariant
                j <= out.len(),
                forall|t: int| 0 <= t < j ==> student_key(#[trigger] out@[t]) <= k,
            decreases out.len() - j,
        {
            j = j + 1;
        }
        let ghost before = out@;
        out.insert(j, x);
        assert(students_ordered(out@)) by {
            assert forall|a: int, b: int| 0 <= a < b < out@.len() implies student_key(#[trigger] out@[a])
                <= student_key(#[trigger] out@[b]) by {
                if j < before.len() {
                    assert(student_key(before[j as int]) > k);
                }
            }
        }
        assert(v@.take(i + 1) == v@.take(i as int).push(v@[i as int]));
        i = i + 1;
    }
    assert(v@.take(v.len() as int) == v@);
    out
}

/// The classes from the newest to the oldest; classes created at the same
/// time keep their relative order.
pub fn sort_classes(v: &Vec<Class>) -> (r: Vec<Class>)
    ensures
        classes_newest_first(r@),
        r@.to_multiset() == v@.to_multiset(),
{
    let mut out: Vec<Class> = Vec::new();
    let mut i: usize = 0;
    while i < v.len()
        invariant
            i <= v.len(),
            classes_newest_first(out@),
            out@.to_multiset() == v@.take(i as int).to_multiset(),
        decreases v.len() - i,
    {
        let x = v[i].copy();
        let k = x.created_at;
        let mut j: usize = 0;
        while j < out.len() && out[j].created_at >= k
            invariant
                j <= out.len(),
                forall|t: int| 0 <= t < j ==> (#[trigger] out@[t]).created_at >= k,
            decreases out.len() - j,
        {
            j = j + 1;
        }
        let ghost before = out@;
        out.insert(j, x);
        assert(classes_newest_first(out@)) by {
            assert forall|a: int, b: int| 0 <= a < b < out@.len() implies (#[trigger] out@[a]).created_at
                >= (#[trigger] out@[b]).created_at by {
                if j < before.len() {
                    assert(before[j as int].created_at < k);
                }
            }
        }
        assert(v@.take(i + 1) == v@.take(i as int).push(v@[i as int]));
        i = i + 1;
    }
    assert(v@.take(v.len() as int) == v@);
    out
}

/// The purchase records from the newest to the oldest; records created at
/// the same time keep their relative order.
pub fn sort_records(v: &Vec<PurchaseRecord>) -> (r: Vec<PurchaseRecord>)
    ensures
        records_newest_first(r@),
        r@.to_multiset() == v@.to_multiset(),
{
    let mut out: Vec<PurchaseRecord> = Vec::new();
    let mut i: usize = 0;
    while i < v.len()
        invariant
            i <= v.len(),
            records_newest_first(out@),
            out@.to_multiset() == v@.take(i as int).to_multiset(),
        decreases v.len() - i,
    {
        let x = v[i].copy();
        let k = x.created_at;
        let mut j: usize = 0;
        while j < out.len() && out[j].created_at >= k
            invariant
                j <= out.len(),
                forall|t: int| 0 <= t < j ==> (#[trigger] out@[t]).created_at >= k,
            decreases out.len() - j,
        {
            j = j + 1;
        }
        let ghost before = out@;
        out.insert(j, x);
        assert(records_newest_first(out@)) by {
            assert forall|a: int, b: int| 0 <= a < b < out@.len() implies (#[trigger] out@[a]).created_at
                >= (#[trigger] out@[b]).created_at by {
                if j < before.len() {
                    assert(before[j as int].created_at < k);
                }
            }
        }
        assert(v@.take(i + 1) == v@.take(i as int).push(v@[i as int]));
        i = i + 1;
    }
    assert(v@.take(v.len() as int) == v@);
    out
}

} // verus!
