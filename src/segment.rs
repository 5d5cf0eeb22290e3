//! Segment files: their names, and the segments among a directory's files.

use vstd::prelude::*;
use vstd::string::{StrSliceExecFns, StringExecFns};

verus! {

broadcast use vstd::seq_lib::group_to_multiset_ensures;

/// The value of a string of decimal digits.
pub open spec fn digits_value(s: Seq<char>) -> nat
    decreases s.len(),
{
    if s.len() == 0 {
        0
    } else {
        (digits_value(s.drop_last()) * 10 + (s.last() as nat - '0' as nat)) as nat
    }
}

/// Whether `c` is a decimal digit.
pub open spec fn is_digit(c: char) -> bool {
    '0' <= c <= '9'
}

/// The id that a segment file name gives: the name is `<id>.log`, where
/// `<id>` is the decimal form of a `u64`: one or more digits, with no
/// leading zero unless it is `0` itself.
pub open spec fn log_name_id(name: Seq<char>) -> Option<u64> {
    let n = name.len();
    if n > 4 && name.subrange(n - 4, n as int) == ".log"@ && (forall|i: int|
        0 <= i < n - 4 ==> is_digit(#[trigger] name[i])) && (n - 4 == 1 || name[0] != '0')
        && digits_value(
        name.subrange(0, n - 4),
    ) <= u64::MAX {
        Some(digits_value(name.subrange(0, n - 4)) as u64)
    } else {
        None
    }
}

proof fn lemma_digits_value_prefix(s: Seq<char>, i: int)
    requires
        0 <= i <= s.len(),
        forall|j: int| 0 <= j < s.len() ==> is_digit(#[trigger] s[j]),
    ensures
        digits_value(s.subrange(0, i)) <= digits_value(s),
    decreases s.len() - i,
{
    if i < s.len() {
        lemma_digits_value_prefix(s, i + 1);
        assert(s.subrange(0, i + 1).drop_last() =~= s.subrange(0, i));
    } else {
        assert(s.subrange(0, i) =~= s);
    }
}

/// A stem whose first `i + 1` characters are digits worth more than
/// `u64::MAX` names no segment.
proof fn lemma_overflow_names_none(name: Seq<char>, stem: Seq<char>, i: int)
    requires
        name.len() > 4,
        stem == name.subrange(0, name.len() - 4),
        0 <= i < stem.len(),
        digits_value(stem.subrange(0, i + 1)) > u64::MAX,
    ensures
        log_name_id(name) is None,
{
    if forall|j: int| 0 <= j < name.len() - 4 ==> is_digit(#[trigger] name[j]) {
        assert forall|j: int| 0 <= j < stem.len() implies is_digit(#[trigger] stem[j]) by {
            assert(stem[j] == name[j]);
        }
        lemma_digits_value_prefix(stem, i + 1);
    }
}

/// The character of decimal digit `d`.
pub open spec fn digit_char(d: nat) -> char {
    (d + '0' as nat) as char
}

/// The decimal digits of `n`, most significant first, with no leading zero.
pub open spec fn decimal(n: nat) -> Seq<char>
    decreases n,
{
    if n < 10 {
        seq![digit_char(n)]
    } else {
        decimal(n / 10).push(digit_char(n % 10))
    }
}

fn digit_str(d: u64) -> (r: &'static str)
    requires
        d < 10,
    ensures
        r@ == seq![digit_char(d as nat)],
{
    proof {
        reveal_strlit("0");
        reveal_strlit("1");
        reveal_strlit("2");
        reveal_strlit("3");
        reveal_strlit("4");
        reveal_strlit("5");
        reveal_strlit("6");
        reveal_strlit("7");
        reveal_strlit("8");
        reveal_strlit("9");
    }
    let r = match d {
        0 => "0",
        1 => "1",
        2 => "2",
        3 => "3",
        4 => "4",
        5 => "5",
        6 => "6",
        7 => "7",
        8 => "8",
        _ => "9",
    };
    assert(r@ =~= seq![digit_char(d as nat)]);
    r
}

fn decimal_string(n: u64) -> (r: String)
    ensures
        r@ == decimal(n as nat),
    decreases n,
{
    if n < 10 {
        String::from_str(digit_str(n))
    } else {
        let mut s = decimal_string(n / 10);
        s.append(digit_str(n % 10));
        assert(s@ =~= decimal(n as nat));
        s
    }
}

/// The name of the file of segment `id`: its decimal digits, then `.log`.
pub fn log_file_name(id: u64) -> (r: String)
    ensures
        r@ == decimal(id as nat) + ".log"@,
{
    let mut s = decimal_string(id);
    s.append(".log");
    s
}

proof fn lemma_decimal_digits(n: nat)
    ensures
        decimal(n).len() > 0,
        forall|i: int| 0 <= i < decimal(n).len() ==> is_digit(#[trigger] decimal(n)[i]),
        digits_value(decimal(n)) == n,
    decreases n,
{
    let c = digit_char(n % 10);
    assert(c as nat == n % 10 + '0' as nat);
    if n >= 10 {
        lemma_decimal_digits(n / 10);
        assert(decimal(n).drop_last() =~= decimal(n / 10));
        assert(decimal(n).last() == c);
        assert((n / 10) * 10 + n % 10 == n) by (nonlinear_arith);
        assert(digits_value(decimal(n)) == digits_value(decimal(n / 10)) * 10 + n % 10);
    } else {
        assert(decimal(n).drop_last() =~= Seq::<char>::empty());
        assert(digits_value(decimal(n).drop_last()) == 0);
        assert(decimal(n).last() == c);
        assert(n % 10 == n);
    }
}

proof fn lemma_decimal_leading(n: nat)
    ensures
        n < 10 ==> decimal(n).len() == 1,
        n >= 10 ==> decimal(n).len() > 1,
        n >= 1 ==> decimal(n)[0] != '0',
    decreases n,
{
    if n >= 10 {
        lemma_decimal_leading(n / 10);
        assert(decimal(n)[0] == decimal(n / 10)[0]);
    } else {
        assert(digit_char(n) as nat == n + '0' as nat);
    }
}

/// A canonical string of digits is the decimal form of its value.
proof fn lemma_canonical_digits(s: Seq<char>)
    requires
        s.len() > 0,
        forall|i: int| 0 <= i < s.len() ==> is_digit(#[trigger] s[i]),
        s.len() == 1 || s[0] != '0',
    ensures
        decimal(digits_value(s)) == s,
    decreases s.len(),
{
    let p = s.drop_last();
    let c = s.last();
    let d = (c as nat - '0' as nat) as nat;
    assert(digits_value(s) == digits_value(p) * 10 + d);
    assert(digit_char(d) == c);
    if s.len() == 1 {
        assert(p =~= Seq::<char>::empty());
        assert(digits_value(s) == d);
        assert(decimal(d) =~= s);
    } else {
        assert forall|i: int| 0 <= i < p.len() implies is_digit(#[trigger] p[i]) by {
            assert(p[i] == s[i]);
        }
        assert(p[0] == s[0]);
        lemma_canonical_digits(p);
        lemma_digits_value_prefix(p, 1);
        assert(p.subrange(0, 1).drop_last() =~= Seq::<char>::empty());
        assert(digits_value(p.subrange(0, 1)) >= 1);
        let v = digits_value(p);
        assert((v * 10 + d) / 10 == v && (v * 10 + d) % 10 == d) by (nonlinear_arith)
            requires
                d < 10,
        ;
        assert(decimal(digits_value(s)) =~= p.push(c));
        assert(p.push(c) =~= s);
    }
}

/// A file names segment `id` exactly when its name is the decimal form of
/// `id` followed by `.log`.
pub proof fn lemma_log_name_exact(name: Seq<char>, id: u64)
    ensures
        log_name_id(name) == Some(id) <==> name == decimal(id as nat) + ".log"@,
{
    lemma_log_name_round_trip(id);
    if log_name_id(name) == Some(id) {
        let n = name.len();
        let stem = name.subrange(0, n - 4);
        assert forall|i: int| 0 <= i < stem.len() implies is_digit(#[trigger] stem[i]) by {
            assert(stem[i] == name[i]);
        }
        lemma_canonical_digits(stem);
        assert(name =~= stem + name.subrange(n - 4, n as int));
    }
}

/// The name of a segment's file gives back the segment's id.
pub proof fn lemma_log_name_round_trip(id: u64)
    ensures
        log_name_id(decimal(id as nat) + ".log"@) == Some(id),
{
    reveal_strlit(".log");
    let d = decimal(id as nat);
    let name = d + ".log"@;
    lemma_decimal_digits(id as nat);
    lemma_decimal_leading(id as nat);
    assert(name[0] == d[0]);
    let n = name.len();
    assert(name.subrange(n - 4, n as int) =~= ".log"@);
    assert(name.subrange(0, n - 4) =~= d);
    assert forall|i: int| 0 <= i < n - 4 implies is_digit(#[trigger] name[i]) by {
        assert(name[i] == d[i]);
    }
}

/// The segment id that file `name` stands for, if it is the name of a
/// segment file.
pub fn parse_log_id(name: &str) -> (r: Option<u64>)
    ensures
        r == log_name_id(name@),
{
    let n = name.unicode_len();
    proof {
        reveal_strlit(".log");
    }
    if n <= 4 || name.get_char(n - 4) != '.' || name.get_char(n - 3) != 'l' || name.get_char(n
        - 2) != 'o' || name.get_char(n - 1) != 'g' {
        proof {
            if n > 4 {
                let t = name@.subrange(n - 4, n as int);
                assert(t[0] == name@[n - 4]);
                assert(t[1] == name@[n - 3]);
                assert(t[2] == name@[n - 2]);
                assert(t[3] == name@[n - 1]);
            }
        }
        return None;
    }
    assert(name@.subrange(n - 4, n as int) =~= ".log"@);
    let stem_len = n - 4;
    if stem_len > 1 && name.get_char(0) == '0' {
        return None;
    }
    let ghost stem = name@.subrange(0, stem_len as int);
    let mut value: u64 = 0;
    let mut i: usize = 0;
    while i < stem_len
        invariant
            n == name@.len(),
            stem_len == n - 4,
            stem == name@.subrange(0, stem_len as int),
            i <= stem_len,
            forall|j: int| 0 <= j < i ==> is_digit(#[trigger] name@[j]),
            value == digits_value(stem.subrange(0, i as int)),
        decreases stem_len - i,
    {
        let c = name.get_char(i);
        if !('0' <= c && c <= '9') {
            return None;
        }
        assert(stem.subrange(0, i + 1).drop_last() =~= stem.subrange(0, i as int));
        let d = (c as u32 - '0' as u32) as u64;
        assert(stem[i as int] == c);
        assert(stem.subrange(0, i + 1).last() == c);
        match value.checked_mul(10) {
            None => {
                proof {
                    lemma_overflow_names_none(name@, stem, i as int);
                }
                return None;
            },
            Some(tens) => match tens.checked_add(d) {
                None => {
                    proof {
                        lemma_overflow_names_none(name@, stem, i as int);
                    }
                    return None;
                },
                Some(v) => {
                    value = v;
                },
            },
        }
        i = i + 1;
    }
    assert(stem.subrange(0, stem_len as int) =~= stem);
    assert(stem_len == 1 || name@[0] != '0');
    Some(value)
}

/// Relies on slice::sort_unstable: the same ids, in ascending order.
#[verifier::external_body]
fn sort_ids(v: &mut Vec<u64>)
    ensures
        final(v)@.to_multiset() == old(v)@.to_multiset(),
        forall|i: int, j: int| 0 <= i <= j < final(v)@.len() ==> final(v)@[i] <= final(v)@[j],
{
    v.sort_unstable();
}

/// The ids of the segment files among `names`, each once, in ascending
/// order: `id` is there exactly when `names` holds `<id>.log` with `<id>` in
/// decimal.
pub fn log_ids(names: &Vec<String>) -> (r: Vec<u64>)
    ensures
        forall|i: int, j: int| 0 <= i < j < r@.len() ==> r@[i] < r@[j],
        forall|id: u64|
            r@.contains(id) <==> exists|k: int|
                0 <= k < names@.len() && log_name_id((#[trigger] names@[k])@) == Some(id),
        forall|id: u64|
            r@.contains(id) <==> exists|k: int|
                0 <= k < names@.len() && (#[trigger] names@[k])@ == decimal(id as nat) + ".log"@,
{
    let mut found: Vec<u64> = Vec::new();
    let mut k: usize = 0;
    while k < names.len()
        invariant
            k <= names@.len(),
            forall|id: u64|
                found@.contains(id) <==> exists|m: int|
                    0 <= m < k && log_name_id((#[trigger] names@[m])@) == Some(id),
        decreases names@.len() - k,
    {
        let ghost before = found@;
        if let Some(id) = parse_log_id(names[k].as_str()) {
            found.push(id);
        }
        proof {
            assert forall|id: u64| found@.contains(id) <==> exists|m: int|
                0 <= m < k + 1 && log_name_id((#[trigger] names@[m])@) == Some(id) by {
                if found@.contains(id) {
                    let a = choose|a: int| 0 <= a < found@.len() && found@[a] == id;
                    if a < before.len() {
                        assert(before[a] == id);
                        assert(before.contains(id));
                    } else {
                        assert(log_name_id(names@[k as int]@) == Some(id));
                    }
                }
                if exists|m: int| 0 <= m < k + 1 && log_name_id((#[trigger] names@[m])@) == Some(id) {
                    let m = choose|m: int| 0 <= m < k + 1 && log_name_id((#[trigger] names@[m])@) == Some(id);
                    if m < k {
                        assert(before.contains(id));
                        let a = choose|a: int| 0 <= a < before.len() && before[a] == id;
                        assert(found@[a] == id);
                    } else {
                        assert(found@[found@.len() - 1] == id);
                    }
                }
            }
        }
        k = k + 1;
    }
    let ghost unsorted = found@;
    sort_ids(&mut found);
    proof {
        assert forall|id: u64| found@.contains(id) <==> unsorted.contains(id) by {
            assert(found@.to_multiset().count(id) == unsorted.to_multiset().count(id));
        }
    }
    let mut r: Vec<u64> = Vec::new();
    let mut i: usize = 0;
    while i < found.len()
        invariant
            i <= found@.len(),
            forall|a: int, b: int| 0 <= a <= b < found@.len() ==> found@[a] <= found@[b],
            forall|a: int, b: int| 0 <= a < b < r@.len() ==> r@[a] < r@[b],
            forall|id: u64| r@.contains(id) <==> found@.take(i as int).contains(id),
            r@.len() > 0 ==> i > 0 && r@.last() == found@[i - 1],
        decreases found@.len() - i,
    {
        let x = found[i];
        let ghost before = r@;
        if r.len() == 0 || r[r.len() - 1] != x {
            r.push(x);
        }
        proof {
            let t1 = found@.take(i + 1);
            let t0 = found@.take(i as int);
            assert(t1 =~= t0.push(x));
            assert forall|id: u64| r@.contains(id) <==> t1.contains(id) by {
                if t1.contains(id) {
                    let a = choose|a: int| 0 <= a < t1.len() && t1[a] == id;
                    if a < i {
                        assert(t0[a] == id);
                        assert(before.contains(id));
                        let b = choose|b: int| 0 <= b < before.len() && before[b] == id;
                        assert(r@[b] == id);
                    } else if r@.len() > before.len() {
                        assert(r@[r@.len() - 1] == id);
                    } else {
                        assert(before.last() == id);
                        assert(r@[r@.len() - 1] == id);
                    }
                }
                if r@.contains(id) {
                    let b = choose|b: int| 0 <= b < r@.len() && r@[b] == id;
                    if b < before.len() {
                        assert(before[b] == id);
                        assert(before.contains(id));
                        assert(t0.contains(id));
                        let a = choose|a: int| 0 <= a < t0.len() && t0[a] == id;
                        assert(t1[a] == id);
                    } else {
                        assert(t1[i as int] == id);
                    }
                }
            }
        }
        i = i + 1;
    }
    assert(found@.take(found@.len() as int) =~= found@);
    proof {
        assert forall|id: u64| r@.contains(id) <==> exists|k: int|
            0 <= k < names@.len() && log_name_id((#[trigger] names@[k])@) == Some(id) by {
            assert(r@.contains(id) <==> found@.contains(id));
            assert(found@.contains(id) <==> unsorted.contains(id));
        }
        assert forall|id: u64| r@.contains(id) <==> exists|k: int|
            0 <= k < names@.len() && (#[trigger] names@[k])@ == decimal(id as nat) + ".log"@ by {
            if r@.contains(id) {
                let k = choose|k: int|
                    0 <= k < names@.len() && log_name_id((#[trigger] names@[k])@) == Some(id);
                lemma_log_name_exact(names@[k]@, id);
            }
            if exists|k: int|
                0 <= k < names@.len() && (#[trigger] names@[k])@ == decimal(id as nat) + ".log"@ {
                let k = choose|k: int|
                    0 <= k < names@.len() && (#[trigger] names@[k])@ == decimal(id as nat)
                        + ".log"@;
                lemma_log_name_exact(names@[k]@, id);
            }
        }
    }
    r
}

} // verus!
