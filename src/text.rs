//! Character-sequence primitives: whitespace trimming, token search and
//! decimal numbers, each with a mathematical statement of what it computes.
use vstd::prelude::*;

verus! {

/// Unicode `White_Space` characters: the set that `str::trim` removes.
pub open spec fn is_space(c: char) -> bool {
    ('\u{9}' <= c && c <= '\u{d}') || c == ' ' || c == '\u{85}' || c == '\u{a0}' || c
        == '\u{1680}' || ('\u{2000}' <= c && c <= '\u{200a}') || c == '\u{2028}' || c
        == '\u{2029}' || c == '\u{202f}' || c == '\u{205f}' || c == '\u{3000}'
}

pub open spec fn trim_front(s: Seq<char>) -> Seq<char>
    decreases s.len(),
{
    if s.len() > 0 && is_space(s[0]) {
        trim_front(s.drop_first())
    } else {
        s
    }
}

pub open spec fn trim_back(s: Seq<char>) -> Seq<char>
    decreases s.len(),
{
    if s.len() > 0 && is_space(s.last()) {
        trim_back(s.drop_last())
    } else {
        s
    }
}

/// `s` without its leading and trailing whitespace.
pub open spec fn trim(s: Seq<char>) -> Seq<char> {
    trim_back(trim_front(s))
}

/// `t` stands in `s` starting at index `i`.
pub open spec fn occurs_at(s: Seq<char>, t: Seq<char>, i: int) -> bool {
    0 <= i && i + t.len() <= s.len() && s.subrange(i, i + t.len()) == t
}

pub open spec fn occurs(s: Seq<char>, t: Seq<char>) -> bool {
    exists|i: int| occurs_at(s, t, i)
}

pub open spec fn is_first_occurrence(s: Seq<char>, t: Seq<char>, i: int) -> bool {
    occurs_at(s, t, i) && forall|k: int| 0 <= k < i ==> !occurs_at(s, t, k)
}

/// Index of the leftmost occurrence of `t` in `s` (meaningful where `t` occurs).
pub open spec fn first_occurrence(s: Seq<char>, t: Seq<char>) -> int {
    choose|i: int| is_first_occurrence(s, t, i)
}

/// `t` occurs in `s` at `i` and nowhere else.
pub open spec fn is_only_occurrence(s: Seq<char>, t: Seq<char>, i: int) -> bool {
    occurs_at(s, t, i) && forall|k: int| occurs_at(s, t, k) ==> k == i
}

pub open spec fn occurs_once(s: Seq<char>, t: Seq<char>) -> bool {
    exists|i: int| is_only_occurrence(s, t, i)
}

pub open spec fn only_occurrence(s: Seq<char>, t: Seq<char>) -> int {
    choose|i: int| is_only_occurrence(s, t, i)
}

pub open spec fn is_digit(c: char) -> bool {
    '0' <= c && c <= '9'
}

pub open spec fn all_digits(s: Seq<char>) -> bool {
    forall|i: int| 0 <= i < s.len() ==> is_digit(#[trigger] s[i])
}

/// The number that the decimal digits `s` spell out.
pub open spec fn digits_value(s: Seq<char>) -> nat
    decreases s.len(),
{
    if s.len() == 0 {
        0
    } else {
        digits_value(s.drop_last()) * 10 + ((s.last() as nat) - ('0' as nat)) as nat
    }
}

/// A positive identifier in decimal: nonempty, digits only, within `1..=i64::MAX`.
pub open spec fn decimal_identifier(s: Seq<char>) -> Option<i64> {
    if s.len() > 0 && all_digits(s) && 1 <= digits_value(s) <= i64::MAX {
        Some(digits_value(s) as i64)
    } else {
        None
    }
}

pub open spec fn digit_char(d: nat) -> char {
    (('0' as nat) + d) as char
}

/// The decimal digits of `n`, without leading zeros.
pub open spec fn decimal(n: nat) -> Seq<char>
    decreases n,
{
    if n < 10 {
        seq![digit_char(n)]
    } else {
        decimal(n / 10).push(digit_char(n % 10))
    }
}

pub fn is_space_char(c: char) -> (r: bool)
    ensures
        r == is_space(c),
{
    ('\u{9}' <= c && c <= '\u{d}') || c == ' ' || c == '\u{85}' || c == '\u{a0}' || c
        == '\u{1680}' || ('\u{2000}' <= c && c <= '\u{200a}') || c == '\u{2028}' || c
        == '\u{2029}' || c == '\u{202f}' || c == '\u{205f}' || c == '\u{3000}'
}

/// The characters of `s` from `lo` up to `hi`.
pub fn slice(s: &Vec<char>, lo: usize, hi: usize) -> (r: Vec<char>)
    requires
        lo <= hi <= s.len(),
    ensures
        r@ == s@.subrange(lo as int, hi as int),
{
    let mut r: Vec<char> = Vec::new();
    let mut i: usize = lo;
    while i < hi
        invariant
            lo <= i <= hi <= s.len(),
            r@ == s@.subrange(lo as int, i as int),
        decreases hi - i,
    {
        r.push(s[i]);
        assert(r@ =~= s@.subrange(lo as int, i + 1));
        i = i + 1;
    }
    r
}

pub fn trimmed(s: &Vec<char>) -> (r: Vec<char>)
    ensures
        r@ == trim(s@),
{
    let n = s.len();
    let mut a: usize = 0;
    assert(s@.subrange(0, n as int) =~= s@);
    while a < n && is_space_char(s[a])
        invariant
            a <= n == s.len(),
            trim_front(s@) == trim_front(s@.subrange(a as int, n as int)),
        decreases n - a,
    {
        assert(s@.subrange(a as int, n as int).drop_first() =~= s@.subrange(a + 1, n as int));
        a = a + 1;
    }
    let mut b: usize = n;
    assert(trim(s@) == trim_back(s@.subrange(a as int, n as int)));
    while b > a && is_space_char(s[b - 1])
        invariant
            a <= b <= n == s.len(),
            trim(s@) == trim_back(s@.subrange(a as int, b as int)),
        decreases b - a,
    {
        assert(s@.subrange(a as int, b as int).drop_last() =~= s@.subrange(a as int, b - 1));
        b = b - 1;
    }
    slice(s, a, b)
}

pub fn same_chars(x: &Vec<char>, y: &Vec<char>) -> (r: bool)
    ensures
        r == (x@ == y@),
{
    if x.len() != y.len() {
        return false;
    }
    let mut i: usize = 0;
    while i < x.len()
        invariant
            x.len() == y.len(),
            i <= x.len(),
            forall|k: int| 0 <= k < i ==> x@[k] == y@[k],
        decreases x.len() - i,
    {
        if x[i] != y[i] {
            return false;
        }
        i = i + 1;
    }
    assert(x@ =~= y@);
    true
}

/// Whether `t` stands in `s` at `i`.
pub fn occurs_here(s: &Vec<char>, t: &Vec<char>, i: usize) -> (r: bool)
    ensures
        r == occurs_at(s@, t@, i as int),
{
    if i > s.len() || t.len() > s.len() - i {
        return false;
    }
    let mut k: usize = 0;
    while k < t.len()
        invariant
            i + t.len() <= s.len(),
            k <= t.len(),
            forall|j: int| 0 <= j < k ==> s@[i + j] == t@[j],
        decreases t.len() - k,
    {
        if s[i + k] != t[k] {
            assert(s@.subrange(i as int, i + t.len())[k as int] != t@[k as int]);
            return false;
        }
        k = k + 1;
    }
    assert(s@.subrange(i as int, i + t.len()) =~= t@);
    true
}

/// The leftmost index at which `t` occurs in `s`, if any.
pub fn find(s: &Vec<char>, t: &Vec<char>) -> (r: Option<usize>)
    ensures
        r is None <==> !occurs(s@, t@),
        r matches Some(i) ==> is_first_occurrence(s@, t@, i as int) && first_occurrence(s@, t@)
            == i,
{
    let mut i: usize = 0;
    loop
        invariant
            i <= s.len(),
            forall|k: int| 0 <= k < i ==> !occurs_at(s@, t@, k),
        ensures
            forall|k: int| 0 <= k <= s.len() ==> !occurs_at(s@, t@, k),
        decreases s.len() - i,
    {
        if occurs_here(s, t, i) {
            assert(is_first_occurrence(s@, t@, i as int));
            let ghost j = first_occurrence(s@, t@);
            assert(is_first_occurrence(s@, t@, j));
            return Some(i);
        }
        if i == s.len() {
            break;
        }
        i = i + 1;
    }
    assert forall|k: int| !occurs_at(s@, t@, k) by {
        if 0 <= k <= s.len() {
        }
    }
    None
}

/// Where `t` occurs in `s` exactly once, that index.
pub fn find_only(s: &Vec<char>, t: &Vec<char>) -> (r: Option<usize>)
    ensures
        r is None <==> !occurs_once(s@, t@),
        r matches Some(i) ==> is_only_occurrence(s@, t@, i as int) && only_occurrence(s@, t@)
            == i,
{
    match find(s, t) {
        None => None,
        Some(first) => {
            let mut i: usize = first;
            while i < s.len()
                invariant
                    first <= i <= s.len(),
                    is_first_occurrence(s@, t@, first as int),
                    forall|k: int| first < k <= i ==> !occurs_at(s@, t@, k),
                decreases s.len() - i,
            {
                i = i + 1;
                if occurs_here(s, t, i) {
                    assert(!is_only_occurrence(s@, t@, first as int));
                    assert forall|j: int| !is_only_occurrence(s@, t@, j) by {
                        if is_only_occurrence(s@, t@, j) {
                            assert(j == first);
                        }
                    }
                    return None;
                }
            }
            assert(is_only_occurrence(s@, t@, first as int));
            let ghost j = only_occurrence(s@, t@);
            assert(is_only_occurrence(s@, t@, j));
            Some(first)
        }
    }
}

/// Reads `s` as a positive decimal identifier.
pub fn parse_identifier(s: &Vec<char>) -> (r: Option<i64>)
    ensures
        r == decimal_identifier(s@),
{
    if s.len() == 0 {
        return None;
    }
    let mut acc: u64 = 0;
    let mut too_big: bool = false;
    let mut i: usize = 0;
    while i < s.len()
        invariant
            i <= s.len(),
            all_digits(s@.subrange(0, i as int)),
            too_big ==> digits_value(s@.subrange(0, i as int)) > i64::MAX,
            !too_big ==> acc == digits_value(s@.subrange(0, i as int)) && acc <= i64::MAX,
        decreases s.len() - i,
    {
        let c = s[i];
        if !('0' <= c && c <= '9') {
            assert(!all_digits(s@));
            return None;
        }
        let ghost prev = s@.subrange(0, i as int);
        let ghost next = s@.subrange(0, i + 1);
        assert(next.drop_last() =~= prev);
        assert(next.last() == c);
        let d: u64 = (c as u64) - ('0' as u64);
        assert(digits_value(next) == digits_value(prev) * 10 + d);
        if !too_big {
            if acc > (9223372036854775807u64 - d) / 10 {
                too_big = true;
                assert(digits_value(next) > i64::MAX) by (nonlinear_arith)
                    requires
                        digits_value(next) == acc * 10 + d,
                        acc > (9223372036854775807u64 - d) / 10,
                        d <= 9,
                ;
            } else {
                assert(acc * 10 + d <= i64::MAX) by (nonlinear_arith)
                    requires
                        acc <= (9223372036854775807u64 - d) / 10,
                        d <= 9,
                ;
                acc = acc * 10 + d;
            }
        } else {
            assert(digits_value(next) > i64::MAX) by (nonlinear_arith)
                requires
                    digits_value(next) == digits_value(prev) * 10 + d,
                    digits_value(prev) > i64::MAX,
            ;
        }
        assert forall|k: int| 0 <= k < next.len() implies is_digit(#[trigger] next[k]) by {
            if k < i {
                assert(next[k] == prev[k]);
            }
        }
        i = i + 1;
    }
    assert(s@.subrange(0, s.len() as int) =~= s@);
    if too_big || acc == 0 {
        None
    } else {
        Some(acc as i64)
    }
}

/// The decimal digits of `n`.
pub fn decimal_chars(n: u64) -> (r: Vec<char>)
    ensures
        r@ == decimal(n as nat),
    decreases n,
{
    let d: u64 = n % 10;
    let c: char = char_of_digit(d);
    if n < 10 {
        let mut r: Vec<char> = Vec::new();
        r.push(c);
        assert(r@ =~= seq![digit_char(n as nat)]);
        r
    } else {
        let mut r = decimal_chars(n / 10);
        r.push(c);
        r
    }
}

fn char_of_digit(d: u64) -> (c: char)
    requires
        d < 10,
    ensures
        c == digit_char(d as nat),
{
    if d == 0 {
        '0'
    } else if d == 1 {
        '1'
    } else if d == 2 {
        '2'
    } else if d == 3 {
        '3'
    } else if d == 4 {
        '4'
    } else if d == 5 {
        '5'
    } else if d == 6 {
        '6'
    } else if d == 7 {
        '7'
    } else if d == 8 {
        '8'
    } else {
        '9'
    }
}

} // verus!
