//! Text helpers shared by the engine: splitting a channel name into `:` segments, and rendering
//! integers as decimal or lowercase hexadecimal strings.

use vstd::prelude::*;
use vstd::string::*;

verus! {

/// The segments of `s` between separators `sep`, as `str::split` yields them.
/// There is always at least one segment; an empty string has one empty segment.
pub open spec fn split_on(s: Seq<char>, sep: char) -> Seq<Seq<char>>
    decreases s.len(),
{
    if s.len() == 0 {
        seq![Seq::<char>::empty()]
    } else {
        let r = split_on(s.drop_last(), sep);
        if s.last() == sep {
            r.push(Seq::<char>::empty())
        } else {
            r.update(r.len() - 1, r.last().push(s.last()))
        }
    }
}

/// Joining segments back with the separator.
pub open spec fn join_on(segs: Seq<Seq<char>>, sep: char) -> Seq<char>
    decreases segs.len(),
{
    if segs.len() <= 1 {
        if segs.len() == 0 { Seq::<char>::empty() } else { segs[0] }
    } else {
        join_on(segs.drop_last(), sep).push(sep) + segs.last()
    }
}

/// The separator of channel segments.
pub open spec fn colon() -> char {
    ':'
}

/// The views of a vector of strings.
pub open spec fn views(v: Seq<String>) -> Seq<Seq<char>> {
    v.map_values(|x: String| x@)
}

pub proof fn lemma_split_nonempty(s: Seq<char>, sep: char)
    ensures
        split_on(s, sep).len() >= 1,
    decreases s.len(),
{
    if s.len() > 0 {
        lemma_split_nonempty(s.drop_last(), sep);
    }
}

/// Splitting and joining again gives back the string: the segments determine it.
pub proof fn lemma_join_split(s: Seq<char>, sep: char)
    ensures
        join_on(split_on(s, sep), sep) == s,
    decreases s.len(),
{
    if s.len() > 0 {
        let p = s.drop_last();
        lemma_join_split(p, sep);
        lemma_split_nonempty(p, sep);
        let r = split_on(p, sep);
        assert(s =~= p.push(s.last()));
        if s.last() == sep {
            let r2 = r.push(Seq::<char>::empty());
            assert(r2.drop_last() =~= r);
            assert(join_on(r2, sep) == join_on(r, sep).push(sep) + Seq::<char>::empty());
            assert(join_on(r2, sep) =~= s);
        } else {
            let r2 = r.update(r.len() - 1, r.last().push(s.last()));
            if r.len() == 1 {
                assert(join_on(r2, sep) =~= s);
            } else {
                assert(r2.drop_last() =~= r.drop_last());
                assert(join_on(r, sep) == join_on(r.drop_last(), sep).push(sep) + r.last());
                assert(join_on(r2, sep) =~= s);
            }
        }
    }
}

/// Two strings with the same segments are equal.
pub proof fn lemma_split_injective(a: Seq<char>, b: Seq<char>, sep: char)
    requires
        split_on(a, sep) == split_on(b, sep),
    ensures
        a == b,
{
    lemma_join_split(a, sep);
    lemma_join_split(b, sep);
}

/// Splits `s` at every `sep`, as `s.split(sep)` does.
pub fn split_by(s: &str, sep: char) -> (segs: Vec<String>)
    ensures
        views(segs@) == split_on(s@, sep),
{
    let n = s.unicode_len();
    let mut segs: Vec<String> = Vec::new();
    let mut start: usize = 0;
    let mut i: usize = 0;
    assert(s@.take(0) =~= Seq::<char>::empty());
    assert(views(segs@).push(s@.subrange(0, 0)) =~= split_on(s@.take(0), sep));
    while i < n
        invariant
            n == s@.len(),
            start <= i <= n,
            views(segs@).push(s@.subrange(start as int, i as int)) == split_on(
                s@.take(i as int),
                sep,
            ),
        decreases n - i,
    {
        let ch = s.get_char(i);
        let ghost old_segs = segs@;
        let ghost t = s@.take(i as int + 1);
        assert(t.drop_last() =~= s@.take(i as int));
        assert(t.last() == ch);
        proof {
            lemma_split_nonempty(s@.take(i as int), sep);
        }
        if ch == sep {
            let seg = s.substring_char(start, i).to_owned();
            segs.push(seg);
            assert(views(segs@) =~= views(old_segs).push(s@.subrange(start as int, i as int)));
            start = i + 1;
            assert(s@.subrange(start as int, i as int + 1) =~= Seq::<char>::empty());
            assert(split_on(t, sep) == split_on(s@.take(i as int), sep).push(
                Seq::<char>::empty(),
            ));
            assert(views(segs@).push(s@.subrange(start as int, i as int + 1)) =~= split_on(
                t,
                sep,
            ));
        } else {
            let ghost r = split_on(s@.take(i as int), sep);
            assert(r.last() == s@.subrange(start as int, i as int));
            assert(s@.subrange(start as int, i as int + 1) =~= s@.subrange(
                start as int,
                i as int,
            ).push(ch));
            assert(views(segs@).push(s@.subrange(start as int, i as int + 1)) =~= split_on(
                t,
                sep,
            ));
        }
        i = i + 1;
    }
    let last = s.substring_char(start, n).to_owned();
    let ghost before = segs@;
    segs.push(last);
    assert(views(segs@) =~= views(before).push(s@.subrange(start as int, n as int)));
    assert(s@.take(n as int) =~= s@);
    segs
}

/// Splits `s` at every `:`, as `s.split(':')` does.
pub fn split_segments(s: &str) -> (segs: Vec<String>)
    ensures
        views(segs@) == split_on(s@, colon()),
{
    split_by(s, ':')
}

/// Decimal digit `d` (for `d < 10`) as a character.
pub open spec fn digit_char(d: nat) -> char {
    if d == 0 {
        '0'
    } else if d == 1 {
        '1'
    } else if d == 2 {
        '2'
    } else if d == 3 {
        '3'
    } else if d == 4 {
        '4'
    } else if d == 5 {
        '5'
    } else if d == 6 {
        '6'
    } else if d == 7 {
        '7'
    } else if d == 8 {
        '8'
    } else if d == 9 {
        '9'
    } else if d == 10 {
        'a'
    } else if d == 11 {
        'b'
    } else if d == 12 {
        'c'
    } else if d == 13 {
        'd'
    } else if d == 14 {
        'e'
    } else {
        'f'
    }
}

/// The digits of `n` in base `b` (most significant first, no leading zeros; `0` renders as `"0"`).
pub open spec fn digits(n: nat, b: nat) -> Seq<char>
    recommends
        2 <= b <= 16,
    decreases n,
{
    if n < b || b < 2 {
        seq![digit_char(n)]
    } else {
        proof {
            assert(n / b < n) by (nonlinear_arith)
                requires
                    n >= b,
                    b >= 2,
            ;
        }
        digits(n / b, b).push(digit_char(n % b))
    }
}

/// `n` written in decimal, as `format!("{n}")` renders it.
pub open spec fn decimal(n: nat) -> Seq<char> {
    digits(n, 10)
}

/// `n` written in lowercase hexadecimal, as `format!("{n:x}")` renders it.
pub open spec fn hex(n: nat) -> Seq<char> {
    digits(n, 16)
}

fn digit_str(d: u128) -> (s: &'static str)
    requires
        d < 16,
    ensures
        s@ == seq![digit_char(d as nat)],
{
    proof {
        reveal_strlit("0");
        reveal_strlit("1");
        reveal_strlit("2");
        reveal_strlit("3");
        reveal_strlit("4");
        reveal_strlit("5");
        reveal_strlit("6");
        reveal_strlit("7");
        reveal_strlit("8");
        reveal_strlit("9");
        reveal_strlit("a");
        reveal_strlit("b");
        reveal_strlit("c");
        reveal_strlit("d");
        reveal_strlit("e");
        reveal_strlit("f");
    }
    let s = if d == 0 {
        "0"
    } else if d == 1 {
        "1"
    } else if d == 2 {
        "2"
    } else if d == 3 {
        "3"
    } else if d == 4 {
        "4"
    } else if d == 5 {
        "5"
    } else if d == 6 {
        "6"
    } else if d == 7 {
        "7"
    } else if d == 8 {
        "8"
    } else if d == 9 {
        "9"
    } else if d == 10 {
        "a"
    } else if d == 11 {
        "b"
    } else if d == 12 {
        "c"
    } else if d == 13 {
        "d"
    } else if d == 14 {
        "e"
    } else {
        "f"
    };
    assert(s@ =~= seq![digit_char(d as nat)]);
    s
}

fn render_digits(n: u128, base: u128) -> (s: String)
    requires
        2 <= base <= 16,
    ensures
        s@ == digits(n as nat, base as nat),
    decreases n,
{
    if n < base {
        String::from_str(digit_str(n))
    } else {
        assert(n / base < n) by (nonlinear_arith)
            requires
                n >= base,
                base >= 2,
        ;
        let mut s = render_digits(n / base, base);
        s.append(digit_str(n % base));
        s
    }
}

/// Renders `n` in decimal.
pub fn decimal_string(n: u128) -> (s: String)
    ensures
        s@ == decimal(n as nat),
{
    render_digits(n, 10)
}

/// Renders `n` in lowercase hexadecimal.
pub fn hex_string(n: u128) -> (s: String)
    ensures
        s@ == hex(n as nat),
{
    render_digits(n, 16)
}

/// Whether `c` is a decimal digit.
pub open spec fn is_digit(c: char) -> bool {
    48 <= (c as int) && (c as int) <= 57
}

/// The value of a decimal digit.
pub open spec fn digit_value(c: char) -> nat {
    ((c as int) - 48) as nat
}

/// Whether every character of `s` is a decimal digit.
pub open spec fn all_digits(s: Seq<char>) -> bool {
    forall|i: int| 0 <= i < s.len() ==> is_digit(#[trigger] s[i])
}

/// The value of a string of decimal digits (most significant first).
pub open spec fn digits_value(s: Seq<char>) -> nat
    decreases s.len(),
{
    if s.len() == 0 {
        0
    } else {
        digits_value(s.drop_last()) * 10 + digit_value(s.last())
    }
}

/// What `s.parse::<u64>()` gives, as an option: an optional `+`, then one or more decimal
/// digits whose value fits in a `u64`.
pub open spec fn parse_u64_spec(s: Seq<char>) -> Option<u64> {
    let d = if s.len() > 0 && s[0] == '+' {
        s.skip(1)
    } else {
        s
    };
    if d.len() > 0 && all_digits(d) && digits_value(d) <= u64::MAX {
        Some(digits_value(d) as u64)
    } else {
        None
    }
}

/// A prefix of a digit string has no larger value.
pub proof fn lemma_digits_value_prefix(s: Seq<char>, k: int)
    requires
        0 <= k <= s.len(),
    ensures
        digits_value(s.take(k)) <= digits_value(s),
    decreases s.len(),
{
    if k < s.len() {
        let p = s.drop_last();
        assert(s.take(k) =~= p.take(k));
        lemma_digits_value_prefix(p, k);
    } else {
        assert(s.take(k) =~= s);
    }
}

/// Parses a `u64` as `s.parse::<u64>().ok()` does.
pub fn parse_u64(s: &str) -> (r: Option<u64>)
    ensures
        r == parse_u64_spec(s@),
{
    let n = s.unicode_len();
    let mut start: usize = 0;
    if n > 0 && s.get_char(0) == '+' {
        start = 1;
    }
    let ghost d = if s@.len() > 0 && s@[0] == '+' {
        s@.skip(1)
    } else {
        s@
    };
    assert(d =~= s@.skip(start as int));
    if start >= n {
        assert(d.len() == 0);
        return None;
    }
    let mut v: u64 = 0;
    let mut i: usize = start;
    assert(d.take(0) =~= Seq::<char>::empty());
    while i < n
        invariant
            n == s@.len(),
            start <= i <= n,
            d == s@.skip(start as int),
            d == (if s@.len() > 0 && s@[0] == '+' {
                s@.skip(1)
            } else {
                s@
            }),
            all_digits(d.take(i - start)),
            v == digits_value(d.take(i - start)),
        decreases n - i,
    {
        let c = s.get_char(i);
        let ghost k = i - start;
        assert(d[k] == c);
        let code = c as u32;
        if code < 48 || code > 57 {
            assert(!is_digit(d[k]));
            assert(!all_digits(d));
            return None;
        }
        let dv = (code - 48) as u64;
        assert(d.take(k + 1).drop_last() =~= d.take(k));
        assert(d.take(k + 1).last() == c);
        assert(digits_value(d.take(k + 1)) == v * 10 + dv);
        match v.checked_mul(10) {
            Some(m) => {
                match m.checked_add(dv) {
                    Some(x) => {
                        v = x;
                    },
                    None => {
                        proof {
                            lemma_digits_value_prefix(d, k + 1);
                        }
                        assert(digits_value(d) > u64::MAX);
                        return None;
                    },
                }
            },
            None => {
                proof {
                    lemma_digits_value_prefix(d, k + 1);
                }
                return None;
            },
        }
        assert(all_digits(d.take(k + 1))) by {
            assert forall|j: int| 0 <= j < k + 1 implies is_digit(#[trigger] d.take(k + 1)[j]) by {
                if j < k {
                    assert(d.take(k + 1)[j] == d.take(k)[j]);
                }
            }
        }
        i = i + 1;
    }
    assert(d.take(n - start) =~= d);
    Some(v)
}

/// A decimal digit character is a digit of its value.
proof fn lemma_digit_char(d: nat)
    requires
        d < 10,
    ensures
        is_digit(digit_char(d)),
        digit_value(digit_char(d)) == d,
        digit_char(d) != '+',
{
    assert('0' as int == 48);
    assert('9' as int == 57);
}

/// The digits of `n` in decimal are digits, and their value is `n`.
pub proof fn lemma_decimal_digits(n: nat)
    ensures
        all_digits(decimal(n)),
        digits_value(decimal(n)) == n,
        decimal(n).len() > 0,
        decimal(n)[0] != '+',
    decreases n,
{
    reveal_with_fuel(digits, 2);
    lemma_digit_char(n % 10);
    if n < 10 {
        assert(decimal(n) == seq![digit_char(n)]);
        assert(seq![digit_char(n)].drop_last() =~= Seq::<char>::empty());
        assert(digits_value(Seq::<char>::empty()) == 0);
        assert(digits_value(decimal(n)) == digits_value(Seq::<char>::empty()) * 10 + digit_value(digit_char(n)));
    } else {
        lemma_decimal_digits(n / 10);
        let p = decimal(n / 10);
        assert(decimal(n) == p.push(digit_char(n % 10)));
        assert(decimal(n).drop_last() =~= p);
        assert(digits_value(decimal(n)) == digits_value(p) * 10 + digit_value(digit_char(n % 10)));
        assert(n == (n / 10) * 10 + n % 10) by (nonlinear_arith);
        assert(decimal(n)[0] == p[0]);
        assert forall|j: int| 0 <= j < decimal(n).len() implies is_digit(#[trigger] decimal(n)[j]) by {
            if j < p.len() {
                assert(decimal(n)[j] == p[j]);
            }
        }
    }
}

/// Parsing the decimal rendering of a `u64` gives it back.
pub proof fn lemma_parse_decimal(n: u64)
    ensures
        parse_u64_spec(decimal(n as nat)) == Some(n),
{
    lemma_decimal_digits(n as nat);
}

/// Whether `i` is the position of the first `c` in `s`.
pub open spec fn is_first_index(s: Seq<char>, c: char, i: int) -> bool {
    0 <= i < s.len() && s[i] == c && forall|j: int| 0 <= j < i ==> s[j] != c
}

/// `s.split_once(c)`: the text before the first `c` and the text after it.
pub open spec fn split_once_spec(s: Seq<char>, c: char) -> Option<(Seq<char>, Seq<char>)> {
    if s.contains(c) {
        let i = choose|i: int| is_first_index(s, c, i);
        Some((s.take(i), s.skip(i + 1)))
    } else {
        None
    }
}

/// `s.split(c).next()`: the text before the first `c`, or all of `s`.
pub open spec fn first_segment_spec(s: Seq<char>, c: char) -> Seq<char> {
    match split_once_spec(s, c) {
        Some((a, _)) => a,
        None => s,
    }
}

/// The first index is unique.
pub proof fn lemma_first_index_unique(s: Seq<char>, c: char, i: int, j: int)
    requires
        is_first_index(s, c, i),
        is_first_index(s, c, j),
    ensures
        i == j,
{
}

/// The position of the first `c` in `s`.
pub fn find_char(s: &str, c: char) -> (r: Option<usize>)
    ensures
        r matches Some(i) ==> is_first_index(s@, c, i as int),
        r is None ==> !s@.contains(c),
{
    let n = s.unicode_len();
    let mut i: usize = 0;
    while i < n
        invariant
            n == s@.len(),
            i <= n,
            forall|j: int| 0 <= j < i ==> s@[j] != c,
        decreases n - i,
    {
        if s.get_char(i) == c {
            return Some(i);
        }
        i = i + 1;
    }
    None
}

/// `s.split_once(c)`, the two parts owned.
pub fn split_once(s: &str, c: char) -> (r: Option<(String, String)>)
    ensures
        match r {
            Some((a, b)) => split_once_spec(s@, c) == Some((a@, b@)),
            None => split_once_spec(s@, c) is None,
        },
{
    match find_char(s, c) {
        Some(i) => {
            let n = s.unicode_len();
            let a = s.substring_char(0, i).to_owned();
            let b = s.substring_char(i + 1, n).to_owned();
            proof {
                assert(s@.contains(c)) by {
                    assert(s@[i as int] == c);
                }
                let k = choose|k: int| is_first_index(s@, c, k);
                lemma_first_index_unique(s@, c, i as int, k);
                assert(a@ =~= s@.take(i as int));
                assert(b@ =~= s@.skip(i as int + 1));
            }
            Some((a, b))
        },
        None => None,
    }
}

/// `s.split(c).next()`, owned: the text before the first `c`, or all of `s`.
pub fn first_segment(s: &str, c: char) -> (r: String)
    ensures
        r@ == first_segment_spec(s@, c),
{
    match split_once(s, c) {
        Some((a, _)) => a,
        None => s.to_owned(),
    }
}

/// `s.strip_prefix(p)`, owned.
pub fn strip_prefix(s: &str, p: &str) -> (r: Option<String>)
    ensures
        r is Some == (p@.len() <= s@.len() && s@.take(p@.len() as int) == p@),
        r matches Some(t) ==> t@ == s@.skip(p@.len() as int),
{
    let n = s.unicode_len();
    let m = p.unicode_len();
    if m > n {
        return None;
    }
    let head = s.substring_char(0, m).to_owned();
    let pp = p.to_owned();
    if head == pp {
        let t = s.substring_char(m, n).to_owned();
        assert(head@ =~= s@.take(m as int));
        assert(t@ =~= s@.skip(m as int));
        Some(t)
    } else {
        assert(head@ =~= s@.take(m as int));
        None
    }
}

/// Whether two strings are the same text.
pub fn same_text(a: &str, b: &str) -> (r: bool)
    ensures
        r == (a@ == b@),
{
    let x = a.to_owned();
    let y = b.to_owned();
    x == y
}

/// A decimal rendering holds no `c` that is not a digit.
pub proof fn lemma_decimal_lacks(n: nat, c: char)
    requires
        !is_digit(c),
    ensures
        !decimal(n).contains(c),
{
    lemma_decimal_digits(n);
    if decimal(n).contains(c) {
        let k = choose|k: int| 0 <= k < decimal(n).len() && decimal(n)[k] == c;
        assert(is_digit(decimal(n)[k]));
    }
}

/// The text `decimal(n) + sep + rest` splits at `sep` into `decimal(n)` and `rest`.
pub proof fn lemma_split_after_decimal(n: nat, sep: char, rest: Seq<char>)
    requires
        !is_digit(sep),
    ensures
        split_once_spec(decimal(n) + seq![sep] + rest, sep) == Some((decimal(n), rest)),
{
    let d = decimal(n);
    let s = d + seq![sep] + rest;
    lemma_decimal_lacks(n, sep);
    assert(is_first_index(s, sep, d.len() as int)) by {
        assert forall|j: int| 0 <= j < d.len() implies s[j] != sep by {
            assert(s[j] == d[j]);
        }
    }
    assert(s.contains(sep)) by {
        assert(s[d.len() as int] == sep);
    }
    let i = choose|i: int| is_first_index(s, sep, i);
    lemma_first_index_unique(s, sep, i, d.len() as int);
    assert(s.take(i) =~= d);
    assert(s.skip(i + 1) =~= rest);
}

} // verus!
