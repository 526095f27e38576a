//! Compute capabilities in the output of the toolkit's programs.

use vstd::prelude::*;

use crate::text::{chars_of, decimal, digit_char, signed_decimal};

verus! {

/// White space, as Unicode defines it.
pub open spec fn is_space(c: char) -> bool {
    let u = c as u32;
    ||| 0x9 <= u <= 0xd
    ||| u == 0x20
    ||| u == 0x85
    ||| u == 0xa0
    ||| u == 0x1680
    ||| 0x2000 <= u <= 0x200a
    ||| u == 0x2028
    ||| u == 0x2029
    ||| u == 0x202f
    ||| u == 0x205f
    ||| u == 0x3000
}

fn space(c: char) -> (r: bool)
    ensures
        r == is_space(c),
{
    let u: u32 = c as u32;
    (0x9 <= u && u <= 0xd) || u == 0x20 || u == 0x85 || u == 0xa0 || u == 0x1680 || (0x2000 <= u
        && u <= 0x200a) || u == 0x2028 || u == 0x2029 || u == 0x202f || u == 0x205f || u == 0x3000
}

/// A decimal digit.
pub open spec fn is_digit(c: char) -> bool {
    '0' <= c <= '9'
}

/// The value of a decimal digit.
pub open spec fn digit_value(c: char) -> int {
    c as u32 - '0' as u32
}

/// Whether there are only digits.
pub open spec fn all_digits(s: Seq<char>) -> bool {
    forall|k: int| 0 <= k < s.len() ==> is_digit(#[trigger] s[k])
}

/// The value of digits.
pub open spec fn digits_value(s: Seq<char>) -> int
    decreases s.len(),
{
    if s.len() == 0 {
        0
    } else {
        10 * digits_value(s.drop_last()) + digit_value(s.last())
    }
}

/// The number that digits stand for, where there are some and it fits into 32 bits.
pub open spec fn number_of(s: Seq<char>) -> Option<u32> {
    if s.len() > 0 && all_digits(s) && digits_value(s) <= u32::MAX {
        Some(digits_value(s) as u32)
    } else {
        None
    }
}

/// Where white space at the start ends.
pub open spec fn leading(s: Seq<char>) -> int
    decreases s.len(),
{
    if s.len() > 0 && is_space(s[0]) {
        1 + leading(s.drop_first())
    } else {
        0
    }
}

/// How long a text is without white space at its end.
pub open spec fn trailing(s: Seq<char>) -> int
    decreases s.len(),
{
    if s.len() > 0 && is_space(s.last()) {
        trailing(s.drop_last())
    } else {
        s.len() as int
    }
}

/// A text without white space at its ends.
pub open spec fn trimmed(s: Seq<char>) -> Seq<char> {
    let front = s.skip(leading(s));
    front.take(trailing(front))
}

/// The first place of a character.
pub open spec fn first_place(s: Seq<char>, c: char) -> Option<int>
    decreases s.len(),
{
    if s.len() == 0 {
        None
    } else if s[0] == c {
        Some(0)
    } else {
        match first_place(s.drop_first(), c) {
            Some(k) => Some(k + 1),
            None => None,
        }
    }
}

/// The capability that a trimmed text names: digits, a dot and digits give the number of all the
/// digits, so that `12.0` is 120.
pub open spec fn capability_of(s: Seq<char>) -> Option<u32> {
    match first_place(s, '.') {
        Some(k) => {
            let major = s.take(k);
            let minor = s.skip(k + 1);
            if major.len() > 0 && minor.len() > 0 && all_digits(major) && all_digits(minor) {
                number_of(major + minor)
            } else {
                None
            }
        },
        None => None,
    }
}

/// The word before a listed capability.
pub open spec fn listed_prefix() -> Seq<char> {
    seq!['c', 'o', 'm', 'p', 'u', 't', 'e', '_']
}

/// The capability that a trimmed line of a listing names: the number behind `compute_`. One with
/// a suffix is no number and names none.
pub open spec fn listed_capability_of(s: Seq<char>) -> Option<u32> {
    let n = listed_prefix().len() as int;
    if s.len() >= n && s.take(n) == listed_prefix() {
        let rest = s.skip(n);
        if rest.len() > 0 && rest[0] == '+' {
            number_of(rest.skip(1))
        } else {
            number_of(rest)
        }
    } else {
        None
    }
}

proof fn lemma_leading(s: Seq<char>)
    ensures
        0 <= leading(s) <= s.len(),
    decreases s.len(),
{
    if s.len() > 0 && is_space(s[0]) {
        lemma_leading(s.drop_first());
    }
}

proof fn lemma_leading_skips(s: Seq<char>, n: int)
    requires
        0 <= n <= s.len(),
        forall|k: int| 0 <= k < n ==> is_space(#[trigger] s[k]),
        n < s.len() ==> !is_space(s[n]),
    ensures
        leading(s) == n,
    decreases s.len(),
{
    if n > 0 {
        let rest = s.drop_first();
        assert forall|k: int| 0 <= k < n - 1 implies is_space(#[trigger] rest[k]) by {
            assert(rest[k] == s[k + 1]);
        }
        lemma_leading_skips(rest, n - 1);
    }
}

proof fn lemma_trailing_skips(s: Seq<char>, n: int)
    requires
        0 <= n <= s.len(),
        forall|k: int| n <= k < s.len() ==> is_space(#[trigger] s[k]),
        n > 0 ==> !is_space(s[n - 1]),
    ensures
        trailing(s) == n,
    decreases s.len(),
{
    if n < s.len() {
        let rest = s.drop_last();
        assert forall|k: int| n <= k < rest.len() implies is_space(#[trigger] rest[k]) by {
            assert(rest[k] == s[k]);
        }
        lemma_trailing_skips(rest, n);
    }
}

/// The bounds of a stretch of characters without white space at its ends.
fn trim(s: &Vec<char>, from: usize, to: usize) -> (r: (usize, usize))
    requires
        from <= to <= s@.len(),
    ensures
        from <= r.0 <= r.1 <= to,
        s@.subrange(r.0 as int, r.1 as int) == trimmed(s@.subrange(from as int, to as int)),
{
    let ghost part = s@.subrange(from as int, to as int);
    let mut lo: usize = from;
    while lo < to && space(s[lo])
        invariant
            from <= lo <= to <= s@.len(),
            part == s@.subrange(from as int, to as int),
            forall|k: int| 0 <= k < lo - from ==> is_space(#[trigger] part[k]),
        decreases to - lo,
    {
        lo += 1;
    }
    let ghost front = part.skip(lo - from);
    let mut hi: usize = to;
    while hi > lo && space(s[hi - 1])
        invariant
            from <= lo <= hi <= to <= s@.len(),
            part == s@.subrange(from as int, to as int),
            front == part.skip(lo - from),
            forall|k: int| hi - lo <= k < front.len() ==> is_space(#[trigger] front[k]),
        decreases hi - lo,
    {
        hi -= 1;
    }
    proof {
        if lo < to {
            assert(part[lo - from] == s@[lo as int]);
        }
        lemma_leading_skips(part, lo - from);
        if hi > lo {
            assert(front[hi - lo - 1] == s@[hi - 1]);
        }
        lemma_trailing_skips(front, hi - lo);
        assert(s@.subrange(lo as int, hi as int) =~= front.take(hi - lo));
    }
    (lo, hi)
}

/// Digits with more digits behind them are worth no less.
proof fn lemma_digits_value_prefix(s: Seq<char>, n: int)
    requires
        all_digits(s),
        0 <= n <= s.len(),
    ensures
        0 <= digits_value(s.take(n)) <= digits_value(s),
    decreases s.len(),
{
    if n < s.len() {
        let rest = s.drop_last();
        assert forall|k: int| 0 <= k < rest.len() implies is_digit(#[trigger] rest[k]) by {
            assert(rest[k] == s[k]);
        }
        assert(is_digit(s[s.len() - 1]));
        lemma_digits_value_prefix(rest, n);
        assert(rest.take(n) =~= s.take(n));
    } else {
        assert(s.take(n) =~= s);
        if s.len() > 0 {
            let rest = s.drop_last();
            assert forall|k: int| 0 <= k < rest.len() implies is_digit(#[trigger] rest[k]) by {
                assert(rest[k] == s[k]);
            }
            lemma_digits_value_prefix(rest, rest.len() as int);
            assert(rest.take(rest.len() as int) =~= rest);
            assert(is_digit(s[s.len() - 1]));
        }
    }
}

/// The number that characters stand for.
fn parse_number(s: &Vec<char>) -> (r: Option<u32>)
    ensures
        r == number_of(s@),
{
    if s.len() == 0 {
        return None;
    }
    let mut i: usize = 0;
    while i < s.len()
        invariant
            i <= s@.len(),
            forall|k: int| 0 <= k < i ==> is_digit(#[trigger] s@[k]),
        decreases s@.len() - i,
    {
        if s[i] < '0' || s[i] > '9' {
            assert(!is_digit(s@[i as int]));
            return None;
        }
        i += 1;
    }
    assert(all_digits(s@));
    let mut v: u64 = 0;
    let mut i: usize = 0;
    assert(s@.take(0) =~= seq![]);
    while i < s.len()
        invariant
            i <= s@.len(),
            all_digits(s@),
            v == digits_value(s@.take(i as int)),
            v <= u32::MAX,
        decreases s@.len() - i,
    {
        assert(is_digit(s@[i as int]));
        let d: u64 = (s[i] as u32 - 48) as u64;
        v = 10 * v + d;
        proof {
            let more = s@.take(i + 1);
            assert(more.drop_last() =~= s@.take(i as int));
            lemma_digits_value_prefix(s@, i + 1);
        }
        if v > u32::MAX as u64 {
            return None;
        }
        i += 1;
    }
    assert(s@.take(i as int) =~= s@);
    Some(v as u32)
}

fn piece(s: &Vec<char>, from: usize, to: usize) -> (r: Vec<char>)
    requires
        from <= to <= s@.len(),
    ensures
        r@ == s@.subrange(from as int, to as int),
{
    let mut out: Vec<char> = Vec::new();
    let mut i: usize = from;
    assert(out@ =~= s@.subrange(from as int, from as int));
    while i < to
        invariant
            from <= i <= to <= s@.len(),
            out@ == s@.subrange(from as int, i as int),
        decreases to - i,
    {
        out.push(s[i]);
        assert(out@ =~= s@.subrange(from as int, i + 1));
        i += 1;
    }
    out
}

pub(crate) fn only_digits(s: &Vec<char>) -> (r: bool)
    ensures
        r == all_digits(s@),
{
    let mut i: usize = 0;
    while i < s.len()
        invariant
            i <= s@.len(),
            forall|k: int| 0 <= k < i ==> is_digit(#[trigger] s@[k]),
        decreases s@.len() - i,
    {
        if s[i] < '0' || s[i] > '9' {
            assert(!is_digit(s@[i as int]));
            return false;
        }
        i += 1;
    }
    true
}

proof fn lemma_first_place(s: Seq<char>, c: char, n: int)
    requires
        0 <= n <= s.len(),
        forall|k: int| 0 <= k < n ==> #[trigger] s[k] != c,
    ensures
        n == s.len() ==> first_place(s, c) is None,
        n < s.len() && s[n] == c ==> first_place(s, c) == Some(n),
    decreases s.len(),
{
    if n > 0 {
        let rest = s.drop_first();
        assert forall|k: int| 0 <= k < n - 1 implies #[trigger] rest[k] != c by {
            assert(rest[k] == s[k + 1]);
        }
        lemma_first_place(rest, c, n - 1);
    }
}

/// The capability that characters without white space at their ends name.
fn capability_in(s: &Vec<char>) -> (r: Option<u32>)
    ensures
        r == capability_of(s@),
{
    let len: usize = s.len();
    let mut k: usize = 0;
    while k < len && s[k] != '.'
        invariant
            len == s@.len(),
            k <= len,
            forall|j: int| 0 <= j < k ==> #[trigger] s@[j] != '.',
        decreases len - k,
    {
        k += 1;
    }
    proof {
        lemma_first_place(s@, '.', k as int);
    }
    if k == len {
        return None;
    }
    let mut major = piece(s, 0, k);
    let mut minor = piece(s, k + 1, len);
    assert(major@ =~= s@.take(k as int));
    assert(minor@ =~= s@.skip(k + 1));
    if major.len() == 0 || minor.len() == 0 || !only_digits(&major) || !only_digits(&minor) {
        return None;
    }
    let ghost joined = major@ + minor@;
    major.append(&mut minor);
    assert(major@ =~= joined);
    parse_number(&major)
}

/// The listed capability that characters without white space at their ends name.
fn listed_capability_in(s: &Vec<char>) -> (r: Option<u32>)
    ensures
        r == listed_capability_of(s@),
{
    let len: usize = s.len();
    if len < 8 || s[0] != 'c' || s[1] != 'o' || s[2] != 'm' || s[3] != 'p' || s[4] != 'u' || s[5]
        != 't' || s[6] != 'e' || s[7] != '_' {
        proof {
            if len >= 8 {
                let head = s@.take(8);
                assert(head[0] == s@[0] && head[1] == s@[1] && head[2] == s@[2] && head[3] == s@[3]
                    && head[4] == s@[4] && head[5] == s@[5] && head[6] == s@[6] && head[7]
                    == s@[7]);
                let p = listed_prefix();
                assert(p[0] == 'c' && p[1] == 'o' && p[2] == 'm' && p[3] == 'p' && p[4] == 'u'
                    && p[5] == 't' && p[6] == 'e' && p[7] == '_');
            }
        }
        return None;
    }
    assert(s@.take(8) =~= listed_prefix());
    let from: usize = if len > 8 && s[8] == '+' {
        9
    } else {
        8
    };
    let rest = piece(s, from, len);
    proof {
        if from == 9 {
            assert(rest@ =~= s@.skip(8).skip(1));
        } else {
            assert(rest@ =~= s@.skip(8));
        }
    }
    parse_number(&rest)
}

/// The capability that a text names, such as `12.0` for 120.
pub fn parse_compute_capability(value: &str) -> (r: Option<u32>)
    ensures
        r == capability_of(trimmed(value@)),
{
    let chars = chars_of(value);
    let (lo, hi) = trim(&chars, 0, chars.len());
    assert(chars@.subrange(0, chars@.len() as int) =~= chars@);
    capability_in(&piece(&chars, lo, hi))
}

/// Whether `from..to` is a line of a text: it starts at the start or behind a line break, ends at
/// the end or at a line break, and has none in it.
pub open spec fn is_line(text: Seq<char>, from: int, to: int) -> bool {
    &&& 0 <= from <= to <= text.len()
    &&& from > 0 ==> text[from - 1] == '\n'
    &&& to < text.len() ==> text[to] == '\n'
    &&& forall|k: int| from <= k < to ==> #[trigger] text[k] != '\n'
}

/// What a line names.
pub open spec fn line_value(text: Seq<char>, from: int, to: int, listed: bool) -> Option<u32> {
    let line = trimmed(text.subrange(from, to));
    if listed {
        listed_capability_of(line)
    } else {
        capability_of(line)
    }
}

/// Whether `best` is the lowest number that a line before `end` names, or the highest where
/// `listed` says so; none where no line names one.
pub open spec fn is_best(text: Seq<char>, end: int, listed: bool, best: Option<u32>) -> bool {
    match best {
        Some(v) => {
            &&& exists|from: int, to: int|
                to < end && #[trigger] is_line(text, from, to) && line_value(
                    text,
                    from,
                    to,
                    listed,
                ) == Some(v)
            &&& forall|from: int, to: int|
                to < end && #[trigger] is_line(text, from, to) ==> match line_value(
                    text,
                    from,
                    to,
                    listed,
                ) {
                    Some(w) => if listed {
                        w <= v
                    } else {
                        v <= w
                    },
                    None => true,
                }
        },
        None => forall|from: int, to: int|
            to < end && #[trigger] is_line(text, from, to) ==> line_value(
                text,
                from,
                to,
                listed,
            ) is None,
    }
}

/// The lowest or highest number that a line names.
fn best_line(text: &Vec<char>, listed: bool) -> (r: Option<u32>)
    ensures
        is_best(text@, text@.len() as int + 1, listed, r),
{
    let len: usize = text.len();
    let mut best: Option<u32> = None;
    let mut from: usize = 0;
    let ghost t = text@;
    loop
        invariant
            len == t.len(),
            t == text@,
            from <= len,
            from > 0 ==> t[from - 1] == '\n',
            is_best(t, from as int, listed, best),
        decreases len - from,
    {
        let mut to: usize = from;
        while to < len && text[to] != '\n'
            invariant
                len == t.len(),
                t == text@,
                from <= to <= len,
                forall|k: int| from <= k < to ==> #[trigger] t[k] != '\n',
            decreases len - to,
        {
            to += 1;
        }
        let (lo, hi) = trim(text, from, to);
        let line = piece(text, lo, hi);
        let value = if listed {
            listed_capability_in(&line)
        } else {
            capability_in(&line)
        };
        let ghost before = best;
        best = match (best, value) {
            (Some(b), Some(v)) => if (listed && v > b) || (!listed && v < b) {
                Some(v)
            } else {
                Some(b)
            },
            (Some(b), None) => Some(b),
            (None, v) => v,
        };
        proof {
            assert(is_line(t, from as int, to as int));
            assert(value == line_value(t, from as int, to as int, listed));
            // A line that ends before the next one starts ended before, or is this one.
            assert forall|f: int, e: int| e < to + 1 && #[trigger] is_line(t, f, e) implies (e
                < from || (f == from && e == to)) by {
                if e >= from {
                    if f < from {
                        assert(t[from - 1] == '\n');
                    } else if f > from {
                        assert(t[f - 1] == '\n');
                    }
                    if e < to {
                        assert(t[e] == '\n');
                    }
                }
            }
            assert(is_best(t, to + 1, listed, best)) by {
                match best {
                    Some(v) => {
                        if value == best {
                            assert(is_line(t, from as int, to as int));
                        } else {
                            assert(before == best);
                            let (f, e) = choose|f: int, e: int|
                                e < from && #[trigger] is_line(t, f, e) && line_value(
                                    t,
                                    f,
                                    e,
                                    listed,
                                ) == Some(v);
                            assert(is_line(t, f, e) && e < to + 1);
                        }
                    },
                    None => {},
                }
            }
        }
        if to == len {
            return best;
        }
        from = to + 1;
    }
}

/// The lowest capability that a line of the output names. Code for the lowest one runs on every
/// device.
pub fn minimum_compute_capability(stdout: &str) -> (r: Option<u32>)
    ensures
        is_best(stdout@, stdout@.len() as int + 1, false, r),
{
    let chars = chars_of(stdout);
    best_line(&chars, false)
}

/// The highest capability that a line of the listing names.
pub fn max_listed_compute_capability(stdout: &str) -> (r: Option<u32>)
    ensures
        is_best(stdout@, stdout@.len() as int + 1, true, r),
{
    let chars = chars_of(stdout);
    best_line(&chars, true)
}

/// Decimal text is the number it is read as: digits only, the first of them no zero unless it is
/// the only one. A negative number has a minus sign in front.
pub proof fn decimals_read_back(n: nat)
    ensures
        all_digits(decimal(n)),
        digits_value(decimal(n)) == n,
        n > 0 ==> decimal(n)[0] != '0',
        n <= u32::MAX ==> number_of(decimal(n)) == Some(n as u32),
        signed_decimal(n as int) == decimal(n),
        n > 0 ==> signed_decimal(-(n as int)) == seq!['-'] + decimal(n),
        forall|c: char| #[trigger] is_digit(c) <==> 48 <= c as int <= 57,
        forall|c: char| is_digit(c) ==> #[trigger] digit_value(c) == c as int - 48,
    decreases n,
{
    if n < 10 {
        let c = digit_char(n);
        assert(seq![c].drop_last() =~= Seq::<char>::empty());
        assert(digits_value(Seq::<char>::empty()) == 0);
        assert(c as int == 48 + n);
        assert(digits_value(seq![c]) == n);
    } else {
        decimals_read_back(n / 10);
        let front = decimal(n / 10);
        let c = digit_char(n % 10);
        assert(c as int == 48 + n % 10);
        assert(front.push(c).drop_last() =~= front);
        assert(decimal(n)[0] == front[0]);
    }
}

proof fn lemma_place_is_first(s: Seq<char>, c: char)
    ensures
        match first_place(s, c) {
            Some(k) => 0 <= k < s.len() && s[k] == c && forall|j: int| 0 <= j < k ==> s[j] != c,
            None => forall|j: int| 0 <= j < s.len() ==> s[j] != c,
        },
    decreases s.len(),
{
    if s.len() > 0 && s[0] != c {
        let rest = s.drop_first();
        lemma_place_is_first(rest, c);
        assert forall|j: int| 0 < j < s.len() implies s[j] == rest[j - 1] by {}
        if first_place(rest, c) is None {
            assert forall|j: int| 0 <= j < s.len() implies s[j] != c by {
                if j > 0 {
                    assert(rest[j - 1] != c);
                }
            }
        } else {
            let k = first_place(rest, c)->Some_0;
            assert forall|j: int| 0 <= j < k + 1 implies s[j] != c by {
                if j > 0 {
                    assert(rest[j - 1] != c);
                }
            }
        }
    }
}

/// A capability written with a dot names ten times its first number plus the digit behind the dot,
/// and one behind the word of the listing names its number.
pub proof fn written_capabilities_read_back(major: nat, minor: nat, listed: nat)
    requires
        minor < 10,
        10 * major + minor <= u32::MAX,
        listed <= u32::MAX,
    ensures
        capability_of(decimal(major) + seq!['.'] + decimal(minor)) == Some(
            (10 * major + minor) as u32,
        ),
        listed_capability_of("compute_"@ + decimal(listed)) == Some(listed as u32),
{
    decimals_read_back(major);
    decimals_read_back(minor);
    decimals_read_back(listed);
    let (a, b) = (decimal(major), decimal(minor));
    let s = a + seq!['.'] + b;
    lemma_place_is_first(s, '.');
    crate::text::lemma_decimal(major);
    assert forall|j: int| 0 <= j < a.len() implies s[j] != '.' by {
        assert(is_digit(a[j]));
        assert(s[j] == a[j]);
    }
    assert(s[a.len() as int] == '.');
    assert(first_place(s, '.') == Some(a.len() as int));
    assert(s.take(a.len() as int) =~= a);
    assert(s.skip(a.len() as int + 1) =~= b);
    assert((a + b).drop_last() =~= a);
    assert((a + b).last() == b[0]);
    assert forall|j: int| 0 <= j < (a + b).len() implies is_digit(#[trigger] (a + b)[j]) by {
        if j < a.len() {
            assert(is_digit(a[j]));
        } else {
            assert(is_digit(b[j - a.len()]));
        }
    }
    assert(digit_value(b[0]) == minor);
    reveal_strlit("compute_");
    let word = "compute_"@;
    assert(word =~= listed_prefix());
    let line = word + decimal(listed);
    assert(line.take(8) =~= listed_prefix());
    assert(line.skip(8) =~= decimal(listed));
    crate::text::lemma_decimal(listed);
    assert(is_digit(decimal(listed)[0]));
}

/// Trimming takes white space off both ends and nothing else.
pub proof fn trimming_takes_white_space_off(s: Seq<char>)
    ensures
        ({
            let t = trimmed(s);
            let from = leading(s);
            &&& 0 <= from <= from + t.len() <= s.len()
            &&& t == s.subrange(from, from + t.len())
            &&& forall|k: int| 0 <= k < from ==> is_space(#[trigger] s[k])
            &&& forall|k: int| from + t.len() <= k < s.len() ==> is_space(#[trigger] s[k])
            &&& t.len() > 0 ==> !is_space(t[0]) && !is_space(t.last())
        }),
{
    lemma_leading_is_space(s);
    let front = s.skip(leading(s));
    lemma_trailing_is_space(front);
    let t = trimmed(s);
    assert(t =~= s.subrange(leading(s), leading(s) + t.len()));
    assert forall|k: int| leading(s) + t.len() <= k < s.len() implies is_space(#[trigger] s[k]) by {
        assert(front[k - leading(s)] == s[k]);
    }
}

proof fn lemma_leading_is_space(s: Seq<char>)
    ensures
        0 <= leading(s) <= s.len(),
        forall|k: int| 0 <= k < leading(s) ==> is_space(#[trigger] s[k]),
        leading(s) < s.len() ==> !is_space(s[leading(s)]),
    decreases s.len(),
{
    if s.len() > 0 && is_space(s[0]) {
        let rest = s.drop_first();
        lemma_leading_is_space(rest);
        assert forall|k: int| 0 <= k < leading(s) implies is_space(#[trigger] s[k]) by {
            if k > 0 {
                assert(rest[k - 1] == s[k]);
            }
        }
        if leading(s) < s.len() {
            assert(rest[leading(rest)] == s[leading(s)]);
        }
    }
}

proof fn lemma_trailing_is_space(s: Seq<char>)
    ensures
        0 <= trailing(s) <= s.len(),
        forall|k: int| trailing(s) <= k < s.len() ==> is_space(#[trigger] s[k]),
        trailing(s) > 0 ==> !is_space(s[trailing(s) - 1]),
    decreases s.len(),
{
    if s.len() > 0 && is_space(s.last()) {
        let rest = s.drop_last();
        lemma_trailing_is_space(rest);
        assert forall|k: int| trailing(s) <= k < s.len() implies is_space(#[trigger] s[k]) by {
            if k < s.len() - 1 {
                assert(rest[k] == s[k]);
            }
        }
    }
}

/// Of the processors that are there the lowest capability counts, and of those that a compiler
/// lists the highest. There is one as soon as a line names one.
pub proof fn the_lowest_found_and_the_highest_listed_count(
    text: Seq<char>,
    found: Option<u32>,
    listed: Option<u32>,
    from: int,
    to: int,
)
    requires
        is_best(text, text.len() as int + 1, false, found),
        is_best(text, text.len() as int + 1, true, listed),
        is_line(text, from, to),
    ensures
        ({
            let line = trimmed(text.subrange(from, to));
            &&& capability_of(line) matches Some(w) ==> found matches Some(v) && v <= w
            &&& listed_capability_of(line) matches Some(w) ==> listed matches Some(v) && v >= w
        }),
{
    assert(line_value(text, from, to, false) == capability_of(trimmed(text.subrange(from, to))));
    assert(line_value(text, from, to, true) == listed_capability_of(
        trimmed(text.subrange(from, to)),
    ));
}

/// Only digits, a dot and digits are read as a capability, and only the listing's word and a number
/// as a listed one.
pub proof fn nothing_else_is_read(line: Seq<char>)
    ensures
        capability_of(line) is Some ==> exists|k: int|
            0 < k < line.len() - 1 && #[trigger] line[k] == '.' && forall|j: int|
                0 <= j < line.len() && j != k ==> '0' <= #[trigger] line[j] <= '9',
        listed_capability_of(line) is Some ==> {
            &&& line.len() > 8
            &&& line.take(8) == "compute_"@
            &&& '0' <= line[8] <= '9' || (line[8] == '+' && line.len() > 9)
            &&& forall|j: int| 9 <= j < line.len() ==> '0' <= #[trigger] line[j] <= '9'
        },
{
    reveal_strlit("compute_");
    assert("compute_"@ =~= listed_prefix());
    if capability_of(line) is Some {
        let k = first_place(line, '.')->Some_0;
        lemma_place_is_first(line, '.');
        let (major, minor) = (line.take(k), line.skip(k + 1));
        assert(line[k] == '.');
        assert forall|j: int| 0 <= j < line.len() && j != k implies '0' <= #[trigger] line[j]
            <= '9' by {
            if j < k {
                assert(is_digit(major[j]));
            } else {
                assert(is_digit(minor[j - k - 1]));
            }
        }
    }
    if listed_capability_of(line) is Some {
        let rest = line.skip(8);
        let digits = if rest.len() > 0 && rest[0] == '+' {
            rest.skip(1)
        } else {
            rest
        };
        assert forall|j: int| 9 <= j < line.len() implies '0' <= #[trigger] line[j] <= '9' by {
            if digits == rest {
                assert(is_digit(digits[j - 8]));
            } else {
                assert(is_digit(digits[j - 9]));
            }
        }
        assert(is_digit(digits[0]));
    }
}

/// A text is a line where no line ends in it, and the text behind a line's end is one too: the last
/// line counts though nothing ends it.
pub proof fn the_last_line_counts(before: Seq<char>, line: Seq<char>)
    requires
        forall|k: int| 0 <= k < line.len() ==> line[k] != '\n',
    ensures
        is_line(line, 0, line.len() as int),
        ({
            let text = before + seq!['\n'] + line;
            is_line(text, before.len() as int + 1, text.len() as int)
        }),
        ({
            let text = line + seq!['\n'] + before;
            is_line(text, 0, line.len() as int)
        }),
{
    let text = before + seq!['\n'] + line;
    let start = before.len() as int + 1;
    assert(text[start - 1] == '\n');
    assert forall|k: int| start <= k < text.len() implies #[trigger] text[k] != '\n' by {
        assert(text[k] == line[k - start]);
    }
    let first = line + seq!['\n'] + before;
    assert(first[line.len() as int] == '\n');
    assert forall|k: int| 0 <= k < line.len() implies #[trigger] first[k] != '\n' by {
        assert(first[k] == line[k]);
    }
}

} // verus!
