//! Character-level text handling: whitespace trimming, searching for a
//! separator, splitting, and the decimal form of 16-bit numbers.
//!
//! Strings are handled through their sequence of characters (`s@`), the
//! same sequence that `str::chars` walks.
use vstd::prelude::*;

verus! {

// ---------------------------------------------------------------------
// Specifications
// ---------------------------------------------------------------------

/// Unicode `White_Space`, the property that `char::is_whitespace` tests.
pub open spec fn is_whitespace(c: char) -> bool {
    let u = c as u32;
    ||| 0x09 <= u <= 0x0D
    ||| u == 0x20
    ||| u == 0x85
    ||| u == 0xA0
    ||| u == 0x1680
    ||| 0x2000 <= u <= 0x200A
    ||| u == 0x2028
    ||| u == 0x2029
    ||| u == 0x202F
    ||| u == 0x205F
    ||| u == 0x3000
}

/// `s` without its leading whitespace.
pub open spec fn trim_start(s: Seq<char>) -> Seq<char>
    decreases s.len(),
{
    if s.len() > 0 && is_whitespace(s[0]) {
        trim_start(s.drop_first())
    } else {
        s
    }
}

/// `s` without its trailing whitespace.
pub open spec fn trim_end(s: Seq<char>) -> Seq<char>
    decreases s.len(),
{
    if s.len() > 0 && is_whitespace(s.last()) {
        trim_end(s.drop_last())
    } else {
        s
    }
}

/// `s` without leading and trailing whitespace, as `str::trim` gives it.
pub open spec fn trim(s: Seq<char>) -> Seq<char> {
    trim_end(trim_start(s))
}

/// Index of the first occurrence of `c` in `s`.
pub open spec fn find_first(s: Seq<char>, c: char) -> Option<int>
    decreases s.len(),
{
    if s.len() == 0 {
        None
    } else if s[0] == c {
        Some(0)
    } else {
        match find_first(s.drop_first(), c) {
            Some(i) => Some(i + 1),
            None => None,
        }
    }
}

/// Index of the last occurrence of `c` in `s`.
pub open spec fn find_last(s: Seq<char>, c: char) -> Option<int>
    decreases s.len(),
{
    if s.len() == 0 {
        None
    } else if s.last() == c {
        Some(s.len() - 1)
    } else {
        find_last(s.drop_last(), c)
    }
}

/// The text before and after the first `c`, as `str::split_once` gives them.
pub open spec fn split_once(s: Seq<char>, c: char) -> Option<(Seq<char>, Seq<char>)> {
    match find_first(s, c) {
        Some(i) => Some((s.take(i), s.skip(i + 1))),
        None => None,
    }
}

/// The text before and after the last `c`, as `str::rsplit_once` gives them.
pub open spec fn rsplit_once(s: Seq<char>, c: char) -> Option<(Seq<char>, Seq<char>)> {
    match find_last(s, c) {
        Some(i) => Some((s.take(i), s.skip(i + 1))),
        None => None,
    }
}

/// The pieces of `s` between occurrences of `sep`, as `str::split` yields
/// them: `k` separators give `k + 1` pieces, empty ones included.
pub open spec fn split(s: Seq<char>, sep: char) -> Seq<Seq<char>>
    decreases s.len(),
{
    if s.len() == 0 {
        seq![Seq::<char>::empty()]
    } else {
        let r = split(s.drop_last(), sep);
        if s.last() == sep {
            r.push(Seq::<char>::empty())
        } else {
            r.update(r.len() - 1, r.last().push(s.last()))
        }
    }
}

/// An ASCII decimal digit.
pub open spec fn is_digit(c: char) -> bool {
    '0' <= c <= '9'
}

/// The value of the digit `c`.
pub open spec fn digit_value(c: char) -> nat {
    ((c as u32) - ('0' as u32)) as nat
}

/// The digit of value `d`, for `d` below 10.
pub open spec fn digit_char(d: nat) -> char {
    ((d + ('0' as u32)) as u32) as char
}

/// Value of a string of decimal digits (most significant first).
pub open spec fn digits_value(s: Seq<char>) -> nat
    decreases s.len(),
{
    if s.len() == 0 {
        0
    } else {
        digits_value(s.drop_last()) * 10 + digit_value(s.last())
    }
}

/// Every character of `s` is a decimal digit.
pub open spec fn all_digits(s: Seq<char>) -> bool {
    forall|i: int| 0 <= i < s.len() ==> #[trigger] is_digit(s[i])
}

/// The digits that follow an optional leading `+`.
pub open spec fn unsigned_digits(s: Seq<char>) -> Seq<char> {
    if s.len() > 0 && s[0] == '+' {
        s.drop_first()
    } else {
        s
    }
}

/// What `str::parse::<u16>` accepts: an optional `+`, then at least one
/// decimal digit, with a value that fits in 16 bits.
pub open spec fn parse_u16(s: Seq<char>) -> Option<u16> {
    let d = unsigned_digits(s);
    if d.len() > 0 && all_digits(d) && digits_value(d) <= u16::MAX {
        Some(digits_value(d) as u16)
    } else {
        None
    }
}

/// Shortest decimal form of `n`, as `Display` writes an unsigned integer.
pub open spec fn decimal(n: nat) -> Seq<char>
    decreases n,
{
    if n < 10 {
        seq![digit_char(n)]
    } else {
        decimal(n / 10).push(digit_char(n % 10))
    }
}

// ---------------------------------------------------------------------
// Lemmas
// ---------------------------------------------------------------------

/// Dropping `a` leading whitespace characters, up to one that is not, is
/// trimming the start.
pub proof fn lemma_trim_start_skip(s: Seq<char>, a: int)
    requires
        0 <= a <= s.len(),
        forall|j: int| 0 <= j < a ==> #[trigger] is_whitespace(s[j]),
        a == s.len() || !is_whitespace(s[a]),
    ensures
        trim_start(s) == s.skip(a),
    decreases a,
{
    if a == 0 {
        assert(s.skip(0) == s);
    } else {
        assert(is_whitespace(s[0]));
        let t = s.drop_first();
        assert forall|j: int| 0 <= j < a - 1 implies #[trigger] is_whitespace(t[j]) by {
            assert(t[j] == s[j + 1]);
        }
        lemma_trim_start_skip(t, a - 1);
        assert(t.skip(a - 1) == s.skip(a));
    }
}

/// Keeping the first `b` characters, when all after them are whitespace and
/// the last kept is not, is trimming the end.
pub proof fn lemma_trim_end_take(s: Seq<char>, b: int)
    requires
        0 <= b <= s.len(),
        forall|j: int| b <= j < s.len() ==> #[trigger] is_whitespace(s[j]),
        b == 0 || !is_whitespace(s[b - 1]),
    ensures
        trim_end(s) == s.take(b),
    decreases s.len() - b,
{
    if b == s.len() {
        assert(s.take(b) == s);
    } else {
        assert(is_whitespace(s[s.len() - 1]));
        let t = s.drop_last();
        lemma_trim_end_take(t, b);
        assert(t.take(b) == s.take(b));
    }
}

/// `find_first` gives the first occurrence, or says there is none.
pub proof fn lemma_find_first(s: Seq<char>, c: char)
    ensures
        match find_first(s, c) {
            Some(i) => 0 <= i < s.len() && s[i] == c && forall|j: int| 0 <= j < i ==> s[j] != c,
            None => forall|j: int| 0 <= j < s.len() ==> s[j] != c,
        },
    decreases s.len(),
{
    if s.len() > 0 && s[0] != c {
        let t = s.drop_first();
        lemma_find_first(t, c);
        match find_first(t, c) {
            Some(i) => {
                assert forall|j: int| 0 <= j < i + 1 implies s[j] != c by {
                    if j > 0 {
                        assert(s[j] == t[j - 1]);
                    }
                }
            },
            None => {
                assert forall|j: int| 0 <= j < s.len() implies s[j] != c by {
                    if j > 0 {
                        assert(s[j] == t[j - 1]);
                    }
                }
            },
        }
    }
}

/// `find_last` gives the last occurrence, or says there is none.
pub proof fn lemma_find_last(s: Seq<char>, c: char)
    ensures
        match find_last(s, c) {
            Some(i) => 0 <= i < s.len() && s[i] == c && forall|j: int| i < j < s.len() ==> s[j] != c,
            None => forall|j: int| 0 <= j < s.len() ==> s[j] != c,
        },
    decreases s.len(),
{
    if s.len() > 0 && s.last() != c {
        let t = s.drop_last();
        lemma_find_last(t, c);
        assert forall|j: int| 0 <= j < t.len() implies t[j] == s[j] by {}
    }
}

/// Splitting always gives at least one piece.
pub proof fn lemma_split_nonempty(s: Seq<char>, sep: char)
    ensures
        split(s, sep).len() >= 1,
    decreases s.len(),
{
    if s.len() > 0 {
        lemma_split_nonempty(s.drop_last(), sep);
    }
}

/// Splitting `a`, a separator, `b` gives the pieces of `a` then those of `b`.
pub proof fn lemma_split_join(a: Seq<char>, b: Seq<char>, sep: char)
    ensures
        split(a + seq![sep] + b, sep) == split(a, sep) + split(b, sep),
    decreases b.len(),
{
    let j = a + seq![sep] + b;
    if b.len() == 0 {
        assert(j == a.push(sep));
        assert(j.drop_last() == a);
        assert(split(b, sep) == seq![Seq::<char>::empty()]);
        assert(split(a, sep).push(Seq::<char>::empty()) == split(a, sep) + seq![Seq::<char>::empty()]);
    } else {
        let bd = b.drop_last();
        lemma_split_join(a, bd, sep);
        lemma_split_nonempty(bd, sep);
        assert(j.drop_last() == a + seq![sep] + bd);
        assert(j.last() == b.last());
        let x = split(a, sep);
        let y = split(bd, sep);
        if b.last() == sep {
            assert((x + y).push(Seq::<char>::empty()) == x + y.push(Seq::<char>::empty()));
        } else {
            let c = b.last();
            assert((x + y).update((x + y).len() - 1, (x + y).last().push(c)) == x + y.update(
                y.len() - 1,
                y.last().push(c),
            ));
        }
    }
}

/// A text without the separator is one piece.
pub proof fn lemma_split_without_sep(s: Seq<char>, sep: char)
    requires
        forall|j: int| 0 <= j < s.len() ==> s[j] != sep,
    ensures
        split(s, sep) == seq![s],
    decreases s.len(),
{
    if s.len() == 0 {
        assert(s == Seq::<char>::empty());
    } else {
        let t = s.drop_last();
        lemma_split_without_sep(t, sep);
        assert(t.push(s.last()) == s);
        let r = split(t, sep);
        assert(s[s.len() - 1] != sep);
        assert(r == seq![t]);
        assert(r.update(0, t.push(s.last())) == seq![s]);
    }
}

/// Appending a digit multiplies the value by ten and adds the digit.
pub proof fn lemma_digits_value_push(s: Seq<char>, c: char)
    ensures
        digits_value(s.push(c)) == digits_value(s) * 10 + digit_value(c),
{
    assert(s.push(c).drop_last() == s);
}

/// The decimal form of `n` is a nonempty string of digits worth `n`.
pub proof fn lemma_decimal(n: nat)
    ensures
        decimal(n).len() >= 1,
        all_digits(decimal(n)),
        digits_value(decimal(n)) == n,
        decimal(n)[0] != '+',
    decreases n,
{
    if n < 10 {
        let one = seq![digit_char(n)];
        assert(one.drop_last() == Seq::<char>::empty());
        assert(one.last() == digit_char(n));
        assert(digits_value(Seq::<char>::empty()) == 0);
        assert(digits_value(one) == digit_value(digit_char(n)));
    } else {
        lemma_decimal(n / 10);
        let d = decimal(n / 10);
        lemma_digits_value_push(d, digit_char(n % 10));
        assert(n == (n / 10) * 10 + n % 10) by (nonlinear_arith);
        assert(digit_value(digit_char(n % 10)) == n % 10);
        assert(digits_value(decimal(n)) == digits_value(d) * 10 + digit_value(digit_char(n % 10)));
        assert(digits_value(d) == n / 10);
        assert(decimal(n) == d.push(digit_char(n % 10)));
        assert forall|i: int| 0 <= i < decimal(n).len() implies #[trigger] is_digit(decimal(n)[i]) by {
            if i < d.len() {
                assert(is_digit(d[i]));
            }
        }
    }
}

/// Reading back the decimal form of a 16-bit number gives the number.
pub proof fn lemma_parse_decimal(n: u16)
    ensures
        parse_u16(decimal(n as nat)) == Some(n),
{
    lemma_decimal(n as nat);
}

// ---------------------------------------------------------------------
// Executable functions
// ---------------------------------------------------------------------

/// Appends one character to a string with std's `String::push`. Trusted:
/// the string afterwards holds the characters it held, then `c`.
#[verifier::external_body]
fn push_char(s: &mut String, c: char)
    ensures
        final(s)@ == old(s)@.push(c),
{
    s.push(c);
}

/// The characters of `s`, in order.
pub fn chars_of(s: &str) -> (res: Vec<char>)
    ensures
        res@ == s@,
{
    let mut res: Vec<char> = Vec::new();
    for c in it: s.chars()
        invariant
            res@ == it.seq().take(it.index() as int),
            it.seq() == s@,
    {
        res.push(c);
    }
    res
}

/// The string made of the characters of `v`, in order.
pub fn string_of(v: &[char]) -> (res: String)
    ensures
        res@ == v@,
{
    let mut res = String::new();
    let mut i: usize = 0;
    while i < v.len()
        invariant
            i <= v.len(),
            res@ == v@.take(i as int),
        decreases v.len() - i,
    {
        push_char(&mut res, v[i]);
        assert(v@.take(i + 1) == v@.take(i as int).push(v@[i as int]));
        i = i + 1;
    }
    assert(v@.take(v.len() as int) == v@);
    res
}

/// The characters of `v` from index `a` up to (not including) `b`.
pub fn slice_chars(v: &[char], a: usize, b: usize) -> (res: Vec<char>)
    requires
        a <= b <= v.len(),
    ensures
        res@ == v@.subrange(a as int, b as int),
{
    let mut res: Vec<char> = Vec::new();
    let mut i: usize = a;
    while i < b
        invariant
            a <= i <= b <= v.len(),
            res@ == v@.subrange(a as int, i as int),
        decreases b - i,
    {
        res.push(v[i]);
        assert(v@.subrange(a as int, i + 1) == v@.subrange(a as int, i as int).push(v@[i as int]));
        i = i + 1;
    }
    res
}

/// Whether `c` is whitespace, as `char::is_whitespace` decides.
pub fn is_whitespace_char(c: char) -> (res: bool)
    ensures
        res == is_whitespace(c),
{
    let u = c as u32;
    (0x09 <= u && u <= 0x0D) || u == 0x20 || u == 0x85 || u == 0xA0 || u == 0x1680 || (0x2000
        <= u && u <= 0x200A) || u == 0x2028 || u == 0x2029 || u == 0x202F || u == 0x205F || u
        == 0x3000
}

/// `v` without leading and trailing whitespace.
pub fn trim_chars(v: &[char]) -> (res: Vec<char>)
    ensures
        res@ == trim(v@),
{
    let mut a: usize = 0;
    while a < v.len() && is_whitespace_char(v[a])
        invariant
            a <= v.len(),
            forall|j: int| 0 <= j < a ==> #[trigger] is_whitespace(v@[j]),
        decreases v.len() - a,
    {
        a = a + 1;
    }
    let mut b: usize = v.len();
    while b > a && is_whitespace_char(v[b - 1])
        invariant
            a <= b <= v.len(),
            forall|j: int| b <= j < v.len() ==> #[trigger] is_whitespace(v@[j]),
        decreases b,
    {
        b = b - 1;
    }
    proof {
        lemma_trim_start_skip(v@, a as int);
        let t = v@.skip(a as int);
        assert forall|j: int| b - a <= j < t.len() implies #[trigger] is_whitespace(t[j]) by {
            assert(t[j] == v@[j + a]);
        }
        lemma_trim_end_take(t, b - a);
        assert(t.take(b - a) == v@.subrange(a as int, b as int));
    }
    slice_chars(v, a, b)
}

/// Index of the first `c` in `v`.
pub fn find_first_char(v: &[char], c: char) -> (res: Option<usize>)
    ensures
        match res {
            Some(i) => find_first(v@, c) == Some(i as int),
            None => find_first(v@, c) is None,
        },
        res matches Some(i) ==> i < v.len() && v@[i as int] == c,
{
    let mut i: usize = 0;
    while i < v.len()
        invariant
            i <= v.len(),
            forall|j: int| 0 <= j < i ==> v@[j] != c,
        decreases v.len() - i,
    {
        if v[i] == c {
            assert(v@[i as int] == c);
            proof {
                lemma_find_first(v@, c);
            }
            return Some(i);
        }
        i = i + 1;
    }
    proof {
        lemma_find_first(v@, c);
    }
    None
}

/// Index of the last `c` in `v`.
pub fn find_last_char(v: &[char], c: char) -> (res: Option<usize>)
    ensures
        match res {
            Some(i) => find_last(v@, c) == Some(i as int),
            None => find_last(v@, c) is None,
        },
        res matches Some(i) ==> i < v.len() && v@[i as int] == c,
{
    let mut i: usize = v.len();
    while i > 0
        invariant
            i <= v.len(),
            forall|j: int| i <= j < v.len() ==> v@[j] != c,
        decreases i,
    {
        if v[i - 1] == c {
            assert(v@[i - 1] == c);
            proof {
                lemma_find_last(v@, c);
            }
            return Some(i - 1);
        }
        i = i - 1;
    }
    proof {
        lemma_find_last(v@, c);
    }
    None
}

/// The bounds, in `v`, of the pieces that `split(v@, sep)` describes.
pub fn split_ranges(v: &[char], sep: char) -> (res: Vec<(usize, usize)>)
    ensures
        res.len() == split(v@, sep).len(),
        forall|k: int|
    #![trigger res@[k]]
            0 <= k < res.len() ==> {
                &&& res@[k].0 <= res@[k].1 <= v.len()
                &&& v@.subrange(res@[k].0 as int, res@[k].1 as int) == split(v@, sep)[k]
            },
{
    let mut res: Vec<(usize, usize)> = Vec::new();
    let mut start: usize = 0;
    let mut i: usize = 0;
    assert(v@.take(0) == Seq::<char>::empty());
    while i < v.len()
        invariant
            start <= i <= v.len(),
            split(v@.take(i as int), sep).len() == res.len() + 1,
            forall|k: int|
    #![trigger res@[k]]
                0 <= k < res.len() ==> {
                    &&& res@[k].0 <= res@[k].1 <= i
                    &&& v@.subrange(res@[k].0 as int, res@[k].1 as int) == split(
                        v@.take(i as int),
                        sep,
                    )[k]
                },
            v@.subrange(start as int, i as int) == split(v@.take(i as int), sep).last(),
        decreases v.len() - i,
    {
        let ghost before = split(v@.take(i as int), sep);
        let ghost old_res = res@;
        assert(v@.take(i + 1).drop_last() == v@.take(i as int));
        assert(v@.take(i + 1).last() == v@[i as int]);
        if v[i] == sep {
            res.push((start, i));
            start = i + 1;
            assert(v@.subrange(start as int, i + 1) == Seq::<char>::empty());
            assert(split(v@.take(i + 1), sep) == before.push(Seq::<char>::empty()));
            assert forall|k: int| #![trigger res@[k]] 0 <= k < res.len() implies {
                &&& res@[k].0 <= res@[k].1 <= i + 1
                &&& v@.subrange(res@[k].0 as int, res@[k].1 as int) == split(
                    v@.take(i + 1),
                    sep,
                )[k]
            } by {
                if k < res.len() - 1 {
                    assert(res@[k] == old_res[k]);
                }
            }
        } else {
            assert(v@.subrange(start as int, i + 1) == v@.subrange(start as int, i as int).push(
                v@[i as int],
            ));
            assert(split(v@.take(i + 1), sep) == before.update(
                before.len() - 1,
                before.last().push(v@[i as int]),
            ));
            assert forall|k: int| #![trigger res@[k]] 0 <= k < res.len() implies {
                &&& res@[k].0 <= res@[k].1 <= i + 1
                &&& v@.subrange(res@[k].0 as int, res@[k].1 as int) == split(
                    v@.take(i + 1),
                    sep,
                )[k]
            } by {
                assert(res@[k].0 <= res@[k].1 <= i);
                assert(v@.subrange(res@[k].0 as int, res@[k].1 as int) == before[k]);
                assert(split(v@.take(i + 1), sep)[k] == before[k]);
            }
        }
        i = i + 1;
    }
    assert(v@.take(v.len() as int) == v@);
    res.push((start, v.len()));
    res
}

/// Value of the decimal text `v`, as `str::parse::<u16>` reads it.
pub fn parse_u16_chars(v: &[char]) -> (res: Option<u16>)
    ensures
        res == parse_u16(v@),
{
    let mut i: usize = 0;
    if v.len() > 0 && v[0] == '+' {
        i = 1;
    }
    let ghost d = unsigned_digits(v@);
    assert(d == v@.skip(i as int));
    if i == v.len() {
        return None;
    }
    // The value read so far, held at 65536 once it no longer fits.
    let mut acc: u32 = 0;
    let mut k: usize = i;
    assert(v@.subrange(i as int, i as int) == Seq::<char>::empty());
    while k < v.len()
        invariant
            i <= k <= v.len(),
            i < v.len(),
            d == v@.skip(i as int),
            d == unsigned_digits(v@),
            all_digits(v@.subrange(i as int, k as int)),
            acc <= 65536,
            acc == (if digits_value(v@.subrange(i as int, k as int)) <= 65535 {
                digits_value(v@.subrange(i as int, k as int))
            } else {
                65536
            }),
        decreases v.len() - k,
    {
        let c = v[k];
        let ghost p = v@.subrange(i as int, k as int);
        if !('0' <= c && c <= '9') {
            assert(d[k - i] == c);
            assert(!is_digit(d[k - i]));
            assert(!all_digits(d));
            return None;
        }
        let dv: u32 = (c as u32) - ('0' as u32);
        proof {
            lemma_digits_value_push(p, c);
            assert(v@.subrange(i as int, k + 1) == p.push(c));
            assert forall|j: int| 0 <= j < k + 1 - i implies #[trigger] is_digit(
                v@.subrange(i as int, k + 1)[j],
            ) by {
                if j < k - i {
                    assert(is_digit(p[j]));
                }
            }
        }
        if acc == 65536 {
            acc = 65536;
        } else {
            let next = acc * 10 + dv;
            if next > 65535 {
                acc = 65536;
            } else {
                acc = next;
            }
        }
        k = k + 1;
    }
    assert(v@.subrange(i as int, v.len() as int) == d);
    if acc > 65535 {
        None
    } else {
        Some(acc as u16)
    }
}

fn push_decimal_rec(out: &mut Vec<char>, n: u16)
    ensures
        final(out)@ == old(out)@ + decimal(n as nat),
    decreases n,
{
    if n >= 10 {
        push_decimal_rec(out, n / 10);
    }
    let d: u8 = (n % 10) as u8;
    let c = (d + 48) as char;
    assert(c == digit_char((n % 10) as nat));
    out.push(c);
}

/// Appends the decimal form of `n` to `out`.
pub fn push_decimal(out: &mut Vec<char>, n: u16)
    ensures
        final(out)@ == old(out)@ + decimal(n as nat),
{
    push_decimal_rec(out, n)
}

} // verus!
