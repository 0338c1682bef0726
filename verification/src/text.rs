//! Character-level helpers: whitespace, trimming, prefixes and the
//! conversions between strings and vectors of characters.

use vstd::prelude::*;

verus! {

/// Whether `c` is white space: one of the characters that Unicode lists as
/// `White_Space`.
pub open spec fn is_whitespace(c: char) -> bool {
    let n = c as u32;
    ||| 0x09 <= n <= 0x0D
    ||| n == 0x20
    ||| n == 0x85
    ||| n == 0xA0
    ||| n == 0x1680
    ||| 0x2000 <= n <= 0x200A
    ||| n == 0x2028
    ||| n == 0x2029
    ||| n == 0x202F
    ||| n == 0x205F
    ||| n == 0x3000
}

/// Whether `c` is white space.
pub fn char_is_whitespace(c: char) -> (r: bool)
    ensures
        r == is_whitespace(c),
{
    let n: u32 = c as u32;
    (0x09 <= n && n <= 0x0D) || n == 0x20 || n == 0x85 || n == 0xA0 || n == 0x1680 || (0x2000 <= n
        && n <= 0x200A) || n == 0x2028 || n == 0x2029 || n == 0x202F || n == 0x205F || n == 0x3000
}

/// The characters of `s`, in order.
pub fn chars_of(s: &str) -> (v: Vec<char>)
    ensures
        v@ == s@,
{
    let mut v: Vec<char> = Vec::new();
    for c in it: s.chars()
        invariant
            it.seq() == s@,
            v@ == s@.take(it.index()),
    {
        v.push(c);
    }
    v
}

/// `s` without its leading whitespace.
pub open spec fn trim_start(s: Seq<char>) -> Seq<char>
    decreases s.len(),
{
    if s.len() > 0 && is_whitespace(s[0]) {
        trim_start(s.skip(1))
    } else {
        s
    }
}

/// `s` without its trailing whitespace.
pub open spec fn trim_end(s: Seq<char>) -> Seq<char>
    decreases s.len(),
{
    if s.len() > 0 && is_whitespace(s.last()) {
        trim_end(s.drop_last())
    } else {
        s
    }
}

/// `s` without its leading and trailing whitespace.
pub open spec fn trim(s: Seq<char>) -> Seq<char> {
    trim_end(trim_start(s))
}

/// The index of the first `c` in `s`, or the length of `s` where it holds none.
pub open spec fn first_index_of(s: Seq<char>, c: char) -> int
    decreases s.len(),
{
    if s.len() == 0 {
        0
    } else if s[0] == c {
        0
    } else {
        1 + first_index_of(s.skip(1), c)
    }
}

/// The index of the last `c` in `s`, or -1 where it holds none.
pub open spec fn last_index_of(s: Seq<char>, c: char) -> int
    decreases s.len(),
{
    if s.len() == 0 {
        -1
    } else if s.last() == c {
        s.len() - 1
    } else {
        last_index_of(s.drop_last(), c)
    }
}

/// Whether `s` begins with `prefix`.
pub open spec fn starts_with(s: Seq<char>, prefix: Seq<char>) -> bool {
    prefix.len() <= s.len() && s.take(prefix.len() as int) == prefix
}

pub proof fn lemma_first_index_of(s: Seq<char>, c: char)
    ensures
        0 <= first_index_of(s, c) <= s.len(),
        first_index_of(s, c) < s.len() ==> s[first_index_of(s, c)] == c,
        forall|i: int| 0 <= i < first_index_of(s, c) ==> s[i] != c,
    decreases s.len(),
{
    if s.len() > 0 && s[0] != c {
        let t = s.skip(1);
        lemma_first_index_of(t, c);
        assert forall|i: int| 0 <= i < first_index_of(s, c) implies s[i] != c by {
            if i > 0 {
                assert(s[i] == t[i - 1]);
            }
        }
    }
}

pub proof fn lemma_last_index_of(s: Seq<char>, c: char)
    ensures
        -1 <= last_index_of(s, c) < s.len(),
        last_index_of(s, c) >= 0 ==> s[last_index_of(s, c)] == c,
        forall|i: int| last_index_of(s, c) < i < s.len() ==> s[i] != c,
    decreases s.len(),
{
    if s.len() > 0 && s.last() != c {
        let t = s.drop_last();
        lemma_last_index_of(t, c);
        assert forall|i: int| last_index_of(s, c) < i < s.len() implies s[i] != c by {
            if i < s.len() - 1 {
                assert(s[i] == t[i]);
            }
        }
    }
}

/// Any position that holds `c` with no `c` before it is the first.
pub proof fn lemma_first_index_of_is(s: Seq<char>, c: char, k: int)
    requires
        0 <= k <= s.len(),
        k < s.len() ==> s[k] == c,
        forall|i: int| 0 <= i < k ==> s[i] != c,
    ensures
        first_index_of(s, c) == k,
{
    lemma_first_index_of(s, c);
}

/// Any position that holds `c` with no `c` after it is the last.
pub proof fn lemma_last_index_of_is(s: Seq<char>, c: char, k: int)
    requires
        -1 <= k < s.len(),
        k >= 0 ==> s[k] == c,
        forall|i: int| k < i < s.len() ==> s[i] != c,
    ensures
        last_index_of(s, c) == k,
{
    lemma_last_index_of(s, c);
}

/// Appends `c` to `s` by `String::push`, which puts the character at the end
/// of the string and leaves the rest as it was.
#[verifier::external_body]
fn push_char(s: &mut String, c: char)
    ensures
        final(s)@ == old(s)@.push(c),
{
    s.push(c);
}

/// The string made of `chars[from..to]`.
pub fn string_from(chars: &Vec<char>, from: usize, to: usize) -> (s: String)
    requires
        from <= to <= chars.len(),
    ensures
        s@ == chars@.subrange(from as int, to as int),
{
    let mut s = String::new();
    let mut i: usize = from;
    while i < to
        invariant
            from <= i <= to <= chars.len(),
            s@ == chars@.subrange(from as int, i as int),
        decreases to - i,
    {
        push_char(&mut s, chars[i]);
        i += 1;
    }
    s
}

/// The bounds of `chars[from..to]` once trimmed.
pub fn trim_bounds(chars: &Vec<char>, from: usize, to: usize) -> (r: (usize, usize))
    requires
        from <= to <= chars.len(),
    ensures
        from <= r.0 <= r.1 <= to,
        chars@.subrange(r.0 as int, r.1 as int) == trim(chars@.subrange(from as int, to as int)),
{
    let mut a: usize = from;
    while a < to && char_is_whitespace(chars[a])
        invariant
            from <= a <= to <= chars.len(),
            trim_start(chars@.subrange(from as int, to as int)) == trim_start(
                chars@.subrange(a as int, to as int),
            ),
        decreases to - a,
    {
        assert(chars@.subrange(a as int, to as int).skip(1) == chars@.subrange(a + 1, to as int));
        a += 1;
    }
    let mut b: usize = to;
    while a < b && char_is_whitespace(chars[b - 1])
        invariant
            a <= b <= to <= chars.len(),
            trim_end(chars@.subrange(a as int, to as int)) == trim_end(
                chars@.subrange(a as int, b as int),
            ),
        decreases b - a,
    {
        assert(chars@.subrange(a as int, b as int).drop_last() == chars@.subrange(
            a as int,
            b - 1,
        ));
        b -= 1;
    }
    (a, b)
}

/// The position of the first `c` in `chars[from..to]`, or `to` where there is none.
pub fn find_first(chars: &Vec<char>, from: usize, to: usize, c: char) -> (k: usize)
    requires
        from <= to <= chars.len(),
    ensures
        from <= k <= to,
        k - from == first_index_of(chars@.subrange(from as int, to as int), c),
{
    let mut k: usize = from;
    while k < to && chars[k] != c
        invariant
            from <= k <= to <= chars.len(),
            forall|i: int| from <= i < k ==> chars@[i] != c,
        decreases to - k,
    {
        k += 1;
    }
    proof {
        lemma_first_index_of_is(chars@.subrange(from as int, to as int), c, k - from);
    }
    k
}

/// The start of the last line of `chars[..to]`: the position behind its last
/// `c`, or 0 where it holds none.
pub fn find_after_last(chars: &Vec<char>, to: usize, c: char) -> (k: usize)
    requires
        to <= chars.len(),
    ensures
        k <= to,
        k == last_index_of(chars@.take(to as int), c) + 1,
{
    let mut k: usize = to;
    while k > 0 && chars[k - 1] != c
        invariant
            k <= to <= chars.len(),
            forall|i: int| k <= i < to ==> chars@[i] != c,
        decreases k,
    {
        k -= 1;
    }
    proof {
        lemma_last_index_of_is(chars@.take(to as int), c, k - 1);
    }
    k
}

/// Whether `chars[from..to]` begins with `prefix`.
pub fn has_prefix(chars: &Vec<char>, from: usize, to: usize, prefix: &str) -> (r: bool)
    requires
        from <= to <= chars.len(),
    ensures
        r == starts_with(chars@.subrange(from as int, to as int), prefix@),
{
    let n: usize = prefix.unicode_len();
    if to - from < n {
        return false;
    }
    let ghost s = chars@.subrange(from as int, to as int);
    let mut i: usize = 0;
    while i < n
        invariant
            from <= to <= chars.len(),
            i <= n == prefix@.len(),
            n <= to - from,
            s == chars@.subrange(from as int, to as int),
            forall|j: int| 0 <= j < i ==> s[j] == prefix@[j],
        decreases n - i,
    {
        if chars[from + i] != prefix.get_char(i) {
            return false;
        }
        i += 1;
    }
    assert(s.take(n as int) =~= prefix@);
    true
}

/// The decimal digit for a number below ten.
pub open spec fn digit(n: nat) -> char {
    if n == 0 {
        '0'
    } else if n == 1 {
        '1'
    } else if n == 2 {
        '2'
    } else if n == 3 {
        '3'
    } else if n == 4 {
        '4'
    } else if n == 5 {
        '5'
    } else if n == 6 {
        '6'
    } else if n == 7 {
        '7'
    } else if n == 8 {
        '8'
    } else {
        '9'
    }
}

/// The decimal numeral of `n`, without leading zeros.
pub open spec fn decimal(n: nat) -> Seq<char>
    decreases n,
{
    if n < 10 {
        seq![digit(n)]
    } else {
        decimal(n / 10).push(digit(n % 10))
    }
}

/// The decimal digit of `n`.
fn digit_char(n: usize) -> (c: char)
    requires
        n < 10,
    ensures
        c == digit(n as nat),
{
    if n == 0 {
        '0'
    } else if n == 1 {
        '1'
    } else if n == 2 {
        '2'
    } else if n == 3 {
        '3'
    } else if n == 4 {
        '4'
    } else if n == 5 {
        '5'
    } else if n == 6 {
        '6'
    } else if n == 7 {
        '7'
    } else if n == 8 {
        '8'
    } else {
        '9'
    }
}

/// The decimal numeral of `n` as a string.
pub fn decimal_string(n: usize) -> (s: String)
    ensures
        s@ == decimal(n as nat),
{
    let mut digits: Vec<char> = Vec::new();
    let mut rest: usize = n;
    while rest >= 10
        invariant
            decimal(n as nat) == decimal(rest as nat) + digits@.reverse(),
        decreases rest,
    {
        digits.push(digit_char(rest % 10));
        rest = rest / 10;
    }
    let ghost tail = digits@.reverse();
    let mut s = String::new();
    push_char(&mut s, digit_char(rest));
    let mut i: usize = digits.len();
    while i > 0
        invariant
            i <= digits.len(),
            tail == digits@.reverse(),
            s@ == decimal(rest as nat) + tail.take(digits.len() - i),
        decreases i,
    {
        i -= 1;
        push_char(&mut s, digits[i]);
    }
    s
}

/// Whether `part` stands in `s` from position `at` on.
pub open spec fn occurs_at(s: Seq<char>, part: Seq<char>, at: int) -> bool {
    0 <= at && at + part.len() <= s.len() && s.subrange(at, at + part.len()) == part
}

/// Whether `part` stands somewhere in `s`.
pub open spec fn contains_text(s: Seq<char>, part: Seq<char>) -> bool {
    exists|at: int| occurs_at(s, part, at)
}

/// Whether `part` stands somewhere in `s`.
pub fn text_contains(s: &Vec<char>, part: &Vec<char>) -> (found: bool)
    ensures
        found == contains_text(s@, part@),
{
    if part.len() > s.len() {
        return false;
    }
    let last: usize = s.len() - part.len();
    let mut at: usize = 0;
    while at <= last
        invariant
            part.len() <= s.len(),
            last == s.len() - part.len(),
            at <= last + 1,
            forall|i: int| 0 <= i < at ==> !occurs_at(s@, part@, i),
        decreases last + 1 - at,
    {
        let mut k: usize = 0;
        while k < part.len() && s[at + k] == part[k]
            invariant
                at <= last,
                last == s.len() - part.len(),
                k <= part.len(),
                forall|j: int| 0 <= j < k ==> s@[at + j] == part@[j],
            decreases part.len() - k,
        {
            k += 1;
        }
        if k == part.len() {
            assert(s@.subrange(at as int, at + part.len()) =~= part@);
            assert(occurs_at(s@, part@, at as int));
            return true;
        }
        at += 1;
    }
    false
}

} // verus!
