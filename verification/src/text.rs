//! Character-level helpers for the text formats this crate reads and writes.
//!
//! Every string is reasoned about through its view, a `Seq<char>`. The
//! executable functions work on `Vec<char>` buffers and convert at the edges.

use vstd::prelude::*;

verus! {

/// Appends one character to `s`. This is `String::push`, which vstd does not
/// describe; the contract states that the view grows by exactly `c`.
#[verifier::external_body]
pub(crate) fn push_char(s: &mut String, c: char)
    ensures
        final(s)@ == old(s)@.push(c),
{
    s.push(c)
}

/// The characters of `s`, in order.
pub fn chars_of(s: &str) -> (v: Vec<char>)
    ensures
        v@ == s@,
{
    let mut v: Vec<char> = Vec::new();
    for c in it: s.chars()
        invariant
            v@ == it.seq().take(it.index() as int),
    {
        v.push(c);
    }
    v
}

/// Appends `v[from..to]` to `out`.
pub(crate) fn push_range(out: &mut String, v: &Vec<char>, from: usize, to: usize)
    requires
        from <= to <= v.len(),
    ensures
        final(out)@ == old(out)@ + v@.subrange(from as int, to as int),
{
    let mut i: usize = from;
    while i < to
        invariant
            from <= i <= to <= v.len(),
            out@ == old(out)@ + v@.subrange(from as int, i as int),
        decreases to - i,
    {
        push_char(out, v[i]);
        i += 1;
    }
}

/// Appends all of `v` to `out`.
pub fn push_chars(out: &mut String, v: &Vec<char>)
    ensures
        final(out)@ == old(out)@ + v@,
{
    push_range(out, v, 0, v.len());
    assert(v@.subrange(0, v.len() as int) == v@);
}

/// Appends `t` to `out`.
pub fn push_text(out: &mut String, t: &str)
    ensures
        final(out)@ == old(out)@ + t@,
{
    let v = chars_of(t);
    push_chars(out, &v);
}

/// The string made of `v[from..to]`.
pub(crate) fn string_of_range(v: &Vec<char>, from: usize, to: usize) -> (s: String)
    requires
        from <= to <= v.len(),
    ensures
        s@ == v@.subrange(from as int, to as int),
{
    let mut s = String::new();
    push_range(&mut s, v, from, to);
    s
}

/// An owned copy of `t`.
pub fn owned(t: &str) -> (s: String)
    ensures
        s@ == t@,
{
    let mut s = String::new();
    push_text(&mut s, t);
    s
}

/// Whether two texts hold the same characters.
pub fn same_text(a: &str, b: &str) -> (r: bool)
    ensures
        r == (a@ == b@),
{
    let x = chars_of(a);
    let y = chars_of(b);
    same_chars(&x, &y)
}

/// Whether two buffers hold the same characters.
pub fn same_chars(a: &Vec<char>, b: &Vec<char>) -> (r: bool)
    ensures
        r == (a@ == b@),
{
    if a.len() != b.len() {
        return false;
    }
    let mut i: usize = 0;
    while i < a.len()
        invariant
            a.len() == b.len(),
            i <= a.len(),
            a@.subrange(0, i as int) == b@.subrange(0, i as int),
        decreases a.len() - i,
    {
        if a[i] != b[i] {
            return false;
        }
        assert(a@.subrange(0, i + 1) == a@.subrange(0, i as int).push(a@[i as int]));
        assert(b@.subrange(0, i + 1) == b@.subrange(0, i as int).push(b@[i as int]));
        i += 1;
    }
    assert(a@.subrange(0, a.len() as int) == a@);
    assert(b@.subrange(0, b.len() as int) == b@);
    true
}

/// Unicode white space, the set that `char::is_whitespace` accepts.
pub open spec fn is_whitespace(c: char) -> bool {
    let n = c as u32;
    ||| 0x09 <= n <= 0x0d
    ||| n == 0x20
    ||| n == 0x85
    ||| n == 0xa0
    ||| n == 0x1680
    ||| 0x2000 <= n <= 0x200a
    ||| n == 0x2028
    ||| n == 0x2029
    ||| n == 0x202f
    ||| n == 0x205f
    ||| n == 0x3000
}

/// Decides [`is_whitespace`].
pub fn char_is_whitespace(c: char) -> (r: bool)
    ensures
        r == is_whitespace(c),
{
    let n: u32 = c as u32;
    (0x09 <= n && n <= 0x0d) || n == 0x20 || n == 0x85 || n == 0xa0 || n == 0x1680 || (0x2000 <= n
        && n <= 0x200a) || n == 0x2028 || n == 0x2029 || n == 0x202f || n == 0x205f || n == 0x3000
}

/// Length of the longest prefix of `s` whose characters all satisfy `p`.
pub open spec fn run_len(s: Seq<char>, p: spec_fn(char) -> bool) -> nat
    decreases s.len(),
{
    if s.len() > 0 && p(s[0]) {
        1 + run_len(s.subrange(1, s.len() as int), p)
    } else {
        0
    }
}

/// Length of the longest suffix of `s` whose characters all satisfy `p`.
pub open spec fn back_run_len(s: Seq<char>, p: spec_fn(char) -> bool) -> nat
    decreases s.len(),
{
    if s.len() > 0 && p(s.last()) {
        1 + back_run_len(s.drop_last(), p)
    } else {
        0
    }
}

/// `run_len` stays within `s`, every character before it satisfies `p`, and
/// the character after it, if any, does not.
pub proof fn lemma_run_len(s: Seq<char>, p: spec_fn(char) -> bool)
    ensures
        run_len(s, p) <= s.len(),
        forall|i: int| 0 <= i < run_len(s, p) ==> p(#[trigger] s[i]),
        run_len(s, p) < s.len() ==> !p(s[run_len(s, p) as int]),
    decreases s.len(),
{
    if s.len() > 0 && p(s[0]) {
        let t = s.subrange(1, s.len() as int);
        lemma_run_len(t, p);
        assert forall|i: int| 0 <= i < run_len(s, p) implies p(#[trigger] s[i]) by {
            if i > 0 {
                assert(s[i] == t[i - 1]);
            }
        }
        if run_len(s, p) < s.len() {
            assert(s[run_len(s, p) as int] == t[run_len(t, p) as int]);
        }
    }
}

/// A prefix of `n` characters that satisfy `p`, ending at a character that
/// does not or at the end of `s`, is the run that `run_len` measures.
pub proof fn lemma_run_len_is(s: Seq<char>, p: spec_fn(char) -> bool, n: int)
    requires
        0 <= n <= s.len(),
        forall|i: int| 0 <= i < n ==> p(#[trigger] s[i]),
        n < s.len() ==> !p(s[n]),
    ensures
        run_len(s, p) == n,
    decreases s.len(),
{
    if n > 0 {
        let t = s.subrange(1, s.len() as int);
        assert(p(s[0]));
        assert forall|i: int| 0 <= i < n - 1 implies p(#[trigger] t[i]) by {
            assert(t[i] == s[i + 1]);
        }
        if n - 1 < t.len() {
            assert(t[n - 1] == s[n]);
        }
        lemma_run_len_is(t, p, n - 1);
    }
}

/// A suffix of `n` characters that satisfy `p`, preceded by a character that
/// does not or by nothing, is the run that `back_run_len` measures.
pub proof fn lemma_back_run_len_is(s: Seq<char>, p: spec_fn(char) -> bool, n: int)
    requires
        0 <= n <= s.len(),
        forall|i: int| s.len() - n <= i < s.len() ==> p(#[trigger] s[i]),
        n < s.len() ==> !p(s[s.len() - n - 1]),
    ensures
        back_run_len(s, p) == n,
    decreases s.len(),
{
    if n > 0 {
        let t = s.drop_last();
        assert(p(s[s.len() - 1]));
        assert forall|i: int| t.len() - (n - 1) <= i < t.len() implies p(#[trigger] t[i]) by {
            assert(t[i] == s[i]);
        }
        if n - 1 < t.len() {
            assert(t[t.len() - (n - 1) - 1] == s[s.len() - n - 1]);
        }
        lemma_back_run_len_is(t, p, n - 1);
    }
}

/// The predicate "is white space".
pub open spec fn space() -> spec_fn(char) -> bool {
    |c: char| is_whitespace(c)
}

/// The predicate "is not white space".
pub open spec fn non_space() -> spec_fn(char) -> bool {
    |c: char| !is_whitespace(c)
}

/// The predicate "is the character `x`".
pub open spec fn is_char(x: char) -> spec_fn(char) -> bool {
    |c: char| c == x
}

/// The predicate "is not the character `x`".
pub open spec fn not_char(x: char) -> spec_fn(char) -> bool {
    |c: char| c != x
}

/// `s` without its leading white space.
pub open spec fn trim_start(s: Seq<char>) -> Seq<char> {
    s.subrange(run_len(s, space()) as int, s.len() as int)
}

/// `s` without its trailing white space.
pub open spec fn trim_end(s: Seq<char>) -> Seq<char> {
    s.subrange(0, s.len() - back_run_len(s, space()))
}

/// `s` without leading and trailing white space.
pub open spec fn trim(s: Seq<char>) -> Seq<char> {
    trim_end(trim_start(s))
}

/// Index of the first character of `v[from..to]` that is not white space, or
/// `to` if there is none.
pub(crate) fn skip_space(v: &Vec<char>, from: usize, to: usize) -> (i: usize)
    requires
        from <= to <= v.len(),
    ensures
        i == from + run_len(v@.subrange(from as int, to as int), space()),
        from <= i <= to,
{
    let mut i: usize = from;
    while i < to && char_is_whitespace(v[i])
        invariant
            from <= i <= to <= v.len(),
            forall|k: int| from <= k < i ==> is_whitespace(#[trigger] v@[k]),
        decreases to - i,
    {
        i += 1;
    }
    proof {
        let s = v@.subrange(from as int, to as int);
        assert forall|k: int| 0 <= k < i - from implies space()(#[trigger] s[k]) by {
            assert(s[k] == v@[from + k]);
        }
        lemma_run_len_is(s, space(), i - from);
    }
    i
}

/// Index of the first white-space character of `v[from..to]`, or `to` if
/// there is none.
pub(crate) fn skip_non_space(v: &Vec<char>, from: usize, to: usize) -> (i: usize)
    requires
        from <= to <= v.len(),
    ensures
        i == from + run_len(v@.subrange(from as int, to as int), non_space()),
        from <= i <= to,
{
    let mut i: usize = from;
    while i < to && !char_is_whitespace(v[i])
        invariant
            from <= i <= to <= v.len(),
            forall|k: int| from <= k < i ==> !is_whitespace(#[trigger] v@[k]),
        decreases to - i,
    {
        i += 1;
    }
    proof {
        let s = v@.subrange(from as int, to as int);
        assert forall|k: int| 0 <= k < i - from implies non_space()(#[trigger] s[k]) by {
            assert(s[k] == v@[from + k]);
        }
        lemma_run_len_is(s, non_space(), i - from);
    }
    i
}

/// Index of the first `x` in `v[from..to]`, or `to` if there is none.
pub(crate) fn find_char(v: &Vec<char>, x: char, from: usize, to: usize) -> (i: usize)
    requires
        from <= to <= v.len(),
    ensures
        i == from + run_len(v@.subrange(from as int, to as int), not_char(x)),
        from <= i <= to,
        i < to ==> v@[i as int] == x,
        forall|k: int| from <= k < i ==> v@[k] != x,
{
    let mut i: usize = from;
    while i < to && v[i] != x
        invariant
            from <= i <= to <= v.len(),
            forall|k: int| from <= k < i ==> #[trigger] v@[k] != x,
        decreases to - i,
    {
        i += 1;
    }
    proof {
        let s = v@.subrange(from as int, to as int);
        assert forall|k: int| 0 <= k < i - from implies not_char(x)(#[trigger] s[k]) by {
            assert(s[k] == v@[from + k]);
        }
        lemma_run_len_is(s, not_char(x), i - from);
    }
    i
}

/// One past the index of the last character of `v[from..to]` that is not
/// white space, or `from` if there is none.
pub(crate) fn skip_space_back(v: &Vec<char>, from: usize, to: usize) -> (j: usize)
    requires
        from <= to <= v.len(),
    ensures
        j == to - back_run_len(v@.subrange(from as int, to as int), space()),
        from <= j <= to,
{
    let mut j: usize = to;
    while j > from && char_is_whitespace(v[j - 1])
        invariant
            from <= j <= to <= v.len(),
            forall|k: int| j <= k < to ==> is_whitespace(#[trigger] v@[k]),
        decreases j - from,
    {
        j -= 1;
    }
    proof {
        let s = v@.subrange(from as int, to as int);
        assert forall|k: int| s.len() - (to - j) <= k < s.len() implies space()(#[trigger] s[k]) by {
            assert(s[k] == v@[from + k]);
        }
        lemma_back_run_len_is(s, space(), to - j);
    }
    j
}

/// One past the index of the last character of `v[from..to]` that is not `x`,
/// or `from` if there is none.
pub(crate) fn skip_char_back(v: &Vec<char>, x: char, from: usize, to: usize) -> (j: usize)
    requires
        from <= to <= v.len(),
    ensures
        j == to - back_run_len(v@.subrange(from as int, to as int), is_char(x)),
        from <= j <= to,
{
    let mut j: usize = to;
    while j > from && v[j - 1] == x
        invariant
            from <= j <= to <= v.len(),
            forall|k: int| j <= k < to ==> #[trigger] v@[k] == x,
        decreases j - from,
    {
        j -= 1;
    }
    proof {
        let s = v@.subrange(from as int, to as int);
        assert forall|k: int| s.len() - (to - j) <= k < s.len() implies is_char(x)(#[trigger] s[k]) by {
            assert(s[k] == v@[from + k]);
        }
        lemma_back_run_len_is(s, is_char(x), to - j);
    }
    j
}

/// One past the index of the last `x` in `v[from..to]`, or `from` if there is
/// none: the start of the part after the last `x`.
pub(crate) fn after_last_char(v: &Vec<char>, x: char, from: usize, to: usize) -> (j: usize)
    requires
        from <= to <= v.len(),
    ensures
        j == to - back_run_len(v@.subrange(from as int, to as int), not_char(x)),
        from <= j <= to,
{
    let mut j: usize = to;
    while j > from && v[j - 1] != x
        invariant
            from <= j <= to <= v.len(),
            forall|k: int| j <= k < to ==> #[trigger] v@[k] != x,
        decreases j - from,
    {
        j -= 1;
    }
    proof {
        let s = v@.subrange(from as int, to as int);
        assert forall|k: int| s.len() - (to - j) <= k < s.len() implies not_char(x)(
            #[trigger] s[k],
        ) by {
            assert(s[k] == v@[from + k]);
        }
        lemma_back_run_len_is(s, not_char(x), to - j);
    }
    j
}

/// `s` without leading and trailing white space, as `str::trim` gives it.
pub fn trimmed(s: &str) -> (r: String)
    ensures
        r@ == trim(s@),
{
    let v = chars_of(s);
    let i = skip_space(&v, 0, v.len());
    let j = skip_space_back(&v, i, v.len());
    proof {
        assert(v@.subrange(0, v.len() as int) == v@);
        assert(v@.subrange(i as int, v.len() as int).subrange(0, j - i) == v@.subrange(
            i as int,
            j as int,
        ));
    }
    string_of_range(&v, i, j)
}

/// `s` without trailing white space, as `str::trim_end` gives it.
pub fn trimmed_end(s: &str) -> (r: String)
    ensures
        r@ == trim_end(s@),
{
    let v = chars_of(s);
    let j = skip_space_back(&v, 0, v.len());
    proof {
        assert(v@.subrange(0, v.len() as int) == v@);
    }
    string_of_range(&v, 0, j)
}

/// Whether `p` is a prefix of `s`.
pub open spec fn starts_with(s: Seq<char>, p: Seq<char>) -> bool {
    p.len() <= s.len() && s.subrange(0, p.len() as int) == p
}

/// Whether `p` is a suffix of `s`.
pub open spec fn ends_with(s: Seq<char>, p: Seq<char>) -> bool {
    p.len() <= s.len() && s.subrange(s.len() - p.len(), s.len() as int) == p
}

/// Whether `p` occurs in `s` at index `i`.
pub open spec fn occurs_at(s: Seq<char>, p: Seq<char>, i: int) -> bool {
    0 <= i && i + p.len() <= s.len() && s.subrange(i, i + p.len()) == p
}

/// Whether `p` occurs somewhere in `s`.
pub open spec fn contains(s: Seq<char>, p: Seq<char>) -> bool {
    exists|i: int| occurs_at(s, p, i)
}

/// Decides [`occurs_at`] for `v[..to]`.
pub(crate) fn matches_at(v: &Vec<char>, to: usize, p: &Vec<char>, i: usize) -> (r: bool)
    requires
        to <= v.len(),
    ensures
        r == occurs_at(v@.subrange(0, to as int), p@, i as int),
{
    if p.len() > to || i > to - p.len() {
        return false;
    }
    let ghost s = v@.subrange(0, to as int);
    let mut k: usize = 0;
    while k < p.len()
        invariant
            to <= v.len(),
            i + p.len() <= to,
            k <= p.len(),
            s == v@.subrange(0, to as int),
            s.subrange(i as int, i + k) == p@.subrange(0, k as int),
        decreases p.len() - k,
    {
        if v[i + k] != p[k] {
            assert(s.subrange(i as int, i + p.len())[k as int] == s[i + k]);
            return false;
        }
        assert(s.subrange(i as int, i + k + 1) == s.subrange(i as int, i + k).push(s[i + k]));
        assert(p@.subrange(0, k + 1) == p@.subrange(0, k as int).push(p@[k as int]));
        k += 1;
    }
    assert(p@.subrange(0, p.len() as int) == p@);
    true
}

/// Decides [`starts_with`].
pub fn has_prefix(s: &str, p: &str) -> (r: bool)
    ensures
        r == starts_with(s@, p@),
{
    let v = chars_of(s);
    let q = chars_of(p);
    assert(v@.subrange(0, v.len() as int) == v@);
    matches_at(&v, v.len(), &q, 0)
}

/// Decides [`ends_with`].
pub fn has_suffix(s: &str, p: &str) -> (r: bool)
    ensures
        r == ends_with(s@, p@),
{
    let v = chars_of(s);
    let q = chars_of(p);
    assert(v@.subrange(0, v.len() as int) == v@);
    if q.len() > v.len() {
        return false;
    }
    matches_at(&v, v.len(), &q, v.len() - q.len())
}

/// Decides [`contains`].
pub fn has_substring(s: &str, p: &str) -> (r: bool)
    ensures
        r == contains(s@, p@),
{
    let v = chars_of(s);
    let q = chars_of(p);
    assert(v@.subrange(0, v.len() as int) == v@);
    if q.len() > v.len() {
        return false;
    }
    let last: usize = v.len() - q.len();
    let mut i: usize = 0;
    while i < last
        invariant
            last == v.len() - q.len(),
            i <= last,
            v@ == s@,
            q@ == p@,
            v@.subrange(0, v.len() as int) == v@,
            forall|k: int| 0 <= k < i ==> !occurs_at(v@, q@, k),
        decreases last - i,
    {
        if matches_at(&v, v.len(), &q, i) {
            return true;
        }
        i += 1;
    }
    matches_at(&v, v.len(), &q, last)
}

/// The character that writes the decimal digit `d`.
pub open spec fn digit_char(d: nat) -> char
    recommends
        d < 10,
{
    (0x30 + d) as u8 as char
}

/// Whether `c` is one of `0` to `9`.
pub open spec fn is_digit(c: char) -> bool {
    0x30 <= c as u32 <= 0x39
}

/// The number that the decimal digit `c` writes.
pub open spec fn digit_value(c: char) -> nat
    recommends
        is_digit(c),
{
    (c as u32 - 0x30) as nat
}

/// `n` written in decimal, without sign or leading zeros.
pub open spec fn decimal(n: nat) -> Seq<char>
    decreases n,
{
    if n < 10 {
        seq![digit_char(n)]
    } else {
        decimal(n / 10).push(digit_char(n % 10))
    }
}

/// Appends `n`, written in decimal, to `out`.
pub fn push_decimal(out: &mut String, n: u64)
    ensures
        final(out)@ == old(out)@ + decimal(n as nat),
    decreases n,
{
    if n >= 10 {
        push_decimal(out, n / 10);
    }
    let d: u8 = (n % 10) as u8;
    push_char(out, (0x30u8 + d) as char);
    proof {
        if n >= 10 {
            assert(old(out)@ + decimal(n as nat / 10).push(digit_char(n as nat % 10)) == (old(out)@
                + decimal(n as nat / 10)).push(digit_char(n as nat % 10)));
        } else {
            assert(old(out)@ + seq![digit_char(n as nat)] == old(out)@.push(digit_char(n as nat)));
        }
    }
}

/// The number that a non-empty string of decimal digits writes; `None` for
/// the empty string and for one that holds any other character.
pub open spec fn digits_value(s: Seq<char>) -> Option<nat>
    decreases s.len(),
{
    if s.len() == 0 {
        None
    } else if !is_digit(s.last()) {
        None
    } else if s.len() == 1 {
        Some(digit_value(s.last()))
    } else {
        match digits_value(s.drop_last()) {
            Some(h) => Some(10 * h + digit_value(s.last())),
            None => None,
        }
    }
}

/// What `str::parse::<u64>` accepts: an optional `+`, then one or more
/// decimal digits whose value fits in 64 bits.
pub open spec fn parse_u64(s: Seq<char>) -> Option<u64> {
    let body = if s.len() > 0 && s[0] == '+' {
        s.subrange(1, s.len() as int)
    } else {
        s
    };
    match digits_value(body) {
        Some(n) => if n <= u64::MAX {
            Some(n as u64)
        } else {
            None
        },
        None => None,
    }
}

/// Adding characters to digits whose value is already out of range, or to
/// something that is no number, never gives a number in range.
pub proof fn lemma_digits_value_grows(s: Seq<char>, k: int, bound: nat)
    requires
        1 <= k <= s.len(),
        match digits_value(s.subrange(0, k)) {
            Some(n) => n > bound,
            None => true,
        },
    ensures
        match digits_value(s) {
            Some(n) => n > bound,
            None => true,
        },
    decreases s.len() - k,
{
    if k < s.len() {
        let t = s.subrange(0, k + 1);
        assert(t.drop_last() == s.subrange(0, k));
        lemma_digits_value_grows(s, k + 1, bound);
    } else {
        assert(s.subrange(0, k) == s);
    }
}

/// Reads `v[from..to]` as [`parse_u64`] does.
pub(crate) fn parse_u64_range(v: &Vec<char>, from: usize, to: usize) -> (r: Option<u64>)
    requires
        from <= to <= v.len(),
    ensures
        r == parse_u64(v@.subrange(from as int, to as int)),
{
    let ghost s = v@.subrange(from as int, to as int);
    let start: usize = if from < to && v[from] == '+' {
        from + 1
    } else {
        from
    };
    let ghost body = v@.subrange(start as int, to as int);
    assert(body == if s.len() > 0 && s[0] == '+' {
        s.subrange(1, s.len() as int)
    } else {
        s
    });
    if start == to {
        return None;
    }
    let mut acc: u64 = 0;
    let mut i: usize = start;
    while i < to
        invariant
            start <= i <= to <= v.len(),
            start < to,
            body == v@.subrange(start as int, to as int),
            parse_u64(v@.subrange(from as int, to as int)) == match digits_value(body) {
                Some(n) => if n <= u64::MAX {
                    Some(n as u64)
                } else {
                    None
                },
                None => None,
            },
            i == start ==> acc == 0,
            i > start ==> digits_value(body.subrange(0, i - start)) == Some(acc as nat),
        decreases to - i,
    {
        let c = v[i];
        let n: u32 = c as u32;
        let ghost next = body.subrange(0, i + 1 - start);
        proof {
            assert(next.last() == c);
            assert(next.drop_last() == body.subrange(0, i - start));
        }
        if n < 0x30 || n > 0x39 {
            proof {
                lemma_digits_value_grows(body, i + 1 - start, u64::MAX as nat);
            }
            return None;
        }
        let d: u64 = (n - 0x30) as u64;
        if acc > (u64::MAX - d) / 10 {
            proof {
                assert(10 * acc + d > u64::MAX);
                lemma_digits_value_grows(body, i + 1 - start, u64::MAX as nat);
            }
            return None;
        }
        acc = 10 * acc + d;
        i += 1;
    }
    assert(body.subrange(0, to - start) == body);
    Some(acc)
}

/// The views of a list of strings.
pub open spec fn texts(v: Seq<String>) -> Seq<Seq<char>> {
    Seq::new(v.len(), |i: int| v[i]@)
}

/// The view of an optional string.
pub open spec fn opt_text(o: Option<String>) -> Option<Seq<char>> {
    match o {
        Some(s) => Some(s@),
        None => None,
    }
}

/// The view of an optional string slice.
pub open spec fn opt_str_text(o: Option<&str>) -> Option<Seq<char>> {
    match o {
        Some(s) => Some(s@),
        None => None,
    }
}

/// `l` without one carriage return at its end.
pub open spec fn strip_cr(l: Seq<char>) -> Seq<char> {
    if l.len() > 0 && l.last() == '\r' {
        l.drop_last()
    } else {
        l
    }
}

/// The lines of `s`, as `str::lines` gives them: each ends before a line
/// feed, a carriage return just before that line feed is dropped with it, and
/// what follows the last line feed is a line of its own unless it is empty.
pub open spec fn lines(s: Seq<char>) -> Seq<Seq<char>>
    decreases s.len(),
{
    if s.len() == 0 {
        Seq::empty()
    } else {
        let n = run_len(s, not_char('\n'));
        if n >= s.len() {
            seq![s]
        } else {
            seq![strip_cr(s.subrange(0, n as int))] + lines(s.subrange(n as int + 1, s.len() as int))
        }
    }
}

/// Splits `s` into its [`lines`].
pub fn lines_of(s: &str) -> (r: Vec<String>)
    ensures
        texts(r@) == lines(s@),
{
    let v = chars_of(s);
    let mut out: Vec<String> = Vec::new();
    let mut pos: usize = 0;
    assert(v@.subrange(0, v.len() as int) == v@);
    assert(texts(out@) + lines(v@) == lines(v@));
    while pos < v.len()
        invariant
            pos <= v.len(),
            texts(out@) + lines(v@.subrange(pos as int, v.len() as int)) == lines(v@),
        decreases v.len() - pos,
    {
        let ghost rest = v@.subrange(pos as int, v.len() as int);
        let ghost before = texts(out@);
        let e = find_char(&v, '\n', pos, v.len());
        if e == v.len() {
            let line = string_of_range(&v, pos, e);
            out.push(line);
            pos = e;
            proof {
                assert(lines(rest) == seq![rest]);
                assert(texts(out@) == before.push(rest));
                assert(lines(v@.subrange(pos as int, v.len() as int)) == Seq::<Seq<char>>::empty());
                assert(texts(out@) + Seq::<Seq<char>>::empty() == before + seq![rest]);
            }
        } else {
            let end: usize = if e > pos && v[e - 1] == '\r' {
                e - 1
            } else {
                e
            };
            let line = string_of_range(&v, pos, end);
            out.push(line);
            proof {
                let n = e - pos;
                let raw = rest.subrange(0, n);
                assert(raw == v@.subrange(pos as int, e as int));
                assert(strip_cr(raw) == v@.subrange(pos as int, end as int));
                assert(rest.subrange(n + 1, rest.len() as int) == v@.subrange(
                    e + 1,
                    v.len() as int,
                ));
                assert(texts(out@) == before.push(strip_cr(raw)));
                assert(before.push(strip_cr(raw)) + lines(v@.subrange(e + 1, v.len() as int))
                    == before + (seq![strip_cr(raw)] + lines(
                    v@.subrange(e + 1, v.len() as int),
                )));
            }
            pos = e + 1;
        }
    }
    assert(lines(v@.subrange(pos as int, v.len() as int)) == Seq::<Seq<char>>::empty());
    assert(texts(out@) + Seq::<Seq<char>>::empty() == texts(out@));
    out
}

/// The first run of characters of `s` that are not white space, if any.
pub open spec fn first_token(s: Seq<char>) -> Option<Seq<char>> {
    let t = trim_start(s);
    if t.len() == 0 {
        None
    } else {
        Some(t.subrange(0, run_len(t, non_space()) as int))
    }
}

/// What follows the [`first_token`] of `s`.
pub open spec fn after_first_token(s: Seq<char>) -> Seq<char> {
    let t = trim_start(s);
    t.subrange(run_len(t, non_space()) as int, t.len() as int)
}

/// A first token is never empty, and what follows it is shorter than `s`.
pub proof fn lemma_first_token(s: Seq<char>)
    ensures
        run_len(s, space()) <= s.len(),
        run_len(trim_start(s), non_space()) <= trim_start(s).len(),
        first_token(s) matches Some(t) ==> t.len() > 0 && after_first_token(s).len() < s.len(),
{
    lemma_run_len(s, space());
    let t = trim_start(s);
    lemma_run_len(t, non_space());
    if t.len() > 0 {
        assert(t[0] == s[run_len(s, space()) as int]);
        assert(non_space()(t[0]));
    }
}

/// The runs of characters of `s` that are not white space, in order, as
/// `str::split_whitespace` gives them.
pub open spec fn tokens(s: Seq<char>) -> Seq<Seq<char>>
    decreases s.len(),
    via tokens_decreases
{
    match first_token(s) {
        None => Seq::empty(),
        Some(t) => seq![t] + tokens(after_first_token(s)),
    }
}

#[via_fn]
proof fn tokens_decreases(s: Seq<char>) {
    lemma_first_token(s);
}

/// Reads the [`first_token`] of `v[from..to]`: the indices where it starts
/// and ends, both `to` if there is none.
pub(crate) fn first_token_range(v: &Vec<char>, from: usize, to: usize) -> (r: (usize, usize))
    requires
        from <= to <= v.len(),
    ensures
        from <= r.0 <= r.1 <= to,
        r.0 == r.1 <==> first_token(v@.subrange(from as int, to as int)) is None,
        r.0 < r.1 ==> first_token(v@.subrange(from as int, to as int)) == Some(
            v@.subrange(r.0 as int, r.1 as int),
        ),
        after_first_token(v@.subrange(from as int, to as int)) == v@.subrange(
            r.1 as int,
            to as int,
        ),
{
    let a = skip_space(v, from, to);
    let b = skip_non_space(v, a, to);
    proof {
        let s = v@.subrange(from as int, to as int);
        let t = trim_start(s);
        lemma_first_token(s);
        assert(t == v@.subrange(a as int, to as int));
        assert(t.subrange(0, b - a) == v@.subrange(a as int, b as int));
        assert(t.subrange(b - a, t.len() as int) == v@.subrange(b as int, to as int));
    }
    (a, b)
}

/// Splits `s` into its [`tokens`].
pub fn tokens_of(s: &str) -> (r: Vec<String>)
    ensures
        texts(r@) == tokens(s@),
{
    let v = chars_of(s);
    let mut out: Vec<String> = Vec::new();
    let mut pos: usize = 0;
    assert(v@.subrange(0, v.len() as int) == v@);
    assert(texts(out@) + tokens(v@) == tokens(v@));
    loop
        invariant
            pos <= v.len(),
            texts(out@) + tokens(v@.subrange(pos as int, v.len() as int)) == tokens(v@),
        ensures
            texts(out@) == tokens(v@),
        decreases v.len() - pos,
    {
        let ghost rest = v@.subrange(pos as int, v.len() as int);
        let ghost before = texts(out@);
        let (a, b) = first_token_range(&v, pos, v.len());
        if a == b {
            assert(tokens(rest) == Seq::<Seq<char>>::empty());
            assert(before + Seq::<Seq<char>>::empty() == before);
            break;
        }
        let token = string_of_range(&v, a, b);
        out.push(token);
        proof {
            let t = v@.subrange(a as int, b as int);
            let after = v@.subrange(b as int, v.len() as int);
            assert(tokens(rest) == seq![t] + tokens(after));
            assert(texts(out@) == before.push(t));
            assert(before.push(t) + tokens(after) == before + (seq![t] + tokens(after)));
        }
        pos = b;
    }
    out
}

/// The parts of `parts` written one after another with `sep` between them.
pub open spec fn join(parts: Seq<Seq<char>>, sep: Seq<char>) -> Seq<char>
    decreases parts.len(),
{
    if parts.len() == 0 {
        Seq::empty()
    } else if parts.len() == 1 {
        parts[0]
    } else {
        join(parts.drop_last(), sep) + sep + parts.last()
    }
}

/// Appends the strings of `parts` to `out`, with `sep` between them.
pub fn push_joined(out: &mut String, parts: &Vec<String>, sep: &str)
    ensures
        final(out)@ == old(out)@ + join(texts(parts@), sep@),
{
    let mut i: usize = 0;
    assert(texts(parts@).subrange(0, 0) == Seq::<Seq<char>>::empty());
    assert(old(out)@ + Seq::<char>::empty() == old(out)@);
    while i < parts.len()
        invariant
            i <= parts.len(),
            out@ == old(out)@ + join(texts(parts@).subrange(0, i as int), sep@),
        decreases parts.len() - i,
    {
        let ghost done = texts(parts@).subrange(0, i as int);
        let ghost next = texts(parts@).subrange(0, i + 1);
        proof {
            assert(next.drop_last() == done);
            assert(next.last() == parts@[i as int]@);
        }
        if i > 0 {
            push_text(out, sep);
        }
        push_text(out, parts[i].as_str());
        proof {
            if i > 0 {
                assert(old(out)@ + join(done, sep@) + sep@ + next.last() == old(out)@ + (join(
                    done,
                    sep@,
                ) + sep@ + next.last()));
            } else {
                assert(join(done, sep@) == Seq::<char>::empty());
                assert(old(out)@ + Seq::<char>::empty() + next.last() == old(out)@ + next.last());
            }
        }
        i += 1;
    }
    assert(texts(parts@).subrange(0, parts.len() as int) == texts(parts@));
}

} // verus!
