//! Taking text apart.

use vstd::prelude::*;
use vstd::slice::slice_subrange;

verus! {

/// The characters of a text.
pub fn chars_of(s: &str) -> (r: Vec<char>)
    ensures
        r@ == s@,
{
    let mut out: Vec<char> = Vec::new();
    for c in it: s.chars()
        invariant
            it.seq() == s@,
            out@ == it.seq().take(it.index()),
    {
        out.push(c);
        assert(it.seq().take(it.index() + 1) =~= it.seq().take(it.index()).push(c));
    }
    assert(s@.take(s@.len() as int) =~= s@);
    out
}

/// Whether a character is white space in the sense of Unicode.
pub open spec fn blank(c: char) -> bool {
    let u = c as u32;
    ||| 9 <= u <= 13
    ||| u == 32
    ||| u == 0x85
    ||| u == 0xa0
    ||| u == 0x1680
    ||| 0x2000 <= u <= 0x200a
    ||| u == 0x2028
    ||| u == 0x2029
    ||| u == 0x202f
    ||| u == 0x205f
    ||| u == 0x3000
}

/// Computes [`blank`].
pub fn is_blank(c: char) -> (r: bool)
    ensures
        r == blank(c),
{
    let u: u32 = c as u32;
    (9 <= u && u <= 13) || u == 32 || u == 0x85 || u == 0xa0 || u == 0x1680 || (0x2000 <= u && u
        <= 0x200a) || u == 0x2028 || u == 0x2029 || u == 0x202f || u == 0x205f || u == 0x3000
}

/// A text without the white space at its start.
pub open spec fn trim_start(s: Seq<char>) -> Seq<char>
    decreases s.len(),
{
    if s.len() > 0 && blank(s[0]) {
        trim_start(s.skip(1))
    } else {
        s
    }
}

/// A text without the white space at its end.
pub open spec fn trim_end(s: Seq<char>) -> Seq<char>
    decreases s.len(),
{
    if s.len() > 0 && blank(s.last()) {
        trim_end(s.drop_last())
    } else {
        s
    }
}

/// A text without the white space around it.
pub open spec fn trimmed(s: Seq<char>) -> Seq<char> {
    trim_end(trim_start(s))
}

/// How much white space a text starts with.
fn leading(s: &[char]) -> (n: usize)
    ensures
        n <= s@.len(),
        trim_start(s@) == s@.skip(n as int),
        n < s@.len() ==> !blank(s@[n as int]),
{
    let mut n: usize = 0;
    assert(s@.skip(0) =~= s@);
    while n < s.len() && is_blank(s[n])
        invariant
            n <= s@.len(),
            trim_start(s@) == trim_start(s@.skip(n as int)),
        decreases s@.len() - n,
    {
        assert(s@.skip(n as int).skip(1) =~= s@.skip(n + 1));
        n += 1;
    }
    n
}

/// Takes the white space around a text off.
pub fn trim<'a>(s: &'a [char]) -> (r: &'a [char])
    ensures
        r@ == trimmed(s@),
{
    let a: usize = leading(s);
    let mut b: usize = s.len();
    let ghost t = s@.skip(a as int);
    assert(s@.subrange(a as int, b as int) =~= t);
    while b > a && is_blank(s[b - 1])
        invariant
            a <= b <= s@.len(),
            t == s@.skip(a as int),
            trim_end(t) == trim_end(s@.subrange(a as int, b as int)),
        decreases b,
    {
        assert(s@.subrange(a as int, b as int).drop_last() =~= s@.subrange(a as int, b - 1));
        b -= 1;
    }
    slice_subrange(s, a, b)
}

/// Whether `part` stands at place `i` of `s`.
pub open spec fn stands_at<T>(s: Seq<T>, i: int, part: Seq<T>) -> bool {
    0 <= i && i + part.len() <= s.len() && s.subrange(i, i + part.len()) == part
}

/// The first place from `i` on at which `part` stands.
pub open spec fn first_at<T>(s: Seq<T>, part: Seq<T>, i: int) -> Option<int>
    decreases s.len() - i + 1,
{
    if i < 0 || i + part.len() > s.len() {
        None
    } else if stands_at(s, i, part) {
        Some(i)
    } else {
        first_at(s, part, i + 1)
    }
}

/// What [`first_at`] finds is the first place.
pub proof fn law_first_at_is_first<T>(s: Seq<T>, part: Seq<T>, i: int)
    requires
        0 <= i,
    ensures
        match first_at(s, part, i) {
            Some(k) => i <= k && stands_at(s, k, part) && forall|j: int|
                i <= j < k ==> !#[trigger] stands_at(s, j, part),
            None => forall|j: int| i <= j ==> !#[trigger] stands_at(s, j, part),
        },
    decreases s.len() - i + 1,
{
    if i + part.len() <= s.len() && !stands_at(s, i, part) {
        law_first_at_is_first(s, part, i + 1);
    }
}

/// Pieces of a text between the places where `sep` stands.
pub open spec fn pieces(s: Seq<char>, sep: Seq<char>) -> Seq<Seq<char>>
    decreases s.len(),
{
    match first_at(s, sep, 0) {
        None => seq![s],
        Some(i) => if sep.len() > 0 && 0 <= i && i + sep.len() <= s.len() {
            seq![s.take(i)] + pieces(s.skip(i + sep.len()), sep)
        } else {
            seq![s]
        },
    }
}

/// Whether a text starts with a line break.
fn breaks_at(s: &[char], i: usize) -> (r: bool)
    requires
        i < s@.len(),
    ensures
        r == stands_at(s@, i as int, seq!['\r', '\n']),
{
    let r: bool = i < s.len() - 1 && s[i] == '\r' && s[i + 1] == '\n';
    proof {
        if i + 2 <= s@.len() {
            let t = s@.subrange(i as int, i + 2);
            if r {
                assert(t =~= seq!['\r', '\n']);
            } else if t == seq!['\r', '\n'] {
                assert(t[0] == '\r');
                assert(t[1] == '\n');
            }
        }
    }
    r
}

/// Splits off the first line: it and where the next one starts, if there is one.
pub fn first_line(s: &[char]) -> (r: Option<usize>)
    ensures
        match r {
            Some(i) => first_at(s@, seq!['\r', '\n'], 0) == Some(i as int) && i + 2 <= s@.len(),
            None => first_at(s@, seq!['\r', '\n'], 0) is None,
        },
{
    let mut i: usize = 0;
    while i < s.len()
        invariant
            i <= s@.len(),
            first_at(s@, seq!['\r', '\n'], 0) == first_at(s@, seq!['\r', '\n'], i as int),
        decreases s@.len() - i,
    {
        if breaks_at(s, i) {
            return Some(i);
        }
        i += 1;
    }
    None
}

/// The first comma of a text.
pub fn first_comma(s: &[char]) -> (r: Option<usize>)
    ensures
        match r {
            Some(i) => first_at(s@, seq![','], 0) == Some(i as int) && i < s@.len(),
            None => first_at(s@, seq![','], 0) is None,
        },
{
    let mut i: usize = 0;
    while i < s.len()
        invariant
            i <= s@.len(),
            first_at(s@, seq![','], 0) == first_at(s@, seq![','], i as int),
        decreases s@.len() - i,
    {
        let here: bool = s[i] == ',';
        proof {
            let t = s@.subrange(i as int, i + 1);
            assert(t[0] == s@[i as int]);
            if here {
                assert(t =~= seq![',']);
            } else {
                assert(seq![','][0] == ',');
            }
        }
        if here {
            return Some(i);
        }
        i += 1;
    }
    None
}

/// How far a text goes before its first white space.
pub open spec fn run(s: Seq<char>) -> nat
    decreases s.len(),
{
    if s.len() > 0 && !blank(s[0]) {
        1 + run(s.skip(1))
    } else {
        0
    }
}

/// A word ends where white space follows it.
pub proof fn lemma_run_ends(word: Seq<char>, rest: Seq<char>)
    requires
        forall|i: int| 0 <= i < word.len() ==> !blank(#[trigger] word[i]),
        rest.len() > 0 ==> blank(rest[0]),
    ensures
        run(word + rest) == word.len(),
    decreases word.len(),
{
    let s = word + rest;
    if word.len() > 0 {
        assert(s[0] == word[0]);
        assert(!blank(word[0]));
        let tail = word.skip(1);
        assert forall|i: int| 0 <= i < tail.len() implies !blank(#[trigger] tail[i]) by {
            assert(tail[i] == word[i + 1]);
        }
        lemma_run_ends(tail, rest);
        assert(s.skip(1) =~= tail + rest);
    } else {
        assert(s =~= rest);
    }
}

/// A run is no longer than its text.
pub proof fn lemma_run_fits(s: Seq<char>)
    ensures
        run(s) <= s.len(),
    decreases s.len(),
{
    if s.len() > 0 && !blank(s[0]) {
        lemma_run_fits(s.skip(1));
    }
}

/// The first word of a text, empty where it has none, and what follows it.
pub open spec fn word_and_rest(s: Seq<char>) -> (Seq<char>, Seq<char>) {
    let t = trim_start(s);
    (t.take(run(t) as int), t.skip(run(t) as int))
}

/// Finds the first word from `from` on: where it starts and where it ends.
pub fn next_word(s: &[char], from: usize) -> (r: (usize, usize))
    requires
        from <= s@.len(),
    ensures
        from <= r.0 <= r.1 <= s@.len(),
        word_and_rest(s@.skip(from as int)) == (
            s@.subrange(r.0 as int, r.1 as int),
            s@.skip(r.1 as int),
        ),
{
    let tail: &[char] = slice_subrange(s, from, s.len());
    assert(tail@ =~= s@.skip(from as int));
    let a: usize = from + leading(tail);
    let ghost t = s@.skip(a as int);
    assert(tail@.skip(a - from) =~= t);
    let mut b: usize = a;
    while b < s.len() && !is_blank(s[b])
        invariant
            a <= b <= s@.len(),
            t == s@.skip(a as int),
            run(t) == (b - a) + run(s@.skip(b as int)),
        decreases s@.len() - b,
    {
        assert(s@.skip(b as int).skip(1) =~= s@.skip(b + 1));
        assert(s@.skip(b as int)[0] == s@[b as int]);
        b += 1;
    }
    proof {
        if b < s@.len() {
            assert(s@.skip(b as int)[0] == s@[b as int]);
        }
        assert(run(t) == b - a);
        assert(t.take(b - a) =~= s@.subrange(a as int, b as int));
        assert(t.skip(b - a) =~= s@.skip(b as int));
    }
    (a, b)
}

/// A character with its ASCII capital made small.
pub open spec fn small(c: char) -> char {
    if 'A' <= c && c <= 'Z' {
        (c as u32 + 32) as char
    } else {
        c
    }
}

/// A text with its ASCII capitals made small.
pub open spec fn lowered(s: Seq<char>) -> Seq<char> {
    s.map_values(|c: char| small(c))
}

/// A character of its own, or the number of a capital's small letter.
fn small_code(c: char) -> (r: u32)
    ensures
        r == small(c) as u32,
{
    let u: u32 = c as u32;
    if 65 <= u && u <= 90 {
        u + 32
    } else {
        u
    }
}

/// Finds out whether two texts are the same up to ASCII capitals.
pub fn same_ignoring_case(a: &[char], b: &[char]) -> (r: bool)
    ensures
        r == (lowered(a@) == lowered(b@)),
{
    if a.len() != b.len() {
        assert(lowered(a@).len() != lowered(b@).len());
        return false;
    }
    let mut i: usize = 0;
    while i < a.len()
        invariant
            i <= a@.len(),
            a@.len() == b@.len(),
            forall|k: int| 0 <= k < i ==> small(#[trigger] a@[k]) == small(b@[k]),
        decreases a@.len() - i,
    {
        if small_code(a[i]) != small_code(b[i]) {
            assert(lowered(a@)[i as int] != lowered(b@)[i as int]);
            return false;
        }
        i += 1;
    }
    assert(lowered(a@) =~= lowered(b@));
    true
}

/// Whether a text starts with another.
pub open spec fn starts(s: Seq<char>, p: Seq<char>) -> bool {
    p.len() <= s.len() && s.take(p.len() as int) == p
}

/// What follows a start of a text.
pub fn strip_start<'a>(s: &'a [char], p: &[char]) -> (r: Option<&'a [char]>)
    ensures
        match r {
            Some(t) => starts(s@, p@) && t@ == s@.skip(p@.len() as int),
            None => !starts(s@, p@),
        },
{
    if p.len() > s.len() {
        return None;
    }
    let mut i: usize = 0;
    while i < p.len()
        invariant
            i <= p@.len() <= s@.len(),
            forall|k: int| 0 <= k < i ==> s@[k] == #[trigger] p@[k],
        decreases p@.len() - i,
    {
        if s[i] != p[i] {
            assert(s@.take(p@.len() as int)[i as int] != p@[i as int]);
            return None;
        }
        i += 1;
    }
    assert(s@.take(p@.len() as int) =~= p@);
    let r: &'a [char] = slice_subrange(s, p.len(), s.len());
    assert(r@ =~= s@.skip(p@.len() as int));
    Some(r)
}

/// What a digit stands for, in a base of at most 16.
pub open spec fn digit_value(c: char) -> Option<nat> {
    if '0' <= c && c <= '9' {
        Some((c as u32 - 48) as nat)
    } else if 'a' <= c && c <= 'f' {
        Some((c as u32 - 87) as nat)
    } else if 'A' <= c && c <= 'F' {
        Some((c as u32 - 55) as nat)
    } else {
        None
    }
}

/// Whether a character is a digit of a base.
pub open spec fn digit_of(c: char, base: nat) -> bool {
    digit_value(c) matches Some(v) && v < base
}

/// What digits stand for in a base.
pub open spec fn digits_value(s: Seq<char>, base: nat) -> nat
    decreases s.len(),
{
    if s.len() == 0 {
        0
    } else {
        digits_value(s.drop_last(), base) * base + digit_value(s.last())->0
    }
}

/// The digits of a number: what is left of a text once one leading plus is taken off.
pub open spec fn unsigned_digits(s: Seq<char>) -> Seq<char> {
    if s.len() > 0 && s[0] == '+' {
        s.skip(1)
    } else {
        s
    }
}

/// The number that a text stands for: at least one digit, after a plus or nothing, and no more
/// than the machine can count to.
pub open spec fn number(s: Seq<char>, base: nat) -> Option<nat> {
    let t = unsigned_digits(s);
    if t.len() > 0 && (forall|i: int| 0 <= i < t.len() ==> digit_of(#[trigger] t[i], base))
        && digits_value(t, base) <= usize::MAX {
        Some(digits_value(t, base))
    } else {
        None
    }
}

fn value_of_digit(c: char) -> (r: Option<usize>)
    ensures
        match r {
            Some(v) => digit_value(c) == Some(v as nat) && v < 16,
            None => digit_value(c) is None,
        },
{
    let u: u32 = c as u32;
    if 48 <= u && u <= 57 {
        Some((u - 48) as usize)
    } else if 97 <= u && u <= 102 {
        Some((u - 87) as usize)
    } else if 65 <= u && u <= 70 {
        Some((u - 55) as usize)
    } else {
        None
    }
}

/// More digits never make a number smaller.
proof fn lemma_digits_grow(s: Seq<char>, n: int, base: nat)
    requires
        0 <= n <= s.len(),
        base > 0,
    ensures
        digits_value(s.take(n), base) <= digits_value(s, base),
    decreases s.len() - n,
{
    if n < s.len() {
        lemma_digits_grow(s, n + 1, base);
        let t = s.take(n + 1);
        assert(t.drop_last() =~= s.take(n));
        let x = digits_value(s.take(n), base);
        assert(x * base >= x) by (nonlinear_arith)
            requires
                base > 0,
        ;
    } else {
        assert(s.take(n) =~= s);
    }
}

/// Reads a number, in base ten or sixteen.
pub fn read_number(s: &[char], base: usize) -> (r: Option<usize>)
    requires
        base == 10 || base == 16,
    ensures
        match r {
            Some(v) => number(s@, base as nat) == Some(v as nat),
            None => number(s@, base as nat) is None,
        },
{
    let from: usize = if s.len() > 0 && s[0] == '+' {
        1
    } else {
        0
    };
    let ghost t = unsigned_digits(s@);
    assert(from == 0 ==> s@.skip(0) =~= s@);
    assert(t =~= s@.skip(from as int));
    if from == s.len() {
        return None;
    }
    let mut v: usize = 0;
    let mut i: usize = from;
    assert(t.take(0) =~= Seq::empty());
    while i < s.len()
        invariant
            from <= i <= s@.len(),
            base == 10 || base == 16,
            t == s@.skip(from as int),
            t == unsigned_digits(s@),
            v == digits_value(t.take(i - from), base as nat),
            forall|k: int| 0 <= k < i - from ==> digit_of(#[trigger] t[k], base as nat),
        decreases s@.len() - i,
    {
        let ghost next = t.take(i - from + 1);
        assert(next.drop_last() =~= t.take(i - from));
        assert(next.last() == t[i - from]);
        assert(t[i - from] == s@[i as int]);
        let d: usize = match value_of_digit(s[i]) {
            None => {
                assert(!digit_of(t[i - from], base as nat));
                return None;
            },
            Some(d) => d,
        };
        if d >= base {
            assert(!digit_of(t[i - from], base as nat));
            return None;
        }
        proof {
            lemma_digits_grow(t, i - from + 1, base as nat);
            assert(v * base == base * v) by (nonlinear_arith);
        }
        match v.checked_mul(base) {
            None => {
                assert(digits_value(t, base as nat) > usize::MAX);
                return None;
            },
            Some(x) => match x.checked_add(d) {
                None => {
                    assert(digits_value(t, base as nat) > usize::MAX);
                    return None;
                },
                Some(y) => {
                    v = y;
                },
            },
        }
        i += 1;
    }
    assert(t.take(t.len() as int) =~= t);
    Some(v)
}

} // verus!
