//! Text as sequences of characters: reading it, building it, and writing numbers into it.

use vstd::prelude::*;
use vstd::string::*;

verus! {

broadcast use vstd::string::group_string_axioms;

/// `String::push`: the character goes at the end and nothing before it changes.
pub assume_specification[ String::push ](s: &mut String, c: char)
    ensures
        final(s)@ == old(s)@.push(c),
;

/// The characters of a string, in order.
pub fn chars_of(s: &str) -> (out: Vec<char>)
    ensures
        out@ == s@,
{
    let mut out: Vec<char> = Vec::new();
    for c in iter: s.chars()
        invariant
            out@ =~= s@.take(iter.index()),
            iter.seq() == s@,
    {
        out.push(c);
    }
    assert(s@.take(s@.len() as int) =~= s@);
    out
}

/// The character that writes the digit `d`.
pub open spec fn digit(d: nat) -> char {
    ('0' as u32 + d) as char
}

/// `n` in decimal, with no leading zero.
pub open spec fn decimal(n: nat) -> Seq<char>
    decreases n,
{
    if n < 10 {
        seq![digit(n)]
    } else {
        decimal(n / 10).push(digit(n % 10))
    }
}

/// `n` in decimal, with a minus sign in front when it is negative.
pub open spec fn signed_decimal(n: int) -> Seq<char> {
    if n < 0 {
        seq!['-'] + decimal((-n) as nat)
    } else {
        decimal(n as nat)
    }
}

/// Writes `n` in decimal at the end of `out`.
pub fn push_decimal(out: &mut String, n: u64)
    ensures
        final(out)@ == old(out)@ + decimal(n as nat),
{
    push_large(out, n as u128);
}

/// Writes `n`, which may be large, in decimal at the end of `out`.
pub fn push_large(out: &mut String, n: u128)
    ensures
        final(out)@ == old(out)@ + decimal(n as nat),
    decreases n,
{
    if n >= 10 {
        push_large(out, n / 10);
    }
    let d: u8 = (n % 10) as u8;
    let c: char = (48u8 + d) as char;
    assert(c == digit(n as nat % 10));
    out.push(c);
}

/// Writes `n` in decimal at the end of `out`, signed when it is negative.
pub fn push_signed(out: &mut String, n: i32)
    ensures
        final(out)@ == old(out)@ + signed_decimal(n as int),
{
    if n < 0 {
        out.push('-');
        let magnitude: u64 = (-(n as i64)) as u64;
        push_decimal(out, magnitude);
        assert(old(out)@.push('-') + decimal((-n) as nat) =~= old(out)@ + signed_decimal(
            n as int,
        ));
    } else {
        push_decimal(out, n as u64);
    }
}

/// Whether a character is white space: the Unicode property of that name.
pub open spec fn is_white(c: char) -> bool {
    let n = c as u32;
    ||| 0x9 <= n <= 0xd
    ||| n == 0x20
    ||| n == 0x85
    ||| n == 0xa0
    ||| n == 0x1680
    ||| 0x2000 <= n <= 0x200a
    ||| n == 0x2028
    ||| n == 0x2029
    ||| n == 0x202f
    ||| n == 0x205f
    ||| n == 0x3000
}

fn white(c: char) -> (is: bool)
    ensures
        is == is_white(c),
{
    let n: u32 = c as u32;
    (0x9 <= n && n <= 0xd) || n == 0x20 || n == 0x85 || n == 0xa0 || n == 0x1680 || (0x2000 <= n
        && n <= 0x200a) || n == 0x2028 || n == 0x2029 || n == 0x202f || n == 0x205f || n == 0x3000
}

/// A text without the white space it starts with.
pub open spec fn trim_start(s: Seq<char>) -> Seq<char>
    decreases s.len(),
{
    if s.len() > 0 && is_white(s[0]) {
        trim_start(s.drop_first())
    } else {
        s
    }
}

/// A text without the white space it ends with.
pub open spec fn trim_end(s: Seq<char>) -> Seq<char>
    decreases s.len(),
{
    if s.len() > 0 && is_white(s.last()) {
        trim_end(s.drop_last())
    } else {
        s
    }
}

/// A text without the white space round it.
pub open spec fn trimmed(s: Seq<char>) -> Seq<char> {
    trim_end(trim_start(s))
}

/// A text that has no white space round it.
pub open spec fn is_trim(s: Seq<char>) -> bool {
    s.len() > 0 ==> !is_white(s[0]) && !is_white(s.last())
}

/// Trimming a text with no white space round it changes nothing.
pub proof fn lemma_trim_of_trim(s: Seq<char>)
    requires
        is_trim(s),
    ensures
        trimmed(s) == s,
{
}

/// The part of `s` from `from` up to `to`.
pub fn part(s: &Vec<char>, from: usize, to: usize) -> (out: Vec<char>)
    requires
        from <= to <= s@.len(),
    ensures
        out@ == s@.subrange(from as int, to as int),
{
    let mut out: Vec<char> = Vec::new();
    let mut i: usize = from;
    while i < to
        invariant
            from <= i <= to <= s@.len(),
            out@ =~= s@.subrange(from as int, i as int),
        decreases to - i,
    {
        out.push(s[i]);
        i = i + 1;
    }
    out
}

/// A text without the white space round it.
pub fn trim(s: &Vec<char>) -> (out: Vec<char>)
    ensures
        out@ == trimmed(s@),
{
    let n: usize = s.len();
    let mut from: usize = 0;
    assert(s@.skip(0) =~= s@);
    while from < n && white(s[from])
        invariant
            from <= n,
            n == s@.len(),
            trim_start(s@) == trim_start(s@.skip(from as int)),
        decreases n - from,
    {
        assert(s@.skip(from as int).drop_first() =~= s@.skip(from as int + 1));
        assert(s@.skip(from as int)[0] == s@[from as int]);
        from = from + 1;
    }
    let ghost body = s@.skip(from as int);
    proof {
        if from < n {
            assert(body[0] == s@[from as int]);
        }
        assert(trim_start(s@) == body);
    }
    let mut to: usize = n;
    assert(body.take(n - from) =~= body);
    while to > from && white(s[to - 1])
        invariant
            from <= to <= n,
            n == s@.len(),
            body == s@.skip(from as int),
            trim_end(body) == trim_end(body.take(to - from)),
        decreases to,
    {
        assert(body.take(to - from).drop_last() =~= body.take(to - from - 1));
        assert(body.take(to - from).last() == s@[to - 1]);
        to = to - 1;
    }
    proof {
        let rest = body.take(to - from);
        if to > from {
            assert(rest.last() == s@[to - 1]);
        }
        assert(trim_end(rest) == rest);
        assert(rest =~= s@.subrange(from as int, to as int));
    }
    part(s, from, to)
}

/// Whether `s` is the text `t`.
pub fn is_text(s: &Vec<char>, t: &str) -> (same: bool)
    ensures
        same == (s@ == t@),
{
    let u: Vec<char> = chars_of(t);
    if s.len() != u.len() {
        return false;
    }
    let mut i: usize = 0;
    while i < s.len()
        invariant
            i <= s.len(),
            s.len() == u.len(),
            u@ == t@,
            forall|j: int| 0 <= j < i ==> #[trigger] s@[j] == u@[j],
        decreases s.len() - i,
    {
        if s[i] != u[i] {
            return false;
        }
        i = i + 1;
    }
    assert(s@ =~= t@);
    true
}

/// A string of these characters.
pub fn string_of(s: &Vec<char>) -> (out: String)
    ensures
        out@ == s@,
{
    let mut out: String = String::new();
    let mut i: usize = 0;
    while i < s.len()
        invariant
            i <= s.len(),
            out@ =~= s@.take(i as int),
        decreases s.len() - i,
    {
        out.push(s[i]);
        i = i + 1;
    }
    assert(s@.take(i as int) =~= s@);
    out
}

/// What a run of decimal digits stands for, if it is one.
pub open spec fn digits_value(s: Seq<char>) -> Option<nat>
    decreases s.len(),
{
    if s.len() == 0 {
        None
    } else if !('0' <= s.last() <= '9') {
        None
    } else if s.len() == 1 {
        Some((s.last() as int - '0' as int) as nat)
    } else {
        match digits_value(s.drop_last()) {
            Some(n) => Some((n * 10 + (s.last() as int - '0' as int)) as nat),
            None => None,
        }
    }
}

/// What an unsigned decimal stands for, if it is one: digits, with a plus sign in front of them
/// or not.
pub open spec fn unsigned_value(s: Seq<char>) -> Option<nat> {
    if s.len() > 0 && s[0] == '+' {
        digits_value(s.drop_first())
    } else {
        digits_value(s)
    }
}

/// Reads an unsigned decimal that is below `cap`. Any other text, and any other number, is `None`.
pub fn small_unsigned(s: &Vec<char>, cap: u32) -> (n: Option<u32>)
    requires
        cap <= 0xffff,
    ensures
        match n {
            Some(v) => unsigned_value(s@) == Some(v as nat) && v < cap,
            None => match unsigned_value(s@) {
                Some(v) => v >= cap,
                None => true,
            },
        },
{
    let mut i: usize = if s.len() > 0 && s[0] == '+' {
        1
    } else {
        0
    };
    let ghost from = i as int;
    let ghost body = s@.skip(from);
    proof {
        if from == 1 {
            assert(body =~= s@.drop_first());
        } else {
            assert(body =~= s@);
        }
    }
    if i >= s.len() {
        return None;
    }
    let mut v: u32 = 0;
    let mut big: bool = false;
    while i < s.len()
        invariant
            0 <= from <= i <= s@.len(),
            cap <= 0xffff,
            body == s@.skip(from),
            unsigned_value(s@) == digits_value(body),
            i > from ==> {
                &&& digits_value(body.take(i - from)) is Some
                &&& !big ==> digits_value(body.take(i - from)) == Some(v as nat)
                &&& big ==> digits_value(body.take(i - from))->0 >= cap
            },
            i == from ==> v == 0 && !big,
            !big && i > from ==> v < cap,
        decreases s.len() - i,
    {
        let c: char = s[i];
        let ghost now = body.take(i - from + 1);
        proof {
            assert(now.last() == c);
            assert(now.drop_last() =~= body.take(i - from));
        }
        if !('0' <= c && c <= '9') {
            proof {
                lemma_bad_digit(body, i - from);
            }
            return None;
        }
        let d: u32 = digit_of(c);
        if !big {
            v = v * 10 + d;
            if v >= cap {
                big = true;
            }
        }
        proof {
            if i == from {
                assert(now.len() == 1);
            }
        }
        i = i + 1;
    }
    assert(body.take(i - from) =~= body);
    if big {
        None
    } else {
        Some(v)
    }
}

fn digit_of(c: char) -> (d: u32)
    requires
        '0' <= c <= '9',
    ensures
        d == c as int - '0' as int,
        d < 10,
{
    c as u32 - 48
}

proof fn lemma_bad_digit(s: Seq<char>, at: int)
    requires
        0 <= at < s.len(),
        !('0' <= s[at] <= '9'),
    ensures
        digits_value(s) is None,
    decreases s.len(),
{
    if at < s.len() - 1 {
        lemma_bad_digit(s.drop_last(), at);
    }
}

/// A digit character is what `decimal` writes for it, so a number reads back as itself.
pub proof fn law_decimal_reads_back(n: nat)
    ensures
        digits_value(decimal(n)) == Some(n),
        decimal(n).len() > 0,
        '0' <= decimal(n)[0] <= '9',
        '0' <= decimal(n).last() <= '9',
    decreases n,
{
    if n >= 10 {
        law_decimal_reads_back(n / 10);
        assert(decimal(n).drop_last() =~= decimal(n / 10));
    }
}

proof fn lemma_trims_start(s: Seq<char>) -> (n: nat)
    ensures
        n <= s.len(),
        trim_start(s) == s.skip(n as int),
        forall|i: int| 0 <= i < n ==> is_white(#[trigger] s[i]),
        n < s.len() ==> !is_white(s[n as int]),
    decreases s.len(),
{
    if s.len() > 0 && is_white(s[0]) {
        let rest = s.drop_first();
        let n = lemma_trims_start(rest);
        assert(rest.skip(n as int) =~= s.skip(n as int + 1));
        assert forall|i: int| 0 <= i < n + 1 implies is_white(#[trigger] s[i]) by {
            if i > 0 {
                assert(rest[i - 1] == s[i]);
            }
        }
        if n + 1 < s.len() {
            assert(rest[n as int] == s[n as int + 1]);
        }
        n + 1
    } else {
        assert(s.skip(0) =~= s);
        0
    }
}

proof fn lemma_trims_end(s: Seq<char>) -> (n: nat)
    ensures
        n <= s.len(),
        trim_end(s) == s.take(n as int),
        forall|i: int| n <= i < s.len() ==> is_white(#[trigger] s[i]),
        n > 0 ==> !is_white(s[n - 1]),
    decreases s.len(),
{
    if s.len() > 0 && is_white(s.last()) {
        let rest = s.drop_last();
        let n = lemma_trims_end(rest);
        assert(rest.take(n as int) =~= s.take(n as int));
        assert forall|i: int| n <= i < s.len() implies is_white(#[trigger] s[i]) by {
            if i < rest.len() {
                assert(rest[i] == s[i]);
            }
        }
        if n > 0 {
            assert(rest[n - 1] == s[n - 1]);
        }
        n
    } else {
        assert(s.take(s.len() as int) =~= s);
        s.len()
    }
}

/// Trimming takes white space off the ends and nothing else: what is left is a part of the text with
/// no white space round it, and all that was before and after that part was white.
pub proof fn law_trimming_takes_the_white_ends(s: Seq<char>)
    ensures
        is_trim(trimmed(s)),
        exists|from: int, to: int|
            0 <= from <= to <= s.len() && trimmed(s) == #[trigger] s.subrange(from, to) && (forall|
                i: int,
            |
                0 <= i < from || to <= i < s.len() ==> is_white(#[trigger] s[i])),
{
    let from = lemma_trims_start(s);
    let body = s.skip(from as int);
    let n = lemma_trims_end(body);
    let to = from + n;
    assert(body.take(n as int) =~= s.subrange(from as int, to as int));
    assert forall|i: int| 0 <= i < from || to <= i < s.len() implies is_white(#[trigger] s[i]) by {
        if to <= i {
            assert(body[i - from] == s[i]);
        }
    }
    if n > 0 {
        assert(trimmed(s)[0] == s[from as int]);
        assert(body[n - 1] == trimmed(s).last());
    }
}

/// A negative number is written as the one of its size, with a minus before it.
pub proof fn law_a_sign_is_written_in_front(n: int)
    requires
        n < 0,
    ensures
        signed_decimal(n) == seq!['-'] + signed_decimal(-n),
        signed_decimal(-n) == decimal((-n) as nat),
{
}

} // verus!
