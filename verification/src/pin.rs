//! Writing and checking the goldens: bytes as wrapped hex, and how far in two of them differ.

use vstd::arithmetic::div_mod::*;
use vstd::prelude::*;
use vstd::slice::*;
use vstd::string::*;
use vstd::utf8::*;

verus! {

broadcast use vstd::string::group_string_axioms;

/// Bytes written on one line of a golden.
pub const BYTES_PER_LINE: usize = 48;

/// `part` joined onto `root`: it replaces `root` when it is absolute, and a separator goes
/// between them unless `root` is empty or already ends in one.
pub open spec fn joined(root: Seq<char>, part: Seq<char>) -> Seq<char> {
    if part.len() > 0 && part[0] == '/' {
        part
    } else if root.len() == 0 || root.last() == '/' {
        root + part
    } else {
        root.push('/') + part
    }
}

/// Joins one path onto another. See [`joined`].
pub(crate) fn join(root: &str, part: &str) -> (out: String)
    ensures
        out@ == joined(root@, part@),
{
    let n: usize = root.unicode_len();
    if part.unicode_len() > 0 && part.get_char(0) == '/' {
        return String::from_str(part);
    }
    let mut out: String = String::from_str(root);
    if n > 0 && root.get_char(n - 1) != '/' {
        out.push('/');
    }
    out.append(part);
    out
}

/// `tests/pin/<name>`, from a crate's manifest directory.
pub fn path(manifest_dir: &str, name: &str) -> (out: String)
    ensures
        out@ == joined(joined(manifest_dir@, "../../tests/pin"@), name@),
{
    let dir: String = join(manifest_dir, "../../tests/pin");
    join(dir.as_str(), name)
}

/// The lower-case hex digit for `d`.
pub open spec fn hex_digit(d: int) -> char {
    if d < 10 {
        ('0' as u32 + d) as char
    } else {
        ('a' as u32 + (d - 10)) as char
    }
}

/// The two hex digits of a byte.
pub open spec fn byte_hex(b: u8) -> Seq<char> {
    seq![hex_digit(b as int / 16), hex_digit(b as int % 16)]
}

/// Bytes as hex, with a line break before every 48th byte but the first.
pub open spec fn hex_lines(bytes: Seq<u8>) -> Seq<char>
    decreases bytes.len(),
{
    if bytes.len() == 0 {
        Seq::empty()
    } else {
        let i = bytes.len() - 1;
        let before = hex_lines(bytes.drop_last());
        (if i > 0 && i % (BYTES_PER_LINE as int) == 0 {
            before.push('\n')
        } else {
            before
        }) + byte_hex(bytes.last())
    }
}

/// Bytes as a golden's text: wrapped hex that ends in a line break.
pub open spec fn hex_text(bytes: Seq<u8>) -> Seq<char> {
    hex_lines(bytes).push('\n')
}

fn hex_char(d: u8) -> (c: char)
    requires
        d < 16,
    ensures
        c == hex_digit(d as int),
{
    if d < 10 {
        (48u8 + d) as char
    } else {
        (87u8 + d) as char
    }
}

/// Bytes as hex, wrapped so a golden reads as lines rather than as one line.
pub fn hex(bytes: &[u8]) -> (out: String)
    ensures
        out@ == hex_text(bytes@),
{
    let mut out: String = String::new();
    let mut i: usize = 0;
    while i < bytes.len()
        invariant
            i <= bytes.len(),
            out@ == hex_lines(bytes@.take(i as int)),
        decreases bytes.len() - i,
    {
        let b: u8 = bytes[i];
        if i > 0 && i % BYTES_PER_LINE == 0 {
            out.push('\n');
        }
        out.push(hex_char(b / 16));
        out.push(hex_char(b % 16));
        proof {
            let now = bytes@.take(i as int + 1);
            assert(now.drop_last() =~= bytes@.take(i as int));
            assert(now.last() == b);
            assert(out@ =~= hex_lines(now));
        }
        i = i + 1;
    }
    assert(bytes@.take(i as int) =~= bytes@);
    out.push('\n');
    out
}

/// ASCII whitespace, as bytes: tab, line feed, form feed, carriage return and space.
pub open spec fn is_white(b: u8) -> bool {
    b == 9 || b == 10 || b == 12 || b == 13 || b == 32
}

/// The bytes of a golden that are not whitespace.
pub open spec fn digits_of(text: Seq<u8>) -> Seq<u8>
    decreases text.len(),
{
    if text.len() == 0 {
        Seq::empty()
    } else if is_white(text.last()) {
        digits_of(text.drop_last())
    } else {
        digits_of(text.drop_last()).push(text.last())
    }
}

/// What a hex digit of either case stands for.
pub open spec fn digit_value(b: u8) -> Option<int> {
    if 48 <= b <= 57 {
        Some(b - 48)
    } else if 97 <= b <= 102 {
        Some(b - 87)
    } else if 65 <= b <= 70 {
        Some(b - 55)
    } else {
        None
    }
}

/// What two characters read as: two hex digits, or a plus sign and one.
pub open spec fn pair_value(a: u8, b: u8) -> Option<int> {
    match (digit_value(a), digit_value(b)) {
        (Some(hi), Some(lo)) => Some(hi * 16 + lo),
        (None, Some(lo)) => if a == 43 {
            Some(lo)
        } else {
            None
        },
        _ => None,
    }
}

/// Every whole pair of a golden's digits reads as a byte.
pub open spec fn is_golden(text: Seq<u8>) -> bool {
    let d = digits_of(text);
    forall|i: int|
        0 <= i < d.len() / 2 ==> pair_value(#[trigger] d[2 * i], d[2 * i + 1]) is Some
}

/// The bytes a golden stands for. An odd digit at the end stands for nothing.
pub open spec fn unhex_bytes(text: Seq<u8>) -> Seq<u8> {
    let d = digits_of(text);
    Seq::new(d.len() / 2, |i: int| pair_value(d[2 * i], d[2 * i + 1])->0 as u8)
}

fn hex_value(b: u8) -> (v: Option<u8>)
    ensures
        match v {
            Some(n) => digit_value(b) == Some(n as int) && n < 16,
            None => digit_value(b) is None,
        },
{
    if 48 <= b && b <= 57 {
        Some(b - 48)
    } else if 97 <= b && b <= 102 {
        Some(b - 87)
    } else if 65 <= b && b <= 70 {
        Some(b - 55)
    } else {
        None
    }
}

fn byte_of(a: u8, b: u8) -> (v: Option<u8>)
    ensures
        match v {
            Some(n) => pair_value(a, b) == Some(n as int),
            None => pair_value(a, b) is None,
        },
{
    match (hex_value(a), hex_value(b)) {
        (Some(hi), Some(lo)) => Some(hi * 16 + lo),
        (None, Some(lo)) => if a == 43 {
            Some(lo)
        } else {
            None
        },
        _ => None,
    }
}

/// The bytes of `text` that are not whitespace.
fn digits(text: &str) -> (out: Vec<u8>)
    ensures
        out@ == digits_of(text.spec_bytes()),
{
    let bytes: &[u8] = text.as_bytes();
    let mut out: Vec<u8> = Vec::new();
    let mut i: usize = 0;
    while i < bytes.len()
        invariant
            i <= bytes.len(),
            bytes@ == text.spec_bytes(),
            out@ == digits_of(bytes@.take(i as int)),
        decreases bytes.len() - i,
    {
        let b: u8 = bytes[i];
        assert(bytes@.take(i as int + 1).drop_last() =~= bytes@.take(i as int));
        if !(b == 9 || b == 10 || b == 12 || b == 13 || b == 32) {
            out.push(b);
        }
        i = i + 1;
    }
    assert(bytes@.take(i as int) =~= bytes@);
    out
}

/// Whether `text` can be read back as bytes.
pub fn is_hex(text: &str) -> (ok: bool)
    ensures
        ok == is_golden(text.spec_bytes()),
{
    let d: Vec<u8> = digits(text);
    let n: usize = d.len() / 2;
    let mut i: usize = 0;
    while i < n
        invariant
            i <= n,
            n == d.len() / 2,
            d@ == digits_of(text.spec_bytes()),
            forall|j: int| 0 <= j < i ==> pair_value(#[trigger] d@[2 * j], d@[2 * j + 1]) is Some,
        decreases n - i,
    {
        if byte_of(d[2 * i], d[2 * i + 1]).is_none() {
            assert(pair_value(d@[2 * i as int], d@[2 * i as int + 1]) is None);
            return false;
        }
        i = i + 1;
    }
    true
}

/// Hex back to bytes, ignoring any whitespace the wrapping introduced.
pub fn unhex(text: &str) -> (out: Vec<u8>)
    requires
        is_golden(text.spec_bytes()),
    ensures
        out@ == unhex_bytes(text.spec_bytes()),
{
    let d: Vec<u8> = digits(text);
    let n: usize = d.len() / 2;
    let mut out: Vec<u8> = Vec::new();
    let mut i: usize = 0;
    while i < n
        invariant
            i <= n,
            n == d.len() / 2,
            d@ == digits_of(text.spec_bytes()),
            is_golden(text.spec_bytes()),
            out@ =~= unhex_bytes(text.spec_bytes()).take(i as int),
        decreases n - i,
    {
        assert(pair_value(d@[2 * i as int], d@[2 * i as int + 1]) is Some);
        match byte_of(d[2 * i], d[2 * i + 1]) {
            Some(b) => {
                out.push(b);
            },
            None => {
                assert(false);
            },
        }
        i = i + 1;
    }
    assert(unhex_bytes(text.spec_bytes()).take(n as int) =~= unhex_bytes(text.spec_bytes()));
    out
}

/// Byte `k` of `x`, counting from the least significant.
pub open spec fn le_byte(x: u32, k: int) -> u8 {
    if k == 0 {
        (x as int % 256) as u8
    } else if k == 1 {
        (x as int / 256 % 256) as u8
    } else if k == 2 {
        (x as int / 65536 % 256) as u8
    } else {
        (x as int / 16777216) as u8
    }
}

/// Samples as bytes: four to a sample, the least significant first.
pub open spec fn sample_bytes(pcm: Seq<u32>) -> Seq<u8> {
    Seq::new(pcm.len() * 4, |i: int| le_byte(pcm[i / 4], i % 4))
}

/// Samples, each given by the bits of its floating-point value, as little-endian bytes.
///
/// The bits and not a rounded decimal, because a golden exists to catch a difference, and one
/// written to four places would hide the small drift a reordered expression produces.
pub fn samples_to_bytes(pcm: &[u32]) -> (out: Vec<u8>)
    ensures
        out@ == sample_bytes(pcm@),
{
    let mut out: Vec<u8> = Vec::new();
    let mut i: usize = 0;
    while i < pcm.len()
        invariant
            i <= pcm.len(),
            out@ =~= sample_bytes(pcm@.take(i as int)),
        decreases pcm.len() - i,
    {
        let x: u32 = pcm[i];
        let ghost before = out@;
        out.push((x % 256) as u8);
        out.push((x / 256 % 256) as u8);
        out.push((x / 65536 % 256) as u8);
        out.push((x / 16777216) as u8);
        assert(out@ =~= sample_bytes(pcm@.take(i as int + 1))) by {
            assert forall|j: int| 0 <= j < out@.len() implies out@[j] == sample_bytes(
                pcm@.take(i as int + 1),
            )[j] by {
                if j < before.len() {
                    assert(out@[j] == before[j]);
                    assert(j / 4 < i);
                } else {
                    assert(j / 4 == i);
                }
            }
        }
        i = i + 1;
    }
    assert(pcm@.take(i as int) =~= pcm@);
    out
}

/// Where some bytes part from the golden they were held against.
#[derive(Clone, Copy, Debug, PartialEq, Eq)]
pub struct Difference {
    /// How many bytes the golden holds.
    pub wanted: usize,
    /// How many bytes there were.
    pub got: usize,
    /// The first byte that differs, or the shorter length when one is a prefix of the other.
    pub at: usize,
}

/// `at` is where `want` and `got` first differ: they agree before it, and one of them ends
/// there or they disagree there.
pub open spec fn parts_at(want: Seq<u8>, got: Seq<u8>, at: int) -> bool {
    &&& 0 <= at <= want.len()
    &&& at <= got.len()
    &&& want.take(at) == got.take(at)
    &&& (at == want.len() || at == got.len() || want[at] != got[at])
}

/// Holds `bytes` against the golden `text`.
pub fn check(text: &str, bytes: &[u8]) -> (verdict: Result<(), Difference>)
    requires
        is_golden(text.spec_bytes()),
    ensures
        verdict is Ok <==> unhex_bytes(text.spec_bytes()) == bytes@,
        verdict matches Err(d) ==> {
            &&& d.wanted == unhex_bytes(text.spec_bytes()).len()
            &&& d.got == bytes@.len()
            &&& parts_at(unhex_bytes(text.spec_bytes()), bytes@, d.at as int)
        },
{
    let want: Vec<u8> = unhex(text);
    let mut at: usize = 0;
    while at < want.len() && at < bytes.len() && want[at] == bytes[at]
        invariant
            at <= want.len(),
            at <= bytes.len(),
            want@.take(at as int) =~= bytes@.take(at as int),
        decreases want.len() - at,
    {
        assert(want@.take(at as int + 1) =~= want@.take(at as int).push(want@[at as int]));
        assert(bytes@.take(at as int + 1) =~= bytes@.take(at as int).push(bytes@[at as int]));
        at = at + 1;
    }
    if at == want.len() && at == bytes.len() {
        assert(want@.take(at as int) =~= want@);
        assert(bytes@.take(at as int) =~= bytes@);
        return Ok(());
    }
    assert(want@ != bytes@) by {
        if want@ == bytes@ {
            assert(want@.len() == bytes@.len());
        }
    }
    Err(Difference { wanted: want.len(), got: bytes.len(), at })
}

proof fn lemma_digits_push(text: Seq<u8>, b: u8)
    ensures
        digits_of(text.push(b)) == (if is_white(b) {
            digits_of(text)
        } else {
            digits_of(text).push(b)
        }),
{
    assert(text.push(b).drop_last() =~= text);
}

/// The bytes of a text whose characters are all ASCII.
pub open spec fn ascii_bytes(chars: Seq<char>) -> Seq<u8> {
    chars.map_values(|c: char| c as u8)
}

proof fn lemma_hex_lines(bytes: Seq<u8>)
    ensures
        is_ascii_chars(hex_lines(bytes)),
        digits_of(ascii_bytes(hex_lines(bytes))).len() == 2 * bytes.len(),
        forall|i: int|
            0 <= i < bytes.len() ==> {
                &&& #[trigger] digits_of(ascii_bytes(hex_lines(bytes)))[2 * i] == hex_digit(
                    bytes[i] as int / 16,
                ) as u8
                &&& digits_of(ascii_bytes(hex_lines(bytes)))[2 * i + 1] == hex_digit(
                    bytes[i] as int % 16,
                ) as u8
            },
    decreases bytes.len(),
{
    if bytes.len() > 0 {
        let i = bytes.len() - 1;
        let less = bytes.drop_last();
        lemma_hex_lines(less);
        let before = hex_lines(less);
        let wrapped = if i > 0 && i % (BYTES_PER_LINE as int) == 0 {
            before.push('\n')
        } else {
            before
        };
        let hi = hex_digit(bytes.last() as int / 16);
        let lo = hex_digit(bytes.last() as int % 16);
        let all = hex_lines(bytes);
        assert(all =~= wrapped.push(hi).push(lo));
        assert(ascii_bytes(before.push('\n')) =~= ascii_bytes(before).push(10u8));
        lemma_digits_push(ascii_bytes(before), 10u8);
        let d = digits_of(ascii_bytes(before));
        assert(digits_of(ascii_bytes(wrapped)) == d);
        assert(ascii_bytes(wrapped.push(hi)) =~= ascii_bytes(wrapped).push(hi as u8));
        assert(ascii_bytes(all) =~= ascii_bytes(wrapped).push(hi as u8).push(lo as u8));
        lemma_digits_push(ascii_bytes(wrapped), hi as u8);
        lemma_digits_push(ascii_bytes(wrapped).push(hi as u8), lo as u8);
        let now = digits_of(ascii_bytes(all));
        assert(now =~= d.push(hi as u8).push(lo as u8));
        assert forall|j: int| 0 <= j < bytes.len() implies {
            &&& #[trigger] now[2 * j] == hex_digit(bytes[j] as int / 16) as u8
            &&& now[2 * j + 1] == hex_digit(bytes[j] as int % 16) as u8
        } by {
            if j < i {
                assert(now[2 * j] == d[2 * j]);
                assert(now[2 * j + 1] == d[2 * j + 1]);
                assert(less[j] == bytes[j]);
            }
        }
    }
}

/// A golden gives back the bytes it was written from, whatever the wrapping.
pub proof fn law_hex_round_trips(bytes: Seq<u8>)
    ensures
        is_golden(encode_utf8(hex_text(bytes))),
        unhex_bytes(encode_utf8(hex_text(bytes))) == bytes,
{
    lemma_hex_lines(bytes);
    let text = hex_text(bytes);
    assert(is_ascii_chars(text)) by {
        assert forall|i: int| 0 <= i < text.len() implies '\0' <= #[trigger] text[i] <= '\u{7f}' by {
            if i < text.len() - 1 {
                assert(text[i] == hex_lines(bytes)[i]);
            }
        }
    }
    is_ascii_chars_encode_utf8(text);
    assert(encode_utf8(text) =~= ascii_bytes(hex_lines(bytes)).push(10u8));
    lemma_digits_push(ascii_bytes(hex_lines(bytes)), 10u8);
    let d = digits_of(encode_utf8(text));
    assert(d == digits_of(ascii_bytes(hex_lines(bytes))));
    assert forall|i: int| 0 <= i < d.len() / 2 implies pair_value(
        #[trigger] d[2 * i],
        d[2 * i + 1],
    ) == Some(bytes[i] as int) by {}
    assert(unhex_bytes(encode_utf8(text)) =~= bytes) by {
        assert forall|i: int| 0 <= i < bytes.len() implies unhex_bytes(
            encode_utf8(text),
        )[i] == bytes[i] by {
            assert(pair_value(d[2 * i], d[2 * i + 1]) == Some(bytes[i] as int));
        }
    }
}

/// Two runs of samples give the same bytes only when they are the same bits.
pub proof fn law_samples_keep_their_bits(a: Seq<u32>, b: Seq<u32>)
    requires
        sample_bytes(a) == sample_bytes(b),
    ensures
        a == b,
{
    assert(sample_bytes(a).len() == 4 * a.len());
    assert(sample_bytes(b).len() == 4 * b.len());
    assert(a =~= b) by {
        assert forall|i: int| 0 <= i < a.len() implies a[i] == b[i] by {
            assert forall|k: int| 0 <= k < 4 implies le_byte(a[i], k) == le_byte(b[i], k) by {
                let j = 4 * i + k;
                assert(j / 4 == i && j % 4 == k);
                assert(sample_bytes(a)[j] == le_byte(a[j / 4], j % 4));
                assert(sample_bytes(b)[j] == le_byte(b[j / 4], j % 4));
            }
            assert(le_byte(a[i], 0) == le_byte(b[i], 0));
            assert(le_byte(a[i], 1) == le_byte(b[i], 1));
            assert(le_byte(a[i], 2) == le_byte(b[i], 2));
            assert(le_byte(a[i], 3) == le_byte(b[i], 3));
        }
    }
}

/// A part is joined under its root: the root comes first and the part last, with one slash between
/// them where the root does not end in one of its own, and a part that starts at the top stands for
/// itself.
pub proof fn law_a_part_is_joined_under_its_root(root: Seq<char>, part: Seq<char>)
    ensures
        ({
            let path = joined(root, part);
            let absolute = part.len() > 0 && part[0] == '/';
            let apart = root.len() > 0 && root.last() != '/';
            &&& absolute ==> path == part
            &&& !absolute ==> path.take(root.len() as int) == root
            &&& !absolute ==> path.skip(path.len() - part.len()) == part
            &&& !absolute && !apart ==> path.len() == root.len() + part.len()
            &&& !absolute && apart ==> path.len() == root.len() + 1 + part.len()
                && path[root.len() as int] == '/'
        }),
{
    let path = joined(root, part);
    if !(part.len() > 0 && part[0] == '/') {
        assert(path.take(root.len() as int) =~= root);
        assert(path.skip(path.len() - part.len()) =~= part);
    }
}

/// A dump has two digits to a byte and a new line after every whole line of them, and ends in one.
pub proof fn law_a_dump_is_set_in_lines(bytes: Seq<u8>)
    ensures
        bytes.len() > 0 ==> hex_text(bytes).len() == 2 * bytes.len() + (bytes.len() - 1) / (
        BYTES_PER_LINE as int) + 1,
        hex_text(bytes).last() == '\n',
        bytes.len() > 0 && bytes.len() % (BYTES_PER_LINE as nat) == 0 ==> forall|b: u8|
            hex_lines(#[trigger] bytes.push(b)) == hex_lines(bytes).push('\n') + byte_hex(b),
    decreases bytes.len(),
{
    if bytes.len() > 0 {
        law_a_dump_is_set_in_lines(bytes.drop_last());
        let (i, line) = (bytes.len() - 1, BYTES_PER_LINE as int);
        if i > 0 {
            lemma_fundamental_div_mod(i, line);
            lemma_fundamental_div_mod(i - 1, line);
            lemma_mod_bound(i, line);
            lemma_mod_bound(i - 1, line);
            let q = i / line;
            if i % line == 0 {
                assert(i - 1 == line * (q - 1) + (line - 1)) by (nonlinear_arith)
                    requires
                        i == line * q,
                ;
                lemma_fundamental_div_mod_converse(i - 1, line, q - 1, line - 1);
            } else {
                lemma_fundamental_div_mod_converse(i - 1, line, q, i % line - 1);
            }
        }
        assert forall|b: u8| bytes.len() % (BYTES_PER_LINE as nat) == 0 implies hex_lines(
            #[trigger] bytes.push(b),
        ) == hex_lines(bytes).push('\n') + byte_hex(b) by {
            assert(bytes.push(b).drop_last() =~= bytes);
        }
    }
}

/// Two dumps part at one place and no other, and two that are the same only where both end.
pub proof fn law_dumps_part_once(want: Seq<u8>, got: Seq<u8>, a: int, b: int)
    requires
        parts_at(want, got, a),
        parts_at(want, got, b),
    ensures
        a == b,
        want == got <==> a == want.len() && a == got.len(),
        a < want.len() && a < got.len() ==> want[a] != got[a],
        forall|i: int| 0 <= i < a ==> #[trigger] want[i] == got[i],
{
    assert forall|i: int| 0 <= i < a implies #[trigger] want[i] == got[i] by {
        assert(want.take(a)[i] == got.take(a)[i]);
    }
    assert forall|i: int| 0 <= i < b implies #[trigger] want[i] == got[i] by {
        assert(want.take(b)[i] == got.take(b)[i]);
    }
    if a == want.len() && a == got.len() {
        assert(want =~= got);
    }
}

} // verus!
