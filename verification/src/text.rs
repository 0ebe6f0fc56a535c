//! Text: decimal and hexadecimal notation, and the trimming of white space.

use vstd::prelude::*;
use vstd::string::*;
use vstd::std_specs::iter::IteratorSpec;

verus! {

/// The character of a digit below sixteen.
pub open spec fn digit_char(d: int) -> char {
    if d == 0 {
        '0'
    } else if d == 1 {
        '1'
    } else if d == 2 {
        '2'
    } else if d == 3 {
        '3'
    } else if d == 4 {
        '4'
    } else if d == 5 {
        '5'
    } else if d == 6 {
        '6'
    } else if d == 7 {
        '7'
    } else if d == 8 {
        '8'
    } else if d == 9 {
        '9'
    } else if d == 10 {
        'a'
    } else if d == 11 {
        'b'
    } else if d == 12 {
        'c'
    } else if d == 13 {
        'd'
    } else if d == 14 {
        'e'
    } else {
        'f'
    }
}

/// The decimal notation of a number.
pub open spec fn decimal_text(n: nat) -> Seq<char>
    decreases n,
{
    if n < 10 {
        seq![digit_char(n as int)]
    } else {
        decimal_text(n / 10).push(digit_char((n % 10) as int))
    }
}

/// The last `width` decimal digits of a number.
pub open spec fn digits_text(n: nat, width: nat) -> Seq<char>
    decreases width,
{
    if width == 0 {
        Seq::empty()
    } else {
        digits_text(n / 10, (width - 1) as nat).push(digit_char((n % 10) as int))
    }
}

/// The hexadecimal notation of a byte string, two lower-case digits for each byte.
pub open spec fn hex_text(b: Seq<u8>) -> Seq<char>
    decreases b.len(),
{
    if b.len() == 0 {
        Seq::empty()
    } else {
        hex_text(b.drop_last()) + seq![
            digit_char(b.last() as int / 16),
            digit_char(b.last() as int % 16),
        ]
    }
}

/// A digit below sixteen as text.
fn digit(d: u8) -> (s: &'static str)
    requires
        d < 16,
    ensures
        s@ == seq![digit_char(d as int)],
{
    proof {
        reveal_strlit("0");
        reveal_strlit("1");
        reveal_strlit("2");
        reveal_strlit("3");
        reveal_strlit("4");
        reveal_strlit("5");
        reveal_strlit("6");
        reveal_strlit("7");
        reveal_strlit("8");
        reveal_strlit("9");
        reveal_strlit("a");
        reveal_strlit("b");
        reveal_strlit("c");
        reveal_strlit("d");
        reveal_strlit("e");
        reveal_strlit("f");
        assert("0"@ =~= seq!['0']);
        assert("1"@ =~= seq!['1']);
        assert("2"@ =~= seq!['2']);
        assert("3"@ =~= seq!['3']);
        assert("4"@ =~= seq!['4']);
        assert("5"@ =~= seq!['5']);
        assert("6"@ =~= seq!['6']);
        assert("7"@ =~= seq!['7']);
        assert("8"@ =~= seq!['8']);
        assert("9"@ =~= seq!['9']);
        assert("a"@ =~= seq!['a']);
        assert("b"@ =~= seq!['b']);
        assert("c"@ =~= seq!['c']);
        assert("d"@ =~= seq!['d']);
        assert("e"@ =~= seq!['e']);
        assert("f"@ =~= seq!['f']);
    }
    match d {
        0 => "0",
        1 => "1",
        2 => "2",
        3 => "3",
        4 => "4",
        5 => "5",
        6 => "6",
        7 => "7",
        8 => "8",
        9 => "9",
        10 => "a",
        11 => "b",
        12 => "c",
        13 => "d",
        14 => "e",
        _ => "f",
    }
}

/// Appends the decimal notation of `n`.
pub fn push_decimal(out: &mut String, n: u128)
    ensures
        final(out)@ == old(out)@ + decimal_text(n as nat),
    decreases n,
{
    if n >= 10 {
        push_decimal(out, n / 10);
    }
    out.append(digit((n % 10) as u8));
    assert(out@ =~= old(out)@ + decimal_text(n as nat));
}

/// Appends the last `width` decimal digits of `n`.
pub fn push_digits(out: &mut String, n: u128, width: u8)
    ensures
        final(out)@ == old(out)@ + digits_text(n as nat, width as nat),
    decreases width,
{
    if width > 0 {
        push_digits(out, n / 10, width - 1);
        out.append(digit((n % 10) as u8));
    }
    assert(out@ =~= old(out)@ + digits_text(n as nat, width as nat));
}

/// The decimal notation of `n`.
pub fn decimal(n: u128) -> (s: String)
    ensures
        s@ == decimal_text(n as nat),
{
    let mut out: String = String::new();
    push_decimal(&mut out, n);
    assert(Seq::<char>::empty() + decimal_text(n as nat) =~= decimal_text(n as nat));
    out
}

/// The hexadecimal notation of `b`.
pub fn hex(b: &[u8]) -> (s: String)
    ensures
        s@ == hex_text(b@),
{
    let mut out: String = String::new();
    let mut i: usize = 0;
    assert(b@.take(0) =~= Seq::<u8>::empty());
    while i < b.len()
        invariant
            0 <= i <= b@.len(),
            out@ == hex_text(b@.take(i as int)),
        decreases b@.len() - i,
    {
        out.append(digit(b[i] / 16));
        out.append(digit(b[i] % 16));
        proof {
            assert(b@.take(i + 1).drop_last() =~= b@.take(i as int));
            assert(out@ =~= hex_text(b@.take(i + 1)));
        }
        i = i + 1;
    }
    assert(b@.take(i as int) =~= b@);
    out
}

/// The hexadecimal notation of 32 bytes.
pub fn hex32(b: &[u8; 32]) -> (s: String)
    ensures
        s@ == hex_text(b@),
{
    hex(b)
}

/// A character of the Unicode property White_Space.
pub open spec fn white(c: char) -> bool {
    let n = c as u32;
    ||| 0x09 <= n <= 0x0d
    ||| n == 0x20
    ||| n == 0x85
    ||| n == 0xa0
    ||| n == 0x1680
    ||| 0x2000 <= n <= 0x200a
    ||| n == 0x2028
    ||| n == 0x2029
    ||| n == 0x202f
    ||| n == 0x205f
    ||| n == 0x3000
}

fn is_white(c: char) -> (r: bool)
    ensures
        r == white(c),
{
    let n: u32 = c as u32;
    (0x09 <= n && n <= 0x0d) || n == 0x20 || n == 0x85 || n == 0xa0 || n == 0x1680 || (0x2000 <= n
        && n <= 0x200a) || n == 0x2028 || n == 0x2029 || n == 0x202f || n == 0x205f || n == 0x3000
}

/// Text without the white space at its start.
pub open spec fn trim_front(s: Seq<char>) -> Seq<char>
    decreases s.len(),
{
    if s.len() > 0 && white(s[0]) {
        trim_front(s.skip(1))
    } else {
        s
    }
}

/// Text without the white space at its end.
pub open spec fn trim_back(s: Seq<char>) -> Seq<char>
    decreases s.len(),
{
    if s.len() > 0 && white(s.last()) {
        trim_back(s.drop_last())
    } else {
        s
    }
}

/// Text without the white space at its ends.
pub open spec fn trimmed(s: Seq<char>) -> Seq<char> {
    trim_back(trim_front(s))
}

/// The characters of a text.
pub fn chars_of(s: &str) -> (out: Vec<char>)
    ensures
        out@ == s@,
{
    let mut it = s.chars();
    let mut out: Vec<char> = Vec::new();
    assert(s@.skip(0) =~= s@);
    assert(s@.take(0) =~= Seq::<char>::empty());
    loop
        invariant
            out@.len() <= s@.len(),
            out@ == s@.take(out@.len() as int),
            it.remaining() == s@.skip(out@.len() as int),
            it.obeys_prophetic_iter_laws(),
        decreases s@.len() - out@.len(),
    {
        match it.next() {
            Some(c) => {
                let ghost k = out@.len() as int;
                out.push(c);
                proof {
                    assert(s@.skip(k)[0] == s@[k]);
                    assert(s@.skip(k).drop_first() =~= s@.skip(k + 1));
                    assert(out@ =~= s@.take(k + 1));
                }
            },
            None => {
                assert(s@.take(s@.len() as int) =~= s@);
                return out;
            },
        }
    }
}

/// Cuts the white space off the ends of a text.
pub fn trim(s: &str) -> (out: Vec<char>)
    ensures
        out@ == trimmed(s@),
{
    let all: Vec<char> = chars_of(s);
    let mut lo: usize = 0;
    assert(all@.skip(0) =~= all@);
    while lo < all.len() && is_white(all[lo])
        invariant
            0 <= lo <= all@.len(),
            trim_front(all@) == trim_front(all@.skip(lo as int)),
        decreases all@.len() - lo,
    {
        assert(all@.skip(lo as int)[0] == all@[lo as int]);
        assert(all@.skip(lo as int).skip(1) =~= all@.skip(lo + 1));
        lo = lo + 1;
    }
    let mut hi: usize = all.len();
    proof {
        if lo < all@.len() {
            assert(all@.skip(lo as int)[0] == all@[lo as int]);
        }
        assert(all@.subrange(lo as int, hi as int) =~= all@.skip(lo as int));
    }
    while hi > lo && is_white(all[hi - 1])
        invariant
            0 <= lo <= hi <= all@.len(),
            trimmed(all@) == trim_back(all@.subrange(lo as int, hi as int)),
        decreases hi - lo,
    {
        let ghost cut = all@.subrange(lo as int, hi as int);
        assert(cut.last() == all@[hi - 1]);
        assert(cut.drop_last() =~= all@.subrange(lo as int, hi - 1));
        hi = hi - 1;
    }
    let ghost kept = all@.subrange(lo as int, hi as int);
    proof {
        if hi > lo {
            assert(kept.last() == all@[hi - 1]);
        }
    }
    let mut out: Vec<char> = Vec::new();
    let mut i: usize = lo;
    while i < hi
        invariant
            lo <= i <= hi <= all@.len(),
            out@ == all@.subrange(lo as int, i as int),
        decreases hi - i,
    {
        out.push(all[i]);
        assert(out@ =~= all@.subrange(lo as int, i + 1));
        i = i + 1;
    }
    out
}

/// The value of a hexadecimal digit of either case.
pub open spec fn hex_value(c: char) -> Option<int> {
    let n = c as u32;
    if 0x30 <= n <= 0x39 {
        Some(n - 0x30)
    } else if 0x41 <= n <= 0x46 {
        Some(n - 0x41 + 10)
    } else if 0x61 <= n <= 0x66 {
        Some(n - 0x61 + 10)
    } else {
        None
    }
}

fn hex_digit(c: char) -> (r: Option<u8>)
    ensures
        match r {
            Some(v) => hex_value(c) == Some(v as int) && v < 16,
            None => hex_value(c) is None,
        },
{
    let n: u32 = c as u32;
    if 0x30 <= n && n <= 0x39 {
        Some((n - 0x30) as u8)
    } else if 0x41 <= n && n <= 0x46 {
        Some((n - 0x41 + 10) as u8)
    } else if 0x61 <= n && n <= 0x66 {
        Some((n - 0x61 + 10) as u8)
    } else {
        None
    }
}

/// The byte that two characters denote: two hexadecimal digits, or a plus sign and one.
pub open spec fn hex_pair(a: char, b: char) -> Option<int> {
    match hex_value(b) {
        None => None,
        Some(low) => if a == '+' {
            Some(low)
        } else {
            match hex_value(a) {
                None => None,
                Some(high) => Some(16 * high + low),
            }
        },
    }
}

/// The bytes that a text of character pairs denotes; none where a pair denotes none or a
/// character is left over.
pub open spec fn pairs_bytes(s: Seq<char>) -> Option<Seq<u8>>
    decreases s.len(),
{
    if s.len() == 0 {
        Some(Seq::empty())
    } else if s.len() == 1 {
        None
    } else {
        match (pairs_bytes(s.take(s.len() - 2)), hex_pair(s[s.len() - 2], s[s.len() - 1])) {
            (Some(front), Some(v)) => Some(front.push(v as u8)),
            _ => None,
        }
    }
}

/// The bytes that a text denotes in hexadecimal notation, white space around it aside.
pub open spec fn unhex_bytes(s: Seq<char>) -> Option<Seq<u8>> {
    pairs_bytes(trimmed(s))
}

proof fn lemma_pairs_fail(s: Seq<char>, k: int)
    requires
        0 <= k <= s.len(),
        k % 2 == s.len() % 2,
        pairs_bytes(s.take(k)) is None,
    ensures
        pairs_bytes(s) is None,
    decreases s.len(),
{
    if k == s.len() {
        assert(s.take(k) =~= s);
    } else {
        let t = s.take(s.len() - 2);
        assert(t.take(k) =~= s.take(k));
        lemma_pairs_fail(t, k);
    }
}

proof fn lemma_odd_pairs_fail(s: Seq<char>)
    requires
        s.len() % 2 == 1,
    ensures
        pairs_bytes(s) is None,
    decreases s.len(),
{
    if s.len() > 1 {
        lemma_odd_pairs_fail(s.take(s.len() - 2));
    }
}

/// Reads hexadecimal notation.
pub fn unhex(s: &str) -> (r: Option<Vec<u8>>)
    ensures
        match r {
            Some(b) => unhex_bytes(s@) == Some(b@),
            None => unhex_bytes(s@) is None,
        },
{
    let t: Vec<char> = trim(s);
    if t.len() % 2 != 0 {
        proof {
            lemma_odd_pairs_fail(t@);
        }
        return None;
    }
    let mut out: Vec<u8> = Vec::new();
    let mut i: usize = 0;
    assert(t@.take(0) =~= Seq::<char>::empty());
    while i < t.len()
        invariant
            0 <= i <= t@.len(),
            i % 2 == 0,
            t@ == trimmed(s@),
            t@.len() % 2 == 0,
            pairs_bytes(t@.take(i as int)) == Some(out@),
        decreases t@.len() - i,
    {
        proof {
            let p = t@.take(i + 2);
            assert(p.take(p.len() - 2) =~= t@.take(i as int));
            assert(p[p.len() - 2] == t@[i as int] && p[p.len() - 1] == t@[i + 1]);
        }
        let low: u8 = match hex_digit(t[i + 1]) {
            Some(v) => v,
            None => {
                proof {
                    lemma_pairs_fail(t@, i + 2);
                }
                return None;
            },
        };
        let byte: u8 = if t[i] == '+' {
            low
        } else {
            match hex_digit(t[i]) {
                Some(high) => 16 * high + low,
                None => {
                    proof {
                        lemma_pairs_fail(t@, i + 2);
                    }
                    return None;
                },
            }
        };
        out.push(byte);
        i = i + 2;
    }
    assert(t@.take(i as int) =~= t@);
    Some(out)
}

/// Reading hexadecimal notation gives back the bytes that were written.
pub proof fn hex_round_trips(b: Seq<u8>)
    ensures
        pairs_bytes(hex_text(b)) == Some(b),
        trimmed(hex_text(b)) == hex_text(b),
        unhex_bytes(hex_text(b)) == Some(b),
    decreases b.len(),
{
    if b.len() == 0 {
        assert(hex_text(b) =~= Seq::<char>::empty());
        assert(b =~= Seq::<u8>::empty());
    } else {
        hex_round_trips(b.drop_last());
        let t = hex_text(b);
        let n = t.len();
        let d = b.last() as int;
        lemma_digit(d / 16);
        lemma_digit(d % 16);
        assert(t.take(n - 2) =~= hex_text(b.drop_last()));
        assert(t[n - 2] == digit_char(d / 16) && t[n - 1] == digit_char(d % 16));
        assert(b.drop_last().push(b.last()) =~= b);
        lemma_hex_first(b);
        assert(!white(t[0]));
        assert(!white(t.last()));
    }
}

proof fn lemma_digit(d: int)
    requires
        0 <= d < 16,
    ensures
        hex_value(digit_char(d)) == Some(d),
        digit_char(d) != '+',
        !white(digit_char(d)),
{
}

proof fn lemma_hex_first(b: Seq<u8>)
    requires
        b.len() > 0,
    ensures
        hex_text(b).len() >= 2,
        hex_text(b)[0] == digit_char(b[0] as int / 16),
    decreases b.len(),
{
    if b.len() > 1 {
        lemma_hex_first(b.drop_last());
    } else {
        assert(hex_text(b.drop_last()) =~= Seq::<char>::empty());
    }
}

/// `String::push`: one more character at the end.
pub assume_specification[ String::push ](s: &mut String, c: char)
    ensures
        final(s)@ == old(s)@.push(c),
;

/// The text of these characters.
pub fn text_of(chars: &[char]) -> (s: String)
    ensures
        s@ == chars@,
{
    let mut s: String = String::new();
    let mut i: usize = 0;
    assert(chars@.take(0) =~= Seq::<char>::empty());
    assert(s@ =~= Seq::<char>::empty());
    while i < chars.len()
        invariant
            0 <= i <= chars@.len(),
            s@ == chars@.take(i as int),
        decreases chars@.len() - i,
    {
        s.push(chars[i]);
        assert(s@ =~= chars@.take(i + 1));
        i = i + 1;
    }
    assert(chars@.take(i as int) =~= chars@);
    s
}

/// `needle` stands in `hay` at `i`.
pub open spec fn stands_at(hay: Seq<char>, needle: Seq<char>, i: int) -> bool {
    0 <= i && i + needle.len() <= hay.len() && hay.subrange(i, i + needle.len()) == needle
}

/// `needle` stands somewhere in `hay`.
pub open spec fn contains_text(hay: Seq<char>, needle: Seq<char>) -> bool {
    exists|i: int| #[trigger] stands_at(hay, needle, i)
}

fn matches_at(hay: &[char], needle: &[char], i: usize) -> (r: bool)
    requires
        i + needle@.len() <= hay@.len(),
    ensures
        r == stands_at(hay@, needle@, i as int),
{
    let ghost cut = hay@.subrange(i as int, i + needle@.len());
    let end: usize = hay.len();
    let mut j: usize = 0;
    while j < needle.len()
        invariant
            0 <= j <= needle@.len(),
            i + needle@.len() <= hay@.len(),
            end == hay@.len(),
            cut == hay@.subrange(i as int, i + needle@.len()),
            forall|k: int| 0 <= k < j ==> #[trigger] cut[k] == needle@[k],
        decreases needle@.len() - j,
    {
        if hay[i + j] != needle[j] {
            assert(cut[j as int] != needle@[j as int]);
            return false;
        }
        j = j + 1;
    }
    assert(cut =~= needle@);
    true
}

/// Whether `needle` stands somewhere in `hay`.
pub fn contains(hay: &str, needle: &str) -> (r: bool)
    ensures
        r == contains_text(hay@, needle@),
{
    let h: Vec<char> = chars_of(hay);
    let n: Vec<char> = chars_of(needle);
    if n.len() > h.len() {
        return false;
    }
    let last: usize = h.len() - n.len();
    let mut i: usize = 0;
    loop
        invariant
            0 <= i <= last,
            last == h@.len() - n@.len(),
            h@ == hay@,
            n@ == needle@,
            forall|k: int| 0 <= k < i ==> !#[trigger] stands_at(h@, n@, k),
        decreases last - i,
    {
        if matches_at(h.as_slice(), n.as_slice(), i) {
            assert(stands_at(hay@, needle@, i as int));
            return true;
        }
        if i == last {
            return false;
        }
        i = i + 1;
    }
}

/// An ASCII capital becomes its small letter; any other character stays.
pub open spec fn ascii_lower(c: char) -> char {
    if 'A' <= c && c <= 'Z' {
        ((c as u8) + 32) as char
    } else {
        c
    }
}

/// The texts are the same but for the case of ASCII letters.
pub open spec fn same_lowered(s: Seq<char>, lowered: Seq<char>) -> bool {
    Seq::new(s.len(), |i: int| ascii_lower(s[i])) == lowered
}

fn lower(c: char) -> (r: char)
    ensures
        r == ascii_lower(c),
{
    if 'A' <= c && c <= 'Z' {
        ((c as u8) + 32) as char
    } else {
        c
    }
}

/// Whether `s` in small ASCII letters is `lowered`.
pub fn is_lowered(s: &str, lowered: &str) -> (r: bool)
    ensures
        r == same_lowered(s@, lowered@),
{
    let a: Vec<char> = chars_of(s);
    let b: Vec<char> = chars_of(lowered);
    let ghost want = Seq::new(s@.len(), |i: int| ascii_lower(s@[i]));
    if a.len() != b.len() {
        return false;
    }
    let mut i: usize = 0;
    while i < a.len()
        invariant
            0 <= i <= a@.len(),
            a@.len() == b@.len(),
            a@ == s@,
            b@ == lowered@,
            want == Seq::new(s@.len(), |i: int| ascii_lower(s@[i])),
            forall|j: int| 0 <= j < i ==> #[trigger] want[j] == b@[j],
        decreases a@.len() - i,
    {
        if lower(a[i]) != b[i] {
            assert(want[i as int] != b@[i as int]);
            return false;
        }
        i = i + 1;
    }
    assert(want =~= lowered@);
    true
}

/// Whether the texts are the same.
pub fn same_text(a: &str, b: &str) -> (r: bool)
    ensures
        r == (a@ == b@),
{
    let x: Vec<char> = chars_of(a);
    let y: Vec<char> = chars_of(b);
    if x.len() != y.len() {
        return false;
    }
    let mut i: usize = 0;
    while i < x.len()
        invariant
            0 <= i <= x@.len(),
            x@.len() == y@.len(),
            x@ == a@,
            y@ == b@,
            forall|j: int| 0 <= j < i ==> #[trigger] x@[j] == y@[j],
        decreases x@.len() - i,
    {
        if x[i] != y[i] {
            return false;
        }
        i = i + 1;
    }
    assert(x@ =~= y@);
    true
}

/// Trimming takes white space off both ends and nothing else, and leaves none there.
pub proof fn trimming_takes_white_space_only(s: Seq<char>)
    ensures
        exists|a: int, b: int|
            0 <= a <= b <= s.len() && #[trigger] s.subrange(a, b) == trimmed(s) && (forall|i: int|
                0 <= i < a ==> white(#[trigger] s[i])) && (forall|i: int|
                b <= i < s.len() ==> white(#[trigger] s[i])),
        trimmed(s).len() > 0 ==> !white(trimmed(s)[0]) && !white(trimmed(s).last()),
{
    lemma_trim_front(s);
    let front = trim_front(s);
    lemma_trim_back(front);
    let a = s.len() - front.len();
    let b = a + trim_back(front).len();
    assert(s.subrange(a, b) =~= trimmed(s)) by {
        assert(front == s.skip(a));
    }
    assert forall|i: int| b <= i < s.len() implies white(#[trigger] s[i]) by {
        assert(front[i - a] == s[i]);
    }
    assert(trimmed(s) == s.subrange(a, b));
    if trimmed(s).len() > 0 {
        assert(trimmed(s)[0] == front[0]);
    }
}

proof fn lemma_trim_front(s: Seq<char>)
    ensures
        trim_front(s).len() <= s.len(),
        trim_front(s) == s.skip(s.len() - trim_front(s).len()),
        forall|i: int| 0 <= i < s.len() - trim_front(s).len() ==> white(#[trigger] s[i]),
        trim_front(s).len() > 0 ==> !white(trim_front(s)[0]),
    decreases s.len(),
{
    if s.len() > 0 && white(s[0]) {
        let rest = s.skip(1);
        lemma_trim_front(rest);
        let n = rest.len() - trim_front(rest).len();
        assert(rest.skip(n) =~= s.skip(n + 1));
        assert forall|i: int| 0 <= i < n + 1 implies white(#[trigger] s[i]) by {
            if i > 0 {
                assert(rest[i - 1] == s[i]);
            }
        }
    } else {
        assert(s.skip(0) =~= s);
    }
}

proof fn lemma_trim_back(s: Seq<char>)
    ensures
        trim_back(s).len() <= s.len(),
        trim_back(s) == s.take(trim_back(s).len() as int),
        forall|i: int| trim_back(s).len() <= i < s.len() ==> white(#[trigger] s[i]),
        trim_back(s).len() > 0 ==> !white(trim_back(s).last()),
    decreases s.len(),
{
    if s.len() > 0 && white(s.last()) {
        let front = s.drop_last();
        lemma_trim_back(front);
        let n = trim_back(front).len() as int;
        assert(front.take(n) =~= s.take(n));
        assert forall|i: int| n <= i < s.len() implies white(#[trigger] s[i]) by {
            if i < front.len() {
                assert(front[i] == s[i]);
            }
        }
    } else {
        assert(s.take(s.len() as int) =~= s);
    }
}

} // verus!
