//! Character-level text helpers: decimal parsing and rendering of process
//! ids, and small string predicates used by the scanner, the resolver and the
//! identity prober. All contracts are stated over the `Seq<char>` views of
//! `String` and `&str`.

use vstd::prelude::*;

verus! {

/// The decimal digit character for `d` in `0 ..= 9`.
pub open spec fn digit_char(d: int) -> char {
    if d == 0 {
        '0'
    } else if d == 1 {
        '1'
    } else if d == 2 {
        '2'
    } else if d == 3 {
        '3'
    } else if d == 4 {
        '4'
    } else if d == 5 {
        '5'
    } else if d == 6 {
        '6'
    } else if d == 7 {
        '7'
    } else if d == 8 {
        '8'
    } else {
        '9'
    }
}

/// The decimal rendering of a non-negative integer, most significant digit
/// first. A negative argument renders as its low digit alone, but every use
/// below applies it to non-negative values only.
pub open spec fn dec_digits(n: int) -> Seq<char>
    decreases n,
{
    if n < 10 {
        seq![digit_char(n)]
    } else {
        dec_digits(n / 10).push(digit_char(n % 10))
    }
}

/// The decimal rendering of an integer, with a leading `'-'` when negative.
pub open spec fn spec_i32_string(n: int) -> Seq<char> {
    if n < 0 {
        seq!['-'] + dec_digits(-n)
    } else {
        dec_digits(n)
    }
}

/// Whether `c` is a decimal digit.
pub open spec fn is_digit(c: char) -> bool {
    48 <= c as u32 <= 57
}

/// The value of a digit character.
pub open spec fn digit_val(c: char) -> int {
    c as u32 - 48
}

/// Whether every character of `s` is a decimal digit.
pub open spec fn all_digits(s: Seq<char>) -> bool {
    forall|i: int| 0 <= i < s.len() ==> is_digit(#[trigger] s[i])
}

/// The value of a digit string read most significant digit first.
pub open spec fn digits_val(s: Seq<char>) -> int
    decreases s.len(),
{
    if s.len() == 0 {
        0
    } else {
        digits_val(s.drop_last()) * 10 + digit_val(s.last())
    }
}

/// What `str::parse::<i32>` returns on `s`: an optional sign followed by at
/// least one digit, with the value inside the `i32` range; `None` otherwise.
pub open spec fn spec_parse_i32(s: Seq<char>) -> Option<int> {
    let negative = s.len() > 0 && s[0] == '-';
    let signed = s.len() > 0 && (s[0] == '-' || s[0] == '+');
    let body = if signed {
        s.drop_first()
    } else {
        s
    };
    if body.len() == 0 || !all_digits(body) {
        None
    } else {
        let v = if negative {
            -digits_val(body)
        } else {
            digits_val(body)
        };
        if -0x8000_0000 <= v <= 0x7fff_ffff {
            Some(v)
        } else {
            None
        }
    }
}

/// A digit string has a non-negative value.
pub proof fn lemma_digits_val_nonneg(s: Seq<char>)
    requires
        all_digits(s),
    ensures
        digits_val(s) >= 0,
    decreases s.len(),
{
    if s.len() > 0 {
        assert forall|i: int| 0 <= i < s.drop_last().len() implies is_digit(
            #[trigger] s.drop_last()[i],
        ) by {
            assert(s.drop_last()[i] == s[i]);
        }
        lemma_digits_val_nonneg(s.drop_last());
    }
}

/// Reading more digits never lowers the value: the value of a prefix of a
/// digit string is at most the value of the whole string.
pub proof fn lemma_digits_val_take_le(s: Seq<char>, i: int)
    requires
        all_digits(s),
        0 <= i <= s.len(),
    ensures
        digits_val(s.take(i)) <= digits_val(s),
    decreases s.len() - i,
{
    assert forall|k: int, j: int| 0 <= k <= s.len() && 0 <= j < k implies is_digit(
        #[trigger] s.take(k)[j],
    ) by {
        assert(s.take(k)[j] == s[j]);
    }
    if i < s.len() {
        assert(s.take(i + 1).drop_last() =~= s.take(i));
        assert(s.take(i + 1).last() == s[i]);
        lemma_digits_val_nonneg(s.take(i));
        assert(digits_val(s.take(i + 1)) == digits_val(s.take(i)) * 10 + digit_val(s[i]));
        lemma_digits_val_take_le(s, i + 1);
    } else {
        assert(s.take(i) =~= s);
    }
}

/// What `str::parse::<i32>` computes, as a verified function: `Some` exactly
/// on an optional sign followed by digits whose value fits in an `i32`.
pub fn parse_i32(s: &str) -> (r: Option<i32>)
    ensures
        (r matches Some(v) ==> spec_parse_i32(s@) == Some(v as int)),
        (r is None ==> spec_parse_i32(s@) is None),
{
    let n = s.unicode_len();
    if n == 0 {
        return None;
    }
    let c0 = s.get_char(0);
    let negative = c0 == '-';
    let signed = c0 == '-' || c0 == '+';
    let start: usize = if signed {
        1
    } else {
        0
    };
    let ghost body: Seq<char> = if signed {
        s@.drop_first()
    } else {
        s@
    };
    proof {
        assert(body =~= s@.subrange(start as int, n as int));
    }
    if start >= n {
        return None;
    }
    let mut i = start;
    let mut acc: u64 = 0;
    while i < n
        invariant
            start <= i <= n,
            n == s@.len(),
            n > 0,
            start as int == (if signed {
                1int
            } else {
                0int
            }),
            signed <==> (s@[0] == '-' || s@[0] == '+'),
            negative <==> s@[0] == '-',
            body == (if signed {
                s@.drop_first()
            } else {
                s@
            }),
            body == s@.subrange(start as int, n as int),
            acc as int == digits_val(body.take(i - start)),
            acc <= 0x8000_0000,
            all_digits(body.take(i - start)),
        decreases n - i,
    {
        let c = s.get_char(i);
        let u = c as u32;
        if u < 48 || u > 57 {
            proof {
                assert(body[i - start] == s@[i as int]);
                assert(!is_digit(body[i - start]));
                assert(!all_digits(body));
                assert(spec_parse_i32(s@) is None);
            }
            return None;
        }
        let d: u64 = (u - 48) as u64;
        proof {
            assert(body.take(i + 1 - start).drop_last() =~= body.take(i - start));
            assert(body.take(i + 1 - start).last() == s@[i as int]);
            assert(is_digit(s@[i as int]));
            assert forall|k: int| 0 <= k < i + 1 - start implies is_digit(
                #[trigger] body.take(i + 1 - start)[k],
            ) by {
                assert(body.take(i + 1 - start)[k] == body.take(i - start)[k] || body.take(
                    i + 1 - start,
                )[k] == s@[i as int]);
            }
        }
        acc = acc * 10 + d;
        proof {
            assert(digits_val(body.take(i + 1 - start)) == digits_val(body.take(i - start)) * 10
                + digit_val(s@[i as int]));
            assert(acc as int == digits_val(body.take(i + 1 - start)));
        }
        if acc > 0x8000_0000 {
            proof {
                if all_digits(body) {
                    lemma_digits_val_take_le(body, i + 1 - start);
                    assert(digits_val(body) >= acc as int);
                }
                assert(spec_parse_i32(s@) is None);
            }
            return None;
        }
        i = i + 1;
    }
    proof {
        assert(body.take(n - start) =~= body);
    }
    if negative {
        let v: i64 = -(acc as i64);
        Some(v as i32)
    } else {
        if acc > 0x7fff_ffff {
            return None;
        }
        Some(acc as i32)
    }
}

/// ASCII whitespace: what separates fields of a process-table line, and what
/// trimming strips from a tool's output.
pub open spec fn is_space(c: char) -> bool {
    c == ' ' || c == '\t' || c == '\n' || c == '\r' || c == '\x0b' || c == '\x0c'
}

/// Whether `c` is ASCII whitespace, as executable code.
pub fn char_is_space(c: char) -> (r: bool)
    ensures
        r == is_space(c),
{
    c == ' ' || c == '\t' || c == '\n' || c == '\r' || c == '\x0b' || c == '\x0c'
}

/// The first position at or after `i`, bounded by `hi`, holding something
/// other than whitespace.
pub open spec fn skip_spaces(s: Seq<char>, i: int, hi: int) -> int
    decreases hi - i,
{
    if i < hi && is_space(s[i]) {
        skip_spaces(s, i + 1, hi)
    } else {
        i
    }
}

/// The first position at or after `i`, bounded by `hi`, holding whitespace:
/// the end of the token starting at `i`.
pub open spec fn skip_token(s: Seq<char>, i: int, hi: int) -> int
    decreases hi - i,
{
    if i < hi && !is_space(s[i]) {
        skip_token(s, i + 1, hi)
    } else {
        i
    }
}

/// The second whitespace-separated field of `s` between `lo` and `hi`, if
/// that region holds at least two fields.
pub open spec fn second_token(s: Seq<char>, lo: int, hi: int) -> Option<Seq<char>> {
    let a0 = skip_spaces(s, lo, hi);
    let a1 = skip_token(s, a0, hi);
    let b0 = skip_spaces(s, a1, hi);
    let b1 = skip_token(s, b0, hi);
    if b0 < hi {
        Some(s.subrange(b0, b1))
    } else {
        None
    }
}

/// `s` without its leading whitespace.
pub open spec fn trim_start(s: Seq<char>) -> Seq<char>
    decreases s.len(),
{
    if s.len() > 0 && is_space(s[0]) {
        trim_start(s.drop_first())
    } else {
        s
    }
}

/// `s` without its trailing whitespace.
pub open spec fn trim_end(s: Seq<char>) -> Seq<char>
    decreases s.len(),
{
    if s.len() > 0 && is_space(s.last()) {
        trim_end(s.drop_last())
    } else {
        s
    }
}

/// `s` without its leading and trailing whitespace: what `str::trim` keeps.
pub open spec fn trimmed(s: Seq<char>) -> Seq<char> {
    trim_end(trim_start(s))
}

pub proof fn lemma_trim_start_len(s: Seq<char>)
    ensures
        trim_start(s).len() <= s.len(),
    decreases s.len(),
{
    if s.len() > 0 && is_space(s[0]) {
        lemma_trim_start_len(s.drop_first());
    }
}

pub proof fn lemma_trim_end_len(s: Seq<char>)
    ensures
        trim_end(s).len() <= s.len(),
    decreases s.len(),
{
    if s.len() > 0 && is_space(s.last()) {
        lemma_trim_end_len(s.drop_last());
    }
}

/// Trimming never lengthens a string.
pub proof fn lemma_trimmed_len(s: Seq<char>)
    ensures
        trimmed(s).len() <= s.len(),
{
    lemma_trim_start_len(s);
    lemma_trim_end_len(trim_start(s));
}

/// What `str::trim` returns, as a verified function over ASCII whitespace.
pub fn trim_str<'a>(s: &'a str) -> (r: &'a str)
    ensures
        r@ == trimmed(s@),
{
    let n = s.unicode_len();
    let mut lo: usize = 0;
    proof {
        assert(s@.skip(0) =~= s@);
    }
    while lo < n && char_is_space(s.get_char(lo))
        invariant
            0 <= lo <= n,
            n == s@.len(),
            trim_start(s@) == trim_start(s@.skip(lo as int)),
        decreases n - lo,
    {
        proof {
            assert(s@.skip(lo as int).drop_first() =~= s@.skip(lo + 1));
        }
        lo = lo + 1;
    }
    proof {
        if lo < n {
            assert(s@.skip(lo as int)[0] == s@[lo as int]);
        } else {
            assert(s@.skip(lo as int) =~= Seq::<char>::empty());
        }
        assert(trim_start(s@) == s@.skip(lo as int));
    }
    let mut hi: usize = n;
    proof {
        assert(s@.subrange(lo as int, n as int) =~= s@.skip(lo as int));
    }
    while hi > lo && char_is_space(s.get_char(hi - 1))
        invariant
            lo <= hi <= n,
            n == s@.len(),
            trim_start(s@) == s@.skip(lo as int),
            trim_end(s@.skip(lo as int)) == trim_end(s@.subrange(lo as int, hi as int)),
        decreases hi,
    {
        proof {
            assert(s@.subrange(lo as int, hi as int).drop_last() =~= s@.subrange(
                lo as int,
                hi - 1,
            ));
            assert(s@.subrange(lo as int, hi as int).last() == s@[hi - 1]);
        }
        hi = hi - 1;
    }
    proof {
        if hi > lo {
            assert(s@.subrange(lo as int, hi as int).last() == s@[hi - 1]);
        } else {
            assert(s@.subrange(lo as int, hi as int) =~= Seq::<char>::empty());
        }
        assert(trim_end(s@.subrange(lo as int, hi as int)) == s@.subrange(lo as int, hi as int));
    }
    s.substring_char(lo, hi)
}

/// Whether `needle` occurs contiguously anywhere in `hay`: what
/// `str::contains` reports.
pub open spec fn contains_seq(hay: Seq<char>, needle: Seq<char>) -> bool {
    exists|i: int|
        0 <= i && i + needle.len() <= hay.len() && #[trigger] hay.subrange(i, i + needle.len())
            == needle
}

/// Whether `needle` occurs in `hay` starting at position `i`.
fn match_at(hay: &str, needle: &str, i: usize) -> (r: bool)
    requires
        i + needle@.len() <= hay@.len(),
    ensures
        r == (hay@.subrange(i as int, i as int + needle@.len() as int) == needle@),
{
    let n = hay.unicode_len();
    let m = needle.unicode_len();
    let mut j: usize = 0;
    while j < m
        invariant
            0 <= j <= m,
            m == needle@.len(),
            n == hay@.len(),
            i + m <= n,
            forall|t: int| 0 <= t < j ==> hay@[i + t] == needle@[t],
        decreases m - j,
    {
        if hay.get_char(i + j) != needle.get_char(j) {
            proof {
                assert(hay@.subrange(i as int, i as int + needle@.len() as int)[j as int]
                    == hay@[i + j]);
            }
            return false;
        }
        j = j + 1;
    }
    proof {
        assert(hay@.subrange(i as int, i as int + needle@.len() as int) =~= needle@);
    }
    true
}

/// What `str::contains` computes, as a verified function.
pub fn str_contains(hay: &str, needle: &str) -> (r: bool)
    ensures
        r == contains_seq(hay@, needle@),
{
    let n = hay.unicode_len();
    let m = needle.unicode_len();
    if m > n {
        proof {
            if contains_seq(hay@, needle@) {
                let i = choose|i: int|
                    0 <= i && i + needle@.len() <= hay@.len() && #[trigger] hay@.subrange(
                        i,
                        i + needle@.len(),
                    ) == needle@;
            }
        }
        return false;
    }
    if m == 0 {
        proof {
            assert(hay@.subrange(0, 0 + needle@.len() as int) =~= needle@);
            assert(contains_seq(hay@, needle@));
        }
        return true;
    }
    let mut i: usize = 0;
    while i <= n - m
        invariant
            0 <= i,
            i <= n - m + 1,
            0 < m <= n,
            n == hay@.len(),
            m == needle@.len(),
            forall|t: int| 0 <= t < i ==> #[trigger] hay@.subrange(t, t + needle@.len())
                != needle@,
        decreases n - i,
    {
        if match_at(hay, needle, i) {
            proof {
                assert(0 <= i as int && i as int + needle@.len() <= hay@.len() && hay@.subrange(
                    i as int,
                    i as int + needle@.len(),
                ) == needle@);
            }
            return true;
        }
        i = i + 1;
    }
    proof {
        if contains_seq(hay@, needle@) {
            let t = choose|t: int|
                0 <= t && t + needle@.len() <= hay@.len() && #[trigger] hay@.subrange(
                    t,
                    t + needle@.len(),
                ) == needle@;
            assert(t < i);
        }
    }
    false
}

/// Whether two strings hold the same characters, as a verified function.
pub fn str_eq(a: &str, b: &str) -> (r: bool)
    ensures
        r == (a@ == b@),
{
    let n = a.unicode_len();
    if n != b.unicode_len() {
        return false;
    }
    let mut j: usize = 0;
    while j < n
        invariant
            0 <= j <= n,
            n == a@.len(),
            n == b@.len(),
            forall|t: int| 0 <= t < j ==> a@[t] == b@[t],
        decreases n - j,
    {
        if a.get_char(j) != b.get_char(j) {
            return false;
        }
        j = j + 1;
    }
    proof {
        assert(a@ =~= b@);
    }
    true
}

/// The position of the first line break at or after `i`, or the end of `s`.
pub open spec fn line_break(s: Seq<char>, i: int) -> int
    decreases s.len() - i,
{
    if 0 <= i < s.len() && s[i] != '\n' {
        line_break(s, i + 1)
    } else {
        i
    }
}

/// How many lines of `s` from position `i` on hold at least one character.
pub open spec fn nonempty_line_count_from(s: Seq<char>, i: int) -> int
    decreases s.len() - i,
{
    if !(0 <= i < s.len()) {
        0
    } else {
        let e = line_break(s, i);
        let next = if i <= e && e < s.len() {
            e + 1
        } else {
            s.len() as int
        };
        (if e > i {
            1int
        } else {
            0int
        }) + nonempty_line_count_from(s, next)
    }
}

/// How many lines of `s` hold at least one character.
pub open spec fn nonempty_line_count(s: Seq<char>) -> int {
    nonempty_line_count_from(s, 0)
}

/// Count the lines of `s` that hold at least one character.
pub fn count_nonempty_lines(s: &str) -> (r: usize)
    ensures
        r as int == nonempty_line_count(s@),
        r <= s@.len(),
{
    let n = s.unicode_len();
    let mut count: usize = 0;
    let mut i: usize = 0;
    while i < n
        invariant
            0 <= i <= n,
            n == s@.len(),
            count <= i,
            count as int + nonempty_line_count_from(s@, i as int) == nonempty_line_count_from(
                s@,
                0,
            ),
        decreases n - i,
    {
        let ghost i0: int = i as int;
        let mut e: usize = i;
        while e < n && s.get_char(e) != '\n'
            invariant
                i0 <= e <= n,
                n == s@.len(),
                line_break(s@, i0) == line_break(s@, e as int),
            decreases n - e,
        {
            e = e + 1;
        }
        proof {
            assert(line_break(s@, i0) == e as int);
        }
        if e > i {
            count = count + 1;
        }
        i = if e < n {
            e + 1
        } else {
            n
        };
    }
    count
}

/// The string for one decimal digit.
fn digit_str(d: u64) -> (r: &'static str)
    requires
        d < 10,
    ensures
        r@ == seq![digit_char(d as int)],
{
    let r: &'static str = match d {
        0 => "0",
        1 => "1",
        2 => "2",
        3 => "3",
        4 => "4",
        5 => "5",
        6 => "6",
        7 => "7",
        8 => "8",
        _ => "9",
    };
    proof {
        reveal_strlit("0");
        reveal_strlit("1");
        reveal_strlit("2");
        reveal_strlit("3");
        reveal_strlit("4");
        reveal_strlit("5");
        reveal_strlit("6");
        reveal_strlit("7");
        reveal_strlit("8");
        reveal_strlit("9");
        assert(r@ =~= seq![digit_char(d as int)]);
    }
    r
}

/// Render an `i32` in decimal, as `ToString` would.
pub fn i32_to_string(n: i32) -> (r: String)
    ensures
        r@ == spec_i32_string(n as int),
{
    let mut mag: u64 = if n < 0 {
        (-(n as i64)) as u64
    } else {
        n as u64
    };
    let ghost orig: int = mag as int;
    let mut digs: Vec<u64> = Vec::new();
    let ghost mut tail: Seq<char> = Seq::empty();
    if mag == 0 {
        digs.push(0);
        proof {
            tail = seq![digit_char(0)];
        }
    } else {
        while mag > 0
            invariant
                orig > 0,
                dec_digits(orig) == (if mag > 0 {
                    dec_digits(mag as int) + tail
                } else {
                    tail
                }),
                tail.len() == digs@.len(),
                forall|i: int|
                    0 <= i < tail.len() ==> tail[i] == digit_char(
                        digs@[digs@.len() - 1 - i] as int,
                    ),
                forall|i: int| 0 <= i < digs@.len() ==> digs@[i] < 10,
            decreases mag,
        {
            let ghost m0: int = mag as int;
            let ghost tail0: Seq<char> = tail;
            let d = mag % 10;
            digs.push(d);
            proof {
                tail = seq![digit_char(d as int)] + tail;
            }
            mag = mag / 10;
            proof {
                if m0 >= 10 {
                    assert(dec_digits(m0) == dec_digits(m0 / 10).push(digit_char(m0 % 10)));
                    assert(dec_digits(m0 / 10).push(digit_char(m0 % 10)) =~= dec_digits(m0 / 10)
                        + seq![digit_char(m0 % 10)]);
                    assert(dec_digits(m0) + tail0 =~= dec_digits(m0 / 10) + tail);
                } else {
                    assert(dec_digits(m0) == seq![digit_char(m0)]);
                    assert(dec_digits(m0) + tail0 =~= tail);
                }
            }
        }
        proof {
            assert(tail.len() > 0);
        }
    }
    proof {
        assert(dec_digits(orig) == tail);
    }
    let mut r = if n < 0 {
        String::from_str("-")
    } else {
        String::new()
    };
    let ghost prefix: Seq<char> = r@;
    proof {
        assert(r@ =~= prefix + tail.take(0));
    }
    let mut k = digs.len();
    while k > 0
        invariant
            k <= digs@.len(),
            tail.len() == digs@.len(),
            forall|i: int|
                0 <= i < tail.len() ==> tail[i] == digit_char(digs@[digs@.len() - 1 - i] as int),
            forall|i: int| 0 <= i < digs@.len() ==> digs@[i] < 10,
            r@ == prefix + tail.take(digs@.len() - k),
        decreases k,
    {
        k = k - 1;
        let ds = digit_str(digs[k]);
        r.append(ds);
        proof {
            assert(tail[digs@.len() - 1 - k as int] == digit_char(digs@[k as int] as int));
            assert(r@ =~= prefix + tail.take(digs@.len() - k));
        }
    }
    proof {
        assert(tail.take(digs@.len() as int) =~= tail);
        reveal_strlit("-");
        if n < 0 {
            assert(prefix =~= seq!['-']);
            assert(orig == -(n as int));
            assert(r@ =~= spec_i32_string(n as int));
        } else {
            assert(prefix =~= Seq::<char>::empty());
            assert(r@ =~= spec_i32_string(n as int));
        }
    }
    r
}

} // verus!
