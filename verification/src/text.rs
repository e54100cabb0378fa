//! Searching, splitting, trimming and number conversion on text, stated over
//! sequences of characters.

use vstd::prelude::*;
use vstd::std_specs::iter::IteratorSpec;
use vstd::string::*;

verus! {

/// The views of a list of strings.
pub open spec fn texts(items: Seq<String>) -> Seq<Seq<char>> {
    Seq::new(items.len(), |i: int| items[i]@)
}

/// Whether `pat` stands in `s` at position `i`.
pub open spec fn match_at(s: Seq<char>, pat: Seq<char>, i: int) -> bool {
    &&& 0 <= i
    &&& i + pat.len() <= s.len()
    &&& s.subrange(i, i + pat.len()) == pat
}

/// The first position at or after `from` where `pat` stands in `s`, or the
/// length of `s` where there is none.
pub open spec fn find_from(s: Seq<char>, pat: Seq<char>, from: int) -> int
    decreases s.len() - from,
{
    if from < 0 || from >= s.len() || from + pat.len() > s.len() {
        s.len() as int
    } else if match_at(s, pat, from) {
        from
    } else {
        find_from(s, pat, from + 1)
    }
}

/// The pieces of `s` from `start` on that lie between the occurrences of the
/// non-empty `pat`, taken leftmost first and without overlap. There is always
/// at least one piece.
pub open spec fn split_from(s: Seq<char>, pat: Seq<char>, start: int) -> Seq<Seq<char>>
    decreases s.len() - start,
{
    let k = find_from(s, pat, start);
    if 0 <= start <= k && k + pat.len() <= s.len() && pat.len() > 0 {
        seq![s.subrange(start, k)] + split_from(s, pat, k + pat.len())
    } else {
        seq![s.subrange(start, s.len() as int)]
    }
}

/// The pieces of `s` between the occurrences of `pat`.
pub open spec fn split(s: Seq<char>, pat: Seq<char>) -> Seq<Seq<char>> {
    split_from(s, pat, 0)
}

/// White space as Unicode defines it.
pub open spec fn is_space(c: char) -> bool {
    let u = c as u32;
    ||| 0x09 <= u <= 0x0d
    ||| u == 0x20
    ||| u == 0x85
    ||| u == 0xa0
    ||| u == 0x1680
    ||| 0x2000 <= u <= 0x200a
    ||| u == 0x2028
    ||| u == 0x2029
    ||| u == 0x202f
    ||| u == 0x205f
    ||| u == 0x3000
}

/// The first position at or after `i` that holds no white space.
pub open spec fn skip_spaces(s: Seq<char>, i: int) -> int
    decreases s.len() - i,
{
    if 0 <= i < s.len() && is_space(s[i]) {
        skip_spaces(s, i + 1)
    } else {
        i
    }
}

/// The end of `s` once the white space before `j` is dropped, never below `lo`.
pub open spec fn drop_spaces(s: Seq<char>, lo: int, j: int) -> int
    decreases j,
{
    if 0 <= lo < j <= s.len() && is_space(s[j - 1]) {
        drop_spaces(s, lo, j - 1)
    } else {
        j
    }
}

/// `s` without the white space at its two ends.
pub open spec fn trimmed(s: Seq<char>) -> Seq<char> {
    let a = skip_spaces(s, 0);
    s.subrange(a, drop_spaces(s, a, s.len() as int))
}

/// Whether `c` is the lower-case character `low` or its ASCII capital.
pub open spec fn same_letter(c: char, low: char) -> bool {
    c == low || (0x61 <= low as u32 <= 0x7a && c as u32 + 0x20 == low as u32)
}

/// Whether `s` reads as the lower-case word `low` when ASCII capitals and
/// small letters count as equal.
pub open spec fn is_word(s: Seq<char>, low: Seq<char>) -> bool {
    &&& s.len() == low.len()
    &&& forall|i: int| 0 <= i < s.len() ==> same_letter(#[trigger] s[i], low[i])
}

/// Whether `c` is one of the ten ASCII digits.
pub open spec fn is_digit(c: char) -> bool {
    0x30 <= c as u32 <= 0x39
}

/// Whether `s` holds digits only.
pub open spec fn all_digits(s: Seq<char>) -> bool {
    forall|i: int| 0 <= i < s.len() ==> is_digit(#[trigger] s[i])
}

/// The number that a run of digits writes in base ten.
pub open spec fn digits_value(s: Seq<char>) -> int
    decreases s.len(),
{
    if s.len() == 0 {
        0
    } else {
        digits_value(s.drop_last()) * 10 + (s.last() as u32 - 0x30)
    }
}

/// The digits of a signed number: `s` without a leading `+` or `-`.
pub open spec fn unsigned_part(s: Seq<char>) -> Seq<char> {
    if s.len() > 0 && (s[0] == '-' || s[0] == '+') {
        s.subrange(1, s.len() as int)
    } else {
        s
    }
}

/// The 32-bit signed number that `s` writes in base ten: an optional sign,
/// then at least one digit and nothing else. `None` where `s` has another
/// shape or the number does not fit.
pub open spec fn parse_int(s: Seq<char>) -> Option<int> {
    let body = unsigned_part(s);
    let v = if s.len() > 0 && s[0] == '-' {
        -digits_value(body)
    } else {
        digits_value(body)
    };
    if body.len() > 0 && all_digits(body) && -0x8000_0000 <= v <= 0x7fff_ffff {
        Some(v)
    } else {
        None
    }
}

/// The character of the digit `d`.
pub open spec fn digit_char(d: int) -> char {
    if d == 0 {
        '0'
    } else if d == 1 {
        '1'
    } else if d == 2 {
        '2'
    } else if d == 3 {
        '3'
    } else if d == 4 {
        '4'
    } else if d == 5 {
        '5'
    } else if d == 6 {
        '6'
    } else if d == 7 {
        '7'
    } else if d == 8 {
        '8'
    } else {
        '9'
    }
}

/// The base-ten form of a number that is not negative, without leading zeros.
pub open spec fn decimal(n: int) -> Seq<char>
    decreases n,
{
    if n < 10 {
        seq![digit_char(n)]
    } else {
        decimal(n / 10) + seq![digit_char(n % 10)]
    }
}

/// The code point of `c`.
pub fn code_of(c: char) -> (u: u32)
    ensures
        u == c as u32,
        u <= 0x10_ffff,
{
    c as u32
}

/// The characters of `s`, one by one.
pub fn chars_of(s: &str) -> (v: Vec<char>)
    ensures
        v@ == s@,
{
    broadcast use vstd::string::group_string_axioms;

    let mut v: Vec<char> = Vec::new();
    let mut it = s.chars();
    assert(v@ + it.remaining() =~= s@);
    loop
        invariant
            v@ + it.remaining() == s@,
            it.decrease() is Some,
        decreases it.decrease()->0,
    {
        let ghost before = it.remaining();
        match it.next() {
            Some(c) => {
                v.push(c);
                assert(v@ + it.remaining() =~= s@);
            },
            None => {
                assert(v@ =~= s@);
                return v;
            },
        }
    }
}

/// Whether the pattern stands at position `i`.
pub fn matches_at(chars: &Vec<char>, pat: &Vec<char>, i: usize) -> (b: bool)
    requires
        i + pat@.len() <= chars@.len(),
    ensures
        b == match_at(chars@, pat@, i as int),
{
    let n: usize = chars.len();
    let mut j: usize = 0;
    while j < pat.len()
        invariant
            j <= pat@.len(),
            n == chars@.len(),
            i + pat@.len() <= chars@.len(),
            forall|k: int| 0 <= k < j ==> chars@[i + k] == pat@[k],
        decreases pat@.len() - j,
    {
        if chars[i + j] != pat[j] {
            assert(chars@.subrange(i as int, i + pat@.len())[j as int] != pat@[j as int]);
            return false;
        }
        j += 1;
    }
    assert(chars@.subrange(i as int, i + pat@.len()) =~= pat@);
    true
}

/// Finds the pattern at or after `from`.
pub fn find(chars: &Vec<char>, pat: &Vec<char>, from: usize) -> (k: usize)
    requires
        from <= chars@.len(),
    ensures
        k == find_from(chars@, pat@, from as int),
        from <= k <= chars@.len(),
        k < chars@.len() ==> k + pat@.len() <= chars@.len(),
{
    let n: usize = chars.len();
    let m: usize = pat.len();
    let mut i: usize = from;
    while i < n && m <= n - i
        invariant
            from <= i <= n,
            n == chars@.len(),
            m == pat@.len(),
            find_from(chars@, pat@, from as int) == find_from(chars@, pat@, i as int),
        decreases n - i,
    {
        if matches_at(chars, pat, i) {
            return i;
        }
        assert(find_from(chars@, pat@, i as int) == find_from(chars@, pat@, i + 1));
        i += 1;
    }
    assert(find_from(chars@, pat@, i as int) == n);
    n
}

/// A copy of the characters of `s` from `from` up to `to`.
pub fn slice_text(s: &str, from: usize, to: usize) -> (out: String)
    requires
        from <= to <= s@.len(),
    ensures
        out@ == s@.subrange(from as int, to as int),
{
    String::from_str(s.substring_char(from, to))
}

/// Splits `s` at every occurrence of the non-empty `pat`.
pub fn split_text(s: &str, pat: &str) -> (parts: Vec<String>)
    requires
        pat@.len() > 0,
    ensures
        texts(parts@) == split(s@, pat@),
        parts@.len() >= 1,
{
    let chars = chars_of(s);
    let p = chars_of(pat);
    let n: usize = chars.len();
    let mut parts: Vec<String> = Vec::new();
    let mut start: usize = 0;
    loop
        invariant
            start <= n,
            n == chars@.len(),
            chars@ == s@,
            p@ == pat@,
            p@.len() > 0,
            split(s@, pat@) == texts(parts@) + split_from(s@, pat@, start as int),
        decreases n - start,
    {
        let ghost before = texts(parts@);
        let k: usize = find(&chars, &p, start);
        parts.push(slice_text(s, start, k));
        assert(texts(parts@) =~= before + seq![s@.subrange(start as int, k as int)]);
        if k < n {
            assert(split(s@, pat@) =~= texts(parts@) + split_from(s@, pat@, k + p@.len()));
            start = k + p.len();
        } else {
            assert(split(s@, pat@) =~= texts(parts@));
            return parts;
        }
    }
}

/// Whether `c` is white space.
pub fn space(c: char) -> (b: bool)
    ensures
        b == is_space(c),
{
    let u: u32 = c as u32;
    (0x09 <= u && u <= 0x0d) || u == 0x20 || u == 0x85 || u == 0xa0 || u == 0x1680 || (0x2000 <= u
        && u <= 0x200a) || u == 0x2028 || u == 0x2029 || u == 0x202f || u == 0x205f || u == 0x3000
}

/// `s` without the white space at its two ends.
pub fn trim_text(s: &str) -> (out: String)
    ensures
        out@ == trimmed(s@),
{
    let chars = chars_of(s);
    let n: usize = chars.len();
    let mut a: usize = 0;
    while a < n && space(chars[a])
        invariant
            a <= n,
            n == chars@.len(),
            skip_spaces(chars@, 0) == skip_spaces(chars@, a as int),
        decreases n - a,
    {
        a += 1;
    }
    let mut b: usize = n;
    while a < b && space(chars[b - 1])
        invariant
            a <= b <= n,
            n == chars@.len(),
            drop_spaces(chars@, a as int, n as int) == drop_spaces(chars@, a as int, b as int),
        decreases b,
    {
        b -= 1;
    }
    slice_text(s, a, b)
}

/// Whether `s` is the lower-case word `low`, capitals counting as small
/// letters.
pub fn word_is(s: &str, low: &str) -> (b: bool)
    ensures
        b == is_word(s@, low@),
{
    let a = chars_of(s);
    let w = chars_of(low);
    if a.len() != w.len() {
        return false;
    }
    let mut i: usize = 0;
    while i < a.len()
        invariant
            i <= a@.len(),
            a@ == s@,
            w@ == low@,
            a@.len() == w@.len(),
            forall|k: int| 0 <= k < i ==> same_letter(#[trigger] a@[k], w@[k]),
        decreases a@.len() - i,
    {
        let ch: char = a[i];
        let lo: char = w[i];
        let c: u32 = code_of(ch);
        let l: u32 = code_of(lo);
        let same = ch == lo || (0x61 <= l && l <= 0x7a && c + 0x20 == l);
        if !same {
            assert(!same_letter(s@[i as int], low@[i as int]));
            return false;
        }
        i += 1;
    }
    true
}

/// Reads a 32-bit signed number in base ten.
pub fn parse_i32(s: &str) -> (r: Option<i32>)
    ensures
        match r {
            Some(v) => parse_int(s@) == Some(v as int),
            None => parse_int(s@) is None,
        },
{
    let chars = chars_of(s);
    let n: usize = chars.len();
    if n == 0 {
        return None;
    }
    let negative = chars[0] == '-';
    let first: usize = if negative || chars[0] == '+' {
        1
    } else {
        0
    };
    if first == n {
        return None;
    }
    let ghost body = unsigned_part(s@);
    assert(body =~= chars@.subrange(first as int, n as int));
    let mut acc: i64 = 0;
    let mut i: usize = first;
    while i < n
        invariant
            first <= i <= n,
            n == chars@.len(),
            body == chars@.subrange(first as int, n as int),
            body == unsigned_part(s@),
            s@.len() > 0,
            negative == (s@[0] == '-'),
            all_digits(body.take(i - first)),
            0 <= acc <= 0x8000_0001,
            acc <= 0x8000_0000 ==> acc == digits_value(body.take(i - first)),
            acc > 0x8000_0000 ==> digits_value(body.take(i - first)) > 0x8000_0000,
        decreases n - i,
    {
        let c: u32 = code_of(chars[i]);
        let ghost next = body.take(i - first + 1);
        assert(next.drop_last() =~= body.take(i - first));
        assert(next.last() == chars@[i as int]);
        if c < 0x30 || c > 0x39 {
            assert(!is_digit(body[i - first]));
            return None;
        }
        let d: i64 = (c - 0x30) as i64;
        acc = acc * 10 + d;
        if acc > 0x8000_0000 {
            acc = 0x8000_0001;
        }
        i += 1;
    }
    assert(body.take(n - first) =~= body);
    if negative {
        if acc <= 0x8000_0000 {
            Some((0 - acc) as i32)
        } else {
            None
        }
    } else if acc < 0x8000_0000 {
        Some(acc as i32)
    } else {
        None
    }
}

/// The one-character text of the digit `d`.
pub fn digit_text(d: u32) -> (r: &'static str)
    requires
        d < 10,
    ensures
        r@ == seq![digit_char(d as int)],
{
    proof {
        reveal_strlit("0");
        reveal_strlit("1");
        reveal_strlit("2");
        reveal_strlit("3");
        reveal_strlit("4");
        reveal_strlit("5");
        reveal_strlit("6");
        reveal_strlit("7");
        reveal_strlit("8");
        reveal_strlit("9");
    }
    let r = if d == 0 {
        "0"
    } else if d == 1 {
        "1"
    } else if d == 2 {
        "2"
    } else if d == 3 {
        "3"
    } else if d == 4 {
        "4"
    } else if d == 5 {
        "5"
    } else if d == 6 {
        "6"
    } else if d == 7 {
        "7"
    } else if d == 8 {
        "8"
    } else {
        "9"
    };
    assert(r@ =~= seq![digit_char(d as int)]);
    r
}

/// Appends the base-ten form of `n` to `out`.
pub fn push_decimal(out: &mut String, n: u32)
    ensures
        final(out)@ == old(out)@ + decimal(n as int),
    decreases n,
{
    let ghost before = out@;
    if n >= 10 {
        push_decimal(out, n / 10);
    }
    out.append(digit_text(n % 10));
    assert(out@ =~= before + decimal(n as int));
}

/// Whether two texts are the same.
pub fn same_text(a: &str, b: &str) -> (r: bool)
    ensures
        r == (a@ == b@),
{
    let x = chars_of(a);
    let y = chars_of(b);
    if x.len() != y.len() {
        return false;
    }
    let mut i: usize = 0;
    while i < x.len()
        invariant
            i <= x@.len(),
            x@ == a@,
            y@ == b@,
            x@.len() == y@.len(),
            x@.take(i as int) == y@.take(i as int),
        decreases x@.len() - i,
    {
        if x[i] != y[i] {
            assert(a@[i as int] != b@[i as int]);
            return false;
        }
        i += 1;
        assert(x@.take(i as int) =~= x@.take(i - 1).push(x@[i - 1]));
        assert(y@.take(i as int) =~= y@.take(i - 1).push(y@[i - 1]));
    }
    assert(x@.take(x@.len() as int) =~= x@);
    assert(y@.take(y@.len() as int) =~= y@);
    true
}

/// The base-ten form of a number holds digits only, at least one, and writes
/// that number.
pub proof fn lemma_decimal_digits(n: int)
    requires
        0 <= n,
    ensures
        decimal(n).len() >= 1,
        all_digits(decimal(n)),
        digits_value(decimal(n)) == n,
    decreases n,
{
    let d = decimal(n);
    if n < 10 {
        assert(d.drop_last() =~= Seq::<char>::empty());
        assert(d.last() == digit_char(n));
        assert(digits_value(d.drop_last()) == 0);
    } else {
        lemma_decimal_digits(n / 10);
        assert(d.drop_last() =~= decimal(n / 10));
        assert(d.last() == digit_char(n % 10));
        assert forall|i: int| 0 <= i < d.len() implies is_digit(#[trigger] d[i]) by {
            if i < d.len() - 1 {
                assert(d[i] == decimal(n / 10)[i]);
            }
        }
    }
}

/// Reading the base-ten form of a number that is not negative gives the
/// number back.
pub proof fn lemma_decimal_round_trip(n: int)
    requires
        0 <= n <= 0x7fff_ffff,
    ensures
        parse_int(decimal(n)) == Some(n),
{
    lemma_decimal_digits(n);
    let d = decimal(n);
    assert(is_digit(d[0]));
    assert(unsigned_part(d) == d);
}

/// Whether the line break, a carriage return and then a line feed, stands
/// nowhere in `s`.
pub open spec fn no_break(s: Seq<char>) -> bool {
    forall|i: int| #![trigger s[i]] 0 <= i && i + 1 < s.len() ==> !(s[i] == '\r' && s[i + 1] == '\n')
}

/// The lines, each closed by a line break.
pub open spec fn join_lines(lines: Seq<Seq<char>>) -> Seq<char>
    decreases lines.len(),
{
    if lines.len() == 0 {
        Seq::empty()
    } else {
        join_lines(lines.drop_last()) + lines.last() + "\r\n"@
    }
}

/// Where a search ends: at the first place at or after `from` where the
/// pattern stands, past places where it does not.
pub proof fn lemma_find_from(s: Seq<char>, pat: Seq<char>, from: int)
    requires
        0 <= from <= s.len(),
    ensures
        from <= find_from(s, pat, from) <= s.len(),
        find_from(s, pat, from) < s.len() ==> match_at(s, pat, find_from(s, pat, from)),
        forall|j: int| from <= j < find_from(s, pat, from) ==> !match_at(s, pat, j),
    decreases s.len() - from,
{
    if from < s.len() && from + pat.len() <= s.len() && !match_at(s, pat, from) {
        lemma_find_from(s, pat, from + 1);
    }
}

/// A stretch of `s` that holds no line break and is followed by one ends
/// where the search for a line break from its start ends.
pub proof fn lemma_find_break(s: Seq<char>, p: int, n: int)
    requires
        0 <= p,
        0 <= n,
        p + n + 2 <= s.len(),
        s[p + n] == '\r',
        s[p + n + 1] == '\n',
        no_break(s.subrange(p, p + n)),
    ensures
        find_from(s, "\r\n"@, p) == p + n,
{
    reveal_strlit("\r\n");
    let pat = "\r\n"@;
    assert(pat =~= seq!['\r', '\n']);
    lemma_find_from(s, pat, p);
    let k = find_from(s, pat, p);
    assert(s.subrange(p + n, p + n + 2) =~= pat);
    assert(match_at(s, pat, p + n));
    if k < p + n {
        let found = s.subrange(k, k + 2);
        assert(found[0] == '\r' && found[1] == '\n');
        let line = s.subrange(p, p + n);
        if k + 1 < p + n {
            assert(line[k - p] == s[k]);
            assert(line[k - p + 1] == s[k + 1]);
        }
    }
}

/// Joining one more line puts it, closed, behind the others.
pub proof fn lemma_join_step(lines: Seq<Seq<char>>, i: int)
    requires
        0 <= i < lines.len(),
    ensures
        join_lines(lines.take(i + 1)) == join_lines(lines.take(i)) + lines[i] + "\r\n"@,
{
    let next = lines.take(i + 1);
    assert(next.drop_last() =~= lines.take(i));
    assert(next.last() == lines[i]);
}

/// The joined text of the first lines is where the joined text of all of
/// them starts.
pub proof fn lemma_join_prefix(lines: Seq<Seq<char>>, i: int)
    requires
        0 <= i <= lines.len(),
    ensures
        join_lines(lines.take(i)).len() <= join_lines(lines).len(),
        join_lines(lines).subrange(0, join_lines(lines.take(i)).len() as int) == join_lines(
            lines.take(i),
        ),
    decreases lines.len() - i,
{
    let all = join_lines(lines);
    if i == lines.len() {
        assert(lines.take(i) =~= lines);
        assert(all.subrange(0, all.len() as int) =~= all);
    } else {
        lemma_join_prefix(lines, i + 1);
        lemma_join_step(lines, i);
        let short = join_lines(lines.take(i));
        let long = join_lines(lines.take(i + 1));
        assert(long.subrange(0, short.len() as int) =~= short);
        assert(all.subrange(0, short.len() as int) =~= all.subrange(0, long.len() as int).subrange(
            0,
            short.len() as int,
        ));
    }
}

proof fn lemma_split_joined(lines: Seq<Seq<char>>, i: int)
    requires
        0 <= i <= lines.len(),
        forall|k: int| 0 <= k < lines.len() ==> no_break(#[trigger] lines[k]),
    ensures
        split_from(join_lines(lines), "\r\n"@, join_lines(lines.take(i)).len() as int)
            == lines.skip(i).push(Seq::empty()),
    decreases lines.len() - i,
{
    reveal_strlit("\r\n");
    let pat = "\r\n"@;
    assert(pat =~= seq!['\r', '\n']);
    let all = join_lines(lines);
    let at = join_lines(lines.take(i)).len() as int;
    lemma_join_prefix(lines, i);
    if i == lines.len() {
        assert(lines.take(i) =~= lines);
        lemma_find_from(all, pat, at);
        assert(all.subrange(at, at) =~= Seq::<char>::empty());
        assert(lines.skip(i).push(Seq::empty()) =~= seq![Seq::<char>::empty()]);
    } else {
        lemma_split_joined(lines, i + 1);
        lemma_join_step(lines, i);
        lemma_join_prefix(lines, i + 1);
        let long = join_lines(lines.take(i + 1));
        let n = lines[i].len() as int;
        assert(long.len() == at + n + 2);
        assert(all.subrange(0, long.len() as int) == long);
        assert(all.subrange(at, at + n) =~= long.subrange(at, at + n));
        assert(long.subrange(at, at + n) =~= lines[i]);
        assert(all[at + n] == long[at + n]);
        assert(all[at + n + 1] == long[at + n + 1]);
        assert(long[at + n] == pat[0]);
        assert(long[at + n + 1] == pat[1]);
        lemma_find_break(all, at, n);
        assert(lines.skip(i).push(Seq::empty()) =~= seq![lines[i]] + lines.skip(i + 1).push(
            Seq::empty(),
        ));
    }
}

/// Splitting the joined lines at the line breaks gives the lines back, and
/// behind them the empty piece after the last break, as long as no line
/// holds a line break.
pub proof fn lemma_split_join(lines: Seq<Seq<char>>)
    requires
        forall|k: int| 0 <= k < lines.len() ==> no_break(#[trigger] lines[k]),
    ensures
        split(join_lines(lines), "\r\n"@) == lines.push(Seq::empty()),
{
    lemma_split_joined(lines, 0);
    assert(lines.take(0) =~= Seq::<Seq<char>>::empty());
    assert(lines.skip(0) =~= lines);
}

/// Whether the character `d` stands nowhere in `s`.
pub open spec fn free_of(s: Seq<char>, d: char) -> bool {
    forall|i: int| 0 <= i < s.len() ==> #[trigger] s[i] != d
}

/// A search in the rest of a text finds what the search in the whole text
/// finds from there on.
pub proof fn lemma_find_shift(s: Seq<char>, pat: Seq<char>, start: int, from: int)
    requires
        0 <= start <= from <= s.len(),
    ensures
        find_from(s, pat, from) == start + find_from(s.skip(start), pat, from - start),
    decreases s.len() - from,
{
    let t = s.skip(start);
    if from < s.len() && from + pat.len() <= s.len() {
        assert(s.subrange(from, from + pat.len()) =~= t.subrange(
            from - start,
            from - start + pat.len(),
        ));
        if !match_at(s, pat, from) {
            lemma_find_shift(s, pat, start, from + 1);
        }
    }
}

/// The pieces of a text from a position on are the pieces of the rest of the
/// text from that position.
pub proof fn lemma_split_shift(s: Seq<char>, pat: Seq<char>, start: int)
    requires
        0 <= start <= s.len(),
        pat.len() > 0,
    ensures
        split_from(s, pat, start) == split(s.skip(start), pat),
    decreases s.len() - start,
{
    let t = s.skip(start);
    let m = pat.len() as int;
    lemma_find_shift(s, pat, start, start);
    lemma_find_from(s, pat, start);
    let k = find_from(s, pat, start);
    let kt = find_from(t, pat, 0);
    if k + m <= s.len() {
        lemma_split_shift(s, pat, k + m);
        lemma_split_shift(t, pat, kt + m);
        assert(t.skip(kt + m) =~= s.skip(k + m));
        assert(t.subrange(0, kt) =~= s.subrange(start, k));
    } else {
        assert(t.subrange(0, t.len() as int) =~= s.subrange(start, s.len() as int));
    }
}

/// A text without the character `d` is its own single piece.
pub proof fn lemma_split_none(a: Seq<char>, d: char)
    requires
        free_of(a, d),
    ensures
        split(a, seq![d]) == seq![a],
{
    let pat = seq![d];
    lemma_find_from(a, pat, 0);
    let k = find_from(a, pat, 0);
    if k < a.len() {
        assert(a.subrange(k, k + 1)[0] == d);
    }
    assert(a.subrange(0, a.len() as int) =~= a);
}

/// A text without the character `d`, then `d`, then more: the first piece is
/// that text, and the others are the pieces of what follows.
pub proof fn lemma_split_first(a: Seq<char>, d: char, b: Seq<char>)
    requires
        free_of(a, d),
    ensures
        split(a + seq![d] + b, seq![d]) == seq![a] + split(b, seq![d]),
{
    let pat = seq![d];
    let s = a + pat + b;
    let n = a.len() as int;
    lemma_find_from(s, pat, 0);
    let k = find_from(s, pat, 0);
    assert(s.subrange(n, n + 1) =~= pat);
    assert(match_at(s, pat, n));
    if k < n {
        assert(s.subrange(k, k + 1)[0] == d);
        assert(s[k] == a[k]);
    }
    lemma_split_shift(s, pat, n + 1);
    assert(s.skip(n + 1) =~= b);
    assert(s.subrange(0, n) =~= a);
}

/// A text that neither starts nor ends with white space stays as it is when
/// trimmed.
pub proof fn lemma_trim_none(s: Seq<char>)
    requires
        s.len() > 0,
        !is_space(s[0]),
        !is_space(s.last()),
    ensures
        trimmed(s) == s,
{
    assert(s.subrange(0, s.len() as int) =~= s);
}

/// A text that starts with one blank, then neither goes on nor ends with
/// white space, loses just that blank when trimmed.
pub proof fn lemma_trim_lead(s: Seq<char>)
    requires
        s.len() > 1,
        s[0] == ' ',
        !is_space(s[1]),
        !is_space(s.last()),
    ensures
        trimmed(s) == s.skip(1),
{
    assert(skip_spaces(s, 1) == 1);
    assert(skip_spaces(s, 0) == 1);
    assert(s.subrange(1, s.len() as int) =~= s.skip(1));
}

/// One more piece without the character `d`, put behind a `d`, comes out as
/// one more last piece.
pub proof fn lemma_split_last(x: Seq<char>, d: char, b: Seq<char>)
    requires
        free_of(b, d),
    ensures
        split(x + seq![d] + b, seq![d]) == split(x, seq![d]).push(b),
    decreases x.len(),
{
    let pat = seq![d];
    lemma_find_from(x, pat, 0);
    let k = find_from(x, pat, 0);
    if k < x.len() {
        let a = x.subrange(0, k);
        let rest = x.skip(k + 1);
        assert(x.subrange(k, k + 1)[0] == d);
        assert forall|i: int| 0 <= i < a.len() implies #[trigger] a[i] != d by {
            if a[i] == d {
                assert(x.subrange(i, i + 1) =~= pat);
                assert(match_at(x, pat, i));
            }
        }
        assert(x =~= a + pat + rest);
        lemma_split_first(a, d, rest);
        assert(x + pat + b =~= a + pat + (rest + pat + b));
        lemma_split_first(a, d, rest + pat + b);
        lemma_split_last(rest, d, b);
        assert(seq![a] + split(rest, pat).push(b) =~= (seq![a] + split(rest, pat)).push(b));
    } else {
        assert forall|i: int| 0 <= i < x.len() implies #[trigger] x[i] != d by {
            if x[i] == d {
                assert(x.subrange(i, i + 1) =~= pat);
                assert(match_at(x, pat, i));
            }
        }
        lemma_split_none(x, d);
        lemma_split_first(x, d, b);
        lemma_split_none(b, d);
        assert(seq![x] + seq![b] =~= seq![x].push(b));
    }
}

/// A blank, a key, `=` and a value: trimmed and split at `=`, the key and
/// the value come out.
pub proof fn lemma_pair_pieces(key: Seq<char>, value: Seq<char>)
    requires
        key.len() > 0,
        !is_space(key[0]),
        free_of(key, '='),
        free_of(value, '='),
        value.len() > 0 ==> !is_space(value.last()),
    ensures
        split(trimmed(seq![' '] + key + seq!['='] + value), seq!['=']) == seq![key, value],
{
    let body = seq![' '] + key + seq!['='] + value;
    assert(body[1] == key[0]);
    if value.len() > 0 {
        assert(body.last() == value.last());
    } else {
        assert(body.last() == '=');
    }
    lemma_trim_lead(body);
    assert(body.skip(1) =~= key + seq!['='] + value);
    lemma_split_first(key, '=', value);
    lemma_split_none(value, '=');
    assert(seq![key] + seq![value] =~= seq![key, value]);
}

/// A blank and a word: trimmed and split at `=`, the word comes out.
pub proof fn lemma_flag_pieces(word: Seq<char>)
    requires
        word.len() > 0,
        !is_space(word[0]),
        !is_space(word.last()),
        free_of(word, '='),
    ensures
        split(trimmed(seq![' '] + word), seq!['=']) == seq![word],
{
    let body = seq![' '] + word;
    assert(body[1] == word[0]);
    assert(body.last() == word.last());
    lemma_trim_lead(body);
    assert(body.skip(1) =~= word);
    lemma_split_none(word, '=');
}

} // verus!
