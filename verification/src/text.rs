use vstd::prelude::*;

verus! {

/// Unicode `White_Space` characters, the ones that `str::trim` removes.
pub open spec fn is_ws(c: char) -> bool {
    ||| ('\u{9}' <= c && c <= '\u{d}')
    ||| c == ' '
    ||| c == '\u{85}'
    ||| c == '\u{a0}'
    ||| c == '\u{1680}'
    ||| ('\u{2000}' <= c && c <= '\u{200a}')
    ||| c == '\u{2028}'
    ||| c == '\u{2029}'
    ||| c == '\u{202f}'
    ||| c == '\u{205f}'
    ||| c == '\u{3000}'
}

pub fn is_whitespace(c: char) -> (b: bool)
    ensures
        b == is_ws(c),
{
    ('\u{9}' <= c && c <= '\u{d}') || c == ' ' || c == '\u{85}' || c == '\u{a0}' || c == '\u{1680}'
        || ('\u{2000}' <= c && c <= '\u{200a}') || c == '\u{2028}' || c == '\u{2029}' || c
        == '\u{202f}' || c == '\u{205f}' || c == '\u{3000}'
}

/// `s` without its leading whitespace.
pub open spec fn spec_trim_start(s: Seq<char>) -> Seq<char>
    decreases s.len(),
{
    if s.len() > 0 && is_ws(s[0]) {
        spec_trim_start(s.drop_first())
    } else {
        s
    }
}

/// `s` without its trailing whitespace.
pub open spec fn spec_trim_end(s: Seq<char>) -> Seq<char>
    decreases s.len(),
{
    if s.len() > 0 && is_ws(s.last()) {
        spec_trim_end(s.drop_last())
    } else {
        s
    }
}

/// `s` without leading and trailing whitespace, as `str::trim` gives it.
pub open spec fn spec_trim(s: Seq<char>) -> Seq<char> {
    spec_trim_end(spec_trim_start(s))
}

/// Number of bytes that the UTF-8 encoding of a character takes.
pub open spec fn char_utf8_len(c: char) -> nat {
    if (c as u32) < 0x80 {
        1
    } else if (c as u32) < 0x800 {
        2
    } else if (c as u32) < 0x10000 {
        3
    } else {
        4
    }
}

/// Number of bytes that the UTF-8 encoding of the text takes, as `str::len` gives it.
pub open spec fn spec_utf8_len(s: Seq<char>) -> nat
    decreases s.len(),
{
    if s.len() == 0 {
        0
    } else {
        spec_utf8_len(s.drop_last()) + char_utf8_len(s.last())
    }
}

proof fn lemma_trim_start_skip(s: Seq<char>, i: int)
    requires
        0 <= i <= s.len(),
        forall|k: int| 0 <= k < i ==> is_ws(#[trigger] s[k]),
        i == s.len() || !is_ws(s[i]),
    ensures
        spec_trim_start(s) == s.skip(i),
    decreases i,
{
    if i == 0 {
        assert(s.skip(0) =~= s);
    } else {
        let t = s.drop_first();
        assert forall|k: int| 0 <= k < i - 1 implies is_ws(#[trigger] t[k]) by {
            assert(t[k] == s[k + 1]);
        }
        if i - 1 < t.len() {
            assert(t[i - 1] == s[i]);
        }
        lemma_trim_start_skip(t, i - 1);
        assert(t.skip(i - 1) =~= s.skip(i));
    }
}

proof fn lemma_trim_end_take(s: Seq<char>, j: int)
    requires
        0 <= j <= s.len(),
        forall|k: int| j <= k < s.len() ==> is_ws(#[trigger] s[k]),
        j == 0 || !is_ws(s[j - 1]),
    ensures
        spec_trim_end(s) == s.take(j),
    decreases s.len() - j,
{
    if j == s.len() {
        assert(s.take(j) =~= s);
    } else {
        let t = s.drop_last();
        assert forall|k: int| j <= k < t.len() implies is_ws(#[trigger] t[k]) by {
            assert(t[k] == s[k]);
        }
        if j > 0 {
            assert(t[j - 1] == s[j - 1]);
        }
        lemma_trim_end_take(t, j);
        assert(t.take(j) =~= s.take(j));
    }
}

/// The characters of `s`.
pub fn chars_of(s: &str) -> (v: Vec<char>)
    ensures
        v@ == s@,
{
    broadcast use vstd::string::axiom_spec_iter;

    let mut v: Vec<char> = Vec::new();
    for c in it: s.chars()
        invariant
            it.seq() == s@,
            v@ == s@.take(it.index()),
    {
        v.push(c);
        assert(v@ =~= s@.take(it.index() + 1));
    }
    assert(v@ =~= s@);
    v
}

/// The characters of `t` between `lo` and `hi`.
pub fn sub_chars(t: &Vec<char>, lo: usize, hi: usize) -> (v: Vec<char>)
    requires
        lo <= hi <= t.len(),
    ensures
        v@ == t@.subrange(lo as int, hi as int),
{
    let mut v: Vec<char> = Vec::new();
    let mut i = lo;
    while i < hi
        invariant
            lo <= i <= hi <= t.len(),
            v@ == t@.subrange(lo as int, i as int),
        decreases hi - i,
    {
        v.push(t[i]);
        i += 1;
        assert(v@ =~= t@.subrange(lo as int, i as int));
    }
    v
}

/// The characters of `t` without leading and trailing whitespace.
pub fn trim_chars(t: &Vec<char>) -> (v: Vec<char>)
    ensures
        v@ == spec_trim(t@),
{
    let n = t.len();
    let mut i: usize = 0;
    while i < n && is_whitespace(t[i])
        invariant
            i <= n == t.len(),
            forall|k: int| 0 <= k < i ==> is_ws(#[trigger] t@[k]),
        decreases n - i,
    {
        i += 1;
    }
    proof {
        lemma_trim_start_skip(t@, i as int);
    }
    let ghost st = t@.skip(i as int);
    let mut j: usize = n;
    while j > i && is_whitespace(t[j - 1])
        invariant
            i <= j <= n == t.len(),
            forall|k: int| j <= k < n ==> is_ws(#[trigger] t@[k]),
        decreases j,
    {
        j -= 1;
    }
    proof {
        assert forall|k: int| j - i <= k < st.len() implies is_ws(#[trigger] st[k]) by {
            assert(st[k] == t@[k + i]);
        }
        if j > i {
            assert(st[j - i - 1] == t@[j - 1]);
        }
        lemma_trim_end_take(st, j - i);
        assert(st.take(j - i) =~= t@.subrange(i as int, j as int));
    }
    sub_chars(t, i, j)
}

/// The characters of `s` without leading and trailing whitespace.
pub fn trimmed(s: &str) -> (v: Vec<char>)
    ensures
        v@ == spec_trim(s@),
{
    let t = chars_of(s);
    trim_chars(&t)
}

proof fn lemma_utf8_len_prefix(s: Seq<char>, i: int)
    requires
        0 <= i <= s.len(),
    ensures
        spec_utf8_len(s.take(i)) <= spec_utf8_len(s),
    decreases s.len() - i,
{
    if i < s.len() {
        lemma_utf8_len_prefix(s, i + 1);
        assert(s.take(i + 1).drop_last() =~= s.take(i));
    } else {
        assert(s.take(i) =~= s);
    }
}

/// Every character of `s` takes one byte.
pub open spec fn all_one_byte(s: Seq<char>) -> bool {
    forall|k: int| 0 <= k < s.len() ==> #[trigger] char_utf8_len(s[k]) == 1
}

/// A text takes at least one byte per character, and exactly one per
/// character only when every character takes one byte.
pub proof fn lemma_utf8_len_at_least_len(s: Seq<char>)
    ensures
        spec_utf8_len(s) >= s.len(),
        spec_utf8_len(s) == s.len() <==> all_one_byte(s),
    decreases s.len(),
{
    if s.len() > 0 {
        let d = s.drop_last();
        lemma_utf8_len_at_least_len(d);
        if spec_utf8_len(s) == s.len() {
            assert forall|k: int| 0 <= k < s.len() implies #[trigger] char_utf8_len(s[k]) == 1 by {
                if k < d.len() {
                    assert(s[k] == d[k]);
                }
            }
        }
        if all_one_byte(s) {
            assert(char_utf8_len(s[s.len() - 1]) == 1);
            assert forall|k: int| 0 <= k < d.len() implies #[trigger] char_utf8_len(d[k]) == 1 by {
                assert(d[k] == s[k]);
            }
        }
    }
}

/// Trimming keeps only characters of the text, so one-byte characters stay
/// one-byte.
pub proof fn lemma_trim_one_byte(s: Seq<char>)
    requires
        all_one_byte(s),
    ensures
        all_one_byte(spec_trim(s)),
{
    lemma_trim_start_one_byte(s);
    lemma_trim_end_one_byte(spec_trim_start(s));
}

proof fn lemma_trim_start_one_byte(s: Seq<char>)
    requires
        all_one_byte(s),
    ensures
        all_one_byte(spec_trim_start(s)),
    decreases s.len(),
{
    if s.len() > 0 && is_ws(s[0]) {
        let d = s.drop_first();
        assert forall|k: int| 0 <= k < d.len() implies #[trigger] char_utf8_len(d[k]) == 1 by {
            assert(d[k] == s[k + 1]);
        }
        lemma_trim_start_one_byte(d);
    }
}

proof fn lemma_trim_end_one_byte(s: Seq<char>)
    requires
        all_one_byte(s),
    ensures
        all_one_byte(spec_trim_end(s)),
    decreases s.len(),
{
    if s.len() > 0 && is_ws(s.last()) {
        let d = s.drop_last();
        assert forall|k: int| 0 <= k < d.len() implies #[trigger] char_utf8_len(d[k]) == 1 by {
            assert(d[k] == s[k]);
        }
        lemma_trim_end_one_byte(d);
    }
}

/// Number of bytes of the UTF-8 encoding of the characters, counted up to
/// the first value above `cap`.
pub fn utf8_len_capped(t: &Vec<char>, cap: usize) -> (n: usize)
    requires
        cap <= usize::MAX - 4,
    ensures
        spec_utf8_len(t@) <= cap ==> n == spec_utf8_len(t@),
        spec_utf8_len(t@) > cap ==> n > cap,
{
    let mut n: usize = 0;
    let mut i: usize = 0;
    while i < t.len() && n <= cap
        invariant
            i <= t.len(),
            cap <= usize::MAX - 4,
            n == spec_utf8_len(t@.take(i as int)),
        decreases t.len() - i,
    {
        let c = t[i];
        let k: usize = if (c as u32) < 0x80 {
            1
        } else if (c as u32) < 0x800 {
            2
        } else if (c as u32) < 0x10000 {
            3
        } else {
            4
        };
        assert(t@.take(i + 1).drop_last() =~= t@.take(i as int));
        n = n + k;
        i += 1;
    }
    proof {
        lemma_utf8_len_prefix(t@, i as int);
        if i == t.len() {
            assert(t@.take(i as int) =~= t@);
        }
    }
    n
}


/// Whether `needle` occurs in `hay` as a contiguous piece.
pub open spec fn seq_contains(hay: Seq<char>, needle: Seq<char>) -> bool {
    exists|i: int| 0 <= i && i + needle.len() <= hay.len() && #[trigger] hay.subrange(i, i + needle.len()) == needle
}

/// Whether `needle` occurs in `hay`.
pub fn contains_chars(hay: &Vec<char>, needle: &Vec<char>) -> (b: bool)
    ensures
        b == seq_contains(hay@, needle@),
{
    if needle.len() > hay.len() {
        return false;
    }
    let last = hay.len() - needle.len();
    let mut i: usize = 0;
    while i <= last
        invariant
            last == hay.len() - needle.len(),
            needle.len() <= hay.len(),
            i <= last + 1,
            forall|j: int| 0 <= j < i ==> #[trigger] hay@.subrange(j, j + needle.len()) != needle@,
        decreases last + 1 - i,
    {
        let mut k: usize = 0;
        while k < needle.len() && hay[i + k] == needle[k]
            invariant
                i <= last,
                last == hay.len() - needle.len(),
                k <= needle.len(),
                forall|m: int| 0 <= m < k ==> hay@[i + m] == needle@[m],
            decreases needle.len() - k,
        {
            k += 1;
        }
        if k == needle.len() {
            assert(hay@.subrange(i as int, i + needle.len()) =~= needle@);
            return true;
        }
        assert(hay@.subrange(i as int, i + needle.len())[k as int] != needle@[k as int]);
        i += 1;
    }
    false
}

/// A string holding the given characters.
pub fn string_of(chars: &Vec<char>) -> (s: String)
    ensures
        s@ == chars@,
{
    let mut s = String::new();
    let mut i: usize = 0;
    while i < chars.len()
        invariant
            i <= chars.len(),
            s@ == chars@.take(i as int),
        decreases chars.len() - i,
    {
        push_char(&mut s, chars[i]);
        i += 1;
        assert(s@ =~= chars@.take(i as int));
    }
    assert(chars@.take(i as int) =~= chars@);
    s
}

/// Whether a character is an ASCII digit.
pub open spec fn is_digit(c: char) -> bool {
    '0' <= c && c <= '9'
}

/// The number that a string of ASCII digits writes.
pub open spec fn digits_value(s: Seq<char>) -> nat
    decreases s.len(),
{
    if s.len() == 0 {
        0
    } else {
        (digits_value(s.drop_last()) * 10 + (s.last() as int - 48)) as nat
    }
}

/// The text after an optional leading `+`.
pub open spec fn unsigned_digits(s: Seq<char>) -> Seq<char> {
    if s.len() > 0 && s[0] == '+' {
        s.drop_first()
    } else {
        s
    }
}

pub open spec fn all_digits(d: Seq<char>) -> bool {
    forall|k: int| 0 <= k < d.len() ==> is_digit(#[trigger] d[k])
}

/// What `u64::from_str` gives: an optional `+`, then one or more ASCII
/// digits whose value fits.
pub open spec fn spec_parse_u64(s: Seq<char>) -> Option<u64> {
    let d = unsigned_digits(s);
    if d.len() == 0 || !all_digits(d) {
        None
    } else if digits_value(d) > u64::MAX {
        None
    } else {
        Some(digits_value(d) as u64)
    }
}

/// What `usize::from_str` gives.
pub open spec fn spec_parse_usize(s: Seq<char>) -> Option<usize> {
    match spec_parse_u64(s) {
        Some(v) => if v <= usize::MAX { Some(v as usize) } else { None },
        None => None,
    }
}

proof fn lemma_digits_value_grows(s: Seq<char>, i: int)
    requires
        0 <= i <= s.len(),
        forall|k: int| 0 <= k < s.len() ==> is_digit(#[trigger] s[k]),
    ensures
        digits_value(s.take(i)) <= digits_value(s),
    decreases s.len() - i,
{
    if i < s.len() {
        lemma_digits_value_grows(s, i + 1);
        assert(s.take(i + 1).drop_last() =~= s.take(i));
        assert(s.take(i + 1).last() == s[i]);
    } else {
        assert(s.take(i) =~= s);
    }
}

/// Reads an unsigned number as `u64::from_str` does.
pub fn parse_u64(s: &Vec<char>) -> (r: Option<u64>)
    ensures
        r == spec_parse_u64(s@),
{
    let start: usize = if s.len() > 0 && s[0] == '+' { 1 } else { 0 };
    let ghost d = unsigned_digits(s@);
    assert(d =~= s@.skip(start as int));
    if start == s.len() {
        return None;
    }
    let mut value: u64 = 0;
    let mut i: usize = start;
    while i < s.len()
        invariant
            start <= i <= s.len(),
            d == s@.skip(start as int),
            d == unsigned_digits(s@),
            forall|k: int| 0 <= k < i - start ==> is_digit(#[trigger] d[k]),
            value == digits_value(d.take(i - start)),
        decreases s.len() - i,
    {
        let c = s[i];
        assert(d[i - start] == c);
        if !('0' <= c && c <= '9') {
            assert(!is_digit(d[(i - start) as int]));
            return None;
        }
        assert(d.take(i - start + 1).drop_last() =~= d.take(i - start));
        let digit = (c as u32 - '0' as u32) as u64;
        if value > (u64::MAX - digit) / 10 {
            proof {
                assert forall|k: int| 0 <= k < i - start + 1 implies is_digit(#[trigger] d.take(i - start + 1)[k]) by {
                    assert(d.take(i - start + 1)[k] == d[k]);
                }
                let t = d.take(i - start + 1);
                assert(digits_value(t) == value * 10 + digit);
                let x: int = (u64::MAX - digit) as int;
                vstd::arithmetic::div_mod::lemma_fundamental_div_mod(x, 10);
                assert(value * 10 + digit > u64::MAX);
                if all_digits(d) {
                    lemma_digits_value_grows(d, i - start + 1);
                }
            }
            return None;
        }
        value = value * 10 + digit;
        i += 1;
    }
    assert(d.take(i - start) =~= d);
    Some(value)
}

/// Reads an unsigned number as `usize::from_str` does.
pub fn parse_usize(s: &Vec<char>) -> (r: Option<usize>)
    ensures
        r == spec_parse_usize(s@),
{
    match parse_u64(s) {
        Some(v) => if v <= usize::MAX as u64 { Some(v as usize) } else { None },
        None => None,
    }
}

/// The pieces of `s` between the separators, as `str::split` gives them.
pub open spec fn split_on(s: Seq<char>, sep: char) -> Seq<Seq<char>>
    decreases s.len(),
{
    if s.len() == 0 {
        seq![Seq::empty()]
    } else {
        let p = split_on(s.drop_last(), sep);
        if s.last() == sep {
            p.push(Seq::empty())
        } else {
            p.update(p.len() - 1, p.last().push(s.last()))
        }
    }
}

pub proof fn lemma_split_nonempty(s: Seq<char>, sep: char)
    ensures
        split_on(s, sep).len() >= 1,
    decreases s.len(),
{
    if s.len() > 0 {
        lemma_split_nonempty(s.drop_last(), sep);
    }
}

pub open spec fn chars_views(v: Seq<Vec<char>>) -> Seq<Seq<char>> {
    v.map_values(|x: Vec<char>| x@)
}

/// The pieces of `t` between occurrences of `sep`.
pub fn split_chars(t: &Vec<char>, sep: char) -> (pieces: Vec<Vec<char>>)
    ensures
        chars_views(pieces@) == split_on(t@, sep),
{
    let mut done: Vec<Vec<char>> = Vec::new();
    let mut cur: Vec<char> = Vec::new();
    let mut i: usize = 0;
    assert(t@.take(0) =~= Seq::<char>::empty());
    while i < t.len()
        invariant
            i <= t.len(),
            chars_views(done@) == split_on(t@.take(i as int), sep).drop_last(),
            cur@ == split_on(t@.take(i as int), sep).last(),
            split_on(t@.take(i as int), sep).len() >= 1,
        decreases t.len() - i,
    {
        let c = t[i];
        let ghost p = split_on(t@.take(i as int), sep);
        assert(t@.take(i + 1).drop_last() =~= t@.take(i as int));
        assert(t@.take(i + 1).last() == c);
        if c == sep {
            let ghost before = chars_views(done@);
            done.push(cur);
            assert(chars_views(done@) =~= before.push(p.last()));
            assert(split_on(t@.take(i + 1), sep).drop_last() =~= p);
            cur = Vec::new();
            assert(cur@ =~= split_on(t@.take(i + 1), sep).last());
        } else {
            cur.push(c);
            assert(split_on(t@.take(i + 1), sep).drop_last() =~= p.drop_last());
        }
        i += 1;
    }
    proof {
        assert(t@.take(i as int) =~= t@);
        let p = split_on(t@, sep);
        assert(p.drop_last().push(p.last()) =~= p);
    }
    let ghost before = chars_views(done@);
    done.push(cur);
    assert(chars_views(done@) =~= before.push(split_on(t@, sep).last()));
    done
}

/// A line without the carriage return of a `\r\n` ending.
pub open spec fn strip_cr(l: Seq<char>) -> Seq<char> {
    if l.len() > 0 && l.last() == '\r' {
        l.drop_last()
    } else {
        l
    }
}

/// The lines of a text as `str::lines` gives them: split at `\n`, a `\r`
/// before a `\n` dropped, and no empty line after a final `\n`.
pub open spec fn spec_lines(s: Seq<char>) -> Seq<Seq<char>> {
    let p = split_on(s, '\n');
    let init = p.drop_last().map_values(|l: Seq<char>| strip_cr(l));
    if p.last().len() == 0 {
        init
    } else {
        init.push(p.last())
    }
}

/// The lines of a text.
pub fn split_lines(t: &Vec<char>) -> (lines: Vec<Vec<char>>)
    ensures
        chars_views(lines@) == spec_lines(t@),
{
    let pieces = split_chars(t, '\n');
    proof {
        lemma_split_nonempty(t@, '\n');
    }
    let ghost p = split_on(t@, '\n');
    let n = pieces.len();
    let mut lines: Vec<Vec<char>> = Vec::new();
    let mut i: usize = 0;
    while i + 1 < n
        invariant
            n == pieces.len(),
            n >= 1,
            i + 1 <= n,
            chars_views(pieces@) == p,
            chars_views(lines@) == p.drop_last().take(i as int).map_values(|l: Seq<char>| strip_cr(l)),
        decreases n - i,
    {
        let piece = &pieces[i];
        assert(piece@ == p[i as int]);
        let ghost before = chars_views(lines@);
        let line = if piece.len() > 0 && piece[piece.len() - 1] == '\r' {
            sub_chars(piece, 0, piece.len() - 1)
        } else {
            sub_chars(piece, 0, piece.len())
        };
        assert(line@ =~= strip_cr(p[i as int]));
        lines.push(line);
        assert(chars_views(lines@) =~= before.push(strip_cr(p[i as int])));
        assert(p.drop_last().take(i + 1) =~= p.drop_last().take(i as int).push(p[i as int]));
        i += 1;
        assert(chars_views(lines@) =~= p.drop_last().take(i as int).map_values(|l: Seq<char>| strip_cr(l)));
    }
    assert(p.drop_last().take(i as int) =~= p.drop_last());
    let last = &pieces[n - 1];
    assert(last@ == p.last());
    if last.len() > 0 {
        let ghost before = chars_views(lines@);
        let line = sub_chars(last, 0, last.len());
        assert(line@ =~= p.last());
        lines.push(line);
        assert(chars_views(lines@) =~= before.push(p.last()));
    }
    lines
}

/// The whitespace-separated words of a text, as `str::split_whitespace`
/// gives them.
pub open spec fn words(s: Seq<char>) -> Seq<Seq<char>>
    decreases s.len(),
{
    if s.len() == 0 {
        Seq::empty()
    } else {
        let w = words(s.drop_last());
        let c = s.last();
        if is_ws(c) {
            w
        } else if s.len() >= 2 && !is_ws(s[s.len() - 2]) {
            w.update(w.len() - 1, w.last().push(c))
        } else {
            w.push(seq![c])
        }
    }
}

/// The whitespace-separated words of the characters.
pub fn split_words(t: &Vec<char>) -> (ws: Vec<Vec<char>>)
    ensures
        chars_views(ws@) == words(t@),
{
    let mut done: Vec<Vec<char>> = Vec::new();
    let mut cur: Vec<char> = Vec::new();
    let mut in_word = false;
    let mut i: usize = 0;
    assert(t@.take(0) =~= Seq::<char>::empty());
    while i < t.len()
        invariant
            i <= t.len(),
            in_word == (i > 0 && !is_ws(t@[i - 1])),
            !in_word ==> chars_views(done@) == words(t@.take(i as int)),
            in_word ==> words(t@.take(i as int)).len() > 0 && chars_views(done@) == words(t@.take(i as int)).drop_last()
                && cur@ == words(t@.take(i as int)).last(),
        decreases t.len() - i,
    {
        let c = t[i];
        let ghost w = words(t@.take(i as int));
        assert(t@.take(i + 1).drop_last() =~= t@.take(i as int));
        assert(t@.take(i + 1).last() == c);
        if is_whitespace(c) {
            if in_word {
                let ghost before = chars_views(done@);
                done.push(cur);
                assert(chars_views(done@) =~= before.push(w.last()));
                assert(w.drop_last().push(w.last()) =~= w);
                cur = Vec::new();
            }
            in_word = false;
        } else {
            if in_word {
                assert(t@.take(i + 1)[i - 1] == t@[i - 1]);
                cur.push(c);
                assert(words(t@.take(i + 1)).drop_last() =~= w.drop_last());
            } else {
                cur = Vec::new();
                cur.push(c);
                assert(cur@ =~= seq![c]);
                if i > 0 {
                    assert(t@.take(i + 1)[i - 1] == t@[i - 1]);
                }
            }
            in_word = true;
        }
        i += 1;
    }
    assert(t@.take(i as int) =~= t@);
    if in_word {
        let ghost before = chars_views(done@);
        let ghost w = words(t@);
        done.push(cur);
        assert(chars_views(done@) =~= before.push(w.last()));
        assert(w.drop_last().push(w.last()) =~= w);
    }
    done
}

/// The characters of `a` followed by those of `b`.
pub fn concat_chars(a: &Vec<char>, b: &Vec<char>) -> (v: Vec<char>)
    ensures
        v@ == a@ + b@,
{
    let mut v = sub_chars(a, 0, a.len());
    let mut i: usize = 0;
    while i < b.len()
        invariant
            i <= b.len(),
            v@ == a@ + b@.take(i as int),
        decreases b.len() - i,
    {
        v.push(b[i]);
        i += 1;
        assert(v@ =~= a@ + b@.take(i as int));
    }
    assert(b@.take(i as int) =~= b@);
    v
}

/// Appends a character to a string.
///
/// Calls `String::push`, whose documentation says it appends the character
/// to the end of the string; the contract claims that of it.
#[verifier::external_body]
pub(crate) fn push_char(s: &mut String, c: char)
    ensures
        final(s)@ == old(s)@.push(c),
{
    s.push(c);
}

pub open spec fn is_ascii_digit(c: char) -> bool {
    '0' <= c && c <= '9'
}

pub open spec fn is_sign(c: char) -> bool {
    c == '+' || c == '-'
}

pub open spec fn is_exp_mark(c: char) -> bool {
    c == 'e' || c == 'E'
}

/// How many points `.` the text holds.
pub open spec fn dot_count(s: Seq<char>) -> nat
    decreases s.len(),
{
    if s.len() == 0 {
        0
    } else {
        dot_count(s.drop_last()) + if s.last() == '.' {
            1nat
        } else {
            0nat
        }
    }
}

/// ASCII digits with at most one point and at least one digit, such as
/// `12`, `1.`, `.5` or `1.5`.
pub open spec fn decimal_digits(m: Seq<char>) -> bool {
    &&& forall|i: int| 0 <= i < m.len() ==> is_ascii_digit(#[trigger] m[i]) || m[i] == '.'
    &&& dot_count(m) <= 1
    &&& m.len() > dot_count(m)
}

/// What follows the `e` of an exponent: an optional sign, then ASCII digits.
pub open spec fn exponent_digits(r: Seq<char>) -> bool {
    all_ascii_digits(without_sign(r)) && without_sign(r).len() >= 1
}

/// The text without a leading `+` or `-`.
pub open spec fn without_sign(s: Seq<char>) -> Seq<char> {
    if s.len() > 0 && is_sign(s[0]) {
        s.drop_first()
    } else {
        s
    }
}

pub open spec fn all_ascii_digits(q: Seq<char>) -> bool {
    forall|i: int| 0 <= i < q.len() ==> is_ascii_digit(#[trigger] q[i])
}

/// A decimal number with an optional exponent `e` or `E`.
pub open spec fn number_text(u: Seq<char>) -> bool {
    ||| decimal_digits(u)
    ||| exists|k: int|
        0 <= k < u.len() && is_exp_mark(#[trigger] u[k]) && decimal_digits(u.take(k)) && exponent_digits(
            u.skip(k + 1),
        )
}

/// `u` spells the word given in lower and upper case, each letter in either.
pub open spec fn letters_match(u: Seq<char>, lower: Seq<char>, upper: Seq<char>) -> bool {
    &&& u.len() == lower.len()
    &&& upper.len() == lower.len()
    &&& forall|i: int| 0 <= i < u.len() ==> #[trigger] u[i] == lower[i] || u[i] == upper[i]
}

/// `inf`, `infinity` or `nan`, in any case.
pub open spec fn special_float_word(u: Seq<char>) -> bool {
    ||| letters_match(u, seq!['i', 'n', 'f'], seq!['I', 'N', 'F'])
    ||| letters_match(
        u,
        seq!['i', 'n', 'f', 'i', 'n', 'i', 't', 'y'],
        seq!['I', 'N', 'F', 'I', 'N', 'I', 'T', 'Y'],
    )
    ||| letters_match(u, seq!['n', 'a', 'n'], seq!['N', 'A', 'N'])
}

/// Text that reads as a floating-point number by the grammar that Rust's
/// `f64` parsing documents: an optional sign, then `inf`, `infinity` or
/// `nan` in any case, or a decimal number with an optional exponent.
pub open spec fn float_text(s: Seq<char>) -> bool {
    special_float_word(without_sign(s)) || number_text(without_sign(s))
}

fn check_decimal(m: &Vec<char>) -> (b: bool)
    ensures
        b == decimal_digits(m@),
{
    let mut dots: usize = 0;
    let mut ok = true;
    let mut i: usize = 0;
    assert(m@.take(0) =~= Seq::<char>::empty());
    while i < m.len()
        invariant
            i <= m.len(),
            dots == dot_count(m@.take(i as int)),
            dots <= i,
            ok == forall|j: int| 0 <= j < i ==> is_ascii_digit(#[trigger] m@[j]) || m@[j] == '.',
        decreases m.len() - i,
    {
        assert(m@.take(i + 1).drop_last() =~= m@.take(i as int));
        let c = m[i];
        if c == '.' {
            dots += 1;
        } else if !('0' <= c && c <= '9') {
            ok = false;
        }
        i += 1;
    }
    assert(m@.take(i as int) =~= m@);
    ok && dots <= 1 && m.len() > dots
}

fn check_exponent(r: &Vec<char>) -> (b: bool)
    ensures
        b == exponent_digits(r@),
{
    let start: usize = if r.len() > 0 && (r[0] == '+' || r[0] == '-') {
        1
    } else {
        0
    };
    let ghost q = without_sign(r@);
    assert(q =~= r@.skip(start as int));
    if start >= r.len() {
        return false;
    }
    let mut i: usize = start;
    while i < r.len()
        invariant
            start <= i <= r.len(),
            q =~= r@.skip(start as int),
            q == without_sign(r@),
            forall|j: int| 0 <= j < i - start ==> is_ascii_digit(#[trigger] q[j]),
        decreases r.len() - i,
    {
        let c = r[i];
        if !('0' <= c && c <= '9') {
            assert(q[i - start] == c);
            assert(!is_ascii_digit(q[i - start]));
            assert(0 <= i - start < q.len());
            return false;
        }
        assert(q[i - start] == c);
        i += 1;
    }
    true
}

fn check_letters(u: &Vec<char>, lower: &[char], upper: &[char]) -> (b: bool)
    ensures
        b == letters_match(u@, lower@, upper@),
{
    if u.len() != lower.len() || upper.len() != lower.len() {
        return false;
    }
    let mut i: usize = 0;
    while i < u.len()
        invariant
            i <= u.len() == lower.len() == upper.len(),
            forall|j: int| 0 <= j < i ==> #[trigger] u@[j] == lower@[j] || u@[j] == upper@[j],
        decreases u.len() - i,
    {
        if u[i] != lower[i] && u[i] != upper[i] {
            return false;
        }
        i += 1;
    }
    true
}

fn check_number(u: &Vec<char>) -> (b: bool)
    ensures
        b == number_text(u@),
{
    let mut k: usize = 0;
    while k < u.len()
        invariant
            k <= u.len(),
            forall|j: int| 0 <= j < k ==> !is_exp_mark(#[trigger] u@[j]),
        ensures
            k <= u.len(),
            forall|j: int| 0 <= j < k ==> !is_exp_mark(#[trigger] u@[j]),
            k < u.len() ==> is_exp_mark(u@[k as int]),
        decreases u.len() - k,
    {
        if u[k] == 'e' || u[k] == 'E' {
            break;
        }
        k += 1;
    }
    if k == u.len() {
        return check_decimal(u);
    }
    assert(is_exp_mark(u@[k as int]));
    let head = sub_chars(u, 0, k);
    let tail = sub_chars(u, k + 1, u.len());
    assert(head@ =~= u@.take(k as int));
    assert(tail@ =~= u@.skip(k + 1));
    let b = check_decimal(&head) && check_exponent(&tail);
    proof {
        assert(!decimal_digits(u@)) by {
            assert(!(is_ascii_digit(u@[k as int]) || u@[k as int] == '.'));
        }
        if number_text(u@) {
            let w = choose|w: int|
                0 <= w < u@.len() && is_exp_mark(#[trigger] u@[w]) && decimal_digits(u@.take(w))
                    && exponent_digits(u@.skip(w + 1));
            if w > k {
                assert(u@.take(w)[k as int] == u@[k as int]);
                assert(!(is_ascii_digit(u@.take(w)[k as int]) || u@.take(w)[k as int] == '.'));
            }
            assert(w == k);
        }
    }
    b
}

/// Whether the text reads as a floating-point number, by the grammar that
/// Rust's `f64` parsing documents.
pub fn reads_as_float(s: &Vec<char>) -> (b: bool)
    ensures
        b == float_text(s@),
{
    let u = if s.len() > 0 && (s[0] == '+' || s[0] == '-') {
        sub_chars(s, 1, s.len())
    } else {
        sub_chars(s, 0, s.len())
    };
    assert(u@ =~= without_sign(s@));
    let inf = check_letters(&u, &['i', 'n', 'f'], &['I', 'N', 'F']);
    let infinity = check_letters(
        &u,
        &['i', 'n', 'f', 'i', 'n', 'i', 't', 'y'],
        &['I', 'N', 'F', 'I', 'N', 'I', 'T', 'Y'],
    );
    let nan = check_letters(&u, &['n', 'a', 'n'], &['N', 'A', 'N']);
    inf || infinity || nan || check_number(&u)
}

/// Splitting two texts joined by the separator gives the pieces of the one
/// followed by the pieces of the other.
pub proof fn lemma_split_join(a: Seq<char>, b: Seq<char>, sep: char)
    ensures
        split_on(a + seq![sep] + b, sep) == split_on(a, sep) + split_on(b, sep),
    decreases b.len(),
{
    let s = a + seq![sep] + b;
    if b.len() == 0 {
        assert(s.drop_last() =~= a);
        assert(split_on(a, sep).push(Seq::empty()) =~= split_on(a, sep) + split_on(b, sep));
    } else {
        let b1 = b.drop_last();
        lemma_split_join(a, b1, sep);
        lemma_split_nonempty(b1, sep);
        assert(s.drop_last() =~= a + seq![sep] + b1);
        assert(s.last() == b.last());
        let p = split_on(a, sep) + split_on(b1, sep);
        let q = split_on(b1, sep);
        if b.last() == sep {
            assert(p.push(Seq::empty()) =~= split_on(a, sep) + q.push(Seq::empty()));
        } else {
            assert(p.update(p.len() - 1, p.last().push(b.last())) =~= split_on(a, sep) + q.update(
                q.len() - 1,
                q.last().push(b.last()),
            ));
        }
    }
}

} // verus!
