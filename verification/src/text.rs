//! Text building blocks: characters, lines, words, decimal numbers and the
//! std string operations that the exporters and the editor rely on.
use vstd::prelude::*;
use vstd::utf8::encode_utf8;

verus! {

/// The views of a sequence of strings.
pub open spec fn strs(v: Seq<String>) -> Seq<Seq<char>> {
    v.map_values(|x: String| x@)
}

/// Number of bytes that `s` takes in UTF-8, which is what `str::len` returns.
pub open spec fn byte_len(s: Seq<char>) -> nat {
    encode_utf8(s).len()
}

/// `c` has Unicode's `White_Space` property, the test of `char::is_whitespace`.
pub open spec fn is_space(c: char) -> bool {
    let u = c as u32;
    ||| 0x09 <= u <= 0x0D
    ||| u == 0x20
    ||| u == 0x85
    ||| u == 0xA0
    ||| u == 0x1680
    ||| 0x2000 <= u <= 0x200A
    ||| u == 0x2028
    ||| u == 0x2029
    ||| u == 0x202F
    ||| u == 0x205F
    ||| u == 0x3000
}

/// `s` holds white space only (so it is empty once trimmed).
pub open spec fn is_blank(s: Seq<char>) -> bool {
    forall|i: int| 0 <= i < s.len() ==> is_space(#[trigger] s[i])
}

/// The word being read, `cur`, as a sequence of at most one word.
pub open spec fn pending(cur: Seq<char>) -> Seq<Seq<char>> {
    if cur.len() == 0 {
        seq![]
    } else {
        seq![cur]
    }
}

/// Words of `cur + s`, where `cur` holds no white space.
pub open spec fn words_from(s: Seq<char>, cur: Seq<char>) -> Seq<Seq<char>>
    decreases s.len(),
{
    if s.len() == 0 {
        pending(cur)
    } else if is_space(s[0]) {
        pending(cur) + words_from(s.drop_first(), seq![])
    } else {
        words_from(s.drop_first(), cur.push(s[0]))
    }
}

/// The maximal runs of characters that are not white space, in order:
/// what `str::split_whitespace` yields.
pub open spec fn words(s: Seq<char>) -> Seq<Seq<char>> {
    words_from(s, seq![])
}

/// A line that ended with `'\n'`, without a carriage return before it.
pub open spec fn strip_cr(line: Seq<char>) -> Seq<char> {
    if line.len() > 0 && line.last() == '\r' {
        line.drop_last()
    } else {
        line
    }
}

/// Lines of `cur + s`, where `cur` holds no `'\n'`.
pub open spec fn lines_from(s: Seq<char>, cur: Seq<char>) -> Seq<Seq<char>>
    decreases s.len(),
{
    if s.len() == 0 {
        pending(cur)
    } else if s[0] == '\n' {
        seq![strip_cr(cur)] + lines_from(s.drop_first(), seq![])
    } else {
        lines_from(s.drop_first(), cur.push(s[0]))
    }
}

/// The lines of `s` as `str::lines` yields them: split after each `'\n'`,
/// a `"\r\n"` ending counts as one, and a last line that ends the text
/// without a line ending still counts.
pub open spec fn lines(s: Seq<char>) -> Seq<Seq<char>> {
    lines_from(s, seq![])
}

/// The character of the decimal digit `d`.
pub open spec fn digit(d: nat) -> char {
    if d == 0 { '0' }
    else if d == 1 { '1' }
    else if d == 2 { '2' }
    else if d == 3 { '3' }
    else if d == 4 { '4' }
    else if d == 5 { '5' }
    else if d == 6 { '6' }
    else if d == 7 { '7' }
    else if d == 8 { '8' }
    else { '9' }
}

/// `n` written in decimal, without leading zeros.
pub open spec fn decimal(n: nat) -> Seq<char>
    decreases n,
{
    if n < 10 {
        seq![digit(n)]
    } else {
        decimal(n / 10).push(digit(n % 10))
    }
}

/// The number that a string of decimal digits stands for, read from the
/// left, each character counted by its distance from `'0'`.
pub open spec fn decimal_value(s: Seq<char>) -> int
    decreases s.len(),
{
    if s.len() == 0 {
        0
    } else {
        decimal_value(s.drop_last()) * 10 + ((s.last() as u32) - ('0' as u32))
    }
}

/// `decimal(n)` is `n` written out in full: a non-empty string of ASCII
/// digits that reads back as `n`, with no leading zero unless `n` is 0. So
/// different numbers are written differently.
pub proof fn lemma_decimal_reads_back(n: nat)
    ensures
        decimal(n).len() > 0,
        forall|k: int| 0 <= k < decimal(n).len() ==> '0' <= #[trigger] decimal(n)[k] <= '9',
        decimal_value(decimal(n)) == n,
        decimal(n)[0] == '0' ==> n == 0,
    decreases n,
{
    let s = decimal(n);
    if n < 10 {
        assert(s.drop_last() =~= Seq::<char>::empty());
        assert(s.last() == digit(n));
        assert(((digit(n) as u32) - ('0' as u32)) == n);
        assert(decimal_value(s.drop_last()) == 0);
        assert(decimal_value(s) == decimal_value(s.drop_last()) * 10 + ((s.last() as u32) - ('0' as u32)));
    } else {
        lemma_decimal_reads_back(n / 10);
        let d = n % 10;
        assert(s.drop_last() =~= decimal(n / 10));
        assert(s.last() == digit(d));
        assert(((digit(d) as u32) - ('0' as u32)) == d);
        assert((n / 10) * 10 + d == n);
        assert(decimal_value(s) == decimal_value(s.drop_last()) * 10 + ((s.last() as u32) - ('0' as u32)));
        assert(decimal_value(s) == (n / 10) * 10 + d);
        assert forall|k: int| 0 <= k < s.len() implies '0' <= #[trigger] s[k] <= '9' by {
            if k < s.len() - 1 {
                assert(s[k] == decimal(n / 10)[k]);
            }
        }
        assert(s[0] == decimal(n / 10)[0]);
    }
}

/// Different numbers are written differently in decimal.
pub proof fn lemma_decimal_distinct(m: nat, n: nat)
    requires
        m != n,
    ensures
        decimal(m) != decimal(n),
{
    lemma_decimal_reads_back(m);
    lemma_decimal_reads_back(n);
}

/// `n` copies of `c`.
pub open spec fn repeat(c: char, n: nat) -> Seq<char> {
    Seq::new(n, |i: int| c)
}

/// The pieces of `list` with `sep` between each two of them.
pub open spec fn join(list: Seq<Seq<char>>, sep: Seq<char>) -> Seq<char>
    decreases list.len(),
{
    if list.len() == 0 {
        seq![]
    } else if list.len() == 1 {
        list[0]
    } else {
        join(list.drop_last(), sep) + sep + list.last()
    }
}

/// What `str::to_uppercase` returns for a string: its characters mapped to
/// upper case by Unicode's rules.
pub uninterp spec fn uppercase(s: Seq<char>) -> Seq<char>;

/// What `str::to_lowercase` returns for a string: its characters mapped to
/// lower case by Unicode's rules.
pub uninterp spec fn lowercase(s: Seq<char>) -> Seq<char>;

/// Every character of `s` is ASCII.
pub open spec fn all_ascii(s: Seq<char>) -> bool {
    forall|i: int| 0 <= i < s.len() ==> (#[trigger] s[i] as u32) < 128
}

/// `c` in upper case when it is an ASCII lower-case letter; else `c`.
pub open spec fn ascii_upper(c: char) -> char {
    if 'a' <= c <= 'z' {
        ((c as u32) - 32) as char
    } else {
        c
    }
}

/// `c` in lower case when it is an ASCII upper-case letter; else `c`.
pub open spec fn ascii_lower(c: char) -> char {
    if 'A' <= c <= 'Z' {
        ((c as u32) + 32) as char
    } else {
        c
    }
}

/// Calls `str::to_uppercase`; its result is named by `uppercase`. On ASCII
/// text, Unicode's mapping changes only the letters `a` to `z`, each to its
/// capital, one character for one.
#[verifier::external_body]
pub(crate) fn to_upper(s: &str) -> (r: String)
    ensures
        r@ == uppercase(s@),
        all_ascii(s@) ==> r@ == s@.map_values(|c: char| ascii_upper(c)),
{
    s.to_uppercase()
}

/// Calls `str::to_lowercase`; its result is named by `lowercase`. On ASCII
/// text, Unicode's mapping changes only the letters `A` to `Z`, each to its
/// small letter, one character for one.
#[verifier::external_body]
pub(crate) fn to_lower(s: &str) -> (r: String)
    ensures
        r@ == lowercase(s@),
        all_ascii(s@) ==> r@ == s@.map_values(|c: char| ascii_lower(c)),
{
    s.to_lowercase()
}

/// Calls `String::push`, which appends one character.
#[verifier::external_body]
pub(crate) fn push_char(s: &mut String, c: char)
    ensures
        final(s)@ == old(s)@.push(c),
{
    s.push(c)
}

/// Calls `String::pop`, which removes the last character and returns it,
/// or returns `None` and leaves an empty string as it is.
#[verifier::external_body]
pub(crate) fn pop_char(s: &mut String) -> (r: Option<char>)
    ensures
        old(s)@.len() == 0 ==> r is None && final(s)@ == old(s)@,
        old(s)@.len() > 0 ==> r == Some(old(s)@.last()) && final(s)@ == old(s)@.drop_last(),
{
    s.pop()
}

/// A new string holding the characters of `s`.
pub fn owned(s: &str) -> (r: String)
    ensures
        r@ == s@,
{
    s.to_owned()
}

/// The characters of `s`, in order.
pub fn chars_of(s: &str) -> (r: Vec<char>)
    ensures
        r@ == s@,
{
    let mut r: Vec<char> = Vec::new();
    for c in it: s.chars()
        invariant
            r@ == it.history(),
    {
        r.push(c);
    }
    r
}

/// Whether `c` is white space (`char::is_whitespace`).
pub fn is_space_char(c: char) -> (b: bool)
    ensures
        b == is_space(c),
{
    let u = c as u32;
    (0x09 <= u && u <= 0x0D) || u == 0x20 || u == 0x85 || u == 0xA0 || u == 0x1680 || (0x2000
        <= u && u <= 0x200A) || u == 0x2028 || u == 0x2029 || u == 0x202F || u == 0x205F || u
        == 0x3000
}

/// Whether `s` is empty once white space is trimmed from both ends.
pub fn is_blank_str(s: &str) -> (b: bool)
    ensures
        b == is_blank(s@),
{
    let cs = chars_of(s);
    let mut i: usize = 0;
    while i < cs.len()
        invariant
            cs@ == s@,
            i <= cs.len(),
            forall|k: int| 0 <= k < i ==> is_space(#[trigger] cs@[k]),
        decreases cs.len() - i,
    {
        if !is_space_char(cs[i]) {
            return false;
        }
        i = i + 1;
    }
    true
}

/// The words of `s`, as `str::split_whitespace` yields them.
pub fn words_of(s: &str) -> (r: Vec<String>)
    ensures
        strs(r@) == words(s@),
{
    let cs = chars_of(s);
    let mut out: Vec<String> = Vec::new();
    let mut cur = String::new();
    let mut i: usize = 0;
    assert(cs@.skip(0) =~= cs@);
    while i < cs.len()
        invariant
            cs@ == s@,
            i <= cs.len(),
            strs(out@) + words_from(cs@.skip(i as int), cur@) == words(s@),
        decreases cs.len() - i,
    {
        let c = cs[i];
        let ghost rest = cs@.skip(i as int);
        assert(rest.drop_first() =~= cs@.skip(i + 1));
        assert(rest[0] == c);
        if is_space_char(c) {
            if !cur.as_str().is_empty() {
                let ghost before = strs(out@);
                let ghost w = cur@;
                out.push(cur);
                assert(strs(out@) =~= before + seq![w]);
                assert(before + seq![w] + words_from(cs@.skip(i + 1), seq![]) =~= before + (
                pending(w) + words_from(cs@.skip(i + 1), seq![])));
            } else {
                assert(pending(cur@) =~= seq![]);
                assert(strs(out@) + (pending(cur@) + words_from(cs@.skip(i + 1), seq![]))
                    =~= strs(out@) + words_from(cs@.skip(i + 1), seq![]));
            }
            cur = String::new();
        } else {
            push_char(&mut cur, c);
        }
        i = i + 1;
    }
    if !cur.as_str().is_empty() {
        let ghost before = strs(out@);
        let ghost w = cur@;
        out.push(cur);
        assert(strs(out@) =~= before + seq![w]);
    } else {
        assert(strs(out@) + pending(cur@) =~= strs(out@));
    }
    out
}

/// The lines of `s`, as `str::lines` yields them.
pub fn lines_of(s: &str) -> (r: Vec<String>)
    ensures
        strs(r@) == lines(s@),
{
    let cs = chars_of(s);
    let mut out: Vec<String> = Vec::new();
    let mut cur = String::new();
    let mut last_cr = false;
    let mut i: usize = 0;
    assert(cs@.skip(0) =~= cs@);
    while i < cs.len()
        invariant
            cs@ == s@,
            i <= cs.len(),
            last_cr == (cur@.len() > 0 && cur@.last() == '\r'),
            strs(out@) + lines_from(cs@.skip(i as int), cur@) == lines(s@),
        decreases cs.len() - i,
    {
        let c = cs[i];
        let ghost rest = cs@.skip(i as int);
        assert(rest.drop_first() =~= cs@.skip(i + 1));
        assert(rest[0] == c);
        if c == '\n' {
            let ghost before = strs(out@);
            let ghost w = cur@;
            if last_cr {
                let _ = pop_char(&mut cur);
            }
            assert(cur@ == strip_cr(w));
            out.push(cur);
            assert(strs(out@) =~= before + seq![strip_cr(w)]);
            assert(before + seq![strip_cr(w)] + lines_from(cs@.skip(i + 1), seq![]) =~= before + (
            seq![strip_cr(w)] + lines_from(cs@.skip(i + 1), seq![])));
            cur = String::new();
            last_cr = false;
        } else {
            push_char(&mut cur, c);
            last_cr = c == '\r';
        }
        i = i + 1;
    }
    if !cur.as_str().is_empty() {
        let ghost before = strs(out@);
        let ghost w = cur@;
        out.push(cur);
        assert(strs(out@) =~= before + seq![w]);
    } else {
        assert(strs(out@) + pending(cur@) =~= strs(out@));
    }
    out
}

/// The character of the decimal digit `d`.
fn digit_char(d: usize) -> (c: char)
    requires
        d < 10,
    ensures
        c == digit(d as nat),
{
    if d == 0 { '0' }
    else if d == 1 { '1' }
    else if d == 2 { '2' }
    else if d == 3 { '3' }
    else if d == 4 { '4' }
    else if d == 5 { '5' }
    else if d == 6 { '6' }
    else if d == 7 { '7' }
    else if d == 8 { '8' }
    else { '9' }
}

/// Appends `n` in decimal to `s`.
pub fn push_decimal(s: &mut String, n: usize)
    ensures
        final(s)@ == old(s)@ + decimal(n as nat),
    decreases n,
{
    if n < 10 {
        push_char(s, digit_char(n));
        assert(decimal(n as nat) =~= seq![digit(n as nat)]);
    } else {
        push_decimal(s, n / 10);
        push_char(s, digit_char(n % 10));
    }
}

/// A string of `n` copies of `c` (as `str::repeat` makes it).
pub fn repeat_char(c: char, n: usize) -> (r: String)
    ensures
        r@ == repeat(c, n as nat),
{
    let mut r = String::new();
    let mut i: usize = 0;
    while i < n
        invariant
            i <= n,
            r@ == repeat(c, i as nat),
        decreases n - i,
    {
        push_char(&mut r, c);
        i = i + 1;
        assert(r@ =~= repeat(c, i as nat));
    }
    r
}

/// The strings of `list` with `sep` between each two of them (`[String]::join`).
pub fn join_with(list: &Vec<String>, sep: &str) -> (r: String)
    ensures
        r@ == join(strs(list@), sep@),
{
    let mut r = String::new();
    let mut i: usize = 0;
    while i < list.len()
        invariant
            i <= list.len(),
            r@ == join(strs(list@).take(i as int), sep@),
        decreases list.len() - i,
    {
        let ghost prev = strs(list@).take(i as int);
        if i > 0 {
            r.append(sep);
        }
        r.append(list[i].as_str());
        let ghost next = strs(list@).take(i + 1);
        assert(next.drop_last() =~= prev);
        assert(i == 0 ==> r@ =~= next[0]);
        i = i + 1;
    }
    assert(strs(list@).take(list.len() as int) =~= strs(list@));
    r
}

} // verus!
