//! Character-level models of the string operations the linter relies on:
//! whitespace trimming, ASCII case folding and splitting into lines.

use vstd::prelude::*;

verus! {

/// Whether `c` has the Unicode `White_Space` property, which is what `char::is_whitespace`
/// decides: tab, line feed, vertical tab, form feed, carriage return, space, next line,
/// no-break space, ogham space mark, the spaces U+2000 to U+200A, line and paragraph
/// separators, narrow no-break space, medium mathematical space and ideographic space.
pub open spec fn is_white_space(c: char) -> bool {
    let u = c as u32;
    ||| 0x09 <= u <= 0x0D
    ||| u == 0x20
    ||| u == 0x85
    ||| u == 0xA0
    ||| u == 0x1680
    ||| 0x2000 <= u <= 0x200A
    ||| u == 0x2028
    ||| u == 0x2029
    ||| u == 0x202F
    ||| u == 0x205F
    ||| u == 0x3000
}

/// Whether `c` is whitespace, as `char::is_whitespace` decides.
pub(crate) fn char_is_whitespace(c: char) -> (r: bool)
    ensures
        r == is_white_space(c),
{
    let u = c as u32;
    (0x09 <= u && u <= 0x0D) || u == 0x20 || u == 0x85 || u == 0xA0 || u == 0x1680 || (0x2000 <= u && u <= 0x200A)
        || u == 0x2028 || u == 0x2029 || u == 0x202F || u == 0x205F || u == 0x3000
}

/// Calls `String::push`, which appends one character to the end of the string.
#[verifier::external_body]
pub(crate) fn push_char(s: &mut String, c: char)
    ensures
        final(s)@ == old(s)@.push(c),
{
    s.push(c);
}

/// The characters of a string, in order.
pub fn chars_of(s: &str) -> (v: Vec<char>)
    ensures
        v@ == s@,
{
    let mut v: Vec<char> = Vec::new();
    for c in it: s.chars()
        invariant
            v@ == it.seq().take(it.index()),
            it.seq() == s@,
    {
        v.push(c);
    }
    v
}

/// A string holding exactly the given characters.
pub fn string_of(v: &[char]) -> (s: String)
    ensures
        s@ == v@,
{
    let mut s = String::new();
    let n = v.len();
    for i in 0..n
        invariant
            n == v@.len(),
            s@ == v@.take(i as int),
    {
        push_char(&mut s, v[i]);
        assert(v@.take(i + 1) == v@.take(i as int).push(v@[i as int]));
    }
    assert(v@.take(n as int) == v@);
    s
}

/// Number of whitespace characters at the front of `s`.
pub open spec fn leading_ws(s: Seq<char>) -> nat
    decreases s.len(),
{
    if s.len() > 0 && is_white_space(s[0]) {
        1 + leading_ws(s.drop_first())
    } else {
        0
    }
}

/// Number of whitespace characters at the end of `s`.
pub open spec fn trailing_ws(s: Seq<char>) -> nat
    decreases s.len(),
{
    if s.len() > 0 && is_white_space(s.last()) {
        1 + trailing_ws(s.drop_last())
    } else {
        0
    }
}

/// Number of non-whitespace characters at the front of `s`.
pub open spec fn leading_word(s: Seq<char>) -> nat
    decreases s.len(),
{
    if s.len() > 0 && !is_white_space(s[0]) {
        1 + leading_word(s.drop_first())
    } else {
        0
    }
}

/// `s` without its leading whitespace (`str::trim_start`).
pub open spec fn trim_start(s: Seq<char>) -> Seq<char> {
    s.skip(leading_ws(s) as int)
}

/// `s` without its trailing whitespace (`str::trim_end`).
pub open spec fn trim_end(s: Seq<char>) -> Seq<char> {
    s.take(s.len() - trailing_ws(s))
}

/// `s` without leading and trailing whitespace (`str::trim`).
pub open spec fn trim(s: Seq<char>) -> Seq<char> {
    trim_end(trim_start(s))
}

/// The first whitespace-separated word of `s`, or the empty sequence when there is none
/// (`s.split_whitespace().next().unwrap_or("")`).
pub open spec fn first_word(s: Seq<char>) -> Seq<char> {
    let t = trim_start(s);
    t.take(leading_word(t) as int)
}

/// The code point of `c` after ASCII lower-casing: `A`..=`Z` map to `a`..=`z`, all else
/// is unchanged.
pub open spec fn ascii_lower(c: char) -> int {
    if 'A' <= c && c <= 'Z' {
        (c as u32) + 32
    } else {
        c as u32 as int
    }
}

/// ASCII case-insensitive equality (`str::eq_ignore_ascii_case`).
pub open spec fn eq_ignore_ascii_case(a: Seq<char>, b: Seq<char>) -> bool {
    a.len() == b.len() && forall|i: int| 0 <= i < a.len() ==> ascii_lower(#[trigger] a[i]) == ascii_lower(b[i])
}

/// Whether two characters are equal after ASCII lower-casing.
pub fn char_eq_ignore_ascii_case(a: char, b: char) -> (r: bool)
    ensures
        r == (ascii_lower(a) == ascii_lower(b)),
{
    let la: u32 = if 'A' <= a && a <= 'Z' { (a as u32) + 32 } else { a as u32 };
    let lb: u32 = if 'A' <= b && b <= 'Z' { (b as u32) + 32 } else { b as u32 };
    la == lb
}

/// Index just past the whitespace that starts at `i`.
pub fn skip_whitespace(s: &[char], i: usize) -> (j: usize)
    requires
        i <= s@.len(),
    ensures
        j == i + leading_ws(s@.skip(i as int)),
        j <= s@.len(),
{
    let mut j = i;
    while j < s.len() && char_is_whitespace(s[j])
        invariant
            i <= j <= s@.len(),
            leading_ws(s@.skip(i as int)) == (j - i) + leading_ws(s@.skip(j as int)),
        decreases s@.len() - j,
    {
        assert(s@.skip(j as int).drop_first() =~= s@.skip(j + 1));
        j = j + 1;
    }
    j
}

/// Index just past the run of non-whitespace characters that starts at `i`.
pub fn skip_word(s: &[char], i: usize) -> (j: usize)
    requires
        i <= s@.len(),
    ensures
        j == i + leading_word(s@.skip(i as int)),
        j <= s@.len(),
{
    let mut j = i;
    while j < s.len() && !char_is_whitespace(s[j])
        invariant
            i <= j <= s@.len(),
            leading_word(s@.skip(i as int)) == (j - i) + leading_word(s@.skip(j as int)),
        decreases s@.len() - j,
    {
        assert(s@.skip(j as int).drop_first() =~= s@.skip(j + 1));
        j = j + 1;
    }
    j
}

/// End of `s[lo..hi]` once its trailing whitespace is left out.
pub fn trim_end_at(s: &[char], lo: usize, hi: usize) -> (j: usize)
    requires
        lo <= hi <= s@.len(),
    ensures
        j == hi - trailing_ws(s@.subrange(lo as int, hi as int)),
        lo <= j <= hi,
{
    let mut j = hi;
    while j > lo && char_is_whitespace(s[j - 1])
        invariant
            lo <= j <= hi <= s@.len(),
            trailing_ws(s@.subrange(lo as int, hi as int)) == (hi - j) + trailing_ws(s@.subrange(lo as int, j as int)),
        decreases j - lo,
    {
        assert(s@.subrange(lo as int, j as int).drop_last() =~= s@.subrange(lo as int, j - 1));
        j = j - 1;
    }
    j
}

/// Index of the first line feed in `s`, if any.
pub open spec fn first_newline(s: Seq<char>) -> Option<int>
    decreases s.len(),
{
    if s.len() == 0 {
        None
    } else if s[0] == '\n' {
        Some(0)
    } else {
        match first_newline(s.drop_first()) {
            Some(i) => Some(i + 1),
            None => None,
        }
    }
}

/// What `first_newline` finds: the first line feed, or that there is none.
pub proof fn lemma_first_newline(s: Seq<char>)
    ensures
        match first_newline(s) {
            Some(i) => 0 <= i < s.len() && s[i] == '\n' && forall|j: int| 0 <= j < i ==> s[j] != '\n',
            None => forall|j: int| 0 <= j < s.len() ==> s[j] != '\n',
        },
    decreases s.len(),
{
    if s.len() > 0 && s[0] != '\n' {
        lemma_first_newline(s.drop_first());
        assert forall|j: int| 1 <= j < s.len() implies s[j] == s.drop_first()[j - 1] by {}
    }
}

/// The line feed at `i`, with none before it, is the first one.
pub proof fn lemma_first_newline_at(s: Seq<char>, i: int)
    requires
        0 <= i < s.len(),
        s[i] == '\n',
        forall|j: int| 0 <= j < i ==> s[j] != '\n',
    ensures
        first_newline(s) == Some(i),
{
    lemma_first_newline(s);
    match first_newline(s) {
        Some(k) => {
            if k < i {
                assert(s[k] == '\n');
            }
            if k > i {
                assert(s[i] != '\n');
            }
        },
        None => {
            assert(s[i] != '\n');
        },
    }
}

/// Without line feeds there is no first one.
pub proof fn lemma_first_newline_none(s: Seq<char>)
    requires
        forall|j: int| 0 <= j < s.len() ==> s[j] != '\n',
    ensures
        first_newline(s) is None,
{
    lemma_first_newline(s);
    match first_newline(s) {
        Some(k) => {
            assert(s[k] == '\n');
        },
        None => {},
    }
}

/// A line as `str::lines` hands it out: without its line feed and without a carriage
/// return that stood right before that line feed.
pub open spec fn strip_cr(line: Seq<char>) -> Seq<char> {
    if line.len() > 0 && line.last() == '\r' {
        line.drop_last()
    } else {
        line
    }
}

/// The lines of `s` as `str::lines` yields them: split after each line feed, a final line
/// feed ends the last line instead of starting an empty one, and `\r\n` counts as one
/// line ending.
pub open spec fn lines(s: Seq<char>) -> Seq<Seq<char>>
    decreases s.len(),
{
    if s.len() == 0 {
        seq![]
    } else {
        match first_newline(s) {
            None => seq![s],
            Some(i) => {
                proof {
                    lemma_first_newline(s);
                }
                seq![strip_cr(s.take(i))] + lines(s.skip(i + 1))
            },
        }
    }
}

/// `lines` peels off the text up to the first line feed at or after `pos`.
pub proof fn lemma_lines_step(s: Seq<char>, pos: int, e: int)
    requires
        0 <= pos <= e < s.len(),
        s[e] == '\n',
        forall|j: int| pos <= j < e ==> s[j] != '\n',
    ensures
        lines(s.skip(pos)) == seq![strip_cr(s.subrange(pos, e))] + lines(s.skip(e + 1)),
{
    let t = s.skip(pos);
    lemma_first_newline(t);
    assert(t[e - pos] == '\n');
    match first_newline(t) {
        Some(i) => {
            if i < e - pos {
                assert(t[i] == s[pos + i]);
            }
            assert(i == e - pos);
        },
        None => {},
    }
    assert(t.take(e - pos) =~= s.subrange(pos, e));
    assert(t.skip(e - pos + 1) =~= s.skip(e + 1));
}

/// Text after the last line feed is the last line.
pub proof fn lemma_lines_last(s: Seq<char>, pos: int)
    requires
        0 <= pos < s.len(),
        forall|j: int| pos <= j < s.len() ==> s[j] != '\n',
    ensures
        lines(s.skip(pos)) == seq![s.skip(pos)],
{
    let t = s.skip(pos);
    lemma_first_newline(t);
    match first_newline(t) {
        Some(i) => {
            assert(t[i] == s[pos + i]);
        },
        None => {},
    }
}

/// Appending one line to a joined list adds a line feed (unless it is the first line)
/// and then the line.
pub proof fn lemma_join_push(ls: Seq<Seq<char>>, l: Seq<char>)
    ensures
        join_lines(ls.push(l)) == if ls.len() == 0 { l } else { join_lines(ls) + seq!['\n'] + l },
{
    assert(ls.push(l).drop_last() =~= ls);
    if ls.len() == 0 {
        assert(ls.push(l)[0] == l);
    }
}

/// Lines joined with a line feed between each two (`[&str]::join("\n")`).
pub open spec fn join_lines(ls: Seq<Seq<char>>) -> Seq<char>
    decreases ls.len(),
{
    if ls.len() == 0 {
        seq![]
    } else if ls.len() == 1 {
        ls[0]
    } else {
        join_lines(ls.drop_last()) + seq!['\n'] + ls.last()
    }
}

/// Appends the characters `line` to `content`, after a line feed unless `content` holds
/// no line yet.
pub fn push_line(content: &mut String, count: usize, line: &Vec<char>, Ghost(ls): Ghost<Seq<Seq<char>>>)
    requires
        old(content)@ == join_lines(ls),
        count == ls.len(),
    ensures
        final(content)@ == join_lines(ls.push(line@)),
{
    proof {
        lemma_join_push(ls, line@);
    }
    if count > 0 {
        push_char(content, '\n');
    }
    let ghost before = content@;
    let n = line.len();
    for i in 0..n
        invariant
            n == line@.len(),
            content@ == before + line@.take(i as int),
    {
        push_char(content, line[i]);
        assert(line@.take(i + 1) =~= line@.take(i as int).push(line@[i as int]));
    }
    assert(line@.take(n as int) =~= line@);
}

/// The characters `s[lo..hi]`.
pub fn copy_range(s: &Vec<char>, lo: usize, hi: usize) -> (r: Vec<char>)
    requires
        lo <= hi <= s@.len(),
    ensures
        r@ == s@.subrange(lo as int, hi as int),
{
    let mut r: Vec<char> = Vec::new();
    for i in lo..hi
        invariant
            lo <= hi <= s@.len(),
            r@ == s@.subrange(lo as int, i as int),
    {
        r.push(s[i]);
        assert(s@.subrange(lo as int, i + 1) =~= s@.subrange(lo as int, i as int).push(s@[i as int]));
    }
    r
}

/// The lines of `s`, as `str::lines` yields them.
pub fn split_lines(s: &str) -> (ls: Vec<Vec<char>>)
    ensures
        ls@.len() == lines(s@).len(),
        forall|i: int| 0 <= i < ls@.len() ==> #[trigger] ls@[i]@ == lines(s@)[i],
{
    let v = chars_of(s);
    let n = v.len();
    let mut ls: Vec<Vec<char>> = Vec::new();
    let mut pos: usize = 0;
    let ghost mut done: Seq<Seq<char>> = seq![];
    assert(v@.skip(0) =~= v@);
    while pos < n
        invariant
            n == v@.len(),
            v@ == s@,
            pos <= n,
            ls@.len() == done.len(),
            forall|i: int| 0 <= i < ls@.len() ==> #[trigger] ls@[i]@ == done[i],
            lines(v@) == done + lines(v@.skip(pos as int)),
        decreases n - pos,
    {
        let mut e = pos;
        while e < n && v[e] != '\n'
            invariant
                pos <= e <= n,
                n == v@.len(),
                forall|j: int| pos <= j < e ==> v@[j] != '\n',
            decreases n - e,
        {
            e = e + 1;
        }
        let line: Vec<char>;
        let next: usize;
        if e < n {
            proof {
                lemma_lines_step(v@, pos as int, e as int);
            }
            if e > pos && v[e - 1] == '\r' {
                line = copy_range(&v, pos, e - 1);
                assert(line@ =~= strip_cr(v@.subrange(pos as int, e as int)));
            } else {
                line = copy_range(&v, pos, e);
            }
            next = e + 1;
        } else {
            proof {
                lemma_lines_last(v@, pos as int);
                assert(v@.skip(n as int) =~= Seq::<char>::empty());
            }
            line = copy_range(&v, pos, n);
            assert(line@ =~= v@.skip(pos as int));
            next = n;
        }
        proof {
            assert(lines(v@.skip(pos as int)) == seq![line@] + lines(v@.skip(next as int)));
            assert(lines(v@) =~= done.push(line@) + lines(v@.skip(next as int)));
            done = done.push(line@);
        }
        ls.push(line);
        pos = next;
    }
    proof {
        assert(v@.skip(n as int) =~= Seq::<char>::empty());
        assert(done =~= lines(v@));
    }
    ls
}


/// Whether `s` starts with `p`.
pub open spec fn has_prefix(s: Seq<char>, p: Seq<char>) -> bool {
    p.len() <= s.len() && s.take(p.len() as int) == p
}

/// Whether `s[lo..]` starts with `p`.
pub fn has_prefix_at(s: &[char], lo: usize, p: &[char]) -> (r: bool)
    requires
        lo <= s@.len(),
    ensures
        r == has_prefix(s@.skip(lo as int), p@),
{
    let n = p.len();
    if n > s.len() - lo {
        return false;
    }
    let mut i: usize = 0;
    while i < n
        invariant
            n == p@.len(),
            lo <= s@.len(),
            lo + n <= s.len(),
            s.len() == s@.len(),
            i <= n,
            forall|k: int| 0 <= k < i ==> s@[lo + k] == p@[k],
        decreases n - i,
    {
        if s[lo + i] != p[i] {
            assert(s@.skip(lo as int).take(n as int)[i as int] == s@[lo + i]);
            return false;
        }
        i = i + 1;
    }
    assert(s@.skip(lo as int).take(n as int) =~= p@);
    true
}

/// Whether `s[lo..hi]` is exactly `p`.
pub fn range_eq(s: &[char], lo: usize, hi: usize, p: &[char]) -> (r: bool)
    requires
        lo <= hi <= s@.len(),
    ensures
        r == (s@.subrange(lo as int, hi as int) == p@),
{
    if hi - lo != p.len() {
        return false;
    }
    let r = has_prefix_at(s, lo, p);
    assert(s@.skip(lo as int).take(p@.len() as int) =~= s@.subrange(lo as int, hi as int));
    r
}

/// The bounds of `s[lo..]` without its leading and trailing whitespace.
pub fn trim_range(s: &[char], lo: usize) -> (r: (usize, usize))
    requires
        lo <= s@.len(),
    ensures
        lo <= r.0 <= r.1 <= s@.len(),
        s@.subrange(r.0 as int, r.1 as int) == trim(s@.skip(lo as int)),
{
    let a = skip_whitespace(s, lo);
    let b = trim_end_at(s, a, s.len());
    let ghost t = s@.skip(lo as int);
    assert(t.skip(leading_ws(t) as int) =~= s@.subrange(a as int, s@.len() as int));
    assert(trim(t) =~= s@.subrange(a as int, b as int));
    (a, b)
}

/// A string holding `s[lo..hi]`.
pub fn string_of_range(s: &[char], lo: usize, hi: usize) -> (r: String)
    requires
        lo <= hi <= s@.len(),
    ensures
        r@ == s@.subrange(lo as int, hi as int),
{
    let mut r = String::new();
    for i in lo..hi
        invariant
            lo <= hi <= s@.len(),
            r@ == s@.subrange(lo as int, i as int),
    {
        push_char(&mut r, s[i]);
        assert(s@.subrange(lo as int, i + 1) =~= s@.subrange(lo as int, i as int).push(s@[i as int]));
    }
    r
}

/// Appends the characters `s[lo..hi]` to `out`.
pub fn push_range(out: &mut String, s: &[char], lo: usize, hi: usize)
    requires
        lo <= hi <= s@.len(),
    ensures
        final(out)@ == old(out)@ + s@.subrange(lo as int, hi as int),
{
    let ghost before = out@;
    for i in lo..hi
        invariant
            lo <= hi <= s@.len(),
            out@ == before + s@.subrange(lo as int, i as int),
    {
        push_char(out, s[i]);
        assert(s@.subrange(lo as int, i + 1) =~= s@.subrange(lo as int, i as int).push(s@[i as int]));
    }
}

/// The character of the decimal digit `d`.
pub open spec fn digit_char(d: int) -> char {
    if d == 0 {
        '0'
    } else if d == 1 {
        '1'
    } else if d == 2 {
        '2'
    } else if d == 3 {
        '3'
    } else if d == 4 {
        '4'
    } else if d == 5 {
        '5'
    } else if d == 6 {
        '6'
    } else if d == 7 {
        '7'
    } else if d == 8 {
        '8'
    } else {
        '9'
    }
}

/// The decimal digits of `n`, without leading zeros.
pub open spec fn decimal(n: nat) -> Seq<char>
    decreases n,
{
    if n < 10 {
        seq![digit_char(n as int)]
    } else {
        decimal(n / 10).push(digit_char((n % 10) as int))
    }
}

/// The character of the decimal digit `d`.
fn digit_exec(d: u32) -> (c: char)
    requires
        d < 10,
    ensures
        c == digit_char(d as int),
{
    if d == 0 {
        '0'
    } else if d == 1 {
        '1'
    } else if d == 2 {
        '2'
    } else if d == 3 {
        '3'
    } else if d == 4 {
        '4'
    } else if d == 5 {
        '5'
    } else if d == 6 {
        '6'
    } else if d == 7 {
        '7'
    } else if d == 8 {
        '8'
    } else {
        '9'
    }
}

/// Appends the decimal digits of `n` to `out`.
pub fn push_decimal(out: &mut String, n: u128)
    ensures
        final(out)@ == old(out)@ + decimal(n as nat),
    decreases n,
{
    if n >= 10 {
        push_decimal(out, n / 10);
    }
    push_char(out, digit_exec((n % 10) as u32));
    assert(decimal(n as nat) == if n < 10 {
        seq![digit_char(n as int)]
    } else {
        decimal((n / 10) as nat).push(digit_char((n % 10) as int))
    });
}

} // verus!
