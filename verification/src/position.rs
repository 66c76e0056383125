//! Conversions between byte offsets into UTF-8 text and editor positions: a zero-based
//! line and a column counted in UTF-16 code units, as the Language Server Protocol has it.

use vstd::prelude::*;

use crate::text::{chars_of, first_newline, lemma_first_newline, lemma_first_newline_at, lemma_first_newline_none};

verus! {

/// Bytes that `c` takes in UTF-8.
pub open spec fn utf8_width(c: char) -> nat {
    if (c as u32) <= 0x7F {
        1
    } else if (c as u32) <= 0x7FF {
        2
    } else if (c as u32) <= 0xFFFF {
        3
    } else {
        4
    }
}

/// Code units that `c` takes in UTF-16.
pub open spec fn utf16_width(c: char) -> nat {
    if (c as u32) > 0xFFFF {
        2
    } else {
        1
    }
}

/// Length of `s` in UTF-8 bytes.
pub open spec fn byte_len(s: Seq<char>) -> nat
    decreases s.len(),
{
    if s.len() == 0 {
        0
    } else {
        utf8_width(s[0]) + byte_len(s.drop_first())
    }
}

/// Length of `s` in UTF-16 code units.
pub open spec fn utf16_len(s: Seq<char>) -> nat
    decreases s.len(),
{
    if s.len() == 0 {
        0
    } else {
        utf16_width(s[0]) + utf16_len(s.drop_first())
    }
}

/// How many characters of `s`, from its start, fit whole into `budget` bytes: the
/// characters before the last character boundary at or below byte `budget`.
pub open spec fn chars_within(s: Seq<char>, budget: int) -> nat
    decreases s.len(),
{
    if s.len() == 0 || utf8_width(s[0]) > budget {
        0
    } else {
        1 + chars_within(s.drop_first(), budget - utf8_width(s[0]))
    }
}

/// Zero-based line and UTF-16 column of the end of `p`: the number of line feeds in `p`,
/// and the UTF-16 length of what follows the last of them.
pub open spec fn line_col(p: Seq<char>) -> (nat, nat)
    decreases p.len(),
{
    match first_newline(p) {
        None => (0, utf16_len(p)),
        Some(i) => {
            proof {
                lemma_first_newline(p);
            }
            let lc = line_col(p.skip(i + 1));
            (lc.0 + 1, lc.1)
        },
    }
}

/// Character index where line `line` of `s` starts: just after its `line`-th line feed,
/// or the end of `s` when it has fewer line feeds.
pub open spec fn line_start(s: Seq<char>, line: nat) -> nat
    decreases s.len(),
{
    if line == 0 {
        0
    } else {
        match first_newline(s) {
            None => s.len(),
            Some(i) => {
                proof {
                    lemma_first_newline(s);
                }
                (i + 1 + line_start(s.skip(i + 1), (line - 1) as nat)) as nat
            },
        }
    }
}

/// How many characters of `s` are passed over to spend `units` UTF-16 code units: each
/// character takes its width (the last one may take less), and the walk stops when the
/// units are spent or `s` ends.
pub open spec fn chars_for_units(s: Seq<char>, units: nat) -> nat
    decreases s.len(),
{
    if s.len() == 0 || units == 0 {
        0
    } else {
        1 + chars_for_units(
            s.drop_first(),
            if units >= utf16_width(s[0]) { (units - utf16_width(s[0])) as nat } else { 0 },
        )
    }
}

/// The byte offset of `byte`, moved down to the nearest character boundary and capped at
/// the end of `s`.
pub open spec fn floor_boundary(s: Seq<char>, byte: int) -> nat {
    byte_len(s.take(chars_within(s, byte) as int))
}

/// The line and UTF-16 column of byte offset `byte` in `s` (moved down to a character
/// boundary and capped at the end of `s` first).
pub open spec fn spec_byte_to_line_col(s: Seq<char>, byte: int) -> (nat, nat) {
    line_col(s.take(chars_within(s, byte) as int))
}

/// The byte offset in `s` of line `line`, column `col` (in UTF-16 code units).
pub open spec fn spec_line_col_to_byte(s: Seq<char>, line: nat, col: nat) -> nat {
    let start = line_start(s, line);
    byte_len(s.take((start + chars_for_units(s.skip(start as int), col)) as int))
}

// ---- facts about the sums ----

proof fn lemma_utf8_width_bounds(c: char)
    ensures
        1 <= utf8_width(c) <= 4,
        utf16_width(c) <= utf8_width(c),
        1 <= utf16_width(c),
{
}

/// `byte_len` of a sequence with one more character at the end.
pub proof fn lemma_byte_len_push(s: Seq<char>, c: char)
    ensures
        byte_len(s.push(c)) == byte_len(s) + utf8_width(c),
    decreases s.len(),
{
    if s.len() > 0 {
        assert(s.push(c).drop_first() =~= s.drop_first().push(c));
        assert(s.push(c)[0] == s[0]);
        lemma_byte_len_push(s.drop_first(), c);
    } else {
        assert(s.push(c).drop_first() =~= Seq::<char>::empty());
        assert(s.push(c)[0] == c);
        assert(byte_len(Seq::<char>::empty()) == 0);
    }
}

/// `utf16_len` of a sequence with one more character at the end.
pub proof fn lemma_utf16_len_push(s: Seq<char>, c: char)
    ensures
        utf16_len(s.push(c)) == utf16_len(s) + utf16_width(c),
    decreases s.len(),
{
    if s.len() > 0 {
        assert(s.push(c).drop_first() =~= s.drop_first().push(c));
        assert(s.push(c)[0] == s[0]);
        lemma_utf16_len_push(s.drop_first(), c);
    } else {
        assert(s.push(c).drop_first() =~= Seq::<char>::empty());
        assert(s.push(c)[0] == c);
        assert(utf16_len(Seq::<char>::empty()) == 0);
    }
}

/// A prefix takes no more bytes than the whole.
pub proof fn lemma_byte_len_take(s: Seq<char>, k: int)
    requires
        0 <= k <= s.len(),
    ensures
        byte_len(s.take(k)) <= byte_len(s),
        byte_len(s.take(k)) + byte_len(s.skip(k)) == byte_len(s),
    decreases s.len(),
{
    if k > 0 {
        lemma_byte_len_take(s.drop_first(), k - 1);
        assert(s.take(k).drop_first() =~= s.drop_first().take(k - 1));
        assert(s.skip(k) =~= s.drop_first().skip(k - 1));
    } else {
        assert(s.skip(0) =~= s);
    }
}

/// The UTF-8 encoding that vstd gives a string has `byte_len` bytes.
pub proof fn lemma_encode_len(s: Seq<char>)
    ensures
        vstd::utf8::encode_utf8(s).len() == byte_len(s),
    decreases s.len(),
{
    if s.len() > 0 {
        vstd::utf8::char_is_scalar(s[0]);
        lemma_encode_len(s.drop_first());
    }
}


/// Where the first line feed of `p` with one more character at its end is.
proof fn lemma_first_newline_push(p: Seq<char>, x: char)
    ensures
        first_newline(p.push(x)) == match first_newline(p) {
            Some(i) => Some(i),
            None => if x == '\n' { Some(p.len() as int) } else { None },
        },
{
    lemma_first_newline(p);
    let q = p.push(x);
    match first_newline(p) {
        Some(i) => {
            assert(q[i] == p[i]);
            assert forall|j: int| 0 <= j < i implies q[j] != '\n' by {
                assert(q[j] == p[j]);
            }
            lemma_first_newline_at(q, i);
        },
        None => {
            assert forall|j: int| 0 <= j < p.len() implies q[j] != '\n' by {
                assert(q[j] == p[j]);
            }
            if x == '\n' {
                lemma_first_newline_at(q, p.len() as int);
            } else {
                lemma_first_newline_none(q);
            }
        },
    }
}

/// How the line and column move when one more character is read.
pub proof fn lemma_line_col_push(p: Seq<char>, x: char)
    ensures
        line_col(p.push(x)) == if x == '\n' {
            ((line_col(p).0 + 1) as nat, 0nat)
        } else {
            (line_col(p).0, line_col(p).1 + utf16_width(x))
        },
    decreases p.len(),
{
    lemma_first_newline_push(p, x);
    lemma_first_newline(p);
    let q = p.push(x);
    match first_newline(p) {
        Some(i) => {
            assert(q.skip(i + 1) =~= p.skip(i + 1).push(x));
            lemma_line_col_push(p.skip(i + 1), x);
        },
        None => {
            if x == '\n' {
                assert(q.skip(p.len() + 1int) =~= Seq::<char>::empty());
                assert(first_newline(Seq::<char>::empty()) is None);
                assert(utf16_len(Seq::<char>::empty()) == 0);
                assert(line_col(Seq::<char>::empty()) == (0nat, 0nat));
            } else {
                lemma_utf16_len_push(p, x);
            }
        },
    }
}

proof fn lemma_chars_within_step(s: Seq<char>, i: int, budget: int)
    requires
        0 <= i < s.len(),
        utf8_width(s[i]) <= budget,
    ensures
        chars_within(s.skip(i), budget) == 1 + chars_within(s.skip(i + 1), budget - utf8_width(s[i])),
{
    assert(s.skip(i).drop_first() =~= s.skip(i + 1));
}

pub proof fn lemma_chars_within_bound(s: Seq<char>, budget: int)
    ensures
        chars_within(s, budget) <= s.len(),
    decreases s.len(),
{
    if s.len() > 0 {
        lemma_chars_within_bound(s.drop_first(), budget - utf8_width(s[0]));
    }
}

/// The number of UTF-8 bytes `c` takes.
pub fn char_utf8_width(c: char) -> (w: usize)
    ensures
        w == utf8_width(c),
{
    let u = c as u32;
    if u <= 0x7F {
        1
    } else if u <= 0x7FF {
        2
    } else if u <= 0xFFFF {
        3
    } else {
        4
    }
}

/// The number of UTF-16 code units `c` takes.
pub fn char_utf16_width(c: char) -> (w: usize)
    ensures
        w == utf16_width(c),
{
    if (c as u32) > 0xFFFF {
        2
    } else {
        1
    }
}

/// The characters of `s` with the facts about its length that the conversions need.
pub(crate) fn chars_with_len(s: &str) -> (v: Vec<char>)
    ensures
        v@ == s@,
        byte_len(v@) == s.len(),
{
    let v = chars_of(s);
    let bytes = s.as_bytes();
    let _ = bytes.len();
    proof {
        lemma_encode_len(s@);
    }
    v
}

/// How many characters of `v` fit whole into `budget` bytes, and the bytes they take.
pub(crate) fn chars_within_exec(v: &Vec<char>, budget: usize) -> (r: (usize, usize))
    ensures
        r.0 == chars_within(v@, budget as int),
        r.1 == byte_len(v@.take(r.0 as int)),
        r.1 <= budget,
{
    let n = v.len();
    let mut i: usize = 0;
    let mut pos: usize = 0;
    assert(v@.skip(0) =~= v@);
    assert(v@.take(0) =~= Seq::<char>::empty());
    while i < n
        invariant_except_break
            n == v@.len(),
            i <= n,
            pos <= budget,
            pos == byte_len(v@.take(i as int)),
            chars_within(v@, budget as int) == i + chars_within(v@.skip(i as int), budget - pos),
        ensures
            i <= n,
            pos <= budget,
            pos == byte_len(v@.take(i as int)),
            chars_within(v@, budget as int) == i,
        decreases n - i,
    {
        let w = char_utf8_width(v[i]);
        if w > budget - pos {
            assert(chars_within(v@.skip(i as int), budget - pos) == 0) by {
                assert(v@.skip(i as int)[0] == v@[i as int]);
            }
            break;
        }
        proof {
            lemma_chars_within_step(v@, i as int, budget - pos);
            assert(v@.take(i + 1) =~= v@.take(i as int).push(v@[i as int]));
            lemma_byte_len_push(v@.take(i as int), v@[i as int]);
        }
        pos = pos + w;
        i = i + 1;
    }
    proof {
        if i == n {
            assert(v@.skip(n as int) =~= Seq::<char>::empty());
        }
    }
    (i, pos)
}

/// The line and UTF-16 column reached after the first `k` characters of `v`.
pub(crate) fn line_col_exec(v: &Vec<char>, k: usize) -> (r: (usize, usize))
    requires
        k <= v@.len(),
        byte_len(v@) <= usize::MAX,
    ensures
        r.0 == line_col(v@.take(k as int)).0,
        r.1 == line_col(v@.take(k as int)).1,
{
    let mut line: usize = 0;
    let mut col: usize = 0;
    let mut i: usize = 0;
    let ghost mut bytes: nat = 0;
    assert(v@.take(0) =~= Seq::<char>::empty());
    assert(first_newline(Seq::<char>::empty()) is None);
    while i < k
        invariant
            k <= v@.len(),
            byte_len(v@) <= usize::MAX,
            i <= k,
            line <= i,
            bytes == byte_len(v@.take(i as int)),
            col <= bytes,
            line == line_col(v@.take(i as int)).0,
            col == line_col(v@.take(i as int)).1,
        decreases k - i,
    {
        let c = v[i];
        proof {
            assert(v@.take(i + 1) =~= v@.take(i as int).push(c));
            lemma_line_col_push(v@.take(i as int), c);
            lemma_byte_len_push(v@.take(i as int), c);
            lemma_byte_len_take(v@, i + 1);
            lemma_utf8_width_bounds(c);
            bytes = bytes + utf8_width(c);
        }
        if c == '\n' {
            line = line + 1;
            col = 0;
        } else {
            col = col + char_utf16_width(c);
        }
        i = i + 1;
    }
    (line, col)
}

/// Returns the zero-based line and the UTF-16 code-unit column of byte offset `byte` in
/// `s`, as LSP positions count them. An offset past the end counts as the end; one inside
/// a character counts as the start of that character.
pub fn byte_to_line_col(s: &str, byte: usize) -> (r: (usize, usize))
    ensures
        r.0 == spec_byte_to_line_col(s@, byte as int).0,
        r.1 == spec_byte_to_line_col(s@, byte as int).1,
{
    let v = chars_with_len(s);
    let (k, _) = chars_within_exec(&v, byte);
    proof {
        lemma_chars_within_bound(v@, byte as int);
    }
    line_col_exec(&v, k)
}

/// The number of characters of `s` before byte offset `byte` (moved down to a character
/// boundary, and capped at the end of `s`).
pub fn byte_to_char(s: &str, byte: usize) -> (r: usize)
    ensures
        r == chars_within(s@, byte as int),
{
    let v = chars_with_len(s);
    let (k, _) = chars_within_exec(&v, byte);
    k
}


/// Character index where line `line` of `v` starts.
fn line_start_exec(v: &Vec<char>, line: usize) -> (r: usize)
    ensures
        r == line_start(v@, line as nat),
        r <= v@.len(),
{
    if line == 0 {
        return 0;
    }
    let n = v.len();
    let mut seg: usize = 0;
    let mut cur: usize = 0;
    let mut i: usize = 0;
    assert(v@.skip(0) =~= v@);
    while i < n
        invariant
            n == v@.len(),
            seg <= i <= n,
            cur < line,
            forall|j: int| seg <= j < i ==> v@[j] != '\n',
            line_start(v@, line as nat) == seg + line_start(v@.skip(seg as int), (line - cur) as nat),
        decreases n - i,
    {
        if v[i] == '\n' {
            let ghost t = v@.skip(seg as int);
            proof {
                assert forall|j: int| 0 <= j < i - seg implies t[j] != '\n' by {
                    assert(t[j] == v@[seg + j]);
                }
                lemma_first_newline_at(t, i - seg);
                assert(t.skip(i - seg + 1) =~= v@.skip(i + 1));
                let big_l = (line - cur) as nat;
                assert(line_start(t, big_l) == (i - seg + 1) + line_start(v@.skip(i + 1), (big_l - 1) as nat));
                assert(line_start(v@.skip(i + 1), 0) == 0);
            }
            cur = cur + 1;
            if cur == line {
                return i + 1;
            }
            seg = i + 1;
        }
        i = i + 1;
    }
    proof {
        let t = v@.skip(seg as int);
        assert forall|j: int| 0 <= j < t.len() implies t[j] != '\n' by {
            assert(t[j] == v@[seg + j]);
        }
        lemma_first_newline_none(t);
    }
    n
}

/// How many characters of `v` from `start` it takes to spend `units` UTF-16 code units.
fn chars_for_units_exec(v: &Vec<char>, start: usize, units: usize) -> (r: usize)
    requires
        start <= v@.len(),
    ensures
        r == start + chars_for_units(v@.skip(start as int), units as nat),
        r <= v@.len(),
{
    let n = v.len();
    let mut i = start;
    let mut left = units;
    while i < n && left > 0
        invariant
            n == v@.len(),
            start <= i <= n,
            chars_for_units(v@.skip(start as int), units as nat)
                == (i - start) + chars_for_units(v@.skip(i as int), left as nat),
        decreases n - i,
    {
        assert(v@.skip(i as int).drop_first() =~= v@.skip(i + 1));
        assert(v@.skip(i as int)[0] == v@[i as int]);
        left = left.saturating_sub(char_utf16_width(v[i]));
        i = i + 1;
    }
    proof {
        if i == n {
            assert(v@.skip(n as int) =~= Seq::<char>::empty());
        }
    }
    i
}

/// The number of bytes the first `k` characters of `v` take.
fn byte_offset_exec(v: &Vec<char>, k: usize) -> (r: usize)
    requires
        k <= v@.len(),
        byte_len(v@) <= usize::MAX,
    ensures
        r == byte_len(v@.take(k as int)),
{
    let mut pos: usize = 0;
    let mut i: usize = 0;
    assert(v@.take(0) =~= Seq::<char>::empty());
    while i < k
        invariant
            k <= v@.len(),
            byte_len(v@) <= usize::MAX,
            i <= k,
            pos == byte_len(v@.take(i as int)),
        decreases k - i,
    {
        proof {
            assert(v@.take(i + 1) =~= v@.take(i as int).push(v@[i as int]));
            lemma_byte_len_push(v@.take(i as int), v@[i as int]);
            lemma_byte_len_take(v@, i + 1);
        }
        pos = pos + char_utf8_width(v[i]);
        i = i + 1;
    }
    pos
}

/// Returns the byte offset in `s` of zero-based line `line`, column `col_utf16` (in UTF-16
/// code units); the inverse of `byte_to_line_col`. A line past the last one counts as
/// the end of `s`; a column past the end of its line runs on into the following text, up
/// to the end of `s`.
pub fn line_col_to_byte(s: &str, line: usize, col_utf16: usize) -> (r: usize)
    ensures
        r == spec_line_col_to_byte(s@, line as nat, col_utf16 as nat),
{
    let v = chars_with_len(s);
    let start = line_start_exec(&v, line);
    let k = chars_for_units_exec(&v, start, col_utf16);
    byte_offset_exec(&v, k)
}

// ---- the round trip ----

/// Spending exactly the UTF-16 length of the first `k` characters passes over `k` characters.
proof fn lemma_units_of_prefix(t: Seq<char>, k: int)
    requires
        0 <= k <= t.len(),
    ensures
        chars_for_units(t, utf16_len(t.take(k))) == k,
    decreases k,
{
    if k > 0 {
        let u = utf16_len(t.take(k));
        assert(t.take(k)[0] == t[0]);
        assert(t.take(k).drop_first() =~= t.drop_first().take(k - 1));
        lemma_units_of_prefix(t.drop_first(), k - 1);
    } else {
        assert(t.take(0) =~= Seq::<char>::empty());
    }
}

/// Going to the line and column of the end of the first `k` characters comes back to
/// character `k`.
proof fn lemma_line_col_inverse_chars(s: Seq<char>, k: int)
    requires
        0 <= k <= s.len(),
    ensures
        ({
            let lc = line_col(s.take(k));
            let st = line_start(s, lc.0);
            st + chars_for_units(s.skip(st as int), lc.1) == k
        }),
    decreases k,
{
    let p = s.take(k);
    lemma_first_newline(p);
    match first_newline(p) {
        None => {
            assert(s.skip(0) =~= s);
            lemma_units_of_prefix(s, k);
        },
        Some(i) => {
            assert forall|j: int| 0 <= j < i implies s[j] != '\n' by {
                assert(p[j] == s[j]);
            }
            assert(p[i] == s[i]);
            lemma_first_newline_at(s, i);
            let s2 = s.skip(i + 1);
            assert(p.skip(i + 1) =~= s2.take(k - i - 1));
            lemma_line_col_inverse_chars(s2, k - i - 1);
            let lc2 = line_col(s2.take(k - i - 1));
            let st2 = line_start(s2, lc2.0);
            assert(s.skip(i + 1 + st2) =~= s2.skip(st2 as int));
        },
    }
}

/// `line_col_to_byte` undoes `byte_to_line_col`: converting a byte offset to a line and
/// column and back gives the offset again, moved down to a character boundary and capped
/// at the end of the text.
pub proof fn lemma_line_col_round_trip(s: Seq<char>, byte: int)
    ensures
        ({
            let lc = spec_byte_to_line_col(s, byte);
            spec_line_col_to_byte(s, lc.0, lc.1) == floor_boundary(s, byte)
        }),
{
    lemma_chars_within_bound(s, byte);
    lemma_line_col_inverse_chars(s, chars_within(s, byte) as int);
}

/// The byte offset of character `k` counts exactly `k` whole characters.
proof fn lemma_chars_within_prefix(s: Seq<char>, k: int)
    requires
        0 <= k <= s.len(),
    ensures
        chars_within(s, byte_len(s.take(k)) as int) == k,
    decreases k,
{
    if k == 0 {
        assert(s.take(0) =~= Seq::<char>::empty());
        if s.len() > 0 {
            lemma_utf8_width_bounds(s[0]);
        }
    } else {
        assert(s.take(k)[0] == s[0]);
        assert(s.take(k).drop_first() =~= s.drop_first().take(k - 1));
        lemma_chars_within_prefix(s.drop_first(), k - 1);
    }
}

/// `byte_to_line_col` undoes `line_col_to_byte` on every position that stands at a
/// character of the text: the line and column of the end of the first `k` characters,
/// turned into a byte offset and back, give the same line and column.
pub proof fn lemma_position_round_trip(s: Seq<char>, k: int)
    requires
        0 <= k <= s.len(),
    ensures
        ({
            let lc = line_col(s.take(k));
            spec_byte_to_line_col(s, spec_line_col_to_byte(s, lc.0, lc.1) as int) == lc
        }),
{
    lemma_line_col_inverse_chars(s, k);
    lemma_chars_within_prefix(s, k);
}

/// Allowing more bytes never counts fewer whole characters.
pub proof fn lemma_chars_within_mono(s: Seq<char>, a: int, b: int)
    requires
        a <= b,
    ensures
        chars_within(s, a) <= chars_within(s, b),
    decreases s.len(),
{
    if s.len() > 0 && utf8_width(s[0]) <= a {
        lemma_chars_within_mono(s.drop_first(), a - utf8_width(s[0]), b - utf8_width(s[0]));
    }
}

/// Position `a` comes no later than position `b`: on an earlier line, or on the same line
/// at a column no greater.
pub open spec fn position_le(a: (nat, nat), b: (nat, nat)) -> bool {
    a.0 < b.0 || (a.0 == b.0 && a.1 <= b.1)
}

/// Reading more characters never moves the position back.
proof fn lemma_line_col_prefix_mono(s: Seq<char>, k1: int, k2: int)
    requires
        0 <= k1 <= k2 <= s.len(),
    ensures
        position_le(line_col(s.take(k1)), line_col(s.take(k2))),
    decreases k2 - k1,
{
    if k1 < k2 {
        lemma_line_col_prefix_mono(s, k1, k2 - 1);
        assert(s.take(k2) =~= s.take(k2 - 1).push(s[k2 - 1]));
        lemma_line_col_push(s.take(k2 - 1), s[k2 - 1]);
    }
}

/// `byte_to_line_col` is monotone: a later byte offset never gets an earlier line and
/// column, whatever the offsets (past the end, or inside a character).
pub proof fn lemma_byte_to_line_col_monotone(s: Seq<char>, b1: int, b2: int)
    requires
        b1 <= b2,
    ensures
        position_le(spec_byte_to_line_col(s, b1), spec_byte_to_line_col(s, b2)),
{
    lemma_chars_within_mono(s, b1, b2);
    lemma_chars_within_bound(s, b2);
    lemma_line_col_prefix_mono(s, chars_within(s, b1) as int, chars_within(s, b2) as int);
}

/// The line of the end of `p` is at most its number of characters, and the column at most
/// its UTF-16 length.
pub proof fn lemma_line_col_bounds(p: Seq<char>)
    ensures
        line_col(p).0 <= p.len(),
        line_col(p).1 <= utf16_len(p),
        p.len() <= utf16_len(p),
    decreases p.len(),
{
    if p.len() > 0 {
        let q = p.drop_last();
        lemma_line_col_bounds(q);
        assert(p =~= q.push(p.last()));
        lemma_line_col_push(q, p.last());
        lemma_utf16_len_push(q, p.last());
        lemma_utf8_width_bounds(p.last());
    } else {
        assert(line_col(p) == (0nat, utf16_len(p))) by {
            lemma_first_newline(p);
        }
    }
}

/// A prefix takes no more UTF-16 code units than the whole.
pub proof fn lemma_utf16_len_take(s: Seq<char>, k: int)
    requires
        0 <= k <= s.len(),
    ensures
        utf16_len(s.take(k)) <= utf16_len(s),
    decreases s.len() - k,
{
    if k < s.len() {
        lemma_utf16_len_take(s, k + 1);
        assert(s.take(k + 1) =~= s.take(k).push(s[k]));
        lemma_utf16_len_push(s.take(k), s[k]);
    } else {
        assert(s.take(k) =~= s);
    }
}

} // verus!
