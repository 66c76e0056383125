//! Finding the ```` ```cypher ```` code blocks of a Markdown document.

use vstd::prelude::*;

use crate::text::{
    is_white_space, leading_word, leading_ws, ascii_lower, char_eq_ignore_ascii_case, eq_ignore_ascii_case, first_word, join_lines, lines,
    push_line, skip_whitespace, skip_word, split_lines, trim, trim_end_at, trim_start,
};

verus! {

/// One fenced Cypher block of a Markdown document.
#[derive(Debug, Clone, PartialEq)]
pub struct CypherSnippet {
    /// The lines between the fences, joined with line feeds.
    pub content: String,
    /// Zero-based index of the first content line in the source markdown file.
    pub start_line: u32,
    /// `false` when end-of-file was reached before the closing ` ``` ` fence.
    pub closed: bool,
}

/// The value of a `CypherSnippet`.
pub struct SnippetModel {
    pub content: Seq<char>,
    pub start_line: u32,
    pub closed: bool,
}

impl View for CypherSnippet {
    type V = SnippetModel;

    open spec fn view(&self) -> SnippetModel {
        SnippetModel { content: self.content@, start_line: self.start_line, closed: self.closed }
    }
}

/// The three backticks of a fence.
pub open spec fn fence_marker() -> Seq<char> {
    seq!['`', '`', '`']
}

/// The language tag that marks a Cypher block.
pub open spec fn cypher_tag() -> Seq<char> {
    seq!['c', 'y', 'p', 'h', 'e', 'r']
}

/// A line that opens a Cypher block: after leading whitespace it starts with three
/// backticks, and the first word after them is `cypher` in any ASCII case.
pub open spec fn opens_cypher_fence(line: Seq<char>) -> bool {
    let t = trim_start(line);
    &&& t.len() >= 3
    &&& t.take(3) == fence_marker()
    &&& eq_ignore_ascii_case(first_word(t.skip(3)), cypher_tag())
}

/// A line that closes a block: three backticks and nothing else but whitespace.
pub open spec fn closes_fence(line: Seq<char>) -> bool {
    trim(line) == fence_marker()
}

/// Where the scan of a document stands after some of its lines.
pub struct ScanState {
    /// The blocks closed so far.
    pub snippets: Seq<SnippetModel>,
    /// Whether a Cypher block is open.
    pub in_fence: bool,
    /// Index of the first content line of the block opened last.
    pub start_line: u32,
    /// The content lines of the open block.
    pub content: Seq<Seq<char>>,
}

/// The state before any line.
pub open spec fn scan_start() -> ScanState {
    ScanState { snippets: seq![], in_fence: false, start_line: 0, content: seq![] }
}

/// The state after line number `line_num`, holding `line`.
pub open spec fn scan_step(st: ScanState, line_num: int, line: Seq<char>) -> ScanState {
    if !st.in_fence {
        if opens_cypher_fence(line) {
            ScanState {
                snippets: st.snippets,
                in_fence: true,
                start_line: (line_num + 1) as u32,
                content: seq![],
            }
        } else {
            st
        }
    } else if closes_fence(line) {
        ScanState {
            snippets: st.snippets.push(
                SnippetModel { content: join_lines(st.content), start_line: st.start_line, closed: true },
            ),
            in_fence: false,
            start_line: st.start_line,
            content: seq![],
        }
    } else {
        ScanState {
            snippets: st.snippets,
            in_fence: true,
            start_line: st.start_line,
            content: st.content.push(line),
        }
    }
}

/// The state after the given lines.
pub open spec fn scan(ls: Seq<Seq<char>>) -> ScanState
    decreases ls.len(),
{
    if ls.len() == 0 {
        scan_start()
    } else {
        scan_step(scan(ls.drop_last()), ls.len() - 1, ls.last())
    }
}

/// The Cypher blocks of a document, in order: each closed block, and at the end a block
/// that was never closed, if it has at least one line.
pub open spec fn cypher_snippets(source: Seq<char>) -> Seq<SnippetModel> {
    let st = scan(lines(source));
    if st.in_fence && st.content.len() > 0 {
        st.snippets.push(SnippetModel { content: join_lines(st.content), start_line: st.start_line, closed: false })
    } else {
        st.snippets
    }
}

/// Block `s` of a document with lines `ls` spans lines `first..end`, `first` being its
/// `start_line`: the line before `first` opens a Cypher fence, the content is those lines
/// joined with line feeds, none of them closes a fence, and the block ends at line `end`,
/// a closing fence, when it is closed, or at the end of the document when it is not.
pub open spec fn snippet_spans(ls: Seq<Seq<char>>, s: SnippetModel, end: int) -> bool {
    let first = s.start_line as int;
    &&& 1 <= first <= end <= ls.len()
    &&& opens_cypher_fence(ls[first - 1])
    &&& s.content == join_lines(ls.subrange(first, end))
    &&& forall|k: int| first <= k < end ==> !closes_fence(#[trigger] ls[k])
    &&& if s.closed {
        end < ls.len() && closes_fence(ls[end])
    } else {
        end == ls.len()
    }
}

/// Block `s` stands where its `start_line` says in a document with lines `ls`.
pub open spec fn snippet_in_place(ls: Seq<Seq<char>>, s: SnippetModel) -> bool {
    exists|end: int| snippet_spans(ls, s, end)
}

/// What holds of the scan of `ls` after its first `n` lines: each block found so far is
/// in place, and an open block started right after a fence-opening line and holds every
/// line since, none of which closes it.
spec fn scan_inv(ls: Seq<Seq<char>>, n: int, st: ScanState) -> bool {
    &&& forall|i: int| 0 <= i < st.snippets.len() ==> snippet_in_place(ls, #[trigger] st.snippets[i])
    &&& forall|i: int| 0 <= i < st.snippets.len() ==> (#[trigger] st.snippets[i]).start_line < n
    &&& forall|i: int, j: int| 0 <= i < j < st.snippets.len() ==> st.snippets[i].start_line < st.snippets[j].start_line
    &&& st.in_fence ==> forall|i: int| 0 <= i < st.snippets.len() ==> (#[trigger] st.snippets[i]).start_line < st.start_line
    &&& st.in_fence ==> {
        let first = st.start_line as int;
        &&& 1 <= first <= n
        &&& opens_cypher_fence(ls[first - 1])
        &&& st.content == ls.subrange(first, n)
        &&& forall|k: int| first <= k < n ==> !closes_fence(#[trigger] ls[k])
    }
}

/// The scan of the first `n` lines of `ls` keeps `scan_inv`.
proof fn lemma_scan_inv(ls: Seq<Seq<char>>, n: int)
    requires
        0 <= n <= ls.len(),
        ls.len() <= u32::MAX,
    ensures
        scan_inv(ls, n, scan(ls.take(n))),
    decreases n,
{
    if n == 0 {
        assert(ls.take(0) =~= Seq::<Seq<char>>::empty());
    } else {
        lemma_scan_inv(ls, n - 1);
        let prev = scan(ls.take(n - 1));
        assert(ls.take(n).drop_last() =~= ls.take(n - 1));
        assert(ls.take(n).last() == ls[n - 1]);
        let st = scan(ls.take(n));
        assert(st == scan_step(prev, n - 1, ls[n - 1]));
        if !prev.in_fence {
            if opens_cypher_fence(ls[n - 1]) {
                assert(st.start_line as int == n);
                assert(st.content =~= ls.subrange(n, n));
            }
        } else if closes_fence(ls[n - 1]) {
            let first = prev.start_line as int;
            let sn = SnippetModel { content: join_lines(prev.content), start_line: prev.start_line, closed: true };
            assert(snippet_spans(ls, sn, n - 1));
            assert forall|i: int| 0 <= i < st.snippets.len() implies snippet_in_place(ls, #[trigger] st.snippets[i])
                && st.snippets[i].start_line < n by {
                if i < prev.snippets.len() {
                    assert(st.snippets[i] == prev.snippets[i]);
                } else {
                    assert(st.snippets[i] == sn);
                }
            }
            assert forall|i: int, j: int| 0 <= i < j < st.snippets.len() implies st.snippets[i].start_line < st.snippets[j].start_line by {
                assert(st.snippets[i] == prev.snippets[i]);
                if j < prev.snippets.len() {
                    assert(st.snippets[j] == prev.snippets[j]);
                } else {
                    assert(st.snippets[j] == sn);
                }
            }
        } else {
            assert(st.content =~= ls.subrange(prev.start_line as int, n));
        }
    }
}

/// Every block `extract_cypher_snippets` finds stands where its `start_line` says: right
/// after a line that opens a Cypher fence, holding the lines up to its closing fence (or
/// to the end of the document when it is not closed), joined with line feeds; and the
/// blocks come in the order they stand in the document. Documents with more lines than a
/// `u32` counts are left out.
pub proof fn lemma_snippets_in_place(src: Seq<char>)
    requires
        lines(src).len() <= u32::MAX,
    ensures
        forall|i: int| 0 <= i < cypher_snippets(src).len() ==> snippet_in_place(lines(src), #[trigger] cypher_snippets(src)[i]),
        forall|i: int, j: int|
            0 <= i < j < cypher_snippets(src).len() ==> cypher_snippets(src)[i].start_line < cypher_snippets(src)[j].start_line,
{
    let ls = lines(src);
    lemma_scan_inv(ls, ls.len() as int);
    assert(ls.take(ls.len() as int) =~= ls);
    let st = scan(ls);
    if st.in_fence && st.content.len() > 0 {
        let sn = SnippetModel { content: join_lines(st.content), start_line: st.start_line, closed: false };
        assert(snippet_spans(ls, sn, ls.len() as int));
        let all = cypher_snippets(src);
        assert forall|i: int| 0 <= i < all.len() implies snippet_in_place(ls, #[trigger] all[i]) by {
            if i < st.snippets.len() {
                assert(all[i] == st.snippets[i]);
            } else {
                assert(all[i] == sn);
            }
        }
        assert forall|i: int, j: int| 0 <= i < j < all.len() implies all[i].start_line < all[j].start_line by {
            assert(all[i] == st.snippets[i]);
            if j < st.snippets.len() {
                assert(all[j] == st.snippets[j]);
            } else {
                assert(all[j] == sn);
            }
        }
    }
}

/// Whitespace in front of a text adds to its leading whitespace.
proof fn lemma_leading_ws_prefix(ws: Seq<char>, rest: Seq<char>)
    requires
        forall|i: int| 0 <= i < ws.len() ==> is_white_space(#[trigger] ws[i]),
    ensures
        leading_ws(ws + rest) == ws.len() + leading_ws(rest),
    decreases ws.len(),
{
    if ws.len() > 0 {
        assert((ws + rest)[0] == ws[0]);
        assert((ws + rest).drop_first() =~= ws.drop_first() + rest);
        assert forall|i: int| 0 <= i < ws.drop_first().len() implies is_white_space(#[trigger] ws.drop_first()[i]) by {
            assert(ws.drop_first()[i] == ws[i + 1]);
        }
        lemma_leading_ws_prefix(ws.drop_first(), rest);
    } else {
        assert(ws + rest =~= rest);
    }
}

/// There is no more leading whitespace than text.
proof fn lemma_leading_ws_len(s: Seq<char>)
    ensures
        leading_ws(s) <= s.len(),
    decreases s.len(),
{
    if s.len() > 0 {
        lemma_leading_ws_len(s.drop_first());
    }
}

/// Leading whitespace does not change what `trim_start` leaves.
proof fn lemma_trim_start_prefix(ws: Seq<char>, rest: Seq<char>)
    requires
        forall|i: int| 0 <= i < ws.len() ==> is_white_space(#[trigger] ws[i]),
    ensures
        trim_start(ws + rest) == trim_start(rest),
{
    lemma_leading_ws_prefix(ws, rest);
    lemma_leading_ws_len(rest);
    assert((ws + rest).skip((ws.len() + leading_ws(rest)) as int) =~= rest.skip(leading_ws(rest) as int));
}

/// The indentation of a line does not matter to whether it opens a Cypher block, as
/// `str::trim_start` drops it: whitespace in front of a line changes nothing.
pub proof fn lemma_fence_ignores_indent(ws: Seq<char>, line: Seq<char>)
    requires
        forall|i: int| 0 <= i < ws.len() ==> is_white_space(#[trigger] ws[i]),
    ensures
        opens_cypher_fence(ws + line) == opens_cypher_fence(line),
{
    lemma_trim_start_prefix(ws, line);
}

/// A word with no whitespace, followed by nothing or by whitespace, is read whole.
proof fn lemma_leading_word_whole(w: Seq<char>, tail: Seq<char>)
    requires
        forall|i: int| 0 <= i < w.len() ==> !is_white_space(#[trigger] w[i]),
        tail.len() == 0 || is_white_space(tail[0]),
    ensures
        leading_word(w + tail) == w.len(),
    decreases w.len(),
{
    if w.len() > 0 {
        assert((w + tail)[0] == w[0]);
        assert((w + tail).drop_first() =~= w.drop_first() + tail);
        assert forall|i: int| 0 <= i < w.drop_first().len() implies !is_white_space(#[trigger] w.drop_first()[i]) by {
            assert(w.drop_first()[i] == w[i + 1]);
        }
        lemma_leading_word_whole(w.drop_first(), tail);
    } else {
        assert(w + tail =~= tail);
    }
}

/// A line made of any whitespace, three backticks, the word `cypher`, and then nothing or
/// whitespace followed by anything (such as an annotation), opens a Cypher block.
pub proof fn lemma_fence_line_opens(ws: Seq<char>, tail: Seq<char>)
    requires
        forall|i: int| 0 <= i < ws.len() ==> is_white_space(#[trigger] ws[i]),
        tail.len() == 0 || is_white_space(tail[0]),
    ensures
        opens_cypher_fence(ws + seq!['`', '`', '`', 'c', 'y', 'p', 'h', 'e', 'r'] + tail),
{
    let word = seq!['c', 'y', 'p', 'h', 'e', 'r'];
    let body = seq!['`', '`', '`'] + word + tail;
    assert(ws + seq!['`', '`', '`', 'c', 'y', 'p', 'h', 'e', 'r'] + tail =~= ws + body);
    lemma_trim_start_prefix(ws, body);
    assert(!is_white_space(body[0]));
    assert(trim_start(body) =~= body);
    let t = trim_start(body);
    assert(t.take(3) =~= fence_marker());
    let after = t.skip(3);
    assert(after =~= word + tail);
    assert(!is_white_space(after[0]));
    assert(trim_start(after) =~= after);
    assert forall|i: int| 0 <= i < word.len() implies !is_white_space(#[trigger] word[i]) by {}
    lemma_leading_word_whole(word, tail);
    assert(first_word(after) =~= cypher_tag());
}

/// The scan after `j + 1` lines is the scan after `j` lines and one more step.
proof fn lemma_scan_take_step(ls: Seq<Seq<char>>, j: int)
    requires
        0 <= j < ls.len(),
    ensures
        scan(ls.take(j + 1)) == scan_step(scan(ls.take(j)), j, ls[j]),
{
    assert(ls.take(j + 1).drop_last() =~= ls.take(j));
    assert(ls.take(j + 1).last() == ls[j]);
}

/// Blocks found are never taken back as the scan goes on.
proof fn lemma_snippets_grow(ls: Seq<Seq<char>>, a: int, b: int)
    requires
        0 <= a <= b <= ls.len(),
    ensures
        scan(ls.take(a)).snippets.len() <= scan(ls.take(b)).snippets.len(),
        forall|i: int| 0 <= i < scan(ls.take(a)).snippets.len() ==> #[trigger] scan(ls.take(b)).snippets[i] == scan(ls.take(a)).snippets[i],
    decreases b - a,
{
    if a < b {
        lemma_snippets_grow(ls, a, b - 1);
        lemma_scan_take_step(ls, b - 1);
    }
}

/// After an opening line `n` met outside a block, and up to the first line that closes
/// it, the scan stays in that block, which starts at line `n + 1` and holds the lines since.
proof fn lemma_block_stays_open(ls: Seq<Seq<char>>, n: int, j: int)
    requires
        0 <= n < j <= ls.len(),
        ls.len() <= u32::MAX,
        !scan(ls.take(n)).in_fence,
        opens_cypher_fence(ls[n]),
        forall|q: int| n < q < j ==> !closes_fence(#[trigger] ls[q]),
    ensures
        scan(ls.take(j)).in_fence,
        scan(ls.take(j)).start_line == n + 1,
        scan(ls.take(j)).snippets == scan(ls.take(n)).snippets,
        scan(ls.take(j)).content == ls.subrange(n + 1, j),
    decreases j - n,
{
    if j == n + 1 {
        lemma_scan_take_step(ls, n);
        assert(ls.subrange(n + 1, j) =~= Seq::<Seq<char>>::empty());
    } else {
        lemma_block_stays_open(ls, n, j - 1);
        lemma_scan_take_step(ls, j - 1);
        assert(ls.subrange(n + 1, j) =~= ls.subrange(n + 1, j - 1).push(ls[j - 1]));
    }
}

/// The first line from `j` on that closes a block, or the number of lines when none does.
spec fn first_close_from(ls: Seq<Seq<char>>, j: int) -> int
    decreases ls.len() - j,
{
    if j >= ls.len() {
        ls.len() as int
    } else if closes_fence(ls[j]) {
        j
    } else {
        first_close_from(ls, j + 1)
    }
}

proof fn lemma_first_close_from(ls: Seq<Seq<char>>, j: int)
    requires
        0 <= j <= ls.len(),
    ensures
        j <= first_close_from(ls, j) <= ls.len(),
        first_close_from(ls, j) < ls.len() ==> closes_fence(ls[first_close_from(ls, j)]),
        forall|q: int| j <= q < first_close_from(ls, j) ==> !closes_fence(#[trigger] ls[q]),
    decreases ls.len() - j,
{
    if j < ls.len() && !closes_fence(ls[j]) {
        lemma_first_close_from(ls, j + 1);
    }
}

/// Every line met outside a block that opens a Cypher fence, and is not the last line of
/// the document, starts a block that `extract_cypher_snippets` returns: one whose content
/// starts at the next line. Documents with more lines than a `u32` counts are left out.
pub proof fn lemma_fence_line_starts_block(src: Seq<char>, n: int)
    requires
        lines(src).len() <= u32::MAX,
        0 <= n,
        n + 1 < lines(src).len(),
        !scan(lines(src).take(n)).in_fence,
        opens_cypher_fence(lines(src)[n]),
    ensures
        exists|i: int| 0 <= i < cypher_snippets(src).len() && (#[trigger] cypher_snippets(src)[i]).start_line == n + 1,
{
    let ls = lines(src);
    assert(ls.take(ls.len() as int) =~= ls);
    lemma_first_close_from(ls, n + 1);
    let c = first_close_from(ls, n + 1);
    lemma_block_stays_open(ls, n, c);
    let all = cypher_snippets(src);
    if c < ls.len() {
        lemma_scan_take_step(ls, c);
        let st = scan(ls.take(c));
        let at = st.snippets.len() as int;
        assert(scan(ls.take(c + 1)).snippets[at].start_line == n + 1);
        lemma_snippets_grow(ls, c + 1, ls.len() as int);
        let fin = scan(ls);
        assert(fin.snippets[at].start_line == n + 1);
        assert(all[at] == fin.snippets[at]);
    } else {
        let fin = scan(ls);
        assert(fin.content.len() > 0);
        assert(all[fin.snippets.len() as int].start_line == n + 1);
    }
}

/// Whether `s[lo..hi]` reads `cypher` in any ASCII case.
fn is_cypher_tag(s: &[char], lo: usize, hi: usize) -> (r: bool)
    requires
        lo <= hi <= s@.len(),
    ensures
        r == eq_ignore_ascii_case(s@.subrange(lo as int, hi as int), cypher_tag()),
{
    let ghost word = s@.subrange(lo as int, hi as int);
    if hi - lo != 6 {
        return false;
    }
    let tag = ['c', 'y', 'p', 'h', 'e', 'r'];
    assert(tag@ =~= cypher_tag());
    let mut i: usize = 0;
    while i < 6
        invariant
            0 <= i <= 6,
            hi - lo == 6,
            hi <= s@.len(),
            word == s@.subrange(lo as int, hi as int),
            tag@ == cypher_tag(),
            forall|k: int| 0 <= k < i ==> ascii_lower(#[trigger] word[k]) == ascii_lower(cypher_tag()[k]),
        decreases 6 - i,
    {
        if !char_eq_ignore_ascii_case(s[lo + i], tag[i]) {
            assert(ascii_lower(word[i as int]) != ascii_lower(cypher_tag()[i as int]));
            return false;
        }
        i = i + 1;
    }
    true
}

/// Whether `line` opens a Cypher block.
fn is_cypher_fence_open(line: &[char]) -> (r: bool)
    ensures
        r == opens_cypher_fence(line@),
{
    let start = skip_whitespace(line, 0);
    assert(line@.skip(0) =~= line@);
    let ghost t = line@.skip(start as int);
    assert(t == trim_start(line@));
    if line.len() - start < 3 || line[start] != '`' || line[start + 1] != '`' || line[start + 2] != '`' {
        proof {
            if t.len() >= 3 {
                assert(t.take(3)[0] == line@[start as int]);
                assert(t.take(3)[1] == line@[start + 1]);
                assert(t.take(3)[2] == line@[start + 2]);
            }
        }
        return false;
    }
    assert(t.take(3) =~= fence_marker());
    let rest = start + 3;
    assert(t.skip(3) =~= line@.skip(rest as int));
    let word_start = skip_whitespace(line, rest);
    let word_end = skip_word(line, word_start);
    assert(trim_start(t.skip(3)) =~= line@.skip(word_start as int));
    assert(first_word(t.skip(3)) =~= line@.subrange(word_start as int, word_end as int));
    is_cypher_tag(line, word_start, word_end)
}

/// Whether `line` closes a block.
fn is_fence_close(line: &[char]) -> (r: bool)
    ensures
        r == closes_fence(line@),
{
    let start = skip_whitespace(line, 0);
    assert(line@.skip(0) =~= line@);
    let end = trim_end_at(line, start, line.len());
    let ghost t = line@.subrange(start as int, end as int);
    assert(line@.skip(start as int) =~= line@.subrange(start as int, line@.len() as int));
    assert(t =~= trim(line@));
    if end - start != 3 {
        return false;
    }
    let r = line[start] == '`' && line[start + 1] == '`' && line[start + 2] == '`';
    proof {
        if r {
            assert(t =~= fence_marker());
        } else {
            assert(t[0] != '`' || t[1] != '`' || t[2] != '`');
        }
    }
    r
}

/// Every ```` ```cypher ```` block of a Markdown document, in the order they appear.
///
/// A block opens at a line whose first non-blank characters are three backticks followed
/// by the word `cypher` (in any ASCII case; more text may follow after whitespace), and
/// closes at the next line that is three backticks alone. A block still open at the end
/// of the document is included, marked not closed, when it has at least one line.
pub fn extract_cypher_snippets(source: &str) -> (res: Vec<CypherSnippet>)
    ensures
        res@.len() == cypher_snippets(source@).len(),
        forall|i: int| 0 <= i < res@.len() ==> #[trigger] res@[i]@ == cypher_snippets(source@)[i],
{
    let ls = split_lines(source);
    let ghost all = lines(source@);
    let mut snippets: Vec<CypherSnippet> = Vec::new();
    let mut in_fence = false;
    let mut fence_start_line: u32 = 0;
    let mut content = String::new();
    let mut content_count: usize = 0;
    let ghost mut content_lines: Seq<Seq<char>> = seq![];
    let n = ls.len();
    for line_num in 0..n
        invariant
            n == all.len(),
            ls@.len() == all.len(),
            forall|i: int| 0 <= i < all.len() ==> #[trigger] ls@[i]@ == all[i],
            scan(all.take(line_num as int)).in_fence == in_fence,
            scan(all.take(line_num as int)).start_line == fence_start_line,
            scan(all.take(line_num as int)).content == content_lines,
            scan(all.take(line_num as int)).snippets.len() == snippets@.len(),
            forall|i: int| 0 <= i < snippets@.len()
                ==> #[trigger] snippets@[i]@ == scan(all.take(line_num as int)).snippets[i],
            content@ == join_lines(content_lines),
            content_count == content_lines.len(),
            content_count <= line_num,
    {
        let line = &ls[line_num];
        let ghost st = scan(all.take(line_num as int));
        proof {
            assert(all.take(line_num + 1).drop_last() =~= all.take(line_num as int));
            assert(line@ == all[line_num as int]);
        }
        if !in_fence {
            if is_cypher_fence_open(line.as_slice()) {
                in_fence = true;
                fence_start_line = (line_num + 1) as u32;
                content = String::new();
                content_count = 0;
                proof {
                    content_lines = seq![];
                }
            }
        } else if is_fence_close(line.as_slice()) {
            let snippet = CypherSnippet { content: content, start_line: fence_start_line, closed: true };
            snippets.push(snippet);
            content = String::new();
            content_count = 0;
            in_fence = false;
            proof {
                content_lines = seq![];
                assert(snippets@.last()@ == scan_step(st, line_num as int, line@).snippets.last());
            }
        } else {
            push_line(&mut content, content_count, line, Ghost(content_lines));
            content_count = content_count + 1;
            proof {
                content_lines = content_lines.push(line@);
            }
        }
    }
    assert(all.take(n as int) =~= all);
    if in_fence && content_count > 0 {
        snippets.push(CypherSnippet { content: content, start_line: fence_start_line, closed: false });
    }
    snippets
}

} // verus!
