//! The decisions of a lint run that do not need the file system: which input to read,
//! which files of a directory and which named paths to lint, what to say about the ones
//! left out, and which paths were already linted.

use vstd::prelude::*;

use crate::diagnostics::opt_view;

verus! {

/// The command line of `cypher lint`.
pub struct LintArgs {
    /// An inline Cypher expression to lint.
    pub expression: Option<String>,
    /// Print the diagnostics as JSON.
    pub json: bool,
    /// Print the parse tree as an S-expression.
    pub tree: bool,
    /// Treat warnings as errors.
    pub strict: bool,
    /// Run only the rules with these names.
    pub rule: Vec<String>,
    /// A directory of further `.scm` rule files.
    pub rules_dir: Option<String>,
    /// Skip Markdown files.
    pub no_markdown: bool,
    /// The files and directories to lint; standard input when empty.
    pub paths: Vec<String>,
}

/// Where a run takes its Cypher text from.
#[derive(Debug, Clone, Copy, PartialEq, Eq, Structural)]
pub enum Input {
    /// The inline expression.
    Expression,
    /// Standard input.
    Stdin,
    /// The paths named on the command line.
    Paths,
}

/// The input of a run: the inline expression when there is one, else standard input when
/// no path is named, else the paths.
pub open spec fn spec_input(has_expression: bool, n_paths: nat) -> Input {
    if has_expression {
        Input::Expression
    } else if n_paths == 0 {
        Input::Stdin
    } else {
        Input::Paths
    }
}

/// The input a run with `args` lints.
pub fn input_of(args: &LintArgs) -> (r: Input)
    ensures
        r == spec_input(args.expression is Some, args.paths@.len()),
{
    if args.expression.is_some() {
        Input::Expression
    } else if args.paths.len() == 0 {
        Input::Stdin
    } else {
        Input::Paths
    }
}

/// The input whose parse tree a `--tree` run prints; more than one path is refused.
pub fn tree_input(args: &LintArgs) -> (r: Result<Input, String>)
    ensures
        args.paths@.len() > 1 ==> (r matches Err(m) && m@ == "error: --tree accepts at most one input"@),
        args.paths@.len() <= 1 ==> r == Ok::<Input, String>(spec_input(args.expression is Some, args.paths@.len())),
{
    if args.paths.len() > 1 {
        return Err(String::from_str("error: --tree accepts at most one input"));
    }
    Ok(input_of(args))
}

/// How a file is linted.
#[derive(Debug, Clone, Copy, PartialEq, Eq, Structural)]
pub enum FileKind {
    /// As Cypher source.
    Cypher,
    /// As a Markdown document whose Cypher blocks are linted.
    Markdown,
}

/// How a file met while walking a directory is linted, by its extension: `.cypher` files
/// as Cypher, `.md` files as Markdown unless Markdown is skipped, others not at all.
pub open spec fn walk_kind(ext: Option<Seq<char>>, no_markdown: bool) -> Option<FileKind> {
    if ext == Some("cypher"@) {
        Some(FileKind::Cypher)
    } else if !no_markdown && ext == Some("md"@) {
        Some(FileKind::Markdown)
    } else {
        None
    }
}

/// How a path named on the command line is linted, by its extension: `.md` files as
/// Markdown, or not at all when Markdown is skipped; any other file as Cypher.
pub open spec fn named_kind(ext: Option<Seq<char>>, no_markdown: bool) -> Option<FileKind> {
    if ext == Some("md"@) {
        if no_markdown {
            None
        } else {
            Some(FileKind::Markdown)
        }
    } else {
        Some(FileKind::Cypher)
    }
}

/// Whether the optional string `s` is `lit`.
fn opt_is(s: &Option<String>, lit: &str) -> (r: bool)
    ensures
        r == (opt_view(*s) == Some(lit@)),
{
    match s {
        Some(v) => crate::analysis::str_is(v, lit),
        None => false,
    }
}

/// How a file with extension `ext`, met while walking a directory, is linted.
pub fn walk_entry_kind(ext: &Option<String>, no_markdown: bool) -> (r: Option<FileKind>)
    ensures
        r == walk_kind(opt_view(*ext), no_markdown),
{
    if opt_is(ext, "cypher") {
        Some(FileKind::Cypher)
    } else if !no_markdown && opt_is(ext, "md") {
        Some(FileKind::Markdown)
    } else {
        None
    }
}

/// How a path with extension `ext`, named on the command line, is linted.
pub fn named_path_kind(ext: &Option<String>, no_markdown: bool) -> (r: Option<FileKind>)
    ensures
        r == named_kind(opt_view(*ext), no_markdown),
{
    if opt_is(ext, "md") {
        if no_markdown {
            None
        } else {
            Some(FileKind::Markdown)
        }
    } else {
        Some(FileKind::Cypher)
    }
}

/// The note for a Markdown file named on the command line and skipped.
pub fn skipped_note(path: &str) -> (r: String)
    ensures
        r@ == "note: "@ + path@ + ": skipped (--no-markdown)"@,
{
    let mut r = String::from_str("note: ");
    r.append(path);
    r.append(": skipped (--no-markdown)");
    r
}

/// The note for a directory in which no file was linted.
pub fn no_files_note(path: &str, no_markdown: bool) -> (r: String)
    ensures
        no_markdown ==> r@ == "note: no .cypher files found in "@ + path@,
        !no_markdown ==> r@ == "note: no .cypher or .md files found in "@ + path@,
{
    let mut r = if no_markdown {
        String::from_str("note: no .cypher files found in ")
    } else {
        String::from_str("note: no .cypher or .md files found in ")
    };
    r.append(path);
    r
}

/// The paths linted so far in a run, each once.
pub struct Visited {
    seen: Vec<String>,
}

impl Visited {
    /// The paths in the set.
    pub closed spec fn paths(&self) -> Set<Seq<char>> {
        self.seen@.map_values(|s: String| s@).to_set()
    }

    /// No path is held twice.
    pub closed spec fn wf(&self) -> bool {
        forall|i: int, j: int| 0 <= i < j < self.seen@.len() ==> self.seen@[i]@ != self.seen@[j]@
    }

    /// An empty set.
    pub fn new() -> (r: Visited)
        ensures
            r.wf(),
            r.paths() == Set::<Seq<char>>::empty(),
    {
        let r = Visited { seen: Vec::new() };
        assert(r.paths() =~= Set::<Seq<char>>::empty());
        r
    }

    /// Adds `path`; `true` when it was not there yet.
    pub fn insert(&mut self, path: String) -> (fresh: bool)
        requires
            old(self).wf(),
        ensures
            final(self).wf(),
            fresh == !old(self).paths().contains(path@),
            final(self).paths() == old(self).paths().insert(path@),
    {
        let ghost names = self.seen@.map_values(|s: String| s@);
        let n = self.seen.len();
        for i in 0..n
            invariant
                n == self.seen@.len(),
                self.wf(),
                names == self.seen@.map_values(|s: String| s@),
                forall|k: int| 0 <= k < i ==> self.seen@[k]@ != path@,
        {
            if self.seen[i] == path {
                assert(names[i as int] == path@);
                assert(names.to_set().contains(path@));
                assert(self.paths().insert(path@) =~= self.paths());
                return false;
            }
        }
        proof {
            if names.to_set().contains(path@) {
                let k = choose|k: int| 0 <= k < names.len() && names[k] == path@;
                assert(self.seen@[k]@ == path@);
            }
        }
        let ghost before = self.seen@;
        self.seen.push(path);
        assert forall|i: int, j: int| 0 <= i < j < self.seen@.len() implies self.seen@[i]@ != self.seen@[j]@ by {
            assert(self.seen@[i] == before[i]);
            if j < n {
                assert(self.seen@[j] == before[j]);
            }
        }
        let ghost after = self.seen@.map_values(|s: String| s@);
        assert(after =~= names.push(path@));
        assert(self.paths() =~= names.to_set().insert(path@)) by {
            assert forall|x: Seq<char>| self.paths().contains(x) <==> names.to_set().insert(path@).contains(x) by {
                if self.paths().contains(x) {
                    let k = choose|k: int| 0 <= k < after.len() && after[k] == x;
                    if k < names.len() {
                        assert(names[k] == x);
                    }
                }
                if names.to_set().contains(x) {
                    let k = choose|k: int| 0 <= k < names.len() && names[k] == x;
                    assert(after[k] == x);
                }
                if x == path@ {
                    assert(after[names.len() as int] == x);
                }
            }
        }
        true
    }
}

/// The paths held after inserting the paths `ps`, one after the other, into a set holding
/// `start`.
pub open spec fn after_inserts(start: Set<Seq<char>>, ps: Seq<Seq<char>>) -> Set<Seq<char>>
    decreases ps.len(),
{
    if ps.len() == 0 {
        start
    } else {
        after_inserts(start, ps.drop_last()).insert(ps.last())
    }
}

/// Whether the `i`-th of the inserts `ps`, made into a set holding `start`, was fresh (what
/// `Visited::insert` returns for it).
pub open spec fn fresh_at(start: Set<Seq<char>>, ps: Seq<Seq<char>>, i: int) -> bool {
    !after_inserts(start, ps.take(i)).contains(ps[i])
}

/// Every path inserted stays in the set.
proof fn lemma_inserted_stays(start: Set<Seq<char>>, ps: Seq<Seq<char>>, i: int, k: int)
    requires
        0 <= i < k <= ps.len(),
    ensures
        after_inserts(start, ps.take(k)).contains(ps[i]),
    decreases k,
{
    let t = ps.take(k);
    assert(t.drop_last() =~= ps.take(k - 1));
    assert(t.last() == ps[k - 1]);
    if i < k - 1 {
        lemma_inserted_stays(start, ps, i, k - 1);
    }
}

/// Each path is linted at most once in a run: of a sequence of inserts into the set of
/// paths linted so far, those that come out fresh are distinct paths, none of them in the
/// set at the start.
pub proof fn lemma_fresh_paths_distinct(start: Set<Seq<char>>, ps: Seq<Seq<char>>)
    ensures
        forall|i: int, j: int|
            0 <= i < j < ps.len() && #[trigger] fresh_at(start, ps, i) && #[trigger] fresh_at(start, ps, j) ==> ps[i] != ps[j],
        forall|i: int| 0 <= i < ps.len() && #[trigger] fresh_at(start, ps, i) ==> !start.contains(ps[i]),
{
    assert forall|i: int, j: int| 0 <= i < j < ps.len() && #[trigger] fresh_at(start, ps, i) && #[trigger] fresh_at(start, ps, j) implies ps[i]
        != ps[j] by {
        lemma_inserted_stays(start, ps, i, j);
    }
    assert forall|i: int| 0 <= i < ps.len() && #[trigger] fresh_at(start, ps, i) implies !start.contains(ps[i]) by {
        lemma_start_stays(start, ps.take(i));
    }
}

/// What a set held at the start it still holds after inserts.
proof fn lemma_start_stays(start: Set<Seq<char>>, ps: Seq<Seq<char>>)
    ensures
        start.subset_of(after_inserts(start, ps)),
    decreases ps.len(),
{
    if ps.len() > 0 {
        lemma_start_stays(start, ps.drop_last());
    }
}

} // verus!
