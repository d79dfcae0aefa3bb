use vstd::prelude::*;
use crate::text::{push_char, push_text, same_text};

verus! {

/// How a line of a line diff relates the baseline to the candidate.
#[derive(Clone, Copy, Debug, PartialEq, Eq, Structural)]
pub enum ChangeKind {
    Equal,
    Delete,
    Insert,
}

/// One line of a line diff, with its line terminator if it had one.
#[derive(Debug, PartialEq, Eq)]
pub struct DiffLine {
    pub kind: ChangeKind,
    pub text: String,
}

impl View for DiffLine {
    type V = (ChangeKind, Seq<char>);

    open spec fn view(&self) -> (ChangeKind, Seq<char>) {
        (self.kind, self.text@)
    }
}

/// Whether two canonical texts differ, and the line diff between them when they do.
#[derive(Debug, PartialEq, Eq)]
pub struct DiffResult {
    pub changed: bool,
    pub lines: Vec<DiffLine>,
}

pub type DiffView = (bool, Seq<(ChangeKind, Seq<char>)>);

impl View for DiffResult {
    type V = DiffView;

    open spec fn view(&self) -> DiffView {
        (self.changed, self.lines@.map_values(|l: DiffLine| l@))
    }
}

/// The minimal line diff that turns `old` into `new`, deletions before insertions.
pub uninterp spec fn line_changes_of(old: Seq<char>, new: Seq<char>) -> Seq<(ChangeKind, Seq<char>)>;

/// Relies on similar::TextDiff::from_lines and iter_all_changes: the line diff of two texts,
/// which depends on the texts alone.
#[verifier::external_body]
fn line_changes(old: &str, new: &str) -> (r: Vec<DiffLine>)
    ensures
        r@.map_values(|l: DiffLine| l@) == line_changes_of(old@, new@),
{
    similar::TextDiff::from_lines(old, new).iter_all_changes().map(|c| DiffLine {
        kind: match c.tag() {
            similar::ChangeTag::Equal => ChangeKind::Equal,
            similar::ChangeTag::Delete => ChangeKind::Delete,
            similar::ChangeTag::Insert => ChangeKind::Insert,
        },
        text: c.value().to_string(),
    }).collect()
}

/// No change for equal texts; otherwise the line diff.
pub open spec fn diff_spec(baseline: Seq<char>, candidate: Seq<char>) -> DiffView {
    if baseline == candidate {
        (false, seq![])
    } else {
        (true, line_changes_of(baseline, candidate))
    }
}

pub open spec fn marker(k: ChangeKind) -> char {
    match k {
        ChangeKind::Equal => ' ',
        ChangeKind::Delete => '-',
        ChangeKind::Insert => '+',
    }
}

/// A line of the rendered diff: its marker, its text, and a line feed where the text has none.
pub open spec fn render_line(l: (ChangeKind, Seq<char>)) -> Seq<char> {
    let t = l.1;
    if t.len() > 0 && t.last() == '\n' {
        seq![marker(l.0)] + t
    } else {
        seq![marker(l.0)] + t + seq!['\n']
    }
}

pub open spec fn render_lines(ls: Seq<(ChangeKind, Seq<char>)>) -> Seq<char>
    decreases ls.len(),
{
    if ls.len() == 0 {
        seq![]
    } else {
        render_lines(ls.drop_last()) + render_line(ls.last())
    }
}

/// Compares the canonical text of a baseline with that of a candidate.
pub fn diff(baseline: &str, candidate: &str) -> (r: DiffResult)
    ensures
        r@ == diff_spec(baseline@, candidate@),
{
    if same_text(baseline, candidate) {
        let lines: Vec<DiffLine> = Vec::new();
        let r = DiffResult { changed: false, lines };
        assert(r@.1 =~= seq![]);
        r
    } else {
        let lines = line_changes(baseline, candidate);
        DiffResult { changed: true, lines }
    }
}

impl ChangeKind {
    pub fn marker(&self) -> (r: char)
        ensures
            r == marker(*self),
    {
        match self {
            ChangeKind::Equal => ' ',
            ChangeKind::Delete => '-',
            ChangeKind::Insert => '+',
        }
    }
}

impl DiffResult {
    /// The diff as text, one marked line per line of the diff; empty when nothing changed.
    pub fn rendered(&self) -> (r: String)
        ensures
            r@ == render_lines(self@.1),
    {
        let ghost ls = self@.1;
        let mut out = String::new();
        let mut i: usize = 0;
        while i < self.lines.len()
            invariant
                ls == self@.1,
                i <= self.lines.len(),
                out@ == render_lines(ls.take(i as int)),
            decreases self.lines.len() - i,
        {
            let line = &self.lines[i];
            push_char(&mut out, line.kind.marker());
            push_text(&mut out, line.text.as_str());
            let n = line.text.as_str().unicode_len();
            if n == 0 || line.text.as_str().get_char(n - 1) != '\n' {
                push_char(&mut out, '\n');
            }
            assert(ls.take(i + 1).drop_last() =~= ls.take(i as int));
            assert(ls[i as int] == line@);
            assert(out@ =~= render_lines(ls.take(i + 1)));
            i += 1;
        }
        assert(ls.take(self.lines.len() as int) =~= ls);
        out
    }
}

/// Comparing a text with itself reports no change and renders nothing.
pub proof fn lemma_diff_identical(x: Seq<char>)
    ensures
        !diff_spec(x, x).0,
        render_lines(diff_spec(x, x).1) == Seq::<char>::empty(),
{
}

/// Whether a change is reported does not depend on which text is the baseline.
pub proof fn lemma_diff_symmetric(a: Seq<char>, b: Seq<char>)
    ensures
        diff_spec(a, b).0 == diff_spec(b, a).0,
{
}

/// A change is reported exactly when the texts differ.
pub proof fn lemma_diff_detects(a: Seq<char>, b: Seq<char>)
    ensures
        diff_spec(a, b).0 <==> a != b,
{
}

} // verus!
