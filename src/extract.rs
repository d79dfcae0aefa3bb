use vstd::prelude::*;
use crate::table::{CanonicalTable, TableView, cells_nonempty};

verus! {

/// A character of the Unicode White_Space property.
pub open spec fn is_white_space(c: char) -> bool {
    let n = c as u32;
    (9 <= n <= 13) || n == 32 || n == 0x85 || n == 0xa0 || n == 0x1680 || (0x2000 <= n <= 0x200a)
        || n == 0x2028 || n == 0x2029 || n == 0x202f || n == 0x205f || n == 0x3000
}

pub open spec fn trim_start(s: Seq<char>) -> Seq<char>
    decreases s.len(),
{
    if s.len() > 0 && is_white_space(s[0]) {
        trim_start(s.drop_first())
    } else {
        s
    }
}

pub open spec fn trim_end(s: Seq<char>) -> Seq<char>
    decreases s.len(),
{
    if s.len() > 0 && is_white_space(s.last()) {
        trim_end(s.drop_last())
    } else {
        s
    }
}

/// A text with the whitespace at both of its ends removed.
pub open spec fn trimmed(s: Seq<char>) -> Seq<char> {
    trim_end(trim_start(s))
}

/// Relies on str::trim: removes leading and trailing Unicode White_Space.
#[verifier::external_body]
fn trim_fragment(s: &str) -> (r: String)
    ensures
        r@ == trimmed(s@),
{
    s.trim().to_string()
}

/// The cells of a row: its text fragments trimmed, the empty ones dropped, in order.
pub open spec fn row_cells(frags: Seq<Seq<char>>) -> Seq<Seq<char>>
    decreases frags.len(),
{
    if frags.len() == 0 {
        seq![]
    } else if trimmed(frags.last()).len() == 0 {
        row_cells(frags.drop_last())
    } else {
        row_cells(frags.drop_last()).push(trimmed(frags.last()))
    }
}

/// Fragments of one row's text, in document order.
pub type FragmentsView = Seq<Seq<char>>;

/// A table element as read from a page: the text fragments of its first header row,
/// and those of each row of its first body section.
#[derive(Debug, PartialEq, Eq)]
pub struct TableNode {
    pub header: Option<Vec<String>>,
    pub body: Option<Vec<Vec<String>>>,
}

pub type NodeView = (Option<FragmentsView>, Option<Seq<FragmentsView>>);

impl View for TableNode {
    type V = NodeView;

    open spec fn view(&self) -> NodeView {
        (
            match self.header {
                Some(h) => Some(h.deep_view()),
                None => None,
            },
            match self.body {
                Some(b) => Some(b.deep_view()),
                None => None,
            },
        )
    }
}

/// The table elements of a page, in document order.
#[derive(Debug, PartialEq, Eq)]
pub struct PageTables {
    pub tables: Vec<TableNode>,
}

impl View for PageTables {
    type V = Seq<NodeView>;

    open spec fn view(&self) -> Seq<NodeView> {
        self.tables@.map_values(|t: TableNode| t@)
    }
}

/// Why a table could not be taken from a page.
#[derive(Clone, Copy, Debug, PartialEq, Eq, Structural)]
pub enum ExtractionError {
    /// The page has fewer tables than the index asks for.
    MissingTable,
    /// The table has no header row.
    MissingHeader,
    /// The table has no body section.
    MissingBody,
    /// The page could not be searched for tables.
    Unreadable,
}

/// The cells of each body row.
pub open spec fn body_cells(b: Seq<FragmentsView>) -> TableView {
    b.map_values(|r: FragmentsView| row_cells(r))
}

/// The table at `index`: its header row first, then each body row.
pub open spec fn extract_spec(page: Seq<NodeView>, index: int) -> Result<TableView, ExtractionError> {
    if index < 0 || index >= page.len() {
        Err(ExtractionError::MissingTable)
    } else {
        match page[index].0 {
            None => Err(ExtractionError::MissingHeader),
            Some(h) => match page[index].1 {
                None => Err(ExtractionError::MissingBody),
                Some(b) => Ok(seq![row_cells(h)] + body_cells(b)),
            },
        }
    }
}

proof fn lemma_row_cells_nonempty(frags: FragmentsView)
    ensures
        forall|j: int| 0 <= j < row_cells(frags).len() ==> #[trigger] row_cells(frags)[j].len() > 0,
    decreases frags.len(),
{
    if frags.len() > 0 {
        lemma_row_cells_nonempty(frags.drop_last());
        let front = row_cells(frags.drop_last());
        let t = trimmed(frags.last());
        if t.len() > 0 {
            assert forall|j: int| 0 <= j < front.push(t).len() implies #[trigger] front.push(t)[j].len() > 0 by {
                if j < front.len() {
                    assert(front.push(t)[j] == front[j]);
                }
            }
        }
    }
}

/// The cells of one row.
fn cells_of(frags: &Vec<String>) -> (r: Vec<String>)
    ensures
        r.deep_view() == row_cells(frags.deep_view()),
{
    let ghost f = frags.deep_view();
    let mut out: Vec<String> = Vec::new();
    let mut i: usize = 0;
    while i < frags.len()
        invariant
            f == frags.deep_view(),
            i <= frags.len(),
            out.deep_view() == row_cells(f.take(i as int)),
        decreases frags.len() - i,
    {
        let t = trim_fragment(frags[i].as_str());
        assert(f.take(i + 1).drop_last() =~= f.take(i as int));
        assert(f[i as int] == frags@[i as int]@);
        if t.as_str().unicode_len() > 0 {
            let ghost before = out.deep_view();
            out.push(t);
            assert(out.deep_view() =~= before.push(trimmed(f[i as int])));
        }
        i += 1;
    }
    assert(f.take(frags.len() as int) =~= f);
    out
}

/// Takes the table at `index` (counting from zero) out of a page.
pub fn extract(page: &PageTables, index: usize) -> (r: Result<CanonicalTable, ExtractionError>)
    ensures
        match r {
            Ok(t) => extract_spec(page@, index as int) == Ok::<TableView, ExtractionError>(t@)
                && t.well_formed(),
            Err(e) => extract_spec(page@, index as int) == Err::<TableView, ExtractionError>(e),
        },
{
    if index >= page.tables.len() {
        return Err(ExtractionError::MissingTable);
    }
    let node = &page.tables[index];
    assert(page@[index as int] == node@);
    let header = match &node.header {
        None => {
            return Err(ExtractionError::MissingHeader);
        },
        Some(h) => h,
    };
    let body = match &node.body {
        None => {
            return Err(ExtractionError::MissingBody);
        },
        Some(b) => b,
    };
    let ghost h = header.deep_view();
    let ghost b = body.deep_view();
    let mut rows: Vec<Vec<String>> = Vec::new();
    rows.push(cells_of(header));
    assert(body_cells(b.take(0)) =~= Seq::<Seq<Seq<char>>>::empty());
    assert(rows.deep_view() =~= seq![row_cells(h)] + body_cells(b.take(0)));
    let mut i: usize = 0;
    while i < body.len()
        invariant
            b == body.deep_view(),
            i <= body.len(),
            rows.deep_view() == seq![row_cells(h)] + body_cells(b.take(i as int)),
        decreases body.len() - i,
    {
        let ghost before = rows.deep_view();
        let cells = cells_of(&body[i]);
        let ghost c = cells.deep_view();
        rows.push(cells);
        assert(b[i as int] == body@[i as int].deep_view());
        assert(rows.deep_view() =~= before.push(c));
        assert(body_cells(b.take(i + 1)) =~= body_cells(b.take(i as int)).push(row_cells(b[i as int])));
        assert(rows.deep_view() =~= seq![row_cells(h)] + body_cells(b.take(i + 1)));
        i += 1;
    }
    assert(b.take(body.len() as int) =~= b);
    let t = CanonicalTable { rows };
    proof {
        let v = t@;
        assert forall|i: int, j: int| 0 <= i < v.len() && 0 <= j < v[i].len() implies
            #[trigger] v[i][j].len() > 0 by {
            if i == 0 {
                lemma_row_cells_nonempty(h);
            } else {
                lemma_row_cells_nonempty(b[i - 1]);
            }
        }
        assert(cells_nonempty(v));
    }
    Ok(t)
}

/// Two rows of fragments that differ only in whitespace: around fragments, or in
/// fragments that hold nothing else.
pub open spec fn same_up_to_whitespace(a: FragmentsView, b: FragmentsView) -> bool
    decreases a.len() + b.len(),
{
    if a.len() == 0 && b.len() == 0 {
        true
    } else if a.len() > 0 && trimmed(a.last()).len() == 0 {
        same_up_to_whitespace(a.drop_last(), b)
    } else if b.len() > 0 && trimmed(b.last()).len() == 0 {
        same_up_to_whitespace(a, b.drop_last())
    } else if a.len() > 0 && b.len() > 0 {
        trimmed(a.last()) == trimmed(b.last()) && same_up_to_whitespace(a.drop_last(), b.drop_last())
    } else {
        false
    }
}

/// Two pages whose tables differ only in whitespace inside their rows.
pub open spec fn pages_same_up_to_whitespace(p: Seq<NodeView>, q: Seq<NodeView>) -> bool {
    &&& p.len() == q.len()
    &&& forall|i: int| 0 <= i < p.len() ==> match (#[trigger] p[i].0, q[i].0) {
        (None, None) => true,
        (Some(x), Some(y)) => same_up_to_whitespace(x, y),
        _ => false,
    }
    &&& forall|i: int| 0 <= i < p.len() ==> match (#[trigger] p[i].1, q[i].1) {
        (None, None) => true,
        (Some(x), Some(y)) => x.len() == y.len() && forall|k: int|
            0 <= k < x.len() ==> same_up_to_whitespace(#[trigger] x[k], y[k]),
        _ => false,
    }
}

proof fn lemma_same_cells(a: FragmentsView, b: FragmentsView)
    requires
        same_up_to_whitespace(a, b),
    ensures
        row_cells(a) == row_cells(b),
    decreases a.len() + b.len(),
{
    if a.len() == 0 && b.len() == 0 {
    } else if a.len() > 0 && trimmed(a.last()).len() == 0 {
        lemma_same_cells(a.drop_last(), b);
    } else if b.len() > 0 && trimmed(b.last()).len() == 0 {
        lemma_same_cells(a, b.drop_last());
    } else {
        lemma_same_cells(a.drop_last(), b.drop_last());
    }
}

/// Whitespace around the text of cells, or between the fragments of a cell, does not
/// change the table that is taken from a page.
pub proof fn lemma_extract_ignores_whitespace(p: Seq<NodeView>, q: Seq<NodeView>, index: int)
    requires
        pages_same_up_to_whitespace(p, q),
    ensures
        extract_spec(p, index) == extract_spec(q, index),
{
    if 0 <= index < p.len() {
        assert(p[index].0 is Some <==> q[index].0 is Some);
        assert(p[index].1 is Some <==> q[index].1 is Some);
        if p[index].0 is Some && p[index].1 is Some {
            lemma_same_cells(p[index].0->0, q[index].0->0);
            let x = p[index].1->0;
            let y = q[index].1->0;
            assert forall|k: int| 0 <= k < x.len() implies row_cells(x[k]) == row_cells(y[k]) by {
                lemma_same_cells(x[k], y[k]);
            }
            assert(body_cells(x) =~= body_cells(y));
        }
    }
}

/// Taking the same table from the same page twice gives the same result.
pub proof fn lemma_extract_deterministic(p: Seq<NodeView>, q: Seq<NodeView>, index: int)
    requires
        p == q,
    ensures
        extract_spec(p, index) == extract_spec(q, index),
{
}

} // verus!
