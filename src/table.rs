use vstd::prelude::*;

verus! {

/// A table as rows of text cells; the first row is the header.
#[derive(Debug, PartialEq, Eq)]
pub struct CanonicalTable {
    pub rows: Vec<Vec<String>>,
}

/// Rows of cells, each cell a sequence of characters.
pub type TableView = Seq<Seq<Seq<char>>>;

impl View for CanonicalTable {
    type V = TableView;

    open spec fn view(&self) -> TableView {
        self.rows.deep_view()
    }
}

/// Every cell holds at least one character.
pub open spec fn cells_nonempty(t: TableView) -> bool {
    forall|i: int, j: int|
        0 <= i < t.len() && 0 <= j < t[i].len() ==> #[trigger] t[i][j].len() > 0
}

impl CanonicalTable {
    pub open spec fn well_formed(&self) -> bool {
        cells_nonempty(self@)
    }

    pub fn new(rows: Vec<Vec<String>>) -> (r: CanonicalTable)
        ensures
            r@ == rows.deep_view(),
    {
        CanonicalTable { rows }
    }
}

} // verus!
