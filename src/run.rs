use vstd::prelude::*;
use crate::codec::{encode_table, serialize};
use crate::diff::{DiffResult, DiffView, diff, diff_spec};
use crate::extract::{ExtractionError, NodeView, PageTables, extract, extract_spec};
use crate::html::{page_of, read_page, selectors_accepted};
use crate::snapshot::{LoadError, SnapshotStore, StoreView, load_spec, lookup};

verus! {

/// Which table of a page holds a named dataset.
#[derive(Debug)]
pub struct TableSpec {
    pub name: String,
    pub index: usize,
}

impl View for TableSpec {
    type V = (Seq<char>, usize);

    open spec fn view(&self) -> (Seq<char>, usize) {
        (self.name@, self.index)
    }
}

impl TableSpec {
    pub fn new(name: &str, index: usize) -> (r: TableSpec)
        ensures
            r@ == (name@, index),
    {
        TableSpec { name: name.to_owned(), index }
    }
}

/// The monitored tables: supported runtimes in the first table of the page,
/// deprecated runtimes in the third.
pub fn default_specs() -> (r: Vec<TableSpec>)
    ensures
        r@.len() == 2,
        r@[0]@ == ("supported_runtimes"@, 0usize),
        r@[1]@ == ("deprecated_runtimes"@, 2usize),
{
    let mut specs: Vec<TableSpec> = Vec::new();
    specs.push(TableSpec::new("supported_runtimes", 0));
    specs.push(TableSpec::new("deprecated_runtimes", 2));
    specs
}

/// The outcome of a whole run.
#[derive(Clone, Copy, Debug, PartialEq, Eq, Structural)]
pub enum Verdict {
    NoChanges,
    ChangesDetected,
}

impl Verdict {
    /// The status text of a run.
    pub fn message(&self) -> (r: &'static str)
        ensures
            *self == Verdict::NoChanges ==> r@ == "NO CHANGES"@,
            *self == Verdict::ChangesDetected ==> r@ == "CHANGES DETECTED"@,
    {
        match self {
            Verdict::NoChanges => "NO CHANGES",
            Verdict::ChangesDetected => "CHANGES DETECTED",
        }
    }
}

/// Why a run stopped without a report.
#[derive(Clone, Copy, Debug, PartialEq, Eq, Structural)]
pub enum RunError {
    Extraction(ExtractionError),
    SnapshotNotFound,
    MalformedSnapshot,
}

/// The comparison of one table with its baseline.
#[derive(Debug)]
pub struct TableReport {
    pub name: String,
    pub result: DiffResult,
}

/// The verdict of a run and the comparison of each table, in configured order.
#[derive(Debug)]
pub struct RunReport {
    pub verdict: Verdict,
    pub tables: Vec<TableReport>,
}

pub type ReportView = Seq<(Seq<char>, DiffView)>;

impl View for RunReport {
    type V = (Verdict, ReportView);

    open spec fn view(&self) -> (Verdict, ReportView) {
        (self.verdict, self.tables@.map_values(|t: TableReport| (t.name@, t.result@)))
    }
}

/// One table taken from the page, its baseline loaded, and the two canonical texts compared.
pub open spec fn table_outcome(page: Seq<NodeView>, spec: (Seq<char>, usize), store: StoreView) -> Result<
    DiffView,
    RunError,
> {
    match extract_spec(page, spec.1 as int) {
        Err(e) => Err(RunError::Extraction(e)),
        Ok(candidate) => match load_spec(store, spec.0) {
            Err(LoadError::NotFound) => Err(RunError::SnapshotNotFound),
            Err(LoadError::Malformed) => Err(RunError::MalformedSnapshot),
            Ok(baseline) => Ok(diff_spec(encode_table(baseline), encode_table(candidate))),
        },
    }
}

/// Each table in order; the first failure ends the run.
pub open spec fn run_spec(page: Seq<NodeView>, specs: Seq<(Seq<char>, usize)>, store: StoreView) -> Result<
    ReportView,
    RunError,
>
    decreases specs.len(),
{
    if specs.len() == 0 {
        Ok(seq![])
    } else {
        match run_spec(page, specs.drop_last(), store) {
            Err(e) => Err(e),
            Ok(done) => match table_outcome(page, specs.last(), store) {
                Err(e) => Err(e),
                Ok(d) => Ok(done.push((specs.last().0, d))),
            },
        }
    }
}

/// Changes are detected when any table changed.
pub open spec fn verdict_of(tables: ReportView) -> Verdict {
    if exists|i: int| 0 <= i < tables.len() && (#[trigger] tables[i]).1.0 {
        Verdict::ChangesDetected
    } else {
        Verdict::NoChanges
    }
}

/// A table whose content equals its stored baseline reports no change.
pub proof fn lemma_unchanged_table(page: Seq<NodeView>, spec: (Seq<char>, usize), store: StoreView)
    requires
        extract_spec(page, spec.1 as int) is Ok,
        load_spec(store, spec.0) == Ok::<_, LoadError>(extract_spec(page, spec.1 as int)->Ok_0),
    ensures
        table_outcome(page, spec, store) == Ok::<DiffView, RunError>((false, seq![])),
{
}

/// A table index past the tables of the page fails the table as missing.
pub proof fn lemma_missing_table(page: Seq<NodeView>, spec: (Seq<char>, usize), store: StoreView)
    requires
        spec.1 >= page.len(),
    ensures
        table_outcome(page, spec, store) == Err::<DiffView, RunError>(
            RunError::Extraction(ExtractionError::MissingTable),
        ),
{
}

/// A table found on the page but with no stored baseline fails as a missing snapshot.
pub proof fn lemma_missing_snapshot(page: Seq<NodeView>, spec: (Seq<char>, usize), store: StoreView)
    requires
        extract_spec(page, spec.1 as int) is Ok,
        lookup(store, spec.0) is None,
    ensures
        table_outcome(page, spec, store) == Err::<DiffView, RunError>(RunError::SnapshotNotFound),
{
}

pub open spec fn specs_view(specs: Seq<TableSpec>) -> Seq<(Seq<char>, usize)> {
    specs.map_values(|s: TableSpec| s@)
}

proof fn lemma_failure_ends_run(page: Seq<NodeView>, specs: Seq<(Seq<char>, usize)>, store: StoreView, i: int, e: RunError)
    requires
        0 <= i <= specs.len(),
        run_spec(page, specs.take(i), store) == Err::<ReportView, RunError>(e),
    ensures
        run_spec(page, specs, store) == Err::<ReportView, RunError>(e),
    decreases specs.len(),
{
    if i == specs.len() {
        assert(specs.take(i) =~= specs);
    } else {
        assert(specs.drop_last().take(i) =~= specs.take(i));
        lemma_failure_ends_run(page, specs.drop_last(), store, i, e);
    }
}

/// The run stops at the first table that fails: when the tables before it complete,
/// the whole run fails with that table's error and gives no report.
pub proof fn lemma_run_stops_at_failure(
    page: Seq<NodeView>,
    specs: Seq<(Seq<char>, usize)>,
    store: StoreView,
    k: int,
    e: RunError,
)
    requires
        0 <= k < specs.len(),
        run_spec(page, specs.take(k), store) is Ok,
        table_outcome(page, specs[k], store) == Err::<DiffView, RunError>(e),
    ensures
        run_spec(page, specs, store) == Err::<ReportView, RunError>(e),
{
    assert(specs.take(k + 1).drop_last() =~= specs.take(k));
    assert(specs.take(k + 1).last() == specs[k]);
    lemma_failure_ends_run(page, specs, store, k + 1, e);
}

/// Compares each configured table of a page with its stored baseline.
pub fn run_page(page: &PageTables, specs: &Vec<TableSpec>, store: &SnapshotStore) -> (r: Result<RunReport, RunError>)
    ensures
        match r {
            Ok(rep) => run_spec(page@, specs_view(specs@), store@) == Ok::<ReportView, RunError>(rep@.1)
                && rep@.0 == verdict_of(rep@.1),
            Err(e) => run_spec(page@, specs_view(specs@), store@) == Err::<ReportView, RunError>(e),
        },
{
    let ghost sv = specs_view(specs@);
    let mut tables: Vec<TableReport> = Vec::new();
    let mut changed = false;
    let mut i: usize = 0;
    assert(sv.take(0) =~= Seq::<(Seq<char>, usize)>::empty());
    assert(tables@.map_values(|t: TableReport| (t.name@, t.result@)) =~= Seq::<(Seq<char>, DiffView)>::empty());
    while i < specs.len()
        invariant
            sv == specs_view(specs@),
            i <= specs.len(),
            tables@.len() == i,
            run_spec(page@, sv.take(i as int), store@) == Ok::<ReportView, RunError>(
                tables@.map_values(|t: TableReport| (t.name@, t.result@)),
            ),
            changed == exists|k: int| 0 <= k < tables@.len() && (#[trigger] tables@[k]).result.changed,
        decreases specs.len() - i,
    {
        let spec = &specs[i];
        let ghost done = tables@.map_values(|t: TableReport| (t.name@, t.result@));
        assert(sv.take(i + 1).drop_last() =~= sv.take(i as int));
        assert(sv.take(i + 1).last() == spec@);
        let candidate = match extract(page, spec.index) {
            Ok(t) => t,
            Err(e) => {
                proof {
                    lemma_failure_ends_run(page@, sv, store@, i + 1, RunError::Extraction(e));
                }
                return Err(RunError::Extraction(e));
            },
        };
        let baseline = match store.load(spec.name.as_str()) {
            Ok(t) => t,
            Err(LoadError::NotFound) => {
                proof {
                    lemma_failure_ends_run(page@, sv, store@, i + 1, RunError::SnapshotNotFound);
                }
                return Err(RunError::SnapshotNotFound);
            },
            Err(LoadError::Malformed) => {
                proof {
                    lemma_failure_ends_run(page@, sv, store@, i + 1, RunError::MalformedSnapshot);
                }
                return Err(RunError::MalformedSnapshot);
            },
        };
        let candidate_text = serialize(&candidate);
        let baseline_text = serialize(&baseline);
        let result = diff(baseline_text.as_str(), candidate_text.as_str());
        let ghost d = result@;
        let ghost before = tables@;
        if result.changed {
            changed = true;
        }
        tables.push(TableReport { name: spec.name.clone(), result });
        proof {
            assert(tables@.map_values(|t: TableReport| (t.name@, t.result@)) =~= done.push((spec@.0, d)));
            if changed {
                if d.0 {
                    assert(tables@[before.len() as int].result.changed);
                } else {
                    let k = choose|k: int| 0 <= k < before.len() && (#[trigger] before[k]).result.changed;
                    assert(tables@[k] == before[k]);
                }
            } else {
                assert forall|k: int| 0 <= k < tables@.len() implies !(#[trigger] tables@[k]).result.changed by {
                    if k < before.len() {
                        assert(tables@[k] == before[k]);
                    }
                }
            }
        }
        i += 1;
    }
    assert(sv.take(specs.len() as int) =~= sv);
    let verdict = if changed {
        Verdict::ChangesDetected
    } else {
        Verdict::NoChanges
    };
    let rep = RunReport { verdict, tables };
    proof {
        let v = rep@.1;
        if changed {
            let k = choose|k: int| 0 <= k < rep.tables@.len() && (#[trigger] rep.tables@[k]).result.changed;
            assert(v[k].1.0);
        } else {
            assert forall|k: int| 0 <= k < v.len() implies !(#[trigger] v[k]).1.0 by {
                assert(!rep.tables@[k].result.changed);
            }
        }
    }
    Ok(rep)
}

/// Reads an HTML page and compares each configured table of it with its stored baseline.
pub fn run(document: &str, specs: &Vec<TableSpec>, store: &SnapshotStore) -> (r: Result<RunReport, RunError>)
    ensures
        !selectors_accepted() ==> r == Err::<RunReport, RunError>(RunError::Extraction(ExtractionError::Unreadable)),
        selectors_accepted() ==> match r {
            Ok(rep) => run_spec(page_of(document@), specs_view(specs@), store@) == Ok::<ReportView, RunError>(rep@.1)
                && rep@.0 == verdict_of(rep@.1),
            Err(e) => run_spec(page_of(document@), specs_view(specs@), store@) == Err::<ReportView, RunError>(e),
        },
{
    let page = match read_page(document) {
        Ok(p) => p,
        Err(e) => {
            return Err(RunError::Extraction(e));
        },
    };
    run_page(&page, specs, store)
}

} // verus!
