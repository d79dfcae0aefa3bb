use vstd::prelude::*;
use crate::codec::{decode_table, deserialize};
use crate::table::{CanonicalTable, TableView};
use crate::text::same_text;

verus! {

/// Stored canonical texts by table name, newest first.
#[derive(Debug)]
pub struct SnapshotStore {
    pub entries: Vec<(String, String)>,
}

pub type StoreView = Seq<(Seq<char>, Seq<char>)>;

impl View for SnapshotStore {
    type V = StoreView;

    open spec fn view(&self) -> StoreView {
        self.entries@.map_values(|e: (String, String)| (e.0@, e.1@))
    }
}

/// The text of the first entry under `name`.
pub open spec fn lookup(entries: StoreView, name: Seq<char>) -> Option<Seq<char>>
    decreases entries.len(),
{
    if entries.len() == 0 {
        None
    } else if entries[0].0 == name {
        Some(entries[0].1)
    } else {
        lookup(entries.drop_first(), name)
    }
}

/// Why a stored table could not be loaded.
#[derive(Clone, Copy, Debug, PartialEq, Eq, Structural)]
pub enum LoadError {
    NotFound,
    Malformed,
}

/// The stored table under `name`.
pub open spec fn load_spec(entries: StoreView, name: Seq<char>) -> Result<TableView, LoadError> {
    match lookup(entries, name) {
        None => Err(LoadError::NotFound),
        Some(text) => match decode_table(text) {
            None => Err(LoadError::Malformed),
            Some(t) => Ok(t),
        },
    }
}

impl SnapshotStore {
    pub fn new() -> (r: SnapshotStore)
        ensures
            r@ == Seq::<(Seq<char>, Seq<char>)>::empty(),
    {
        let r = SnapshotStore { entries: Vec::new() };
        assert(r@ =~= Seq::<(Seq<char>, Seq<char>)>::empty());
        r
    }

    /// Stores the canonical text of the table `name`, in place of any earlier one.
    pub fn insert(&mut self, name: String, text: String)
        ensures
            final(self)@ == seq![(name@, text@)] + old(self)@,
            lookup(final(self)@, name@) == Some(text@),
    {
        let ghost before = self@;
        self.entries.insert(0, (name, text));
        assert(self@ =~= seq![(name@, text@)] + before);
    }

    /// The stored table under `name`.
    pub fn load(&self, name: &str) -> (r: Result<CanonicalTable, LoadError>)
        ensures
            match r {
                Ok(t) => load_spec(self@, name@) == Ok::<TableView, LoadError>(t@),
                Err(e) => load_spec(self@, name@) == Err::<TableView, LoadError>(e),
            },
    {
        let ghost v = self@;
        let mut i: usize = 0;
        assert(v.skip(0) =~= v);
        while i < self.entries.len()
            invariant
                v == self@,
                i <= self.entries.len(),
                lookup(v, name@) == lookup(v.skip(i as int), name@),
            decreases self.entries.len() - i,
        {
            let ghost rest = v.skip(i as int);
            assert(rest[0] == v[i as int]);
            assert(rest.drop_first() =~= v.skip(i + 1));
            if same_text(self.entries[i].0.as_str(), name) {
                return match deserialize(self.entries[i].1.as_str()) {
                    Ok(t) => Ok(t),
                    Err(_) => Err(LoadError::Malformed),
                };
            }
            i += 1;
        }
        assert(v.skip(i as int).len() == 0);
        Err(LoadError::NotFound)
    }
}

} // verus!
