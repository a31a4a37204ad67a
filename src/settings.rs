use crate::table::{
    entries_map, keys_distinct, redirects_of, table_entries, table_get, table_insert,
    table_with_capacity,
};
use dashmap::DashMap;
use vstd::prelude::*;
use vstd::string::*;

verus! {

/// Room set aside in a new redirect table.
pub const INITIAL_CAPACITY: usize = 80;

/// The file that holds the store when none is configured.
pub const DEFAULT_DATA_SOURCE: &'static str = "data.json";

/// The configured path of the store's file, or the default one.
pub fn data_source(configured: Option<String>) -> (r: String)
    ensures
        configured is Some ==> r@ == configured->0@,
        configured is None ==> r@ == DEFAULT_DATA_SOURCE@,
{
    match configured {
        Some(path) => path,
        None => String::from_str(DEFAULT_DATA_SOURCE),
    }
}

/// The ways in which an operation on the store can fail.
#[derive(Debug, Clone, Copy, PartialEq, Eq, Structural)]
pub enum StoreError {
    /// No redirect is registered under the symbol.
    NotFound,
    /// The stored document could not be read or parsed.
    StorageLoadFailed,
    /// The store could not be written out.
    StorageSaveFailed,
    /// Every candidate symbol is already taken.
    AllocationExhausted,
    /// The cursor's lock was abandoned by a task that failed while holding it.
    LockPoisoned,
}

/// The redirect table together with the cursor: the last symbol handed out.
pub struct JsonSettings {
    pub redirects: DashMap<String, String>,
    pub last_symbol: String,
}

/// The store as plain values, in the shape in which it is written out.
pub struct StoreSnapshot {
    pub redirects: Vec<(String, String)>,
    pub last_symbol: String,
}

impl JsonSettings {
    /// Each symbol of the table mapped to its destination.
    pub open spec fn table(&self) -> Map<Seq<char>, Seq<char>> {
        redirects_of(self.redirects)
    }

    /// The last symbol handed out.
    pub open spec fn cursor(&self) -> Seq<char> {
        self.last_symbol@
    }

    /// An empty table and an empty cursor.
    pub fn new() -> (r: JsonSettings)
        ensures
            r.table().dom() == Set::<Seq<char>>::empty(),
            r.cursor() == Seq::<char>::empty(),
    {
        JsonSettings { redirects: table_with_capacity(INITIAL_CAPACITY), last_symbol: String::new() }
    }

    /// The store that `snapshot` describes.
    pub fn from_snapshot(snapshot: StoreSnapshot) -> (r: JsonSettings)
        ensures
            r.table() == entries_map(snapshot.redirects@),
            r.cursor() == snapshot.last_symbol@,
    {
        let mut redirects = table_with_capacity(INITIAL_CAPACITY);
        let entries = &snapshot.redirects;
        let mut i: usize = 0;
        assert(redirects_of(redirects) =~= entries_map(entries@.subrange(0, 0)));
        while i < entries.len()
            invariant
                i <= entries@.len(),
                redirects_of(redirects) == entries_map(entries@.subrange(0, i as int)),
            decreases entries.len() - i,
        {
            let key = entries[i].0.clone();
            let value = entries[i].1.clone();
            table_insert(&mut redirects, key, value);
            assert(entries@.subrange(0, i + 1).drop_last() =~= entries@.subrange(0, i as int));
            i += 1;
        }
        assert(entries@.subrange(0, i as int) =~= entries@);
        JsonSettings { redirects, last_symbol: snapshot.last_symbol }
    }

    /// The store's contents as plain values: each entry once, and the cursor.
    pub fn snapshot(&self) -> (r: StoreSnapshot)
        ensures
            keys_distinct(r.redirects@),
            entries_map(r.redirects@) == self.table(),
            r.last_symbol@ == self.cursor(),
    {
        StoreSnapshot { redirects: table_entries(&self.redirects), last_symbol: self.last_symbol.clone() }
    }

    /// The store that was loaded, or an empty one where loading failed.
    pub fn restore(loaded: Option<StoreSnapshot>) -> (r: JsonSettings)
        ensures
            loaded is Some ==> r.table() == entries_map(loaded->0.redirects@),
            loaded is Some ==> r.cursor() == loaded->0.last_symbol@,
            loaded is None ==> r.table().dom() == Set::<Seq<char>>::empty(),
            loaded is None ==> r.cursor() == Seq::<char>::empty(),
    {
        match loaded {
            Some(snapshot) => JsonSettings::from_snapshot(snapshot),
            None => JsonSettings::new(),
        }
    }

    /// The destination registered under `symbol`.
    pub fn resolve(&self, symbol: &str) -> (r: Result<String, StoreError>)
        ensures
            r is Ok <==> self.table().contains_key(symbol@),
            r is Ok ==> r->Ok_0@ == self.table()[symbol@],
            r is Err ==> r->Err_0 == StoreError::NotFound,
    {
        match table_get(&self.redirects, symbol) {
            Some(destination) => Ok(destination),
            None => Err(StoreError::NotFound),
        }
    }

    /// Registers `destination` under the chosen `symbol`, replacing what was
    /// there, and hands the symbol back.
    pub fn register(&mut self, symbol: &str, destination: &str) -> (r: String)
        ensures
            r@ == symbol@,
            final(self).table() == old(self).table().insert(symbol@, destination@),
            final(self).cursor() == old(self).cursor(),
    {
        add_redirect(self, symbol, destination);
        String::from_str(symbol)
    }
}

/// Maps `key` to `value` in the store's table, replacing what was there.
pub fn add_redirect(settings: &mut JsonSettings, key: &str, value: &str)
    ensures
        final(settings).table() == old(settings).table().insert(key@, value@),
        final(settings).cursor() == old(settings).cursor(),
{
    table_insert(&mut settings.redirects, String::from_str(key), String::from_str(value));
}


/// Loading a saved store gives back the same table and the same cursor:
/// `saved` is what `snapshot` reports of `store`, and `loaded` is what
/// `from_snapshot` builds from it.
pub proof fn lemma_save_load_round_trip(store: JsonSettings, saved: StoreSnapshot, loaded: JsonSettings)
    requires
        keys_distinct(saved.redirects@),
        entries_map(saved.redirects@) == store.table(),
        saved.last_symbol@ == store.cursor(),
        loaded.table() == entries_map(saved.redirects@),
        loaded.cursor() == saved.last_symbol@,
    ensures
        loaded.table() == store.table(),
        loaded.cursor() == store.cursor(),
{
}

/// A registered symbol resolves to its destination, and registering it again
/// with another destination replaces the first.
pub proof fn lemma_register_then_resolve(
    table: Map<Seq<char>, Seq<char>>,
    symbol: Seq<char>,
    first: Seq<char>,
    second: Seq<char>,
)
    ensures
        table.insert(symbol, first).contains_key(symbol),
        table.insert(symbol, first)[symbol] == first,
        table.insert(symbol, first).insert(symbol, second).contains_key(symbol),
        table.insert(symbol, first).insert(symbol, second)[symbol] == second,
{
}

/// A symbol that was never registered does not resolve: an empty table holds
/// none, and registering other symbols adds none.
pub proof fn lemma_unregistered_not_found(
    symbol: Seq<char>,
    others: Seq<(Seq<char>, Seq<char>)>,
)
    requires
        forall|i: int| 0 <= i < others.len() ==> (#[trigger] others[i]).0 != symbol,
    ensures
        !registered_all(Map::empty(), others).contains_key(symbol),
    decreases others.len(),
{
    if others.len() > 0 {
        lemma_unregistered_not_found(symbol, others.drop_last());
    }
}

/// The table after registering each (symbol, destination) pair in turn.
pub open spec fn registered_all(
    table: Map<Seq<char>, Seq<char>>,
    pairs: Seq<(Seq<char>, Seq<char>)>,
) -> Map<Seq<char>, Seq<char>>
    decreases pairs.len(),
{
    if pairs.len() == 0 {
        table
    } else {
        registered_all(table, pairs.drop_last()).insert(pairs.last().0, pairs.last().1)
    }
}

} // verus!
