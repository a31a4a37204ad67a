use crate::id::{hash_candidates, is_first_free_prefix, next_symbol_by_hash, FIRST_PREFIX_LEN};
use crate::odometer::{
    increment, is_alphabet, lemma_next_n_rank, lemma_next_rank, next_n, next_of, rank_of,
};
use crate::settings::{add_redirect, JsonSettings, StoreError};
use crate::table::{table_contains, table_len};
use vstd::prelude::*;
use vstd::set_lib::lemma_len_subset;
use vstd::string::*;

verus! {

/// `k` is the least number of odometer steps from `start` that reaches a
/// symbol free in `table`.
pub open spec fn is_first_free_step(
    alphabet: Seq<char>,
    table: Map<Seq<char>, Seq<char>>,
    start: Seq<char>,
    k: nat,
) -> bool {
    &&& k >= 1
    &&& !table.contains_key(next_n(alphabet, start, k))
    &&& forall|j: nat| 1 <= j < k ==> table.contains_key(#[trigger] next_n(alphabet, start, j))
}

/// Whether `alphabet` can count: it has a digit, and no digit twice.
pub fn is_valid_alphabet(alphabet: &str) -> (r: bool)
    ensures
        r == is_alphabet(alphabet@),
{
    let n = alphabet.unicode_len();
    if n == 0 {
        return false;
    }
    let mut i: usize = 0;
    while i < n
        invariant
            i <= n,
            n == alphabet@.len(),
            forall|a: int, b: int| 0 <= a < i && 0 <= b < n && a != b ==> alphabet@[a] != alphabet@[b],
        decreases n - i,
    {
        let c = alphabet.get_char(i);
        let mut j: usize = 0;
        while j < n
            invariant
                i < n,
                j <= n,
                n == alphabet@.len(),
                c == alphabet@[i as int],
                forall|b: int| 0 <= b < j && b != i ==> alphabet@[i as int] != alphabet@[b],
            decreases n - j,
        {
            if j != i && alphabet.get_char(j) == c {
                assert(!alphabet@.no_duplicates());
                return false;
            }
            j += 1;
        }
        i += 1;
    }
    true
}

/// Hands out the first symbol after the cursor, in counting order, that is
/// free in the table, and moves the cursor to it. Taken symbols on the way are
/// skipped. The table is not changed.
pub fn next_symbol_by_increment(settings: &mut JsonSettings, alphabet: &str) -> (r: String)
    requires
        is_alphabet(alphabet@),
    ensures
        final(settings).table() == old(settings).table(),
        !old(settings).table().contains_key(r@),
        exists|k: nat|
            is_first_free_step(alphabet@, old(settings).table(), old(settings).cursor(), k)
                && r@ == next_n(alphabet@, old(settings).cursor(), k),
        final(settings).cursor() == r@,
        rank_of(alphabet@, r@) > rank_of(alphabet@, old(settings).cursor()),
{
    let ghost table = settings.table();
    let ghost start = settings.cursor();
    let ghost a = alphabet@;
    let size = table_len(&settings.redirects);
    let mut candidate = increment(alphabet, settings.last_symbol.as_str());
    let ghost mut k: nat = 1;
    let ghost mut seen: Set<Seq<char>> = Set::empty();
    proof {
        assert(next_n(a, start, 0) == start);
        lemma_next_n_rank(a, start, 1);
    }
    while table_contains(&settings.redirects, candidate.as_str())
        invariant
            is_alphabet(a),
            a == alphabet@,
            settings.table() == table,
            settings.cursor() == start,
            table == old(settings).table(),
            start == old(settings).cursor(),
            table.dom().finite(),
            table.len() == size,
            k >= 1,
            candidate@ == next_n(a, start, k),
            rank_of(a, candidate@) == rank_of(a, start) + k,
            forall|j: nat| 1 <= j < k ==> table.contains_key(#[trigger] next_n(a, start, j)),
            seen.finite(),
            seen.len() == k - 1,
            seen.subset_of(table.dom()),
            forall|x: Seq<char>| seen.contains(x) ==> rank_of(a, x) < rank_of(a, candidate@),
        decreases size - seen.len(),
    {
        proof {
            assert(!seen.contains(candidate@));
            seen = seen.insert(candidate@);
            lemma_len_subset(seen, table.dom());
            lemma_next_rank(a, candidate@);
            k = k + 1;
        }
        candidate = increment(alphabet, candidate.as_str());
    }
    settings.last_symbol = candidate.clone();
    candidate
}

/// How fresh symbols are made: by counting on from the cursor, or from a keyed
/// hash of the cursor under a secret key.
pub enum SymbolGenerator {
    Sequential,
    Keyed([u8; 32]),
}

/// Hands out a fresh symbol with the chosen generator and registers
/// `destination` under it.
pub fn allocate(
    settings: &mut JsonSettings,
    generator: &SymbolGenerator,
    alphabet: &str,
    destination: &str,
) -> (r: Result<String, StoreError>)
    requires
        is_alphabet(alphabet@),
    ensures
        r is Ok ==> !old(settings).table().contains_key(r->Ok_0@),
        r is Ok ==> final(settings).table() == old(settings).table().insert(r->Ok_0@, destination@),
        r is Ok ==> final(settings).cursor() == r->Ok_0@,
        r is Err ==> final(settings).table() == old(settings).table(),
        r is Err ==> final(settings).cursor() == old(settings).cursor(),
        r is Err ==> r->Err_0 == StoreError::AllocationExhausted,
        generator is Sequential ==> r is Ok,
        generator is Sequential && r is Ok ==> exists|k: nat|
            is_first_free_step(alphabet@, old(settings).table(), old(settings).cursor(), k)
                && r->Ok_0@ == next_n(alphabet@, old(settings).cursor(), k),
        generator is Keyed ==> (r is Ok <==> exists|len: int|
            FIRST_PREFIX_LEN <= len < hash_candidates(alphabet@, generator->Keyed_0@, old(settings).cursor()).len()
                && !old(settings).table().contains_key(
                hash_candidates(alphabet@, generator->Keyed_0@, old(settings).cursor()).subrange(0, len),
            )),
        generator is Keyed && r is Ok ==> exists|len: int|
            is_first_free_prefix(
                hash_candidates(alphabet@, generator->Keyed_0@, old(settings).cursor()),
                old(settings).table(),
                len,
            ) && r->Ok_0@ == hash_candidates(alphabet@, generator->Keyed_0@, old(settings).cursor()).subrange(0, len),
{
    let symbol = match generator {
        SymbolGenerator::Sequential => next_symbol_by_increment(settings, alphabet),
        SymbolGenerator::Keyed(secret) => {
            match next_symbol_by_hash(settings, alphabet, secret) {
                Ok(symbol) => symbol,
                Err(e) => {
                    return Err(e);
                },
            }
        },
    };
    add_redirect(settings, symbol.as_str(), destination);
    Ok(symbol)
}


/// Started from cursor `x` with the next two symbols in counting order taken
/// and the third free, counting allocation hands out the third.
pub proof fn lemma_skips_two_taken(
    alphabet: Seq<char>,
    table: Map<Seq<char>, Seq<char>>,
    x: Seq<char>,
)
    requires
        table.contains_key(next_n(alphabet, x, 1)),
        table.contains_key(next_n(alphabet, x, 2)),
        !table.contains_key(next_n(alphabet, x, 3)),
    ensures
        is_first_free_step(alphabet, table, x, 3),
        forall|k: nat| is_first_free_step(alphabet, table, x, k) ==> k == 3,
{
    assert forall|k: nat| is_first_free_step(alphabet, table, x, k) implies k == 3 by {
        if k > 3 {
            assert(table.contains_key(next_n(alphabet, x, 3)));
        }
    }
}

/// Places in counting order only grow along a run of counting allocations.
proof fn lemma_run_ranks(
    alphabet: Seq<char>,
    table: Map<Seq<char>, Seq<char>>,
    cursors: Seq<Seq<char>>,
    steps: Seq<nat>,
    i: int,
    j: int,
)
    requires
        is_alphabet(alphabet),
        cursors.len() == steps.len() + 1,
        forall|n: int|
            0 <= n < steps.len() ==> is_first_free_step(alphabet, table, cursors[n], #[trigger] steps[n])
                && cursors[n + 1] == next_n(alphabet, cursors[n], steps[n]),
        0 <= i < j < cursors.len(),
    ensures
        rank_of(alphabet, cursors[i]) < rank_of(alphabet, cursors[j]),
    decreases j - i,
{
    let n = j - 1;
    assert(is_first_free_step(alphabet, table, cursors[n], steps[n]));
    lemma_next_n_rank(alphabet, cursors[n], steps[n]);
    if i < n {
        lemma_run_ranks(alphabet, table, cursors, steps, i, n);
    }
}

/// Counting allocations against a table that does not change never hand out
/// the same symbol twice: `cursors[0]` is the cursor at the start, and each
/// later entry is the symbol that the next allocation handed out.
pub proof fn lemma_allocations_never_repeat(
    alphabet: Seq<char>,
    table: Map<Seq<char>, Seq<char>>,
    cursors: Seq<Seq<char>>,
    steps: Seq<nat>,
)
    requires
        is_alphabet(alphabet),
        cursors.len() == steps.len() + 1,
        forall|n: int|
            0 <= n < steps.len() ==> is_first_free_step(alphabet, table, cursors[n], #[trigger] steps[n])
                && cursors[n + 1] == next_n(alphabet, cursors[n], steps[n]),
    ensures
        forall|i: int, j: int| 0 <= i < j < cursors.len() ==> cursors[i] != cursors[j],
{
    assert forall|i: int, j: int| 0 <= i < j < cursors.len() implies cursors[i] != cursors[j] by {
        lemma_run_ranks(alphabet, table, cursors, steps, i, j);
    }
}

} // verus!
