use crate::auth::{digest_of, hash};
use crate::settings::{JsonSettings, StoreError};
use crate::table::table_contains;
use vstd::prelude::*;
use vstd::string::*;
use vstd::utf8::encode_utf8;

verus! {

/// The alphabet used when none is configured: upper case letters, then lower
/// case letters, then digits. Its order is the order in which symbols count.
pub const ALPHABET: &'static str = "ABCDEFGHIJKLMNOPQRSTUVWXYZabcdefghijklmnopqrstuvwxyz0123456789";

/// The shortest symbol that the keyed generator hands out; shorter ones are
/// left for symbols chosen by hand.
pub const FIRST_PREFIX_LEN: usize = 4;

/// The configured alphabet, or the default one where none is configured.
pub fn chosen_alphabet(configured: Option<String>) -> (r: String)
    ensures
        configured is Some ==> r@ == configured->0@,
        configured is None ==> r@ == ALPHABET@,
{
    match configured {
        Some(alphabet) => alphabet,
        None => String::from_str(ALPHABET),
    }
}

/// The key of the keyed generator, derived from the configured secret.
pub fn load_token_increment_secret(input: &str) -> (r: [u8; 32])
    ensures
        r@ == digest_of(encode_utf8(input@)),
{
    hash(input.as_bytes())
}

/// The keyed 32-byte BLAKE3 hash of `message` under `key`.
pub uninterp spec fn keyed_digest(key: Seq<u8>, message: Seq<u8>) -> Seq<u8>;

/// Relies on blake3::keyed_hash: the keyed hash of the message, a function of
/// the key and the message alone.
#[verifier::external_body]
fn keyed_hash(key: &[u8; 32], message: &[u8]) -> (r: [u8; 32])
    ensures
        r@ == keyed_digest(key@, message@),
{
    *blake3::keyed_hash(key, message).as_bytes()
}

/// Each byte of `digest` turned into the digit of `alphabet` that it selects
/// modulo the alphabet's length.
pub open spec fn derived_symbol(alphabet: Seq<char>, digest: Seq<u8>) -> Seq<char> {
    Seq::new(digest.len(), |i: int| alphabet[(digest[i] as int) % (alphabet.len() as int)])
}

/// The string whose prefixes are the keyed generator's candidates after `cursor`.
pub open spec fn hash_candidates(alphabet: Seq<char>, key: Seq<u8>, cursor: Seq<char>) -> Seq<char> {
    derived_symbol(alphabet, keyed_digest(key, encode_utf8(cursor)))
}

/// `len` is the shortest candidate length whose prefix of `derived` is free in
/// `table`; all shorter candidates are taken.
pub open spec fn is_first_free_prefix(
    derived: Seq<char>,
    table: Map<Seq<char>, Seq<char>>,
    len: int,
) -> bool {
    &&& FIRST_PREFIX_LEN <= len < derived.len()
    &&& !table.contains_key(derived.subrange(0, len))
    &&& forall|j: int|
        FIRST_PREFIX_LEN <= j < len ==> table.contains_key(#[trigger] derived.subrange(0, j))
}

/// The candidates that follow one symbol: ever longer prefixes of a string
/// derived from that symbol by a keyed hash.
pub struct IncrementedString {
    /// The length of the prefix handed out last.
    pub position: usize,
    /// The derived string.
    pub next_string: String,
}

impl IncrementedString {
    /// The position never passes the end of the derived string.
    pub open spec fn wf(&self) -> bool {
        self.position <= self.next_string@.len()
    }

    /// The candidates after `last_string`, before the first has been handed out.
    pub fn new(last_string: &str, increment_secret: &[u8; 32], alphabet: &str) -> (r:
        IncrementedString)
        requires
            alphabet@.len() > 0,
        ensures
            r.wf(),
            r.next_string@ == hash_candidates(alphabet@, increment_secret@, last_string@),
            r.position == FIRST_PREFIX_LEN - 1,
    {
        let digest = keyed_hash(increment_secret, last_string.as_bytes());
        let ghost derived = derived_symbol(alphabet@, digest@);
        let alphabet_len = alphabet.unicode_len();
        let mut next_string = String::new();
        let mut i: usize = 0;
        while i < 32
            invariant
                i <= 32,
                digest@.len() == 32,
                alphabet_len == alphabet@.len(),
                alphabet_len > 0,
                derived == derived_symbol(alphabet@, digest@),
                next_string@ == derived.subrange(0, i as int),
            decreases 32 - i,
        {
            let k = (digest[i] as usize) % alphabet_len;
            next_string.append(alphabet.substring_char(k, k + 1));
            assert(next_string@ =~= derived.subrange(0, i + 1));
            i += 1;
        }
        assert(next_string@ =~= derived);
        IncrementedString { position: FIRST_PREFIX_LEN - 1, next_string }
    }

    /// The next candidate, one character longer than the last; `None` once the
    /// prefixes shorter than the derived string are all handed out.
    pub fn next(&mut self) -> (r: Option<String>)
        requires
            old(self).wf(),
        ensures
            final(self).wf(),
            final(self).next_string == old(self).next_string,
            r is Some <==> old(self).position + 1 < old(self).next_string@.len(),
            r is Some ==> final(self).position == old(self).position + 1,
            r is Some ==> r->0@ == old(self).next_string@.subrange(0, old(self).position + 1),
    {
        if self.position < self.next_string.unicode_len() {
            self.position += 1;
        }
        if self.position < self.next_string.unicode_len() {
            Some(String::from_str(self.next_string.as_str().substring_char(0, self.position)))
        } else {
            None
        }
    }
}

/// Hands out the shortest free candidate after the cursor and moves the
/// cursor to it; fails when every candidate is taken. The table is not changed.
pub fn next_symbol_by_hash(
    settings: &mut JsonSettings,
    alphabet: &str,
    increment_secret: &[u8; 32],
) -> (r: Result<String, StoreError>)
    requires
        alphabet@.len() > 0,
    ensures
        final(settings).table() == old(settings).table(),
        r is Ok <==> exists|len: int|
            FIRST_PREFIX_LEN <= len < hash_candidates(alphabet@, increment_secret@, old(settings).cursor()).len()
                && !old(settings).table().contains_key(
                hash_candidates(alphabet@, increment_secret@, old(settings).cursor()).subrange(0, len),
            ),
        r is Ok ==> exists|len: int|
            is_first_free_prefix(
                hash_candidates(alphabet@, increment_secret@, old(settings).cursor()),
                old(settings).table(),
                len,
            ) && r->Ok_0@ == hash_candidates(alphabet@, increment_secret@, old(settings).cursor()).subrange(0, len),
        r is Ok ==> final(settings).cursor() == r->Ok_0@,
        r is Err ==> r->Err_0 == StoreError::AllocationExhausted,
        r is Err ==> final(settings).cursor() == old(settings).cursor(),
{
    let ghost table = settings.table();
    let ghost derived = hash_candidates(alphabet@, increment_secret@, settings.cursor());
    let mut inc = IncrementedString::new(settings.last_symbol.as_str(), increment_secret, alphabet);
    loop
        invariant
            inc.wf(),
            inc.next_string@ == derived,
            inc.position >= FIRST_PREFIX_LEN - 1,
            settings.table() == table,
            settings.cursor() == old(settings).cursor(),
            table == old(settings).table(),
            derived == hash_candidates(alphabet@, increment_secret@, old(settings).cursor()),
            forall|j: int|
                FIRST_PREFIX_LEN <= j <= inc.position && j < derived.len() ==> table.contains_key(
                    #[trigger] derived.subrange(0, j),
                ),
        decreases derived.len() - inc.position,
    {
        match inc.next() {
            None => {
                return Err(StoreError::AllocationExhausted);
            },
            Some(candidate) => {
                if !table_contains(&settings.redirects, candidate.as_str()) {
                    assert(is_first_free_prefix(derived, table, inc.position as int));
                    settings.last_symbol = candidate.clone();
                    return Ok(candidate);
                }
            },
        }
    }
}

} // verus!
