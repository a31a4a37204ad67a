//! A small URL shortener's core: short symbols, the redirect table they key,
//! and the rules by which fresh symbols are handed out.

mod allocation;
mod auth;
mod id;
mod odometer;
mod plaintext;
mod settings;
mod table;

pub use allocation::{
    allocate, is_first_free_step, is_valid_alphabet, lemma_allocations_never_repeat,
    lemma_skips_two_taken, next_symbol_by_increment, SymbolGenerator,
};
pub use auth::{
    bearer_header, check_authorization, check_digest, digest_of, load_correct_bearer_token_hash,
    BadAuthorization, AUTHORIZATION_FAILED,
};
pub use id::{
    chosen_alphabet, derived_symbol, hash_candidates, is_first_free_prefix, keyed_digest,
    load_token_increment_secret, next_symbol_by_hash, IncrementedString, ALPHABET,
    FIRST_PREFIX_LEN,
};
pub use odometer::{
    digit_of, grows_at, increment, is_alphabet, is_first_index, lemma_next_differs,
    lemma_next_n_rank, lemma_next_rank, lemma_single_wrap, lemma_wraps_once, next_n, next_of, power, rank_of,
    shorter_count, value_of,
};
pub use plaintext::{plaintext_body, CouldNotParsePlainText};
pub use settings::{
    add_redirect, data_source, lemma_register_then_resolve, lemma_save_load_round_trip,
    lemma_unregistered_not_found, registered_all, JsonSettings, StoreError, StoreSnapshot,
    DEFAULT_DATA_SOURCE, INITIAL_CAPACITY,
};
pub use table::{entries_map, holds_exactly, keys_distinct, redirects_of};
