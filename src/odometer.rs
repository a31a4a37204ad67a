use vstd::prelude::*;
use vstd::string::*;

verus! {

/// `i` is the first place at which `c` occurs in `alphabet`.
pub open spec fn is_first_index(alphabet: Seq<char>, c: char, i: int) -> bool {
    &&& 0 <= i < alphabet.len()
    &&& alphabet[i] == c
    &&& forall|j: int| 0 <= j < i ==> alphabet[j] != c
}

/// The digit that `c` stands for: its first place in `alphabet`. A character
/// that is not in the alphabet counts as the last digit, so it always carries.
pub open spec fn digit_of(alphabet: Seq<char>, c: char) -> int {
    if exists|i: int| is_first_index(alphabet, c, i) {
        choose|i: int| is_first_index(alphabet, c, i)
    } else {
        alphabet.len() - 1
    }
}

/// The symbol that follows `s`, counting like an odometer over `alphabet`:
/// the rightmost digit steps on; a last digit wraps to the first and carries,
/// and a carry out of the leftmost digit adds one more first digit in front.
pub open spec fn next_of(alphabet: Seq<char>, s: Seq<char>) -> Seq<char>
    decreases s.len(),
{
    if s.len() == 0 {
        seq![alphabet[0]]
    } else {
        let d = digit_of(alphabet, s.last());
        if d + 1 < alphabet.len() {
            s.drop_last().push(alphabet[d + 1])
        } else {
            next_of(alphabet, s.drop_last()).push(alphabet[0])
        }
    }
}

proof fn lemma_first_index_unique(alphabet: Seq<char>, c: char, i: int, j: int)
    requires
        is_first_index(alphabet, c, i),
        is_first_index(alphabet, c, j),
    ensures
        i == j,
{
}

/// The digit that `c` stands for in `alphabet`.
fn find_digit(alphabet: &str, alphabet_len: usize, c: char) -> (r: usize)
    requires
        alphabet_len == alphabet@.len(),
        alphabet_len > 0,
    ensures
        r == digit_of(alphabet@, c),
        r < alphabet_len,
{
    let mut i: usize = 0;
    while i < alphabet_len
        invariant
            i <= alphabet_len,
            alphabet_len == alphabet@.len(),
            forall|j: int| 0 <= j < i ==> alphabet@[j] != c,
        decreases alphabet_len - i,
    {
        if alphabet.get_char(i) == c {
            proof {
                assert(is_first_index(alphabet@, c, i as int));
                let k = choose|k: int| is_first_index(alphabet@, c, k);
                lemma_first_index_unique(alphabet@, c, i as int, k);
            }
            return i;
        }
        i += 1;
    }
    alphabet_len - 1
}

fn next_prefix(alphabet: &str, alphabet_len: usize, symbol: &str, n: usize) -> (r: String)
    requires
        alphabet_len == alphabet@.len(),
        alphabet_len > 0,
        n <= symbol@.len(),
    ensures
        r@ == next_of(alphabet@, symbol@.subrange(0, n as int)),
    decreases n,
{
    let s = Ghost(symbol@.subrange(0, n as int));
    if n == 0 {
        String::from_str(alphabet.substring_char(0, 1))
    } else {
        let d = find_digit(alphabet, alphabet_len, symbol.get_char(n - 1));
        assert(s@.drop_last() =~= symbol@.subrange(0, n - 1));
        if d + 1 < alphabet_len {
            let mut r = String::from_str(symbol.substring_char(0, n - 1));
            r.append(alphabet.substring_char(d + 1, d + 2));
            assert(r@ =~= s@.drop_last().push(alphabet@[d + 1]));
            r
        } else {
            let mut r = next_prefix(alphabet, alphabet_len, symbol, n - 1);
            r.append(alphabet.substring_char(0, 1));
            assert(r@ =~= next_of(alphabet@, s@.drop_last()).push(alphabet@[0]));
            r
        }
    }
}

/// The symbol that follows `symbol` in the order in which `alphabet` counts.
pub fn increment(alphabet: &str, symbol: &str) -> (r: String)
    requires
        alphabet@.len() > 0,
    ensures
        r@ == next_of(alphabet@, symbol@),
        symbol@.len() == 0 ==> r@ == seq![alphabet@[0]],
{
    let n = symbol.unicode_len();
    let alphabet_len = alphabet.unicode_len();
    assert(symbol@.subrange(0, n as int) =~= symbol@);
    next_prefix(alphabet, alphabet_len, symbol, n)
}


/// `base` to the power `k`.
pub open spec fn power(base: int, k: nat) -> int
    decreases k,
{
    if k == 0 {
        1
    } else {
        base * power(base, (k - 1) as nat)
    }
}

/// How many symbols are shorter than `k` characters, over `base` digits.
pub open spec fn shorter_count(base: int, k: nat) -> int
    decreases k,
{
    if k == 0 {
        0
    } else {
        shorter_count(base, (k - 1) as nat) + power(base, (k - 1) as nat)
    }
}

/// `s` read as a numeral whose digits are those of `alphabet`.
pub open spec fn value_of(alphabet: Seq<char>, s: Seq<char>) -> int
    decreases s.len(),
{
    if s.len() == 0 {
        0
    } else {
        value_of(alphabet, s.drop_last()) * alphabet.len() + digit_of(alphabet, s.last())
    }
}

/// The place of `s` in the counting order that starts at the empty symbol.
pub open spec fn rank_of(alphabet: Seq<char>, s: Seq<char>) -> int {
    shorter_count(alphabet.len() as int, s.len()) + value_of(alphabet, s)
}

/// An alphabet that counts: at least one digit, no digit twice.
pub open spec fn is_alphabet(alphabet: Seq<char>) -> bool {
    alphabet.len() > 0 && alphabet.no_duplicates()
}

/// `n` applications of the odometer step to `s`.
pub open spec fn next_n(alphabet: Seq<char>, s: Seq<char>, n: nat) -> Seq<char>
    decreases n,
{
    if n == 0 {
        s
    } else {
        next_of(alphabet, next_n(alphabet, s, (n - 1) as nat))
    }
}

proof fn lemma_digit_range(alphabet: Seq<char>, c: char)
    requires
        alphabet.len() > 0,
    ensures
        0 <= digit_of(alphabet, c) < alphabet.len(),
{
    if exists|i: int| is_first_index(alphabet, c, i) {
        let k = choose|i: int| is_first_index(alphabet, c, i);
        assert(is_first_index(alphabet, c, k));
    }
}

proof fn lemma_digit_at(alphabet: Seq<char>, i: int)
    requires
        is_alphabet(alphabet),
        0 <= i < alphabet.len(),
    ensures
        digit_of(alphabet, alphabet[i]) == i,
{
    let c = alphabet[i];
    assert(is_first_index(alphabet, c, i));
    let k = choose|k: int| is_first_index(alphabet, c, k);
    lemma_first_index_unique(alphabet, c, i, k);
}

proof fn lemma_power_positive(base: int, k: nat)
    requires
        base > 0,
    ensures
        power(base, k) > 0,
    decreases k,
{
    if k > 0 {
        lemma_power_positive(base, (k - 1) as nat);
        let p = power(base, (k - 1) as nat);
        assert(base * p > 0) by (nonlinear_arith)
            requires
                base > 0,
                p > 0,
        ;
    }
}

proof fn lemma_value_range(alphabet: Seq<char>, s: Seq<char>)
    requires
        alphabet.len() > 0,
    ensures
        0 <= value_of(alphabet, s) < power(alphabet.len() as int, s.len()),
    decreases s.len(),
{
    if s.len() > 0 {
        let base = alphabet.len() as int;
        let p = s.drop_last();
        lemma_value_range(alphabet, p);
        lemma_digit_range(alphabet, s.last());
        let v = value_of(alphabet, p);
        let d = digit_of(alphabet, s.last());
        let q = power(base, p.len());
        assert(0 <= v * base + d < base * q) by (nonlinear_arith)
            requires
                0 <= v < q,
                0 <= d < base,
        ;
    }
}

/// Symbols of `k` characters take the places from `shorter_count(k)` on, and
/// those places are as many as there are such symbols.
proof fn lemma_rank_range(alphabet: Seq<char>, s: Seq<char>)
    requires
        alphabet.len() > 0,
    ensures
        shorter_count(alphabet.len() as int, s.len()) <= rank_of(alphabet, s),
        rank_of(alphabet, s) < shorter_count(alphabet.len() as int, s.len() + 1),
{
    lemma_value_range(alphabet, s);
}

proof fn lemma_shorter_count_grows(base: int, j: nat, k: nat)
    requires
        base > 0,
        j < k,
    ensures
        shorter_count(base, j + 1) <= shorter_count(base, k),
    decreases k,
{
    if j + 1 < k {
        lemma_shorter_count_grows(base, j, (k - 1) as nat);
        lemma_power_positive(base, (k - 1) as nat);
    }
}

/// A symbol's length is fixed by its place in the counting order.
proof fn lemma_rank_fixes_length(alphabet: Seq<char>, s: Seq<char>, t: Seq<char>)
    requires
        alphabet.len() > 0,
        shorter_count(alphabet.len() as int, t.len()) <= rank_of(alphabet, s),
        rank_of(alphabet, s) < shorter_count(alphabet.len() as int, t.len() + 1),
    ensures
        s.len() == t.len(),
{
    let base = alphabet.len() as int;
    lemma_rank_range(alphabet, s);
    if s.len() < t.len() {
        lemma_shorter_count_grows(base, s.len(), t.len());
    } else if t.len() < s.len() {
        lemma_shorter_count_grows(base, t.len(), s.len());
    }
}

/// Each odometer step moves one place on in the counting order.
pub proof fn lemma_next_rank(alphabet: Seq<char>, s: Seq<char>)
    requires
        is_alphabet(alphabet),
    ensures
        rank_of(alphabet, next_of(alphabet, s)) == rank_of(alphabet, s) + 1,
        next_of(alphabet, s).len() == s.len() || next_of(alphabet, s).len() == s.len() + 1,
    decreases s.len(),
{
    let base = alphabet.len() as int;
    let r = next_of(alphabet, s);
    lemma_digit_at(alphabet, 0);
    if s.len() == 0 {
        assert(r.drop_last() =~= Seq::<char>::empty());
        assert(r.last() == alphabet[0]);
        assert(shorter_count(base, 1) == shorter_count(base, 0) + power(base, 0));
        assert(value_of(alphabet, r) == value_of(alphabet, r.drop_last()) * base + 0);
    } else {
        let p = s.drop_last();
        let d = digit_of(alphabet, s.last());
        lemma_digit_range(alphabet, s.last());
        if d + 1 < base {
            assert(r.drop_last() =~= p);
            lemma_digit_at(alphabet, d + 1);
            let v = value_of(alphabet, p);
            assert(v * base + (d + 1) == v * base + d + 1);
            assert(rank_of(alphabet, r) == rank_of(alphabet, s) + 1);
        } else {
            let t = next_of(alphabet, p);
            lemma_next_rank(alphabet, p);
            assert(r.drop_last() =~= t);
            let v = value_of(alphabet, p);
            let w = value_of(alphabet, t);
            lemma_value_range(alphabet, p);
            lemma_value_range(alphabet, t);
            let q = power(base, p.len());
            if t.len() == p.len() {
                assert(w == v + 1);
                assert(w * base == v * base + base) by (nonlinear_arith)
                    requires
                        w == v + 1,
                ;
                assert(rank_of(alphabet, r) == rank_of(alphabet, s) + 1);
            } else {
                assert(w == 0 && v == q - 1);
                assert(v * base + base - 1 == base * q - 1) by (nonlinear_arith)
                    requires
                        v == q - 1,
                ;
                assert(power(base, s.len()) == base * q);
                assert(shorter_count(base, r.len()) == shorter_count(base, s.len()) + base * q);
                assert(r.last() == alphabet[0]);
                assert(w * base == 0) by (nonlinear_arith)
                    requires
                        w == 0,
                ;
                assert(value_of(alphabet, r) == w * base + digit_of(alphabet, r.last()));
                assert(value_of(alphabet, r) == 0);
                assert(rank_of(alphabet, r) == rank_of(alphabet, s) + 1);
            }
        }
    }
}

/// The odometer never stands still: over an alphabet that counts, the next
/// symbol differs from the one it follows, and is as long or one longer.
pub proof fn lemma_next_differs(alphabet: Seq<char>, s: Seq<char>)
    requires
        is_alphabet(alphabet),
    ensures
        next_of(alphabet, s) != s,
        s.len() <= next_of(alphabet, s).len() <= s.len() + 1,
{
    lemma_next_rank(alphabet, s);
}

/// `n` steps move `n` places on in the counting order.
pub proof fn lemma_next_n_rank(alphabet: Seq<char>, s: Seq<char>, n: nat)
    requires
        is_alphabet(alphabet),
    ensures
        rank_of(alphabet, next_n(alphabet, s, n)) == rank_of(alphabet, s) + n,
    decreases n,
{
    if n > 0 {
        lemma_next_n_rank(alphabet, s, (n - 1) as nat);
        lemma_next_rank(alphabet, next_n(alphabet, s, (n - 1) as nat));
    }
}


/// The `i`-th odometer step from `s` adds a digit.
pub open spec fn grows_at(alphabet: Seq<char>, s: Seq<char>, i: nat) -> bool {
    next_n(alphabet, s, i).len() == next_n(alphabet, s, (i - 1) as nat).len() + 1
}

proof fn lemma_power_at_least_base(base: int, k: nat)
    requires
        base >= 1,
        k >= 1,
    ensures
        power(base, k) >= base,
    decreases k,
{
    if k > 1 {
        lemma_power_at_least_base(base, (k - 1) as nat);
        let p = power(base, (k - 1) as nat);
        assert(base * p >= base) by (nonlinear_arith)
            requires
                base >= 1,
                p >= base,
        ;
    } else {
        assert(power(base, 0) == 1);
    }
}

/// Within `n + 1` steps of `s`, each symbol has as many digits as `s` until the
/// place where symbols one digit longer begin, and one more from there on.
proof fn lemma_step_length(alphabet: Seq<char>, s: Seq<char>, i: nat)
    requires
        is_alphabet(alphabet),
        alphabet.len() >= 2,
        s.len() >= 1,
        i <= alphabet.len() + 1,
    ensures
        rank_of(alphabet, s) + i < shorter_count(alphabet.len() as int, s.len() + 1)
            ==> next_n(alphabet, s, i).len() == s.len(),
        rank_of(alphabet, s) + i >= shorter_count(alphabet.len() as int, s.len() + 1)
            ==> next_n(alphabet, s, i).len() == s.len() + 1,
{
    let base = alphabet.len() as int;
    let k = s.len();
    let t = next_n(alphabet, s, i);
    lemma_next_n_rank(alphabet, s, i);
    lemma_rank_range(alphabet, s);
    if rank_of(alphabet, s) + i < shorter_count(base, k + 1) {
        lemma_rank_fixes_length(alphabet, t, s);
    } else {
        lemma_power_at_least_base(base, k);
        let p = power(base, k);
        assert(base * p >= base + 2) by (nonlinear_arith)
            requires
                base >= 2,
                p >= base,
        ;
        assert(power(base, k + 1) == base * p);
        assert(shorter_count(base, k + 2) == shorter_count(base, k + 1) + power(base, k + 1));
        lemma_rank_fixes_length(alphabet, t, s.push(alphabet[0]));
    }
}

/// Over an alphabet of `n >= 2` digits, counting on `n + 1` steps from a
/// non-empty symbol that lies within `n + 1` steps of the last symbol of its
/// length, the symbol grows by one digit at exactly one of those steps: the
/// odometer wraps once.
pub proof fn lemma_wraps_once(alphabet: Seq<char>, s: Seq<char>)
    requires
        is_alphabet(alphabet),
        alphabet.len() >= 2,
        s.len() >= 1,
        shorter_count(alphabet.len() as int, s.len() + 1) <= rank_of(alphabet, s) + alphabet.len() + 1,
    ensures
        exists|j: nat|
            1 <= j <= alphabet.len() + 1 && #[trigger] grows_at(alphabet, s, j) && forall|i: nat|
                1 <= i <= alphabet.len() + 1 && i != j ==> !#[trigger] grows_at(alphabet, s, i),
{
    let base = alphabet.len() as int;
    lemma_rank_range(alphabet, s);
    let j = (shorter_count(base, s.len() + 1) - rank_of(alphabet, s)) as nat;
    lemma_step_length(alphabet, s, j);
    lemma_step_length(alphabet, s, (j - 1) as nat);
    assert forall|i: nat| 1 <= i <= alphabet.len() + 1 && i != j implies !grows_at(alphabet, s, i) by {
        lemma_step_length(alphabet, s, i);
        lemma_step_length(alphabet, s, (i - 1) as nat);
    }
    assert(grows_at(alphabet, s, j));
}

/// A one-digit symbol always lies within `n + 1` steps of the last one-digit
/// symbol, so counting on from it the odometer wraps exactly once in `n + 1` steps.
pub proof fn lemma_single_wrap(alphabet: Seq<char>, s: Seq<char>)
    requires
        is_alphabet(alphabet),
        alphabet.len() >= 2,
        s.len() == 1,
    ensures
        exists|j: nat|
            1 <= j <= alphabet.len() + 1 && #[trigger] grows_at(alphabet, s, j) && forall|i: nat|
                1 <= i <= alphabet.len() + 1 && i != j ==> !#[trigger] grows_at(alphabet, s, i),
{
    let base = alphabet.len() as int;
    lemma_digit_range(alphabet, s.last());
    assert(s.drop_last().len() == 0);
    assert(value_of(alphabet, s.drop_last()) == 0);
    assert(0 * base == 0);
    assert(power(base, 0) == 1);
    assert(power(base, 1) == base * power(base, 0));
    assert(shorter_count(base, 1) == shorter_count(base, 0) + power(base, 0));
    assert(shorter_count(base, 2) == shorter_count(base, 1) + power(base, 1));
    lemma_wraps_once(alphabet, s);
}

} // verus!
