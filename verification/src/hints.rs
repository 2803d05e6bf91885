//! Hint generation.
//!
//! Hints are short strings over a configured alphabet, one per window.  The
//! hint length is the smallest `L` with `alphabet_size ^ L >= window_count`,
//! and the candidate strings of that length are enumerated as the base-`a`
//! digits of a counter, each digit mapped through the alphabet read in
//! reverse.  `get_next_hint` walks the whole enumeration and keeps the last
//! candidate that is not already taken, so repeated calls hand out pairwise
//! distinct hints of the same length.

use vstd::prelude::*;
use vstd::arithmetic::power::pow;
use vstd::arithmetic::div_mod::{lemma_div_denominator, lemma_fundamental_div_mod};
use vstd::set_lib::{lemma_int_range, lemma_len_subset, set_int_range};

verus! {

/// Why hint generation can fail.
#[derive(Debug, PartialEq, Eq, Structural, Clone, Copy)]
pub enum HintError {
    /// The configured alphabet holds no characters.
    NoHintChars,
}

/// No character appears twice in the alphabet.
pub open spec fn distinct_chars(s: Seq<char>) -> bool {
    forall|p: int, q: int| 0 <= p < q < s.len() ==> s[p] != s[q]
}

/// `l` is the hint length for `count` windows over an alphabet of `a`
/// characters: the smallest length of at least one whose candidate space
/// covers the count.
pub open spec fn is_required_size(a: nat, count: nat, l: nat) -> bool {
    &&& l >= 1
    &&& pow(a as int, l) >= count
    &&& forall|k: nat| 1 <= k < l ==> pow(a as int, k) < count
}

/// There is only one hint length for a given alphabet size and count.
pub proof fn lemma_required_size_unique(a: nat, count: nat, l1: nat, l2: nat)
    requires
        is_required_size(a, count, l1),
        is_required_size(a, count, l2),
    ensures
        l1 == l2,
{
    if l1 < l2 {
        assert(pow(a as int, l1) < count);
    }
    if l2 < l1 {
        assert(pow(a as int, l2) < count);
    }
}

proof fn lemma_required_size_exists_upto(a: nat, count: nat, l: nat)
    requires
        l >= 1,
        pow(a as int, l) >= count,
    ensures
        exists|l2: nat| is_required_size(a, count, l2),
    decreases l,
{
    if forall|k: nat| 1 <= k < l ==> pow(a as int, k) < count {
        assert(is_required_size(a, count, l));
    } else {
        let k = choose|k: nat| 1 <= k < l && pow(a as int, k) >= count;
        lemma_required_size_exists_upto(a, count, k);
    }
}

/// A hint length exists whenever the size loop terminates: either the
/// alphabet has at least two characters, or a single character suffices.
pub proof fn lemma_required_size_exists(a: nat, count: nat)
    requires
        a >= 2 || count <= a,
    ensures
        exists|l: nat| is_required_size(a, count, l),
{
    if count <= a {
        assert(pow(a as int, 1) == a) by {
            vstd::arithmetic::power::lemma_pow1(a as int);
        }
        lemma_required_size_exists_upto(a, count, 1);
    } else {
        lemma_pow_gt_exp(a, count);
        assert(pow(a as int, count) >= count);
        lemma_required_size_exists_upto(a, count, if count >= 1 {
            count
        } else {
            1
        });
    }
}

/// With at least two characters the candidate space outgrows the length.
proof fn lemma_pow_gt_exp(a: nat, l: nat)
    requires
        a >= 2,
    ensures
        pow(a as int, l) > l,
    decreases l,
{
    reveal(pow);
    if l > 0 {
        lemma_pow_gt_exp(a, (l - 1) as nat);
        let p = pow(a as int, (l - 1) as nat);
        assert(pow(a as int, l) == a * p);
        assert(a * p >= 2 * p) by (nonlinear_arith)
            requires
                a >= 2,
                p >= 1,
        ;
    }
}

/// Candidate hint number `i` among the strings of length `l`: the base-`a`
/// digits of `i`, most significant first, each mapped through the alphabet
/// read in reverse.
pub open spec fn candidate(alphabet: Seq<char>, l: nat, i: int) -> Seq<char>
    decreases l,
{
    if l == 0 {
        Seq::empty()
    } else {
        candidate(alphabet, (l - 1) as nat, i / alphabet.len() as int).push(
            alphabet[alphabet.len() - 1 - i % alphabet.len() as int],
        )
    }
}

pub proof fn lemma_candidate_len(alphabet: Seq<char>, l: nat, i: int)
    ensures
        candidate(alphabet, l, i).len() == l,
    decreases l,
{
    if l > 0 {
        lemma_candidate_len(alphabet, (l - 1) as nat, i / alphabet.len() as int);
    }
}

proof fn lemma_candidate_index(alphabet: Seq<char>, l: nat, i: int, pos: int)
    requires
        alphabet.len() >= 1,
        i >= 0,
        0 <= pos < l,
    ensures
        candidate(alphabet, l, i)[pos] == alphabet[alphabet.len() - 1 - ((i / pow(
            alphabet.len() as int,
            (l - 1 - pos) as nat,
        )) % alphabet.len() as int)],
    decreases l,
{
    reveal(pow);
    let a = alphabet.len() as int;
    lemma_candidate_len(alphabet, (l - 1) as nat, i / a);
    if pos == l - 1 {
        assert(pow(a, 0) == 1);
        assert(i / 1 == i);
    } else {
        assert(i / a >= 0) by {
            lemma_fundamental_div_mod(i, a);
            assert(a * (i / a) == i - i % a);
            assert(i - i % a >= 0);
            assert(a >= 1);
            if i / a < 0 {
                assert(a * (i / a) <= -a) by (nonlinear_arith)
                    requires
                        a >= 1,
                        i / a <= -1,
                ;
            }
        }
        lemma_candidate_index(alphabet, (l - 1) as nat, i / a, pos);
        let e = (l - 2 - pos) as nat;
        assert(pow(a, e) > 0) by {
            vstd::arithmetic::power::lemma_pow_positive(a, e);
        }
        lemma_div_denominator(i, a, pow(a, e));
        assert(a * pow(a, e) == pow(a, (l - 1 - pos) as nat));
    }
}

/// Distinct indices give distinct candidate strings, as long as no alphabet
/// character repeats.
proof fn lemma_candidate_injective(alphabet: Seq<char>, l: nat, i: int, j: int)
    requires
        distinct_chars(alphabet),
        alphabet.len() >= 1,
        0 <= i < pow(alphabet.len() as int, l),
        0 <= j < pow(alphabet.len() as int, l),
        i != j,
    ensures
        candidate(alphabet, l, i) != candidate(alphabet, l, j),
    decreases l,
{
    reveal(pow);
    let a = alphabet.len() as int;
    if l == 0 {
        assert(false);
    } else {
        let ci = candidate(alphabet, l, i);
        let cj = candidate(alphabet, l, j);
        lemma_candidate_len(alphabet, l, i);
        lemma_candidate_len(alphabet, l, j);
        let pi = candidate(alphabet, (l - 1) as nat, i / a);
        let pj = candidate(alphabet, (l - 1) as nat, j / a);
        lemma_candidate_len(alphabet, (l - 1) as nat, i / a);
        lemma_candidate_len(alphabet, (l - 1) as nat, j / a);
        lemma_fundamental_div_mod(i, a);
        lemma_fundamental_div_mod(j, a);
        if i % a != j % a {
            let di = a - 1 - i % a;
            let dj = a - 1 - j % a;
            assert(0 <= di < a && 0 <= dj < a);
            assert(alphabet[di] != alphabet[dj]);
            assert(ci[l - 1] != cj[l - 1]);
        } else {
            assert(i / a != j / a) by {
                if i / a == j / a {
                    assert(i == a * (i / a) + i % a);
                    assert(j == a * (j / a) + j % a);
                }
            }
            let hi = pow(a, (l - 1) as nat);
            assert(a * hi == pow(a, l));
            assert(i / a < hi && j / a < hi) by {
                if i / a >= hi {
                    assert(a * (i / a) >= a * hi) by (nonlinear_arith)
                        requires
                            a >= 1,
                            i / a >= hi,
                    ;
                    assert(i >= a * hi);
                }
                if j / a >= hi {
                    assert(a * (j / a) >= a * hi) by (nonlinear_arith)
                        requires
                            a >= 1,
                            j / a >= hi,
                    ;
                    assert(j >= a * hi);
                }
            }
            assert(i / a >= 0 && j / a >= 0) by {
                if i / a < 0 {
                    assert(a * (i / a) <= -a) by (nonlinear_arith)
                        requires
                            a >= 1,
                            i / a <= -1,
                    ;
                }
                if j / a < 0 {
                    assert(a * (j / a) <= -a) by (nonlinear_arith)
                        requires
                            a >= 1,
                            j / a <= -1,
                    ;
                }
            }
            lemma_candidate_injective(alphabet, (l - 1) as nat, i / a, j / a);
            if ci == cj {
                assert(pi =~= pj) by {
                    assert forall|k: int| 0 <= k < l - 1 implies pi[k] == pj[k] by {
                        assert(ci[k] == pi[k]);
                        assert(cj[k] == pj[k]);
                    }
                }
                assert(false);
            }
        }
    }
}

/// The views of the hint strings handed in.
pub open spec fn hint_views(v: Seq<&String>) -> Seq<Seq<char>> {
    Seq::new(v.len(), |i: int| v[i]@)
}

/// The views of a list of owned hint strings.
pub open spec fn string_views(v: Seq<String>) -> Seq<Seq<char>> {
    Seq::new(v.len(), |i: int| v[i]@)
}

/// The largest candidate index below `n` whose string is not yet used, or
/// -1 when every one of them is used.
pub open spec fn last_unused(alphabet: Seq<char>, existing: Seq<Seq<char>>, l: nat, n: int) -> int
    decreases n,
{
    if n <= 0 {
        -1
    } else if !existing.contains(candidate(alphabet, l, n - 1)) {
        n - 1
    } else {
        last_unused(alphabet, existing, l, n - 1)
    }
}

pub proof fn lemma_last_unused_props(
    alphabet: Seq<char>,
    existing: Seq<Seq<char>>,
    l: nat,
    n: int,
)
    ensures
        ({
            let r = last_unused(alphabet, existing, l, n);
            &&& r < n || r == -1
            &&& r >= 0 ==> r < n && !existing.contains(candidate(alphabet, l, r))
            &&& forall|k: int|
                r < k < n ==> existing.contains(#[trigger] candidate(alphabet, l, k))
        }),
    decreases n,
{
    if n > 0 && existing.contains(candidate(alphabet, l, n - 1)) {
        lemma_last_unused_props(alphabet, existing, l, n - 1);
    }
}

/// What `get_next_hint` hands back for hint length `l`: the last candidate
/// in enumeration order that is not yet used, or a string of the first
/// alphabet character when every candidate is taken.
pub open spec fn next_hint_spec(alphabet: Seq<char>, existing: Seq<Seq<char>>, l: nat) -> Seq<
    char,
> {
    let i = last_unused(alphabet, existing, l, pow(alphabet.len() as int, l));
    if i >= 0 {
        candidate(alphabet, l, i)
    } else {
        seq![alphabet[0]]
    }
}

/// The whole candidate space of the required hint length stays below
/// `2^128`: one length less did not yet cover the count.
proof fn lemma_required_pow_bound(a: nat, count: nat, l: nat)
    requires
        is_required_size(a, count, l),
        a < 0x10000000000000000,
        count < 0x10000000000000000,
    ensures
        pow(a as int, l) < 0x100000000000000000000000000000000,
{
    if l == 1 {
        vstd::arithmetic::power::lemma_pow1(a as int);
    } else {
        let e = (l - 1) as nat;
        assert(pow(a as int, e) < count);
        assert(pow(a as int, e) >= 0) by {
            if a == 0 {
                vstd::arithmetic::power::lemma0_pow(e);
            } else {
                vstd::arithmetic::power::lemma_pow_positive(a as int, e);
            }
        }
        assert(pow(a as int, l) == a * pow(a as int, e)) by {
            vstd::arithmetic::power::lemma_pow_adds(a as int, 1, e);
            vstd::arithmetic::power::lemma_pow1(a as int);
        }
        assert(a * pow(a as int, e) < 0x100000000000000000000000000000000) by (nonlinear_arith)
            requires
                0 <= a < 0x10000000000000000,
                0 <= pow(a as int, e) < 0x10000000000000000,
        ;
    }
}

/// The hint length for `max_count` windows over an alphabet of `a`
/// characters.
fn required_len(a: usize, max_count: usize) -> (l: usize)
    requires
        a >= 2 || max_count <= a,
    ensures
        is_required_size(a as nat, max_count as nat, l as nat),
{
    proof {
        vstd::arithmetic::power::lemma_pow1(a as int);
    }
    let mut l: usize = 1;
    let mut p: u128 = a as u128;
    while p < max_count as u128
        invariant
            a >= 2 || max_count <= a,
            1 <= l,
            p == pow(a as int, l as nat),
            forall|k: nat| 1 <= k < l ==> pow(a as int, k) < max_count,
        decreases max_count - l,
    {
        proof {
            assert(a >= 2) by {
                if a == 1 {
                    vstd::arithmetic::power::lemma1_pow(l as nat);
                }
            }
            lemma_pow_gt_exp(a as nat, l as nat);
            assert(l < p < max_count);
            assert(pow(a as int, (l + 1) as nat) == a * pow(a as int, l as nat)) by {
                vstd::arithmetic::power::lemma_pow_adds(a as int, 1, l as nat);
                vstd::arithmetic::power::lemma_pow1(a as int);
            }
            assert(p * (a as u128) == (a as int) * pow(a as int, l as nat)) by (nonlinear_arith)
                requires
                    p == pow(a as int, l as nat),
            ;
            assert(p * (a as u128) < 0x100000000000000000000000000000000) by (nonlinear_arith)
                requires
                    p < 0x10000000000000000,
                    a < 0x10000000000000000,
            ;
        }
        p = p * (a as u128);
        l = l + 1;
    }
    l
}

/// Build candidate string `i` of length `l`.  `pows[k]` must hold the
/// `k`-th power of the alphabet size.
fn build_candidate(alph: &Vec<char>, pows: &Vec<u128>, l: usize, i: u128) -> (r: String)
    requires
        alph@.len() >= 1,
        pows@.len() == l,
        forall|k: int| 0 <= k < l ==> pows@[k] == pow(alph@.len() as int, k as nat) && pows@[k]
            >= 1,
    ensures
        r@ == candidate(alph@, l as nat, i as int),
{
    let a = alph.len();
    let mut s = String::new();
    let mut j: usize = 0;
    while j < l
        invariant
            a == alph@.len(),
            a >= 1,
            pows@.len() == l,
            forall|k: int| 0 <= k < l ==> pows@[k] == pow(alph@.len() as int, k as nat) && pows@[k]
                >= 1,
            j <= l,
            s@.len() == j,
            forall|pos: int| 0 <= pos < j ==> s@[pos] == candidate(alph@, l as nat, i as int)[pos],
        decreases l - j,
    {
        let d128: u128 = (i / pows[l - 1 - j]) % (a as u128);
        let d = d128 as usize;
        proof {
            lemma_candidate_index(alph@, l as nat, i as int, j as int);
        }
        let c = alph[a - 1 - d];
        crate::text::push_char(&mut s, c);
        j = j + 1;
    }
    proof {
        lemma_candidate_len(alph@, l as nat, i as int);
        assert(s@ =~= candidate(alph@, l as nat, i as int));
    }
    s
}

/// Whether one of the hints already handed out reads `s`.
fn contains_hint(v: &Vec<&String>, s: &str) -> (r: bool)
    ensures
        r == hint_views(v@).contains(s@),
{
    let n = v.len();
    let mut j: usize = 0;
    while j < n
        invariant
            n == v@.len(),
            j <= n,
            forall|k: int| 0 <= k < j ==> v@[k]@ != s@,
        decreases n - j,
    {
        if crate::text::str_eq(v[j].as_str(), s) {
            proof {
                assert(hint_views(v@)[j as int] == s@);
            }
            return true;
        }
        j = j + 1;
    }
    proof {
        if hint_views(v@).contains(s@) {
            let k = choose|k: int| 0 <= k < v@.len() && hint_views(v@)[k] == s@;
            assert(v@[k]@ == s@);
        }
    }
    false
}

/// Find a hint not yet present in `current_hints`: the last string in the
/// enumeration of all hints of the required length that is not already
/// taken.  Falls back to the first alphabet character when every candidate
/// is taken, and fails only when the alphabet is empty.
pub fn get_next_hint(current_hints: Vec<&String>, hint_chars: &str, max_count: usize) -> (r:
    Result<String, HintError>)
    requires
        hint_chars@.len() >= 2 || max_count <= hint_chars@.len(),
    ensures
        (r is Err) == (hint_chars@.len() == 0),
        r matches Err(e) ==> e == HintError::NoHintChars,
        r matches Ok(h) ==> exists|l: nat|
            #[trigger] is_required_size(hint_chars@.len(), max_count as nat, l) && h@
                == next_hint_spec(hint_chars@, hint_views(current_hints@), l),
{
    let alph = crate::text::str_chars(hint_chars);
    let a = alph.len();
    let l = required_len(a, max_count);
    if a == 0 {
        return Err(HintError::NoHintChars);
    }
    // powers of the alphabet size, up to the hint length
    let ghost ai = a as int;
    let mut pows: Vec<u128> = Vec::new();
    let mut cur: u128 = 1;
    let mut k: usize = 0;
    proof {
        reveal(pow);
        lemma_required_pow_bound(a as nat, max_count as nat, l as nat);
    }
    while k < l
        invariant
            a == alph@.len(),
            a >= 1,
            ai == a as int,
            is_required_size(a as nat, max_count as nat, l as nat),
            pow(ai, l as nat) < 0x100000000000000000000000000000000,
            k <= l,
            cur == pow(ai, k as nat),
            cur >= 1,
            pows@.len() == k,
            forall|m: int| 0 <= m < k ==> pows@[m] == pow(ai, m as nat) && pows@[m] >= 1,
        decreases l - k,
    {
        pows.push(cur);
        proof {
            vstd::arithmetic::power::lemma_pow_increases(a as nat, (k + 1) as nat, l as nat);
            vstd::arithmetic::power::lemma_pow_positive(ai, (k + 1) as nat);
            assert(pow(ai, (k + 1) as nat) == ai * pow(ai, k as nat)) by {
                vstd::arithmetic::power::lemma_pow_adds(ai, 1, (k) as nat);
                vstd::arithmetic::power::lemma_pow1(ai);
            }
            assert(pow(ai, (k + 1) as nat) <= pow(ai, l as nat));
            assert(cur * (a as u128) == ai * pow(ai, k as nat)) by (nonlinear_arith)
                requires
                    cur == pow(ai, k as nat),
                    ai == a as int,
            ;
            assert(cur * (a as u128) == pow(ai, (k + 1) as nat));
        }
        cur = cur * (a as u128);
        k = k + 1;
    }
    let total: u128 = cur;
    proof {
        assert(total == pow(ai, l as nat));
    }
    let mut ret = String::new();
    crate::text::push_char(&mut ret, alph[0]);
    let ghost existing = hint_views(current_hints@);
    let ghost mut best: int = -1;
    proof {
        assert(ret@ =~= seq![alph@[0]]);
    }
    let mut i: u128 = 0;
    while i < total
        invariant
            a == alph@.len(),
            a >= 1,
            ai == a as int,
            total == pow(ai, l as nat),
            existing == hint_views(current_hints@),
            pows@.len() == l,
            forall|m: int| 0 <= m < l ==> pows@[m] == pow(ai, m as nat) && pows@[m] >= 1,
            i <= total,
            best == last_unused(alph@, existing, l as nat, i as int),
            ret@ == (if best >= 0 {
                candidate(alph@, l as nat, best)
            } else {
                seq![alph@[0]]
            }),
        decreases total - i,
    {
        let cand = build_candidate(&alph, &pows, l, i);
        if !contains_hint(&current_hints, cand.as_str()) {
            ret = cand;
            proof {
                best = i as int;
            }
        }
        proof {
            assert(last_unused(alph@, existing, l as nat, i + 1) == (
            if !existing.contains(candidate(alph@, l as nat, i as int)) {
                i as int
            } else {
                last_unused(alph@, existing, l as nat, i as int)
            }));
        }
        i = i + 1;
    }
    proof {
        assert(hint_chars@ == alph@);
        assert(ret@ == next_hint_spec(hint_chars@, existing, l as nat));
        assert(is_required_size(hint_chars@.len(), max_count as nat, l as nat));
    }
    Ok(ret)
}

/// Assign hints to `count` windows by repeated calls of `get_next_hint`:
/// `count` pairwise distinct hints, all of the required length.
pub fn generate_hints(count: usize, hint_chars: &str) -> (r: Result<Vec<String>, HintError>)
    requires
        hint_chars@.len() >= 2 || count <= hint_chars@.len(),
        distinct_chars(hint_chars@),
    ensures
        (r is Err) == (hint_chars@.len() == 0 && count > 0),
        r matches Ok(hints) ==> {
            &&& hints@.len() == count
            &&& (count > 0 ==> exists|l: nat|
                {
                    &&& #[trigger] is_required_size(hint_chars@.len(), count as nat, l)
                    &&& forall|k: int| 0 <= k < count ==> hints@[k]@.len() == l
                    &&& forall|k: int|
                        0 <= k < count ==> hints@[k]@ == next_hint_spec(
                            hint_chars@,
                            string_views(hints@.take(k)),
                            l,
                        )
                })
            &&& forall|p: int, q: int| 0 <= p < q < count ==> hints@[p]@ != hints@[q]@
        },
{
    let mut hints: Vec<String> = Vec::new();
    if count == 0 {
        return Ok(hints);
    }
    if hint_chars.unicode_len() == 0 {
        return Err(HintError::NoHintChars);
    }
    let ghost alphabet = hint_chars@;
    let ghost a = alphabet.len();
    proof {
        lemma_required_size_exists(a, count as nat);
    }
    let ghost l = choose|l: nat| is_required_size(a, count as nat, l);
    let ghost total = pow(a as int, l);
    let ghost mut idxs: Seq<int> = Seq::empty();
    let mut w: usize = 0;
    while w < count
        invariant
            alphabet == hint_chars@,
            a == alphabet.len(),
            a >= 1,
            distinct_chars(alphabet),
            hint_chars@.len() >= 2 || count <= hint_chars@.len(),
            is_required_size(a, count as nat, l),
            total == pow(a as int, l),
            count <= total,
            w <= count,
            hints@.len() == w,
            idxs.len() == w,
            forall|k: int| 0 <= k < w ==> 0 <= #[trigger] idxs[k] < total && hints@[k]@
                == candidate(alphabet, l, idxs[k]),
            forall|k: int|
                0 <= k < w ==> #[trigger] hints@[k]@ == next_hint_spec(
                    alphabet,
                    string_views(hints@.take(k)),
                    l,
                ),
            forall|p: int, q: int| 0 <= p < q < w ==> hints@[p]@ != hints@[q]@,
        decreases count - w,
    {
        let mut refs: Vec<&String> = Vec::new();
        let m = hints.len();
        let mut k: usize = 0;
        while k < m
            invariant
                m == hints@.len(),
                k <= m,
                refs@.len() == k,
                forall|j: int| 0 <= j < k ==> refs@[j]@ == hints@[j]@,
            decreases m - k,
        {
            refs.push(&hints[k]);
            k = k + 1;
        }
        let ghost existing = hint_views(refs@);
        proof {
            assert(existing.len() == w);
            assert(forall|j: int| 0 <= j < w ==> existing[j] == hints@[j]@);
        }
        let h = match get_next_hint(refs, hint_chars, count) {
            Ok(h) => h,
            Err(e) => {
                proof {
                    assert(false);
                }
                return Err(e);
            },
        };
        proof {
            let l2 = choose|l2: nat|
                is_required_size(a, count as nat, l2) && h@ == next_hint_spec(
                    alphabet,
                    existing,
                    l2,
                );
            lemma_required_size_unique(a, count as nat, l2, l);
            assert(h@ == next_hint_spec(alphabet, existing, l));
            lemma_unused_index_exists(idxs, total);
            let fresh = choose|i: int| 0 <= i < total && !idxs.contains(i);
            assert(!existing.contains(candidate(alphabet, l, fresh))) by {
                if existing.contains(candidate(alphabet, l, fresh)) {
                    let m0 = choose|m0: int|
                        0 <= m0 < existing.len() && existing[m0] == candidate(
                            alphabet,
                            l,
                            fresh,
                        );
                    assert(existing[m0] == candidate(alphabet, l, idxs[m0]));
                    if idxs[m0] != fresh {
                        lemma_candidate_injective(alphabet, l, idxs[m0], fresh);
                    }
                    assert(idxs[m0] == fresh);
                    assert(idxs.contains(idxs[m0]));
                    assert(false);
                }
            }
            lemma_last_unused_props(alphabet, existing, l, total);
            let r0 = last_unused(alphabet, existing, l, total);
            assert(r0 >= 0) by {
                if r0 < 0 {
                    assert(existing.contains(candidate(alphabet, l, fresh)));
                }
            }
            assert(h@ == candidate(alphabet, l, r0));
            assert(!existing.contains(h@));
            idxs = idxs.push(r0);
        }
        let ghost oldhints = hints@;
        hints.push(h);
        w = w + 1;
        proof {
            assert forall|p: int, q: int| 0 <= p < q < w implies hints@[p]@ != hints@[q]@ by {
                if q == w - 1 {
                    assert(existing[p] == oldhints[p]@);
                    assert(existing.contains(existing[p]));
                }
            }
            assert forall|k: int| 0 <= k < w implies #[trigger] hints@[k]@ == next_hint_spec(
                alphabet,
                string_views(hints@.take(k)),
                l,
            ) by {
                assert(hints@.take(k) =~= oldhints.take(k));
                if k < w - 1 {
                    assert(hints@[k] == oldhints[k]);
                    assert(oldhints[k]@ == next_hint_spec(
                        alphabet,
                        string_views(oldhints.take(k)),
                        l,
                    ));
                    assert(string_views(hints@.take(k)) =~= string_views(oldhints.take(k)));
                } else {
                    assert(string_views(hints@.take(k)) =~= existing);
                }
            }
        }
    }
    proof {
        assert forall|k: int| 0 <= k < count implies hints@[k]@.len() == l by {
            lemma_candidate_len(alphabet, l, idxs[k]);
        }
        assert(is_required_size(hint_chars@.len(), count as nat, l));
    }
    Ok(hints)
}

/// In a list of fewer than `n` indices some index below `n` is missing.
proof fn lemma_unused_index_exists(used: Seq<int>, n: int)
    requires
        used.len() < n,
    ensures
        exists|i: int| 0 <= i < n && !used.contains(i),
{
    broadcast use vstd::seq_lib::seq_to_set_is_finite;

    if !(exists|i: int| 0 <= i < n && !used.contains(i)) {
        assert forall|i: int| 0 <= i < n implies used.to_set().contains(i) by {
            assert(used.contains(i));
        }
        assert(set_int_range(0, n).subset_of(used.to_set()));
        lemma_int_range(0, n);
        used.lemma_cardinality_of_set();
        lemma_len_subset(set_int_range(0, n), used.to_set());
        assert(false);
    }
}

} // verus!
