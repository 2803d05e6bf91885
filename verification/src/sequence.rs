//! Chords of currently-held keys.
//!
//! A [`Sequence`] is a multiset of key-name tokens (such as `Control_L`,
//! `Shift_L` or `g`) kept in a canonical order: tokens are sorted
//! case-insensitively by their character codes (ASCII letters fold to lower
//! case for the comparison), with the raw character codes breaking ties.
//! Because the order is total, two sequences built by pressing the same keys
//! in any order hold the very same token list and compare equal.

use vstd::prelude::*;
use vstd::relations::{sorted_by, total_ordering};
use vstd::seq_lib::lemma_sorted_unique;

verus! {

/// Case-folded code of one character: ASCII upper-case letters map to their
/// lower-case code, everything else keeps its own code.
pub open spec fn fold_char(c: char) -> int {
    if 65 <= c as int && c as int <= 90 {
        c as int + 32
    } else {
        c as int
    }
}

/// The case-folded codes of a token.
pub open spec fn key_of(s: Seq<char>) -> Seq<int> {
    s.map_values(|c: char| fold_char(c))
}

/// The raw character codes of a token.
pub open spec fn code_of(s: Seq<char>) -> Seq<int> {
    s.map_values(|c: char| c as int)
}

/// Lexicographic order on code sequences.
pub open spec fn lex_le(a: Seq<int>, b: Seq<int>) -> bool
    decreases a.len(),
{
    if a.len() == 0 {
        true
    } else if b.len() == 0 {
        false
    } else if a[0] < b[0] {
        true
    } else if a[0] > b[0] {
        false
    } else {
        lex_le(a.drop_first(), b.drop_first())
    }
}

/// The canonical order on tokens: case-folded codes first, raw codes as the
/// tie-break.  This is a total order, so a sorted token list is unique for a
/// given multiset of tokens.
pub open spec fn token_le(a: Seq<char>, b: Seq<char>) -> bool {
    if key_of(a) == key_of(b) {
        lex_le(code_of(a), code_of(b))
    } else {
        lex_le(key_of(a), key_of(b))
    }
}

proof fn lemma_lex_le_refl(a: Seq<int>)
    ensures
        lex_le(a, a),
    decreases a.len(),
{
    if a.len() > 0 {
        lemma_lex_le_refl(a.drop_first());
    }
}

proof fn lemma_lex_le_antisym(a: Seq<int>, b: Seq<int>)
    requires
        lex_le(a, b),
        lex_le(b, a),
    ensures
        a =~= b,
    decreases a.len(),
{
    if a.len() > 0 && b.len() > 0 {
        lemma_lex_le_antisym(a.drop_first(), b.drop_first());
        assert(a =~= seq![a[0]] + a.drop_first());
        assert(b =~= seq![b[0]] + b.drop_first());
    }
}

proof fn lemma_lex_le_trans(a: Seq<int>, b: Seq<int>, c: Seq<int>)
    requires
        lex_le(a, b),
        lex_le(b, c),
    ensures
        lex_le(a, c),
    decreases a.len(),
{
    if a.len() > 0 && b.len() > 0 && c.len() > 0 && a[0] == b[0] && b[0] == c[0] {
        lemma_lex_le_trans(a.drop_first(), b.drop_first(), c.drop_first());
    }
}

proof fn lemma_lex_le_connected(a: Seq<int>, b: Seq<int>)
    ensures
        lex_le(a, b) || lex_le(b, a),
    decreases a.len(),
{
    if a.len() > 0 && b.len() > 0 {
        lemma_lex_le_connected(a.drop_first(), b.drop_first());
    }
}

/// Equal raw code sequences mean equal tokens.
proof fn lemma_code_of_injective(a: Seq<char>, b: Seq<char>)
    requires
        code_of(a) == code_of(b),
    ensures
        a =~= b,
{
    assert(a.len() == code_of(a).len());
    assert(b.len() == code_of(b).len());
    assert forall|i: int| 0 <= i < a.len() implies a[i] == b[i] by {
        assert(code_of(a)[i] == a[i] as int);
        assert(code_of(b)[i] == b[i] as int);
        assert(a[i] as int == b[i] as int);
    }
}

/// The token order as a binary relation value.
pub open spec fn token_order() -> spec_fn(Seq<char>, Seq<char>) -> bool {
    |a: Seq<char>, b: Seq<char>| token_le(a, b)
}

/// The canonical token order is a total order.
pub proof fn lemma_token_order_total()
    ensures
        total_ordering(token_order()),
{
    let r = token_order();
    assert forall|a: Seq<char>| #[trigger] r(a, a) by {
        lemma_lex_le_refl(code_of(a));
    }
    assert forall|a: Seq<char>, b: Seq<char>| #[trigger] r(a, b) && #[trigger] r(b, a) implies a
        == b by {
        if key_of(a) == key_of(b) {
            lemma_lex_le_antisym(code_of(a), code_of(b));
            lemma_code_of_injective(a, b);
        } else {
            lemma_lex_le_antisym(key_of(a), key_of(b));
        }
    }
    assert forall|a: Seq<char>, b: Seq<char>, c: Seq<char>|
        #[trigger] r(a, b) && #[trigger] r(b, c) implies r(a, c) by {
        if key_of(a) == key_of(b) && key_of(b) == key_of(c) {
            lemma_lex_le_trans(code_of(a), code_of(b), code_of(c));
        } else if key_of(a) == key_of(b) {
            assert(key_of(a) == key_of(b));
        } else if key_of(b) == key_of(c) {
            assert(lex_le(key_of(a), key_of(c)));
        } else {
            lemma_lex_le_trans(key_of(a), key_of(b), key_of(c));
            if key_of(a) == key_of(c) {
                lemma_lex_le_antisym(key_of(a), key_of(b));
            }
        }
    }
    assert forall|a: Seq<char>, b: Seq<char>| #[trigger] r(a, b) || #[trigger] r(b, a) by {
        if key_of(a) == key_of(b) {
            lemma_lex_le_connected(code_of(a), code_of(b));
        } else {
            lemma_lex_le_connected(key_of(a), key_of(b));
        }
    }
}

proof fn lemma_lex_le_skip(a: Seq<int>, b: Seq<int>, k: int)
    requires
        0 <= k <= a.len(),
        k <= b.len(),
        forall|j: int| 0 <= j < k ==> a[j] == b[j],
    ensures
        lex_le(a, b) == lex_le(a.skip(k), b.skip(k)),
    decreases k,
{
    if k == 0 {
        assert(a.skip(0) =~= a);
        assert(b.skip(0) =~= b);
    } else {
        assert(a[0] == b[0]);
        assert forall|j: int| 0 <= j < k - 1 implies a.drop_first()[j] == b.drop_first()[j] by {
            assert(a[j + 1] == b[j + 1]);
        }
        lemma_lex_le_skip(a.drop_first(), b.drop_first(), k - 1);
        assert(a.drop_first().skip(k - 1) =~= a.skip(k));
        assert(b.drop_first().skip(k - 1) =~= b.skip(k));
    }
}

/// Decide the canonical token order between two tokens.
pub fn token_le_exec(a: &str, b: &str) -> (r: bool)
    ensures
        r == token_le(a@, b@),
{
    let an = a.unicode_len();
    let bn = b.unicode_len();
    let mut i: usize = 0;
    // look for the first position where the case-folded codes differ
    while i < an && i < bn
        invariant
            an == a@.len(),
            bn == b@.len(),
            i <= an,
            i <= bn,
            forall|j: int| 0 <= j < i ==> key_of(a@)[j] == key_of(b@)[j],
        decreases an - i,
    {
        let ca = a.get_char(i);
        let cb = b.get_char(i);
        let cau = ca as u32;
        let cbu = cb as u32;
        let fa: u32 = if 65 <= cau && cau <= 90 {
            cau + 32
        } else {
            cau
        };
        let fb: u32 = if 65 <= cbu && cbu <= 90 {
            cbu + 32
        } else {
            cbu
        };
        proof {
            assert(fa == fold_char(a@[i as int]));
            assert(fb == fold_char(b@[i as int]));
            assert(key_of(a@)[i as int] == fold_char(a@[i as int]));
            assert(key_of(b@)[i as int] == fold_char(b@[i as int]));
        }
        if fa != fb {
            proof {
                lemma_lex_le_skip(key_of(a@), key_of(b@), i as int);
                assert(key_of(a@).skip(i as int)[0] == key_of(a@)[i as int]);
                assert(key_of(b@).skip(i as int)[0] == key_of(b@)[i as int]);
                assert(key_of(a@) != key_of(b@));
                assert(lex_le(key_of(a@), key_of(b@)) == (fa < fb));
            }
            return fa < fb;
        }
        i = i + 1;
    }
    // the case-folded codes agree on the common prefix
    if an != bn {
        proof {
            let k = if an < bn {
                an as int
            } else {
                bn as int
            };
            lemma_lex_le_skip(key_of(a@), key_of(b@), k);
            assert(key_of(a@) != key_of(b@));
            assert(lex_le(key_of(a@), key_of(b@)) == (an < bn));
        }
        return an < bn;
    }
    proof {
        assert(key_of(a@) =~= key_of(b@));
    }
    // identical case-folded codes: break the tie on the raw codes
    let mut i2: usize = 0;
    while i2 < an
        invariant
            an == a@.len(),
            bn == b@.len(),
            an == bn,
            i2 <= an,
            key_of(a@) == key_of(b@),
            forall|j: int| 0 <= j < i2 ==> code_of(a@)[j] == code_of(b@)[j],
        decreases an - i2,
    {
        let ca = a.get_char(i2);
        let cb = b.get_char(i2);
        if (ca as u32) != (cb as u32) {
            proof {
                assert(code_of(a@)[i2 as int] == a@[i2 as int] as int);
                assert(code_of(b@)[i2 as int] == b@[i2 as int] as int);
                lemma_lex_le_skip(code_of(a@), code_of(b@), i2 as int);
                assert(code_of(a@).skip(i2 as int)[0] == code_of(a@)[i2 as int]);
                assert(code_of(b@).skip(i2 as int)[0] == code_of(b@)[i2 as int]);
                assert(lex_le(code_of(a@), code_of(b@)) == ((ca as u32) < (cb as u32)));
            }
            return (ca as u32) < (cb as u32);
        }
        i2 = i2 + 1;
    }
    proof {
        assert(code_of(a@) =~= code_of(b@));
        lemma_lex_le_refl(code_of(a@));
    }
    true
}

/// The tokens of a `"+"`-delimited description, in the order written.
/// An empty description holds one empty token, as `str::split` would give.
pub open spec fn split_plus(s: Seq<char>) -> Seq<Seq<char>> {
    crate::text::split_at_sep(s, '+')
}

/// The token list with the first occurrence of `t` taken out, or unchanged
/// when `t` does not occur.
pub open spec fn seq_remove(s: Seq<Seq<char>>, t: Seq<char>) -> Seq<Seq<char>>
    decreases s.len(),
{
    if s.len() == 0 {
        s
    } else if s[0] == t {
        s.drop_first()
    } else {
        seq![s[0]] + seq_remove(s.drop_first(), t)
    }
}

proof fn lemma_seq_remove_at(s: Seq<Seq<char>>, t: Seq<char>, j: int)
    requires
        0 <= j < s.len(),
        s[j] == t,
        forall|k: int| 0 <= k < j ==> s[k] != t,
    ensures
        seq_remove(s, t) =~= s.remove(j),
    decreases j,
{
    if j == 0 {
        assert(s.drop_first() =~= s.remove(0));
    } else {
        assert(s[0] != t);
        assert forall|k: int| 0 <= k < j - 1 implies s.drop_first()[k] != t by {
            assert(s[k + 1] != t);
        }
        lemma_seq_remove_at(s.drop_first(), t, j - 1);
        s.remove_ensures(j);
        s.drop_first().remove_ensures(j - 1);
        assert(seq_remove(s, t) =~= s.remove(j));
    }
}

proof fn lemma_seq_remove_absent(s: Seq<Seq<char>>, t: Seq<char>)
    requires
        forall|k: int| 0 <= k < s.len() ==> s[k] != t,
    ensures
        seq_remove(s, t) =~= s,
    decreases s.len(),
{
    if s.len() > 0 {
        assert forall|k: int| 0 <= k < s.drop_first().len() implies s.drop_first()[k] != t by {
            assert(s[k + 1] != t);
        }
        lemma_seq_remove_absent(s.drop_first(), t);
    }
}

proof fn lemma_insert_keeps_sorted(v: Seq<Seq<char>>, idx: int, t: Seq<char>)
    requires
        sorted_by(v, token_order()),
        0 <= idx <= v.len(),
        forall|j: int| 0 <= j < idx ==> !token_le(t, v[j]),
        idx < v.len() ==> token_le(t, v[idx]),
    ensures
        sorted_by(v.insert(idx, t), token_order()),
{
    lemma_token_order_total();
    let r = token_order();
    v.insert_ensures(idx, t);
    let nv = v.insert(idx, t);
    assert forall|p: int, q: int| 0 <= p < q < nv.len() implies #[trigger] r(nv[p], nv[q]) by {
        if q < idx {
            assert(r(v[p], v[q]));
        } else if p == idx {
            assert(nv[q] == v[q - 1]);
            assert(r(t, v[idx]));
            if q - 1 > idx {
                assert(r(v[idx], v[q - 1]));
            }
            assert(r(t, v[q - 1]));
        } else if q == idx {
            assert(nv[p] == v[p]);
            assert(!token_le(t, v[p]));
            assert(r(v[p], t) || r(t, v[p]));
        } else if p < idx && q > idx {
            assert(nv[p] == v[p]);
            assert(nv[q] == v[q - 1]);
            if p < q - 1 {
                assert(r(v[p], v[q - 1]));
            }
        } else {
            assert(nv[p] == v[p - 1]);
            assert(nv[q] == v[q - 1]);
            assert(r(v[p - 1], v[q - 1]));
        }
    }
}

proof fn lemma_remove_keeps_sorted(v: Seq<Seq<char>>, j: int)
    requires
        sorted_by(v, token_order()),
        0 <= j < v.len(),
    ensures
        sorted_by(v.remove(j), token_order()),
{
    let r = token_order();
    v.remove_ensures(j);
    let nv = v.remove(j);
    assert forall|p: int, q: int| 0 <= p < q < nv.len() implies #[trigger] r(nv[p], nv[q]) by {
        let p0: int = if p < j {
            p
        } else {
            p + 1
        };
        let q0: int = if q < j {
            q
        } else {
            q + 1
        };
        assert(nv[p] == v[p0]);
        assert(nv[q] == v[q0]);
        assert(r(v[p0], v[q0]));
    }
}

/// Pushing a token onto a chord and then releasing that very token restores
/// the original chord exactly.  Here `pushed` stands for any token list that
/// `push` may leave behind: sorted, holding the old tokens plus `t`.
pub proof fn lemma_push_then_remove(s: Seq<Seq<char>>, pushed: Seq<Seq<char>>, t: Seq<char>)
    requires
        sorted_by(s, token_order()),
        sorted_by(pushed, token_order()),
        pushed.to_multiset() == s.to_multiset().insert(t),
    ensures
        seq_remove(pushed, t) == s,
{
    broadcast use vstd::seq_lib::group_to_multiset_ensures;
    broadcast use vstd::multiset::group_multiset_axioms;

    lemma_token_order_total();
    assert(pushed.to_multiset().count(t) > 0);
    assert(pushed.contains(t));
    pushed.index_of_first_ensures(t);
    let j = pushed.index_of_first(t).unwrap();
    lemma_seq_remove_at(pushed, t, j);
    lemma_remove_keeps_sorted(pushed, j);
    assert(pushed.remove(j).to_multiset() =~= s.to_multiset());
    lemma_sorted_unique(pushed.remove(j), s, token_order());
}

/// A chord is determined by its tokens alone: two canonically sorted token
/// lists holding the same multiset of tokens are the same list.  A chord
/// parsed from a `"+"`-delimited description therefore equals one built by
/// pushing the same keys one at a time, in any order.
pub proof fn lemma_same_tokens_same_chord(s1: Seq<Seq<char>>, s2: Seq<Seq<char>>)
    requires
        sorted_by(s1, token_order()),
        sorted_by(s2, token_order()),
        s1.to_multiset() == s2.to_multiset(),
    ensures
        s1 == s2,
{
    lemma_token_order_total();
    lemma_sorted_unique(s1, s2, token_order());
}

/// A chord: the multiset of key-name tokens currently held (or one of the
/// configured exit chords), kept sorted in the canonical token order.
#[derive(Debug, Clone)]
pub struct Sequence {
    sequence: Vec<String>,
}

impl View for Sequence {
    type V = Seq<Seq<char>>;

    closed spec fn view(&self) -> Seq<Seq<char>> {
        self.sequence@.map_values(|s: String| s@)
    }
}

impl Sequence {
    /// The token list is in the canonical order.
    pub open spec fn wf(&self) -> bool {
        sorted_by(self@, token_order())
    }

    /// Parse an optional `"+"`-delimited chord description.  The result is
    /// canonically sorted and holds exactly the tokens written.
    pub fn new(string: Option<&str>) -> (s: Sequence)
        ensures
            s.wf(),
            match string {
                Some(t) => s@.to_multiset() == split_plus(t@).to_multiset(),
                None => s@ == Seq::<Seq<char>>::empty(),
            },
    {
        match string {
            None => {
                let s = Sequence { sequence: Vec::new() };
                proof {
                    assert(s@ =~= Seq::<Seq<char>>::empty());
                }
                s
            },
            Some(t) => {
                let tokens = split_plus_exec(t);
                let mut s = Sequence { sequence: Vec::new() };
                proof {
                    broadcast use vstd::seq_lib::group_to_multiset_ensures;

                    assert(s@ =~= Seq::<Seq<char>>::empty());
                    assert(split_plus(t@).take(0) =~= Seq::<Seq<char>>::empty());
                }
                let n = tokens.len();
                let mut i: usize = 0;
                while i < n
                    invariant
                        n == tokens@.len(),
                        i <= n,
                        tokens@.map_values(|x: String| x@) == split_plus(t@),
                        s.wf(),
                        s@.to_multiset() == split_plus(t@).take(i as int).to_multiset(),
                    decreases n - i,
                {
                    let tok = tokens[i].clone();
                    proof {
                        broadcast use vstd::seq_lib::group_to_multiset_ensures;

                        assert(tok@ == split_plus(t@)[i as int]);
                        assert(split_plus(t@).take(i + 1) =~= split_plus(t@).take(
                            i as int,
                        ).push(split_plus(t@)[i as int]));
                    }
                    s.push(tok);
                    i = i + 1;
                }
                proof {
                    assert(split_plus(t@).take(split_plus(t@).len() as int) =~= split_plus(t@));
                }
                s
            },
        }
    }

    /// Add one held token, keeping the canonical order.
    pub fn push(&mut self, key: String)
        requires
            old(self).wf(),
        ensures
            final(self).wf(),
            final(self)@.to_multiset() == old(self)@.to_multiset().insert(key@),
            final(self)@.len() == old(self)@.len() + 1,
    {
        let ghost kv = key@;
        let n = self.sequence.len();
        let mut idx: usize = 0;
        while idx < n && !token_le_exec(key.as_str(), self.sequence[idx].as_str())
            invariant
                *self == *old(self),
                n == self.sequence@.len(),
                idx <= n,
                forall|j: int| 0 <= j < idx ==> !token_le(kv, self@[j]),
                kv == key@,
            decreases n - idx,
        {
            idx = idx + 1;
        }
        let ghost oldv = self@;
        let ghost olds = self.sequence@;
        let ghost ks: String = key;
        self.sequence.insert(idx, key);
        proof {
            olds.insert_ensures(idx as int, ks);
            oldv.insert_ensures(idx as int, kv);
            assert(self@ =~= oldv.insert(idx as int, kv)) by {
                assert forall|p: int| 0 <= p < self@.len() implies self@[p] == oldv.insert(
                    idx as int,
                    kv,
                )[p] by {
                    assert(self@[p] == self.sequence@[p]@);
                    if p < idx {
                        assert(self.sequence@[p] == olds[p]);
                    } else if p == idx {
                        assert(self.sequence@[p] == ks);
                    } else {
                        assert(self.sequence@[p] == olds[p - 1]);
                    }
                }
            }
            vstd::seq_lib::to_multiset_insert(oldv, idx as int, kv);
            lemma_insert_keeps_sorted(oldv, idx as int, kv);
        }
    }

    /// Drop the first token equal to `key`, if any, as a key-release does.
    pub fn remove(&mut self, key: &str)
        requires
            old(self).wf(),
        ensures
            final(self).wf(),
            final(self)@ == seq_remove(old(self)@, key@),
    {
        let n = self.sequence.len();
        let mut j: usize = 0;
        while j < n && !crate::text::str_eq(self.sequence[j].as_str(), key)
            invariant
                *self == *old(self),
                n == self.sequence@.len(),
                j <= n,
                forall|k: int| 0 <= k < j ==> self@[k] != key@,
            decreases n - j,
        {
            j = j + 1;
        }
        if j < n {
            let ghost oldv = self@;
            let ghost olds = self.sequence@;
            self.sequence.remove(j);
            proof {
                lemma_seq_remove_at(oldv, key@, j as int);
                olds.remove_ensures(j as int);
                oldv.remove_ensures(j as int);
                assert(self@ =~= oldv.remove(j as int)) by {
                    assert forall|p: int| 0 <= p < self@.len() implies self@[p] == oldv.remove(
                        j as int,
                    )[p] by {
                        assert(self@[p] == self.sequence@[p]@);
                        if p < j {
                            assert(self.sequence@[p] == olds[p]);
                        } else {
                            assert(self.sequence@[p] == olds[p + 1]);
                        }
                    }
                }
                lemma_remove_keeps_sorted(oldv, j as int);
            }
        } else {
            proof {
                lemma_seq_remove_absent(self@, key@);
            }
        }
    }

    /// A chord is under way when more than one key is held at once.
    pub fn is_started(&self) -> (r: bool)
        ensures
            r == (self@.len() > 1),
    {
        self.sequence.len() > 1
    }
}

impl PartialEq for Sequence {
    /// Two chords are equal when their canonical token lists are equal.
    fn eq(&self, other: &Sequence) -> (r: bool) {
        let n = self.sequence.len();
        if n != other.sequence.len() {
            proof {
                assert(self@.len() == self.sequence@.len());
                assert(other@.len() == other.sequence@.len());
            }
            return false;
        }
        let mut i: usize = 0;
        while i < n
            invariant
                n == self.sequence@.len(),
                n == other.sequence@.len(),
                i <= n,
                forall|j: int| 0 <= j < i ==> self@[j] == other@[j],
            decreases n - i,
        {
            if !crate::text::str_eq(self.sequence[i].as_str(), other.sequence[i].as_str()) {
                proof {
                    assert(self@[i as int] == self.sequence@[i as int]@);
                    assert(other@[i as int] == other.sequence@[i as int]@);
                }
                return false;
            }
            i = i + 1;
        }
        proof {
            assert(self@ =~= other@);
        }
        true
    }
}

impl Eq for Sequence {

}

impl vstd::std_specs::cmp::PartialEqSpecImpl for Sequence {
    open spec fn obeys_eq_spec() -> bool {
        true
    }

    open spec fn eq_spec(&self, other: &Sequence) -> bool {
        self@ == other@
    }
}

/// Split a string on `'+'` into its tokens, in the order written.
fn split_plus_exec(t: &str) -> (r: Vec<String>)
    ensures
        r@.map_values(|x: String| x@) == split_plus(t@),
{
    crate::text::split_str(t, '+')
}

} // verus!

