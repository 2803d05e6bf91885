//! Small verified string primitives shared by the other modules.
//!
//! Strings are modelled by their character sequences (`s@` is a
//! `Seq<char>`); everything here is spelled out over those views.

use vstd::prelude::*;

verus! {

/// Relies on String::push: appends exactly one character to the string.
#[verifier::external_body]
pub fn push_char(s: &mut String, c: char)
    ensures
        final(s)@ == old(s)@.push(c),
{
    s.push(c);
}

/// Character-for-character string equality.
pub fn str_eq(a: &str, b: &str) -> (r: bool)
    ensures
        r == (a@ == b@),
{
    let an = a.unicode_len();
    let bn = b.unicode_len();
    if an != bn {
        return false;
    }
    let mut i: usize = 0;
    while i < an
        invariant
            an == a@.len(),
            an == b@.len(),
            i <= an,
            forall|j: int| 0 <= j < i ==> a@[j] == b@[j],
        decreases an - i,
    {
        if a.get_char(i) != b.get_char(i) {
            return false;
        }
        i = i + 1;
    }
    proof {
        assert(a@ =~= b@);
    }
    true
}

/// The characters of a string, one vector element per character.
pub fn str_chars(s: &str) -> (r: Vec<char>)
    ensures
        r@ == s@,
{
    let n = s.unicode_len();
    let mut out: Vec<char> = Vec::new();
    let mut i: usize = 0;
    while i < n
        invariant
            n == s@.len(),
            i <= n,
            out@ == s@.take(i as int),
        decreases n - i,
    {
        let c = s.get_char(i);
        out.push(c);
        proof {
            assert(out@ =~= s@.take(i + 1));
        }
        i = i + 1;
    }
    proof {
        assert(s@.take(n as int) =~= s@);
    }
    out
}

/// The parts of `s` between occurrences of `sep`, in order.  An empty
/// string yields one empty part, as `str::split` does.
pub open spec fn split_at_sep(s: Seq<char>, sep: char) -> Seq<Seq<char>>
    decreases s.len(),
{
    if s.len() == 0 {
        seq![Seq::<char>::empty()]
    } else {
        let rest = split_at_sep(s.drop_last(), sep);
        if s.last() == sep {
            rest.push(Seq::<char>::empty())
        } else {
            rest.update(rest.len() - 1, rest.last().push(s.last()))
        }
    }
}

pub proof fn lemma_split_at_sep_nonempty(s: Seq<char>, sep: char)
    ensures
        split_at_sep(s, sep).len() >= 1,
    decreases s.len(),
{
    if s.len() > 0 {
        lemma_split_at_sep_nonempty(s.drop_last(), sep);
    }
}

/// Split a string on a separator character into its parts, in order.
pub fn split_str(t: &str, sep: char) -> (r: Vec<String>)
    ensures
        r@.map_values(|x: String| x@) == split_at_sep(t@, sep),
{
    let n = t.unicode_len();
    let mut out: Vec<String> = Vec::new();
    let mut cur: String = String::new();
    let mut i: usize = 0;
    while i < n
        invariant
            n == t@.len(),
            i <= n,
            out@.map_values(|x: String| x@).push(cur@) == split_at_sep(t@.take(i as int), sep),
        decreases n - i,
    {
        let c = t.get_char(i);
        let ghost prev = t@.take(i as int);
        proof {
            assert(t@.take(i + 1).drop_last() =~= prev);
            assert(t@.take(i + 1).last() == t@[i as int]);
            lemma_split_at_sep_nonempty(prev, sep);
        }
        if c == sep {
            out.push(cur);
            cur = String::new();
            proof {
                assert(out@.map_values(|x: String| x@).push(cur@) =~= split_at_sep(
                    t@.take(i + 1),
                    sep,
                ));
            }
        } else {
            push_char(&mut cur, c);
            proof {
                let m = split_at_sep(prev, sep);
                assert(split_at_sep(t@.take(i + 1), sep) == m.update(m.len() - 1, m.last().push(c)));
                assert(out@.map_values(|x: String| x@).push(cur@) =~= split_at_sep(
                    t@.take(i + 1),
                    sep,
                ));
            }
        }
        i = i + 1;
    }
    proof {
        assert(t@.take(n as int) =~= t@);
    }
    out.push(cur);
    proof {
        assert(out@.map_values(|x: String| x@) =~= split_at_sep(t@, sep));
    }
    out
}

/// `p` is a prefix of `s`.
pub open spec fn is_prefix_of(p: Seq<char>, s: Seq<char>) -> bool {
    p.len() <= s.len() && p == s.subrange(0, p.len() as int)
}

/// Whether `s` starts with `p`, character for character.
pub fn str_starts_with(s: &str, p: &str) -> (r: bool)
    ensures
        r == is_prefix_of(p@, s@),
{
    let sn = s.unicode_len();
    let pn = p.unicode_len();
    if pn > sn {
        return false;
    }
    let mut i: usize = 0;
    while i < pn
        invariant
            sn == s@.len(),
            pn == p@.len(),
            pn <= sn,
            i <= pn,
            forall|j: int| 0 <= j < i ==> p@[j] == s@[j],
        decreases pn - i,
    {
        if p.get_char(i) != s.get_char(i) {
            assert(p@[i as int] != s@.subrange(0, p@.len() as int)[i as int]);
            return false;
        }
        i = i + 1;
    }
    proof {
        assert(p@ =~= s@.subrange(0, p@.len() as int));
    }
    true
}

/// The text with the typed prefix stripped off its front, or unchanged
/// where the text does not start with it.
pub fn strip_typed_prefix(text: &str, prefix: &str) -> (r: String)
    ensures
        r@ == (if is_prefix_of(prefix@, text@) {
            text@.skip(prefix@.len() as int)
        } else {
            text@
        }),
{
    if str_starts_with(text, prefix) {
        let n = text.unicode_len();
        let k = prefix.unicode_len();
        let rest = text.substring_char(k, n);
        proof {
            assert(rest@ =~= text@.skip(prefix@.len() as int));
        }
        String::from_str(rest)
    } else {
        String::from_str(text)
    }
}

/// `n` occurs somewhere inside `h` as a contiguous run of characters.
pub open spec fn contains_substring(h: Seq<char>, n: Seq<char>) -> bool {
    exists|k: int| 0 <= k <= h.len() - n.len() && n == #[trigger] h.subrange(k, k + n.len() as int)
}

/// Whether `n` matches `h` at offset `k`.
fn matches_at(h: &str, n: &str, k: usize) -> (r: bool)
    requires
        k + n@.len() <= h@.len(),
    ensures
        r == (n@ == h@.subrange(k as int, k as int + n@.len() as int)),
{
    let nn = n.unicode_len();
    let hn = h.unicode_len();
    let mut i: usize = 0;
    while i < nn
        invariant
            nn == n@.len(),
            hn == h@.len(),
            k + nn <= hn,
            i <= nn,
            forall|j: int| 0 <= j < i ==> n@[j] == h@[k + j],
        decreases nn - i,
    {
        if n.get_char(i) != h.get_char(k + i) {
            assert(n@[i as int] != h@.subrange(k as int, k as int + n@.len() as int)[i as int]);
            return false;
        }
        i = i + 1;
    }
    proof {
        assert(n@ =~= h@.subrange(k as int, k as int + n@.len() as int));
    }
    true
}

/// Whether `n` occurs as a substring of `h`.
pub fn str_contains(h: &str, n: &str) -> (r: bool)
    ensures
        r == contains_substring(h@, n@),
{
    let hn = h.unicode_len();
    let nn = n.unicode_len();
    if nn > hn {
        return false;
    }
    let last = hn - nn;
    let mut k: usize = 0;
    loop
        invariant_except_break
            hn == h@.len(),
            nn == n@.len(),
            nn <= hn,
            last == hn - nn,
            k <= last,
            forall|k2: int|
                0 <= k2 < k ==> n@ != #[trigger] h@.subrange(k2, k2 + n@.len() as int),
        ensures
            !contains_substring(h@, n@),
        decreases last - k,
    {
        if matches_at(h, n, k) {
            assert(contains_substring(h@, n@)) by {
                assert(n@ == h@.subrange(k as int, k as int + n@.len() as int));
            }
            return true;
        }
        if k == last {
            break;
        }
        k = k + 1;
    }
    false
}

} // verus!
