//! Configuration values and their parsers: box alignment, the hint box
//! offset, and the exit-key chords.

use vstd::prelude::*;

verus! {

/// Horizontal alignment of the hint box inside its window.
#[derive(Debug, Clone, Copy, PartialEq, Eq, Hash, Structural)]
pub enum HorizontalAlign {
    Left,
    Center,
    Right,
}

/// Vertical alignment of the hint box inside its window.
#[derive(Debug, Clone, Copy, PartialEq, Eq, Hash, Structural)]
pub enum VerticalAlign {
    Top,
    Center,
    Bottom,
}

/// Offset of the hint box from the window edge it is aligned to.
#[derive(Debug, Clone, Copy, PartialEq, Eq, Structural)]
pub struct Offset {
    pub x: i32,
    pub y: i32,
}

/// One decimal digit.
pub open spec fn is_digit(c: char) -> bool {
    48 <= c as int <= 57
}

/// The digits of `s` after an optional leading sign.
pub open spec fn digits_of(s: Seq<char>) -> Seq<char> {
    if s.len() > 0 && (s[0] == '+' || s[0] == '-') {
        s.drop_first()
    } else {
        s
    }
}

/// `s` is an optional sign followed by one or more decimal digits.
pub open spec fn is_int_literal(s: Seq<char>) -> bool {
    let ds = digits_of(s);
    ds.len() > 0 && forall|i: int| 0 <= i < ds.len() ==> is_digit(#[trigger] ds[i])
}

/// The value of a run of decimal digits.
pub open spec fn digits_value(ds: Seq<char>) -> int
    decreases ds.len(),
{
    if ds.len() == 0 {
        0
    } else {
        digits_value(ds.drop_last()) * 10 + (ds.last() as int - 48)
    }
}

/// The signed value written in `s`.
pub open spec fn int_value(s: Seq<char>) -> int {
    if s.len() > 0 && s[0] == '-' {
        -digits_value(digits_of(s))
    } else {
        digits_value(digits_of(s))
    }
}

proof fn lemma_digits_value_nonneg(ds: Seq<char>)
    requires
        forall|i: int| 0 <= i < ds.len() ==> is_digit(#[trigger] ds[i]),
    ensures
        digits_value(ds) >= 0,
    decreases ds.len(),
{
    if ds.len() > 0 {
        lemma_digits_value_nonneg(ds.drop_last());
    }
}

proof fn lemma_digits_value_prefix(ds: Seq<char>, j: int)
    requires
        forall|i: int| 0 <= i < ds.len() ==> is_digit(#[trigger] ds[i]),
        0 <= j <= ds.len(),
    ensures
        digits_value(ds.take(j)) <= digits_value(ds),
    decreases ds.len() - j,
{
    if j < ds.len() {
        lemma_digits_value_prefix(ds, j + 1);
        assert(ds.take(j + 1).drop_last() =~= ds.take(j));
        assert(ds.take(j + 1).last() == ds[j]);
        lemma_digits_value_nonneg(ds.take(j));
    } else {
        assert(ds.take(j) =~= ds);
    }
}

/// Parse a signed decimal integer, as `str::parse::<i32>` does: an optional
/// sign, then one or more digits, and the value must fit in an `i32`.
pub fn parse_i32(s: &str) -> (r: Result<i32, ()>)
    ensures
        (r is Ok) == (is_int_literal(s@) && i32::MIN <= int_value(s@) <= i32::MAX),
        r matches Ok(v) ==> v == int_value(s@),
{
    let n = s.unicode_len();
    if n == 0 {
        return Err(());
    }
    let first = s.get_char(0);
    let negative = first == '-';
    let start: usize = if first == '-' || first == '+' {
        1
    } else {
        0
    };
    let ghost ds = digits_of(s@);
    proof {
        assert(ds =~= s@.skip(start as int));
    }
    if n == start {
        return Err(());
    }
    let mut acc: i64 = 0;
    let mut i: usize = start;
    while i < n
        invariant
            n == s@.len(),
            start <= i <= n,
            start < n,
            start <= 1,
            ds == digits_of(s@),
            ds =~= s@.skip(start as int),
            forall|k: int| 0 <= k < i - start ==> is_digit(#[trigger] ds[k]),
            acc == digits_value(ds.take(i - start)),
            0 <= acc <= 0x80000000,
        decreases n - i,
    {
        let c = s.get_char(i);
        let code = c as u32;
        if code < 48 || code > 57 {
            proof {
                assert(ds[i - start] == s@[i as int]);
                assert(!is_digit(ds[i - start]));
            }
            return Err(());
        }
        let d = (code - 48) as i64;
        proof {
            assert(ds.take(i - start + 1).drop_last() =~= ds.take(i - start));
            assert(ds.take(i - start + 1).last() == ds[i - start]);
            assert(ds[i - start] == s@[i as int]);
        }
        if acc * 10 + d > 0x80000000 {
            // the digits read so far already leave the `i32` range, and
            // more digits can only grow the value
            proof {
                let m = i - start + 1;
                if is_int_literal(s@) {
                    lemma_digits_value_prefix(ds, m);
                    assert(digits_value(ds.take(m)) == acc * 10 + d);
                    assert(digits_value(ds) > 0x80000000);
                    if s@[0] == '-' {
                        assert(int_value(s@) < i32::MIN);
                    } else {
                        assert(int_value(s@) == digits_value(ds));
                    }
                }
            }
            return Err(());
        }
        acc = acc * 10 + d;
        i = i + 1;
    }
    proof {
        assert(ds.take(n - start) =~= ds);
        assert(is_int_literal(s@));
    }
    if negative {
        proof {
            assert(int_value(s@) == -acc);
        }
        Ok((-acc) as i32)
    } else {
        if acc > 2147483647 {
            proof {
                assert(int_value(s@) > i32::MAX);
            }
            return Err(());
        }
        proof {
            assert(int_value(s@) == acc);
        }
        Ok(acc as i32)
    }
}

/// `s` parses as an `i32`.
pub open spec fn is_i32_literal(s: Seq<char>) -> bool {
    is_int_literal(s) && i32::MIN <= int_value(s) <= i32::MAX
}

/// Validate coordinates and parse an `x,y` offset.  Everything before the
/// first comma is `x`, the part after it is `y`; further comma-separated
/// parts are ignored.
pub fn parse_offset(c: &str) -> (r: Result<Offset, String>)
    ensures
        ({
            let parts = crate::text::split_at_sep(c@, ',');
            match r {
                Ok(o) => {
                    &&& parts.len() >= 2
                    &&& is_i32_literal(parts[0])
                    &&& is_i32_literal(parts[1])
                    &&& o.x == int_value(parts[0])
                    &&& o.y == int_value(parts[1])
                },
                Err(m) => {
                    if parts.len() < 2 {
                        m@ == "Wrong coordinate format, expected x,y coordinates"@
                    } else if !is_i32_literal(parts[0]) {
                        m@ == "Couldn't parse x coordinate"@
                    } else {
                        !is_i32_literal(parts[1]) && m@ == "Couldn't parse y coordinate"@
                    }
                },
            }
        }),
{
    let parts = crate::text::split_str(c, ',');
    proof {
        assert(parts@.map_values(|x: String| x@) == crate::text::split_at_sep(c@, ','));
    }
    if parts.len() < 2 {
        return Err(String::from_str("Wrong coordinate format, expected x,y coordinates"));
    }
    proof {
        assert(parts@[0]@ == crate::text::split_at_sep(c@, ',')[0]);
        assert(parts@[1]@ == crate::text::split_at_sep(c@, ',')[1]);
    }
    let x = match parse_i32(parts[0].as_str()) {
        Ok(v) => v,
        Err(_) => {
            return Err(String::from_str("Couldn't parse x coordinate"));
        },
    };
    let y = match parse_i32(parts[1].as_str()) {
        Ok(v) => v,
        Err(_) => {
            return Err(String::from_str("Couldn't parse y coordinate"));
        },
    };
    Ok(Offset { x, y })
}

/// Parse one configured exit chord, written as `"+"`-separated key names.
pub fn parse_exit_keys(s: &str) -> (r: Result<crate::sequence::Sequence, String>)
    ensures
        r matches Ok(q) && q.wf() && q@.to_multiset() == crate::sequence::split_plus(
            s@,
        ).to_multiset(),
{
    Ok(crate::sequence::Sequence::new(Some(s)))
}

} // verus!
