//! Textual rendering of bounds, ranges and maps.
//!
//! A map renders as `{[2, 5): (), [6, 7): ()}`: entries in ascending
//! order, `[`/`(` for an inclusive/exclusive start, `)`/`]` for an
//! exclusive/inclusive end, and `-∞`/`∞` for unbounded sides.

use crate::bounds::Bound;
use crate::map::RangeMap;
use crate::range::Range;
use crate::values::ValueEq;
use vstd::prelude::*;
use vstd::string::StringExecFns;

verus! {

/// The character of a single decimal digit.
pub open spec fn digit_char(d: int) -> char {
    if d == 0 {
        '0'
    } else if d == 1 {
        '1'
    } else if d == 2 {
        '2'
    } else if d == 3 {
        '3'
    } else if d == 4 {
        '4'
    } else if d == 5 {
        '5'
    } else if d == 6 {
        '6'
    } else if d == 7 {
        '7'
    } else if d == 8 {
        '8'
    } else {
        '9'
    }
}

/// The decimal digits of `n`, most significant first.
pub open spec fn dec_digits(n: nat) -> Seq<char>
    decreases n,
{
    if n < 10 {
        seq![digit_char(n as int)]
    } else {
        dec_digits(n / 10).push(digit_char((n % 10) as int))
    }
}

/// The rendering of a start bound: `[2` for inclusive, `(2` for
/// exclusive, `(-∞` for unbounded.
pub open spec fn start_repr(b: Bound) -> Seq<char> {
    match b {
        Bound::Unbounded => seq!['(', '-', '∞'],
        Bound::Included(x) => seq!['['] + dec_digits(x as nat),
        Bound::Excluded(x) => seq!['('] + dec_digits(x as nat),
    }
}

/// The rendering of an end bound: `5]` for inclusive, `5)` for
/// exclusive, `∞)` for unbounded.
pub open spec fn end_repr(b: Bound) -> Seq<char> {
    match b {
        Bound::Unbounded => seq!['∞', ')'],
        Bound::Included(x) => dec_digits(x as nat).push(']'),
        Bound::Excluded(x) => dec_digits(x as nat).push(')'),
    }
}

/// The rendering of a range, such as `[2, 5)` or `(-∞, 7]`.
pub open spec fn range_repr_spec(r: Range) -> Seq<char> {
    start_repr(r.start) + seq![',', ' '] + end_repr(r.end)
}

/// A value that can render itself, as the standard `Debug` form would.
pub trait ValueRepr {
    /// The rendered characters.
    spec fn repr_spec(&self) -> Seq<char>;

    /// Render the value.
    fn repr(&self) -> (s: String)
        ensures
            s@ == self.repr_spec(),
    ;
}

impl ValueRepr for () {
    open spec fn repr_spec(&self) -> Seq<char> {
        seq!['(', ')']
    }

    fn repr(&self) -> (s: String)
        ensures
            s@ == self.repr_spec(),
    {
        proof {
            reveal_strlit("()");
        }
        let s = String::from_str("()");
        proof {
            assert(s@ =~= seq!['(', ')']);
        }
        s
    }
}

impl ValueRepr for bool {
    open spec fn repr_spec(&self) -> Seq<char> {
        if *self {
            seq!['t', 'r', 'u', 'e']
        } else {
            seq!['f', 'a', 'l', 's', 'e']
        }
    }

    fn repr(&self) -> (s: String)
        ensures
            s@ == self.repr_spec(),
    {
        if *self {
            proof {
                reveal_strlit("true");
            }
            let s = String::from_str("true");
            proof {
                assert(s@ =~= seq!['t', 'r', 'u', 'e']);
            }
            s
        } else {
            proof {
                reveal_strlit("false");
            }
            let s = String::from_str("false");
            proof {
                assert(s@ =~= seq!['f', 'a', 'l', 's', 'e']);
            }
            s
        }
    }
}

impl ValueRepr for u32 {
    open spec fn repr_spec(&self) -> Seq<char> {
        dec_digits(*self as nat)
    }

    fn repr(&self) -> (s: String)
        ensures
            s@ == self.repr_spec(),
    {
        let mut s = String::new();
        push_decimal(&mut s, *self);
        proof {
            assert(s@ =~= dec_digits(*self as nat));
        }
        s
    }
}

/// The rendering of one map entry: the range, a colon, the value.
pub open spec fn entry_repr_spec<V: ValueRepr>(e: (Range, V)) -> Seq<char> {
    range_repr_spec(e.0) + seq![':', ' '] + e.1.repr_spec()
}

/// The renderings of all entries, joined by commas.
pub open spec fn entries_repr_spec<V: ValueRepr>(s: Seq<(Range, V)>) -> Seq<char>
    decreases s.len(),
{
    if s.len() == 0 {
        Seq::<char>::empty()
    } else if s.len() == 1 {
        entry_repr_spec(s[0])
    } else {
        entries_repr_spec(s.drop_last()) + seq![',', ' '] + entry_repr_spec(s.last())
    }
}

/// The rendering of a whole map: the joined entries in braces.
pub open spec fn map_repr_spec<V: ValueRepr>(s: Seq<(Range, V)>) -> Seq<char> {
    seq!['{'] + entries_repr_spec(s) + seq!['}']
}

/// The decimal string of one digit.
fn digit_str(d: u32) -> (r: &'static str)
    requires
        d < 10,
    ensures
        r@ == seq![digit_char(d as int)],
{
    if d == 0 {
        proof {
            reveal_strlit("0");
        }
        let r = "0";
        proof {
            assert(r@ =~= seq![digit_char(0)]);
        }
        r
    } else if d == 1 {
        proof {
            reveal_strlit("1");
        }
        let r = "1";
        proof {
            assert(r@ =~= seq![digit_char(1)]);
        }
        r
    } else if d == 2 {
        proof {
            reveal_strlit("2");
        }
        let r = "2";
        proof {
            assert(r@ =~= seq![digit_char(2)]);
        }
        r
    } else if d == 3 {
        proof {
            reveal_strlit("3");
        }
        let r = "3";
        proof {
            assert(r@ =~= seq![digit_char(3)]);
        }
        r
    } else if d == 4 {
        proof {
            reveal_strlit("4");
        }
        let r = "4";
        proof {
            assert(r@ =~= seq![digit_char(4)]);
        }
        r
    } else if d == 5 {
        proof {
            reveal_strlit("5");
        }
        let r = "5";
        proof {
            assert(r@ =~= seq![digit_char(5)]);
        }
        r
    } else if d == 6 {
        proof {
            reveal_strlit("6");
        }
        let r = "6";
        proof {
            assert(r@ =~= seq![digit_char(6)]);
        }
        r
    } else if d == 7 {
        proof {
            reveal_strlit("7");
        }
        let r = "7";
        proof {
            assert(r@ =~= seq![digit_char(7)]);
        }
        r
    } else if d == 8 {
        proof {
            reveal_strlit("8");
        }
        let r = "8";
        proof {
            assert(r@ =~= seq![digit_char(8)]);
        }
        r
    } else {
        proof {
            reveal_strlit("9");
        }
        let r = "9";
        proof {
            assert(r@ =~= seq![digit_char(9)]);
        }
        r
    }
}

/// Append the decimal digits of `n`.
fn push_decimal(s: &mut String, n: u32)
    ensures
        final(s)@ == old(s)@ + dec_digits(n as nat),
    decreases n,
{
    if n < 10 {
        s.append(digit_str(n));
        proof {
            assert(s@ =~= old(s)@ + dec_digits(n as nat));
        }
    } else {
        push_decimal(s, n / 10);
        s.append(digit_str(n % 10));
        proof {
            assert(s@ =~= old(s)@ + dec_digits(n as nat));
        }
    }
}

/// Append the rendering of a range.
fn push_range_repr(s: &mut String, r: &Range)
    ensures
        final(s)@ == old(s)@ + range_repr_spec(*r),
{
    match r.start {
        Bound::Unbounded => {
            proof {
                reveal_strlit("(-∞");
            }
            s.append("(-∞");
            proof {
                assert(s@ =~= old(s)@ + start_repr(r.start));
            }
        },
        Bound::Included(x) => {
            proof {
                reveal_strlit("[");
            }
            s.append("[");
            push_decimal(s, x);
            proof {
                assert(s@ =~= old(s)@ + start_repr(r.start));
            }
        },
        Bound::Excluded(x) => {
            proof {
                reveal_strlit("(");
            }
            s.append("(");
            push_decimal(s, x);
            proof {
                assert(s@ =~= old(s)@ + start_repr(r.start));
            }
        },
    }
    let ghost mid = s@;
    proof {
        reveal_strlit(", ");
    }
    s.append(", ");
    proof {
        assert(s@ =~= mid + seq![',', ' ']);
    }
    let ghost mid2 = s@;
    match r.end {
        Bound::Unbounded => {
            proof {
                reveal_strlit("∞)");
            }
            s.append("∞)");
            proof {
                assert(s@ =~= mid2 + end_repr(r.end));
            }
        },
        Bound::Included(x) => {
            push_decimal(s, x);
            proof {
                reveal_strlit("]");
            }
            s.append("]");
            proof {
                assert(s@ =~= mid2 + end_repr(r.end));
            }
        },
        Bound::Excluded(x) => {
            push_decimal(s, x);
            proof {
                reveal_strlit(")");
            }
            s.append(")");
            proof {
                assert(s@ =~= mid2 + end_repr(r.end));
            }
        },
    }
    proof {
        assert(s@ =~= old(s)@ + range_repr_spec(*r));
    }
}

/// Render a range, such as `[2, 5)` or `(-∞, 7]`.
pub fn range_repr(r: &Range) -> (s: String)
    ensures
        s@ == range_repr_spec(*r),
{
    let mut s = String::new();
    push_range_repr(&mut s, r);
    proof {
        assert(s@ =~= range_repr_spec(*r));
    }
    s
}

impl<V: ValueEq + ValueRepr> RangeMap<V> {
    /// Render the whole map, such as `{}` when empty or
    /// `{[2, 5): (), [6, 7): ()}`.
    pub fn debug_repr(&self) -> (s: String)
        ensures
            s@ == map_repr_spec(self@),
    {
        let entries = self.to_vec();
        let n = entries.len();
        proof {
            reveal_strlit("{");
        }
        let mut s = String::from_str("{");
        proof {
            assert(s@ =~= seq!['{']);
            assert(entries@.subrange(0, 0) =~= Seq::<(Range, V)>::empty());
        }
        let mut i: usize = 0;
        while i < n
            invariant
                i <= n,
                n == entries@.len(),
                s@ == seq!['{'] + entries_repr_spec(entries@.subrange(0, i as int)),
            decreases n - i,
        {
            if i > 0 {
                proof {
                    reveal_strlit(", ");
                }
                let ghost before = s@;
                s.append(", ");
                proof {
                    assert(s@ =~= before + seq![',', ' ']);
                }
            }
            let e = &entries[i];
            push_range_repr(&mut s, &e.0);
            proof {
                reveal_strlit(": ");
            }
            let ghost before = s@;
            s.append(": ");
            proof {
                assert(s@ =~= before + seq![':', ' ']);
            }
            let vr = e.1.repr();
            s.append(vr.as_str());
            proof {
                let sub1 = entries@.subrange(0, i as int + 1);
                assert(sub1.drop_last() =~= entries@.subrange(0, i as int));
                assert(sub1.last() == entries@[i as int]);
                assert(s@ =~= seq!['{'] + entries_repr_spec(sub1));
            }
            i += 1;
        }
        proof {
            reveal_strlit("}");
            assert(entries@.subrange(0, n as int) =~= entries@);
        }
        s.append("}");
        proof {
            assert(s@ =~= map_repr_spec(self@));
        }
        s
    }
}

} // verus!
