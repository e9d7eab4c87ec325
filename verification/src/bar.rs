//! Proportional bars: a count is placed within the range of counts seen in a
//! run and drawn as a run of marker characters.

use vstd::prelude::*;
use vstd::string::*;

verus! {

/// A proportion between zero and one, held as an exact fraction.
#[derive(Clone, Copy, Debug)]
pub struct Proportion {
    numerator: u64,
    denominator: u64,
}

/// The least and the greatest count seen in a run, against which bars are
/// scaled.
#[derive(Clone, Copy, Debug, PartialEq, Eq)]
pub struct CountRange {
    /// The least count seen; `u64::MAX` before any was.
    pub min_count: u64,
    /// The greatest count seen; zero before any was.
    pub max_count: u64,
}

impl CountRange {
    /// The range before any count was seen.
    pub open spec fn empty() -> CountRange {
        CountRange { min_count: u64::MAX, max_count: 0 }
    }

    /// The range after `count` was seen too.
    pub open spec fn widened(self, count: u64) -> CountRange {
        CountRange {
            min_count: if count < self.min_count {
                count
            } else {
                self.min_count
            },
            max_count: if count > self.max_count {
                count
            } else {
                self.max_count
            },
        }
    }

    /// The range before any count was seen.
    pub fn new() -> (r: CountRange)
        ensures
            r == CountRange::empty(),
    {
        CountRange { min_count: u64::MAX, max_count: 0 }
    }

    /// Widens the range so that it holds `count`.
    pub fn widen(self, count: u64) -> (r: CountRange)
        ensures
            r == self.widened(count),
    {
        CountRange {
            min_count: if count < self.min_count {
                count
            } else {
                self.min_count
            },
            max_count: if count > self.max_count {
                count
            } else {
                self.max_count
            },
        }
    }
}

/// Where `count` lies between `min_count` and `max_count`, as a fraction
/// `(numerator, denominator)`: zero when the range is empty or `count` is at
/// or below its lower end, one when `count` is at or above its upper end.
pub open spec fn scaled(count: u64, min_count: u64, max_count: u64) -> (int, int) {
    if max_count <= min_count || count <= min_count {
        (0, 1)
    } else if count >= max_count {
        (1, 1)
    } else {
        (count - min_count, max_count - min_count)
    }
}

/// The number of markers that stand for a proportion of `max_length`,
/// rounded down.
pub open spec fn bar_length(numerator: int, denominator: int, max_length: int) -> int {
    numerator * max_length / denominator
}

/// A run of `length` marker characters.
pub open spec fn bar_text(length: int) -> Seq<char> {
    Seq::new(length as nat, |i: int| '-')
}

impl Proportion {
    #[verifier::type_invariant]
    spec fn well_formed(self) -> bool {
        0 < self.denominator && self.numerator <= self.denominator
    }

    /// The upper part of the fraction.
    pub closed spec fn numerator(self) -> int {
        self.numerator as int
    }

    /// The lower part of the fraction.
    pub closed spec fn denominator(self) -> int {
        self.denominator as int
    }

    /// The upper part of the fraction.
    pub fn numer(&self) -> (r: u64)
        ensures
            r == self.numerator(),
            0 <= r <= self.denominator(),
    {
        proof {
            use_type_invariant(self);
        }
        self.numerator
    }

    /// The lower part of the fraction, never zero.
    pub fn denom(&self) -> (r: u64)
        ensures
            r == self.denominator(),
            r > 0,
    {
        proof {
            use_type_invariant(self);
        }
        self.denominator
    }
}

/// Places `count` within `[min_count, max_count]`. The result lies in
/// `[0, 1]`; an empty range (`max_count <= min_count`) gives zero.
pub fn scale(count: u64, min_count: u64, max_count: u64) -> (r: Proportion)
    ensures
        (r.numerator(), r.denominator()) == scaled(count, min_count, max_count),
        0 <= r.numerator() <= r.denominator(),
        0 < r.denominator(),
        min_count == max_count ==> r.numerator() == 0,
{
    if max_count <= min_count || count <= min_count {
        Proportion { numerator: 0, denominator: 1 }
    } else if count >= max_count {
        Proportion { numerator: 1, denominator: 1 }
    } else {
        Proportion { numerator: count - min_count, denominator: max_count - min_count }
    }
}

/// A bar is never longer than `max_length`; it is empty for the proportion
/// zero and has the full length for the proportion one.
proof fn lemma_bar_fits(numerator: int, denominator: int, max_length: int)
    by (nonlinear_arith)
    requires
        0 <= numerator <= denominator,
        0 < denominator,
        0 <= max_length,
    ensures
        0 <= bar_length(numerator, denominator, max_length) <= max_length,
        numerator == 0 ==> bar_length(numerator, denominator, max_length) == 0,
        numerator == denominator ==> bar_length(numerator, denominator, max_length) == max_length,
{
}

/// Draws `scaled` of `max_length` as a run of markers, rounded down.
pub fn render(scaled: Proportion, max_length: usize) -> (r: String)
    ensures
        r@ == bar_text(bar_length(scaled.numerator(), scaled.denominator(), max_length as int)),
        r@.len() <= max_length,
{
    proof {
        use_type_invariant(scaled);
        lemma_bar_fits(scaled.numerator(), scaled.denominator(), max_length as int);
    }
    assert((scaled.numerator as u128) * (max_length as u128) <= u128::MAX) by (nonlinear_arith)
        requires
            scaled.numerator <= u64::MAX,
            max_length <= u64::MAX,
    ;
    let product: u128 = (scaled.numerator as u128) * (max_length as u128);
    let length: usize = (product / (scaled.denominator as u128)) as usize;
    let mut bar = String::new();
    let mut drawn: usize = 0;
    while drawn < length
        invariant
            drawn <= length,
            bar@ == bar_text(drawn as int),
        decreases length - drawn,
    {
        proof {
            reveal_strlit("-");
        }
        bar.append("-");
        drawn = drawn + 1;
        assert(bar@ =~= bar_text(drawn as int));
    }
    bar
}

/// The bar of a bucket that holds `val` observations, where the counts of a
/// run lie between `min` and `max` and the longest bar has `max_length`
/// markers.
pub open spec fn bar_of(val: u64, max: u64, min: u64, max_length: usize) -> Seq<char> {
    bar_text(bar_length(scaled(val, min, max).0, scaled(val, min, max).1, max_length as int))
}

/// Draws the bar of a bucket that holds `val` observations, where the
/// counts of a run lie between `min` and `max` and the longest bar has
/// `max_length` markers.
pub fn bar_string(val: u64, max: u64, min: u64, max_length: usize) -> (r: String)
    ensures
        r@ == bar_of(val, max, min, max_length),
        r@.len() <= max_length,
        max_length == 0 || max <= min ==> r@.len() == 0,
{
    let scaling = scale(val, min, max);
    proof {
        lemma_bar_fits(scaling.numerator(), scaling.denominator(), max_length as int);
        assert(0 * (max_length as int) / scaling.denominator() == 0) by (nonlinear_arith)
            requires
                0 < scaling.denominator(),
        ;
    }
    render(scaling, max_length)
}

} // verus!
