//! Blend stops: textures placed at ceniths along the axis of guide values.
//!
//! A cenith is held as the bits of an IEEE 754 binary32 number, so that the
//! library can check and order ceniths with integer arithmetic. For numbers
//! that are not NaN, the order of binary32 values is the order of their
//! sign-magnitude readings: `-0` and `+0` read alike, and a set sign bit
//! reverses the order of magnitudes.

use vstd::prelude::*;

verus! {

broadcast use vstd::seq_lib::group_to_multiset_ensures;

/// The biased exponent field of a binary32 number.
pub open spec fn exponent_field(bits: u32) -> int {
    (bits as int % 0x8000_0000) / 0x80_0000
}

/// The fraction field of a binary32 number.
pub open spec fn fraction_field(bits: u32) -> int {
    bits as int % 0x80_0000
}

/// Neither infinite nor NaN.
pub open spec fn is_finite_bits(bits: u32) -> bool {
    exponent_field(bits) != 0xFF
}

pub open spec fn is_nan_bits(bits: u32) -> bool {
    exponent_field(bits) == 0xFF && fraction_field(bits) != 0
}

/// The magnitude bits, negated where the sign bit is set.
pub open spec fn sign_magnitude(bits: u32) -> int {
    if bits >= 0x8000_0000 {
        -(bits as int % 0x8000_0000)
    } else {
        bits as int
    }
}

/// `a <= b` on binary32 numbers: false where either is NaN.
pub open spec fn float_le(a: u32, b: u32) -> bool {
    !is_nan_bits(a) && !is_nan_bits(b) && sign_magnitude(a) <= sign_magnitude(b)
}

/// `a < b` on binary32 numbers: false where either is NaN.
pub open spec fn float_lt(a: u32, b: u32) -> bool {
    !is_nan_bits(a) && !is_nan_bits(b) && sign_magnitude(a) < sign_magnitude(b)
}

fn is_finite(bits: u32) -> (r: bool)
    ensures
        r == is_finite_bits(bits),
{
    (bits % 0x8000_0000) / 0x80_0000 != 0xFF
}

fn is_nan(bits: u32) -> (r: bool)
    ensures
        r == is_nan_bits(bits),
{
    (bits % 0x8000_0000) / 0x80_0000 == 0xFF && bits % 0x80_0000 != 0
}

fn sign_magnitude_of(bits: u32) -> (r: i64)
    ensures
        r == sign_magnitude(bits),
{
    if bits >= 0x8000_0000 {
        -((bits % 0x8000_0000) as i64)
    } else {
        bits as i64
    }
}

/// `a <= b` on binary32 numbers given by their bits.
pub fn cenith_le(a: u32, b: u32) -> (r: bool)
    ensures
        r == float_le(a, b),
{
    !is_nan(a) && !is_nan(b) && sign_magnitude_of(a) <= sign_magnitude_of(b)
}

/// `a < b` on binary32 numbers given by their bits.
pub fn cenith_lt(a: u32, b: u32) -> (r: bool)
    ensures
        r == float_lt(a, b),
{
    !is_nan(a) && !is_nan(b) && sign_magnitude_of(a) < sign_magnitude_of(b)
}

/// Why blend stops could not be built.
#[derive(Clone, Copy, Debug, PartialEq, Eq, Structural)]
pub enum StopsError {
    /// No stop was given.
    Empty,
    /// A cenith was infinite or NaN.
    NonFiniteCenith,
}

/// A texture sample placed at a finite cenith.
#[derive(Debug)]
pub struct Stop<I> {
    sample: I,
    cenith: u32,
}

impl<I> Stop<I> {
    #[verifier::type_invariant]
    spec fn finite_cenith(self) -> bool {
        is_finite_bits(self.cenith)
    }

    /// The bits of the cenith.
    pub closed spec fn cenith_bits(&self) -> u32 {
        self.cenith
    }

    /// The sample texture.
    pub closed spec fn sample_spec(&self) -> I {
        self.sample
    }

    /// Creates a blend stop, or fails where the cenith (given by its binary32
    /// bits) is infinite or NaN.
    pub fn new(cenith: u32, sample: I) -> (r: Result<Self, StopsError>)
        ensures
            is_finite_bits(cenith) <==> r is Ok,
            match r {
                Ok(stop) => stop.cenith_bits() == cenith && stop.sample_spec() == sample,
                Err(e) => e == StopsError::NonFiniteCenith,
            },
    {
        if !is_finite(cenith) {
            return Err(StopsError::NonFiniteCenith);
        }
        Ok(Stop { sample, cenith })
    }

    pub fn sample(&self) -> (r: &I)
        ensures
            *r == self.sample_spec(),
    {
        &self.sample
    }

    /// The bits of the cenith, a finite binary32 number.
    pub fn cenith(&self) -> (r: u32)
        ensures
            r == self.cenith_bits(),
            is_finite_bits(r),
    {
        proof {
            use_type_invariant(self);
        }
        self.cenith
    }
}

/// Ascending by cenith.
pub open spec fn is_sorted_by_cenith<I>(s: Seq<Stop<I>>) -> bool {
    forall|i: int, j: int| 0 <= i < j < s.len() ==> float_le(#[trigger] s[i].cenith_bits(), #[trigger] s[j].cenith_bits())
}

/// Whether a stop's cenith equals `key` (read as sign and magnitude, so that
/// `-0` and `+0` are equal).
pub open spec fn has_cenith_key<I>(key: int) -> spec_fn(Stop<I>) -> bool {
    |s: Stop<I>| sign_magnitude(s.cenith_bits()) == key
}

/// Inserting `x` before the first stop whose cenith is not below its own
/// puts it first among the stops of equal cenith and moves no other stop
/// among those of its cenith.
proof fn lemma_insert_keeps_equal_ceniths_in_order<I>(s: Seq<Stop<I>>, p: int, x: Stop<I>)
    requires
        0 <= p <= s.len(),
        forall|k: int| 0 <= k < p ==> float_lt(#[trigger] s[k].cenith_bits(), x.cenith_bits()),
    ensures
        forall|key: int|
            #[trigger] s.insert(p, x).filter(has_cenith_key(key)) == if sign_magnitude(x.cenith_bits()) == key {
                seq![x] + s.filter(has_cenith_key(key))
            } else {
                s.filter(has_cenith_key(key))
            },
{
    let a = s.subrange(0, p);
    let b = s.subrange(p, s.len() as int);
    assert(s == a + b);
    assert(s.insert(p, x) == a + (seq![x] + b));
    assert forall|key: int|
        #[trigger] s.insert(p, x).filter(has_cenith_key(key)) == if sign_magnitude(x.cenith_bits()) == key {
            seq![x] + s.filter(has_cenith_key(key))
        } else {
            s.filter(has_cenith_key(key))
        } by {
        let pred = has_cenith_key::<I>(key);
        Seq::filter_distributes_over_add(a, seq![x] + b, pred);
        Seq::filter_distributes_over_add(a, b, pred);
        b.lemma_filter_prepend(x, pred);
        if sign_magnitude(x.cenith_bits()) == key {
            assert(a.all(|y: Stop<I>| !pred(y))) by {
                assert forall|k: int| 0 <= k < a.len() implies !pred(#[trigger] a[k]) by {
                    assert(a[k] == s[k]);
                }
            }
            a.lemma_all_neg_filter_empty(pred);
            assert(a.filter(pred) == Seq::<Stop<I>>::empty());
            assert(s.insert(p, x).filter(pred) == seq![x] + s.filter(pred));
        } else {
            assert((seq![x] + b).filter(pred) == b.filter(pred));
        }
    }
}

/// Stop `i` and the one after it bracket the guide value `g`:
/// `cenith(i) <= g < cenith(i + 1)`.
pub open spec fn brackets<I>(s: Seq<Stop<I>>, g: u32, i: int) -> bool {
    &&& 0 <= i < s.len() - 1
    &&& float_le(s[i].cenith_bits(), g)
    &&& float_lt(g, s[i + 1].cenith_bits())
}

/// A non-empty collection of blend stops, ascending by cenith.
#[derive(Debug)]
pub struct Stops<I> {
    stops: Vec<Stop<I>>,
}

impl<I> View for Stops<I> {
    type V = Seq<Stop<I>>;

    closed spec fn view(&self) -> Seq<Stop<I>> {
        self.stops@
    }
}

impl<I> Stops<I> {
    #[verifier::type_invariant]
    spec fn non_empty_and_sorted(self) -> bool {
        self.stops@.len() > 0 && is_sorted_by_cenith(self.stops@)
    }

    /// Creates blend stops from the given ones, sorted by cenith; stops of
    /// equal cenith keep their order. Fails where none is given.
    pub fn new(stops: Vec<Stop<I>>) -> (r: Result<Self, StopsError>)
        ensures
            stops@.len() > 0 <==> r is Ok,
            match r {
                Ok(sorted) => {
                    &&& sorted@.to_multiset() == stops@.to_multiset()
                    &&& is_sorted_by_cenith(sorted@)
                    &&& forall|key: int|
                        #[trigger] sorted@.filter(has_cenith_key(key)) == stops@.filter(has_cenith_key(key))
                },
                Err(e) => e == StopsError::Empty,
            },
    {
        if stops.len() == 0 {
            return Err(StopsError::Empty);
        }
        // Insertion sort from the back, each stop placed before the first
        // one whose cenith is not below its own.
        let ghost original = stops@;
        let mut rest = stops;
        let mut sorted: Vec<Stop<I>> = Vec::new();
        while rest.len() > 0
            invariant
                sorted@.to_multiset().add(rest@.to_multiset()) == original.to_multiset(),
                is_sorted_by_cenith(sorted@),
                sorted@.len() + rest@.len() == original.len(),
                rest@ == original.subrange(0, rest@.len() as int),
                forall|key: int|
                    #[trigger] sorted@.filter(has_cenith_key(key)) == original.subrange(
                        rest@.len() as int,
                        original.len() as int,
                    ).filter(has_cenith_key(key)),
            decreases rest@.len(),
        {
            let ghost before = rest@;
            let stop = rest.pop().unwrap();
            proof {
                use_type_invariant(&stop);
                assert(before == rest@.push(stop));
            }
            let c = stop.cenith;
            let mut p: usize = 0;
            while p < sorted.len() && cenith_lt(sorted[p].cenith(), c)
                invariant
                    0 <= p <= sorted@.len(),
                    forall|k: int| 0 <= k < p ==> float_lt(#[trigger] sorted@[k].cenith_bits(), c),
                decreases sorted@.len() - p,
            {
                p = p + 1;
            }
            let ghost old_sorted = sorted@;
            proof {
                if p < sorted@.len() {
                    assert(!float_lt(sorted@[p as int].cenith_bits(), c));
                }
            }
            sorted.insert(p, stop);
            proof {
                assert(sorted@.remove(p as int) == old_sorted);
                assert(sorted@[p as int] == stop);
                assert forall|i: int, j: int| 0 <= i < j < sorted@.len() implies float_le(
                    #[trigger] sorted@[i].cenith_bits(),
                    #[trigger] sorted@[j].cenith_bits(),
                ) by {
                    if j < p {
                        assert(sorted@[i] == old_sorted[i] && sorted@[j] == old_sorted[j]);
                    } else if j == p {
                        assert(sorted@[i] == old_sorted[i]);
                        assert(float_lt(old_sorted[i].cenith_bits(), c));
                    } else if i < p {
                        assert(sorted@[i] == old_sorted[i] && sorted@[j] == old_sorted[j - 1]);
                    } else if i == p {
                        assert(sorted@[j] == old_sorted[j - 1]);
                        assert(float_le(old_sorted[p as int].cenith_bits(), old_sorted[j - 1].cenith_bits())
                            || j - 1 == p);
                        assert(!float_lt(old_sorted[p as int].cenith_bits(), c));
                    } else {
                        assert(sorted@[i] == old_sorted[i - 1] && sorted@[j] == old_sorted[j - 1]);
                    }
                }
                assert(sorted@.to_multiset() == old_sorted.to_multiset().insert(stop));
                lemma_insert_keeps_equal_ceniths_in_order(old_sorted, p as int, stop);
                assert(sorted@ == old_sorted.insert(p as int, stop));
                let tail = original.subrange(before.len() as int, original.len() as int);
                assert(original.subrange(rest@.len() as int, original.len() as int) == seq![stop] + tail);
                assert forall|key: int|
                    #[trigger] sorted@.filter(has_cenith_key(key)) == original.subrange(
                        rest@.len() as int,
                        original.len() as int,
                    ).filter(has_cenith_key(key)) by {
                    tail.lemma_filter_prepend(stop, has_cenith_key(key));
                }
                assert(rest@ == original.subrange(0, rest@.len() as int));
                assert(before.to_multiset() == rest@.to_multiset().insert(stop));
            }
        }
        assert(original.subrange(0, original.len() as int) == original);
        Ok(Stops { stops: sorted })
    }

    /// The number of stops, at least one.
    pub fn len(&self) -> (r: usize)
        ensures
            r == self@.len(),
            r > 0,
    {
        proof {
            use_type_invariant(self);
        }
        self.stops.len()
    }

    /// The stops that bracket the guide value `guide` (binary32 bits): the
    /// tightest pair `(last, next)` with `last.cenith <= guide < next.cenith`.
    /// Below the first cenith the first stop is returned twice; at or after
    /// the last cenith, with a single stop, or for a NaN guide, the last stop
    /// is returned twice.
    pub fn stops_before_after(&self, guide: u32) -> (r: (&Stop<I>, &Stop<I>))
        ensures
            self@.len() > 0,
            is_sorted_by_cenith(self@),
            float_lt(guide, self@[0].cenith_bits()) ==> *r.0 == self@[0] && *r.1 == self@[0],
            forall|i: int| #[trigger] brackets(self@, guide, i) ==> *r.0 == self@[i] && *r.1 == self@[i + 1],
            !float_lt(guide, self@[0].cenith_bits()) && (forall|i: int| !#[trigger] brackets(self@, guide, i))
                ==> *r.0 == self@[self@.len() - 1] && *r.1 == self@[self@.len() - 1],
    {
        proof {
            use_type_invariant(self);
        }
        let n = self.stops.len();
        let s = &self.stops;
        if cenith_lt(guide, s[0].cenith()) {
            proof {
                assert forall|i: int| !#[trigger] brackets(self@, guide, i) by {
                    if 0 <= i < n - 1 {
                        if i > 0 {
                            assert(float_le(s@[0].cenith_bits(), s@[i].cenith_bits()));
                        }
                    }
                }
            }
            return (&s[0], &s[0]);
        }
        let mut i: usize = 0;
        while i + 1 < n
            invariant
                n == s@.len(),
                s@ == self@,
                n > 0,
                i < n,
                is_sorted_by_cenith(s@),
                forall|k: int| 0 <= k < i ==> !#[trigger] brackets(s@, guide, k),
            decreases n - i,
        {
            if cenith_le(s[i].cenith(), guide) && cenith_lt(guide, s[i + 1].cenith()) {
                proof {
                    assert(brackets(s@, guide, i as int));
                    assert forall|k: int| #[trigger] brackets(s@, guide, k) implies k == i by {
                        if k < i {
                            assert(float_le(s@[k + 1].cenith_bits(), s@[i as int].cenith_bits())
                                || k + 1 == i);
                        } else if k > i {
                            assert(float_le(s@[i + 1].cenith_bits(), s@[k].cenith_bits()) || k == i + 1);
                        }
                    }
                }
                return (&s[i], &s[i + 1]);
            }
            i = i + 1;
        }
        (&s[n - 1], &s[n - 1])
    }
}

} // verus!
