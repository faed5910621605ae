//! Dense tensors: a shape and as many elements as it spans.
use vstd::prelude::*;
use vstd::string::*;

use crate::text::{decimal, list_text, sizes_text, unsigned_text};

verus! {

#[derive(Debug, Clone, PartialEq)]
pub struct Tensor<T> {
    pub shape: Vec<usize>,
    pub data: Vec<T>,
}

/// The product of sizes.
pub open spec fn product(s: Seq<usize>) -> int
    decreases s.len(),
{
    if s.len() == 0 {
        1
    } else {
        product(s.drop_last()) * s.last()
    }
}

/// Every product of leading sizes is a machine integer.
pub open spec fn products_fit(s: Seq<usize>) -> bool {
    forall|i: int| 0 <= i <= s.len() ==> product(#[trigger] s.take(i)) <= usize::MAX
}

pub open spec fn mismatch_text(shape: Seq<usize>, len: int) -> Seq<char> {
    "data length "@ + decimal(len) + " does not match shape "@ + list_text(shape) + " (expected "@
        + decimal(product(shape)) + ")"@
}

/// The count of elements that a shape spans.
pub(crate) fn span(shape: &Vec<usize>) -> (r: usize)
    requires
        products_fit(shape@),
    ensures
        r == product(shape@),
{
    let mut r: usize = 1;
    let mut i: usize = 0;
    assert(shape@.take(0) =~= Seq::empty());
    while i < shape.len()
        invariant
            i <= shape@.len(),
            products_fit(shape@),
            r == product(shape@.take(i as int)),
        decreases shape@.len() - i,
    {
        proof {
            let next = shape@.take(i + 1);
            assert(next.drop_last() =~= shape@.take(i as int));
            assert(product(next) <= usize::MAX);
        }
        r = r * shape[i];
        i += 1;
    }
    assert(shape@.take(i as int) =~= shape@);
    r
}

impl<T> Tensor<T> {
    /// A tensor of the given elements, or a message where there are not as many as the shape
    /// spans.
    pub fn new(shape: Vec<usize>, data: Vec<T>) -> (res: Result<Self, String>)
        requires
            products_fit(shape@),
        ensures
            match res {
                Ok(t) => data@.len() == product(shape@) && t.shape@ == shape@ && t.data@ == data@,
                Err(e) => data@.len() != product(shape@) && e@ == mismatch_text(
                    shape@,
                    data@.len() as int,
                ),
            },
    {
        let expected: usize = span(&shape);
        if data.len() != expected {
            let mut text = String::from_str("data length ");
            text.append(unsigned_text(data.len() as u128).as_str());
            text.append(" does not match shape ");
            text.append(sizes_text(&shape).as_str());
            text.append(" (expected ");
            text.append(unsigned_text(expected as u128).as_str());
            text.append(")");
            return Err(text);
        }
        Ok(Tensor { shape, data })
    }
}

/// The span of a shape is multiplicative: sizes written one after the other span the product of
/// what they span apart, in either order, a single size spans as many elements as it says, and
/// no size at all spans one.
pub proof fn lemma_span_multiplies(s: Seq<usize>, t: Seq<usize>, n: usize)
    ensures
        product(s + t) == product(s) * product(t),
        product(s + t) == product(t + s),
        product(seq![n]) == n,
        product(Seq::<usize>::empty()) == 1,
{
    lemma_product_concat(s, t);
    lemma_product_concat(t, s);
    vstd::arithmetic::mul::lemma_mul_is_commutative(product(s), product(t));
    assert(seq![n].drop_last() =~= Seq::<usize>::empty());
    reveal_with_fuel(product, 2);
}

proof fn lemma_product_concat(s: Seq<usize>, t: Seq<usize>)
    ensures
        product(s + t) == product(s) * product(t),
    decreases t.len(),
{
    if t.len() == 0 {
        assert(s + t =~= s);
    } else {
        let rest = t.drop_last();
        lemma_product_concat(s, rest);
        assert((s + t).drop_last() =~= s + rest);
        vstd::arithmetic::mul::lemma_mul_is_associative(
            product(s),
            product(rest),
            t.last() as int,
        );
    }
}

/// A shape can be counted where its span can: sizes that are not zero keep every partial product
/// below the whole.
pub proof fn lemma_span_fits(s: Seq<usize>)
    requires
        forall|i: int| 0 <= i < s.len() ==> #[trigger] s[i] > 0,
        product(s) <= usize::MAX,
    ensures
        products_fit(s),
{
    assert forall|i: int| 0 <= i <= s.len() implies product(#[trigger] s.take(i))
        <= usize::MAX by {
        let (a, b) = (s.take(i), s.skip(i));
        assert(a + b =~= s);
        lemma_product_concat(a, b);
        lemma_product_positive(a);
        lemma_product_positive(b);
        let (x, y) = (product(a), product(b));
        assert(x <= x * y) by (nonlinear_arith)
            requires
                x >= 1,
                y >= 1,
        ;
    }
}

proof fn lemma_product_positive(s: Seq<usize>)
    requires
        forall|i: int| 0 <= i < s.len() ==> #[trigger] s[i] > 0,
    ensures
        product(s) >= 1,
    decreases s.len(),
{
    if s.len() > 0 {
        let rest = s.drop_last();
        assert forall|i: int| 0 <= i < rest.len() implies #[trigger] rest[i] > 0 by {
            assert(rest[i] == s[i]);
        }
        lemma_product_positive(rest);
        assert(s[s.len() - 1] > 0);
        let (x, y) = (product(rest), s.last() as int);
        assert(x * y >= 1) by (nonlinear_arith)
            requires
                x >= 1,
                y >= 1,
        ;
    }
}

} // verus!
