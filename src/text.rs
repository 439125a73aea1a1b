use vstd::prelude::*;

verus! {

/// The decimal digits of `n`, with a leading `-` when negative.
pub uninterp spec fn decimal_of(n: int) -> Seq<char>;

/// Relies on `i64`'s `Display` through `ToString::to_string`: the text depends on the
/// number alone.
#[verifier::external_body]
pub(crate) fn i64_text(n: i64) -> (r: String)
    ensures
        r@ == decimal_of(n as int),
{
    n.to_string()
}

} // verus!
