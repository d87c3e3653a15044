//! An edit of a text rope, as xi_rope describes it, and the position mapping
//! it provides.

use vstd::prelude::*;
use vstd::string::StringSliceAdditionalSpecFns;
use xi_rope::delta::{Delta, Transformer};
use xi_rope::interval::Interval;
use xi_rope::rope::{Rope, RopeInfo};

verus! {

/// An edit of a text rope: xi_rope's `Delta<RopeInfo>`, held opaque. It is
/// only made by `simple_edit`, through xi_rope's own builder, so its copied
/// regions come in order and none is inverted.
#[verifier::external_body]
pub struct RopeEdit(Delta<RopeInfo>);

/// Where `Transformer::transform` sends position `ix` through `edit`, landing
/// before any text inserted there.
pub uninterp spec fn transformed_before(edit: RopeEdit, ix: usize) -> usize;

/// Both ends of each range of `r`, mapped through `edit`.
pub open spec fn mapped_ranges(edit: RopeEdit, r: Seq<(usize, usize)>) -> Seq<(usize, usize)> {
    Seq::new(
        r.len(),
        |k: int| (transformed_before(edit, r[k].0), transformed_before(edit, r[k].1)),
    )
}

/// Where the edit that replaces `start..end` of a document of length
/// `base_len` by `n` bytes sends position `ix`, landing before the inserted
/// text: positions up to `start` stay, those in the replaced range go to the
/// end of the inserted text, those after it shift by the change in length.
pub open spec fn simple_map(start: int, end: int, n: int, base_len: int, ix: int) -> int {
    if ix <= start {
        ix
    } else if ix <= end {
        start + n
    } else if ix <= base_len {
        ix - (end - start) + n
    } else {
        base_len - (end - start) + n
    }
}

/// Relies on xi_rope's `Delta::simple_edit` (with `Interval::new` and
/// `Rope::from`, whose length is the text's byte count): it builds the
/// elements `Copy(0, start)`, `Insert(text)` and `Copy(end, base_len)`,
/// leaving out empty ones, and `Transformer::transform(ix, false)` over them
/// gives `simple_map`. `Interval::new` debug-asserts `start <= end`; the
/// bound on `base_len` keeps every sum that `transform` forms in range.
#[verifier::external_body]
fn build_simple_edit(start: usize, end: usize, text: &str, base_len: usize) -> (r: RopeEdit)
    requires
        start <= end <= base_len,
        2 * base_len + text.spec_bytes().len() <= usize::MAX,
    ensures
        forall|ix: usize|
            #[trigger] transformed_before(r, ix) as int == simple_map(
                start as int,
                end as int,
                text.spec_bytes().len() as int,
                base_len as int,
                ix as int,
            ),
{
    RopeEdit(Delta::simple_edit(Interval::new(start, end), Rope::from(text), base_len))
}

/// Relies on xi_rope's `Transformer::transform`, through a `Transformer` made
/// on the edit (which holds only the reference): maps a position of the
/// document before the edit to one after it, landing before any text
/// inserted there. The result depends on the edit and the position alone.
#[verifier::external_body]
pub(crate) fn transform_before(edit: &RopeEdit, ix: usize) -> (r: usize)
    ensures
        r == transformed_before(*edit, ix),
{
    Transformer::new(&edit.0).transform(ix, false)
}

impl RopeEdit {
    /// The edit that replaces `start..end` of a document of length
    /// `base_len` by `text` (an insertion when the range is empty, a deletion
    /// when the text is).
    pub fn simple_edit(start: usize, end: usize, text: &str, base_len: usize) -> (r: RopeEdit)
        requires
            start <= end <= base_len,
            2 * base_len + text.spec_bytes().len() <= usize::MAX,
        ensures
            forall|ix: usize|
                #[trigger] transformed_before(r, ix) as int == simple_map(
                    start as int,
                    end as int,
                    text.spec_bytes().len() as int,
                    base_len as int,
                    ix as int,
                ),
    {
        build_simple_edit(start, end, text, base_len)
    }
}

} // verus!
