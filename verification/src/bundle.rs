//! The output bundle: the unified layout record wrapped under the chosen
//! locale key, ready for the external persistence step.

use vstd::prelude::*;
use crate::index::LocaleKey;
use crate::layout::UnifiedLayout;

verus! {

/// A bundle maps locale keys to unified layout records. The format supports
/// many entries; assembled here it carries exactly the chosen one.
pub struct OutputBundle<M, D> {
    pub layouts: Vec<(LocaleKey, UnifiedLayout<M, D>)>,
}

/// The mathematical content of a bundle.
pub open spec fn bundle_map<M, D>(
    ls: Seq<(LocaleKey, UnifiedLayout<M, D>)>,
) -> Map<Seq<char>, UnifiedLayout<M, D>>
    decreases ls.len(),
{
    if ls.len() == 0 {
        Map::empty()
    } else {
        bundle_map(ls.drop_last()).insert(ls.last().0@, ls.last().1)
    }
}

impl<M, D> View for OutputBundle<M, D> {
    type V = Map<Seq<char>, UnifiedLayout<M, D>>;

    open spec fn view(&self) -> Map<Seq<char>, UnifiedLayout<M, D>> {
        bundle_map(self.layouts@)
    }
}

/// Wraps the unified layout record under the chosen locale key inside a
/// fresh, otherwise-empty bundle. The record itself is not transformed.
pub fn assemble_bundle<M, D>(locale: LocaleKey, layout: UnifiedLayout<M, D>) -> (b: OutputBundle<
    M,
    D,
>)
    ensures
        b.layouts@.len() == 1,
        b.layouts@[0].0 == locale,
        b.layouts@[0].1 == layout,
        b@ == Map::<Seq<char>, UnifiedLayout<M, D>>::empty().insert(locale@, layout),
{
    let mut layouts: Vec<(LocaleKey, UnifiedLayout<M, D>)> = Vec::new();
    layouts.push((locale, layout));
    let b = OutputBundle { layouts };
    proof {
        assert(b.layouts@.drop_last() =~= Seq::<(LocaleKey, UnifiedLayout<M, D>)>::empty());
        assert(bundle_map(Seq::<(LocaleKey, UnifiedLayout<M, D>)>::empty()) == Map::<
            Seq<char>,
            UnifiedLayout<M, D>,
        >::empty());
    }
    b
}

} // verus!
