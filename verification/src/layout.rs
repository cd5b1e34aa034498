//! The mode resolver: routing each parsed definition, by its declared
//! platform-kind tag, into the matching slot of the unified layout record.
//!
//! The record is generic in the two converted shapes — the mobile-modes value
//! `M` and the desktop-modes value `D` — because the conversions themselves
//! belong to the external keyboard-model collaborator; the library decides
//! only where a converted value goes, and that a definition with an
//! unrecognized tag is silently dropped.

use vstd::prelude::*;
use crate::lexord::str_eq;

verus! {

/// The platform kinds the resolver recognizes.
pub enum PlatformKind {
    Mobile,
    Mac,
    Win,
    Chrome,
}

/// The kind a platform-kind tag names, if any: `mobile` takes the
/// mobile-modes conversion, `mac`, `win` and `chrome` the desktop one, and
/// every other tag is unrecognized.
pub open spec fn recognize_spec(tag: Seq<char>) -> Option<PlatformKind> {
    if tag == "mobile"@ {
        Some(PlatformKind::Mobile)
    } else if tag == "mac"@ {
        Some(PlatformKind::Mac)
    } else if tag == "win"@ {
        Some(PlatformKind::Win)
    } else if tag == "chrome"@ {
        Some(PlatformKind::Chrome)
    } else {
        None
    }
}

/// Reads a platform-kind tag.
pub fn recognize_tag(tag: &str) -> (r: Option<PlatformKind>)
    ensures
        r == recognize_spec(tag@),
{
    if str_eq(tag, "mobile") {
        Some(PlatformKind::Mobile)
    } else if str_eq(tag, "mac") {
        Some(PlatformKind::Mac)
    } else if str_eq(tag, "win") {
        Some(PlatformKind::Win)
    } else if str_eq(tag, "chrome") {
        Some(PlatformKind::Chrome)
    } else {
        None
    }
}

/// A converted definition: either a mobile-modes value or a desktop-modes
/// value, produced outside from the parsed definition.
pub enum ModePayload<M, D> {
    Mobile(M),
    Desktop(D),
}

/// The unified multi-platform layout record: up to four optional slots, one
/// per recognized platform kind.
pub struct UnifiedLayout<M, D> {
    pub mobile: Option<M>,
    pub mac: Option<D>,
    pub win: Option<D>,
    pub chrome: Option<D>,
}

/// The record with every slot empty.
pub open spec fn empty_layout_spec<M, D>() -> UnifiedLayout<M, D> {
    UnifiedLayout { mobile: None, mac: None, win: None, chrome: None }
}

impl<M, D> UnifiedLayout<M, D> {
    /// Starts a record with every slot empty.
    pub fn empty() -> (r: UnifiedLayout<M, D>)
        ensures
            r == empty_layout_spec::<M, D>(),
    {
        UnifiedLayout { mobile: None, mac: None, win: None, chrome: None }
    }
}

/// What routing one definition into the record does: a recognized tag whose
/// payload has the matching shape fills exactly its slot; any other
/// definition leaves the record as it stands.
pub open spec fn place_spec<M, D>(
    l: UnifiedLayout<M, D>,
    tag: Seq<char>,
    payload: Option<ModePayload<M, D>>,
) -> UnifiedLayout<M, D> {
    match payload {
        None => l,
        Some(ModePayload::Mobile(m)) => if recognize_spec(tag) == Some(PlatformKind::Mobile) {
            UnifiedLayout { mobile: Some(m), ..l }
        } else {
            l
        },
        Some(ModePayload::Desktop(d)) => match recognize_spec(tag) {
            Some(PlatformKind::Mac) => UnifiedLayout { mac: Some(d), ..l },
            Some(PlatformKind::Win) => UnifiedLayout { win: Some(d), ..l },
            Some(PlatformKind::Chrome) => UnifiedLayout { chrome: Some(d), ..l },
            _ => l,
        },
    }
}

/// Routes one converted definition into the record.
pub fn place_definition<M, D>(
    layout: &mut UnifiedLayout<M, D>,
    tag: &str,
    payload: Option<ModePayload<M, D>>,
)
    ensures
        *final(layout) == place_spec(*old(layout), tag@, payload),
{
    match payload {
        None => {
        },
        Some(ModePayload::Mobile(m)) => {
            match recognize_tag(tag) {
                Some(PlatformKind::Mobile) => {
                    layout.mobile = Some(m);
                },
                _ => {
                },
            }
        },
        Some(ModePayload::Desktop(d)) => {
            match recognize_tag(tag) {
                Some(PlatformKind::Mac) => {
                    layout.mac = Some(d);
                },
                Some(PlatformKind::Win) => {
                    layout.win = Some(d);
                },
                Some(PlatformKind::Chrome) => {
                    layout.chrome = Some(d);
                },
                _ => {
                },
            }
        },
    }
}

/// The record that routing a whole sequence of converted definitions
/// builds, first to last, starting from the empty record.
pub open spec fn resolve_spec<M, D>(
    defs: Seq<(String, Option<ModePayload<M, D>>)>,
) -> UnifiedLayout<M, D>
    decreases defs.len(),
{
    if defs.len() == 0 {
        empty_layout_spec()
    } else {
        place_spec(resolve_spec(defs.drop_last()), defs.last().0@, defs.last().1)
    }
}

/// Routes every converted definition of the chosen locale into one unified
/// record. Each definition is a platform-kind tag paired with its converted
/// value, `None` where no conversion applies.
pub fn resolve_modes<M, D>(defs: Vec<(String, Option<ModePayload<M, D>>)>) -> (r: UnifiedLayout<
    M,
    D,
>)
    ensures
        r == resolve_spec(defs@),
{
    let ghost defs0 = defs@;
    let n = defs.len();
    let mut defs = defs;
    let mut layout = UnifiedLayout::<M, D>::empty();
    let mut k: usize = 0;
    assert(defs0.take(0) =~= Seq::<(String, Option<ModePayload<M, D>>)>::empty());
    loop
        invariant_except_break
            n == defs0.len(),
            k <= n,
            defs@ == defs0.skip(k as int),
            layout == resolve_spec(defs0.take(k as int)),
        ensures
            layout == resolve_spec(defs0),
        decreases defs0.len() - k,
    {
        if defs.len() == 0 {
            proof {
                assert(defs0.skip(k as int).len() == 0);
                assert(k == defs0.len());
                assert(defs0.take(k as int) =~= defs0);
            }
            break;
        }
        assert(defs0.skip(k as int).len() > 0);
        assert(k < defs0.len());
        let (tag, payload) = defs.remove(0);
        assert(defs0.skip(k as int)[0] == defs0[k as int]);
        proof {
            assert(defs@ =~= defs0.skip(k as int + 1));
            assert(defs0.take(k as int + 1).drop_last() =~= defs0.take(k as int));
            assert(defs0.take(k as int + 1).last() == defs0[k as int]);
        }
        place_definition(&mut layout, tag.as_str(), payload);
        k = k + 1;
    }
    layout
}

/// A definition with an unrecognized platform-kind tag leaves the record
/// unchanged: no slot is filled and no error is surfaced.
pub proof fn lemma_unrecognized_leaves_record<M, D>(
    l: UnifiedLayout<M, D>,
    tag: Seq<char>,
    payload: Option<ModePayload<M, D>>,
)
    requires
        recognize_spec(tag) is None,
    ensures
        place_spec(l, tag, payload) == l,
{
}

/// A whole sequence of definitions with unrecognized tags resolves to the
/// empty record.
pub proof fn lemma_unrecognized_all_dropped<M, D>(defs: Seq<(String, Option<ModePayload<M, D>>)>)
    requires
        forall|k: int| 0 <= k < defs.len() ==> recognize_spec(#[trigger] defs[k].0@) is None,
    ensures
        resolve_spec(defs) == empty_layout_spec::<M, D>(),
    decreases defs.len(),
{
    if defs.len() > 0 {
        assert(forall|k: int|
            0 <= k < defs.drop_last().len() ==> recognize_spec(
                #[trigger] defs.drop_last()[k].0@,
            ) is None);
        lemma_unrecognized_all_dropped(defs.drop_last());
    }
}

} // verus!
