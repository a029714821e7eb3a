//! Helpers over whole lists of components.
use vstd::prelude::*;
use crate::component::{views_of, AngularComponent, ComponentType, ComponentView};

pub use crate::structure::utilities::replace_extension;

verus! {

/// Whether a component is worth reporting: it is of a known kind and uses
/// translation keys.
pub open spec fn is_reported(c: ComponentView) -> bool {
    c.kind != ComponentType::Ignore && c.translations.len() > 0
}

/// The components of `entries` worth reporting, in order.
pub open spec fn reported(entries: Seq<ComponentView>) -> Seq<ComponentView>
    decreases entries.len(),
{
    if entries.len() == 0 {
        entries
    } else if is_reported(entries.last()) {
        reported(entries.drop_last()).push(entries.last())
    } else {
        reported(entries.drop_last())
    }
}

/// Drops the components of no known kind and those without translation
/// keys, keeping the order of the rest.
pub fn remove_empty_and_ignored(vec: Vec<AngularComponent>) -> (r: Vec<AngularComponent>)
    ensures
        views_of(r@) == reported(views_of(vec@)),
{
    let ghost all = views_of(vec@);
    let mut r: Vec<AngularComponent> = Vec::new();
    let mut i: usize = 0;
    assert(views_of(r@) =~= reported(all.take(0)));
    while i < vec.len()
        invariant
            i <= vec.len(),
            all == views_of(vec@),
            views_of(r@) == reported(all.take(i as int)),
        decreases vec.len() - i,
    {
        assert(all.take(i + 1).drop_last() =~= all.take(i as int));
        assert(all.take(i + 1).last() == vec[i as int]@);
        if vec[i].kind != ComponentType::Ignore && vec[i].translations.len() > 0 {
            let c = vec[i].clone();
            let ghost before = views_of(r@);
            r.push(c);
            assert(views_of(r@) =~= before.push(all[i as int]));
        }
        i = i + 1;
    }
    assert(all.take(all.len() as int) =~= all);
    r
}

/// Whatever is kept is worth reporting, and every component worth
/// reporting is kept.
pub proof fn lemma_reported(entries: Seq<ComponentView>)
    ensures
        forall|i: int| 0 <= i < reported(entries).len() ==> is_reported(#[trigger] reported(entries)[i]),
        forall|i: int| 0 <= i < entries.len() && is_reported(#[trigger] entries[i]) ==> reported(entries).contains(entries[i]),
    decreases entries.len(),
{
    if entries.len() > 0 {
        let d = entries.drop_last();
        lemma_reported(d);
        let r = reported(entries);
        let rd = reported(d);
        assert forall|i: int| 0 <= i < entries.len() && is_reported(#[trigger] entries[i]) implies r.contains(entries[i]) by {
            if i < d.len() {
                assert(d[i] == entries[i]);
                let j = choose|j: int| 0 <= j < rd.len() && rd[j] == d[i];
                assert(r[j] == rd[j]);
            } else {
                assert(r[r.len() - 1] == entries.last());
            }
        }
    }
}

} // verus!
