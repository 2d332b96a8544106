//! Where each catalog entry is to be saved.
use vstd::prelude::*;
use crate::catalog::CatalogEntry;
use crate::paths::{join_path, joined};

verus! {

#[derive(Debug, Clone, PartialEq, Eq)]
pub struct DownloadPlan {
    pub composer: String,
    pub title: String,
    pub source_page: String,
    pub target_path: String,
}

/// The plan for one catalog entry: its details, saved at its target path below `root`.
pub open spec fn plan_for(entry: CatalogEntry, root: Seq<char>, plan: DownloadPlan) -> bool {
    &&& plan.composer@ == entry.composer@
    &&& plan.title@ == entry.title@
    &&& plan.source_page@ == entry.source_page@
    &&& plan.target_path@ == joined(root, entry.target_path@)
}

/// One plan per catalog entry, in order, each saved below `root`.
pub fn plan_downloads(entries: &[CatalogEntry], root: String) -> (plans: Vec<DownloadPlan>)
    ensures
        plans@.len() == entries@.len(),
        forall|i: int| 0 <= i < entries@.len() ==> plan_for(entries@[i], root@, #[trigger] plans@[i]),
{
    let mut plans: Vec<DownloadPlan> = Vec::new();
    let mut i: usize = 0;
    while i < entries.len()
        invariant
            i <= entries@.len(),
            plans@.len() == i,
            forall|k: int| 0 <= k < i ==> plan_for(entries@[k], root@, #[trigger] plans@[k]),
        decreases entries@.len() - i,
    {
        let entry = &entries[i];
        plans.push(
            DownloadPlan {
                composer: entry.composer.clone(),
                title: entry.title.clone(),
                source_page: entry.source_page.clone(),
                target_path: join_path(root.as_str(), entry.target_path.as_str()),
            },
        );
        i += 1;
    }
    plans
}

} // verus!
