use vstd::prelude::*;

verus! {

/// The campaign series a module belongs to, ordered for the selection
/// screen by its position.  Groups are the same exactly when their
/// identifiers are.
#[derive(Debug)]
pub struct CampaignGroup {
    pub id: String,
    pub name: String,
    pub position: usize,
}

impl PartialEq for CampaignGroup {
    fn eq(&self, other: &CampaignGroup) -> (r: bool) {
        self.id == other.id
    }
}

impl vstd::std_specs::cmp::PartialEqSpecImpl for CampaignGroup {
    open spec fn obeys_eq_spec() -> bool {
        true
    }

    open spec fn eq_spec(&self, other: &CampaignGroup) -> bool {
        self.id@ == other.id@
    }
}

} // verus!
