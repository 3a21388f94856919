use vstd::prelude::*;

verus! {

/// One ranked entry of a leaderboard: a display name, the 1-based rank the
/// entry currently occupies, and an identifier that the owning list assigned
/// at creation and never reuses.
#[derive(Debug, Clone)]
pub struct Node {
    pub name: String,
    pub rank: usize,
    pub id: usize,
}

/// The mathematical value of a `Node`: the same three fields, with the name
/// as a sequence of characters and the numbers unbounded.
#[verifier::ext_equal]
pub ghost struct EntryModel {
    pub name: Seq<char>,
    pub rank: nat,
    pub id: nat,
}

impl View for Node {
    type V = EntryModel;

    open spec fn view(&self) -> EntryModel {
        EntryModel { name: self.name@, rank: self.rank as nat, id: self.id as nat }
    }
}

impl Node {
    /// An exact copy of the node. Written out field by field so that the
    /// copy is known to carry the same name, rank and id.
    pub fn duplicate(&self) -> (r: Node)
        ensures
            r@ == self@,
    {
        Node { name: self.name.clone(), rank: self.rank, id: self.id }
    }
}

} // verus!
