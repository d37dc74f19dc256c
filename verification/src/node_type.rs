use vstd::prelude::*;

verus! {

/// The closed classification of data subsets that snapshots are produced for.
/// Each category has an independent retention count in the catalog.
#[derive(Clone, Copy, Debug, PartialEq, Eq, Structural)]
pub enum NodeType {
    Beacond,
    Reth,
}

impl NodeType {
    /// The tag this category is written as in catalog documents.
    pub open spec fn spec_tag(self) -> Seq<char> {
        match self {
            NodeType::Beacond => "beacond"@,
            NodeType::Reth => "reth"@,
        }
    }

    pub fn as_str(&self) -> (r: &'static str)
        ensures
            r@ == self.spec_tag(),
    {
        match self {
            NodeType::Beacond => "beacond",
            NodeType::Reth => "reth",
        }
    }

    /// Decode a catalog tag; unknown tags are rejected.
    pub fn from_tag(tag: &String) -> (r: Option<NodeType>)
        ensures
            match r {
                Some(t) => tag@ == t.spec_tag(),
                None => forall|t: NodeType| tag@ != t.spec_tag(),
            },
    {
        let beacond = String::from_str("beacond");
        let reth = String::from_str("reth");
        if *tag == beacond {
            Some(NodeType::Beacond)
        } else if *tag == reth {
            Some(NodeType::Reth)
        } else {
            proof {
                assert forall|t: NodeType| tag@ != t.spec_tag() by {
                    assert(t is Beacond || t is Reth);
                }
            }
            None
        }
    }

    /// Two distinct categories never share a tag.
    pub proof fn lemma_tag_injective(a: NodeType, b: NodeType)
        ensures
            a.spec_tag() == b.spec_tag() ==> a == b,
    {
        reveal_strlit("beacond");
        reveal_strlit("reth");
        assert(("beacond"@).len() == 7);
        assert(("reth"@).len() == 4);
        assert(a is Beacond || a is Reth);
        assert(b is Beacond || b is Reth);
    }
}

} // verus!
