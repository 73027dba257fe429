//! The emphasis tree and its mathematical model.
use vstd::prelude::*;

verus! {

broadcast use vstd::std_specs::vec::group_vec_axioms;

/// The mathematical model of an emphasis tree.
pub enum Tree {
    Document(Seq<Tree>),
    Bold(Seq<Tree>),
    Italics(Seq<Tree>),
    Text(Seq<char>),
}

/// A node of the emphasis tree. The root of a parse is always a `Document`.
#[derive(Debug, PartialEq, Eq)]
pub enum ASTNode {
    Document(Vec<ASTNode>),
    Bold(Vec<ASTNode>),
    Italics(Vec<ASTNode>),
    Text(String),
}

impl ASTNode {
    /// The model of a node: text becomes its characters, children their models.
    pub open spec fn model(&self) -> Tree
        decreases self,
    {
        match self {
            ASTNode::Document(v) => Tree::Document(
                Seq::new(v@.len(), |i: int| if 0 <= i < v@.len() { v@[i].model() } else { Tree::Text(Seq::empty()) }),
            ),
            ASTNode::Bold(v) => Tree::Bold(
                Seq::new(v@.len(), |i: int| if 0 <= i < v@.len() { v@[i].model() } else { Tree::Text(Seq::empty()) }),
            ),
            ASTNode::Italics(v) => Tree::Italics(
                Seq::new(v@.len(), |i: int| if 0 <= i < v@.len() { v@[i].model() } else { Tree::Text(Seq::empty()) }),
            ),
            ASTNode::Text(s) => Tree::Text(s@),
        }
    }
}

/// The models of a sequence of nodes.
pub open spec fn models(v: Seq<ASTNode>) -> Seq<Tree> {
    v.map_values(|n: ASTNode| n.model())
}

/// A node's model is built from the models of its children.
pub proof fn lemma_model_children(n: ASTNode)
    ensures
        n matches ASTNode::Document(v) ==> n.model() == Tree::Document(models(v@)),
        n matches ASTNode::Bold(v) ==> n.model() == Tree::Bold(models(v@)),
        n matches ASTNode::Italics(v) ==> n.model() == Tree::Italics(models(v@)),
{
    match n {
        ASTNode::Document(v) => assert(n.model()->Document_0 =~= models(v@)),
        ASTNode::Bold(v) => assert(n.model()->Bold_0 =~= models(v@)),
        ASTNode::Italics(v) => assert(n.model()->Italics_0 =~= models(v@)),
        ASTNode::Text(_) => {},
    }
}

} // verus!
