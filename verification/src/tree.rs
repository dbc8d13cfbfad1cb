//! The induced classifier: its executable form and its mathematical model.

use crate::dataset::Text;
use vstd::prelude::*;

verus! {

/// Mathematical model of a classification tree.
pub enum TreeModel {
    /// A terminal node that predicts `value`.
    Leaf { value: Text },
    /// An internal node that routes by the value of the attribute in column
    /// `column`, whose name is `attribute`; each child is keyed by the
    /// variant that leads to it.
    Decision { attribute: Text, column: int, children: Seq<(Text, TreeModel)> },
}

/// The text that opens every rendered line.
pub open spec fn line_break() -> Text {
    seq!['\n']
}

/// The text between an attribute and a variant.
pub open spec fn arrow() -> Text {
    seq![' ', '-', '>', ' ']
}

/// One level of indentation, which is also what follows a variant.
pub open spec fn blank() -> Text {
    seq![' ']
}

/// The text of a tree whose root is indented by `padding`: a leaf is a line
/// with its value; a decision node is, for each child, a line with the
/// attribute and the child's variant, followed by the child one level
/// deeper.
pub open spec fn render(tree: TreeModel, padding: Text) -> Text
    decreases tree,
{
    match tree {
        TreeModel::Leaf { value } => line_break() + padding + value,
        TreeModel::Decision { attribute, children, .. } => render_branches(attribute, children, padding),
    }
}

/// The text of the children of a decision node on `attribute`.
pub open spec fn render_branches(attribute: Text, children: Seq<(Text, TreeModel)>, padding: Text) -> Text
    decreases children,
{
    if children.len() == 0 {
        Seq::empty()
    } else {
        render_branches(attribute, children.drop_last(), padding) + line_break() + padding
            + attribute + arrow() + children.last().0 + blank() + render(
            children.last().1,
            padding + blank(),
        )
    }
}

/// The two states a node can be in.
pub enum Node {
    /// A terminal node that predicts `value`.
    Leaf { value: String },
    /// An internal node on the attribute in column `column`, whose name is
    /// `attribute`, with one child for each variant that has one, keyed by
    /// the variant.
    Decision { attribute: String, column: usize, children: Vec<(String, DecisionTree)> },
}

/// A classification tree. Every node is either a leaf or a decision node.
pub struct DecisionTree {
    pub node: Node,
}

/// The models of the children of a decision node.
pub open spec fn branch_models(children: Seq<(String, DecisionTree)>) -> Seq<(Text, TreeModel)>
    decreases children,
{
    if children.len() == 0 {
        Seq::empty()
    } else {
        branch_models(children.drop_last()).push((children.last().0@, children.last().1.model()))
    }
}

impl DecisionTree {
    /// The model of the tree.
    pub open spec fn model(&self) -> TreeModel
        decreases self,
    {
        match self.node {
            Node::Leaf { value } => TreeModel::Leaf { value: value@ },
            Node::Decision { attribute, column, children } => TreeModel::Decision {
                attribute: attribute@,
                column: column as int,
                children: branch_models(children@),
            },
        }
    }
}

impl View for DecisionTree {
    type V = TreeModel;

    open spec fn view(&self) -> TreeModel {
        self.model()
    }
}

/// The model of each child is the model of its subtree under its variant.
pub proof fn lemma_branch_models(children: Seq<(String, DecisionTree)>)
    ensures
        branch_models(children).len() == children.len(),
        forall|i: int|
            0 <= i < children.len() ==> #[trigger] branch_models(children)[i] == (
                children[i].0@,
                children[i].1@,
            ),
    decreases children.len(),
{
    if children.len() > 0 {
        lemma_branch_models(children.drop_last());
    }
}

impl DecisionTree {
    /// A decision node on the attribute `attribute` in column `column`, with
    /// the given children.
    pub fn decision(attribute: String, column: usize, children: Vec<(String, DecisionTree)>) -> (tree:
        DecisionTree)
        ensures
            tree@ == (TreeModel::Decision {
                attribute: attribute@,
                column: column as int,
                children: branch_models(children@),
            }),
    {
        DecisionTree { node: Node::Decision { attribute, column, children } }
    }

    /// Appends to `out` the text of the tree with its root indented by
    /// `padding`.
    pub fn render_into(&self, padding: &String, out: &mut String)
        ensures
            final(out)@ == old(out)@ + render(self@, padding@),
        decreases self,
    {
        proof {
            reveal_strlit("\n");
            reveal_strlit(" -> ");
            reveal_strlit(" ");
            assert("\n"@ =~= line_break());
            assert(" -> "@ =~= arrow());
            assert(" "@ =~= blank());
        }
        match &self.node {
            Node::Leaf { value } => {
                out.append("\n");
                out.append(padding.as_str());
                out.append(value.as_str());
                assert(out@ =~= old(out)@ + (line_break() + padding@ + value@));
            },
            Node::Decision { attribute, column, children } => {
                let mut deeper = padding.clone();
                deeper.append(" ");
                let ghost models = branch_models(children@);
                proof {
                    lemma_branch_models(children@);
                }
                let mut i: usize = 0;
                assert(models.take(0) =~= Seq::<(Text, TreeModel)>::empty());
                assert(out@ =~= old(out)@ + Seq::<char>::empty());
                while i < children.len()
                    invariant
                        i <= children.len(),
                        models == branch_models(children@),
                        models.len() == children@.len(),
                        forall|k: int|
                            0 <= k < children@.len() ==> #[trigger] models[k] == (
                                children@[k].0@,
                                children@[k].1@,
                            ),
                        deeper@ == padding@ + blank(),
                        "\n"@ == line_break(),
                        " -> "@ == arrow(),
                        " "@ == blank(),
                        self.node == (Node::Decision {
                            attribute: *attribute,
                            column: *column,
                            children: *children,
                        }),
                        out@ == old(out)@ + render_branches(attribute@, models.take(i as int), padding@),
                    decreases children.len() - i,
                {
                    let ghost start = out@;
                    let ghost done = render_branches(attribute@, models.take(i as int), padding@);
                    out.append("\n");
                    out.append(padding.as_str());
                    out.append(attribute.as_str());
                    out.append(" -> ");
                    out.append(children[i].0.as_str());
                    out.append(" ");
                    let ghost head = out@;
                    proof {
                        assert(models[i as int] == (children@[i as int].0@, children@[i as int].1@));
                        assert(head =~= start + line_break() + padding@ + attribute@ + arrow()
                            + models[i as int].0 + blank());
                        assert(decreases_to!(self => self.node));
                        assert(self.node->children == *children);
                        assert(decreases_to!(self.node => self.node->children));
                        assert(decreases_to!(self.node->children => self.node->children[i as int]));
                        assert(decreases_to!(self.node->children[i as int] => self.node->children[i as int].1));
                    }
                    children[i].1.render_into(&deeper, out);
                    proof {
                        assert(models.take(i + 1).drop_last() =~= models.take(i as int));
                        assert(models.take(i + 1).last() == models[i as int]);
                        assert(out@ =~= old(out)@ + (done + line_break() + padding@ + attribute@
                            + arrow() + models[i as int].0 + blank() + render(
                            models[i as int].1,
                            padding@ + blank(),
                        )));
                    }
                    i += 1;
                }
                assert(models.take(children.len() as int) =~= models);
            },
        }
    }

    /// The text of the tree.
    pub fn to_text(&self) -> (text: String)
        ensures
            text@ == render(self@, Seq::empty()),
    {
        let padding = String::new();
        let mut out = String::new();
        self.render_into(&padding, &mut out);
        assert(out@ =~= render(self@, Seq::empty()));
        out
    }

    /// A leaf that predicts `value`.
    pub fn leaf(value: String) -> (tree: DecisionTree)
        ensures
            tree@ == (TreeModel::Leaf { value: value@ }),
    {
        DecisionTree { node: Node::Leaf { value } }
    }
}

} // verus!
