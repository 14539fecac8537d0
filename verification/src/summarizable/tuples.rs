//! Tuples that cross the boundary of a summarizable function.

use super::value::{lemma_node, trees_view, SummarizableVal, SummaryTree, TreeView};
use vstd::prelude::*;
use vstd::string::*;

verus! {

impl<A: SummarizableVal> SummarizableVal for (A,) {
    open spec fn tree(&self) -> TreeView {
        TreeView::Node(0, seq![self.0.tree()])
    }

    open spec fn fits(t: TreeView) -> bool {
        match t {
            TreeView::Node(k, fields) => k == 0 && fields.len() == 1 && A::fits(fields[0]),
            _ => false,
        }
    }

    open spec fn kind_text() -> Seq<char> {
        "("@ + A::kind_text() + ",)"@
    }

    open spec fn equals(&self, other: &Self) -> bool {
        &&& self.0.equals(&other.0)
    }

    proof fn law_trees_tell_values_apart(&self, other: &Self) {
        self.0.law_trees_tell_values_apart(&other.0);
        let (x, y) = (self.tree()->Node_1, other.tree()->Node_1);
        assert(x[0] == self.0.tree() && y[0] == other.0.tree());
        if self.equals(other) {
            assert(x =~= y);
        }
    }

    proof fn lemma_tree(&self) {
        self.0.lemma_tree();
    }

    proof fn lemma_shape(a: TreeView, b: TreeView) {
        A::lemma_shape(a->Node_1[0], b->Node_1[0]);
    }

    fn kind_name() -> (s: String) {
        let mut s = String::from_str("(");
        s.append(A::kind_name().as_str());
        s.append(",)");
        s
    }

    fn to_tree(&self) -> (t: SummaryTree) {
        let mut fields: Vec<SummaryTree> = Vec::new();
        fields.push(self.0.to_tree());
        proof {
            lemma_node(0, fields);
            assert(trees_view(fields@) =~= self.tree()->Node_1);
        }
        SummaryTree::Node(0, fields)
    }

    fn from_tree(t: &SummaryTree) -> (r: Option<Self>) {
        match t {
            SummaryTree::Node(k, fields) => {
                proof {
                    lemma_node(*k, *fields);
                }
                if *k != 0 || fields.len() != 1 {
                    return None;
                }
                assert(trees_view(fields@) =~= seq![fields@[0]@]);
                let v0 = match A::from_tree(&fields[0]) {
                    Some(v) => v,
                    None => return None,
                };
                Some((v0,))
            },
            _ => None,
        }
    }
}

impl<A: SummarizableVal, B: SummarizableVal> SummarizableVal for (A, B) {
    open spec fn tree(&self) -> TreeView {
        TreeView::Node(0, seq![self.0.tree(), self.1.tree()])
    }

    open spec fn fits(t: TreeView) -> bool {
        match t {
            TreeView::Node(k, fields) => k == 0 && fields.len() == 2 && A::fits(fields[0])
                && B::fits(fields[1]),
            _ => false,
        }
    }

    open spec fn kind_text() -> Seq<char> {
        "("@ + A::kind_text() + ", "@ + B::kind_text() + ")"@
    }

    open spec fn equals(&self, other: &Self) -> bool {
        &&& self.0.equals(&other.0)
        &&& self.1.equals(&other.1)
    }

    proof fn law_trees_tell_values_apart(&self, other: &Self) {
        self.0.law_trees_tell_values_apart(&other.0);
        self.1.law_trees_tell_values_apart(&other.1);
        let (x, y) = (self.tree()->Node_1, other.tree()->Node_1);
        assert(x[0] == self.0.tree() && y[0] == other.0.tree());
        assert(x[1] == self.1.tree() && y[1] == other.1.tree());
        if self.equals(other) {
            assert(x =~= y);
        }
    }

    proof fn lemma_tree(&self) {
        self.0.lemma_tree();
        self.1.lemma_tree();
    }

    proof fn lemma_shape(a: TreeView, b: TreeView) {
        A::lemma_shape(a->Node_1[0], b->Node_1[0]);
        B::lemma_shape(a->Node_1[1], b->Node_1[1]);
    }

    fn kind_name() -> (s: String) {
        let mut s = String::from_str("(");
        s.append(A::kind_name().as_str());
        s.append(", ");
        s.append(B::kind_name().as_str());
        s.append(")");
        s
    }

    fn to_tree(&self) -> (t: SummaryTree) {
        let mut fields: Vec<SummaryTree> = Vec::new();
        fields.push(self.0.to_tree());
        fields.push(self.1.to_tree());
        proof {
            lemma_node(0, fields);
            assert(trees_view(fields@) =~= self.tree()->Node_1);
        }
        SummaryTree::Node(0, fields)
    }

    fn from_tree(t: &SummaryTree) -> (r: Option<Self>) {
        match t {
            SummaryTree::Node(k, fields) => {
                proof {
                    lemma_node(*k, *fields);
                }
                if *k != 0 || fields.len() != 2 {
                    return None;
                }
                assert(trees_view(fields@) =~= seq![fields@[0]@, fields@[1]@]);
                let v0 = match A::from_tree(&fields[0]) {
                    Some(v) => v,
                    None => return None,
                };
                let v1 = match B::from_tree(&fields[1]) {
                    Some(v) => v,
                    None => return None,
                };
                Some((v0, v1))
            },
            _ => None,
        }
    }
}

impl<A: SummarizableVal, B: SummarizableVal, C: SummarizableVal> SummarizableVal for (A, B, C) {
    open spec fn tree(&self) -> TreeView {
        TreeView::Node(0, seq![self.0.tree(), self.1.tree(), self.2.tree()])
    }

    open spec fn fits(t: TreeView) -> bool {
        match t {
            TreeView::Node(k, fields) => k == 0 && fields.len() == 3 && A::fits(fields[0])
                && B::fits(fields[1])
                && C::fits(fields[2]),
            _ => false,
        }
    }

    open spec fn kind_text() -> Seq<char> {
        "("@ + A::kind_text() + ", "@ + B::kind_text() + ", "@ + C::kind_text() + ")"@
    }

    open spec fn equals(&self, other: &Self) -> bool {
        &&& self.0.equals(&other.0)
        &&& self.1.equals(&other.1)
        &&& self.2.equals(&other.2)
    }

    proof fn law_trees_tell_values_apart(&self, other: &Self) {
        self.0.law_trees_tell_values_apart(&other.0);
        self.1.law_trees_tell_values_apart(&other.1);
        self.2.law_trees_tell_values_apart(&other.2);
        let (x, y) = (self.tree()->Node_1, other.tree()->Node_1);
        assert(x[0] == self.0.tree() && y[0] == other.0.tree());
        assert(x[1] == self.1.tree() && y[1] == other.1.tree());
        assert(x[2] == self.2.tree() && y[2] == other.2.tree());
        if self.equals(other) {
            assert(x =~= y);
        }
    }

    proof fn lemma_tree(&self) {
        self.0.lemma_tree();
        self.1.lemma_tree();
        self.2.lemma_tree();
    }

    proof fn lemma_shape(a: TreeView, b: TreeView) {
        A::lemma_shape(a->Node_1[0], b->Node_1[0]);
        B::lemma_shape(a->Node_1[1], b->Node_1[1]);
        C::lemma_shape(a->Node_1[2], b->Node_1[2]);
    }

    fn kind_name() -> (s: String) {
        let mut s = String::from_str("(");
        s.append(A::kind_name().as_str());
        s.append(", ");
        s.append(B::kind_name().as_str());
        s.append(", ");
        s.append(C::kind_name().as_str());
        s.append(")");
        s
    }

    fn to_tree(&self) -> (t: SummaryTree) {
        let mut fields: Vec<SummaryTree> = Vec::new();
        fields.push(self.0.to_tree());
        fields.push(self.1.to_tree());
        fields.push(self.2.to_tree());
        proof {
            lemma_node(0, fields);
            assert(trees_view(fields@) =~= self.tree()->Node_1);
        }
        SummaryTree::Node(0, fields)
    }

    fn from_tree(t: &SummaryTree) -> (r: Option<Self>) {
        match t {
            SummaryTree::Node(k, fields) => {
                proof {
                    lemma_node(*k, *fields);
                }
                if *k != 0 || fields.len() != 3 {
                    return None;
                }
                assert(trees_view(fields@) =~= seq![fields@[0]@, fields@[1]@, fields@[2]@]);
                let v0 = match A::from_tree(&fields[0]) {
                    Some(v) => v,
                    None => return None,
                };
                let v1 = match B::from_tree(&fields[1]) {
                    Some(v) => v,
                    None => return None,
                };
                let v2 = match C::from_tree(&fields[2]) {
                    Some(v) => v,
                    None => return None,
                };
                Some((v0, v1, v2))
            },
            _ => None,
        }
    }
}

impl<A: SummarizableVal, B: SummarizableVal, C: SummarizableVal, D: SummarizableVal> SummarizableVal for (A, B, C, D) {
    open spec fn tree(&self) -> TreeView {
        TreeView::Node(0, seq![self.0.tree(), self.1.tree(), self.2.tree(), self.3.tree()])
    }

    open spec fn fits(t: TreeView) -> bool {
        match t {
            TreeView::Node(k, fields) => k == 0 && fields.len() == 4 && A::fits(fields[0])
                && B::fits(fields[1])
                && C::fits(fields[2])
                && D::fits(fields[3]),
            _ => false,
        }
    }

    open spec fn kind_text() -> Seq<char> {
        "("@ + A::kind_text() + ", "@ + B::kind_text() + ", "@ + C::kind_text() + ", "@ + D::kind_text() + ")"@
    }

    open spec fn equals(&self, other: &Self) -> bool {
        &&& self.0.equals(&other.0)
        &&& self.1.equals(&other.1)
        &&& self.2.equals(&other.2)
        &&& self.3.equals(&other.3)
    }

    proof fn law_trees_tell_values_apart(&self, other: &Self) {
        self.0.law_trees_tell_values_apart(&other.0);
        self.1.law_trees_tell_values_apart(&other.1);
        self.2.law_trees_tell_values_apart(&other.2);
        self.3.law_trees_tell_values_apart(&other.3);
        let (x, y) = (self.tree()->Node_1, other.tree()->Node_1);
        assert(x[0] == self.0.tree() && y[0] == other.0.tree());
        assert(x[1] == self.1.tree() && y[1] == other.1.tree());
        assert(x[2] == self.2.tree() && y[2] == other.2.tree());
        assert(x[3] == self.3.tree() && y[3] == other.3.tree());
        if self.equals(other) {
            assert(x =~= y);
        }
    }

    proof fn lemma_tree(&self) {
        self.0.lemma_tree();
        self.1.lemma_tree();
        self.2.lemma_tree();
        self.3.lemma_tree();
    }

    proof fn lemma_shape(a: TreeView, b: TreeView) {
        A::lemma_shape(a->Node_1[0], b->Node_1[0]);
        B::lemma_shape(a->Node_1[1], b->Node_1[1]);
        C::lemma_shape(a->Node_1[2], b->Node_1[2]);
        D::lemma_shape(a->Node_1[3], b->Node_1[3]);
    }

    fn kind_name() -> (s: String) {
        let mut s = String::from_str("(");
        s.append(A::kind_name().as_str());
        s.append(", ");
        s.append(B::kind_name().as_str());
        s.append(", ");
        s.append(C::kind_name().as_str());
        s.append(", ");
        s.append(D::kind_name().as_str());
        s.append(")");
        s
    }

    fn to_tree(&self) -> (t: SummaryTree) {
        let mut fields: Vec<SummaryTree> = Vec::new();
        fields.push(self.0.to_tree());
        fields.push(self.1.to_tree());
        fields.push(self.2.to_tree());
        fields.push(self.3.to_tree());
        proof {
            lemma_node(0, fields);
            assert(trees_view(fields@) =~= self.tree()->Node_1);
        }
        SummaryTree::Node(0, fields)
    }

    fn from_tree(t: &SummaryTree) -> (r: Option<Self>) {
        match t {
            SummaryTree::Node(k, fields) => {
                proof {
                    lemma_node(*k, *fields);
                }
                if *k != 0 || fields.len() != 4 {
                    return None;
                }
                assert(trees_view(fields@) =~= seq![fields@[0]@, fields@[1]@, fields@[2]@, fields@[3]@]);
                let v0 = match A::from_tree(&fields[0]) {
                    Some(v) => v,
                    None => return None,
                };
                let v1 = match B::from_tree(&fields[1]) {
                    Some(v) => v,
                    None => return None,
                };
                let v2 = match C::from_tree(&fields[2]) {
                    Some(v) => v,
                    None => return None,
                };
                let v3 = match D::from_tree(&fields[3]) {
                    Some(v) => v,
                    None => return None,
                };
                Some((v0, v1, v2, v3))
            },
            _ => None,
        }
    }
}

impl<A: SummarizableVal, B: SummarizableVal, C: SummarizableVal, D: SummarizableVal, E: SummarizableVal> SummarizableVal for (A, B, C, D, E) {
    open spec fn tree(&self) -> TreeView {
        TreeView::Node(0, seq![self.0.tree(), self.1.tree(), self.2.tree(), self.3.tree(), self.4.tree()])
    }

    open spec fn fits(t: TreeView) -> bool {
        match t {
            TreeView::Node(k, fields) => k == 0 && fields.len() == 5 && A::fits(fields[0])
                && B::fits(fields[1])
                && C::fits(fields[2])
                && D::fits(fields[3])
                && E::fits(fields[4]),
            _ => false,
        }
    }

    open spec fn kind_text() -> Seq<char> {
        "("@ + A::kind_text() + ", "@ + B::kind_text() + ", "@ + C::kind_text() + ", "@ + D::kind_text() + ", "@ + E::kind_text() + ")"@
    }

    open spec fn equals(&self, other: &Self) -> bool {
        &&& self.0.equals(&other.0)
        &&& self.1.equals(&other.1)
        &&& self.2.equals(&other.2)
        &&& self.3.equals(&other.3)
        &&& self.4.equals(&other.4)
    }

    proof fn law_trees_tell_values_apart(&self, other: &Self) {
        self.0.law_trees_tell_values_apart(&other.0);
        self.1.law_trees_tell_values_apart(&other.1);
        self.2.law_trees_tell_values_apart(&other.2);
        self.3.law_trees_tell_values_apart(&other.3);
        self.4.law_trees_tell_values_apart(&other.4);
        let (x, y) = (self.tree()->Node_1, other.tree()->Node_1);
        assert(x[0] == self.0.tree() && y[0] == other.0.tree());
        assert(x[1] == self.1.tree() && y[1] == other.1.tree());
        assert(x[2] == self.2.tree() && y[2] == other.2.tree());
        assert(x[3] == self.3.tree() && y[3] == other.3.tree());
        assert(x[4] == self.4.tree() && y[4] == other.4.tree());
        if self.equals(other) {
            assert(x =~= y);
        }
    }

    proof fn lemma_tree(&self) {
        self.0.lemma_tree();
        self.1.lemma_tree();
        self.2.lemma_tree();
        self.3.lemma_tree();
        self.4.lemma_tree();
    }

    proof fn lemma_shape(a: TreeView, b: TreeView) {
        A::lemma_shape(a->Node_1[0], b->Node_1[0]);
        B::lemma_shape(a->Node_1[1], b->Node_1[1]);
        C::lemma_shape(a->Node_1[2], b->Node_1[2]);
        D::lemma_shape(a->Node_1[3], b->Node_1[3]);
        E::lemma_shape(a->Node_1[4], b->Node_1[4]);
    }

    fn kind_name() -> (s: String) {
        let mut s = String::from_str("(");
        s.append(A::kind_name().as_str());
        s.append(", ");
        s.append(B::kind_name().as_str());
        s.append(", ");
        s.append(C::kind_name().as_str());
        s.append(", ");
        s.append(D::kind_name().as_str());
        s.append(", ");
        s.append(E::kind_name().as_str());
        s.append(")");
        s
    }

    fn to_tree(&self) -> (t: SummaryTree) {
        let mut fields: Vec<SummaryTree> = Vec::new();
        fields.push(self.0.to_tree());
        fields.push(self.1.to_tree());
        fields.push(self.2.to_tree());
        fields.push(self.3.to_tree());
        fields.push(self.4.to_tree());
        proof {
            lemma_node(0, fields);
            assert(trees_view(fields@) =~= self.tree()->Node_1);
        }
        SummaryTree::Node(0, fields)
    }

    fn from_tree(t: &SummaryTree) -> (r: Option<Self>) {
        match t {
            SummaryTree::Node(k, fields) => {
                proof {
                    lemma_node(*k, *fields);
                }
                if *k != 0 || fields.len() != 5 {
                    return None;
                }
                assert(trees_view(fields@) =~= seq![fields@[0]@, fields@[1]@, fields@[2]@, fields@[3]@, fields@[4]@]);
                let v0 = match A::from_tree(&fields[0]) {
                    Some(v) => v,
                    None => return None,
                };
                let v1 = match B::from_tree(&fields[1]) {
                    Some(v) => v,
                    None => return None,
                };
                let v2 = match C::from_tree(&fields[2]) {
                    Some(v) => v,
                    None => return None,
                };
                let v3 = match D::from_tree(&fields[3]) {
                    Some(v) => v,
                    None => return None,
                };
                let v4 = match E::from_tree(&fields[4]) {
                    Some(v) => v,
                    None => return None,
                };
                Some((v0, v1, v2, v3, v4))
            },
            _ => None,
        }
    }
}

impl<A: SummarizableVal, B: SummarizableVal, C: SummarizableVal, D: SummarizableVal, E: SummarizableVal, F: SummarizableVal> SummarizableVal for (A, B, C, D, E, F) {
    open spec fn tree(&self) -> TreeView {
        TreeView::Node(0, seq![self.0.tree(), self.1.tree(), self.2.tree(), self.3.tree(), self.4.tree(), self.5.tree()])
    }

    open spec fn fits(t: TreeView) -> bool {
        match t {
            TreeView::Node(k, fields) => k == 0 && fields.len() == 6 && A::fits(fields[0])
                && B::fits(fields[1])
                && C::fits(fields[2])
                && D::fits(fields[3])
                && E::fits(fields[4])
                && F::fits(fields[5]),
            _ => false,
        }
    }

    open spec fn kind_text() -> Seq<char> {
        "("@ + A::kind_text() + ", "@ + B::kind_text() + ", "@ + C::kind_text() + ", "@ + D::kind_text() + ", "@ + E::kind_text() + ", "@ + F::kind_text() + ")"@
    }

    open spec fn equals(&self, other: &Self) -> bool {
        &&& self.0.equals(&other.0)
        &&& self.1.equals(&other.1)
        &&& self.2.equals(&other.2)
        &&& self.3.equals(&other.3)
        &&& self.4.equals(&other.4)
        &&& self.5.equals(&other.5)
    }

    proof fn law_trees_tell_values_apart(&self, other: &Self) {
        self.0.law_trees_tell_values_apart(&other.0);
        self.1.law_trees_tell_values_apart(&other.1);
        self.2.law_trees_tell_values_apart(&other.2);
        self.3.law_trees_tell_values_apart(&other.3);
        self.4.law_trees_tell_values_apart(&other.4);
        self.5.law_trees_tell_values_apart(&other.5);
        let (x, y) = (self.tree()->Node_1, other.tree()->Node_1);
        assert(x[0] == self.0.tree() && y[0] == other.0.tree());
        assert(x[1] == self.1.tree() && y[1] == other.1.tree());
        assert(x[2] == self.2.tree() && y[2] == other.2.tree());
        assert(x[3] == self.3.tree() && y[3] == other.3.tree());
        assert(x[4] == self.4.tree() && y[4] == other.4.tree());
        assert(x[5] == self.5.tree() && y[5] == other.5.tree());
        if self.equals(other) {
            assert(x =~= y);
        }
    }

    proof fn lemma_tree(&self) {
        self.0.lemma_tree();
        self.1.lemma_tree();
        self.2.lemma_tree();
        self.3.lemma_tree();
        self.4.lemma_tree();
        self.5.lemma_tree();
    }

    proof fn lemma_shape(a: TreeView, b: TreeView) {
        A::lemma_shape(a->Node_1[0], b->Node_1[0]);
        B::lemma_shape(a->Node_1[1], b->Node_1[1]);
        C::lemma_shape(a->Node_1[2], b->Node_1[2]);
        D::lemma_shape(a->Node_1[3], b->Node_1[3]);
        E::lemma_shape(a->Node_1[4], b->Node_1[4]);
        F::lemma_shape(a->Node_1[5], b->Node_1[5]);
    }

    fn kind_name() -> (s: String) {
        let mut s = String::from_str("(");
        s.append(A::kind_name().as_str());
        s.append(", ");
        s.append(B::kind_name().as_str());
        s.append(", ");
        s.append(C::kind_name().as_str());
        s.append(", ");
        s.append(D::kind_name().as_str());
        s.append(", ");
        s.append(E::kind_name().as_str());
        s.append(", ");
        s.append(F::kind_name().as_str());
        s.append(")");
        s
    }

    fn to_tree(&self) -> (t: SummaryTree) {
        let mut fields: Vec<SummaryTree> = Vec::new();
        fields.push(self.0.to_tree());
        fields.push(self.1.to_tree());
        fields.push(self.2.to_tree());
        fields.push(self.3.to_tree());
        fields.push(self.4.to_tree());
        fields.push(self.5.to_tree());
        proof {
            lemma_node(0, fields);
            assert(trees_view(fields@) =~= self.tree()->Node_1);
        }
        SummaryTree::Node(0, fields)
    }

    fn from_tree(t: &SummaryTree) -> (r: Option<Self>) {
        match t {
            SummaryTree::Node(k, fields) => {
                proof {
                    lemma_node(*k, *fields);
                }
                if *k != 0 || fields.len() != 6 {
                    return None;
                }
                assert(trees_view(fields@) =~= seq![fields@[0]@, fields@[1]@, fields@[2]@, fields@[3]@, fields@[4]@, fields@[5]@]);
                let v0 = match A::from_tree(&fields[0]) {
                    Some(v) => v,
                    None => return None,
                };
                let v1 = match B::from_tree(&fields[1]) {
                    Some(v) => v,
                    None => return None,
                };
                let v2 = match C::from_tree(&fields[2]) {
                    Some(v) => v,
                    None => return None,
                };
                let v3 = match D::from_tree(&fields[3]) {
                    Some(v) => v,
                    None => return None,
                };
                let v4 = match E::from_tree(&fields[4]) {
                    Some(v) => v,
                    None => return None,
                };
                let v5 = match F::from_tree(&fields[5]) {
                    Some(v) => v,
                    None => return None,
                };
                Some((v0, v1, v2, v3, v4, v5))
            },
            _ => None,
        }
    }
}

impl<A: SummarizableVal, B: SummarizableVal, C: SummarizableVal, D: SummarizableVal, E: SummarizableVal, F: SummarizableVal, G: SummarizableVal> SummarizableVal for (A, B, C, D, E, F, G) {
    open spec fn tree(&self) -> TreeView {
        TreeView::Node(0, seq![self.0.tree(), self.1.tree(), self.2.tree(), self.3.tree(), self.4.tree(), self.5.tree(), self.6.tree()])
    }

    open spec fn fits(t: TreeView) -> bool {
        match t {
            TreeView::Node(k, fields) => k == 0 && fields.len() == 7 && A::fits(fields[0])
                && B::fits(fields[1])
                && C::fits(fields[2])
                && D::fits(fields[3])
                && E::fits(fields[4])
                && F::fits(fields[5])
                && G::fits(fields[6]),
            _ => false,
        }
    }

    open spec fn kind_text() -> Seq<char> {
        "("@ + A::kind_text() + ", "@ + B::kind_text() + ", "@ + C::kind_text() + ", "@ + D::kind_text() + ", "@ + E::kind_text() + ", "@ + F::kind_text() + ", "@ + G::kind_text() + ")"@
    }

    open spec fn equals(&self, other: &Self) -> bool {
        &&& self.0.equals(&other.0)
        &&& self.1.equals(&other.1)
        &&& self.2.equals(&other.2)
        &&& self.3.equals(&other.3)
        &&& self.4.equals(&other.4)
        &&& self.5.equals(&other.5)
        &&& self.6.equals(&other.6)
    }

    proof fn law_trees_tell_values_apart(&self, other: &Self) {
        self.0.law_trees_tell_values_apart(&other.0);
        self.1.law_trees_tell_values_apart(&other.1);
        self.2.law_trees_tell_values_apart(&other.2);
        self.3.law_trees_tell_values_apart(&other.3);
        self.4.law_trees_tell_values_apart(&other.4);
        self.5.law_trees_tell_values_apart(&other.5);
        self.6.law_trees_tell_values_apart(&other.6);
        let (x, y) = (self.tree()->Node_1, other.tree()->Node_1);
        assert(x[0] == self.0.tree() && y[0] == other.0.tree());
        assert(x[1] == self.1.tree() && y[1] == other.1.tree());
        assert(x[2] == self.2.tree() && y[2] == other.2.tree());
        assert(x[3] == self.3.tree() && y[3] == other.3.tree());
        assert(x[4] == self.4.tree() && y[4] == other.4.tree());
        assert(x[5] == self.5.tree() && y[5] == other.5.tree());
        assert(x[6] == self.6.tree() && y[6] == other.6.tree());
        if self.equals(other) {
            assert(x =~= y);
        }
    }

    proof fn lemma_tree(&self) {
        self.0.lemma_tree();
        self.1.lemma_tree();
        self.2.lemma_tree();
        self.3.lemma_tree();
        self.4.lemma_tree();
        self.5.lemma_tree();
        self.6.lemma_tree();
    }

    proof fn lemma_shape(a: TreeView, b: TreeView) {
        A::lemma_shape(a->Node_1[0], b->Node_1[0]);
        B::lemma_shape(a->Node_1[1], b->Node_1[1]);
        C::lemma_shape(a->Node_1[2], b->Node_1[2]);
        D::lemma_shape(a->Node_1[3], b->Node_1[3]);
        E::lemma_shape(a->Node_1[4], b->Node_1[4]);
        F::lemma_shape(a->Node_1[5], b->Node_1[5]);
        G::lemma_shape(a->Node_1[6], b->Node_1[6]);
    }

    fn kind_name() -> (s: String) {
        let mut s = String::from_str("(");
        s.append(A::kind_name().as_str());
        s.append(", ");
        s.append(B::kind_name().as_str());
        s.append(", ");
        s.append(C::kind_name().as_str());
        s.append(", ");
        s.append(D::kind_name().as_str());
        s.append(", ");
        s.append(E::kind_name().as_str());
        s.append(", ");
        s.append(F::kind_name().as_str());
        s.append(", ");
        s.append(G::kind_name().as_str());
        s.append(")");
        s
    }

    fn to_tree(&self) -> (t: SummaryTree) {
        let mut fields: Vec<SummaryTree> = Vec::new();
        fields.push(self.0.to_tree());
        fields.push(self.1.to_tree());
        fields.push(self.2.to_tree());
        fields.push(self.3.to_tree());
        fields.push(self.4.to_tree());
        fields.push(self.5.to_tree());
        fields.push(self.6.to_tree());
        proof {
            lemma_node(0, fields);
            assert(trees_view(fields@) =~= self.tree()->Node_1);
        }
        SummaryTree::Node(0, fields)
    }

    fn from_tree(t: &SummaryTree) -> (r: Option<Self>) {
        match t {
            SummaryTree::Node(k, fields) => {
                proof {
                    lemma_node(*k, *fields);
                }
                if *k != 0 || fields.len() != 7 {
                    return None;
                }
                assert(trees_view(fields@) =~= seq![fields@[0]@, fields@[1]@, fields@[2]@, fields@[3]@, fields@[4]@, fields@[5]@, fields@[6]@]);
                let v0 = match A::from_tree(&fields[0]) {
                    Some(v) => v,
                    None => return None,
                };
                let v1 = match B::from_tree(&fields[1]) {
                    Some(v) => v,
                    None => return None,
                };
                let v2 = match C::from_tree(&fields[2]) {
                    Some(v) => v,
                    None => return None,
                };
                let v3 = match D::from_tree(&fields[3]) {
                    Some(v) => v,
                    None => return None,
                };
                let v4 = match E::from_tree(&fields[4]) {
                    Some(v) => v,
                    None => return None,
                };
                let v5 = match F::from_tree(&fields[5]) {
                    Some(v) => v,
                    None => return None,
                };
                let v6 = match G::from_tree(&fields[6]) {
                    Some(v) => v,
                    None => return None,
                };
                Some((v0, v1, v2, v3, v4, v5, v6))
            },
            _ => None,
        }
    }
}

impl<A: SummarizableVal, B: SummarizableVal, C: SummarizableVal, D: SummarizableVal, E: SummarizableVal, F: SummarizableVal, G: SummarizableVal, H: SummarizableVal> SummarizableVal for (A, B, C, D, E, F, G, H) {
    open spec fn tree(&self) -> TreeView {
        TreeView::Node(0, seq![self.0.tree(), self.1.tree(), self.2.tree(), self.3.tree(), self.4.tree(), self.5.tree(), self.6.tree(), self.7.tree()])
    }

    open spec fn fits(t: TreeView) -> bool {
        match t {
            TreeView::Node(k, fields) => k == 0 && fields.len() == 8 && A::fits(fields[0])
                && B::fits(fields[1])
                && C::fits(fields[2])
                && D::fits(fields[3])
                && E::fits(fields[4])
                && F::fits(fields[5])
                && G::fits(fields[6])
                && H::fits(fields[7]),
            _ => false,
        }
    }

    open spec fn kind_text() -> Seq<char> {
        "("@ + A::kind_text() + ", "@ + B::kind_text() + ", "@ + C::kind_text() + ", "@ + D::kind_text() + ", "@ + E::kind_text() + ", "@ + F::kind_text() + ", "@ + G::kind_text() + ", "@ + H::kind_text() + ")"@
    }

    open spec fn equals(&self, other: &Self) -> bool {
        &&& self.0.equals(&other.0)
        &&& self.1.equals(&other.1)
        &&& self.2.equals(&other.2)
        &&& self.3.equals(&other.3)
        &&& self.4.equals(&other.4)
        &&& self.5.equals(&other.5)
        &&& self.6.equals(&other.6)
        &&& self.7.equals(&other.7)
    }

    proof fn law_trees_tell_values_apart(&self, other: &Self) {
        self.0.law_trees_tell_values_apart(&other.0);
        self.1.law_trees_tell_values_apart(&other.1);
        self.2.law_trees_tell_values_apart(&other.2);
        self.3.law_trees_tell_values_apart(&other.3);
        self.4.law_trees_tell_values_apart(&other.4);
        self.5.law_trees_tell_values_apart(&other.5);
        self.6.law_trees_tell_values_apart(&other.6);
        self.7.law_trees_tell_values_apart(&other.7);
        let (x, y) = (self.tree()->Node_1, other.tree()->Node_1);
        assert(x[0] == self.0.tree() && y[0] == other.0.tree());
        assert(x[1] == self.1.tree() && y[1] == other.1.tree());
        assert(x[2] == self.2.tree() && y[2] == other.2.tree());
        assert(x[3] == self.3.tree() && y[3] == other.3.tree());
        assert(x[4] == self.4.tree() && y[4] == other.4.tree());
        assert(x[5] == self.5.tree() && y[5] == other.5.tree());
        assert(x[6] == self.6.tree() && y[6] == other.6.tree());
        assert(x[7] == self.7.tree() && y[7] == other.7.tree());
        if self.equals(other) {
            assert(x =~= y);
        }
    }

    proof fn lemma_tree(&self) {
        self.0.lemma_tree();
        self.1.lemma_tree();
        self.2.lemma_tree();
        self.3.lemma_tree();
        self.4.lemma_tree();
        self.5.lemma_tree();
        self.6.lemma_tree();
        self.7.lemma_tree();
    }

    proof fn lemma_shape(a: TreeView, b: TreeView) {
        A::lemma_shape(a->Node_1[0], b->Node_1[0]);
        B::lemma_shape(a->Node_1[1], b->Node_1[1]);
        C::lemma_shape(a->Node_1[2], b->Node_1[2]);
        D::lemma_shape(a->Node_1[3], b->Node_1[3]);
        E::lemma_shape(a->Node_1[4], b->Node_1[4]);
        F::lemma_shape(a->Node_1[5], b->Node_1[5]);
        G::lemma_shape(a->Node_1[6], b->Node_1[6]);
        H::lemma_shape(a->Node_1[7], b->Node_1[7]);
    }

    fn kind_name() -> (s: String) {
        let mut s = String::from_str("(");
        s.append(A::kind_name().as_str());
        s.append(", ");
        s.append(B::kind_name().as_str());
        s.append(", ");
        s.append(C::kind_name().as_str());
        s.append(", ");
        s.append(D::kind_name().as_str());
        s.append(", ");
        s.append(E::kind_name().as_str());
        s.append(", ");
        s.append(F::kind_name().as_str());
        s.append(", ");
        s.append(G::kind_name().as_str());
        s.append(", ");
        s.append(H::kind_name().as_str());
        s.append(")");
        s
    }

    fn to_tree(&self) -> (t: SummaryTree) {
        let mut fields: Vec<SummaryTree> = Vec::new();
        fields.push(self.0.to_tree());
        fields.push(self.1.to_tree());
        fields.push(self.2.to_tree());
        fields.push(self.3.to_tree());
        fields.push(self.4.to_tree());
        fields.push(self.5.to_tree());
        fields.push(self.6.to_tree());
        fields.push(self.7.to_tree());
        proof {
            lemma_node(0, fields);
            assert(trees_view(fields@) =~= self.tree()->Node_1);
        }
        SummaryTree::Node(0, fields)
    }

    fn from_tree(t: &SummaryTree) -> (r: Option<Self>) {
        match t {
            SummaryTree::Node(k, fields) => {
                proof {
                    lemma_node(*k, *fields);
                }
                if *k != 0 || fields.len() != 8 {
                    return None;
                }
                assert(trees_view(fields@) =~= seq![fields@[0]@, fields@[1]@, fields@[2]@, fields@[3]@, fields@[4]@, fields@[5]@, fields@[6]@, fields@[7]@]);
                let v0 = match A::from_tree(&fields[0]) {
                    Some(v) => v,
                    None => return None,
                };
                let v1 = match B::from_tree(&fields[1]) {
                    Some(v) => v,
                    None => return None,
                };
                let v2 = match C::from_tree(&fields[2]) {
                    Some(v) => v,
                    None => return None,
                };
                let v3 = match D::from_tree(&fields[3]) {
                    Some(v) => v,
                    None => return None,
                };
                let v4 = match E::from_tree(&fields[4]) {
                    Some(v) => v,
                    None => return None,
                };
                let v5 = match F::from_tree(&fields[5]) {
                    Some(v) => v,
                    None => return None,
                };
                let v6 = match G::from_tree(&fields[6]) {
                    Some(v) => v,
                    None => return None,
                };
                let v7 = match H::from_tree(&fields[7]) {
                    Some(v) => v,
                    None => return None,
                };
                Some((v0, v1, v2, v3, v4, v5, v6, v7))
            },
            _ => None,
        }
    }
}

impl<A: SummarizableVal, B: SummarizableVal, C: SummarizableVal, D: SummarizableVal, E: SummarizableVal, F: SummarizableVal, G: SummarizableVal, H: SummarizableVal, I: SummarizableVal> SummarizableVal for (A, B, C, D, E, F, G, H, I) {
    open spec fn tree(&self) -> TreeView {
        TreeView::Node(0, seq![self.0.tree(), self.1.tree(), self.2.tree(), self.3.tree(), self.4.tree(), self.5.tree(), self.6.tree(), self.7.tree(), self.8.tree()])
    }

    open spec fn fits(t: TreeView) -> bool {
        match t {
            TreeView::Node(k, fields) => k == 0 && fields.len() == 9 && A::fits(fields[0])
                && B::fits(fields[1])
                && C::fits(fields[2])
                && D::fits(fields[3])
                && E::fits(fields[4])
                && F::fits(fields[5])
                && G::fits(fields[6])
                && H::fits(fields[7])
                && I::fits(fields[8]),
            _ => false,
        }
    }

    open spec fn kind_text() -> Seq<char> {
        "("@ + A::kind_text() + ", "@ + B::kind_text() + ", "@ + C::kind_text() + ", "@ + D::kind_text() + ", "@ + E::kind_text() + ", "@ + F::kind_text() + ", "@ + G::kind_text() + ", "@ + H::kind_text() + ", "@ + I::kind_text() + ")"@
    }

    open spec fn equals(&self, other: &Self) -> bool {
        &&& self.0.equals(&other.0)
        &&& self.1.equals(&other.1)
        &&& self.2.equals(&other.2)
        &&& self.3.equals(&other.3)
        &&& self.4.equals(&other.4)
        &&& self.5.equals(&other.5)
        &&& self.6.equals(&other.6)
        &&& self.7.equals(&other.7)
        &&& self.8.equals(&other.8)
    }

    proof fn law_trees_tell_values_apart(&self, other: &Self) {
        self.0.law_trees_tell_values_apart(&other.0);
        self.1.law_trees_tell_values_apart(&other.1);
        self.2.law_trees_tell_values_apart(&other.2);
        self.3.law_trees_tell_values_apart(&other.3);
        self.4.law_trees_tell_values_apart(&other.4);
        self.5.law_trees_tell_values_apart(&other.5);
        self.6.law_trees_tell_values_apart(&other.6);
        self.7.law_trees_tell_values_apart(&other.7);
        self.8.law_trees_tell_values_apart(&other.8);
        let (x, y) = (self.tree()->Node_1, other.tree()->Node_1);
        assert(x[0] == self.0.tree() && y[0] == other.0.tree());
        assert(x[1] == self.1.tree() && y[1] == other.1.tree());
        assert(x[2] == self.2.tree() && y[2] == other.2.tree());
        assert(x[3] == self.3.tree() && y[3] == other.3.tree());
        assert(x[4] == self.4.tree() && y[4] == other.4.tree());
        assert(x[5] == self.5.tree() && y[5] == other.5.tree());
        assert(x[6] == self.6.tree() && y[6] == other.6.tree());
        assert(x[7] == self.7.tree() && y[7] == other.7.tree());
        assert(x[8] == self.8.tree() && y[8] == other.8.tree());
        if self.equals(other) {
            assert(x =~= y);
        }
    }

    proof fn lemma_tree(&self) {
        self.0.lemma_tree();
        self.1.lemma_tree();
        self.2.lemma_tree();
        self.3.lemma_tree();
        self.4.lemma_tree();
        self.5.lemma_tree();
        self.6.lemma_tree();
        self.7.lemma_tree();
        self.8.lemma_tree();
    }

    proof fn lemma_shape(a: TreeView, b: TreeView) {
        A::lemma_shape(a->Node_1[0], b->Node_1[0]);
        B::lemma_shape(a->Node_1[1], b->Node_1[1]);
        C::lemma_shape(a->Node_1[2], b->Node_1[2]);
        D::lemma_shape(a->Node_1[3], b->Node_1[3]);
        E::lemma_shape(a->Node_1[4], b->Node_1[4]);
        F::lemma_shape(a->Node_1[5], b->Node_1[5]);
        G::lemma_shape(a->Node_1[6], b->Node_1[6]);
        H::lemma_shape(a->Node_1[7], b->Node_1[7]);
        I::lemma_shape(a->Node_1[8], b->Node_1[8]);
    }

    fn kind_name() -> (s: String) {
        let mut s = String::from_str("(");
        s.append(A::kind_name().as_str());
        s.append(", ");
        s.append(B::kind_name().as_str());
        s.append(", ");
        s.append(C::kind_name().as_str());
        s.append(", ");
        s.append(D::kind_name().as_str());
        s.append(", ");
        s.append(E::kind_name().as_str());
        s.append(", ");
        s.append(F::kind_name().as_str());
        s.append(", ");
        s.append(G::kind_name().as_str());
        s.append(", ");
        s.append(H::kind_name().as_str());
        s.append(", ");
        s.append(I::kind_name().as_str());
        s.append(")");
        s
    }

    fn to_tree(&self) -> (t: SummaryTree) {
        let mut fields: Vec<SummaryTree> = Vec::new();
        fields.push(self.0.to_tree());
        fields.push(self.1.to_tree());
        fields.push(self.2.to_tree());
        fields.push(self.3.to_tree());
        fields.push(self.4.to_tree());
        fields.push(self.5.to_tree());
        fields.push(self.6.to_tree());
        fields.push(self.7.to_tree());
        fields.push(self.8.to_tree());
        proof {
            lemma_node(0, fields);
            assert(trees_view(fields@) =~= self.tree()->Node_1);
        }
        SummaryTree::Node(0, fields)
    }

    fn from_tree(t: &SummaryTree) -> (r: Option<Self>) {
        match t {
            SummaryTree::Node(k, fields) => {
                proof {
                    lemma_node(*k, *fields);
                }
                if *k != 0 || fields.len() != 9 {
                    return None;
                }
                assert(trees_view(fields@) =~= seq![fields@[0]@, fields@[1]@, fields@[2]@, fields@[3]@, fields@[4]@, fields@[5]@, fields@[6]@, fields@[7]@, fields@[8]@]);
                let v0 = match A::from_tree(&fields[0]) {
                    Some(v) => v,
                    None => return None,
                };
                let v1 = match B::from_tree(&fields[1]) {
                    Some(v) => v,
                    None => return None,
                };
                let v2 = match C::from_tree(&fields[2]) {
                    Some(v) => v,
                    None => return None,
                };
                let v3 = match D::from_tree(&fields[3]) {
                    Some(v) => v,
                    None => return None,
                };
                let v4 = match E::from_tree(&fields[4]) {
                    Some(v) => v,
                    None => return None,
                };
                let v5 = match F::from_tree(&fields[5]) {
                    Some(v) => v,
                    None => return None,
                };
                let v6 = match G::from_tree(&fields[6]) {
                    Some(v) => v,
                    None => return None,
                };
                let v7 = match H::from_tree(&fields[7]) {
                    Some(v) => v,
                    None => return None,
                };
                let v8 = match I::from_tree(&fields[8]) {
                    Some(v) => v,
                    None => return None,
                };
                Some((v0, v1, v2, v3, v4, v5, v6, v7, v8))
            },
            _ => None,
        }
    }
}

impl<A: SummarizableVal, B: SummarizableVal, C: SummarizableVal, D: SummarizableVal, E: SummarizableVal, F: SummarizableVal, G: SummarizableVal, H: SummarizableVal, I: SummarizableVal, J: SummarizableVal> SummarizableVal for (A, B, C, D, E, F, G, H, I, J) {
    open spec fn tree(&self) -> TreeView {
        TreeView::Node(0, seq![self.0.tree(), self.1.tree(), self.2.tree(), self.3.tree(), self.4.tree(), self.5.tree(), self.6.tree(), self.7.tree(), self.8.tree(), self.9.tree()])
    }

    open spec fn fits(t: TreeView) -> bool {
        match t {
            TreeView::Node(k, fields) => k == 0 && fields.len() == 10 && A::fits(fields[0])
                && B::fits(fields[1])
                && C::fits(fields[2])
                && D::fits(fields[3])
                && E::fits(fields[4])
                && F::fits(fields[5])
                && G::fits(fields[6])
                && H::fits(fields[7])
                && I::fits(fields[8])
                && J::fits(fields[9]),
            _ => false,
        }
    }

    open spec fn kind_text() -> Seq<char> {
        "("@ + A::kind_text() + ", "@ + B::kind_text() + ", "@ + C::kind_text() + ", "@ + D::kind_text() + ", "@ + E::kind_text() + ", "@ + F::kind_text() + ", "@ + G::kind_text() + ", "@ + H::kind_text() + ", "@ + I::kind_text() + ", "@ + J::kind_text() + ")"@
    }

    open spec fn equals(&self, other: &Self) -> bool {
        &&& self.0.equals(&other.0)
        &&& self.1.equals(&other.1)
        &&& self.2.equals(&other.2)
        &&& self.3.equals(&other.3)
        &&& self.4.equals(&other.4)
        &&& self.5.equals(&other.5)
        &&& self.6.equals(&other.6)
        &&& self.7.equals(&other.7)
        &&& self.8.equals(&other.8)
        &&& self.9.equals(&other.9)
    }

    proof fn law_trees_tell_values_apart(&self, other: &Self) {
        self.0.law_trees_tell_values_apart(&other.0);
        self.1.law_trees_tell_values_apart(&other.1);
        self.2.law_trees_tell_values_apart(&other.2);
        self.3.law_trees_tell_values_apart(&other.3);
        self.4.law_trees_tell_values_apart(&other.4);
        self.5.law_trees_tell_values_apart(&other.5);
        self.6.law_trees_tell_values_apart(&other.6);
        self.7.law_trees_tell_values_apart(&other.7);
        self.8.law_trees_tell_values_apart(&other.8);
        self.9.law_trees_tell_values_apart(&other.9);
        let (x, y) = (self.tree()->Node_1, other.tree()->Node_1);
        assert(x[0] == self.0.tree() && y[0] == other.0.tree());
        assert(x[1] == self.1.tree() && y[1] == other.1.tree());
        assert(x[2] == self.2.tree() && y[2] == other.2.tree());
        assert(x[3] == self.3.tree() && y[3] == other.3.tree());
        assert(x[4] == self.4.tree() && y[4] == other.4.tree());
        assert(x[5] == self.5.tree() && y[5] == other.5.tree());
        assert(x[6] == self.6.tree() && y[6] == other.6.tree());
        assert(x[7] == self.7.tree() && y[7] == other.7.tree());
        assert(x[8] == self.8.tree() && y[8] == other.8.tree());
        assert(x[9] == self.9.tree() && y[9] == other.9.tree());
        if self.equals(other) {
            assert(x =~= y);
        }
    }

    proof fn lemma_tree(&self) {
        self.0.lemma_tree();
        self.1.lemma_tree();
        self.2.lemma_tree();
        self.3.lemma_tree();
        self.4.lemma_tree();
        self.5.lemma_tree();
        self.6.lemma_tree();
        self.7.lemma_tree();
        self.8.lemma_tree();
        self.9.lemma_tree();
    }

    proof fn lemma_shape(a: TreeView, b: TreeView) {
        A::lemma_shape(a->Node_1[0], b->Node_1[0]);
        B::lemma_shape(a->Node_1[1], b->Node_1[1]);
        C::lemma_shape(a->Node_1[2], b->Node_1[2]);
        D::lemma_shape(a->Node_1[3], b->Node_1[3]);
        E::lemma_shape(a->Node_1[4], b->Node_1[4]);
        F::lemma_shape(a->Node_1[5], b->Node_1[5]);
        G::lemma_shape(a->Node_1[6], b->Node_1[6]);
        H::lemma_shape(a->Node_1[7], b->Node_1[7]);
        I::lemma_shape(a->Node_1[8], b->Node_1[8]);
        J::lemma_shape(a->Node_1[9], b->Node_1[9]);
    }

    fn kind_name() -> (s: String) {
        let mut s = String::from_str("(");
        s.append(A::kind_name().as_str());
        s.append(", ");
        s.append(B::kind_name().as_str());
        s.append(", ");
        s.append(C::kind_name().as_str());
        s.append(", ");
        s.append(D::kind_name().as_str());
        s.append(", ");
        s.append(E::kind_name().as_str());
        s.append(", ");
        s.append(F::kind_name().as_str());
        s.append(", ");
        s.append(G::kind_name().as_str());
        s.append(", ");
        s.append(H::kind_name().as_str());
        s.append(", ");
        s.append(I::kind_name().as_str());
        s.append(", ");
        s.append(J::kind_name().as_str());
        s.append(")");
        s
    }

    fn to_tree(&self) -> (t: SummaryTree) {
        let mut fields: Vec<SummaryTree> = Vec::new();
        fields.push(self.0.to_tree());
        fields.push(self.1.to_tree());
        fields.push(self.2.to_tree());
        fields.push(self.3.to_tree());
        fields.push(self.4.to_tree());
        fields.push(self.5.to_tree());
        fields.push(self.6.to_tree());
        fields.push(self.7.to_tree());
        fields.push(self.8.to_tree());
        fields.push(self.9.to_tree());
        proof {
            lemma_node(0, fields);
            assert(trees_view(fields@) =~= self.tree()->Node_1);
        }
        SummaryTree::Node(0, fields)
    }

    fn from_tree(t: &SummaryTree) -> (r: Option<Self>) {
        match t {
            SummaryTree::Node(k, fields) => {
                proof {
                    lemma_node(*k, *fields);
                }
                if *k != 0 || fields.len() != 10 {
                    return None;
                }
                assert(trees_view(fields@) =~= seq![fields@[0]@, fields@[1]@, fields@[2]@, fields@[3]@, fields@[4]@, fields@[5]@, fields@[6]@, fields@[7]@, fields@[8]@, fields@[9]@]);
                let v0 = match A::from_tree(&fields[0]) {
                    Some(v) => v,
                    None => return None,
                };
                let v1 = match B::from_tree(&fields[1]) {
                    Some(v) => v,
                    None => return None,
                };
                let v2 = match C::from_tree(&fields[2]) {
                    Some(v) => v,
                    None => return None,
                };
                let v3 = match D::from_tree(&fields[3]) {
                    Some(v) => v,
                    None => return None,
                };
                let v4 = match E::from_tree(&fields[4]) {
                    Some(v) => v,
                    None => return None,
                };
                let v5 = match F::from_tree(&fields[5]) {
                    Some(v) => v,
                    None => return None,
                };
                let v6 = match G::from_tree(&fields[6]) {
                    Some(v) => v,
                    None => return None,
                };
                let v7 = match H::from_tree(&fields[7]) {
                    Some(v) => v,
                    None => return None,
                };
                let v8 = match I::from_tree(&fields[8]) {
                    Some(v) => v,
                    None => return None,
                };
                let v9 = match J::from_tree(&fields[9]) {
                    Some(v) => v,
                    None => return None,
                };
                Some((v0, v1, v2, v3, v4, v5, v6, v7, v8, v9))
            },
            _ => None,
        }
    }
}

impl<A: SummarizableVal, B: SummarizableVal, C: SummarizableVal, D: SummarizableVal, E: SummarizableVal, F: SummarizableVal, G: SummarizableVal, H: SummarizableVal, I: SummarizableVal, J: SummarizableVal, K: SummarizableVal> SummarizableVal for (A, B, C, D, E, F, G, H, I, J, K) {
    open spec fn tree(&self) -> TreeView {
        TreeView::Node(0, seq![self.0.tree(), self.1.tree(), self.2.tree(), self.3.tree(), self.4.tree(), self.5.tree(), self.6.tree(), self.7.tree(), self.8.tree(), self.9.tree(), self.10.tree()])
    }

    open spec fn fits(t: TreeView) -> bool {
        match t {
            TreeView::Node(k, fields) => k == 0 && fields.len() == 11 && A::fits(fields[0])
                && B::fits(fields[1])
                && C::fits(fields[2])
                && D::fits(fields[3])
                && E::fits(fields[4])
                && F::fits(fields[5])
                && G::fits(fields[6])
                && H::fits(fields[7])
                && I::fits(fields[8])
                && J::fits(fields[9])
                && K::fits(fields[10]),
            _ => false,
        }
    }

    open spec fn kind_text() -> Seq<char> {
        "("@ + A::kind_text() + ", "@ + B::kind_text() + ", "@ + C::kind_text() + ", "@ + D::kind_text() + ", "@ + E::kind_text() + ", "@ + F::kind_text() + ", "@ + G::kind_text() + ", "@ + H::kind_text() + ", "@ + I::kind_text() + ", "@ + J::kind_text() + ", "@ + K::kind_text() + ")"@
    }

    open spec fn equals(&self, other: &Self) -> bool {
        &&& self.0.equals(&other.0)
        &&& self.1.equals(&other.1)
        &&& self.2.equals(&other.2)
        &&& self.3.equals(&other.3)
        &&& self.4.equals(&other.4)
        &&& self.5.equals(&other.5)
        &&& self.6.equals(&other.6)
        &&& self.7.equals(&other.7)
        &&& self.8.equals(&other.8)
        &&& self.9.equals(&other.9)
        &&& self.10.equals(&other.10)
    }

    proof fn law_trees_tell_values_apart(&self, other: &Self) {
        self.0.law_trees_tell_values_apart(&other.0);
        self.1.law_trees_tell_values_apart(&other.1);
        self.2.law_trees_tell_values_apart(&other.2);
        self.3.law_trees_tell_values_apart(&other.3);
        self.4.law_trees_tell_values_apart(&other.4);
        self.5.law_trees_tell_values_apart(&other.5);
        self.6.law_trees_tell_values_apart(&other.6);
        self.7.law_trees_tell_values_apart(&other.7);
        self.8.law_trees_tell_values_apart(&other.8);
        self.9.law_trees_tell_values_apart(&other.9);
        self.10.law_trees_tell_values_apart(&other.10);
        let (x, y) = (self.tree()->Node_1, other.tree()->Node_1);
        assert(x[0] == self.0.tree() && y[0] == other.0.tree());
        assert(x[1] == self.1.tree() && y[1] == other.1.tree());
        assert(x[2] == self.2.tree() && y[2] == other.2.tree());
        assert(x[3] == self.3.tree() && y[3] == other.3.tree());
        assert(x[4] == self.4.tree() && y[4] == other.4.tree());
        assert(x[5] == self.5.tree() && y[5] == other.5.tree());
        assert(x[6] == self.6.tree() && y[6] == other.6.tree());
        assert(x[7] == self.7.tree() && y[7] == other.7.tree());
        assert(x[8] == self.8.tree() && y[8] == other.8.tree());
        assert(x[9] == self.9.tree() && y[9] == other.9.tree());
        assert(x[10] == self.10.tree() && y[10] == other.10.tree());
        if self.equals(other) {
            assert(x =~= y);
        }
    }

    proof fn lemma_tree(&self) {
        self.0.lemma_tree();
        self.1.lemma_tree();
        self.2.lemma_tree();
        self.3.lemma_tree();
        self.4.lemma_tree();
        self.5.lemma_tree();
        self.6.lemma_tree();
        self.7.lemma_tree();
        self.8.lemma_tree();
        self.9.lemma_tree();
        self.10.lemma_tree();
    }

    proof fn lemma_shape(a: TreeView, b: TreeView) {
        A::lemma_shape(a->Node_1[0], b->Node_1[0]);
        B::lemma_shape(a->Node_1[1], b->Node_1[1]);
        C::lemma_shape(a->Node_1[2], b->Node_1[2]);
        D::lemma_shape(a->Node_1[3], b->Node_1[3]);
        E::lemma_shape(a->Node_1[4], b->Node_1[4]);
        F::lemma_shape(a->Node_1[5], b->Node_1[5]);
        G::lemma_shape(a->Node_1[6], b->Node_1[6]);
        H::lemma_shape(a->Node_1[7], b->Node_1[7]);
        I::lemma_shape(a->Node_1[8], b->Node_1[8]);
        J::lemma_shape(a->Node_1[9], b->Node_1[9]);
        K::lemma_shape(a->Node_1[10], b->Node_1[10]);
    }

    fn kind_name() -> (s: String) {
        let mut s = String::from_str("(");
        s.append(A::kind_name().as_str());
        s.append(", ");
        s.append(B::kind_name().as_str());
        s.append(", ");
        s.append(C::kind_name().as_str());
        s.append(", ");
        s.append(D::kind_name().as_str());
        s.append(", ");
        s.append(E::kind_name().as_str());
        s.append(", ");
        s.append(F::kind_name().as_str());
        s.append(", ");
        s.append(G::kind_name().as_str());
        s.append(", ");
        s.append(H::kind_name().as_str());
        s.append(", ");
        s.append(I::kind_name().as_str());
        s.append(", ");
        s.append(J::kind_name().as_str());
        s.append(", ");
        s.append(K::kind_name().as_str());
        s.append(")");
        s
    }

    fn to_tree(&self) -> (t: SummaryTree) {
        let mut fields: Vec<SummaryTree> = Vec::new();
        fields.push(self.0.to_tree());
        fields.push(self.1.to_tree());
        fields.push(self.2.to_tree());
        fields.push(self.3.to_tree());
        fields.push(self.4.to_tree());
        fields.push(self.5.to_tree());
        fields.push(self.6.to_tree());
        fields.push(self.7.to_tree());
        fields.push(self.8.to_tree());
        fields.push(self.9.to_tree());
        fields.push(self.10.to_tree());
        proof {
            lemma_node(0, fields);
            assert(trees_view(fields@) =~= self.tree()->Node_1);
        }
        SummaryTree::Node(0, fields)
    }

    fn from_tree(t: &SummaryTree) -> (r: Option<Self>) {
        match t {
            SummaryTree::Node(k, fields) => {
                proof {
                    lemma_node(*k, *fields);
                }
                if *k != 0 || fields.len() != 11 {
                    return None;
                }
                assert(trees_view(fields@) =~= seq![fields@[0]@, fields@[1]@, fields@[2]@, fields@[3]@, fields@[4]@, fields@[5]@, fields@[6]@, fields@[7]@, fields@[8]@, fields@[9]@, fields@[10]@]);
                let v0 = match A::from_tree(&fields[0]) {
                    Some(v) => v,
                    None => return None,
                };
                let v1 = match B::from_tree(&fields[1]) {
                    Some(v) => v,
                    None => return None,
                };
                let v2 = match C::from_tree(&fields[2]) {
                    Some(v) => v,
                    None => return None,
                };
                let v3 = match D::from_tree(&fields[3]) {
                    Some(v) => v,
                    None => return None,
                };
                let v4 = match E::from_tree(&fields[4]) {
                    Some(v) => v,
                    None => return None,
                };
                let v5 = match F::from_tree(&fields[5]) {
                    Some(v) => v,
                    None => return None,
                };
                let v6 = match G::from_tree(&fields[6]) {
                    Some(v) => v,
                    None => return None,
                };
                let v7 = match H::from_tree(&fields[7]) {
                    Some(v) => v,
                    None => return None,
                };
                let v8 = match I::from_tree(&fields[8]) {
                    Some(v) => v,
                    None => return None,
                };
                let v9 = match J::from_tree(&fields[9]) {
                    Some(v) => v,
                    None => return None,
                };
                let v10 = match K::from_tree(&fields[10]) {
                    Some(v) => v,
                    None => return None,
                };
                Some((v0, v1, v2, v3, v4, v5, v6, v7, v8, v9, v10))
            },
            _ => None,
        }
    }
}

impl<A: SummarizableVal, B: SummarizableVal, C: SummarizableVal, D: SummarizableVal, E: SummarizableVal, F: SummarizableVal, G: SummarizableVal, H: SummarizableVal, I: SummarizableVal, J: SummarizableVal, K: SummarizableVal, L: SummarizableVal> SummarizableVal for (A, B, C, D, E, F, G, H, I, J, K, L) {
    open spec fn tree(&self) -> TreeView {
        TreeView::Node(0, seq![self.0.tree(), self.1.tree(), self.2.tree(), self.3.tree(), self.4.tree(), self.5.tree(), self.6.tree(), self.7.tree(), self.8.tree(), self.9.tree(), self.10.tree(), self.11.tree()])
    }

    open spec fn fits(t: TreeView) -> bool {
        match t {
            TreeView::Node(k, fields) => k == 0 && fields.len() == 12 && A::fits(fields[0])
                && B::fits(fields[1])
                && C::fits(fields[2])
                && D::fits(fields[3])
                && E::fits(fields[4])
                && F::fits(fields[5])
                && G::fits(fields[6])
                && H::fits(fields[7])
                && I::fits(fields[8])
                && J::fits(fields[9])
                && K::fits(fields[10])
                && L::fits(fields[11]),
            _ => false,
        }
    }

    open spec fn kind_text() -> Seq<char> {
        "("@ + A::kind_text() + ", "@ + B::kind_text() + ", "@ + C::kind_text() + ", "@ + D::kind_text() + ", "@ + E::kind_text() + ", "@ + F::kind_text() + ", "@ + G::kind_text() + ", "@ + H::kind_text() + ", "@ + I::kind_text() + ", "@ + J::kind_text() + ", "@ + K::kind_text() + ", "@ + L::kind_text() + ")"@
    }

    open spec fn equals(&self, other: &Self) -> bool {
        &&& self.0.equals(&other.0)
        &&& self.1.equals(&other.1)
        &&& self.2.equals(&other.2)
        &&& self.3.equals(&other.3)
        &&& self.4.equals(&other.4)
        &&& self.5.equals(&other.5)
        &&& self.6.equals(&other.6)
        &&& self.7.equals(&other.7)
        &&& self.8.equals(&other.8)
        &&& self.9.equals(&other.9)
        &&& self.10.equals(&other.10)
        &&& self.11.equals(&other.11)
    }

    proof fn law_trees_tell_values_apart(&self, other: &Self) {
        self.0.law_trees_tell_values_apart(&other.0);
        self.1.law_trees_tell_values_apart(&other.1);
        self.2.law_trees_tell_values_apart(&other.2);
        self.3.law_trees_tell_values_apart(&other.3);
        self.4.law_trees_tell_values_apart(&other.4);
        self.5.law_trees_tell_values_apart(&other.5);
        self.6.law_trees_tell_values_apart(&other.6);
        self.7.law_trees_tell_values_apart(&other.7);
        self.8.law_trees_tell_values_apart(&other.8);
        self.9.law_trees_tell_values_apart(&other.9);
        self.10.law_trees_tell_values_apart(&other.10);
        self.11.law_trees_tell_values_apart(&other.11);
        let (x, y) = (self.tree()->Node_1, other.tree()->Node_1);
        assert(x[0] == self.0.tree() && y[0] == other.0.tree());
        assert(x[1] == self.1.tree() && y[1] == other.1.tree());
        assert(x[2] == self.2.tree() && y[2] == other.2.tree());
        assert(x[3] == self.3.tree() && y[3] == other.3.tree());
        assert(x[4] == self.4.tree() && y[4] == other.4.tree());
        assert(x[5] == self.5.tree() && y[5] == other.5.tree());
        assert(x[6] == self.6.tree() && y[6] == other.6.tree());
        assert(x[7] == self.7.tree() && y[7] == other.7.tree());
        assert(x[8] == self.8.tree() && y[8] == other.8.tree());
        assert(x[9] == self.9.tree() && y[9] == other.9.tree());
        assert(x[10] == self.10.tree() && y[10] == other.10.tree());
        assert(x[11] == self.11.tree() && y[11] == other.11.tree());
        if self.equals(other) {
            assert(x =~= y);
        }
    }

    proof fn lemma_tree(&self) {
        self.0.lemma_tree();
        self.1.lemma_tree();
        self.2.lemma_tree();
        self.3.lemma_tree();
        self.4.lemma_tree();
        self.5.lemma_tree();
        self.6.lemma_tree();
        self.7.lemma_tree();
        self.8.lemma_tree();
        self.9.lemma_tree();
        self.10.lemma_tree();
        self.11.lemma_tree();
    }

    proof fn lemma_shape(a: TreeView, b: TreeView) {
        A::lemma_shape(a->Node_1[0], b->Node_1[0]);
        B::lemma_shape(a->Node_1[1], b->Node_1[1]);
        C::lemma_shape(a->Node_1[2], b->Node_1[2]);
        D::lemma_shape(a->Node_1[3], b->Node_1[3]);
        E::lemma_shape(a->Node_1[4], b->Node_1[4]);
        F::lemma_shape(a->Node_1[5], b->Node_1[5]);
        G::lemma_shape(a->Node_1[6], b->Node_1[6]);
        H::lemma_shape(a->Node_1[7], b->Node_1[7]);
        I::lemma_shape(a->Node_1[8], b->Node_1[8]);
        J::lemma_shape(a->Node_1[9], b->Node_1[9]);
        K::lemma_shape(a->Node_1[10], b->Node_1[10]);
        L::lemma_shape(a->Node_1[11], b->Node_1[11]);
    }

    fn kind_name() -> (s: String) {
        let mut s = String::from_str("(");
        s.append(A::kind_name().as_str());
        s.append(", ");
        s.append(B::kind_name().as_str());
        s.append(", ");
        s.append(C::kind_name().as_str());
        s.append(", ");
        s.append(D::kind_name().as_str());
        s.append(", ");
        s.append(E::kind_name().as_str());
        s.append(", ");
        s.append(F::kind_name().as_str());
        s.append(", ");
        s.append(G::kind_name().as_str());
        s.append(", ");
        s.append(H::kind_name().as_str());
        s.append(", ");
        s.append(I::kind_name().as_str());
        s.append(", ");
        s.append(J::kind_name().as_str());
        s.append(", ");
        s.append(K::kind_name().as_str());
        s.append(", ");
        s.append(L::kind_name().as_str());
        s.append(")");
        s
    }

    fn to_tree(&self) -> (t: SummaryTree) {
        let mut fields: Vec<SummaryTree> = Vec::new();
        fields.push(self.0.to_tree());
        fields.push(self.1.to_tree());
        fields.push(self.2.to_tree());
        fields.push(self.3.to_tree());
        fields.push(self.4.to_tree());
        fields.push(self.5.to_tree());
        fields.push(self.6.to_tree());
        fields.push(self.7.to_tree());
        fields.push(self.8.to_tree());
        fields.push(self.9.to_tree());
        fields.push(self.10.to_tree());
        fields.push(self.11.to_tree());
        proof {
            lemma_node(0, fields);
            assert(trees_view(fields@) =~= self.tree()->Node_1);
        }
        SummaryTree::Node(0, fields)
    }

    fn from_tree(t: &SummaryTree) -> (r: Option<Self>) {
        match t {
            SummaryTree::Node(k, fields) => {
                proof {
                    lemma_node(*k, *fields);
                }
                if *k != 0 || fields.len() != 12 {
                    return None;
                }
                assert(trees_view(fields@) =~= seq![fields@[0]@, fields@[1]@, fields@[2]@, fields@[3]@, fields@[4]@, fields@[5]@, fields@[6]@, fields@[7]@, fields@[8]@, fields@[9]@, fields@[10]@, fields@[11]@]);
                let v0 = match A::from_tree(&fields[0]) {
                    Some(v) => v,
                    None => return None,
                };
                let v1 = match B::from_tree(&fields[1]) {
                    Some(v) => v,
                    None => return None,
                };
                let v2 = match C::from_tree(&fields[2]) {
                    Some(v) => v,
                    None => return None,
                };
                let v3 = match D::from_tree(&fields[3]) {
                    Some(v) => v,
                    None => return None,
                };
                let v4 = match E::from_tree(&fields[4]) {
                    Some(v) => v,
                    None => return None,
                };
                let v5 = match F::from_tree(&fields[5]) {
                    Some(v) => v,
                    None => return None,
                };
                let v6 = match G::from_tree(&fields[6]) {
                    Some(v) => v,
                    None => return None,
                };
                let v7 = match H::from_tree(&fields[7]) {
                    Some(v) => v,
                    None => return None,
                };
                let v8 = match I::from_tree(&fields[8]) {
                    Some(v) => v,
                    None => return None,
                };
                let v9 = match J::from_tree(&fields[9]) {
                    Some(v) => v,
                    None => return None,
                };
                let v10 = match K::from_tree(&fields[10]) {
                    Some(v) => v,
                    None => return None,
                };
                let v11 = match L::from_tree(&fields[11]) {
                    Some(v) => v,
                    None => return None,
                };
                Some((v0, v1, v2, v3, v4, v5, v6, v7, v8, v9, v10, v11))
            },
            _ => None,
        }
    }
}

} // verus!
