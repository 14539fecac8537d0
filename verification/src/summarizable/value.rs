//! Values that cross the boundary of a summarizable function.

use crate::event::ThreadId;
use crate::symbolic::expr::{ExprView, SymExpr};
use crate::text::{decimal, decimal_of};
use vstd::prelude::*;
use vstd::string::*;

verus! {

/// What a value holds, apart from its type.
pub enum SummaryTree {
    Unit,
    Bool(bool),
    Char(char),
    Text(String),
    Signed(i128),
    Unsigned(u128),
    Thread(ThreadId),
    Sym(SymExpr),
    /// A compound value: the number of its variant, and its fields.
    Node(u32, Vec<SummaryTree>),
}

/// A tree as the contracts see it.
pub enum TreeView {
    Unit,
    Bool(bool),
    Char(char),
    Text(Seq<char>),
    Signed(i128),
    Unsigned(u128),
    Thread(ThreadId),
    Sym(ExprView),
    Node(u32, Seq<TreeView>),
}

/// The view of a tree.
pub open spec fn tree_view(t: SummaryTree) -> TreeView
    decreases t,
{
    match t {
        SummaryTree::Unit => TreeView::Unit,
        SummaryTree::Bool(b) => TreeView::Bool(b),
        SummaryTree::Char(c) => TreeView::Char(c),
        SummaryTree::Text(s) => TreeView::Text(s@),
        SummaryTree::Signed(i) => TreeView::Signed(i),
        SummaryTree::Unsigned(u) => TreeView::Unsigned(u),
        SummaryTree::Thread(t) => TreeView::Thread(t),
        SummaryTree::Sym(e) => TreeView::Sym(e@),
        SummaryTree::Node(k, fields) => TreeView::Node(
            k,
            Seq::new(
                fields@.len(),
                |i: int|
                    if 0 <= i < fields@.len() {
                        tree_view(fields@[i])
                    } else {
                        arbitrary()
                    },
            ),
        ),
    }
}

impl View for SummaryTree {
    type V = TreeView;

    open spec fn view(&self) -> TreeView {
        tree_view(*self)
    }
}

/// The views of a list of trees.
pub open spec fn trees_view(trees: Seq<SummaryTree>) -> Seq<TreeView> {
    Seq::new(trees.len(), |i: int| trees[i]@)
}

/// The fields of a compound value have the views that they have on their own.
pub proof fn lemma_node(k: u32, fields: Vec<SummaryTree>)
    ensures
        SummaryTree::Node(k, fields)@ == TreeView::Node(k, trees_view(fields@)),
{
    let t = SummaryTree::Node(k, fields);
    assert(t@->Node_1 =~= trees_view(fields@));
}

/// Whether two trees differ in threads and symbolic expressions at most.
pub open spec fn same_shape(a: TreeView, b: TreeView) -> bool
    decreases a,
{
    match (a, b) {
        (TreeView::Thread(_), TreeView::Thread(_)) => true,
        (TreeView::Sym(_), TreeView::Sym(_)) => true,
        (TreeView::Node(k, xs), TreeView::Node(l, ys)) => k == l && xs.len() == ys.len()
            && forall|i: int| 0 <= i < xs.len() ==> same_shape(#[trigger] xs[i], ys[i]),
        _ => a == b,
    }
}

impl SummaryTree {
    /// Whether two trees are the same.
    pub fn same(&self, other: &SummaryTree) -> (b: bool)
        ensures
            b == (self@ == other@),
        decreases *self,
    {
        match (self, other) {
            (SummaryTree::Unit, SummaryTree::Unit) => true,
            (SummaryTree::Bool(a), SummaryTree::Bool(b)) => *a == *b,
            (SummaryTree::Char(a), SummaryTree::Char(b)) => *a == *b,
            (SummaryTree::Text(a), SummaryTree::Text(b)) => *a == *b,
            (SummaryTree::Signed(a), SummaryTree::Signed(b)) => *a == *b,
            (SummaryTree::Unsigned(a), SummaryTree::Unsigned(b)) => *a == *b,
            (SummaryTree::Thread(a), SummaryTree::Thread(b)) => *a == *b,
            (SummaryTree::Sym(a), SummaryTree::Sym(b)) => a.same(b),
            (SummaryTree::Node(k, xs), SummaryTree::Node(l, ys)) => {
                proof {
                    lemma_node(*k, *xs);
                    lemma_node(*l, *ys);
                }
                let ghost left = trees_view(xs@);
                let ghost right = trees_view(ys@);
                if *k != *l || xs.len() != ys.len() {
                    assert(xs.len() != ys.len() ==> left.len() != right.len());
                    return false;
                }
                let mut i: usize = 0;
                while i < xs.len()
                    invariant
                        i <= xs.len() == ys.len(),
                        left == trees_view(xs@),
                        right == trees_view(ys@),
                        self@ == TreeView::Node(*k, left),
                        other@ == TreeView::Node(*l, right),
                        decreases_to!(*self => xs),
                        forall|j: int| 0 <= j < i ==> #[trigger] left[j] == right[j],
                    decreases xs.len() - i,
                {
                    assert(left[i as int] == xs@[i as int]@);
                    assert(right[i as int] == ys@[i as int]@);
                    assert(decreases_to!(xs => xs@[i as int]));
                    if !xs[i].same(&ys[i]) {
                        return false;
                    }
                    i += 1;
                }
                assert(left =~= right);
                true
            },
            _ => false,
        }
    }
}

impl Clone for SummaryTree {
    fn clone(&self) -> (r: Self)
        ensures
            r@ == self@,
        decreases *self,
    {
        match self {
            SummaryTree::Unit => SummaryTree::Unit,
            SummaryTree::Bool(b) => SummaryTree::Bool(*b),
            SummaryTree::Char(c) => SummaryTree::Char(*c),
            SummaryTree::Text(s) => SummaryTree::Text(s.clone()),
            SummaryTree::Signed(i) => SummaryTree::Signed(*i),
            SummaryTree::Unsigned(u) => SummaryTree::Unsigned(*u),
            SummaryTree::Thread(t) => SummaryTree::Thread(*t),
            SummaryTree::Sym(e) => SummaryTree::Sym(e.clone()),
            SummaryTree::Node(k, fields) => {
                let mut new: Vec<SummaryTree> = Vec::new();
                let mut i: usize = 0;
                while i < fields.len()
                    invariant
                        i <= fields.len(),
                        new@.len() == i,
                        decreases_to!(*self => fields),
                        forall|j: int| 0 <= j < i ==> (#[trigger] new@[j])@ == fields@[j]@,
                    decreases fields.len() - i,
                {
                    assert(decreases_to!(fields => fields@[i as int]));
                    new.push(fields[i].clone());
                    i += 1;
                }
                proof {
                    lemma_node(*k, *fields);
                    lemma_node(*k, new);
                    assert(trees_view(new@) =~= trees_view(fields@));
                }
                SummaryTree::Node(*k, new)
            },
        }
    }
}

/// A value that can cross the boundary of a summarizable function.
///
/// Values are compared exactly where symmetry is off. Where it is on, they are compared
/// and instantiated up to a renaming of the participants.
pub trait SummarizableVal: Sized {
    /// What the value holds.
    spec fn tree(&self) -> TreeView;

    /// The trees that values of the type have.
    spec fn fits(t: TreeView) -> bool;

    /// The name of the type.
    spec fn kind_text() -> Seq<char>;

    /// Whether two values are equal.
    spec fn equals(&self, other: &Self) -> bool;

    /// Values are equal exactly where they hold the same.
    proof fn law_trees_tell_values_apart(&self, other: &Self)
        ensures
            self.tree() == other.tree() <==> self.equals(other),
    ;

    proof fn lemma_tree(&self)
        ensures
            Self::fits(self.tree()),
    ;

    proof fn lemma_shape(a: TreeView, b: TreeView)
        requires
            Self::fits(a),
            same_shape(a, b),
        ensures
            Self::fits(b),
    ;

    fn kind_name() -> (s: String)
        ensures
            s@ == Self::kind_text(),
    ;

    fn to_tree(&self) -> (t: SummaryTree)
        ensures
            t@ == self.tree(),
    ;

    /// The value with the given tree.
    fn from_tree(t: &SummaryTree) -> (r: Option<Self>)
        ensures
            r is Some == Self::fits(t@),
            r matches Some(v) ==> v.tree() == t@,
    ;
}

impl SummarizableVal for () {
    open spec fn tree(&self) -> TreeView {
        TreeView::Unit
    }

    open spec fn fits(t: TreeView) -> bool {
        t is Unit
    }

    open spec fn kind_text() -> Seq<char> {
        "()"@
    }

    open spec fn equals(&self, other: &Self) -> bool {
        *self == *other
    }

    proof fn law_trees_tell_values_apart(&self, other: &Self) {
    }

    proof fn lemma_tree(&self) {
    }

    proof fn lemma_shape(a: TreeView, b: TreeView) {
    }

    fn kind_name() -> (s: String) {
        String::from_str("()")
    }

    fn to_tree(&self) -> (t: SummaryTree) {
        SummaryTree::Unit
    }

    fn from_tree(t: &SummaryTree) -> (r: Option<Self>) {
        match t {
            SummaryTree::Unit => Some(()),
            _ => None,
        }
    }
}

impl SummarizableVal for bool {
    open spec fn tree(&self) -> TreeView {
        TreeView::Bool(*self)
    }

    open spec fn fits(t: TreeView) -> bool {
        t is Bool
    }

    open spec fn kind_text() -> Seq<char> {
        "bool"@
    }

    open spec fn equals(&self, other: &Self) -> bool {
        *self == *other
    }

    proof fn law_trees_tell_values_apart(&self, other: &Self) {
    }

    proof fn lemma_tree(&self) {
    }

    proof fn lemma_shape(a: TreeView, b: TreeView) {
    }

    fn kind_name() -> (s: String) {
        String::from_str("bool")
    }

    fn to_tree(&self) -> (t: SummaryTree) {
        SummaryTree::Bool(*self)
    }

    fn from_tree(t: &SummaryTree) -> (r: Option<Self>) {
        match t {
            SummaryTree::Bool(b) => Some(*b),
            _ => None,
        }
    }
}

proof fn lemma_char(c: char)
    ensures
        SummaryTree::Char(c)@ == TreeView::Char(c),
{
}

impl SummarizableVal for char {
    open spec fn tree(&self) -> TreeView {
        TreeView::Char(*self)
    }

    open spec fn fits(t: TreeView) -> bool {
        t is Char
    }

    open spec fn kind_text() -> Seq<char> {
        "char"@
    }

    open spec fn equals(&self, other: &Self) -> bool {
        *self == *other
    }

    proof fn law_trees_tell_values_apart(&self, other: &Self) {
    }

    proof fn lemma_tree(&self) {
    }

    proof fn lemma_shape(a: TreeView, b: TreeView) {
    }

    fn kind_name() -> (s: String) {
        String::from_str("char")
    }

    fn to_tree(&self) -> (t: SummaryTree) {
        proof {
            lemma_char(*self);
        }
        SummaryTree::Char(*self)
    }

    fn from_tree(t: &SummaryTree) -> (r: Option<Self>) {
        match t {
            SummaryTree::Char(c) => Some(*c),
            _ => None,
        }
    }
}

impl SummarizableVal for String {
    open spec fn tree(&self) -> TreeView {
        TreeView::Text(self@)
    }

    open spec fn fits(t: TreeView) -> bool {
        t is Text
    }

    open spec fn kind_text() -> Seq<char> {
        "String"@
    }

    open spec fn equals(&self, other: &Self) -> bool {
        self@ == other@
    }

    proof fn law_trees_tell_values_apart(&self, other: &Self) {
    }

    proof fn lemma_tree(&self) {
    }

    proof fn lemma_shape(a: TreeView, b: TreeView) {
    }

    fn kind_name() -> (s: String) {
        String::from_str("String")
    }

    fn to_tree(&self) -> (t: SummaryTree) {
        SummaryTree::Text(self.clone())
    }

    fn from_tree(t: &SummaryTree) -> (r: Option<Self>) {
        match t {
            SummaryTree::Text(s) => Some(s.clone()),
            _ => None,
        }
    }
}

impl SummarizableVal for ThreadId {
    open spec fn tree(&self) -> TreeView {
        TreeView::Thread(*self)
    }

    open spec fn fits(t: TreeView) -> bool {
        t is Thread
    }

    open spec fn kind_text() -> Seq<char> {
        "ThreadId"@
    }

    open spec fn equals(&self, other: &Self) -> bool {
        *self == *other
    }

    proof fn law_trees_tell_values_apart(&self, other: &Self) {
    }

    proof fn lemma_tree(&self) {
    }

    proof fn lemma_shape(a: TreeView, b: TreeView) {
    }

    fn kind_name() -> (s: String) {
        String::from_str("ThreadId")
    }

    fn to_tree(&self) -> (t: SummaryTree) {
        SummaryTree::Thread(*self)
    }

    fn from_tree(t: &SummaryTree) -> (r: Option<Self>) {
        match t {
            SummaryTree::Thread(x) => Some(*x),
            _ => None,
        }
    }
}

impl SummarizableVal for SymExpr {
    open spec fn tree(&self) -> TreeView {
        TreeView::Sym(self@)
    }

    open spec fn fits(t: TreeView) -> bool {
        t is Sym
    }

    open spec fn kind_text() -> Seq<char> {
        "SymExpr"@
    }

    open spec fn equals(&self, other: &Self) -> bool {
        self@ == other@
    }

    proof fn law_trees_tell_values_apart(&self, other: &Self) {
    }

    proof fn lemma_tree(&self) {
    }

    proof fn lemma_shape(a: TreeView, b: TreeView) {
    }

    fn kind_name() -> (s: String) {
        String::from_str("SymExpr")
    }

    fn to_tree(&self) -> (t: SummaryTree) {
        SummaryTree::Sym(self.clone())
    }

    fn from_tree(t: &SummaryTree) -> (r: Option<Self>) {
        match t {
            SummaryTree::Sym(e) => Some(e.clone()),
            _ => None,
        }
    }
}

impl SummarizableVal for i8 {
    open spec fn tree(&self) -> TreeView {
        TreeView::Signed(*self as i128)
    }

    open spec fn fits(t: TreeView) -> bool {
        t matches TreeView::Signed(v) && i8::MIN <= v <= i8::MAX
    }

    open spec fn kind_text() -> Seq<char> {
        "i8"@
    }

    open spec fn equals(&self, other: &Self) -> bool {
        *self == *other
    }

    proof fn law_trees_tell_values_apart(&self, other: &Self) {
    }

    proof fn lemma_tree(&self) {
    }

    proof fn lemma_shape(a: TreeView, b: TreeView) {
    }

    fn kind_name() -> (s: String) {
        String::from_str("i8")
    }

    fn to_tree(&self) -> (t: SummaryTree) {
        SummaryTree::Signed(*self as i128)
    }

    fn from_tree(t: &SummaryTree) -> (r: Option<Self>) {
        match t {
            SummaryTree::Signed(v) => if (i8::MIN as i128) <= *v && *v <= (i8::MAX as i128) {
                Some(*v as i8)
            } else {
                None
            },
            _ => None,
        }
    }
}

impl SummarizableVal for i16 {
    open spec fn tree(&self) -> TreeView {
        TreeView::Signed(*self as i128)
    }

    open spec fn fits(t: TreeView) -> bool {
        t matches TreeView::Signed(v) && i16::MIN <= v <= i16::MAX
    }

    open spec fn kind_text() -> Seq<char> {
        "i16"@
    }

    open spec fn equals(&self, other: &Self) -> bool {
        *self == *other
    }

    proof fn law_trees_tell_values_apart(&self, other: &Self) {
    }

    proof fn lemma_tree(&self) {
    }

    proof fn lemma_shape(a: TreeView, b: TreeView) {
    }

    fn kind_name() -> (s: String) {
        String::from_str("i16")
    }

    fn to_tree(&self) -> (t: SummaryTree) {
        SummaryTree::Signed(*self as i128)
    }

    fn from_tree(t: &SummaryTree) -> (r: Option<Self>) {
        match t {
            SummaryTree::Signed(v) => if (i16::MIN as i128) <= *v && *v <= (i16::MAX as i128) {
                Some(*v as i16)
            } else {
                None
            },
            _ => None,
        }
    }
}

impl SummarizableVal for i32 {
    open spec fn tree(&self) -> TreeView {
        TreeView::Signed(*self as i128)
    }

    open spec fn fits(t: TreeView) -> bool {
        t matches TreeView::Signed(v) && i32::MIN <= v <= i32::MAX
    }

    open spec fn kind_text() -> Seq<char> {
        "i32"@
    }

    open spec fn equals(&self, other: &Self) -> bool {
        *self == *other
    }

    proof fn law_trees_tell_values_apart(&self, other: &Self) {
    }

    proof fn lemma_tree(&self) {
    }

    proof fn lemma_shape(a: TreeView, b: TreeView) {
    }

    fn kind_name() -> (s: String) {
        String::from_str("i32")
    }

    fn to_tree(&self) -> (t: SummaryTree) {
        SummaryTree::Signed(*self as i128)
    }

    fn from_tree(t: &SummaryTree) -> (r: Option<Self>) {
        match t {
            SummaryTree::Signed(v) => if (i32::MIN as i128) <= *v && *v <= (i32::MAX as i128) {
                Some(*v as i32)
            } else {
                None
            },
            _ => None,
        }
    }
}

impl SummarizableVal for i64 {
    open spec fn tree(&self) -> TreeView {
        TreeView::Signed(*self as i128)
    }

    open spec fn fits(t: TreeView) -> bool {
        t matches TreeView::Signed(v) && i64::MIN <= v <= i64::MAX
    }

    open spec fn kind_text() -> Seq<char> {
        "i64"@
    }

    open spec fn equals(&self, other: &Self) -> bool {
        *self == *other
    }

    proof fn law_trees_tell_values_apart(&self, other: &Self) {
    }

    proof fn lemma_tree(&self) {
    }

    proof fn lemma_shape(a: TreeView, b: TreeView) {
    }

    fn kind_name() -> (s: String) {
        String::from_str("i64")
    }

    fn to_tree(&self) -> (t: SummaryTree) {
        SummaryTree::Signed(*self as i128)
    }

    fn from_tree(t: &SummaryTree) -> (r: Option<Self>) {
        match t {
            SummaryTree::Signed(v) => if (i64::MIN as i128) <= *v && *v <= (i64::MAX as i128) {
                Some(*v as i64)
            } else {
                None
            },
            _ => None,
        }
    }
}

impl SummarizableVal for i128 {
    open spec fn tree(&self) -> TreeView {
        TreeView::Signed(*self)
    }

    open spec fn fits(t: TreeView) -> bool {
        t is Signed
    }

    open spec fn kind_text() -> Seq<char> {
        "i128"@
    }

    open spec fn equals(&self, other: &Self) -> bool {
        *self == *other
    }

    proof fn law_trees_tell_values_apart(&self, other: &Self) {
    }

    proof fn lemma_tree(&self) {
    }

    proof fn lemma_shape(a: TreeView, b: TreeView) {
    }

    fn kind_name() -> (s: String) {
        String::from_str("i128")
    }

    fn to_tree(&self) -> (t: SummaryTree) {
        SummaryTree::Signed(*self)
    }

    fn from_tree(t: &SummaryTree) -> (r: Option<Self>) {
        match t {
            SummaryTree::Signed(v) => Some(*v),
            _ => None,
        }
    }
}

impl SummarizableVal for isize {
    open spec fn tree(&self) -> TreeView {
        TreeView::Signed(*self as i128)
    }

    open spec fn fits(t: TreeView) -> bool {
        t matches TreeView::Signed(v) && isize::MIN <= v <= isize::MAX
    }

    open spec fn kind_text() -> Seq<char> {
        "isize"@
    }

    open spec fn equals(&self, other: &Self) -> bool {
        *self == *other
    }

    proof fn law_trees_tell_values_apart(&self, other: &Self) {
    }

    proof fn lemma_tree(&self) {
    }

    proof fn lemma_shape(a: TreeView, b: TreeView) {
    }

    fn kind_name() -> (s: String) {
        String::from_str("isize")
    }

    fn to_tree(&self) -> (t: SummaryTree) {
        SummaryTree::Signed(*self as i128)
    }

    fn from_tree(t: &SummaryTree) -> (r: Option<Self>) {
        match t {
            SummaryTree::Signed(v) => if (isize::MIN as i128) <= *v && *v <= (isize::MAX as i128) {
                Some(*v as isize)
            } else {
                None
            },
            _ => None,
        }
    }
}

impl SummarizableVal for u8 {
    open spec fn tree(&self) -> TreeView {
        TreeView::Unsigned(*self as u128)
    }

    open spec fn fits(t: TreeView) -> bool {
        t matches TreeView::Unsigned(v) && v <= u8::MAX
    }

    open spec fn kind_text() -> Seq<char> {
        "u8"@
    }

    open spec fn equals(&self, other: &Self) -> bool {
        *self == *other
    }

    proof fn law_trees_tell_values_apart(&self, other: &Self) {
    }

    proof fn lemma_tree(&self) {
    }

    proof fn lemma_shape(a: TreeView, b: TreeView) {
    }

    fn kind_name() -> (s: String) {
        String::from_str("u8")
    }

    fn to_tree(&self) -> (t: SummaryTree) {
        SummaryTree::Unsigned(*self as u128)
    }

    fn from_tree(t: &SummaryTree) -> (r: Option<Self>) {
        match t {
            SummaryTree::Unsigned(v) => if *v <= (u8::MAX as u128) {
                Some(*v as u8)
            } else {
                None
            },
            _ => None,
        }
    }
}

impl SummarizableVal for u16 {
    open spec fn tree(&self) -> TreeView {
        TreeView::Unsigned(*self as u128)
    }

    open spec fn fits(t: TreeView) -> bool {
        t matches TreeView::Unsigned(v) && v <= u16::MAX
    }

    open spec fn kind_text() -> Seq<char> {
        "u16"@
    }

    open spec fn equals(&self, other: &Self) -> bool {
        *self == *other
    }

    proof fn law_trees_tell_values_apart(&self, other: &Self) {
    }

    proof fn lemma_tree(&self) {
    }

    proof fn lemma_shape(a: TreeView, b: TreeView) {
    }

    fn kind_name() -> (s: String) {
        String::from_str("u16")
    }

    fn to_tree(&self) -> (t: SummaryTree) {
        SummaryTree::Unsigned(*self as u128)
    }

    fn from_tree(t: &SummaryTree) -> (r: Option<Self>) {
        match t {
            SummaryTree::Unsigned(v) => if *v <= (u16::MAX as u128) {
                Some(*v as u16)
            } else {
                None
            },
            _ => None,
        }
    }
}

impl SummarizableVal for u32 {
    open spec fn tree(&self) -> TreeView {
        TreeView::Unsigned(*self as u128)
    }

    open spec fn fits(t: TreeView) -> bool {
        t matches TreeView::Unsigned(v) && v <= u32::MAX
    }

    open spec fn kind_text() -> Seq<char> {
        "u32"@
    }

    open spec fn equals(&self, other: &Self) -> bool {
        *self == *other
    }

    proof fn law_trees_tell_values_apart(&self, other: &Self) {
    }

    proof fn lemma_tree(&self) {
    }

    proof fn lemma_shape(a: TreeView, b: TreeView) {
    }

    fn kind_name() -> (s: String) {
        String::from_str("u32")
    }

    fn to_tree(&self) -> (t: SummaryTree) {
        SummaryTree::Unsigned(*self as u128)
    }

    fn from_tree(t: &SummaryTree) -> (r: Option<Self>) {
        match t {
            SummaryTree::Unsigned(v) => if *v <= (u32::MAX as u128) {
                Some(*v as u32)
            } else {
                None
            },
            _ => None,
        }
    }
}

impl SummarizableVal for u64 {
    open spec fn tree(&self) -> TreeView {
        TreeView::Unsigned(*self as u128)
    }

    open spec fn fits(t: TreeView) -> bool {
        t matches TreeView::Unsigned(v) && v <= u64::MAX
    }

    open spec fn kind_text() -> Seq<char> {
        "u64"@
    }

    open spec fn equals(&self, other: &Self) -> bool {
        *self == *other
    }

    proof fn law_trees_tell_values_apart(&self, other: &Self) {
    }

    proof fn lemma_tree(&self) {
    }

    proof fn lemma_shape(a: TreeView, b: TreeView) {
    }

    fn kind_name() -> (s: String) {
        String::from_str("u64")
    }

    fn to_tree(&self) -> (t: SummaryTree) {
        SummaryTree::Unsigned(*self as u128)
    }

    fn from_tree(t: &SummaryTree) -> (r: Option<Self>) {
        match t {
            SummaryTree::Unsigned(v) => if *v <= (u64::MAX as u128) {
                Some(*v as u64)
            } else {
                None
            },
            _ => None,
        }
    }
}

impl SummarizableVal for u128 {
    open spec fn tree(&self) -> TreeView {
        TreeView::Unsigned(*self)
    }

    open spec fn fits(t: TreeView) -> bool {
        t is Unsigned
    }

    open spec fn kind_text() -> Seq<char> {
        "u128"@
    }

    open spec fn equals(&self, other: &Self) -> bool {
        *self == *other
    }

    proof fn law_trees_tell_values_apart(&self, other: &Self) {
    }

    proof fn lemma_tree(&self) {
    }

    proof fn lemma_shape(a: TreeView, b: TreeView) {
    }

    fn kind_name() -> (s: String) {
        String::from_str("u128")
    }

    fn to_tree(&self) -> (t: SummaryTree) {
        SummaryTree::Unsigned(*self)
    }

    fn from_tree(t: &SummaryTree) -> (r: Option<Self>) {
        match t {
            SummaryTree::Unsigned(v) => Some(*v),
            _ => None,
        }
    }
}

impl SummarizableVal for usize {
    open spec fn tree(&self) -> TreeView {
        TreeView::Unsigned(*self as u128)
    }

    open spec fn fits(t: TreeView) -> bool {
        t matches TreeView::Unsigned(v) && v <= usize::MAX
    }

    open spec fn kind_text() -> Seq<char> {
        "usize"@
    }

    open spec fn equals(&self, other: &Self) -> bool {
        *self == *other
    }

    proof fn law_trees_tell_values_apart(&self, other: &Self) {
    }

    proof fn lemma_tree(&self) {
    }

    proof fn lemma_shape(a: TreeView, b: TreeView) {
    }

    fn kind_name() -> (s: String) {
        String::from_str("usize")
    }

    fn to_tree(&self) -> (t: SummaryTree) {
        SummaryTree::Unsigned(*self as u128)
    }

    fn from_tree(t: &SummaryTree) -> (r: Option<Self>) {
        match t {
            SummaryTree::Unsigned(v) => if *v <= (usize::MAX as u128) {
                Some(*v as usize)
            } else {
                None
            },
            _ => None,
        }
    }
}

/// A compound value with one field.
pub open spec fn one_field(k: u32, field: TreeView) -> TreeView {
    TreeView::Node(k, seq![field])
}

fn wrap_field(k: u32, field: SummaryTree) -> (t: SummaryTree)
    ensures
        t@ == one_field(k, field@),
{
    let mut fields: Vec<SummaryTree> = Vec::new();
    fields.push(field);
    proof {
        lemma_node(k, fields);
        assert(trees_view(fields@) =~= seq![field@]);
    }
    SummaryTree::Node(k, fields)
}

impl<T: SummarizableVal> SummarizableVal for Option<T> {
    open spec fn tree(&self) -> TreeView {
        match *self {
            None => TreeView::Node(0, Seq::empty()),
            Some(v) => one_field(1, v.tree()),
        }
    }

    open spec fn fits(t: TreeView) -> bool {
        match t {
            TreeView::Node(k, fields) => (k == 0 && fields.len() == 0) || (k == 1 && fields.len()
                == 1 && T::fits(fields[0])),
            _ => false,
        }
    }

    open spec fn kind_text() -> Seq<char> {
        "Option<"@ + T::kind_text() + ">"@
    }

    open spec fn equals(&self, other: &Self) -> bool {
        match (*self, *other) {
            (None, None) => true,
            (Some(a), Some(b)) => a.equals(&b),
            _ => false,
        }
    }

    proof fn law_trees_tell_values_apart(&self, other: &Self) {
        if let (Some(a), Some(b)) = (*self, *other) {
            a.law_trees_tell_values_apart(&b);
            assert(self.tree()->Node_1[0] == a.tree());
            assert(other.tree()->Node_1[0] == b.tree());
        }
    }

    proof fn lemma_tree(&self) {
        if let Some(v) = *self {
            v.lemma_tree();
        }
    }

    proof fn lemma_shape(a: TreeView, b: TreeView) {
        if a->Node_0 == 1 {
            T::lemma_shape(a->Node_1[0], b->Node_1[0]);
        }
    }

    fn kind_name() -> (s: String) {
        let mut s = String::from_str("Option<");
        s.append(T::kind_name().as_str());
        s.append(">");
        s
    }

    fn to_tree(&self) -> (t: SummaryTree) {
        match self {
            None => {
                let fields: Vec<SummaryTree> = Vec::new();
                proof {
                    lemma_node(0, fields);
                    assert(trees_view(fields@) =~= Seq::<TreeView>::empty());
                }
                SummaryTree::Node(0, fields)
            },
            Some(v) => wrap_field(1, v.to_tree()),
        }
    }

    fn from_tree(t: &SummaryTree) -> (r: Option<Self>) {
        match t {
            SummaryTree::Node(k, fields) => {
                proof {
                    lemma_node(*k, *fields);
                }
                if *k == 0 && fields.len() == 0 {
                    assert(trees_view(fields@) =~= Seq::<TreeView>::empty());
                    Some(None)
                } else if *k == 1 && fields.len() == 1 {
                    assert(trees_view(fields@) =~= seq![fields@[0]@]);
                    match T::from_tree(&fields[0]) {
                        Some(v) => Some(Some(v)),
                        None => None,
                    }
                } else {
                    None
                }
            },
            _ => None,
        }
    }
}

impl<T: SummarizableVal, E: SummarizableVal> SummarizableVal for Result<T, E> {
    open spec fn tree(&self) -> TreeView {
        match *self {
            Ok(v) => one_field(0, v.tree()),
            Err(e) => one_field(1, e.tree()),
        }
    }

    open spec fn fits(t: TreeView) -> bool {
        match t {
            TreeView::Node(k, fields) => fields.len() == 1 && ((k == 0 && T::fits(fields[0])) || (k
                == 1 && E::fits(fields[0]))),
            _ => false,
        }
    }

    open spec fn kind_text() -> Seq<char> {
        "Result<"@ + T::kind_text() + ", "@ + E::kind_text() + ">"@
    }

    open spec fn equals(&self, other: &Self) -> bool {
        match (*self, *other) {
            (Ok(a), Ok(b)) => a.equals(&b),
            (Err(a), Err(b)) => a.equals(&b),
            _ => false,
        }
    }

    proof fn law_trees_tell_values_apart(&self, other: &Self) {
        match (*self, *other) {
            (Ok(a), Ok(b)) => {
                a.law_trees_tell_values_apart(&b);
                assert(self.tree()->Node_1[0] == a.tree());
                assert(other.tree()->Node_1[0] == b.tree());
            },
            (Err(a), Err(b)) => {
                a.law_trees_tell_values_apart(&b);
                assert(self.tree()->Node_1[0] == a.tree());
                assert(other.tree()->Node_1[0] == b.tree());
            },
            _ => {},
        }
    }

    proof fn lemma_tree(&self) {
        match *self {
            Ok(v) => v.lemma_tree(),
            Err(e) => e.lemma_tree(),
        }
    }

    proof fn lemma_shape(a: TreeView, b: TreeView) {
        if a->Node_0 == 0 {
            T::lemma_shape(a->Node_1[0], b->Node_1[0]);
        } else {
            E::lemma_shape(a->Node_1[0], b->Node_1[0]);
        }
    }

    fn kind_name() -> (s: String) {
        let mut s = String::from_str("Result<");
        s.append(T::kind_name().as_str());
        s.append(", ");
        s.append(E::kind_name().as_str());
        s.append(">");
        s
    }

    fn to_tree(&self) -> (t: SummaryTree) {
        match self {
            Ok(v) => wrap_field(0, v.to_tree()),
            Err(e) => wrap_field(1, e.to_tree()),
        }
    }

    fn from_tree(t: &SummaryTree) -> (r: Option<Self>) {
        match t {
            SummaryTree::Node(k, fields) => {
                proof {
                    lemma_node(*k, *fields);
                }
                if fields.len() != 1 {
                    return None;
                }
                assert(trees_view(fields@) =~= seq![fields@[0]@]);
                if *k == 0 {
                    match T::from_tree(&fields[0]) {
                        Some(v) => Some(Ok(v)),
                        None => None,
                    }
                } else if *k == 1 {
                    match E::from_tree(&fields[0]) {
                        Some(e) => Some(Err(e)),
                        None => None,
                    }
                } else {
                    None
                }
            },
            _ => None,
        }
    }
}

/// Whether all fields are trees of values of `T`.
pub open spec fn all_fit<T: SummarizableVal>(fields: Seq<TreeView>) -> bool {
    forall|i: int| 0 <= i < fields.len() ==> #[trigger] T::fits(fields[i])
}

/// What the values of a list hold.
pub open spec fn trees_of<T: SummarizableVal>(values: Seq<T>) -> Seq<TreeView> {
    Seq::new(values.len(), |i: int| values[i].tree())
}

/// Whether two lists hold equal values in the same order.
pub open spec fn all_equal<T: SummarizableVal>(a: Seq<T>, b: Seq<T>) -> bool {
    a.len() == b.len() && forall|i: int| 0 <= i < a.len() ==> (#[trigger] a[i]).equals(&b[i])
}

/// Lists hold the same exactly where their values are equal.
proof fn lemma_all_equal<T: SummarizableVal>(a: Seq<T>, b: Seq<T>)
    ensures
        trees_of(a) == trees_of(b) <==> all_equal(a, b),
{
    let (x, y) = (trees_of(a), trees_of(b));
    if x == y {
        assert forall|i: int| 0 <= i < a.len() implies (#[trigger] a[i]).equals(&b[i]) by {
            a[i].law_trees_tell_values_apart(&b[i]);
            assert(x[i] == y[i]);
        }
        assert(x.len() == y.len());
    }
    if all_equal(a, b) {
        assert forall|i: int| 0 <= i < x.len() implies x[i] == y[i] by {
            assert(a[i].equals(&b[i]));
            a[i].law_trees_tell_values_apart(&b[i]);
        }
        assert(x =~= y);
    }
}

impl<T: SummarizableVal> SummarizableVal for Vec<T> {
    open spec fn tree(&self) -> TreeView {
        TreeView::Node(0, trees_of(self@))
    }

    open spec fn fits(t: TreeView) -> bool {
        match t {
            TreeView::Node(k, fields) => k == 0 && all_fit::<T>(fields),
            _ => false,
        }
    }

    open spec fn kind_text() -> Seq<char> {
        "Vec<"@ + T::kind_text() + ">"@
    }

    open spec fn equals(&self, other: &Self) -> bool {
        all_equal(self@, other@)
    }

    proof fn law_trees_tell_values_apart(&self, other: &Self) {
        lemma_all_equal(self@, other@);
    }

    proof fn lemma_tree(&self) {
        assert forall|i: int| 0 <= i < self@.len() implies T::fits(
            #[trigger] self.tree()->Node_1[i],
        ) by {
            self@[i].lemma_tree();
        }
    }

    proof fn lemma_shape(a: TreeView, b: TreeView) {
        assert forall|i: int| 0 <= i < b->Node_1.len() implies T::fits(
            #[trigger] b->Node_1[i],
        ) by {
            T::lemma_shape(a->Node_1[i], b->Node_1[i]);
        }
    }

    fn kind_name() -> (s: String) {
        let mut s = String::from_str("Vec<");
        s.append(T::kind_name().as_str());
        s.append(">");
        s
    }

    fn to_tree(&self) -> (t: SummaryTree) {
        let mut fields: Vec<SummaryTree> = Vec::new();
        let mut i: usize = 0;
        while i < self.len()
            invariant
                i <= self@.len(),
                fields@.len() == i,
                forall|k: int| 0 <= k < i ==> (#[trigger] fields@[k])@ == self@[k].tree(),
            decreases self.len() - i,
        {
            fields.push(self[i].to_tree());
            i += 1;
        }
        proof {
            lemma_node(0, fields);
            assert(trees_view(fields@) =~= self.tree()->Node_1);
        }
        SummaryTree::Node(0, fields)
    }

    fn from_tree(t: &SummaryTree) -> (r: Option<Self>) {
        match t {
            SummaryTree::Node(k, fields) => {
                proof {
                    lemma_node(*k, *fields);
                }
                if *k != 0 {
                    return None;
                }
                let ghost views = trees_view(fields@);
                let mut values: Vec<T> = Vec::new();
                let mut i: usize = 0;
                while i < fields.len()
                    invariant
                        i <= fields@.len(),
                        values@.len() == i,
                        t@ == TreeView::Node(0, views),
                        views == trees_view(fields@),
                        forall|j: int| 0 <= j < i ==> #[trigger] T::fits(views[j]),
                        forall|j: int| 0 <= j < i ==> (#[trigger] values@[j]).tree() == views[j],
                    decreases fields.len() - i,
                {
                    assert(views[i as int] == fields@[i as int]@);
                    match T::from_tree(&fields[i]) {
                        Some(v) => values.push(v),
                        None => {
                            assert(!T::fits(views[i as int]));
                            return None;
                        },
                    }
                    i += 1;
                }
                assert(values.tree()->Node_1 =~= views);
                Some(values)
            },
            _ => None,
        }
    }
}

/// The values of a list as an array, from `<[T; N] as TryFrom<Vec<T>>>::try_from`: it holds
/// them in their order where there are `N` of them, and there is none otherwise.
#[verifier::external_body]
fn array_of<T, const N: usize>(values: Vec<T>) -> (r: Option<[T; N]>)
    ensures
        r is Some == (values@.len() == N),
        r matches Some(a) ==> a@ == values@,
{
    values.try_into().ok()
}

impl<T: SummarizableVal, const N: usize> SummarizableVal for [T; N] {
    open spec fn tree(&self) -> TreeView {
        TreeView::Node(0, trees_of(self@))
    }

    open spec fn fits(t: TreeView) -> bool {
        match t {
            TreeView::Node(k, fields) => k == 0 && fields.len() == N && all_fit::<T>(fields),
            _ => false,
        }
    }

    open spec fn kind_text() -> Seq<char> {
        "["@ + T::kind_text() + "; "@ + decimal_of(N as nat) + "]"@
    }

    open spec fn equals(&self, other: &Self) -> bool {
        all_equal(self@, other@)
    }

    proof fn law_trees_tell_values_apart(&self, other: &Self) {
        lemma_all_equal(self@, other@);
    }

    proof fn lemma_tree(&self) {
        assert forall|i: int| 0 <= i < self@.len() implies T::fits(
            #[trigger] self.tree()->Node_1[i],
        ) by {
            self@[i].lemma_tree();
        }
    }

    proof fn lemma_shape(a: TreeView, b: TreeView) {
        assert forall|i: int| 0 <= i < b->Node_1.len() implies T::fits(
            #[trigger] b->Node_1[i],
        ) by {
            T::lemma_shape(a->Node_1[i], b->Node_1[i]);
        }
    }

    fn kind_name() -> (s: String) {
        let mut s = String::from_str("[");
        s.append(T::kind_name().as_str());
        s.append("; ");
        s.append(decimal(N as u128).as_str());
        s.append("]");
        s
    }

    fn to_tree(&self) -> (t: SummaryTree) {
        let mut fields: Vec<SummaryTree> = Vec::new();
        let mut i: usize = 0;
        while i < N
            invariant
                i <= N == self@.len(),
                fields@.len() == i,
                forall|k: int| 0 <= k < i ==> (#[trigger] fields@[k])@ == self@[k].tree(),
            decreases N - i,
        {
            fields.push(self[i].to_tree());
            i += 1;
        }
        proof {
            lemma_node(0, fields);
            assert(trees_view(fields@) =~= self.tree()->Node_1);
        }
        SummaryTree::Node(0, fields)
    }

    fn from_tree(t: &SummaryTree) -> (r: Option<Self>) {
        match Vec::<T>::from_tree(t) {
            Some(values) => {
                assert(trees_of(values@).len() == values@.len());
                array_of(values)
            },
            None => None,
        }
    }
}

impl<T: SummarizableVal> SummarizableVal for Box<T> {
    open spec fn tree(&self) -> TreeView {
        (**self).tree()
    }

    open spec fn fits(t: TreeView) -> bool {
        T::fits(t)
    }

    open spec fn kind_text() -> Seq<char> {
        "Box<"@ + T::kind_text() + ">"@
    }

    open spec fn equals(&self, other: &Self) -> bool {
        (**self).equals(&**other)
    }

    proof fn law_trees_tell_values_apart(&self, other: &Self) {
        (**self).law_trees_tell_values_apart(&**other);
    }

    proof fn lemma_tree(&self) {
        (**self).lemma_tree();
    }

    proof fn lemma_shape(a: TreeView, b: TreeView) {
        T::lemma_shape(a, b);
    }

    fn kind_name() -> (s: String) {
        let mut s = String::from_str("Box<");
        s.append(T::kind_name().as_str());
        s.append(">");
        s
    }

    fn to_tree(&self) -> (t: SummaryTree) {
        (**self).to_tree()
    }

    fn from_tree(t: &SummaryTree) -> (r: Option<Self>) {
        match T::from_tree(t) {
            Some(v) => Some(Box::new(v)),
            None => None,
        }
    }
}
} // verus!
