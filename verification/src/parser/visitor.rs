//! Walking a tree: one hook for each kind of node.
//!
//! A visitor is called back on the nodes of a tree. The hooks of the
//! branches (root, rule, at-rule) decide whether the walk goes on below
//! them: a hook that calls [`walk_root`], [`walk_rule`] or [`walk_at_rule`]
//! on its node has the children visited, and one that does not call it cuts
//! the walk off there. [`VisitorMut`] is the same for a visitor that rewrites
//! the text of the nodes in place.
//!
//! A visitor writes each of its hooks: the hook of a branch that only walks
//! on is the one call of the walk function, and the hook of a leaf that is of
//! no interest is empty.
//!
//! What a hook does is stated by the step function of the same node: the
//! visitor after the hook is the step of the visitor before it. The walks are
//! specified over the steps. A step function that is not overridden says that
//! the hook leaves everything as it is.

use vstd::prelude::*;
use crate::ast::{
    block_child_spans, block_spans, block_views, root_child_spans, root_spans, root_views, AtRule,
    BlockChild, Comment, Declaration, Root, RootChild, Rule,
};

verus! {

/// A visitor that reads the tree.
pub trait Visitor: Sized {
    /// The visitor after its hook was called on a root.
    open spec fn root_step(self, root: Root) -> Self {
        self
    }

    /// The visitor after its hook was called on a rule.
    open spec fn rule_step(self, rule: Rule) -> Self {
        self
    }

    /// The visitor after its hook was called on an at-rule.
    open spec fn at_rule_step(self, at_rule: AtRule) -> Self {
        self
    }

    /// The visitor after its hook was called on a declaration.
    open spec fn declaration_step(self, declaration: Declaration) -> Self {
        self
    }

    /// The visitor after its hook was called on a comment.
    open spec fn comment_step(self, comment: Comment) -> Self {
        self
    }

    /// The hook of a root. To visit the children, call [`walk_root`].
    fn visit_root(&mut self, root: &Root)
        ensures
            *final(self) == old(self).root_step(*root),
    ;

    /// The hook of a rule. To visit the children, call [`walk_rule`].
    fn visit_rule(&mut self, rule: &Rule)
        ensures
            *final(self) == old(self).rule_step(*rule),
    ;

    /// The hook of an at-rule. To visit the children, call [`walk_at_rule`].
    fn visit_at_rule(&mut self, at_rule: &AtRule)
        ensures
            *final(self) == old(self).at_rule_step(*at_rule),
    ;

    /// The hook of a declaration.
    fn visit_declaration(&mut self, declaration: &Declaration)
        ensures
            *final(self) == old(self).declaration_step(*declaration),
    ;

    /// The hook of a comment.
    fn visit_comment(&mut self, comment: &Comment)
        ensures
            *final(self) == old(self).comment_step(*comment),
    ;
}

/// The visitor after the hook of a child of a block.
pub open spec fn block_child_step<V: Visitor>(v: V, child: BlockChild) -> V {
    match child {
        BlockChild::AtRule(a) => v.at_rule_step(a),
        BlockChild::Declaration(d) => v.declaration_step(d),
        BlockChild::Comment(c) => v.comment_step(c),
    }
}

/// The visitor after the hook of a top-level child.
pub open spec fn root_child_step<V: Visitor>(v: V, child: RootChild) -> V {
    match child {
        RootChild::Rule(r) => v.rule_step(r),
        RootChild::AtRule(a) => v.at_rule_step(a),
        RootChild::Comment(c) => v.comment_step(c),
    }
}

/// The visitor after the hooks of the children of a block, called in order.
pub open spec fn block_walk<V: Visitor>(v: V, nodes: Seq<BlockChild>) -> V
    decreases nodes.len(),
{
    if nodes.len() == 0 {
        v
    } else {
        block_child_step(block_walk(v, nodes.drop_last()), nodes.last())
    }
}

/// The visitor after the hooks of top-level children, called in order.
pub open spec fn root_walk<V: Visitor>(v: V, nodes: Seq<RootChild>) -> V
    decreases nodes.len(),
{
    if nodes.len() == 0 {
        v
    } else {
        root_child_step(root_walk(v, nodes.drop_last()), nodes.last())
    }
}

/// Calls the hook of each child of the root, in order.
pub fn walk_root<V: Visitor>(visitor: &mut V, root: &Root)
    ensures
        *final(visitor) == root_walk(*old(visitor), root.nodes@),
{
    let mut i: usize = 0;
    while i < root.nodes.len()
        invariant
            i <= root.nodes.len(),
            *visitor == root_walk(*old(visitor), root.nodes@.take(i as int)),
        decreases root.nodes.len() - i,
    {
        proof {
            assert(root.nodes@.take(i + 1).drop_last() =~= root.nodes@.take(i as int));
        }
        match &root.nodes[i] {
            RootChild::Rule(rule) => visitor.visit_rule(rule),
            RootChild::AtRule(at_rule) => visitor.visit_at_rule(at_rule),
            RootChild::Comment(comment) => visitor.visit_comment(comment),
        }
        i += 1;
    }
    proof {
        assert(root.nodes@.take(i as int) =~= root.nodes@);
    }
}

/// Calls the hook of each child of a block, in order.
fn walk_block<V: Visitor>(visitor: &mut V, nodes: &Vec<BlockChild>)
    ensures
        *final(visitor) == block_walk(*old(visitor), nodes@),
{
    let mut i: usize = 0;
    while i < nodes.len()
        invariant
            i <= nodes.len(),
            *visitor == block_walk(*old(visitor), nodes@.take(i as int)),
        decreases nodes.len() - i,
    {
        proof {
            assert(nodes@.take(i + 1).drop_last() =~= nodes@.take(i as int));
        }
        match &nodes[i] {
            BlockChild::Declaration(declaration) => visitor.visit_declaration(declaration),
            BlockChild::AtRule(at_rule) => visitor.visit_at_rule(at_rule),
            BlockChild::Comment(comment) => visitor.visit_comment(comment),
        }
        i += 1;
    }
    proof {
        assert(nodes@.take(i as int) =~= nodes@);
    }
}

/// Calls the hook of each child of the rule, in order.
pub fn walk_rule<V: Visitor>(visitor: &mut V, rule: &Rule)
    ensures
        *final(visitor) == block_walk(*old(visitor), rule.nodes@),
{
    walk_block(visitor, &rule.nodes)
}

/// Calls the hook of each child of the at-rule, in order.
pub fn walk_at_rule<V: Visitor>(visitor: &mut V, at_rule: &AtRule)
    ensures
        *final(visitor) == block_walk(*old(visitor), at_rule.nodes@),
{
    walk_block(visitor, &at_rule.nodes)
}

/// A declaration or a comment: a node without children.
pub ghost enum Leaf {
    Declaration(Declaration),
    Comment(Comment),
}

/// The leaves below the children of a block, in the order of the source.
pub open spec fn block_leaves(nodes: Seq<BlockChild>) -> Seq<Leaf>
    decreases nodes, 1nat,
{
    if nodes.len() == 0 {
        seq![]
    } else {
        block_leaves(nodes.drop_last()) + block_child_leaves(nodes.last())
    }
}

/// The leaves of a child of a block, in the order of the source.
pub open spec fn block_child_leaves(child: BlockChild) -> Seq<Leaf>
    decreases child, 0nat,
{
    match child {
        BlockChild::AtRule(a) => block_leaves(a.nodes@),
        BlockChild::Declaration(d) => seq![Leaf::Declaration(d)],
        BlockChild::Comment(c) => seq![Leaf::Comment(c)],
    }
}

/// The leaves of a top-level child, in the order of the source.
pub open spec fn root_child_leaves(child: RootChild) -> Seq<Leaf> {
    match child {
        RootChild::Rule(r) => block_leaves(r.nodes@),
        RootChild::AtRule(a) => block_leaves(a.nodes@),
        RootChild::Comment(c) => seq![Leaf::Comment(c)],
    }
}

/// The leaves of a tree, in the order of the source.
pub open spec fn root_leaves(nodes: Seq<RootChild>) -> Seq<Leaf>
    decreases nodes.len(),
{
    if nodes.len() == 0 {
        seq![]
    } else {
        root_leaves(nodes.drop_last()) + root_child_leaves(nodes.last())
    }
}

/// The visitor after the hook of a leaf.
pub open spec fn leaf_step<V: Visitor>(v: V, leaf: Leaf) -> V {
    match leaf {
        Leaf::Declaration(d) => v.declaration_step(d),
        Leaf::Comment(c) => v.comment_step(c),
    }
}

/// The visitor after the hook of each of the leaves, called once, in order.
pub open spec fn leaves_walk<V: Visitor>(v: V, leaves: Seq<Leaf>) -> V
    decreases leaves.len(),
{
    if leaves.len() == 0 {
        v
    } else {
        leaf_step(leaves_walk(v, leaves.drop_last()), leaves.last())
    }
}

/// Whether the hooks of the branches of `V` do nothing but walk on: the step
/// of a root, of a rule and of an at-rule is the walk over its children.
pub open spec fn walks_on<V: Visitor>() -> bool {
    &&& forall|v: V, root: Root| #[trigger] v.root_step(root) == root_walk(v, root.nodes@)
    &&& forall|v: V, rule: Rule| #[trigger] v.rule_step(rule) == block_walk(v, rule.nodes@)
    &&& forall|v: V, at_rule: AtRule| #[trigger]
        v.at_rule_step(at_rule) == block_walk(v, at_rule.nodes@)
}

/// Visiting leaves one list after another is visiting their concatenation.
pub proof fn lemma_leaves_walk_concat<V: Visitor>(v: V, first: Seq<Leaf>, second: Seq<Leaf>)
    ensures
        leaves_walk(v, first + second) == leaves_walk(leaves_walk(v, first), second),
    decreases second.len(),
{
    if second.len() == 0 {
        assert(first + second =~= first);
    } else {
        assert((first + second).drop_last() =~= first + second.drop_last());
        lemma_leaves_walk_concat(v, first, second.drop_last());
    }
}

/// Where the hooks of the branches only walk on, the walk over the children
/// of a block calls the hook of every leaf below them once, in the order of
/// the source.
pub proof fn lemma_block_walk_visits_leaves<V: Visitor>(v: V, nodes: Seq<BlockChild>)
    requires
        walks_on::<V>(),
    ensures
        block_walk(v, nodes) == leaves_walk(v, block_leaves(nodes)),
    decreases nodes, 1nat,
{
    if nodes.len() > 0 {
        let before = block_walk(v, nodes.drop_last());
        lemma_block_walk_visits_leaves(v, nodes.drop_last());
        lemma_leaves_walk_concat(
            v,
            block_leaves(nodes.drop_last()),
            block_child_leaves(nodes.last()),
        );
        match nodes.last() {
            BlockChild::AtRule(a) => {
                lemma_block_walk_visits_leaves(before, a.nodes@);
            },
            BlockChild::Declaration(d) => {
                let one = seq![Leaf::Declaration(d)];
                assert(one.drop_last() =~= Seq::<Leaf>::empty());
                assert(leaves_walk(before, one) == leaf_step(
                    leaves_walk(before, one.drop_last()),
                    one.last(),
                ));
            },
            BlockChild::Comment(c) => {
                let one = seq![Leaf::Comment(c)];
                assert(one.drop_last() =~= Seq::<Leaf>::empty());
                assert(leaves_walk(before, one) == leaf_step(
                    leaves_walk(before, one.drop_last()),
                    one.last(),
                ));
            },
        }
    }
}

/// Where the hooks of the branches only walk on, a walk over a tree calls
/// the hook of every declaration and of every comment of the tree once, in
/// the order of the source.
pub proof fn lemma_walk_visits_leaves<V: Visitor>(v: V, root: Root)
    requires
        walks_on::<V>(),
    ensures
        v.root_step(root) == leaves_walk(v, root_leaves(root.nodes@)),
        root_walk(v, root.nodes@) == leaves_walk(v, root_leaves(root.nodes@)),
{
    lemma_root_walk_visits_leaves(v, root.nodes@);
}

/// See [`lemma_walk_visits_leaves`].
pub proof fn lemma_root_walk_visits_leaves<V: Visitor>(v: V, nodes: Seq<RootChild>)
    requires
        walks_on::<V>(),
    ensures
        root_walk(v, nodes) == leaves_walk(v, root_leaves(nodes)),
    decreases nodes.len(),
{
    if nodes.len() > 0 {
        let before = root_walk(v, nodes.drop_last());
        lemma_root_walk_visits_leaves(v, nodes.drop_last());
        lemma_leaves_walk_concat(
            v,
            root_leaves(nodes.drop_last()),
            root_child_leaves(nodes.last()),
        );
        match nodes.last() {
            RootChild::Rule(r) => {
                lemma_block_walk_visits_leaves(before, r.nodes@);
            },
            RootChild::AtRule(a) => {
                lemma_block_walk_visits_leaves(before, a.nodes@);
            },
            RootChild::Comment(c) => {
                let one = seq![Leaf::Comment(c)];
                assert(one.drop_last() =~= Seq::<Leaf>::empty());
                assert(leaves_walk(before, one) == leaf_step(
                    leaves_walk(before, one.drop_last()),
                    one.last(),
                ));
            },
        }
    }
}

impl Leaf {
    /// The offset of the first byte of the leaf.
    pub open spec fn start(self) -> int {
        match self {
            Leaf::Declaration(d) => d.start as int,
            Leaf::Comment(c) => c.start as int,
        }
    }

    /// The offset of the last byte of the leaf.
    pub open spec fn end(self) -> int {
        match self {
            Leaf::Declaration(d) => d.end as int,
            Leaf::Comment(c) => c.end as int,
        }
    }
}

/// Whether the leaves stand in the order of the source inside `lo..=hi`:
/// each lies in `lo..=hi`, and each ends before the next one starts.
pub open spec fn in_source_order(leaves: Seq<Leaf>, lo: int, hi: int) -> bool {
    &&& forall|i: int|
        0 <= i < leaves.len() ==> lo <= (#[trigger] leaves[i]).start() <= leaves[i].end() <= hi
    &&& forall|i: int, j: int|
        0 <= i < j < leaves.len() ==> (#[trigger] leaves[i]).end() < (#[trigger] leaves[j]).start()
}

/// The leaves below children that are laid out as in a source stand in the
/// order of the source.
pub proof fn lemma_block_leaves_in_source_order(
    src: Seq<u8>,
    nodes: Seq<BlockChild>,
    lo: int,
    hi: int,
)
    requires
        block_spans(src, block_views(nodes), lo, hi),
    ensures
        in_source_order(block_leaves(nodes), lo, hi),
    decreases nodes, 1nat,
{
    if nodes.len() > 0 {
        let views = block_views(nodes);
        let before = nodes.drop_last();
        let last = nodes.last();
        let n = nodes.len() - 1;
        assert(views[n] == last@);
        assert(block_views(before) =~= views.drop_last());
        assert(block_spans(src, block_views(before), lo, last@.start() - 1)) by {
            assert forall|i: int| 0 <= i < before.len() implies {
                &&& lo <= (#[trigger] block_views(before)[i]).start()
                &&& block_views(before)[i].end() <= last@.start() - 1
                &&& block_child_spans(src, block_views(before)[i])
            } by {
                assert(block_views(before)[i] == views[i]);
            }
            assert forall|i: int, j: int| 0 <= i < j < before.len() implies (
            #[trigger] block_views(before)[i]).end() < (#[trigger] block_views(
                before,
            )[j]).start() by {
                assert(block_views(before)[i] == views[i]);
                assert(block_views(before)[j] == views[j]);
            }
        }
        lemma_block_leaves_in_source_order(src, before, lo, last@.start() - 1);
        let first = block_leaves(before);
        let second = block_child_leaves(last);
        assert(in_source_order(second, last@.start(), last@.end())) by {
            match last {
                BlockChild::AtRule(a) => {
                    lemma_block_leaves_in_source_order(src, a.nodes@, a.start as int, a.end as int);
                },
                BlockChild::Declaration(d) => {},
                BlockChild::Comment(c) => {},
            }
        }
        let all = first + second;
        assert forall|i: int| 0 <= i < all.len() implies lo <= (#[trigger] all[i]).start()
            <= all[i].end() <= hi by {
            if i < first.len() {
                assert(all[i] == first[i]);
            } else {
                assert(all[i] == second[i - first.len()]);
            }
        }
        assert forall|i: int, j: int| 0 <= i < j < all.len() implies (#[trigger] all[i]).end() < (
        #[trigger] all[j]).start() by {
            if i < first.len() {
                assert(all[i] == first[i]);
            } else {
                assert(all[i] == second[i - first.len()]);
            }
            if j < first.len() {
                assert(all[j] == first[j]);
            } else {
                assert(all[j] == second[j - first.len()]);
            }
        }
    }
}

/// The leaves of a tree that is laid out as in a source stand in the order
/// of the source: a walk that visits the leaves in their order visits them
/// from the start of the source to its end.
pub proof fn lemma_leaves_in_source_order(src: Seq<u8>, root: Root)
    requires
        root@.spans(src),
    ensures
        in_source_order(root_leaves(root.nodes@), root.start as int, root.end as int),
{
    lemma_root_leaves_in_source_order(src, root.nodes@, root.start as int, root.end as int);
}

/// See [`lemma_leaves_in_source_order`].
pub proof fn lemma_root_leaves_in_source_order(
    src: Seq<u8>,
    nodes: Seq<RootChild>,
    lo: int,
    hi: int,
)
    requires
        root_spans(src, root_views(nodes), lo, hi),
    ensures
        in_source_order(root_leaves(nodes), lo, hi),
    decreases nodes.len(),
{
    if nodes.len() > 0 {
        let views = root_views(nodes);
        let before = nodes.drop_last();
        let last = nodes.last();
        let n = nodes.len() - 1;
        assert(views[n] == last@);
        assert(root_views(before) =~= views.drop_last());
        assert(root_spans(src, root_views(before), lo, last@.start() - 1)) by {
            assert forall|i: int| 0 <= i < before.len() implies {
                &&& lo <= (#[trigger] root_views(before)[i]).start()
                &&& root_views(before)[i].end() <= last@.start() - 1
                &&& root_child_spans(src, root_views(before)[i])
            } by {
                assert(root_views(before)[i] == views[i]);
            }
            assert forall|i: int, j: int| 0 <= i < j < before.len() implies (
            #[trigger] root_views(before)[i]).end() < (#[trigger] root_views(
                before,
            )[j]).start() by {
                assert(root_views(before)[i] == views[i]);
                assert(root_views(before)[j] == views[j]);
            }
        }
        lemma_root_leaves_in_source_order(src, before, lo, last@.start() - 1);
        let first = root_leaves(before);
        let second = root_child_leaves(last);
        assert(in_source_order(second, last@.start(), last@.end())) by {
            match last {
                RootChild::Rule(r) => {
                    lemma_block_leaves_in_source_order(src, r.nodes@, r.start as int, r.end as int);
                },
                RootChild::AtRule(a) => {
                    lemma_block_leaves_in_source_order(src, a.nodes@, a.start as int, a.end as int);
                },
                RootChild::Comment(c) => {},
            }
        }
        let all = first + second;
        assert forall|i: int| 0 <= i < all.len() implies lo <= (#[trigger] all[i]).start()
            <= all[i].end() <= hi by {
            if i < first.len() {
                assert(all[i] == first[i]);
            } else {
                assert(all[i] == second[i - first.len()]);
            }
        }
        assert forall|i: int, j: int| 0 <= i < j < all.len() implies (#[trigger] all[i]).end() < (
        #[trigger] all[j]).start() by {
            if i < first.len() {
                assert(all[i] == first[i]);
            } else {
                assert(all[i] == second[i - first.len()]);
            }
            if j < first.len() {
                assert(all[j] == first[j]);
            } else {
                assert(all[j] == second[j - first.len()]);
            }
        }
    }
}

/// A visitor that rewrites the tree in place. A hook may change the text of
/// its node; the positions are left to it too, and stay as they were read
/// unless it changes them.
pub trait VisitorMut: Sized {
    /// The visitor and the root after the hook was called on the root.
    open spec fn root_step(self, root: Root) -> (Self, Root) {
        (self, root)
    }

    /// The visitor and the rule after the hook was called on the rule.
    open spec fn rule_step(self, rule: Rule) -> (Self, Rule) {
        (self, rule)
    }

    /// The visitor and the at-rule after the hook was called on the at-rule.
    open spec fn at_rule_step(self, at_rule: AtRule) -> (Self, AtRule) {
        (self, at_rule)
    }

    /// The visitor and the declaration after the hook was called on the
    /// declaration.
    open spec fn declaration_step(self, declaration: Declaration) -> (Self, Declaration) {
        (self, declaration)
    }

    /// The visitor and the comment after the hook was called on the comment.
    open spec fn comment_step(self, comment: Comment) -> (Self, Comment) {
        (self, comment)
    }

    /// The hook of a root. To visit the children, call [`walk_root_mut`].
    fn visit_root(&mut self, root: &mut Root)
        ensures
            (*final(self), *final(root)) == old(self).root_step(*old(root)),
    ;

    /// The hook of a rule. To visit the children, call [`walk_rule_mut`].
    fn visit_rule(&mut self, rule: &mut Rule)
        ensures
            (*final(self), *final(rule)) == old(self).rule_step(*old(rule)),
    ;

    /// The hook of an at-rule. To visit the children, call
    /// [`walk_at_rule_mut`].
    fn visit_at_rule(&mut self, at_rule: &mut AtRule)
        ensures
            (*final(self), *final(at_rule)) == old(self).at_rule_step(*old(at_rule)),
    ;

    /// The hook of a declaration.
    fn visit_declaration(&mut self, declaration: &mut Declaration)
        ensures
            (*final(self), *final(declaration)) == old(self).declaration_step(*old(declaration)),
    ;

    /// The hook of a comment.
    fn visit_comment(&mut self, comment: &mut Comment)
        ensures
            (*final(self), *final(comment)) == old(self).comment_step(*old(comment)),
    ;
}

/// The visitor and the child after the hook of a child of a block. The child
/// stays of its kind.
pub open spec fn block_child_step_mut<V: VisitorMut>(v: V, child: BlockChild) -> (V, BlockChild) {
    match child {
        BlockChild::AtRule(a) => (v.at_rule_step(a).0, BlockChild::AtRule(v.at_rule_step(a).1)),
        BlockChild::Declaration(d) => (
            v.declaration_step(d).0,
            BlockChild::Declaration(v.declaration_step(d).1),
        ),
        BlockChild::Comment(c) => (v.comment_step(c).0, BlockChild::Comment(v.comment_step(c).1)),
    }
}

/// The visitor and the child after the hook of a top-level child. The child
/// stays of its kind.
pub open spec fn root_child_step_mut<V: VisitorMut>(v: V, child: RootChild) -> (V, RootChild) {
    match child {
        RootChild::Rule(r) => (v.rule_step(r).0, RootChild::Rule(v.rule_step(r).1)),
        RootChild::AtRule(a) => (v.at_rule_step(a).0, RootChild::AtRule(v.at_rule_step(a).1)),
        RootChild::Comment(c) => (v.comment_step(c).0, RootChild::Comment(v.comment_step(c).1)),
    }
}

/// The visitor and the children after the hooks of the children of a block,
/// called in order.
pub open spec fn block_walk_mut<V: VisitorMut>(v: V, nodes: Seq<BlockChild>) -> (
    V,
    Seq<BlockChild>,
)
    decreases nodes.len(),
{
    if nodes.len() == 0 {
        (v, nodes)
    } else {
        let before = block_walk_mut(v, nodes.drop_last());
        let last = block_child_step_mut(before.0, nodes.last());
        (last.0, before.1.push(last.1))
    }
}

/// The visitor and the children after the hooks of top-level children,
/// called in order.
pub open spec fn root_walk_mut<V: VisitorMut>(v: V, nodes: Seq<RootChild>) -> (V, Seq<RootChild>)
    decreases nodes.len(),
{
    if nodes.len() == 0 {
        (v, nodes)
    } else {
        let before = root_walk_mut(v, nodes.drop_last());
        let last = root_child_step_mut(before.0, nodes.last());
        (last.0, before.1.push(last.1))
    }
}

/// A walk leaves as many children as it found.
pub proof fn lemma_block_walk_mut_len<V: VisitorMut>(v: V, nodes: Seq<BlockChild>)
    ensures
        block_walk_mut(v, nodes).1.len() == nodes.len(),
    decreases nodes.len(),
{
    if nodes.len() > 0 {
        lemma_block_walk_mut_len(v, nodes.drop_last());
    }
}

/// A walk leaves as many children as it found.
pub proof fn lemma_root_walk_mut_len<V: VisitorMut>(v: V, nodes: Seq<RootChild>)
    ensures
        root_walk_mut(v, nodes).1.len() == nodes.len(),
    decreases nodes.len(),
{
    if nodes.len() > 0 {
        lemma_root_walk_mut_len(v, nodes.drop_last());
    }
}

/// Calls the hook of each child of the root, in order. The root keeps its
/// positions and the number of its children.
pub fn walk_root_mut<V: VisitorMut>(visitor: &mut V, root: &mut Root)
    ensures
        (*final(visitor), final(root).nodes@) == root_walk_mut(*old(visitor), old(root).nodes@),
        final(root).nodes@.len() == old(root).nodes@.len(),
        final(root).start == old(root).start,
        final(root).end == old(root).end,
{
    let ghost nodes = root.nodes@;
    let mut i: usize = 0;
    while i < root.nodes.len()
        invariant
            nodes == old(root).nodes@,
            root.nodes@.len() == nodes.len(),
            root.start == old(root).start,
            root.end == old(root).end,
            i <= nodes.len(),
            *visitor == root_walk_mut(*old(visitor), nodes.take(i as int)).0,
            root.nodes@.take(i as int) == root_walk_mut(*old(visitor), nodes.take(i as int)).1,
            root.nodes@.skip(i as int) == nodes.skip(i as int),
        decreases nodes.len() - i,
    {
        let ghost before = root.nodes@;
        proof {
            assert(nodes.take(i + 1).drop_last() =~= nodes.take(i as int));
            assert(before[i as int] == before.skip(i as int)[0]);
            assert(nodes[i as int] == nodes.skip(i as int)[0]);
        }
        match &mut root.nodes[i] {
            RootChild::Rule(rule) => visitor.visit_rule(rule),
            RootChild::AtRule(at_rule) => visitor.visit_at_rule(at_rule),
            RootChild::Comment(comment) => visitor.visit_comment(comment),
        }
        proof {
            assert(root.nodes@.take(i + 1) =~= before.take(i as int).push(root.nodes@[i as int]));
            assert(root.nodes@.skip(i + 1) =~= before.skip(i + 1));
            assert(before.skip(i + 1) =~= before.skip(i as int).skip(1));
            assert(nodes.skip(i + 1) =~= nodes.skip(i as int).skip(1));
        }
        i += 1;
    }
    proof {
        assert(nodes.take(i as int) =~= nodes);
        assert(root.nodes@.take(i as int) =~= root.nodes@);
    }
}

/// Calls the hook of each child of a block, in order.
fn walk_block_mut<V: VisitorMut>(visitor: &mut V, nodes: &mut Vec<BlockChild>)
    ensures
        (*final(visitor), final(nodes)@) == block_walk_mut(*old(visitor), old(nodes)@),
        final(nodes)@.len() == old(nodes)@.len(),
{
    let ghost found = nodes@;
    let mut i: usize = 0;
    while i < nodes.len()
        invariant
            found == old(nodes)@,
            nodes@.len() == found.len(),
            i <= found.len(),
            *visitor == block_walk_mut(*old(visitor), found.take(i as int)).0,
            nodes@.take(i as int) == block_walk_mut(*old(visitor), found.take(i as int)).1,
            nodes@.skip(i as int) == found.skip(i as int),
        decreases found.len() - i,
    {
        let ghost before = nodes@;
        proof {
            assert(found.take(i + 1).drop_last() =~= found.take(i as int));
            assert(before[i as int] == before.skip(i as int)[0]);
            assert(found[i as int] == found.skip(i as int)[0]);
        }
        match &mut nodes[i] {
            BlockChild::Declaration(declaration) => visitor.visit_declaration(declaration),
            BlockChild::AtRule(at_rule) => visitor.visit_at_rule(at_rule),
            BlockChild::Comment(comment) => visitor.visit_comment(comment),
        }
        proof {
            assert(nodes@.take(i + 1) =~= before.take(i as int).push(nodes@[i as int]));
            assert(nodes@.skip(i + 1) =~= before.skip(i + 1));
            assert(before.skip(i + 1) =~= before.skip(i as int).skip(1));
            assert(found.skip(i + 1) =~= found.skip(i as int).skip(1));
        }
        i += 1;
    }
    proof {
        assert(found.take(i as int) =~= found);
        assert(nodes@.take(i as int) =~= nodes@);
    }
}

/// Calls the hook of each child of the rule, in order. The rule keeps its
/// selector, its positions and the number of its children.
pub fn walk_rule_mut<V: VisitorMut>(visitor: &mut V, rule: &mut Rule)
    ensures
        (*final(visitor), final(rule).nodes@) == block_walk_mut(*old(visitor), old(rule).nodes@),
        final(rule).nodes@.len() == old(rule).nodes@.len(),
        final(rule).selector == old(rule).selector,
        final(rule).start == old(rule).start,
        final(rule).end == old(rule).end,
{
    walk_block_mut(visitor, &mut rule.nodes)
}

/// Calls the hook of each child of the at-rule, in order. The at-rule keeps
/// its name, its parameters, its positions and the number of its children.
pub fn walk_at_rule_mut<V: VisitorMut>(visitor: &mut V, at_rule: &mut AtRule)
    ensures
        (*final(visitor), final(at_rule).nodes@) == block_walk_mut(
            *old(visitor),
            old(at_rule).nodes@,
        ),
        final(at_rule).nodes@.len() == old(at_rule).nodes@.len(),
        final(at_rule).name == old(at_rule).name,
        final(at_rule).params == old(at_rule).params,
        final(at_rule).start == old(at_rule).start,
        final(at_rule).end == old(at_rule).end,
{
    walk_block_mut(visitor, &mut at_rule.nodes)
}

} // verus!
