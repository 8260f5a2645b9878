//! The positioned syntax tree and its mathematical model.
//!
//! Every position is a byte offset into the source, and `end` is the offset of
//! the last byte of the node, so that a node covers `start..=end`.

use vstd::prelude::*;
use vstd::utf8::*;
use crate::parser::tokenizer::{closes_comment, opens_comment, ASTERISK, SLASH};
use crate::text::{cut_point, lemma_cut_point_is_boundary};

verus! {

/// A comment; `text` is what stands between the two delimiters.
#[derive(Debug, PartialEq)]
pub struct Comment {
    pub text: String,
    pub start: usize,
    pub end: usize,
}

/// A declaration `prop: value`, with an optional `!important` marker.
#[derive(Debug, PartialEq)]
pub struct Declaration {
    pub prop: String,
    pub value: String,
    pub important: bool,
    pub start: usize,
    pub end: usize,
}

/// An at-rule `@name params { .. }`.
#[derive(Debug, PartialEq)]
pub struct AtRule {
    pub name: String,
    pub params: String,
    pub nodes: Vec<BlockChild>,
    pub start: usize,
    pub end: usize,
}

/// What a block may hold.
#[derive(Debug, PartialEq)]
pub enum BlockChild {
    AtRule(AtRule),
    Declaration(Declaration),
    Comment(Comment),
}

/// A rule `selector { .. }`.
#[derive(Debug, PartialEq)]
pub struct Rule {
    pub selector: String,
    pub nodes: Vec<BlockChild>,
    pub start: usize,
    pub end: usize,
}

/// What may stand at the top level.
#[derive(Debug, PartialEq)]
pub enum RootChild {
    Rule(Rule),
    AtRule(AtRule),
    Comment(Comment),
}

/// A whole stylesheet.
#[derive(Debug, PartialEq)]
pub struct Root {
    pub nodes: Vec<RootChild>,
    pub start: usize,
    pub end: usize,
}

/// Model of a [`Comment`].
pub ghost struct CommentView {
    pub text: Seq<char>,
    pub start: int,
    pub end: int,
}

/// Model of a [`Declaration`].
pub ghost struct DeclarationView {
    pub prop: Seq<char>,
    pub value: Seq<char>,
    pub important: bool,
    pub start: int,
    pub end: int,
}

/// Model of an [`AtRule`].
pub ghost struct AtRuleView {
    pub name: Seq<char>,
    pub params: Seq<char>,
    pub nodes: Seq<BlockChildView>,
    pub start: int,
    pub end: int,
}

/// Model of a [`BlockChild`].
pub ghost enum BlockChildView {
    AtRule(AtRuleView),
    Declaration(DeclarationView),
    Comment(CommentView),
}

/// Model of a [`Rule`].
pub ghost struct RuleView {
    pub selector: Seq<char>,
    pub nodes: Seq<BlockChildView>,
    pub start: int,
    pub end: int,
}

/// Model of a [`RootChild`].
pub ghost enum RootChildView {
    Rule(RuleView),
    AtRule(AtRuleView),
    Comment(CommentView),
}

/// Model of a [`Root`].
pub ghost struct RootView {
    pub nodes: Seq<RootChildView>,
    pub start: int,
    pub end: int,
}

impl View for Comment {
    type V = CommentView;

    open spec fn view(&self) -> CommentView {
        CommentView { text: self.text@, start: self.start as int, end: self.end as int }
    }
}

impl View for Declaration {
    type V = DeclarationView;

    open spec fn view(&self) -> DeclarationView {
        DeclarationView {
            prop: self.prop@,
            value: self.value@,
            important: self.important,
            start: self.start as int,
            end: self.end as int,
        }
    }
}

/// The models of the children of a block, in order.
pub open spec fn block_views(nodes: Seq<BlockChild>) -> Seq<BlockChildView>
    decreases nodes,
{
    Seq::new(
        nodes.len(),
        |i: int|
            if 0 <= i < nodes.len() {
                block_child_view(nodes[i])
            } else {
                arbitrary()
            },
    )
}

/// The model of one child of a block.
pub open spec fn block_child_view(child: BlockChild) -> BlockChildView
    decreases child,
{
    match child {
        BlockChild::AtRule(a) => BlockChildView::AtRule(
            AtRuleView {
                name: a.name@,
                params: a.params@,
                nodes: block_views(a.nodes@),
                start: a.start as int,
                end: a.end as int,
            },
        ),
        BlockChild::Declaration(d) => BlockChildView::Declaration(d@),
        BlockChild::Comment(c) => BlockChildView::Comment(c@),
    }
}

impl View for BlockChild {
    type V = BlockChildView;

    open spec fn view(&self) -> BlockChildView {
        block_child_view(*self)
    }
}

impl View for AtRule {
    type V = AtRuleView;

    open spec fn view(&self) -> AtRuleView {
        AtRuleView {
            name: self.name@,
            params: self.params@,
            nodes: block_views(self.nodes@),
            start: self.start as int,
            end: self.end as int,
        }
    }
}

impl View for Rule {
    type V = RuleView;

    open spec fn view(&self) -> RuleView {
        RuleView {
            selector: self.selector@,
            nodes: block_views(self.nodes@),
            start: self.start as int,
            end: self.end as int,
        }
    }
}

impl View for RootChild {
    type V = RootChildView;

    open spec fn view(&self) -> RootChildView {
        match *self {
            RootChild::Rule(r) => RootChildView::Rule(r@),
            RootChild::AtRule(a) => RootChildView::AtRule(a@),
            RootChild::Comment(c) => RootChildView::Comment(c@),
        }
    }
}

/// The models of the top-level children, in order.
pub open spec fn root_views(nodes: Seq<RootChild>) -> Seq<RootChildView> {
    Seq::new(nodes.len(), |i: int| nodes[i]@)
}

impl View for Root {
    type V = RootView;

    open spec fn view(&self) -> RootView {
        RootView {
            nodes: root_views(self.nodes@),
            start: self.start as int,
            end: self.end as int,
        }
    }
}

impl BlockChildView {
    /// The offset of the first byte of the child.
    pub open spec fn start(self) -> int {
        match self {
            BlockChildView::AtRule(a) => a.start,
            BlockChildView::Declaration(d) => d.start,
            BlockChildView::Comment(c) => c.start,
        }
    }

    /// The offset of the last byte of the child.
    pub open spec fn end(self) -> int {
        match self {
            BlockChildView::AtRule(a) => a.end,
            BlockChildView::Declaration(d) => d.end,
            BlockChildView::Comment(c) => c.end,
        }
    }
}

impl RootChildView {
    /// The offset of the first byte of the child.
    pub open spec fn start(self) -> int {
        match self {
            RootChildView::Rule(r) => r.start,
            RootChildView::AtRule(a) => a.start,
            RootChildView::Comment(c) => c.start,
        }
    }

    /// The offset of the last byte of the child.
    pub open spec fn end(self) -> int {
        match self {
            RootChildView::Rule(r) => r.end,
            RootChildView::AtRule(a) => a.end,
            RootChildView::Comment(c) => c.end,
        }
    }
}

/// Whether `start..=end` is a span of `src`: a part of it that is not empty
/// and tears no character apart, so that `src[start..end + 1]` is a text.
pub open spec fn is_span(src: Seq<u8>, start: int, end: int) -> bool {
    0 <= start <= end < src.len() && cut_point(src, start) && cut_point(src, end + 1)
}

/// Whether the span of a comment is one of `src` that starts with the opening
/// delimiter and ends with the closing one. Only a comment that the end of
/// the input cuts short may lack the closing delimiter.
pub open spec fn comment_spans(src: Seq<u8>, comment: CommentView) -> bool {
    &&& is_span(src, comment.start, comment.end)
    &&& opens_comment(src, comment.start)
    &&& comment.end + 1 == src.len() || (comment.start + 3 <= comment.end && closes_comment(
        src,
        comment.end - 1,
    ))
}

/// Whether the children `nodes` of a node that spans `lo..=hi` are laid out
/// as in `src`: each has a span of `src` that lies inside `lo..=hi`, a child
/// ends before the next one starts, and the same holds inside each child.
pub open spec fn block_spans(src: Seq<u8>, nodes: Seq<BlockChildView>, lo: int, hi: int) -> bool
    decreases nodes,
{
    &&& forall|i: int|
        0 <= i < nodes.len() ==> {
            &&& lo <= (#[trigger] nodes[i]).start()
            &&& nodes[i].end() <= hi
            &&& block_child_spans(src, nodes[i])
        }
    &&& forall|i: int, j: int|
        0 <= i < j < nodes.len() ==> (#[trigger] nodes[i]).end() < (#[trigger] nodes[j]).start()
}

/// Whether a child of a block, and all inside it, is laid out as in `src`.
pub open spec fn block_child_spans(src: Seq<u8>, child: BlockChildView) -> bool
    decreases child,
{
    match child {
        BlockChildView::AtRule(a) => is_span(src, a.start, a.end) && block_spans(
            src,
            a.nodes,
            a.start,
            a.end,
        ),
        BlockChildView::Declaration(d) => is_span(src, d.start, d.end),
        BlockChildView::Comment(c) => comment_spans(src, c),
    }
}

/// Whether an at-rule, and all inside it, is laid out as in `src`.
pub open spec fn at_rule_spans(src: Seq<u8>, at_rule: AtRuleView) -> bool {
    block_child_spans(src, BlockChildView::AtRule(at_rule))
}

/// Whether a rule, and all inside it, is laid out as in `src`.
pub open spec fn rule_spans(src: Seq<u8>, rule: RuleView) -> bool {
    is_span(src, rule.start, rule.end) && block_spans(src, rule.nodes, rule.start, rule.end)
}

/// Whether a top-level child, and all inside it, is laid out as in `src`.
pub open spec fn root_child_spans(src: Seq<u8>, child: RootChildView) -> bool {
    match child {
        RootChildView::Rule(r) => rule_spans(src, r),
        RootChildView::AtRule(a) => at_rule_spans(src, a),
        RootChildView::Comment(c) => comment_spans(src, c),
    }
}

/// Whether the top-level children `nodes` of a root that spans `lo..=hi` are
/// laid out as in `src`: each has a span of `src` that lies inside `lo..=hi`,
/// a child ends before the next one starts, and the same holds inside each
/// child.
pub open spec fn root_spans(src: Seq<u8>, nodes: Seq<RootChildView>, lo: int, hi: int) -> bool {
    &&& forall|i: int|
        0 <= i < nodes.len() ==> {
            &&& lo <= (#[trigger] nodes[i]).start()
            &&& nodes[i].end() <= hi
            &&& root_child_spans(src, nodes[i])
        }
    &&& forall|i: int, j: int|
        0 <= i < j < nodes.len() ==> (#[trigger] nodes[i]).end() < (#[trigger] nodes[j]).start()
}

impl RootView {
    /// Whether the tree is laid out as in `src`: the root spans the source
    /// (or is `0..=0` where the source is empty), every other node has a span
    /// of `src` that is not empty, a comment's span starts and ends with its
    /// delimiters, a child lies inside its parent, and the children of a node
    /// stand in the order of the source, none reaching into the next.
    pub open spec fn spans(self, src: Seq<u8>) -> bool {
        &&& src.len() > 0 ==> is_span(src, self.start, self.end)
        &&& src.len() == 0 ==> self.start == 0 && self.end == 0
        &&& root_spans(src, self.nodes, self.start, self.end)
    }
}

/// A span of a well-formed source is a text of its own, and not an empty
/// one.
pub proof fn lemma_span_is_text(src: Seq<u8>, start: int, end: int)
    requires
        valid_utf8(src),
        is_span(src, start, end),
    ensures
        src.subrange(start, end + 1).len() > 0,
        valid_utf8(src.subrange(start, end + 1)),
{
    lemma_cut_point_is_boundary(src, end + 1);
    valid_utf8_split(src, end + 1);
    let head = src.subrange(0, end + 1);
    lemma_cut_point_is_boundary(head, start);
    valid_utf8_split(head, start);
    assert(head.subrange(start, head.len() as int) =~= src.subrange(start, end + 1));
}

/// The span of a comment starts with the opening delimiter, and it ends with
/// the closing delimiter unless the comment reaches the end of the source.
pub proof fn lemma_comment_span(src: Seq<u8>, comment: CommentView)
    requires
        comment_spans(src, comment),
    ensures
        src.subrange(comment.start, comment.start + 2) == seq![SLASH, ASTERISK],
        comment.end + 1 < src.len() ==> comment.start + 3 <= comment.end && src.subrange(
            comment.end - 1,
            comment.end + 1,
        ) == seq![ASTERISK, SLASH],
{
    assert(src.subrange(comment.start, comment.start + 2) =~= seq![SLASH, ASTERISK]);
    if comment.end + 1 < src.len() {
        assert(src.subrange(comment.end - 1, comment.end + 1) =~= seq![ASTERISK, SLASH]);
    }
}

/// A child of an at-rule lies inside the at-rule, and ends before a child
/// behind it starts.
pub proof fn lemma_at_rule_children(src: Seq<u8>, at_rule: AtRuleView, i: int, j: int)
    requires
        at_rule_spans(src, at_rule),
        0 <= i <= j < at_rule.nodes.len(),
    ensures
        at_rule.start <= at_rule.nodes[i].start(),
        i < j ==> at_rule.nodes[i].end() < at_rule.nodes[j].start(),
        at_rule.nodes[j].end() <= at_rule.end,
        block_child_spans(src, at_rule.nodes[i]),
        block_child_spans(src, at_rule.nodes[j]),
{
}

/// A child of a rule lies inside the rule, and ends before a child behind
/// it starts.
pub proof fn lemma_rule_children(src: Seq<u8>, rule: RuleView, i: int, j: int)
    requires
        rule_spans(src, rule),
        0 <= i <= j < rule.nodes.len(),
    ensures
        rule.start <= rule.nodes[i].start(),
        i < j ==> rule.nodes[i].end() < rule.nodes[j].start(),
        rule.nodes[j].end() <= rule.end,
        block_child_spans(src, rule.nodes[i]),
        block_child_spans(src, rule.nodes[j]),
{
}

/// A top-level child lies inside the root, and ends before a child behind
/// it starts.
pub proof fn lemma_root_children(src: Seq<u8>, root: RootView, i: int, j: int)
    requires
        root.spans(src),
        0 <= i <= j < root.nodes.len(),
    ensures
        root.start <= root.nodes[i].start(),
        i < j ==> root.nodes[i].end() < root.nodes[j].start(),
        root.nodes[j].end() <= root.end,
        root_child_spans(src, root.nodes[i]),
        root_child_spans(src, root.nodes[j]),
{
}

} // verus!
