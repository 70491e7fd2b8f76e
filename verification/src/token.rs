//! The parse tree: its nodes, what they stand for, and the queries on them.

use vstd::prelude::*;
use vstd::std_specs::cmp::PartialEqSpecImpl;
use vstd::string::*;
use crate::span::Span;

verus! {

/// A node of the parse tree.
#[derive(Debug)]
pub enum Token {
    File { span: Span, children: Vec<Token> },
    Path { span: Span, children: Vec<Token> },
    Segment { span: Span, value: String },
    Separator { span: Span },
    Negate { span: Span },
    Comment { span: Span },
}

/// What a [`Token`] stands for: the same tree over sequences.
pub enum TokenView {
    File { span: Span, children: Seq<TokenView> },
    Path { span: Span, children: Seq<TokenView> },
    Segment { span: Span, value: Seq<char> },
    Separator { span: Span },
    Negate { span: Span },
    Comment { span: Span },
}

impl View for Token {
    type V = TokenView;

    open spec fn view(&self) -> TokenView
        decreases self,
    {
        match self {
            Token::File { span, children } => TokenView::File {
                span: *span,
                children: views(children@),
            },
            Token::Path { span, children } => TokenView::Path {
                span: *span,
                children: views(children@),
            },
            Token::Segment { span, value } => TokenView::Segment { span: *span, value: value@ },
            Token::Separator { span } => TokenView::Separator { span: *span },
            Token::Negate { span } => TokenView::Negate { span: *span },
            Token::Comment { span } => TokenView::Comment { span: *span },
        }
    }
}

/// The views of a sequence of tokens, one by one.
pub open spec fn views(tokens: Seq<Token>) -> Seq<TokenView>
    decreases tokens,
{
    Seq::new(
        tokens.len(),
        |i: int|
            if 0 <= i < tokens.len() {
                tokens[i].view()
            } else {
                arbitrary()
            },
    )
}

/// Pushing a token onto a sequence pushes its view onto the views.
pub proof fn lemma_views_push(tokens: Seq<Token>, token: Token)
    ensures
        views(tokens.push(token)) == views(tokens).push(token@),
{
    assert(views(tokens.push(token)) =~= views(tokens).push(token@));
}

/// Copies of all of `tokens`, in their order.
fn clone_all(tokens: &Vec<Token>) -> (copies: Vec<Token>)
    ensures
        views(copies@) == views(tokens@),
    decreases tokens,
{
    let mut copies: Vec<Token> = Vec::new();
    let mut i: usize = 0;
    while i < tokens.len()
        invariant
            i <= tokens.len(),
            copies.len() == i,
            forall|k: int| 0 <= k < i ==> copies@[k]@ == tokens@[k]@,
        decreases tokens.len() - i,
    {
        proof {
            vstd::std_specs::vec::axiom_vec_index_decreases(*tokens, i as int);
        }
        let copy = tokens[i].clone();
        copies.push(copy);
        i = i + 1;
    }
    proof {
        assert(views(copies@) =~= views(tokens@));
    }
    copies
}

impl Clone for Token {
    /// A copy of the whole tree below this node.
    fn clone(&self) -> (copy: Token)
        ensures
            copy@ == self@,
        decreases self,
    {
        match self {
            Token::File { span, children } => Token::File {
                span: *span,
                children: clone_all(children),
            },
            Token::Path { span, children } => Token::Path {
                span: *span,
                children: clone_all(children),
            },
            Token::Segment { span, value } => Token::Segment { span: *span, value: value.clone() },
            Token::Separator { span } => Token::Separator { span: *span },
            Token::Negate { span } => Token::Negate { span: *span },
            Token::Comment { span } => Token::Comment { span: *span },
        }
    }
}

/// Whether two tokens are the same tree, spans included.
fn same_token(left: &Token, right: &Token) -> (same: bool)
    ensures
        same == (left@ == right@),
    decreases left,
{
    match left {
        Token::File { span, children } => match right {
            Token::File { span: other, children: others } => *span == *other && same_tokens(
                children,
                others,
            ),
            _ => false,
        },
        Token::Path { span, children } => match right {
            Token::Path { span: other, children: others } => *span == *other && same_tokens(
                children,
                others,
            ),
            _ => false,
        },
        Token::Segment { span, value } => match right {
            Token::Segment { span: other, value: text } => *span == *other && *value == *text,
            _ => false,
        },
        Token::Separator { span } => match right {
            Token::Separator { span: other } => *span == *other,
            _ => false,
        },
        Token::Negate { span } => match right {
            Token::Negate { span: other } => *span == *other,
            _ => false,
        },
        Token::Comment { span } => match right {
            Token::Comment { span: other } => *span == *other,
            _ => false,
        },
    }
}

/// Whether two lists hold the same trees in the same order.
fn same_tokens(left: &Vec<Token>, right: &Vec<Token>) -> (same: bool)
    ensures
        same == (views(left@) == views(right@)),
    decreases left,
{
    if left.len() != right.len() {
        proof {
            assert(views(left@).len() != views(right@).len());
        }
        return false;
    }
    let mut i: usize = 0;
    while i < left.len()
        invariant
            i <= left@.len(),
            left@.len() == right@.len(),
            forall|k: int| 0 <= k < i ==> left@[k]@ == right@[k]@,
        decreases left@.len() - i,
    {
        proof {
            vstd::std_specs::vec::axiom_vec_index_decreases(*left, i as int);
        }
        if !same_token(&left[i], &right[i]) {
            proof {
                assert(views(left@)[i as int] != views(right@)[i as int]);
            }
            return false;
        }
        i = i + 1;
    }
    proof {
        assert(views(left@) =~= views(right@));
    }
    true
}

impl PartialEq for Token {
    /// Two tokens are equal when they are the same tree with the same spans.
    fn eq(&self, other: &Token) -> (same: bool) {
        same_token(self, other)
    }
}

impl PartialEqSpecImpl for Token {
    open spec fn obeys_eq_spec() -> bool {
        true
    }

    open spec fn eq_spec(&self, other: &Token) -> bool {
        self@ == other@
    }
}

impl TokenView {
    /// The span of the node.
    pub open spec fn span(self) -> Span {
        match self {
            TokenView::File { span, .. } => span,
            TokenView::Path { span, .. } => span,
            TokenView::Segment { span, .. } => span,
            TokenView::Separator { span } => span,
            TokenView::Negate { span } => span,
            TokenView::Comment { span } => span,
        }
    }

    /// The children of a file or a path; the other nodes have none.
    pub open spec fn children(self) -> Option<Seq<TokenView>> {
        match self {
            TokenView::File { children, .. } => Some(children),
            TokenView::Path { children, .. } => Some(children),
            _ => None,
        }
    }

    /// Whether the node's span holds `position` and is empty or not as `empty`
    /// says.
    pub open spec fn holds(self, position: int, empty: bool) -> bool {
        self.span().is_empty() == empty && self.span().holds(position)
    }

    /// The node at `position` below this one: the first child with a span of
    /// some width that holds the position, else the first child of no width
    /// that stands at it, and below a child that is a file or a path the node
    /// found there in the same way. A node with children none of which holds
    /// the position is itself the answer; a node that can have no children
    /// gives none.
    pub open spec fn child_at(self, position: int) -> Option<TokenView>
        decreases self,
    {
        match self.children() {
            None => None,
            Some(children) => match child_index_at(children, position) {
                None => Some(self),
                Some(i) => if 0 <= i < children.len() && children[i].children() is Some {
                    children[i].child_at(position)
                } else {
                    Some(children[i])
                },
            },
        }
    }
}

/// The first of `children` from `from` on whose span holds `position` and is
/// empty or not as `empty` says.
pub open spec fn first_holding(
    children: Seq<TokenView>,
    position: int,
    empty: bool,
    from: int,
) -> Option<int>
    decreases children.len() - from,
{
    if from < 0 || from >= children.len() {
        None
    } else if children[from].holds(position, empty) {
        Some(from)
    } else {
        first_holding(children, position, empty, from + 1)
    }
}

/// Which of `children` holds `position`: the first whose span has some width
/// and covers the position, else the first of no width that stands at it.
pub open spec fn child_index_at(children: Seq<TokenView>, position: int) -> Option<int> {
    match first_holding(children, position, false, 0) {
        Some(i) => Some(i),
        None => first_holding(children, position, true, 0),
    }
}

/// What `first_holding` finds lies within the children and holds the position.
pub proof fn lemma_first_holding(children: Seq<TokenView>, position: int, empty: bool, from: int)
    requires
        0 <= from,
    ensures
        match first_holding(children, position, empty, from) {
            Some(i) => from <= i < children.len() && children[i].holds(position, empty) && forall|
                k: int,
            |
                from <= k < i ==> !(#[trigger] children[k]).holds(position, empty),
            None => forall|k: int|
                from <= k < children.len() ==> !(#[trigger] children[k]).holds(position, empty),
        },
    decreases children.len() - from,
{
    if from < children.len() && !children[from].holds(position, empty) {
        lemma_first_holding(children, position, empty, from + 1);
    }
}

/// The node found at a position is the node asked, where none of its
/// children holds the position, or a node below it whose span holds the
/// position.
pub proof fn lemma_child_at_holds(token: TokenView, position: int)
    ensures
        match token.child_at(position) {
            Some(node) => node == token || node.span().holds(position),
            None => token.children() is None,
        },
    decreases token,
{
    match token.children() {
        None => {},
        Some(children) => {
            lemma_first_holding(children, position, false, 0);
            lemma_first_holding(children, position, true, 0);
            match child_index_at(children, position) {
                None => {},
                Some(i) => {
                    if children[i].children() is Some {
                        lemma_child_at_holds(children[i], position);
                    }
                },
            }
        },
    }
}

impl TokenView {
    /// Every node below this one, each before its own descendants and
    /// siblings in their order.
    pub open spec fn descendants(self) -> Seq<TokenView>
        decreases self, 0nat,
    {
        match self {
            TokenView::File { children, .. } => view_descendants_from(children, 0),
            TokenView::Path { children, .. } => view_descendants_from(children, 0),
            _ => Seq::empty(),
        }
    }
}

/// The nodes of `tokens` from index `from` on, each followed by its
/// descendants.
pub open spec fn view_descendants_from(tokens: Seq<TokenView>, from: int) -> Seq<TokenView>
    decreases tokens, tokens.len() - from,
{
    if from < 0 || from >= tokens.len() {
        Seq::empty()
    } else {
        seq![tokens[from]] + tokens[from].descendants() + view_descendants_from(tokens, from + 1)
    }
}

/// The nodes below a token stand for the nodes below what it stands for.
pub proof fn lemma_descendants_views(token: Token)
    ensures
        views(token.descendants()) == token@.descendants(),
    decreases token, 0nat,
{
    match token {
        Token::File { children, .. } => {
            lemma_descendants_from_views(children@, 0);
        },
        Token::Path { children, .. } => {
            lemma_descendants_from_views(children@, 0);
        },
        _ => {
            assert(views(token.descendants()) =~= token@.descendants());
        },
    }
}

/// The same for the nodes of a list and below them.
pub proof fn lemma_descendants_from_views(tokens: Seq<Token>, from: int)
    ensures
        views(descendants_from(tokens, from)) == view_descendants_from(views(tokens), from),
    decreases tokens, tokens.len() - from,
{
    if from < 0 || from >= tokens.len() {
        assert(views(descendants_from(tokens, from)) =~= view_descendants_from(
            views(tokens),
            from,
        ));
    } else {
        lemma_descendants_views(tokens[from]);
        lemma_descendants_from_views(tokens, from + 1);
        let head = seq![tokens[from]];
        let below = tokens[from].descendants();
        let rest = descendants_from(tokens, from + 1);
        assert(views(head + below + rest) =~= views(head) + views(below) + views(rest));
        assert(views(head) =~= seq![tokens[from]@]);
    }
}

/// Whether `tokens` are well formed, lie within `[low, high]` and come in
/// the order of the text, none reaching into the next.
pub open spec fn lie_within(tokens: Seq<TokenView>, low: int, high: int) -> bool
    decreases tokens,
{
    &&& forall|i: int|
        0 <= i < tokens.len() ==> {
            &&& (#[trigger] tokens[i]).well_formed()
            &&& low <= tokens[i].span().start
            &&& tokens[i].span().end <= high
        }
    &&& forall|i: int, j: int|
        0 <= i < j < tokens.len() ==> (#[trigger] tokens[i]).span().end <= (
        #[trigger] tokens[j]).span().start
}

impl TokenView {
    /// Whether the spans of the tree fit together: no span ends before it
    /// starts, and the children of every node lie within its span, in the
    /// order of the text, none reaching into the next.
    pub open spec fn well_formed(self) -> bool
        decreases self,
    {
        &&& self.span().start <= self.span().end
        &&& match self {
            TokenView::File { span, children } => lie_within(
                children,
                span.start as int,
                span.end as int,
            ),
            TokenView::Path { span, children } => lie_within(
                children,
                span.start as int,
                span.end as int,
            ),
            _ => true,
        }
    }
}

/// Tokens that lie within a stretch, followed by tokens that lie within the
/// stretch behind it, lie within the two stretches joined.
pub proof fn lemma_lie_within_joined(
    first: Seq<TokenView>,
    second: Seq<TokenView>,
    low: int,
    middle: int,
    reach: int,
    high: int,
)
    requires
        lie_within(first, low, middle),
        lie_within(second, reach, high),
        low <= middle <= reach <= high,
    ensures
        lie_within(first + second, low, high),
{
    let both = first + second;
    assert forall|i: int| 0 <= i < both.len() implies {
        &&& (#[trigger] both[i]).well_formed()
        &&& low <= both[i].span().start
        &&& both[i].span().end <= high
    } by {
        if i < first.len() {
            assert(both[i] == first[i]);
        } else {
            assert(both[i] == second[i - first.len()]);
        }
    }
    assert forall|i: int, j: int| 0 <= i < j < both.len() implies (#[trigger] both[i]).span().end
        <= (#[trigger] both[j]).span().start by {
        if i < first.len() {
            assert(both[i] == first[i]);
        } else {
            assert(both[i] == second[i - first.len()]);
        }
        if j < first.len() {
            assert(both[j] == first[j]);
        } else {
            assert(both[j] == second[j - first.len()]);
        }
    }
}

/// One well-formed token lies within every stretch that holds its span.
pub proof fn lemma_one_lies_within(token: TokenView, low: int, high: int)
    requires
        token.well_formed(),
        low <= token.span().start,
        token.span().end <= high,
    ensures
        lie_within(seq![token], low, high),
{
}

impl Token {
    /// The children of a file or a path; the other nodes have none.
    pub fn get_children(&self) -> (children: Option<&Vec<Token>>)
        ensures
            match children {
                Some(tokens) => self@.children() == Some(views(tokens@)),
                None => self@.children() is None,
            },
    {
        match self {
            Token::File { children, .. } => Some(children),
            Token::Path { children, .. } => Some(children),
            _ => None,
        }
    }

    /// The span of the node.
    pub fn get_span(&self) -> (span: &Span)
        ensures
            *span == self@.span(),
    {
        match self {
            Token::File { span, .. } => span,
            Token::Path { span, .. } => span,
            Token::Segment { span, .. } => span,
            Token::Separator { span } => span,
            Token::Negate { span } => span,
            Token::Comment { span } => span,
        }
    }

    /// The node at `position` below this one, as [`TokenView::child_at`]
    /// says.
    pub fn get_child_at_position(&self, position: usize) -> (found: Option<&Token>)
        ensures
            match found {
                Some(token) => self@.child_at(position as int) == Some(token@),
                None => self@.child_at(position as int) is None,
            },
        decreases self,
    {
        match self {
            Token::File { children, .. } => child_at_position(self, children, position),
            Token::Path { children, .. } => child_at_position(self, children, position),
            _ => None,
        }
    }
}

/// Which of `children` holds `position`.
fn find_child_index(children: &Vec<Token>, position: usize) -> (found: Option<usize>)
    ensures
        match found {
            Some(i) => child_index_at(views(children@), position as int) == Some(i as int) && i
                < children@.len(),
            None => child_index_at(views(children@), position as int) is None,
        },
{
    let ghost nodes = views(children@);
    let mut marker: Option<usize> = None;
    let mut i: usize = 0;
    while i < children.len()
        invariant
            i <= children@.len(),
            nodes == views(children@),
            first_holding(nodes, position as int, false, i as int) == first_holding(
                nodes,
                position as int,
                false,
                0,
            ),
            match marker {
                Some(m) => m < i && first_holding(nodes, position as int, true, 0) == Some(
                    m as int,
                ),
                None => first_holding(nodes, position as int, true, i as int) == first_holding(
                    nodes,
                    position as int,
                    true,
                    0,
                ),
            },
        decreases children@.len() - i,
    {
        let span = children[i].get_span();
        if span.contains(position) {
            if span.start != span.end {
                return Some(i);
            }
            if marker.is_none() {
                marker = Some(i);
            }
        }
        i = i + 1;
    }
    marker
}

/// The node at `position` below `parent`, whose children are `children`.
fn child_at_position<'a>(parent: &'a Token, children: &'a Vec<Token>, position: usize) -> (found:
    Option<&'a Token>)
    requires
        parent@.children() == Some(views(children@)),
    ensures
        match found {
            Some(token) => parent@.child_at(position as int) == Some(token@),
            None => parent@.child_at(position as int) is None,
        },
    decreases children,
{
    match find_child_index(children, position) {
        None => Some(parent),
        Some(i) => {
            let child = &children[i];
            proof {
                vstd::std_specs::vec::axiom_vec_index_decreases(*children, i as int);
            }
            match child {
                Token::File { .. } | Token::Path { .. } => child.get_child_at_position(position),
                _ => Some(child),
            }
        },
    }
}

impl Token {
    /// Every node below this one, each before its own descendants and
    /// siblings in their order.
    pub open spec fn descendants(self) -> Seq<Token>
        decreases self, 0nat,
    {
        match self {
            Token::File { children, .. } => descendants_from(children@, 0),
            Token::Path { children, .. } => descendants_from(children@, 0),
            _ => Seq::empty(),
        }
    }
}

/// The nodes of `tokens` from index `from` on, each followed by its
/// descendants.
pub open spec fn descendants_from(tokens: Seq<Token>, from: int) -> Seq<Token>
    decreases tokens, tokens.len() - from,
{
    if from < 0 || from >= tokens.len() {
        Seq::empty()
    } else {
        seq![tokens[from]] + tokens[from].descendants() + descendants_from(tokens, from + 1)
    }
}

/// Whether `keep` is what `filter` answers for `token`.
pub open spec fn answers<F: Fn(&Token) -> bool>(filter: &F, token: Token, keep: bool) -> bool {
    call_ensures(*filter, (&token,), keep)
}

/// Whether `chosen` holds, in their order, the nodes of `all` that `filter`
/// kept, having been asked about each node of `all` once.
pub open spec fn is_selection<F: Fn(&Token) -> bool>(
    filter: &F,
    all: Seq<Token>,
    chosen: Seq<Token>,
) -> bool
    decreases all.len(),
{
    if all.len() == 0 {
        chosen.len() == 0
    } else {
        ||| (answers(filter, all[0], true) && chosen.len() > 0 && chosen[0] == all[0]
            && is_selection(filter, all.drop_first(), chosen.drop_first()))
        ||| (answers(filter, all[0], false) && is_selection(filter, all.drop_first(), chosen))
    }
}

/// Selections of two sequences make a selection of the two joined.
pub proof fn lemma_selection_joins<F: Fn(&Token) -> bool>(
    filter: &F,
    first: Seq<Token>,
    first_chosen: Seq<Token>,
    second: Seq<Token>,
    second_chosen: Seq<Token>,
)
    requires
        is_selection(filter, first, first_chosen),
        is_selection(filter, second, second_chosen),
    ensures
        is_selection(filter, first + second, first_chosen + second_chosen),
    decreases first.len(),
{
    if first.len() == 0 {
        assert(first + second =~= second);
        assert(first_chosen + second_chosen =~= second_chosen);
    } else {
        let all = first + second;
        assert(all[0] == first[0]);
        assert(all.drop_first() =~= first.drop_first() + second);
        if answers(filter, first[0], true) && first_chosen.len() > 0 && first_chosen[0] == first[0]
            && is_selection(filter, first.drop_first(), first_chosen.drop_first()) {
            lemma_selection_joins(
                filter,
                first.drop_first(),
                first_chosen.drop_first(),
                second,
                second_chosen,
            );
            assert((first_chosen + second_chosen).drop_first() =~= first_chosen.drop_first()
                + second_chosen);
        } else {
            lemma_selection_joins(filter, first.drop_first(), first_chosen, second, second_chosen);
        }
    }
}

/// The tokens that a sequence of references points to.
pub open spec fn pointees(found: Seq<&Token>) -> Seq<Token> {
    Seq::new(found.len(), |i: int| *found[i])
}

impl Token {
    /// All nodes below this one that `filter` keeps, each before its own
    /// descendants and siblings in their order.
    pub fn get_all_children_filtered<F>(&self, filter: &F) -> (found: Vec<&Token>) where
        F: Fn(&Token) -> bool,

        requires
            forall|token: &Token| call_requires(*filter, (token,)),
        ensures
            is_selection(filter, self.descendants(), pointees(found@)),
        decreases self,
    {
        match self {
            Token::File { children, .. } => all_filtered_from(children, filter),
            Token::Path { children, .. } => all_filtered_from(children, filter),
            _ => Vec::new(),
        }
    }
}

/// All nodes among `tokens` and below them that `filter` keeps.
fn all_filtered_from<'a, F>(tokens: &'a Vec<Token>, filter: &F) -> (found: Vec<&'a Token>) where
    F: Fn(&Token) -> bool,

    requires
        forall|token: &Token| call_requires(*filter, (token,)),
    ensures
        is_selection(filter, descendants_from(tokens@, 0), pointees(found@)),
    decreases tokens,
{
    let mut found: Vec<&'a Token> = Vec::new();
    let mut i: usize = 0;
    let ghost mut done: Seq<Token> = Seq::empty();
    proof {
        assert(done + descendants_from(tokens@, 0) =~= descendants_from(tokens@, 0));
    }
    while i < tokens.len()
        invariant
            i <= tokens@.len(),
            forall|token: &Token| call_requires(*filter, (token,)),
            done + descendants_from(tokens@, i as int) == descendants_from(tokens@, 0),
            is_selection(filter, done, pointees(found@)),
        decreases tokens@.len() - i,
    {
        let child = &tokens[i];
        proof {
            vstd::std_specs::vec::axiom_vec_index_decreases(*tokens, i as int);
        }
        let ghost chosen = pointees(found@);
        let keep = filter(child);
        if keep {
            found.push(child);
        }
        let ghost here = if keep {
            seq![*child]
        } else {
            Seq::<Token>::empty()
        };
        let mut below = child.get_all_children_filtered(filter);
        proof {
            assert(answers(filter, *child, keep));
            assert(seq![*child].drop_first() =~= Seq::<Token>::empty());
            if keep {
                assert(here.drop_first() =~= Seq::<Token>::empty());
            }
            assert(is_selection(filter, Seq::<Token>::empty(), Seq::<Token>::empty()));
            assert(is_selection(filter, seq![*child], here));
            lemma_selection_joins(filter, done, chosen, seq![*child], here);
            lemma_selection_joins(
                filter,
                done + seq![*child],
                chosen + here,
                child.descendants(),
                pointees(below@),
            );
            assert(done + seq![*child] + child.descendants() + descendants_from(tokens@, i + 1)
                =~= done + descendants_from(tokens@, i as int));
        }
        let ghost now = chosen + here + pointees(below@);
        found.append(&mut below);
        proof {
            done = done + seq![*child] + child.descendants();
            assert(pointees(found@) =~= now);
        }
        i = i + 1;
    }
    proof {
        assert(done + descendants_from(tokens@, i as int) =~= done);
    }
    found
}

/// Whether `found` is the first node of `all` that `filter` kept, all nodes
/// before it having been turned down; or nothing, all of `all` having been
/// turned down.
pub open spec fn is_first_kept<F: Fn(&Token) -> bool>(
    filter: &F,
    all: Seq<Token>,
    found: Option<Token>,
) -> bool {
    match found {
        Some(token) => exists|i: int|
            {
                &&& 0 <= i < all.len()
                &&& #[trigger] all[i] == token
                &&& answers(filter, token, true)
                &&& forall|k: int| 0 <= k < i ==> answers(filter, #[trigger] all[k], false)
            },
        None => forall|k: int| 0 <= k < all.len() ==> answers(filter, #[trigger] all[k], false),
    }
}

impl Token {
    /// The first node below this one that `filter` keeps, each node coming
    /// before its own descendants and siblings in their order.
    pub fn get_first_child_filtered<F>(&self, filter: &F) -> (found: Option<&Token>) where
        F: Fn(&Token) -> bool,

        requires
            forall|token: &Token| call_requires(*filter, (token,)),
        ensures
            is_first_kept(
                filter,
                self.descendants(),
                match found {
                    Some(token) => Some(*token),
                    None => None,
                },
            ),
        decreases self,
    {
        match self {
            Token::File { children, .. } => first_filtered_from(children, filter),
            Token::Path { children, .. } => first_filtered_from(children, filter),
            _ => None,
        }
    }
}

/// The first node among `tokens` and below them that `filter` keeps.
fn first_filtered_from<'a, F>(tokens: &'a Vec<Token>, filter: &F) -> (found: Option<
    &'a Token,
>) where F: Fn(&Token) -> bool
    requires
        forall|token: &Token| call_requires(*filter, (token,)),
    ensures
        is_first_kept(
            filter,
            descendants_from(tokens@, 0),
            match found {
                Some(token) => Some(*token),
                None => None,
            },
        ),
    decreases tokens,
{
    let mut i: usize = 0;
    let ghost all = descendants_from(tokens@, 0);
    let ghost mut done: Seq<Token> = Seq::empty();
    proof {
        assert(done + descendants_from(tokens@, 0) =~= all);
    }
    while i < tokens.len()
        invariant
            i <= tokens@.len(),
            all == descendants_from(tokens@, 0),
            forall|token: &Token| call_requires(*filter, (token,)),
            done + descendants_from(tokens@, i as int) == all,
            forall|k: int| 0 <= k < done.len() ==> answers(filter, #[trigger] done[k], false),
        decreases tokens@.len() - i,
    {
        let child = &tokens[i];
        proof {
            vstd::std_specs::vec::axiom_vec_index_decreases(*tokens, i as int);
        }
        let ghost rest = descendants_from(tokens@, i as int);
        let ghost below = child.descendants();
        proof {
            assert(rest == seq![*child] + below + descendants_from(tokens@, i + 1));
            assert forall|k: int| 0 <= k < done.len() implies all[k] == done[k] by {
                assert((done + rest)[k] == done[k]);
            }
            assert(all[done.len() as int] == *child) by {
                assert((done + rest)[done.len() as int] == rest[0]);
            }
        }
        if filter(child) {
            proof {
                assert(answers(filter, *child, true));
                assert(all[done.len() as int] == *child);
            }
            return Some(child);
        }
        let inner = child.get_first_child_filtered(filter);
        match inner {
            Some(token) => {
                proof {
                    let k = choose|k: int|
                        {
                            &&& 0 <= k < below.len()
                            &&& #[trigger] below[k] == *token
                            &&& answers(filter, *token, true)
                            &&& forall|j: int|
                                0 <= j < k ==> answers(filter, #[trigger] below[j], false)
                        };
                    let at = done.len() + 1 + k;
                    assert(all[at] == *token) by {
                        assert((done + rest)[at] == rest[1 + k]);
                        assert(rest[1 + k] == below[k]);
                    }
                    assert forall|j: int| 0 <= j < at implies answers(
                        filter,
                        #[trigger] all[j],
                        false,
                    ) by {
                        if j > done.len() {
                            assert((done + rest)[j] == rest[j - done.len()]);
                            assert(rest[j - done.len()] == below[j - done.len() - 1]);
                        }
                    }
                }
                return Some(token);
            },
            None => {},
        }
        proof {
            let ghost grown = done + seq![*child] + below;
            assert(grown + descendants_from(tokens@, i + 1) =~= done + rest);
            assert forall|k: int| 0 <= k < grown.len() implies answers(
                filter,
                #[trigger] grown[k],
                false,
            ) by {
                if k > done.len() {
                    assert(grown[k] == below[k - done.len() - 1]);
                }
            }
            done = grown;
        }
        i = i + 1;
    }
    proof {
        assert(done + descendants_from(tokens@, i as int) =~= done);
    }
    None
}

} // verus!
