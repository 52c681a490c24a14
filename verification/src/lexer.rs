//! Tree builder: token sequence to ordered sequence of tree nodes.
//!
//! The builder splits its input at every `+` that stands at bracket
//! depth 0, and compiles each of the resulting terms into one node. A
//! term is either a text run, optionally followed by the node it is
//! immediately adjacent to, or a bracketed group `{...}` whose interior
//! is split at depth 0 commas into alternatives, each alternative being
//! compiled recursively as a full term sequence. A group interior of the
//! exact shape `text - text` with single-character endpoints becomes a
//! range node instead.
//!
//! Building fails with a [`SyntaxError`] when a term is empty, begins
//! with a token that cannot start a construct, contains a `{` without a
//! balanced `}`, or contains a range whose endpoints are not single
//! characters. A group must be the final element of its term: tokens
//! that follow its balanced `}` inside the same term are rejected as
//! unexpected.

use vstd::prelude::*;

use crate::tokenizer::Token;
use crate::tokenizer::TokenModel;

verus! {

/// One node of the shorthand tree.
///
/// `of_type` tags the node; `content` holds its children: the chained
/// adjacent node of a text (one element), the alternatives of a group,
/// the node sequence of an alternative, or the two endpoints of a range.
#[derive(Debug, PartialEq)]
pub struct LexNode {
    pub content: Option<Vec<LexNode>>,
    pub of_type: LexItem,
}

/// The kind of a [`LexNode`].
#[derive(Debug, Clone, PartialEq)]
pub enum LexItem {
    Text(String),
    OptionGroup,
    Option,
    Range,
}

/// Why a token sequence cannot be compiled.
#[derive(Debug, Clone, PartialEq)]
pub enum SyntaxError {
    /// A `+`-separated term or a comma-separated alternative had no
    /// tokens.
    EmptyTerm,
    /// A term began with a token that cannot start a construct, or a
    /// token followed a group's balanced closing brace inside one term:
    /// the token, and the whole term.
    UnexpectedToken(Token, Vec<Token>),
    /// No balanced closing brace was found for an opening brace: the
    /// whole term.
    UnmatchedGroupOpen(Vec<Token>),
    /// A range pattern was found whose endpoints are not both single
    /// characters: the two endpoint texts.
    InvalidRangeEndpoint(String, String),
    /// A range node did not hold exactly two childless text nodes; only
    /// reachable by desugaring a tree that the builder did not produce.
    MalformedRange,
}

/// Mathematical model of a [`LexNode`].
#[verifier::ext_equal]
pub struct NodeModel {
    pub content: Option<Seq<NodeModel>>,
    pub of_type: ItemModel,
}

/// Mathematical model of a [`LexItem`].
#[verifier::ext_equal]
pub enum ItemModel {
    Text(Seq<char>),
    OptionGroup,
    Option,
    Range,
}

/// Mathematical model of a [`SyntaxError`].
#[verifier::ext_equal]
pub enum ErrorModel {
    EmptyTerm,
    UnexpectedToken(TokenModel, Seq<TokenModel>),
    UnmatchedGroupOpen(Seq<TokenModel>),
    InvalidRangeEndpoint(Seq<char>, Seq<char>),
    MalformedRange,
}

impl DeepView for LexItem {
    type V = ItemModel;

    open spec fn deep_view(&self) -> ItemModel {
        match self {
            LexItem::Text(s) => ItemModel::Text(s@),
            LexItem::OptionGroup => ItemModel::OptionGroup,
            LexItem::Option => ItemModel::Option,
            LexItem::Range => ItemModel::Range,
        }
    }
}

/// Mathematical model of one [`LexNode`].
pub open spec fn node_model(n: LexNode) -> NodeModel
    decreases n, 1int,
    via node_model_dec
{
    NodeModel {
        content: match n.content {
            Option::Some(children) => Option::Some(nodes_model(children@)),
            Option::None => Option::None,
        },
        of_type: n.of_type.deep_view(),
    }
}

#[via_fn]
proof fn node_model_dec(n: LexNode) {
    match n.content {
        Option::Some(children) => {
            assert(decreases_to!(n => children));
            assert(decreases_to!(children => children@));
        },
        Option::None => {},
    }
}

/// Mathematical model of a sequence of nodes, element-wise.
pub open spec fn nodes_model(s: Seq<LexNode>) -> Seq<NodeModel>
    decreases s, 0int,
    via nodes_model_dec
{
    if s.len() == 0 {
        Seq::empty()
    } else {
        seq![node_model(s[0])] + nodes_model(s.skip(1))
    }
}

#[via_fn]
proof fn nodes_model_dec(s: Seq<LexNode>) {
    if s.len() != 0 {
        assert(decreases_to!(s => s[0]));
        assert(s.skip(1) == s.subrange(1, s.len() as int));
        assert(decreases_to!(s => s.subrange(1, s.len() as int)));
    }
}

impl DeepView for LexNode {
    type V = NodeModel;

    open spec fn deep_view(&self) -> NodeModel {
        node_model(*self)
    }
}

/// The deep view of a node vector is the element-wise model of its
/// elements.
pub proof fn lemma_nodes_model(s: Seq<LexNode>)
    ensures
        nodes_model(s) == Seq::new(s.len(), |i: int| s[i].deep_view()),
    decreases s.len(),
{
    if s.len() != 0 {
        lemma_nodes_model(s.skip(1));
        assert forall|i: int| 0 <= i < s.len() implies nodes_model(s)[i] == s[i].deep_view() by {
            if i > 0 {
                assert(nodes_model(s)[i] == nodes_model(s.skip(1))[i - 1]);
                assert(s.skip(1)[i - 1] == s[i]);
            }
        }
    }
    assert(nodes_model(s) =~= Seq::new(s.len(), |i: int| s[i].deep_view()));
}

impl DeepView for SyntaxError {
    type V = ErrorModel;

    open spec fn deep_view(&self) -> ErrorModel {
        match self {
            SyntaxError::EmptyTerm => ErrorModel::EmptyTerm,
            SyntaxError::UnexpectedToken(t, ts) => ErrorModel::UnexpectedToken(
                t.deep_view(),
                ts.deep_view(),
            ),
            SyntaxError::UnmatchedGroupOpen(ts) => ErrorModel::UnmatchedGroupOpen(ts.deep_view()),
            SyntaxError::InvalidRangeEndpoint(a, b) => ErrorModel::InvalidRangeEndpoint(a@, b@),
            SyntaxError::MalformedRange => ErrorModel::MalformedRange,
        }
    }
}

/// +1 for a group opening, -1 for a group closing, 0 for every other
/// token.
pub open spec fn depth_change(t: TokenModel) -> int {
    match t {
        TokenModel::OptionStart => 1,
        TokenModel::OptionEnd => -1,
        _ => 0,
    }
}

/// Index in `s` of the first token equal to `sep` that stands at
/// bracket depth 0, scanning from depth `d`; -1 when there is none.
pub open spec fn first_cut_at(s: Seq<TokenModel>, sep: TokenModel, d: int) -> int
    decreases s.len(),
{
    if s.len() == 0 {
        -1
    } else if s[0] == sep && d == 0 {
        0
    } else {
        let r = first_cut_at(s.skip(1), sep, d + depth_change(s[0]));
        if r == -1 {
            -1
        } else {
            r + 1
        }
    }
}

pub proof fn lemma_first_cut_at_bounds(s: Seq<TokenModel>, sep: TokenModel, d: int)
    ensures
        first_cut_at(s, sep, d) == -1 || (0 <= first_cut_at(s, sep, d) < s.len()
            && s[first_cut_at(s, sep, d)] == sep),
    decreases s.len(),
{
    if s.len() != 0 && !(s[0] == sep && d == 0) {
        lemma_first_cut_at_bounds(s.skip(1), sep, d + depth_change(s[0]));
    }
}

/// `s` split at every `sep` standing at bracket depth 0: one segment
/// per cut, plus the trailing segment. Separators inside nested groups
/// are kept as ordinary tokens of their segment, no token is dropped or
/// duplicated, and separator-free input yields a single segment.
pub open spec fn split_tokens(s: Seq<TokenModel>, sep: TokenModel) -> Seq<Seq<TokenModel>>
    decreases s.len(),
    via split_tokens_dec
{
    let i = first_cut_at(s, sep, 0);
    if i < 0 {
        seq![s]
    } else {
        seq![s.take(i)] + split_tokens(s.skip(i + 1), sep)
    }
}

#[via_fn]
proof fn split_tokens_dec(s: Seq<TokenModel>, sep: TokenModel) {
    lemma_first_cut_at_bounds(s, sep, 0);
}

/// A split has at least one segment, and no segment is longer than the
/// input.
pub proof fn lemma_split_tokens_segments(s: Seq<TokenModel>, sep: TokenModel)
    ensures
        split_tokens(s, sep).len() >= 1,
        forall|k: int|
            0 <= k < split_tokens(s, sep).len() ==> #[trigger] split_tokens(s, sep)[k].len()
                <= s.len(),
    decreases s.len(),
{
    lemma_first_cut_at_bounds(s, sep, 0);
    let i = first_cut_at(s, sep, 0);
    if i >= 0 {
        lemma_split_tokens_segments(s.skip(i + 1), sep);
    }
}

/// A childless text node.
pub open spec fn text_leaf(s: Seq<char>) -> NodeModel {
    NodeModel { of_type: ItemModel::Text(s), content: Option::None }
}

/// One alternative of a group, wrapping the node sequence of the
/// alternative.
pub open spec fn option_node(ns: Seq<NodeModel>) -> NodeModel {
    NodeModel { of_type: ItemModel::Option, content: Option::Some(ns) }
}

/// A range node with the two single-character endpoint texts `a` and
/// `b` as its children.
pub open spec fn range_node(a: Seq<char>, b: Seq<char>) -> NodeModel {
    NodeModel { of_type: ItemModel::Range, content: Option::Some(seq![text_leaf(a), text_leaf(b)]) }
}

/// The range special case of a group interior: a single alternative of
/// exactly three tokens `text - text` is a range when both endpoint
/// texts are single characters, and an endpoint error when they are
/// not; any other interior is no range at all.
pub open spec fn spec_try_range(s: Seq<TokenModel>) -> Result<Option<NodeModel>, ErrorModel> {
    if s.len() == 3 {
        match (s[0], s[1], s[2]) {
            (TokenModel::Text(a), TokenModel::RangeSeparator, TokenModel::Text(b)) => {
                if a.len() == 1 && b.len() == 1 {
                    Result::Ok(Option::Some(range_node(a, b)))
                } else {
                    Result::Err(ErrorModel::InvalidRangeEndpoint(a, b))
                }
            },
            _ => Result::Ok(Option::None),
        }
    } else {
        Result::Ok(Option::None)
    }
}

/// Wraps compiled alternatives as a group node, passing an error on.
pub open spec fn group_from_options(r: Result<Seq<NodeModel>, ErrorModel>) -> Result<
    NodeModel,
    ErrorModel,
> {
    match r {
        Result::Ok(opts) => Result::Ok(
            NodeModel { of_type: ItemModel::OptionGroup, content: Option::Some(opts) },
        ),
        Result::Err(e) => Result::Err(e),
    }
}

/// The node sequence that a non-empty token sequence compiles to: one
/// node per `+`-separated term at bracket depth 0. The first failing
/// term, in input order, decides the error.
pub open spec fn spec_lex_terms(ts: Seq<TokenModel>) -> Result<Seq<NodeModel>, ErrorModel>
    decreases ts.len(), 2int,
    via spec_lex_terms_dec
{
    let i = first_cut_at(ts, TokenModel::Plus, 0);
    if i < 0 {
        match spec_lex_part(ts) {
            Result::Ok(n) => Result::Ok(seq![n]),
            Result::Err(e) => Result::Err(e),
        }
    } else {
        match spec_lex_part(ts.take(i)) {
            Result::Ok(n) => match spec_lex_terms(ts.skip(i + 1)) {
                Result::Ok(rest) => Result::Ok(seq![n] + rest),
                Result::Err(e) => Result::Err(e),
            },
            Result::Err(e) => Result::Err(e),
        }
    }
}

#[via_fn]
proof fn spec_lex_terms_dec(ts: Seq<TokenModel>) {
    lemma_first_cut_at_bounds(ts, TokenModel::Plus, 0);
}

/// The node that one term compiles to.
///
/// An empty term is an error. A term led by a text token chains the
/// rest of the term, if any, as the text's adjacent successor. A term
/// led by `{` must close with its balanced `}` as the term's final
/// token: its interior compiles as a group, a missing balanced close is
/// an unmatched-open error, and a token after the close is unexpected.
/// Any other leading token is unexpected.
pub open spec fn spec_lex_part(p: Seq<TokenModel>) -> Result<NodeModel, ErrorModel>
    decreases p.len(), 1int,
    via spec_lex_part_dec
{
    if p.len() == 0 {
        Result::Err(ErrorModel::EmptyTerm)
    } else {
        match p[0] {
            TokenModel::Text(s) => {
                if p.len() == 1 {
                    Result::Ok(text_leaf(s))
                } else {
                    match spec_lex_part(p.skip(1)) {
                        Result::Ok(next) => Result::Ok(
                            NodeModel {
                                of_type: ItemModel::Text(s),
                                content: Option::Some(seq![next]),
                            },
                        ),
                        Result::Err(e) => Result::Err(e),
                    }
                }
            },
            TokenModel::OptionStart => {
                let j = first_cut_at(p.skip(1), TokenModel::OptionEnd, 0);
                if j < 0 {
                    Result::Err(ErrorModel::UnmatchedGroupOpen(p))
                } else if j + 2 < p.len() {
                    Result::Err(ErrorModel::UnexpectedToken(p[j + 2], p))
                } else {
                    spec_lex_group(p.subrange(1, j + 1))
                }
            },
            _ => Result::Err(ErrorModel::UnexpectedToken(p[0], p)),
        }
    }
}

#[via_fn]
proof fn spec_lex_part_dec(p: Seq<TokenModel>) {
    if p.len() > 0 {
        lemma_first_cut_at_bounds(p.skip(1), TokenModel::OptionEnd, 0);
    }
}

/// The node that a group interior `{...}` compiles to: the range
/// special case when the interior is a single comma-free alternative of
/// the range shape, otherwise a group of one option per depth-0
/// comma-separated alternative.
pub open spec fn spec_lex_group(g: Seq<TokenModel>) -> Result<NodeModel, ErrorModel>
    decreases g.len(), 4int,
{
    if first_cut_at(g, TokenModel::Comma, 0) < 0 {
        match spec_try_range(g) {
            Result::Ok(Option::Some(nd)) => Result::Ok(nd),
            Result::Err(e) => Result::Err(e),
            Result::Ok(Option::None) => group_from_options(spec_lex_options(g)),
        }
    } else {
        group_from_options(spec_lex_options(g))
    }
}

/// The option nodes of a group interior, one per alternative, each
/// alternative compiled as a full term sequence. An empty alternative
/// is an empty-term error; the first failing alternative decides.
pub open spec fn spec_lex_options(g: Seq<TokenModel>) -> Result<Seq<NodeModel>, ErrorModel>
    decreases g.len(), 3int,
    via spec_lex_options_dec
{
    let i = first_cut_at(g, TokenModel::Comma, 0);
    if i < 0 {
        match spec_lex_terms(g) {
            Result::Ok(ns) => Result::Ok(seq![option_node(ns)]),
            Result::Err(e) => Result::Err(e),
        }
    } else {
        match spec_lex_terms(g.take(i)) {
            Result::Ok(ns) => match spec_lex_options(g.skip(i + 1)) {
                Result::Ok(rest) => Result::Ok(seq![option_node(ns)] + rest),
                Result::Err(e) => Result::Err(e),
            },
            Result::Err(e) => Result::Err(e),
        }
    }
}

#[via_fn]
proof fn spec_lex_options_dec(g: Seq<TokenModel>) {
    lemma_first_cut_at_bounds(g, TokenModel::Comma, 0);
}

/// The compilation result of a whole token sequence: the empty input
/// yields the empty node sequence; any other input compiles term by
/// term.
pub open spec fn spec_lex(ts: Seq<TokenModel>) -> Result<Seq<NodeModel>, ErrorModel> {
    if ts.len() == 0 {
        Result::Ok(Seq::empty())
    } else {
        spec_lex_terms(ts)
    }
}

/// Term-by-term compilation of an already split token sequence: one
/// node per segment, the first failing segment deciding the error.
pub open spec fn spec_lex_parts(parts: Seq<Seq<TokenModel>>) -> Result<Seq<NodeModel>, ErrorModel>
    decreases parts.len(),
{
    if parts.len() == 0 {
        Result::Ok(Seq::empty())
    } else {
        match spec_lex_part(parts[0]) {
            Result::Ok(n) => match spec_lex_parts(parts.skip(1)) {
                Result::Ok(rest) => Result::Ok(seq![n] + rest),
                Result::Err(e) => Result::Err(e),
            },
            Result::Err(e) => Result::Err(e),
        }
    }
}

/// Alternative-by-alternative compilation of an already split group
/// interior.
pub open spec fn spec_lex_options_list(parts: Seq<Seq<TokenModel>>) -> Result<
    Seq<NodeModel>,
    ErrorModel,
>
    decreases parts.len(),
{
    if parts.len() == 0 {
        Result::Ok(Seq::empty())
    } else {
        match spec_lex_terms(parts[0]) {
            Result::Ok(ns) => match spec_lex_options_list(parts.skip(1)) {
                Result::Ok(rest) => Result::Ok(seq![option_node(ns)] + rest),
                Result::Err(e) => Result::Err(e),
            },
            Result::Err(e) => Result::Err(e),
        }
    }
}

/// Compiling a non-empty token sequence term by term is the same as
/// splitting it at depth-0 `+` first and compiling the segments.
pub proof fn lemma_lex_terms_split(ts: Seq<TokenModel>)
    ensures
        spec_lex_terms(ts) == spec_lex_parts(split_tokens(ts, TokenModel::Plus)),
    decreases ts.len(),
{
    reveal_with_fuel(spec_lex_parts, 2);
    lemma_first_cut_at_bounds(ts, TokenModel::Plus, 0);
    let i = first_cut_at(ts, TokenModel::Plus, 0);
    let parts = split_tokens(ts, TokenModel::Plus);
    if i < 0 {
        assert(parts[0] == ts);
        assert(parts.skip(1) =~= Seq::<Seq<TokenModel>>::empty());
        match spec_lex_part(ts) {
            Result::Ok(n) => {
                assert(seq![n] + Seq::<NodeModel>::empty() =~= seq![n]);
            },
            Result::Err(e) => {},
        }
    } else {
        lemma_lex_terms_split(ts.skip(i + 1));
        assert(parts[0] == ts.take(i));
        assert(parts.skip(1) =~= split_tokens(ts.skip(i + 1), TokenModel::Plus));
    }
}

/// Compiling a group interior alternative by alternative is the same
/// as splitting it at depth-0 commas first and compiling the segments.
pub proof fn lemma_lex_options_split(g: Seq<TokenModel>)
    ensures
        spec_lex_options(g) == spec_lex_options_list(split_tokens(g, TokenModel::Comma)),
    decreases g.len(),
{
    reveal_with_fuel(spec_lex_options_list, 2);
    lemma_first_cut_at_bounds(g, TokenModel::Comma, 0);
    let i = first_cut_at(g, TokenModel::Comma, 0);
    let parts = split_tokens(g, TokenModel::Comma);
    if i < 0 {
        assert(parts[0] == g);
        assert(parts.skip(1) =~= Seq::<Seq<TokenModel>>::empty());
        match spec_lex_terms(g) {
            Result::Ok(ns) => {
                assert(seq![option_node(ns)] + Seq::<NodeModel>::empty() =~= seq![
                    option_node(ns),
                ]);
            },
            Result::Err(e) => {},
        }
    } else {
        lemma_lex_options_split(g.skip(i + 1));
        assert(parts[0] == g.take(i));
        assert(parts.skip(1) =~= split_tokens(g.skip(i + 1), TokenModel::Comma));
    }
}

/// Compiling the concatenation of two segment lists compiles the first
/// list, then the second.
pub proof fn lemma_lex_parts_append(a: Seq<Seq<TokenModel>>, b: Seq<Seq<TokenModel>>)
    ensures
        spec_lex_parts(a + b) == (match spec_lex_parts(a) {
            Result::Ok(ns) => match spec_lex_parts(b) {
                Result::Ok(ms) => Result::<_, ErrorModel>::Ok(ns + ms),
                Result::Err(e) => Result::Err(e),
            },
            Result::Err(e) => Result::Err(e),
        }),
    decreases a.len(),
{
    if a.len() == 0 {
        assert(a + b =~= b);
        match spec_lex_parts(b) {
            Result::Ok(ms) => {
                assert(Seq::<NodeModel>::empty() + ms =~= ms);
            },
            Result::Err(e) => {},
        }
    } else {
        lemma_lex_parts_append(a.skip(1), b);
        assert((a + b)[0] == a[0]);
        assert((a + b).skip(1) =~= a.skip(1) + b);
        match spec_lex_part(a[0]) {
            Result::Ok(n) => match spec_lex_parts(a.skip(1)) {
                Result::Ok(r1) => match spec_lex_parts(b) {
                    Result::Ok(r2) => {
                        assert((seq![n] + r1) + r2 =~= seq![n] + (r1 + r2));
                    },
                    Result::Err(_) => {},
                },
                Result::Err(_) => {},
            },
            Result::Err(_) => {},
        }
    }
}

/// Compiling the concatenation of two alternative lists compiles the
/// first list, then the second.
pub proof fn lemma_lex_options_list_append(a: Seq<Seq<TokenModel>>, b: Seq<Seq<TokenModel>>)
    ensures
        spec_lex_options_list(a + b) == (match spec_lex_options_list(a) {
            Result::Ok(ns) => match spec_lex_options_list(b) {
                Result::Ok(ms) => Result::<_, ErrorModel>::Ok(ns + ms),
                Result::Err(e) => Result::Err(e),
            },
            Result::Err(e) => Result::Err(e),
        }),
    decreases a.len(),
{
    if a.len() == 0 {
        assert(a + b =~= b);
        match spec_lex_options_list(b) {
            Result::Ok(ms) => {
                assert(Seq::<NodeModel>::empty() + ms =~= ms);
            },
            Result::Err(e) => {},
        }
    } else {
        lemma_lex_options_list_append(a.skip(1), b);
        assert((a + b)[0] == a[0]);
        assert((a + b).skip(1) =~= a.skip(1) + b);
        match spec_lex_terms(a[0]) {
            Result::Ok(ns) => match spec_lex_options_list(a.skip(1)) {
                Result::Ok(r1) => match spec_lex_options_list(b) {
                    Result::Ok(r2) => {
                        assert((seq![option_node(ns)] + r1) + r2 =~= seq![option_node(ns)] + (r1
                            + r2));
                    },
                    Result::Err(_) => {},
                },
                Result::Err(_) => {},
            },
            Result::Err(_) => {},
        }
    }
}

/// The model of a node-sequence result.
pub open spec fn lex_result_view(r: Result<Vec<LexNode>, SyntaxError>) -> Result<
    Seq<NodeModel>,
    ErrorModel,
> {
    match r {
        Result::Ok(ns) => Result::Ok(ns.deep_view()),
        Result::Err(e) => Result::Err(e.deep_view()),
    }
}

/// The model of a single-node result.
pub open spec fn node_result_view(r: Result<LexNode, SyntaxError>) -> Result<
    NodeModel,
    ErrorModel,
> {
    match r {
        Result::Ok(n) => Result::Ok(n.deep_view()),
        Result::Err(e) => Result::Err(e.deep_view()),
    }
}

/// The segments joined back together, with `sep` re-inserted between
/// them.
pub open spec fn join_tokens(parts: Seq<Seq<TokenModel>>, sep: TokenModel) -> Seq<TokenModel>
    decreases parts.len(),
{
    if parts.len() == 0 {
        Seq::empty()
    } else if parts.len() == 1 {
        parts[0]
    } else {
        parts[0] + seq![sep] + join_tokens(parts.skip(1), sep)
    }
}

/// Splitting drops and duplicates nothing: re-joining the segments
/// with the separator restores the input.
pub proof fn lemma_split_join(s: Seq<TokenModel>, sep: TokenModel)
    ensures
        join_tokens(split_tokens(s, sep), sep) == s,
    decreases s.len(),
{
    lemma_first_cut_at_bounds(s, sep, 0);
    let i = first_cut_at(s, sep, 0);
    if i < 0 {
        assert(join_tokens(seq![s], sep) == s);
    } else {
        lemma_split_join(s.skip(i + 1), sep);
        lemma_split_tokens_segments(s.skip(i + 1), sep);
        let parts = split_tokens(s, sep);
        assert(parts[0] == s.take(i));
        assert(parts.skip(1) =~= split_tokens(s.skip(i + 1), sep));
        assert(parts.len() >= 2);
        assert(s.take(i) + seq![sep] + s.skip(i + 1) =~= s);
    }
}

/// Which separator a depth-aware scan cuts at.
#[derive(Debug, Clone, Copy)]
enum Separator {
    Plus,
    Comma,
    GroupClose,
}

spec fn separator_token(sep: Separator) -> TokenModel {
    match sep {
        Separator::Plus => TokenModel::Plus,
        Separator::Comma => TokenModel::Comma,
        Separator::GroupClose => TokenModel::OptionEnd,
    }
}

fn token_matches(t: &Token, sep: Separator) -> (b: bool)
    ensures
        b == (t.deep_view() == separator_token(sep)),
{
    match sep {
        Separator::Plus => matches!(t, Token::Plus),
        Separator::Comma => matches!(t, Token::Comma),
        Separator::GroupClose => matches!(t, Token::OptionEnd),
    }
}

/// Absolute index of the first `sep` at bracket depth 0 in `v` at or
/// after `from`, or `None`.
fn find_first_cut(v: &Vec<Token>, from: usize, sep: Separator) -> (r: Option<usize>)
    requires
        from <= v@.len(),
    ensures
        ({
            let s = v.deep_view().skip(from as int);
            let sm = separator_token(sep);
            match r {
                Option::Some(idx) => from <= idx < v@.len() && idx - from == first_cut_at(
                    s,
                    sm,
                    0,
                ),
                Option::None => first_cut_at(s, sm, 0) == -1,
            }
        }),
{
    let ghost dv = v.deep_view();
    let ghost sm = separator_token(sep);
    let mut j: usize = from;
    let mut depth: i128 = 0;
    while j < v.len()
        invariant
            from <= j <= v@.len(),
            dv == v.deep_view(),
            sm == separator_token(sep),
            dv.len() == v@.len(),
            -(j - from) <= depth as int <= j - from,
            ({
                let r = first_cut_at(dv.skip(j as int), sm, depth as int);
                first_cut_at(dv.skip(from as int), sm, 0) == if r == -1 {
                    -1int
                } else {
                    r + j - from
                }
            }),
        decreases v@.len() - j,
    {
        let ghost j0 = j as int;
        let ghost d0 = depth as int;
        proof {
            assert(dv[j0] == v@[j0].deep_view());
            assert(dv.skip(j0)[0] == dv[j0]);
            assert(dv.skip(j0).skip(1) =~= dv.skip(j0 + 1));
        }
        let t = &v[j];
        let is_cut = token_matches(t, sep);
        if is_cut && depth == 0 {
            return Some(j);
        }
        match t {
            Token::OptionStart => {
                depth = depth + 1;
            },
            Token::OptionEnd => {
                depth = depth - 1;
            },
            _ => {},
        }
        proof {
            lemma_first_cut_at_bounds(dv.skip(j0 + 1), sm, depth as int);
            let r0 = first_cut_at(dv.skip(j0), sm, d0);
            let r1 = first_cut_at(dv.skip(j0 + 1), sm, depth as int);
            assert(dv.skip(j0)[0] == t.deep_view());
            assert(depth as int == d0 + depth_change(dv.skip(j0)[0]));
            assert(first_cut_at(dv.skip(j0).skip(1), sm, d0 + depth_change(dv.skip(j0)[0]))
                == r1);
            assert(r0 == if r1 == -1 {
                -1int
            } else {
                r1 + 1
            });
        }
        j = j + 1;
    }
    proof {
        assert(dv.skip(j as int) =~= Seq::<TokenModel>::empty());
    }
    None
}

/// A copy of one token whose model is unchanged.
fn copy_token(t: &Token) -> (r: Token)
    ensures
        r.deep_view() == t.deep_view(),
{
    match t {
        Token::OptionStart => Token::OptionStart,
        Token::RangeSeparator => Token::RangeSeparator,
        Token::Comma => Token::Comma,
        Token::OptionEnd => Token::OptionEnd,
        Token::Plus => Token::Plus,
        Token::Text(s) => Token::Text(s.clone()),
    }
}

/// The tokens of `v` from `from` (inclusive) to `to` (exclusive), as an
/// owned vector.
fn subvec(v: &Vec<Token>, from: usize, to: usize) -> (r: Vec<Token>)
    requires
        from <= to <= v@.len(),
    ensures
        r.deep_view() == v.deep_view().subrange(from as int, to as int),
{
    let mut r: Vec<Token> = Vec::new();
    let mut k: usize = from;
    proof {
        assert(r.deep_view() =~= v.deep_view().subrange(from as int, from as int));
    }
    while k < to
        invariant
            from <= k <= to <= v@.len(),
            r.deep_view() == v.deep_view().subrange(from as int, k as int),
        decreases to - k,
    {
        let t = copy_token(&v[k]);
        let ghost before = r;
        let ghost tg = t;
        r.push(t);
        proof {
            crate::views::lemma_deep_view_push(before, r, tg);
            assert(tg.deep_view() == v.deep_view()[k as int]);
            assert(r.deep_view() =~= v.deep_view().subrange(from as int, k as int + 1));
        }
        k = k + 1;
    }
    r
}

/// The segments of `v` from `from` on, split at `sep`.
fn split_from(v: &Vec<Token>, from: usize, sep: Separator) -> (r: Vec<Vec<Token>>)
    requires
        from <= v@.len(),
    ensures
        r.deep_view() == split_tokens(v.deep_view().skip(from as int), separator_token(sep)),
    decreases v@.len() - from,
{
    let ghost s = v.deep_view().skip(from as int);
    let ghost sm = separator_token(sep);
    let n = v.len();
    match find_first_cut(v, from, sep) {
        Option::None => {
            let seg = subvec(v, from, n);
            let mut r: Vec<Vec<Token>> = Vec::new();
            r.push(seg);
            proof {
                assert(seg.deep_view() =~= s);
                assert(r.deep_view() =~= split_tokens(s, sm));
            }
            r
        },
        Option::Some(idx) => {
            let seg = subvec(v, from, idx);
            let mut rest = split_from(v, idx + 1, sep);
            let mut r: Vec<Vec<Token>> = Vec::new();
            r.push(seg);
            let ghost before = r;
            r.append(&mut rest);
            proof {
                let i = first_cut_at(s, sm, 0);
                assert(seg.deep_view() =~= s.take(i));
                assert(v.deep_view().skip(idx as int + 1) =~= s.skip(i + 1));
                assert(r.deep_view() =~= seq![seg.deep_view()] + before.deep_view().skip(1)
                    + split_tokens(s.skip(i + 1), sm));
                assert(before.deep_view().skip(1) =~= Seq::<Seq<TokenModel>>::empty());
                assert(r.deep_view() =~= split_tokens(s, sm));
            }
            r
        },
    }
}

/// The model of a maybe-found single-node result.
pub open spec fn opt_node_result_view(r: Result<Option<LexNode>, SyntaxError>) -> Result<
    Option<NodeModel>,
    ErrorModel,
> {
    match r {
        Result::Ok(Option::Some(n)) => Result::Ok(Option::Some(n.deep_view())),
        Result::Ok(Option::None) => Result::Ok(Option::None),
        Result::Err(e) => Result::Err(e.deep_view()),
    }
}

/// Recognizes the range special case in a single comma-free
/// alternative: exactly three tokens `text - text`. Single-character
/// endpoints give a range node, longer endpoints are an error, and any
/// other shape is no range at all.
fn try_find_range(v: &Vec<Token>) -> (r: Result<Option<LexNode>, SyntaxError>)
    ensures
        opt_node_result_view(r) == spec_try_range(v.deep_view()),
{
    let ghost s = v.deep_view();
    if v.len() != 3 {
        return Ok(None);
    }
    proof {
        assert(s[0] == v@[0].deep_view());
        assert(s[1] == v@[1].deep_view());
        assert(s[2] == v@[2].deep_view());
    }
    let t0 = &v[0];
    let t1 = &v[1];
    let t2 = &v[2];
    match (t0, t1, t2) {
        (Token::Text(a), Token::RangeSeparator, Token::Text(b)) => {
            if a.as_str().unicode_len() == 1 && b.as_str().unicode_len() == 1 {
                let mut children: Vec<LexNode> = Vec::new();
                let left = LexNode { of_type: LexItem::Text(a.clone()), content: None };
                let right = LexNode { of_type: LexItem::Text(b.clone()), content: None };
                let ghost left_g = left;
                let ghost right_g = right;
                children.push(left);
                children.push(right);
                let ghost ch = children;
                let node = LexNode { of_type: LexItem::Range, content: Some(children) };
                proof {
                    reveal_with_fuel(nodes_model, 3);
                    assert(ch@ =~= seq![left_g, right_g]);
                    assert(node_model(left_g) == text_leaf(a@));
                    assert(node_model(right_g) == text_leaf(b@));
                    assert(ch@.skip(1) =~= seq![right_g]);
                    assert(seq![right_g].skip(1) =~= Seq::<LexNode>::empty());
                    assert(nodes_model(ch@) =~= seq![text_leaf(a@), text_leaf(b@)]);
                    assert(node.deep_view() =~= range_node(a@, b@));
                }
                Ok(Some(node))
            } else {
                Err(SyntaxError::InvalidRangeEndpoint(a.clone(), b.clone()))
            }
        },
        _ => Ok(None),
    }
}

/// Builds the node of one term; see [`spec_lex_part`] for the grammar
/// it realizes.
fn lex_part(p: &Vec<Token>) -> (r: Result<LexNode, SyntaxError>)
    ensures
        node_result_view(r) == spec_lex_part(p.deep_view()),
    decreases p@.len(), 1int,
{
    let ghost s = p.deep_view();
    let n = p.len();
    if n == 0 {
        return Err(SyntaxError::EmptyTerm);
    }
    proof {
        assert(s[0] == p@[0].deep_view());
    }
    match &p[0] {
        Token::Text(txt) => {
            if n > 1 {
                let tail = subvec(p, 1, n);
                proof {
                    assert(tail.deep_view() =~= s.skip(1));
                    assert(tail@.len() == n - 1);
                }
                match lex_part(&tail) {
                    Result::Ok(next) => {
                        let ghost next_m = next.deep_view();
                        let ghost next_g = next;
                        let mut children: Vec<LexNode> = Vec::new();
                        children.push(next);
                        let ghost ch = children;
                        let node = LexNode {
                            of_type: LexItem::Text(txt.clone()),
                            content: Some(children),
                        };
                        proof {
                            reveal_with_fuel(nodes_model, 2);
                            assert(ch@ =~= seq![next_g]);
                            assert(ch@.skip(1) =~= Seq::<LexNode>::empty());
                            assert(nodes_model(ch@) =~= seq![next_m]);
                            assert(node.deep_view() =~= NodeModel {
                                of_type: ItemModel::Text(txt@),
                                content: Option::Some(seq![next_m]),
                            });
                        }
                        Ok(node)
                    },
                    Result::Err(e) => Err(e),
                }
            } else {
                let node = LexNode { of_type: LexItem::Text(txt.clone()), content: None };
                proof {
                    assert(node.deep_view() =~= text_leaf(txt@));
                }
                Ok(node)
            }
        },
        Token::OptionStart => {
            match find_first_cut(p, 1, Separator::GroupClose) {
                Option::None => {
                    let ctx = subvec(p, 0, n);
                    proof {
                        assert(ctx.deep_view() =~= s);
                    }
                    Err(SyntaxError::UnmatchedGroupOpen(ctx))
                },
                Option::Some(idx) => {
                    proof {
                        assert(idx - 1 == first_cut_at(s.skip(1), TokenModel::OptionEnd, 0));
                    }
                    if idx + 1 < n {
                        let bad = copy_token(&p[idx + 1]);
                        let ctx = subvec(p, 0, n);
                        proof {
                            assert(ctx.deep_view() =~= s);
                            assert(bad.deep_view() == s[idx as int + 1]);
                        }
                        Err(SyntaxError::UnexpectedToken(bad, ctx))
                    } else {
                        let interior = subvec(p, 1, idx);
                        proof {
                            assert(interior.deep_view() =~= s.subrange(1, idx as int));
                            assert(interior@.len() == idx - 1);
                        }
                        lex_option(&interior)
                    }
                },
            }
        },
        _ => {
            let bad = copy_token(&p[0]);
            let ctx = subvec(p, 0, n);
            proof {
                assert(ctx.deep_view() =~= s);
            }
            Err(SyntaxError::UnexpectedToken(bad, ctx))
        },
    }
}

/// Builds the node of a group interior `{...}`; see [`spec_lex_group`].
#[verifier::loop_isolation(false)]
fn lex_option(g: &Vec<Token>) -> (r: Result<LexNode, SyntaxError>)
    ensures
        node_result_view(r) == spec_lex_group(g.deep_view()),
    decreases g@.len(), 3int,
{
    let ghost s = g.deep_view();
    let options = split_from(g, 0, Separator::Comma);
    let ghost parts = options.deep_view();
    proof {
        assert(s.skip(0) =~= s);
        assert(parts == split_tokens(s, TokenModel::Comma));
        lemma_split_tokens_segments(s, TokenModel::Comma);
        lemma_first_cut_at_bounds(s, TokenModel::Comma, 0);
    }
    let ghost comma_cut = first_cut_at(s, TokenModel::Comma, 0);
    if options.len() == 1 {
        proof {
            if comma_cut >= 0 {
                lemma_split_tokens_segments(s.skip(comma_cut + 1), TokenModel::Comma);
                assert(false);
            }
            assert(parts[0] == s);
        }
        let first = &options[0];
        proof {
            assert(first.deep_view() == parts[0]);
        }
        match try_find_range(first) {
            Result::Ok(Option::Some(nd)) => {
                return Ok(nd);
            },
            Result::Err(e) => {
                return Err(e);
            },
            Result::Ok(Option::None) => {},
        }
    } else {
        proof {
            if comma_cut < 0 {
                assert(parts.len() == 1);
                assert(false);
            }
        }
    }
    proof {
        lemma_lex_options_split(s);
    }
    let mut results: Vec<LexNode> = Vec::new();
    let mut k: usize = 0;
    proof {
        assert(parts.take(0) =~= Seq::<Seq<TokenModel>>::empty());
        assert(results.deep_view() =~= Seq::<NodeModel>::empty());
    }
    while k < options.len()
        invariant
            k <= options@.len(),
            s == g.deep_view(),
            parts == options.deep_view(),
            parts == split_tokens(s, TokenModel::Comma),
            forall|t: int| 0 <= t < parts.len() ==> #[trigger] parts[t].len() <= s.len(),
            spec_lex_options_list(parts.take(k as int)) == Result::<Seq<NodeModel>,
                ErrorModel,
            >::Ok(results.deep_view()),
        decreases options@.len() - k,
    {
        let part = &options[k];
        proof {
            assert(part.deep_view() == parts[k as int]);
            assert(part@.len() == parts[k as int].len());
            assert(s.len() == g@.len());
            assert(parts.take(k as int) + parts.skip(k as int) =~= parts);
            assert(parts.skip(k as int)[0] == parts[k as int]);
        }
        if part.len() == 0 {
            proof {
                assert(parts[k as int].len() == 0);
                assert(first_cut_at(parts[k as int], TokenModel::Plus, 0) == -1);
                assert(spec_lex_part(parts[k as int]) == Result::<NodeModel, ErrorModel>::Err(
                    ErrorModel::EmptyTerm,
                ));
                assert(spec_lex_terms(parts[k as int]) == Result::<Seq<NodeModel>,
                    ErrorModel,
                >::Err(ErrorModel::EmptyTerm));
                lemma_lex_options_list_append(parts.take(k as int), parts.skip(k as int));
                assert(spec_lex_options_list(parts) == Result::<Seq<NodeModel>, ErrorModel>::Err(
                    ErrorModel::EmptyTerm,
                ));
            }
            return Err(SyntaxError::EmptyTerm);
        }
        match lex(part) {
            Result::Ok(nodes) => {
                let ghost nodes_g = nodes;
                let ghost res_before = results;
                let option_node_exec = LexNode { of_type: LexItem::Option, content: Some(nodes) };
                let ghost node_g = option_node_exec;
                results.push(option_node_exec);
                proof {
                    crate::views::lemma_deep_view_push(res_before, results, node_g);
                    lemma_nodes_model(nodes_g@);
                    assert(node_g.deep_view() =~= option_node(nodes_g.deep_view()));
                    lemma_lex_options_list_append(parts.take(k as int), seq![parts[k as int]]);
                    reveal_with_fuel(spec_lex_options_list, 2);
                    assert(parts.take(k as int) + seq![parts[k as int]] =~= parts.take(
                        k as int + 1,
                    ));
                    assert(seq![parts[k as int]].skip(1) =~= Seq::<Seq<TokenModel>>::empty());
                    assert(seq![option_node(nodes_g.deep_view())] + Seq::<NodeModel>::empty()
                        =~= seq![option_node(nodes_g.deep_view())]);
                    assert(res_before.deep_view() + seq![option_node(nodes_g.deep_view())]
                        =~= results.deep_view());
                    assert(spec_lex_options_list(parts.take(k as int + 1)) == Result::<
                        Seq<NodeModel>,
                        ErrorModel,
                    >::Ok(results.deep_view()));
                }
            },
            Result::Err(e) => {
                proof {
                    lemma_lex_options_list_append(parts.take(k as int), parts.skip(k as int));
                    assert(spec_lex_options_list(parts) == Result::<Seq<NodeModel>,
                        ErrorModel,
                    >::Err(e.deep_view()));
                }
                return Err(e);
            },
        }
        k = k + 1;
    }
    proof {
        assert(parts.take(options@.len() as int) =~= parts);
    }
    let ghost results_g = results;
    let node = LexNode { of_type: LexItem::OptionGroup, content: Some(results) };
    proof {
        lemma_nodes_model(results_g@);
        assert(node.deep_view() =~= NodeModel {
            of_type: ItemModel::OptionGroup,
            content: Option::Some(results_g.deep_view()),
        });
    }
    Ok(node)
}

/// Compiles a token sequence into its node sequence, one node per
/// depth-0 `+`-separated term; the empty sequence compiles to the
/// empty node sequence. Fails with the syntax error of the first term
/// that cannot be compiled.
#[verifier::loop_isolation(false)]
pub fn lex(vec: &Vec<Token>) -> (r: Result<Vec<LexNode>, SyntaxError>)
    ensures
        lex_result_view(r) == spec_lex(vec.deep_view()),
    decreases vec@.len(), 2int,
{
    let ghost s = vec.deep_view();
    if vec.len() == 0 {
        let empty: Vec<LexNode> = Vec::new();
        proof {
            assert(empty.deep_view() =~= Seq::<NodeModel>::empty());
        }
        return Ok(empty);
    }
    let parts_vec = split_till_plus(vec);
    let ghost parts = parts_vec.deep_view();
    proof {
        lemma_split_tokens_segments(s, TokenModel::Plus);
        lemma_lex_terms_split(s);
    }
    let mut result: Vec<LexNode> = Vec::new();
    let mut k: usize = 0;
    proof {
        assert(parts.take(0) =~= Seq::<Seq<TokenModel>>::empty());
        assert(result.deep_view() =~= Seq::<NodeModel>::empty());
    }
    while k < parts_vec.len()
        invariant
            k <= parts_vec@.len(),
            s == vec.deep_view(),
            parts == parts_vec.deep_view(),
            parts == split_tokens(s, TokenModel::Plus),
            forall|t: int| 0 <= t < parts.len() ==> #[trigger] parts[t].len() <= s.len(),
            spec_lex_parts(parts.take(k as int)) == Result::<Seq<NodeModel>, ErrorModel>::Ok(
                result.deep_view(),
            ),
        decreases parts_vec@.len() - k,
    {
        let part = &parts_vec[k];
        proof {
            assert(part.deep_view() == parts[k as int]);
            assert(part@.len() == parts[k as int].len());
            assert(s.len() == vec@.len());
            assert(parts.take(k as int) + parts.skip(k as int) =~= parts);
            assert(parts.skip(k as int)[0] == parts[k as int]);
        }
        match lex_part(part) {
            Result::Ok(node) => {
                let ghost node_g = node;
                let ghost res_before = result;
                result.push(node);
                proof {
                    crate::views::lemma_deep_view_push(res_before, result, node_g);
                    lemma_lex_parts_append(parts.take(k as int), seq![parts[k as int]]);
                    reveal_with_fuel(spec_lex_parts, 2);
                    assert(parts.take(k as int) + seq![parts[k as int]] =~= parts.take(
                        k as int + 1,
                    ));
                    assert(seq![parts[k as int]].skip(1) =~= Seq::<Seq<TokenModel>>::empty());
                    assert(seq![node_g.deep_view()] + Seq::<NodeModel>::empty() =~= seq![
                        node_g.deep_view(),
                    ]);
                    assert(res_before.deep_view() + seq![node_g.deep_view()]
                        =~= result.deep_view());
                    assert(spec_lex_parts(parts.take(k as int + 1)) == Result::<
                        Seq<NodeModel>,
                        ErrorModel,
                    >::Ok(result.deep_view()));
                }
            },
            Result::Err(e) => {
                proof {
                    lemma_lex_parts_append(parts.take(k as int), parts.skip(k as int));
                    assert(spec_lex_parts(parts) == Result::<Seq<NodeModel>, ErrorModel>::Err(
                        e.deep_view(),
                    ));
                }
                return Err(e);
            },
        }
        k = k + 1;
    }
    proof {
        assert(parts.take(parts_vec@.len() as int) =~= parts);
    }
    Ok(result)
}

/// Splits `vec` at every `+` that stands at bracket depth 0.
///
/// Used for the top-level terms of the input. The split itself never
/// fails; an unbalanced bracket depth is only detected later, when the
/// nodes are built.
pub fn split_till_plus(vec: &Vec<Token>) -> (r: Vec<Vec<Token>>)
    ensures
        r.deep_view() == split_tokens(vec.deep_view(), TokenModel::Plus),
{
    let r = split_from(vec, 0, Separator::Plus);
    proof {
        assert(vec.deep_view().skip(0) =~= vec.deep_view());
    }
    r
}

} // verus!
