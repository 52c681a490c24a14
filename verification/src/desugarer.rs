//! Desugarer: a pure tree-to-tree rewrite that expands every range
//! node into an equivalent alternative group.
//!
//! A range `{a-b}` becomes a group with one single-character
//! alternative per code point from `a` to `b` inclusive, in code
//! order; code points that are no Unicode scalar values (the surrogate
//! block) contribute no alternative, and a reversed range (`a` above
//! `b`) yields a group with no alternatives. Every other node keeps
//! its kind, with its children desugared; the rewrite is otherwise
//! structure-preserving and never fails on a tree the builder
//! produced.

use vstd::prelude::*;
use vstd::utf8::is_scalar;

use crate::lexer::lex_result_view;
use crate::lexer::node_model;
use crate::lexer::node_result_view;
use crate::lexer::nodes_model;
use crate::lexer::lemma_nodes_model;
use crate::lexer::option_node;
use crate::lexer::text_leaf;
use crate::lexer::ErrorModel;
use crate::lexer::ItemModel;
use crate::lexer::LexItem;
use crate::lexer::LexNode;
use crate::lexer::NodeModel;
use crate::lexer::SyntaxError;

verus! {

/// Relies on `char::from_u32` of std: `Some` exactly for Unicode
/// scalar values, and then the character with that code.
pub assume_specification[ char::from_u32 ](u: u32) -> (r: Option<char>)
    ensures
        is_scalar(u) ==> r == Some(u as char),
        !is_scalar(u) ==> r is None,
;

/// Relies on `String::from` for a `char`: the string of exactly that
/// character.
#[verifier::external_body]
fn char_to_string(c: char) -> (r: String)
    ensures
        r@ == seq![c],
{
    String::from(c)
}

/// The alternative contributed by character code `u`: one option
/// holding the one-character text, or nothing when `u` is no Unicode
/// scalar value.
pub open spec fn code_option(u: int) -> Seq<NodeModel> {
    if 0 <= u <= 0x10FFFF && is_scalar(u as u32) {
        seq![option_node(seq![text_leaf(seq![(u as u32) as char])])]
    } else {
        Seq::empty()
    }
}

/// The alternatives of the expansion of the inclusive character-code
/// range `lo..=hi`, in code order; empty when `lo > hi`.
pub open spec fn range_expansion(lo: int, hi: int) -> Seq<NodeModel>
    decreases hi + 1 - lo,
{
    if lo > hi {
        Seq::empty()
    } else {
        code_option(lo) + range_expansion(lo + 1, hi)
    }
}

/// Extending a range at its upper end appends that code's alternative.
pub proof fn lemma_range_expansion_snoc(lo: int, hi: int)
    requires
        lo <= hi,
    ensures
        range_expansion(lo, hi) == range_expansion(lo, hi - 1) + code_option(hi),
    decreases hi - lo,
{
    if lo == hi {
        assert(range_expansion(lo + 1, hi) =~= Seq::<NodeModel>::empty());
        assert(range_expansion(lo, hi - 1) =~= Seq::<NodeModel>::empty());
        assert(code_option(lo) + Seq::<NodeModel>::empty() =~= Seq::<NodeModel>::empty()
            + code_option(lo));
    } else {
        lemma_range_expansion_snoc(lo + 1, hi);
        assert(code_option(lo) + (range_expansion(lo + 1, hi - 1) + code_option(hi))
            =~= (code_option(lo) + range_expansion(lo + 1, hi - 1)) + code_option(hi));
    }
}

/// What a range node's children desugar to: the children must be
/// exactly two childless texts, whose single characters bound the
/// expansion; longer endpoint texts are an endpoint error, any other
/// shape is a malformed range.
pub open spec fn spec_split_range(children: Seq<NodeModel>) -> Result<NodeModel, ErrorModel> {
    if children.len() == 2 && children[0].content is None && children[1].content is None {
        match (children[0].of_type, children[1].of_type) {
            (ItemModel::Text(a), ItemModel::Text(b)) => {
                if a.len() == 1 && b.len() == 1 {
                    Result::Ok(
                        NodeModel {
                            of_type: ItemModel::OptionGroup,
                            content: Option::Some(range_expansion(a[0] as int, b[0] as int)),
                        },
                    )
                } else {
                    Result::Err(ErrorModel::InvalidRangeEndpoint(a, b))
                }
            },
            _ => Result::Err(ErrorModel::MalformedRange),
        }
    } else {
        Result::Err(ErrorModel::MalformedRange)
    }
}

/// One desugared node: a range node with children becomes its
/// expansion group, a childless node stays itself, and any other node
/// keeps its kind with its children desugared.
pub open spec fn spec_desugar_node(n: NodeModel) -> Result<NodeModel, ErrorModel>
    decreases n, 1int,
    via spec_desugar_node_dec
{
    match n.content {
        Option::None => Result::Ok(n),
        Option::Some(children) => {
            if n.of_type is Range {
                spec_split_range(children)
            } else {
                match spec_desugar_nodes(children) {
                    Result::Ok(ds) => Result::Ok(
                        NodeModel { of_type: n.of_type, content: Option::Some(ds) },
                    ),
                    Result::Err(e) => Result::Err(e),
                }
            }
        },
    }
}

#[via_fn]
proof fn spec_desugar_node_dec(n: NodeModel) {
    match n.content {
        Option::Some(children) => {
            assert(decreases_to!(n => children));
        },
        Option::None => {},
    }
}

/// Node-by-node desugaring of a sequence; the first failure decides.
pub open spec fn spec_desugar_nodes(s: Seq<NodeModel>) -> Result<Seq<NodeModel>, ErrorModel>
    decreases s, 0int,
    via spec_desugar_nodes_dec
{
    if s.len() == 0 {
        Result::Ok(Seq::empty())
    } else {
        match spec_desugar_node(s[0]) {
            Result::Ok(d) => match spec_desugar_nodes(s.skip(1)) {
                Result::Ok(rest) => Result::Ok(seq![d] + rest),
                Result::Err(e) => Result::Err(e),
            },
            Result::Err(e) => Result::Err(e),
        }
    }
}

#[via_fn]
proof fn spec_desugar_nodes_dec(s: Seq<NodeModel>) {
    if s.len() != 0 {
        assert(decreases_to!(s => s[0]));
        assert(s.skip(1) == s.subrange(1, s.len() as int));
        assert(decreases_to!(s => s.subrange(1, s.len() as int)));
    }
}

/// Desugaring the concatenation of two sequences desugars the first,
/// then the second.
pub proof fn lemma_desugar_nodes_append(a: Seq<NodeModel>, b: Seq<NodeModel>)
    ensures
        spec_desugar_nodes(a + b) == (match spec_desugar_nodes(a) {
            Result::Ok(ns) => match spec_desugar_nodes(b) {
                Result::Ok(ms) => Result::<_, ErrorModel>::Ok(ns + ms),
                Result::Err(e) => Result::Err(e),
            },
            Result::Err(e) => Result::Err(e),
        }),
    decreases a.len(),
{
    if a.len() == 0 {
        assert(a + b =~= b);
        match spec_desugar_nodes(b) {
            Result::Ok(ms) => {
                assert(Seq::<NodeModel>::empty() + ms =~= ms);
            },
            Result::Err(e) => {},
        }
    } else {
        lemma_desugar_nodes_append(a.skip(1), b);
        assert((a + b)[0] == a[0]);
        assert((a + b).skip(1) =~= a.skip(1) + b);
        match spec_desugar_node(a[0]) {
            Result::Ok(d) => match spec_desugar_nodes(a.skip(1)) {
                Result::Ok(r1) => match spec_desugar_nodes(b) {
                    Result::Ok(r2) => {
                        assert((seq![d] + r1) + r2 =~= seq![d] + (r1 + r2));
                    },
                    Result::Err(_) => {},
                },
                Result::Err(_) => {},
            },
            Result::Err(_) => {},
        }
    }
}

/// A copy of one node kind whose model is unchanged.
fn copy_item(it: &LexItem) -> (r: LexItem)
    ensures
        r.deep_view() == it.deep_view(),
{
    match it {
        LexItem::Text(s) => LexItem::Text(s.clone()),
        LexItem::OptionGroup => LexItem::OptionGroup,
        LexItem::Option => LexItem::Option,
        LexItem::Range => LexItem::Range,
    }
}

/// Expands the children of one range node into the equivalent group
/// of single-character alternatives.
#[verifier::loop_isolation(false)]
fn split_range(children: &Vec<LexNode>) -> (r: Result<LexNode, SyntaxError>)
    ensures
        node_result_view(r) == spec_split_range(children.deep_view()),
{
    let ghost cm = children.deep_view();
    if children.len() != 2 {
        return Err(SyntaxError::MalformedRange);
    }
    proof {
        assert(cm[0] == children@[0].deep_view());
        assert(cm[1] == children@[1].deep_view());
    }
    let c0 = &children[0];
    let c1 = &children[1];
    match (&c0.of_type, &c0.content, &c1.of_type, &c1.content) {
        (LexItem::Text(a), Option::None, LexItem::Text(b), Option::None) => {
            if a.as_str().unicode_len() == 1 && b.as_str().unicode_len() == 1 {
                let start = a.as_str().get_char(0);
                let end = b.as_str().get_char(0);
                let start_code = start as u32;
                let end_code = end as u32;
                proof {
                    vstd::utf8::char_is_scalar(start);
                    vstd::utf8::char_is_scalar(end);
                    assert(start == a@[0]);
                    assert(end == b@[0]);
                }
                let mut options: Vec<LexNode> = Vec::new();
                let mut u: u32 = start_code;
                proof {
                    assert(range_expansion(start_code as int, start_code as int - 1)
                        =~= Seq::<NodeModel>::empty());
                    assert(options.deep_view() =~= Seq::<NodeModel>::empty());
                }
                while u <= end_code
                    invariant
                        start_code <= u,
                        u <= end_code + 1 || u == start_code,
                        options.deep_view() == range_expansion(start_code as int, u as int - 1),
                    decreases end_code + 1 - u,
                {
                    match char::from_u32(u) {
                        Option::Some(c) => {
                            let text = char_to_string(c);
                            let mut inner: Vec<LexNode> = Vec::new();
                            let leaf = LexNode { of_type: LexItem::Text(text), content: None };
                            let ghost leaf_g = leaf;
                            inner.push(leaf);
                            let ghost inner_g = inner;
                            let opt = LexNode {
                                of_type: LexItem::Option,
                                content: Some(inner),
                            };
                            let ghost opt_g = opt;
                            let ghost opts_before = options;
                            options.push(opt);
                            proof {
                                reveal_with_fuel(nodes_model, 2);
                                assert(inner_g@ =~= seq![leaf_g]);
                                assert(inner_g@.skip(1) =~= Seq::<LexNode>::empty());
                                assert(node_model(leaf_g) == text_leaf(seq![c]));
                                assert(nodes_model(inner_g@) =~= seq![text_leaf(seq![c])]);
                                assert(opt_g.deep_view() =~= option_node(
                                    seq![text_leaf(seq![c])],
                                ));
                                assert(c == (u as int as u32) as char);
                                assert(code_option(u as int) =~= seq![opt_g.deep_view()]);
                                crate::views::lemma_deep_view_push(opts_before, options, opt_g);
                                lemma_range_expansion_snoc(start_code as int, u as int);
                                assert(options.deep_view() =~= range_expansion(
                                    start_code as int,
                                    u as int,
                                ));
                            }
                        },
                        Option::None => {
                            proof {
                                assert(code_option(u as int) =~= Seq::<NodeModel>::empty());
                                lemma_range_expansion_snoc(start_code as int, u as int);
                                assert(options.deep_view() =~= range_expansion(
                                    start_code as int,
                                    u as int,
                                ));
                            }
                        },
                    }
                    u = u + 1;
                }
                proof {
                    if start_code > end_code {
                        assert(range_expansion(start_code as int, end_code as int)
                            =~= Seq::<NodeModel>::empty());
                        assert(options.deep_view() =~= range_expansion(
                            start_code as int,
                            end_code as int,
                        ));
                    }
                }
                let ghost opts_g = options;
                let node = LexNode { of_type: LexItem::OptionGroup, content: Some(options) };
                proof {
                    lemma_nodes_model(opts_g@);
                    assert(node.deep_view() =~= NodeModel {
                        of_type: ItemModel::OptionGroup,
                        content: Option::Some(
                            range_expansion(start_code as int, end_code as int),
                        ),
                    });
                    assert(a@[0] as int == start_code as int);
                    assert(b@[0] as int == end_code as int);
                }
                Ok(node)
            } else {
                Err(SyntaxError::InvalidRangeEndpoint(a.clone(), b.clone()))
            }
        },
        _ => Err(SyntaxError::MalformedRange),
    }
}

/// Desugars a node sequence, node by node: range nodes become their
/// expansion groups, everything else keeps its shape with desugared
/// children. Fails only on a range node whose children are not two
/// childless single-character texts, which the builder never
/// produces.
#[verifier::loop_isolation(false)]
pub fn desugar(vec: &Vec<LexNode>) -> (r: Result<Vec<LexNode>, SyntaxError>)
    ensures
        lex_result_view(r) == spec_desugar_nodes(vec.deep_view()),
    decreases vec@,
{
    let ghost vm = vec.deep_view();
    let mut result: Vec<LexNode> = Vec::new();
    let mut k: usize = 0;
    proof {
        assert(vm.take(0) =~= Seq::<NodeModel>::empty());
        assert(result.deep_view() =~= Seq::<NodeModel>::empty());
    }
    while k < vec.len()
        invariant
            k <= vec@.len(),
            spec_desugar_nodes(vm.take(k as int)) == Result::<Seq<NodeModel>, ErrorModel>::Ok(
                result.deep_view(),
            ),
        decreases vec@.len() - k,
    {
        let node = &vec[k];
        proof {
            assert(vm[k as int] == vec@[k as int].deep_view());
            assert(vm.take(k as int) + vm.skip(k as int) =~= vm);
            assert(vm.skip(k as int)[0] == vm[k as int]);
        }
        let local: LexNode = match (&node.of_type, &node.content) {
            (LexItem::Range, Option::Some(children)) => {
                proof {
                    lemma_nodes_model(children@);
                }
                match split_range(children) {
                    Result::Ok(nd) => nd,
                    Result::Err(e) => {
                        proof {
                            lemma_desugar_nodes_append(vm.take(k as int), vm.skip(k as int));
                        }
                        return Err(e);
                    },
                }
            },
            (_, Option::None) => LexNode { of_type: copy_item(&node.of_type), content: None },
            (_, Option::Some(children)) => {
                proof {
                    assert(decreases_to!(vec@ => vec@[k as int]));
                    assert(decreases_to!(vec@[k as int] => *children));
                    assert(decreases_to!(*children => children@));
                    lemma_nodes_model(children@);
                }
                match desugar(children) {
                    Result::Ok(ds) => {
                        let ghost ds_g = ds;
                        let inner = LexNode {
                            of_type: copy_item(&node.of_type),
                            content: Some(ds),
                        };
                        proof {
                            lemma_nodes_model(ds_g@);
                        }
                        inner
                    },
                    Result::Err(e) => {
                        proof {
                            lemma_desugar_nodes_append(vm.take(k as int), vm.skip(k as int));
                        }
                        return Err(e);
                    },
                }
            },
        };
        let ghost local_g = local;
        let ghost res_before = result;
        result.push(local);
        proof {
            crate::views::lemma_deep_view_push(res_before, result, local_g);
            assert(spec_desugar_node(vm[k as int]) == Result::<NodeModel, ErrorModel>::Ok(
                local_g.deep_view(),
            ));
            lemma_desugar_nodes_append(vm.take(k as int), seq![vm[k as int]]);
            reveal_with_fuel(spec_desugar_nodes, 2);
            assert(vm.take(k as int) + seq![vm[k as int]] =~= vm.take(k as int + 1));
            assert(seq![vm[k as int]].skip(1) =~= Seq::<NodeModel>::empty());
            assert(seq![local_g.deep_view()] + Seq::<NodeModel>::empty() =~= seq![
                local_g.deep_view(),
            ]);
            assert(res_before.deep_view() + seq![local_g.deep_view()] =~= result.deep_view());
            assert(spec_desugar_nodes(vm.take(k as int + 1)) == Result::<
                Seq<NodeModel>,
                ErrorModel,
            >::Ok(result.deep_view()));
        }
        k = k + 1;
    }
    proof {
        assert(vm.take(vec@.len() as int) =~= vm);
    }
    Ok(result)
}

} // verus!
