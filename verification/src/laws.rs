//! Laws of the pipeline, stated and proved over the specification
//! functions of the three stages.

use vstd::prelude::*;
use vstd::utf8::is_scalar;

use crate::desugarer::code_option;
use crate::desugarer::range_expansion;
use crate::desugarer::spec_desugar_node;
use crate::desugarer::spec_desugar_nodes;
use crate::lexer::first_cut_at;
use crate::lexer::option_node;
use crate::lexer::range_node;
use crate::lexer::spec_lex;
use crate::lexer::spec_lex_part;
use crate::lexer::spec_lex_terms;
use crate::lexer::text_leaf;
use crate::lexer::ErrorModel;
use crate::lexer::ItemModel;
use crate::lexer::NodeModel;
use crate::tokenizer::is_delimiter;
use crate::tokenizer::delimiter_tokens;
use crate::tokenizer::flushed;
use crate::tokenizer::scan_from;
use crate::tokenizer::spec_tokenize;
use crate::tokenizer::TokenModel;

verus! {

/// Scanning the empty input yields no tokens, and compiling no tokens
/// yields no nodes.
pub proof fn lemma_empty_input()
    ensures
        spec_tokenize(Seq::empty()) == Seq::<TokenModel>::empty(),
        spec_lex(Seq::empty()) == Result::<Seq<NodeModel>, ErrorModel>::Ok(Seq::empty()),
{
    assert(spec_tokenize(Seq::empty()) =~= Seq::<TokenModel>::empty());
}

/// A single non-delimiter character scans to one text token and
/// compiles to exactly one childless text node.
pub proof fn lemma_single_character(c: char)
    requires
        !is_delimiter(c),
    ensures
        spec_tokenize(seq![c]) == seq![TokenModel::Text(seq![c])],
        spec_lex(spec_tokenize(seq![c])) == Result::<Seq<NodeModel>, ErrorModel>::Ok(
            seq![text_leaf(seq![c])],
        ),
{
    let s = seq![c];
    assert(s.skip(1) =~= Seq::<char>::empty());
    assert(Seq::<char>::empty().push(c) =~= seq![c]);
    assert(scan_from(Seq::<char>::empty(), seq![c]) == seq![TokenModel::Text(seq![c])]);
    assert(spec_tokenize(s) == seq![TokenModel::Text(seq![c])]);
    let ts = seq![TokenModel::Text(seq![c])];
    assert(ts.skip(1) =~= Seq::<TokenModel>::empty());
    assert(first_cut_at(ts.skip(1), TokenModel::Plus, 0) == -1);
    assert(first_cut_at(ts, TokenModel::Plus, 0) == -1);
    assert(spec_lex_part(ts) == Result::<NodeModel, ErrorModel>::Ok(text_leaf(seq![c])));
    assert(spec_lex_terms(ts) == Result::<Seq<NodeModel>, ErrorModel>::Ok(
        seq![text_leaf(seq![c])],
    ));
}

/// Scanning `{a-b}` for non-delimiter characters `a` and `b` yields
/// exactly the five range tokens.
pub proof fn lemma_tokenize_range_literal(a: char, b: char)
    requires
        !is_delimiter(a),
        !is_delimiter(b),
    ensures
        spec_tokenize(seq!['{', a, '-', b, '}']) == seq![
            TokenModel::OptionStart,
            TokenModel::Text(seq![a]),
            TokenModel::RangeSeparator,
            TokenModel::Text(seq![b]),
            TokenModel::OptionEnd,
        ],
{
    let s0 = seq!['{', a, '-', b, '}'];
    let s1 = seq![a, '-', b, '}'];
    let s2 = seq!['-', b, '}'];
    let s3 = seq![b, '}'];
    let s4 = seq!['}'];
    let e = Seq::<char>::empty();
    assert(s0.skip(1) =~= s1);
    assert(s1.skip(1) =~= s2);
    assert(s2.skip(1) =~= s3);
    assert(s3.skip(1) =~= s4);
    assert(s4.skip(1) =~= e);
    assert(e.push(a) =~= seq![a]);
    assert(e.push(b) =~= seq![b]);
    assert(scan_from(e, e) =~= Seq::<TokenModel>::empty());
    assert(scan_from(s4, seq![b]) =~= seq![TokenModel::Text(seq![b]), TokenModel::OptionEnd]);
    assert(scan_from(s3, e) =~= seq![TokenModel::Text(seq![b]), TokenModel::OptionEnd]);
    assert(scan_from(s2, seq![a]) =~= seq![
        TokenModel::Text(seq![a]),
        TokenModel::RangeSeparator,
        TokenModel::Text(seq![b]),
        TokenModel::OptionEnd,
    ]);
    assert(scan_from(s1, e) =~= seq![
        TokenModel::Text(seq![a]),
        TokenModel::RangeSeparator,
        TokenModel::Text(seq![b]),
        TokenModel::OptionEnd,
    ]);
    assert(scan_from(s0, e) =~= seq![
        TokenModel::OptionStart,
        TokenModel::Text(seq![a]),
        TokenModel::RangeSeparator,
        TokenModel::Text(seq![b]),
        TokenModel::OptionEnd,
    ]);
}

/// The five range tokens compile to exactly one range node.
pub proof fn lemma_lex_range_tokens(a: char, b: char)
    ensures
        spec_lex(
            seq![
                TokenModel::OptionStart,
                TokenModel::Text(seq![a]),
                TokenModel::RangeSeparator,
                TokenModel::Text(seq![b]),
                TokenModel::OptionEnd,
            ],
        ) == Result::<Seq<NodeModel>, ErrorModel>::Ok(seq![range_node(seq![a], seq![b])]),
{
    let ts = seq![
        TokenModel::OptionStart,
        TokenModel::Text(seq![a]),
        TokenModel::RangeSeparator,
        TokenModel::Text(seq![b]),
        TokenModel::OptionEnd,
    ];
    let t1 = seq![
        TokenModel::Text(seq![a]),
        TokenModel::RangeSeparator,
        TokenModel::Text(seq![b]),
        TokenModel::OptionEnd,
    ];
    let t2 = seq![TokenModel::RangeSeparator, TokenModel::Text(seq![b]), TokenModel::OptionEnd];
    let t3 = seq![TokenModel::Text(seq![b]), TokenModel::OptionEnd];
    let t4 = seq![TokenModel::OptionEnd];
    let e = Seq::<TokenModel>::empty();
    assert(ts.skip(1) =~= t1);
    assert(t1.skip(1) =~= t2);
    assert(t2.skip(1) =~= t3);
    assert(t3.skip(1) =~= t4);
    assert(t4.skip(1) =~= e);

    // No `+` stands at depth 0, so the whole input is one term.
    assert(first_cut_at(e, TokenModel::Plus, 0) == -1);
    assert(first_cut_at(t4, TokenModel::Plus, 1) == -1);
    assert(first_cut_at(t3, TokenModel::Plus, 1) == -1);
    assert(first_cut_at(t2, TokenModel::Plus, 1) == -1);
    assert(first_cut_at(t1, TokenModel::Plus, 1) == -1);
    assert(first_cut_at(ts, TokenModel::Plus, 0) == -1);

    // The balanced closing brace is the final token.
    assert(first_cut_at(t4, TokenModel::OptionEnd, 0) == 0);
    assert(first_cut_at(t3, TokenModel::OptionEnd, 0) == 1);
    assert(first_cut_at(t2, TokenModel::OptionEnd, 0) == 2);
    assert(first_cut_at(t1, TokenModel::OptionEnd, 0) == 3);

    // The interior is the single comma-free range alternative.
    let interior = ts.subrange(1, 4);
    assert(interior =~= seq![
        TokenModel::Text(seq![a]),
        TokenModel::RangeSeparator,
        TokenModel::Text(seq![b]),
    ]);
    let i2 = seq![TokenModel::RangeSeparator, TokenModel::Text(seq![b])];
    let i3 = seq![TokenModel::Text(seq![b])];
    assert(interior.skip(1) =~= i2);
    assert(i2.skip(1) =~= i3);
    assert(i3.skip(1) =~= e);
    assert(first_cut_at(e, TokenModel::Comma, 0) == -1);
    assert(first_cut_at(i3, TokenModel::Comma, 0) == -1);
    assert(first_cut_at(i2, TokenModel::Comma, 0) == -1);
    assert(first_cut_at(interior, TokenModel::Comma, 0) == -1);

    assert(interior[0] == TokenModel::Text(seq![a]));
    assert(interior[1] == TokenModel::RangeSeparator);
    assert(interior[2] == TokenModel::Text(seq![b]));
    assert(seq![a].len() == 1 && seq![b].len() == 1);
    assert(crate::lexer::spec_try_range(interior) == Result::<
        Option<NodeModel>,
        ErrorModel,
    >::Ok(Option::Some(range_node(seq![a], seq![b]))));
    assert(crate::lexer::spec_lex_group(interior) == Result::<NodeModel, ErrorModel>::Ok(
        range_node(seq![a], seq![b]),
    ));
    assert(first_cut_at(ts.skip(1), TokenModel::OptionEnd, 0) == 3);
    assert(ts.subrange(1int, 4int) == interior);
    assert(spec_lex_part(ts) == Result::<NodeModel, ErrorModel>::Ok(
        range_node(seq![a], seq![b]),
    ));
    assert(spec_lex_terms(ts) == Result::<Seq<NodeModel>, ErrorModel>::Ok(
        seq![range_node(seq![a], seq![b])],
    ));
}

/// The expansion of a range whose codes are all Unicode scalar values
/// has one single-character alternative per code, in code order.
pub proof fn lemma_range_expansion_full(lo: int, hi: int)
    requires
        0 <= lo,
        hi <= 0x10FFFF,
        forall|u: int| lo <= u <= hi ==> is_scalar(#[trigger] (u as u32)),
    ensures
        range_expansion(lo, hi).len() == if lo <= hi {
            hi - lo + 1
        } else {
            0
        },
        forall|i: int|
            0 <= i < range_expansion(lo, hi).len() ==> range_expansion(lo, hi)[i] == option_node(
                seq![text_leaf(seq![(((lo + i) as u32) as char)])],
            ),
    decreases hi + 1 - lo,
{
    if lo <= hi {
        lemma_range_expansion_full(lo + 1, hi);
        assert(is_scalar(lo as u32));
        assert(code_option(lo) == seq![option_node(seq![text_leaf(seq![((lo as u32) as char)])])]);
        assert forall|i: int| 0 <= i < range_expansion(lo, hi).len() implies range_expansion(
            lo,
            hi,
        )[i] == option_node(seq![text_leaf(seq![(((lo + i) as u32) as char)])]) by {
            if i > 0 {
                assert(range_expansion(lo, hi)[i] == range_expansion(lo + 1, hi)[i - 1]);
            }
        }
    }
}

/// Round trip of a well-formed range: for non-delimiter characters
/// `a` and `b` with `a` at most `b` and no non-scalar code between
/// them, scanning and compiling `{a-b}` yields one range node, and
/// desugaring that node yields one group with exactly
/// `code(b) - code(a) + 1` alternatives, each one single-character
/// text.
pub proof fn lemma_range_round_trip(a: char, b: char)
    requires
        !is_delimiter(a),
        !is_delimiter(b),
        a as u32 <= b as u32,
        forall|u: int| a as int <= u <= b as int ==> is_scalar(#[trigger] (u as u32)),
    ensures
        spec_lex(spec_tokenize(seq!['{', a, '-', b, '}'])) == Result::<
            Seq<NodeModel>,
            ErrorModel,
        >::Ok(seq![range_node(seq![a], seq![b])]),
        spec_desugar_nodes(seq![range_node(seq![a], seq![b])]) == Result::<
            Seq<NodeModel>,
            ErrorModel,
        >::Ok(
            seq![
                NodeModel {
                    of_type: ItemModel::OptionGroup,
                    content: Option::Some(range_expansion(a as int, b as int)),
                },
            ],
        ),
        range_expansion(a as int, b as int).len() == b as int - a as int + 1,
        forall|i: int|
            0 <= i < range_expansion(a as int, b as int).len() ==> range_expansion(
                a as int,
                b as int,
            )[i] == option_node(seq![text_leaf(seq![(((a as int + i) as u32) as char)])]),
{
    lemma_tokenize_range_literal(a, b);
    lemma_lex_range_tokens(a, b);
    vstd::utf8::char_is_scalar(a);
    vstd::utf8::char_is_scalar(b);
    lemma_range_expansion_full(a as int, b as int);
    let rn = range_node(seq![a], seq![b]);
    let expanded = NodeModel {
        of_type: ItemModel::OptionGroup,
        content: Option::Some(range_expansion(a as int, b as int)),
    };
    let ch = seq![text_leaf(seq![a]), text_leaf(seq![b])];
    assert(rn.content == Option::Some(ch));
    assert(ch[0] == text_leaf(seq![a]));
    assert(ch[1] == text_leaf(seq![b]));
    assert(seq![a].len() == 1 && seq![a][0] == a);
    assert(seq![b].len() == 1 && seq![b][0] == b);
    assert(crate::desugarer::spec_split_range(ch) == Result::<NodeModel, ErrorModel>::Ok(
        expanded,
    ));
    assert(crate::desugarer::spec_desugar_node(rn) == Result::<NodeModel, ErrorModel>::Ok(
        expanded,
    ));
    assert(seq![rn].skip(1) =~= Seq::<NodeModel>::empty());
    assert(spec_desugar_nodes(Seq::<NodeModel>::empty()) == Result::<
        Seq<NodeModel>,
        ErrorModel,
    >::Ok(Seq::empty()));
    assert(seq![expanded] + Seq::<NodeModel>::empty() =~= seq![expanded]);
}

/// The surface form of one token: the character it was scanned from,
/// or the characters of a text run.
pub open spec fn token_surface(t: TokenModel) -> Seq<char> {
    match t {
        TokenModel::OptionStart => seq!['{'],
        TokenModel::OptionEnd => seq!['}'],
        TokenModel::Plus => seq!['+'],
        TokenModel::Comma => seq![','],
        TokenModel::RangeSeparator => seq!['-'],
        TokenModel::Text(v) => v,
    }
}

/// The surface forms of a token sequence, concatenated in order.
pub open spec fn tokens_surface(ts: Seq<TokenModel>) -> Seq<char>
    decreases ts.len(),
{
    if ts.len() == 0 {
        Seq::empty()
    } else {
        token_surface(ts[0]) + tokens_surface(ts.skip(1))
    }
}

/// `s` with every space removed.
pub open spec fn without_spaces(s: Seq<char>) -> Seq<char>
    decreases s.len(),
{
    if s.len() == 0 {
        Seq::empty()
    } else if s[0] == ' ' {
        without_spaces(s.skip(1))
    } else {
        seq![s[0]] + without_spaces(s.skip(1))
    }
}

proof fn lemma_tokens_surface_concat(a: Seq<TokenModel>, b: Seq<TokenModel>)
    ensures
        tokens_surface(a + b) == tokens_surface(a) + tokens_surface(b),
    decreases a.len(),
{
    if a.len() == 0 {
        assert(a + b =~= b);
        assert(Seq::<char>::empty() + tokens_surface(b) =~= tokens_surface(b));
    } else {
        lemma_tokens_surface_concat(a.skip(1), b);
        assert((a + b)[0] == a[0]);
        assert((a + b).skip(1) =~= a.skip(1) + b);
        assert(token_surface(a[0]) + (tokens_surface(a.skip(1)) + tokens_surface(b))
            =~= (token_surface(a[0]) + tokens_surface(a.skip(1))) + tokens_surface(b));
    }
}

proof fn lemma_scan_from_surface(s: Seq<char>, acc: Seq<char>)
    ensures
        tokens_surface(scan_from(s, acc)) == acc + without_spaces(s),
    decreases s.len(),
{
    reveal_with_fuel(tokens_surface, 3);
    assert(tokens_surface(Seq::<TokenModel>::empty()) =~= Seq::<char>::empty());
    if s.len() == 0 {
        if acc.len() == 0 {
            assert(tokens_surface(flushed(acc)) =~= acc + without_spaces(s));
        } else {
            assert(seq![TokenModel::Text(acc)].skip(1) =~= Seq::<TokenModel>::empty());
            assert(tokens_surface(seq![TokenModel::Text(acc)]) =~= acc + without_spaces(s));
        }
    } else if is_delimiter(s[0]) {
        lemma_scan_from_surface(s.skip(1), Seq::empty());
        lemma_tokens_surface_concat(flushed(acc), delimiter_tokens(s[0]));
        lemma_tokens_surface_concat(
            flushed(acc) + delimiter_tokens(s[0]),
            scan_from(s.skip(1), Seq::empty()),
        );
        assert(tokens_surface(flushed(acc)) =~= acc) by {
            if acc.len() != 0 {
                assert(seq![TokenModel::Text(acc)].skip(1) =~= Seq::<TokenModel>::empty());
            }
        }
        if s[0] == ' ' {
            assert(tokens_surface(delimiter_tokens(s[0])) =~= Seq::<char>::empty());
        } else {
            assert(delimiter_tokens(s[0]).skip(1) =~= Seq::<TokenModel>::empty());
            assert(tokens_surface(delimiter_tokens(s[0])) =~= seq![s[0]]);
        }
        assert(tokens_surface(scan_from(s, acc)) =~= acc + without_spaces(s));
    } else {
        lemma_scan_from_surface(s.skip(1), acc.push(s[0]));
        assert(acc.push(s[0]) + without_spaces(s.skip(1)) =~= acc + (seq![s[0]]
            + without_spaces(s.skip(1))));
    }
}

/// The scanner loses nothing but spaces: concatenating the surface
/// forms of the tokens, in order, restores the input with every space
/// removed.
pub proof fn lemma_tokenize_surface_round_trip(s: Seq<char>)
    ensures
        tokens_surface(spec_tokenize(s)) == without_spaces(s),
{
    lemma_scan_from_surface(s, Seq::empty());
    assert(Seq::<char>::empty() + without_spaces(s) =~= without_spaces(s));
}

/// No range node stands anywhere in the tree.
pub open spec fn node_range_free(n: NodeModel) -> bool
    decreases n, 1int,
    via node_range_free_dec
{
    &&& !(n.of_type is Range)
    &&& match n.content {
        Option::Some(children) => nodes_range_free(children),
        Option::None => true,
    }
}

#[via_fn]
proof fn node_range_free_dec(n: NodeModel) {
    match n.content {
        Option::Some(children) => {
            assert(decreases_to!(n => children));
        },
        Option::None => {},
    }
}

/// No range node stands anywhere in any tree of the sequence.
pub open spec fn nodes_range_free(s: Seq<NodeModel>) -> bool
    decreases s, 0int,
    via nodes_range_free_dec
{
    s.len() == 0 || (node_range_free(s[0]) && nodes_range_free(s.skip(1)))
}

#[via_fn]
proof fn nodes_range_free_dec(s: Seq<NodeModel>) {
    if s.len() != 0 {
        assert(decreases_to!(s => s[0]));
        assert(s.skip(1) == s.subrange(1, s.len() as int));
        assert(decreases_to!(s => s.subrange(1, s.len() as int)));
    }
}

/// Every range node in the tree holds exactly two childless
/// single-character texts — the shape the builder guarantees.
pub open spec fn node_ranges_wf(n: NodeModel) -> bool
    decreases n, 1int,
    via node_ranges_wf_dec
{
    if n.of_type is Range {
        &&& n.content matches Option::Some(ch)
        &&& ch.len() == 2
        &&& ch[0].content is None
        &&& ch[1].content is None
        &&& ch[0].of_type matches ItemModel::Text(x) && x.len() == 1
        &&& ch[1].of_type matches ItemModel::Text(y) && y.len() == 1
    } else {
        match n.content {
            Option::Some(children) => nodes_ranges_wf(children),
            Option::None => true,
        }
    }
}

#[via_fn]
proof fn node_ranges_wf_dec(n: NodeModel) {
    match n.content {
        Option::Some(children) => {
            assert(decreases_to!(n => children));
        },
        Option::None => {},
    }
}

/// Every range node in every tree of the sequence is well-formed.
pub open spec fn nodes_ranges_wf(s: Seq<NodeModel>) -> bool
    decreases s, 0int,
    via nodes_ranges_wf_dec
{
    s.len() == 0 || (node_ranges_wf(s[0]) && nodes_ranges_wf(s.skip(1)))
}

#[via_fn]
proof fn nodes_ranges_wf_dec(s: Seq<NodeModel>) {
    if s.len() != 0 {
        assert(decreases_to!(s => s[0]));
        assert(s.skip(1) == s.subrange(1, s.len() as int));
        assert(decreases_to!(s => s.subrange(1, s.len() as int)));
    }
}

proof fn lemma_ranges_wf_cons(n: NodeModel, rest: Seq<NodeModel>)
    ensures
        nodes_ranges_wf(seq![n] + rest) == (node_ranges_wf(n) && nodes_ranges_wf(rest)),
{
    assert((seq![n] + rest)[0] == n);
    assert((seq![n] + rest).skip(1) =~= rest);
}

proof fn lemma_range_free_cons(n: NodeModel, rest: Seq<NodeModel>)
    ensures
        nodes_range_free(seq![n] + rest) == (node_range_free(n) && nodes_range_free(rest)),
{
    assert((seq![n] + rest)[0] == n);
    assert((seq![n] + rest).skip(1) =~= rest);
}

proof fn lemma_lex_part_wf(p: Seq<TokenModel>)
    ensures
        spec_lex_part(p) matches Result::Ok(n) ==> node_ranges_wf(n),
    decreases p.len(), 1int,
{
    if p.len() != 0 {
        match p[0] {
            TokenModel::Text(sx) => {
                if p.len() > 1 {
                    lemma_lex_part_wf(p.skip(1));
                    match spec_lex_part(p.skip(1)) {
                        Result::Ok(next) => {
                            assert(seq![next].skip(1) =~= Seq::<NodeModel>::empty());
                            assert(nodes_ranges_wf(Seq::<NodeModel>::empty()));
                            assert(nodes_ranges_wf(seq![next]));
                        },
                        Result::Err(_) => {},
                    }
                }
            },
            TokenModel::OptionStart => {
                crate::lexer::lemma_first_cut_at_bounds(p.skip(1), TokenModel::OptionEnd, 0);
                let j = first_cut_at(p.skip(1), TokenModel::OptionEnd, 0);
                if j >= 0 && !(j + 2 < p.len()) {
                    lemma_lex_group_wf(p.subrange(1, j + 1));
                }
            },
            _ => {},
        }
    }
}

proof fn lemma_lex_group_wf(g: Seq<TokenModel>)
    ensures
        crate::lexer::spec_lex_group(g) matches Result::Ok(n) ==> node_ranges_wf(n),
    decreases g.len(), 4int,
{
    lemma_lex_options_wf(g);
    if g.len() == 3 {
        match (g[0], g[1], g[2]) {
            (TokenModel::Text(a), TokenModel::RangeSeparator, TokenModel::Text(b)) => {
                if a.len() == 1 && b.len() == 1 {
                    let ch = seq![text_leaf(a), text_leaf(b)];
                    assert(ch[0] == text_leaf(a));
                    assert(ch[1] == text_leaf(b));
                    assert(node_ranges_wf(range_node(a, b)));
                }
            },
            _ => {},
        }
    }
    match crate::lexer::spec_lex_options(g) {
        Result::Ok(opts) => {
            assert(node_ranges_wf(
                NodeModel { of_type: ItemModel::OptionGroup, content: Option::Some(opts) },
            ));
        },
        Result::Err(_) => {},
    }
}

proof fn lemma_lex_options_wf(g: Seq<TokenModel>)
    ensures
        crate::lexer::spec_lex_options(g) matches Result::Ok(opts) ==> nodes_ranges_wf(opts),
    decreases g.len(), 3int,
{
    crate::lexer::lemma_first_cut_at_bounds(g, TokenModel::Comma, 0);
    let i = first_cut_at(g, TokenModel::Comma, 0);
    if i < 0 {
        lemma_lex_terms_wf(g);
        match spec_lex_terms(g) {
            Result::Ok(ns) => {
                assert(node_ranges_wf(option_node(ns)));
                assert(seq![option_node(ns)].skip(1) =~= Seq::<NodeModel>::empty());
                assert(nodes_ranges_wf(Seq::<NodeModel>::empty()));
                assert(nodes_ranges_wf(seq![option_node(ns)]));
            },
            Result::Err(_) => {},
        }
    } else {
        lemma_lex_terms_wf(g.take(i));
        lemma_lex_options_wf(g.skip(i + 1));
        match (spec_lex_terms(g.take(i)), crate::lexer::spec_lex_options(g.skip(i + 1))) {
            (Result::Ok(ns), Result::Ok(rest)) => {
                assert(node_ranges_wf(option_node(ns)));
                lemma_ranges_wf_cons(option_node(ns), rest);
            },
            _ => {},
        }
    }
}

proof fn lemma_lex_terms_wf(ts: Seq<TokenModel>)
    ensures
        spec_lex_terms(ts) matches Result::Ok(ns) ==> nodes_ranges_wf(ns),
    decreases ts.len(), 2int,
{
    crate::lexer::lemma_first_cut_at_bounds(ts, TokenModel::Plus, 0);
    let i = first_cut_at(ts, TokenModel::Plus, 0);
    if i < 0 {
        lemma_lex_part_wf(ts);
        match spec_lex_part(ts) {
            Result::Ok(n) => {
                assert(seq![n].skip(1) =~= Seq::<NodeModel>::empty());
                assert(nodes_ranges_wf(Seq::<NodeModel>::empty()));
                assert(nodes_ranges_wf(seq![n]));
            },
            Result::Err(_) => {},
        }
    } else {
        lemma_lex_part_wf(ts.take(i));
        lemma_lex_terms_wf(ts.skip(i + 1));
        match (spec_lex_part(ts.take(i)), spec_lex_terms(ts.skip(i + 1))) {
            (Result::Ok(n), Result::Ok(rest)) => {
                lemma_ranges_wf_cons(n, rest);
            },
            _ => {},
        }
    }
}

/// Every tree that the builder produces has well-formed ranges.
pub proof fn lemma_lex_output_wf(ts: Seq<TokenModel>)
    ensures
        spec_lex(ts) matches Result::Ok(ns) ==> nodes_ranges_wf(ns),
{
    if ts.len() == 0 {
        assert(nodes_ranges_wf(Seq::<NodeModel>::empty()));
    } else {
        lemma_lex_terms_wf(ts);
    }
}

proof fn lemma_range_expansion_range_free(lo: int, hi: int)
    ensures
        nodes_range_free(range_expansion(lo, hi)),
    decreases hi + 1 - lo,
{
    if lo > hi {
        assert(nodes_range_free(Seq::<NodeModel>::empty()));
    } else {
        lemma_range_expansion_range_free(lo + 1, hi);
        if 0 <= lo <= 0x10FFFF && is_scalar(lo as u32) {
            let opt = option_node(seq![text_leaf(seq![((lo as u32) as char)])]);
            assert(seq![text_leaf(seq![((lo as u32) as char)])].skip(1)
                =~= Seq::<NodeModel>::empty());
            assert(nodes_range_free(Seq::<NodeModel>::empty()));
            assert(node_range_free(text_leaf(seq![((lo as u32) as char)])));
            assert(nodes_range_free(seq![text_leaf(seq![((lo as u32) as char)])]));
            assert(node_range_free(opt));
            lemma_range_free_cons(opt, range_expansion(lo + 1, hi));
            assert(code_option(lo) + range_expansion(lo + 1, hi) =~= seq![opt] + range_expansion(
                lo + 1,
                hi,
            ));
        } else {
            assert(code_option(lo) + range_expansion(lo + 1, hi) =~= range_expansion(
                lo + 1,
                hi,
            ));
        }
    }
}

proof fn lemma_desugar_node_total(n: NodeModel)
    requires
        node_ranges_wf(n),
    ensures
        spec_desugar_node(n) matches Result::Ok(d) && node_range_free(d),
    decreases n, 1int,
{
    match n.content {
        Option::None => {
            assert(node_range_free(n));
        },
        Option::Some(children) => {
            assert(decreases_to!(n => children));
            if n.of_type is Range {
                match (children[0].of_type, children[1].of_type) {
                    (ItemModel::Text(a), ItemModel::Text(b)) => {
                        lemma_range_expansion_range_free(a[0] as int, b[0] as int);
                        assert(node_range_free(
                            NodeModel {
                                of_type: ItemModel::OptionGroup,
                                content: Option::Some(
                                    range_expansion(a[0] as int, b[0] as int),
                                ),
                            },
                        ));
                    },
                    _ => {
                        assert(false);
                    },
                }
            } else {
                lemma_desugar_nodes_total(children);
                match spec_desugar_nodes(children) {
                    Result::Ok(ds) => {
                        assert(node_range_free(
                            NodeModel { of_type: n.of_type, content: Option::Some(ds) },
                        ));
                    },
                    Result::Err(_) => {},
                }
            }
        },
    }
}

/// Desugaring cannot fail on a tree whose ranges are well-formed, and
/// its result holds no range node.
pub proof fn lemma_desugar_nodes_total(s: Seq<NodeModel>)
    requires
        nodes_ranges_wf(s),
    ensures
        spec_desugar_nodes(s) matches Result::Ok(ds) && nodes_range_free(ds),
    decreases s, 0int,
{
    if s.len() == 0 {
        assert(nodes_range_free(Seq::<NodeModel>::empty()));
    } else {
        assert(decreases_to!(s => s[0]));
        assert(s.skip(1) == s.subrange(1, s.len() as int));
        assert(decreases_to!(s => s.subrange(1, s.len() as int)));
        lemma_desugar_node_total(s[0]);
        lemma_desugar_nodes_total(s.skip(1));
        match (spec_desugar_node(s[0]), spec_desugar_nodes(s.skip(1))) {
            (Result::Ok(d), Result::Ok(rest)) => {
                lemma_range_free_cons(d, rest);
            },
            _ => {},
        }
    }
}

proof fn lemma_desugar_node_fixed(n: NodeModel)
    requires
        node_range_free(n),
    ensures
        spec_desugar_node(n) == Result::<NodeModel, ErrorModel>::Ok(n),
    decreases n, 1int,
{
    match n.content {
        Option::None => {},
        Option::Some(children) => {
            assert(decreases_to!(n => children));
            lemma_desugar_nodes_fixed(children);
            assert(NodeModel { of_type: n.of_type, content: Option::Some(children) } == n);
        },
    }
}

/// Desugaring a tree that already holds no range node returns it
/// unchanged; in particular, desugaring is idempotent.
pub proof fn lemma_desugar_nodes_fixed(s: Seq<NodeModel>)
    requires
        nodes_range_free(s),
    ensures
        spec_desugar_nodes(s) == Result::<Seq<NodeModel>, ErrorModel>::Ok(s),
    decreases s, 0int,
{
    if s.len() == 0 {
        assert(s =~= Seq::<NodeModel>::empty());
    } else {
        assert(decreases_to!(s => s[0]));
        assert(s.skip(1) == s.subrange(1, s.len() as int));
        assert(decreases_to!(s => s.subrange(1, s.len() as int)));
        lemma_desugar_node_fixed(s[0]);
        lemma_desugar_nodes_fixed(s.skip(1));
        assert(seq![s[0]] + s.skip(1) =~= s);
    }
}

/// The desugarer is total on builder output: whatever tree the
/// builder produced desugars without failure, the result holds no
/// range node, and desugaring it a second time returns it unchanged.
pub proof fn lemma_desugar_after_build(ts: Seq<TokenModel>, ns: Seq<NodeModel>)
    requires
        spec_lex(ts) == Result::<Seq<NodeModel>, ErrorModel>::Ok(ns),
    ensures
        spec_desugar_nodes(ns) matches Result::Ok(ds) && nodes_range_free(ds)
            && spec_desugar_nodes(ds) == Result::<Seq<NodeModel>, ErrorModel>::Ok(ds),
{
    lemma_lex_output_wf(ts);
    lemma_desugar_nodes_total(ns);
    match spec_desugar_nodes(ns) {
        Result::Ok(ds) => {
            lemma_desugar_nodes_fixed(ds);
        },
        Result::Err(_) => {},
    }
}

} // verus!
