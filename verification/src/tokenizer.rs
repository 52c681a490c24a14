//! Lexical scanner: raw string to flat token sequence.
//!
//! A single left-to-right pass. The delimiter characters `{`, `}`, `+`,
//! `,`, `-` and the space each end an in-progress text run; the run
//! (if non-empty) is flushed as a [`Token::Text`] before the delimiter's
//! own token (if any) is emitted. A space emits no token of its own.
//! Scanning never fails: every input string has a defined token sequence,
//! and the empty input yields the empty sequence.

use vstd::prelude::*;

verus! {

/// A lexical token of the shorthand language.
#[derive(Debug, Clone, PartialEq)]
pub enum Token {
    OptionStart,
    RangeSeparator,
    Comma,
    OptionEnd,
    Plus,
    Text(String),
}

/// Mathematical model of a [`Token`]: text is carried as a sequence of
/// characters.
#[verifier::ext_equal]
pub enum TokenModel {
    OptionStart,
    RangeSeparator,
    Comma,
    OptionEnd,
    Plus,
    Text(Seq<char>),
}

impl View for Token {
    type V = TokenModel;

    open spec fn view(&self) -> TokenModel {
        match self {
            Token::OptionStart => TokenModel::OptionStart,
            Token::RangeSeparator => TokenModel::RangeSeparator,
            Token::Comma => TokenModel::Comma,
            Token::OptionEnd => TokenModel::OptionEnd,
            Token::Plus => TokenModel::Plus,
            Token::Text(s) => TokenModel::Text(s@),
        }
    }
}

impl DeepView for Token {
    type V = TokenModel;

    open spec fn deep_view(&self) -> TokenModel {
        self.view()
    }
}

/// The characters that end a text run.
pub open spec fn is_delimiter(c: char) -> bool {
    c == '{' || c == '}' || c == '+' || c == ' ' || c == ',' || c == '-'
}

/// The tokens that a delimiter character itself contributes: one token
/// for every delimiter except the space, which only separates.
pub open spec fn delimiter_tokens(c: char) -> Seq<TokenModel>
    recommends
        is_delimiter(c),
{
    if c == '{' {
        seq![TokenModel::OptionStart]
    } else if c == '}' {
        seq![TokenModel::OptionEnd]
    } else if c == '+' {
        seq![TokenModel::Plus]
    } else if c == ',' {
        seq![TokenModel::Comma]
    } else if c == '-' {
        seq![TokenModel::RangeSeparator]
    } else {
        Seq::empty()
    }
}

/// The accumulated text run, flushed: nothing when the run is empty, one
/// text token otherwise.
pub open spec fn flushed(acc: Seq<char>) -> Seq<TokenModel> {
    if acc.len() == 0 {
        Seq::empty()
    } else {
        seq![TokenModel::Text(acc)]
    }
}

/// The tokens produced by scanning `s` with the text run `acc` already
/// accumulated.
pub open spec fn scan_from(s: Seq<char>, acc: Seq<char>) -> Seq<TokenModel>
    decreases s.len(),
{
    if s.len() == 0 {
        flushed(acc)
    } else if is_delimiter(s[0]) {
        flushed(acc) + delimiter_tokens(s[0]) + scan_from(s.skip(1), Seq::empty())
    } else {
        scan_from(s.skip(1), acc.push(s[0]))
    }
}

/// The token sequence of an input string.
pub open spec fn spec_tokenize(s: Seq<char>) -> Seq<TokenModel> {
    scan_from(s, Seq::empty())
}

/// Scans `input` into its token sequence.
pub fn tokenize(input: &String) -> (r: Vec<Token>)
    ensures
        r.deep_view() == spec_tokenize(input@),
{
    let s: &str = input.as_str();
    let n: usize = s.unicode_len();
    let mut result: Vec<Token> = Vec::new();
    let mut run_start: usize = 0;
    let mut i: usize = 0;
    proof {
        assert(s@.skip(0) =~= s@);
        assert(s@.subrange(0, 0) =~= Seq::<char>::empty());
        assert(result.deep_view() =~= Seq::<TokenModel>::empty());
    }
    while i < n
        invariant
            n == s@.len(),
            s@ == input@,
            run_start <= i <= n,
            spec_tokenize(input@) == result.deep_view() + scan_from(
                s@.skip(i as int),
                s@.subrange(run_start as int, i as int),
            ),
        decreases n - i,
    {
        let ghost prev_tail = s@.skip(i as int);
        let ghost prev_acc = s@.subrange(run_start as int, i as int);
        proof {
            assert(prev_tail[0] == s@[i as int]);
            assert(prev_tail.skip(1) =~= s@.skip(i as int + 1));
        }
        let c = s.get_char(i);
        if c == '{' || c == '}' || c == '+' || c == ' ' || c == ',' || c == '-' {
            if run_start < i {
                let text = s.substring_char(run_start, i).to_owned();
                let ghost before = result;
                result.push(Token::Text(text));
                proof {
                    assert(result.deep_view() =~= before.deep_view() + flushed(prev_acc));
                }
            }
            let delim_token: Option<Token> = if c == '{' {
                Some(Token::OptionStart)
            } else if c == '}' {
                Some(Token::OptionEnd)
            } else if c == '+' {
                Some(Token::Plus)
            } else if c == ',' {
                Some(Token::Comma)
            } else if c == '-' {
                Some(Token::RangeSeparator)
            } else {
                None
            };
            match delim_token {
                Some(t) => {
                    let ghost before = result;
                    let ghost tm = t@;
                    result.push(t);
                    proof {
                        assert(result.deep_view() =~= before.deep_view() + seq![tm]);
                        assert(delimiter_tokens(c) =~= seq![tm]);
                    }
                },
                None => {
                    proof {
                        assert(delimiter_tokens(c) =~= Seq::<TokenModel>::empty());
                    }
                },
            }
            run_start = i + 1;
            proof {
                assert(s@.subrange(run_start as int, i as int + 1) =~= Seq::<char>::empty());
                assert(result.deep_view() + scan_from(s@.skip(i as int + 1), Seq::empty())
                    =~= spec_tokenize(input@));
            }
        } else {
            proof {
                assert(prev_acc.push(s@[i as int]) =~= s@.subrange(
                    run_start as int,
                    i as int + 1,
                ));
            }
        }
        i = i + 1;
    }
    proof {
        assert(s@.skip(n as int) =~= Seq::<char>::empty());
    }
    if run_start < n {
        let text = s.substring_char(run_start, n).to_owned();
        let ghost before = result;
        result.push(Token::Text(text));
        proof {
            assert(result.deep_view() =~= before.deep_view() + flushed(
                s@.subrange(run_start as int, n as int),
            ));
        }
    }
    result
}

} // verus!
