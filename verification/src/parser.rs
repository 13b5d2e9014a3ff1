//! The tokenizer: recursive descent over a character buffer.
//!
//! Each `parse_*_at` function recognises one element at position `pos` and
//! returns the parsed node together with the position just past it; its
//! contract ties both to the corresponding specification function of
//! [`crate::grammar`] applied to the rest of the buffer.

use vstd::prelude::*;

use crate::extract::node_wf;
use crate::grammar::digit_run_len;
use crate::grammar::digits_val;
use crate::grammar::lemma_digit_run_step;
use crate::grammar::spec_parse;
use crate::grammar::spec_parse_array;
use crate::grammar::spec_parse_bulk_string;
use crate::grammar::spec_parse_element;
use crate::grammar::spec_parse_elements;
use crate::grammar::spec_parse_integer;
use crate::laws::lemma_parse_wf;
use crate::node::nodes_view;
use crate::node::ParseNode;
use crate::node::Rule;
use crate::node::SyntaxError;

verus! {

broadcast use vstd::seq::group_seq_axioms;

/// Reads the digit run that starts at `pos`. Returns the position just past
/// the run and, when it fits the machine word, the run's decimal value.
fn scan_digits(s: &str, pos: usize, len: usize) -> (r: (usize, Option<usize>))
    requires
        s@.len() == len as nat,
        pos <= len,
    ensures
        r.0 == pos + digit_run_len(s@.skip(pos as int)),
        pos <= r.0 <= len,
        digits_val(s@.subrange(pos as int, r.0 as int)) >= 0,
        (match r.1 {
            Some(v) => v == digits_val(s@.subrange(pos as int, r.0 as int)),
            None => digits_val(s@.subrange(pos as int, r.0 as int)) > usize::MAX,
        }),
{
    let mut i = pos;
    let mut acc: Option<usize> = Some(0usize);
    loop
        invariant
            s@.len() == len as nat,
            pos <= i <= len,
            digit_run_len(s@.skip(pos as int)) == (i - pos) + digit_run_len(s@.skip(i as int)),
            digits_val(s@.subrange(pos as int, i as int)) >= 0,
            (match acc {
                Some(v) => v == digits_val(s@.subrange(pos as int, i as int)),
                None => digits_val(s@.subrange(pos as int, i as int)) > usize::MAX,
            }),
        decreases len - i,
    {
        if i < len {
            let c = s.get_char(i);
            if '0' <= c && c <= '9' {
                proof {
                    lemma_digit_run_step(s@, i as int);
                    assert(s@.subrange(pos as int, (i + 1) as int).drop_last() =~= s@.subrange(
                        pos as int,
                        i as int,
                    ));
                    assert(s@.subrange(pos as int, (i + 1) as int).last() == s@[i as int]);
                }
                let d = ((c as u32) - ('0' as u32)) as usize;
                acc = match acc {
                    Some(v) => match v.checked_mul(10) {
                        Some(x) => x.checked_add(d),
                        None => None,
                    },
                    None => None,
                };
                i = i + 1;
            } else {
                proof {
                    lemma_digit_run_step(s@, i as int);
                }
                return (i, acc);
            }
        } else {
            return (i, acc);
        }
    }
}

/// Recognises an integer element at `pos`: `:`, an optional sign, a digit
/// run, CRLF. Succeeds exactly when the grammar accepts, and captures the
/// sign-and-digit literal.
pub fn parse_integer_at(s: &str, pos: usize, len: usize) -> (r: Result<
    (ParseNode, usize),
    SyntaxError,
>)
    requires
        s@.len() == len as nat,
        pos <= len,
    ensures
        (match r {
            Ok((node, end)) => spec_parse_integer(s@.skip(pos as int)) == Some(
                (node@, (end - pos) as nat),
            ) && pos < end <= len,
            Err(_) => spec_parse_integer(s@.skip(pos as int)) is None,
        }),
{
    let ghost t = s@.skip(pos as int);
    if pos == len {
        return Err(SyntaxError);
    }
    if s.get_char(pos) != ':' {
        proof {
            assert(t[0] == s@[pos as int]);
        }
        return Err(SyntaxError);
    }
    let mut start = pos + 1;
    if start < len && s.get_char(start) == '-' {
        start = start + 1;
    }
    proof {
        assert(t[0] == s@[pos as int]);
        if pos + 1 < len {
            assert(t[1] == s@[pos as int + 1]);
        }
        assert(t.skip(start - pos) =~= s@.skip(start as int));
    }
    let (run_end, _) = scan_digits(s, start, len);
    if run_end == start {
        return Err(SyntaxError);
    }
    if len - run_end < 2 {
        proof {
            assert(t.len() == len - pos);
        }
        return Err(SyntaxError);
    }
    proof {
        assert(t[run_end - pos] == s@[run_end as int]);
        assert(t[run_end + 1 - pos] == s@[run_end as int + 1]);
    }
    if s.get_char(run_end) != '\r' || s.get_char(run_end + 1) != '\n' {
        return Err(SyntaxError);
    }
    let literal = s.substring_char(pos + 1, run_end).to_owned();
    proof {
        assert(t.subrange(1, run_end - pos) =~= s@.subrange(pos as int + 1, run_end as int));
    }
    Ok((ParseNode::Integer { literal }, run_end + 2))
}

/// Recognises a bulk string element at `pos`: `$`, a digit run declaring
/// the payload length, CRLF, exactly that many characters, CRLF. Succeeds
/// exactly when the grammar accepts, and captures the payload verbatim. A
/// declared length the buffer cannot hold, the machine word included, is a
/// syntax failure, so no more than the buffer's own length is ever taken.
pub fn parse_bulk_string_at(s: &str, pos: usize, len: usize) -> (r: Result<
    (ParseNode, usize),
    SyntaxError,
>)
    requires
        s@.len() == len as nat,
        pos <= len,
    ensures
        (match r {
            Ok((node, end)) => spec_parse_bulk_string(s@.skip(pos as int)) == Some(
                (node@, (end - pos) as nat),
            ) && pos < end <= len,
            Err(_) => spec_parse_bulk_string(s@.skip(pos as int)) is None,
        }),
{
    let ghost t = s@.skip(pos as int);
    if pos == len {
        return Err(SyntaxError);
    }
    if s.get_char(pos) != '$' {
        proof {
            assert(t[0] == s@[pos as int]);
        }
        return Err(SyntaxError);
    }
    proof {
        assert(t[0] == s@[pos as int]);
        assert(t.skip(1) =~= s@.skip(pos as int + 1));
    }
    let (run_end, declared) = scan_digits(s, pos + 1, len);
    if run_end == pos + 1 {
        return Err(SyntaxError);
    }
    if len - run_end < 2 {
        proof {
            assert(t.len() == len - pos);
        }
        return Err(SyntaxError);
    }
    proof {
        assert(t[run_end - pos] == s@[run_end as int]);
        assert(t[run_end + 1 - pos] == s@[run_end as int + 1]);
    }
    if s.get_char(run_end) != '\r' || s.get_char(run_end + 1) != '\n' {
        return Err(SyntaxError);
    }
    let body = run_end + 2;
    proof {
        assert(t.subrange(1, run_end - pos) =~= s@.subrange(pos as int + 1, run_end as int));
        assert(t.len() == len - pos);
    }
    let n = match declared {
        Some(n) => n,
        None => {
            return Err(SyntaxError);
        },
    };
    if len - body < n {
        return Err(SyntaxError);
    }
    if (len - body) - n < 2 {
        return Err(SyntaxError);
    }
    proof {
        assert(t[body + n - pos] == s@[(body + n) as int]);
        assert(t[body + n + 1 - pos] == s@[(body + n) as int + 1]);
    }
    if s.get_char(body + n) != '\r' || s.get_char(body + n + 1) != '\n' {
        return Err(SyntaxError);
    }
    let text = s.substring_char(body, body + n).to_owned();
    proof {
        assert(t.subrange(body - pos, body + n - pos) =~= s@.subrange(
            body as int,
            (body + n) as int,
        ));
    }
    Ok((ParseNode::BulkString { text }, body + n + 2))
}

/// Recognises an array element at `pos`: `*`, a digit run declaring a
/// count, CRLF, then every element that follows, taken greedily. Fails when
/// fewer elements are present than the header declared; more are kept.
pub fn parse_array_at(s: &str, pos: usize, len: usize) -> (r: Result<
    (ParseNode, usize),
    SyntaxError,
>)
    requires
        s@.len() == len as nat,
        pos <= len,
    ensures
        (match r {
            Ok((node, end)) => spec_parse_array(s@.skip(pos as int)) == Some(
                (node@, (end - pos) as nat),
            ) && pos < end <= len,
            Err(_) => spec_parse_array(s@.skip(pos as int)) is None,
        }),
    decreases len - pos, 0int,
{
    let ghost t = s@.skip(pos as int);
    if pos == len {
        return Err(SyntaxError);
    }
    if s.get_char(pos) != '*' {
        proof {
            assert(t[0] == s@[pos as int]);
        }
        return Err(SyntaxError);
    }
    proof {
        assert(t[0] == s@[pos as int]);
        assert(t.skip(1) =~= s@.skip(pos as int + 1));
    }
    let (run_end, declared) = scan_digits(s, pos + 1, len);
    if run_end == pos + 1 {
        return Err(SyntaxError);
    }
    if len - run_end < 2 {
        proof {
            assert(t.len() == len - pos);
        }
        return Err(SyntaxError);
    }
    proof {
        assert(t[run_end - pos] == s@[run_end as int]);
        assert(t[run_end + 1 - pos] == s@[run_end as int + 1]);
    }
    if s.get_char(run_end) != '\r' || s.get_char(run_end + 1) != '\n' {
        return Err(SyntaxError);
    }
    let body = run_end + 2;
    proof {
        assert(t.subrange(1, run_end - pos) =~= s@.subrange(pos as int + 1, run_end as int));
        assert(t.skip(body - pos) =~= s@.skip(body as int));
    }
    let (elems, end) = parse_elements_at(s, body, len);
    let have = elems.len();
    match declared {
        Some(m) => {
            if have < m {
                Err(SyntaxError)
            } else {
                Ok((ParseNode::Array { elems }, end))
            }
        },
        None => {
            // The declared count does not fit the machine word, and the
            // buffer cannot hold that many elements.
            Err(SyntaxError)
        },
    }
}

/// Recognises one element of any kind at `pos`, told apart by its sigil.
pub fn parse_element_at(s: &str, pos: usize, len: usize) -> (r: Result<
    (ParseNode, usize),
    SyntaxError,
>)
    requires
        s@.len() == len as nat,
        pos <= len,
    ensures
        (match r {
            Ok((node, end)) => spec_parse_element(s@.skip(pos as int)) == Some(
                (node@, (end - pos) as nat),
            ) && pos < end <= len,
            Err(_) => spec_parse_element(s@.skip(pos as int)) is None,
        }),
    decreases len - pos, 1int,
{
    let ghost t = s@.skip(pos as int);
    if pos == len {
        return Err(SyntaxError);
    }
    let c = s.get_char(pos);
    proof {
        assert(t[0] == s@[pos as int]);
    }
    if c == ':' {
        parse_integer_at(s, pos, len)
    } else if c == '$' {
        parse_bulk_string_at(s, pos, len)
    } else if c == '*' {
        parse_array_at(s, pos, len)
    } else {
        Err(SyntaxError)
    }
}

/// Reads as many consecutive elements as the buffer offers from `pos` on,
/// and returns them with the position just past the last one.
pub fn parse_elements_at(s: &str, pos: usize, len: usize) -> (r: (Vec<ParseNode>, usize))
    requires
        s@.len() == len as nat,
        pos <= len,
    ensures
        nodes_view(r.0@) == spec_parse_elements(s@.skip(pos as int)).0,
        r.1 == pos + spec_parse_elements(s@.skip(pos as int)).1,
        pos <= r.1 <= len,
    decreases len - pos, 2int,
{
    let ghost t = s@.skip(pos as int);
    match parse_element_at(s, pos, len) {
        Err(_) => {
            let elems: Vec<ParseNode> = Vec::new();
            proof {
                assert(nodes_view(elems@) =~= spec_parse_elements(t).0);
            }
            (elems, pos)
        },
        Ok((node, end)) => {
            proof {
                assert(t.skip((end - pos) as int) =~= s@.skip(end as int));
            }
            let (mut rest, total_end) = parse_elements_at(s, end, len);
            rest.insert(0, node);
            proof {
                assert(nodes_view(rest@) =~= seq![node@] + spec_parse_elements(
                    s@.skip(end as int),
                ).0);
            }
            (rest, total_end)
        },
    }
}

/// The tokenizer's entry point.
pub struct RESPParser;

impl RESPParser {
    /// Recognises one element of the requested rule at the start of
    /// `input`. On success the returned node models the element a prefix of
    /// the buffer spells; trailing input is ignored, so a caller may parse a
    /// stream of concatenated elements one at a time (`parse_element_at`
    /// also reports the position just past the element). On failure the
    /// buffer matches the rule at no prefix.
    pub fn parse(rule: Rule, input: &str) -> (r: Result<ParseNode, SyntaxError>)
        ensures
            (match r {
                Ok(node) => spec_parse(rule, input@) is Some && node@ == spec_parse(
                    rule,
                    input@,
                ).unwrap().0 && node_wf(node@),
                Err(_) => spec_parse(rule, input@) is None,
            }),
    {
        let len = input.unicode_len();
        proof {
            assert(input@.skip(0) =~= input@);
            lemma_parse_wf(rule, input@);
        }
        let parsed = match rule {
            Rule::Integer => parse_integer_at(input, 0, len),
            Rule::BulkString => parse_bulk_string_at(input, 0, len),
            Rule::Array => parse_array_at(input, 0, len),
        };
        match parsed {
            Ok((node, _)) => Ok(node),
            Err(e) => Err(e),
        }
    }
}

} // verus!
