//! The grammar of the wire format, as specification functions.
//!
//! Each element begins with a sigil, `:` for an integer, `$` for a bulk
//! string, `*` for an array, and ends with a carriage-return/line-feed pair.
//! `spec_parse` says, for a requested rule and a buffer, whether a prefix of
//! the buffer is one well-formed element of that rule, which node it parses
//! to, and how many characters it occupies; trailing input is ignored.
//!
//! An array is decoded greedily: after its header, every element that
//! follows is taken as a child, and the parse fails when fewer children are
//! present than the header declared. A header that declares fewer elements
//! than are present is accepted and all present elements are kept.

use vstd::prelude::*;

use crate::node::Rule;
use crate::node::SpecNode;

verus! {

broadcast use vstd::seq::group_seq_axioms;

/// A decimal digit.
pub open spec fn is_digit(c: char) -> bool {
    '0' <= c && c <= '9'
}

/// The numeric value of one decimal digit.
pub open spec fn digit_val(c: char) -> int {
    c as int - '0' as int
}

/// Every character of `s` is a decimal digit.
pub open spec fn all_digits(s: Seq<char>) -> bool {
    forall|i: int| 0 <= i < s.len() ==> is_digit(#[trigger] s[i])
}

/// The length of the digit run at the start of `s`.
pub open spec fn digit_run_len(s: Seq<char>) -> nat
    decreases s.len(),
{
    if s.len() == 0 || !is_digit(s[0]) {
        0
    } else {
        1 + digit_run_len(s.skip(1))
    }
}

/// The value of `s` read as a decimal numeral, most significant digit first.
pub open spec fn digits_val(s: Seq<char>) -> int
    decreases s.len(),
{
    if s.len() == 0 {
        0
    } else {
        digits_val(s.drop_last()) * 10 + digit_val(s.last())
    }
}

/// A captured integer literal: an optional minus sign, then at least one
/// digit.
pub open spec fn wf_int_literal(lit: Seq<char>) -> bool {
    let digits = if lit.len() > 0 && lit[0] == '-' {
        lit.skip(1)
    } else {
        lit
    };
    digits.len() >= 1 && all_digits(digits)
}

/// The signed value of a captured integer literal.
pub open spec fn int_literal_val(lit: Seq<char>) -> int {
    if lit.len() > 0 && lit[0] == '-' {
        -digits_val(lit.skip(1))
    } else {
        digits_val(lit)
    }
}

/// An integer element: `:`, an optional `-`, one or more digits, CRLF.
/// On success, the node that captures the sign-and-digit literal and the
/// number of characters consumed.
pub open spec fn spec_parse_integer(s: Seq<char>) -> Option<(SpecNode, nat)> {
    if s.len() < 1 || s[0] != ':' {
        None
    } else {
        let start: int = if s.len() >= 2 && s[1] == '-' {
            2
        } else {
            1
        };
        let d = digit_run_len(s.skip(start)) as int;
        if d < 1 {
            None
        } else if s.len() < start + d + 2 || s[start + d] != '\r' || s[start + d + 1] != '\n' {
            None
        } else {
            Some(
                (
                    SpecNode::Integer { literal: s.subrange(1, start + d) },
                    (start + d + 2) as nat,
                ),
            )
        }
    }
}

/// A bulk string element: `$`, a digit run declaring the payload length,
/// CRLF, exactly that many characters of payload, CRLF. The payload is
/// captured verbatim, embedded `\r` and `\n` included.
pub open spec fn spec_parse_bulk_string(s: Seq<char>) -> Option<(SpecNode, nat)> {
    if s.len() < 1 || s[0] != '$' {
        None
    } else {
        let d = digit_run_len(s.skip(1)) as int;
        if d < 1 {
            None
        } else if s.len() < 1 + d + 2 || s[1 + d] != '\r' || s[1 + d + 1] != '\n' {
            None
        } else {
            let n = digits_val(s.subrange(1, 1 + d));
            let body: int = 1 + d + 2;
            if s.len() < body + n + 2 || s[body + n] != '\r' || s[body + n + 1] != '\n' {
                None
            } else {
                Some(
                    (
                        SpecNode::BulkString { text: s.subrange(body, body + n) },
                        (body + n + 2) as nat,
                    ),
                )
            }
        }
    }
}

/// An array element: `*`, a digit run declaring a count, CRLF, then the
/// children. Children are taken greedily; the parse fails when fewer are
/// present than declared.
pub open spec fn spec_parse_array(s: Seq<char>) -> Option<(SpecNode, nat)>
    decreases s.len(), 0int,
{
    if s.len() < 1 || s[0] != '*' {
        None
    } else {
        let d = digit_run_len(s.skip(1)) as int;
        if d < 1 {
            None
        } else if s.len() < 1 + d + 2 || s[1 + d] != '\r' || s[1 + d + 1] != '\n' {
            None
        } else {
            let m = digits_val(s.subrange(1, 1 + d));
            let body: int = 1 + d + 2;
            let (elems, k) = spec_parse_elements(s.skip(body));
            if elems.len() < m {
                None
            } else {
                Some((SpecNode::Array { elems }, (body + k) as nat))
            }
        }
    }
}

/// One element of any kind, told apart by its sigil.
pub open spec fn spec_parse_element(s: Seq<char>) -> Option<(SpecNode, nat)>
    decreases s.len(), 1int,
{
    if s.len() < 1 {
        None
    } else if s[0] == ':' {
        spec_parse_integer(s)
    } else if s[0] == '$' {
        spec_parse_bulk_string(s)
    } else if s[0] == '*' {
        spec_parse_array(s)
    } else {
        None
    }
}

/// As many consecutive elements as the buffer offers, with the total number
/// of characters they occupy. The guard on `k` keeps the recursion well
/// founded; `lemma_element_consumed_bounds` shows it never bites.
pub open spec fn spec_parse_elements(s: Seq<char>) -> (Seq<SpecNode>, nat)
    decreases s.len(), 2int,
{
    match spec_parse_element(s) {
        None => (Seq::empty(), 0),
        Some((node, k)) => {
            if 1 <= k <= s.len() {
                let (rest, k2) = spec_parse_elements(s.skip(k as int));
                (seq![node] + rest, k + k2)
            } else {
                (seq![node], k)
            }
        },
    }
}

/// One element of the requested rule at the start of the buffer.
pub open spec fn spec_parse(rule: Rule, s: Seq<char>) -> Option<(SpecNode, nat)> {
    match rule {
        Rule::Integer => spec_parse_integer(s),
        Rule::BulkString => spec_parse_bulk_string(s),
        Rule::Array => spec_parse_array(s),
    }
}

/// The digit run at the start of `s` lies within `s`, consists of digits,
/// and is maximal.
pub proof fn lemma_digit_run(s: Seq<char>)
    ensures
        digit_run_len(s) <= s.len(),
        forall|i: int| 0 <= i < digit_run_len(s) ==> is_digit(#[trigger] s[i]),
        digit_run_len(s) < s.len() ==> !is_digit(s[digit_run_len(s) as int]),
    decreases s.len(),
{
    if s.len() == 0 || !is_digit(s[0]) {
    } else {
        lemma_digit_run(s.skip(1));
        assert forall|i: int| 0 <= i < digit_run_len(s) implies is_digit(#[trigger] s[i]) by {
            if i > 0 {
                assert(s.skip(1)[i - 1] == s[i]);
            }
        }
        if digit_run_len(s) < s.len() {
            assert(s.skip(1)[digit_run_len(s) as int - 1] == s[digit_run_len(s) as int]);
        }
    }
}

/// Unfolds the digit run one position at a time.
pub proof fn lemma_digit_run_step(s: Seq<char>, i: int)
    requires
        0 <= i < s.len(),
    ensures
        digit_run_len(s.skip(i)) == if is_digit(s[i]) {
            1 + digit_run_len(s.skip(i + 1))
        } else {
            0
        },
{
    assert(s.skip(i)[0] == s[i]);
    assert(s.skip(i).skip(1) =~= s.skip(i + 1));
}

/// Reading one more digit multiplies the value so far by ten and adds it.
pub proof fn lemma_digits_val_step(s: Seq<char>, i: int)
    requires
        0 <= i < s.len(),
    ensures
        digits_val(s.subrange(0, i + 1)) == digits_val(s.subrange(0, i)) * 10 + digit_val(s[i]),
{
    assert(s.subrange(0, i + 1).drop_last() =~= s.subrange(0, i));
    assert(s.subrange(0, i + 1).last() == s[i]);
}

/// A numeral of digits only has a non-negative value.
pub proof fn lemma_digits_val_nonneg(s: Seq<char>)
    requires
        all_digits(s),
    ensures
        digits_val(s) >= 0,
    decreases s.len(),
{
    if s.len() > 0 {
        assert(all_digits(s.drop_last()));
        lemma_digits_val_nonneg(s.drop_last());
    }
}

/// Reading further digits never shrinks the value: a numeral's prefixes are
/// bounded by the numeral.
pub proof fn lemma_digits_val_prefix_le(s: Seq<char>, i: int, j: int)
    requires
        all_digits(s),
        0 <= i <= j <= s.len(),
    ensures
        digits_val(s.subrange(0, i)) <= digits_val(s.subrange(0, j)),
    decreases j - i,
{
    if i < j {
        lemma_digits_val_prefix_le(s, i, j - 1);
        lemma_digits_val_step(s, j - 1);
        assert(all_digits(s.subrange(0, j - 1)));
        lemma_digits_val_nonneg(s.subrange(0, j - 1));
    }
}

/// A successful element parse consumes at least the sigil, one digit and one
/// terminator, and no more than the whole buffer.
pub proof fn lemma_element_consumed_bounds(s: Seq<char>)
    ensures
        spec_parse_element(s) matches Some((node, k)) ==> 4 <= k <= s.len(),
    decreases s.len(), 1int,
{
    if s.len() >= 1 && (s[0] == ':' || s[0] == '$' || s[0] == '*') {
        if s[0] == '$' {
            let d = digit_run_len(s.skip(1)) as int;
            if d >= 1 && s.len() >= 1 + d + 2 && s[1 + d] == '\r' && s[1 + d + 1] == '\n' {
                lemma_digit_run(s.skip(1));
                assert(all_digits(s.subrange(1, 1 + d))) by {
                    assert forall|i: int| 0 <= i < d implies is_digit(
                        #[trigger] s.subrange(1, 1 + d)[i],
                    ) by {
                        assert(s.subrange(1, 1 + d)[i] == s.skip(1)[i]);
                    }
                }
                lemma_digits_val_nonneg(s.subrange(1, 1 + d));
            }
        }
        if s[0] == '*' {
            let d = digit_run_len(s.skip(1)) as int;
            if d >= 1 && s.len() >= 1 + d + 2 && s[1 + d] == '\r' && s[1 + d + 1] == '\n' {
                lemma_elements_consumed_bounds(s.skip(1 + d + 2));
            }
        }
    }
}

/// A run of elements consumes no more than the buffer and yields no more
/// nodes than characters consumed.
pub proof fn lemma_elements_consumed_bounds(s: Seq<char>)
    ensures
        spec_parse_elements(s).1 <= s.len(),
        spec_parse_elements(s).0.len() <= spec_parse_elements(s).1,
    decreases s.len(), 2int,
{
    lemma_element_consumed_bounds(s);
    match spec_parse_element(s) {
        None => {},
        Some((node, k)) => {
            lemma_elements_consumed_bounds(s.skip(k as int));
        },
    }
}

} // verus!
