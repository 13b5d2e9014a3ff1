//! Properties of the decoder, stated over its specification functions and
//! proved once for all inputs.

use vstd::prelude::*;

use crate::extract::array_children;
use crate::extract::extract_node;
use crate::extract::extract_nodes;
use crate::extract::node_wf;
use crate::extract::nodes_wf;
use crate::grammar::all_digits;
use crate::grammar::digit_run_len;
use crate::grammar::digit_val;
use crate::grammar::digits_val;
use crate::grammar::int_literal_val;
use crate::grammar::is_digit;
use crate::grammar::lemma_digit_run;
use crate::grammar::lemma_element_consumed_bounds;
use crate::grammar::spec_parse;
use crate::grammar::spec_parse_array;
use crate::grammar::spec_parse_bulk_string;
use crate::grammar::spec_parse_element;
use crate::grammar::spec_parse_elements;
use crate::grammar::spec_parse_integer;
use crate::grammar::wf_int_literal;
use crate::node::Rule;
use crate::node::SpecNode;
use crate::node::SpecValue;

verus! {

broadcast use vstd::seq::group_seq_axioms;

/// The character of one decimal digit.
pub open spec fn digit_char(d: int) -> char {
    if d == 0 {
        '0'
    } else if d == 1 {
        '1'
    } else if d == 2 {
        '2'
    } else if d == 3 {
        '3'
    } else if d == 4 {
        '4'
    } else if d == 5 {
        '5'
    } else if d == 6 {
        '6'
    } else if d == 7 {
        '7'
    } else if d == 8 {
        '8'
    } else {
        '9'
    }
}

/// The shortest decimal numeral of `n`, most significant digit first.
pub open spec fn dec_digits(n: nat) -> Seq<char>
    decreases n,
{
    if n < 10 {
        seq![digit_char(n as int)]
    } else {
        dec_digits(n / 10).push(digit_char((n % 10) as int))
    }
}

/// The textual literal of a signed integer: a minus sign when negative,
/// then its decimal digits.
pub open spec fn int_literal(n: int) -> Seq<char> {
    if n < 0 {
        seq!['-'] + dec_digits((-n) as nat)
    } else {
        dec_digits(n as nat)
    }
}

/// The full wire frame of an integer element.
pub open spec fn integer_frame(n: int) -> Seq<char> {
    seq![':'] + int_literal(n) + seq!['\r', '\n']
}

/// The full wire frame of a bulk string element carrying `payload`.
pub open spec fn bulk_frame(payload: Seq<char>) -> Seq<char> {
    seq!['$'] + dec_digits(payload.len()) + seq!['\r', '\n'] + payload + seq!['\r', '\n']
}

/// A decimal numeral is digits only, never empty, and reads back to its
/// number.
pub proof fn lemma_dec_digits(n: nat)
    ensures
        all_digits(dec_digits(n)),
        dec_digits(n).len() >= 1,
        digits_val(dec_digits(n)) == n,
    decreases n,
{
    if n < 10 {
        let s = dec_digits(n);
        assert(s.drop_last() =~= Seq::<char>::empty());
        assert(digits_val(Seq::<char>::empty()) == 0);
        assert(s.last() == digit_char(n as int));
        assert(digit_val(digit_char(n as int)) == n);
        assert(digits_val(s) == digits_val(s.drop_last()) * 10 + digit_val(s.last()));
    } else {
        lemma_dec_digits(n / 10);
        let s = dec_digits(n);
        assert(s.drop_last() =~= dec_digits(n / 10));
        assert(s.last() == digit_char((n % 10) as int));
        assert(digit_val(digit_char((n % 10) as int)) == n % 10);
        assert(digits_val(s) == digits_val(dec_digits(n / 10)) * 10 + digit_val(s.last()));
        assert((n / 10) * 10 + n % 10 == n);
    }
}

/// The digit run of a numeral followed by anything that is no digit is the
/// numeral itself.
pub proof fn lemma_digit_run_of_numeral(a: Seq<char>, b: Seq<char>)
    requires
        all_digits(a),
        b.len() == 0 || !is_digit(b[0]),
    ensures
        digit_run_len(a + b) == a.len(),
    decreases a.len(),
{
    if a.len() == 0 {
        assert(a + b =~= b);
    } else {
        assert((a + b)[0] == a[0]);
        assert((a + b).skip(1) =~= a.skip(1) + b);
        assert(all_digits(a.skip(1)));
        lemma_digit_run_of_numeral(a.skip(1), b);
    }
}

/// Round trip on integers: for every value of the 32-bit signed range, the
/// frame `:`, decimal literal, CRLF parses as an integer element whose
/// captured literal is that text, the whole frame is consumed, and
/// extraction yields the value itself.
#[verifier::rlimit(50)]
pub proof fn lemma_integer_round_trip(n: int)
    requires
        i32::MIN <= n <= i32::MAX,
    ensures
        ({
            let s = integer_frame(n);
            let node = SpecNode::Integer { literal: int_literal(n) };
            &&& spec_parse(Rule::Integer, s) == Some((node, s.len()))
            &&& wf_int_literal(int_literal(n))
            &&& int_literal_val(int_literal(n)) == n
            &&& extract_node(node) == SpecValue::Int(n)
        }),
{
    let s = integer_frame(n);
    let lit = int_literal(n);
    let m: nat = if n < 0 {
        (-n) as nat
    } else {
        n as nat
    };
    let digits = dec_digits(m);
    lemma_dec_digits(m);
    let start: int = if n < 0 {
        2
    } else {
        1
    };
    assert(s[0] == ':');
    if n < 0 {
        assert(s[1] == '-');
    } else {
        assert(s[1] == digits[0]);
    }
    assert(s.skip(start) =~= digits + seq!['\r', '\n']);
    lemma_digit_run_of_numeral(digits, seq!['\r', '\n']);
    let d = digits.len() as int;
    assert(s.len() == start + d + 2);
    assert(s[start + d] == '\r');
    assert(s[start + d + 1] == '\n');
    assert(s.subrange(1, start + d) =~= lit);
    if n < 0 {
        assert(lit[0] == '-');
        assert(lit.skip(1) =~= digits);
    } else {
        assert(lit[0] == digits[0]);
        assert(is_digit(lit[0]));
    }
    assert(spec_parse_integer(s) == Some((SpecNode::Integer { literal: lit }, s.len())));
}

/// Exact payload preservation: for every payload, embedded `\r` and `\n`
/// included, the frame `$`, decimal length, CRLF, payload, CRLF parses as a
/// bulk string element that captures exactly the payload, the whole frame
/// is consumed, and extraction yields the payload itself.
pub proof fn lemma_bulk_string_round_trip(payload: Seq<char>)
    ensures
        ({
            let s = bulk_frame(payload);
            let node = SpecNode::BulkString { text: payload };
            &&& spec_parse(Rule::BulkString, s) == Some((node, s.len()))
            &&& extract_node(node) == SpecValue::Text(payload)
        }),
{
    let s = bulk_frame(payload);
    let digits = dec_digits(payload.len());
    lemma_dec_digits(payload.len());
    let d = digits.len() as int;
    let tail = seq!['\r', '\n'] + payload + seq!['\r', '\n'];
    assert(s[0] == '$');
    assert(s.skip(1) =~= digits + tail);
    assert(tail[0] == '\r');
    lemma_digit_run_of_numeral(digits, tail);
    assert(s.subrange(1, 1 + d) =~= digits);
    let body: int = 1 + d + 2;
    let n = payload.len() as int;
    assert(s.len() == body + n + 2);
    assert(s[1 + d] == '\r');
    assert(s[1 + d + 1] == '\n');
    assert(s[body + n] == '\r');
    assert(s[body + n + 1] == '\n');
    assert(s.subrange(body, body + n) =~= payload);
    assert(spec_parse_bulk_string(s) == Some((SpecNode::BulkString { text: payload }, s.len())));
}

/// No separator stands anywhere in the tree.
pub open spec fn node_sep_free(n: SpecNode) -> bool
    decreases n, 1int,
{
    match n {
        SpecNode::Array { elems } => nodes_sep_free(elems),
        SpecNode::Separator => false,
        _ => true,
    }
}

/// No separator stands anywhere in any tree of the sequence.
pub open spec fn nodes_sep_free(elems: Seq<SpecNode>) -> bool
    decreases elems, 0int,
{
    forall|i: int| 0 <= i < elems.len() ==> node_sep_free(#[trigger] elems[i])
}

/// A parsed integer element carries a literal of the captured shape: an
/// optional minus sign, then at least one digit.
pub proof fn lemma_parsed_integer_wf(s: Seq<char>)
    ensures
        spec_parse_integer(s) matches Some(p) ==> node_wf(p.0) && node_sep_free(p.0),
{
    if s.len() >= 1 && s[0] == ':' {
        let start: int = if s.len() >= 2 && s[1] == '-' {
            2
        } else {
            1
        };
        let d = digit_run_len(s.skip(start)) as int;
        lemma_digit_run(s.skip(start));
        if d >= 1 && s.len() >= start + d + 2 {
            let lit = s.subrange(1, start + d);
            assert forall|i: int| 0 <= i < d implies is_digit(
                #[trigger] s.subrange(start, start + d)[i],
            ) by {
                assert(s.subrange(start, start + d)[i] == s.skip(start)[i]);
            }
            if start == 2 {
                assert(lit[0] == s[1]);
                assert(lit.skip(1) =~= s.subrange(start, start + d));
            } else {
                assert(lit =~= s.subrange(start, start + d));
                assert(is_digit(lit[0]));
            }
        }
    }
}

/// A parsed array's children are well-formed and separator-free,
/// recursively.
pub proof fn lemma_parsed_array_wf(s: Seq<char>)
    ensures
        spec_parse_array(s) matches Some(p) ==> node_wf(p.0) && node_sep_free(p.0),
    decreases s.len(), 0int,
{
    if s.len() >= 1 && s[0] == '*' {
        let d = digit_run_len(s.skip(1)) as int;
        if d >= 1 && s.len() >= 1 + d + 2 {
            lemma_parsed_elements_wf(s.skip(1 + d + 2));
        }
    }
}

/// A parsed element of any kind is well-formed and separator-free.
pub proof fn lemma_parsed_element_wf(s: Seq<char>)
    ensures
        spec_parse_element(s) matches Some(p) ==> node_wf(p.0) && node_sep_free(p.0),
    decreases s.len(), 1int,
{
    if s.len() >= 1 {
        if s[0] == ':' {
            lemma_parsed_integer_wf(s);
        } else if s[0] == '*' {
            lemma_parsed_array_wf(s);
        }
    }
}

/// Every element of a parsed run is well-formed and separator-free.
pub proof fn lemma_parsed_elements_wf(s: Seq<char>)
    ensures
        nodes_wf(spec_parse_elements(s).0),
        nodes_sep_free(spec_parse_elements(s).0),
    decreases s.len(), 2int,
{
    lemma_parsed_element_wf(s);
    lemma_element_consumed_bounds(s);
    match spec_parse_element(s) {
        None => {},
        Some((node, k)) => {
            lemma_parsed_elements_wf(s.skip(k as int));
            let rest = spec_parse_elements(s.skip(k as int)).0;
            assert forall|i: int| 0 <= i < spec_parse_elements(s).0.len() implies node_wf(
                #[trigger] spec_parse_elements(s).0[i],
            ) && node_sep_free(spec_parse_elements(s).0[i]) by {
                if i > 0 {
                    assert(spec_parse_elements(s).0[i] == rest[i - 1]);
                }
            }
        },
    }
}

/// Whatever rule was asked for, the tokenizer only builds well-formed
/// trees, and never a separator node: what `spec_parse` accepts, the
/// extractor's preconditions admit.
pub proof fn lemma_parse_wf(rule: Rule, s: Seq<char>)
    ensures
        spec_parse(rule, s) matches Some(p) ==> node_wf(p.0) && node_sep_free(p.0),
{
    match rule {
        Rule::Integer => lemma_parsed_integer_wf(s),
        Rule::BulkString => {},
        Rule::Array => lemma_parsed_array_wf(s),
    }
}

/// Order preservation: with no separator among the children, extraction
/// skips nothing, so each child's value stands at the child's own position.
pub proof fn lemma_extraction_preserves_order(elems: Seq<SpecNode>, i: int)
    requires
        0 <= i <= elems.len(),
        nodes_sep_free(elems),
    ensures
        extract_nodes(elems, i).len() == elems.len() - i,
        forall|j: int|
            i <= j < elems.len() ==> extract_nodes(elems, i)[j - i] == extract_node(
                #[trigger] elems[j],
            ),
    decreases elems.len() - i,
{
    if i < elems.len() {
        lemma_extraction_preserves_order(elems, i + 1);
    }
}

/// Order and nesting preservation for parsed arrays: the extraction of a
/// parsed array holds exactly the values of its children, in their input
/// order.
pub proof fn lemma_parsed_array_extraction(s: Seq<char>)
    ensures
        spec_parse_array(s) matches Some(p) ==> {
            let elems = array_children(p.0);
            &&& extract_nodes(elems, 0).len() == elems.len()
            &&& forall|j: int|
                0 <= j < elems.len() ==> extract_nodes(elems, 0)[j] == extract_node(
                    #[trigger] elems[j],
                )
        },
{
    lemma_parsed_array_wf(s);
    match spec_parse_array(s) {
        None => {},
        Some(p) => {
            lemma_extraction_preserves_order(array_children(p.0), 0);
        },
    }
}

/// Re-parsing is idempotent: the grammar is a function of the buffer and
/// the requested rule alone, so two parses of one buffer describe the same
/// node, and two extractions of one node the same value. Together with the
/// tokenizer's and the extractor's contracts, which pin their results to
/// these functions, any two runs over the same input end structurally
/// identical.
pub proof fn lemma_reparse_identical(
    rule: Rule,
    s: Seq<char>,
    r1: (SpecNode, nat),
    r2: (SpecNode, nat),
)
    requires
        spec_parse(rule, s) == Some(r1),
        spec_parse(rule, s) == Some(r2),
    ensures
        r1 == r2,
        extract_node(r1.0) == extract_node(r2.0),
{
}

} // verus!
