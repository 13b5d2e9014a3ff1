//! The extractor: turns a parse tree into a semantic value tree.
//!
//! Integer nodes become 32-bit signed integers, bulk string nodes become
//! their payload, and array nodes become the ordered sequence of their
//! children's values, extracted recursively. A child that is no integer,
//! bulk string or array is skipped, and the result stays dense: skipped
//! children leave no gap. An integer literal whose value does not fit the
//! 32-bit width is a [`ConversionError`].

use vstd::prelude::*;

use crate::grammar::all_digits;
use crate::grammar::digits_val;
use crate::grammar::int_literal_val;
use crate::grammar::lemma_digits_val_prefix_le;
use crate::grammar::wf_int_literal;
use crate::node::nodes_view;
use crate::node::values_view;
use crate::node::ArrayEntry;
use crate::node::ConversionError;
use crate::node::ParseNode;
use crate::node::SpecNode;
use crate::node::SpecValue;

verus! {

broadcast use vstd::std_specs::vec::group_vec_axioms, vstd::seq::group_seq_axioms;

/// A well-formed parse tree: every integer node carries a literal of the
/// shape the grammar captures, an optional minus sign and then digits.
pub open spec fn node_wf(n: SpecNode) -> bool
    decreases n, 1int,
{
    match n {
        SpecNode::Integer { literal } => wf_int_literal(literal),
        SpecNode::BulkString { .. } => true,
        SpecNode::Array { elems } => nodes_wf(elems),
        SpecNode::Separator => true,
    }
}

/// Every tree of the sequence is well-formed.
pub open spec fn nodes_wf(elems: Seq<SpecNode>) -> bool
    decreases elems, 0int,
{
    forall|i: int| 0 <= i < elems.len() ==> node_wf(#[trigger] elems[i])
}

/// Every integer literal in the tree fits the 32-bit signed width.
pub open spec fn node_ints_fit(n: SpecNode) -> bool
    decreases n, 1int,
{
    match n {
        SpecNode::Integer { literal } => i32::MIN <= int_literal_val(literal) <= i32::MAX,
        SpecNode::BulkString { .. } => true,
        SpecNode::Array { elems } => nodes_ints_fit(elems),
        SpecNode::Separator => true,
    }
}

/// Every integer literal in every tree of the sequence fits the width.
pub open spec fn nodes_ints_fit(elems: Seq<SpecNode>) -> bool
    decreases elems, 0int,
{
    forall|i: int| 0 <= i < elems.len() ==> node_ints_fit(#[trigger] elems[i])
}

/// The semantic value of one parse node.
pub open spec fn extract_node(n: SpecNode) -> SpecValue
    decreases n, 1int,
{
    match n {
        SpecNode::Integer { literal } => SpecValue::Int(int_literal_val(literal)),
        SpecNode::BulkString { text } => SpecValue::Text(text),
        SpecNode::Array { elems } => SpecValue::Array(extract_nodes(elems, 0)),
        SpecNode::Separator => arbitrary(),
    }
}

/// The semantic values of the children from position `i` on, in order;
/// children of no extractable kind are skipped and leave no gap.
pub open spec fn extract_nodes(elems: Seq<SpecNode>, i: int) -> Seq<SpecValue>
    decreases elems, elems.len() - i, 0int,
{
    if i < 0 || i >= elems.len() {
        Seq::empty()
    } else {
        let rest = extract_nodes(elems, i + 1);
        if elems[i] is Separator {
            rest
        } else {
            seq![extract_node(elems[i])] + rest
        }
    }
}

/// The children of an array node.
pub open spec fn array_children(n: SpecNode) -> Seq<SpecNode> {
    match n {
        SpecNode::Array { elems } => elems,
        _ => Seq::empty(),
    }
}

/// The captured literal of an integer node.
pub open spec fn int_node_literal(n: SpecNode) -> Seq<char> {
    match n {
        SpecNode::Integer { literal } => literal,
        _ => Seq::empty(),
    }
}

/// Converts the captured literal of an integer node to its signed 32-bit
/// value; a literal whose value lies outside that width is a
/// [`ConversionError`], and nothing else is.
pub fn extract_int_value(node: &ParseNode) -> (r: Result<i32, ConversionError>)
    requires
        node@ is Integer,
        wf_int_literal(int_node_literal(node@)),
    ensures
        ({
            let v = int_literal_val(int_node_literal(node@));
            match r {
                Ok(x) => i32::MIN <= v <= i32::MAX && x == v,
                Err(_) => !(i32::MIN <= v <= i32::MAX),
            }
        }),
{
    match node {
        ParseNode::Integer { literal } => int_value_of(literal),
        _ => {
            proof {
                assert(false);
            }
            Err(ConversionError)
        },
    }
}

/// The numeric conversion behind `extract_int_value`, on the captured
/// literal itself.
fn int_value_of(lit: &String) -> (r: Result<i32, ConversionError>)
    requires
        wf_int_literal(lit@),
    ensures
        ({
            let v = int_literal_val(lit@);
            match r {
                Ok(x) => i32::MIN <= v <= i32::MAX && x == v,
                Err(_) => !(i32::MIN <= v <= i32::MAX),
            }
        }),
{
    let ls: &str = lit.as_str();
    let llen = ls.unicode_len();
    let ghost l = ls@;
    let neg = if llen > 0 {
        ls.get_char(0) == '-'
    } else {
        false
    };
    let start: usize = if neg {
        1
    } else {
        0
    };
    proof {
        assert(l.skip(0) =~= l);
    }
    let mut i = start;
    let mut acc: u64 = 0;
    while i < llen
        invariant
            l == ls@,
            l == lit@,
            llen as nat == l.len(),
            wf_int_literal(l),
            start == (if l.len() > 0 && l[0] == '-' {
                1int
            } else {
                0int
            }),
            start <= i <= llen,
            all_digits(l.skip(start as int)),
            acc <= 0x8000_0000u64,
            acc == digits_val(l.subrange(start as int, i as int)),
        decreases llen - i,
    {
        proof {
            assert(l.skip(start as int)[i - start] == l[i as int]);
        }
        let c = ls.get_char(i);
        let d = ((c as u32) - ('0' as u32)) as u64;
        proof {
            assert(l.subrange(start as int, (i + 1) as int).drop_last() =~= l.subrange(
                start as int,
                i as int,
            ));
            assert(l.subrange(start as int, (i + 1) as int).last() == l[i as int]);
        }
        let next = acc * 10 + d;
        if next > 0x8000_0000u64 {
            proof {
                let dig = l.skip(start as int);
                lemma_digits_val_prefix_le(dig, i + 1 - start, llen - start as int);
                assert(dig.subrange(0, i + 1 - start) =~= l.subrange(start as int, (i + 1) as int));
                assert(dig.subrange(0, llen - start as int) =~= dig);
                assert(l.skip(0) =~= l);
            }
            return Err(ConversionError);
        }
        acc = next;
        i = i + 1;
    }
    proof {
        assert(l.subrange(start as int, llen as int) =~= l.skip(start as int));
    }
    if neg {
        Ok((-(acc as i64)) as i32)
    } else {
        if acc > 0x7FFF_FFFFu64 {
            return Err(ConversionError);
        }
        Ok(acc as i32)
    }
}

/// Hands out the captured payload of a bulk string node, of exactly the
/// declared length, embedded control characters included.
pub fn extract_string_value(node: &ParseNode) -> (r: String)
    requires
        node@ is BulkString,
    ensures
        node@ matches SpecNode::BulkString { text } && r@ == text,
{
    match node {
        ParseNode::BulkString { text } => text.clone(),
        _ => {
            proof {
                assert(false);
            }
            String::new()
        },
    }
}

/// Extracts the children of an array node in order, recursively, skipping
/// children of no extractable kind without leaving a gap. Fails exactly
/// when some extractable integer in the tree does not fit the 32-bit width.
pub fn extract_array_entries(node: &ParseNode) -> (r: Result<Vec<ArrayEntry>, ConversionError>)
    requires
        node@ is Array,
        node_wf(node@),
    ensures
        (match r {
            Ok(v) => node_ints_fit(node@) && values_view(v@) == extract_nodes(
                array_children(node@),
                0,
            ),
            Err(_) => !node_ints_fit(node@),
        }),
    decreases node, 0int,
{
    match node {
        ParseNode::Array { elems } => extract_children(elems),
        _ => {
            proof {
                assert(false);
            }
            Err(ConversionError)
        },
    }
}

/// Extracts each tree of a sequence in order, skipping separators.
fn extract_children(elems: &Vec<ParseNode>) -> (r: Result<Vec<ArrayEntry>, ConversionError>)
    requires
        nodes_wf(nodes_view(elems@)),
    ensures
        (match r {
            Ok(v) => nodes_ints_fit(nodes_view(elems@)) && values_view(v@) == extract_nodes(
                nodes_view(elems@),
                0,
            ),
            Err(_) => !nodes_ints_fit(nodes_view(elems@)),
        }),
    decreases elems, 2int,
{
    let ghost children = nodes_view(elems@);
    let mut out: Vec<ArrayEntry> = Vec::new();
    let mut i: usize = 0;
    proof {
        assert(values_view(out@) + extract_nodes(children, 0) =~= extract_nodes(children, 0));
    }
    while i < elems.len()
        invariant
            children == nodes_view(elems@),
            nodes_wf(children),
            0 <= i <= elems@.len(),
            forall|j: int| 0 <= j < i ==> node_ints_fit(#[trigger] children[j]),
            extract_nodes(children, 0) == values_view(out@) + extract_nodes(children, i as int),
        decreases elems@.len() - i,
    {
        let child = &elems[i];
        let is_sep = match child {
            ParseNode::Separator => true,
            _ => false,
        };
        if !is_sep {
            let entry = match extract(child) {
                Ok(entry) => entry,
                Err(e) => {
                    proof {
                        assert(!node_ints_fit(children[i as int]));
                    }
                    return Err(e);
                },
            };
            let ghost prev = out@;
            proof {
                assert(values_view(prev.push(entry)) =~= values_view(prev).push(entry@));
                assert(values_view(prev).push(extract_node(children[i as int])) + extract_nodes(
                    children,
                    i + 1,
                ) =~= values_view(prev) + (seq![extract_node(children[i as int])] + extract_nodes(
                    children,
                    i + 1,
                )));
            }
            out.push(entry);
        }
        i = i + 1;
    }
    proof {
        assert(values_view(out@) + extract_nodes(children, i as int) =~= values_view(out@));
    }
    Ok(out)
}

/// Converts a successfully parsed node into its semantic value. Fails
/// exactly when some extractable integer in the tree does not fit the
/// 32-bit width.
pub fn extract(node: &ParseNode) -> (r: Result<ArrayEntry, ConversionError>)
    requires
        !(node@ is Separator),
        node_wf(node@),
    ensures
        (match r {
            Ok(v) => node_ints_fit(node@) && v@ == extract_node(node@),
            Err(_) => !node_ints_fit(node@),
        }),
    decreases node, 1int,
{
    match node {
        ParseNode::Integer { .. } => {
            match extract_int_value(node) {
                Ok(x) => Ok(ArrayEntry::Int(x)),
                Err(e) => Err(e),
            }
        },
        ParseNode::BulkString { .. } => Ok(ArrayEntry::Text(extract_string_value(node))),
        ParseNode::Array { .. } => {
            match extract_array_entries(node) {
                Ok(v) => Ok(ArrayEntry::Array(v)),
                Err(e) => Err(e),
            }
        },
        ParseNode::Separator => {
            proof {
                assert(false);
            }
            Err(ConversionError)
        },
    }
}

} // verus!
