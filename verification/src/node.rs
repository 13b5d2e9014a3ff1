//! The syntactic and semantic trees of the decoder.
//!
//! [`ParseNode`] is the transient parse tree one call of the tokenizer
//! produces; [`SpecNode`] is its mathematical model. [`ArrayEntry`] is the
//! semantic value the extractor produces; [`SpecValue`] is its model.

use vstd::prelude::*;

verus! {

broadcast use vstd::std_specs::vec::group_vec_axioms, vstd::seq::group_seq_axioms;

/// The grammar rule a caller asks the tokenizer to recognise.
#[derive(Clone, Copy, PartialEq, Eq, Debug)]
pub enum Rule {
    Integer,
    BulkString,
    Array,
}

/// The input does not match the requested grammar rule at its start.
#[derive(Clone, Copy, PartialEq, Eq, Debug)]
pub struct SyntaxError;

/// A syntactically valid integer literal does not fit in the semantic width.
#[derive(Clone, Copy, PartialEq, Eq, Debug)]
pub struct ConversionError;

/// One node of the parse tree a single parse call builds and the extractor
/// then consumes.
#[derive(Debug, PartialEq, Eq)]
pub enum ParseNode {
    /// An integer element; `literal` is the captured optional sign plus
    /// digit run, without the `:` sigil or the terminator.
    Integer { literal: String },
    /// A bulk string element; `text` is the captured payload of exactly the
    /// declared length, embedded control characters included.
    BulkString { text: String },
    /// An array element; `elems` are its children in input order.
    Array { elems: Vec<ParseNode> },
    /// A structural separator. The tokenizer never returns one, but the
    /// extractor accepts trees that contain them and skips them.
    Separator,
}

/// The mathematical model of a [`ParseNode`].
pub enum SpecNode {
    Integer { literal: Seq<char> },
    BulkString { text: Seq<char> },
    Array { elems: Seq<SpecNode> },
    Separator,
}

impl View for ParseNode {
    type V = SpecNode;

    open spec fn view(&self) -> SpecNode
        decreases self,
    {
        match self {
            ParseNode::Integer { literal } => SpecNode::Integer { literal: literal@ },
            ParseNode::BulkString { text } => SpecNode::BulkString { text: text@ },
            ParseNode::Array { elems } => SpecNode::Array { elems: nodes_view(elems@) },
            ParseNode::Separator => SpecNode::Separator,
        }
    }
}

/// The models of a sequence of parse nodes, in order.
pub open spec fn nodes_view(v: Seq<ParseNode>) -> Seq<SpecNode>
    decreases v,
{
    Seq::new(
        v.len(),
        |i: int|
            if 0 <= i < v.len() {
                v[i]@
            } else {
                arbitrary()
            },
    )
}

/// A semantic value: the result of extracting a parse tree.
#[derive(Debug, PartialEq, Eq)]
pub enum ArrayEntry {
    Int(i32),
    Text(String),
    Array(Vec<ArrayEntry>),
}

/// The mathematical model of an [`ArrayEntry`]; integers widen to `int`.
pub enum SpecValue {
    Int(int),
    Text(Seq<char>),
    Array(Seq<SpecValue>),
}

impl View for ArrayEntry {
    type V = SpecValue;

    open spec fn view(&self) -> SpecValue
        decreases self,
    {
        match self {
            ArrayEntry::Int(n) => SpecValue::Int(*n as int),
            ArrayEntry::Text(s) => SpecValue::Text(s@),
            ArrayEntry::Array(v) => SpecValue::Array(values_view(v@)),
        }
    }
}

/// The models of a sequence of semantic values, in order.
pub open spec fn values_view(v: Seq<ArrayEntry>) -> Seq<SpecValue>
    decreases v,
{
    Seq::new(
        v.len(),
        |i: int|
            if 0 <= i < v.len() {
                v[i]@
            } else {
                arbitrary()
            },
    )
}

} // verus!
