//! Errors from building or interpreting a graph.

use vstd::prelude::*;
use vstd::string::StringExecFns;

use crate::formats::error::{error_text, Fault, FormatError};
use crate::text::{dec, dec_text, join, join_texts};

verus! {

#[derive(Debug, PartialEq, Eq)]
pub enum GraphError {
    UnsupportedArch(String),
    MissingTensor(String),
    ShapeMismatch { name: String, expected: Vec<u64>, got: Vec<u64> },
    BadHyperParams(String),
    TokenOutOfRange { id: u32, vocab: usize },
    SeqTooLong { got: usize, max: usize },
    Format(FormatError),
}

/// What a [`GraphError`] says.
#[verifier::ext_equal]
pub enum GraphFault {
    UnsupportedArch(Seq<char>),
    MissingTensor(Seq<char>),
    ShapeMismatch { name: Seq<char>, expected: Seq<u64>, got: Seq<u64> },
    BadHyperParams(Seq<char>),
    TokenOutOfRange { id: u32, vocab: nat },
    SeqTooLong { got: nat, max: nat },
    Format(Fault),
}

impl View for GraphError {
    type V = GraphFault;

    open spec fn view(&self) -> GraphFault {
        match self {
            GraphError::UnsupportedArch(s) => GraphFault::UnsupportedArch(s@),
            GraphError::MissingTensor(s) => GraphFault::MissingTensor(s@),
            GraphError::ShapeMismatch { name, expected, got } => GraphFault::ShapeMismatch {
                name: name@,
                expected: expected@,
                got: got@,
            },
            GraphError::BadHyperParams(s) => GraphFault::BadHyperParams(s@),
            GraphError::TokenOutOfRange { id, vocab } => GraphFault::TokenOutOfRange {
                id: *id,
                vocab: *vocab as nat,
            },
            GraphError::SeqTooLong { got, max } => GraphFault::SeqTooLong {
                got: *got as nat,
                max: *max as nat,
            },
            GraphError::Format(e) => GraphFault::Format(e@),
        }
    }
}

/// The decimal texts of a list of numbers.
pub open spec fn number_texts(v: Seq<u64>) -> Seq<Seq<char>> {
    v.map_values(|x: u64| dec(x as nat))
}

/// The decimal texts of a list of numbers with `sep` between them.
pub fn join_numbers(v: &Vec<u64>, sep: &str) -> (r: String)
    ensures
        r@ == join(number_texts(v@), sep@, v@.len()),
{
    let mut parts: Vec<String> = Vec::new();
    let ghost want = number_texts(v@);
    let mut i: usize = 0;
    while i < v.len()
        invariant
            i <= v@.len(),
            want == number_texts(v@),
            parts@.len() == i,
            forall|k: int| 0 <= k < i ==> (#[trigger] parts@[k])@ == want[k],
        decreases v.len() - i,
    {
        parts.push(dec_text(v[i]));
        i += 1;
    }
    proof {
        assert(parts@.map_values(|s: String| s@) =~= want);
    }
    join_texts(&parts, sep)
}

/// A list of numbers as it is shown: `[a, b, c]`.
pub open spec fn list_text(v: Seq<u64>) -> Seq<char> {
    "["@ + join(number_texts(v), ", "@, v.len()) + "]"@
}

/// The text of an error, as it is shown to a user.
pub open spec fn graph_error_text(e: GraphError) -> Seq<char> {
    match e {
        GraphError::UnsupportedArch(s) => "unsupported architecture: "@ + s@,
        GraphError::MissingTensor(s) => "missing tensor: "@ + s@,
        GraphError::ShapeMismatch { name, expected, got } => "tensor "@ + name@
            + ": expected shape "@ + list_text(expected@) + ", got "@ + list_text(got@),
        GraphError::BadHyperParams(s) => "invalid hyperparameters: "@ + s@,
        GraphError::TokenOutOfRange { id, vocab } => "token id "@ + dec(id as nat)
            + " out of range (vocab "@ + dec(vocab as nat) + ")"@,
        GraphError::SeqTooLong { got, max } => "sequence length "@ + dec(got as nat)
            + " exceeds capacity "@ + dec(max as nat),
        GraphError::Format(f) => error_text(f),
    }
}

fn list_string(v: &Vec<u64>) -> (s: String)
    ensures
        s@ == list_text(v@),
{
    let mut s = "[".to_owned();
    s.append(join_numbers(v, ", ").as_str());
    s.append("]");
    s
}

impl GraphError {
    /// The text of this error, as it is shown to a user.
    pub fn message(&self) -> (s: String)
        ensures
            s@ == graph_error_text(*self),
    {
        match self {
            GraphError::UnsupportedArch(a) => {
                let mut s = "unsupported architecture: ".to_owned();
                s.append(a.as_str());
                s
            },
            GraphError::MissingTensor(n) => {
                let mut s = "missing tensor: ".to_owned();
                s.append(n.as_str());
                s
            },
            GraphError::ShapeMismatch { name, expected, got } => {
                let mut s = "tensor ".to_owned();
                s.append(name.as_str());
                s.append(": expected shape ");
                s.append(list_string(expected).as_str());
                s.append(", got ");
                s.append(list_string(got).as_str());
                s
            },
            GraphError::BadHyperParams(d) => {
                let mut s = "invalid hyperparameters: ".to_owned();
                s.append(d.as_str());
                s
            },
            GraphError::TokenOutOfRange { id, vocab } => {
                let mut s = "token id ".to_owned();
                s.append(dec_text(*id as u64).as_str());
                s.append(" out of range (vocab ");
                s.append(dec_text(*vocab as u64).as_str());
                s.append(")");
                s
            },
            GraphError::SeqTooLong { got, max } => {
                let mut s = "sequence length ".to_owned();
                s.append(dec_text(*got as u64).as_str());
                s.append(" exceeds capacity ");
                s.append(dec_text(*max as u64).as_str());
                s
            },
            GraphError::Format(f) => f.message(),
        }
    }
}

} // verus!
