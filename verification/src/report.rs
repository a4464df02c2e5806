//! The texts that go out: the currencies of a cycle in one line, and the
//! reason for a rejected batch.

use crate::parse::{ParseError, ParseErrorView};
use crate::store::{GraphStore, NodeId};
use crate::text::join;
use vstd::prelude::*;
use vstd::string::StringExecFns;

verus! {

/// The currencies that the ids of a path stand for, in order.
pub open spec fn names_along(names: Seq<Seq<char>>, path: Seq<NodeId>) -> Seq<Seq<char>> {
    path.map_values(|id: NodeId| names[id as int])
}

/// The currencies along the path, joined by `=>`.
pub fn path_to_string(path: &Vec<NodeId>, store: &GraphStore) -> (line: String)
    requires
        store.wf(),
        forall|i: int| 0 <= i < path.len() ==> path[i] < store@.names.len(),
    ensures
        line@ == join(names_along(store@.names, path@), "=>"@),
{
    let ghost parts = names_along(store@.names, path@);
    let mut line = String::new();
    let mut i: usize = 0;
    assert(parts.take(0) =~= Seq::<Seq<char>>::empty());
    while i < path.len()
        invariant
            0 <= i <= path.len(),
            store.wf(),
            forall|k: int| 0 <= k < path.len() ==> path[k] < store@.names.len(),
            parts == names_along(store@.names, path@),
            line@ == join(parts.take(i as int), "=>"@),
        decreases path.len() - i,
    {
        let ghost before = line@;
        if i > 0 {
            line.append("=>");
        }
        let name = store.name_of(path[i]);
        line.append(name.as_str());
        proof {
            let now = parts.take(i + 1);
            assert(now.drop_last() =~= parts.take(i as int));
            assert(now.last() == name@);
            if i == 0 {
                assert(line@ =~= name@);
            } else {
                assert(line@ =~= before + "=>"@ + name@);
            }
        }
        i += 1;
    }
    assert(parts.take(path.len() as int) =~= parts);
    line
}

/// The line for a reported cycle: the marker `CYCLE`, the currencies along the
/// cycle joined by `=>`, and the conversion factor as the caller has rendered
/// it.
pub fn cycle_line(path: &Vec<NodeId>, store: &GraphStore, factor: &str) -> (line: String)
    requires
        store.wf(),
        forall|i: int| 0 <= i < path.len() ==> path[i] < store@.names.len(),
    ensures
        line@ == "CYCLE "@ + join(names_along(store@.names, path@), "=>"@) + " "@ + factor@,
{
    let mut line = String::from_str("CYCLE ");
    let names = path_to_string(path, store);
    line.append(names.as_str());
    line.append(" ");
    line.append(factor);
    line
}

/// The reason for a rejected batch, in words.
pub open spec fn reason(e: ParseErrorView) -> Seq<char> {
    match e {
        ParseErrorView::MalformedTriple(value) => "bad format '"@ + value + "'"@,
        ParseErrorView::InvalidRate(field) => "'"@ + field + "' not a float"@,
        ParseErrorView::DuplicatePair => "duplicate entries"@,
    }
}

impl ParseError {
    /// The reason in words: `bad format '<triple>'`, `'<field>' not a float`
    /// or `duplicate entries`.
    pub fn message(&self) -> (text: String)
        ensures
            text@ == reason(self@),
    {
        match self {
            ParseError::MalformedTriple(value) => {
                let mut text = String::from_str("bad format '");
                text.append(value.as_str());
                text.append("'");
                text
            },
            ParseError::InvalidRate(field) => {
                let mut text = String::from_str("'");
                text.append(field.as_str());
                text.append("' not a float");
                text
            },
            ParseError::DuplicatePair => String::from_str("duplicate entries"),
        }
    }
}

/// The line for the error channel: `ERROR ` and the reason.
pub fn mkerror(msg: String) -> (line: String)
    ensures
        line@ == "ERROR "@ + msg@,
{
    let mut line = String::from_str("ERROR ");
    line.append(msg.as_str());
    line
}

} // verus!
