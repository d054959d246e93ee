//! The answer of a tracker to one announce.

use crate::decoder_helper::{
    decode_fields, decoded, field, fields_of, get_field, lemma_failing_row_fails_table,
    lemma_fields_row_by_row, number_at, number_in, table_view, text_at, text_in, value_of,
    DecodingError, ErrorView, FieldDescriptor, FieldDescriptorView, FieldKind,
};
use crate::encoding::document_tree;
use crate::parser::{parse, parse_result};
use crate::text::text_view;
use crate::value::{Tree, Value};
use vstd::pervasive::unreached;
use vstd::prelude::*;

verus! {

/// What a tracker answered: either the seconds to wait before the next
/// announce, with the counts it gave, or the reason of its refusal.
#[derive(Debug, Clone, PartialEq, Eq)]
pub struct TrackerResponse {
    pub interval: Option<i32>,
    pub failure_reason: Option<String>,
    pub complete: Option<i64>,
    pub incomplete: Option<i64>,
}

/// The model of a [`TrackerResponse`].
pub struct TrackerResponseView {
    pub interval: Option<i32>,
    pub failure_reason: Option<Seq<char>>,
    pub complete: Option<i64>,
    pub incomplete: Option<i64>,
}

impl TrackerResponseView {
    /// Exactly one of `interval` and `failure_reason` is there; an interval
    /// is positive, counts are not negative, and a refusal carries no count.
    pub open spec fn wf(self) -> bool {
        &&& self.interval is Some <==> self.failure_reason is None
        &&& self.interval matches Some(seconds) ==> seconds > 0
        &&& self.complete matches Some(count) ==> count >= 0
        &&& self.incomplete matches Some(count) ==> count >= 0
        &&& self.failure_reason is Some ==> self.complete is None && self.incomplete is None
    }
}

impl View for TrackerResponse {
    type V = TrackerResponseView;

    open spec fn view(&self) -> TrackerResponseView {
        TrackerResponseView {
            interval: self.interval,
            failure_reason: text_view(self.failure_reason),
            complete: self.complete,
            incomplete: self.incomplete,
        }
    }
}

impl DeepView for TrackerResponse {
    type V = TrackerResponseView;

    open spec fn deep_view(&self) -> TrackerResponseView {
        self@
    }
}

/// The table of the one field of a refusal: `failure reason`, a text.
pub open spec fn failure_table() -> Seq<FieldDescriptorView> {
    seq![FieldDescriptorView { name: "failure reason"@, required: true, kind: FieldKind::Text }]
}

/// The table of the fields of an answer: `interval`, a positive number of
/// seconds that fits in 32 bits; and `complete` and `incomplete`, counts
/// that may be absent.
pub open spec fn answer_table() -> Seq<FieldDescriptorView> {
    seq![
        FieldDescriptorView {
            name: "interval"@,
            required: true,
            kind: FieldKind::Number { low: 1, high: i32::MAX as i64 },
        },
        FieldDescriptorView {
            name: "complete"@,
            required: false,
            kind: FieldKind::Number { low: 0, high: i64::MAX },
        },
        FieldDescriptorView {
            name: "incomplete"@,
            required: false,
            kind: FieldKind::Number { low: 0, high: i64::MAX },
        },
    ]
}

/// A number as an interval in seconds.
pub open spec fn interval_view(n: Option<i64>) -> Option<i32> {
    match n {
        Some(n) => Some(n as i32),
        None => None,
    }
}

/// The answer that a node holds.
///
/// The node must be a dictionary. Where it has the key `failure reason`,
/// that field, read by the row of [`failure_table`], is the whole answer and
/// no other key is read. Otherwise its fields are read by the rows of
/// [`answer_table`].
pub open spec fn tracker_response_of(node: Tree) -> Result<TrackerResponseView, ErrorView> {
    if !(node is Dict) {
        Err(ErrorView::NotADict)
    } else if field(node, "failure reason"@) is Some {
        match fields_of(node, failure_table()) {
            Ok(fields) => Ok(
                TrackerResponseView {
                    interval: None,
                    failure_reason: text_at(fields, 0),
                    complete: None,
                    incomplete: None,
                },
            ),
            Err(e) => Err(e),
        }
    } else {
        match fields_of(node, answer_table()) {
            Ok(fields) => Ok(
                TrackerResponseView {
                    interval: interval_view(number_at(fields, 0)),
                    failure_reason: None,
                    complete: number_at(fields, 1),
                    incomplete: number_at(fields, 2),
                },
            ),
            Err(e) => Err(e),
        }
    }
}

/// The answer that the body of a tracker's reply holds.
pub open spec fn tracker_reply_of(body: Seq<u8>) -> Result<TrackerResponseView, ErrorView> {
    match parse_result(body) {
        Ok(tree) => tracker_response_of(tree),
        Err(e) => Err(e),
    }
}

/// What an accepted reply decodes to rests on its bytes alone: it is the
/// answer of the tree that the body encodes.
pub proof fn lemma_reply_decides(body: Seq<u8>)
    ensures
        tracker_reply_of(body) matches Ok(response) ==> document_tree(body) matches Some(tree)
            && tracker_response_of(tree) == Ok::<TrackerResponseView, ErrorView>(response),
{
}

/// An accepted answer is well formed.
pub proof fn lemma_response_is_well_formed(node: Tree)
    ensures
        tracker_response_of(node) matches Ok(response) ==> response.wf(),
{
    lemma_fields_row_by_row(node, failure_table());
    lemma_fields_row_by_row(node, answer_table());
    assert(failure_table()[0].required);
    assert(answer_table()[0].required);
    assert(!answer_table()[1].required);
    assert(!answer_table()[2].required);
}

/// Where a reply has the key `failure reason`, nothing else in it matters:
/// two replies with the same `failure reason` decode alike, whatever they
/// hold under `interval` or any other key.
pub proof fn lemma_failure_reason_decides(node: Tree, other: Tree)
    requires
        node is Dict,
        other is Dict,
        field(node, "failure reason"@) is Some,
        field(other, "failure reason"@) == field(node, "failure reason"@),
    ensures
        tracker_response_of(other) == tracker_response_of(node),
        tracker_response_of(node) matches Ok(response) ==> response.interval is None
            && response.failure_reason is Some,
{
    reveal_with_fuel(fields_of, 2);
    assert(failure_table().drop_last() =~= Seq::<FieldDescriptorView>::empty());
    lemma_response_is_well_formed(node);
}

/// An optional count of a reply that is there, but does not decode, fails
/// the reply, unless the reply gives a failure reason.
pub proof fn lemma_malformed_count_fails(node: Tree, row: int)
    requires
        field(node, "failure reason"@) is None,
        1 <= row < answer_table().len(),
        field(node, answer_table()[row].name) matches Some(value) && value_of(
            value,
            answer_table()[row].kind,
        ) is Err,
    ensures
        tracker_response_of(node) is Err,
{
    assert(!answer_table()[row].required);
    lemma_failing_row_fails_table(node, answer_table(), row);
}

/// Makes the table of the one field of a refusal.
pub fn failure_fields() -> (table: Vec<FieldDescriptor>)
    ensures
        table_view(table@) == failure_table(),
{
    let mut table: Vec<FieldDescriptor> = Vec::new();
    table.push(FieldDescriptor { name: "failure reason", required: true, kind: FieldKind::Text });
    assert(table_view(table@) =~= failure_table());
    table
}

/// Makes the table of the fields of an answer.
pub fn answer_fields() -> (table: Vec<FieldDescriptor>)
    ensures
        table_view(table@) == answer_table(),
{
    let mut table: Vec<FieldDescriptor> = Vec::new();
    table.push(
        FieldDescriptor {
            name: "interval",
            required: true,
            kind: FieldKind::Number { low: 1, high: i32::MAX as i64 },
        },
    );
    table.push(
        FieldDescriptor {
            name: "complete",
            required: false,
            kind: FieldKind::Number { low: 0, high: i64::MAX },
        },
    );
    table.push(
        FieldDescriptor {
            name: "incomplete",
            required: false,
            kind: FieldKind::Number { low: 0, high: i64::MAX },
        },
    );
    assert(table_view(table@) =~= answer_table());
    table
}

impl TrackerResponse {
    /// Decodes the answer of a tracker from its value tree.
    pub fn from_bencode(node: &Value) -> (r: Result<TrackerResponse, DecodingError>)
        ensures
            decoded(r) == tracker_response_of(node@),
            r matches Ok(response) ==> response@.wf(),
    {
        match node {
            Value::Dict(_) => {},
            _ => {
                return Err(DecodingError::NotADict);
            },
        }
        proof {
            lemma_response_is_well_formed(node@);
        }
        if get_field(node, "failure reason").is_some() {
            let fields = decode_fields(node, &failure_fields())?;
            return Ok(
                TrackerResponse {
                    interval: None,
                    failure_reason: text_in(&fields, 0),
                    complete: None,
                    incomplete: None,
                },
            );
        }
        let fields = decode_fields(node, &answer_fields())?;
        proof {
            lemma_fields_row_by_row(node@, answer_table());
            assert(answer_table()[0].required);
        }
        let interval = match number_in(&fields, 0) {
            Some(seconds) => seconds as i32,
            None => unreached(),
        };
        Ok(
            TrackerResponse {
                interval: Some(interval),
                failure_reason: None,
                complete: number_in(&fields, 1),
                incomplete: number_in(&fields, 2),
            },
        )
    }

    /// Decodes the answer of a tracker from the body of its reply.
    pub fn from_bytes(body: &[u8]) -> (r: Result<TrackerResponse, DecodingError>)
        ensures
            decoded(r) == tracker_reply_of(body@),
            r matches Ok(response) ==> response@.wf(),
    {
        let tree = parse(body)?;
        TrackerResponse::from_bencode(&tree)
    }
}

} // verus!
