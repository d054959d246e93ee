//! The typed decoding engine: the error taxonomy, the decoders of single
//! values, the two ways to read a field of a dictionary, and the reading of
//! a whole table of fields.

use crate::text::str_from_utf8;
use crate::value::{Tree, Value};
use vstd::prelude::*;
use vstd::slice::slice_to_vec;
use vstd::utf8::{decode_utf8, encode_utf8, valid_utf8};

verus! {

/// Why a value was not accepted as a number.
#[derive(Debug, Clone, PartialEq, Eq)]
pub enum NumberDetail {
    /// The value is not an integer.
    InvalidType,
    /// The value is an integer outside the range that the field allows.
    OutOfRange(i64),
}

/// Why a value was not accepted as a string.
#[derive(Debug, Clone, PartialEq, Eq)]
pub enum StringDetail {
    /// The value is not a byte string.
    InvalidType,
    /// The byte string is not UTF-8.
    InvalidUtf8,
    /// The byte string has a length that the field does not allow.
    InvalidLength(usize),
}

/// Why a document was not accepted as bencode.
#[derive(Debug, Clone, PartialEq, Eq)]
pub enum ParseDetail {
    /// The document is not one complete value within the limits, or the
    /// parser's events do not nest into one value.
    Malformed,
    /// The parser reported an error at byte `pos`.
    Rejected { pos: u32, msg: String },
    /// The parser's events nest into a value that the document does not
    /// encode.
    Mismatch,
}

/// The model of a [`ParseDetail`].
pub enum ParseDetailView {
    Malformed,
    Rejected { pos: u32, msg: Seq<char> },
    Mismatch,
}

impl View for ParseDetail {
    type V = ParseDetailView;

    open spec fn view(&self) -> ParseDetailView {
        match self {
            ParseDetail::Malformed => ParseDetailView::Malformed,
            ParseDetail::Rejected { pos, msg } => ParseDetailView::Rejected { pos: *pos, msg: msg@ },
            ParseDetail::Mismatch => ParseDetailView::Mismatch,
        }
    }
}

/// Every way in which decoding, or one announce, can fail.
#[derive(Debug, Clone, PartialEq, Eq)]
pub enum DecodingError {
    /// A required key is absent; the key is given.
    MissingField(String),
    /// A dictionary was expected.
    NotADict,
    /// A field that must be a number is not one.
    NotANumber(NumberDetail),
    /// A field that must be a string is not one.
    NotAString(StringDetail),
    /// Reading the input failed.
    IoError(String),
    /// The input is not bencode.
    ParseError(ParseDetail),
    /// An info dictionary describes neither one file nor a list of files.
    UnsupportedMode,
    /// The tracker refused the request; its reason is given.
    TrackerFailure(String),
    /// The request could not be carried out.
    TransportError,
}

/// The model of a [`DecodingError`].
pub enum ErrorView {
    MissingField(Seq<char>),
    NotADict,
    NotANumber(NumberDetail),
    NotAString(StringDetail),
    IoError(Seq<char>),
    ParseError(ParseDetailView),
    UnsupportedMode,
    TrackerFailure(Seq<char>),
    TransportError,
}

impl View for DecodingError {
    type V = ErrorView;

    open spec fn view(&self) -> ErrorView {
        match self {
            DecodingError::MissingField(name) => ErrorView::MissingField(name@),
            DecodingError::NotADict => ErrorView::NotADict,
            DecodingError::NotANumber(detail) => ErrorView::NotANumber(*detail),
            DecodingError::NotAString(detail) => ErrorView::NotAString(*detail),
            DecodingError::IoError(detail) => ErrorView::IoError(detail@),
            DecodingError::ParseError(detail) => ErrorView::ParseError(detail@),
            DecodingError::UnsupportedMode => ErrorView::UnsupportedMode,
            DecodingError::TrackerFailure(reason) => ErrorView::TrackerFailure(reason@),
            DecodingError::TransportError => ErrorView::TransportError,
        }
    }
}

/// The model of a decoder's result.
pub open spec fn decoded<T: DeepView>(r: Result<T, DecodingError>) -> Result<T::V, ErrorView> {
    match r {
        Ok(value) => Ok(value.deep_view()),
        Err(e) => Err(e@),
    }
}

/// What a field holds, and so how its value is decoded.
#[derive(Debug, Clone, Copy, PartialEq, Eq)]
pub enum FieldKind {
    /// A number from `low` to `high`.
    Number { low: i64, high: i64 },
    /// A text.
    Text,
    /// A byte string whose length is a multiple of `unit`; of any length
    /// where `unit` is 0.
    Bytes { unit: usize },
}

/// One row of the table of fields of a structure: the key, whether it must
/// be there, and what it holds.
#[derive(Debug, Clone, Copy, PartialEq, Eq)]
pub struct FieldDescriptor {
    pub name: &'static str,
    pub required: bool,
    pub kind: FieldKind,
}

/// The model of a [`FieldDescriptor`].
pub struct FieldDescriptorView {
    pub name: Seq<char>,
    pub required: bool,
    pub kind: FieldKind,
}

impl View for FieldDescriptor {
    type V = FieldDescriptorView;

    open spec fn view(&self) -> FieldDescriptorView {
        FieldDescriptorView { name: self.name@, required: self.required, kind: self.kind }
    }
}

/// The models of the rows of a table.
pub open spec fn table_view(table: Seq<FieldDescriptor>) -> Seq<FieldDescriptorView> {
    Seq::new(table.len(), |i: int| table[i]@)
}

/// The decoded value of a field.
#[derive(Debug, Clone, PartialEq, Eq)]
pub enum FieldValue {
    Number(i64),
    Text(String),
    Bytes(Vec<u8>),
}

/// The model of a [`FieldValue`].
pub enum FieldValueView {
    Number(i64),
    Text(Seq<char>),
    Bytes(Seq<u8>),
}

impl View for FieldValue {
    type V = FieldValueView;

    open spec fn view(&self) -> FieldValueView {
        match self {
            FieldValue::Number(n) => FieldValueView::Number(*n),
            FieldValue::Text(text) => FieldValueView::Text(text@),
            FieldValue::Bytes(bytes) => FieldValueView::Bytes(bytes@),
        }
    }
}

impl DeepView for FieldValue {
    type V = FieldValueView;

    open spec fn deep_view(&self) -> FieldValueView {
        self@
    }
}

/// The model of a field that may be absent.
pub open spec fn field_view(value: Option<FieldValue>) -> Option<FieldValueView> {
    match value {
        Some(value) => Some(value@),
        None => None,
    }
}

/// The models of the fields read from a table.
pub open spec fn field_views(values: Seq<Option<FieldValue>>) -> Seq<Option<FieldValueView>> {
    Seq::new(values.len(), |i: int| field_view(values[i]))
}

/// The number that a node holds, where it lies between `low` and `high`.
pub open spec fn number_of(node: Tree, low: i64, high: i64) -> Result<i64, ErrorView> {
    match node {
        Tree::Integer(n) => if low <= n <= high {
            Ok(n)
        } else {
            Err(ErrorView::NotANumber(NumberDetail::OutOfRange(n)))
        },
        _ => Err(ErrorView::NotANumber(NumberDetail::InvalidType)),
    }
}

/// The text that a node holds as UTF-8.
pub open spec fn text_of(node: Tree) -> Result<Seq<char>, ErrorView> {
    match node {
        Tree::ByteString(bytes) => if valid_utf8(bytes) {
            Ok(decode_utf8(bytes))
        } else {
            Err(ErrorView::NotAString(StringDetail::InvalidUtf8))
        },
        _ => Err(ErrorView::NotAString(StringDetail::InvalidType)),
    }
}

/// The bytes that a node holds, where their number is a multiple of `unit`
/// or `unit` is 0.
pub open spec fn bytes_of(node: Tree, unit: usize) -> Result<Seq<u8>, ErrorView> {
    match node {
        Tree::ByteString(bytes) => if unit == 0 || bytes.len() % (unit as nat) == 0 {
            Ok(bytes)
        } else {
            Err(ErrorView::NotAString(StringDetail::InvalidLength(bytes.len() as usize)))
        },
        _ => Err(ErrorView::NotAString(StringDetail::InvalidType)),
    }
}

/// The value that a node holds as a field of the given kind.
pub open spec fn value_of(node: Tree, kind: FieldKind) -> Result<FieldValueView, ErrorView> {
    match kind {
        FieldKind::Number { low, high } => match number_of(node, low, high) {
            Ok(n) => Ok(FieldValueView::Number(n)),
            Err(e) => Err(e),
        },
        FieldKind::Text => match text_of(node) {
            Ok(text) => Ok(FieldValueView::Text(text)),
            Err(e) => Err(e),
        },
        FieldKind::Bytes { unit } => match bytes_of(node, unit) {
            Ok(bytes) => Ok(FieldValueView::Bytes(bytes)),
            Err(e) => Err(e),
        },
    }
}

/// The value of the key `name` in a dictionary.
pub open spec fn field(dict: Tree, name: Seq<char>) -> Option<Tree> {
    dict.get(encode_utf8(name))
}

/// A required field: an absent key is `MissingField`, a present one is
/// decoded.
pub open spec fn required(dict: Tree, name: Seq<char>, kind: FieldKind) -> Result<
    FieldValueView,
    ErrorView,
> {
    match field(dict, name) {
        Some(node) => value_of(node, kind),
        None => Err(ErrorView::MissingField(name)),
    }
}

/// An optional field: an absent key is `None`, a present one is decoded, and
/// a present one that does not decode is that error.
pub open spec fn optional(dict: Tree, name: Seq<char>, kind: FieldKind) -> Result<
    Option<FieldValueView>,
    ErrorView,
> {
    match field(dict, name) {
        Some(node) => match value_of(node, kind) {
            Ok(value) => Ok(Some(value)),
            Err(e) => Err(e),
        },
        None => Ok(None),
    }
}

/// The field that a row of a table describes, read as required or as
/// optional.
pub open spec fn field_of(dict: Tree, row: FieldDescriptorView) -> Result<
    Option<FieldValueView>,
    ErrorView,
> {
    if row.required {
        match required(dict, row.name, row.kind) {
            Ok(value) => Ok(Some(value)),
            Err(e) => Err(e),
        }
    } else {
        optional(dict, row.name, row.kind)
    }
}

/// The fields of a table, read row by row: the values in the order of the
/// rows, or the error of the first row that fails.
pub open spec fn fields_of(dict: Tree, table: Seq<FieldDescriptorView>) -> Result<
    Seq<Option<FieldValueView>>,
    ErrorView,
>
    decreases table.len(),
{
    if table.len() == 0 {
        Ok(Seq::empty())
    } else {
        match fields_of(dict, table.drop_last()) {
            Ok(values) => match field_of(dict, table.last()) {
                Ok(value) => Ok(values.push(value)),
                Err(e) => Err(e),
            },
            Err(e) => Err(e),
        }
    }
}

/// The number in row `i` of the fields read from a table.
pub open spec fn number_at(values: Seq<Option<FieldValueView>>, i: int) -> Option<i64> {
    if 0 <= i < values.len() {
        match values[i] {
            Some(FieldValueView::Number(n)) => Some(n),
            _ => None,
        }
    } else {
        None
    }
}

/// The text in row `i` of the fields read from a table.
pub open spec fn text_at(values: Seq<Option<FieldValueView>>, i: int) -> Option<Seq<char>> {
    if 0 <= i < values.len() {
        match values[i] {
            Some(FieldValueView::Text(text)) => Some(text),
            _ => None,
        }
    } else {
        None
    }
}

/// The bytes in row `i` of the fields read from a table.
pub open spec fn bytes_at(values: Seq<Option<FieldValueView>>, i: int) -> Option<Seq<u8>> {
    if 0 <= i < values.len() {
        match values[i] {
            Some(FieldValueView::Bytes(bytes)) => Some(bytes),
            _ => None,
        }
    } else {
        None
    }
}

/// What reading a table means row by row: where it succeeds, every row was
/// read to the value at its place; where it fails, it fails with the error
/// of a row before which every row was read.
pub proof fn lemma_fields_row_by_row(dict: Tree, table: Seq<FieldDescriptorView>)
    ensures
        fields_of(dict, table) matches Ok(values) ==> values.len() == table.len() && forall|
            i: int,
        |
            0 <= i < table.len() ==> field_of(dict, #[trigger] table[i]) == Ok::<
                Option<FieldValueView>,
                ErrorView,
            >(values[i]),
        fields_of(dict, table) matches Err(e) ==> exists|i: int|
            0 <= i < table.len() && field_of(dict, #[trigger] table[i]) == Err::<
                Option<FieldValueView>,
                ErrorView,
            >(e) && forall|j: int| 0 <= j < i ==> field_of(dict, #[trigger] table[j]) is Ok,
    decreases table.len(),
{
    if table.len() > 0 {
        let front = table.drop_last();
        lemma_fields_row_by_row(dict, front);
        match fields_of(dict, front) {
            Ok(values) => {
                match field_of(dict, table.last()) {
                    Ok(value) => {
                        let all = values.push(value);
                        assert forall|i: int| 0 <= i < table.len() implies field_of(
                            dict,
                            #[trigger] table[i],
                        ) == Ok::<Option<FieldValueView>, ErrorView>(all[i]) by {
                            if i < front.len() {
                                assert(table[i] == front[i]);
                            }
                        }
                    },
                    Err(e) => {
                        let last = table.len() - 1;
                        assert forall|j: int| 0 <= j < last implies field_of(
                            dict,
                            #[trigger] table[j],
                        ) is Ok by {
                            assert(table[j] == front[j]);
                        }
                        assert(field_of(dict, table[last]) == Err::<
                            Option<FieldValueView>,
                            ErrorView,
                        >(e));
                    },
                }
            },
            Err(e) => {
                let i = choose|i: int|
                    0 <= i < front.len() && field_of(dict, #[trigger] front[i]) == Err::<
                        Option<FieldValueView>,
                        ErrorView,
                    >(e) && forall|j: int| 0 <= j < i ==> field_of(dict, #[trigger] front[j]) is Ok;
                assert(table[i] == front[i]);
                assert forall|j: int| 0 <= j < i implies field_of(dict, #[trigger] table[j]) is Ok by {
                    assert(table[j] == front[j]);
                }
            },
        }
    }
}

/// A table fails where one of its rows fails: in particular, an optional
/// field that is there but does not decode is never passed over as absent.
pub proof fn lemma_failing_row_fails_table(dict: Tree, table: Seq<FieldDescriptorView>, i: int)
    requires
        0 <= i < table.len(),
        field_of(dict, table[i]) is Err,
    ensures
        fields_of(dict, table) is Err,
{
    lemma_fields_row_by_row(dict, table);
}

/// An optional field is `None` only where the key is absent: a value that
/// is there decodes, or fails with the error of its decoder.
pub proof fn lemma_optional_reads_what_is_there(dict: Tree, name: Seq<char>, kind: FieldKind)
    ensures
        optional(dict, name, kind) == Ok::<Option<FieldValueView>, ErrorView>(None) <==> field(
            dict,
            name,
        ) is None,
        field(dict, name) matches Some(node) ==> (optional(dict, name, kind) is Err <==> value_of(
            node,
            kind,
        ) is Err),
{
}

/// Looks the key `name` up in a dictionary.
pub fn get_field<'a>(dict: &'a Value, name: &str) -> (r: Option<&'a Value>)
    ensures
        r matches Some(node) ==> field(dict@, name@) == Some(node@),
        r is None ==> field(dict@, name@) is None,
{
    dict.get(name.as_bytes())
}

/// Decodes a number that lies between `low` and `high`.
pub fn decode_number(node: &Value, low: i64, high: i64) -> (r: Result<i64, DecodingError>)
    ensures
        decoded(r) == number_of(node@, low, high),
{
    match node {
        Value::Integer(n) => {
            if low <= *n && *n <= high {
                Ok(*n)
            } else {
                Err(DecodingError::NotANumber(NumberDetail::OutOfRange(*n)))
            }
        },
        _ => Err(DecodingError::NotANumber(NumberDetail::InvalidType)),
    }
}

/// Decodes a text.
pub fn decode_text(node: &Value) -> (r: Result<String, DecodingError>)
    ensures
        decoded(r) == text_of(node@),
{
    match node {
        Value::ByteString(bytes) => match str_from_utf8(bytes.as_slice()) {
            Some(text) => Ok(text.to_owned()),
            None => Err(DecodingError::NotAString(StringDetail::InvalidUtf8)),
        },
        _ => Err(DecodingError::NotAString(StringDetail::InvalidType)),
    }
}

/// Decodes a byte string whose length is a multiple of `unit`, or any byte
/// string where `unit` is 0.
pub fn decode_bytes(node: &Value, unit: usize) -> (r: Result<Vec<u8>, DecodingError>)
    ensures
        r matches Ok(bytes) ==> bytes_of(node@, unit) == Ok::<Seq<u8>, ErrorView>(bytes@),
        r matches Err(e) ==> bytes_of(node@, unit) == Err::<Seq<u8>, ErrorView>(e@),
{
    match node {
        Value::ByteString(bytes) => {
            if unit == 0 || bytes.len() % unit == 0 {
                Ok(slice_to_vec(bytes.as_slice()))
            } else {
                Err(DecodingError::NotAString(StringDetail::InvalidLength(bytes.len())))
            }
        },
        _ => Err(DecodingError::NotAString(StringDetail::InvalidType)),
    }
}

/// Decodes a value of the given kind.
pub fn decode_value(node: &Value, kind: FieldKind) -> (r: Result<FieldValue, DecodingError>)
    ensures
        decoded(r) == value_of(node@, kind),
{
    match kind {
        FieldKind::Number { low, high } => match decode_number(node, low, high) {
            Ok(n) => Ok(FieldValue::Number(n)),
            Err(e) => Err(e),
        },
        FieldKind::Text => match decode_text(node) {
            Ok(text) => Ok(FieldValue::Text(text)),
            Err(e) => Err(e),
        },
        FieldKind::Bytes { unit } => match decode_bytes(node, unit) {
            Ok(bytes) => Ok(FieldValue::Bytes(bytes)),
            Err(e) => Err(e),
        },
    }
}

/// Reads a field that must be there.
pub fn decode_required(dict: &Value, name: &str, kind: FieldKind) -> (r: Result<
    FieldValue,
    DecodingError,
>)
    ensures
        decoded(r) == required(dict@, name@, kind),
{
    match get_field(dict, name) {
        Some(node) => decode_value(node, kind),
        None => Err(DecodingError::MissingField(name.to_owned())),
    }
}

/// Reads a field that may be absent.
pub fn decode_optional(dict: &Value, name: &str, kind: FieldKind) -> (r: Result<
    Option<FieldValue>,
    DecodingError,
>)
    ensures
        r matches Ok(value) ==> optional(dict@, name@, kind) == Ok::<
            Option<FieldValueView>,
            ErrorView,
        >(field_view(value)),
        r matches Err(e) ==> optional(dict@, name@, kind) == Err::<
            Option<FieldValueView>,
            ErrorView,
        >(e@),
{
    match get_field(dict, name) {
        Some(node) => match decode_value(node, kind) {
            Ok(value) => Ok(Some(value)),
            Err(e) => Err(e),
        },
        None => Ok(None),
    }
}

/// An error in the front rows of a table is the error of the whole table.
proof fn lemma_front_error_stays(dict: Tree, table: Seq<FieldDescriptorView>, rows: int)
    requires
        0 <= rows <= table.len(),
        fields_of(dict, table.subrange(0, rows)) is Err,
    ensures
        fields_of(dict, table) == fields_of(dict, table.subrange(0, rows)),
    decreases table.len() - rows,
{
    if rows < table.len() {
        assert(table.subrange(0, rows + 1).drop_last() =~= table.subrange(0, rows));
        lemma_front_error_stays(dict, table, rows + 1);
    } else {
        assert(table.subrange(0, rows) =~= table);
    }
}

/// Reads the fields of a table from a dictionary, row by row.
pub fn decode_fields(dict: &Value, table: &Vec<FieldDescriptor>) -> (r: Result<
    Vec<Option<FieldValue>>,
    DecodingError,
>)
    ensures
        r matches Ok(values) ==> fields_of(dict@, table_view(table@)) == Ok::<
            Seq<Option<FieldValueView>>,
            ErrorView,
        >(field_views(values@)),
        r matches Err(e) ==> fields_of(dict@, table_view(table@)) == Err::<
            Seq<Option<FieldValueView>>,
            ErrorView,
        >(e@),
{
    let ghost rows = table_view(table@);
    let mut values: Vec<Option<FieldValue>> = Vec::new();
    let mut i: usize = 0;
    assert(rows.subrange(0, 0) =~= Seq::<FieldDescriptorView>::empty());
    assert(field_views(values@) =~= Seq::<Option<FieldValueView>>::empty());
    while i < table.len()
        invariant
            i <= table.len(),
            rows == table_view(table@),
            fields_of(dict@, rows.subrange(0, i as int)) == Ok::<
                Seq<Option<FieldValueView>>,
                ErrorView,
            >(field_views(values@)),
        decreases table.len() - i,
    {
        let row = &table[i];
        assert(rows.subrange(0, i + 1).drop_last() =~= rows.subrange(0, i as int));
        assert(rows.subrange(0, i + 1).last() == row@);
        let ghost before = field_views(values@);
        let read = if row.required {
            match decode_required(dict, row.name, row.kind) {
                Ok(value) => Ok(Some(value)),
                Err(e) => Err(e),
            }
        } else {
            decode_optional(dict, row.name, row.kind)
        };
        match read {
            Ok(value) => {
                values.push(value);
                assert(field_views(values@) =~= before.push(field_view(value)));
            },
            Err(e) => {
                proof {
                    lemma_front_error_stays(dict@, rows, i + 1);
                }
                return Err(e);
            },
        }
        i += 1;
    }
    assert(rows.subrange(0, i as int) =~= rows);
    Ok(values)
}

/// Gives the number in row `i` of the fields read from a table.
pub fn number_in(values: &Vec<Option<FieldValue>>, i: usize) -> (r: Option<i64>)
    ensures
        r == number_at(field_views(values@), i as int),
{
    if i < values.len() {
        match &values[i] {
            Some(FieldValue::Number(n)) => Some(*n),
            _ => None,
        }
    } else {
        None
    }
}

/// Gives the text in row `i` of the fields read from a table.
pub fn text_in(values: &Vec<Option<FieldValue>>, i: usize) -> (r: Option<String>)
    ensures
        r matches Some(text) ==> text_at(field_views(values@), i as int) == Some(text@),
        r is None ==> text_at(field_views(values@), i as int) is None,
{
    if i < values.len() {
        match &values[i] {
            Some(FieldValue::Text(text)) => Some(text.clone()),
            _ => None,
        }
    } else {
        None
    }
}

/// Gives the bytes in row `i` of the fields read from a table.
pub fn bytes_in(values: &Vec<Option<FieldValue>>, i: usize) -> (r: Option<Vec<u8>>)
    ensures
        r matches Some(bytes) ==> bytes_at(field_views(values@), i as int) == Some(bytes@),
        r is None ==> bytes_at(field_views(values@), i as int) is None,
{
    if i < values.len() {
        match &values[i] {
            Some(FieldValue::Bytes(bytes)) => Some(slice_to_vec(bytes.as_slice())),
            _ => None,
        }
    } else {
        None
    }
}

} // verus!
