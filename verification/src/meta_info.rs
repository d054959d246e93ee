//! The metainfo data model and its construction from a value tree.

use crate::decoder_helper::{
    bytes_at, bytes_in, decode_fields, decode_text, decoded, field, fields_of, get_field,
    lemma_failing_row_fails_table, lemma_fields_row_by_row, number_at, number_in, table_view,
    text_at, text_in, text_of, value_of, DecodingError, ErrorView, FieldDescriptor,
    FieldDescriptorView, FieldKind, ParseDetail, ParseDetailView,
};
use crate::digest::{sha1, sha1_digest, DIGEST_LEN};
use crate::encoding::{document_tree, lemma_entry_tree};
use crate::parser::{parse, parse_result};
use crate::syntax::{
    document_entry, find_entry, lemma_entry_is_a_document, well_formed, MAX_DOCUMENT_LEN,
};
use crate::text::text_view;
use crate::value::{item_views, lemma_list_view, Tree, Value};
use vstd::pervasive::unreached;
use vstd::prelude::*;
use vstd::slice::slice_subrange;
use vstd::string::StringSliceAdditionalSpecFns;

verus! {

/// One file of a multi-file torrent.
#[derive(Debug, Clone, PartialEq, Eq)]
pub struct FileDesc {
    length: i64,
    md5sum: Option<String>,
    path: Vec<String>,
}

/// The files of a multi-file torrent.
#[derive(Debug, Clone, PartialEq, Eq)]
pub struct MultiFile {
    files: Vec<FileDesc>,
}

/// The one file of a single-file torrent.
#[derive(Debug, Clone, PartialEq, Eq)]
pub struct SingleFile {
    pub length: i64,
    pub md5sum: Option<String>,
}

/// Whether a torrent holds one file or several.
#[derive(Debug, Clone, PartialEq, Eq)]
pub enum Mode {
    Single(SingleFile),
    Multiple(MultiFile),
}

/// The info dictionary of a metainfo document.
#[derive(Debug, Clone, PartialEq, Eq)]
pub struct Info {
    pub mode: Mode,
    pub name: String,
    pub piece_length: i64,
    pub pieces: Vec<u8>,
    pub private: Option<u8>,
}

/// A metainfo document.
#[derive(Debug, Clone, PartialEq, Eq)]
pub struct MetaInfo {
    pub info: Info,
    pub hash: Vec<u8>,
    pub announce: String,
    pub created_by: Option<String>,
    pub creation_date: Option<u64>,
    pub comment: Option<String>,
    pub encoding: Option<String>,
}

/// The model of a [`FileDesc`].
pub struct FileDescView {
    pub length: i64,
    pub md5sum: Option<Seq<char>>,
    pub path: Seq<Seq<char>>,
}

/// The model of a [`MultiFile`].
pub struct MultiFileView {
    pub files: Seq<FileDescView>,
}

/// The model of a [`SingleFile`].
pub struct SingleFileView {
    pub length: i64,
    pub md5sum: Option<Seq<char>>,
}

/// The model of a [`Mode`].
pub enum ModeView {
    Single(SingleFileView),
    Multiple(MultiFileView),
}

/// The model of an [`Info`].
pub struct InfoView {
    pub mode: ModeView,
    pub name: Seq<char>,
    pub piece_length: i64,
    pub pieces: Seq<u8>,
    pub private: Option<u8>,
}

/// The model of a [`MetaInfo`].
pub struct MetaInfoView {
    pub info: InfoView,
    pub hash: Seq<u8>,
    pub announce: Seq<char>,
    pub created_by: Option<Seq<char>>,
    pub creation_date: Option<u64>,
    pub comment: Option<Seq<char>>,
    pub encoding: Option<Seq<char>>,
}

/// Whether a text can stand as one segment of a file path.
pub open spec fn valid_segment(segment: Seq<char>) -> bool {
    segment.len() > 0 && segment != ".."@
}

impl FileDescView {
    /// The length is not negative, and the path has a segment and only
    /// valid segments.
    pub open spec fn wf(self) -> bool {
        &&& self.length >= 0
        &&& self.path.len() > 0
        &&& forall|i: int| 0 <= i < self.path.len() ==> valid_segment(#[trigger] self.path[i])
    }
}

impl ModeView {
    /// One file has a length that is not negative; several files are at
    /// least one, each well formed.
    pub open spec fn wf(self) -> bool {
        match self {
            ModeView::Single(single) => single.length >= 0,
            ModeView::Multiple(multi) => {
                &&& multi.files.len() > 0
                &&& forall|i: int| 0 <= i < multi.files.len() ==> (#[trigger] multi.files[i]).wf()
            },
        }
    }
}

impl InfoView {
    /// The mode is well formed, a piece has a positive length, and `pieces`
    /// holds whole digests.
    pub open spec fn wf(self) -> bool {
        &&& self.mode.wf()
        &&& self.piece_length > 0
        &&& self.pieces.len() % (DIGEST_LEN as nat) == 0
    }
}

impl MetaInfoView {
    /// The info dictionary is well formed and the hash is one digest.
    pub open spec fn wf(self) -> bool {
        &&& self.info.wf()
        &&& self.hash.len() == DIGEST_LEN
    }
}

/// The models of a vector of texts.
pub open spec fn text_views(texts: Seq<String>) -> Seq<Seq<char>> {
    Seq::new(texts.len(), |i: int| texts[i]@)
}

/// The models of a vector of files.
pub open spec fn file_views(files: Seq<FileDesc>) -> Seq<FileDescView> {
    Seq::new(files.len(), |i: int| files[i]@)
}

impl View for FileDesc {
    type V = FileDescView;

    closed spec fn view(&self) -> FileDescView {
        FileDescView {
            length: self.length,
            md5sum: text_view(self.md5sum),
            path: text_views(self.path@),
        }
    }
}

impl View for MultiFile {
    type V = MultiFileView;

    closed spec fn view(&self) -> MultiFileView {
        MultiFileView { files: file_views(self.files@) }
    }
}

impl View for SingleFile {
    type V = SingleFileView;

    open spec fn view(&self) -> SingleFileView {
        SingleFileView { length: self.length, md5sum: text_view(self.md5sum) }
    }
}

impl View for Mode {
    type V = ModeView;

    open spec fn view(&self) -> ModeView {
        match self {
            Mode::Single(single) => ModeView::Single(single@),
            Mode::Multiple(multi) => ModeView::Multiple(multi@),
        }
    }
}

impl View for Info {
    type V = InfoView;

    open spec fn view(&self) -> InfoView {
        InfoView {
            mode: self.mode@,
            name: self.name@,
            piece_length: self.piece_length,
            pieces: self.pieces@,
            private: self.private,
        }
    }
}

impl View for MetaInfo {
    type V = MetaInfoView;

    open spec fn view(&self) -> MetaInfoView {
        MetaInfoView {
            info: self.info@,
            hash: self.hash@,
            announce: self.announce@,
            created_by: text_view(self.created_by),
            creation_date: self.creation_date,
            comment: text_view(self.comment),
            encoding: text_view(self.encoding),
        }
    }
}

impl DeepView for Info {
    type V = InfoView;

    open spec fn deep_view(&self) -> InfoView {
        self@
    }
}

impl DeepView for MetaInfo {
    type V = MetaInfoView;

    open spec fn deep_view(&self) -> MetaInfoView {
        self@
    }
}

/// The table of the fields of one file, be it the single file of a torrent
/// or one of several: `length`, a number that is not negative, and `md5sum`,
/// a text that may be absent.
pub open spec fn file_table() -> Seq<FieldDescriptorView> {
    seq![
        FieldDescriptorView {
            name: "length"@,
            required: true,
            kind: FieldKind::Number { low: 0, high: i64::MAX },
        },
        FieldDescriptorView { name: "md5sum"@, required: false, kind: FieldKind::Text },
    ]
}

/// The table of the fields of an info dictionary: `name`, a text; `piece
/// length`, a positive number; `pieces`, a byte string of whole digests; and
/// `private`, a number from 0 to 255 that may be absent.
pub open spec fn info_table() -> Seq<FieldDescriptorView> {
    seq![
        FieldDescriptorView { name: "name"@, required: true, kind: FieldKind::Text },
        FieldDescriptorView {
            name: "piece length"@,
            required: true,
            kind: FieldKind::Number { low: 1, high: i64::MAX },
        },
        FieldDescriptorView {
            name: "pieces"@,
            required: true,
            kind: FieldKind::Bytes { unit: DIGEST_LEN },
        },
        FieldDescriptorView {
            name: "private"@,
            required: false,
            kind: FieldKind::Number { low: 0, high: 255 },
        },
    ]
}

/// The table of the fields of a metainfo document: `announce`, a text; and
/// `created by`, `creation date`, `comment` and `encoding`, which may be
/// absent: texts, but for the date, a number of seconds that is not negative.
pub open spec fn meta_info_table() -> Seq<FieldDescriptorView> {
    seq![
        FieldDescriptorView { name: "announce"@, required: true, kind: FieldKind::Text },
        FieldDescriptorView { name: "created by"@, required: false, kind: FieldKind::Text },
        FieldDescriptorView {
            name: "creation date"@,
            required: false,
            kind: FieldKind::Number { low: 0, high: i64::MAX },
        },
        FieldDescriptorView { name: "comment"@, required: false, kind: FieldKind::Text },
        FieldDescriptorView { name: "encoding"@, required: false, kind: FieldKind::Text },
    ]
}

/// The path segment that a node holds: a text that is a valid segment.
pub open spec fn segment_of(node: Tree) -> Option<Seq<char>> {
    match text_of(node) {
        Ok(text) => if valid_segment(text) {
            Some(text)
        } else {
            None
        },
        Err(_) => None,
    }
}

/// The path that a node holds: a list of one or more segments.
pub open spec fn path_of(node: Tree) -> Option<Seq<Seq<char>>> {
    match node {
        Tree::List(items) => if items.len() > 0 && forall|i: int|
            0 <= i < items.len() ==> segment_of(#[trigger] items[i]) is Some {
            Some(Seq::new(items.len(), |i: int| segment_of(items[i]).unwrap()))
        } else {
            None
        },
        _ => None,
    }
}

/// The file that a node describes: a dictionary whose fields are read by
/// the rows of [`file_table`], and whose `path` is a path.
pub open spec fn file_of(node: Tree) -> Option<FileDescView> {
    let path = match field(node, "path"@) {
        Some(path) => path_of(path),
        None => None,
    };
    match fields_of(node, file_table()) {
        Ok(fields) => if node is Dict && path is Some {
            Some(
                FileDescView {
                    length: number_at(fields, 0).unwrap(),
                    md5sum: text_at(fields, 1),
                    path: path.unwrap(),
                },
            )
        } else {
            None
        },
        Err(_) => None,
    }
}

/// The files that a node lists: a list of one or more files.
pub open spec fn files_of(node: Tree) -> Option<Seq<FileDescView>> {
    match node {
        Tree::List(items) => if items.len() > 0 && forall|i: int|
            0 <= i < items.len() ==> file_of(#[trigger] items[i]) is Some {
            Some(Seq::new(items.len(), |i: int| file_of(items[i]).unwrap()))
        } else {
            None
        },
        _ => None,
    }
}

/// The mode of an info dictionary.
///
/// A `length` key makes it a single file, whatever else is there: its fields
/// are then read by the rows of [`file_table`]. Without `length`, a `files`
/// key that holds a list of one or more files makes it several files.
/// Anything else is `UnsupportedMode`.
pub open spec fn mode_of(dict: Tree) -> Result<ModeView, ErrorView> {
    if field(dict, "length"@) is Some {
        match fields_of(dict, file_table()) {
            Ok(fields) => Ok(
                ModeView::Single(
                    SingleFileView {
                        length: number_at(fields, 0).unwrap(),
                        md5sum: text_at(fields, 1),
                    },
                ),
            ),
            Err(e) => Err(e),
        }
    } else {
        match field(dict, "files"@) {
            Some(files) => match files_of(files) {
                Some(files) => Ok(ModeView::Multiple(MultiFileView { files })),
                None => Err(ErrorView::UnsupportedMode),
            },
            None => Err(ErrorView::UnsupportedMode),
        }
    }
}

/// A number as a flag of one byte.
pub open spec fn flag_view(n: Option<i64>) -> Option<u8> {
    match n {
        Some(n) => Some(n as u8),
        None => None,
    }
}

/// A number as a date in seconds.
pub open spec fn date_view(n: Option<i64>) -> Option<u64> {
    match n {
        Some(n) => Some(n as u64),
        None => None,
    }
}

/// The info dictionary that a node holds.
///
/// The node must be a dictionary. Its mode is settled first; then its fields
/// are read by the rows of [`info_table`].
pub open spec fn info_of(node: Tree) -> Result<InfoView, ErrorView> {
    if !(node is Dict) {
        Err(ErrorView::NotADict)
    } else {
        match mode_of(node) {
            Ok(mode) => match fields_of(node, info_table()) {
                Ok(fields) => Ok(
                    InfoView {
                        mode,
                        name: text_at(fields, 0).unwrap(),
                        piece_length: number_at(fields, 1).unwrap(),
                        pieces: bytes_at(fields, 2).unwrap(),
                        private: flag_view(number_at(fields, 3)),
                    },
                ),
                Err(e) => Err(e),
            },
            Err(e) => Err(e),
        }
    }
}

/// The metainfo document that a node holds, where `info_bytes` are the bytes
/// that encode its `info` value.
///
/// Bytes that are more than a document can hold are `Malformed`. The node
/// must be a dictionary. Its fields are read by the rows of
/// [`meta_info_table`]; then `info`, which must be there, is decoded. The
/// hash is the SHA-1 digest of `info_bytes`.
pub open spec fn meta_info_of(node: Tree, info_bytes: Seq<u8>) -> Result<MetaInfoView, ErrorView> {
    if info_bytes.len() > MAX_DOCUMENT_LEN {
        Err(ErrorView::ParseError(ParseDetailView::Malformed))
    } else if !(node is Dict) {
        Err(ErrorView::NotADict)
    } else {
        match fields_of(node, meta_info_table()) {
            Ok(fields) => match field(node, "info"@) {
                Some(info) => match info_of(info) {
                    Ok(info) => Ok(
                        MetaInfoView {
                            info,
                            hash: sha1_digest(info_bytes),
                            announce: text_at(fields, 0).unwrap(),
                            created_by: text_at(fields, 1),
                            creation_date: date_view(number_at(fields, 2)),
                            comment: text_at(fields, 3),
                            encoding: text_at(fields, 4),
                        },
                    ),
                    Err(e) => Err(e),
                },
                None => Err(ErrorView::MissingField("info"@)),
            },
            Err(e) => Err(e),
        }
    }
}

/// The sum of the lengths of files.
pub open spec fn sum_lengths(files: Seq<FileDescView>) -> int
    decreases files.len(),
{
    if files.len() == 0 {
        0
    } else {
        sum_lengths(files.drop_last()) + files.last().length
    }
}

/// The length of all the content that an info dictionary describes.
pub open spec fn total_length(info: InfoView) -> int {
    match info.mode {
        ModeView::Single(single) => single.length as int,
        ModeView::Multiple(multi) => sum_lengths(multi.files),
    }
}

/// The byte range of a document that encodes the value of its `info` key.
pub open spec fn info_span(doc: Seq<u8>) -> Option<(int, int)> {
    document_entry(doc, "info".spec_bytes())
}

/// The info-hash of a document: the SHA-1 digest of the bytes that encode
/// the value of its `info` key, exactly as the document holds them.
pub open spec fn document_info_hash(doc: Seq<u8>) -> Option<Seq<u8>> {
    match info_span(doc) {
        Some((start, end)) => Some(sha1_digest(doc.subrange(start, end))),
        None => None,
    }
}

/// The bytes of a document that encode the value of its `info` key; none
/// where it has no such value.
pub open spec fn info_bytes(doc: Seq<u8>) -> Seq<u8> {
    match info_span(doc) {
        Some((start, end)) => doc.subrange(start, end),
        None => Seq::empty(),
    }
}

/// The metainfo that a document holds: that of its tree, with the bytes that
/// encode its `info` value.
pub open spec fn metainfo_document(doc: Seq<u8>) -> Result<MetaInfoView, ErrorView> {
    match parse_result(doc) {
        Ok(tree) => meta_info_of(tree, info_bytes(doc)),
        Err(e) => Err(e),
    }
}

/// The hash of an accepted document is the SHA-1 digest of the very bytes
/// that encode its `info` value: the bytes as the document holds them, which
/// encode the value from which its info dictionary was decoded. It is the
/// info-hash that the document gives whenever it is computed again.
pub proof fn lemma_hash_of_info_span(doc: Seq<u8>)
    requires
        metainfo_document(doc) is Ok,
    ensures
        info_span(doc) is Some,
        metainfo_document(doc)->Ok_0.hash == sha1_digest(info_bytes(doc)),
        document_info_hash(doc) == Some(metainfo_document(doc)->Ok_0.hash),
        document_tree(info_bytes(doc)) matches Some(info) && info_of(info) == Ok::<
            InfoView,
            ErrorView,
        >(metainfo_document(doc)->Ok_0.info),
{
    lemma_entry_tree(doc, "info".spec_bytes());
}

/// What an accepted document decodes to rests on its bytes alone: it is
/// the metainfo of the tree that the document encodes.
pub proof fn lemma_document_decides(doc: Seq<u8>)
    ensures
        metainfo_document(doc) matches Ok(meta) ==> document_tree(doc) matches Some(tree)
            && meta_info_of(tree, info_bytes(doc)) == Ok::<MetaInfoView, ErrorView>(meta),
{
}

/// The bytes of which the info-hash is taken hold one whole value and
/// nothing else: they are a well-formed document themselves.
pub proof fn lemma_info_bytes_are_a_document(doc: Seq<u8>)
    requires
        info_span(doc) is Some,
    ensures
        well_formed(info_bytes(doc)),
{
    lemma_entry_is_a_document(doc, "info".spec_bytes());
}

/// The single file that a dictionary with `length` describes has a length
/// that is not negative.
pub proof fn lemma_single_file_is_well_formed(dict: Tree)
    ensures
        mode_of(dict) matches Ok(ModeView::Single(single)) ==> single.length >= 0,
{
    lemma_fields_row_by_row(dict, file_table());
    assert(file_table()[0].required);
}

/// An accepted file of several is well formed.
pub proof fn lemma_file_is_well_formed(node: Tree)
    ensures
        file_of(node) matches Some(file) ==> file.wf(),
{
    lemma_fields_row_by_row(node, file_table());
    assert(file_table()[0].required);
}

/// An accepted info dictionary is well formed: its mode is, a piece has a
/// positive length, and `pieces` holds whole digests.
pub proof fn lemma_info_is_well_formed(node: Tree)
    ensures
        info_of(node) matches Ok(info) ==> info.wf(),
{
    lemma_fields_row_by_row(node, info_table());
    lemma_single_file_is_well_formed(node);
    assert(info_table()[1].required);
    assert(info_table()[2].required);
    if info_of(node) is Ok {
        let info = info_of(node)->Ok_0;
        if let ModeView::Multiple(multi) = info.mode {
            let files = field(node, "files"@)->Some_0;
            assert forall|i: int| 0 <= i < multi.files.len() implies (#[trigger] multi.files[i]).wf() by {
                lemma_file_is_well_formed(files->List_0[i]);
            }
        }
    }
}

/// An accepted info dictionary holds whole digests in `pieces`, and one
/// whose `pieces` is a byte string of any other length is rejected.
pub proof fn lemma_pieces_hold_whole_digests(node: Tree)
    ensures
        info_of(node) matches Ok(info) ==> info.pieces.len() % (DIGEST_LEN as nat) == 0,
        (field(node, "pieces"@) matches Some(Tree::ByteString(bytes)) && bytes.len() % (
        DIGEST_LEN as nat) != 0) ==> info_of(node) is Err,
{
    lemma_info_is_well_formed(node);
    if field(node, "pieces"@) matches Some(Tree::ByteString(bytes)) && bytes.len() % (
    DIGEST_LEN as nat) != 0 {
        assert(info_table()[2].required);
        lemma_failing_row_fails_table(node, info_table(), 2);
    }
}

/// Where an info dictionary has both `length` and `files`, `length` decides:
/// it is read as one file, or rejected as one file, and `files` is not
/// looked at.
pub proof fn lemma_length_takes_precedence(node: Tree, other: Tree)
    requires
        field(node, "length"@) is Some,
        field(node, "files"@) is Some,
        field(other, "length"@) == field(node, "length"@),
        field(other, "md5sum"@) == field(node, "md5sum"@),
    ensures
        mode_of(node) matches Ok(mode) ==> mode is Single,
        info_of(node) matches Ok(info) ==> info.mode is Single,
        mode_of(other) == mode_of(node),
{
    reveal_with_fuel(fields_of, 3);
    assert(file_table().drop_last() =~= seq![file_table()[0]]);
    assert(file_table().drop_last().drop_last() =~= Seq::<FieldDescriptorView>::empty());
}

/// A dictionary that has no `length`, and no `files` that lists one or more
/// files, is rejected with `UnsupportedMode`.
pub proof fn lemma_no_mode_is_unsupported(node: Tree)
    requires
        node is Dict,
        field(node, "length"@) is None,
        field(node, "files"@) matches Some(files) ==> files_of(files) is None,
    ensures
        info_of(node) == Err::<InfoView, ErrorView>(ErrorView::UnsupportedMode),
{
}

/// An optional field of a metainfo document that is there, but does not
/// decode, fails the whole document: it never counts as absent.
pub proof fn lemma_malformed_optional_field_fails(node: Tree, info_bytes: Seq<u8>, row: int)
    requires
        1 <= row < meta_info_table().len(),
        field(node, meta_info_table()[row].name) matches Some(value) && value_of(
            value,
            meta_info_table()[row].kind,
        ) is Err,
    ensures
        meta_info_of(node, info_bytes) is Err,
{
    assert(!meta_info_table()[row].required);
    lemma_failing_row_fails_table(node, meta_info_table(), row);
}

/// An optional field of an info dictionary that is there, but does not
/// decode, fails the whole dictionary: `private` always, `md5sum` where the
/// dictionary describes one file.
pub proof fn lemma_malformed_optional_info_field_fails(node: Tree)
    requires
        ({
            ||| field(node, "private"@) matches Some(value) && value_of(
                value,
                FieldKind::Number { low: 0, high: 255 },
            ) is Err
            ||| field(node, "length"@) is Some && (field(node, "md5sum"@) matches Some(value)
                && text_of(value) is Err)
        }),
    ensures
        info_of(node) is Err,
{
    if field(node, "private"@) matches Some(value) && value_of(
        value,
        FieldKind::Number { low: 0, high: 255 },
    ) is Err {
        assert(!info_table()[3].required);
        lemma_failing_row_fails_table(node, info_table(), 3);
    } else {
        assert(!file_table()[1].required);
        lemma_failing_row_fails_table(node, file_table(), 1);
    }
}

/// Computes the info-hash of a document.
pub fn info_hash(doc: &[u8]) -> (r: Option<Vec<u8>>)
    ensures
        r matches Some(hash) ==> document_info_hash(doc@) == Some(hash@) && hash@.len()
            == DIGEST_LEN,
        r is None ==> document_info_hash(doc@) is None,
{
    match find_entry(doc, "info".as_bytes()) {
        Some((start, end)) => Some(sha1(slice_subrange(doc, start, end))),
        None => None,
    }
}

/// Makes the table of the fields of one file.
pub fn file_fields() -> (table: Vec<FieldDescriptor>)
    ensures
        table_view(table@) == file_table(),
{
    let mut table: Vec<FieldDescriptor> = Vec::new();
    table.push(
        FieldDescriptor {
            name: "length",
            required: true,
            kind: FieldKind::Number { low: 0, high: i64::MAX },
        },
    );
    table.push(FieldDescriptor { name: "md5sum", required: false, kind: FieldKind::Text });
    assert(table_view(table@) =~= file_table());
    table
}

/// Makes the table of the fields of an info dictionary.
pub fn info_fields() -> (table: Vec<FieldDescriptor>)
    ensures
        table_view(table@) == info_table(),
{
    let mut table: Vec<FieldDescriptor> = Vec::new();
    table.push(FieldDescriptor { name: "name", required: true, kind: FieldKind::Text });
    table.push(
        FieldDescriptor {
            name: "piece length",
            required: true,
            kind: FieldKind::Number { low: 1, high: i64::MAX },
        },
    );
    table.push(
        FieldDescriptor {
            name: "pieces",
            required: true,
            kind: FieldKind::Bytes { unit: DIGEST_LEN },
        },
    );
    table.push(
        FieldDescriptor {
            name: "private",
            required: false,
            kind: FieldKind::Number { low: 0, high: 255 },
        },
    );
    assert(table_view(table@) =~= info_table());
    table
}

/// Makes the table of the fields of a metainfo document.
pub fn meta_info_fields() -> (table: Vec<FieldDescriptor>)
    ensures
        table_view(table@) == meta_info_table(),
{
    let mut table: Vec<FieldDescriptor> = Vec::new();
    table.push(FieldDescriptor { name: "announce", required: true, kind: FieldKind::Text });
    table.push(FieldDescriptor { name: "created by", required: false, kind: FieldKind::Text });
    table.push(
        FieldDescriptor {
            name: "creation date",
            required: false,
            kind: FieldKind::Number { low: 0, high: i64::MAX },
        },
    );
    table.push(FieldDescriptor { name: "comment", required: false, kind: FieldKind::Text });
    table.push(FieldDescriptor { name: "encoding", required: false, kind: FieldKind::Text });
    assert(table_view(table@) =~= meta_info_table());
    table
}

impl FileDesc {
    /// The length of the file in bytes.
    pub fn length(&self) -> (r: i64)
        ensures
            r == self@.length,
    {
        self.length
    }

    /// The MD5 sum of the file, where the document gives one.
    pub fn md5sum(&self) -> (r: &Option<String>)
        ensures
            text_view(*r) == self@.md5sum,
    {
        &self.md5sum
    }

    /// The segments of the file's path.
    pub fn path(&self) -> (r: &Vec<String>)
        ensures
            text_views(r@) == self@.path,
    {
        &self.path
    }

    /// Decodes the path of a file.
    fn path_from_bencode(node: &Value) -> (r: Option<Vec<String>>)
        ensures
            r matches Some(path) ==> path_of(node@) == Some(text_views(path@)),
            r is None ==> path_of(node@) is None,
    {
        match node {
            Value::List(items) => {
                proof {
                    lemma_list_view(*items);
                }
                if items.len() == 0 {
                    return None;
                }
                let ghost trees = item_views(items@);
                let dots = "..".to_owned();
                let mut path: Vec<String> = Vec::new();
                let mut i: usize = 0;
                while i < items.len()
                    invariant
                        i <= items.len(),
                        trees == item_views(items@),
                        node@ == Tree::List(trees),
                        dots@ == ".."@,
                        path@.len() == i,
                        forall|k: int| 0 <= k < i ==> segment_of(#[trigger] trees[k]) == Some(path@[k]@),
                    decreases items.len() - i,
                {
                    match decode_text(&items[i]) {
                        Ok(segment) => {
                            if segment.as_str().is_empty() || segment == dots {
                                assert(segment_of(trees[i as int]) is None);
                                return None;
                            }
                            path.push(segment);
                        },
                        Err(_) => {
                            assert(segment_of(trees[i as int]) is None);
                            return None;
                        },
                    }
                    i += 1;
                }
                assert(path_of(node@)->Some_0 =~= text_views(path@));
                Some(path)
            },
            _ => None,
        }
    }

    /// Decodes one file of a multi-file torrent, where the node describes
    /// one.
    pub fn from_bencode(node: &Value) -> (r: Option<FileDesc>)
        ensures
            r matches Some(file) ==> file_of(node@) == Some(file@) && file@.wf(),
            r is None ==> file_of(node@) is None,
    {
        match node {
            Value::Dict(_) => {},
            _ => {
                return None;
            },
        }
        let fields = match decode_fields(node, &file_fields()) {
            Ok(fields) => fields,
            Err(_) => {
                return None;
            },
        };
        let path = match get_field(node, "path") {
            Some(path) => match FileDesc::path_from_bencode(path) {
                Some(path) => path,
                None => {
                    return None;
                },
            },
            None => {
                return None;
            },
        };
        proof {
            lemma_fields_row_by_row(node@, file_table());
            lemma_file_is_well_formed(node@);
            assert(file_table()[0].required);
        }
        let length = match number_in(&fields, 0) {
            Some(length) => length,
            None => unreached(),
        };
        let md5sum = text_in(&fields, 1);
        Some(FileDesc { length, md5sum, path })
    }
}

impl MultiFile {
    /// The files, in the order of the document.
    pub fn files(&self) -> (r: &Vec<FileDesc>)
        ensures
            file_views(r@) == self@.files,
    {
        &self.files
    }

    /// Decodes the files of a multi-file torrent, where the node lists one
    /// or more.
    pub fn from_bencode(node: &Value) -> (r: Option<MultiFile>)
        ensures
            r matches Some(multi) ==> files_of(node@) == Some(multi@.files) && ModeView::Multiple(
                multi@,
            ).wf(),
            r is None ==> files_of(node@) is None,
    {
        match node {
            Value::List(items) => {
                proof {
                    lemma_list_view(*items);
                }
                if items.len() == 0 {
                    return None;
                }
                let ghost trees = item_views(items@);
                let mut files: Vec<FileDesc> = Vec::new();
                let mut i: usize = 0;
                while i < items.len()
                    invariant
                        i <= items.len(),
                        trees == item_views(items@),
                        node@ == Tree::List(trees),
                        files@.len() == i,
                        forall|k: int|
                            0 <= k < i ==> file_of(#[trigger] trees[k]) == Some(files@[k]@)
                                && files@[k]@.wf(),
                    decreases items.len() - i,
                {
                    match FileDesc::from_bencode(&items[i]) {
                        Some(file) => {
                            files.push(file);
                        },
                        None => {
                            assert(file_of(trees[i as int]) is None);
                            return None;
                        },
                    }
                    i += 1;
                }
                assert(files_of(node@)->Some_0 =~= file_views(files@));
                Some(MultiFile { files })
            },
            _ => None,
        }
    }
}

impl Mode {
    /// Settles the mode of an info dictionary.
    pub fn from_bencode(dict: &Value) -> (r: Result<Mode, DecodingError>)
        ensures
            r matches Ok(mode) ==> mode_of(dict@) == Ok::<ModeView, ErrorView>(mode@) && mode@.wf(),
            r matches Err(e) ==> mode_of(dict@) == Err::<ModeView, ErrorView>(e@),
    {
        if get_field(dict, "length").is_some() {
            let fields = decode_fields(dict, &file_fields())?;
            proof {
                lemma_fields_row_by_row(dict@, file_table());
                lemma_single_file_is_well_formed(dict@);
                assert(file_table()[0].required);
            }
            let length = match number_in(&fields, 0) {
                Some(length) => length,
                None => unreached(),
            };
            let md5sum = text_in(&fields, 1);
            Ok(Mode::Single(SingleFile { length, md5sum }))
        } else {
            match get_field(dict, "files") {
                Some(files) => match MultiFile::from_bencode(files) {
                    Some(multi) => Ok(Mode::Multiple(multi)),
                    None => Err(DecodingError::UnsupportedMode),
                },
                None => Err(DecodingError::UnsupportedMode),
            }
        }
    }
}

impl Info {
    /// Computes the length of all the content, unless it is negative or
    /// does not fit in 64 bits.
    pub fn total_length(&self) -> (r: Option<u64>)
        ensures
            r == (if 0 <= total_length(self@) <= u64::MAX {
                Some(total_length(self@) as u64)
            } else {
                None
            }),
    {
        let total: i128 = match &self.mode {
            Mode::Single(single) => single.length as i128,
            Mode::Multiple(multi) => {
                let ghost views = file_views(multi.files@);
                let mut sum: i128 = 0;
                let mut i: usize = 0;
                while i < multi.files.len()
                    invariant
                        i <= multi.files.len(),
                        views == file_views(multi.files@),
                        sum == sum_lengths(views.subrange(0, i as int)),
                        -0x8000_0000_0000_0000 * i <= sum <= 0x8000_0000_0000_0000 * i,
                    decreases multi.files.len() - i,
                {
                    assert(views.subrange(0, i + 1).drop_last() =~= views.subrange(0, i as int));
                    sum = sum + multi.files[i].length as i128;
                    i += 1;
                }
                assert(views.subrange(0, i as int) =~= views);
                sum
            },
        };
        if 0 <= total && total <= u64::MAX as i128 {
            Some(total as u64)
        } else {
            None
        }
    }

    /// Decodes an info dictionary.
    pub fn from_bencode(node: &Value) -> (r: Result<Info, DecodingError>)
        ensures
            decoded(r) == info_of(node@),
            r matches Ok(info) ==> info@.wf(),
    {
        match node {
            Value::Dict(_) => {},
            _ => {
                return Err(DecodingError::NotADict);
            },
        }
        let mode = Mode::from_bencode(node)?;
        let fields = decode_fields(node, &info_fields())?;
        proof {
            lemma_fields_row_by_row(node@, info_table());
            lemma_info_is_well_formed(node@);
            assert(info_table()[0].required);
            assert(info_table()[1].required);
            assert(info_table()[2].required);
            assert(!info_table()[3].required);
        }
        let name = match text_in(&fields, 0) {
            Some(name) => name,
            None => unreached(),
        };
        let piece_length = match number_in(&fields, 1) {
            Some(piece_length) => piece_length,
            None => unreached(),
        };
        let pieces = match bytes_in(&fields, 2) {
            Some(pieces) => pieces,
            None => unreached(),
        };
        let private = match number_in(&fields, 3) {
            Some(flag) => Some(flag as u8),
            None => None,
        };
        Ok(Info { mode, name, piece_length, pieces, private })
    }
}

impl MetaInfo {
    /// Decodes a metainfo document from its value tree and from the bytes
    /// that encode its `info` value, of which the hash is taken.
    pub fn from_bencode(node: &Value, info_bytes: &[u8]) -> (r: Result<MetaInfo, DecodingError>)
        ensures
            decoded(r) == meta_info_of(node@, info_bytes@),
            r matches Ok(meta) ==> meta@.wf(),
    {
        if info_bytes.len() > MAX_DOCUMENT_LEN {
            return Err(DecodingError::ParseError(ParseDetail::Malformed));
        }
        match node {
            Value::Dict(_) => {},
            _ => {
                return Err(DecodingError::NotADict);
            },
        }
        let fields = decode_fields(node, &meta_info_fields())?;
        let info = match get_field(node, "info") {
            Some(info) => Info::from_bencode(info)?,
            None => {
                return Err(DecodingError::MissingField("info".to_owned()));
            },
        };
        proof {
            lemma_fields_row_by_row(node@, meta_info_table());
            assert(meta_info_table()[0].required);
            assert(!meta_info_table()[2].required);
        }
        let announce = match text_in(&fields, 0) {
            Some(announce) => announce,
            None => unreached(),
        };
        let created_by = text_in(&fields, 1);
        let creation_date = match number_in(&fields, 2) {
            Some(seconds) => Some(seconds as u64),
            None => None,
        };
        let comment = text_in(&fields, 3);
        let encoding = text_in(&fields, 4);
        let hash = sha1(info_bytes);
        Ok(MetaInfo { info, hash, announce, created_by, creation_date, comment, encoding })
    }

    /// Decodes a metainfo document from its bytes.
    pub fn from_bytes(doc: &[u8]) -> (r: Result<MetaInfo, DecodingError>)
        ensures
            decoded(r) == metainfo_document(doc@),
            r matches Ok(meta) ==> meta@.wf() && document_info_hash(doc@) == Some(meta@.hash),
    {
        let tree = parse(doc)?;
        let bytes = match find_entry(doc, "info".as_bytes()) {
            Some((start, end)) => slice_subrange(doc, start, end),
            None => slice_subrange(doc, 0, 0),
        };
        let r = MetaInfo::from_bencode(&tree, bytes);
        proof {
            if r is Ok {
                lemma_hash_of_info_span(doc@);
            }
        }
        r
    }
}

} // verus!
