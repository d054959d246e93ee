//! One announce to a tracker: the request that is sent, and what follows
//! from the reply.
//!
//! Nothing here talks to a tracker. [`step`] says what is to be sent and what
//! a reply means; the caller carries the request and brings the reply back.

use crate::decoder_helper::{decoded, DecodingError, ErrorView};
use crate::digest::{sha1, sha1_digest, DIGEST_LEN};
use crate::meta_info::{total_length, MetaInfo, MetaInfoView};
use crate::text::{
    ascii_string, ascii_text, decimal_digits, hex_lower, lemma_decimal_digits_is_ascii,
    lemma_decimal_digits_len, lemma_encode_joined, lemma_hex_lower_is_ascii,
    lemma_percent_encoded_is_ascii, percent_encode, percent_encoded, text_view,
    to_decimal_digits, to_hex_lower,
};
use crate::value::bytes_equal;
use crate::tracker_response::{tracker_reply_of, TrackerResponse, TrackerResponseView};
use reqwest::Url;
use vstd::prelude::*;
use vstd::slice::slice_subrange;
use vstd::string::{StringExecFns, StringSliceAdditionalSpecFns};
use vstd::utf8::encode_utf8;

verus! {

/// The number of bytes of a peer id.
pub const PEER_ID_LEN: usize = 20;

/// The longest announce URL, and the longest query, in bytes.
pub const MAX_URL_LEN: usize = 0x0FFF_FFFF;

/// Why the client announces now; a regular announce gives none of these.
#[derive(Debug, Clone, Copy, PartialEq, Eq)]
pub enum TrackerEvent {
    Started,
    Stopped,
    Completed,
}

/// What the client tells the tracker of itself.
#[derive(Debug, Clone, PartialEq, Eq)]
pub struct Session {
    pub peer_id: Vec<u8>,
    pub port: u16,
    pub uploaded: u64,
    pub downloaded: u64,
    pub compact: bool,
    pub no_peer_id: bool,
}

/// The parameters of one announce.
#[derive(Debug, Clone, PartialEq, Eq)]
pub struct AnnounceRequest {
    pub info_hash: Vec<u8>,
    pub peer_id: Vec<u8>,
    pub port: u16,
    pub uploaded: u64,
    pub downloaded: u64,
    pub left: u64,
    pub compact: bool,
    pub no_peer_id: bool,
    pub event: Option<TrackerEvent>,
}

/// The model of a [`Session`].
pub struct SessionView {
    pub peer_id: Seq<u8>,
    pub port: u16,
    pub uploaded: u64,
    pub downloaded: u64,
    pub compact: bool,
    pub no_peer_id: bool,
}

/// The model of an [`AnnounceRequest`].
pub struct AnnounceRequestView {
    pub info_hash: Seq<u8>,
    pub peer_id: Seq<u8>,
    pub port: u16,
    pub uploaded: u64,
    pub downloaded: u64,
    pub left: u64,
    pub compact: bool,
    pub no_peer_id: bool,
    pub event: Option<TrackerEvent>,
}

impl AnnounceRequestView {
    /// The hash and the peer id have their 20 bytes each.
    pub open spec fn wf(self) -> bool {
        self.info_hash.len() == DIGEST_LEN && self.peer_id.len() == PEER_ID_LEN
    }
}

impl View for Session {
    type V = SessionView;

    open spec fn view(&self) -> SessionView {
        SessionView {
            peer_id: self.peer_id@,
            port: self.port,
            uploaded: self.uploaded,
            downloaded: self.downloaded,
            compact: self.compact,
            no_peer_id: self.no_peer_id,
        }
    }
}

impl View for AnnounceRequest {
    type V = AnnounceRequestView;

    open spec fn view(&self) -> AnnounceRequestView {
        AnnounceRequestView {
            info_hash: self.info_hash@,
            peer_id: self.peer_id@,
            port: self.port,
            uploaded: self.uploaded,
            downloaded: self.downloaded,
            left: self.left,
            compact: self.compact,
            no_peer_id: self.no_peer_id,
            event: self.event,
        }
    }
}

/// The bytes of `TR-2-92-`, with which every peer id of this client starts.
pub open spec fn peer_id_prefix() -> Seq<u8> {
    seq![0x54u8, 0x52u8, 0x2du8, 0x32u8, 0x2du8, 0x39u8, 0x32u8, 0x2du8]
}

/// The peer id that a digest gives: the prefix, then the first six bytes of
/// the digest in base 16 (all of them where it has fewer).
pub open spec fn peer_id_of(digest: Seq<u8>) -> Seq<u8> {
    let used = if digest.len() < 6 {
        digest.len() as int
    } else {
        6
    };
    peer_id_prefix() + hex_lower(digest.subrange(0, used))
}

/// The peer id of the session that starts from a seed: the id that the
/// SHA-1 digest of the seed, written in base ten, gives.
pub open spec fn session_peer_id(seed: u64) -> Seq<u8> {
    peer_id_of(sha1_digest(decimal_digits(seed as nat)))
}

/// Makes the peer id that a digest gives. A digest of SHA-1 gives a peer id
/// of 20 bytes.
pub fn peer_id_from_digest(digest: &[u8]) -> (id: Vec<u8>)
    ensures
        id@ == peer_id_of(digest@),
        digest@.len() >= 6 ==> id@.len() == PEER_ID_LEN,
{
    let mut id: Vec<u8> = Vec::new();
    id.push(0x54);
    id.push(0x52);
    id.push(0x2d);
    id.push(0x32);
    id.push(0x2d);
    id.push(0x39);
    id.push(0x32);
    id.push(0x2d);
    assert(id@ =~= peer_id_prefix());
    let used: usize = if digest.len() < 6 {
        digest.len()
    } else {
        6
    };
    let mut digits = to_hex_lower(slice_subrange(digest, 0, used));
    proof {
        lemma_hex_lower_is_ascii(digest@.subrange(0, used as int));
    }
    id.append(&mut digits);
    id
}

/// Makes the peer id of a session from a seed. The id stays the same for as
/// long as the seed does.
pub fn peer_id(seed: u64) -> (id: Vec<u8>)
    ensures
        id@ == session_peer_id(seed),
        id@.len() == PEER_ID_LEN,
{
    let written = to_decimal_digits(seed);
    proof {
        lemma_decimal_digits_len(seed as nat);
    }
    let digest = sha1(written.as_slice());
    peer_id_from_digest(digest.as_slice())
}

/// The bytes that are left to download.
pub open spec fn bytes_left(total: int, downloaded: int) -> int {
    if downloaded >= total {
        0
    } else {
        total - downloaded
    }
}

/// The request that announces a torrent for a session.
///
/// There is one where the hash and the peer id have their 20 bytes each and
/// the length of the content fits in 64 bits. What is left to download is
/// that length less what the session has downloaded.
pub open spec fn request_of(
    meta: MetaInfoView,
    session: SessionView,
    event: Option<TrackerEvent>,
) -> Option<AnnounceRequestView> {
    let total = total_length(meta.info);
    if meta.hash.len() == DIGEST_LEN && session.peer_id.len() == PEER_ID_LEN && 0 <= total
        <= u64::MAX {
        Some(
            AnnounceRequestView {
                info_hash: meta.hash,
                peer_id: session.peer_id,
                port: session.port,
                uploaded: session.uploaded,
                downloaded: session.downloaded,
                left: bytes_left(total, session.downloaded as int) as u64,
                compact: session.compact,
                no_peer_id: session.no_peer_id,
                event,
            },
        )
    } else {
        None
    }
}

/// How a flag is written in a query.
pub open spec fn flag_text(flag: bool) -> Seq<char> {
    if flag {
        "1"@
    } else {
        "0"@
    }
}

/// How the event is written at the end of a query.
pub open spec fn event_text(event: Option<TrackerEvent>) -> Seq<char> {
    match event {
        Some(TrackerEvent::Started) => "&event=started"@,
        Some(TrackerEvent::Stopped) => "&event=stopped"@,
        Some(TrackerEvent::Completed) => "&event=completed"@,
        None => Seq::empty(),
    }
}

/// The query that carries a request.
///
/// The hash and the peer id stand as their raw bytes, percent-encoded; the
/// numbers stand in base ten.
pub open spec fn query_of(request: AnnounceRequestView) -> Seq<char> {
    "info_hash="@ + ascii_text(percent_encoded(request.info_hash)) + "&peer_id="@ + ascii_text(
        percent_encoded(request.peer_id),
    ) + "&port="@ + ascii_text(decimal_digits(request.port as nat)) + "&uploaded="@ + ascii_text(
        decimal_digits(request.uploaded as nat),
    ) + "&downloaded="@ + ascii_text(decimal_digits(request.downloaded as nat)) + "&left="@
        + ascii_text(decimal_digits(request.left as nat)) + "&compact="@ + flag_text(
        request.compact,
    ) + "&no_peer_id="@ + flag_text(request.no_peer_id) + event_text(request.event)
}

/// Writes bytes as a query holds them, as text.
fn encoded_text(bytes: &[u8]) -> (text: String)
    ensures
        text@ == ascii_text(percent_encoded(bytes@)),
{
    proof {
        lemma_percent_encoded_is_ascii(bytes@);
    }
    ascii_string(percent_encode(bytes).as_slice())
}

/// Writes a number in base ten, as text.
fn decimal_text(n: u64) -> (text: String)
    ensures
        text@ == ascii_text(decimal_digits(n as nat)),
{
    proof {
        lemma_decimal_digits_is_ascii(n as nat);
    }
    ascii_string(to_decimal_digits(n).as_slice())
}

/// Writes a flag as a query holds it.
fn flag_str(flag: bool) -> (text: &'static str)
    ensures
        text@ == flag_text(flag),
{
    if flag {
        "1"
    } else {
        "0"
    }
}

/// Writes the event as the end of a query holds it.
fn event_str(event: Option<TrackerEvent>) -> (text: &'static str)
    ensures
        text@ == event_text(event),
{
    proof {
        reveal_strlit("");
    }
    match event {
        Some(TrackerEvent::Started) => "&event=started",
        Some(TrackerEvent::Stopped) => "&event=stopped",
        Some(TrackerEvent::Completed) => "&event=completed",
        None => {
            assert(""@ =~= Seq::<char>::empty());
            ""
        },
    }
}

impl AnnounceRequest {
    /// Makes the request that announces a torrent for a session.
    pub fn new(meta: &MetaInfo, session: &Session, event: Option<TrackerEvent>) -> (r: Option<
        AnnounceRequest,
    >)
        ensures
            r matches Some(request) ==> request_of(meta@, session@, event) == Some(request@)
                && request@.wf(),
            r is None ==> request_of(meta@, session@, event) is None,
    {
        if meta.hash.len() != DIGEST_LEN || session.peer_id.len() != PEER_ID_LEN {
            return None;
        }
        let total = match meta.info.total_length() {
            Some(total) => total,
            None => {
                return None;
            },
        };
        let left: u64 = if session.downloaded >= total {
            0
        } else {
            total - session.downloaded
        };
        Some(
            AnnounceRequest {
                info_hash: meta.hash.clone(),
                peer_id: session.peer_id.clone(),
                port: session.port,
                uploaded: session.uploaded,
                downloaded: session.downloaded,
                left,
                compact: session.compact,
                no_peer_id: session.no_peer_id,
                event,
            },
        )
    }

    /// Writes the query that carries the request.
    pub fn query(&self) -> (r: String)
        ensures
            r@ == query_of(self@),
    {
        let mut query = "info_hash=".to_owned();
        query.append(encoded_text(self.info_hash.as_slice()).as_str());
        query.append("&peer_id=");
        query.append(encoded_text(self.peer_id.as_slice()).as_str());
        query.append("&port=");
        query.append(decimal_text(self.port as u64).as_str());
        query.append("&uploaded=");
        query.append(decimal_text(self.uploaded).as_str());
        query.append("&downloaded=");
        query.append(decimal_text(self.downloaded).as_str());
        query.append("&left=");
        query.append(decimal_text(self.left).as_str());
        query.append("&compact=");
        query.append(flag_str(self.compact));
        query.append("&no_peer_id=");
        query.append(flag_str(self.no_peer_id));
        query.append(event_str(self.event));
        query
    }
}

/// The query of a URL: `None` where the text is no URL, `Some(None)` where
/// the URL has no query.
pub uninterp spec fn url_query(url: Seq<char>) -> Option<Option<Seq<char>>>;

/// A URL with its query replaced; `None` where the text is no URL.
pub uninterp spec fn url_with_query(url: Seq<char>, query: Seq<char>) -> Option<Seq<char>>;

/// The model of the query that a text may have as a URL.
pub open spec fn query_view(query: Option<Option<String>>) -> Option<Option<Seq<char>>> {
    match query {
        Some(query) => Some(text_view(query)),
        None => None,
    }
}

/// Parses a text with `reqwest::Url::parse` and reads the query of the URL
/// with `Url::query`.
///
/// Not proved: that both return for every text within the length, and that
/// what they give depends on the text alone.
#[verifier::external_body]
fn existing_query(url: &str) -> (r: Option<Option<String>>)
    requires
        url.spec_bytes().len() <= MAX_URL_LEN,
    ensures
        query_view(r) == url_query(url@),
{
    Some(Url::parse(url).ok()?.query().map(str::to_owned))
}

/// Parses a text with `reqwest::Url::parse`, replaces the query of the URL
/// with `Url::set_query`, and writes the URL out again.
///
/// Not proved: that the calls return for every text and query within the
/// length, and that what they give depends on the two alone. The URL counts
/// its bytes in 32 bits and gives up beyond that.
#[verifier::external_body]
fn replace_query(url: &str, query: &str) -> (r: Option<String>)
    requires
        url.spec_bytes().len() <= MAX_URL_LEN,
        query.spec_bytes().len() <= MAX_URL_LEN,
    ensures
        text_view(r) == url_with_query(url@, query@),
{
    let mut parsed = Url::parse(url).ok()?;
    parsed.set_query(Some(query));
    Some(parsed.into())
}

/// The query that is sent: the generated one, and after it, behind `&`, the
/// query that the announce URL already has, where it has one.
pub open spec fn merged_query(generated: Seq<char>, existing: Option<Seq<char>>) -> Seq<char> {
    match existing {
        Some(existing) => if existing.len() > 0 {
            generated + "&"@ + existing
        } else {
            generated
        },
        None => generated,
    }
}

/// The byte `?`, behind which the query of a URL stands.
pub const QUERY_MARK: u8 = 0x3f;

/// The byte `#`, behind which the fragment of a URL stands.
pub const FRAGMENT_MARK: u8 = 0x23;

/// The index of the first `?` of a URL from `from` on; the length of the URL
/// where there is none.
pub open spec fn query_mark(url: Seq<u8>, from: int) -> int
    decreases url.len() - from,
{
    if 0 <= from < url.len() && url[from] != QUERY_MARK {
        query_mark(url, from + 1)
    } else {
        from
    }
}

/// Whether a URL carries a query byte for byte: the query stands behind the
/// first `?` of the URL and reaches to its end, or to the `#` of its
/// fragment.
pub open spec fn carries_query(url: Seq<u8>, query: Seq<u8>) -> bool {
    let start = query_mark(url, 0) + 1;
    let end = start + query.len();
    &&& end <= url.len()
    &&& url.subrange(start, end) == query
    &&& (end == url.len() || url[end] == FRAGMENT_MARK)
}

/// The URL that is requested: the announce URL with the merged query.
///
/// There is none where the announce URL is no URL, where it, the query or
/// the merged query is longer than [`MAX_URL_LEN`], or where the URL that
/// was made does not carry the merged query byte for byte.
pub open spec fn announce_url_of(announce: Seq<char>, query: Seq<char>) -> Option<Seq<char>> {
    if encode_utf8(announce).len() > MAX_URL_LEN || encode_utf8(query).len() > MAX_URL_LEN {
        None
    } else {
        match url_query(announce) {
            Some(existing) => {
                let merged = merged_query(query, existing);
                if encode_utf8(merged).len() > MAX_URL_LEN {
                    None
                } else {
                    match url_with_query(announce, merged) {
                        Some(url) => if carries_query(encode_utf8(url), encode_utf8(merged)) {
                            Some(url)
                        } else {
                            None
                        },
                        None => None,
                    }
                }
            },
            None => None,
        }
    }
}

/// The first `?` from a place on stands at or behind that place.
proof fn lemma_query_mark_bounds(url: Seq<u8>, from: int)
    requires
        0 <= from,
    ensures
        from <= query_mark(url, from),
    decreases url.len() - from,
{
    if from < url.len() && url[from] != QUERY_MARK {
        lemma_query_mark_bounds(url, from + 1);
    }
}

/// The URL that is requested carries the generated query byte for byte,
/// right behind its first `?`.
pub proof fn lemma_url_carries_generated_query(announce: Seq<char>, query: Seq<char>)
    requires
        announce_url_of(announce, query) is Some,
    ensures
        ({
            let url = encode_utf8(announce_url_of(announce, query).unwrap());
            let generated = encode_utf8(query);
            let start = query_mark(url, 0) + 1;
            start + generated.len() <= url.len() && url.subrange(start, start + generated.len())
                == generated
        }),
{
    let existing = url_query(announce).unwrap();
    let merged = merged_query(query, existing);
    let url = encode_utf8(announce_url_of(announce, query).unwrap());
    let generated = encode_utf8(query);
    let start = query_mark(url, 0) + 1;
    if let Some(rest) = existing {
        if rest.len() > 0 {
            lemma_encode_joined(query + "&"@, rest);
            lemma_encode_joined(query, "&"@);
        }
    }
    lemma_query_mark_bounds(url, 0);
    assert(carries_query(url, encode_utf8(merged)));
    assert(generated.len() <= encode_utf8(merged).len());
    assert(encode_utf8(merged).subrange(0, generated.len() as int) =~= generated);
    assert(url.subrange(start, start + generated.len()) =~= url.subrange(
        start,
        start + encode_utf8(merged).len(),
    ).subrange(0, generated.len() as int));
}

/// The merged query holds the generated parameters first and the parameters
/// of the announce URL last, both unchanged: none is lost or overwritten.
pub proof fn lemma_merge_keeps_both(generated: Seq<char>, existing: Seq<char>)
    ensures
        ({
            let merged = merged_query(generated, Some(existing));
            &&& merged.len() >= generated.len() + existing.len()
            &&& merged.subrange(0, generated.len() as int) == generated
            &&& merged.subrange(merged.len() - existing.len(), merged.len() as int) == existing
        }),
{
    let merged = merged_query(generated, Some(existing));
    assert(merged.subrange(0, generated.len() as int) =~= generated);
    assert(merged.subrange(merged.len() - existing.len(), merged.len() as int) =~= existing);
}

/// Joins the generated query with the one that the announce URL has.
pub fn merge_query(generated: &str, existing: &Option<String>) -> (r: String)
    ensures
        r@ == merged_query(generated@, text_view(*existing)),
{
    match existing {
        Some(existing) => {
            if existing.as_str().is_empty() {
                generated.to_owned()
            } else {
                let mut merged = generated.to_owned();
                merged.append("&");
                merged.append(existing.as_str());
                merged
            }
        },
        None => generated.to_owned(),
    }
}

/// Tests whether a URL carries a query byte for byte.
pub fn url_carries_query(url: &[u8], query: &[u8]) -> (r: bool)
    ensures
        r == carries_query(url@, query@),
{
    let mut mark: usize = 0;
    while mark < url.len() && url[mark] != QUERY_MARK
        invariant
            mark <= url.len(),
            query_mark(url@, 0) == query_mark(url@, mark as int),
        decreases url.len() - mark,
    {
        mark += 1;
    }
    if mark >= url.len() || query.len() > url.len() - mark - 1 {
        return false;
    }
    let start: usize = mark + 1;
    let end: usize = start + query.len();
    bytes_equal(slice_subrange(url, start, end), query) && (end == url.len() || url[end]
        == FRAGMENT_MARK)
}

/// Makes the URL that is requested for an announce.
pub fn announce_url(announce: &str, query: &str) -> (r: Option<String>)
    ensures
        text_view(r) == announce_url_of(announce@, query@),
{
    if announce.as_bytes().len() > MAX_URL_LEN || query.as_bytes().len() > MAX_URL_LEN {
        return None;
    }
    match existing_query(announce) {
        Some(existing) => {
            let merged = merge_query(query, &existing);
            if merged.as_str().as_bytes().len() > MAX_URL_LEN {
                return None;
            }
            match replace_query(announce, merged.as_str()) {
                Some(url) => {
                    if url_carries_query(url.as_str().as_bytes(), merged.as_str().as_bytes()) {
                        Some(url)
                    } else {
                        None
                    }
                },
                None => None,
            }
        },
        None => None,
    }
}

/// Where one announce stands.
#[derive(Debug, Clone, PartialEq, Eq)]
pub enum Announce {
    /// Nothing was sent yet.
    Idle,
    /// The request is on its way.
    RequestSent,
    /// The tracker answered; this is its answer.
    Decoded(TrackerResponse),
    /// The announce came to nothing; this is why.
    Failed(DecodingError),
}

/// What happens to an announce.
#[derive(Debug, Clone, PartialEq, Eq)]
pub enum AnnounceInput {
    /// The caller wants `request` announced at the URL `announce`.
    Start { announce: String, request: AnnounceRequest },
    /// The tracker replied with this body.
    Reply(Vec<u8>),
    /// The request failed on the way, or no reply came in time.
    TransportFailure,
}

/// What the caller is to do next.
#[derive(Debug, Clone, PartialEq, Eq)]
pub enum AnnounceAction {
    /// Request this URL and bring the reply back.
    Send(String),
    /// Nothing.
    Nothing,
}

/// The model of an [`Announce`].
pub enum AnnounceView {
    Idle,
    RequestSent,
    Decoded(TrackerResponseView),
    Failed(ErrorView),
}

/// The model of an [`AnnounceInput`].
pub enum AnnounceInputView {
    Start { announce: Seq<char>, request: AnnounceRequestView },
    Reply(Seq<u8>),
    TransportFailure,
}

/// The model of an [`AnnounceAction`].
pub enum AnnounceActionView {
    Send(Seq<char>),
    Nothing,
}

impl View for Announce {
    type V = AnnounceView;

    open spec fn view(&self) -> AnnounceView {
        match self {
            Announce::Idle => AnnounceView::Idle,
            Announce::RequestSent => AnnounceView::RequestSent,
            Announce::Decoded(response) => AnnounceView::Decoded(response@),
            Announce::Failed(e) => AnnounceView::Failed(e@),
        }
    }
}

impl View for AnnounceInput {
    type V = AnnounceInputView;

    open spec fn view(&self) -> AnnounceInputView {
        match self {
            AnnounceInput::Start { announce, request } => AnnounceInputView::Start {
                announce: announce@,
                request: request@,
            },
            AnnounceInput::Reply(body) => AnnounceInputView::Reply(body@),
            AnnounceInput::TransportFailure => AnnounceInputView::TransportFailure,
        }
    }
}

impl View for AnnounceAction {
    type V = AnnounceActionView;

    open spec fn view(&self) -> AnnounceActionView {
        match self {
            AnnounceAction::Send(url) => AnnounceActionView::Send(url@),
            AnnounceAction::Nothing => AnnounceActionView::Nothing,
        }
    }
}

/// Where an announce stands after the tracker's reply was decoded: a reply
/// that gives a failure reason fails the announce with `TrackerFailure`.
pub open spec fn outcome_of(reply: Result<TrackerResponseView, ErrorView>) -> AnnounceView {
    match reply {
        Ok(response) => match response.failure_reason {
            Some(reason) => AnnounceView::Failed(ErrorView::TrackerFailure(reason)),
            None => AnnounceView::Decoded(response),
        },
        Err(e) => AnnounceView::Failed(e),
    }
}

/// One step of an announce: the state that follows and what the caller is
/// to do.
///
/// An idle announce starts by sending the request, or fails with
/// `TransportError` where no URL can be made. A sent request ends with the
/// reply, decoded, or with `TransportError`. Nothing else changes anything:
/// an announce that ended stays as it is, and it is never sent twice.
pub open spec fn step_of(state: AnnounceView, input: AnnounceInputView) -> (
    AnnounceView,
    AnnounceActionView,
) {
    match (state, input) {
        (AnnounceView::Idle, AnnounceInputView::Start { announce, request }) => {
            match announce_url_of(announce, query_of(request)) {
                Some(url) => (AnnounceView::RequestSent, AnnounceActionView::Send(url)),
                None => (
                    AnnounceView::Failed(ErrorView::TransportError),
                    AnnounceActionView::Nothing,
                ),
            }
        },
        (AnnounceView::RequestSent, AnnounceInputView::Reply(body)) => (
            outcome_of(tracker_reply_of(body)),
            AnnounceActionView::Nothing,
        ),
        (AnnounceView::RequestSent, AnnounceInputView::TransportFailure) => (
            AnnounceView::Failed(ErrorView::TransportError),
            AnnounceActionView::Nothing,
        ),
        _ => (state, AnnounceActionView::Nothing),
    }
}

/// An announce is sent at most once, and what it ended with stays: a
/// request goes out only from the idle state, which no step leads back to,
/// and an announce that was decoded or failed is changed by no input. An
/// announce never ends as decoded on a reply that gives a failure reason.
pub proof fn lemma_announce_ends_once(state: AnnounceView, input: AnnounceInputView)
    ensures
        step_of(state, input).1 is Send ==> state is Idle && step_of(state, input).0
            is RequestSent,
        step_of(state, input).0 is Idle ==> state is Idle,
        state is Decoded || state is Failed ==> step_of(state, input) == (
            state,
            AnnounceActionView::Nothing,
        ),
        !(state is Decoded) ==> (step_of(state, input).0 matches AnnounceView::Decoded(response)
            ==> response.failure_reason is None),
{
}

/// Tells where an announce stands after the tracker's reply was decoded.
pub fn outcome(reply: Result<TrackerResponse, DecodingError>) -> (state: Announce)
    ensures
        state@ == outcome_of(decoded(reply)),
{
    match reply {
        Ok(response) => {
            if response.failure_reason.is_some() {
                let reason = response.failure_reason.unwrap();
                Announce::Failed(DecodingError::TrackerFailure(reason))
            } else {
                Announce::Decoded(response)
            }
        },
        Err(e) => Announce::Failed(e),
    }
}

/// Takes one step of an announce.
pub fn step(state: Announce, input: AnnounceInput) -> (r: (Announce, AnnounceAction))
    ensures
        (r.0@, r.1@) == step_of(state@, input@),
{
    match (state, input) {
        (Announce::Idle, AnnounceInput::Start { announce, request }) => {
            let query = request.query();
            match announce_url(announce.as_str(), query.as_str()) {
                Some(url) => (Announce::RequestSent, AnnounceAction::Send(url)),
                None => (Announce::Failed(DecodingError::TransportError), AnnounceAction::Nothing),
            }
        },
        (Announce::RequestSent, AnnounceInput::Reply(body)) => (
            outcome(TrackerResponse::from_bytes(body.as_slice())),
            AnnounceAction::Nothing,
        ),
        (Announce::RequestSent, AnnounceInput::TransportFailure) => (
            Announce::Failed(DecodingError::TransportError),
            AnnounceAction::Nothing,
        ),
        (state, _) => (state, AnnounceAction::Nothing),
    }
}

} // verus!
