use crate::request::{parts_view, InlineData, Part, PartView};
use base64::Engine;
use vstd::prelude::*;
use vstd::string::StringSliceAdditionalSpecFns;
use vstd::utf8::{
    decode_utf8, decode_utf8_split, encode_utf8, encode_utf8_decode_utf8, encode_utf8_valid_utf8,
    is_char_boundary, is_char_boundary_iff_not_is_continuation_byte,
    is_char_boundary_start_end_of_seq, valid_utf8, valid_utf8_split,
};

verus! {

/// A media reference as the pattern found it, before it is resolved.
#[derive(Debug, Clone)]
pub struct MediaReference {
    /// Byte offset of the whole reference in the text.
    pub index: usize,
    /// Byte length of the whole reference.
    pub length: usize,
    /// The text of the pattern's first capture group, if it took part in the match.
    pub url: Option<String>,
}

/// Each reference as its start, its length and the text of its first capture group.
pub open spec fn refs_view(rs: Seq<MediaReference>) -> Seq<(int, int, Option<Seq<char>>)> {
    rs.map_values(
        |m: MediaReference|
            (
                m.index as int,
                m.length as int,
                match m.url {
                    Some(u) => Some(u@),
                    None => None,
                },
            ),
    )
}

/// Whether `pattern` is a regular expression that compiles.
pub uninterp spec fn pattern_compiles(pattern: Seq<char>) -> bool;

/// The successive non-overlapping matches of `pattern` in `text`: for each, its byte offset, its
/// byte length and the text of the first capture group.
pub uninterp spec fn pattern_captures(pattern: Seq<char>, text: Seq<char>) -> Seq<
    (int, int, Option<Seq<char>>),
>;

/// The references of `rs` lie in `text`, start and end on character boundaries, and come in
/// the order of the text without overlapping.
pub open spec fn refs_in_order(text: Seq<u8>, rs: Seq<MediaReference>) -> bool {
    &&& forall|i: int|
        0 <= i < rs.len() ==> {
            &&& (#[trigger] rs[i]).index + rs[i].length <= text.len()
            &&& is_char_boundary(text, rs[i].index as int)
            &&& is_char_boundary(text, rs[i].index + rs[i].length)
        }
    &&& forall|i: int, j: int|
        0 <= i < j < rs.len() ==> (#[trigger] rs[i]).index + rs[i].length <= (#[trigger] rs[
            j]).index
}

/// Relies on `Regex::new`, which fails on a pattern that does not compile, and on
/// `Regex::captures_iter`: successive non-overlapping matches, in the order of the text, each a
/// byte range that starts and ends on character boundaries of `markdown`.
#[verifier::external_body]
fn captures_of(markdown: &str, pattern: &str) -> (r: Option<Vec<MediaReference>>)
    ensures
        r.is_some() == pattern_compiles(pattern@),
        r.is_some() ==> refs_view(r.unwrap()@) == pattern_captures(pattern@, markdown@),
        r.is_some() ==> refs_in_order(markdown.spec_bytes(), r.unwrap()@),
{
    regex::Regex::new(pattern).ok().map(
        |re|
            re.captures_iter(markdown).map(
                |caps|
                    MediaReference {
                        index: caps.get_match().start(),
                        length: caps.get_match().len(),
                        url: caps.get(1).map(|u| u.as_str().to_string()),
                    },
            ).collect(),
    )
}

/// The references that `pattern` finds in `markdown`, in the order of the text, with the
/// pattern's first capture group taken as the URL; `None` when `pattern` does not compile.
pub fn find_media_references(markdown: &str, pattern: &str) -> (r: Option<Vec<MediaReference>>)
    ensures
        r.is_some() == pattern_compiles(pattern@),
        r.is_some() ==> refs_view(r.unwrap()@) == pattern_captures(pattern@, markdown@),
        r.is_some() ==> refs_in_order(markdown.spec_bytes(), r.unwrap()@),
{
    captures_of(markdown, pattern)
}

/// The standard base64 encoding, with padding, of `bytes`.
pub uninterp spec fn base64_of(bytes: Seq<u8>) -> Seq<char>;

/// Relies on base64's `STANDARD.encode`: padded base64, four characters for every three bytes
/// or part of three. It panics when that length overflows `usize`.
#[verifier::external_body]
fn encode_base64(bytes: &[u8]) -> (r: String)
    requires
        4 * ((bytes@.len() + 2) / 3) <= usize::MAX,
    ensures
        r@ == base64_of(bytes@),
        r@.len() == 4 * ((bytes@.len() + 2) / 3),
{
    base64::engine::general_purpose::STANDARD.encode(bytes)
}

pub const LOWER_H: u8 = 104;
pub const LOWER_T: u8 = 116;
pub const LOWER_P: u8 = 112;
pub const LOWER_S: u8 = 115;
pub const COLON: u8 = 58;
pub const SLASH: u8 = 47;

/// The URL names a web resource, by an `http://` or `https://` scheme.
pub open spec fn has_web_scheme(url: Seq<u8>) -> bool {
    ||| url.len() >= 7 && url.subrange(0, 7) == seq![LOWER_H, LOWER_T, LOWER_T, LOWER_P, COLON, SLASH, SLASH]
    ||| url.len() >= 8 && url.subrange(0, 8) == seq![
        LOWER_H,
        LOWER_T,
        LOWER_T,
        LOWER_P,
        LOWER_S,
        COLON,
        SLASH,
        SLASH,
    ]
}

/// Whether `url` is fetched over the network; other references, such as local paths, never are.
pub fn is_web_url(url: &str) -> (r: bool)
    ensures
        r == has_web_scheme(url.spec_bytes()),
{
    let b = url.as_bytes();
    let n = b.len();
    let http = n >= 7 && b[0] == LOWER_H && b[1] == LOWER_T && b[2] == LOWER_T && b[3] == LOWER_P;
    let plain = http && b[4] == COLON && b[5] == SLASH && b[6] == SLASH;
    let secure = http && n >= 8 && b[4] == LOWER_S && b[5] == COLON && b[6] == SLASH && b[7] == SLASH;
    proof {
        let u = url.spec_bytes();
        if n >= 7 {
            assert(plain == (u.subrange(0, 7) =~= seq![LOWER_H, LOWER_T, LOWER_T, LOWER_P, COLON, SLASH, SLASH]));
        }
        if n >= 8 {
            assert(secure == (u.subrange(0, 8) =~= seq![
                LOWER_H,
                LOWER_T,
                LOWER_T,
                LOWER_P,
                LOWER_S,
                COLON,
                SLASH,
                SLASH,
            ]));
        }
    }
    plain || secure
}

/// What a fetch of a referenced URL brought back.
#[derive(Debug)]
pub enum Fetched {
    /// The request failed.
    Failed,
    /// A response came; its body is absent when it could not be read.
    Received { content_type: Option<String>, body: Option<Vec<u8>> },
}

/// What a reference resolves to: a MIME type and a base64 payload when its URL is a web URL
/// and the fetch brought a body, the MIME type from the `Content-Type` header or else from
/// `guessed`; nothing otherwise.
pub open spec fn resolution(
    url: Option<Seq<u8>>,
    content_type: Option<Seq<char>>,
    body: Option<Seq<u8>>,
    guessed: Seq<char>,
) -> (Option<Seq<char>>, Option<Seq<char>>) {
    if url.is_some() && has_web_scheme(url.unwrap()) && body.is_some() {
        (
            Some(
                match content_type {
                    Some(t) => t,
                    None => guessed,
                },
            ),
            Some(base64_of(body.unwrap())),
        )
    } else {
        (None, None)
    }
}

/// The UTF-8 bytes of an optional URL.
pub open spec fn url_bytes(url: Option<String>) -> Option<Seq<u8>> {
    match url {
        Some(u) => Some(encode_utf8(u@)),
        None => None,
    }
}

/// The `Content-Type` header that a fetch brought, if any.
pub open spec fn fetched_type(f: Fetched) -> Option<Seq<char>> {
    match f {
        Fetched::Received { content_type: Some(t), .. } => Some(t@),
        _ => None,
    }
}

/// The body that a fetch brought, if any.
pub open spec fn fetched_body(f: Fetched) -> Option<Seq<u8>> {
    match f {
        Fetched::Received { body: Some(b), .. } => Some(b@),
        _ => None,
    }
}

/// The reference `reference` resolved by what its fetch brought back; `fetched` is ignored
/// for a reference that is not a web URL. `guess_mime_type` is asked for a MIME type only when
/// a body came without a `Content-Type` header.
pub fn resolve_reference<F: Fn(&str) -> String>(
    reference: MediaReference,
    fetched: Fetched,
    guess_mime_type: F,
) -> (r: MatchedFiles)
    requires
        forall|u: &str| #[trigger] guess_mime_type.requires((u,)),
        match fetched {
            Fetched::Received { body: Some(b), .. } => 4 * ((b@.len() + 2) / 3) <= usize::MAX,
            _ => true,
        },
    ensures
        r.index == reference.index,
        r.length == reference.length,
        exists|guessed: String|
            {
                &&& (r@.mime_type, r@.payload) == resolution(
                    url_bytes(reference.url),
                    fetched_type(fetched),
                    fetched_body(fetched),
                    guessed@,
                )
                &&& (resolution(
                    url_bytes(reference.url),
                    fetched_type(fetched),
                    fetched_body(fetched),
                    guessed@,
                ).1.is_some() && fetched_type(fetched).is_none()) ==> exists|u: &str|
                    u@ == reference.url.unwrap()@ && guess_mime_type.ensures((u,), guessed)
            },
{
    let ghost g: String = arbitrary();
    let ghost url_view = url_bytes(reference.url);
    let ghost ct = fetched_type(fetched);
    let ghost bd = fetched_body(fetched);
    let ghost ref_url = reference.url;
    let MediaReference { index, length, url } = reference;
    let (mime_type, base64) = match url {
        Some(url) => {
            if is_web_url(url.as_str()) {
                match fetched {
                    Fetched::Received { content_type, body: Some(body) } => {
                        let base64 = encode_base64(body.as_slice());
                        let mime_type = match content_type {
                            Some(t) => {
                                proof {
                                    g = t;
                                }
                                t
                            },
                            None => {
                                let u = url.as_str();
                                let guessed = guess_mime_type(u);
                                proof {
                                    g = guessed;
                                }
                                guessed
                            },
                        };
                        (Some(mime_type), Some(base64))
                    },
                    _ => (None, None),
                }
            } else {
                (None, None)
            }
        },
        None => (None, None),
    };
    let r = MatchedFiles { index, length, mime_type, base64 };
    assert((r@.mime_type, r@.payload) == resolution(url_view, ct, bd, g@));
    r
}

/// A media reference found in a text: where it stands, in bytes, and what it resolved to.
#[derive(Debug)]
pub struct MatchedFiles {
    /// Byte offset of the reference in the text.
    pub index: usize,
    /// Byte length of the reference.
    pub length: usize,
    pub mime_type: Option<String>,
    /// The referenced payload, base64-encoded.
    pub base64: Option<String>,
}

/// The mathematical value of a [`MatchedFiles`].
pub struct MatchView {
    pub start: nat,
    pub len: nat,
    pub mime_type: Option<Seq<char>>,
    pub payload: Option<Seq<char>>,
}

impl View for MatchedFiles {
    type V = MatchView;

    open spec fn view(&self) -> MatchView {
        MatchView {
            start: self.index as nat,
            len: self.length as nat,
            mime_type: match self.mime_type {
                Some(s) => Some(s@),
                None => None,
            },
            payload: match self.base64 {
                Some(s) => Some(s@),
                None => None,
            },
        }
    }
}

impl MatchView {
    /// Both a MIME type and a payload were found.
    pub open spec fn resolved(self) -> bool {
        self.mime_type.is_some() && self.payload.is_some()
    }

    /// Byte offset just past the reference.
    pub open spec fn end(self) -> int {
        (self.start + self.len) as int
    }
}

pub open spec fn matches_view(ms: Seq<MatchedFiles>) -> Seq<MatchView> {
    ms.map_values(|m: MatchedFiles| m@)
}

/// Every resolved match ends inside `text`, on a character boundary, and no earlier resolved
/// match ends after a later one.
pub open spec fn matches_fit(text: Seq<u8>, ms: Seq<MatchView>) -> bool {
    &&& forall|i: int|
        0 <= i < ms.len() && (#[trigger] ms[i]).resolved() ==> ms[i].end() <= text.len()
            && is_char_boundary(text, ms[i].end())
    &&& forall|i: int, j: int|
        0 <= i < j < ms.len() && (#[trigger] ms[i]).resolved() && (#[trigger] ms[j]).resolved()
            ==> ms[i].end() <= ms[j].end()
}

/// The fragments emitted for the matches `ms`, and the byte offset up to which `text` has
/// been consumed: each resolved match emits the text since the last one up to its own end,
/// then its media; an unresolved match emits nothing.
pub open spec fn splice_prefix(text: Seq<u8>, ms: Seq<MatchView>) -> (Seq<PartView>, int)
    decreases ms.len(),
{
    if ms.len() == 0 {
        (seq![], 0)
    } else {
        let (p, c) = splice_prefix(text, ms.drop_last());
        let m = ms.last();
        if m.resolved() {
            (
                p + seq![
                    PartView::Text(decode_utf8(text.subrange(c, m.end()))),
                    PartView::InlineData {
                        mime_type: m.mime_type.unwrap(),
                        data: m.payload.unwrap(),
                    },
                ],
                m.end(),
            )
        } else {
            (p, c)
        }
    }
}

/// The fragments that `text` becomes with the media of `ms` spliced in: those of
/// [`splice_prefix`], then the rest of the text, if any is left.
pub open spec fn spliced(text: Seq<u8>, ms: Seq<MatchView>) -> Seq<PartView> {
    let (p, c) = splice_prefix(text, ms);
    if c < text.len() {
        p.push(PartView::Text(decode_utf8(text.subrange(c, text.len() as int))))
    } else {
        p
    }
}

/// The text that `parts` shows: its text fragments in order.
pub open spec fn visible_text(parts: Seq<PartView>) -> Seq<char>
    decreases parts.len(),
{
    if parts.len() == 0 {
        seq![]
    } else {
        visible_text(parts.drop_last()) + match parts.last() {
            PartView::Text(t) => t,
            _ => seq![],
        }
    }
}

proof fn lemma_boundary_in_suffix(text: Seq<u8>, a: int, i: int)
    requires
        valid_utf8(text),
        0 <= a <= i <= text.len(),
        is_char_boundary(text, a),
        is_char_boundary(text, i),
    ensures
        valid_utf8(text.subrange(a, text.len() as int)),
        is_char_boundary(text.subrange(a, text.len() as int), i - a),
{
    let s = text.subrange(a, text.len() as int);
    valid_utf8_split(text, a);
    is_char_boundary_start_end_of_seq(s);
    if i < text.len() {
        is_char_boundary_iff_not_is_continuation_byte(s, i - a);
        is_char_boundary_iff_not_is_continuation_byte(text, i);
    }
}

proof fn lemma_boundary_in_prefix(text: Seq<u8>, b: int, i: int)
    requires
        valid_utf8(text),
        0 <= i <= b <= text.len(),
        is_char_boundary(text, b),
        is_char_boundary(text, i),
    ensures
        valid_utf8(text.subrange(0, b)),
        is_char_boundary(text.subrange(0, b), i),
{
    let s = text.subrange(0, b);
    valid_utf8_split(text, b);
    is_char_boundary_start_end_of_seq(s);
    if i < b {
        is_char_boundary_iff_not_is_continuation_byte(s, i);
        is_char_boundary_iff_not_is_continuation_byte(text, i);
    }
}

/// A prefix of matches that fit a text fits it too.
proof fn lemma_fit_prefix(text: Seq<u8>, ms: Seq<MatchView>, n: int)
    requires
        matches_fit(text, ms),
        0 <= n <= ms.len(),
    ensures
        matches_fit(text, ms.subrange(0, n)),
{
    let pre = ms.subrange(0, n);
    assert forall|i: int, j: int|
        0 <= i < j < pre.len() && (#[trigger] pre[i]).resolved() && (#[trigger] pre[j]).resolved()
        implies pre[i].end() <= pre[j].end() by {
        assert(ms[i] == pre[i] && ms[j] == pre[j]);
    }
    assert forall|i: int| 0 <= i < pre.len() && (#[trigger] pre[i]).resolved() implies pre[
        i].end() <= text.len() && is_char_boundary(text, pre[i].end()) by {
        assert(ms[i] == pre[i]);
    }
}

proof fn lemma_splice_prefix_bounds(text: Seq<u8>, ms: Seq<MatchView>)
    requires
        valid_utf8(text),
        matches_fit(text, ms),
    ensures
        0 <= splice_prefix(text, ms).1 <= text.len(),
        is_char_boundary(text, splice_prefix(text, ms).1),
        forall|j: int|
            0 <= j < ms.len() && (#[trigger] ms[j]).resolved() ==> ms[j].end()
                <= splice_prefix(text, ms).1,
    decreases ms.len(),
{
    is_char_boundary_start_end_of_seq(text);
    if ms.len() > 0 {
        let ms0 = ms.drop_last();
        lemma_fit_prefix(text, ms, ms.len() - 1);
        assert(ms.subrange(0, ms.len() - 1) =~= ms0);
        lemma_splice_prefix_bounds(text, ms0);
        let m = ms.last();
        if m.resolved() {
            assert(ms[ms.len() - 1].resolved());
            assert forall|j: int| 0 <= j < ms.len() && (#[trigger] ms[j]).resolved() implies ms[
                j].end() <= m.end() by {
                if j < ms.len() - 1 {
                    assert(ms[j] == ms0[j]);
                }
            }
        } else {
            assert forall|j: int| 0 <= j < ms.len() && (#[trigger] ms[j]).resolved() implies ms[
                j].end() <= splice_prefix(text, ms).1 by {
                assert(ms[j] == ms0[j]);
            }
        }
    }
}

proof fn lemma_splice_prefix_at_most(text: Seq<u8>, ms: Seq<MatchView>, bound: int)
    requires
        0 <= bound,
        forall|j: int| 0 <= j < ms.len() && (#[trigger] ms[j]).resolved() ==> ms[j].end() <= bound,
    ensures
        splice_prefix(text, ms).1 <= bound,
    decreases ms.len(),
{
    if ms.len() > 0 {
        let ms0 = ms.drop_last();
        assert forall|j: int| 0 <= j < ms0.len() && (#[trigger] ms0[j]).resolved() implies ms0[
            j].end() <= bound by {
            assert(ms[j] == ms0[j]);
        }
        lemma_splice_prefix_at_most(text, ms0, bound);
        assert(ms[ms.len() - 1] == ms.last());
    }
}

/// A text waiting to have resolved media spliced into it.
pub struct MarkdownToParts<'a> {
    base64s: Vec<MatchedFiles>,
    markdown: &'a str,
}

impl<'a> MarkdownToParts<'a> {
    pub closed spec fn text(&self) -> Seq<u8> {
        self.markdown.spec_bytes()
    }

    pub closed spec fn matches(&self) -> Seq<MatchView> {
        matches_view(self.base64s@)
    }

    /// Pairs `markdown` with the matches found in it, in the order of the text.
    pub fn from_matches(markdown: &'a str, base64s: Vec<MatchedFiles>) -> (r: Self)
        requires
            matches_fit(markdown.spec_bytes(), matches_view(base64s@)),
        ensures
            r.text() == markdown.spec_bytes(),
            r.matches() == matches_view(base64s@),
    {
        MarkdownToParts { base64s, markdown }
    }

    /// The fragments of the text, with the media of each resolved match placed right after the
    /// reference, which stays in the text.
    pub fn process(self) -> (r: Vec<Part>)
        requires
            matches_fit(self.text(), self.matches()),
        ensures
            parts_view(r@) == spliced(self.text(), self.matches()),
    {
        let ghost text = self.text();
        let ghost ms = self.matches();
        proof {
            encode_utf8_valid_utf8(self.markdown@);
            is_char_boundary_start_end_of_seq(text);
        }
        let total = self.markdown.as_bytes().len();
        assert(text.len() == total);
        let mut parts: Vec<Part> = Vec::new();
        let mut removed_length: usize = 0;
        let mut rest: &str = self.markdown;
        let mut i: usize = 0;
        while i < self.base64s.len()
            invariant
                i <= ms.len(),
                ms == matches_view(self.base64s@),
                text == self.markdown.spec_bytes(),
                text.len() <= usize::MAX,
                valid_utf8(text),
                matches_fit(text, ms),
                (parts_view(parts@), removed_length as int) == splice_prefix(
                    text,
                    ms.subrange(0, i as int),
                ),
                rest.spec_bytes() == text.subrange(removed_length as int, text.len() as int),
            decreases ms.len() - i,
        {
            let ghost pre = ms.subrange(0, i as int);
            assert(ms.subrange(0, i + 1).drop_last() =~= pre);
            proof {
                lemma_fit_prefix(text, ms, i as int);
                lemma_splice_prefix_bounds(text, pre);
            }
            let file = &self.base64s[i];
            match (&file.mime_type, &file.base64) {
                (Some(mime_type), Some(base64)) => {
                    assert(ms[i as int].resolved());
                    assert(ms[i as int] == ms.subrange(0, i + 1).last());
                    proof {
                        assert forall|j: int| 0 <= j < pre.len() && (#[trigger] pre[j]).resolved()
                            implies pre[j].end() <= ms[i as int].end() by {
                            assert(pre[j] == ms[j]);
                        }
                        lemma_splice_prefix_at_most(text, pre, ms[i as int].end());
                        lemma_boundary_in_suffix(text, removed_length as int, ms[i as int].end());
                    }
                    let end = file.index + file.length - removed_length;
                    let (head, tail) = rest.split_at(end);
                    proof {
                        encode_utf8_decode_utf8(head@);
                        assert(head.spec_bytes() =~= text.subrange(
                            removed_length as int,
                            ms[i as int].end(),
                        ));
                        assert(tail.spec_bytes() =~= text.subrange(
                            ms[i as int].end(),
                            text.len() as int,
                        ));
                    }
                    parts.push(Part::text(head.to_owned()));
                    parts.push(
                        Part::inline_data(InlineData::new(mime_type.clone(), base64.clone())),
                    );
                    rest = tail;
                    removed_length = removed_length + end;
                    assert(parts_view(parts@) =~= splice_prefix(text, ms.subrange(0, i + 1)).0);
                },
                _ => {
                    assert(!ms[i as int].resolved());
                    assert(ms[i as int] == ms.subrange(0, i + 1).last());
                },
            }
            i = i + 1;
        }
        assert(ms.subrange(0, i as int) =~= ms);
        proof {
            lemma_splice_prefix_bounds(text, ms);
        }
        if rest.len() != 0 {
            let ghost before = parts_view(parts@);
            proof {
                encode_utf8_decode_utf8(rest@);
            }
            parts.push(Part::text(rest.to_owned()));
            assert(parts_view(parts@) =~= before.push(
                PartView::Text(decode_utf8(text.subrange(removed_length as int, text.len() as int))),
            ));
        }
        parts
    }
}

/// Whether `matches` fit `markdown` as [`MarkdownToParts::from_matches`] asks.
pub fn matches_fit_text(markdown: &str, matches: &Vec<MatchedFiles>) -> (r: bool)
    ensures
        r == matches_fit(markdown.spec_bytes(), matches_view(matches@)),
{
    let ghost text = markdown.spec_bytes();
    let ghost ms = matches_view(matches@);
    let n = markdown.as_bytes().len();
    proof {
        encode_utf8_valid_utf8(markdown@);
    }
    let mut last_end: usize = 0;
    let ghost mut last_j: int = 0;
    let mut i: usize = 0;
    while i < matches.len()
        invariant
            n == text.len(),
            ms == matches_view(matches@),
            ms.len() == matches@.len(),
            text == markdown.spec_bytes(),
            valid_utf8(text),
            i <= ms.len(),
            matches_fit(text, ms.subrange(0, i as int)),
            forall|j: int| 0 <= j < i && (#[trigger] ms[j]).resolved() ==> ms[j].end() <= last_end,
            last_end > 0 ==> 0 <= last_j < i && ms[last_j].resolved() && ms[last_j].end()
                == last_end,
        decreases ms.len() - i,
    {
        let ghost pre = ms.subrange(0, i as int);
        let ghost next = ms.subrange(0, i + 1);
        let m = &matches[i];
        if m.mime_type.is_some() && m.base64.is_some() {
            assert(ms[i as int].resolved());
            assert(ms[i as int].start == m.index && ms[i as int].len == m.length);
            if m.index > n || m.length > n - m.index {
                assert(ms[i as int].end() > text.len());
                assert(0 <= i < ms.len() && ms[i as int].resolved());
                assert(!matches_fit(text, ms));
                return false;
            }
            let end = m.index + m.length;
            if end < last_end {
                assert(ms[i as int].end() == end);
                assert(0 <= last_j < i && ms[last_j].resolved() && ms[i as int].resolved());
                assert(ms[last_j].end() > ms[i as int].end());
                assert(!matches_fit(text, ms));
                return false;
            }
            if !markdown.is_char_boundary(end) {
                assert(ms[i as int].end() == end);
                assert(!is_char_boundary(text, ms[i as int].end()));
                return false;
            }
            last_end = end;
            proof {
                last_j = i as int;
            }
        }
        assert forall|a: int| 0 <= a < next.len() && (#[trigger] next[a]).resolved() implies next[
            a].end() <= text.len() && is_char_boundary(text, next[a].end()) by {
            if a < i {
                assert(pre[a] == next[a]);
            }
        }
        assert forall|a: int, b: int|
            0 <= a < b < next.len() && (#[trigger] next[a]).resolved() && (
            #[trigger] next[b]).resolved() implies next[a].end() <= next[b].end() by {
            if b < i {
                assert(pre[a] == next[a] && pre[b] == next[b]);
            }
        }
        i = i + 1;
    }
    assert(ms.subrange(0, i as int) =~= ms);
    true
}

proof fn lemma_visible_text_push(parts: Seq<PartView>, x: PartView)
    ensures
        visible_text(parts.push(x)) == visible_text(parts) + match x {
            PartView::Text(t) => t,
            _ => seq![],
        },
{
    assert(parts.push(x).drop_last() =~= parts);
}

proof fn lemma_splice_prefix_visible(text: Seq<u8>, ms: Seq<MatchView>)
    requires
        valid_utf8(text),
        matches_fit(text, ms),
    ensures
        visible_text(splice_prefix(text, ms).0) == decode_utf8(
            text.subrange(0, splice_prefix(text, ms).1),
        ),
    decreases ms.len(),
{
    if ms.len() == 0 {
        assert(text.subrange(0, 0) =~= Seq::<u8>::empty());
        assert(decode_utf8(Seq::<u8>::empty()) =~= Seq::<char>::empty());
    } else {
        let ms0 = ms.drop_last();
        lemma_fit_prefix(text, ms, ms.len() - 1);
        assert(ms.subrange(0, ms.len() - 1) =~= ms0);
        lemma_splice_prefix_visible(text, ms0);
        let (p, c) = splice_prefix(text, ms0);
        let m = ms.last();
        if m.resolved() {
            let e = m.end();
            assert(ms[ms.len() - 1] == m);
            lemma_splice_prefix_bounds(text, ms0);
            assert forall|j: int| 0 <= j < ms0.len() && (#[trigger] ms0[j]).resolved() implies ms0[
                j].end() <= e by {
                assert(ms[j] == ms0[j]);
            }
            lemma_splice_prefix_at_most(text, ms0, e);
            let t = PartView::Text(decode_utf8(text.subrange(c, e)));
            let d = PartView::InlineData { mime_type: m.mime_type.unwrap(), data: m.payload.unwrap() };
            assert(p + seq![t, d] =~= p.push(t).push(d));
            lemma_visible_text_push(p, t);
            lemma_visible_text_push(p.push(t), d);
            let pre = text.subrange(0, e);
            lemma_boundary_in_prefix(text, e, c);
            decode_utf8_split(pre, c);
            assert(pre.subrange(0, c) =~= text.subrange(0, c));
            assert(pre.subrange(c, pre.len() as int) =~= text.subrange(c, e));
        }
    }
}

/// Splicing loses and repeats nothing: the text fragments of the result, read in order, are
/// exactly the original text.
pub proof fn lemma_splice_alignment(text: &str, ms: Seq<MatchView>)
    requires
        matches_fit(text.spec_bytes(), ms),
    ensures
        visible_text(spliced(text.spec_bytes(), ms)) == text@,
{
    let b = text.spec_bytes();
    encode_utf8_valid_utf8(text@);
    encode_utf8_decode_utf8(text@);
    lemma_splice_prefix_visible(b, ms);
    lemma_splice_prefix_bounds(b, ms);
    let (p, c) = splice_prefix(b, ms);
    if c < b.len() {
        let t = PartView::Text(decode_utf8(b.subrange(c, b.len() as int)));
        lemma_visible_text_push(p, t);
        decode_utf8_split(b, c);
    } else {
        assert(b.subrange(0, c) =~= b);
    }
}

/// An unresolved match changes nothing: the result is the same with it and without it.
pub proof fn lemma_unresolved_inert(text: Seq<u8>, ms: Seq<MatchView>, k: int)
    requires
        0 <= k < ms.len(),
        !ms[k].resolved(),
    ensures
        spliced(text, ms) == spliced(text, ms.remove(k)),
{
    lemma_unresolved_inert_prefix(text, ms, k);
}

proof fn lemma_unresolved_inert_prefix(text: Seq<u8>, ms: Seq<MatchView>, k: int)
    requires
        0 <= k < ms.len(),
        !ms[k].resolved(),
    ensures
        splice_prefix(text, ms) == splice_prefix(text, ms.remove(k)),
    decreases ms.len(),
{
    if k == ms.len() - 1 {
        assert(ms.remove(k) =~= ms.drop_last());
    } else {
        let ms0 = ms.drop_last();
        lemma_unresolved_inert_prefix(text, ms0, k);
        assert(ms.remove(k).drop_last() =~= ms0.remove(k));
        assert(ms.remove(k).last() == ms.last());
    }
}

/// With no resolved match, the whole text comes back as one text fragment (none when the text
/// is empty).
pub proof fn lemma_all_unresolved(text: Seq<u8>, ms: Seq<MatchView>)
    requires
        forall|i: int| 0 <= i < ms.len() ==> !(#[trigger] ms[i]).resolved(),
    ensures
        spliced(text, ms) == if text.len() > 0 {
            seq![PartView::Text(decode_utf8(text))]
        } else {
            seq![]
        },
    decreases ms.len(),
{
    if ms.len() > 0 {
        let ms0 = ms.drop_last();
        assert forall|i: int| 0 <= i < ms0.len() implies !(#[trigger] ms0[i]).resolved() by {
            assert(ms[i] == ms0[i]);
        }
        lemma_all_unresolved(text, ms0);
        assert(!ms[ms.len() - 1].resolved());
    }
    assert(text.subrange(0, text.len() as int) =~= text);
}

/// Matches made from what [`find_media_references`] found, whatever they resolved to, fit
/// the text as [`MarkdownToParts::from_matches`] asks.
pub proof fn lemma_references_fit(text: &str, refs: Seq<MediaReference>, ms: Seq<MatchView>)
    requires
        refs_in_order(text.spec_bytes(), refs),
        ms.len() == refs.len(),
        forall|i: int|
            0 <= i < ms.len() ==> (#[trigger] ms[i]).start == refs[i].index && ms[i].len
                == refs[i].length,
    ensures
        matches_fit(text.spec_bytes(), ms),
{
    assert forall|i: int, j: int|
        0 <= i < j < ms.len() && (#[trigger] ms[i]).resolved() && (#[trigger] ms[j]).resolved()
        implies ms[i].end() <= ms[j].end() by {
        assert(refs[i].index + refs[i].length <= refs[j].index);
    }
    assert forall|i: int| 0 <= i < ms.len() && (#[trigger] ms[i]).resolved() implies ms[i].end()
        <= text.spec_bytes().len() && is_char_boundary(text.spec_bytes(), ms[i].end()) by {
        assert(refs[i].index + refs[i].length <= text.spec_bytes().len());
    }
}

/// Unresolved matches are inert: splicing with all of them gives the same fragments as
/// splicing with the resolved ones alone.
pub proof fn lemma_unresolved_removed(text: Seq<u8>, ms: Seq<MatchView>)
    ensures
        spliced(text, ms) == spliced(text, ms.filter(|m: MatchView| m.resolved())),
{
    lemma_splice_prefix_filter(text, ms);
}

proof fn lemma_splice_prefix_filter(text: Seq<u8>, ms: Seq<MatchView>)
    ensures
        splice_prefix(text, ms) == splice_prefix(text, ms.filter(|m: MatchView| m.resolved())),
    decreases ms.len(),
{
    let pred = |m: MatchView| m.resolved();
    reveal_with_fuel(Seq::filter, 1);
    if ms.len() > 0 {
        let ms0 = ms.drop_last();
        lemma_splice_prefix_filter(text, ms0);
        let f = ms.filter(pred);
        if ms.last().resolved() {
            assert(f == ms0.filter(pred).push(ms.last()));
            assert(f.drop_last() =~= ms0.filter(pred));
        } else {
            assert(f == ms0.filter(pred));
        }
    }
}

} // verus!
