//! Objects in a bucket: what replies mean, how a conditional write is settled, and which keys
//! an archive owns.
use crate::lines::{split_chars, split_on, texts_view, utf8};
use crate::order::{below, is_below, same_bytes};
use crate::refusal::{refuse, seen, Refusal};
use crate::text::{chars_of, has_prefix, same_text, strip_prefix};
use crate::text_laws::lemma_stored_is_owned;
use crate::wire::{digest, digest_of};
use vstd::prelude::*;
use vstd::slice::{slice_subrange, slice_to_vec};
use vstd::utf8::{decode_utf8, encode_utf8, valid_utf8};

verus! {

/// The most bytes that an object may have.
pub const MAX_BODY: usize = 67108864;

/// The most bytes that a listing may have.
pub const MAX_LISTING: usize = 4194304;

/// The most keys on one page of a listing.
pub const PAGE_KEYS: usize = 1000;

/// How often a request is made before its failure counts.
pub const TRIES: u32 = 3;

/// An object as it was read or written.
#[derive(Debug)]
pub struct Object {
    pub body: Vec<u8>,
    pub etag: String,
}

#[verifier::ext_equal]
pub struct ObjectView {
    pub body: Seq<u8>,
    pub etag: Seq<char>,
}

impl View for Object {
    type V = ObjectView;

    open spec fn view(&self) -> ObjectView {
        ObjectView { body: self.body@, etag: self.etag@ }
    }
}

pub open spec fn maybe_object(o: Option<Object>) -> Option<ObjectView> {
    match o {
        Some(o) => Some(o@),
        None => None,
    }
}

impl Object {
    pub fn copy(&self) -> (r: Object)
        ensures
            r@ == self@,
    {
        Object { body: slice_to_vec(self.body.as_slice()), etag: self.etag.clone() }
    }

    pub fn same(&self, other: &Object) -> (r: bool)
        ensures
            r == (self@ == other@),
    {
        same_bytes(self.body.as_slice(), other.body.as_slice()) && same_text(
            self.etag.as_str(),
            other.etag.as_str(),
        )
    }
}

/// Two objects that may be missing are the same.
pub fn same_object(a: &Option<Object>, b: &Option<Object>) -> (r: bool)
    ensures
        r == (maybe_object(*a) == maybe_object(*b)),
{
    match (a, b) {
        (Some(x), Some(y)) => x.same(y),
        (None, None) => true,
        _ => false,
    }
}

/// The scheme and the host of an address, nothing where it is not one.
pub uninterp spec fn url_parts(s: Seq<char>) -> Option<(Seq<char>, Option<Seq<char>>)>;

pub open spec fn parts_view(p: Option<(String, Option<String>)>) -> Option<
    (Seq<char>, Option<Seq<char>>),
> {
    match p {
        None => None,
        Some((s, None)) => Some((s@, None)),
        Some((s, Some(h))) => Some((s@, Some(h@))),
    }
}

/// `url::Url::parse`, with `scheme` and `host_str` read off the result: what they are depends
/// on the address alone.
#[verifier::external_body]
fn parse_url(s: &str) -> (r: Option<(String, Option<String>)>)
    ensures
        parts_view(r) == url_parts(s@),
{
    url::Url::parse(s).ok().map(|u| (u.scheme().to_string(), u.host_str().map(|h| h.to_string())))
}

/// Only an encrypted endpoint may be elsewhere.
pub open spec fn endpoint_fault(parts: Option<(Seq<char>, Option<Seq<char>>)>) -> Option<
    Seq<char>,
> {
    match parts {
        None => Some("invalid S3 endpoint"@),
        Some((scheme, host)) => if scheme != "https"@ && !(scheme == "http"@ && (host == Some(
            "127.0.0.1"@,
        ) || host == Some("localhost"@))) {
            Some("nonlocal S3 endpoints require HTTPS"@)
        } else {
            None
        },
    }
}

/// Checks an endpoint whose scheme and host are known.
pub fn check_parts(parts: &Option<(String, Option<String>)>) -> (r: Result<(), Refusal>)
    ensures
        match r {
            Ok(_) => endpoint_fault(parts_view(*parts)) is None,
            Err(e) => endpoint_fault(parts_view(*parts)) == Some(e@),
        },
{
    match parts {
        None => Err(refuse("invalid S3 endpoint")),
        Some((scheme, host)) => {
            let local: bool = match host {
                Some(h) => same_text(h.as_str(), "127.0.0.1") || same_text(
                    h.as_str(),
                    "localhost",
                ),
                None => false,
            };
            if !same_text(scheme.as_str(), "https") && !(same_text(scheme.as_str(), "http")
                && local) {
                Err(refuse("nonlocal S3 endpoints require HTTPS"))
            } else {
                Ok(())
            }
        },
    }
}

/// Checks an endpoint.
pub fn check_endpoint(endpoint: &str) -> (r: Result<(), Refusal>)
    ensures
        match r {
            Ok(_) => endpoint_fault(url_parts(endpoint@)) is None,
            Err(e) => endpoint_fault(url_parts(endpoint@)) == Some(e@),
        },
{
    check_parts(&parse_url(endpoint))
}

/// A prefix under which an archive may live: relative, ending in a slash, with no step up.
pub open spec fn good_prefix(p: Seq<char>) -> bool {
    &&& p.len() > 0
    &&& p.last() == '/'
    &&& p[0] != '/'
    &&& !split_on(p, '/').contains(".."@)
}

/// `cs` is the text `s`.
pub fn chars_are(cs: &[char], s: &str) -> (r: bool)
    ensures
        r == (cs@ == s@),
{
    let t = chars_of(s);
    if cs.len() != t.len() {
        return false;
    }
    let mut i: usize = 0;
    while i < cs.len()
        invariant
            i <= cs@.len() == t@.len(),
            t@ == s@,
            forall|j: int| 0 <= j < i ==> cs@[j] == t@[j],
        decreases cs@.len() - i,
    {
        if cs[i] != t[i] {
            return false;
        }
        i += 1;
    }
    proof {
        assert(cs@ =~= t@);
    }
    true
}

/// Checks the prefix of an archive.
pub fn check_prefix(prefix: &str) -> (r: Result<(), Refusal>)
    ensures
        seen(r) == (if good_prefix(prefix@) {
            Ok(())
        } else {
            Err("S3 prefix must be nonempty, relative and end in /"@)
        }),
{
    let bad = "S3 prefix must be nonempty, relative and end in /";
    let cs = chars_of(prefix);
    if cs.len() == 0 || cs[cs.len() - 1] != '/' || cs[0] == '/' {
        return Err(refuse(bad));
    }
    let parts = split_chars(cs.as_slice(), '/');
    let ghost all = texts_view(parts@);
    let mut i: usize = 0;
    while i < parts.len()
        invariant
            i <= parts@.len(),
            all == texts_view(parts@),
            all == split_on(prefix@, '/'),
            forall|j: int| 0 <= j < i ==> #[trigger] all[j] != ".."@,
            bad@ == "S3 prefix must be nonempty, relative and end in /"@,
        decreases parts@.len() - i,
    {
        if chars_are(parts[i].as_slice(), "..") {
            proof {
                assert(all[i as int] == ".."@);
            }
            return Err(refuse(bad));
        }
        i += 1;
    }
    Ok(())
}

/// The header that makes a write conditional: on the object being the one with this tag, or on
/// there being none.
pub fn condition(expected: Option<&str>) -> (r: (String, String))
    ensures
        match expected {
            Some(tag) => r.0@ == "if-match"@ && r.1@ == tag@,
            None => r.0@ == "if-none-match"@ && r.1@ == "*"@,
        },
{
    match expected {
        Some(tag) => ("if-match".to_owned(), tag.to_owned()),
        None => ("if-none-match".to_owned(), "*".to_owned()),
    }
}

/// `pat` occurs in `s`.
pub open spec fn occurs(s: Seq<u8>, pat: Seq<u8>) -> bool {
    exists|i: int|
        0 <= i <= s.len() - pat.len() && #[trigger] s.subrange(i, i + pat.len()) == pat
}

/// Looks for `pat` in `s`.
pub fn holds_bytes(s: &[u8], pat: &[u8]) -> (r: bool)
    ensures
        r == occurs(s@, pat@),
{
    if pat.len() > s.len() {
        return false;
    }
    let mut i: usize = 0;
    let last: usize = s.len() - pat.len();
    while i < last
        invariant
            last == s@.len() - pat@.len(),
            i <= last,
            forall|j: int| 0 <= j < i ==> #[trigger] s@.subrange(j, j + pat@.len()) != pat@,
        decreases last - i,
    {
        assert(i + pat@.len() <= s.len());
        if same_bytes(slice_subrange(s, i, i + pat.len()), pat) {
            return true;
        }
        i += 1;
    }
    let tail = slice_subrange(s, last, s.len());
    proof {
        assert(tail@ == s@.subrange(last as int, last + pat@.len()));
    }
    same_bytes(tail, pat)
}

/// How a request was answered.
pub enum Reply {
    /// Not at all, or with a status that counts as failure.
    Failed,
    /// With the status that no such object or bucket exists, and the beginning of a body if
    /// it came through.
    Missing(Option<Vec<u8>>),
    /// With any other status, a tag, and the beginning of a body if it came through.
    Answered { status: u16, etag: Option<String>, body: Option<Vec<u8>> },
}

/// What a reply to a read or a write means.
pub open spec fn meaning(reply: Reply, put: Option<Seq<u8>>) -> Result<
    Option<ObjectView>,
    Seq<char>,
> {
    match reply {
        Reply::Failed => Err("S3 request failed or its result is unknown"@),
        Reply::Missing(body) => if put is Some {
            Err("S3 request failed or its result is unknown"@)
        } else {
            match body {
                None => Err("S3 response interrupted"@),
                Some(b) => if b@.len() <= 65536 && occurs(
                    b@,
                    encode_utf8("<Code>NoSuchKey</Code>"@),
                ) {
                    Ok(None)
                } else {
                    Err("S3 bucket missing or inaccessible"@)
                },
            }
        },
        Reply::Answered { status, etag, body } => if status != 200 {
            Err("unexpected S3 status"@)
        } else {
            match etag {
                None => Err("S3 response lacks ETag"@),
                Some(tag) => match body {
                    None => Err("S3 response interrupted"@),
                    Some(b) => if b@.len() > MAX_BODY {
                        Err("oversized S3 response"@)
                    } else {
                        Ok(
                            Some(
                                ObjectView {
                                    body: match put {
                                        Some(p) => p,
                                        None => b@,
                                    },
                                    etag: tag@,
                                },
                            ),
                        )
                    },
                },
            }
        },
    }
}

pub open spec fn object_result(r: Result<Option<Object>, Refusal>) -> Result<
    Option<ObjectView>,
    Seq<char>,
> {
    match r {
        Ok(o) => Ok(maybe_object(o)),
        Err(e) => Err(e@),
    }
}

/// What a reply means, to a write of `put` or to a read. Errors of the transport are not
/// passed on: signed addresses carry credentials.
pub fn understand(reply: Reply, put: Option<&[u8]>) -> (r: Result<Option<Object>, Refusal>)
    ensures
        object_result(r) == meaning(
            reply,
            match put {
                Some(p) => Some(p@),
                None => None,
            },
        ),
{
    match reply {
        Reply::Failed => Err(refuse("S3 request failed or its result is unknown")),
        Reply::Missing(body) => {
            if put.is_some() {
                return Err(refuse("S3 request failed or its result is unknown"));
            }
            match body {
                None => Err(refuse("S3 response interrupted")),
                Some(b) => if b.len() <= 65536 && holds_bytes(
                    b.as_slice(),
                    "<Code>NoSuchKey</Code>".as_bytes(),
                ) {
                    Ok(None)
                } else {
                    Err(refuse("S3 bucket missing or inaccessible"))
                },
            }
        },
        Reply::Answered { status, etag, body } => {
            if status != 200 {
                return Err(refuse("unexpected S3 status"));
            }
            let tag = match etag {
                Some(t) => t,
                None => return Err(refuse("S3 response lacks ETag")),
            };
            let b = match body {
                Some(b) => b,
                None => return Err(refuse("S3 response interrupted")),
            };
            if b.len() > MAX_BODY {
                return Err(refuse("oversized S3 response"));
            }
            match put {
                Some(p) => Ok(Some(Object { body: slice_to_vec(p), etag: tag })),
                None => Ok(Some(Object { body: b, etag: tag })),
            }
        },
    }
}

/// A body that is too large is not sent.
pub fn check_body(body: &[u8]) -> (r: Result<(), Refusal>)
    ensures
        seen(r) == (if body@.len() > MAX_BODY {
            Err("S3 object exceeds 64 MiB"@)
        } else {
            Ok(())
        }),
{
    if body.len() > MAX_BODY {
        Err(refuse("S3 object exceeds 64 MiB"))
    } else {
        Ok(())
    }
}

/// A request that is made again while it fails, a few times.
pub struct Retry {
    made: u32,
}

impl View for Retry {
    type V = nat;

    /// How often the request was made.
    closed spec fn view(&self) -> nat {
        self.made as nat
    }
}

impl Retry {
    pub fn new() -> (r: Retry)
        ensures
            r@ == 0,
    {
        Retry { made: 0 }
    }

    /// Counts an attempt that failed. `true` where there is to be another.
    pub fn failed(&mut self) -> (again: bool)
        requires
            old(self)@ < TRIES,
        ensures
            final(self)@ == old(self)@ + 1,
            again == (final(self)@ < TRIES),
    {
        self.made = self.made + 1;
        self.made < TRIES
    }
}

/// What to do next about a conditional write.
pub enum Settle {
    /// Write the proposed body, on the original condition.
    Write,
    /// Read what is there.
    Look,
    Done(Object),
    Refused(Refusal),
}

/// A conditional write that is not settled until the object is known to hold the proposed body
/// or something else. A response that was lost is made up for by reading the object.
pub struct Proposal {
    body: Vec<u8>,
    prior: Option<Object>,
    writes: u32,
}

#[verifier::ext_equal]
pub struct ProposalView {
    pub body: Seq<u8>,
    /// What the object must be for the write to go through; nothing where there must be none.
    pub prior: Option<ObjectView>,
    /// How often the write was tried.
    pub writes: nat,
}

impl View for Proposal {
    type V = ProposalView;

    closed spec fn view(&self) -> ProposalView {
        ProposalView {
            body: self.body@,
            prior: maybe_object(self.prior),
            writes: self.writes as nat,
        }
    }
}

impl Proposal {
    pub fn new(body: Vec<u8>, prior: Option<Object>) -> (r: Proposal)
        ensures
            r@ == (ProposalView { body: body@, prior: maybe_object(prior), writes: 0 }),
    {
        Proposal { body, prior, writes: 0 }
    }

    /// The proposed body.
    pub fn body(&self) -> (r: &Vec<u8>)
        ensures
            r@ == self@.body,
    {
        &self.body
    }

    /// The header that every attempt carries.
    pub fn header(&self) -> (r: (String, String))
        ensures
            match self@.prior {
                Some(o) => r.0@ == "if-match"@ && r.1@ == o.etag,
                None => r.0@ == "if-none-match"@ && r.1@ == "*"@,
            },
    {
        match &self.prior {
            Some(o) => condition(Some(o.etag.as_str())),
            None => condition(None),
        }
    }

    /// The write came back as `answer`. Without a certain success, the object is read.
    pub fn written(&mut self, answer: Result<Option<Object>, Refusal>) -> (r: Settle)
        requires
            old(self)@.writes < TRIES,
        ensures
            final(self)@ == (ProposalView { writes: old(self)@.writes + 1, ..old(self)@ }),
            match answer {
                Ok(Some(o)) => r == Settle::Done(o),
                _ => r == Settle::Look,
            },
    {
        self.writes = self.writes + 1;
        match answer {
            Ok(Some(o)) => Settle::Done(o),
            _ => Settle::Look,
        }
    }

    /// Reading the object gave `current`. It settles the write where it holds the proposed
    /// body; it refuses it where it is not what it was, and never takes over the tag of
    /// another; else the write is tried again, a few times.
    pub fn looked(&self, current: Result<Option<Object>, Refusal>) -> (r: Settle)
        ensures
            match current {
                Err(e) => r matches Settle::Refused(x) && x@ == e@,
                Ok(c) => if c matches Some(o) && o@.body == self@.body {
                    r matches Settle::Done(o) && Some(o@) == maybe_object(c)
                } else if maybe_object(c) != self@.prior {
                    r matches Settle::Refused(x) && x@
                        == "S3 ownership conflict; refusing to rebase publication"@
                } else if self@.writes < TRIES {
                    r == Settle::Write
                } else {
                    r matches Settle::Refused(x) && x@
                        == "S3 conditional publication remains unresolved"@
                },
            },
    {
        let c = match current {
            Err(e) => return Settle::Refused(e),
            Ok(c) => c,
        };
        match &c {
            Some(o) => if same_bytes(o.body.as_slice(), self.body.as_slice()) {
                return Settle::Done(o.copy());
            },
            None => {},
        }
        if !same_object(&c, &self.prior) {
            return Settle::Refused(
                refuse("S3 ownership conflict; refusing to rebase publication"),
            );
        }
        if self.writes < TRIES {
            Settle::Write
        } else {
            Settle::Refused(refuse("S3 conditional publication remains unresolved"))
        }
    }
}

/// The key of an object that is named by its content.
pub fn content_key(kind: &str, key: &str) -> (r: String)
    ensures
        r@ == kind@ + "/"@ + key@,
{
    let mut r = kind.to_owned();
    r.append("/");
    r.append(key);
    r
}

/// The address of `body`: what it is stored under by its content.
pub fn immutable_key(kind: &str, body: &[u8]) -> (r: (String, String))
    ensures
        r.0@ == digest_of(body@),
        is_address(r.0@),
        r.1@ == kind@ + "/"@ + digest_of(body@),
        owned_kind(kind@) ==> is_owned(r.1@),
{
    let key = digest(body);
    let path = content_key(kind, key.as_str());
    proof {
        if owned_kind(kind@) {
            lemma_stored_is_owned(kind@, key@);
        }
    }
    (key, path)
}

/// Checks that `body` is what its address says.
pub fn check_content(key: &str, body: &[u8]) -> (r: Result<(), Refusal>)
    ensures
        seen(r) == (if digest_of(body@) == key@ {
            Ok(())
        } else {
            Err("corrupt content-addressed object"@)
        }),
{
    if !same_text(digest(body).as_str(), key) {
        return Err(refuse("corrupt content-addressed object"));
    }
    Ok(())
}

/// Checks an address before it is looked up.
pub fn check_address(key: &str) -> (r: Result<(), Refusal>)
    ensures
        seen(r) == (if is_address(key@) {
            Ok(())
        } else {
            Err("invalid content address"@)
        }),
{
    if !address(key) {
        return Err(refuse("invalid content address"));
    }
    Ok(())
}

/// A lower-case hexadecimal digit.
pub open spec fn address_char(c: char) -> bool {
    '0' <= c <= '9' || 'a' <= c <= 'f'
}

/// Sixty-four lower-case hexadecimal digits.
pub open spec fn is_address(s: Seq<char>) -> bool {
    s.len() == 64 && forall|i: int| 0 <= i < s.len() ==> address_char(#[trigger] s[i])
}

/// `s` is a content address.
pub fn address(s: &str) -> (r: bool)
    ensures
        r == is_address(s@),
{
    address_chars(chars_of(s).as_slice())
}

pub fn address_chars(cs: &[char]) -> (r: bool)
    ensures
        r == is_address(cs@),
{
    if cs.len() != 64 {
        return false;
    }
    let mut i: usize = 0;
    while i < cs.len()
        invariant
            i <= cs@.len() == 64,
            forall|j: int| 0 <= j < i ==> address_char(#[trigger] cs@[j]),
        decreases cs@.len() - i,
    {
        if !(('0' <= cs[i] && cs[i] <= '9') || ('a' <= cs[i] && cs[i] <= 'f')) {
            return false;
        }
        i += 1;
    }
    true
}

/// A kind of object that an archive stores by content.
pub open spec fn owned_kind(s: Seq<char>) -> bool {
    s == "chunks"@ || s == "descriptors"@ || s == "backups"@ || s == "backup-chunks"@ || s
        == "snapshot-index"@ || s == "retired"@ || s == "histories"@
}

/// A key under which an archive stores an object by content.
pub open spec fn is_owned(s: Seq<char>) -> bool {
    match crate::lines::first_of(s, '/') {
        None => false,
        Some(i) => owned_kind(s.take(i)) && is_address(s.skip(i + 1)),
    }
}

/// `key` is one under which an archive stores an object by content: no other is ever deleted.
pub fn owned_key(key: &str) -> (r: bool)
    ensures
        r == is_owned(key@),
{
    let cs = chars_of(key);
    match crate::lines::find_char(cs.as_slice(), '/') {
        None => false,
        Some(i) => {
            assert(i < cs.len());
            let kind = slice_subrange(cs.as_slice(), 0, i);
            let rest = slice_subrange(cs.as_slice(), i + 1, cs.len());
            proof {
                assert(kind@ =~= key@.take(i as int));
                assert(rest@ =~= key@.skip(i + 1));
            }
            (chars_are(kind, "chunks") || chars_are(kind, "descriptors") || chars_are(
                kind,
                "backups",
            ) || chars_are(kind, "backup-chunks") || chars_are(kind, "snapshot-index")
                || chars_are(kind, "retired") || chars_are(kind, "histories")) && address_chars(
                rest,
            )
        },
    }
}

/// Only a key that an archive stores an object under is deleted.
pub fn check_delete(key: &str) -> (r: Result<(), Refusal>)
    ensures
        seen(r) == (if is_owned(key@) {
            Ok(())
        } else {
            Err("unsupported retirement key"@)
        }),
{
    if !owned_key(key) {
        return Err(refuse("unsupported retirement key"));
    }
    Ok(())
}

/// The keys on a page of a listing, in the order they stand there, and whether the listing goes
/// on. Nothing where the text is no listing.
pub uninterp spec fn listing_of(s: Seq<char>) -> Option<(Seq<Seq<char>>, bool)>;

pub open spec fn strings_view(v: Seq<String>) -> Seq<Seq<char>> {
    Seq::new(v.len(), |i: int| v[i]@)
}

pub open spec fn listing_view(p: Option<(Vec<String>, bool)>) -> Option<(Seq<Seq<char>>, bool)> {
    match p {
        None => None,
        Some((keys, more)) => Some((strings_view(keys@), more)),
    }
}

/// `rusty_s3::actions::ListObjectsV2::parse_response`: the keys of the contents and whether
/// there is a continuation token, which depend on the text alone.
#[verifier::external_body]
fn parse_listing(s: &str) -> (r: Option<(Vec<String>, bool)>)
    ensures
        listing_view(r) == listing_of(s@),
{
    let page = rusty_s3::actions::ListObjectsV2::parse_response(s).ok()?;
    let more = page.next_continuation_token.is_some();
    Some((page.contents.into_iter().map(|c| c.key).collect(), more))
}

/// The keys below a prefix, each after the one before it in byte order.
pub open spec fn page_keys(keys: Seq<Seq<char>>, prefix: Seq<char>, after: Seq<char>) -> Result<
    Seq<Seq<char>>,
    Seq<char>,
>
    decreases keys.len(),
{
    if keys.len() == 0 {
        Ok(Seq::empty())
    } else {
        match page_keys(keys.drop_last(), prefix, after) {
            Err(e) => Err(e),
            Ok(done) => if !has_prefix(keys.last(), prefix) {
                Err("S3 listing escaped archive prefix"@)
            } else {
                let k = keys.last().skip(prefix.len() as int);
                let previous = if done.len() == 0 {
                    after
                } else {
                    done.last()
                };
                if k.len() == 0 || !below(encode_utf8(previous), encode_utf8(k)) {
                    Err("unordered S3 listing"@)
                } else {
                    Ok(done.push(k))
                }
            },
        }
    }
}

/// The keys on a page that was listed after `after`, below the archive's prefix.
pub open spec fn page_of(
    listing: Option<(Seq<Seq<char>>, bool)>,
    prefix: Seq<char>,
    after: Seq<char>,
) -> Result<Seq<Seq<char>>, Seq<char>> {
    match listing {
        None => Err("invalid S3 listing response"@),
        Some((keys, more)) => if keys.len() > PAGE_KEYS || (keys.len() == 0 && more) {
            Err("invalid S3 listing page"@)
        } else {
            page_keys(keys, prefix, after)
        },
    }
}

pub open spec fn keys_result(r: Result<Vec<String>, Refusal>) -> Result<Seq<Seq<char>>, Seq<char>> {
    match r {
        Ok(v) => Ok(strings_view(v@)),
        Err(e) => Err(e@),
    }
}

proof fn lemma_page_err(keys: Seq<Seq<char>>, prefix: Seq<char>, after: Seq<char>, i: int)
    requires
        0 <= i <= keys.len(),
        page_keys(keys.take(i), prefix, after) is Err,
    ensures
        page_keys(keys, prefix, after) == page_keys(keys.take(i), prefix, after),
    decreases keys.len() - i,
{
    if i == keys.len() {
        assert(keys.take(i) =~= keys);
    } else {
        assert(keys.take(i + 1).drop_last() =~= keys.take(i));
        lemma_page_err(keys, prefix, after, i + 1);
    }
}

/// The keys on a page, checked: below the prefix, and in order after `after`.
pub fn check_page(listing: Option<(Vec<String>, bool)>, prefix: &str, after: &str) -> (r: Result<
    Vec<String>,
    Refusal,
>)
    ensures
        keys_result(r) == page_of(listing_view(listing), prefix@, after@),
{
    let ghost whole = listing_view(listing);
    let (contents, more) = match listing {
        Some(p) => p,
        None => return Err(refuse("invalid S3 listing response")),
    };
    let ghost all = strings_view(contents@);
    proof {
        assert(all.len() == contents@.len());
    }
    if contents.len() > PAGE_KEYS || (contents.len() == 0 && more) {
        return Err(refuse("invalid S3 listing page"));
    }
    let mut keys: Vec<String> = Vec::new();
    let mut previous = after.to_owned();
    let mut i: usize = 0;
    proof {
        assert(all.take(0) =~= Seq::empty());
        assert(strings_view(keys@) =~= Seq::empty());
    }
    while i < contents.len()
        invariant
            i <= contents@.len(),
            all == strings_view(contents@),
            whole == listing_view(listing),
            whole == Some((all, more)),
            page_of(whole, prefix@, after@) == page_keys(all, prefix@, after@),
            page_keys(all.take(i as int), prefix@, after@) == Ok::<Seq<Seq<char>>, Seq<char>>(
                strings_view(keys@),
            ),
            previous@ == (if keys@.len() == 0 {
                after@
            } else {
                strings_view(keys@).last()
            }),
        decreases contents@.len() - i,
    {
        let ghost was = strings_view(keys@);
        proof {
            assert(all.take(i + 1).drop_last() =~= all.take(i as int));
            assert(all.take(i + 1).last() == contents@[i as int]@);
            assert(was.len() == keys@.len());
        }
        match strip_prefix(contents[i].as_str(), prefix) {
            None => {
                proof {
                    lemma_page_err(all, prefix@, after@, i + 1);
                }
                return Err(refuse("S3 listing escaped archive prefix"));
            },
            Some(k) => {
                if k.as_str().is_empty() || !is_below(
                    previous.as_str().as_bytes(),
                    k.as_str().as_bytes(),
                ) {
                    proof {
                        lemma_page_err(all, prefix@, after@, i + 1);
                    }
                    return Err(refuse("unordered S3 listing"));
                }
                previous = k.clone();
                keys.push(k);
                proof {
                    assert(strings_view(keys@) =~= was.push(k@));
                }
            },
        }
        i += 1;
    }
    proof {
        assert(all.take(all.len() as int) =~= all);
    }
    Ok(keys)
}

/// Reads a page of a listing that was asked for after `after`.
pub fn list_page(body: &[u8], prefix: &str, after: Option<&str>) -> (r: Result<
    Vec<String>,
    Refusal,
>)
    ensures
        keys_result(r) == (if body@.len() > MAX_LISTING {
            Err("S3 listing response limit"@)
        } else if !valid_utf8(body@) {
            Err("non UTF-8 S3 listing"@)
        } else {
            page_of(
                listing_of(decode_utf8(body@)),
                prefix@,
                match after {
                    Some(a) => a@,
                    None => Seq::empty(),
                },
            )
        }),
{
    if body.len() > MAX_LISTING {
        return Err(refuse("S3 listing response limit"));
    }
    let s = match utf8(body) {
        Some(s) => s,
        None => return Err(refuse("non UTF-8 S3 listing")),
    };
    match after {
        Some(a) => check_page(parse_listing(s.as_str()), prefix, a),
        None => {
            let none = String::new();
            check_page(parse_listing(s.as_str()), prefix, none.as_str())
        },
    }
}

/// Pages move forward: every key on a page sorts after what the page was asked to follow, so a
/// listing that goes on from the last key of each page meets no key twice.
pub proof fn lemma_pages_move_forward(
    keys: Seq<Seq<char>>,
    prefix: Seq<char>,
    after: Seq<char>,
    i: int,
)
    requires
        page_keys(keys, prefix, after) matches Ok(done) && 0 <= i < done.len(),
    ensures
        ({
            let done = page_keys(keys, prefix, after)->Ok_0;
            &&& below(encode_utf8(after), encode_utf8(done[i]))
            &&& done.len() == keys.len()
            &&& keys[i] == prefix + done[i]
            &&& i > 0 ==> below(encode_utf8(done[i - 1]), encode_utf8(done[i]))
        }),
    decreases keys.len(), i,
{
    let done = page_keys(keys, prefix, after)->Ok_0;
    let head = keys.drop_last();
    let before = page_keys(head, prefix, after)->Ok_0;
    assert(done.drop_last() =~= before);
    if i < before.len() {
        lemma_pages_move_forward(head, prefix, after, i);
        assert(head[i] == keys[i]);
        assert(before[i] == done[i]);
        if i > 0 {
            assert(before[i - 1] == done[i - 1]);
        }
    } else {
        if before.len() > 0 {
            lemma_pages_move_forward(head, prefix, after, before.len() - 1);
            assert(before[before.len() - 1] == done[i - 1]);
            crate::order::lemma_below_transitive(
                encode_utf8(after),
                encode_utf8(done[i - 1]),
                encode_utf8(done[i]),
            );
        } else {
            lemma_page_len(head, prefix, after);
        }
        lemma_page_len(head, prefix, after);
        assert(keys.last() =~= keys.last().take(prefix.len() as int) + keys.last().skip(
            prefix.len() as int,
        ));
    }
    lemma_page_len(head, prefix, after);
}

proof fn lemma_page_len(keys: Seq<Seq<char>>, prefix: Seq<char>, after: Seq<char>)
    requires
        page_keys(keys, prefix, after) is Ok,
    ensures
        page_keys(keys, prefix, after)->Ok_0.len() == keys.len(),
    decreases keys.len(),
{
    if keys.len() > 0 {
        lemma_page_len(keys.drop_last(), prefix, after);
    }
}

} // verus!
