//! Where media comes from: files and HTTP(S) URLs.

use vstd::prelude::*;
use vstd::string::*;

use crate::error::{custom_error, Error};
use crate::http_headers::{add_missing, headers_equal, normalised};
use crate::session_cache::{ExpirationPolicy, SessionKey};
use crate::strings::{join2, text_equal};
use crate::time::Duration;

verus! {

/// How long a remote session lasts, in seconds.
pub const REMOTE_SESSION_SECONDS: u64 = 300;

/// How long a local session lasts after its last use, in seconds.
pub const LOCAL_SESSION_SECONDS: u64 = 60;

/// The seconds between two searches for sessions that have ended.
pub const SESSION_REAPER_SECONDS: u64 = 1;

/// The time between two searches for sessions that have ended.
pub fn session_reaper_interval() -> (result: Duration)
    ensures
        result@ == 1_000_000_000,
{
    Duration::from_secs(SESSION_REAPER_SECONDS)
}

// ---------------------------------------------------------------------------
// URLs
// ---------------------------------------------------------------------------

/// The scheme, the host and the port that URLs of one origin share.
#[derive(Debug)]
pub struct UrlOrigin {
    pub scheme: String,
    pub host: String,
    pub port: u16,
}

/// What a URL says of its scheme and its origin. Only HTTP(S) URLs are asked
/// for their origin.
#[derive(Debug)]
pub struct ParsedUrl {
    pub scheme: String,
    pub origin: Option<UrlOrigin>,
}

impl View for UrlOrigin {
    type V = (Seq<char>, Seq<char>, u16);

    open spec fn view(&self) -> (Seq<char>, Seq<char>, u16) {
        (self.scheme@, self.host@, self.port)
    }
}

pub open spec fn origin_view(origin: Option<UrlOrigin>) -> Option<(Seq<char>, Seq<char>, u16)> {
    match origin {
        Some(origin) => Some(origin@),
        None => None,
    }
}

impl View for ParsedUrl {
    type V = (Seq<char>, Option<(Seq<char>, Seq<char>, u16)>);

    open spec fn view(&self) -> (Seq<char>, Option<(Seq<char>, Seq<char>, u16)>) {
        (self.scheme@, origin_view(self.origin))
    }
}

pub open spec fn parsed_view(parsed: Result<ParsedUrl, String>) -> Result<
    (Seq<char>, Option<(Seq<char>, Seq<char>, u16)>),
    Seq<char>,
> {
    match parsed {
        Ok(url) => Ok(url@),
        Err(text) => Err(text@),
    }
}

/// The scheme that `url::Url::parse` finds in a text, or the words of the parse
/// error.
pub uninterp spec fn url_scheme(source: Seq<char>) -> Result<Seq<char>, Seq<char>>;

/// The scheme, host and port of the origin that `url::Url::origin` gives for
/// the URL in a text.
pub uninterp spec fn url_origin(source: Seq<char>) -> Option<(Seq<char>, Seq<char>, u16)>;

pub open spec fn text_result(result: Result<String, String>) -> Result<Seq<char>, Seq<char>> {
    match result {
        Ok(text) => Ok(text@),
        Err(text) => Err(text@),
    }
}

/// Whether a scheme is that of HTTP(S) URLs.
pub open spec fn is_http_scheme(scheme: Seq<char>) -> bool {
    scheme == "http"@ || scheme == "https"@
}

/// What a text says as a URL: its scheme and, where that is HTTP(S), its
/// origin; or the words for why it is none.
pub open spec fn url_facts(source: Seq<char>) -> Result<
    (Seq<char>, Option<(Seq<char>, Seq<char>, u16)>),
    Seq<char>,
> {
    match url_scheme(source) {
        Err(text) => Err(text),
        Ok(scheme) => Ok(
            (
                scheme,
                if is_http_scheme(scheme) {
                    url_origin(source)
                } else {
                    None
                },
            ),
        ),
    }
}

/// Parses a URL with `url::Url::parse` and reads its scheme with
/// `url::Url::scheme`. Both are determined by the text. How URLs are parsed is
/// not stated.
#[verifier::external_body]
fn parse_scheme(source: &str) -> (result: Result<String, String>)
    ensures
        text_result(result) == url_scheme(source@),
{
    match url::Url::parse(source) {
        Ok(url) => Ok(url.scheme().to_string()),
        Err(error) => Err(error.to_string()),
    }
}

/// The origin of an HTTP(S) URL, from `url::Url::origin`. It is determined by
/// the text. Which host and port it names is not stated.
#[verifier::external_body]
fn parse_origin(source: &str) -> (result: Option<UrlOrigin>)
    requires
        url_scheme(source@) matches Ok(scheme) && is_http_scheme(scheme),
    ensures
        origin_view(result) == url_origin(source@),
{
    match url::Url::parse(source) {
        Ok(url) => match url.origin() {
            url::Origin::Tuple(scheme, host, port) => Some(
                UrlOrigin { scheme, host: host.to_string(), port },
            ),
            url::Origin::Opaque(_) => None,
        },
        Err(_) => None,
    }
}

/// Whether a scheme is that of HTTP(S) URLs.
fn has_http_scheme(scheme: &str) -> (result: bool)
    ensures
        result == is_http_scheme(scheme@),
{
    text_equal(scheme, "http") || text_equal(scheme, "https")
}

/// What a text says as a URL.
fn parse_url(source: &str) -> (result: Result<ParsedUrl, String>)
    ensures
        parsed_view(result) == url_facts(source@),
{
    match parse_scheme(source) {
        Err(text) => Err(text),
        Ok(scheme) => {
            let origin = if has_http_scheme(scheme.as_str()) {
                parse_origin(source)
            } else {
                None
            };
            Ok(ParsedUrl { scheme, origin })
        },
    }
}

/// Whether a parsed text is an HTTP(S) URL.
pub open spec fn is_http(
    parsed: Result<(Seq<char>, Option<(Seq<char>, Seq<char>, u16)>), Seq<char>>,
) -> bool {
    match parsed {
        Ok(url) => is_http_scheme(url.0),
        Err(_) => false,
    }
}

/// Whether a parsed text is an HTTP(S) URL.
pub fn is_http_url(parsed: &Result<ParsedUrl, String>) -> (result: bool)
    ensures
        result == is_http(parsed_view(*parsed)),
{
    match parsed {
        Ok(url) => has_http_scheme(url.scheme.as_str()),
        Err(_) => false,
    }
}

/// Whether a source is an HTTP(S) URL, and no file.
pub fn is_http_source(source: &str) -> (result: bool)
    ensures
        result == is_http(url_facts(source@)),
{
    match parse_scheme(source) {
        Ok(scheme) => has_http_scheme(scheme.as_str()),
        Err(_) => false,
    }
}

// ---------------------------------------------------------------------------
// Default headers
// ---------------------------------------------------------------------------

/// Headers that are sent along, and the origins that they are sent to.
pub struct DefaultHeaders {
    headers: Vec<(String, String)>,
    origins: Option<Vec<Option<UrlOrigin>>>,
}

pub open spec fn origin_views(origins: Seq<Option<UrlOrigin>>) -> Seq<
    Option<(Seq<char>, Seq<char>, u16)>,
> {
    Seq::new(origins.len(), |i: int| origin_view(origins[i]))
}

/// The origin of a parsed URL that headers may be sent to, or why there is
/// none.
pub open spec fn allowed_origin(
    parsed: Result<(Seq<char>, Option<(Seq<char>, Seq<char>, u16)>), Seq<char>>,
) -> Result<Option<(Seq<char>, Seq<char>, u16)>, Seq<char>> {
    match parsed {
        Err(text) => Err("Invalid default headers origin: "@ + text),
        Ok(url) => if is_http(parsed) {
            Ok(url.1)
        } else {
            Err("Default headers origins must use HTTP(S)"@)
        },
    }
}

/// The origins in the first `k` texts, or why one of them is none.
pub open spec fn allowed_origins(texts: Seq<Seq<char>>, k: int) -> Result<
    Seq<Option<(Seq<char>, Seq<char>, u16)>>,
    Seq<char>,
>
    decreases k,
{
    if k <= 0 {
        Ok(seq![])
    } else {
        match allowed_origins(texts, k - 1) {
            Err(text) => Err(text),
            Ok(origins) => match allowed_origin(url_facts(texts[k - 1])) {
                Err(text) => Err(text),
                Ok(origin) => Ok(origins.push(origin)),
            },
        }
    }
}

/// Whether an origin is one of those allowed. An opaque origin is equal to no
/// other.
pub open spec fn origin_allowed(
    origins: Option<Seq<Option<(Seq<char>, Seq<char>, u16)>>>,
    origin: Option<(Seq<char>, Seq<char>, u16)>,
) -> bool {
    match origins {
        None => true,
        Some(origins) => origin is Some && origins.contains(origin),
    }
}

pub open spec fn optional_headers(headers: Option<Vec<(String, String)>>) -> Option<
    Seq<(Seq<char>, Seq<char>)>,
> {
    match headers {
        Some(headers) => Some(crate::http_headers::views(headers@)),
        None => None,
    }
}

/// Whether no header is named twice.
pub open spec fn named_once(headers: Option<Seq<(Seq<char>, Seq<char>)>>) -> bool {
    headers matches Some(headers) ==> crate::http_headers::names_distinct(headers)
}

/// The headers for a request: none for what is no HTTP(S) URL. Defaults go
/// only to allowed origins, and only where the request has none of that name.
pub open spec fn merged_headers(
    defaults: Seq<(Seq<char>, Seq<char>)>,
    origins: Option<Seq<Option<(Seq<char>, Seq<char>, u16)>>>,
    parsed: Result<(Seq<char>, Option<(Seq<char>, Seq<char>, u16)>), Seq<char>>,
    headers: Option<Seq<(Seq<char>, Seq<char>)>>,
) -> Option<Seq<(Seq<char>, Seq<char>)>> {
    if !is_http(parsed) {
        None
    } else if defaults.len() == 0 || !origin_allowed(origins, parsed->Ok_0.1) {
        headers
    } else {
        Some(
            crate::http_headers::with_defaults(
                match headers {
                    Some(headers) => headers,
                    None => seq![],
                },
                defaults,
                defaults.len() as int,
            ),
        )
    }
}

/// Where origins are restricted, a request to any other origin gets none of
/// the defaults.
pub proof fn lemma_defaults_reach_only_allowed_origins(
    defaults: Seq<(Seq<char>, Seq<char>)>,
    origins: Seq<Option<(Seq<char>, Seq<char>, u16)>>,
    parsed: Result<(Seq<char>, Option<(Seq<char>, Seq<char>, u16)>), Seq<char>>,
    headers: Option<Seq<(Seq<char>, Seq<char>)>>,
)
    requires
        is_http(parsed),
        !origins.contains(parsed->Ok_0.1),
    ensures
        merged_headers(defaults, Some(origins), parsed, headers) == headers,
{
}

/// The origin of a parsed URL that headers may be sent to.
pub fn checked_origin(parsed: Result<ParsedUrl, String>) -> (result: Result<
    Option<UrlOrigin>,
    Error,
>)
    ensures
        match result {
            Ok(origin) => allowed_origin(parsed_view(parsed)) == Ok::<
                Option<(Seq<char>, Seq<char>, u16)>,
                Seq<char>,
            >(origin_view(origin)),
            Err(error) => allowed_origin(parsed_view(parsed)) matches Err(text) && error@
                == crate::error::PluginErrorView::Custom(text),
        },
{
    let http = is_http_url(&parsed);
    match parsed {
        Err(text) => Err(
            Error::Custom(join2("Invalid default headers origin: ", text.as_str())),
        ),
        Ok(url) => if http {
            Ok(url.origin)
        } else {
            Err(custom_error("Default headers origins must use HTTP(S)"))
        },
    }
}

/// Whether two origins are the same.
fn same_origin(left: &UrlOrigin, right: &UrlOrigin) -> (result: bool)
    ensures
        result == (left@ == right@),
{
    text_equal(left.scheme.as_str(), right.scheme.as_str()) && text_equal(
        left.host.as_str(),
        right.host.as_str(),
    ) && left.port == right.port
}

impl DefaultHeaders {
    pub closed spec fn defaults(self) -> Seq<(Seq<char>, Seq<char>)> {
        crate::http_headers::views(self.headers@)
    }

    pub closed spec fn allowed(self) -> Option<Seq<Option<(Seq<char>, Seq<char>, u16)>>> {
        match self.origins {
            Some(origins) => Some(origin_views(origins@)),
            None => None,
        }
    }

    /// No default header is named twice.
    #[verifier::type_invariant]
    spec fn headers_named_once(self) -> bool {
        crate::http_headers::names_distinct(crate::http_headers::views(self.headers@))
    }

    /// Default headers, restricted to the origins of some URLs where there is
    /// a list of them; an empty list allows none.
    pub fn new(headers: Vec<(String, String)>, origins: Option<Vec<String>>) -> (result: Result<
        Self,
        Error,
    >)
        requires
            crate::http_headers::names_distinct(crate::http_headers::views(headers@)),
        ensures
            match (result, origins) {
                (Ok(defaults), None) => defaults.defaults() == crate::http_headers::views(headers@)
                    && defaults.allowed() is None,
                (Ok(defaults), Some(texts)) => {
                    &&& defaults.defaults() == crate::http_headers::views(headers@)
                    &&& defaults.allowed() is Some
                    &&& allowed_origins(
                        crate::types::text_views(texts@),
                        texts@.len() as int,
                    ) == Ok::<
                        Seq<Option<(Seq<char>, Seq<char>, u16)>>,
                        Seq<char>,
                    >(defaults.allowed().unwrap())
                },
                (Err(error), Some(texts)) => allowed_origins(
                    crate::types::text_views(texts@),
                    texts@.len() as int,
                ) matches Err(text) && error@ == crate::error::PluginErrorView::Custom(text),
                (Err(_), None) => false,
            },
    {
        match origins {
            None => Ok(DefaultHeaders { headers, origins: None }),
            Some(texts) => {
                let mut allowed: Vec<Option<UrlOrigin>> = Vec::new();
                let mut index: usize = 0;
                assert(origin_views(allowed@) =~= seq![]);
                while index < texts.len()
                    invariant
                        index <= texts@.len(),
                        origins == Some(texts),
                        crate::http_headers::names_distinct(crate::http_headers::views(headers@)),
                        allowed_origins(crate::types::text_views(texts@), index as int) == Ok::<
                            Seq<Option<(Seq<char>, Seq<char>, u16)>>,
                            Seq<char>,
                        >(origin_views(allowed@)),
                    decreases texts@.len() - index,
                {
                    let ghost before = origin_views(allowed@);
                    assert(crate::types::text_views(texts@)[index as int] == texts@[index as int]@);
                    match checked_origin(parse_url(texts[index].as_str())) {
                        Ok(origin) => {
                            let ghost pushed = origin_view(origin);
                            allowed.push(origin);
                            assert(origin_views(allowed@) =~= before.push(pushed));
                        },
                        Err(error) => {
                            proof {
                                lemma_origin_error_stays(
                                    crate::types::text_views(texts@),
                                    index + 1,
                                    texts@.len() as int,
                                );
                            }
                            return Err(error);
                        },
                    }
                    index += 1;
                }
                Ok(DefaultHeaders { headers, origins: Some(allowed) })
            },
        }
    }

    /// Whether defaults may be sent to an origin.
    fn allows(&self, origin: &Option<UrlOrigin>) -> (result: bool)
        ensures
            result == origin_allowed(self.allowed(), origin_view(*origin)),
    {
        let origins = match &self.origins {
            None => {
                return true;
            },
            Some(origins) => origins,
        };
        let wanted = match origin {
            None => {
                return false;
            },
            Some(wanted) => wanted,
        };
        let ghost all = origin_views(origins@);
        let mut index: usize = 0;
        while index < origins.len()
            invariant
                index <= origins@.len(),
                all == origin_views(origins@),
                self.allowed() == Some(all),
                *origin == Some(*wanted),
                forall|i: int| 0 <= i < index ==> #[trigger] all[i] != Some(wanted@),
            decreases origins@.len() - index,
        {
            assert(all[index as int] == origin_view(origins@[index as int]));
            match &origins[index] {
                Some(own) => {
                    if same_origin(own, wanted) {
                        assert(all.contains(all[index as int]));
                        return true;
                    }
                },
                None => {},
            }
            index += 1;
        }
        false
    }

    /// The default headers.
    pub fn headers(&self) -> (result: &Vec<(String, String)>)
        ensures
            crate::http_headers::views(result@) == self.defaults(),
            crate::http_headers::names_distinct(self.defaults()),
    {
        proof {
            use_type_invariant(self);
        }
        &self.headers
    }

    /// The headers for a request to a URL that was parsed.
    pub fn merge_parsed(
        &self,
        parsed: Result<ParsedUrl, String>,
        headers: Option<Vec<(String, String)>>,
    ) -> (result: Option<Vec<(String, String)>>)
        ensures
            optional_headers(result) == merged_headers(
                self.defaults(),
                self.allowed(),
                parsed_view(parsed),
                optional_headers(headers),
            ),
            named_once(optional_headers(headers)) ==> named_once(optional_headers(result)),
    {
        if !is_http_url(&parsed) {
            return None;
        }
        let url = match parsed {
            Ok(url) => url,
            Err(_) => {
                return None;
            },
        };
        assert(self.defaults().len() == self.headers@.len());
        if self.headers.len() == 0 || !self.allows(&url.origin) {
            return headers;
        }
        let mut merged = match headers {
            Some(headers) => headers,
            None => Vec::new(),
        };
        proof {
            if headers is None {
                assert(crate::http_headers::views(merged@) =~= seq![]);
            }
        }
        proof {
            if named_once(optional_headers(headers)) {
                crate::http_headers::lemma_defaults_keep_names_distinct(
                    crate::http_headers::views(merged@),
                    self.defaults(),
                    self.defaults().len() as int,
                );
            }
        }
        add_missing(&mut merged, &self.headers);
        Some(merged)
    }

    /// The headers for a request.
    pub fn merge(&self, source: &str, headers: Option<Vec<(String, String)>>) -> (result: Option<
        Vec<(String, String)>,
    >)
        ensures
            optional_headers(result) == merged_headers(
                self.defaults(),
                self.allowed(),
                url_facts(source@),
                optional_headers(headers),
            ),
            named_once(optional_headers(headers)) ==> named_once(optional_headers(result)),
    {
        self.merge_parsed(parse_url(source), headers)
    }
}

proof fn lemma_origin_error_stays(texts: Seq<Seq<char>>, i: int, j: int)
    requires
        0 <= i <= j,
        allowed_origins(texts, i) is Err,
    ensures
        allowed_origins(texts, j) == allowed_origins(texts, i),
    decreases j - i,
{
    if i < j {
        lemma_origin_error_stays(texts, i, j - 1);
    }
}

// ---------------------------------------------------------------------------
// Keys
// ---------------------------------------------------------------------------

/// The size of a file and when it was last changed, as far as that is known.
#[derive(Debug, Clone, Copy, PartialEq, Eq, Structural)]
pub struct LocalSourceVersion {
    pub length: u64,
    pub modified_nanos: Option<u128>,
}

/// What a source is found by: itself, the headers sent to it, and the version
/// of a file.
#[derive(Debug)]
pub struct MediaSourceKey {
    pub source: String,
    pub headers: Vec<(String, String)>,
    pub local_version: Option<LocalSourceVersion>,
}

pub struct SourceKeyView {
    pub source: Seq<char>,
    pub headers: Seq<(Seq<char>, Seq<char>)>,
    pub local_version: Option<LocalSourceVersion>,
}

impl View for MediaSourceKey {
    type V = SourceKeyView;

    open spec fn view(&self) -> SourceKeyView {
        SourceKeyView {
            source: self.source@,
            headers: crate::http_headers::views(self.headers@),
            local_version: self.local_version,
        }
    }
}

fn same_version(left: &Option<LocalSourceVersion>, right: &Option<LocalSourceVersion>) -> (result:
    bool)
    ensures
        result == (*left == *right),
{
    match (left, right) {
        (Some(left), Some(right)) => left.length == right.length && match (
            left.modified_nanos,
            right.modified_nanos,
        ) {
            (Some(left), Some(right)) => left == right,
            (None, None) => true,
            _ => false,
        },
        (None, None) => true,
        _ => false,
    }
}

fn copy_headers(headers: &Vec<(String, String)>) -> (result: Vec<(String, String)>)
    ensures
        crate::http_headers::views(result@) == crate::http_headers::views(headers@),
{
    let mut copies: Vec<(String, String)> = Vec::new();
    let ghost all = crate::http_headers::views(headers@);
    let mut index: usize = 0;
    assert(crate::http_headers::views(copies@) =~= all.take(0));
    while index < headers.len()
        invariant
            index <= headers@.len(),
            all == crate::http_headers::views(headers@),
            crate::http_headers::views(copies@) == all.take(index as int),
        decreases headers@.len() - index,
    {
        let ghost before = crate::http_headers::views(copies@);
        let name = headers[index].0.clone();
        let value = headers[index].1.clone();
        let ghost pair = (name@, value@);
        assert(all[index as int] == pair);
        copies.push((name, value));
        assert(crate::http_headers::views(copies@) =~= before.push(pair));
        assert(all.take(index + 1) =~= all.take(index as int).push(pair));
        index += 1;
    }
    assert(all.take(index as int) =~= all);
    copies
}

impl SessionKey for MediaSourceKey {
    fn is_same(&self, other: &MediaSourceKey) -> (result: bool) {
        let same = text_equal(self.source.as_str(), other.source.as_str()) && headers_equal(
            &self.headers,
            &other.headers,
        ) && same_version(&self.local_version, &other.local_version);
        same
    }

    fn copy_key(&self) -> (result: MediaSourceKey) {
        MediaSourceKey {
            source: self.source.clone(),
            headers: copy_headers(&self.headers),
            local_version: self.local_version,
        }
    }
}

/// Whether a key is that of a source. A URL is found by its headers, in lower
/// case and in order; a file by its version.
pub open spec fn is_key_of(
    key: SourceKeyView,
    source: Seq<char>,
    remote: bool,
    headers: Option<Seq<(Seq<char>, Seq<char>)>>,
    local_version: Option<LocalSourceVersion>,
) -> bool {
    &&& key.source == source
    &&& if remote {
        &&& key.local_version is None
        &&& crate::http_headers::normalises(
            key.headers,
            match headers {
                Some(headers) => headers,
                None => seq![],
            },
        )
    } else {
        &&& key.local_version == local_version
        &&& key.headers == Seq::<(Seq<char>, Seq<char>)>::empty()
    }
}

/// The key of a source that is known to be remote or local.
pub fn key_of_source(
    source: &str,
    remote: bool,
    headers: Option<&Vec<(String, String)>>,
    local_version: Option<LocalSourceVersion>,
) -> (result: MediaSourceKey)
    ensures
        is_key_of(
            result@,
            source@,
            remote,
            match headers {
                Some(headers) => Some(crate::http_headers::views(headers@)),
                None => None,
            },
            local_version,
        ),
{
    if !remote {
        let key = MediaSourceKey {
            source: String::from_str(source),
            headers: Vec::new(),
            local_version,
        };
        assert(key@.headers =~= Seq::empty());
        return key;
    }
    let sorted = match headers {
        Some(headers) => normalised(headers),
        None => {
            let none: Vec<(String, String)> = Vec::new();
            assert(crate::http_headers::views(none@) =~= seq![]);
            normalised(&none)
        },
    };
    MediaSourceKey { source: String::from_str(source), headers: sorted, local_version: None }
}

/// The key of a source. `local_version` is that of the file, for a source that
/// is one.
pub fn source_key(
    source: &str,
    headers: Option<&Vec<(String, String)>>,
    local_version: Option<LocalSourceVersion>,
) -> (result: MediaSourceKey)
    ensures
        is_key_of(
            result@,
            source@,
            is_http(url_facts(source@)),
            match headers {
                Some(headers) => Some(crate::http_headers::views(headers@)),
                None => None,
            },
            local_version,
        ),
{
    key_of_source(source, is_http_source(source), headers, local_version)
}

/// A source always has the same key: for a URL, whatever the order and the
/// case of its headers; for a file, whatever headers there are.
pub proof fn lemma_keys_of_a_source_agree(
    first: SourceKeyView,
    second: SourceKeyView,
    source: Seq<char>,
    remote: bool,
    first_headers: Option<Seq<(Seq<char>, Seq<char>)>>,
    second_headers: Option<Seq<(Seq<char>, Seq<char>)>>,
    local_version: Option<LocalSourceVersion>,
)
    requires
        is_key_of(first, source, remote, first_headers, local_version),
        is_key_of(second, source, remote, second_headers, local_version),
        remote ==> ({
            let first_list = match first_headers {
                Some(headers) => headers,
                None => seq![],
            };
            let second_list = match second_headers {
                Some(headers) => headers,
                None => seq![],
            };
            crate::http_headers::lowercase_names(first_list).to_multiset()
                == crate::http_headers::lowercase_names(second_list).to_multiset()
        }),
    ensures
        first == second,
{
    if remote {
        let first_list = match first_headers {
            Some(headers) => headers,
            None => seq![],
        };
        let second_list = match second_headers {
            Some(headers) => headers,
            None => seq![],
        };
        crate::http_headers::lemma_normalised_headers_agree(
            first_list,
            second_list,
            first.headers,
            second.headers,
        );
    }
}

/// When the session of a source ends. What stands behind a URL can change, so
/// a remote session ends a while after it was made; a local one is found by
/// the version of the file, and ends a while after it was last used.
pub open spec fn expiration(remote: bool, policy: ExpirationPolicy) -> bool {
    match policy {
        ExpirationPolicy::Absolute(span) => remote && span@ == REMOTE_SESSION_SECONDS
            * 1_000_000_000,
        ExpirationPolicy::Sliding(span) => !remote && span@ == LOCAL_SESSION_SECONDS
            * 1_000_000_000,
    }
}

/// When the session of a source ends.
pub fn session_expiration(source: &MediaSourceKey) -> (result: ExpirationPolicy)
    ensures
        expiration(is_http(url_facts(source.source@)), result),
{
    if is_http_source(source.source.as_str()) {
        ExpirationPolicy::Absolute(Duration::from_secs(REMOTE_SESSION_SECONDS))
    } else {
        ExpirationPolicy::Sliding(Duration::from_secs(LOCAL_SESSION_SECONDS))
    }
}

/// A request to an allowed origin gets each default header that it lacks, and
/// keeps its own. Where no origins are named, all are allowed.
pub proof fn lemma_allowed_origins_get_the_defaults(
    defaults: Seq<(Seq<char>, Seq<char>)>,
    origins: Option<Seq<Option<(Seq<char>, Seq<char>, u16)>>>,
    parsed: Result<(Seq<char>, Option<(Seq<char>, Seq<char>, u16)>), Seq<char>>,
    headers: Option<Seq<(Seq<char>, Seq<char>)>>,
    i: int,
)
    requires
        parsed is Ok,
        parsed->Ok_0.0 == "http"@ || parsed->Ok_0.0 == "https"@,
        origins matches Some(allowed) ==> parsed->Ok_0.1 is Some && allowed.contains(
            parsed->Ok_0.1,
        ),
        0 <= i < defaults.len(),
        headers matches Some(own) ==> forall|j: int|
            0 <= j < own.len() ==> crate::strings::lower_text((#[trigger] own[j]).0)
                != crate::strings::lower_text(defaults[i].0),
        forall|j: int|
            0 <= j < i ==> crate::strings::lower_text((#[trigger] defaults[j]).0)
                != crate::strings::lower_text(defaults[i].0),
    ensures
        merged_headers(defaults, origins, parsed, headers) matches Some(merged) && {
            &&& merged.contains(defaults[i])
            &&& headers matches Some(own) ==> own.is_prefix_of(merged)
        },
{
    let own = match headers {
        Some(headers) => headers,
        None => seq![],
    };
    crate::http_headers::lemma_missing_defaults_are_added(
        own,
        defaults,
        i,
        defaults.len() as int,
    );
    crate::http_headers::lemma_headers_override_defaults(own, defaults, defaults.len() as int);
}

/// Nothing but an HTTP(S) URL gets headers at all.
pub proof fn lemma_other_sources_get_no_headers(
    defaults: Seq<(Seq<char>, Seq<char>)>,
    origins: Option<Seq<Option<(Seq<char>, Seq<char>, u16)>>>,
    parsed: Result<(Seq<char>, Option<(Seq<char>, Seq<char>, u16)>), Seq<char>>,
    headers: Option<Seq<(Seq<char>, Seq<char>)>>,
)
    requires
        parsed matches Ok(url) ==> url.0 != "http"@ && url.0 != "https"@,
    ensures
        merged_headers(defaults, origins, parsed, headers) is None,
        allowed_origin(parsed) is Err,
{
}

/// The origins that are allowed are those of the texts, in their order, if all of
/// them are HTTP(S) URLs.
pub proof fn lemma_allowed_origins_are_those_of_the_texts(texts: Seq<Seq<char>>, k: int, i: int)
    requires
        0 <= i < k <= texts.len(),
    ensures
        allowed_origins(texts, k) matches Ok(origins) ==> {
            &&& origins.len() == k
            &&& url_scheme(texts[i]) == Ok::<Seq<char>, Seq<char>>("http"@) || url_scheme(texts[i])
                == Ok::<Seq<char>, Seq<char>>("https"@)
            &&& origins[i] == url_origin(texts[i])
        },
    decreases k,
{
    if i < k - 1 {
        lemma_allowed_origins_are_those_of_the_texts(texts, k - 1, i);
    } else {
        lemma_allowed_origins_len(texts, k - 1);
    }
}

proof fn lemma_allowed_origins_len(texts: Seq<Seq<char>>, k: int)
    requires
        0 <= k <= texts.len(),
    ensures
        allowed_origins(texts, k) matches Ok(origins) ==> origins.len() == k,
    decreases k,
{
    if k > 0 {
        lemma_allowed_origins_len(texts, k - 1);
    }
}

/// Sources are told apart: a key is that of one source only, of one version of a
/// file, and of one set of headers of a URL.
pub proof fn lemma_keys_tell_sources_apart(
    key: SourceKeyView,
    source: Seq<char>,
    other: Seq<char>,
    remote: bool,
    headers: Option<Seq<(Seq<char>, Seq<char>)>>,
    other_headers: Option<Seq<(Seq<char>, Seq<char>)>>,
    local_version: Option<LocalSourceVersion>,
    other_version: Option<LocalSourceVersion>,
)
    requires
        is_key_of(key, source, remote, headers, local_version),
        is_key_of(key, other, remote, other_headers, other_version),
    ensures
        source == other,
        !remote ==> local_version == other_version,
        remote ==> ({
            let list = match headers {
                Some(headers) => headers,
                None => seq![],
            };
            let other_list = match other_headers {
                Some(headers) => headers,
                None => seq![],
            };
            crate::http_headers::lowercase_names(list).to_multiset()
                == crate::http_headers::lowercase_names(other_list).to_multiset()
        }),
{
}

/// A remote session ends five minutes after it was made, however it is used; a
/// local one ends a minute after it was last used.
pub proof fn lemma_sessions_end_by_their_source(remote: bool, policy: ExpirationPolicy)
    requires
        expiration(remote, policy),
    ensures
        match policy {
            ExpirationPolicy::Absolute(span) => remote && span@ == 5 * 60 * 1_000_000_000,
            ExpirationPolicy::Sliding(span) => !remote && span@ == 60 * 1_000_000_000,
        },
{
}

} // verus!
