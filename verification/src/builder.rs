//! The HTTP defaults of the plugin.

use vstd::prelude::*;
use vstd::string::*;

use crate::error::Error;
use crate::http_headers::{set_header, set_lowercase_headers};
use crate::source::DefaultHeaders;

verus! {

/// Configures HTTP defaults. Headers of a request override these defaults.
pub struct Builder {
    user_agent: Option<String>,
    headers: Vec<(String, String)>,
    origins: Option<Vec<String>>,
}

/// The configured defaults, with their texts by their characters.
pub struct BuilderView {
    pub user_agent: Option<Seq<char>>,
    pub headers: Seq<(Seq<char>, Seq<char>)>,
    pub origins: Option<Seq<Seq<char>>>,
}

pub open spec fn optional_texts(texts: Option<Vec<String>>) -> Option<Seq<Seq<char>>> {
    match texts {
        Some(texts) => Some(crate::types::text_views(texts@)),
        None => None,
    }
}

impl View for Builder {
    type V = BuilderView;

    closed spec fn view(&self) -> BuilderView {
        BuilderView {
            user_agent: crate::types::optional_text(self.user_agent),
            headers: crate::http_headers::views(self.headers@),
            origins: optional_texts(self.origins),
        }
    }
}

/// The default headers with the user agent, which takes precedence.
pub open spec fn all_headers(builder: BuilderView) -> Seq<(Seq<char>, Seq<char>)> {
    match builder.user_agent {
        Some(agent) => crate::http_headers::with_header(builder.headers, "user-agent"@, agent),
        None => builder.headers,
    }
}

/// Origins behind those that are there.
pub open spec fn with_origins(
    origins: Option<Seq<Seq<char>>>,
    added: Seq<Seq<char>>,
) -> Seq<Seq<char>> {
    match origins {
        Some(origins) => origins + added,
        None => added,
    }
}

impl Builder {
    /// No default header is named twice.
    #[verifier::type_invariant]
    spec fn headers_named_once(self) -> bool {
        crate::http_headers::names_distinct(crate::http_headers::views(self.headers@))
    }

    /// No HTTP defaults.
    pub fn new() -> (result: Self)
        ensures
            result@ == (BuilderView { user_agent: None, headers: seq![], origins: None }),
    {
        let builder = Builder { user_agent: None, headers: Vec::new(), origins: None };
        assert(builder@.headers =~= seq![]);
        builder
    }

    /// Sets the user agent, which takes precedence over `User-Agent` in the
    /// default headers.
    pub fn user_agent(self, value: String) -> (result: Self)
        ensures
            result@ == (BuilderView { user_agent: Some(value@), ..self@ }),
    {
        proof {
            use_type_invariant(&self);
        }
        Builder { user_agent: Some(value), headers: self.headers, origins: self.origins }
    }

    /// Adds default headers. Later values replace earlier ones, whatever the
    /// case of their names. Without `default_headers_origins` they are sent to
    /// any URL that is requested.
    pub fn default_headers(self, headers: Vec<(String, String)>) -> (result: Self)
        ensures
            result@ == (BuilderView {
                headers: crate::http_headers::with_lowercase_headers(
                    self@.headers,
                    crate::http_headers::views(headers@),
                    headers@.len() as int,
                ),
                ..self@
            }),
    {
        proof {
            use_type_invariant(&self);
            crate::http_headers::lemma_set_headers_keep_names_distinct(
                self@.headers,
                crate::http_headers::views(headers@),
                headers@.len() as int,
            );
        }
        let Builder { user_agent, headers: own, origins } = self;
        let mut merged = own;
        set_lowercase_headers(&mut merged, headers);
        Builder { user_agent, headers: merged, origins }
    }

    /// Restricts all HTTP defaults, the user agent included, to the origins of
    /// these HTTP(S) URLs. Calls add up; an empty list allows none. Without a
    /// call the defaults are sent everywhere.
    pub fn default_headers_origins(self, origins: Vec<String>) -> (result: Self)
        ensures
            result@ == (BuilderView {
                origins: Some(with_origins(self@.origins, crate::types::text_views(origins@))),
                ..self@
            }),
    {
        proof {
            use_type_invariant(&self);
        }
        let Builder { user_agent, headers, origins: own } = self;
        let mut all = match own {
            Some(all) => all,
            None => Vec::new(),
        };
        let ghost before = all@;
        let mut added = origins;
        all.append(&mut added);
        proof {
            assert(crate::types::text_views(all@) =~= crate::types::text_views(before) + crate::types::text_views(origins@));
            if own is None {
                assert(crate::types::text_views(before) + crate::types::text_views(origins@) =~= crate::types::text_views(origins@));
            }
        }
        Builder { user_agent, headers, origins: Some(all) }
    }

    /// The default headers with the user agent.
    pub fn into_headers(self) -> (result: Vec<(String, String)>)
        ensures
            crate::http_headers::views(result@) == all_headers(self@),
            crate::http_headers::names_distinct(all_headers(self@)),
    {
        proof {
            use_type_invariant(&self);
            if let Some(agent) = self@.user_agent {
                crate::http_headers::lemma_set_header_keeps_names_distinct(
                    self@.headers,
                    "user-agent"@,
                    agent,
                );
            }
        }
        let Builder { user_agent, headers: own, origins: _ } = self;
        let mut headers = own;
        match user_agent {
            Some(agent) => {
                set_header(&mut headers, String::from_str("user-agent"), agent);
            },
            None => {},
        }
        headers
    }

    /// The defaults as they are merged into requests. A text that is no
    /// HTTP(S) URL is no origin.
    pub fn into_defaults(self) -> (result: Result<DefaultHeaders, Error>)
        ensures
            match result {
                Ok(defaults) => {
                    &&& defaults.defaults() == all_headers(self@)
                    &&& (defaults.allowed() is None) == (self@.origins is None)
                    &&& self@.origins matches Some(texts) ==> crate::source::allowed_origins(
                        texts,
                        texts.len() as int,
                    ) == Ok::<Seq<Option<(Seq<char>, Seq<char>, u16)>>, Seq<char>>(
                        defaults.allowed().unwrap(),
                    )
                },
                Err(error) => {
                    &&& self@.origins is Some
                    &&& crate::source::allowed_origins(
                        self@.origins.unwrap(),
                        self@.origins.unwrap().len() as int,
                    ) matches Err(text) && error@ == crate::error::PluginErrorView::Custom(text)
                },
            },
    {
        proof {
            use_type_invariant(&self);
        }
        let Builder { user_agent, headers, origins } = self;
        let builder = Builder { user_agent, headers, origins: None };
        assert(all_headers(builder@) == all_headers(self@));
        DefaultHeaders::new(builder.into_headers(), origins)
    }
}

impl Default for Builder {
    fn default() -> (result: Self)
        ensures
            result@ == (BuilderView { user_agent: None, headers: seq![], origins: None }),
    {
        Builder::new()
    }
}

/// The user agent takes precedence over a default header of that name, in
/// whichever order the two are set.
pub proof fn lemma_user_agent_takes_precedence(builder: BuilderView, agent: Seq<char>)
    ensures
        crate::http_headers::header_value(
            all_headers(BuilderView { user_agent: Some(agent), ..builder }),
            "user-agent"@,
        ) == Some(agent),
{
    crate::http_headers::lemma_set_header_is_read(builder.headers, "user-agent"@, agent);
}

/// A user agent changes no default header but the one of its name, and without one
/// the default headers are as they were set.
pub proof fn lemma_user_agent_keeps_the_other_headers(
    builder: BuilderView,
    agent: Seq<char>,
    other: Seq<char>,
)
    requires
        other != "user-agent"@,
    ensures
        crate::http_headers::header_value(
            all_headers(BuilderView { user_agent: Some(agent), ..builder }),
            other,
        ) == crate::http_headers::header_value(builder.headers, other),
        all_headers(BuilderView { user_agent: None, ..builder }) == builder.headers,
{
    crate::http_headers::lemma_set_header_keeps_the_others(
        builder.headers,
        "user-agent"@,
        agent,
        other,
    );
}

/// Origins that are allowed stay allowed when more are, and those that are added
/// are allowed too.
pub proof fn lemma_origins_add_up(
    origins: Option<Seq<Seq<char>>>,
    added: Seq<Seq<char>>,
    origin: Seq<char>,
)
    ensures
        with_origins(origins, added).contains(origin) <==> added.contains(origin) || (
        origins matches Some(before) && before.contains(origin)),
{
    if let Some(before) = origins {
        let all = before + added;
        if before.contains(origin) {
            let at = before.index_of(origin);
            assert(all[at] == origin);
        }
        if added.contains(origin) {
            let at = added.index_of(origin);
            assert(all[before.len() + at] == origin);
        }
        if all.contains(origin) {
            let at = all.index_of(origin);
            if at < before.len() {
                assert(before[at] == origin);
            } else {
                assert(added[at - before.len()] == origin);
            }
        }
    }
}

} // verus!
