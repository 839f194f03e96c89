//! The session fetch protocol.
//!
//! A run opens the provider's login page to obtain a session cookie, posts
//! the credentials as a form, and then posts one data request per flow
//! direction against the chart endpoint, all on the same session. The
//! provider has exposed several parameter shapes over time; they form the
//! closed set [`FetchStrategy`], and every request of a run is planned here
//! as data, so the part that talks to the network only replays the plan.

use crate::reading::Direction;
use vstd::prelude::*;

verus! {

/// The provider's parameter shapes observed across schema revisions.
#[derive(Clone, Copy, PartialEq, Eq, Structural, Debug)]
pub enum FetchStrategy {
    FormRange,
    DaneRange,
    PlainRange,
}

/// HTTP method of a planned request.
#[derive(Clone, Copy, PartialEq, Eq, Structural, Debug)]
pub enum HttpMethod {
    Get,
    PostForm,
}

/// One request of the fetch plan: a method, a URL, and form parameters.
pub struct RequestSpec {
    pub method: HttpMethod,
    pub url: String,
    pub params: Vec<(String, String)>,
}

/// The credentials and date range one fetch run works with.
pub struct Scraper {
    pub name: String,
    pub username: String,
    pub password: String,
    pub start_date: String,
    pub end_date: Option<String>,
}

/// Form parameters as mathematical pairs.
pub open spec fn params_view(ps: Seq<(String, String)>) -> Seq<(Seq<char>, Seq<char>)> {
    ps.map_values(|p: (String, String)| (p.0@, p.1@))
}

pub open spec fn spec_login_url() -> Seq<char> {
    "https://logowanie.tauron-dystrybucja.pl/login"@
}

pub open spec fn spec_chart_url() -> Seq<char> {
    "https://elicznik.tauron-dystrybucja.pl/index/charts"@
}

pub open spec fn spec_service_url() -> Seq<char> {
    "https://elicznik.tauron-dystrybucja.pl"@
}

/// The parameter name carrying the range start, per strategy.
pub open spec fn spec_start_param(s: FetchStrategy) -> Seq<char> {
    match s {
        FetchStrategy::FormRange => "form[from]"@,
        FetchStrategy::DaneRange => "dane[startDay]"@,
        FetchStrategy::PlainRange => "from"@,
    }
}

/// The parameter name carrying the range end, per strategy.
pub open spec fn spec_end_param(s: FetchStrategy) -> Seq<char> {
    match s {
        FetchStrategy::FormRange => "form[to]"@,
        FetchStrategy::DaneRange => "dane[endDay]"@,
        FetchStrategy::PlainRange => "to"@,
    }
}

/// The provider's token for a direction's data stream.
pub open spec fn spec_direction_token(d: Direction) -> Seq<char> {
    match d {
        Direction::Imported => "consum"@,
        Direction::Exported => "oze"@,
    }
}

/// The login form: credentials and the service the session is for.
pub open spec fn spec_login_params(s: Scraper) -> Seq<(Seq<char>, Seq<char>)> {
    seq![
        ("username"@, s.username@),
        ("password"@, s.password@),
        ("service"@, spec_service_url()),
    ]
}

/// The data form for one direction: the range under the strategy's parameter
/// names, then the direction's stream token. An absent end date is left to
/// the provider's default range.
pub open spec fn spec_chart_params(s: Scraper, strategy: FetchStrategy, d: Direction) -> Seq<
    (Seq<char>, Seq<char>),
> {
    match s.end_date {
        Some(e) => seq![
            (spec_start_param(strategy), s.start_date@),
            (spec_end_param(strategy), e@),
            ("type"@, spec_direction_token(d)),
        ],
        None => seq![
            (spec_start_param(strategy), s.start_date@),
            ("type"@, spec_direction_token(d)),
        ],
    }
}

impl Scraper {
    /// The login form parameters.
    pub fn login_params(&self) -> (r: Vec<(String, String)>)
        ensures
            params_view(r@) == spec_login_params(*self),
    {
        let mut ps: Vec<(String, String)> = Vec::new();
        ps.push(("username".to_owned(), self.username.clone()));
        ps.push(("password".to_owned(), self.password.clone()));
        ps.push(("service".to_owned(), "https://elicznik.tauron-dystrybucja.pl".to_owned()));
        proof {
            assert(params_view(ps@) =~= spec_login_params(*self));
        }
        ps
    }

    /// The data form parameters for one direction.
    pub fn chart_params(&self, strategy: FetchStrategy, d: Direction) -> (r: Vec<(String, String)>)
        ensures
            params_view(r@) == spec_chart_params(*self, strategy, d),
    {
        let start_name = match strategy {
            FetchStrategy::FormRange => "form[from]",
            FetchStrategy::DaneRange => "dane[startDay]",
            FetchStrategy::PlainRange => "from",
        };
        let end_name = match strategy {
            FetchStrategy::FormRange => "form[to]",
            FetchStrategy::DaneRange => "dane[endDay]",
            FetchStrategy::PlainRange => "to",
        };
        let token = match d {
            Direction::Imported => "consum",
            Direction::Exported => "oze",
        };
        let mut ps: Vec<(String, String)> = Vec::new();
        ps.push((start_name.to_owned(), self.start_date.clone()));
        match &self.end_date {
            Some(e) => {
                ps.push((end_name.to_owned(), e.clone()));
            },
            None => {},
        }
        ps.push(("type".to_owned(), token.to_owned()));
        proof {
            assert(params_view(ps@) =~= spec_chart_params(*self, strategy, d));
        }
        ps
    }

    /// The whole plan of one run: open the login page for a session cookie,
    /// post the credentials, then post one data request per direction on the
    /// same session — imported first, exported second.
    pub fn request_plan(&self, strategy: FetchStrategy) -> (r: Vec<RequestSpec>)
        ensures
            r@.len() == 4,
            r@[0].method == HttpMethod::Get,
            r@[0].url@ == spec_login_url(),
            r@[0].params@.len() == 0,
            r@[1].method == HttpMethod::PostForm,
            r@[1].url@ == spec_login_url(),
            params_view(r@[1].params@) == spec_login_params(*self),
            r@[2].method == HttpMethod::PostForm,
            r@[2].url@ == spec_chart_url(),
            params_view(r@[2].params@) == spec_chart_params(*self, strategy, Direction::Imported),
            r@[3].method == HttpMethod::PostForm,
            r@[3].url@ == spec_chart_url(),
            params_view(r@[3].params@) == spec_chart_params(*self, strategy, Direction::Exported),
    {
        let mut plan: Vec<RequestSpec> = Vec::new();
        plan.push(
            RequestSpec {
                method: HttpMethod::Get,
                url: "https://logowanie.tauron-dystrybucja.pl/login".to_owned(),
                params: Vec::new(),
            },
        );
        plan.push(
            RequestSpec {
                method: HttpMethod::PostForm,
                url: "https://logowanie.tauron-dystrybucja.pl/login".to_owned(),
                params: self.login_params(),
            },
        );
        plan.push(
            RequestSpec {
                method: HttpMethod::PostForm,
                url: "https://elicznik.tauron-dystrybucja.pl/index/charts".to_owned(),
                params: self.chart_params(strategy, Direction::Imported),
            },
        );
        plan.push(
            RequestSpec {
                method: HttpMethod::PostForm,
                url: "https://elicznik.tauron-dystrybucja.pl/index/charts".to_owned(),
                params: self.chart_params(strategy, Direction::Exported),
            },
        );
        plan
    }
}

/// How the caller's date arguments can be wrong.
#[derive(Clone, Copy, PartialEq, Eq, Structural, Debug)]
pub enum RangeError {
    EndWithoutStart,
    EndBeforeStart,
}

/// Whether `a` falls before `b` in the calendar.
pub open spec fn spec_date_lt(a: crate::date::Date, b: crate::date::Date) -> bool {
    if a.year != b.year {
        a.year < b.year
    } else if a.month != b.month {
        a.month < b.month
    } else {
        a.day < b.day
    }
}

/// Check the requested range: an end date needs a start date and must not
/// precede it. Returns the exact usage error otherwise.
pub fn validate_range(start: &Option<crate::date::Date>, end: &Option<crate::date::Date>) -> (r:
    Result<(), RangeError>)
    ensures
        match *end {
            None => r == Ok::<(), RangeError>(()),
            Some(e) => match *start {
                None => r == Err::<(), RangeError>(RangeError::EndWithoutStart),
                Some(s) => if spec_date_lt(e, s) {
                    r == Err::<(), RangeError>(RangeError::EndBeforeStart)
                } else {
                    r == Ok::<(), RangeError>(())
                },
            },
        },
{
    match end {
        None => Ok(()),
        Some(e) => match start {
            None => Err(RangeError::EndWithoutStart),
            Some(s) => {
                let lt = if e.year != s.year {
                    e.year < s.year
                } else if e.month != s.month {
                    e.month < s.month
                } else {
                    e.day < s.day
                };
                if lt {
                    Err(RangeError::EndBeforeStart)
                } else {
                    Ok(())
                }
            },
        },
    }
}

} // verus!
