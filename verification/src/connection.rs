//! Judging the answer to a request for a hyperlink.

use vstd::prelude::*;
use crate::lookup::Hyperlink;
use crate::text::{concat, contains_seq, str_contains};

verus! {

/// The verdict on one hyperlink: whether it counts as valid, and, when it
/// does not, why.
pub struct Response {
    pub ok: bool,
    pub response: String,
}

/// The reason of a response that carries none: the empty string.
pub fn default_response() -> (res: String)
    ensures
        res@ == Seq::<char>::empty(),
{
    String::new()
}

impl Default for Response {
    fn default() -> (res: Response)
        ensures
            !res.ok,
            res.response@ == Seq::<char>::empty(),
    {
        Response { ok: false, response: default_response() }
    }
}

/// What came back from requesting a url.
pub enum Fetch {
    /// An answer with this status code; the string is the status as it is
    /// shown, such as `404 Not Found`.
    Status(u16, String),
    /// No answer; the string is the cause as it is shown.
    Failed(String),
}

pub enum FetchView {
    Status(u16, Seq<char>),
    Failed(Seq<char>),
}

impl View for Fetch {
    type V = FetchView;

    open spec fn view(&self) -> FetchView {
        match self {
            Fetch::Status(c, s) => FetchView::Status(*c, s@),
            Fetch::Failed(s) => FetchView::Failed(s@),
        }
    }
}

/// The status codes that count as a valid link although they are errors:
/// too many requests, and forbidden.
pub open spec fn tolerated_status(code: u16) -> bool {
    code == 429 || code == 403
}

/// A status below 400, or a tolerated one.
pub open spec fn status_accepted(code: u16) -> bool {
    code < 400 || tolerated_status(code)
}

/// The reason given for a link that failed.
pub open spec fn failure_reason(text: Seq<char>, url: Seq<char>, fetch: FetchView) -> Seq<char> {
    let head = "'"@ + text + ": "@ + url;
    match fetch {
        FetchView::Status(_, shown) => head + "' resolved but returned '"@ + shown + "'"@,
        FetchView::Failed(cause) => head + "' failed to resolve - "@ + cause,
    }
}

/// The url holds one of the exclusions.
pub open spec fn excluded(url: Seq<char>, exclusions: Seq<Seq<char>>) -> bool {
    exists|i: int| 0 <= i < exclusions.len() && contains_seq(url, #[trigger] exclusions[i])
}

/// Whether a link counts as valid: its request was answered with a status
/// below 400, or with 403 or 429, or its url holds one of the exclusions.
pub open spec fn link_valid(url: Seq<char>, exclusions: Seq<Seq<char>>, fetch: FetchView) -> bool {
    (fetch matches FetchView::Status(code, _) && status_accepted(code)) || excluded(url, exclusions)
}

fn any_excluded(url: &str, exclusions: &Vec<String>) -> (res: bool)
    ensures
        res == excluded(url@, exclusions.deep_view()),
{
    let ghost ex = exclusions.deep_view();
    let n = exclusions.len();
    let mut i: usize = 0;
    while i < n
        invariant
            n == exclusions@.len(),
            ex == exclusions.deep_view(),
            i <= n,
            forall|k: int| 0 <= k < i ==> !contains_seq(url@, #[trigger] ex[k]),
        decreases n - i,
    {
        assert(ex[i as int] == exclusions@[i as int]@);
        if str_contains(url, exclusions[i].as_str()) {
            return true;
        }
        i = i + 1;
    }
    false
}

/// The verdict on `hyperlink`, given what its request brought back.  A link
/// is valid when `link_valid` says so; then the response carries no reason.
/// Otherwise it carries `failure_reason`.
pub fn judge(hyperlink: &Hyperlink, exclusions: &Vec<String>, fetch: &Fetch) -> (res: Response)
    ensures
        res.ok == link_valid(hyperlink.url@, exclusions.deep_view(), fetch@),
        res.ok <==> ((fetch@ matches FetchView::Status(c, _) && (c < 400 || c == 403 || c == 429))
            || exists|i: int|
            0 <= i < exclusions@.len() && contains_seq(
                hyperlink.url@,
                #[trigger] exclusions.deep_view()[i],
            )),
        res.ok ==> res.response@ == Seq::<char>::empty(),
        !res.ok ==> res.response@ == failure_reason(hyperlink.text@, hyperlink.url@, fetch@),
{
    let head = concat(
        concat(concat("'", hyperlink.text.as_str()).as_str(), ": ").as_str(),
        hyperlink.url.as_str(),
    );
    let reason = match fetch {
        Fetch::Status(code, shown) => {
            if *code < 400 || *code == 429 || *code == 403 {
                return Response { ok: true, response: default_response() };
            }
            concat(
                concat(concat(head.as_str(), "' resolved but returned '").as_str(), shown.as_str()).as_str(),
                "'",
            )
        },
        Fetch::Failed(cause) => concat(
            concat(head.as_str(), "' failed to resolve - ").as_str(),
            cause.as_str(),
        ),
    };
    if any_excluded(hyperlink.url.as_str(), exclusions) {
        return Response { ok: true, response: default_response() };
    }
    Response { ok: false, response: reason }
}

/// Law: an answered request counts as valid exactly when its status is
/// below 400, or is 403 or 429, or the url holds one of the exclusions; a
/// request with no answer counts as valid exactly when the url holds one of
/// the exclusions.  Any other answer is reported with the status as shown.
pub proof fn law_verdict_by_status(
    text: Seq<char>,
    url: Seq<char>,
    exclusions: Seq<Seq<char>>,
    code: u16,
    shown: Seq<char>,
    cause: Seq<char>,
)
    ensures
        link_valid(url, exclusions, FetchView::Status(code, shown)) <==> (code < 400 || code == 403
            || code == 429 || exists|i: int|
            0 <= i < exclusions.len() && contains_seq(url, #[trigger] exclusions[i])),
        link_valid(url, exclusions, FetchView::Failed(cause)) <==> exists|i: int|
            0 <= i < exclusions.len() && contains_seq(url, #[trigger] exclusions[i]),
        code >= 400 && code != 403 && code != 429 && exclusions.len() == 0 ==> !link_valid(
            url,
            exclusions,
            FetchView::Status(code, shown),
        ),
        failure_reason(text, url, FetchView::Status(code, shown)) == "'"@ + text + ": "@ + url
            + "' resolved but returned '"@ + shown + "'"@,
        failure_reason(text, url, FetchView::Failed(cause)) == "'"@ + text + ": "@ + url
            + "' failed to resolve - "@ + cause,
{
}

} // verus!
