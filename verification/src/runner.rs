//! What a run decides around the requests: the exclusions, the names of the
//! wiki, the tally of one file's links and the summary records.

use vstd::prelude::*;
use vstd::string::*;
use crate::connection::Response;
use crate::lookup::Hyperlink;
use crate::text::{concat, last_segment, after_last, str_eq};

verus! {

/// The failures of one file: each is a map from the file's name to the
/// hyperlink that failed, held as a list of entries.
pub struct ValidationResult {
    pub count: i32,
    pub errors: Vec<Vec<(String, Hyperlink)>>,
}

/// The view of one failure map.
pub open spec fn error_map_view(m: Seq<(String, Hyperlink)>) -> Seq<
    (Seq<char>, (Seq<char>, Seq<char>)),
> {
    m.map_values(|e: (String, Hyperlink)| (e.0@, e.1@))
}

/// The view of a list of failure maps.
pub open spec fn errors_view(es: Seq<Vec<(String, Hyperlink)>>) -> Seq<
    Seq<(Seq<char>, (Seq<char>, Seq<char>))>,
> {
    es.map_values(|m: Vec<(String, Hyperlink)>| error_map_view(m@))
}

/// The result for a file that could not be read: no link counted, and one
/// failure that maps the file's full name to an empty hyperlink.
pub fn read_failure(filename: &str) -> (res: ValidationResult)
    ensures
        res.count == 0,
        errors_view(res.errors@) == seq![
            seq![(filename@, (Seq::<char>::empty(), Seq::<char>::empty()))],
        ],
{
    let entry = (String::from_str(filename), Hyperlink::default());
    let mut map: Vec<(String, Hyperlink)> = Vec::new();
    map.push(entry);
    let mut errors: Vec<Vec<(String, Hyperlink)>> = Vec::new();
    errors.push(map);
    assert(errors_view(errors@) =~= seq![
        seq![(filename@, (Seq::<char>::empty(), Seq::<char>::empty()))],
    ]) by {
        assert(error_map_view(errors@[0]@) =~= seq![(filename@, (Seq::<char>::empty(), Seq::<char>::empty()))]);
    }
    ValidationResult { count: 0, errors }
}

/// How many of the first `n` verdicts are `Some(want)`.
pub open spec fn count_verdict(verdicts: Seq<Option<bool>>, n: int, want: bool) -> nat
    decreases n,
{
    if n <= 0 {
        0
    } else {
        count_verdict(verdicts, n - 1, want) + if verdicts[n - 1] == Some(want) {
            1nat
        } else {
            0nat
        }
    }
}

/// How many of the first `n` links passed.
pub open spec fn count_ok(verdicts: Seq<Option<bool>>, n: int) -> nat {
    count_verdict(verdicts, n, true)
}

/// How many of the first `n` links failed.
pub open spec fn count_failed(verdicts: Seq<Option<bool>>, n: int) -> nat {
    count_verdict(verdicts, n, false)
}

pub proof fn lemma_count_verdict_monotone(verdicts: Seq<Option<bool>>, i: int, n: int, want: bool)
    requires
        i <= n,
    ensures
        count_verdict(verdicts, i, want) <= count_verdict(verdicts, n, want),
    decreases n - i,
{
    if i < n {
        lemma_count_verdict_monotone(verdicts, i, n - 1, want);
    }
}

/// The failure maps for the first `n` links of the file named `name`: one
/// map `{name: link}` for each link whose verdict is that it failed, in order.
pub open spec fn failures(
    name: Seq<char>,
    links: Seq<(Seq<char>, Seq<char>)>,
    verdicts: Seq<Option<bool>>,
    n: int,
) -> Seq<Seq<(Seq<char>, (Seq<char>, Seq<char>))>>
    decreases n,
{
    if n <= 0 {
        seq![]
    } else {
        let prev = failures(name, links, verdicts, n - 1);
        if verdicts[n - 1] == Some(false) {
            prev.push(seq![(name, links[n - 1])])
        } else {
            prev
        }
    }
}

/// The verdicts of a list of responses; `None` stands for a request that
/// brought no response back.
pub open spec fn verdicts_of(responses: Seq<Option<Response>>) -> Seq<Option<bool>> {
    responses.map_values(
        |r: Option<Response>|
            match r {
                Some(r) => Some(r.ok),
                None => None,
            },
    )
}

/// The views of a list of hyperlinks.
pub open spec fn links_view(links: Seq<Hyperlink>) -> Seq<(Seq<char>, Seq<char>)> {
    links.map_values(|h: Hyperlink| h@)
}

/// The result for the file `filename` whose links got the responses
/// `responses`, in order (`None` where a request brought no response), and
/// the counter updated with each verdict.  Every link is counted; each
/// failed link gives the failure map from the file's last path segment to the
/// link; a link without a response is counted and nothing more.
pub fn collect_results(
    filename: &str,
    links: &Vec<Hyperlink>,
    responses: &Vec<Option<Response>>,
    counter: &mut crate::squire::Counter,
) -> (res: ValidationResult)
    requires
        links@.len() == responses@.len(),
        links@.len() <= i32::MAX,
        old(counter).passed() + count_ok(verdicts_of(responses@), links@.len() as int) <= i32::MAX,
        old(counter).rejected() + count_failed(verdicts_of(responses@), links@.len() as int)
            <= i32::MAX,
    ensures
        res.count == links@.len(),
        errors_view(res.errors@) == failures(
            after_last(filename@, '/'),
            links_view(links@),
            verdicts_of(responses@),
            links@.len() as int,
        ),
        final(counter).passed() == old(counter).passed() + count_ok(
            verdicts_of(responses@),
            links@.len() as int,
        ),
        final(counter).rejected() == old(counter).rejected() + count_failed(
            verdicts_of(responses@),
            links@.len() as int,
        ),
{
    let name = last_segment(filename);
    let ghost vs = verdicts_of(responses@);
    let ghost lv = links_view(links@);
    let n = links.len();
    let mut errors: Vec<Vec<(String, Hyperlink)>> = Vec::new();
    let mut i: usize = 0;
    while i < n
        invariant
            n == links@.len(),
            n == responses@.len(),
            n <= i32::MAX,
            vs == verdicts_of(responses@),
            lv == links_view(links@),
            name@ == after_last(filename@, '/'),
            i <= n,
            counter.passed() == old(counter).passed() + count_ok(vs, i as int),
            counter.rejected() == old(counter).rejected() + count_failed(vs, i as int),
            old(counter).passed() + count_ok(vs, n as int) <= i32::MAX,
            old(counter).rejected() + count_failed(vs, n as int) <= i32::MAX,
            errors_view(errors@) == failures(name@, lv, vs, i as int),
        decreases n - i,
    {
        proof {
            lemma_count_verdict_monotone(vs, i + 1, n as int, true);
            lemma_count_verdict_monotone(vs, i + 1, n as int, false);
        }
        match &responses[i] {
            Some(r) => {
                let ok = r.ok;
                assert(vs[i as int] == Some(ok));
                counter.record(ok);
                if !ok {
                    let entry = (name.clone(), links[i].clone());
                    let mut map: Vec<(String, Hyperlink)> = Vec::new();
                    map.push(entry);
                    let ghost before = errors_view(errors@);
                    errors.push(map);
                    assert(error_map_view(map@) =~= seq![(name@, lv[i as int])]);
                    assert(errors_view(errors@) =~= before.push(seq![(name@, lv[i as int])]));
                }
            },
            None => {
                assert(vs[i as int] == None::<bool>);
            },
        }
        i = i + 1;
    }
    ValidationResult { count: n as i32, errors }
}

/// The hosts that are never reported as failing, before those given on the
/// command line.
pub open spec fn default_exclusions() -> Seq<Seq<char>> {
    seq!["localhost"@, "127.0.0.1"@, "0.0.0.0"@]
}

/// The exclusions of a run: the default ones, then `extra`.
pub fn exclusions(extra: &Vec<String>) -> (res: Vec<String>)
    ensures
        res.deep_view() == default_exclusions() + extra.deep_view(),
{
    let mut res: Vec<String> = Vec::new();
    res.push(String::from_str("localhost"));
    res.push(String::from_str("127.0.0.1"));
    res.push(String::from_str("0.0.0.0"));
    assert(res.deep_view() =~= default_exclusions());
    let n = extra.len();
    let mut i: usize = 0;
    while i < n
        invariant
            n == extra@.len(),
            i <= n,
            res.deep_view() == default_exclusions() + extra.deep_view().take(i as int),
        decreases n - i,
    {
        let ghost before = res.deep_view();
        res.push(extra[i].clone());
        assert(res.deep_view() =~= before.push(extra.deep_view()[i as int]));
        assert(extra.deep_view().take(i + 1) =~= extra.deep_view().take(i as int).push(
            extra.deep_view()[i as int],
        ));
        i = i + 1;
    }
    assert(extra.deep_view().take(n as int) =~= extra.deep_view());
    res
}

/// The name of a repository's wiki: the repository's name and `.wiki`.
pub fn wiki_name(repo: &str) -> (res: String)
    ensures
        res@ == repo@ + ".wiki"@,
{
    concat(repo, ".wiki")
}

/// The command that clones the wiki `wiki` of the GitHub account `owner`.
pub fn clone_command(owner: &str, wiki: &str) -> (res: String)
    ensures
        res@ == "git clone https://github.com/"@ + owner@ + "/"@ + wiki@ + ".git"@,
{
    concat(
        concat(concat(concat("git clone https://github.com/", owner).as_str(), "/").as_str(), wiki).as_str(),
        ".git",
    )
}

/// A boolean as `str::parse` reads one: exactly `true` or `false`.
pub open spec fn parse_bool(s: Seq<char>) -> Option<bool> {
    if s == "true"@ {
        Some(true)
    } else if s == "false"@ {
        Some(false)
    } else {
        None
    }
}

/// Reads the flag that says whether the run is a GitHub action.
pub fn actions_flag(value: &str) -> (res: Option<bool>)
    ensures
        res == parse_bool(value@),
{
    if str_eq(value, "true") {
        Some(true)
    } else if str_eq(value, "false") {
        Some(false)
    } else {
        None
    }
}

/// A summary file is written when the run is known to be a GitHub action
/// and some link failed.
pub fn wants_summary(actions: Option<bool>, failures: usize) -> (res: bool)
    ensures
        res == (actions == Some(true) && failures > 0),
{
    match actions {
        Some(b) => b && failures > 0,
        None => false,
    }
}

/// The summary record of one failure map: its file name, the link's text and
/// its url, under the keys `filename`, `text` and `url`, from the map's last
/// entry; no record fields for an empty map.
pub open spec fn summary_record(m: Seq<(Seq<char>, (Seq<char>, Seq<char>))>) -> Seq<
    (Seq<char>, Seq<char>),
> {
    if m.len() == 0 {
        seq![]
    } else {
        let e = m.last();
        seq![("filename"@, e.0), ("text"@, e.1.0), ("url"@, e.1.1)]
    }
}

/// The summary records of a list of failure maps, one per map, in order.
pub fn jsonify(data: Vec<Vec<(String, Hyperlink)>>) -> (res: Vec<Vec<(String, String)>>)
    ensures
        res.deep_view() == errors_view(data@).map_values(
            |m: Seq<(Seq<char>, (Seq<char>, Seq<char>))>| summary_record(m),
        ),
{
    let ghost want = errors_view(data@).map_values(
        |m: Seq<(Seq<char>, (Seq<char>, Seq<char>))>| summary_record(m),
    );
    let mut res: Vec<Vec<(String, String)>> = Vec::new();
    let n = data.len();
    let mut i: usize = 0;
    while i < n
        invariant
            n == data@.len(),
            want == errors_view(data@).map_values(
                |m: Seq<(Seq<char>, (Seq<char>, Seq<char>))>| summary_record(m),
            ),
            i <= n,
            res.deep_view() == want.take(i as int),
        decreases n - i,
    {
        let map = &data[i];
        let mut record: Vec<(String, String)> = Vec::new();
        let k = map.len();
        if k > 0 {
            let e = &map[k - 1];
            record.push((String::from_str("filename"), e.0.clone()));
            record.push((String::from_str("text"), e.1.text.clone()));
            record.push((String::from_str("url"), e.1.url.clone()));
            assert(error_map_view(map@).last() == (e.0@, e.1@));
        }
        assert(record.deep_view() =~= summary_record(error_map_view(map@)));
        let ghost before = res.deep_view();
        res.push(record);
        assert(res.deep_view() =~= before.push(want[i as int]));
        assert(want.take(i + 1) =~= want.take(i as int).push(want[i as int]));
        i = i + 1;
    }
    assert(want.take(n as int) =~= want);
    res
}

/// Law: the failure maps of a file are exactly its failed links, and its
/// passed and failed links together are all of its links when every
/// request brought a response.
pub proof fn law_tally_covers_links(
    name: Seq<char>,
    links: Seq<(Seq<char>, Seq<char>)>,
    verdicts: Seq<Option<bool>>,
    n: int,
)
    requires
        0 <= n <= verdicts.len(),
    ensures
        failures(name, links, verdicts, n).len() == count_failed(verdicts, n),
        count_ok(verdicts, n) + count_failed(verdicts, n) <= n,
        (forall|i: int| 0 <= i < n ==> (#[trigger] verdicts[i]) is Some) ==> count_ok(verdicts, n)
            + count_failed(verdicts, n) == n,
    decreases n,
{
    if n > 0 {
        law_tally_covers_links(name, links, verdicts, n - 1);
        if forall|i: int| 0 <= i < n ==> (#[trigger] verdicts[i]) is Some {
            assert(verdicts[n - 1] is Some);
            assert(verdicts[n - 1] == Some(true) || verdicts[n - 1] == Some(false));
            assert(forall|i: int| 0 <= i < n - 1 ==> (#[trigger] verdicts[i]) is Some);
        }
    }
}

/// Law: a url that names the local host never counts as failing, whatever
/// the extra exclusions and whatever its request brought back.
pub proof fn law_local_hosts_pass(
    url: Seq<char>,
    extra: Seq<Seq<char>>,
    fetch: crate::connection::FetchView,
)
    requires
        crate::text::contains_seq(url, "localhost"@) || crate::text::contains_seq(url, "127.0.0.1"@)
            || crate::text::contains_seq(url, "0.0.0.0"@),
    ensures
        crate::connection::link_valid(url, default_exclusions() + extra, fetch),
{
    let ex = default_exclusions() + extra;
    assert(ex[0] == "localhost"@);
    assert(ex[1] == "127.0.0.1"@);
    assert(ex[2] == "0.0.0.0"@);
}

/// Law: a file reports no failure exactly when none of its links got a
/// failing verdict.
pub proof fn law_no_failures_iff_none_failed(
    name: Seq<char>,
    links: Seq<(Seq<char>, Seq<char>)>,
    verdicts: Seq<Option<bool>>,
    n: int,
)
    requires
        0 <= n <= verdicts.len(),
    ensures
        failures(name, links, verdicts, n).len() == 0 <==> forall|i: int|
            0 <= i < n ==> #[trigger] verdicts[i] != Some(false),
    decreases n,
{
    if n > 0 {
        law_no_failures_iff_none_failed(name, links, verdicts, n - 1);
    }
}

} // verus!
