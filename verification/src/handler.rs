//! The POST handler's logic: which file a request asks to create, what a
//! request does to the directory, and the response it earns.
//!
//! A request runs through the states parse the query, open the file (or
//! skip straight to the response when no `name` parameter is present),
//! stream the body chunk by chunk, respond. Creation is exclusive: a
//! request naming a file that already exists aborts without a response
//! and leaves the directory unchanged.

use vstd::prelude::*;

use crate::query::{lookup, parse_query_params, parsed_query};
use crate::storage::Directory;

verus! {

/// The response status every answered request gets.
pub const OK_STATUS: u16 = 200;

/// The value of the `name` parameter of a request's query string, if any.
pub open spec fn requested_name(query: Option<&str>) -> Option<Seq<char>> {
    lookup(parsed_query(query), "name"@)
}

/// What the handler decides to do with the request body.
pub enum FilePlan {
    /// A `name` parameter is present: create that file and stream the
    /// body into it.
    CreateFile { name: String },
    /// No `name` parameter: do no file work at all.
    NoFile,
}

/// Decides from the query string alone which file, if any, the request
/// asks to create.
pub fn plan_request(query: Option<&str>) -> (p: FilePlan)
    ensures
        (match p {
            FilePlan::CreateFile { name } => requested_name(query) == Some(name@),
            FilePlan::NoFile => requested_name(query) is None,
        }),
{
    let params = parse_query_params(query);
    match params.get("name") {
        Some(value) => FilePlan::CreateFile { name: value.clone() },
        None => FilePlan::NoFile,
    }
}

/// The body's bytes: its chunks joined in arrival order.
pub open spec fn concat_of(chunks: Seq<Seq<u8>>) -> Seq<u8>
    decreases chunks.len(),
{
    if chunks.len() == 0 {
        Seq::empty()
    } else {
        concat_of(chunks.drop_last()) + chunks.last()
    }
}

/// The directory after a request that names `name` and carries `body`:
/// unchanged when no name was given or the name already exists, extended
/// by the new file otherwise.
pub open spec fn dir_after(
    dir: Map<Seq<char>, Seq<u8>>,
    name: Option<Seq<char>>,
    body: Seq<u8>,
) -> Map<Seq<char>, Seq<u8>> {
    match name {
        Some(n) => if dir.contains_key(n) {
            dir
        } else {
            dir.insert(n, body)
        },
        None => dir,
    }
}

/// Whether the request aborts instead of responding: exactly when it
/// names a file that already exists.
pub open spec fn request_aborts(dir: Map<Seq<char>, Seq<u8>>, name: Option<Seq<char>>) -> bool {
    match name {
        Some(n) => dir.contains_key(n),
        None => false,
    }
}

/// How one request ends.
pub enum RequestOutcome {
    /// The fixed success response.
    Responded { status: u16, body: String },
    /// Exclusive creation failed; the request dies without a response.
    Aborted,
}

impl RequestOutcome {
    /// Whether this outcome is the fixed `200 OK` response.
    pub fn is_ok_response(&self) -> (r: bool)
        ensures
            r == (self matches RequestOutcome::Responded { status, body } && status == OK_STATUS
                && body@ == "OK"@),
    {
        match self {
            RequestOutcome::Responded { status, body } => {
                let expected = response_body();
                *status == OK_STATUS && *body == expected
            },
            RequestOutcome::Aborted => false,
        }
    }
}

/// The fixed body of every response.
pub fn response_body() -> (s: String)
    ensures
        s@ == "OK"@,
{
    "OK".to_owned()
}

/// Handles one POST request against the directory: parses the query,
/// creates the named file exclusively, streams the body into it chunk by
/// chunk, and responds `200 OK` — also when no `name` parameter is
/// present, in which case it touches nothing.
pub fn handle_post(dir: &mut Directory, query: Option<&str>, chunks: &Vec<Vec<u8>>) -> (r:
    RequestOutcome)
    requires
        old(dir).wf(),
    ensures
        final(dir).wf(),
        final(dir)@ == dir_after(old(dir)@, requested_name(query), concat_of(chunks.deep_view())),
        request_aborts(old(dir)@, requested_name(query)) ==> r is Aborted,
        !request_aborts(old(dir)@, requested_name(query)) ==> (r matches RequestOutcome::Responded {
            status,
            body,
        } && status == OK_STATUS && body@ == "OK"@),
{
    let plan = plan_request(query);
    match plan {
        FilePlan::NoFile => {},
        FilePlan::CreateFile { name } => {
            match dir.create_new(name.as_str()) {
                Err(_) => {
                    return RequestOutcome::Aborted;
                },
                Ok(_) => {
                    let ghost all_chunks = chunks.deep_view();
                    let mut i: usize = 0;
                    proof {
                        assert(all_chunks.subrange(0, 0) =~= Seq::<Seq<u8>>::empty());
                        assert(Seq::<u8>::empty() + Seq::<u8>::empty() =~= Seq::<u8>::empty());
                    }
                    while i < chunks.len()
                        invariant
                            i <= all_chunks.len(),
                            all_chunks == chunks.deep_view(),
                            all_chunks.len() == chunks@.len(),
                            dir.wf(),
                            dir@ == old(dir)@.insert(
                                name@,
                                concat_of(all_chunks.subrange(0, i as int)),
                            ),
                        decreases all_chunks.len() - i,
                    {
                        let ghost before = dir@;
                        let ghost done = all_chunks.subrange(0, i as int);
                        proof {
                            assert(before.contains_key(name@));
                        }
                        let appended = dir.append(name.as_str(), &chunks[i]);
                        proof {
                            assert(appended is Ok);
                            assert(all_chunks.subrange(0, i + 1).drop_last() =~= done);
                            assert(all_chunks.subrange(0, i + 1).last() == chunks@[i as int]@);
                            assert(dir@ =~= old(dir)@.insert(
                                name@,
                                concat_of(all_chunks.subrange(0, i + 1)),
                            ));
                        }
                        i = i + 1;
                    }
                    proof {
                        assert(all_chunks.subrange(0, all_chunks.len() as int) =~= all_chunks);
                    }
                },
            }
        },
    }
    RequestOutcome::Responded { status: OK_STATUS, body: response_body() }
}

/// A request without a `name` parameter writes nothing and never aborts.
pub proof fn lemma_missing_name_writes_nothing(dir: Map<Seq<char>, Seq<u8>>, body: Seq<u8>)
    ensures
        dir_after(dir, None, body) == dir,
        !request_aborts(dir, None),
{
}

/// A request naming a file not yet present creates exactly that file,
/// containing exactly the body, and leaves every other file alone.
pub proof fn lemma_fresh_name_creates_file(
    dir: Map<Seq<char>, Seq<u8>>,
    n: Seq<char>,
    body: Seq<u8>,
)
    requires
        !dir.contains_key(n),
    ensures
        !request_aborts(dir, Some(n)),
        dir_after(dir, Some(n), body) == dir.insert(n, body),
        dir_after(dir, Some(n), body)[n] == body,
        forall|other: Seq<char>|
            other != n ==> dir_after(dir, Some(n), body).contains_key(other)
                == dir.contains_key(other),
        forall|other: Seq<char>|
            other != n && dir.contains_key(other) ==> dir_after(dir, Some(n), body)[other]
                == dir[other],
{
}

/// Repeating a request is not idempotent: the first request naming a
/// fresh file succeeds and creates it; the identical second request
/// aborts and changes nothing, because creation is exclusive.
pub proof fn lemma_repeat_request_aborts(dir: Map<Seq<char>, Seq<u8>>, n: Seq<char>, body: Seq<u8>)
    requires
        !dir.contains_key(n),
    ensures
        !request_aborts(dir, Some(n)),
        ({
            let once = dir_after(dir, Some(n), body);
            &&& once[n] == body
            &&& request_aborts(once, Some(n))
            &&& dir_after(once, Some(n), body) == once
        }),
{
}

} // verus!
