//! Decisions of the HTTP interface.
//!
//! `POST /validate` takes a list of at most [`MAX_BATCH`] addresses, refuses
//! an empty or oversized list with status 400 before any work, and validates
//! the lower-cased addresses, sorted, each once. `GET /validate` takes one
//! address, trimmed of white space, and refuses an empty one with status
//! 400. The method defaults to SMTP and the catch-all detection to enabled.
//! Every response carries the counts of [`ResponseSummary`].

use vstd::prelude::*;
use crate::cli::Method;
use crate::order::{sort_unique, strictly_sorted, string_texts, strings_of, texts};
use crate::output::{catch_all_count, count_catch_all, count_valid, lemma_counts_bounded, valid_count};
use crate::text::{
    ascii_lowered, chars_of, is_ascii_text, lowercase, lowercase_text, lowered, trim, trimmed,
};
use crate::validation::ValidationResult;

verus! {

/// Largest number of addresses in one request.
pub const MAX_BATCH: usize = 1000;

/// HTTP status of a refused request.
pub const BAD_REQUEST: u16 = 400;

/// A refused request: its HTTP status and message.
#[derive(Debug)]
pub struct ApiError {
    pub status: u16,
    pub message: String,
}

/// The work a request asks for.
#[derive(Debug)]
pub struct ValidationPlan {
    pub emails: Vec<String>,
    pub method: Method,
    pub disable_wildcard: bool,
}

pub open spec fn method_or_default(m: Option<Method>) -> Method {
    match m {
        Some(x) => x,
        None => Method::Smtp,
    }
}

pub open spec fn flag_or_default(b: Option<bool>) -> bool {
    match b {
        Some(x) => x,
        None => false,
    }
}

fn refuse(message: &str) -> (e: ApiError)
    ensures
        e.status == BAD_REQUEST,
        e.message@ == message@,
{
    ApiError { status: BAD_REQUEST, message: String::from_str(message) }
}

/// Plans a batch request.
pub fn plan_batch(emails: Vec<String>, method: Option<Method>, disable_wildcard: Option<bool>) -> (r:
    Result<ValidationPlan, ApiError>)
    ensures
        emails@.len() == 0 ==> (r matches Err(e) && e.status == BAD_REQUEST && e.message@
            == "email list is empty"@),
        emails@.len() > MAX_BATCH ==> (r matches Err(e) && e.status == BAD_REQUEST && e.message@
            == "too many emails, max 1000"@),
        0 < emails@.len() <= MAX_BATCH ==> (r matches Ok(p) && {
            &&& strictly_sorted(string_texts(p.emails@))
            &&& forall|x: Seq<char>| #[trigger]
                string_texts(p.emails@).contains(x) <==> lowered(string_texts(emails@)).contains(x)
            &&& (forall|k: int| 0 <= k < emails@.len() ==> is_ascii_text(#[trigger] emails@[k]@))
                ==> forall|x: Seq<char>| #[trigger]
                string_texts(p.emails@).contains(x) <==> string_texts(emails@).map_values(
                    |e: Seq<char>| ascii_lowered(e),
                ).contains(x)
            &&& p.method == method_or_default(method)
            &&& p.disable_wildcard == flag_or_default(disable_wildcard)
        }),
{
    if emails.len() == 0 {
        return Err(refuse("email list is empty"));
    }
    if emails.len() > MAX_BATCH {
        return Err(refuse("too many emails, max 1000"));
    }
    let mut low: Vec<Vec<char>> = Vec::new();
    let mut k: usize = 0;
    while k < emails.len()
        invariant
            k <= emails.len(),
            texts(low@) =~= lowered(string_texts(emails@)).take(k as int),
            forall|i: int|
                0 <= i < k && is_ascii_text(#[trigger] emails@[i]@) ==> lowercase_text(emails@[i]@)
                    == ascii_lowered(emails@[i]@),
        decreases emails.len() - k,
    {
        let l = lowercase(emails[k].as_str());
        let lc = chars_of(l.as_str());
        let ghost before = texts(low@);
        low.push(lc);
        assert(texts(low@) =~= before.push(lc@));
        k += 1;
    }
    assert(lowered(string_texts(emails@)).take(k as int) =~= lowered(string_texts(emails@)));
    proof {
        if forall|k: int| 0 <= k < emails@.len() ==> is_ascii_text(#[trigger] emails@[k]@) {
            assert(lowered(string_texts(emails@)) =~= string_texts(emails@).map_values(
                |e: Seq<char>| ascii_lowered(e),
            ));
        }
    }
    let sorted = sort_unique(&low);
    let method = match method {
        Some(m) => m,
        None => Method::Smtp,
    };
    let disable_wildcard = match disable_wildcard {
        Some(b) => b,
        None => false,
    };
    Ok(ValidationPlan { emails: strings_of(&sorted), method, disable_wildcard })
}

/// Plans a single-address request.
pub fn plan_single(email: &str, method: Option<Method>, disable_wildcard: Option<bool>) -> (r: Result<
    ValidationPlan,
    ApiError,
>)
    ensures
        trimmed(email@).len() == 0 ==> (r matches Err(e) && e.status == BAD_REQUEST && e.message@
            == "email parameter is required"@),
        trimmed(email@).len() > 0 ==> (r matches Ok(p) && {
            &&& string_texts(p.emails@) == seq![trimmed(email@)]
            &&& p.method == method_or_default(method)
            &&& p.disable_wildcard == flag_or_default(disable_wildcard)
        }),
{
    let t = trim(email);
    if t.as_str().is_empty() {
        return Err(refuse("email parameter is required"));
    }
    let mut emails: Vec<String> = Vec::new();
    emails.push(t);
    assert(string_texts(emails@) =~= seq![trimmed(email@)]);
    let method = match method {
        Some(m) => m,
        None => Method::Smtp,
    };
    let disable_wildcard = match disable_wildcard {
        Some(b) => b,
        None => false,
    };
    Ok(ValidationPlan { emails, method, disable_wildcard })
}

/// The counts reported with every validation response.
#[derive(Debug, Clone, Copy, PartialEq, Eq)]
pub struct ResponseSummary {
    pub total: usize,
    pub valid_count: usize,
    pub invalid_count: usize,
    pub catch_all_count: usize,
}

/// Counts the results of a request.
pub fn summarize(results: &Vec<ValidationResult>) -> (s: ResponseSummary)
    ensures
        s.total == results@.len(),
        s.valid_count == count_valid(results@),
        s.invalid_count == results@.len() - count_valid(results@),
        s.catch_all_count == count_catch_all(results@),
        s.valid_count + s.invalid_count == s.total,
{
    proof {
        lemma_counts_bounded(results@);
    }
    let valid = valid_count(results);
    ResponseSummary {
        total: results.len(),
        valid_count: valid,
        invalid_count: results.len() - valid,
        catch_all_count: catch_all_count(results),
    }
}

} // verus!
