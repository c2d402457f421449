//! Detection of catch-all domains.
//!
//! With the SMTP method, each domain of the list is probed with an address
//! that should not exist there ([`probe_address`]). A domain whose server
//! reports that address as deliverable accepts any recipient; valid
//! addresses of such a domain are flagged.

use vstd::prelude::*;
use crate::cli::Method;
use crate::order::{sort_unique, strictly_sorted, string_texts, strings_of, texts};
use crate::text::chars_of;
use crate::validation::{accepts_mail, domain_of, domain_part, is_deliverable, Reachability};

verus! {

/// The domains to probe: none unless the method is SMTP and the detection
/// is enabled; otherwise the domains of the addresses that contain `@`,
/// sorted, each once.
pub fn domains_to_probe(method: Method, disable_wildcard: bool, emails: &Vec<String>) -> (out:
    Vec<String>)
    ensures
        method != Method::Smtp || disable_wildcard ==> out@.len() == 0,
        method == Method::Smtp && !disable_wildcard ==> {
            &&& strictly_sorted(string_texts(out@))
            &&& forall|x: Seq<char>| #[trigger]
                string_texts(out@).contains(x) <==> exists|k: int|
                    0 <= k < emails@.len() && domain_part(#[trigger] emails@[k]@) == Some(x)
        },
{
    if method != Method::Smtp || disable_wildcard {
        return Vec::new();
    }
    let mut found: Vec<Vec<char>> = Vec::new();
    let mut k: usize = 0;
    while k < emails.len()
        invariant
            k <= emails.len(),
            forall|x: Seq<char>| #[trigger]
                texts(found@).contains(x) <==> exists|i: int|
                    0 <= i < k && domain_part(#[trigger] emails@[i]@) == Some(x),
        decreases emails.len() - k,
    {
        let ghost before = texts(found@);
        match domain_of(emails[k].as_str()) {
            Some(d) => {
                let dc = chars_of(d.as_str());
                found.push(dc);
                proof {
                    assert(texts(found@) =~= before.push(dc@));
                    assert forall|x: Seq<char>| #[trigger]
                        texts(found@).contains(x) <==> exists|i: int|
                            0 <= i < k + 1 && domain_part(#[trigger] emails@[i]@) == Some(x) by {
                        if texts(found@).contains(x) {
                            let j = choose|j: int| 0 <= j < texts(found@).len() && texts(found@)[j] == x;
                            if j < before.len() {
                                assert(before[j] == x);
                                assert(before.contains(x));
                            } else {
                                assert(domain_part(emails@[k as int]@) == Some(x));
                            }
                        }
                        if exists|i: int| 0 <= i < k + 1 && domain_part(#[trigger] emails@[i]@) == Some(x) {
                            let i = choose|i: int| 0 <= i < k + 1 && domain_part(#[trigger] emails@[i]@) == Some(x);
                            if i < k {
                                assert(before.contains(x));
                                let j = choose|j: int| 0 <= j < before.len() && before[j] == x;
                                assert(texts(found@)[j] == x);
                            } else {
                                assert(texts(found@)[before.len() as int] == x);
                            }
                        }
                    }
                }
            },
            None => {
                proof {
                    assert forall|x: Seq<char>| #[trigger]
                        texts(found@).contains(x) <==> exists|i: int|
                            0 <= i < k + 1 && domain_part(#[trigger] emails@[i]@) == Some(x) by {
                        if exists|i: int| 0 <= i < k + 1 && domain_part(#[trigger] emails@[i]@) == Some(x) {
                            let i = choose|i: int| 0 <= i < k + 1 && domain_part(#[trigger] emails@[i]@) == Some(x);
                            assert(i < k);
                        }
                    }
                }
            },
        }
        k += 1;
    }
    let sorted = sort_unique(&found);
    strings_of(&sorted)
}

/// The local part of the probe address: random-looking, so that no real
/// mailbox has it.
pub open spec fn probe_prefix() -> Seq<char> {
    "dlfAxs7TGR91OhmWCbDiqtpcwEEARRJf@"@
}

/// The address used to probe `domain`.
pub fn probe_address(domain: &str) -> (s: String)
    ensures
        s@ == probe_prefix() + domain@,
{
    let mut s = String::from_str("dlfAxs7TGR91OhmWCbDiqtpcwEEARRJf@");
    s.append(domain);
    s
}

/// The domains, in order, whose probe the server reported deliverable.
pub open spec fn kept_domains(domains: Seq<Seq<char>>, verdicts: Seq<Reachability>) -> Seq<
    Seq<char>,
>
    decreases domains.len(),
{
    if domains.len() == 0 || verdicts.len() == 0 {
        Seq::empty()
    } else if accepts_mail(verdicts.last()) {
        kept_domains(domains.drop_last(), verdicts.drop_last()).push(domains.last())
    } else {
        kept_domains(domains.drop_last(), verdicts.drop_last())
    }
}

/// Only probed domains are declared catch-all, and in the order they were
/// probed: the result is sorted when the probed domains are.
pub proof fn lemma_kept_domains_within(domains: Seq<Seq<char>>, verdicts: Seq<Reachability>)
    ensures
        forall|x: Seq<char>| kept_domains(domains, verdicts).contains(x) ==> domains.contains(x),
        strictly_sorted(domains) ==> strictly_sorted(kept_domains(domains, verdicts)),
        kept_domains(domains, verdicts).len() <= domains.len(),
    decreases domains.len(),
{
    if domains.len() > 0 && verdicts.len() > 0 {
        let rest = domains.drop_last();
        lemma_kept_domains_within(rest, verdicts.drop_last());
        let kr = kept_domains(rest, verdicts.drop_last());
        assert forall|x: Seq<char>| kept_domains(domains, verdicts).contains(x) implies domains.contains(x) by {
            let k = choose|k: int| 0 <= k < kept_domains(domains, verdicts).len() && kept_domains(domains, verdicts)[k] == x;
            if k < kr.len() {
                assert(kr[k] == x);
                assert(kr.contains(x));
                assert(rest.contains(x));
                let i = choose|i: int| 0 <= i < rest.len() && rest[i] == x;
                assert(rest[i] == domains[i]);
                assert(domains[i] == x);
            } else {
                assert(domains[domains.len() - 1] == x);
            }
        }
        if strictly_sorted(domains) {
            assert(strictly_sorted(rest)) by {
                assert forall|p: int, q: int| 0 <= p < q < rest.len() implies crate::order::lex_lt(#[trigger] rest[p], #[trigger] rest[q]) by {
                    assert(rest[p] == domains[p] && rest[q] == domains[q]);
                }
            }
            if accepts_mail(verdicts.last()) {
                let kd = kept_domains(domains, verdicts);
                assert forall|p: int, q: int| 0 <= p < q < kd.len() implies crate::order::lex_lt(#[trigger] kd[p], #[trigger] kd[q]) by {
                    if q == kd.len() - 1 {
                        assert(kd[p] == kr[p]);
                        assert(kr.contains(kd[p]));
                        assert(rest.contains(kd[p]));
                        let i = choose|i: int| 0 <= i < rest.len() && rest[i] == kd[p];
                        assert(rest[i] == domains[i]);
                        assert(domains[i] == kd[p]);
                        assert(kd[q] == domains[domains.len() - 1]);
                        assert(crate::order::lex_lt(domains[i], domains[domains.len() - 1]));
                    } else {
                        assert(kd[p] == kr[p] && kd[q] == kr[q]);
                    }
                }
            }
        }
    }
}

/// Among distinct probed domains, a domain is declared catch-all exactly
/// when its probe was answered `Safe` or `Risky`; a probe answered
/// `Invalid` or `Unknown` never makes its domain catch-all.
pub proof fn lemma_catch_all_exactly_when_deliverable(
    domains: Seq<Seq<char>>,
    verdicts: Seq<Reachability>,
    i: int,
)
    requires
        domains.len() == verdicts.len(),
        forall|p: int, q: int| 0 <= p < q < domains.len() ==> domains[p] != domains[q],
        0 <= i < domains.len(),
    ensures
        kept_domains(domains, verdicts).contains(domains[i]) <==> (verdicts[i] == Reachability::Safe
            || verdicts[i] == Reachability::Risky),
    decreases domains.len(),
{
    let n = domains.len() as int;
    let rest = domains.drop_last();
    let vrest = verdicts.drop_last();
    let kr = kept_domains(rest, vrest);
    lemma_kept_domains_within(rest, vrest);
    assert(domains.last() == domains[n - 1]);
    assert(verdicts.last() == verdicts[n - 1]);
    if i == n - 1 {
        // The last domain is not among the others.
        if kr.contains(domains[i]) {
            assert(rest.contains(domains[i]));
            let p = choose|p: int| 0 <= p < rest.len() && rest[p] == domains[i];
            assert(rest[p] == domains[p]);
        }
        if accepts_mail(verdicts.last()) {
            assert(kept_domains(domains, verdicts) == kr.push(domains[i]));
            assert(kr.push(domains[i])[kr.len() as int] == domains[i]);
        }
    } else {
        assert forall|p: int, q: int| 0 <= p < q < rest.len() implies rest[p] != rest[q] by {
            assert(rest[p] == domains[p] && rest[q] == domains[q]);
        }
        assert(rest[i] == domains[i] && vrest[i] == verdicts[i]);
        lemma_catch_all_exactly_when_deliverable(rest, vrest, i);
        if accepts_mail(verdicts.last()) {
            let kd = kr.push(domains.last());
            assert(kept_domains(domains, verdicts) == kd);
            assert(domains.last() != domains[i]);
            if kd.contains(domains[i]) {
                let m = choose|m: int| 0 <= m < kd.len() && kd[m] == domains[i];
                assert(m < kr.len());
                assert(kr[m] == domains[i]);
            }
            if kr.contains(domains[i]) {
                let m = choose|m: int| 0 <= m < kr.len() && kr[m] == domains[i];
                assert(kd[m] == domains[i]);
            }
        }
    }
}

/// The catch-all domains: those whose probe, answered by `verdicts[i]` for
/// `domains[i]`, was reported deliverable.
pub fn catch_all_domains(domains: &Vec<String>, verdicts: &Vec<Reachability>) -> (out: Vec<String>)
    requires
        domains.len() == verdicts.len(),
    ensures
        string_texts(out@) == kept_domains(string_texts(domains@), verdicts@),
        (forall|p: int, q: int| 0 <= p < q < domains@.len() ==> domains@[p]@ != domains@[q]@)
            ==> forall|i: int|
            0 <= i < domains@.len() ==> (#[trigger] string_texts(out@).contains(domains@[i]@) <==> (
            verdicts@[i] == Reachability::Safe || verdicts@[i] == Reachability::Risky)),
{
    let mut out: Vec<String> = Vec::new();
    let mut k: usize = 0;
    while k < domains.len()
        invariant
            k <= domains.len() == verdicts.len(),
            string_texts(out@) == kept_domains(
                string_texts(domains@).take(k as int),
                verdicts@.take(k as int),
            ),
        decreases domains.len() - k,
    {
        let ghost before = string_texts(out@);
        assert(string_texts(domains@).take(k + 1).drop_last() =~= string_texts(domains@).take(
            k as int,
        ));
        assert(verdicts@.take(k + 1).drop_last() =~= verdicts@.take(k as int));
        if is_deliverable(verdicts[k]) {
            out.push(domains[k].clone());
            assert(string_texts(out@) =~= before.push(domains@[k as int]@));
        }
        k += 1;
    }
    assert(string_texts(domains@).take(k as int) =~= string_texts(domains@));
    assert(verdicts@.take(k as int) =~= verdicts@);
    proof {
        if forall|p: int, q: int| 0 <= p < q < domains@.len() ==> domains@[p]@ != domains@[q]@ {
            let ds = string_texts(domains@);
            assert forall|p: int, q: int| 0 <= p < q < ds.len() implies ds[p] != ds[q] by {
                assert(ds[p] == domains@[p]@ && ds[q] == domains@[q]@);
            }
            assert forall|i: int| 0 <= i < domains@.len() implies (#[trigger] string_texts(
                out@,
            ).contains(domains@[i]@) <==> (verdicts@[i] == Reachability::Safe || verdicts@[i]
                == Reachability::Risky)) by {
                assert(ds[i] == domains@[i]@);
                lemma_catch_all_exactly_when_deliverable(ds, verdicts@, i);
            }
        }
    }
    out
}

} // verus!
