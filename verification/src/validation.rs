//! Validation of single addresses.
//!
//! Each method is a short exchange between a decision step here and a
//! lookup done by the caller:
//!
//! | Method | Lookups | Valid when |
//! |--------|---------|------------|
//! | [`Method::Regex`] | none | the address has the whole-string syntax |
//! | [`Method::Mx`] | MX records of the domain | at least one record came back |
//! | [`Method::Smtp`] | names of the domain's mail hosts, addresses of the domain and of each mail host, then the mailbox check | no address of the domain or of its mail hosts is private, and the mailbox is safe or risky |
//!
//! The SMTP method never checks a mailbox when the domain or one of its mail
//! hosts resolves to a private, loopback or link-local address: the mailbox
//! check would connect to those hosts.
//!
//! A valid address whose domain was found to accept any recipient is
//! flagged as catch-all, unless that detection is disabled.

use vstd::prelude::*;
use crate::cli::Method;
use crate::email::{has_email_syntax, is_email_syntax};
use crate::order::string_texts;
use crate::text::{chars_of, string_of_range};

verus! {

/// The verdict on one address.
#[derive(Clone, Debug)]
pub struct ValidationResult {
    /// The address that was validated.
    pub email: String,
    /// Whether it passed the chosen method.
    pub valid: bool,
    /// Whether its domain accepts any recipient (SMTP method only).
    pub catch_all: bool,
}

/// The answer of the mailbox check.
#[derive(Clone, Copy, PartialEq, Eq, Debug, Structural)]
pub enum Reachability {
    /// The mailbox exists and mail is safe to send.
    Safe,
    /// The mailbox seems to exist but mail may bounce or go unread.
    Risky,
    /// The mailbox does not exist or the address is malformed.
    Invalid,
    /// The receiving server gave no usable answer.
    Unknown,
}

/// Whether the mailbox check counts the address as deliverable.
pub open spec fn accepts_mail(r: Reachability) -> bool {
    r == Reachability::Safe || r == Reachability::Risky
}

pub fn is_deliverable(r: Reachability) -> (b: bool)
    ensures
        b == accepts_mail(r),
{
    r == Reachability::Safe || r == Reachability::Risky
}

/// An IP address, as octets (version 4) or 16-bit segments (version 6).
#[derive(Clone, Copy, PartialEq, Eq, Debug)]
pub enum IpAddress {
    V4([u8; 4]),
    V6([u16; 8]),
}

/// Private, loopback, link-local, shared (carrier-grade NAT) or unspecified
/// version 4 ranges: 10/8, 172.16/12, 192.168/16, 127/8, 169.254/16,
/// 100.64/10 and 0.0.0.0.
pub open spec fn is_private_v4(o: [u8; 4]) -> bool {
    ||| o[0] == 10
    ||| (o[0] == 172 && 16 <= o[1] && o[1] <= 31)
    ||| (o[0] == 192 && o[1] == 168)
    ||| o[0] == 127
    ||| (o[0] == 169 && o[1] == 254)
    ||| (o[0] == 100 && 64 <= o[1] && o[1] <= 127)
    ||| (o[0] == 0 && o[1] == 0 && o[2] == 0 && o[3] == 0)
}

/// Loopback `::1`, unique local `fc00::/7` or unicast link-local
/// `fe80::/10`.
pub open spec fn is_private_v6(s: [u16; 8]) -> bool {
    ||| (s[0] == 0 && s[1] == 0 && s[2] == 0 && s[3] == 0 && s[4] == 0 && s[5] == 0 && s[6] == 0
        && s[7] == 1)
    ||| (s[0] & 0xfe00) == 0xfc00
    ||| (s[0] & 0xffc0) == 0xfe80
}

pub open spec fn is_private(ip: IpAddress) -> bool {
    match ip {
        IpAddress::V4(o) => is_private_v4(o),
        IpAddress::V6(s) => is_private_v6(s),
    }
}

/// Whether `ip` lies in a private, loopback or link-local range.
pub fn is_private_ip(ip: &IpAddress) -> (b: bool)
    ensures
        b == is_private(*ip),
{
    match ip {
        IpAddress::V4(o) => {
            o[0] == 10 || (o[0] == 172 && 16 <= o[1] && o[1] <= 31) || (o[0] == 192 && o[1] == 168)
                || o[0] == 127 || (o[0] == 169 && o[1] == 254) || (o[0] == 100 && 64 <= o[1] && o[1]
                <= 127) || (o[0] == 0 && o[1] == 0 && o[2] == 0 && o[3] == 0)
        },
        IpAddress::V6(s) => {
            (s[0] == 0 && s[1] == 0 && s[2] == 0 && s[3] == 0 && s[4] == 0 && s[5] == 0 && s[6] == 0
                && s[7] == 1) || (s[0] & 0xfe00) == 0xfc00 || (s[0] & 0xffc0) == 0xfe80
        },
    }
}

/// The lookup of a host's addresses found at least one private address;
/// `None` stands for a failed lookup.
pub open spec fn any_private(lookup: Option<Vec<IpAddress>>) -> bool {
    match lookup {
        Some(ips) => exists|k: int| 0 <= k < ips@.len() && is_private(#[trigger] ips@[k]),
        None => false,
    }
}

/// Whether the looked-up addresses of a host include a private one; a
/// failed lookup (`None`) counts as no.
pub fn resolves_to_private(lookup: &Option<Vec<IpAddress>>) -> (b: bool)
    ensures
        b == any_private(*lookup),
{
    match lookup {
        None => false,
        Some(ips) => contains_private(ips),
    }
}

fn contains_private(ips: &Vec<IpAddress>) -> (b: bool)
    ensures
        b == exists|k: int| 0 <= k < ips@.len() && is_private(#[trigger] ips@[k]),
{
    let mut k: usize = 0;
    while k < ips.len()
        invariant
            k <= ips.len(),
            forall|i: int| 0 <= i < k ==> !is_private(#[trigger] ips@[i]),
        decreases ips.len() - k,
    {
        if is_private_ip(&ips[k]) {
            assert(is_private(ips@[k as int]));
            return true;
        }
        k += 1;
    }
    false
}

// ---------------------------------------------------------------------------
// Domain of an address
// ---------------------------------------------------------------------------

/// Position of the first `@` at or after `from`, or the length.
pub open spec fn next_at(e: Seq<char>, from: int) -> int
    decreases e.len() - from,
{
    if from >= e.len() || from < 0 {
        e.len() as int
    } else if e[from] == '@' {
        from
    } else {
        next_at(e, from + 1)
    }
}

/// The text between the first `@` and the next `@` (or the end); `None`
/// without `@`. This is `e.split('@').nth(1)`.
pub open spec fn domain_part(e: Seq<char>) -> Option<Seq<char>> {
    let a = next_at(e, 0);
    if a >= e.len() {
        None
    } else {
        Some(e.subrange(a + 1, next_at(e, a + 1)))
    }
}

/// [`domain_part`], or the empty text without `@`.
pub open spec fn domain_text(e: Seq<char>) -> Seq<char> {
    match domain_part(e) {
        Some(d) => d,
        None => Seq::empty(),
    }
}

proof fn lemma_next_at(e: Seq<char>, from: int)
    requires
        0 <= from,
    ensures
        from <= next_at(e, from) <= e.len() || (from > e.len() && next_at(e, from) == e.len()),
        next_at(e, from) < e.len() ==> e[next_at(e, from)] == '@',
        forall|k: int| from <= k < next_at(e, from) ==> e[k] != '@',
    decreases e.len() - from,
{
    if from < e.len() && e[from] != '@' {
        lemma_next_at(e, from + 1);
    }
}

fn next_at_exec(cs: &Vec<char>, from: usize) -> (r: usize)
    requires
        from <= cs.len(),
    ensures
        r as int == next_at(cs@, from as int),
        from <= r <= cs.len(),
{
    let mut k = from;
    while k < cs.len() && cs[k] != '@'
        invariant
            from <= k <= cs.len(),
            next_at(cs@, from as int) == next_at(cs@, k as int),
        decreases cs.len() - k,
    {
        k += 1;
    }
    k
}

/// The domain of an address, as [`domain_part`] gives it.
pub fn domain_of(email: &str) -> (d: Option<String>)
    ensures
        match d {
            Some(s) => domain_part(email@) == Some(s@),
            None => domain_part(email@) is None,
        },
{
    let cs = chars_of(email);
    let a = next_at_exec(&cs, 0);
    if a >= cs.len() {
        return None;
    }
    let b = next_at_exec(&cs, a + 1);
    Some(string_of_range(&cs, a + 1, b))
}

/// The domain of an address, or the empty string without `@`.
pub fn domain_or_empty(email: &str) -> (d: String)
    ensures
        d@ == domain_text(email@),
{
    match domain_of(email) {
        Some(s) => s,
        None => String::new(),
    }
}

// ---------------------------------------------------------------------------
// Decisions
// ---------------------------------------------------------------------------

/// What the validation of one address needs next.
#[derive(Debug)]
pub enum Probe {
    /// Nothing: the verdict is known.
    Done(ValidationResult),
    /// The MX records of `domain`; answer with [`after_mx_lookup`].
    LookupMx { domain: String },
    /// The names of the mail (MX) hosts of `domain`; answer with
    /// [`after_mx_hosts`].
    LookupMxHosts { domain: String },
    /// The IP addresses of each of `hosts`, in order; answer with
    /// [`after_address_lookup`].
    LookupAddresses { hosts: Vec<String> },
    /// The mailbox check of the address; answer with [`after_mailbox_check`].
    CheckMailbox,
}

/// The verdict of the syntax check.
pub fn check_syntax(email: &str) -> (r: ValidationResult)
    ensures
        r.email@ == email@,
        r.valid == is_email_syntax(email@),
        !r.catch_all,
{
    let cs = chars_of(email);
    let valid = has_email_syntax(&cs);
    ValidationResult { email: String::from_str(email), valid, catch_all: false }
}

/// The first step of validating `email` with `method`.
pub fn begin(method: Method, email: &str) -> (p: Probe)
    ensures
        method == Method::Regex ==> (p matches Probe::Done(r) && r.email@ == email@ && r.valid
            == is_email_syntax(email@) && !r.catch_all),
        method == Method::Mx ==> (p matches Probe::LookupMx { domain } && domain@ == domain_text(
            email@,
        )),
        method == Method::Smtp ==> (p matches Probe::LookupMxHosts { domain } && domain@
            == domain_text(email@)),
{
    match method {
        Method::Regex => Probe::Done(check_syntax(email)),
        Method::Mx => Probe::LookupMx { domain: domain_or_empty(email) },
        Method::Smtp => Probe::LookupMxHosts { domain: domain_or_empty(email) },
    }
}

/// The hosts whose addresses the SMTP method checks before any mailbox
/// check: the domain itself, then its mail hosts (none when their lookup
/// failed).
pub open spec fn guarded_hosts(domain: Seq<char>, mx_hosts: Option<Vec<String>>) -> Seq<Seq<char>> {
    seq![domain] + match mx_hosts {
        Some(v) => string_texts(v@),
        None => Seq::empty(),
    }
}

/// The step after looking up the names of the domain's mail hosts
/// (`None`: the lookup failed): the addresses of the domain and of each
/// mail host are looked up next.
pub fn after_mx_hosts(email: &str, mx_hosts: Option<Vec<String>>) -> (p: Probe)
    ensures
        p matches Probe::LookupAddresses { hosts } && string_texts(hosts@) == guarded_hosts(
            domain_text(email@),
            mx_hosts,
        ),
{
    let ghost mx = mx_hosts;
    let mut hosts: Vec<String> = Vec::new();
    hosts.push(domain_or_empty(email));
    proof {
        assert(string_texts(hosts@) =~= seq![domain_text(email@)]);
    }
    match mx_hosts {
        Some(v) => {
            let mut k: usize = 0;
            while k < v.len()
                invariant
                    k <= v.len(),
                    string_texts(hosts@) =~= seq![domain_text(email@)] + string_texts(v@).take(
                        k as int,
                    ),
                decreases v.len() - k,
            {
                let ghost before = string_texts(hosts@);
                hosts.push(v[k].clone());
                assert(string_texts(hosts@) =~= before.push(v@[k as int]@));
                assert(string_texts(v@).take(k + 1) =~= string_texts(v@).take(k as int).push(
                    v@[k as int]@,
                ));
                k += 1;
            }
            assert(string_texts(v@).take(k as int) =~= string_texts(v@));
        },
        None => {
            assert(string_texts(hosts@) =~= guarded_hosts(domain_text(email@), mx));
        },
    }
    Probe::LookupAddresses { hosts }
}

/// The verdict after the MX lookup: `records` is the number of records
/// returned, `None` when the lookup failed.
pub fn after_mx_lookup(email: &str, records: Option<usize>) -> (r: ValidationResult)
    ensures
        r.email@ == email@,
        r.valid == (records matches Some(n) && n > 0),
        !r.catch_all,
{
    let valid = match records {
        Some(n) => n > 0,
        None => false,
    };
    ValidationResult { email: String::from_str(email), valid, catch_all: false }
}

/// Some lookup of the hosts' addresses found a private address.
pub open spec fn some_private(lookups: Seq<Option<Vec<IpAddress>>>) -> bool {
    exists|k: int| 0 <= k < lookups.len() && any_private(#[trigger] lookups[k])
}

/// The step after looking up the addresses of the guarded hosts, one
/// lookup per host (`None`: that lookup failed): a private address of the
/// domain or of one of its mail hosts ends the validation as invalid, with
/// no mailbox check; otherwise the mailbox is checked.
pub fn after_address_lookup(email: &str, lookups: &Vec<Option<Vec<IpAddress>>>) -> (p: Probe)
    ensures
        some_private(lookups@) ==> (p matches Probe::Done(r) && r.email@ == email@ && !r.valid
            && !r.catch_all),
        !some_private(lookups@) ==> p is CheckMailbox,
{
    let mut k: usize = 0;
    while k < lookups.len()
        invariant
            k <= lookups.len(),
            forall|i: int| 0 <= i < k ==> !any_private(#[trigger] lookups@[i]),
        decreases lookups.len() - k,
    {
        if resolves_to_private(&lookups[k]) {
            assert(any_private(lookups@[k as int]));
            return Probe::Done(
                ValidationResult { email: String::from_str(email), valid: false, catch_all: false },
            );
        }
        k += 1;
    }
    Probe::CheckMailbox
}

/// Whether `d` is one of `domains`.
pub fn contains_text(domains: &Vec<String>, d: &String) -> (b: bool)
    ensures
        b == string_texts(domains@).contains(d@),
{
    let mut k: usize = 0;
    while k < domains.len()
        invariant
            k <= domains.len(),
            forall|i: int| 0 <= i < k ==> domains@[i]@ != d@,
        decreases domains.len() - k,
    {
        if domains[k] == *d {
            proof {
                assert(string_texts(domains@)[k as int] == d@);
            }
            return true;
        }
        k += 1;
    }
    proof {
        if string_texts(domains@).contains(d@) {
            let i = choose|i: int| 0 <= i < string_texts(domains@).len() && string_texts(domains@)[i] == d@;
            assert(domains@[i]@ == d@);
        }
    }
    false
}

/// The verdict after the mailbox check: `reach` is its answer, `None` when
/// the check could not be set up. A deliverable address is flagged
/// catch-all when its domain is among `wildcard_domains` and the detection
/// is not disabled.
pub fn after_mailbox_check(
    email: &str,
    reach: Option<Reachability>,
    disable_wildcard: bool,
    wildcard_domains: &Vec<String>,
) -> (r: ValidationResult)
    ensures
        r.email@ == email@,
        r.valid == (reach matches Some(x) && accepts_mail(x)),
        r.catch_all == (r.valid && !disable_wildcard && string_texts(wildcard_domains@).contains(
            domain_text(email@),
        )),
{
    let valid = match reach {
        Some(x) => is_deliverable(x),
        None => false,
    };
    let catch_all = if valid && !disable_wildcard {
        let d = domain_or_empty(email);
        contains_text(wildcard_domains, &d)
    } else {
        false
    };
    ValidationResult { email: String::from_str(email), valid, catch_all }
}

/// The domain of a well-formed address is everything after its `@`.
pub proof fn lemma_domain_of_address(e: Seq<char>, a: int, j: int)
    requires
        crate::email::is_email_split(e, a, j),
    ensures
        domain_part(e) == Some(e.subrange(a + 1, e.len() as int)),
{
    assert forall|k: int| 0 <= k < a implies e[k] != '@' by {
        assert(crate::email::is_local_char(e[k]));
    }
    lemma_next_at(e, 0);
    if next_at(e, 0) < a {
        assert(e[next_at(e, 0)] != '@');
    }
    assert(next_at(e, 0) == a);
    lemma_next_at(e, a + 1);
    let b = next_at(e, a + 1);
    if b < e.len() {
        if b < j {
            assert(crate::email::is_domain_char(e[b]));
        } else if b > j {
            assert(crate::email::is_tld_char(e[b]));
        }
    }
    assert(b == e.len());
}

} // verus!
