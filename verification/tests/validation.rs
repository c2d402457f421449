use email_validator::cli::Method;
use email_validator::output::{listed_emails, output_kind, valid_count, OutputKind};
use email_validator::cli::Format;
use email_validator::precheck::{catch_all_domains, domains_to_probe, probe_address};
use email_validator::validation::{
    after_address_lookup, after_mailbox_check, after_mx_hosts, after_mx_lookup, begin, check_syntax, domain_of,
    is_private_ip, resolves_to_private, IpAddress, Probe, Reachability, ValidationResult,
};

fn strings(v: &[&str]) -> Vec<String> {
    v.iter().map(|s| s.to_string()).collect()
}

#[test]
fn private_ranges() {
    let v4 = |a, b, c, d| IpAddress::V4([a, b, c, d]);
    for ip in [v4(10, 1, 2, 3), v4(172, 16, 0, 1), v4(172, 31, 255, 255), v4(192, 168, 1, 1), v4(127, 0, 0, 1),
               v4(169, 254, 0, 1), v4(100, 64, 0, 1), v4(100, 127, 9, 9), v4(0, 0, 0, 0)] {
        assert!(is_private_ip(&ip), "{ip:?}");
    }
    for ip in [v4(8, 8, 8, 8), v4(172, 15, 0, 1), v4(172, 32, 0, 1), v4(192, 169, 0, 1), v4(100, 63, 0, 1),
               v4(100, 128, 0, 1), v4(0, 0, 0, 1), v4(169, 253, 0, 1)] {
        assert!(!is_private_ip(&ip), "{ip:?}");
    }
    let v6 = |s: [u16; 8]| IpAddress::V6(s);
    assert!(is_private_ip(&v6([0, 0, 0, 0, 0, 0, 0, 1])));
    assert!(is_private_ip(&v6([0xfc00, 0, 0, 0, 0, 0, 0, 1])));
    assert!(is_private_ip(&v6([0xfdff, 1, 2, 3, 4, 5, 6, 7])));
    assert!(is_private_ip(&v6([0xfe80, 0, 0, 0, 0, 0, 0, 1])));
    assert!(is_private_ip(&v6([0xfebf, 0, 0, 0, 0, 0, 0, 1])));
    assert!(!is_private_ip(&v6([0xfec0, 0, 0, 0, 0, 0, 0, 1])));
    assert!(!is_private_ip(&v6([0x2001, 0xdb8, 0, 0, 0, 0, 0, 1])));
    assert!(!is_private_ip(&v6([0, 0, 0, 0, 0, 0, 0, 0])));
}

#[test]
fn private_lookup() {
    assert!(!resolves_to_private(&None));
    assert!(!resolves_to_private(&Some(vec![])));
    assert!(!resolves_to_private(&Some(vec![IpAddress::V4([8, 8, 8, 8])])));
    assert!(resolves_to_private(&Some(vec![IpAddress::V4([8, 8, 8, 8]), IpAddress::V4([10, 0, 0, 1])])));
}

#[test]
fn domains_of_addresses() {
    assert_eq!(domain_of("a@b.de").as_deref(), Some("b.de"));
    assert_eq!(domain_of("a@b@c").as_deref(), Some("b"));
    assert_eq!(domain_of("a@").as_deref(), Some(""));
    assert_eq!(domain_of("plain"), None);
}

#[test]
fn syntax_verdicts() {
    assert!(check_syntax("a@b.de").valid);
    assert!(check_syntax("x%y+z@a-b.c-d.EFG").valid);
    assert!(!check_syntax("bogus").valid);
    assert!(!check_syntax("a@b.c").valid);
    assert!(!check_syntax("@b.de").valid);
    assert!(!check_syntax("a@.de").valid);
    assert!(!check_syntax("a@b.de ").valid);
    assert!(!check_syntax("a@b@c.de").valid);
    assert!(!check_syntax("a@b.d1").valid);
    assert!(check_syntax("a@b.c.de").valid);
    assert!(!check_syntax("a@b.de.").valid);
    assert!(!check_syntax("").valid);
}

#[test]
fn method_steps() {
    match begin(Method::Mx, "u@mail.example") {
        Probe::LookupMx { domain } => assert_eq!(domain, "mail.example"),
        other => panic!("{other:?}"),
    }
    match begin(Method::Smtp, "nodomain") {
        Probe::LookupMxHosts { domain } => assert_eq!(domain, ""),
        other => panic!("{other:?}"),
    }
    assert!(after_mx_lookup("u@x.de", Some(2)).valid);
    assert!(!after_mx_lookup("u@x.de", Some(0)).valid);
    assert!(!after_mx_lookup("u@x.de", None).valid);

    let private = Some(vec![IpAddress::V4([127, 0, 0, 1])]);
    let public = Some(vec![IpAddress::V4([8, 8, 8, 8])]);
    match after_address_lookup("u@x.de", &vec![private.clone()]) {
        Probe::Done(r) => assert!(!r.valid && !r.catch_all && r.email == "u@x.de"),
        other => panic!("{other:?}"),
    }
    assert!(matches!(after_address_lookup("u@x.de", &vec![None]), Probe::CheckMailbox));
    assert!(matches!(after_address_lookup("u@x.de", &vec![public.clone(), None]), Probe::CheckMailbox));
}

#[test]
fn smtp_guard_checks_the_mail_hosts() {
    let email = "u@x.de";
    let hosts = match begin(Method::Smtp, email) {
        Probe::LookupMxHosts { domain } => {
            assert_eq!(domain, "x.de");
            match after_mx_hosts(email, Some(strings(&["mx1.x.de.", "mx2.x.de."]))) {
                Probe::LookupAddresses { hosts } => hosts,
                other => panic!("{other:?}"),
            }
        }
        other => panic!("{other:?}"),
    };
    assert_eq!(hosts, strings(&["x.de", "mx1.x.de.", "mx2.x.de."]));
    // The domain itself is public, but a mail host is internal: no mailbox check.
    let lookups = vec![
        Some(vec![IpAddress::V4([8, 8, 8, 8])]),
        Some(vec![IpAddress::V4([93, 184, 216, 34])]),
        Some(vec![IpAddress::V4([10, 0, 0, 5])]),
    ];
    match after_address_lookup(email, &lookups) {
        Probe::Done(r) => assert!(!r.valid && !r.catch_all),
        other => panic!("{other:?}"),
    }
    // Without mail hosts only the domain is checked.
    match after_mx_hosts(email, None) {
        Probe::LookupAddresses { hosts } => assert_eq!(hosts, strings(&["x.de"])),
        other => panic!("{other:?}"),
    }
}

#[test]
fn mailbox_verdicts_and_catch_all() {
    let wild = strings(&["x.de"]);
    let r = after_mailbox_check("u@x.de", Some(Reachability::Safe), false, &wild);
    assert!(r.valid && r.catch_all);
    let r = after_mailbox_check("u@x.de", Some(Reachability::Risky), true, &wild);
    assert!(r.valid && !r.catch_all);
    let r = after_mailbox_check("u@y.de", Some(Reachability::Safe), false, &wild);
    assert!(r.valid && !r.catch_all);
    let r = after_mailbox_check("u@x.de", Some(Reachability::Invalid), false, &wild);
    assert!(!r.valid && !r.catch_all);
    let r = after_mailbox_check("u@x.de", Some(Reachability::Unknown), false, &wild);
    assert!(!r.valid);
    let r = after_mailbox_check("u@x.de", None, false, &wild);
    assert!(!r.valid);
}

#[test]
fn precheck_domains() {
    let emails = strings(&["a@x.de", "b@x.de", "c@a.org", "plain", "d@"]);
    assert!(domains_to_probe(Method::Regex, false, &emails).is_empty());
    assert!(domains_to_probe(Method::Mx, false, &emails).is_empty());
    assert!(domains_to_probe(Method::Smtp, true, &emails).is_empty());
    assert_eq!(domains_to_probe(Method::Smtp, false, &emails), strings(&["", "a.org", "x.de"]));
    assert_eq!(probe_address("x.de"), "dlfAxs7TGR91OhmWCbDiqtpcwEEARRJf@x.de");
    let domains = strings(&["a.org", "b.org", "x.de"]);
    let verdicts = vec![Reachability::Risky, Reachability::Invalid, Reachability::Safe];
    assert_eq!(catch_all_domains(&domains, &verdicts), strings(&["a.org", "x.de"]));
}

#[test]
fn output_selection() {
    let r = |e: &str, valid: bool| ValidationResult { email: e.to_string(), valid, catch_all: false };
    let results = vec![r("b@x.de", true), r("bogus", false), r("a@x.de", true)];
    assert_eq!(listed_emails(&results), strings(&["b@x.de", "a@x.de"]));
    assert_eq!(valid_count(&results), 2);
    assert_eq!(output_kind(true, Format::List), OutputKind::Json);
    assert_eq!(output_kind(false, Format::Gophish), OutputKind::Gophish);
    assert_eq!(output_kind(false, Format::List), OutputKind::List);
}
