use email_validator::ingestion::{
    extract_and_deduplicate, FeedStatus, IngestOutcome, Ingestor, CHUNK_SIZE, MAX_INPUT_SIZE,
};
use regex::Regex;

fn assert_sorted_and_unique(values: &[String]) {
    let mut expected = values.to_vec();
    expected.sort();
    expected.dedup();
    assert_eq!(values, expected);
}

#[test]
fn test_extract_valid_emails_from_dirty_text() {
    let dirty_text = "Text: max@greenhats.com. Trash <info@test.de>.";
    let result = extract_and_deduplicate(dirty_text);

    assert_eq!(result.len(), 2);
    assert_eq!(result[0], "info@test.de");
    assert_eq!(result[1], "max@greenhats.com");
}

#[test]
fn test_deduplication() {
    let text_with_duplicates = "test@domain.com, test@domain.com";
    let result = extract_and_deduplicate(text_with_duplicates);

    assert_eq!(result.len(), 1);
    assert_eq!(result[0], "test@domain.com");
}

#[test]
fn test_no_emails_found() {
    let clean_text = "Just text, no addresses here.";
    let result = extract_and_deduplicate(clean_text);
    assert!(result.is_empty());
}

#[test]
fn test_complex_email_extraction() {
    let text = "Contact us at first.last+tag@sub.domain.co.uk or admin@123-company.org.";
    let result = extract_and_deduplicate(text);

    assert_eq!(result.len(), 2);
    assert_eq!(result[0], "admin@123-company.org");
    assert_eq!(result[1], "first.last+tag@sub.domain.co.uk");
}

#[test]
fn test_ignore_invalid_emails() {
    let text = "Bad emails: user@domain @domain.com user@.com just-a-string user@domain.c";
    let result = extract_and_deduplicate(text);

    assert!(result.is_empty());
}

#[test]
fn test_regex_fuzzing_simulation() {
    let long_string = "A".repeat(10_000);

    let malicious_payloads = vec![
        "aaaaaaaaaaaaaaaaaaaaaaaaaaaaaaaaaaaaaaaaaaaaaaaaaaaaaaaaaaaa!",
        "' OR 1=1; DROP TABLE users; -- <script>alert(1)</script> user@hacker.com",
        &long_string,
        "u̸s̷e̸r̵@̶d̵o̸m̷a̸i̶n̵.̶c̸o̷m̷ 💥 ¯\\_(ツ)_/¯",
        "@@@@@@.com user@.com.com.com user@domain..com",
    ];

    for payload in malicious_payloads {
        let result = extract_and_deduplicate(payload);

        if payload.contains("user@hacker.com") {
            assert_eq!(result.len(), 1);
            assert_eq!(result[0], "user@hacker.com");
        }
    }
}

#[test]
fn test_extract_from_txt_with_noise_and_duplicates() {
    let txt_like_content = r#"
                Contact list:
                - alice@example.com
                - alice@example.com
                - Alice@Example.com
                - zu.vor.nachnamen@lol.das.test.de
                Broken: user@ and @domain.tld and a..b@x.de
            "#;

    let result = extract_and_deduplicate(txt_like_content);

    assert_eq!(
        result,
        vec![
            "Alice@Example.com".to_string(),
            "a..b@x.de".to_string(),
            "alice@example.com".to_string(),
            "zu.vor.nachnamen@lol.das.test.de".to_string()
        ]
    );
}

#[test]
fn test_extract_from_markdown_content_blocks() {
    let markdown_content = r#"
    # Team Contacts

    Primary: **lead.engineer@dept.example.org**

    - Backup: zu.vor.nachnamen@lol.das.test.de
    - Broken: user@ and @x.de

    ```txt
    alerts.ops+night@monitoring.deep.layer.test.de
    ```

    Find us at [Email](mailto:support@docs.example.com).
    "#;

    let result = extract_and_deduplicate(markdown_content);

    assert_eq!(
        result,
        vec![
            "alerts.ops+night@monitoring.deep.layer.test.de".to_string(),
            "lead.engineer@dept.example.org".to_string(),
            "support@docs.example.com".to_string(),
            "zu.vor.nachnamen@lol.das.test.de".to_string()
        ]
    );
}

#[test]
fn test_extract_from_xml_nodes_and_attributes() {
    let xml_content = r#"
    <contacts>
      <owner email="owner.primary@service.test.de">Owner</owner>
      <entry><![CDATA[xml.cdata.person@a.b.c.example.net]]></entry>
      <note>reachable: contact+sales@dept.test.org</note>
      <bad>user@ domain@ invalid@.de</bad>
    </contacts>
    "#;

    let result = extract_and_deduplicate(xml_content);

    assert_eq!(
        result,
        vec![
            "contact+sales@dept.test.org".to_string(),
            "owner.primary@service.test.de".to_string(),
            "xml.cdata.person@a.b.c.example.net".to_string()
        ]
    );
}

#[test]
fn test_invalid_variants_and_case_duplicate_behavior() {
    let mixed = r#"
    valid@test.de
    Valid@Test.de
    user@
    @domain.tld
    name@domain.c
    broken@@domain.de
            "#;

    let result = extract_and_deduplicate(mixed);

    assert_eq!(result, vec!["Valid@Test.de".to_string(), "valid@test.de".to_string()]);
}

// ── Behaviour of the search itself ─────────────────────────────────

#[test]
fn extraction_prefers_the_last_dot_followed_by_letters() {
    // The domain takes the longest run that still leaves `.xx`.
    assert_eq!(extract_and_deduplicate("a@b.cd.ef-1"), vec!["a@b.cd.ef".to_string()]);
    // A dot followed by a single letter cannot end the domain.
    assert_eq!(extract_and_deduplicate("a@b.cd.e"), vec!["a@b.cd".to_string()]);
    // The label takes every following letter.
    assert_eq!(extract_and_deduplicate("x@y.comfoo1"), vec!["x@y.comfoo".to_string()]);
}

#[test]
fn extraction_resumes_after_each_match() {
    // "a@b.cde@x.com": the first match ends at "cde", the rest has no local part.
    assert_eq!(extract_and_deduplicate("a@b.cde@x.com"), vec!["a@b.cde".to_string()]);
    // Two addresses glued by a letter are separate matches.
    assert_eq!(
        extract_and_deduplicate("a@b.cd e@f.gh"),
        vec!["a@b.cd".to_string(), "e@f.gh".to_string()]
    );
}

#[test]
fn extraction_accepts_folded_letters() {
    // U+212A (Kelvin sign) and U+017F (long s) fold onto `k` and `s`.
    let text = "x \u{212a}@\u{17f}ite.\u{17f}\u{212a} y";
    assert_eq!(extract_and_deduplicate(text), vec!["\u{212a}@\u{17f}ite.\u{17f}\u{212a}".to_string()]);
}

#[test]
fn an_address_alone_is_extracted_unchanged() {
    for e in ["a@b.cd", "first.last+tag@sub.domain.co.uk", "x%y@a-b.c-d.EFG", "a..b@x.de"] {
        assert_eq!(extract_and_deduplicate(e), vec![e.to_string()]);
    }
}

#[test]
fn extracted_addresses_have_the_anchored_syntax() {
    let anchored = Regex::new(r"(?i)^[A-Z0-9._%+-]+@[A-Z0-9.-]+\.[A-Z]{2,}$").unwrap();
    let text = "junk a.b@c.d.ef more x@@y.zz __u_@x-y.org ok+1@h.io. @no.pe end@dots..de";
    let result = extract_and_deduplicate(text);
    assert!(!result.is_empty());
    assert_sorted_and_unique(&result);
    for e in &result {
        assert!(anchored.is_match(e), "{e}");
    }
}

/// A small deterministic generator, so that the comparison below is
/// repeatable.
struct Lcg(u64);

impl Lcg {
    fn next(&mut self) -> u64 {
        self.0 = self.0.wrapping_mul(6364136223846793005).wrapping_add(1442695040888963407);
        self.0 >> 33
    }
    fn pick<'a>(&mut self, items: &'a [&'a str]) -> &'a str {
        items[(self.next() as usize) % items.len()]
    }
}

fn reference_extract(text: &str) -> Vec<String> {
    let re = Regex::new(r"(?i)[A-Z0-9._%+-]+@[A-Z0-9.-]+\.[A-Z]{2,}").unwrap();
    let mut v: Vec<String> = re.find_iter(text).map(|m| m.as_str().to_string()).collect();
    v.sort();
    v.dedup();
    v
}

#[test]
fn extraction_agrees_with_the_pattern_search() {
    let pieces = [
        "a", "B", "z", "9", ".", "..", "@", "@@", "-", "_", "%", "+", " ", "\n", "<", ">", ",",
        "com", "de", "x.y", "\u{212a}", "\u{17f}", "é", "ü", "1.2", ".io", "mail", "@a.bc",
        "q@w.er", ".c", "=",
    ];
    let mut rng = Lcg(7);
    for _ in 0..3000 {
        let len = (rng.next() % 30) as usize;
        let mut s = String::new();
        for _ in 0..len {
            s.push_str(rng.pick(&pieces));
        }
        assert_eq!(extract_and_deduplicate(&s), reference_extract(&s), "input {s:?}");
    }
}

#[test]
fn proptest_like_mixed_stream_invariants() {
    let anchored = Regex::new(r"(?i)^[A-Z0-9._%+-]+@[A-Z0-9.-]+\.[A-Z]{2,}$").unwrap();
    let locals = ["abc", "x", "first.last", "zz.top.q"];
    let domains = ["de", "com", "org", "net", "io"];
    let mut rng = Lcg(42);
    for _ in 0..200 {
        let n = (rng.next() % 300) as usize;
        let mut tokens: Vec<String> = Vec::new();
        for _ in 0..n {
            let t = match rng.next() % 5 {
                0 => format!("{}@{}.{}", rng.pick(&locals), rng.pick(&domains), rng.pick(&domains)),
                1 => format!("{}@{}.{}.{}", rng.pick(&locals), rng.pick(&domains), rng.pick(&domains), rng.pick(&domains)),
                2 => format!("{}@", rng.pick(&locals)),
                3 => format!("{}@domain.c", rng.pick(&locals)),
                _ => "noise <> = : / # - . ,".to_string(),
            };
            tokens.push(t);
        }
        let input = tokens.join("\n");
        let result = extract_and_deduplicate(&input);
        assert_sorted_and_unique(&result);
        for email in &result {
            assert!(anchored.is_match(email));
        }
    }
}

// ── Chunked input ──────────────────────────────────────────────────

fn ingest(bytes: &[u8], chunk: usize) -> IngestOutcome {
    let mut ing = Ingestor::new();
    for c in bytes.chunks(chunk) {
        assert_eq!(ing.feed(c), FeedStatus::Accepted);
    }
    ing.finish(false)
}

fn emails_of(o: IngestOutcome) -> Vec<String> {
    match o {
        IngestOutcome::Emails(v) => v,
        other => panic!("expected addresses, got {other:?}"),
    }
}

#[test]
fn ingestion_lowercases_and_deduplicates() {
    let text = "Alice@Example.com alice@example.com\nBOB@TEST.DE\n";
    let v = emails_of(ingest(text.as_bytes(), CHUNK_SIZE));
    assert_eq!(v, vec!["alice@example.com".to_string(), "bob@test.de".to_string()]);
}

#[test]
fn ingestion_keeps_an_address_cut_at_a_chunk_boundary() {
    let text = "hello first@example.com second@example.org\n";
    // Cut inside "second@example.org".
    let v = emails_of(ingest(text.as_bytes(), 30));
    assert_eq!(v, vec!["first@example.com".to_string(), "second@example.org".to_string()]);
}

#[test]
fn ingestion_reports_no_input_and_no_emails() {
    let ing = Ingestor::new();
    assert!(matches!(ing.finish(true), IngestOutcome::NoInput));
    let ing = Ingestor::new();
    assert!(matches!(ing.finish(false), IngestOutcome::NoEmails));
    assert!(matches!(ingest(b"nothing here\n", CHUNK_SIZE), IngestOutcome::NoEmails));
}

#[test]
fn ingestion_refuses_input_over_the_limit() {
    let mut ing = Ingestor::new();
    let chunk = vec![b'a'; CHUNK_SIZE];
    let mut total: u64 = 0;
    loop {
        let status = ing.feed(&chunk);
        if total + CHUNK_SIZE as u64 > MAX_INPUT_SIZE {
            assert_eq!(status, FeedStatus::TooLarge);
            break;
        }
        assert_eq!(status, FeedStatus::Accepted);
        total += CHUNK_SIZE as u64;
    }
    assert_eq!(total, MAX_INPUT_SIZE);
}

#[test]
fn ingestion_decodes_invalid_bytes_lossily() {
    let mut bytes = b"ok@site.de ".to_vec();
    bytes.push(0xff);
    bytes.extend_from_slice(b" next@site.de");
    let v = emails_of(ingest(&bytes, CHUNK_SIZE));
    assert_eq!(v, vec!["next@site.de".to_string(), "ok@site.de".to_string()]);
}

#[test]
fn extraction_splits_at_white_space() {
    let left = "mail first@one.de, x@";
    let right = "y.com second@two.org";
    let joined = format!("{left}\n{right}");
    let mut expected = extract_and_deduplicate(left);
    expected.extend(extract_and_deduplicate(right));
    expected.sort();
    expected.dedup();
    assert_eq!(extract_and_deduplicate(&joined), expected);
    // The cut pieces of "x@y.com" are found in neither part nor in the whole.
    assert_eq!(expected, vec!["first@one.de".to_string(), "second@two.org".to_string()]);
}

#[test]
fn chunks_ending_in_white_space_read_like_the_whole_input() {
    let chunks: [&[u8]; 3] = [b"Alice@Example.com and ", b"bob@test.de\n", b"carol@Site.org"];
    let mut ing = Ingestor::new();
    for c in chunks {
        assert_eq!(ing.feed(c), FeedStatus::Accepted);
    }
    let chunked = emails_of(ing.finish(false));
    let whole: Vec<u8> = chunks.concat();
    assert_eq!(chunked, emails_of(ingest(&whole, CHUNK_SIZE)));
    assert_eq!(
        chunked,
        vec!["alice@example.com".to_string(), "bob@test.de".to_string(), "carol@site.org".to_string()]
    );
}

#[test]
fn a_cut_inside_an_address_gives_the_whole_address_only() {
    // The first chunk ends inside the top-level label; the address is
    // searched only once it is whole.
    let mut ing = Ingestor::new();
    assert_eq!(ing.feed(b"mail user@domain.co"), FeedStatus::Accepted);
    assert_eq!(ing.feed(b"m\n"), FeedStatus::Accepted);
    assert_eq!(emails_of(ing.finish(false)), vec!["user@domain.com".to_string()]);
}

#[test]
fn a_first_chunk_without_white_space_is_kept() {
    let mut ing = Ingestor::new();
    assert_eq!(ing.feed(b"User"), FeedStatus::Accepted);
    assert_eq!(ing.feed(b"@Example"), FeedStatus::Accepted);
    assert_eq!(ing.feed(b".com and more"), FeedStatus::Accepted);
    assert_eq!(emails_of(ing.finish(false)), vec!["user@example.com".to_string()]);
}

#[test]
fn every_chunking_reads_like_the_whole_input() {
    let text = "Mail first.Last+tag@Sub.Domain.co.uk, x@y.de;<b>z@w.org</b> broken@ @x.de a..b@c.de\nend@done.net";
    let whole: Vec<String> = {
        let mut v: Vec<String> =
            extract_and_deduplicate(text).iter().map(|e| e.to_lowercase()).collect();
        v.sort();
        v.dedup();
        v
    };
    for size in 1..=text.len() {
        assert_eq!(emails_of(ingest(text.as_bytes(), size)), whole, "chunks of {size} bytes");
    }
}

#[test]
fn extraction_of_joined_texts_is_the_sorted_union() {
    let a = "write to b@x.de or a@x.de, not to x@";
    let b = "y.de but z@y.org and a@x.de";
    let mut union = extract_and_deduplicate(a);
    union.extend(extract_and_deduplicate(b));
    union.sort();
    union.dedup();
    assert_eq!(extract_and_deduplicate(&format!("{a} {b}")), union);
}

#[test]
fn extracting_again_gives_the_same_addresses() {
    let text = "Contact first.last+tag@sub.domain.co.uk, Bob@Test.de; bob@test.de <x@y.org>";
    let out = extract_and_deduplicate(text);
    assert_eq!(extract_and_deduplicate(&out.join(" ")), out);
}

#[test]
fn documented_example_sorts_and_deduplicates() {
    let result = extract_and_deduplicate("alice@example.com bob@test.de alice@example.com");
    assert_eq!(result, vec!["alice@example.com", "bob@test.de"]);
}
