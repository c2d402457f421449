//! The `run` pipeline with the regex method and list output, fed from the
//! same generated inputs as the end-to-end runs of the binary: chunked
//! ingestion, validation, then the addresses the list format writes.

use email_validator::cli::Method;
use email_validator::ingestion::{FeedStatus, IngestOutcome, Ingestor, CHUNK_SIZE};
use email_validator::output::listed_emails;
use email_validator::validation::{begin, Probe, ValidationResult};
use std::collections::HashSet;

fn file_of_lines(lines: &[String]) -> String {
    let mut s = String::new();
    for line in lines {
        s.push_str(line);
        s.push('\n');
    }
    s
}

fn validate_regex(content: &str) -> Vec<ValidationResult> {
    let mut ing = Ingestor::new();
    for chunk in content.as_bytes().chunks(CHUNK_SIZE) {
        assert_eq!(ing.feed(chunk), FeedStatus::Accepted);
    }
    let emails = match ing.finish(false) {
        IngestOutcome::Emails(v) => v,
        _ => Vec::new(),
    };
    emails
        .iter()
        .map(|e| match begin(Method::Regex, e) {
            Probe::Done(r) => r,
            other => panic!("regex method needs no lookup: {other:?}"),
        })
        .collect()
}

fn list_output(content: &str) -> Vec<String> {
    listed_emails(&validate_regex(content))
}

fn assert_sorted_and_unique(values: &[String]) {
    let mut expected = values.to_vec();
    expected.sort();
    expected.dedup();
    assert_eq!(values, expected);
}

fn build_mass_mixed_lines(total: usize) -> Vec<String> {
    let mut lines = Vec::with_capacity(total + 16);
    for i in 0..total {
        match i % 8 {
            0 => lines.push(format!("user{i}@example.com")),
            1 => lines.push(format!("zu.vor.nachnamen{i}@lol.das.test.de")),
            2 => lines.push(format!("broken{i}@")),
            3 => lines.push(format!("@missing-local{i}.de")),
            4 => lines.push(format!("noise-line-{i} no-email-here")),
            5 => lines.push(format!("<mail>xml.person{i}@a.b.c.example.net</mail>")),
            6 => lines.push(format!("[link](mailto:markdown.user{i}@docs.example.org)")),
            _ => lines.push(format!("duplicate{i}@dup.example.com duplicate{i}@dup.example.com")),
        }
    }
    lines.push("special.case@Deep.Mixed.Domain.Test.de".to_string());
    lines.push("special.case@Deep.Mixed.Domain.Test.de".to_string());
    lines.push("single.good@txt.test.de".to_string());
    lines.push("this is plain markdown text".to_string());
    lines.push("<contact email=\"xml.attribute@service.test.de\"/>".to_string());
    lines
}

fn build_mass_markdown_lines(total: usize) -> Vec<String> {
    let mut lines = Vec::with_capacity(total + 20);
    lines.push("# Email Contact List".to_string());
    lines.push("".to_string());
    lines.push("This document contains **various** email addresses for testing.".to_string());
    lines.push("".to_string());
    for i in 0..total {
        match i % 10 {
            0 => lines.push(format!("- Primary contact: `primary{i}@example.com`")),
            1 => lines.push(format!("- Backup contact: **backup{i}@sub.docs.test.de**")),
            2 => lines.push(format!("  - Nested list item with *nested{i}@deep.layer.example.org*")),
            3 => lines.push(format!("[Link to mail](mailto:support+team{i}@help.example.com)")),
            4 => lines.push(format!("```txt\ncode.block{i}@inline.codeblock.test.de\n```")),
            5 => lines.push(format!("## Section {i}  --  heading.{i}@section.title.example.net")),
            6 => lines.push(format!("| Col1 | Col2 |\n|------|------|\n| table{i}@row.example.com | broken{i}@ |")),
            7 => lines.push(format!("> Blockquote: blockquote{i}@quoted.example.org")),
            8 => lines.push(format!("~~strikethrough{i}@deleted.example.de~~ no-email")),
            _ => lines.push(format!("_italic{i}@italic.example.io_ and __bold{i}@bold.example.io__")),
        }
    }
    lines.push("".to_string());
    lines.push("---".to_string());
    lines.push("".to_string());
    lines.push("## Duplicates".to_string());
    lines.push("dup.markdown@example.com".to_string());
    lines.push("dup.markdown@example.com".to_string());
    lines.push("Dup.Markdown@Example.com".to_string());
    lines.push("".to_string());
    lines.push("## Invalid entries".to_string());
    lines.push("- `user@` (missing domain)".to_string());
    lines.push("- `@domain.tld` (missing local part)".to_string());
    lines.push("- `a..b@example.de` (double dot)".to_string());
    lines.push("- `name@domain.c` (single-char TLD)".to_string());
    lines.push("".to_string());
    lines.push("> **Note:** All addresses in this document are synthetic for testing.".to_string());
    lines
}

fn build_mass_xml_lines(total: usize) -> Vec<String> {
    let mut lines = Vec::with_capacity(total + 20);
    lines.push(r#"<?xml version="1.0" encoding="UTF-8"?>"#.to_string());
    lines.push(r#"<contacts>"#.to_string());
    lines.push(r#"  <meta generator="email_validator_test" version="1.0"/>"#.to_string());
    lines.push(format!("  <!-- {total} generated entries for fuzzing -->"));
    for i in 0..total {
        match i % 10 {
            0 => lines.push(format!(r#"  <entry email="user{i}@example.com" type="person">User {i}</entry>"#)),
            1 => lines.push(format!(r#"  <entry><name>Sub {i}</name><email>sub{i}@sub.docs.test.de</email></entry>"#)),
            2 => lines.push(format!(r#"  <entry type="alias"><![CDATA[cdata.person{i}@a.b.c.example.net]]></entry>"#)),
            3 => lines.push(format!(r#"  <note>Reachable at note+person{i}@notes.test.org during business hours</note>"#)),
            4 => lines.push(format!(r#"  <broken user="{i}">broken{i}@</broken>"#)),
            5 => lines.push(format!(r#"  <entry email="user.{i}@deep.nested.domain.test.de" role="admin"/>  <!-- self-closing -->"#)),
            6 => lines.push(format!(r#"  <invalid>@missing-local{i}.de</invalid>"#)),
            7 => lines.push(format!(r#"  <section><title>Group {i}</title><contact primary="group.primary{i}@groups.example.com" secondary="group.secondary{i}@groups.example.com"/></section>"#)),
            8 => lines.push(format!(r#"  <entry xmlns:em="urn:email"><em:addr>{i}.namespaced@ns.schema.test.org</em:addr></entry>"#)),
            _ => lines.push(format!(r#"  <raw>just-raw-text-{i} no-email-here</raw>"#)),
        }
    }
    lines.push(r#"  <duplicates>"#.to_string());
    lines.push(r#"    <dup email="dup.xml@example.com">First</dup>"#.to_string());
    lines.push(r#"    <dup email="dup.xml@example.com">Second</dup>"#.to_string());
    lines.push(r#"    <dup email="Dup.Xml@Example.com">Third (case variant)</dup>"#.to_string());
    lines.push(r#"  </duplicates>"#.to_string());
    lines.push(r#"</contacts>"#.to_string());
    lines
}

fn build_markdown_string(total: usize) -> String {
    let mut md = String::new();
    md.push_str("# Email Contact List\n\n");
    md.push_str("This document contains **various** email addresses for testing.\n\n");
    for i in 0..total {
        match i % 10 {
            0 => md.push_str(&format!("- Primary: `primary{i}@example.com`\n")),
            1 => md.push_str(&format!("- Backup: **backup{i}@sub.docs.test.de**\n")),
            2 => md.push_str(&format!("  - Nested: *nested{i}@deep.layer.example.org*\n")),
            3 => md.push_str(&format!("[Mail link](mailto:support+team{i}@help.example.com)\n")),
            4 => md.push_str(&format!("```\ncode.block{i}@inline.codeblock.test.de\n```\n")),
            5 => md.push_str(&format!("## Section {i} / heading.{i}@section.title.example.net\n")),
            6 => md.push_str(&format!("| table{i}@row.example.com | broken{i}@ |\n")),
            7 => md.push_str(&format!("> blockquote{i}@quoted.example.org\n")),
            8 => md.push_str(&format!("~~strikethrough{i}@deleted.example.de~~\n")),
            _ => md.push_str(&format!("_italic{i}@italic.example.io_ __bold{i}@bold.example.io__\n")),
        }
    }
    md.push_str("\n---\n## Duplicates\n");
    md.push_str("dup.markdown@example.com\n");
    md.push_str("dup.markdown@example.com\n");
    md.push_str("Dup.Markdown@Example.com\n");
    md.push_str("\n## Invalid\n");
    md.push_str("- `user@`\n- `@domain.tld`\n- `a..b@example.de`\n- `name@domain.c`\n");
    md
}

fn build_xml_string(total: usize) -> String {
    let mut xml = String::new();
    xml.push_str(r#"<?xml version="1.0" encoding="UTF-8"?>"#);
    xml.push('\n');
    xml.push_str(r#"<contacts>"#);
    xml.push('\n');
    xml.push_str(&format!("  <!-- {total} generated entries -->\n"));
    for i in 0..total {
        match i % 10 {
            0 => xml.push_str(&format!(r#"  <entry email="user{i}@example.com" type="person">User {i}</entry>"#)),
            1 => xml.push_str(&format!(r#"  <entry><name>Sub {i}</name><email>sub{i}@sub.docs.test.de</email></entry>"#)),
            2 => xml.push_str(&format!(r#"  <entry type="alias"><![CDATA[cdata.person{i}@a.b.c.example.net]]></entry>"#)),
            3 => xml.push_str(&format!(r#"  <note>Reachable at note+person{i}@notes.test.org during business hours</note>"#)),
            4 => xml.push_str(&format!(r#"  <broken user="{i}">broken{i}@</broken>"#)),
            5 => xml.push_str(&format!(r#"  <entry email="user.{i}@deep.nested.domain.test.de" role="admin"/>"#)),
            6 => xml.push_str(&format!(r#"  <invalid>@missing-local{i}.de</invalid>"#)),
            7 => xml.push_str(&format!(r#"  <section><title>Group {i}</title><contact primary="group.primary{i}@groups.example.com" secondary="group.secondary{i}@groups.example.com"/></section>"#)),
            8 => xml.push_str(&format!(r#"  <entry xmlns:em="urn:email"><em:addr>{i}.namespaced@ns.schema.test.org</em:addr></entry>"#)),
            _ => xml.push_str(&format!(r#"  <raw>just-raw-text-{i} no-email-here</raw>"#)),
        }
        xml.push('\n');
    }
    xml.push_str("  <duplicates>\n");
    xml.push_str("    <dup email=\"dup.xml@example.com\">First</dup>\n");
    xml.push_str("    <dup email=\"dup.xml@example.com\">Second</dup>\n");
    xml.push_str("    <dup email=\"Dup.Xml@Example.com\">Third</dup>\n");
    xml.push_str("  </duplicates>\n");
    xml.push_str("</contacts>\n");
    xml
}

#[test]
fn test_mass_mixed_input_regex_cli() {
    let lines = build_mass_mixed_lines(1200);
    let parsed = list_output(&file_of_lines(&lines));
    assert!(!parsed.is_empty());
    assert_sorted_and_unique(&parsed);

    let set: HashSet<&str> = parsed.iter().map(String::as_str).collect();
    assert!(set.contains("user0@example.com"));
    assert!(set.contains("zu.vor.nachnamen1@lol.das.test.de"));
    assert!(set.contains("xml.person5@a.b.c.example.net"));
    assert!(set.contains("markdown.user6@docs.example.org"));
    assert!(set.contains("single.good@txt.test.de"));
    assert!(set.contains("xml.attribute@service.test.de"));

    assert!(!set.contains("broken2@"));
    assert!(!set.contains("@missing-local3.de"));
    assert!(!set.contains("noise-line-4"));
}

#[test]
fn test_mass_markdown_input_regex_cli() {
    let lines = build_mass_markdown_lines(800);
    let parsed = list_output(&file_of_lines(&lines));
    assert!(!parsed.is_empty());
    assert_sorted_and_unique(&parsed);

    let set: HashSet<&str> = parsed.iter().map(String::as_str).collect();
    assert!(set.contains("primary0@example.com"));
    assert!(set.contains("backup1@sub.docs.test.de"));
    assert!(set.contains("nested2@deep.layer.example.org"));
    assert!(set.contains("support+team3@help.example.com"));
    assert!(set.contains("code.block4@inline.codeblock.test.de"));
    assert!(set.contains("heading.5@section.title.example.net"));
    assert!(set.contains("table6@row.example.com"));
    assert!(set.contains("blockquote7@quoted.example.org"));
    assert!(set.contains("strikethrough8@deleted.example.de"));

    let has_italic_or_bold = set.iter().any(|e| e.contains("italic") || e.contains("bold"));
    assert!(has_italic_or_bold, "expected at least one italic/bold email in: {set:?}");

    assert!(set.contains("dup.markdown@example.com"));

    assert!(!set.contains("user@"));
    assert!(!set.contains("@domain.tld"));
    assert!(!set.contains("name@domain.c"));
}

#[test]
fn test_mass_markdown_flat_string_regex_cli() {
    let md = build_markdown_string(600);
    let parsed = list_output(&md);
    assert!(!parsed.is_empty());
    assert_sorted_and_unique(&parsed);

    let set: HashSet<&str> = parsed.iter().map(String::as_str).collect();
    assert!(set.contains("primary0@example.com"));
    assert!(set.contains("dup.markdown@example.com"));
}

#[test]
fn test_mass_xml_input_regex_cli() {
    let lines = build_mass_xml_lines(800);
    let parsed = list_output(&file_of_lines(&lines));
    assert!(!parsed.is_empty());
    assert_sorted_and_unique(&parsed);

    let set: HashSet<&str> = parsed.iter().map(String::as_str).collect();
    assert!(set.contains("user0@example.com"));
    assert!(set.contains("sub1@sub.docs.test.de"));
    assert!(set.contains("cdata.person2@a.b.c.example.net"));
    assert!(set.contains("note+person3@notes.test.org"));
    assert!(set.contains("user.5@deep.nested.domain.test.de"));
    assert!(set.contains("group.primary7@groups.example.com"));
    assert!(set.contains("group.secondary7@groups.example.com"));
    assert!(set.contains("8.namespaced@ns.schema.test.org"));
    assert!(set.contains("dup.xml@example.com"));

    assert!(!set.contains("broken4@"));
    assert!(!set.contains("@missing-local6.de"));
}

#[test]
fn test_mass_xml_flat_string_regex_cli() {
    let xml = build_xml_string(500);
    let parsed = list_output(&xml);
    assert!(!parsed.is_empty());
    assert_sorted_and_unique(&parsed);

    let set: HashSet<&str> = parsed.iter().map(String::as_str).collect();
    assert!(set.contains("user0@example.com"));
    assert!(set.contains("dup.xml@example.com"));
}

#[test]
fn test_markdown_no_panic_on_malformed_syntax() {
    let payload = r#"
# ~~~ ** __ ***
[broken](mailto:)(mailto:x@y.de)
``` ```  ``` 
` ` ` x@y.de ` ` `
||table|| # heading @@@
"#;
    let parsed = list_output(payload);
    assert_sorted_and_unique(&parsed);
    assert!(parsed.contains(&"x@y.de".to_string()));
}

#[test]
fn test_xml_no_panic_on_malformed_syntax() {
    let payload = r#"
<?xml version="1.0"?>
<root>
  <unclosed attr="test@x.de
  <<double-bracket>>test2@y.com</double-bracket>>
  <![CDATA[ cdata@broken ]]>
  <selfclosing attr="ok@z.de"/>
</root>
"#;
    let parsed = list_output(payload);
    assert_sorted_and_unique(&parsed);
    assert!(parsed.contains(&"ok@z.de".to_string()));
    assert!(parsed.contains(&"test2@y.com".to_string()));
}

#[test]
fn test_cli_json_output_format() {
    let lines = vec![
        "alice@example.com".to_string(),
        "bogus".to_string(),
        "bob@test.de".to_string(),
        "alice@example.com".to_string(),
    ];
    // The JSON output holds every result.
    let results = validate_regex(&file_of_lines(&lines));
    assert_eq!(results.len(), 2, "CLI ingestion drops non-extractable tokens before validation");

    let mut emails: Vec<&str> = results.iter().map(|r| r.email.as_str()).collect();
    emails.sort();
    assert_eq!(emails, vec!["alice@example.com", "bob@test.de"]);

    let valid_count = results.iter().filter(|r| r.valid).count();
    assert_eq!(valid_count, 2);
}
