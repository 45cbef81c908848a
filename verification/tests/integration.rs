//! Integration tests driving the public API against a sample document.

use rustiniparser::{Document, Error};

const SAMPLE_INI: &str = "; Sample configuration\n# used by the integration tests\napp_name = Rustiniparser\nversion = 1.0\n\n[network]\nhost = \"example.com\"   ; inline comment\nport = 8080\ntimeout : 30\nmask = 0xFF\nproxy =\n\n[server]\nenabled = yes\nlog_level = debug   # trailing comment\npassword = 'p@ss #word ; not-a-comment'\n";

fn load_fixture() -> Document {
    Document::parse(SAMPLE_INI).expect("fixture parses")
}

/// The stored value read as a floating-point number, or `fallback`.
fn get_double(doc: &Document, section: &str, key: &str, fallback: f64) -> f64 {
    if doc.has(section, key) {
        doc.get_string(section, key, "").trim().parse::<f64>().unwrap_or(fallback)
    } else {
        fallback
    }
}

#[test]
fn sample_fixture_typed_reads() {
    let doc = load_fixture();

    assert_eq!(doc.get_string("", "app_name", "?"), "Rustiniparser");
    assert_eq!(get_double(&doc, "", "version", 0.0), 1.0);

    assert_eq!(doc.get_string("network", "host", "?"), "example.com");
    assert_eq!(doc.get_int("network", "port", 0), 8080);
    assert_eq!(doc.get_int("network", "timeout", 0), 30);
    assert_eq!(doc.get_int("network", "mask", 0), 255);
    // empty value
    assert_eq!(doc.get_string("network", "proxy", "<unset>"), "");

    assert!(doc.get_bool("server", "enabled", false));
    assert_eq!(doc.get_string("server", "log_level", "?"), "debug");
    // single quotes preserve `;` and `#`
    assert_eq!(
        doc.get_string("server", "password", "?"),
        "p@ss #word ; not-a-comment"
    );
}

#[test]
fn modify_add_remove_roundtrip() {
    let mut doc = load_fixture();
    let before = doc.len();

    doc.set_int("network", "port", 9090).unwrap();
    assert_eq!(doc.get_int("network", "port", 0), 9090);
    assert_eq!(doc.len(), before, "overwrite must not grow the document");

    doc.set("network", "gateway", "10.0.0.1").unwrap();
    assert_eq!(doc.len(), before + 1);

    doc.remove("network", "gateway").unwrap();
    assert_eq!(doc.remove("network", "gateway"), Err(Error::NotFound));
    assert_eq!(doc.len(), before);
}

#[test]
fn merging_two_buffers() {
    let mut doc = Document::new();
    doc.load("[a]\nx = 1\n").unwrap();
    doc.load("[b]\ny = 2\n").unwrap();
    assert_eq!(doc.get_int("a", "x", 0), 1);
    assert_eq!(doc.get_int("b", "y", 0), 2);
}
