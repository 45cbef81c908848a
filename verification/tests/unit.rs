use rustiniparser::{Document, Error, Limits};

const SAMPLE: &str = "; global config\napp_name = Rustiniparser\n[network]\nhost = \"example.com\"   ; inline comment\nport = 8080\nratio = 0.25\nmask = 0xFF\n[server]\nenabled = yes\npassword = 'p@ss #word'\n";

/// The stored value read as a floating-point number, or `fallback`.
fn get_double(doc: &Document, section: &str, key: &str, fallback: f64) -> f64 {
    if doc.has(section, key) {
        doc.get_string(section, key, "").trim().parse::<f64>().unwrap_or(fallback)
    } else {
        fallback
    }
}

#[test]
fn load_and_get() {
    let doc = Document::parse(SAMPLE).unwrap();
    assert_eq!(doc.get_string("", "app_name", "?"), "Rustiniparser");
    assert_eq!(doc.get_string("network", "host", "?"), "example.com");
    assert_eq!(doc.get_string("server", "password", "?"), "p@ss #word");
    assert_eq!(doc.get_int("network", "port", -1), 8080);
    assert_eq!(doc.get_int("network", "mask", -1), 255);
    let r = get_double(&doc, "network", "ratio", 0.0);
    assert!(r > 0.249 && r < 0.251);
    assert!(doc.get_bool("server", "enabled", false));
    assert_eq!(doc.get_int("network", "missing", 42), 42);
    assert_eq!(doc.get_string("nope", "x", "def"), "def");
    assert!(doc.has("network", "host"));
    assert!(!doc.has("network", "nope"));
}

#[test]
fn modify() {
    let mut doc = Document::parse(SAMPLE).unwrap();
    let before = doc.len();
    doc.set_int("network", "port", 9090).unwrap();
    assert_eq!(doc.get_int("network", "port", 0), 9090);
    assert_eq!(doc.len(), before);
    doc.set_bool("server", "enabled", false).unwrap();
    assert!(!doc.get_bool("server", "enabled", true));
}

#[test]
fn add() {
    let mut doc = Document::parse(SAMPLE).unwrap();
    let before = doc.len();
    doc.set("network", "gateway", "10.0.0.1").unwrap();
    assert_eq!(doc.get_string("network", "gateway", "?"), "10.0.0.1");
    doc.set_int("limits", "max", 100).unwrap();
    assert_eq!(doc.get_int("limits", "max", 0), 100);
    assert_eq!(doc.len(), before + 2);
}

#[test]
fn remove() {
    let mut doc = Document::parse(SAMPLE).unwrap();
    assert_eq!(doc.remove("network", "port"), Ok(()));
    assert!(!doc.has("network", "port"));
    assert!(doc.has("network", "host"));
    assert_eq!(doc.remove("network", "port"), Err(Error::NotFound));
}

#[test]
fn errors() {
    assert_eq!(Document::parse("[unterminated\n").err(), Some(Error::Syntax));
    assert_eq!(Document::parse("novalue\n").err(), Some(Error::Syntax));
}

#[test]
fn limits_enforced() {
    let mut doc = Document::with_limits(Limits {
        max_entries: Some(1),
        ..Limits::default()
    });
    doc.set("", "a", "1").unwrap();
    assert_eq!(doc.set("", "b", "2"), Err(Error::Full));
    // overwriting the existing key still works at capacity
    assert_eq!(doc.set("", "a", "2"), Ok(()));
}

#[test]
fn line_endings() {
    let doc = Document::parse("a=1\r\nb=2\rc=3").unwrap();
    assert_eq!(doc.get_int("", "a", 0), 1);
    assert_eq!(doc.get_int("", "b", 0), 2);
    assert_eq!(doc.get_int("", "c", 0), 3);
}
