use fod_reports::bytes::bytes_eq;
use fod_reports::bytes::bytes_lt;
use fod_reports::cache::encode_cache;
use fod_reports::cache::parse_cache;
use fod_reports::classify::is_fod;
use fod_reports::lines::first_line;
use fod_reports::lines::split_lines;
use fod_reports::paths::attr_root_path;
use fod_reports::paths::drv_root_path;
use fod_reports::paths::file_name;
use fod_reports::store::Record;

fn b(s: &str) -> Vec<u8> {
    s.as_bytes().to_vec()
}

#[test]
fn fixed_output_derivation_is_classified() {
    let drv = b("Derive([(\"out\",\"/nix/store/abc-src.tar.gz\",\"sha256\",\"0f00\")],[],[],\"x86_64-linux\",\"builtin\")");
    assert!(is_fod(&drv));
}

#[test]
fn derivation_without_hash_is_not_classified() {
    let drv = b("Derive([(\"out\",\"/nix/store/abc-pkg\",\"\",\"\")],[],[],\"x86_64-linux\")");
    assert!(!is_fod(&drv));
}

#[test]
fn classifier_accepts_whitespace_between_tokens() {
    let drv = b("Derive( [ ( \"out\" , \"/nix/store/abc\" , \"sha256\" , \"0f00\" ) ] )");
    assert!(is_fod(&drv));
}

#[test]
fn classifier_rejects_malformed_descriptions() {
    assert!(!is_fod(&b("")));
    assert!(!is_fod(&b("Derive(")));
    assert!(!is_fod(&b("NotADerivation")));
    assert!(!is_fod(&b("Derive([(\"out\",\"/nix/store/abc\",\"sha256\")])")));
    assert!(!is_fod(&b("Derive([(\"out\",\"/nix/store/abc\",\"sha256\",\"0f00\"")));
    assert!(!is_fod(&b("Derive((\"out\",\"/nix/store/abc\",\"sha256\",\"0f00\")")));
}

#[test]
fn cache_round_trips() {
    let recs = vec![
        Record { drv: b("/nix/store/a.drv"), attr: b("pkgA") },
        Record { drv: b("/nix/store/b.drv"), attr: b("pkg.with.dots") },
    ];
    let bytes = encode_cache(&recs).unwrap();
    assert_eq!(
        bytes,
        b("{\"/nix/store/a.drv\":\"pkgA\",\"/nix/store/b.drv\":\"pkg.with.dots\"}")
    );
    let back = parse_cache(&bytes).unwrap();
    assert_eq!(back.len(), 2);
    assert_eq!(back[0].drv, recs[0].drv);
    assert_eq!(back[0].attr, recs[0].attr);
    assert_eq!(back[1].drv, recs[1].drv);
    assert_eq!(back[1].attr, recs[1].attr);
}

#[test]
fn cache_escapes_quotes_and_backslashes() {
    let recs = vec![Record { drv: b("/nix/store/a\"b\\c.drv"), attr: b("pkgA") }];
    let bytes = encode_cache(&recs).unwrap();
    assert_eq!(bytes, b("{\"/nix/store/a\\\"b\\\\c.drv\":\"pkgA\"}"));
    let back = parse_cache(&bytes).unwrap();
    assert_eq!(back[0].drv, b("/nix/store/a\"b\\c.drv"));
}

#[test]
fn cache_rejects_control_bytes() {
    let recs = vec![Record { drv: b("/nix/store/a\x01.drv"), attr: b("pkgA") }];
    assert!(encode_cache(&recs).is_none());
}

#[test]
fn empty_cache_round_trips() {
    let recs: Vec<Record> = Vec::new();
    let bytes = encode_cache(&recs).unwrap();
    assert_eq!(bytes, b("{}"));
    assert_eq!(parse_cache(&bytes).unwrap().len(), 0);
}

#[test]
fn cache_parser_accepts_whitespace() {
    let bytes = b(" {\n  \"/nix/store/a.drv\" : \"pkgA\" ,\r\n \"/d\" : \"pkgB\"\n}\n");
    let back = parse_cache(&bytes).unwrap();
    assert_eq!(back.len(), 2);
    assert_eq!(back[0].drv, b("/nix/store/a.drv"));
    assert_eq!(back[1].attr, b("pkgB"));
}

#[test]
fn cache_parser_rejects_malformed_objects() {
    assert!(parse_cache(&b("")).is_none());
    assert!(parse_cache(&b("{")).is_none());
    assert!(parse_cache(&b("[]")).is_none());
    assert!(parse_cache(&b("{\"a\":}")).is_none());
    assert!(parse_cache(&b("{\"a\":\"b\",}")).is_none());
    assert!(parse_cache(&b("{\"a\":\"b\"} trailing")).is_none());
    assert!(parse_cache(&b("{\"a\":\"b\\x\"}")).is_none());
}

#[test]
fn output_splits_into_lines() {
    let out = b("pkgA\npkgB\r\npkgC");
    let lines = split_lines(&out);
    assert_eq!(lines, vec![b("pkgA"), b("pkgB"), b("pkgC")]);
    assert_eq!(split_lines(&b("")).len(), 0);
    assert_eq!(split_lines(&b("one\n")), vec![b("one")]);
    assert_eq!(split_lines(&b("\n\n")), vec![b(""), b("")]);
    assert_eq!(split_lines(&b("end\r")), vec![b("end\r")]);
}

#[test]
fn first_line_of_command_output() {
    assert_eq!(first_line(&b("/nix/store/d.drv\nnoise")).unwrap(), b("/nix/store/d.drv"));
    assert_eq!(first_line(&b("single")).unwrap(), b("single"));
    assert!(first_line(&b("")).is_none());
}

#[test]
fn root_paths_are_built_under_their_directories() {
    assert_eq!(file_name(&b("/nix/store/abc-x.drv")), b("abc-x.drv"));
    assert_eq!(file_name(&b("plain")), b("plain"));
    assert_eq!(
        attr_root_path(&b("/tmp/roots"), &b("pkgA")),
        b("/tmp/roots/attrs/pkgA")
    );
    assert_eq!(
        drv_root_path(&b("/tmp/roots"), &b("/nix/store/abc-x.drv")),
        b("/tmp/roots/drvs/abc-x.drv")
    );
}

#[test]
fn byte_string_order_and_equality() {
    assert!(bytes_eq(&b("abc"), &b("abc")));
    assert!(!bytes_eq(&b("abc"), &b("abd")));
    assert!(!bytes_eq(&b("abc"), &b("ab")));
    assert!(bytes_lt(&b("ab"), &b("abc")));
    assert!(bytes_lt(&b("abc"), &b("abd")));
    assert!(!bytes_lt(&b("abc"), &b("abc")));
    assert!(!bytes_lt(&b("b"), &b("abc")));
}
