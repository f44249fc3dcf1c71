use fod_reports::outcome::exit_code;
use fod_reports::outcome::is_fatal;
use fod_reports::outcome::Failure;
use fod_reports::protocol::discovery_action;
use fod_reports::protocol::DiscoveryAction;
use fod_reports::protocol::Step;
use fod_reports::protocol::VerifyTask;
use fod_reports::report::FodResult;
use fod_reports::store::Record;
use fod_reports::report::Report;
use fod_reports::store::DedupStore;

fn b(s: &str) -> Vec<u8> {
    s.as_bytes().to_vec()
}

const FOD: &[u8] = b"Derive([(\"out\",\"/nix/store/zz-src\",\"sha256\",\"abcd\")],[],[],\"x86_64-linux\")";
const NON_FOD: &[u8] = b"Derive([(\"out\",\"/nix/store/zz-pkg\",\"\",\"\")],[],[],\"x86_64-linux\")";

#[test]
fn register_first_writer_wins() {
    let mut store = DedupStore::new();
    assert!(store.register_if_absent(&b("/nix/store/d.drv"), &b("pkgA")));
    assert!(!store.register_if_absent(&b("/nix/store/d.drv"), &b("pkgB")));
    assert_eq!(store.len(), 1);
    assert_eq!(store.owner_of(&b("/nix/store/d.drv")).unwrap(), &b("pkgA"));
}

#[test]
fn shared_derivation_recorded_once() {
    // pkgA and pkgB both transitively require derivation D.
    let mut store = DedupStore::new();
    let d = b("/nix/store/D.drv");
    let reqs_a = vec![b("/nix/store/a.drv"), d.clone()];
    let reqs_b = vec![b("/nix/store/b.drv"), d.clone()];
    store.merge_requisites(&b("pkgA"), &reqs_a);
    store.merge_requisites(&b("pkgB"), &reqs_b);
    assert_eq!(store.len(), 3);
    assert_eq!(store.owner_of(&d).unwrap(), &b("pkgA"));
    // Exactly one result for D can ever be aggregated.
    let mut report = Report::new();
    assert!(report.insert(FodResult { attr: b("pkgA"), drv: d.clone(), reproducible: true }));
    assert!(!report.insert(FodResult { attr: b("pkgB"), drv: d.clone(), reproducible: false }));
    assert_eq!(report.len(), 1);
}

#[test]
fn duplicate_root_is_skipped() {
    let mut store = DedupStore::new();
    let d = b("/nix/store/D.drv");
    store.merge_requisites(&b("pkgA"), &vec![d.clone()]);
    assert_eq!(discovery_action(&store, Some(&d)), DiscoveryAction::SkipDuplicate);
    assert_eq!(
        discovery_action(&store, Some(&b("/nix/store/E.drv"))),
        DiscoveryAction::Expand
    );
    assert_eq!(discovery_action(&store, None), DiscoveryAction::SkipFailed);
}

#[test]
fn seeded_cache_skips_requery_and_grows() {
    let mut store = DedupStore::new();
    let cached = vec![Record { drv: b("/nix/store/c.drv"), attr: b("oldpkg") }];
    store.seed(&cached);
    // A cached derivation is not expanded again.
    assert_eq!(
        discovery_action(&store, Some(&b("/nix/store/c.drv"))),
        DiscoveryAction::SkipDuplicate
    );
    // Later discovery only grows the mapping; the cached record stays.
    store.merge_requisites(&b("newpkg"), &vec![b("/nix/store/n.drv"), b("/nix/store/c.drv")]);
    assert_eq!(store.owner_of(&b("/nix/store/c.drv")).unwrap(), &b("oldpkg"));
    assert_eq!(store.owner_of(&b("/nix/store/n.drv")).unwrap(), &b("newpkg"));
    assert_eq!(store.len(), 2);
}

#[test]
fn reproducible_verdict_from_matching_realizations() {
    let mut t = VerifyTask::new(b("pkgA"), b("/nix/store/D.drv"));
    t.probe(true);
    t.classify(Some(&FOD.to_vec()));
    assert_eq!(t.current_step(), Step::Realise);
    t.realised(true);
    t.check(true);
    assert!(t.delete(true, true));
    assert_eq!(t.result(), Some(true));
}

#[test]
fn differing_realizations_are_reported() {
    let mut t = VerifyTask::new(b("pkgA"), b("/nix/store/D.drv"));
    t.probe(false);
    t.reinstantiated(true);
    t.classify(Some(&FOD.to_vec()));
    t.realised(true);
    t.check(false);
    t.delete(true, true);
    assert_eq!(t.result(), Some(false));
    let mut report = Report::new();
    report.insert(FodResult { attr: t.attr.clone(), drv: t.drv.clone(), reproducible: false });
    let bad = report.non_reproducible();
    assert_eq!(bad.len(), 1);
    assert_eq!(bad[0].drv, b("/nix/store/D.drv"));
    assert_eq!(bad[0].attr, b("pkgA"));
}

#[test]
fn no_result_for_derivation_without_hash() {
    let mut t = VerifyTask::new(b("pkgA"), b("/nix/store/D.drv"));
    t.probe(true);
    t.classify(Some(&NON_FOD.to_vec()));
    assert_eq!(t.current_step(), Step::Done);
    assert_eq!(t.result(), None);
}

#[test]
fn unreadable_description_counts_as_non_fod() {
    let mut t = VerifyTask::new(b("pkgA"), b("/nix/store/D.drv"));
    t.probe(true);
    t.classify(None);
    assert_eq!(t.current_step(), Step::Done);
    assert_eq!(t.result(), None);
}

#[test]
fn failed_realization_yields_no_result() {
    let mut t = VerifyTask::new(b("pkgA"), b("/nix/store/D.drv"));
    t.probe(true);
    t.classify(Some(&FOD.to_vec()));
    t.realised(false);
    assert_eq!(t.current_step(), Step::Done);
    assert_eq!(t.result(), None);
}

#[test]
fn report_is_deterministic_in_insert_order() {
    let one = || FodResult { attr: b("pkgA"), drv: b("/nix/store/a.drv"), reproducible: false };
    let two = || FodResult { attr: b("pkgB"), drv: b("/nix/store/b.drv"), reproducible: true };
    let three = || FodResult { attr: b("pkgC"), drv: b("/nix/store/c.drv"), reproducible: false };
    let mut r1 = Report::new();
    r1.insert(one());
    r1.insert(two());
    r1.insert(three());
    let mut r2 = Report::new();
    r2.insert(three());
    r2.insert(one());
    r2.insert(two());
    let b1 = r1.non_reproducible();
    let b2 = r2.non_reproducible();
    assert_eq!(b1.len(), 2);
    assert_eq!(b1.len(), b2.len());
    for (x, y) in b1.iter().zip(b2.iter()) {
        assert_eq!(x.attr, y.attr);
        assert_eq!(x.drv, y.drv);
        assert_eq!(x.reproducible, y.reproducible);
    }
    assert_eq!(b1[0].drv, b("/nix/store/a.drv"));
    assert_eq!(b1[1].drv, b("/nix/store/c.drv"));
}

#[test]
fn report_keeps_the_first_result_for_a_derivation() {
    let mut report = Report::new();
    assert!(report.insert(FodResult {
        attr: b("pkgA"),
        drv: b("/nix/store/d.drv"),
        reproducible: true,
    }));
    assert!(!report.insert(FodResult {
        attr: b("pkgB"),
        drv: b("/nix/store/d.drv"),
        reproducible: false,
    }));
    assert_eq!(report.len(), 1);
    assert_eq!(report.non_reproducible().len(), 0);
}

#[test]
fn new_task_starts_at_probe_with_no_verdict() {
    let t = VerifyTask::new(b("pkgA"), b("/nix/store/d.drv"));
    assert_eq!(t.current_step(), Step::Probe);
    assert_eq!(t.result(), None);
    assert_eq!(t.attr, b("pkgA"));
    assert_eq!(t.drv, b("/nix/store/d.drv"));
}

#[test]
fn enumeration_failure_is_fatal() {
    assert!(is_fatal(&Failure::Enumeration));
    assert_eq!(exit_code(Some(&Failure::Enumeration)), 1);
    assert!(is_fatal(&Failure::CacheRead));
    assert!(is_fatal(&Failure::CacheParse));
    assert!(is_fatal(&Failure::CacheWrite));
    assert_eq!(exit_code(None), 0);
}

#[test]
fn one_bad_attribute_does_not_stop_the_rest() {
    assert!(!is_fatal(&Failure::Instantiate));
    assert!(!is_fatal(&Failure::Requisites));
    assert!(!is_fatal(&Failure::Realise));
    assert!(!is_fatal(&Failure::Release));
    assert!(!is_fatal(&Failure::Delete));
    assert!(!is_fatal(&Failure::Classify));
    // One attribute of fifty fails to instantiate: the other forty-nine
    // still get their derivations discovered and processed.
    let mut store = DedupStore::new();
    for i in 0..50u32 {
        let attr = b(&format!("pkg{}", i));
        let inst = if i == 17 { None } else { Some(b(&format!("/nix/store/drv{}.drv", i))) };
        match inst {
            Some(d) => {
                assert_eq!(discovery_action(&store, Some(&d)), DiscoveryAction::Expand);
                store.merge_requisites(&attr, &vec![d.clone()]);
            }
            None => {
                assert_eq!(discovery_action(&store, None), DiscoveryAction::SkipFailed);
                assert!(!is_fatal(&Failure::Instantiate));
            }
        }
    }
    assert_eq!(store.len(), 49);
    let mut report = Report::new();
    for rec in store.records().iter() {
        let mut t = VerifyTask::new(rec.attr.clone(), rec.drv.clone());
        t.probe(true);
        t.classify(Some(&FOD.to_vec()));
        t.realised(true);
        t.check(true);
        t.delete(true, true);
        if let Some(rep) = t.result() {
            report.insert(FodResult { attr: t.attr, drv: t.drv, reproducible: rep });
        }
    }
    assert_eq!(report.len(), 49);
    assert_eq!(report.non_reproducible().len(), 0);
}
