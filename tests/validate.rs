use fetter::exe_search::{dedup_by_identity, is_interpreter_file_name};
use fetter::manifest::DepManifest;
use fetter::package::Package;
use fetter::validate::{Environment, Outcome, Record};

fn env(pkgs: &[(&str, &str)]) -> Environment {
    Environment {
        interpreter: "/usr/bin/python3".to_string(),
        packages: pkgs.iter().map(|(n, v)| Package::from_name_and_version(n, v).unwrap()).collect(),
    }
}

fn manifest(lines: &[&str]) -> DepManifest {
    let lines: Vec<String> = lines.iter().map(|s| s.to_string()).collect();
    DepManifest::from_lines(&lines).0
}

fn keys(r: &[Record]) -> Vec<String> {
    r.iter().map(|x| x.key.clone()).collect()
}

#[test]
fn satisfied_when_constraints_hold() {
    let r = env(&[("numpy", "1.26.0")]).validate(&manifest(&["numpy>=1.20,<2.0"]));
    assert_eq!(r.len(), 1);
    assert!(matches!(r[0].outcome, Outcome::Satisfied));
    assert_eq!(r[0].spec, Some(0));
    assert_eq!(r[0].package, Some(0));
}

#[test]
fn mismatch_names_failing_constraints() {
    let r = env(&[("numpy", "1.26.0")]).validate(&manifest(&["numpy>=2.0"]));
    assert_eq!(r.len(), 1);
    match &r[0].outcome {
        Outcome::Mismatch { violated } => assert_eq!(violated, &vec![0]),
        other => panic!("unexpected {:?}", other),
    }
}

#[test]
fn missing_and_unrequired() {
    let r = env(&[("scipy", "1.11.0")]).validate(&manifest(&["pandas"]));
    assert_eq!(keys(&r), vec!["pandas".to_string(), "scipy".to_string()]);
    assert!(matches!(r[0].outcome, Outcome::Missing));
    assert_eq!(r[0].package, None);
    assert!(matches!(r[1].outcome, Outcome::Unrequired));
    assert_eq!(r[1].spec, None);
}

#[test]
fn records_sorted_by_normalized_name_and_deterministic() {
    let e = env(&[("Zope", "1.0"), ("alpha_pkg", "2.0"), ("Mid.Pkg", "0.1")]);
    let m = manifest(&["mid-pkg>=0.1", "beta", "Alpha-Pkg<1.0"]);
    let r1 = e.validate(&m);
    let r2 = e.validate(&m);
    assert_eq!(keys(&r1), vec!["alpha-pkg", "beta", "mid-pkg", "zope"]);
    assert_eq!(keys(&r1), keys(&r2));
    assert!(matches!(r1[0].outcome, Outcome::Mismatch { .. }));
    assert!(matches!(r1[1].outcome, Outcome::Missing));
    assert!(matches!(r1[2].outcome, Outcome::Satisfied));
    assert!(matches!(r1[3].outcome, Outcome::Unrequired));
}

#[test]
fn empty_inputs_give_no_records() {
    assert!(env(&[]).validate(&manifest(&[])).is_empty());
}

#[test]
fn same_interpreter_through_two_paths_counts_once() {
    let ids: Vec<String> = ["/usr/bin/python3.12", "/opt/py/bin/python3", "/usr/bin/python3.12", "/opt/py/bin/python3"]
        .iter()
        .map(|s| s.to_string())
        .collect();
    assert_eq!(dedup_by_identity(&ids), vec![0, 1]);
    assert!(dedup_by_identity(&Vec::new()).is_empty());
}

#[test]
fn interpreter_file_names() {
    for ok in ["python", "python3", "python3.12"] {
        assert!(is_interpreter_file_name(ok), "{}", ok);
    }
    for bad in ["pythonw.exe", "python3.", "python.3", "python3.1.2", "py", "python3-config", "ipython"] {
        assert!(!is_interpreter_file_name(bad), "{}", bad);
    }
}
