use fetter::dep_spec::{DepSpec, RequirementError};
use fetter::manifest::DepManifest;
use fetter::name::normalize;
use fetter::package::Package;
use fetter::version::Operator;

#[test]
fn normalization_ignores_case_and_separators() {
    assert_eq!(normalize("My_Package.Name"), normalize("my-package-name"));
    assert_eq!(normalize("My_Package.Name"), "my-package-name");
    assert_eq!(normalize("a__-.b"), "a-b");
    let once = normalize("Foo.._Bar");
    assert_eq!(normalize(&once), once);
}

#[test]
fn parses_constraints_in_order() {
    let d = DepSpec::parse("numpy >= 1.20, <2.0").unwrap();
    assert_eq!(d.name, "numpy");
    assert_eq!(d.constraints.len(), 2);
    assert_eq!(d.constraints[0].op, Operator::Ge);
    assert_eq!(d.constraints[0].version.to_string(), "1.20");
    assert_eq!(d.constraints[1].op, Operator::Lt);
    assert_eq!(d.constraints[1].version.to_string(), "2.0");
}

#[test]
fn parses_extras_markers_and_bare_names() {
    let d = DepSpec::parse("requests[socks]~=2.31; python_version > '3.8'").unwrap();
    assert_eq!(d.name, "requests");
    assert_eq!(d.extras, "socks");
    assert_eq!(d.constraints.len(), 1);
    assert_eq!(d.constraints[0].op, Operator::Compatible);
    let e = DepSpec::parse("pandas").unwrap();
    assert_eq!(e.name, "pandas");
    assert!(e.constraints.is_empty());
    let f = DepSpec::parse("pkg===1.0+local").unwrap();
    assert_eq!(f.constraints[0].op, Operator::Arbitrary);
}

#[test]
fn refused_requirement_lines() {
    assert_eq!(DepSpec::parse("numpy~1.0").unwrap_err(), RequirementError::UnknownOperator);
    assert_eq!(DepSpec::parse("num%py>=1").unwrap_err(), RequirementError::InvalidName);
    assert_eq!(DepSpec::parse(">=1.0").unwrap_err(), RequirementError::InvalidName);
    assert_eq!(DepSpec::parse("numpy[extra").unwrap_err(), RequirementError::UnclosedExtras);
    assert_eq!(DepSpec::parse("numpy>=").unwrap_err(), RequirementError::MissingVersion);
    assert_eq!(DepSpec::parse("numpy>=1.0,").unwrap_err(), RequirementError::UnknownOperator);
    assert_eq!(DepSpec::parse("num py>=1").unwrap_err(), RequirementError::InvalidName);
    assert_eq!(DepSpec::parse("  num\tpy").unwrap_err(), RequirementError::InvalidName);
    assert_eq!(DepSpec::parse("  numpy  [x] >= 1.0 ").unwrap().name, "numpy");
}

#[test]
fn matching_normalizes_names() {
    let d = DepSpec::parse("Scikit_Learn>=1.0").unwrap();
    let p = Package::from_dist_info("scikit-learn-1.3.0.dist-info").unwrap();
    assert!(d.matches(&p));
    let q = Package::from_dist_info("scikit-learn-0.9.dist-info").unwrap();
    assert!(!d.matches(&q));
    assert_eq!(d.violated(&q.version), vec![0]);
    let other = Package::from_dist_info("numpy-1.3.0.dist-info").unwrap();
    assert!(!d.matches(&other));
}

#[test]
fn manifest_skips_comments_collects_errors_and_later_wins() {
    let lines: Vec<String> = ["# base", "", "numpy>=1.20", "pandas", "bad%name", "NumPy<2.0", "  # indented comment"]
        .iter()
        .map(|s| s.to_string())
        .collect();
    let (m, errors) = DepManifest::from_lines(&lines);
    assert_eq!(errors, vec![(4, RequirementError::InvalidName)]);
    assert_eq!(m.specs.len(), 2);
    let j = m.lookup("numpy").unwrap();
    assert_eq!(m.specs[j].name, "NumPy");
    assert_eq!(m.specs[j].constraints[0].op, Operator::Lt);
    assert!(m.lookup("pandas").is_some());
    assert!(m.lookup("scipy").is_none());
}

#[test]
fn merge_lets_the_later_manifest_win() {
    let base: Vec<String> = vec!["numpy>=1.20".to_string(), "pandas".to_string()];
    let over: Vec<String> = vec!["numpy>=2.0".to_string(), "scipy".to_string()];
    let (a, _) = DepManifest::from_lines(&base);
    let (b, _) = DepManifest::from_lines(&over);
    let m = a.merge(b);
    assert_eq!(m.specs.len(), 3);
    let j = m.lookup("numpy").unwrap();
    assert_eq!(m.specs[j].constraints[0].version.to_string(), "2.0");
    assert!(m.lookup("pandas").is_some());
    assert!(m.lookup("scipy").is_some());
}
