use fetter::version::{Operator, VersionSpec};
use std::cmp::Ordering;

fn v(s: &str) -> VersionSpec {
    VersionSpec::parse(s)
}

#[test]
fn release_segments_compare_numerically() {
    assert_eq!(v("1.9.0").compare(&v("1.10.0")), Some(Ordering::Less));
    assert_eq!(v("1.10.0").compare(&v("2024.6.0")), Some(Ordering::Less));
    assert_eq!(v("1.9.0").compare(&v("2024.6.0")), Some(Ordering::Less));
    assert_eq!(v("2024.6.0").compare(&v("1.9.0")), Some(Ordering::Greater));
}

#[test]
fn shorter_release_is_zero_padded() {
    assert_eq!(v("1.0").compare(&v("1.0.0")), Some(Ordering::Equal));
    assert_eq!(v("1.0.1").compare(&v("1.0")), Some(Ordering::Greater));
}

#[test]
fn pre_post_dev_order() {
    let order = ["1.0.dev1", "1.0a1", "1.0a2.dev3", "1.0a2", "1.0b2", "1.0rc1", "1.0", "1.0.post1.dev2", "1.0.post1", "1.1"];
    for i in 0..order.len() {
        for j in 0..order.len() {
            let expected = i.cmp(&j);
            assert_eq!(v(order[i]).compare(&v(order[j])), Some(expected), "{} vs {}", order[i], order[j]);
        }
    }
}

#[test]
fn canonical_text_round_trips() {
    for s in ["3.9.0", "1.0rc1", "2.2.post1", "1.0a1.dev4", "0", "2024.6.0"] {
        assert_eq!(v(s).to_string(), s);
    }
}

#[test]
fn unparseable_versions_stay_raw() {
    let a = v("1.0-custom");
    assert!(matches!(a, VersionSpec::Raw { .. }));
    assert_eq!(a.to_string(), "1.0-custom");
    assert_eq!(a.compare(&v("1.0-custom")), Some(Ordering::Equal));
    assert_eq!(a.compare(&v("1.0-other")), None);
    assert_eq!(a.compare(&v("1.0")), None);
    assert_eq!(v("1.0").compare(&a), None);
    assert!(matches!(v("01.2"), VersionSpec::Raw { .. }));
    assert!(matches!(v(""), VersionSpec::Raw { .. }));
    assert!(matches!(v("99999999999999999999"), VersionSpec::Raw { .. }));
}

#[test]
fn compatible_release() {
    assert!(v("2.2.post1").satisfies(Operator::Compatible, &v("2.2")));
    assert!(!v("3.0.0").satisfies(Operator::Compatible, &v("2.2")));
    assert!(v("1.4.5").satisfies(Operator::Compatible, &v("1.4.2")));
    assert!(!v("1.3.9").satisfies(Operator::Compatible, &v("1.4.2")));
    assert!(v("2.9").satisfies(Operator::Compatible, &v("2.2")));
    assert!(!v("1.4.1").satisfies(Operator::Compatible, &v("1.4.2")));
}

#[test]
fn relational_operators() {
    let x = v("1.26.0");
    assert!(x.satisfies(Operator::Ge, &v("1.20")));
    assert!(x.satisfies(Operator::Lt, &v("2.0")));
    assert!(!x.satisfies(Operator::Ge, &v("2.0")));
    assert!(x.satisfies(Operator::Eq, &v("1.26")));
    assert!(!x.satisfies(Operator::Ne, &v("1.26.0")));
    assert!(x.satisfies(Operator::Le, &v("1.26.0")));
    assert!(x.satisfies(Operator::Gt, &v("1.25.9")));
}

#[test]
fn arbitrary_equality_compares_text() {
    assert!(v("1.0").satisfies(Operator::Arbitrary, &v("1.0")));
    assert!(!v("1.0").satisfies(Operator::Arbitrary, &v("1.0.0")));
    assert!(v("foo-bar").satisfies(Operator::Arbitrary, &v("foo-bar")));
}

#[test]
fn local_labels_order_last() {
    let p = |s: &str| fetter::package::Package::from_name_and_version("x", s).unwrap();
    assert!(p("1.0") < p("1.0+abc"));
    assert!(p("1.0+abc") < p("1.0+abd"));
    assert!(p("1.0+9") < p("1.0+10"));
    assert!(p("1.0+zzz") < p("1.1"));
    assert!(p("1.0+abc") < p("1.0+abc.1"));
    assert!(p("1.0+abc") < p("1.0+5"));
    assert!(p("1.0rc1+zzz") < p("1.0"));
    assert_eq!(v("1.0+ubuntu.2").to_string(), "1.0+ubuntu.2");
    assert_eq!(v("1.0+abc").compare(&v("1.0+abc")), Some(Ordering::Equal));
    assert_eq!(v("1.0+abc").compare(&v("1.0.0+abc")), Some(Ordering::Equal));
    assert!(matches!(v("1.0+abc"), VersionSpec::Release { .. }));
    for bad in ["1.0+", "1.0+a..b", "1.0+a-b", "1.0+01", "1.0+.a"] {
        assert!(matches!(v(bad), VersionSpec::Raw { .. }), "{}", bad);
    }
}
