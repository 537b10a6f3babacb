use fetter::package::Package;

#[test]
fn test_package_a() {
    let p1 = Package::from_dist_info("matplotlib-3.9.0.dist-info").unwrap();
    assert_eq!(p1.name, "matplotlib");
    assert_eq!(p1.version.to_string(), "3.9.0");
}

#[test]
fn test_package_b() {
    assert_eq!(Package::from_dist_info("matplotlib-3.9.0.dist-in"), None);
}

#[test]
fn test_package_c() {
    let p1 = Package::from_dist_info("xarray-0.21.1.dist-info").unwrap();
    let p2 = Package::from_dist_info("xarray-2024.6.0.dist-info").unwrap();
    let p3 = Package::from_dist_info("xarray-2024.6.0.dist-info").unwrap();

    assert_eq!(p2 > p1, true);
    assert_eq!(p1 < p2, true);
    assert_eq!(p1 == p3, false);
    assert_eq!(p2 == p3, true);
}

#[test]
fn test_package_to_string_a() {
    let p1 = Package::from_dist_info("matplotlib-3.9.0.dist-info").unwrap();
    assert_eq!(p1.to_string(), "matplotlib-3.9.0");
}

#[test]
fn test_package_to_string_b() {
    let p1 = Package::from_name_and_version("matplotlib", "3.9.0").unwrap();
    assert_eq!(p1.to_string(), "matplotlib-3.9.0");
}

#[test]
fn test_package_to_string_c() {
    let p1 = Package::from_name_and_version("numpy", "2.1.2").unwrap();
    assert_eq!(p1.to_string(), "numpy-2.1.2");
    assert_eq!(p1.debug_string(), "<Package: numpy-2.1.2>");
}

#[test]
fn hyphenated_name_splits_at_last_dash() {
    let p = Package::from_dist_info("scikit-learn-1.3.0.dist-info").unwrap();
    assert_eq!(p.name, "scikit-learn");
    assert_eq!(p.version.to_string(), "1.3.0");
}

#[test]
fn name_without_version_is_rejected() {
    assert_eq!(Package::from_dist_info("matplotlib.dist-info"), None);
    assert_eq!(Package::from_dist_info("matplotlib-3.9.0"), None);
}

#[test]
fn name_order_ignores_case() {
    let a = Package::from_name_and_version("Alpha", "2.0").unwrap();
    let b = Package::from_name_and_version("beta", "1.0").unwrap();
    assert!(a < b);
    let c = Package::from_name_and_version("ALPHA", "1.0").unwrap();
    assert!(c < a);
    let lower = Package::from_name_and_version("alpha", "9.0").unwrap();
    let upper = Package::from_name_and_version("Beta", "1.0").unwrap();
    assert!(lower < upper);
    assert!(upper > lower);
}

#[test]
fn provenance_is_not_identity() {
    let a = Package::from_dist_info("numpy-1.26.0.dist-info").unwrap();
    let url = fetter::package::DirectUrl::Archive { url: "https://example.org/numpy.tar.gz".to_string() };
    let b = Package::from_file_path("numpy-1.26.0.dist-info", true, Some(url)).unwrap();
    assert!(a == b);
    assert!(b.direct_url.is_some());
}

#[test]
fn only_directories_name_packages() {
    assert_eq!(Package::from_file_path("numpy-1.26.0.dist-info", false, None), None);
}
