//! Semantic versions: parsing, ordering, range matching and rendering.

use wasmer_core::registry::{PackageId, PackageSpecifier};
use wasmer_core::resolver::registry_error_message;
use wasmer_core::version::{
    parse_range, parse_version, range_to_string, satisfies, version_lt_exec, version_to_string,
    Version,
};

fn v(s: &str) -> Version {
    parse_version(s).unwrap()
}

#[test]
fn parse_version_reads_the_triple() {
    let version = v("1.2.3");
    assert_eq!(version.major, 1);
    assert_eq!(version.minor, 2);
    assert_eq!(version.patch, 3);
    assert!(version.pre.is_empty());
    assert!(version.build.is_empty());
}

#[test]
fn parse_version_reads_pre_release_and_build() {
    let version = v("1.2.3-alpha.7+nightly");
    assert_eq!(version.pre, vec!["alpha".to_string(), "7".to_string()]);
    assert_eq!(version.build, "nightly".to_string());
}

#[test]
fn parse_version_handles_the_largest_numbers() {
    let version = v("18446744073709551615.0.0");
    assert_eq!(version.major, u64::MAX);
    assert!(parse_version("18446744073709551616.0.0").is_err());
}

#[test]
fn parse_version_rejects_bad_input() {
    assert!(parse_version("").is_err());
    assert!(parse_version("1.2").is_err());
    assert!(parse_version("1.2.x").is_err());
    assert!(parse_version("01.2.3").is_err());
    assert!(parse_version("1.2.3-").is_err());
    assert!(parse_version("1.2.3-alpha..beta").is_err());
    assert!(parse_version("1.2.3+").is_err());
}

#[test]
fn version_order_is_numeric_then_pre_release() {
    assert!(version_lt_exec(&v("1.2.3"), &v("1.2.10")));
    assert!(version_lt_exec(&v("1.9.9"), &v("2.0.0")));
    assert!(version_lt_exec(&v("1.0.0-alpha"), &v("1.0.0")));
    assert!(version_lt_exec(&v("1.0.0-alpha"), &v("1.0.0-beta")));
    assert!(version_lt_exec(&v("1.0.0-alpha.1"), &v("1.0.0-alpha.2")));
    assert!(version_lt_exec(&v("1.0.0-9"), &v("1.0.0-alpha")));
    assert!(version_lt_exec(&v("1.0.0-alpha"), &v("1.0.0-alpha.1")));
    assert!(!version_lt_exec(&v("1.0.0+b2"), &v("1.0.0+b1")));
}

#[test]
fn ranges_match_per_operator() {
    let caret = parse_range("^1.0.0").unwrap();
    assert!(satisfies(&v("1.0.0"), &caret));
    assert!(satisfies(&v("1.5.0"), &caret));
    assert!(!satisfies(&v("2.0.0"), &caret));

    let exact = parse_range("=1.0.0").unwrap();
    assert!(satisfies(&v("1.0.0"), &exact));
    assert!(!satisfies(&v("1.0.1"), &exact));

    let window = parse_range(">1.1,<1.3").unwrap();
    assert!(satisfies(&v("1.2.0"), &window));
    assert!(!satisfies(&v("1.1.5"), &window));
    assert!(!satisfies(&v("1.3.0"), &window));

    let tilde = parse_range("~1.2.3").unwrap();
    assert!(satisfies(&v("1.2.9"), &tilde));
    assert!(!satisfies(&v("1.3.0"), &tilde));

    let wildcard = parse_range("1.*").unwrap();
    assert!(satisfies(&v("1.9.9"), &wildcard));
    assert!(!satisfies(&v("2.0.0"), &wildcard));

    let any = parse_range("*").unwrap();
    assert!(any.comparators.is_empty());
    assert!(satisfies(&v("0.0.1"), &any));
    assert!(satisfies(&v("9.9.9"), &any));
}

#[test]
fn pre_releases_need_an_explicit_opt_in() {
    let plain = parse_range(">=1.0.0").unwrap();
    assert!(!satisfies(&v("1.5.0-rc.1"), &plain));
    let opted = parse_range(">=1.5.0-rc.1").unwrap();
    assert!(satisfies(&v("1.5.0-rc.2"), &opted));
}

#[test]
fn parse_range_rejects_bad_input() {
    assert!(parse_range("").is_err());
    assert!(parse_range("abc").is_err());
    assert!(parse_range(">=").is_err());
    assert!(parse_range("1.2.3.4").is_err());
}

#[test]
fn versions_render_canonically() {
    assert_eq!(version_to_string(&v("1.2.3")), "1.2.3");
    assert_eq!(version_to_string(&v("1.2.3-rc.1+b7")), "1.2.3-rc.1+b7");
    let id = PackageId {
        package_name: "pkg".to_string(),
        version: v("0.4.0"),
    };
    assert_eq!(id.to_string(), "pkg@0.4.0");
}

#[test]
fn ranges_render_canonically() {
    assert_eq!(range_to_string(&parse_range("*").unwrap()), "*");
    assert_eq!(range_to_string(&parse_range("=1.0.0").unwrap()), "=1.0.0");
    assert_eq!(
        range_to_string(&parse_range(">1.1, <1.3").unwrap()),
        ">1.1, <1.3"
    );
}

#[test]
fn registry_errors_name_the_specifier() {
    let spec = PackageSpecifier::Registry {
        full_name: "pkg".to_string(),
        version: parse_range("^1.0.0").unwrap(),
    };
    assert_eq!(
        registry_error_message(&spec),
        "Unable to find \"pkg@^1.0.0\" in the registry"
    );
    let any = PackageSpecifier::Registry {
        full_name: "pkg".to_string(),
        version: parse_range("*").unwrap(),
    };
    assert_eq!(
        registry_error_message(&any),
        "Unable to find \"pkg\" in the registry"
    );
    let url = PackageSpecifier::Url("https://example.com/pkg.webc".to_string());
    assert_eq!(
        registry_error_message(&url),
        "Unable to resolve \"https://example.com/pkg.webc\""
    );
    let path = PackageSpecifier::Path("/tmp/pkg.webc".to_string());
    assert_eq!(
        registry_error_message(&path),
        "Unable to load \"/tmp/pkg.webc\" from disk"
    );
}
