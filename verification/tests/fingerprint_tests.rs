//! Fingerprint derivation: determinism, and sensitivity to every part of the
//! process specification.

use nailgun_pool::fingerprint::Fingerprint;
use nailgun_pool::fingerprint::ProcessSpec;

fn strings(parts: &[&str]) -> Vec<String> {
    parts.iter().map(|p| String::from(*p)).collect()
}

fn spec_with_everything() -> ProcessSpec {
    let mut spec = ProcessSpec::new(strings(&["/bin/server", "--serve"]));
    spec.push_env(String::from("JAVA_HOME"), String::from("/opt/jdk"));
    spec.push_env(String::from("LANG"), String::from("C"));
    spec.push_input(17);
    spec.push_input(4242);
    spec
}

#[test]
fn equal_specs_give_equal_fingerprints() {
    let a = Fingerprint::compute(&spec_with_everything());
    let b = Fingerprint::compute(&spec_with_everything());
    assert!(a.matches(&b));
    assert!(b.matches(&a));
    assert!(a.matches(&a));
}

#[test]
fn computing_twice_from_one_spec_is_deterministic() {
    let spec = spec_with_everything();
    let a = Fingerprint::compute(&spec);
    let b = Fingerprint::compute(&spec);
    assert!(a.matches(&b));
}

#[test]
fn cloned_fingerprint_matches_the_original() {
    let a = Fingerprint::compute(&spec_with_everything());
    let b = a.clone();
    assert!(a.matches(&b));
}

#[test]
fn argv_difference_changes_the_fingerprint() {
    let a = Fingerprint::compute(&ProcessSpec::new(strings(&["/bin/server", "--serve"])));
    let b = Fingerprint::compute(&ProcessSpec::new(strings(&["/bin/server", "--other"])));
    let c = Fingerprint::compute(&ProcessSpec::new(strings(&["/bin/server"])));
    assert!(!a.matches(&b));
    assert!(!a.matches(&c));
}

#[test]
fn env_difference_changes_the_fingerprint() {
    let mut with_env = ProcessSpec::new(strings(&["/bin/server"]));
    with_env.push_env(String::from("LANG"), String::from("C"));
    let mut other_value = ProcessSpec::new(strings(&["/bin/server"]));
    other_value.push_env(String::from("LANG"), String::from("en_US.UTF-8"));
    let bare = ProcessSpec::new(strings(&["/bin/server"]));

    let a = Fingerprint::compute(&with_env);
    let b = Fingerprint::compute(&other_value);
    let c = Fingerprint::compute(&bare);
    assert!(!a.matches(&b));
    assert!(!a.matches(&c));
}

#[test]
fn input_content_difference_changes_the_fingerprint() {
    let mut one = ProcessSpec::new(strings(&["/bin/server"]));
    one.push_input(17);
    let mut other = ProcessSpec::new(strings(&["/bin/server"]));
    other.push_input(18);

    let a = Fingerprint::compute(&one);
    let b = Fingerprint::compute(&other);
    assert!(!a.matches(&b));
}

#[test]
fn env_binding_order_does_not_change_the_fingerprint() {
    let mut one = ProcessSpec::new(strings(&["/bin/server"]));
    one.push_env(String::from("JAVA_HOME"), String::from("/opt/jdk"));
    one.push_env(String::from("LANG"), String::from("C"));
    let mut other = ProcessSpec::new(strings(&["/bin/server"]));
    other.push_env(String::from("LANG"), String::from("C"));
    other.push_env(String::from("JAVA_HOME"), String::from("/opt/jdk"));

    let a = Fingerprint::compute(&one);
    let b = Fingerprint::compute(&other);
    assert!(a.matches(&b));
}

#[test]
fn input_digest_order_does_not_change_the_fingerprint() {
    let mut one = ProcessSpec::new(strings(&["/bin/server"]));
    one.push_input(17);
    one.push_input(4242);
    let mut other = ProcessSpec::new(strings(&["/bin/server"]));
    other.push_input(4242);
    other.push_input(17);

    let a = Fingerprint::compute(&one);
    let b = Fingerprint::compute(&other);
    assert!(a.matches(&b));
}

#[test]
fn swapping_a_name_and_a_value_changes_the_fingerprint() {
    let mut one = ProcessSpec::new(strings(&["/bin/server"]));
    one.push_env(String::from("A"), String::from("B"));
    let mut other = ProcessSpec::new(strings(&["/bin/server"]));
    other.push_env(String::from("B"), String::from("A"));

    let a = Fingerprint::compute(&one);
    let b = Fingerprint::compute(&other);
    assert!(!a.matches(&b));
}
