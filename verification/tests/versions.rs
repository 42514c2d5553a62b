use buffrs_resolver::pick::{highest_position, highest_satisfying_all, meets_all};
use buffrs_resolver::version::{exact_req, Version, VersionReq};

fn version(text: &str) -> Version {
    Version::parse(text).unwrap()
}

fn req(text: &str) -> VersionReq {
    VersionReq::parse(text).unwrap()
}

fn reqs(texts: &[&str]) -> Vec<VersionReq> {
    texts.iter().map(|t| req(t)).collect()
}

fn versions(texts: &[&str]) -> Vec<Version> {
    texts.iter().map(|t| version(t)).collect()
}

#[test]
fn versions_are_read_and_written() {
    for text in [
        "0.0.0",
        "1.2.3",
        "18446744073709551615.0.0",
        "1.0.0-alpha",
        "1.0.0-alpha.1",
        "1.0.0-0.3.7",
        "1.0.0+build.001",
        "1.0.0-rc.1+exp.sha-5114f85",
    ] {
        assert_eq!(version(text).to_text(), text);
    }
    assert!(Version::new(1, 2, 3).same(&version("1.2.3")));
}

#[test]
fn texts_that_are_no_versions_are_refused() {
    for text in [
        "",
        "1",
        "1.2",
        "1.2.3.4",
        "v1.2.3",
        " 1.2.3",
        "01.2.3",
        "1.2.3-",
        "1.2.3+",
        "1.2.3-01",
        "1.2.3-a..b",
        "18446744073709551616.0.0",
    ] {
        let e = Version::parse(text).err().unwrap();
        assert_eq!(e.text, text);
    }
}

#[test]
fn versions_differ_in_every_part() {
    assert!(version("1.0.0-a+b").same(&version("1.0.0-a+b")));
    assert!(!version("1.0.0-a+b").same(&version("1.0.0-a+c")));
    assert!(!version("1.0.0-a+b").same(&version("1.0.0-b+b")));
    assert!(!version("1.0.0").same(&version("1.0.1")));
}

#[test]
fn versions_are_ordered() {
    let ascending = versions(&[
        "0.9.9",
        "1.0.0-alpha",
        "1.0.0-alpha.1",
        "1.0.0-beta.2",
        "1.0.0-beta.11",
        "1.0.0",
        "1.0.0+build",
        "1.0.1",
        "1.2.0",
        "1.10.0",
        "2.0.0",
    ]);
    for i in 0..ascending.len() {
        for j in 0..ascending.len() {
            assert_eq!(ascending[i].is_before(&ascending[j]), i < j);
        }
    }
}

#[test]
fn requirements_are_read_and_written() {
    assert_eq!(req("^1.1.0").to_text(), "^1.1.0");
    assert_eq!(req("<=1.2.0").to_text(), "<=1.2.0");
    assert_eq!(req("1.2").to_text(), "^1.2");
    assert_eq!(req(">=1.2.3,<1.8.0").to_text(), ">=1.2.3, <1.8.0");
    assert_eq!(req("*").to_text(), "*");
    assert_eq!(VersionReq::star().to_text(), "*");
    assert_eq!(req("=1.2.3+build").to_text(), "=1.2.3");
    assert_eq!(VersionReq::parse("one").err().unwrap().text, "one");
    assert!(VersionReq::parse("").is_err());
}

#[test]
fn requirements_admit_versions() {
    assert!(req("^1.0.0").matches(&version("1.5.0")));
    assert!(!req("^1.0.0").matches(&version("2.0.0")));
    assert!(req("~1.2.0").matches(&version("1.2.9")));
    assert!(!req("~1.2.0").matches(&version("1.3.0")));
    assert!(req("<=1.2.0").matches(&version("1.2.0")));
    assert!(!req("^1.0.0").matches(&version("1.5.0-rc.1")));
    assert!(VersionReq::star().matches(&version("0.0.1")));
    assert!(VersionReq::star().matches(&version("0.0.1+b")));
    assert!(!VersionReq::star().matches(&version("1.0.0-rc.1")));
}

#[test]
fn exact_requirement_admits_one_release() {
    let v = version("1.2.3-rc.1+build");
    let exact = exact_req(&v);
    assert_eq!(exact.to_text(), "=1.2.3-rc.1");
    assert!(exact.matches(&v));
    assert!(exact.matches(&version("1.2.3-rc.1")));
    assert!(!exact.matches(&version("1.2.3")));
    assert!(!exact.matches(&version("1.2.4")));
    assert_eq!(exact_req(&Version::new(1, 2, 0)).to_text(), "=1.2.0");
    assert!(!exact_req(&Version::new(1, 2, 0)).matches(&version("1.3.0")));
}

#[test]
fn highest_version_that_meets_every_requirement_is_chosen() {
    let all = versions(&["1.0.0", "1.5.0", "1.2.0", "1.2.0", "2.0.0-rc.1"]);
    let pick = |texts: &[&str]| highest_satisfying_all(&all, &reqs(texts)).map(|v| v.to_text());
    assert_eq!(pick(&["^1.0.0"]).unwrap(), "1.5.0");
    assert_eq!(pick(&["^1.0.0", "<=1.2.0"]).unwrap(), "1.2.0");
    assert_eq!(pick(&["<=1.2.0", "^1.0.0", "^1.0.0"]).unwrap(), "1.2.0");
    assert_eq!(pick(&[]).unwrap(), "2.0.0-rc.1");
    assert!(pick(&["^1.0.0", "^2.0.0"]).is_none());
    assert_eq!(highest_position(&all, &reqs(&["<=1.2.0"])), Some(2));
    assert_eq!(highest_position(&vec![], &reqs(&[])), None);
    assert!(meets_all(&reqs(&["^1.0.0", "<=1.2.0"]), &version("1.2.0")));
    assert!(!meets_all(&reqs(&["^1.0.0", "<=1.2.0"]), &version("1.5.0")));
}

#[test]
fn choice_goes_by_which_versions_there_are() {
    let forward = versions(&["1.0.0", "1.2.0", "1.5.0"]);
    let backward = versions(&["1.5.0", "1.2.0", "1.0.0", "1.2.0"]);
    let wanted = reqs(&["^1.0.0", "<1.5.0"]);
    let again = reqs(&["<1.5.0", "^1.0.0", "<1.5.0"]);
    assert!(highest_satisfying_all(&forward, &wanted)
        .unwrap()
        .same(&highest_satisfying_all(&backward, &again).unwrap()));
}

#[test]
fn further_requirements_never_raise_the_choice() {
    let all = versions(&["1.0.0", "1.2.0", "1.5.0"]);
    let texts = ["^1.0.0", "<1.5.0", "*", "<1.2.0"];
    let mut wanted: Vec<VersionReq> = vec![];
    let mut last: Option<Version> = None;
    for text in texts {
        wanted.push(req(text));
        let now = highest_satisfying_all(&all, &wanted).unwrap();
        if let Some(before) = &last {
            assert!(!before.is_before(&now));
        }
        last = Some(now);
    }
    assert_eq!(last.unwrap().to_text(), "1.0.0");
}

#[test]
fn choice_stands_while_it_fits() {
    let all = versions(&["1.0.0", "1.2.0", "1.5.0"]);
    let before = highest_satisfying_all(&all, &reqs(&["<1.5.0"])).unwrap();
    let after = highest_satisfying_all(&all, &reqs(&["<1.5.0", "^1.0.0", ">=1.1.0"])).unwrap();
    assert!(before.same(&after));
    assert_eq!(after.to_text(), "1.2.0");
}
