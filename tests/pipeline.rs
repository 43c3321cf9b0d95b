use std::cmp::Ordering;

use remove_old_arch_pkgs::filename::is_signature_path;
use remove_old_arch_pkgs::mediate::{candidates, parse_answer, settle, Choice};
use remove_old_arch_pkgs::run::settle_all;
use remove_old_arch_pkgs::options::AutoConfirmLevel;
use remove_old_arch_pkgs::outcome::{finish, sort_paths};
use remove_old_arch_pkgs::package::{Package, ParseError};
use remove_old_arch_pkgs::resolve::{resolve_paths, PackageGroup, ResolveError};
use remove_old_arch_pkgs::version::{compare_bytes, compare_segments, Segment};

fn bytes(paths: &[&str]) -> Vec<Vec<u8>> {
    paths.iter().map(|p| p.as_bytes().to_vec()).collect()
}

fn strings(v: &[Vec<u8>]) -> Vec<String> {
    v.iter().map(|p| String::from_utf8(p.clone()).unwrap()).collect()
}

struct Run {
    kept: Vec<String>,
    removed: Vec<String>,
    ignored: Vec<String>,
}

/// Runs the whole decision pipeline, answering the prompts from `answers`.
fn run(paths: &[&str], level: AutoConfirmLevel, answers: &[&str]) -> Run {
    let res = resolve_paths(&bytes(paths), level.is_everything()).ok().unwrap();
    let mut kept = Vec::new();
    let mut removed = res.removed;
    let mut ignored = res.ignored;
    let mut next = answers.iter();
    for g in res.groups {
        let cands = candidates(g);
        let choice = if cands.len() > 1 && level.is_at_least_ambiguities() {
            parse_answer(next.next().unwrap().as_bytes(), cands.len()).unwrap()
        } else {
            Choice::KeepAll
        };
        let s = settle(&cands, level, choice);
        kept.extend(s.kept);
        removed.extend(s.removed);
        ignored.extend(s.ignored);
    }
    let out = finish(&res.signatures, kept, removed, ignored);
    let mut kept = strings(&out.kept);
    kept.sort();
    Run { kept, removed: strings(&out.removed), ignored: strings(&out.ignored) }
}

/// Runs the pipeline through `settle_all`, answering the prompts from `answers`.
fn run_all(paths: &[&str], level: AutoConfirmLevel, answers: &[&str]) -> Run {
    let res = resolve_paths(&bytes(paths), level.is_everything()).ok().unwrap();
    let mut groups = Vec::new();
    let mut choices = Vec::new();
    let mut next = answers.iter();
    for g in res.groups {
        let cands = candidates(g);
        let choice = if cands.len() > 1 && level.is_at_least_ambiguities() {
            parse_answer(next.next().unwrap().as_bytes(), cands.len()).unwrap()
        } else {
            Choice::KeepAll
        };
        groups.push(cands);
        choices.push(choice);
    }
    let out = settle_all(&groups, level, &choices, &res.signatures, res.removed, res.ignored);
    let mut kept = strings(&out.kept);
    kept.sort();
    Run { kept, removed: strings(&out.removed), ignored: strings(&out.ignored) }
}

#[test]
fn whole_run_matches_step_by_step() {
    let sig = "/cache/foo-1.0-1-x86_64.pkg.tar.xz.sig";
    let paths = [OLD, sig, NEW, TIE_B, "/cache/junk", "/cache/bar-1-1-any.pkg.tar.xz"];
    for level in [AutoConfirmLevel::Removal, AutoConfirmLevel::Nothing] {
        let a = run(&paths, level, &[]);
        let b = run_all(&paths, level, &[]);
        assert_eq!(a.kept, b.kept);
        assert_eq!(a.removed, b.removed);
        assert_eq!(a.ignored, b.ignored);
    }
    let b = run_all(&[TIE_A, TIE_B], AutoConfirmLevel::Ambiguities, &["i"]);
    assert_eq!(b.ignored, vec![TIE_A.to_string(), TIE_B.to_string()]);
}

#[test]
fn order_violation_is_reported() {
    let best = pkg("/cache/foo-1.0-1-any.pkg.tar.xz");
    let group = PackageGroup {
        best,
        ambiguous: vec![
            pkg("/cache/foo-2.0-1-any.pkg.tar.xz"),
            pkg("/cache/foo-1.0-1-any.pkg.tar.zst"),
            pkg("/cache/foo-0.9-1-any.pkg.tar.xz"),
        ],
    };
    assert_eq!(strings(&group.outranking()), vec!["/cache/foo-2.0-1-any.pkg.tar.xz".to_string()]);
    let res = resolve_paths(&bytes(&[OLD, NEW]), false).ok().unwrap();
    assert!(res.groups[0].outranking().is_empty());
}

#[test]
fn equal_versions_are_both_kept_below_interactive_level() {
    let res = resolve_paths(&bytes(&[TIE_A, TIE_B]), false).ok().unwrap();
    assert!(res.removed.is_empty());
    let r = run_all(&[TIE_A, TIE_B], AutoConfirmLevel::Nothing, &[]);
    assert_eq!(r.kept, vec![TIE_A.to_string(), TIE_B.to_string()]);
    assert!(r.removed.is_empty() && r.ignored.is_empty());
}

#[test]
fn answer_with_plus_sign() {
    assert_eq!(parse_answer(b"+1", 3), Some(Choice::Keep(1)));
    assert_eq!(parse_answer(b"+", 3), None);
    assert_eq!(parse_answer(b"++1", 3), None);
}

const OLD: &str = "/cache/foo-1.0-1-x86_64.pkg.tar.xz";
const NEW: &str = "/cache/foo-1.1-1-x86_64.pkg.tar.xz";

#[test]
fn newer_version_supersedes_older() {
    let r = run(&[OLD, NEW], AutoConfirmLevel::Removal, &[]);
    assert_eq!(r.removed, vec![OLD.to_string()]);
    assert_eq!(r.kept, vec![NEW.to_string()]);
    assert!(r.ignored.is_empty());
}

#[test]
fn order_of_paths_does_not_matter() {
    let r = run(&[NEW, OLD], AutoConfirmLevel::Removal, &[]);
    assert_eq!(r.removed, vec![OLD.to_string()]);
    assert_eq!(r.kept, vec![NEW.to_string()]);
}

#[test]
fn signature_of_old_package_is_removed_with_it() {
    let sig = "/cache/foo-1.0-1-x86_64.pkg.tar.xz.sig";
    let r = run(&[OLD, sig, NEW], AutoConfirmLevel::Removal, &[]);
    assert_eq!(r.removed, vec![OLD.to_string(), sig.to_string()]);
    assert_eq!(r.kept, vec![NEW.to_string()]);
    assert!(r.ignored.is_empty());
}

#[test]
fn signature_of_kept_package_stays() {
    let sig = "/cache/foo-1.1-1-x86_64.pkg.tar.xz.sig";
    let r = run(&[OLD, NEW, sig], AutoConfirmLevel::Removal, &[]);
    assert_eq!(r.removed, vec![OLD.to_string()]);
    assert!(r.ignored.is_empty());
}

#[test]
fn signature_without_package_is_ignored() {
    let sig = "/cache/bar-2.0-1-x86_64.pkg.tar.zst.sig";
    let r = run(&[NEW, sig], AutoConfirmLevel::Removal, &[]);
    assert!(r.removed.is_empty());
    assert_eq!(r.ignored, vec![sig.to_string()]);
}

const TIE_A: &str = "/cache/foo-1.0-1-x86_64.pkg.tar.xz";
const TIE_B: &str = "/cache/foo-1.0-1-x86_64.pkg.tar.zst";

#[test]
fn operator_keeps_second_listed_candidate() {
    let r = run(&[TIE_A, TIE_B], AutoConfirmLevel::Ambiguities, &["1"]);
    assert_eq!(r.kept.len(), 1);
    assert_eq!(r.removed.len(), 1);
    assert!(r.ignored.is_empty());
    // Equal version strings keep the order in which the candidates were gathered.
    let res = resolve_paths(&bytes(&[TIE_A, TIE_B]), false).ok().unwrap();
    let cands = candidates(res.groups.into_iter().next().unwrap());
    let second = String::from_utf8(cands[1].path.clone()).unwrap();
    assert_eq!(r.kept, vec![second]);
}

#[test]
fn operator_ignores_whole_group() {
    let r = run(&[TIE_A, TIE_B], AutoConfirmLevel::Ambiguities, &["i"]);
    assert!(r.kept.is_empty());
    assert!(r.removed.is_empty());
    assert_eq!(r.ignored, vec![TIE_A.to_string(), TIE_B.to_string()]);
}

#[test]
fn ambiguous_group_is_kept_without_prompt() {
    let r = run(&[TIE_A, TIE_B], AutoConfirmLevel::Removal, &[]);
    assert_eq!(r.kept, vec![TIE_A.to_string(), TIE_B.to_string()]);
    assert!(r.removed.is_empty());
}

#[test]
fn unparseable_file_is_ignored() {
    let bad = "/cache/foo-1.0-1.pkg.tar.xz";
    let r = run(&[bad, NEW], AutoConfirmLevel::Removal, &[]);
    assert_eq!(r.ignored, vec![bad.to_string()]);
    assert_eq!(r.kept, vec![NEW.to_string()]);
    assert!(r.removed.is_empty());
}

#[test]
fn kept_set_is_stable_on_rerun() {
    let paths = [
        OLD,
        NEW,
        "/cache/bar-2.0-1-any.pkg.tar.zst",
        "/cache/bar-2.0-2-any.pkg.tar.zst",
        "/cache/readme.txt",
    ];
    let first = run(&paths, AutoConfirmLevel::Removal, &[]);
    let kept: Vec<&str> = first.kept.iter().map(|s| s.as_str()).collect();
    let second = run(&kept, AutoConfirmLevel::Removal, &[]);
    assert_eq!(second.kept, first.kept);
    assert!(second.removed.is_empty());
}

#[test]
fn review_all_shows_older_versions() {
    let r = run(&[OLD, NEW], AutoConfirmLevel::Everything, &["0"]);
    assert_eq!(r.kept, vec![NEW.to_string()]);
    assert_eq!(r.removed, vec![OLD.to_string()]);
}

#[test]
fn duplicate_path_is_an_error() {
    match resolve_paths(&bytes(&[OLD, NEW, OLD]), false) {
        Err(ResolveError::DuplicatePath(p)) => assert_eq!(p, OLD.as_bytes().to_vec()),
        Ok(_) => panic!("duplicate accepted"),
    }
}

#[test]
fn parses_name_with_hyphens() {
    let p = Package::from_path(b"/m/lib32-gcc-libs-13.2.1-3-x86_64.pkg.tar.zst").ok().unwrap();
    assert_eq!(p.name, b"lib32-gcc-libs".to_vec());
    assert_eq!(p.version, b"13.2.1-3".to_vec());
    assert_eq!(p.segments.len(), 4);
}

#[test]
fn parse_errors() {
    match Package::from_path(b"/m/foo-1.0-x-x86_64.pkg.tar.xz") {
        Err(ParseError::NotAPackage(p)) => assert_eq!(p, b"/m/foo-1.0-x-x86_64.pkg.tar.xz".to_vec()),
        _ => panic!("non-numeric release accepted"),
    }
    match Package::from_path(b"/m/foo-\xff-1-x86_64.pkg.tar.xz") {
        Err(ParseError::BadVersion(_)) => {}
        _ => panic!("version that is not text accepted"),
    }
    assert!(Package::from_path(b"/m/foo-abc-1-x86_64.pkg.tar.xz").is_ok());
    assert!(Package::from_path(b"/m/foo-1.0-1-x86_64.tar.xz").is_err());
    assert!(Package::from_path(b"/m/foo-1.0-1-x86_64.pkg.tar.").is_err());
}

fn pkg(path: &str) -> Package {
    Package::from_path(path.as_bytes()).ok().unwrap()
}

#[test]
fn comparator_orders_numbers() {
    let a = pkg("/m/linux-5.3.1-1-x86_64.pkg.tar.xz");
    let b = pkg("/m/linux-5.10-1-x86_64.pkg.tar.xz");
    assert_eq!(Package::compare_versions(&a, &b), Ordering::Less);
    assert_eq!(Package::compare_versions(&b, &a), Ordering::Greater);
    assert_eq!(Package::compare_versions(&a, &a), Ordering::Equal);
    let c = pkg("/m/linux-5.3.1-2-x86_64.pkg.tar.xz");
    assert_eq!(Package::compare_versions(&a, &c), Ordering::Less);
}

#[test]
fn comparator_longer_version_is_greater() {
    let a = vec![Segment::Number(1), Segment::Number(0)];
    let b = vec![Segment::Number(1), Segment::Number(0), Segment::Number(1)];
    assert_eq!(compare_segments(&a, &b), Ordering::Less);
    assert_eq!(compare_segments(&b, &a), Ordering::Greater);
}

#[test]
fn comparator_number_against_text_is_equal() {
    let a = vec![Segment::Number(5), Segment::Number(3)];
    let b = vec![Segment::Number(5), Segment::Text(b"arch".to_vec())];
    assert_eq!(compare_segments(&a, &b), Ordering::Equal);
}

#[test]
fn comparator_text_is_lexical() {
    let a = vec![Segment::Number(1), Segment::Text(b"alpha".to_vec())];
    let b = vec![Segment::Number(1), Segment::Text(b"beta".to_vec())];
    assert_eq!(compare_segments(&a, &b), Ordering::Less);
    assert_eq!(compare_bytes(b"ab", b"abc"), Ordering::Less);
}

#[test]
fn answers() {
    assert_eq!(parse_answer(b"", 3), Some(Choice::Keep(0)));
    assert_eq!(parse_answer(b"i", 3), Some(Choice::IgnoreAll));
    assert_eq!(parse_answer(b"2", 3), Some(Choice::Keep(2)));
    assert_eq!(parse_answer(b"3", 3), None);
    assert_eq!(parse_answer(b"x", 3), None);
    assert_eq!(parse_answer(b"99999999999999999999999", 3), None);
}

#[test]
fn signatures_are_recognised() {
    assert!(is_signature_path(b"/m/a-1-1-any.pkg.tar.xz.sig"));
    assert!(!is_signature_path(b"/m/a-1-1-any.pkg.tar.xz"));
}

#[test]
fn paths_sort_ascending() {
    let v = sort_paths(bytes(&["b", "a", "ab"]));
    assert_eq!(strings(&v), vec!["a".to_string(), "ab".to_string(), "b".to_string()]);
}
