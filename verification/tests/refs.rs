use xit::error::XitError;
use xit::hexcode::is_address_text;
use xit::objects::update::{
    branch_path_of, check_name, check_reserved, create_branch, create_tag, delete_branch,
    delete_tag, list_branches, list_names, list_tags, read_reference, reference_exists, resolve,
    tag_path_of, update_branch, update_head, update_reference, update_tag,
};
use xit::path_map::PathMap;
use xit::repository::refs::{get_commit_hash, get_head_ref_path, resolve_head};
use xit::repository::repo::create_repository;

const HASH: &str = "a1b2c3d4e5f6a1b2c3d4e5f6a1b2c3d4e5f6a1b2";
const OTHER: &str = "0000000000000000000000000000000000000001";

fn refs_with(entries: &[(&str, &str)]) -> PathMap {
    let mut refs = PathMap::new();
    for (path, content) in entries {
        refs.insert(path.to_string(), content.to_string());
    }
    refs
}

#[test]
fn test_update_reference() {
    let mut refs = PathMap::new();
    let ref_path = "refs/heads/test-branch";
    let commit_hash = "a1b2c3d4e5f6a1b2c3d4e5f6a1b2c3d4e5f6a1b2";

    update_reference(&mut refs, ref_path, commit_hash).unwrap();

    let content = refs.get(ref_path).unwrap();
    assert_eq!(content, format!("{}\n", commit_hash));
}

#[test]
fn update_reference_overwrites() {
    let mut refs = refs_with(&[("refs/heads/main", "old content")]);
    update_reference(&mut refs, "refs/heads/main", OTHER).unwrap();
    assert_eq!(refs.get("refs/heads/main"), Some(format!("{}\n", OTHER).as_str()));
    assert_eq!(refs.len(), 1);
}

#[test]
fn update_reference_validates_before_writing() {
    let mut refs = refs_with(&[("refs/heads/main", "kept")]);
    let bad = |r: Result<(), XitError>| assert_eq!(r, Err(XitError::InputValidation));
    bad(update_reference(&mut refs, "", HASH));
    bad(update_reference(&mut refs, "refs/heads/main", &HASH[..39]));
    bad(update_reference(&mut refs, "refs/heads/main", &format!("{}0", HASH)));
    bad(update_reference(&mut refs, "refs/heads/main", "g1b2c3d4e5f6a1b2c3d4e5f6a1b2c3d4e5f6a1b2"));
    bad(update_reference(&mut refs, "refs/heads/main", ""));
    assert_eq!(refs.get("refs/heads/main"), Some("kept"));
    assert_eq!(refs.len(), 1);
    // upper-case digits are digits too
    update_reference(&mut refs, "x", "A1B2C3D4E5F6A1B2C3D4E5F6A1B2C3D4E5F6A1B2").unwrap();
}

#[test]
fn is_address_text_wants_forty_digits() {
    let chars = |s: &str| s.chars().collect::<Vec<char>>();
    assert!(is_address_text(&chars(HASH)));
    assert!(!is_address_text(&chars(&HASH[1..])));
    assert!(!is_address_text(&chars("")));
    assert!(!is_address_text(&chars("a1b2c3d4e5f6a1b2c3d4e5f6a1b2c3d4e5f6a1b\u{e9}")));
}

#[test]
fn update_head_writes_head_itself() {
    let mut refs = PathMap::new();
    update_head(&mut refs, HASH).unwrap();
    assert_eq!(refs.get("HEAD"), Some(format!("{}\n", HASH).as_str()));
    assert_eq!(update_head(&mut refs, "nope"), Err(XitError::InputValidation));
}

#[test]
fn branch_names_are_checked() {
    let mut refs = PathMap::new();
    let bad = |r: Result<(), XitError>| assert_eq!(r, Err(XitError::InputValidation));
    bad(update_branch(&mut refs, "", HASH));
    for name in ["a/b", "a\\b", "a:b", "a*b", "a?b", "a\"b", "a<b", "a>b", "a|b", "a b"] {
        bad(update_branch(&mut refs, name, HASH));
        bad(update_tag(&mut refs, name, HASH));
    }
    for name in ["HEAD", "ORIGIN_HEAD", "FETCH_HEAD", "MERGE_HEAD"] {
        bad(update_branch(&mut refs, name, HASH));
    }
    bad(update_branch(&mut refs, "fine", "short"));
    assert!(refs.is_empty());
    update_branch(&mut refs, "feature-1", HASH).unwrap();
    assert_eq!(refs.get("refs/heads/feature-1"), Some(format!("{}\n", HASH).as_str()));
    // a tag may have a name that a branch may not
    update_tag(&mut refs, "HEAD", HASH).unwrap();
    assert_eq!(refs.get("refs/tags/HEAD"), Some(format!("{}\n", HASH).as_str()));
    bad(update_tag(&mut refs, "", HASH));
    bad(update_tag(&mut refs, "v1", "short"));
}

#[test]
fn name_checks() {
    let chars = |s: &str| s.chars().collect::<Vec<char>>();
    assert!(check_name(&chars("main")));
    assert!(check_name(&chars("v1.0-rc_2")));
    assert!(!check_name(&chars("")));
    assert!(!check_name(&chars("with space")));
    assert!(check_reserved("HEAD"));
    assert!(check_reserved("MERGE_HEAD"));
    assert!(!check_reserved("head"));
    assert!(!check_reserved("HEAD2"));
    assert_eq!(branch_path_of("main"), "refs/heads/main");
    assert_eq!(tag_path_of("v1"), "refs/tags/v1");
}

#[test]
fn create_fails_on_what_exists() {
    let mut refs = PathMap::new();
    create_branch(&mut refs, "dev", HASH).unwrap();
    assert_eq!(create_branch(&mut refs, "dev", OTHER), Err(XitError::AlreadyExists));
    assert_eq!(refs.get("refs/heads/dev"), Some(format!("{}\n", HASH).as_str()));
    create_tag(&mut refs, "v1", HASH).unwrap();
    assert_eq!(create_tag(&mut refs, "v1", OTHER), Err(XitError::AlreadyExists));
    assert_eq!(refs.get("refs/tags/v1"), Some(format!("{}\n", HASH).as_str()));
    // a branch and a tag of the same name do not collide
    create_tag(&mut refs, "dev", OTHER).unwrap();
    assert_eq!(create_branch(&mut refs, "HEAD", HASH), Err(XitError::InputValidation));
    assert_eq!(create_branch(&mut refs, "a b", HASH), Err(XitError::InputValidation));
    assert_eq!(create_tag(&mut refs, "a b", HASH), Err(XitError::InputValidation));
    assert_eq!(create_branch(&mut refs, "new", "bad"), Err(XitError::InputValidation));
    assert_eq!(refs.len(), 3);
}

#[test]
fn delete_removes_the_pointer() {
    let mut refs = PathMap::new();
    create_branch(&mut refs, "dev", HASH).unwrap();
    create_tag(&mut refs, "v1", HASH).unwrap();
    assert_eq!(delete_branch(&mut refs, "missing"), Err(XitError::NotFound));
    assert_eq!(delete_branch(&mut refs, ""), Err(XitError::InputValidation));
    assert_eq!(delete_tag(&mut refs, "missing"), Err(XitError::NotFound));
    assert_eq!(delete_tag(&mut refs, ""), Err(XitError::InputValidation));
    assert_eq!(refs.len(), 2);
    delete_branch(&mut refs, "dev").unwrap();
    assert!(!reference_exists(&refs, "refs/heads/dev"));
    assert!(reference_exists(&refs, "refs/tags/v1"));
    delete_tag(&mut refs, "v1").unwrap();
    assert!(refs.is_empty());
    assert_eq!(delete_branch(&mut refs, "dev"), Err(XitError::NotFound));
}

#[test]
fn resolve_reads_an_address_between_white_space() {
    let refs = refs_with(&[
        ("plain", HASH),
        ("line", &format!("{}\n", HASH)),
        ("padded", &format!(" \t{}\r\n\n", HASH)),
        ("short", "abc\n"),
        ("empty", ""),
        ("words", &format!("{} {}", HASH, HASH)),
        ("nothex", "z1b2c3d4e5f6a1b2c3d4e5f6a1b2c3d4e5f6a1b2\n"),
    ]);
    assert_eq!(resolve(&refs, "plain"), Ok(Some(HASH.to_string())));
    assert_eq!(resolve(&refs, "line"), Ok(Some(HASH.to_string())));
    assert_eq!(resolve(&refs, "padded"), Ok(Some(HASH.to_string())));
    assert_eq!(resolve(&refs, "absent"), Ok(None));
    assert_eq!(resolve(&refs, ""), Ok(None));
    assert_eq!(resolve(&refs, "short"), Err(XitError::CorruptRef));
    assert_eq!(resolve(&refs, "empty"), Err(XitError::CorruptRef));
    assert_eq!(resolve(&refs, "words"), Err(XitError::CorruptRef));
    assert_eq!(resolve(&refs, "nothex"), Err(XitError::CorruptRef));
}

#[test]
fn a_pointer_resolves_to_what_it_was_set_to() {
    let mut refs = PathMap::new();
    update_reference(&mut refs, "refs/heads/main", HASH).unwrap();
    assert_eq!(resolve(&refs, "refs/heads/main"), Ok(Some(HASH.to_string())));
    assert_eq!(read_reference(&refs, "refs/heads/main"), Ok(HASH.to_string()));
    assert_eq!(get_commit_hash(&refs, "refs/heads/main"), Ok(HASH.to_string()));
}

#[test]
fn read_reference_tells_missing_from_corrupt() {
    let refs = refs_with(&[("good", &format!("{}\n", HASH)), ("bad", "garbage")]);
    assert_eq!(read_reference(&refs, ""), Err(XitError::InputValidation));
    assert_eq!(read_reference(&refs, "missing"), Err(XitError::NotFound));
    assert_eq!(read_reference(&refs, "bad"), Err(XitError::CorruptRef));
    assert_eq!(read_reference(&refs, "good"), Ok(HASH.to_string()));
    assert_eq!(get_commit_hash(&refs, ""), Err(XitError::NotFound));
    assert_eq!(get_commit_hash(&refs, "missing"), Err(XitError::NotFound));
    assert_eq!(get_commit_hash(&refs, "bad"), Err(XitError::CorruptRef));
}

#[test]
fn reference_exists_knows_no_empty_path() {
    let refs = refs_with(&[("", "x"), ("HEAD", "y")]);
    assert!(!reference_exists(&refs, ""));
    assert!(reference_exists(&refs, "HEAD"));
    assert!(!reference_exists(&refs, "head"));
}

#[test]
fn listing_is_sorted_and_flat() {
    let mut refs = refs_with(&[
        ("HEAD", "ref: refs/heads/main\n"),
        ("refs/heads/zeta", HASH),
        ("refs/heads/alpha", HASH),
        ("refs/heads/Beta", HASH),
        ("refs/heads/group/nested", HASH),
        ("refs/heads/", HASH),
        ("refs/headsx", HASH),
        ("refs/tags/v2", HASH),
        ("refs/tags/v10", HASH),
    ]);
    assert_eq!(list_branches(&refs), vec!["Beta", "alpha", "zeta"]);
    assert_eq!(list_tags(&refs), vec!["v10", "v2"]);
    assert_eq!(list_names(&refs, "refs/"), vec!["headsx"]);
    delete_branch(&mut refs, "alpha").unwrap();
    assert_eq!(list_branches(&refs), vec!["Beta", "zeta"]);
    assert!(list_branches(&PathMap::new()).is_empty());
    assert!(list_tags(&PathMap::new()).is_empty());
}

#[test]
fn head_names_a_reference() {
    let refs = refs_with(&[("HEAD", "ref: refs/heads/main\n")]);
    assert_eq!(get_head_ref_path(&refs), Ok("refs/heads/main".to_string()));
    let padded = refs_with(&[("HEAD", "ref: refs/heads/dev  \r\n\n")]);
    assert_eq!(get_head_ref_path(&padded), Ok("refs/heads/dev".to_string()));
    let bare = refs_with(&[("HEAD", "ref: ")]);
    assert_eq!(get_head_ref_path(&bare), Ok("".to_string()));
    let spaced = refs_with(&[("HEAD", "ref:  two")]);
    assert_eq!(get_head_ref_path(&spaced), Ok(" two".to_string()));
}

#[test]
fn a_detached_or_missing_head_is_an_error() {
    assert_eq!(get_head_ref_path(&PathMap::new()), Err(XitError::NotFound));
    let detached = refs_with(&[("HEAD", &format!("{}\n", HASH))]);
    assert_eq!(get_head_ref_path(&detached), Err(XitError::CorruptRef));
    assert_eq!(resolve_head(&detached), Err(XitError::CorruptRef));
    let wrong = refs_with(&[("HEAD", "ref:refs/heads/main\n")]);
    assert_eq!(get_head_ref_path(&wrong), Err(XitError::CorruptRef));
    let empty = refs_with(&[("HEAD", "")]);
    assert_eq!(get_head_ref_path(&empty), Err(XitError::CorruptRef));
    assert_eq!(resolve_head(&PathMap::new()), Err(XitError::NotFound));
}

#[test]
fn head_resolves_through_its_branch() {
    let mut refs = refs_with(&[("HEAD", "ref: refs/heads/main\n")]);
    assert_eq!(resolve_head(&refs), Ok(None));
    update_branch(&mut refs, "main", HASH).unwrap();
    assert_eq!(resolve_head(&refs), Ok(Some(HASH.to_string())));
    refs.insert("refs/heads/main".to_string(), "broken".to_string());
    assert_eq!(resolve_head(&refs), Err(XitError::CorruptRef));
}

#[test]
fn a_new_repository_has_no_commit() {
    let repo = create_repository();
    assert_eq!(repo.refs.get("HEAD"), Some("ref: refs/heads/main\n"));
    assert_eq!(repo.refs.len(), 1);
    assert_eq!(get_head_ref_path(&repo.refs), Ok("refs/heads/main".to_string()));
    assert_eq!(resolve_head(&repo.refs), Ok(None));
    assert_eq!(repo.objects.len(), 0);
    assert!(repo.index.is_none());
    assert_eq!(
        repo.config.as_deref(),
        Some("[core]\n\trepositoryformatversion = 0\n\tfilemode = true\n\tbare = false\n")
    );
}
