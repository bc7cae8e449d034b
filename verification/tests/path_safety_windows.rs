use parx_core::path_safety::{
    check_relative, contains_path_case_insensitive, decide_links, validate_path, LinkFacts,
    PathError, PathPolicy,
};

fn clear() -> LinkFacts {
    LinkFacts { link_on_path: false, contained: true }
}

#[test]
fn validate_blocks_absolute_and_parent_traversal() {
    let root = b"C:\\data\\root";
    // absolute path should be rejected
    let abs = b"C:\\Windows\\System32\\cmd.exe";
    assert!(validate_path(root, abs, PathPolicy::default(), clear(), b"").is_err());

    // parent traversal should be rejected
    let rel = b"..\\outside.txt";
    assert!(validate_path(root, rel, PathPolicy::default(), clear(), b"").is_err());
}

#[test]
fn escape_path_is_rejected_under_either_policy() {
    for follow in [false, true] {
        let policy = PathPolicy { follow_symlinks: follow };
        assert_eq!(
            validate_path(b"/data/root", b"../escape.txt", policy, clear(), b"").unwrap_err(),
            PathError::ParentTraversal
        );
        assert_eq!(
            validate_path(b"/data/root", b"/etc/passwd", policy, clear(), b"").unwrap_err(),
            PathError::Absolute
        );
    }
}

#[test]
fn relative_paths_are_joined_to_the_root() {
    let p = validate_path(b"/data/root", b"sub/file.bin", PathPolicy::default(), clear(), b"").unwrap();
    assert_eq!(p, b"/data/root/sub/file.bin".to_vec());
    let p = validate_path(b"/data/root/", b"file.bin", PathPolicy::default(), clear(), b"").unwrap();
    assert_eq!(p, b"/data/root/file.bin".to_vec());
    let p = validate_path(b"", b"file.bin", PathPolicy::default(), clear(), b"").unwrap();
    assert_eq!(p, b"file.bin".to_vec());
}

#[test]
fn parent_traversal_needs_a_whole_component() {
    assert!(check_relative(b"a/..b/c").is_ok());
    assert!(check_relative(b"a/b../c").is_ok());
    assert!(check_relative(b"...").is_ok());
    assert!(check_relative(b"a/.../c").is_ok());
    assert!(check_relative(b"").is_ok());
    assert_eq!(check_relative(b"..").unwrap_err(), PathError::ParentTraversal);
    assert_eq!(check_relative(b"a/..").unwrap_err(), PathError::ParentTraversal);
    assert_eq!(check_relative(b"a/../b").unwrap_err(), PathError::ParentTraversal);
    assert_eq!(check_relative(b"a\\..\\b").unwrap_err(), PathError::ParentTraversal);
    assert_eq!(check_relative(b"\\share").unwrap_err(), PathError::Absolute);
    assert_eq!(check_relative(b"c:rel").unwrap_err(), PathError::Absolute);
}

#[test]
fn links_are_judged_by_policy() {
    let no_follow = PathPolicy::default();
    assert!(!no_follow.follow_symlinks);
    let follow = PathPolicy { follow_symlinks: true };
    assert_eq!(decide_links(no_follow, true, true).unwrap_err(), PathError::Symlink);
    assert!(decide_links(no_follow, false, false).is_ok());
    assert_eq!(decide_links(follow, true, false).unwrap_err(), PathError::EscapesRoot);
    assert!(decide_links(follow, true, true).is_ok());
}

#[test]
fn validate_case_insensitive_containment_when_following_symlinks() {
    let comps = |parts: &[&str]| -> Vec<Vec<u8>> {
        parts.iter().map(|p| p.as_bytes().to_vec()).collect()
    };
    let root = comps(&["C:", "Temp", "ParXCaseRoot"]);
    let child = comps(&["c:", "temp", "parxcaseroot", "SubDir", "File.txt"]);
    assert!(
        contains_path_case_insensitive(&root, &child),
        "expected containment despite case differences"
    );
    assert!(contains_path_case_insensitive(&root, &root));
    let other = comps(&["C:", "Temp", "Other", "File.txt"]);
    assert!(!contains_path_case_insensitive(&root, &other));
    let shorter = comps(&["C:", "Temp"]);
    assert!(!contains_path_case_insensitive(&root, &shorter));
    let longer_name = comps(&["C:", "Temp", "ParXCaseRootX"]);
    assert!(!contains_path_case_insensitive(&root, &longer_name));
}

#[test]
fn reject_symlink_components_when_not_following_windows() {
    let root = b"C:\\data\\root";
    // `linkdir` is a link to a directory under the root
    let rel = b"linkdir\\afile.txt";
    let policy = PathPolicy { follow_symlinks: false };
    // nothing in the text of the path speaks against it
    assert!(validate_path(root, rel, policy, clear(), b"").is_ok());
    // the link on the path does
    let linked = LinkFacts { link_on_path: true, contained: true };
    let res = validate_path(root, rel, policy, linked, b"");
    assert!(res.is_err(), "expected rejection for symlink component");
    assert_eq!(res.unwrap_err(), PathError::Symlink);
    assert_eq!(decide_links(policy, true, true).unwrap_err(), PathError::Symlink);
    // where links are followed, what counts is where the path leads
    let follow = PathPolicy { follow_symlinks: true };
    let resolved = b"C:\\data\\root\\dir\\afile.txt";
    assert_eq!(validate_path(root, rel, follow, linked, resolved).unwrap(), resolved.to_vec());
    let outside = LinkFacts { link_on_path: true, contained: false };
    assert_eq!(
        validate_path(root, rel, follow, outside, b"C:\\other\\afile.txt").unwrap_err(),
        PathError::EscapesRoot
    );
    // what the text says comes first
    assert_eq!(
        validate_path(root, b"..\\x", follow, outside, b"").unwrap_err(),
        PathError::ParentTraversal
    );
}

#[test]
fn the_place_of_a_path_follows_the_policy() {
    let clear = LinkFacts { link_on_path: false, contained: true };
    let linked = LinkFacts { link_on_path: true, contained: true };
    let no_follow = PathPolicy { follow_symlinks: false };
    let follow = PathPolicy { follow_symlinks: true };
    let resolved = b"/data/root/real/file.bin";
    // links not followed: the root joined with the path, whatever resolved says
    assert_eq!(
        validate_path(b"/data/root", b"link/file.bin", no_follow, clear, resolved).unwrap(),
        b"/data/root/link/file.bin".to_vec()
    );
    // links followed: where the path leads
    assert_eq!(
        validate_path(b"/data/root", b"link/file.bin", follow, linked, resolved).unwrap(),
        resolved.to_vec()
    );
    assert_eq!(
        validate_path(b"/data/root", b"link/file.bin", follow, clear, resolved).unwrap(),
        resolved.to_vec()
    );
}

#[test]
fn drive_prefixes_and_backslashes_count_on_every_platform() {
    assert_eq!(check_relative(b"c:notes").unwrap_err(), PathError::Absolute);
    assert_eq!(check_relative(b"Z:\\x").unwrap_err(), PathError::Absolute);
    assert!(check_relative(b"1:notes").is_ok());
    assert!(check_relative(b"ab:notes").is_ok());
    assert_eq!(check_relative(b"a\\..\\b").unwrap_err(), PathError::ParentTraversal);
}
