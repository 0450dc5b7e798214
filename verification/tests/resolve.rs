use grove::resolve::{file_name, resolve, slugify, ResolveError};

fn porcelain(main: &str, linked: &[&str]) -> String {
    let mut out = format!("worktree {main}\nHEAD 0123456789abcdef\nbranch refs/heads/main\n\n");
    for w in linked {
        out.push_str(&format!("worktree {w}\nHEAD 0123456789abcdef\nbranch refs/heads/x\n\n"));
    }
    out
}

#[test]
fn finds_the_main_worktree_from_inside_a_linked_worktree() {
    let main = "/tmp/fx/checkout";
    let wt = "/tmp/fx/checkout-redesign";

    let r = resolve(&porcelain(main, &[wt]), &format!("{wt}\n")).expect("resolve");

    assert_eq!(r.main_worktree, main);
    assert_eq!(r.worktree, wt);
}

#[test]
fn knows_it_is_in_the_main_worktree() {
    let main = "/tmp/fx/checkout";

    let r = resolve(&porcelain(main, &[]), main).expect("resolve");

    assert!(r.is_main(), "the main checkout must be recognised as main");
}

#[test]
fn knows_it_is_in_a_linked_worktree() {
    let main = "/tmp/fx/checkout";
    let wt = "/tmp/fx/checkout-redesign";

    let r = resolve(&porcelain(main, &[wt]), wt).expect("resolve");

    assert!(!r.is_main(), "a linked worktree must not be treated as main");
}

#[test]
fn slug_lowercases_and_underscores_the_worktree_directory_name() {
    let main = "/tmp/fx/checkout";
    let wt = "/tmp/fx/PROJ-797-Overage-Scripts";

    let r = resolve(&porcelain(main, &[wt]), wt).expect("resolve");

    assert_eq!(r.slug, "proj_797_overage_scripts");
}

#[test]
fn every_worktree_of_a_repo_shares_one_state_key() {
    let main = "/tmp/fx/checkout";
    let a = resolve(&porcelain(main, &["/tmp/fx/t1"]), main).expect("resolve main");
    let b = resolve(&porcelain(main, &["/tmp/fx/t1"]), "/tmp/fx/t1").expect("resolve t1");

    assert_eq!(a.state_key(), b.state_key());
}

#[test]
fn repos_with_the_same_directory_name_get_different_state_keys() {
    let a = resolve(&porcelain("/tmp/one/checkout", &[]), "/tmp/one/checkout").expect("resolve one");
    let b = resolve(&porcelain("/tmp/two/checkout", &[]), "/tmp/two/checkout").expect("resolve two");

    assert_eq!(file_name(&a.main_worktree), file_name(&b.main_worktree), "both repos are named the same");
    assert_ne!(a.state_key(), b.state_key());
}

#[test]
fn the_state_key_is_the_directory_name_and_a_hash_of_the_path() {
    let r = resolve(&porcelain("/tmp/one/My Checkout", &[]), "/tmp/one/My Checkout").expect("resolve");
    let key = r.state_key();

    assert!(key.starts_with("my_checkout-"), "{key}");
    let hash = &key["my_checkout-".len()..];
    assert_eq!(hash.len(), 8, "{key}");
    assert!(hash.chars().all(|c| c.is_ascii_hexdigit() && !c.is_ascii_uppercase()), "{key}");
}

#[test]
fn git_answers_that_name_no_worktree_are_refused() {
    match resolve("", "/tmp/fx/checkout") {
        Err(ResolveError::NoWorktrees) => {},
        _ => panic!("an empty worktree list cannot be resolved"),
    }
    match resolve(&porcelain("/tmp/fx/checkout", &[]), "/") {
        Err(e @ ResolveError::NoFinalComponent) => assert!(e.message().contains("final component")),
        _ => panic!("the root has no name to give an instance"),
    }
}

#[test]
fn slugs_keep_digits_and_replace_everything_else() {
    assert_eq!(slugify("Fix-Login_2"), "fix_login_2");
    assert_eq!(slugify("café"), "caf_");
    assert_eq!(file_name("/a/b/"), Some("b".to_string()));
    assert_eq!(file_name("/a/b/.."), None);
}

#[test]
fn a_slug_slugifies_to_itself() {
    for name in ["feat/Search-Box", "fix_login", "Überweisung 2", "a.b.c", ""] {
        let once = slugify(name);
        assert_eq!(slugify(&once), once, "{name:?}");
    }
}
