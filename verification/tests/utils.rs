use spr::command_status_result;
use spr::build_pr_stack_message;
use spr::get_pr_stack;
use spr::needs_parent_stack;
use spr::parse_name_list;
use spr::parse_pr_stack_list;
use spr::remove_all_parens;
use spr::slugify;
use spr::Error;

#[test]
fn test_empty() {
    assert_eq!(slugify(""), "".to_string());
}

#[test]
fn test_hello_world() {
    assert_eq!(slugify(" Hello  World! "), "hello-world".to_string());
}

#[test]
fn test_accents() {
    assert_eq!(slugify("ĥêlļō ŵöřľď"), "hello-world".to_string());
}

#[test]
fn test_parse_name_list_empty() {
    assert!(parse_name_list("").is_empty());
    assert!(parse_name_list(" ").is_empty());
    assert!(parse_name_list("  ").is_empty());
    assert!(parse_name_list("   ").is_empty());
    assert!(parse_name_list("\n").is_empty());
    assert!(parse_name_list(" \n ").is_empty());
}

#[test]
fn test_parse_name_single_name() {
    assert_eq!(parse_name_list("foo"), vec!["foo".to_string()]);
    assert_eq!(parse_name_list("foo  "), vec!["foo".to_string()]);
    assert_eq!(parse_name_list("  foo"), vec!["foo".to_string()]);
    assert_eq!(parse_name_list("  foo  "), vec!["foo".to_string()]);
    assert_eq!(parse_name_list("foo (Foo Bar)"), vec!["foo".to_string()]);
    assert_eq!(parse_name_list("  foo (Foo Bar)  "), vec!["foo".to_string()]);
    assert_eq!(parse_name_list(" () (-)foo (Foo Bar)  (xx)"), vec!["foo".to_string()]);
}

#[test]
fn test_parse_name_multiple_names() {
    let expected = vec!["foo".to_string(), "bar".to_string(), "baz".to_string()];
    assert_eq!(parse_name_list("foo,bar,baz"), expected);
    assert_eq!(parse_name_list("foo, bar, baz"), expected);
    assert_eq!(parse_name_list("foo , bar , baz"), expected);
    assert_eq!(parse_name_list("foo (Mr Foo), bar (Ms Bar), baz (Dr Baz)"), expected);
    assert_eq!(
        parse_name_list("foo (Mr Foo) bar (Ms Bar) (the other one), baz (Dr Baz)"),
        expected
    );
}

#[test]
fn test_parse_pr_stack_list_empty() {
    assert!(parse_pr_stack_list("").is_empty());
    assert!(parse_pr_stack_list("\n").is_empty());
}

#[test]
fn test_parse_pr_stack_list_single_pr() {
    assert_eq!(
        parse_pr_stack_list("https://github.com/mk1123/spr/pull/42 <-- (current PR)"),
        vec![42]
    );
}

#[test]
fn test_parse_pr_stack_list_multiple_prs() {
    assert_eq!(
        parse_pr_stack_list(
            "https://github.com/mk1123/spr/pull/1 <-- (current PR)\n\
             https://github.com/mk1123/spr/pull/2\n\
             https://github.com/mk1123/spr/pull/3"
        ),
        vec![1, 2, 3]
    );
}

#[test]
fn test_parse_pr_stack_list_with_extra_text() {
    assert_eq!(
        parse_pr_stack_list(
            "https://github.com/mk1123/spr/pull/1 <-- (current PR)\n\
             https://github.com/mk1123/spr/pull/2 (some extra text)\n\
             https://github.com/mk1123/spr/pull/3 [more text]"
        ),
        vec![1, 2, 3]
    );
}

#[test]
fn slug_collapses_hyphen_runs() {
    assert_eq!(slugify("a--b  c"), "a-b-c".to_string());
    assert_eq!(slugify("Hello_World42"), "hello_world42".to_string());
    assert_eq!(slugify(" --x "), "-x".to_string());
    assert_eq!(slugify("   "), "".to_string());
}

#[test]
fn slug_is_idempotent() {
    for input in ["", " Hello  World! ", "ĥêlļō ŵöřľď", "a--b  c", "-x_9-"] {
        let once = slugify(input);
        assert_eq!(slugify(&once), once);
    }
}

#[test]
fn slug_keeps_only_branch_safe_characters() {
    let s = slugify("Fix: crash (#123) when loading café/menu!");
    assert!(s.chars().all(|c| c.is_ascii_lowercase() || c.is_ascii_digit() || c == '_' || c == '-'));
    assert!(!s.contains("--"));
    assert_eq!(s, "fix-crash-123-when-loading-cafemenu");
}

#[test]
fn name_list_keeps_order_and_drops_annotations() {
    assert_eq!(
        parse_name_list("zeta (Z), alpha (A), mid"),
        vec!["zeta".to_string(), "alpha".to_string(), "mid".to_string()]
    );
    let unclosed = parse_name_list("foo (unclosed");
    assert_eq!(unclosed, vec!["foo (unclosed".to_string()]);
}

#[test]
fn remove_all_parens_strips_both_kinds() {
    assert_eq!(remove_all_parens("a(b)c"), "abc".to_string());
    assert_eq!(remove_all_parens("((nested))"), "nested".to_string());
    assert_eq!(remove_all_parens("none"), "none".to_string());
    assert_eq!(remove_all_parens(""), "".to_string());
}

#[test]
fn build_message_renders_expected_block() {
    let msg = build_pr_stack_message(&vec![1, 2, 3], "mk1123", "spr");
    assert_eq!(
        msg,
        "https://github.com/mk1123/spr/pull/1 <-- (current PR)\n\
         https://github.com/mk1123/spr/pull/2\n\
         https://github.com/mk1123/spr/pull/3"
    );
    let single = build_pr_stack_message(&vec![42], "o", "r");
    assert_eq!(single, "https://github.com/o/r/pull/42 <-- (current PR)");
}

#[test]
fn stack_round_trips_through_text() {
    let numbers: Vec<u64> = vec![9, 4, 4, 18446744073709551615];
    let msg = build_pr_stack_message(&numbers, "owner", "repo");
    assert_eq!(parse_pr_stack_list(&msg), numbers);
}

#[test]
fn decode_tolerates_crlf_and_plus() {
    assert_eq!(
        parse_pr_stack_list("https://github.com/o/r/pull/1\r\nhttps://github.com/o/r/pull/2"),
        vec![1, 2]
    );
    assert_eq!(parse_pr_stack_list("https://github.com/o/r/pull/+42"), vec![42]);
}

#[test]
fn decode_skips_unparseable_lines() {
    assert_eq!(
        parse_pr_stack_list(
            "https://github.com/o/r/pull/99999999999999999999999\n\
             https://github.com/o/r/pull/\n\
             no url here\n\
             \n\
             https://github.com/o/r/pull/7"
        ),
        vec![7]
    );
}

#[test]
fn shortcut_stack_is_singleton() {
    let parent: Vec<u64> = vec![7, 8];
    let expected = "https://github.com/o/r/pull/42 <-- (current PR)";
    assert_eq!(get_pr_stack(42, true, false, &parent, "o", "r"), expected);
    assert_eq!(get_pr_stack(42, false, true, &parent, "o", "r"), expected);
    assert_eq!(get_pr_stack(42, true, true, &parent, "o", "r"), expected);
    assert!(!needs_parent_stack(true, false));
    assert!(!needs_parent_stack(false, true));
    assert!(needs_parent_stack(false, false));
}

#[test]
fn stacked_change_prepends_current_pr() {
    let parent: Vec<u64> = vec![2, 3];
    let msg = get_pr_stack(1, false, false, &parent, "mk1123", "spr");
    assert_eq!(parse_pr_stack_list(&msg), vec![1, 2, 3]);
}

#[test]
fn command_failure_is_reported() {
    assert_eq!(command_status_result(true), Ok(()));
    assert_eq!(command_status_result(false), Err(Error::CommandFailed));
}
