use garc::installer::{merge_hook_contents, replace_marked_block, HOOK_SNIPPET, MANAGED_END, MANAGED_START};

#[test]
fn installer_is_idempotent_and_preserves_existing_content() {
    let once = merge_hook_contents("#!/bin/sh\n\necho custom\n");
    let twice = merge_hook_contents(&once);
    assert_eq!(once, twice);
    assert!(twice.contains("echo custom"));
    assert_eq!(twice.matches(HOOK_SNIPPET.trim()).count(), 1);
    assert_eq!(once, format!("#!/bin/sh\n\necho custom\n\n{}", HOOK_SNIPPET));
}

#[test]
fn blank_hook_gets_shebang_and_block() {
    assert_eq!(
        merge_hook_contents(""),
        format!("#!/bin/sh\n\n{}", HOOK_SNIPPET)
    );
    assert_eq!(
        merge_hook_contents("   \n\t"),
        format!("#!/bin/sh\n\n{}", HOOK_SNIPPET)
    );
}

#[test]
fn hook_without_shebang_is_given_one() {
    assert_eq!(
        merge_hook_contents("\n\necho hi\n"),
        format!("#!/bin/sh\n\necho hi\n\n{}", HOOK_SNIPPET)
    );
}

#[test]
fn marked_block_is_replaced_in_place() {
    let existing = format!("#!/bin/sh\n{MANAGED_START}\nold body\n{MANAGED_END}\necho after\n");
    assert_eq!(
        replace_marked_block(&existing, MANAGED_START, MANAGED_END, "NEW\n"),
        "#!/bin/sh\n\nNEW\n\necho after\n"
    );
    assert_eq!(
        replace_marked_block("S x E", "S", "E", "R"),
        "R\n"
    );
    assert_eq!(replace_marked_block("S x E tail", "S", "E", "R"), "R\n\ntail\n");
    assert_eq!(replace_marked_block("head S x E", "S", "E", "R"), "head\n\nR\n");
}

#[test]
fn markers_out_of_order_append_a_block() {
    assert_eq!(
        replace_marked_block("E then S", "S", "E", "R\n"),
        "E then S\n\nR\n"
    );
    assert_eq!(replace_marked_block("  \n", "S", "E", "R  "), "R\n");
}

#[test]
fn rerunning_with_text_after_the_block_changes_nothing() {
    let hook = format!("#!/bin/sh\necho before\n\n{HOOK_SNIPPET}\necho after\n\n");
    let once = merge_hook_contents(&hook);
    assert_eq!(
        once,
        format!("#!/bin/sh\necho before\n\n{HOOK_SNIPPET}\necho after\n")
    );
    assert_eq!(merge_hook_contents(&once), once);
    assert_eq!(once.matches(MANAGED_START).count(), 1);
    assert_eq!(once.matches(MANAGED_END).count(), 1);
}
