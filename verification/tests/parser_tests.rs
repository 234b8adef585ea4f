use minirepo::parser::{parse_command, Command};

#[test]
fn parses_new_commit() {
    assert_eq!(
        parse_command("new commit 'a' master"),
        Ok(Command::NewCommit("master".to_string(), "a".to_string()))
    );
}

#[test]
fn parses_new_commit_with_spaces_in_payload() {
    assert_eq!(
        parse_command("new commit 'a b c' master"),
        Ok(Command::NewCommit("master".to_string(), "a b c".to_string()))
    );
}

#[test]
fn parses_new_branch_with_offset() {
    assert_eq!(
        parse_command("new branch dev master~2"),
        Ok(Command::NewBranch("dev".to_string(), "master".to_string(), 2))
    );
}

#[test]
fn parses_new_branch_without_offset() {
    assert_eq!(
        parse_command("new branch dev master"),
        Ok(Command::NewBranch("dev".to_string(), "master".to_string(), 0))
    );
}

#[test]
fn parses_delete_branch() {
    assert_eq!(
        parse_command("delete branch dev"),
        Ok(Command::DeleteBranch("dev".to_string()))
    );
}

#[test]
fn extra_whitespace_is_ignored() {
    assert_eq!(
        parse_command("  new \t branch  dev   master~1  "),
        Ok(Command::NewBranch("dev".to_string(), "master".to_string(), 1))
    );
}

#[test]
fn unknown_first_token_is_an_error() {
    assert_eq!(parse_command(""), Err("Unknown first token"));
    assert_eq!(parse_command("foo"), Err("Unknown first token"));
}

#[test]
fn unexpected_second_token_is_an_error() {
    assert_eq!(parse_command("new"), Err("Unexpected second token after `new`"));
    assert_eq!(parse_command("new foo"), Err("Unexpected second token after `new`"));
    assert_eq!(parse_command("delete"), Err("Unexpected second token after `new`"));
    assert_eq!(parse_command("delete foo"), Err("Unexpected second token after `new`"));
}

#[test]
fn missing_pieces_are_reported() {
    assert_eq!(parse_command("new branch"), Err("Missing new branch"));
    assert_eq!(parse_command("new commit master"), Err("Missing payload"));
    assert_eq!(parse_command("delete branch"), Err("Missing branch to delete"));
}

#[test]
fn unreadable_offset_digits_mean_zero() {
    assert_eq!(
        parse_command("new branch dev master~x"),
        Ok(Command::NewBranch("dev".to_string(), "master".to_string(), 0))
    );
    assert_eq!(
        parse_command("new branch dev master~99999999999999999999999999"),
        Ok(Command::NewBranch("dev".to_string(), "master".to_string(), 0))
    );
    assert_eq!(
        parse_command("new branch dev master~"),
        Ok(Command::NewBranch("dev".to_string(), "master".to_string(), 0))
    );
}

#[test]
fn only_the_part_between_the_first_two_tildes_counts() {
    assert_eq!(
        parse_command("new branch dev master~2~9"),
        Ok(Command::NewBranch("dev".to_string(), "master".to_string(), 2))
    );
}

#[test]
fn a_leading_plus_sign_is_accepted_in_the_offset() {
    assert_eq!(
        parse_command("new branch dev master~+5"),
        Ok(Command::NewBranch("dev".to_string(), "master".to_string(), 5))
    );
}

#[test]
fn an_unclosed_quote_runs_to_the_end_of_the_line() {
    assert_eq!(
        parse_command("new commit 'unclosed"),
        Ok(Command::NewCommit("'unclosed".to_string(), "unclosed".to_string()))
    );
}

#[test]
fn a_lone_branch_name_is_its_own_source() {
    // with three words the last one doubles as the location
    assert_eq!(
        parse_command("new branch dev"),
        Ok(Command::NewBranch("dev".to_string(), "dev".to_string(), 0))
    );
}

#[test]
fn commit_branch_is_the_last_word() {
    assert_eq!(
        parse_command("new commit 'a' dev extra"),
        Ok(Command::NewCommit("extra".to_string(), "a".to_string()))
    );
}
