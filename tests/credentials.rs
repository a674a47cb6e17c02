use drips::credentials::{aws_creds_list, classify_line, Identity, LineClass};

fn lines(text: &[&str]) -> Vec<String> {
    text.iter().map(|l| l.to_string()).collect()
}

fn identity(name: &str, key: &str, secret: &str) -> Identity {
    Identity {
        name: name.to_string(),
        access_key: key.to_string(),
        secret_key: secret.to_string(),
    }
}

#[test]
fn parses_blocks_in_order() {
    let creds = aws_creds_list(lines(&[
        "[work]",
        "aws_access_key_id = AKIA1",
        "aws_secret_access_key = s3cr3t1",
        "",
        "[personal]",
        "aws_access_key_id=AKIA2",
        "  aws_secret_access_key   =   s3cr3t2  ",
    ]));
    assert_eq!(
        creds,
        vec![identity("work", "AKIA1", "s3cr3t1"), identity("personal", "AKIA2", "s3cr3t2")]
    );
}

#[test]
fn key_before_any_header_is_dropped() {
    let creds = aws_creds_list(lines(&[
        "aws_access_key_id = ORPHAN",
        "[work]",
        "aws_access_key_id = AKIA1",
        "aws_secret_access_key = s1",
    ]));
    assert_eq!(creds, vec![identity("work", "AKIA1", "s1")]);
}

#[test]
fn lines_without_equals_are_skipped() {
    let creds = aws_creds_list(lines(&[
        "[work]",
        "aws_access_key_id",
        "garbage line",
        "aws_access_key_id = K",
        "region = us-east-1",
        "aws_secret_access_key = S",
    ]));
    assert_eq!(creds, vec![identity("work", "K", "S")]);
}

#[test]
fn incomplete_block_gives_nothing() {
    let creds = aws_creds_list(lines(&["[work]", "aws_access_key_id = K"]));
    assert!(creds.is_empty());
    assert!(aws_creds_list(Vec::new()).is_empty());
}

#[test]
fn duplicate_profile_names_keep_the_last() {
    let creds = aws_creds_list(lines(&[
        "[a]",
        "aws_access_key_id = K1",
        "aws_secret_access_key = S1",
        "[b]",
        "aws_access_key_id = KB",
        "aws_secret_access_key = SB",
        "[a]",
        "aws_access_key_id = K2",
        "aws_secret_access_key = S2",
    ]));
    assert_eq!(creds, vec![identity("b", "KB", "SB"), identity("a", "K2", "S2")]);
}

#[test]
fn second_pair_in_one_section_replaces_the_first() {
    let creds = aws_creds_list(lines(&[
        "[a]",
        "aws_access_key_id = K1",
        "aws_secret_access_key = S1",
        "aws_secret_access_key = S2",
        "aws_access_key_id = K2",
    ]));
    assert_eq!(creds, vec![identity("a", "K2", "S2")]);
}

#[test]
fn secret_first_and_other_lines_inside_a_block() {
    let creds = aws_creds_list(lines(&[
        "[a]",
        "region = eu-west-1",
        "aws_secret_access_key = S",
        "# note",
        "aws_access_key_id = K",
        "output = json",
        "[b]",
        "aws_access_key_id = KB",
        "aws_secret_access_key = SB",
    ]));
    assert_eq!(creds, vec![identity("a", "K", "S"), identity("b", "KB", "SB")]);
}

#[test]
fn header_discards_a_half_gathered_pair() {
    let creds = aws_creds_list(lines(&[
        "[a]",
        "aws_access_key_id = KA",
        "[b]",
        "aws_secret_access_key = SB",
    ]));
    assert!(creds.is_empty());
}

#[test]
fn parsing_twice_gives_the_same_identities() {
    let text = lines(&[
        "[x]",
        "aws_access_key_id = K",
        "aws_secret_access_key = S",
    ]);
    assert_eq!(aws_creds_list(text.clone()), aws_creds_list(text));
}

#[test]
fn classifies_lines() {
    assert_eq!(classify_line(&"[pro[d]]".to_string()), LineClass::Header("prod".to_string()));
    assert_eq!(classify_line(&"  [dev]  ".to_string()), LineClass::Header("dev".to_string()));
    assert_eq!(
        classify_line(&"aws_access_key_id = a = b".to_string()),
        LineClass::AccessKey("a".to_string())
    );
    assert_eq!(
        classify_line(&"aws_secret_access_key =\tx y\t".to_string()),
        LineClass::SecretKey("x y".to_string())
    );
    assert_eq!(classify_line(&"aws_secret_access_key".to_string()), LineClass::Other);
    assert_eq!(classify_line(&"output = json".to_string()), LineClass::Other);
    assert_eq!(classify_line(&"".to_string()), LineClass::Other);
}

#[test]
fn keys_before_any_header_set_nothing() {
    let creds = aws_creds_list(lines(&[
        "aws_secret_access_key = EARLY",
        "aws_access_key_id = EARLYKEY",
        "[work]",
        "aws_secret_access_key = S",
        "aws_access_key_id = K",
    ]));
    assert_eq!(creds, vec![identity("work", "K", "S")]);
}
