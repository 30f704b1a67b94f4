use wc_envc::engine::ProcessMode;
use wc_envc::gitignore::missing_from_gitignore;
use wc_envc::plan::{plan_invocation, InvocationPlan};
use wc_envc::scanner::{
    count_variables, default_output_name, find_env_files, is_encrypted_env_file, is_plain_env_file,
};
use wc_envc::setenv::{export_line, parse_env_file};

#[test]
fn test_is_plain_env_file() {
    assert!(is_plain_env_file(b".env"));
    assert!(is_plain_env_file(b".env.local"));
    assert!(is_plain_env_file(b".env.production"));
    assert!(!is_plain_env_file(b".env.enc"));
    assert!(!is_plain_env_file(b".env.local.enc"));
    assert!(!is_plain_env_file(b"readme.md"));
}

#[test]
fn test_is_encrypted_env_file() {
    assert!(is_encrypted_env_file(b".env.enc"));
    assert!(is_encrypted_env_file(b".env.local.enc"));
    assert!(is_encrypted_env_file(b".env.encrypted"));
    assert!(!is_encrypted_env_file(b".env"));
    assert!(!is_encrypted_env_file(b".env.local"));
}

#[test]
fn test_default_output_name() {
    let encrypt = default_output_name(b".env", ProcessMode::Encrypt);
    assert_eq!(encrypt, b".env.enc".to_vec());

    let decrypt = default_output_name(b".env.enc", ProcessMode::Decrypt);
    assert_eq!(decrypt, b".env".to_vec());
}

#[test]
fn test_derive_no_suffix_unchanged() {
    assert_eq!(default_output_name(b".env.local", ProcessMode::Decrypt), b".env.local".to_vec());
}

#[test]
fn test_derive_encrypted_suffix() {
    assert_eq!(default_output_name(b".env.encrypted", ProcessMode::Decrypt), b".env".to_vec());
}

#[test]
fn test_derive_pairing() {
    for name in [b".env".as_slice(), b".env.local", b".env.production"] {
        let derived = default_output_name(name, ProcessMode::Encrypt);
        let back = default_output_name(&derived, ProcessMode::Decrypt);
        assert_eq!(back, name.to_vec());
    }
}

#[test]
fn test_classify_exclusive() {
    for name in [
        b".env".as_slice(),
        b".env.enc",
        b".env.encrypted",
        b".env.local",
        b"readme.md",
        b".environment.enc",
        b"",
    ] {
        assert!(!(is_plain_env_file(name) && is_encrypted_env_file(name)));
    }
}

#[test]
fn test_find_env_files_filters_and_sorts() {
    let names = vec![
        b"readme.md".to_vec(),
        b".env.local".to_vec(),
        b".env.enc".to_vec(),
        b".env".to_vec(),
        b"src".to_vec(),
    ];
    let plain = find_env_files(&names, ProcessMode::Encrypt);
    assert_eq!(plain, vec![b".env".to_vec(), b".env.local".to_vec()]);
    let encrypted = find_env_files(&names, ProcessMode::Decrypt);
    assert_eq!(encrypted, vec![b".env.enc".to_vec()]);
}

#[test]
fn test_find_env_files_keeps_duplicates() {
    let names = vec![b".env".to_vec(), b".env".to_vec()];
    let plain = find_env_files(&names, ProcessMode::Encrypt);
    assert_eq!(plain, vec![b".env".to_vec(), b".env".to_vec()]);
}

#[test]
fn test_count_variables() {
    assert_eq!(count_variables(b"# c\nA=1\n\nB=2\nno equals\n"), 2);
    assert_eq!(count_variables(b""), 0);
    assert_eq!(count_variables(b"# only\n\n"), 0);
}

#[test]
fn test_parse_env_file() {
    let pairs = parse_env_file(b"# c\nA=1\nB = \"quoted\" \nC='sq'\n=nokey\nplain\n");
    assert_eq!(
        pairs,
        vec![
            (b"A".to_vec(), b"1".to_vec()),
            (b"B".to_vec(), b"quoted".to_vec()),
            (b"C".to_vec(), b"sq".to_vec()),
        ]
    );
}

#[test]
fn test_parse_env_file_unmatched_quote_kept() {
    let pairs = parse_env_file(b"A=\"half\n");
    assert_eq!(pairs, vec![(b"A".to_vec(), b"\"half".to_vec())]);
}

#[test]
fn test_export_line() {
    assert_eq!(export_line(b"KEY", b"VAL"), b"export KEY=\"VAL\"\n".to_vec());
}

#[test]
fn test_missing_from_gitignore() {
    let existing = b"target\n.env\n# comment\n";
    let names = vec![b".env".to_vec(), b".env.local".to_vec()];
    let missing = missing_from_gitignore(existing, &names);
    assert_eq!(missing, vec![b".env.local".to_vec()]);
}

#[test]
fn test_missing_from_gitignore_trims_lines() {
    let existing = b"  .env  \n";
    let names = vec![b".env".to_vec()];
    assert!(missing_from_gitignore(existing, &names).is_empty());
}

#[test]
fn test_plan_invocation() {
    // Input and output given: one-liner with that output.
    let plan = plan_invocation(
        None,
        Some(b".env".to_vec()),
        Some(b"out.enc".to_vec()),
        false,
        ProcessMode::Encrypt,
    );
    assert!(matches!(plan, InvocationPlan::OneLiner(i, o) if i == b".env".to_vec() && o == b"out.enc".to_vec()));

    // Password but no output: one-liner with the derived name.
    let plan = plan_invocation(Some(b".env".to_vec()), None, None, true, ProcessMode::Encrypt);
    assert!(matches!(plan, InvocationPlan::OneLiner(i, o) if i == b".env".to_vec() && o == b".env.enc".to_vec()));

    // File but neither password nor output: interactive with that file.
    let plan = plan_invocation(Some(b".env".to_vec()), None, None, false, ProcessMode::Encrypt);
    assert!(matches!(plan, InvocationPlan::InteractiveWithFile(i) if i == b".env".to_vec()));

    // Nothing given: scan the directory.
    let plan = plan_invocation(None, None, None, false, ProcessMode::Decrypt);
    assert!(matches!(plan, InvocationPlan::InteractiveScan));

    // The explicit input flag wins over the positional file.
    let plan = plan_invocation(
        Some(b"a".to_vec()),
        Some(b"b".to_vec()),
        None,
        true,
        ProcessMode::Decrypt,
    );
    assert!(matches!(plan, InvocationPlan::OneLiner(i, _) if i == b"b".to_vec()));
}
