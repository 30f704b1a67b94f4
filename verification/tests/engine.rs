use wc_envc::engine::{
    decrypt_value, encrypt_decrypt_round_trip, encrypt_value, is_likely_encrypted, process_file,
    process_line, validate_encrypted_file, CipherError, ProcessMode, ValidationError,
};

fn contains_sub(haystack: &[u8], needle: &[u8]) -> bool {
    haystack.windows(needle.len()).any(|w| w == needle)
}

#[test]
fn test_encrypt_decrypt_roundtrip() {
    let original = b"secret_value_123";
    let password = b"test_password";

    let encrypted = encrypt_value(original, password);
    let decrypted = decrypt_value(&encrypted, password).unwrap();

    assert_eq!(original.to_vec(), decrypted);
}

#[test]
fn test_wrong_password() {
    let correct_pwd = b"correct_password";
    let wrong_pwd = b"wrong_password";

    let encrypted = encrypt_value(b"secret", correct_pwd);
    let result = decrypt_value(&encrypted, wrong_pwd);

    assert!(result.is_err());
}

#[test]
fn test_process_file_encrypt() {
    let content = b"# Comment\nDB_HOST=localhost\nDB_PASS=secret\n";
    let password = b"test";

    let (result, keys) = process_file(content, password, ProcessMode::Encrypt).unwrap();

    assert!(contains_sub(&result, b"# Comment"));
    assert!(contains_sub(&result, b"DB_HOST="));
    assert!(!contains_sub(&result, b"localhost")); // Should be encrypted
    assert_eq!(keys, vec![b"DB_HOST".to_vec(), b"DB_PASS".to_vec()]);
}

#[test]
fn test_roundtrip_trims_value() {
    let encrypted = encrypt_value(b"  padded value \t", b"pw");
    let decrypted = decrypt_value(&encrypted, b"pw").unwrap();
    assert_eq!(decrypted, b"padded value".to_vec());
}

#[test]
fn test_roundtrip_helper() {
    assert_eq!(encrypt_decrypt_round_trip(b"hello", b"pw"), b"hello".to_vec());
    assert_eq!(encrypt_decrypt_round_trip(b" x ", b"pw"), b"x".to_vec());
}

#[test]
fn test_decrypt_garbage_fails() {
    let result = decrypt_value(b"not*base64*at*all", b"pw");
    assert!(matches!(result, Err(CipherError::DecryptionFailure)));
}

#[test]
fn test_is_likely_encrypted() {
    assert!(!is_likely_encrypted(b""));
    assert!(!is_likely_encrypted(b"   "));
    // Valid base64 but under the 8-character threshold.
    assert!(!is_likely_encrypted(b"QQ=="));
    // Long enough but not valid base64.
    assert!(!is_likely_encrypted(b"not*base64*data!"));
    // Valid base64 and long enough.
    assert!(is_likely_encrypted(b"QUJDREVGR0g="));
    // Surrounding whitespace is trimmed before the check.
    assert!(is_likely_encrypted(b"  QUJDREVGR0g=  "));
}

#[test]
fn test_encrypted_value_passes_heuristic() {
    let encrypted = encrypt_value(b"anything", b"pw");
    assert!(is_likely_encrypted(&encrypted));
}

#[test]
fn test_process_line_passthrough() {
    let pw = b"pw";
    // Comments keep their exact bytes, trailing whitespace included.
    let line = b"# a comment  ";
    assert_eq!(process_line(line, pw, ProcessMode::Encrypt).unwrap(), line.to_vec());
    // Blank lines pass through.
    let blank = b"   ";
    assert_eq!(process_line(blank, pw, ProcessMode::Encrypt).unwrap(), blank.to_vec());
    // A line with no `=` passes through.
    let noeq = b"just words";
    assert_eq!(process_line(noeq, pw, ProcessMode::Encrypt).unwrap(), noeq.to_vec());
}

#[test]
fn test_process_line_keeps_key_verbatim() {
    let out = process_line(b"  KEY  =value", b"pw", ProcessMode::Encrypt).unwrap();
    assert!(out.starts_with(b"  KEY  ="));
}

#[test]
fn test_process_file_scenario() {
    let content = b"# c\nDB_HOST=localhost\nDB_PASS=secret\n";
    let (result, keys) = process_file(content, b"test", ProcessMode::Encrypt).unwrap();

    let lines: Vec<&[u8]> = result.split(|&b| b == b'\n').collect();
    assert_eq!(lines.len(), 3);
    assert_eq!(lines[0], b"# c");
    assert!(lines[1].starts_with(b"DB_HOST="));
    assert!(lines[2].starts_with(b"DB_PASS="));
    assert_ne!(lines[1], b"DB_HOST=localhost".as_slice());
    assert_ne!(lines[2], b"DB_PASS=secret".as_slice());
    assert_eq!(keys, vec![b"DB_HOST".to_vec(), b"DB_PASS".to_vec()]);
}

#[test]
fn test_process_file_round_trip() {
    let content = b"# c\n\nA=alpha\nB= beta \nno equals here\n";
    let pw = b"round trip password";
    let (encrypted, _) = process_file(content, pw, ProcessMode::Encrypt).unwrap();
    let (decrypted, keys) = process_file(&encrypted, pw, ProcessMode::Decrypt).unwrap();
    // Values come back trimmed; structure is kept.
    assert_eq!(decrypted, b"# c\n\nA=alpha\nB=beta\nno equals here".to_vec());
    assert_eq!(keys, vec![b"A".to_vec(), b"B".to_vec()]);
}

#[test]
fn test_process_file_normalizes_crlf() {
    let (out, keys) = process_file(b"# c\r\nplain line\r\n", b"pw", ProcessMode::Encrypt).unwrap();
    assert_eq!(out, b"# c\nplain line".to_vec());
    assert!(keys.is_empty());
}

#[test]
fn test_process_file_decrypt_fails_atomically() {
    let result = process_file(b"A=notencrypted\n", b"pw", ProcessMode::Decrypt);
    assert!(matches!(result, Err(CipherError::DecryptionFailure)));
}

#[test]
fn test_validate_errors() {
    assert_eq!(
        validate_encrypted_file(b"DB_HOST=localhost\n"),
        Err(ValidationError::AppearsUnencrypted)
    );
    assert_eq!(validate_encrypted_file(b"# only comment\n"), Err(ValidationError::NoVariables));
    assert_eq!(validate_encrypted_file(b""), Err(ValidationError::NoVariables));
}

#[test]
fn test_validate_lenient() {
    // One encrypted-looking value is enough, even among plain ones.
    assert_eq!(validate_encrypted_file(b"A=QUJDREVGR0g=\nB=plain\n"), Ok(()));
    let encrypted = encrypt_value(b"secret", b"pw");
    let mut content = b"KEY=".to_vec();
    content.extend_from_slice(&encrypted);
    content.push(b'\n');
    assert_eq!(validate_encrypted_file(&content), Ok(()));
}

#[test]
fn test_repeated_keys_reported_in_order() {
    let (_, keys) = process_file(b"A=1\nB=2\nA=3\n", b"pw", ProcessMode::Encrypt).unwrap();
    assert_eq!(keys, vec![b"A".to_vec(), b"B".to_vec(), b"A".to_vec()]);
}
