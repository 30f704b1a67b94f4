//! The cipher engine: encrypts or decrypts single values, transforms whole
//! files line by line while preserving their structure, and checks whether a
//! file's values already look encrypted.
//!
//! The cipher itself (AES-256 keyed from a password, base64-armoured) comes
//! from the `magic_crypt` crate and is trusted; everything around it — what
//! part of a line is touched, how a file is split and rejoined, when the
//! whole operation fails — is verified.

use vstd::prelude::*;
use vstd::slice::{slice_subrange, slice_to_vec};

use crate::text::{
    find_byte, find_byte_index, is_assignment, is_blank, is_comment, join_lines,
    lemma_find_byte_ensures, lemma_join_lines_push, lemma_trim_ws_free, line_key, line_value,
    lines_spec, split_lines, trim_bytes, trim_spec, ws_free, EQ, HASH, LF,
};

use magic_crypt::MagicCryptTrait;

verus! {

/// Which direction the cipher runs in.
#[derive(Clone, Copy, PartialEq, Eq, Structural, Debug)]
pub enum ProcessMode {
    Encrypt,
    Decrypt,
}

/// A cipher operation failed. A wrong password and malformed ciphertext are
/// deliberately indistinguishable: callers get no oracle for which it was.
#[derive(Clone, Copy, PartialEq, Eq, Structural, Debug)]
pub enum CipherError {
    DecryptionFailure,
}

/// Why a file was rejected as not-looking-encrypted.
#[derive(Clone, Copy, PartialEq, Eq, Structural, Debug)]
pub enum ValidationError {
    /// The file has no `KEY=VALUE` lines at all.
    NoVariables,
    /// The file has `KEY=VALUE` lines, but no value looks encrypted.
    AppearsUnencrypted,
}

/// The ciphertext (base64 text, as bytes) that the cipher produces for a
/// value under a password. The cipher derives its key and IV from the
/// password alone, so the result is a function of value and password.
pub uninterp spec fn cipher_of(value: Seq<u8>, password: Seq<u8>) -> Seq<u8>;

/// What decrypting a ciphertext under a password yields: the plaintext, or
/// `None` when the input is not valid ciphertext for that password.
pub uninterp spec fn plain_of(ciphertext: Seq<u8>, password: Seq<u8>) -> Option<Seq<u8>>;

/// Whether a byte string decodes under standard base64 with padding.
pub uninterp spec fn base64_ok(s: Seq<u8>) -> bool;

/// Relies on magic_crypt's `MagicCrypt256`: key and IV are derived from the
/// password alone (SHA-256, default IV), so equal inputs give equal output;
/// the output is base64 text, which holds no whitespace; and decrypting the
/// output under the same password gives the input back (AES-256-CBC with
/// PKCS7 padding round-trips).
#[verifier::external_body]
fn mc_encrypt(value: &[u8], password: &[u8]) -> (r: Vec<u8>)
    ensures
        r@ == cipher_of(value@, password@),
        plain_of(r@, password@) == Some(value@),
        ws_free(r@),
{
    let mc = magic_crypt::MagicCrypt256::new(password, None::<&[u8]>);
    mc.encrypt_bytes_to_base64(value).into_bytes()
}

/// Relies on magic_crypt's `MagicCrypt256::decrypt_base64_to_bytes`: it
/// returns the plaintext exactly when the input is base64 whose decoded
/// bytes decrypt with valid padding, and fails otherwise; key and IV are
/// derived from the password alone, so the outcome is a function of
/// ciphertext and password.
#[verifier::external_body]
fn mc_decrypt(ciphertext: &[u8], password: &[u8]) -> (r: Option<Vec<u8>>)
    ensures
        match r {
            Some(v) => plain_of(ciphertext@, password@) == Some(v@),
            None => plain_of(ciphertext@, password@) is None,
        },
{
    let mc = magic_crypt::MagicCrypt256::new(password, None::<&[u8]>);
    match core::str::from_utf8(ciphertext) {
        Ok(s) => match mc.decrypt_base64_to_bytes(s) {
            Ok(v) => Some(v),
            Err(_) => None,
        },
        Err(_) => None,
    }
}

/// Relies on base64's `Engine::decode` with the standard alphabet and
/// padding: it answers whether the input is valid base64, and depends on the
/// input alone.
#[verifier::external_body]
fn b64_decodes(s: &[u8]) -> (r: bool)
    ensures
        r == base64_ok(s@),
{
    base64::Engine::decode(&base64::engine::general_purpose::STANDARD, s).is_ok()
}

/// Encrypts a single value. The value is trimmed of surrounding whitespace
/// first; the result is ciphertext that decrypts back to the trimmed value
/// under the same password, and carries no whitespace of its own.
pub fn encrypt_value(value: &[u8], password: &[u8]) -> (r: Vec<u8>)
    ensures
        r@ == cipher_of(trim_spec(value@), password@),
        plain_of(r@, password@) == Some(trim_spec(value@)),
        trim_spec(r@) == r@,
{
    let t = trim_bytes(value);
    let r = mc_encrypt(t.as_slice(), password);
    proof {
        lemma_trim_ws_free(r@);
    }
    r
}

/// Decrypts a single value (trimmed of surrounding whitespace first).
/// Fails exactly when the trimmed input is not valid ciphertext for this
/// password — a wrong password and malformed input are indistinguishable.
pub fn decrypt_value(encrypted: &[u8], password: &[u8]) -> (r: Result<Vec<u8>, CipherError>)
    ensures
        match r {
            Ok(v) => plain_of(trim_spec(encrypted@), password@) == Some(v@),
            Err(e) => plain_of(trim_spec(encrypted@), password@) is None && e
                == CipherError::DecryptionFailure,
        },
{
    let t = trim_bytes(encrypted);
    match mc_decrypt(t.as_slice(), password) {
        Some(v) => Ok(v),
        None => Err(CipherError::DecryptionFailure),
    }
}

/// Round trip: decrypting what `encrypt_value` produced, under the same
/// password, gives back the trimmed value. Verus proves the failure branch
/// unreachable.
pub fn encrypt_decrypt_round_trip(value: &[u8], password: &[u8]) -> (r: Vec<u8>)
    ensures
        r@ == trim_spec(value@),
{
    let c = encrypt_value(value, password);
    match decrypt_value(c.as_slice(), password) {
        Ok(v) => v,
        Err(_) => vstd::pervasive::unreached(),
    }
}

/// A value looks encrypted when, after trimming, it is at least 8 bytes of
/// valid base64. A heuristic, not a cryptographic check: short ciphertexts
/// and long base64-shaped plaintext are misclassified by design.
pub open spec fn likely_encrypted_spec(value: Seq<u8>) -> bool {
    trim_spec(value).len() >= 8 && base64_ok(trim_spec(value))
}

/// Heuristic test whether a single value already looks like ciphertext.
pub fn is_likely_encrypted(value: &[u8]) -> (r: bool)
    ensures
        r == likely_encrypted_spec(value@),
{
    let t = trim_bytes(value);
    if t.len() == 0 {
        return false;
    }
    b64_decodes(t.as_slice()) && t.len() >= 8
}

/// What one line of the file becomes. Blank lines, comments and lines
/// without `=` pass through verbatim; on an assignment line only the value
/// half changes, and a decryption failure makes the whole line fail.
pub open spec fn line_out(l: Seq<u8>, password: Seq<u8>, mode: ProcessMode) -> Option<Seq<u8>> {
    if is_blank(l) || is_comment(l) {
        Some(l)
    } else {
        match find_byte(l, EQ) {
            None => Some(l),
            Some(i) => match mode {
                ProcessMode::Encrypt => Some(
                    line_key(l) + seq![EQ] + cipher_of(trim_spec(line_value(l)), password),
                ),
                ProcessMode::Decrypt => match plain_of(trim_spec(line_value(l)), password) {
                    Some(v) => Some(line_key(l) + seq![EQ] + v),
                    None => None,
                },
            },
        }
    }
}

/// The transformed line, where the transformation succeeds.
pub open spec fn out_line(l: Seq<u8>, password: Seq<u8>, mode: ProcessMode) -> Seq<u8> {
    line_out(l, password, mode)->Some_0
}

/// All lines of the file transform successfully.
pub open spec fn file_ok(ls: Seq<Seq<u8>>, password: Seq<u8>, mode: ProcessMode) -> bool {
    forall|i: int| 0 <= i < ls.len() ==> #[trigger] line_out(ls[i], password, mode) is Some
}

/// The transformed lines, in order.
pub open spec fn out_lines(ls: Seq<Seq<u8>>, password: Seq<u8>, mode: ProcessMode) -> Seq<
    Seq<u8>,
> {
    Seq::new(ls.len(), |i: int| out_line(ls[i], password, mode))
}

/// The trimmed keys of the assignment lines, in order of appearance,
/// repeated keys kept.
pub open spec fn keys_of(ls: Seq<Seq<u8>>) -> Seq<Seq<u8>>
    decreases ls.len(),
{
    if ls.len() == 0 {
        Seq::empty()
    } else if is_assignment(ls.last()) {
        keys_of(ls.drop_last()).push(trim_spec(line_key(ls.last())))
    } else {
        keys_of(ls.drop_last())
    }
}

/// Transforms a single line; see `line_out`.
pub fn process_line(line: &[u8], password: &[u8], mode: ProcessMode) -> (r: Result<
    Vec<u8>,
    CipherError,
>)
    ensures
        match r {
            Ok(v) => line_out(line@, password@, mode) == Some(v@),
            Err(e) => line_out(line@, password@, mode) is None && e
                == CipherError::DecryptionFailure,
        },
{
    let t = trim_bytes(line);
    if t.len() == 0 {
        return Ok(slice_to_vec(line));
    }
    if t[0] == HASH {
        return Ok(slice_to_vec(line));
    }
    match find_byte_index(line, EQ) {
        None => Ok(slice_to_vec(line)),
        Some(i) => {
            proof {
                lemma_find_byte_ensures(line@, EQ);
                assert((i as int) < line@.len());
            }
            let n = line.len();
            let value = slice_subrange(line, i + 1, n);
            let mut out = slice_to_vec(slice_subrange(line, 0, i));
            out.push(EQ);
            match mode {
                ProcessMode::Encrypt => {
                    let c = encrypt_value(value, password);
                    out.extend_from_slice(c.as_slice());
                    proof {
                        assert(out@ =~= line_key(line@) + seq![EQ] + cipher_of(
                            trim_spec(line_value(line@)),
                            password@,
                        ));
                    }
                    Ok(out)
                },
                ProcessMode::Decrypt => match decrypt_value(value, password) {
                    Ok(v) => {
                        out.extend_from_slice(v.as_slice());
                        proof {
                            assert(out@ =~= line_key(line@) + seq![EQ] + plain_of(
                                trim_spec(line_value(line@)),
                                password@,
                            )->Some_0);
                        }
                        Ok(out)
                    },
                    Err(e) => Err(e),
                },
            }
        },
    }
}

/// Transforms a whole file: splits it into lines, applies `line_out` to
/// each, and rejoins with `\n` (this normalizes `\r\n` endings and drops a
/// final trailing newline). Also reports the trimmed keys of the assignment
/// lines, in order. Fails atomically on the first failing line — which can
/// only happen when decrypting — and then produces no output at all.
pub fn process_file(content: &[u8], password: &[u8], mode: ProcessMode) -> (r: Result<
    (Vec<u8>, Vec<Vec<u8>>),
    CipherError,
>)
    ensures
        ({
            let ls = lines_spec(content@);
            match r {
                Ok(p) => file_ok(ls, password@, mode) && p.0@ == join_lines(
                    out_lines(ls, password@, mode),
                ) && p.1@.len() == keys_of(ls).len() && forall|i: int|
                    0 <= i < p.1@.len() ==> #[trigger] p.1@[i]@ == keys_of(ls)[i],
                Err(e) => !file_ok(ls, password@, mode) && e == CipherError::DecryptionFailure,
            }
        }),
        mode == ProcessMode::Encrypt ==> r is Ok,
{
    let ghost ls = lines_spec(content@);
    let lines = split_lines(content);
    let mut out: Vec<u8> = Vec::new();
    let mut keys: Vec<Vec<u8>> = Vec::new();
    let n = lines.len();
    let mut k: usize = 0;
    proof {
        assert(out_lines(ls, password@, mode).subrange(0, 0) =~= Seq::<Seq<u8>>::empty());
        assert(ls.subrange(0, 0) =~= Seq::<Seq<u8>>::empty());
    }
    while k < n
        invariant
            ls == lines_spec(content@),
            n == lines@.len(),
            lines@.len() == ls.len(),
            forall|i: int| 0 <= i < ls.len() ==> #[trigger] lines@[i]@ == ls[i],
            0 <= k <= n,
            forall|i: int| 0 <= i < k ==> #[trigger] line_out(ls[i], password@, mode) is Some,
            out@ == join_lines(out_lines(ls, password@, mode).subrange(0, k as int)),
            keys@.len() == keys_of(ls.subrange(0, k as int)).len(),
            forall|i: int|
                0 <= i < keys@.len() ==> #[trigger] keys@[i]@ == keys_of(
                    ls.subrange(0, k as int),
                )[i],
        decreases n - k,
    {
        let line = &lines[k];
        match process_line(line.as_slice(), password, mode) {
            Ok(v) => {
                proof {
                    let outs = out_lines(ls, password@, mode);
                    assert(outs.subrange(0, k + 1) =~= outs.subrange(0, k as int).push(
                        outs[k as int],
                    ));
                    lemma_join_lines_push(outs.subrange(0, k as int), outs[k as int]);
                }
                if k > 0 {
                    out.push(LF);
                }
                out.extend_from_slice(v.as_slice());
            },
            Err(e) => {
                proof {
                    assert(line_out(ls[k as int], password@, mode) is None);
                    assert(!file_ok(ls, password@, mode));
                }
                return Err(e);
            },
        }
        let t = trim_bytes(line.as_slice());
        proof {
            assert(ls.subrange(0, k + 1).drop_last() =~= ls.subrange(0, k as int));
            assert(ls.subrange(0, k + 1).last() == ls[k as int]);
        }
        if t.len() > 0 && t[0] != HASH {
            match find_byte_index(line.as_slice(), EQ) {
                Some(i) => {
                    proof {
                        lemma_find_byte_ensures(ls[k as int], EQ);
                    }
                    let key = trim_bytes(slice_subrange(line.as_slice(), 0, i));
                    keys.push(key);
                },
                None => {},
            }
        }
        k = k + 1;
    }
    proof {
        assert(out_lines(ls, password@, mode).subrange(0, ls.len() as int) =~= out_lines(
            ls,
            password@,
            mode,
        ));
        assert(ls.subrange(0, ls.len() as int) =~= ls);
    }
    Ok((out, keys))
}

/// Structure preservation: a successful transformation has exactly one
/// output line per input line, and every blank or comment line comes out
/// byte-identical.
pub proof fn lemma_structure_preserved(content: Seq<u8>, password: Seq<u8>, mode: ProcessMode)
    ensures
        ({
            let ls = lines_spec(content);
            let outs = out_lines(ls, password, mode);
            outs.len() == ls.len() && forall|i: int|
                0 <= i < ls.len() && (is_blank(#[trigger] ls[i]) || is_comment(ls[i]))
                    ==> outs[i] == ls[i]
        }),
{
    let ls = lines_spec(content);
    let outs = out_lines(ls, password, mode);
    assert forall|i: int|
        0 <= i < ls.len() && (is_blank(#[trigger] ls[i]) || is_comment(ls[i])) implies outs[i]
        == ls[i] by {
        assert(line_out(ls[i], password, mode) == Some(ls[i]));
    }
}

/// The file holds at least one assignment line.
pub open spec fn has_vars(ls: Seq<Seq<u8>>) -> bool {
    exists|i: int| 0 <= i < ls.len() && is_assignment(#[trigger] ls[i])
}

/// At least one assignment line's value looks encrypted.
pub open spec fn any_encrypted(ls: Seq<Seq<u8>>) -> bool {
    exists|i: int|
        0 <= i < ls.len() && is_assignment(#[trigger] ls[i]) && likely_encrypted_spec(
            line_value(ls[i]),
        )
}

/// Checks that a file's contents look encrypted before decrypting it: fails
/// when the file has no variables at all, or has variables but not one value
/// that looks encrypted. A lenient gate — a mix of plain and encrypted
/// values passes.
pub fn validate_encrypted_file(content: &[u8]) -> (r: Result<(), ValidationError>)
    ensures
        ({
            let ls = lines_spec(content@);
            match r {
                Ok(u) => any_encrypted(ls),
                Err(ValidationError::NoVariables) => !has_vars(ls),
                Err(ValidationError::AppearsUnencrypted) => has_vars(ls) && !any_encrypted(ls),
            }
        }),
{
    let ghost ls = lines_spec(content@);
    let lines = split_lines(content);
    let n = lines.len();
    let mut saw_var = false;
    let mut saw_encrypted = false;
    let mut k: usize = 0;
    while k < n
        invariant
            ls == lines_spec(content@),
            n == lines@.len(),
            lines@.len() == ls.len(),
            forall|i: int| 0 <= i < ls.len() ==> #[trigger] lines@[i]@ == ls[i],
            0 <= k <= n,
            saw_var == has_vars(ls.subrange(0, k as int)),
            saw_encrypted == any_encrypted(ls.subrange(0, k as int)),
        decreases n - k,
    {
        let line = &lines[k];
        let ghost prefix = ls.subrange(0, k as int);
        let ghost prefix1 = ls.subrange(0, k + 1);
        proof {
            assert forall|i: int| 0 <= i < prefix.len() implies #[trigger] prefix1[i]
                == prefix[i] by {}
            assert(prefix1[k as int] == ls[k as int]);
        }
        let t = trim_bytes(line.as_slice());
        if t.len() > 0 && t[0] != HASH {
            match find_byte_index(line.as_slice(), EQ) {
                Some(i) => {
                    proof {
                        lemma_find_byte_ensures(ls[k as int], EQ);
                        assert(is_assignment(ls[k as int]));
                        assert(has_vars(prefix1));
                    }
                    saw_var = true;
                    let n_line = line.len();
                    let value = slice_subrange(line.as_slice(), i + 1, n_line);
                    if is_likely_encrypted(value) {
                        proof {
                            assert(value@ == line_value(ls[k as int]));
                            assert(any_encrypted(prefix1));
                        }
                        saw_encrypted = true;
                    } else {
                        proof {
                            if any_encrypted(prefix1) && !any_encrypted(prefix) {
                                let w = choose|j: int|
                                    0 <= j < prefix1.len() && is_assignment(#[trigger] prefix1[j])
                                        && likely_encrypted_spec(line_value(prefix1[j]));
                                assert(w == k as int);
                                assert(value@ == line_value(ls[k as int]));
                                assert(false);
                            }
                        }
                    }
                },
                None => {
                    proof {
                        lemma_find_byte_ensures(ls[k as int], EQ);
                        assert(!is_assignment(ls[k as int]));
                        if has_vars(prefix1) && !has_vars(prefix) {
                            let w = choose|j: int|
                                0 <= j < prefix1.len() && is_assignment(#[trigger] prefix1[j]);
                            assert(w == k as int);
                            assert(false);
                        }
                        if any_encrypted(prefix1) && !any_encrypted(prefix) {
                            let w = choose|j: int|
                                0 <= j < prefix1.len() && is_assignment(#[trigger] prefix1[j])
                                    && likely_encrypted_spec(line_value(prefix1[j]));
                            assert(w == k as int);
                            assert(false);
                        }
                    }
                },
            }
        } else {
            proof {
                assert(is_blank(ls[k as int]) || is_comment(ls[k as int]));
                assert(!is_assignment(ls[k as int]));
                if has_vars(prefix1) && !has_vars(prefix) {
                    let w = choose|j: int|
                        0 <= j < prefix1.len() && is_assignment(#[trigger] prefix1[j]);
                    assert(w == k as int);
                    assert(false);
                }
                if any_encrypted(prefix1) && !any_encrypted(prefix) {
                    let w = choose|j: int|
                        0 <= j < prefix1.len() && is_assignment(#[trigger] prefix1[j])
                            && likely_encrypted_spec(line_value(prefix1[j]));
                    assert(w == k as int);
                    assert(false);
                }
            }
        }
        k = k + 1;
    }
    proof {
        assert(ls.subrange(0, ls.len() as int) =~= ls);
    }
    if !saw_var {
        Err(ValidationError::NoVariables)
    } else if !saw_encrypted {
        Err(ValidationError::AppearsUnencrypted)
    } else {
        Ok(())
    }
}

} // verus!
