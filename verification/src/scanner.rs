//! The file classifier: decides by filename convention (never by content)
//! whether a file is a plain or an encrypted `.env` variant, derives the
//! sibling output filename for the opposite mode, selects and sorts the
//! candidates of a directory listing, and counts a file's variables.

use vstd::prelude::*;
use vstd::multiset::Multiset;
use vstd::slice::{slice_index_get, slice_subrange, slice_to_vec};

use crate::engine::ProcessMode;
use crate::text::{
    find_byte_index, is_assignment, lemma_find_byte_ensures, lines_spec, split_lines, trim_bytes,
    EQ, HASH,
};

verus! {

/// The bytes of `.env`.
pub open spec fn dot_env() -> Seq<u8> {
    seq![46u8, 101u8, 110u8, 118u8]
}

/// The bytes of `.enc`.
pub open spec fn enc_suffix() -> Seq<u8> {
    seq![46u8, 101u8, 110u8, 99u8]
}

/// The bytes of `.encrypted`.
pub open spec fn encrypted_suffix() -> Seq<u8> {
    seq![46u8, 101u8, 110u8, 99u8, 114u8, 121u8, 112u8, 116u8, 101u8, 100u8]
}

pub open spec fn has_prefix(s: Seq<u8>, p: Seq<u8>) -> bool {
    p.len() <= s.len() && s.subrange(0, p.len() as int) == p
}

pub open spec fn has_suffix(s: Seq<u8>, p: Seq<u8>) -> bool {
    p.len() <= s.len() && s.subrange(s.len() - p.len(), s.len() as int) == p
}

/// `p` occurs in `s` starting at position `i`.
pub open spec fn contains_at(s: Seq<u8>, p: Seq<u8>, i: int) -> bool {
    0 <= i && i + p.len() <= s.len() && s.subrange(i, i + p.len()) == p
}

/// `p` occurs somewhere in `s`.
pub open spec fn contains_seq(s: Seq<u8>, p: Seq<u8>) -> bool {
    exists|i: int| contains_at(s, p, i)
}

/// A plain `.env` filename: starts with `.env` and does not end in a
/// recognized encrypted suffix. Case-sensitive, string-only.
pub open spec fn is_plain_spec(name: Seq<u8>) -> bool {
    has_prefix(name, dot_env()) && !has_suffix(name, enc_suffix()) && !has_suffix(
        name,
        encrypted_suffix(),
    )
}

/// An encrypted `.env` filename: contains `.env` and ends in a recognized
/// encrypted suffix. Case-sensitive, string-only.
pub open spec fn is_encrypted_spec(name: Seq<u8>) -> bool {
    contains_seq(name, dot_env()) && (has_suffix(name, enc_suffix()) || has_suffix(
        name,
        encrypted_suffix(),
    ))
}

/// Whether `name` is a candidate for `mode`.
pub open spec fn matches_mode(name: Seq<u8>, mode: ProcessMode) -> bool {
    match mode {
        ProcessMode::Encrypt => is_plain_spec(name),
        ProcessMode::Decrypt => is_encrypted_spec(name),
    }
}

/// The canonical output filename: encrypting appends `.enc`; decrypting
/// strips one trailing `.enc`, else one trailing `.encrypted`, else leaves
/// the name unchanged.
pub open spec fn derive_name_spec(name: Seq<u8>, mode: ProcessMode) -> Seq<u8> {
    match mode {
        ProcessMode::Encrypt => name + enc_suffix(),
        ProcessMode::Decrypt => if has_suffix(name, enc_suffix()) {
            name.subrange(0, name.len() - 4)
        } else if has_suffix(name, encrypted_suffix()) {
            name.subrange(0, name.len() - 10)
        } else {
            name
        },
    }
}

/// Classification exclusivity: no filename is a candidate for both modes.
pub proof fn lemma_classify_exclusive(name: Seq<u8>)
    ensures
        !(is_plain_spec(name) && is_encrypted_spec(name)),
{
}

/// Derivation pairing: for a plain filename, encrypting and then decrypting
/// the derived name gives the original back.
pub proof fn lemma_output_name_round_trip(name: Seq<u8>)
    requires
        is_plain_spec(name),
    ensures
        derive_name_spec(derive_name_spec(name, ProcessMode::Encrypt), ProcessMode::Decrypt)
            == name,
{
    let m = name + enc_suffix();
    assert(m.subrange(m.len() - 4, m.len() as int) =~= enc_suffix());
    assert(m.subrange(0, m.len() - 4) =~= name);
}

/// Whether `name` starts with `.env`.
fn starts_with_dot_env(name: &[u8]) -> (r: bool)
    ensures
        r == has_prefix(name@, dot_env()),
{
    let n = name.len();
    if n < 4 {
        return false;
    }
    let r = *slice_index_get(name, 0) == 46 && *slice_index_get(name, 1) == 101
        && *slice_index_get(name, 2) == 110 && *slice_index_get(name, 3) == 118;
    proof {
        let sub = name@.subrange(0, 4);
        assert(sub[0] == name@[0] && sub[1] == name@[1] && sub[2] == name@[2] && sub[3]
            == name@[3]);
        if r {
            assert(sub =~= dot_env());
        } else {
            assert(sub != dot_env()) by {
                if sub == dot_env() {
                    assert(sub[0] == 46 && sub[1] == 101 && sub[2] == 110 && sub[3] == 118);
                }
            }
        }
    }
    r
}

/// Whether `name` ends with `.enc`.
fn ends_with_enc(name: &[u8]) -> (r: bool)
    ensures
        r == has_suffix(name@, enc_suffix()),
{
    let n = name.len();
    if n < 4 {
        return false;
    }
    let r = *slice_index_get(name, n - 4) == 46 && *slice_index_get(name, n - 3) == 101
        && *slice_index_get(name, n - 2) == 110 && *slice_index_get(name, n - 1) == 99;
    proof {
        let sub = name@.subrange(n - 4, n as int);
        assert(sub[0] == name@[n - 4] && sub[1] == name@[n - 3] && sub[2] == name@[n - 2] && sub[3]
            == name@[n - 1]);
        if r {
            assert(sub =~= enc_suffix());
        } else {
            assert(sub != enc_suffix()) by {
                if sub == enc_suffix() {
                    assert(sub[0] == 46 && sub[1] == 101 && sub[2] == 110 && sub[3] == 99);
                }
            }
        }
    }
    r
}

/// Whether `name` ends with `.encrypted`.
fn ends_with_encrypted(name: &[u8]) -> (r: bool)
    ensures
        r == has_suffix(name@, encrypted_suffix()),
{
    let n = name.len();
    if n < 10 {
        return false;
    }
    let r = *slice_index_get(name, n - 10) == 46 && *slice_index_get(name, n - 9) == 101
        && *slice_index_get(name, n - 8) == 110 && *slice_index_get(name, n - 7) == 99
        && *slice_index_get(name, n - 6) == 114 && *slice_index_get(name, n - 5) == 121
        && *slice_index_get(name, n - 4) == 112 && *slice_index_get(name, n - 3) == 116
        && *slice_index_get(name, n - 2) == 101 && *slice_index_get(name, n - 1) == 100;
    proof {
        let sub = name@.subrange(n - 10, n as int);
        assert(sub[0] == name@[n - 10] && sub[1] == name@[n - 9] && sub[2] == name@[n - 8]
            && sub[3] == name@[n - 7] && sub[4] == name@[n - 6] && sub[5] == name@[n - 5] && sub[6]
            == name@[n - 4] && sub[7] == name@[n - 3] && sub[8] == name@[n - 2] && sub[9]
            == name@[n - 1]);
        if r {
            assert(sub =~= encrypted_suffix());
        } else {
            assert(sub != encrypted_suffix()) by {
                if sub == encrypted_suffix() {
                    assert(sub[0] == 46 && sub[1] == 101 && sub[2] == 110 && sub[3] == 99 && sub[4]
                        == 114 && sub[5] == 121 && sub[6] == 112 && sub[7] == 116 && sub[8] == 101
                        && sub[9] == 100);
                }
            }
        }
    }
    r
}

/// Whether the four bytes of `name` at `i` are `.env`.
fn window_is_dot_env(name: &[u8], i: usize) -> (r: bool)
    requires
        i + 4 <= name@.len(),
    ensures
        r == contains_at(name@, dot_env(), i as int),
{
    let n = name.len();
    let r = *slice_index_get(name, i) == 46 && *slice_index_get(name, i + 1) == 101
        && *slice_index_get(name, i + 2) == 110 && *slice_index_get(name, i + 3) == 118;
    proof {
        assert(i + 4 <= n);
        let sub = name@.subrange(i as int, i + 4);
        assert(sub[0] == name@[i as int] && sub[1] == name@[i + 1] && sub[2] == name@[i + 2]
            && sub[3] == name@[i + 3]);
        if r {
            assert(sub =~= dot_env());
        } else {
            assert(sub != dot_env()) by {
                if sub == dot_env() {
                    assert(sub[0] == 46 && sub[1] == 101 && sub[2] == 110 && sub[3] == 118);
                }
            }
        }
    }
    r
}

/// Whether `name` contains `.env` anywhere.
fn contains_dot_env(name: &[u8]) -> (r: bool)
    ensures
        r == contains_seq(name@, dot_env()),
{
    let n = name.len();
    if n < 4 {
        proof {
            assert(!contains_seq(name@, dot_env())) by {
                if contains_seq(name@, dot_env()) {
                    let i = choose|i: int| contains_at(name@, dot_env(), i);
                }
            }
        }
        return false;
    }
    let mut i: usize = 0;
    while i <= n - 4
        invariant
            n == name@.len(),
            n >= 4,
            0 <= i <= n - 3,
            forall|j: int| 0 <= j < i ==> !contains_at(name@, dot_env(), j),
        decreases n - i,
    {
        if window_is_dot_env(name, i) {
            proof {
                assert(contains_seq(name@, dot_env()));
            }
            return true;
        }
        i = i + 1;
    }
    proof {
        assert(!contains_seq(name@, dot_env())) by {
            if contains_seq(name@, dot_env()) {
                let j = choose|j: int| contains_at(name@, dot_env(), j);
                assert(0 <= j < i);
            }
        }
    }
    false
}

/// Whether a filename is a plain (not yet encrypted) `.env` file.
pub fn is_plain_env_file(name: &[u8]) -> (r: bool)
    ensures
        r == is_plain_spec(name@),
{
    starts_with_dot_env(name) && !ends_with_enc(name) && !ends_with_encrypted(name)
}

/// Whether a filename is an encrypted `.env` file.
pub fn is_encrypted_env_file(name: &[u8]) -> (r: bool)
    ensures
        r == is_encrypted_spec(name@),
{
    contains_dot_env(name) && (ends_with_enc(name) || ends_with_encrypted(name))
}

/// Derives the default output filename for `input` under `mode`; see
/// `derive_name_spec`.
pub fn default_output_name(input: &[u8], mode: ProcessMode) -> (r: Vec<u8>)
    ensures
        r@ == derive_name_spec(input@, mode),
{
    match mode {
        ProcessMode::Encrypt => {
            let mut r = slice_to_vec(input);
            r.push(46);
            r.push(101);
            r.push(110);
            r.push(99);
            proof {
                assert(r@ =~= input@ + enc_suffix());
            }
            r
        },
        ProcessMode::Decrypt => {
            let n = input.len();
            if ends_with_enc(input) {
                slice_to_vec(slice_subrange(input, 0, n - 4))
            } else if ends_with_encrypted(input) {
                slice_to_vec(slice_subrange(input, 0, n - 10))
            } else {
                slice_to_vec(input)
            }
        },
    }
}

/// The number of assignment lines among `ls`.
pub open spec fn count_assignments(ls: Seq<Seq<u8>>) -> int
    decreases ls.len(),
{
    if ls.len() == 0 {
        0
    } else if is_assignment(ls.last()) {
        count_assignments(ls.drop_last()) + 1
    } else {
        count_assignments(ls.drop_last())
    }
}

/// Counts the environment variables of a file's contents: the lines that are
/// neither blank nor comments and hold an `=`.
pub fn count_variables(content: &[u8]) -> (r: usize)
    ensures
        r as int == count_assignments(lines_spec(content@)),
{
    let ghost ls = lines_spec(content@);
    let lines = split_lines(content);
    let n = lines.len();
    let mut count: usize = 0;
    let mut k: usize = 0;
    proof {
        assert(ls.subrange(0, 0) =~= Seq::<Seq<u8>>::empty());
    }
    while k < n
        invariant
            ls == lines_spec(content@),
            n == lines@.len(),
            lines@.len() == ls.len(),
            forall|i: int| 0 <= i < ls.len() ==> #[trigger] lines@[i]@ == ls[i],
            0 <= k <= n,
            count <= k,
            count as int == count_assignments(ls.subrange(0, k as int)),
        decreases n - k,
    {
        let line = &lines[k];
        proof {
            assert(ls.subrange(0, k + 1).drop_last() =~= ls.subrange(0, k as int));
            assert(ls.subrange(0, k + 1).last() == ls[k as int]);
        }
        let t = trim_bytes(line.as_slice());
        if t.len() > 0 && t[0] != HASH {
            match find_byte_index(line.as_slice(), EQ) {
                Some(_i) => {
                    count = count + 1;
                },
                None => {},
            }
        }
        k = k + 1;
    }
    proof {
        assert(ls.subrange(0, ls.len() as int) =~= ls);
    }
    count
}


/// Lexicographic byte order on names, as `Ord` on paths compares them.
pub open spec fn lex_le(a: Seq<u8>, b: Seq<u8>) -> bool
    decreases a.len(),
{
    if a.len() == 0 {
        true
    } else if b.len() == 0 {
        false
    } else if a[0] < b[0] {
        true
    } else if a[0] > b[0] {
        false
    } else {
        lex_le(a.drop_first(), b.drop_first())
    }
}

/// The order is total.
pub proof fn lemma_lex_le_total(a: Seq<u8>, b: Seq<u8>)
    ensures
        lex_le(a, b) || lex_le(b, a),
    decreases a.len(),
{
    if a.len() > 0 && b.len() > 0 && a[0] == b[0] {
        lemma_lex_le_total(a.drop_first(), b.drop_first());
    }
}

/// The order is transitive.
pub proof fn lemma_lex_le_trans(a: Seq<u8>, b: Seq<u8>, c: Seq<u8>)
    requires
        lex_le(a, b),
        lex_le(b, c),
    ensures
        lex_le(a, c),
    decreases a.len(),
{
    if a.len() > 0 && b.len() > 0 && c.len() > 0 && a[0] == b[0] && b[0] == c[0] {
        lemma_lex_le_trans(a.drop_first(), b.drop_first(), c.drop_first());
    }
}

/// A shared prefix does not decide the order.
proof fn lemma_lex_le_common(a: Seq<u8>, b: Seq<u8>, i: int)
    requires
        0 <= i <= a.len(),
        i <= b.len(),
        forall|j: int| 0 <= j < i ==> a[j] == #[trigger] b[j],
    ensures
        lex_le(a, b) == lex_le(a.skip(i), b.skip(i)),
    decreases i,
{
    if i > 0 {
        assert(a[0] == b[0]);
        assert forall|j: int| 0 <= j < i - 1 implies a.drop_first()[j]
            == #[trigger] b.drop_first()[j] by {
            assert(a.drop_first()[j] == a[j + 1]);
            assert(b.drop_first()[j] == b[j + 1]);
        }
        lemma_lex_le_common(a.drop_first(), b.drop_first(), i - 1);
        assert(a.drop_first().skip(i - 1) =~= a.skip(i));
        assert(b.drop_first().skip(i - 1) =~= b.skip(i));
    } else {
        assert(a.skip(0) =~= a);
        assert(b.skip(0) =~= b);
    }
}

/// Compares two names in lexicographic byte order.
fn lex_le_bytes(a: &[u8], b: &[u8]) -> (r: bool)
    ensures
        r == lex_le(a@, b@),
{
    let na = a.len();
    let nb = b.len();
    let mut i: usize = 0;
    while i < na && i < nb && *slice_index_get(a, i) == *slice_index_get(b, i)
        invariant
            na == a@.len(),
            nb == b@.len(),
            0 <= i <= na,
            i <= nb,
            forall|j: int| 0 <= j < i ==> a@[j] == #[trigger] b@[j],
        decreases na - i,
    {
        i = i + 1;
    }
    proof {
        lemma_lex_le_common(a@, b@, i as int);
        if i < na {
            assert(a@.skip(i as int)[0] == a@[i as int]);
        }
        if i < nb {
            assert(b@.skip(i as int)[0] == b@[i as int]);
        }
    }
    if i >= na {
        true
    } else if i >= nb {
        false
    } else {
        *slice_index_get(a, i) < *slice_index_get(b, i)
    }
}

/// The names that match `mode`, in their original order.
pub open spec fn candidates(names: Seq<Seq<u8>>, mode: ProcessMode) -> Seq<Seq<u8>> {
    names.filter(|n: Seq<u8>| matches_mode(n, mode))
}

/// Pairwise sorted in lexicographic order.
pub open spec fn sorted_names(s: Seq<Seq<u8>>) -> bool {
    forall|i: int, j: int| 0 <= i < j < s.len() ==> lex_le(#[trigger] s[i], #[trigger] s[j])
}

/// Selects from a directory listing the filenames that are candidates for
/// `mode`, sorted by name for deterministic ordering: the result holds
/// exactly the matching names (with multiplicity) and nothing else.
pub fn find_env_files(names: &Vec<Vec<u8>>, mode: ProcessMode) -> (r: Vec<Vec<u8>>)
    ensures
        sorted_names(r@.map_values(|v: Vec<u8>| v@)),
        forall|i: int| 0 <= i < r@.len() ==> matches_mode(#[trigger] r@[i]@, mode),
        r@.map_values(|v: Vec<u8>| v@).to_multiset() == candidates(
            names@.map_values(|v: Vec<u8>| v@),
            mode,
        ).to_multiset(),
{
    broadcast use vstd::seq_lib::group_to_multiset_ensures;

    let ghost nv = names@.map_values(|v: Vec<u8>| v@);
    let n = names.len();
    let mut r: Vec<Vec<u8>> = Vec::new();
    let mut k: usize = 0;
    proof {
        assert(nv.subrange(0, 0) =~= Seq::<Seq<u8>>::empty());
        assert(r@.map_values(|v: Vec<u8>| v@) =~= Seq::<Seq<u8>>::empty());
        assert(candidates(Seq::<Seq<u8>>::empty(), mode) =~= Seq::<Seq<u8>>::empty());
    }
    while k < n
        invariant
            nv == names@.map_values(|v: Vec<u8>| v@),
            n == names@.len(),
            nv.len() == n,
            0 <= k <= n,
            sorted_names(r@.map_values(|v: Vec<u8>| v@)),
            forall|i: int| 0 <= i < r@.len() ==> matches_mode(#[trigger] r@[i]@, mode),
            r@.map_values(|v: Vec<u8>| v@).to_multiset() == candidates(
                nv.subrange(0, k as int),
                mode,
            ).to_multiset(),
        decreases n - k,
    {
        let name = &names[k];
        let keep = match mode {
            ProcessMode::Encrypt => is_plain_env_file(name.as_slice()),
            ProcessMode::Decrypt => is_encrypted_env_file(name.as_slice()),
        };
        let ghost prefix = nv.subrange(0, k as int);
        let ghost prefix1 = nv.subrange(0, k + 1);
        proof {
            assert(nv[k as int] == names@[k as int]@);
            assert(prefix1 =~= prefix.push(nv[k as int]));
            assert(prefix1.drop_last() =~= prefix);
            reveal_with_fuel(Seq::filter, 2);
            assert(candidates(prefix1, mode) == if matches_mode(nv[k as int], mode) {
                candidates(prefix, mode).push(nv[k as int])
            } else {
                candidates(prefix, mode)
            });
        }
        if keep {
            let ghost rv = r@.map_values(|v: Vec<u8>| v@);
            let x = name.clone();
            let mut pos: usize = 0;
            let rlen = r.len();
            while pos < rlen && lex_le_bytes(r[pos].as_slice(), x.as_slice())
                invariant
                    rlen == r@.len(),
                    rv == r@.map_values(|v: Vec<u8>| v@),
                    0 <= k < nv.len(),
                    x@ == nv[k as int],
                    0 <= pos <= rlen,
                    forall|j: int| 0 <= j < pos ==> lex_le(#[trigger] rv[j], x@),
                decreases rlen - pos,
            {
                pos = pos + 1;
            }
            proof {
                assert(x@ == names@[k as int]@);
                let rv2 = rv.insert(pos as int, x@);
                if pos < rlen {
                    lemma_lex_le_total(rv[pos as int], x@);
                }
                assert forall|i: int, j: int| 0 <= i < j < rv2.len() implies lex_le(
                    #[trigger] rv2[i],
                    #[trigger] rv2[j],
                ) by {
                    if j < pos {
                        assert(rv2[i] == rv[i] && rv2[j] == rv[j]);
                    } else if i < pos && j == pos {
                        assert(rv2[i] == rv[i] && rv2[j] == x@);
                    } else if i < pos && j > pos {
                        assert(rv2[i] == rv[i] && rv2[j] == rv[j - 1]);
                        if pos <= j - 1 && pos < rv.len() {
                            if i < pos {
                                if j - 1 == pos {
                                    assert(lex_le(rv2[i], rv2[j]));
                                } else {
                                    lemma_lex_le_trans(rv[i], rv[pos as int], rv[j - 1]);
                                }
                            }
                        }
                    } else if i == pos {
                        assert(rv2[i] == x@ && rv2[j] == rv[j - 1]);
                        assert(lex_le(x@, rv[pos as int]));
                        if j - 1 > pos {
                            lemma_lex_le_trans(x@, rv[pos as int], rv[j - 1]);
                        }
                    } else {
                        assert(rv2[i] == rv[i - 1] && rv2[j] == rv[j - 1]);
                    }
                }
                lemma_to_multiset_insert(rv, pos as int, x@);
            }
            r.insert(pos, x);
            proof {
                assert(r@.map_values(|v: Vec<u8>| v@) =~= rv.insert(pos as int, x@));
                candidates(prefix, mode).to_multiset_ensures();
                assert(candidates(prefix, mode).push(nv[k as int]).to_multiset()
                    =~= candidates(prefix, mode).to_multiset().insert(nv[k as int]));
                assert(r@.map_values(|v: Vec<u8>| v@).to_multiset() =~= candidates(
                    prefix1,
                    mode,
                ).to_multiset());
            }
        }
        k = k + 1;
    }
    proof {
        assert(nv.subrange(0, n as int) =~= nv);
    }
    r
}

/// Inserting into a sequence inserts into its multiset.
proof fn lemma_to_multiset_insert(s: Seq<Seq<u8>>, i: int, x: Seq<u8>)
    requires
        0 <= i <= s.len(),
    ensures
        s.insert(i, x).to_multiset() == s.to_multiset().insert(x),
{
    broadcast use vstd::seq_lib::group_to_multiset_ensures;

    let left = s.subrange(0, i);
    let right = s.subrange(i, s.len() as int);
    assert(s.insert(i, x) =~= left + seq![x] + right);
    assert(s =~= left + right);
    vstd::seq_lib::lemma_multiset_commutative(left + seq![x], right);
    vstd::seq_lib::lemma_multiset_commutative(left, seq![x]);
    vstd::seq_lib::lemma_multiset_commutative(left, right);
    assert(seq![x] =~= Seq::<Seq<u8>>::empty().push(x));
    assert(Seq::<Seq<u8>>::empty().to_multiset() =~= Multiset::<Seq<u8>>::empty());
    assert(seq![x].to_multiset() =~= Multiset::<Seq<u8>>::empty().insert(x));
    assert(s.insert(i, x).to_multiset() =~= s.to_multiset().insert(x));
}

} // verus!
