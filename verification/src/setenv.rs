//! Helpers for exporting a `.env` file into the shell environment: parsing a
//! file into key/value pairs (one pair of surrounding quotes removed from a
//! value) and formatting the `export` line appended to a shell config file.

use vstd::prelude::*;
use vstd::slice::{slice_subrange, slice_to_vec};

use crate::text::{
    find_byte_index, is_assignment, lemma_find_byte_ensures, line_key, line_value, lines_spec,
    split_lines, trim_bytes, trim_spec, EQ, HASH,
};

verus! {

/// Double quote.
pub const DQ: u8 = 34;

/// Single quote.
pub const SQ: u8 = 39;

/// A value with one pair of matching surrounding quotes (double or single)
/// removed, other values unchanged.
pub open spec fn unquote_spec(v: Seq<u8>) -> Seq<u8> {
    if v.len() >= 2 && v[0] == DQ && v.last() == DQ {
        v.subrange(1, v.len() - 1)
    } else if v.len() >= 2 && v[0] == SQ && v.last() == SQ {
        v.subrange(1, v.len() - 1)
    } else {
        v
    }
}

/// The key/value pairs of a file: one per assignment line whose trimmed key
/// is nonempty, in order; keys and values trimmed, values unquoted.
pub open spec fn env_pairs_of(ls: Seq<Seq<u8>>) -> Seq<(Seq<u8>, Seq<u8>)>
    decreases ls.len(),
{
    if ls.len() == 0 {
        Seq::empty()
    } else if is_assignment(ls.last()) && trim_spec(line_key(ls.last())).len() > 0 {
        env_pairs_of(ls.drop_last()).push(
            (trim_spec(line_key(ls.last())), unquote_spec(trim_spec(line_value(ls.last())))),
        )
    } else {
        env_pairs_of(ls.drop_last())
    }
}

/// Removes one pair of matching surrounding quotes, if present.
fn unquote(v: Vec<u8>) -> (r: Vec<u8>)
    ensures
        r@ == unquote_spec(v@),
{
    let n = v.len();
    if n >= 2 && v[0] == DQ && v[n - 1] == DQ {
        slice_to_vec(slice_subrange(v.as_slice(), 1, n - 1))
    } else if n >= 2 && v[0] == SQ && v[n - 1] == SQ {
        slice_to_vec(slice_subrange(v.as_slice(), 1, n - 1))
    } else {
        v
    }
}

/// Parses a file's contents into its key/value pairs; see `env_pairs_of`.
pub fn parse_env_file(content: &[u8]) -> (r: Vec<(Vec<u8>, Vec<u8>)>)
    ensures
        r@.map_values(|p: (Vec<u8>, Vec<u8>)| (p.0@, p.1@)) == env_pairs_of(lines_spec(content@)),
{
    let ghost ls = lines_spec(content@);
    let lines = split_lines(content);
    let n = lines.len();
    let mut r: Vec<(Vec<u8>, Vec<u8>)> = Vec::new();
    let mut k: usize = 0;
    proof {
        assert(ls.subrange(0, 0) =~= Seq::<Seq<u8>>::empty());
        assert(r@.map_values(|p: (Vec<u8>, Vec<u8>)| (p.0@, p.1@)) =~= Seq::<
            (Seq<u8>, Seq<u8>),
        >::empty());
    }
    while k < n
        invariant
            ls == lines_spec(content@),
            n == lines@.len(),
            lines@.len() == ls.len(),
            forall|i: int| 0 <= i < ls.len() ==> #[trigger] lines@[i]@ == ls[i],
            0 <= k <= n,
            r@.map_values(|p: (Vec<u8>, Vec<u8>)| (p.0@, p.1@)) == env_pairs_of(
                ls.subrange(0, k as int),
            ),
        decreases n - k,
    {
        let line = &lines[k];
        proof {
            assert(ls.subrange(0, k + 1).drop_last() =~= ls.subrange(0, k as int));
            assert(ls.subrange(0, k + 1).last() == ls[k as int]);
        }
        let ghost prefix = ls.subrange(0, k as int);
        let ghost prefix1 = ls.subrange(0, k + 1);
        let t = trim_bytes(line.as_slice());
        if t.len() > 0 && t[0] != HASH {
            match find_byte_index(line.as_slice(), EQ) {
                Some(i) => {
                    proof {
                        lemma_find_byte_ensures(ls[k as int], EQ);
                        assert(is_assignment(ls[k as int]));
                    }
                    let m = line.len();
                    let key = trim_bytes(slice_subrange(line.as_slice(), 0, i));
                    let value = trim_bytes(slice_subrange(line.as_slice(), i + 1, m));
                    let value = unquote(value);
                    proof {
                        assert(key@ == trim_spec(line_key(ls[k as int])));
                        assert(value@ == unquote_spec(trim_spec(line_value(ls[k as int]))));
                    }
                    if key.len() > 0 {
                        let ghost kp = key@;
                        let ghost vp = value@;
                        let ghost old_r = r@;
                        proof {
                            assert(env_pairs_of(prefix1) == env_pairs_of(prefix).push((kp, vp)));
                        }
                        r.push((key, value));
                        proof {
                            assert(r@.map_values(|p: (Vec<u8>, Vec<u8>)| (p.0@, p.1@))
                                =~= old_r.map_values(|p: (Vec<u8>, Vec<u8>)| (p.0@, p.1@)).push(
                                (kp, vp),
                            ));
                        }
                    } else {
                        proof {
                            assert(env_pairs_of(prefix1) == env_pairs_of(prefix));
                        }
                    }
                },
                None => {
                    proof {
                        lemma_find_byte_ensures(ls[k as int], EQ);
                        assert(!is_assignment(ls[k as int]));
                        assert(env_pairs_of(prefix1) == env_pairs_of(prefix));
                    }
                },
            }
        } else {
            proof {
                assert(!is_assignment(ls[k as int]));
                assert(env_pairs_of(prefix1) == env_pairs_of(prefix));
            }
        }
        k = k + 1;
    }
    proof {
        assert(ls.subrange(0, ls.len() as int) =~= ls);
    }
    r
}

/// The bytes of `export `.
pub open spec fn export_prefix() -> Seq<u8> {
    seq![101u8, 120u8, 112u8, 111u8, 114u8, 116u8, 32u8]
}

/// The shell line that sets `key` to `value` permanently:
/// `export KEY="VALUE"` followed by a newline.
pub open spec fn export_line_spec(key: Seq<u8>, value: Seq<u8>) -> Seq<u8> {
    export_prefix() + key + seq![EQ, DQ] + value + seq![DQ, 10u8]
}

/// Formats the `export` line appended to a shell config file.
pub fn export_line(key: &[u8], value: &[u8]) -> (r: Vec<u8>)
    ensures
        r@ == export_line_spec(key@, value@),
{
    let mut r: Vec<u8> = Vec::new();
    r.push(101);
    r.push(120);
    r.push(112);
    r.push(111);
    r.push(114);
    r.push(116);
    r.push(32);
    r.extend_from_slice(key);
    r.push(EQ);
    r.push(DQ);
    r.extend_from_slice(value);
    r.push(DQ);
    r.push(10);
    proof {
        assert(r@ =~= export_line_spec(key@, value@));
    }
    r
}

} // verus!
