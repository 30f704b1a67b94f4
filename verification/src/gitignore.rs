//! Which of a set of filenames a `.gitignore` does not yet list: a name is
//! listed when some line of the file, trimmed, equals it exactly.

use vstd::prelude::*;

use crate::text::{lines_spec, split_lines, trim_bytes, trim_spec};

verus! {

/// Some line of `content`, trimmed, equals `name`.
pub open spec fn listed_in(content: Seq<u8>, name: Seq<u8>) -> bool {
    exists|i: int|
        0 <= i < lines_spec(content).len() && trim_spec(#[trigger] lines_spec(content)[i]) == name
}

/// Compares two byte strings for equality.
fn bytes_eq(a: &[u8], b: &[u8]) -> (r: bool)
    ensures
        r == (a@ == b@),
{
    let n = a.len();
    if n != b.len() {
        proof {
            assert(a@.len() != b@.len());
        }
        return false;
    }
    let mut i: usize = 0;
    while i < n && *vstd::slice::slice_index_get(a, i) == *vstd::slice::slice_index_get(b, i)
        invariant
            n == a@.len(),
            n == b@.len(),
            0 <= i <= n,
            forall|j: int| 0 <= j < i ==> a@[j] == #[trigger] b@[j],
        decreases n - i,
    {
        i = i + 1;
    }
    if i == n {
        proof {
            assert(a@ =~= b@);
        }
        true
    } else {
        proof {
            assert(a@[i as int] != b@[i as int]);
        }
        false
    }
}

/// The names among `names` that `existing` does not list yet, in order:
/// exactly those a caller still has to append.
pub fn missing_from_gitignore(existing: &[u8], names: &Vec<Vec<u8>>) -> (r: Vec<Vec<u8>>)
    ensures
        r@.map_values(|v: Vec<u8>| v@) == names@.map_values(|v: Vec<u8>| v@).filter(
            |n: Seq<u8>| !listed_in(existing@, n),
        ),
{
    let ghost ls = lines_spec(existing@);
    let ghost nv = names@.map_values(|v: Vec<u8>| v@);
    let lines = split_lines(existing);
    let m = lines.len();
    let mut trimmed: Vec<Vec<u8>> = Vec::new();
    let mut j: usize = 0;
    while j < m
        invariant
            ls == lines_spec(existing@),
            m == lines@.len(),
            lines@.len() == ls.len(),
            forall|i: int| 0 <= i < ls.len() ==> #[trigger] lines@[i]@ == ls[i],
            0 <= j <= m,
            trimmed@.len() == j,
            forall|i: int| 0 <= i < j ==> #[trigger] trimmed@[i]@ == trim_spec(ls[i]),
        decreases m - j,
    {
        let t = trim_bytes(lines[j].as_slice());
        trimmed.push(t);
        j = j + 1;
    }
    let n = names.len();
    let mut r: Vec<Vec<u8>> = Vec::new();
    let mut k: usize = 0;
    proof {
        assert(nv.subrange(0, 0) =~= Seq::<Seq<u8>>::empty());
        assert(r@.map_values(|v: Vec<u8>| v@) =~= Seq::<Seq<u8>>::empty());
    }
    while k < n
        invariant
            ls == lines_spec(existing@),
            nv == names@.map_values(|v: Vec<u8>| v@),
            n == names@.len(),
            nv.len() == n,
            m == ls.len(),
            trimmed@.len() == m,
            forall|i: int| 0 <= i < m ==> #[trigger] trimmed@[i]@ == trim_spec(ls[i]),
            0 <= k <= n,
            r@.map_values(|v: Vec<u8>| v@) == nv.subrange(0, k as int).filter(
                |x: Seq<u8>| !listed_in(existing@, x),
            ),
        decreases n - k,
    {
        let name = &names[k];
        let ghost prefix = nv.subrange(0, k as int);
        let ghost prefix1 = nv.subrange(0, k + 1);
        proof {
            assert(nv[k as int] == names@[k as int]@);
            assert(prefix1 =~= prefix.push(nv[k as int]));
            assert(prefix1.drop_last() =~= prefix);
            reveal_with_fuel(Seq::filter, 2);
        }
        let mut found = false;
        let mut j2: usize = 0;
        while j2 < m
            invariant
                m == trimmed@.len(),
                0 <= j2 <= m,
                found <==> exists|i: int| 0 <= i < j2 && #[trigger] trimmed@[i]@ == name@,
            decreases m - j2,
        {
            if bytes_eq(trimmed[j2].as_slice(), name.as_slice()) {
                found = true;
                proof {
                    assert(trimmed@[j2 as int]@ == name@);
                }
            } else {
                proof {
                    if (exists|i: int| 0 <= i < j2 + 1 && #[trigger] trimmed@[i]@ == name@) && !(
                    exists|i: int| 0 <= i < j2 && #[trigger] trimmed@[i]@ == name@) {
                        let w = choose|i: int| 0 <= i < j2 + 1 && #[trigger] trimmed@[i]@ == name@;
                        assert(w == j2 as int);
                        assert(false);
                    }
                }
            }
            j2 = j2 + 1;
        }
        proof {
            if found {
                let w = choose|i: int| 0 <= i < m && #[trigger] trimmed@[i]@ == name@;
                assert(trim_spec(ls[w]) == name@);
                assert(listed_in(existing@, name@));
            } else {
                if listed_in(existing@, name@) {
                    let w = choose|i: int|
                        0 <= i < lines_spec(existing@).len() && trim_spec(
                            #[trigger] lines_spec(existing@)[i],
                        ) == name@;
                    assert(trimmed@[w]@ == name@);
                    assert(false);
                }
            }
        }
        if !found {
            r.push(name.clone());
            proof {
                assert(r@.map_values(|v: Vec<u8>| v@) =~= prefix.filter(
                    |x: Seq<u8>| !listed_in(existing@, x),
                ).push(nv[k as int]));
            }
        }
        k = k + 1;
    }
    proof {
        assert(nv.subrange(0, n as int) =~= nv);
    }
    r
}

} // verus!
