//! Byte-level text model shared by the cipher engine and the file scanner:
//! ASCII whitespace trimming, first-byte search, and splitting a file into
//! lines the way `str::lines` does (split at `\n`, strip one trailing `\r`
//! from a line that was terminated by `\n`, no empty line after a final
//! newline).

use vstd::prelude::*;
use vstd::slice::{slice_index_get, slice_subrange, slice_to_vec};

verus! {

/// Line feed.
pub const LF: u8 = 10;

/// Carriage return.
pub const CR: u8 = 13;

/// Number sign, the comment marker.
pub const HASH: u8 = 35;

/// Equals sign, the key/value separator.
pub const EQ: u8 = 61;

/// ASCII whitespace: tab, line feed, vertical tab, form feed, carriage
/// return, space.
pub open spec fn is_ws_byte(b: u8) -> bool {
    b == 9 || b == 10 || b == 11 || b == 12 || b == 13 || b == 32
}

pub open spec fn ws_free(s: Seq<u8>) -> bool {
    forall|i: int| 0 <= i < s.len() ==> !is_ws_byte(#[trigger] s[i])
}

pub open spec fn trim_start_spec(s: Seq<u8>) -> Seq<u8>
    decreases s.len(),
{
    if s.len() > 0 && is_ws_byte(s[0]) {
        trim_start_spec(s.drop_first())
    } else {
        s
    }
}

pub open spec fn trim_end_spec(s: Seq<u8>) -> Seq<u8>
    decreases s.len(),
{
    if s.len() > 0 && is_ws_byte(s.last()) {
        trim_end_spec(s.drop_last())
    } else {
        s
    }
}

/// The byte sequence with leading and trailing ASCII whitespace removed.
pub open spec fn trim_spec(s: Seq<u8>) -> Seq<u8> {
    trim_end_spec(trim_start_spec(s))
}

/// If the first `k` bytes are whitespace and byte `k` (when present) is not,
/// trimming the front keeps exactly the bytes from `k` on.
pub proof fn lemma_trim_start_at(s: Seq<u8>, k: int)
    requires
        0 <= k <= s.len(),
        forall|i: int| 0 <= i < k ==> is_ws_byte(#[trigger] s[i]),
        k < s.len() ==> !is_ws_byte(s[k]),
    ensures
        trim_start_spec(s) == s.subrange(k, s.len() as int),
    decreases k,
{
    if k == 0 {
        assert(trim_start_spec(s) =~= s.subrange(0, s.len() as int));
    } else {
        lemma_trim_start_at(s.drop_first(), k - 1);
        assert(s.drop_first().subrange(k - 1, s.drop_first().len() as int) =~= s.subrange(
            k,
            s.len() as int,
        ));
    }
}

/// If the bytes from `m` on are whitespace and byte `m - 1` (when present) is
/// not, trimming the back keeps exactly the first `m` bytes.
pub proof fn lemma_trim_end_at(s: Seq<u8>, m: int)
    requires
        0 <= m <= s.len(),
        forall|i: int| m <= i < s.len() ==> is_ws_byte(#[trigger] s[i]),
        m > 0 ==> !is_ws_byte(s[m - 1]),
    ensures
        trim_end_spec(s) == s.subrange(0, m),
    decreases s.len(),
{
    if m == s.len() {
        assert(trim_end_spec(s) =~= s.subrange(0, m));
    } else {
        assert(is_ws_byte(s.last()));
        lemma_trim_end_at(s.drop_last(), m);
        assert(s.drop_last().subrange(0, m) =~= s.subrange(0, m));
    }
}

/// A sequence without any whitespace byte is left unchanged by trimming.
pub proof fn lemma_trim_ws_free(s: Seq<u8>)
    requires
        ws_free(s),
    ensures
        trim_spec(s) == s,
{
    lemma_trim_start_at(s, 0);
    assert(s.subrange(0, s.len() as int) =~= s);
    lemma_trim_end_at(s, s.len() as int);
}

/// Index of the first occurrence of `b` in `s`, if any.
pub open spec fn find_byte(s: Seq<u8>, b: u8) -> Option<int>
    decreases s.len(),
{
    if s.len() == 0 {
        None
    } else if s[0] == b {
        Some(0)
    } else {
        match find_byte(s.drop_first(), b) {
            Some(i) => Some(i + 1),
            None => None,
        }
    }
}

/// `find_byte` from its pointwise characterization: if the first `k` bytes
/// differ from `b` and byte `k` (when present) equals `b`, the first
/// occurrence is at `k` (or there is none when `k` reaches the end).
pub proof fn lemma_find_byte_at(s: Seq<u8>, b: u8, k: int)
    requires
        0 <= k <= s.len(),
        forall|i: int| 0 <= i < k ==> #[trigger] s[i] != b,
        k < s.len() ==> s[k] == b,
    ensures
        find_byte(s, b) == if k < s.len() {
            Some(k)
        } else {
            None::<int>
        },
    decreases k,
{
    if k == 0 {
    } else {
        lemma_find_byte_at(s.drop_first(), b, k - 1);
    }
}

/// What `find_byte` says of the bytes around the found position.
pub proof fn lemma_find_byte_ensures(s: Seq<u8>, b: u8)
    ensures
        match find_byte(s, b) {
            Some(i) => 0 <= i < s.len() && s[i] == b && forall|j: int|
                0 <= j < i ==> #[trigger] s[j] != b,
            None => forall|j: int| 0 <= j < s.len() ==> #[trigger] s[j] != b,
        },
    decreases s.len(),
{
    if s.len() > 0 && s[0] != b {
        lemma_find_byte_ensures(s.drop_first(), b);
        let t = s.drop_first();
        match find_byte(t, b) {
            Some(i) => {
                assert(s[i + 1] == t[i]);
                assert forall|j: int| 0 <= j < i + 1 implies #[trigger] s[j] != b by {
                    if j > 0 {
                        assert(s[j] == t[j - 1]);
                    }
                }
            },
            None => {
                assert forall|j: int| 0 <= j < s.len() implies #[trigger] s[j] != b by {
                    if j > 0 {
                        assert(s[j] == t[j - 1]);
                    }
                }
            },
        }
    }
}

/// A line as produced by splitting at `\n`: one trailing carriage return is
/// removed, mirroring how `str::lines` treats `\r\n` endings.
pub open spec fn strip_cr(l: Seq<u8>) -> Seq<u8> {
    if l.len() > 0 && l.last() == CR {
        l.drop_last()
    } else {
        l
    }
}

/// The lines of a file: split at `\n`, strip one `\r` before each split
/// point, and produce no empty line after a final newline.
pub open spec fn lines_spec(s: Seq<u8>) -> Seq<Seq<u8>>
    decreases s.len(),
    via lines_spec_decreases
{
    if s.len() == 0 {
        Seq::empty()
    } else {
        match find_byte(s, LF) {
            Some(i) => seq![strip_cr(s.subrange(0, i))] + lines_spec(
                s.subrange(i + 1, s.len() as int),
            ),
            None => seq![s],
        }
    }
}

#[via_fn]
proof fn lines_spec_decreases(s: Seq<u8>) {
    lemma_find_byte_ensures(s, LF);
}

/// Lines joined with a single `\n` between them and none at the end.
pub open spec fn join_lines(ls: Seq<Seq<u8>>) -> Seq<u8>
    decreases ls.len(),
{
    if ls.len() == 0 {
        Seq::empty()
    } else if ls.len() == 1 {
        ls[0]
    } else {
        ls[0] + seq![LF] + join_lines(ls.drop_first())
    }
}

/// Joining after appending a line appends the line after a separator.
pub proof fn lemma_join_lines_push(ls: Seq<Seq<u8>>, x: Seq<u8>)
    ensures
        join_lines(ls.push(x)) == if ls.len() == 0 {
            x
        } else {
            join_lines(ls) + seq![LF] + x
        },
    decreases ls.len(),
{
    if ls.len() == 0 {
        assert(ls.push(x)[0] =~= x);
        assert(join_lines(ls.push(x)) == x);
    } else {
        lemma_join_lines_push(ls.drop_first(), x);
        assert(ls.push(x).drop_first() =~= ls.drop_first().push(x));
        assert(ls.push(x)[0] == ls[0]);
        if ls.len() == 1 {
            assert(ls.drop_first().len() == 0);
            assert(join_lines(ls.push(x)) =~= join_lines(ls) + seq![LF] + x);
        } else {
            assert(join_lines(ls.push(x)) =~= join_lines(ls) + seq![LF] + x);
        }
    }
}

/// A line of nothing but whitespace.
pub open spec fn is_blank(l: Seq<u8>) -> bool {
    trim_spec(l).len() == 0
}

/// A line whose first non-whitespace byte is `#`.
pub open spec fn is_comment(l: Seq<u8>) -> bool {
    trim_spec(l).len() > 0 && trim_spec(l)[0] == HASH
}

/// A `KEY=VALUE` line: not blank, not a comment, and holding an `=`.
pub open spec fn is_assignment(l: Seq<u8>) -> bool {
    !is_blank(l) && !is_comment(l) && find_byte(l, EQ) is Some
}

/// Everything before the first `=` of an assignment line, verbatim.
pub open spec fn line_key(l: Seq<u8>) -> Seq<u8> {
    l.subrange(0, find_byte(l, EQ)->Some_0)
}

/// Everything after the first `=` of an assignment line, verbatim.
pub open spec fn line_value(l: Seq<u8>) -> Seq<u8> {
    l.subrange(find_byte(l, EQ)->Some_0 + 1, l.len() as int)
}

/// Whether `b` is ASCII whitespace.
pub fn is_ws(b: u8) -> (r: bool)
    ensures
        r == is_ws_byte(b),
{
    b == 9 || b == 10 || b == 11 || b == 12 || b == 13 || b == 32
}

/// Trims ASCII whitespace from both ends.
pub fn trim_bytes(s: &[u8]) -> (r: Vec<u8>)
    ensures
        r@ == trim_spec(s@),
{
    let n = s.len();
    let mut start: usize = 0;
    while start < n && is_ws(*slice_index_get(s, start))
        invariant
            n == s@.len(),
            0 <= start <= n,
            forall|i: int| 0 <= i < start ==> is_ws_byte(#[trigger] s@[i]),
        decreases n - start,
    {
        start = start + 1;
    }
    let mut end: usize = n;
    while end > start && is_ws(*slice_index_get(s, end - 1))
        invariant
            n == s@.len(),
            0 <= start <= end <= n,
            forall|i: int| end <= i < n ==> is_ws_byte(#[trigger] s@[i]),
            start < n ==> !is_ws_byte(s@[start as int]),
            start == end ==> start == n || !is_ws_byte(s@[start as int]),
        decreases end,
    {
        end = end - 1;
    }
    proof {
        lemma_trim_start_at(s@, start as int);
        let t = s@.subrange(start as int, n as int);
        assert forall|i: int| end - start <= i < t.len() implies is_ws_byte(#[trigger] t[i]) by {
            assert(t[i] == s@[start + i]);
        }
        if end > start {
            assert(t[end - start - 1] == s@[end - 1]);
        }
        lemma_trim_end_at(t, end - start);
        assert(t.subrange(0, end - start) =~= s@.subrange(start as int, end as int));
    }
    slice_to_vec(slice_subrange(s, start, end))
}

/// Index of the first occurrence of `b` in `s`, if any.
pub fn find_byte_index(s: &[u8], b: u8) -> (r: Option<usize>)
    ensures
        match r {
            Some(i) => find_byte(s@, b) == Some(i as int),
            None => find_byte(s@, b) is None,
        },
{
    let n = s.len();
    let mut j: usize = 0;
    while j < n && *slice_index_get(s, j) != b
        invariant
            n == s@.len(),
            0 <= j <= n,
            forall|i: int| 0 <= i < j ==> #[trigger] s@[i] != b,
        decreases n - j,
    {
        j = j + 1;
    }
    proof {
        lemma_find_byte_at(s@, b, j as int);
    }
    if j < n {
        Some(j)
    } else {
        None
    }
}

/// Splits a file into its lines; see `lines_spec`.
pub fn split_lines(content: &[u8]) -> (r: Vec<Vec<u8>>)
    ensures
        r@.len() == lines_spec(content@).len(),
        forall|i: int| 0 <= i < r@.len() ==> #[trigger] r@[i]@ == lines_spec(content@)[i],
{
    let n = content.len();
    let mut r: Vec<Vec<u8>> = Vec::new();
    let mut pos: usize = 0;
    let ghost all = lines_spec(content@);
    proof {
        assert(content@.subrange(0, n as int) =~= content@);
        assert(r@.map_values(|v: Vec<u8>| v@) =~= Seq::<Seq<u8>>::empty());
    }
    while pos < n
        invariant
            n == content@.len(),
            0 <= pos <= n,
            all == lines_spec(content@),
            all =~= r@.map_values(|v: Vec<u8>| v@) + lines_spec(content@.subrange(
                pos as int,
                n as int,
            )),
        decreases n - pos,
    {
        let ghost rest = content@.subrange(pos as int, n as int);
        let mut j: usize = pos;
        while j < n && *slice_index_get(content, j) != LF
            invariant
                n == content@.len(),
                pos <= j <= n,
                forall|i: int| pos <= i < j ==> #[trigger] content@[i] != LF,
            decreases n - j,
        {
            j = j + 1;
        }
        proof {
            assert forall|i: int| 0 <= i < j - pos implies #[trigger] rest[i] != LF by {
                assert(rest[i] == content@[pos + i]);
            }
            if j < n {
                assert(rest[j - pos] == content@[j as int]);
            }
            lemma_find_byte_at(rest, LF, j - pos);
        }
        if j < n {
            let end = if j > pos && *slice_index_get(content, j - 1) == CR {
                j - 1
            } else {
                j
            };
            let line = slice_to_vec(slice_subrange(content, pos, end));
            proof {
                let head = rest.subrange(0, j - pos);
                assert(strip_cr(head) =~= content@.subrange(pos as int, end as int)) by {
                    assert(head.len() == j - pos);
                    if j > pos {
                        assert(head.last() == content@[j - 1]);
                    }
                    if head.len() > 0 && head.last() == CR {
                        assert(head.drop_last() =~= content@.subrange(pos as int, j - 1));
                    } else {
                        assert(head =~= content@.subrange(pos as int, j as int));
                    }
                }
                assert(rest.subrange(j - pos + 1, rest.len() as int) =~= content@.subrange(
                    j + 1,
                    n as int,
                ));
                assert(lines_spec(rest) =~= seq![strip_cr(head)] + lines_spec(
                    content@.subrange(j + 1, n as int),
                ));
                assert((r@.push(line)).map_values(|v: Vec<u8>| v@) =~= r@.map_values(
                    |v: Vec<u8>| v@,
                ).push(line@));
                assert(all =~= (r@.push(line)).map_values(|v: Vec<u8>| v@) + lines_spec(
                    content@.subrange(j + 1, n as int),
                ));
            }
            r.push(line);
            pos = j + 1;
        } else {
            let line = slice_to_vec(slice_subrange(content, pos, n));
            proof {
                assert(rest =~= content@.subrange(pos as int, n as int));
                assert(lines_spec(rest) =~= seq![rest]);
                assert((r@.push(line)).map_values(|v: Vec<u8>| v@) =~= r@.map_values(
                    |v: Vec<u8>| v@,
                ).push(line@));
                assert(lines_spec(content@.subrange(n as int, n as int)) =~= Seq::<
                    Seq<u8>,
                >::empty());
                assert(all =~= (r@.push(line)).map_values(|v: Vec<u8>| v@) + lines_spec(
                    content@.subrange(n as int, n as int),
                ));
            }
            r.push(line);
            pos = n;
        }
    }
    proof {
        assert(lines_spec(content@.subrange(pos as int, n as int)) =~= Seq::<Seq<u8>>::empty());
        assert(all =~= r@.map_values(|v: Vec<u8>| v@));
        assert forall|i: int| 0 <= i < r@.len() implies #[trigger] r@[i]@ == all[i] by {
            assert(r@.map_values(|v: Vec<u8>| v@)[i] == r@[i]@);
        }
    }
    r
}

} // verus!
