//! Byte-level model of a document.
//!
//! A document is a sequence of bytes; the byte `0x0A` is the only line
//! terminator. These spec functions define newline counting, line
//! boundaries, the line decomposition used by `Buffer::get_lines`, and the
//! byte-splice operations that insertion and deletion perform. The lemmas
//! relate prefix newline counts to line boundaries; they carry the whole
//! line-oriented reasoning of the buffer.

use vstd::prelude::*;

verus! {

/// The one recognized line terminator.
pub const NL: u8 = 10;

/// Number of newline bytes in `s`.
pub open spec fn count_nl(s: Seq<u8>) -> nat
    decreases s.len(),
{
    if s.len() == 0 {
        0
    } else {
        (if s[0] == NL {
            1nat
        } else {
            0nat
        }) + count_nl(s.drop_first())
    }
}

/// Position of the `k`-th newline of `s` (0-indexed); meaningful for
/// `0 <= k < count_nl(s)`.
pub open spec fn nl_pos(s: Seq<u8>, k: int) -> int
    decreases s.len(),
{
    if s.len() == 0 {
        0
    } else if s[0] == NL {
        if k == 0 {
            0
        } else {
            1 + nl_pos(s.drop_first(), k - 1)
        }
    } else {
        1 + nl_pos(s.drop_first(), k)
    }
}

/// Byte offset where line `l` begins; meaningful for `0 <= l <= count_nl(s)`.
pub open spec fn line_start(s: Seq<u8>, l: int) -> int {
    if l == 0 {
        0
    } else {
        nl_pos(s, l - 1) + 1
    }
}

/// Byte offset just past the content of line `l` (its newline, or the end of
/// the document for the final line).
pub open spec fn line_end(s: Seq<u8>, l: int) -> int {
    if l < count_nl(s) {
        nl_pos(s, l)
    } else {
        s.len() as int
    }
}

/// The bytes of line `l`, without any newline.
pub open spec fn line_at(s: Seq<u8>, l: int) -> Seq<u8> {
    s.subrange(line_start(s, l), line_end(s, l))
}

/// Number of lines of the document. A trailing newline does not open an
/// extra empty line; an empty document has no lines.
pub open spec fn num_lines(s: Seq<u8>) -> int {
    count_nl(s) + if s.len() > 0 && s.last() != NL {
        1int
    } else {
        0int
    }
}

/// The lines with indices in `[a, b)`, truncated to the lines that exist.
pub open spec fn lines_in(s: Seq<u8>, a: int, b: int) -> Seq<Seq<u8>> {
    let hi = if b <= num_lines(s) {
        b
    } else {
        num_lines(s)
    };
    if a >= hi {
        Seq::empty()
    } else {
        Seq::new((hi - a) as nat, |i: int| line_at(s, a + i))
    }
}

/// Whether `(l, c)` denotes a byte position of the document: a line that
/// exists (or the empty position just past a final newline) and a column no
/// further than that line's length.
pub open spec fn valid_pos(s: Seq<u8>, l: int, c: int) -> bool {
    &&& 0 <= l <= count_nl(s)
    &&& 0 <= c
    &&& line_start(s, l) + c <= line_end(s, l)
}

/// The byte offset of position `(l, c)`.
pub open spec fn pos_at(s: Seq<u8>, l: int, c: int) -> int {
    line_start(s, l) + c
}

/// `s` with `t` inserted at byte offset `p`.
pub open spec fn splice_in(s: Seq<u8>, p: int, t: Seq<u8>) -> Seq<u8> {
    s.subrange(0, p) + t + s.subrange(p, s.len() as int)
}

/// `s` with the `n` bytes at offset `p` removed.
pub open spec fn splice_out(s: Seq<u8>, p: int, n: int) -> Seq<u8> {
    s.subrange(0, p) + s.subrange(p + n, s.len() as int)
}

pub proof fn lemma_count_nl_concat(a: Seq<u8>, b: Seq<u8>)
    ensures
        count_nl(a + b) == count_nl(a) + count_nl(b),
    decreases a.len(),
{
    if a.len() == 0 {
        assert(a + b =~= b);
    } else {
        lemma_count_nl_concat(a.drop_first(), b);
        assert((a + b).drop_first() =~= a.drop_first() + b);
        assert((a + b)[0] == a[0]);
    }
}

pub proof fn lemma_count_nl_le(s: Seq<u8>)
    ensures
        count_nl(s) <= s.len(),
    decreases s.len(),
{
    if s.len() > 0 {
        lemma_count_nl_le(s.drop_first());
    }
}

pub proof fn lemma_count_nl_singleton(x: u8)
    ensures
        count_nl(seq![x]) == (if x == NL {
            1nat
        } else {
            0nat
        }),
{
    let s = seq![x];
    assert(s.len() == 1 && s[0] == x);
    assert(s.drop_first() =~= Seq::<u8>::empty());
    assert(count_nl(s.drop_first()) == 0);
}

/// Newline counts add up over a split of a subrange.
pub proof fn lemma_count_nl_split(s: Seq<u8>, i: int, j: int, k: int)
    requires
        0 <= i <= j <= k <= s.len(),
    ensures
        count_nl(s.subrange(i, k)) == count_nl(s.subrange(i, j)) + count_nl(s.subrange(j, k)),
{
    assert(s.subrange(i, k) =~= s.subrange(i, j) + s.subrange(j, k));
    lemma_count_nl_concat(s.subrange(i, j), s.subrange(j, k));
}

/// Extending a prefix by one byte adds that byte's newline count.
pub proof fn lemma_count_nl_step(s: Seq<u8>, p: int)
    requires
        0 <= p < s.len(),
    ensures
        count_nl(s.subrange(0, p + 1)) == count_nl(s.subrange(0, p)) + (if s[p] == NL {
            1nat
        } else {
            0nat
        }),
{
    assert(s.subrange(p, p + 1) =~= seq![s[p]]);
    lemma_count_nl_singleton(s[p]);
    lemma_count_nl_split(s, 0, p, p + 1);
}

/// Characterization of `nl_pos`: the `k`-th newline is a newline byte with
/// exactly `k` newlines before it.
pub proof fn lemma_nl_pos(s: Seq<u8>, k: int)
    requires
        0 <= k < count_nl(s),
    ensures
        0 <= nl_pos(s, k) < s.len(),
        s[nl_pos(s, k)] == NL,
        count_nl(s.subrange(0, nl_pos(s, k))) == k,
    decreases s.len(),
{
    lemma_count_nl_le(s);
    let t = s.drop_first();
    if s[0] == NL {
        if k == 0 {
            assert(s.subrange(0, 0) =~= Seq::<u8>::empty());
        } else {
            lemma_nl_pos(t, k - 1);
            let q = nl_pos(t, k - 1);
            assert(s[1 + q] == t[q]);
            assert(s.subrange(0, 1 + q) =~= seq![s[0]] + t.subrange(0, q));
            lemma_count_nl_concat(seq![s[0]], t.subrange(0, q));
            lemma_count_nl_singleton(s[0]);
        }
    } else {
        lemma_nl_pos(t, k);
        let q = nl_pos(t, k);
        assert(s[1 + q] == t[q]);
        assert(s.subrange(0, 1 + q) =~= seq![s[0]] + t.subrange(0, q));
        lemma_count_nl_concat(seq![s[0]], t.subrange(0, q));
        lemma_count_nl_singleton(s[0]);
    }
}

/// Converse characterization: a newline byte at `p` is the newline with
/// index `count_nl(s[..p])`.
pub proof fn lemma_nl_pos_of(s: Seq<u8>, p: int)
    requires
        0 <= p < s.len(),
        s[p] == NL,
    ensures
        count_nl(s.subrange(0, p)) < count_nl(s),
        nl_pos(s, count_nl(s.subrange(0, p)) as int) == p,
    decreases s.len(),
{
    assert(s.subrange(0, s.len() as int) =~= s);
    lemma_count_nl_step(s, p);
    lemma_count_nl_split(s, 0, p + 1, s.len() as int);
    let t = s.drop_first();
    if p == 0 {
        assert(s.subrange(0, 0) =~= Seq::<u8>::empty());
    } else {
        assert(t[p - 1] == s[p]);
        lemma_nl_pos_of(t, p - 1);
        assert(s.subrange(0, p) =~= seq![s[0]] + t.subrange(0, p - 1));
        lemma_count_nl_concat(seq![s[0]], t.subrange(0, p - 1));
        lemma_count_nl_singleton(s[0]);
    }
}

/// Line boundaries are ordered and stay inside the document.
pub proof fn lemma_line_bounds(s: Seq<u8>, l: int)
    requires
        0 <= l <= count_nl(s),
    ensures
        0 <= line_start(s, l),
        line_start(s, l) <= line_end(s, l),
        line_end(s, l) <= s.len(),
{
    if l < count_nl(s) {
        lemma_nl_pos(s, l);
    }
    if l > 0 {
        lemma_nl_pos(s, l - 1);
        if l < count_nl(s) {
            lemma_nl_pos(s, l);
            if nl_pos(s, l) <= nl_pos(s, l - 1) {
                lemma_count_nl_split(s, 0, nl_pos(s, l), nl_pos(s, l - 1));
                assert(false);
            }
        }
    }
}

/// The workhorse of line scanning: if `ls` starts a line (`m` newlines lie
/// before it, and the byte just before it, if any, is a newline) and no
/// newline occurs in `[ls, p)`, then `ls` is exactly where line `m` starts,
/// and a newline at `p` (or the end of the document) closes line `m` as
/// `s[ls..p]`.
pub proof fn lemma_line_shape(s: Seq<u8>, m: int, ls: int, p: int)
    requires
        0 <= ls <= p <= s.len(),
        count_nl(s.subrange(0, ls)) == m,
        ls == 0 || s[ls - 1] == NL,
        count_nl(s.subrange(ls, p)) == 0,
    ensures
        m <= count_nl(s),
        line_start(s, m) == ls,
        line_end(s, m) >= p,
        p < s.len() && s[p] == NL ==> m < count_nl(s) && line_end(s, m) == p && line_at(s, m)
            == s.subrange(ls, p) && m < num_lines(s) && count_nl(s.subrange(0, p + 1)) == m + 1,
        p == s.len() ==> count_nl(s) == m && line_end(s, m) == p,
        p == s.len() && ls < p ==> num_lines(s) == m + 1 && line_at(s, m) == s.subrange(ls, p),
        p == s.len() && ls == p ==> num_lines(s) == m,
{
    assert(s.subrange(0, s.len() as int) =~= s);
    lemma_count_nl_split(s, 0, ls, s.len() as int);
    lemma_count_nl_split(s, ls, p, s.len() as int);
    // line_start(s, m) == ls
    if m == 0 {
        if ls > 0 {
            lemma_count_nl_step(s, ls - 1);
            lemma_count_nl_le(s.subrange(0, ls - 1));
            assert(false);
        }
    } else {
        if ls == 0 {
            assert(s.subrange(0, 0) =~= Seq::<u8>::empty());
            assert(false);
        }
        lemma_count_nl_step(s, ls - 1);
        lemma_nl_pos_of(s, ls - 1);
    }
    if p < s.len() && s[p] == NL {
        lemma_count_nl_split(s, 0, ls, p);
        lemma_nl_pos_of(s, p);
        lemma_count_nl_step(s, p);
    }
    // no newline in [ls, p) puts the end of line m at or past p
    if m < count_nl(s) {
        lemma_nl_pos(s, m);
        let q = nl_pos(s, m);
        if q < p {
            if q < ls {
                lemma_count_nl_step(s, q);
                lemma_count_nl_split(s, 0, q + 1, ls);
                assert(false);
            } else {
                lemma_count_nl_step(s, q);
                lemma_count_nl_split(s, 0, ls, q);
                lemma_count_nl_split(s, 0, q, q + 1);
                lemma_count_nl_split(s, ls, q, p);
                lemma_count_nl_split(s, q, q + 1, p);
                assert(false);
            }
        }
    }
    if p == s.len() {
        if ls < p {
            if s[p - 1] == NL {
                lemma_count_nl_step(s, p - 1);
                lemma_count_nl_split(s, ls, p - 1, p);
                assert(count_nl(s.subrange(p - 1, p)) == count_nl(s.subrange(ls, p))
                    - count_nl(s.subrange(ls, p - 1)));
                assert(s.subrange(p - 1, p) =~= seq![s[p - 1]]);
                lemma_count_nl_singleton(s[p - 1]);
                assert(false);
            }
            assert(s.last() != NL);
        } else {
            if s.len() > 0 {
                assert(s.last() == s[ls - 1]);
            }
        }
    }
}

/// The lines joined with single newline bytes between them.
pub open spec fn join_nl(ls: Seq<Seq<u8>>) -> Seq<u8>
    decreases ls.len(),
{
    if ls.len() == 0 {
        Seq::empty()
    } else if ls.len() == 1 {
        ls[0]
    } else {
        ls[0] + seq![NL] + join_nl(ls.drop_first())
    }
}

/// Peeling the first line: past the first newline, the remaining document
/// has the remaining lines.
proof fn lemma_lines_peel(s: Seq<u8>)
    requires
        count_nl(s) > 0,
    ensures
        ({
            let p = nl_pos(s, 0);
            let rest = s.subrange(p + 1, s.len() as int);
            &&& 0 <= p < s.len() && s[p] == NL
            &&& count_nl(rest) == count_nl(s) - 1
            &&& num_lines(s) == 1 + num_lines(rest)
            &&& line_at(s, 0) == s.subrange(0, p)
            &&& rest.len() > 0 ==> rest.last() == s.last()
            &&& rest.len() == 0 ==> p == s.len() - 1
            &&& lines_in(s, 0, num_lines(s)) == seq![s.subrange(0, nl_pos(s, 0))] + lines_in(
                rest,
                0,
                num_lines(rest),
            )
        }),
{
    let p = nl_pos(s, 0);
    lemma_nl_pos(s, 0);
    let rest = s.subrange(p + 1, s.len() as int);
    assert(s.subrange(0, s.len() as int) =~= s);
    lemma_count_nl_step(s, p);
    lemma_count_nl_split(s, 0, p + 1, s.len() as int);
    assert(s.subrange(p + 1, s.len() as int) == rest);
    assert(count_nl(rest) == count_nl(s) - 1);
    // nl_pos shifts by p + 1
    assert forall|i: int| 0 <= i < count_nl(rest) implies nl_pos(s, i + 1) == p + 1 + nl_pos(
        rest,
        i,
    ) by {
        lemma_nl_pos(rest, i);
        let q = nl_pos(rest, i);
        assert(s[p + 1 + q] == rest[q]);
        assert(s.subrange(p + 1, p + 1 + q) =~= rest.subrange(0, q));
        lemma_count_nl_split(s, 0, p + 1, p + 1 + q);
        lemma_nl_pos_of(s, p + 1 + q);
    }
    // line_at shifts accordingly
    assert forall|i: int| 0 <= i <= count_nl(rest) implies line_at(s, i + 1) == line_at(
        rest,
        i,
    ) by {
        if i > 0 {
            lemma_nl_pos(rest, i - 1);
        }
        assert(line_start(s, i + 1) == p + 1 + line_start(rest, i));
        if i < count_nl(rest) {
            lemma_nl_pos(rest, i);
            assert(line_end(s, i + 1) == p + 1 + line_end(rest, i));
        } else {
            assert(line_end(s, i + 1) == s.len() as int);
            assert(line_end(rest, i) == rest.len() as int);
        }
        lemma_line_bounds(rest, i);
        assert(s.subrange(p + 1 + line_start(rest, i), p + 1 + line_end(rest, i))
            =~= rest.subrange(line_start(rest, i), line_end(rest, i)));
    }
    // one more line on this side of the first newline
    if rest.len() > 0 {
        assert(rest.last() == s.last());
        assert(num_lines(s) == 1 + num_lines(rest));
    } else {
        assert(p == s.len() - 1);
        assert(s.last() == NL);
        assert(num_lines(s) == count_nl(s));
        assert(num_lines(rest) == 0);
    }
    assert(line_at(s, 0) =~= s.subrange(0, p));
    let n = num_lines(s);
    let lhs = lines_in(s, 0, n);
    let rhs = seq![s.subrange(0, p)] + lines_in(rest, 0, num_lines(rest));
    assert(n >= 1);
    assert(lhs.len() == n);
    assert(rhs.len() == n);
    assert forall|i: int| 0 <= i < n implies lhs[i] == rhs[i] by {
        assert(lhs[i] == line_at(s, i));
        if i == 0 {
        } else {
            assert(rhs[i] == lines_in(rest, 0, num_lines(rest))[i - 1]);
            assert(rhs[i] == line_at(rest, i - 1));
            assert(i - 1 <= count_nl(rest));
            assert(line_at(s, i) == line_at(rest, i - 1));
        }
    }
    assert(lhs =~= rhs);
}

/// Line identity: joining all lines with newlines restores the document,
/// up to the trailing newline, which the line decomposition does not carry.
pub proof fn lemma_line_identity(s: Seq<u8>)
    ensures
        s.len() > 0 && s.last() == NL ==> join_nl(lines_in(s, 0, num_lines(s))).push(NL) == s,
        !(s.len() > 0 && s.last() == NL) ==> join_nl(lines_in(s, 0, num_lines(s))) == s,
    decreases count_nl(s),
{
    assert(s.subrange(0, s.len() as int) =~= s);
    if count_nl(s) == 0 {
        if s.len() == 0 {
            assert(num_lines(s) == 0);
            assert(join_nl(lines_in(s, 0, 0)) =~= s);
        } else {
            if s.last() == NL {
                lemma_count_nl_step(s, s.len() - 1);
                assert(false);
            }
            assert(num_lines(s) == 1);
            let ls = lines_in(s, 0, 1);
            assert(ls.len() == 1);
            assert(ls[0] == line_at(s, 0));
            assert(line_at(s, 0) =~= s);
            assert(join_nl(ls) == s);
        }
    } else {
        lemma_lines_peel(s);
        let p = nl_pos(s, 0);
        let rest = s.subrange(p + 1, s.len() as int);
        lemma_line_identity(rest);
        let ls = lines_in(s, 0, num_lines(s));
        let lr = lines_in(rest, 0, num_lines(rest));
        if num_lines(s) == 1 {
            assert(num_lines(rest) == 0);
            if rest.len() > 0 {
                assert(count_nl(rest) == 0);
                if rest.last() == NL {
                    lemma_count_nl_step(rest, rest.len() - 1);
                    assert(false);
                }
                assert(num_lines(rest) >= 1);
                assert(false);
            }
            assert(p == s.len() - 1);
            assert(ls.len() == 1);
            assert(ls[0] == s.subrange(0, p));
            assert(join_nl(ls) == s.subrange(0, p));
            assert(s.last() == NL);
            assert(s.subrange(0, p).push(NL) =~= s);
        } else {
            assert(ls.len() >= 2);
            assert(ls[0] == s.subrange(0, p));
            assert(ls.drop_first() =~= lr);
            assert(join_nl(ls) == s.subrange(0, p) + seq![NL] + join_nl(lr));
            if rest.len() > 0 && rest.last() == NL {
                assert(s.last() == NL);
                assert(join_nl(lr).push(NL) == rest);
                assert(join_nl(lr) + seq![NL] =~= join_nl(lr).push(NL));
                assert(s.subrange(0, p) + seq![NL] + join_nl(lr) + seq![NL] =~= s.subrange(0, p)
                    + seq![NL] + (join_nl(lr) + seq![NL]));
                assert(s.subrange(0, p) + seq![NL] + rest =~= s);
                assert(s.subrange(0, p) + seq![NL] + join_nl(lr) + seq![NL] =~= s);
                assert((s.subrange(0, p) + seq![NL] + join_nl(lr)).push(NL) =~= s.subrange(0, p)
                    + seq![NL] + join_nl(lr) + seq![NL]);
            } else {
                assert(join_nl(lr) == rest);
                assert(rest.len() > 0);
                assert(s.last() == rest.last());
                assert(s.subrange(0, p) + seq![NL] + rest =~= s);
            }
        }
    }
}

/// Deleting what was just inserted restores the original bytes.
pub proof fn lemma_insert_delete_inverse(s: Seq<u8>, p: int, t: Seq<u8>)
    requires
        0 <= p <= s.len(),
    ensures
        splice_out(splice_in(s, p, t), p, t.len() as int) == s,
{
    let w = splice_in(s, p, t);
    assert(w.subrange(0, p) =~= s.subrange(0, p));
    assert(w.subrange(p + t.len(), w.len() as int) =~= s.subrange(p, s.len() as int));
    assert(splice_out(w, p, t.len() as int) =~= s);
}

} // verus!
