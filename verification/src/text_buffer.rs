//! The piece-table text buffer.
//!
//! The document is the in-order concatenation of spans, each a view into one
//! of two byte arenas: `original` (the file contents, written once) and
//! `append` (append-only store of inserted text). Spans live in an ordered
//! linked list; every mutation is local span surgery, and an edit record per
//! mutation makes the surgery invertible for undo/redo.

use vstd::prelude::*;

use crate::document::{
    count_nl, lemma_count_nl_concat, lemma_count_nl_singleton, lemma_count_nl_split,
    lemma_count_nl_step, lemma_line_bounds,
    lemma_line_shape, line_at, line_end, line_start, lines_in, num_lines, pos_at, splice_in,
    splice_out, valid_pos, NL,
};
use crate::doubly_linked_list::List;

verus! {

/// Which arena a span's bytes come from.
#[derive(Clone, Copy, PartialEq, Eq, Structural, Debug)]
pub enum Source {
    Original,
    Append,
}

/// A contiguous view over bytes of one arena, with a cached newline count.
/// Immutable once placed in the list.
#[derive(Clone, Copy, PartialEq, Eq, Structural, Debug)]
pub struct Span {
    pub source: Source,
    pub start: usize,
    pub length: usize,
    pub newlines: usize,
}

/// The errors the buffer surfaces.
#[derive(PartialEq, Eq, Debug)]
pub enum Error {
    /// The initial file read failed; carries the reader's message.
    Io(String),
    /// A mutation names a position outside the document.
    OutOfBounds,
}

/// The bytes a span denotes.
pub open spec fn span_bytes(s: Span, orig: Seq<u8>, app: Seq<u8>) -> Seq<u8> {
    match s.source {
        Source::Original => orig.subrange(s.start as int, s.start + s.length),
        Source::Append => app.subrange(s.start as int, s.start + s.length),
    }
}

/// The span's range lies inside its arena.
pub open spec fn span_in_bounds(s: Span, orig: Seq<u8>, app: Seq<u8>) -> bool {
    match s.source {
        Source::Original => s.start + s.length <= orig.len(),
        Source::Append => s.start + s.length <= app.len(),
    }
}

/// A span the list may hold: non-empty, in bounds, with a true newline cache.
pub open spec fn span_valid(s: Span, orig: Seq<u8>, app: Seq<u8>) -> bool {
    &&& s.length > 0
    &&& span_in_bounds(s, orig, app)
    &&& s.newlines == count_nl(span_bytes(s, orig, app))
}

pub open spec fn spans_valid(ss: Seq<Span>, orig: Seq<u8>, app: Seq<u8>) -> bool {
    forall|i: int| 0 <= i < ss.len() ==> span_valid(#[trigger] ss[i], orig, app)
}

/// The document denoted by a sequence of spans: the concatenation of their
/// byte views, in order.
pub open spec fn doc_of(ss: Seq<Span>, orig: Seq<u8>, app: Seq<u8>) -> Seq<u8>
    decreases ss.len(),
{
    if ss.len() == 0 {
        Seq::empty()
    } else {
        span_bytes(ss[0], orig, app) + doc_of(ss.drop_first(), orig, app)
    }
}

/// Splitting a span sequence splits its document.
pub proof fn lemma_doc_of_split(ss: Seq<Span>, orig: Seq<u8>, app: Seq<u8>, i: int)
    requires
        0 <= i <= ss.len(),
    ensures
        doc_of(ss, orig, app) == doc_of(ss.subrange(0, i), orig, app) + doc_of(
            ss.subrange(i, ss.len() as int),
            orig,
            app,
        ),
    decreases i,
{
    if i == 0 {
        assert(ss.subrange(0, 0) =~= Seq::<Span>::empty());
        assert(ss.subrange(0, ss.len() as int) =~= ss);
        assert(doc_of(ss.subrange(0, 0), orig, app) + doc_of(ss, orig, app) =~= doc_of(
            ss,
            orig,
            app,
        ));
    } else {
        let t = ss.drop_first();
        lemma_doc_of_split(t, orig, app, i - 1);
        assert(ss.subrange(0, i).drop_first() =~= t.subrange(0, i - 1));
        assert(ss.subrange(i, ss.len() as int) =~= t.subrange(i - 1, t.len() as int));
        assert(ss.subrange(0, i)[0] == ss[0]);
        assert(doc_of(ss, orig, app) =~= doc_of(ss.subrange(0, i), orig, app) + doc_of(
            ss.subrange(i, ss.len() as int),
            orig,
            app,
        ));
    }
}

/// Growing the append arena changes neither validity nor the denoted bytes
/// of existing spans.
pub proof fn lemma_doc_of_grow(ss: Seq<Span>, orig: Seq<u8>, app: Seq<u8>, t: Seq<u8>)
    requires
        spans_valid(ss, orig, app),
    ensures
        spans_valid(ss, orig, app + t),
        doc_of(ss, orig, app + t) == doc_of(ss, orig, app),
    decreases ss.len(),
{
    assert forall|i: int| 0 <= i < ss.len() implies span_valid(#[trigger] ss[i], orig, app + t)
        && span_bytes(ss[i], orig, app + t) == span_bytes(ss[i], orig, app) by {
        assert(span_valid(ss[i], orig, app));
        assert(span_bytes(ss[i], orig, app + t) =~= span_bytes(ss[i], orig, app));
    }
    if ss.len() > 0 {
        let tt = ss.drop_first();
        assert forall|i: int| 0 <= i < tt.len() implies span_valid(#[trigger] tt[i], orig, app) by {
            assert(tt[i] == ss[i + 1]);
        }
        lemma_doc_of_grow(tt, orig, app, t);
    }
}

/// Concatenating span sequences concatenates their documents.
pub proof fn lemma_doc_of_concat(a: Seq<Span>, b: Seq<Span>, orig: Seq<u8>, app: Seq<u8>)
    ensures
        doc_of(a + b, orig, app) == doc_of(a, orig, app) + doc_of(b, orig, app),
{
    lemma_doc_of_split(a + b, orig, app, a.len() as int);
    assert((a + b).subrange(0, a.len() as int) =~= a);
    assert((a + b).subrange(a.len() as int, (a + b).len() as int) =~= b);
}

/// A single span denotes exactly its bytes.
pub proof fn lemma_doc_of_single(x: Span, orig: Seq<u8>, app: Seq<u8>)
    ensures
        doc_of(seq![x], orig, app) == span_bytes(x, orig, app),
{
    assert(seq![x].drop_first() =~= Seq::<Span>::empty());
    assert(doc_of(Seq::<Span>::empty(), orig, app) == Seq::<u8>::empty());
    assert(doc_of(seq![x], orig, app) =~= span_bytes(x, orig, app));
}

/// A contiguous part of a valid span sequence is valid.
pub proof fn lemma_spans_valid_subrange(ss: Seq<Span>, orig: Seq<u8>, app: Seq<u8>, a: int, b: int)
    requires
        spans_valid(ss, orig, app),
        0 <= a <= b <= ss.len(),
    ensures
        spans_valid(ss.subrange(a, b), orig, app),
{
    assert forall|i: int| 0 <= i < b - a implies span_valid(
        #[trigger] ss.subrange(a, b)[i],
        orig,
        app,
    ) by {
        assert(ss.subrange(a, b)[i] == ss[a + i]);
        assert(span_valid(ss[a + i], orig, app));
    }
}

/// Splicing `t` into the middle part of a three-way concatenation.
proof fn lemma_splice_three(pre: Seq<u8>, mid: Seq<u8>, suf: Seq<u8>, off: int, t: Seq<u8>)
    requires
        0 <= off <= mid.len(),
    ensures
        splice_in(pre + mid + suf, pre.len() + off, t) == pre + mid.subrange(0, off) + t
            + mid.subrange(off, mid.len() as int) + suf,
{
    let w = pre + mid + suf;
    assert(w.subrange(0, pre.len() + off) =~= pre + mid.subrange(0, off));
    assert(w.subrange(pre.len() + off, w.len() as int) =~= mid.subrange(off, mid.len() as int)
        + suf);
    assert(splice_in(w, pre.len() + off, t) =~= pre + mid.subrange(0, off) + t + mid.subrange(
        off,
        mid.len() as int,
    ) + suf);
}

/// `s` with the `n` elements at `pos` replaced by `repl`.
pub open spec fn splice_spans(s: Seq<Span>, pos: int, n: int, repl: Seq<Span>) -> Seq<Span> {
    s.subrange(0, pos) + repl + s.subrange(pos + n, s.len() as int)
}

/// Replacing spans denotes replacing their bytes: splicing spans for an
/// insertion at `(k, off)` splices the inserted text into the document at
/// the corresponding byte position.
#[verifier::rlimit(60)]
#[verifier::spinoff_prover]
proof fn lemma_insert_splice_doc(
    sb: Seq<Span>,
    orig: Seq<u8>,
    app0: Seq<u8>,
    t: Seq<u8>,
    k: int,
    off: int,
    lpos: int,
    nrem: int,
    repl: Seq<Span>,
    ns: Span,
)
    requires
        spans_valid(sb, orig, app0),
        0 <= k < sb.len(),
        0 <= off <= sb[k].length,
        span_bytes(ns, orig, app0 + t) == t,
        (off == 0 && lpos == k && nrem == 0 && repl == seq![ns]) || (off == sb[k].length && lpos
            == k + 1 && nrem == 0 && repl == seq![ns]) || (0 < off < sb[k].length && lpos == k
            && nrem == 1 && repl.len() == 3 && repl[1] == ns && span_bytes(repl[0], orig, app0 + t)
            == span_bytes(sb[k], orig, app0 + t).subrange(0, off) && span_bytes(
            repl[2],
            orig,
            app0 + t,
        ) == span_bytes(sb[k], orig, app0 + t).subrange(off, sb[k].length as int)),
    ensures
        lpos + nrem <= sb.len(),
        doc_of(splice_spans(sb, lpos, nrem, repl), orig, app0 + t) == splice_in(
            doc_of(sb, orig, app0),
            doc_of(sb.subrange(0, k), orig, app0).len() + off,
            t,
        ),
{
    let app1 = app0 + t;
    let pre = sb.subrange(0, k);
    let suf = sb.subrange(k + 1, sb.len() as int);
    let sufk = sb.subrange(k, sb.len() as int);
    lemma_doc_of_grow(sb, orig, app0, t);
    lemma_spans_valid_subrange(sb, orig, app0, 0, k);
    lemma_doc_of_grow(pre, orig, app0, t);
    assert(span_valid(sb[k], orig, app1));
    let sbs = span_bytes(sb[k], orig, app1);
    assert(sbs.len() == sb[k].length);
    let a = doc_of(pre, orig, app1);
    let s2 = doc_of(suf, orig, app1);
    // doc_of(sb) splits around span k
    lemma_doc_of_split(sb, orig, app1, k);
    assert(sufk =~= seq![sb[k]] + suf);
    lemma_doc_of_concat(seq![sb[k]], suf, orig, app1);
    lemma_doc_of_single(sb[k], orig, app1);
    assert(doc_of(sb, orig, app1) == a + (sbs + s2));
    assert(a + (sbs + s2) =~= a + sbs + s2);
    lemma_splice_three(a, sbs, s2, off, t);
    assert(splice_in(doc_of(sb, orig, app0), a.len() + off, t) == a + sbs.subrange(0, off) + t
        + sbs.subrange(off, sbs.len() as int) + s2);
    if off == 0 && lpos == k && nrem == 0 && repl == seq![ns] {
        lemma_doc_splice(sb, orig, app1, k, 0, repl);
        lemma_doc_of_single(ns, orig, app1);
        assert(splice_spans(sb, k, 0, repl).subrange(0, k) == pre);
        assert(doc_of(splice_spans(sb, lpos, nrem, repl), orig, app1) == a + t + doc_of(
            sufk,
            orig,
            app1,
        ));
        assert(sbs.subrange(0, 0) =~= Seq::<u8>::empty());
        assert(sbs.subrange(0, sbs.len() as int) =~= sbs);
        assert(a + t + (sbs + s2) =~= a + sbs.subrange(0, off) + t + sbs.subrange(
            off,
            sbs.len() as int,
        ) + s2);
    } else if off == sb[k].length && lpos == k + 1 && nrem == 0 && repl == seq![ns] {
        lemma_doc_splice(sb, orig, app1, k + 1, 0, repl);
        lemma_doc_of_single(ns, orig, app1);
        let prek = sb.subrange(0, k + 1);
        assert(prek =~= pre + seq![sb[k]]);
        lemma_doc_of_concat(pre, seq![sb[k]], orig, app1);
        assert(doc_of(prek, orig, app1) == a + sbs);
        assert(sb.subrange(k + 1, sb.len() as int) == suf);
        assert(doc_of(splice_spans(sb, lpos, nrem, repl), orig, app1) == (a + sbs) + t + s2);
        assert(sbs.subrange(0, off) =~= sbs);
        assert(sbs.subrange(off, sbs.len() as int) =~= Seq::<u8>::empty());
        assert((a + sbs) + t + s2 =~= a + sbs.subrange(0, off) + t + sbs.subrange(
            off,
            sbs.len() as int,
        ) + s2);
    } else {
        lemma_doc_splice(sb, orig, app1, k, 1, repl);
        assert(sb.subrange(k + 1, sb.len() as int) == suf);
        assert(repl =~= seq![repl[0]] + seq![repl[1]] + seq![repl[2]]);
        lemma_doc_of_concat(seq![repl[0]] + seq![repl[1]], seq![repl[2]], orig, app1);
        lemma_doc_of_concat(seq![repl[0]], seq![repl[1]], orig, app1);
        lemma_doc_of_single(repl[0], orig, app1);
        lemma_doc_of_single(repl[1], orig, app1);
        lemma_doc_of_single(repl[2], orig, app1);
        assert(doc_of(repl, orig, app1) == sbs.subrange(0, off) + t + sbs.subrange(
            off,
            sbs.len() as int,
        ));
        assert(doc_of(splice_spans(sb, lpos, nrem, repl), orig, app1) == a + (sbs.subrange(0, off)
            + t + sbs.subrange(off, sbs.len() as int)) + s2);
        assert(a + (sbs.subrange(0, off) + t + sbs.subrange(off, sbs.len() as int)) + s2 =~= a
            + sbs.subrange(0, off) + t + sbs.subrange(off, sbs.len() as int) + s2);
    }
}

/// A prefix of spans splits into a shorter prefix and a middle part.
proof fn lemma_doc_of_mid(sb: Seq<Span>, orig: Seq<u8>, app: Seq<u8>, a: int, b: int)
    requires
        0 <= a <= b <= sb.len(),
    ensures
        doc_of(sb.subrange(0, b), orig, app) == doc_of(sb.subrange(0, a), orig, app) + doc_of(
            sb.subrange(a, b),
            orig,
            app,
        ),
{
    lemma_doc_of_split(sb.subrange(0, b), orig, app, a);
    assert(sb.subrange(0, b).subrange(0, a) =~= sb.subrange(0, a));
    assert(sb.subrange(0, b).subrange(a, b) =~= sb.subrange(a, b));
}

/// Replacing the spans that carry the byte range `[off, e2)` of their
/// region with fragments that keep only the bytes outside it deletes
/// exactly that byte range from the document.
#[verifier::rlimit(60)]
#[verifier::spinoff_prover]
proof fn lemma_delete_splice_doc(
    sb: Seq<Span>,
    orig: Seq<u8>,
    app: Seq<u8>,
    k: int,
    nrem: int,
    off: int,
    e2: int,
    repl: Seq<Span>,
)
    requires
        0 <= k,
        1 <= nrem,
        k + nrem <= sb.len(),
        ({
            let m = doc_of(sb.subrange(k, k + nrem), orig, app);
            &&& 0 <= off <= e2 <= m.len()
            &&& doc_of(repl, orig, app) == m.subrange(0, off) + m.subrange(e2, m.len() as int)
        }),
    ensures
        doc_of(splice_spans(sb, k, nrem, repl), orig, app) == splice_out(
            doc_of(sb, orig, app),
            doc_of(sb.subrange(0, k), orig, app).len() + off,
            e2 - off,
        ),
{
    let a = doc_of(sb.subrange(0, k), orig, app);
    let m = doc_of(sb.subrange(k, k + nrem), orig, app);
    let s2 = doc_of(sb.subrange(k + nrem, sb.len() as int), orig, app);
    let doc0 = doc_of(sb, orig, app);
    lemma_doc_of_split(sb, orig, app, k);
    lemma_doc_of_mid(sb, orig, app, k, sb.len() as int);
    assert(sb.subrange(0, sb.len() as int) =~= sb);
    lemma_doc_of_split(sb.subrange(k, sb.len() as int), orig, app, nrem);
    assert(sb.subrange(k, sb.len() as int).subrange(0, nrem) =~= sb.subrange(k, k + nrem));
    assert(sb.subrange(k, sb.len() as int).subrange(nrem, sb.len() - k) =~= sb.subrange(
        k + nrem,
        sb.len() as int,
    ));
    assert(doc0 == a + (m + s2));
    lemma_doc_splice(sb, orig, app, k, nrem, repl);
    assert(doc_of(splice_spans(sb, k, nrem, repl), orig, app) == a + (m.subrange(0, off)
        + m.subrange(e2, m.len() as int)) + s2);
    let p = a.len() + off;
    assert(doc0.subrange(0, p) =~= a + m.subrange(0, off));
    assert(doc0.subrange(p + (e2 - off), doc0.len() as int) =~= m.subrange(e2, m.len() as int)
        + s2);
    assert(a + (m.subrange(0, off) + m.subrange(e2, m.len() as int)) + s2 =~= splice_out(
        doc0,
        p,
        e2 - off,
    ));
}

/// `doc_of` distributes over a span splice.
proof fn lemma_doc_splice(sb: Seq<Span>, orig: Seq<u8>, app: Seq<u8>, pos: int, n: int, repl: Seq<Span>)
    requires
        0 <= pos,
        0 <= n,
        pos + n <= sb.len(),
    ensures
        doc_of(splice_spans(sb, pos, n, repl), orig, app) == doc_of(sb.subrange(0, pos), orig, app)
            + doc_of(repl, orig, app) + doc_of(sb.subrange(pos + n, sb.len() as int), orig, app),
{
    lemma_doc_of_concat(sb.subrange(0, pos) + repl, sb.subrange(pos + n, sb.len() as int), orig, app);
    lemma_doc_of_concat(sb.subrange(0, pos), repl, orig, app);
}

/// What a mutation did to the span list: the spans at `pos` it detached and
/// the spans it put in their place, together with ghost snapshots of the
/// whole list before and after. Enough to splice in either direction.
pub struct EditRecord {
    kind: EditKind,
    pos: usize,
    removed: Vec<Span>,
    inserted: Vec<Span>,
    spans_before: Ghost<Seq<Span>>,
    spans_after: Ghost<Seq<Span>>,
}

/// Whether a record describes an insertion or a deletion.
#[derive(Clone, Copy, PartialEq, Eq, Structural, Debug)]
pub enum EditKind {
    Insert,
    Delete,
}

/// Internal consistency of one edit record.
spec fn rec_wf(r: EditRecord, orig: Seq<u8>, app: Seq<u8>) -> bool {
    &&& r.pos + r.removed@.len() <= r.spans_before@.len()
    &&& r.spans_after@ == splice_spans(
        r.spans_before@,
        r.pos as int,
        r.removed@.len() as int,
        r.inserted@,
    )
    &&& r.removed@ == r.spans_before@.subrange(r.pos as int, r.pos + r.removed@.len())
    &&& spans_valid(r.spans_before@, orig, app)
    &&& spans_valid(r.spans_after@, orig, app)
}

/// The editable buffer: two immutable arenas, the span list whose
/// concatenation is the document, and the undo/redo history.
pub struct Buffer {
    file: String,
    original: Vec<u8>,
    append: Vec<u8>,
    spans: List<Span>,
    undo_stack: Vec<EditRecord>,
    redo_stack: Vec<EditRecord>,
}

impl View for Buffer {
    type V = Seq<u8>;

    /// The current document bytes.
    closed spec fn view(&self) -> Seq<u8> {
        doc_of(self.spans@, self.original@, self.append@)
    }
}

impl Buffer {
    /// The file contents as read at open time.
    pub closed spec fn orig_bytes(&self) -> Seq<u8> {
        self.original@
    }

    /// The append arena: every byte ever inserted, in insertion order.
    pub closed spec fn app_bytes(&self) -> Seq<u8> {
        self.append@
    }

    /// The spans of the list, in order.
    pub closed spec fn spans_seq(&self) -> Seq<Span> {
        self.spans@
    }

    /// The documents that successive calls of `undo` reach, oldest first:
    /// entry `i` is the document as it stood before the edit that record `i`
    /// captured.
    pub closed spec fn undo_docs(&self) -> Seq<Seq<u8>> {
        Seq::new(
            self.undo_stack@.len(),
            |i: int| doc_of(self.undo_stack@[i].spans_before@, self.original@, self.append@),
        )
    }

    /// The documents that successive calls of `redo` reach; the last entry is
    /// the one the next `redo` restores.
    pub closed spec fn redo_docs(&self) -> Seq<Seq<u8>> {
        Seq::new(
            self.redo_stack@.len(),
            |i: int| doc_of(self.redo_stack@[i].spans_after@, self.original@, self.append@),
        )
    }

    /// The buffer invariant: a well-formed span list of valid spans, and a
    /// history whose records chain the current list back to the document as
    /// opened.
    pub closed spec fn wf(&self) -> bool {
        let u = self.undo_stack@;
        let r = self.redo_stack@;
        let orig = self.original@;
        let app = self.append@;
        &&& self.spans.wf()
        &&& spans_valid(self.spans@, orig, app)
        &&& forall|i: int| 0 <= i < u.len() ==> rec_wf(#[trigger] u[i], orig, app)
        &&& forall|i: int| 0 <= i < r.len() ==> rec_wf(#[trigger] r[i], orig, app)
        &&& forall|i: int|
            0 <= i < u.len() - 1 ==> (#[trigger] u[i].spans_after@) == u[i + 1].spans_before@
        &&& forall|i: int|
            1 <= i < r.len() ==> (#[trigger] r[i].spans_after@) == r[i - 1].spans_before@
        &&& u.len() > 0 ==> u[u.len() - 1].spans_after@ == self.spans@
        &&& r.len() > 0 ==> r[r.len() - 1].spans_before@ == self.spans@
        &&& u.len() > 0 ==> doc_of(u[0].spans_before@, orig, app) == orig
        &&& u.len() == 0 ==> doc_of(self.spans@, orig, app) == orig
    }

    /// The path the buffer was opened from.
    pub closed spec fn file_name(&self) -> Seq<char> {
        self.file@
    }

    pub fn file_path(&self) -> (r: &String)
        ensures
            r@ == self.file_name(),
    {
        &self.file
    }

    /// How many bytes the append arena holds; it only ever grows.
    pub fn append_len(&self) -> (n: usize)
        ensures
            n == self.app_bytes().len(),
    {
        self.append.len()
    }

    /// Count the `0x0A` bytes of `buf`.
    pub fn num_newlines(buf: &Vec<u8>) -> (n: usize)
        ensures
            n == count_nl(buf@),
    {
        let mut n: usize = 0;
        let mut i: usize = 0;
        while i < buf.len()
            invariant
                i <= buf@.len(),
                n <= i,
                n == count_nl(buf@.subrange(0, i as int)),
            decreases buf@.len() - i,
        {
            proof {
                lemma_count_nl_step(buf@, i as int);
            }
            if buf[i] == NL {
                n = n + 1;
            }
            i = i + 1;
        }
        proof {
            assert(buf@.subrange(0, buf@.len() as int) =~= buf@);
        }
        n
    }

    /// Build a buffer over the given file contents: one span covering the
    /// whole original arena, or no span at all for an empty file.
    pub fn from_bytes(file: String, original: Vec<u8>) -> (b: Buffer)
        ensures
            b.wf(),
            b@ == original@,
            b.orig_bytes() == original@,
            b.app_bytes() == Seq::<u8>::empty(),
            b.undo_docs() == Seq::<Seq<u8>>::empty(),
            b.redo_docs() == Seq::<Seq<u8>>::empty(),
    {
        let n = Buffer::num_newlines(&original);
        let mut spans: List<Span> = List::new();
        if original.len() > 0 {
            let s = Span {
                source: Source::Original,
                start: 0,
                length: original.len(),
                newlines: n,
            };
            spans.push_back(s);
            proof {
                assert(spans@ =~= seq![s]);
            }
        }
        let b = Buffer {
            file,
            original,
            append: Vec::new(),
            spans,
            undo_stack: Vec::new(),
            redo_stack: Vec::new(),
        };
        proof {
            assert(doc_of(Seq::<Span>::empty(), b.original@, b.append@) == Seq::<u8>::empty());
            if b.original@.len() > 0 {
                let s = b.spans@[0];
                assert(span_bytes(s, b.original@, b.append@) =~= b.original@);
                assert(b.spans@.drop_first() =~= Seq::<Span>::empty());
                assert(b@ =~= b.original@);
            } else {
                assert(b.spans@.len() == 0);
                assert(b@ =~= b.original@);
            }
            assert(b.undo_docs() =~= Seq::<Seq<u8>>::empty());
            assert(b.redo_docs() =~= Seq::<Seq<u8>>::empty());
        }
        b
    }

    /// Read byte `j` of span `s`.
    fn read_span_byte(&self, s: Span, j: usize) -> (b: u8)
        requires
            span_in_bounds(s, self.orig_bytes(), self.app_bytes()),
            j < s.length,
        ensures
            b == span_bytes(s, self.orig_bytes(), self.app_bytes())[j as int],
    {
        match s.source {
            Source::Original => {
                let n = self.original.len();
                proof {
                    assert(s.start + j < n);
                }
                self.original[s.start + j]
            },
            Source::Append => {
                let n = self.append.len();
                proof {
                    assert(s.start + j < n);
                }
                self.append[s.start + j]
            },
        }
    }

    /// Copy out the bytes a span denotes.
    pub fn get_character_span(&self, span: &Span) -> (r: Vec<u8>)
        requires
            span_in_bounds(*span, self.orig_bytes(), self.app_bytes()),
        ensures
            r@ == span_bytes(*span, self.orig_bytes(), self.app_bytes()),
    {
        let s = *span;
        let mut r: Vec<u8> = Vec::new();
        let mut j: usize = 0;
        while j < s.length
            invariant
                j <= s.length,
                span_in_bounds(s, self.orig_bytes(), self.app_bytes()),
                r@ == span_bytes(s, self.orig_bytes(), self.app_bytes()).subrange(0, j as int),
            decreases s.length - j,
        {
            let b = self.read_span_byte(s, j);
            r.push(b);
            proof {
                assert(r@ =~= span_bytes(s, self.orig_bytes(), self.app_bytes()).subrange(
                    0,
                    j + 1,
                ));
            }
            j = j + 1;
        }
        proof {
            let sb = span_bytes(s, self.orig_bytes(), self.app_bytes());
            assert(sb.subrange(0, sb.len() as int) =~= sb);
        }
        r
    }

    /// Count the newlines among the first `upto` bytes of span `s`.
    fn count_span_nl_prefix(&self, s: Span, upto: usize) -> (n: usize)
        requires
            span_in_bounds(s, self.orig_bytes(), self.app_bytes()),
            upto <= s.length,
        ensures
            n == count_nl(
                span_bytes(s, self.orig_bytes(), self.app_bytes()).subrange(0, upto as int),
            ),
            n <= upto,
    {
        let mut n: usize = 0;
        let mut j: usize = 0;
        while j < upto
            invariant
                j <= upto,
                n <= j,
                upto <= s.length,
                span_in_bounds(s, self.orig_bytes(), self.app_bytes()),
                n == count_nl(
                    span_bytes(s, self.orig_bytes(), self.app_bytes()).subrange(0, j as int),
                ),
            decreases upto - j,
        {
            proof {
                lemma_count_nl_step(span_bytes(s, self.orig_bytes(), self.app_bytes()), j as int);
            }
            let b = self.read_span_byte(s, j);
            if b == NL {
                n = n + 1;
            }
            j = j + 1;
        }
        n
    }

    /// The document contributed by the first `k` spans.
    spec fn pre_doc(&self, k: int) -> Seq<u8> {
        doc_of(self.spans@.subrange(0, k), self.original@, self.append@)
    }

    /// One more span extends the prefix document by that span's bytes.
    proof fn lemma_pre_doc_step(&self, k: int)
        requires
            0 <= k < self.spans@.len(),
        ensures
            self.pre_doc(k + 1) == self.pre_doc(k) + span_bytes(
                self.spans@[k],
                self.original@,
                self.append@,
            ),
    {
        let ss = self.spans@;
        let orig = self.original@;
        let app = self.append@;
        lemma_doc_of_split(ss.subrange(0, k + 1), orig, app, k);
        assert(ss.subrange(0, k + 1).subrange(0, k) =~= ss.subrange(0, k));
        let single = ss.subrange(0, k + 1).subrange(k, k + 1);
        assert(single =~= seq![ss[k]]);
        assert(doc_of(Seq::<Span>::empty(), orig, app) == Seq::<u8>::empty());
        assert(seq![ss[k]].drop_first() =~= Seq::<Span>::empty());
        assert(doc_of(seq![ss[k]], orig, app) =~= span_bytes(ss[k], orig, app));
    }

    /// The prefix document is a prefix of the document.
    proof fn lemma_doc_prefix(&self, k: int)
        requires
            0 <= k <= self.spans@.len(),
        ensures
            self.pre_doc(k).len() <= self@.len(),
            self@.subrange(0, self.pre_doc(k).len() as int) == self.pre_doc(k),
            count_nl(self@.subrange(0, self.pre_doc(k).len() as int)) == count_nl(self.pre_doc(k)),
            k == self.spans@.len() ==> self.pre_doc(k) == self@,
    {
        let ss = self.spans@;
        let orig = self.original@;
        let app = self.append@;
        lemma_doc_of_split(ss, orig, app, k);
        assert(ss.subrange(0, ss.len() as int) =~= ss);
        assert(self@.subrange(0, self.pre_doc(k).len() as int) =~= self.pre_doc(k));
        if k == ss.len() {
            assert(self.pre_doc(k) == doc_of(ss, orig, app));
        }
    }

    /// Byte `j` of span `k` is byte `|pre_doc(k)| + j` of the document.
    proof fn lemma_doc_index(&self, k: int, j: int)
        requires
            spans_valid(self.spans@, self.original@, self.append@),
            0 <= k < self.spans@.len(),
            0 <= j < self.spans@[k].length,
        ensures
            self.pre_doc(k).len() + self.spans@[k].length <= self@.len(),
            self@[self.pre_doc(k).len() + j] == span_bytes(
                self.spans@[k],
                self.original@,
                self.append@,
            )[j],
            self.pre_doc(k + 1).len() == self.pre_doc(k).len() + self.spans@[k].length,
    {
        let ss = self.spans@;
        let orig = self.original@;
        let app = self.append@;
        assert(span_valid(ss[k], orig, app));
        let sb = span_bytes(ss[k], orig, app);
        assert(sb.len() == ss[k].length);
        self.lemma_pre_doc_step(k);
        lemma_doc_of_split(ss, orig, app, k + 1);
        assert(self@ == self.pre_doc(k + 1) + doc_of(ss.subrange(k + 1, ss.len() as int), orig, app));
        assert(self@[self.pre_doc(k).len() + j] == self.pre_doc(k + 1)[self.pre_doc(k).len() + j]);
        assert(self.pre_doc(k + 1)[self.pre_doc(k).len() + j] == sb[j]);
    }

    /// Walk past the spans that lie wholly before line `line`; returns the
    /// first span that reaches it, with the newline count before that span.
    fn skip_spans(&self, line: usize) -> (r: Option<(usize, usize)>)
        requires
            self.wf(),
        ensures
            match r {
                Some(pair) => {
                    let h = pair.0;
                    let cum = pair.1;
                    &&& self.spans.valid(h)
                    &&& cum <= line
                    &&& cum == count_nl(self.pre_doc(self.spans.pos(h)))
                    &&& cum + self.spans@[self.spans.pos(h)].newlines >= line
                    &&& line > 0 ==> cum < line
                    &&& line == 0 ==> cum == 0 && self.spans.pos(h) == 0
                },
                None => self@.len() == 0 || count_nl(self@) < line,
            },
    {
        let mut oh: Option<usize> = self.spans.head();
        let mut cum: usize = 0;
        let ghost mut k: int = 0;
        loop
            invariant
                self.wf(),
                0 <= k <= self.spans@.len(),
                match oh {
                    Some(h) => self.spans.valid(h) && self.spans.pos(h) == k && k
                        < self.spans@.len(),
                    None => k == self.spans@.len(),
                },
                cum <= line,
                line > 0 ==> cum < line,
                line == 0 ==> cum == 0 && k == 0,
                cum == count_nl(self.pre_doc(k)),
                k == self.spans@.len() ==> (self.spans@.len() == 0 || cum < line || line == 0),
            decreases self.spans@.len() - k,
        {
            match oh {
                None => {
                    proof {
                        self.lemma_doc_prefix(k);
                        if self.spans@.len() == 0 {
                            assert(self@.len() == 0);
                        } else {
                            assert(cum < line);
                        }
                    }
                    return None;
                },
                Some(h) => {
                    let s = self.spans.get(h);
                    proof {
                        assert(s == self.spans@[k]);
                        assert(span_valid(self.spans@[k], self.original@, self.append@));
                    }
                    if line - cum > s.newlines {
                        proof {
                            self.lemma_pre_doc_step(k);
                            lemma_count_nl_concat(
                                self.pre_doc(k),
                                span_bytes(s, self.original@, self.append@),
                            );
                        }
                        cum = cum + s.newlines;
                        oh = self.spans.next(h);
                        proof {
                            k = k + 1;
                        }
                    } else {
                        return Some((h, cum));
                    }
                },
            }
        }
    }

    /// The lines with indices in `[line_start, line_end)`, in order, each as
    /// its bytes without the trailing newline. A range past the end of the
    /// document is truncated to the lines that exist; an empty or inverted
    /// range yields nothing.
    pub fn get_lines(&self, line_start: usize, line_end: usize) -> (r: Vec<Vec<u8>>)
        requires
            self.wf(),
        ensures
            r@.map_values(|v: Vec<u8>| v@) == lines_in(self@, line_start as int, line_end as int),
    {
        let ghost doc = self@;
        let mut out: Vec<Vec<u8>> = Vec::new();
        if line_start >= line_end {
            proof {
                assert(out@.map_values(|v: Vec<u8>| v@) =~= lines_in(
                    doc,
                    line_start as int,
                    line_end as int,
                ));
            }
            return out;
        }
        let want = line_end - line_start;
        let pair = match self.skip_spans(line_start) {
            Some(p) => p,
            None => {
                proof {
                    assert(num_lines(doc) <= line_start);
                    assert(out@.map_values(|v: Vec<u8>| v@) =~= lines_in(
                        doc,
                        line_start as int,
                        line_end as int,
                    ));
                }
                return out;
            },
        };
        let h0 = pair.0;
        let cum = pair.1;
        // Move past the newline that opens line `line_start` inside the span
        // that contains it.
        let ghost k0 = self.spans.pos(h0);
        proof {
            self.spans.lemma_handle_pos(h0);
        }
        let s0 = self.spans.get(h0);
        let mut j = self.find_line_in_span(h0, cum, line_start);
        let ghost mut ls: int = self.pre_doc(k0).len() + j;
        proof {
            assert(s0 == self.spans@[k0]);
            assert(span_valid(s0, self.original@, self.append@));
            self.lemma_doc_index(k0, 0);
            assert(count_nl(doc.subrange(0, ls)) == line_start as int);
            assert(ls == 0 || doc[ls - 1] == NL);
        }
        // Emit lines byte by byte, walking the remaining spans.
        let mut current: Vec<u8> = Vec::new();
        let mut oh: Option<usize> = Some(h0);
        let mut s: Span = s0;
        let ghost mut k: int = k0;
        let ghost mut pd: int = self.pre_doc(k0).len() as int;
        proof {
            assert(current@ =~= doc.subrange(ls, pd + j));
        }
        loop
            invariant
                self.wf(),
                doc == self@,
                want == line_end - line_start,
                line_start < line_end,
                out@.len() < want,
                0 <= k <= self.spans@.len(),
                match oh {
                    Some(h) => self.spans.valid(h) && self.spans.pos(h) == k && k
                        < self.spans@.len() && s == self.spans@[k] && j <= s.length && pd + s.length
                        <= doc.len(),
                    None => k == self.spans@.len() && j == 0,
                },
                pd == self.pre_doc(k).len(),
                0 <= ls <= pd + j <= doc.len(),
                count_nl(doc.subrange(0, ls)) == line_start + out@.len(),
                ls == 0 || doc[ls - 1] == NL,
                current@ == doc.subrange(ls, pd + j),
                count_nl(current@) == 0,
                forall|i: int|
                    0 <= i < out@.len() ==> (#[trigger] out@[i])@ == line_at(doc, line_start + i),
            decreases self.spans@.len() - k, s.length - j,
        {
            match oh {
                None => {
                    proof {
                        self.lemma_doc_prefix(k);
                        assert(pd + j == doc.len());
                        lemma_line_shape(doc, line_start + out@.len(), ls, doc.len() as int);
                    }
                    if current.len() > 0 {
                        proof {
                            assert(ls < doc.len());
                            assert(line_at(doc, line_start + out@.len()) == current@);
                        }
                        out.push(current);
                        proof {
                            assert(num_lines(doc) == line_start + out@.len());
                        }
                    } else {
                        proof {
                            assert(ls == doc.len());
                            assert(num_lines(doc) == line_start + out@.len());
                        }
                    }
                    proof {
                        assert(out@.map_values(|v: Vec<u8>| v@) =~= lines_in(
                            doc,
                            line_start as int,
                            line_end as int,
                        ));
                    }
                    return out;
                },
                Some(h) => {
                    if j == s.length {
                        proof {
                            self.lemma_pre_doc_step(k);
                            assert(span_valid(self.spans@[k], self.original@, self.append@));
                            pd = pd + s.length;
                            k = k + 1;
                        }
                        j = 0;
                        match self.spans.next(h) {
                            Some(h2) => {
                                s = self.spans.get(h2);
                                oh = Some(h2);
                                proof {
                                    assert(s == self.spans@[k]);
                                    assert(span_valid(s, self.original@, self.append@));
                                    self.lemma_doc_index(k, 0);
                                }
                            },
                            None => {
                                oh = None;
                            },
                        }
                        proof {
                            assert(current@ =~= doc.subrange(ls, pd + j));
                        }
                    } else {
                        proof {
                            assert(span_valid(self.spans@[k], self.original@, self.append@));
                        }
                        let b = self.read_span_byte(s, j);
                        proof {
                            self.lemma_doc_index(k, j as int);
                            assert(doc[pd + j] == b);
                        }
                        if b == NL {
                            proof {
                                lemma_line_shape(doc, line_start + out@.len(), ls, pd + j);
                                assert(line_at(doc, line_start + out@.len()) == current@);
                            }
                            out.push(current);
                            current = Vec::new();
                            proof {
                                ls = pd + j + 1;
                            }
                            j = j + 1;
                            proof {
                                assert(current@ =~= doc.subrange(ls, pd + j));
                            }
                            if out.len() == want {
                                proof {
                                    assert(num_lines(doc) >= line_start + out@.len());
                                    assert(out@.map_values(|v: Vec<u8>| v@) =~= lines_in(
                                        doc,
                                        line_start as int,
                                        line_end as int,
                                    ));
                                }
                                return out;
                            }
                        } else {
                            let ghost cur0 = current@;
                            current.push(b);
                            j = j + 1;
                            proof {
                                assert(current@ =~= doc.subrange(ls, pd + j));
                                assert(current@ =~= cur0 + seq![b]);
                                lemma_count_nl_concat(cur0, seq![b]);
                                lemma_count_nl_singleton(b);
                            }
                        }
                    }
                },
            }
        }
    }

    /// Inside the span that `skip_spans(line)` found, move past the newline
    /// that opens line `line`; returns the local byte offset of that line's
    /// first byte.
    fn find_line_in_span(&self, h: usize, cum: usize, line: usize) -> (j: usize)
        requires
            self.wf(),
            self.spans.valid(h),
            cum == count_nl(self.pre_doc(self.spans.pos(h))),
            cum <= line,
            line > 0 ==> cum < line,
            line == 0 ==> cum == 0 && self.spans.pos(h) == 0,
            cum + self.spans@[self.spans.pos(h)].newlines >= line,
        ensures
            ({
                let k = self.spans.pos(h);
                let ls = self.pre_doc(k).len() + j;
                &&& j <= self.spans@[k].length
                &&& line <= count_nl(self@)
                &&& ls <= self@.len()
                &&& count_nl(self@.subrange(0, ls as int)) == line
                &&& (ls == 0 || self@[ls - 1] == NL)
                &&& line_start(self@, line as int) == ls
            }),
    {
        let ghost doc = self@;
        let ghost k0 = self.spans.pos(h);
        proof {
            self.spans.lemma_handle_pos(h);
        }
        let s0 = self.spans.get(h);
        proof {
            assert(s0 == self.spans@[k0]);
            assert(span_valid(s0, self.original@, self.append@));
            self.lemma_doc_prefix(k0);
            self.lemma_doc_index(k0, 0);
        }
        let need = line - cum;
        let mut j: usize = 0;
        let mut seen: usize = 0;
        while seen < need
            invariant
                self.wf(),
                doc == self@,
                0 <= k0 < self.spans@.len(),
                s0 == self.spans@[k0],
                span_valid(s0, self.original@, self.append@),
                j <= s0.length,
                seen <= need,
                need <= s0.newlines,
                cum == count_nl(self.pre_doc(k0)),
                need == line - cum,
                seen == count_nl(
                    span_bytes(s0, self.original@, self.append@).subrange(0, j as int),
                ),
                count_nl(doc.subrange(0, self.pre_doc(k0).len() + j)) == cum + seen,
                self.pre_doc(k0).len() + s0.length <= doc.len(),
                need == 0 ==> j == 0,
                seen == need && need > 0 ==> j > 0 && doc[self.pre_doc(k0).len() + j - 1] == NL,
            decreases s0.length - j,
        {
            proof {
                let sb = span_bytes(s0, self.original@, self.append@);
                if j == s0.length {
                    assert(sb.subrange(0, j as int) =~= sb);
                    assert(false);
                }
            }
            let b = self.read_span_byte(s0, j);
            proof {
                lemma_count_nl_step(span_bytes(s0, self.original@, self.append@), j as int);
                self.lemma_doc_index(k0, j as int);
                lemma_count_nl_step(doc, self.pre_doc(k0).len() + j);
            }
            if b == NL {
                seen = seen + 1;
            }
            j = j + 1;
        }
        proof {
            let ls = self.pre_doc(k0).len() + j;
            if need == 0 {
                assert(line == 0 && cum == 0 && k0 == 0 && j == 0);
                assert(self.spans@.subrange(0, 0) =~= Seq::<Span>::empty());
                assert(self.pre_doc(0).len() == 0);
            }
            // line <= count_nl(doc): the whole of this span is in the document
            self.lemma_pre_doc_step(k0);
            self.lemma_doc_prefix(k0 + 1);
            lemma_count_nl_concat(
                self.pre_doc(k0),
                span_bytes(s0, self.original@, self.append@),
            );
            assert(count_nl(self.pre_doc(k0 + 1)) == cum + s0.newlines);
            lemma_count_nl_split(doc, 0, self.pre_doc(k0 + 1).len() as int, doc.len() as int);
            assert(doc.subrange(0, doc.len() as int) =~= doc);
            assert(count_nl(doc.subrange(0, self.pre_doc(k0 + 1).len() as int)) == cum
                + s0.newlines);
            assert(line <= count_nl(doc));
            assert(doc.subrange(0, ls).len() == ls);
            lemma_line_shape(doc, line as int, ls as int, ls as int);
            assert(doc.subrange(ls, ls) =~= Seq::<u8>::empty());
        }
        j
    }

    /// Find the span and local offset of document position `(line, column)`,
    /// or `None` if the position is outside the document. The offset equals
    /// the span's length only at the very end of the document.
    fn locate(&self, line: usize, column: usize) -> (r: Option<(usize, usize)>)
        requires
            self.wf(),
            self.spans@.len() > 0,
        ensures
            match r {
                Some(t) => {
                    let h = t.0;
                    let off = t.1;
                    let k = self.spans.pos(h);
                    &&& valid_pos(self@, line as int, column as int)
                    &&& self.spans.valid(h)
                    &&& 0 <= k < self.spans@.len()
                    &&& off <= self.spans@[k].length
                    &&& (off < self.spans@[k].length || k == self.spans@.len() - 1)
                    &&& self.pre_doc(k).len() + off == pos_at(self@, line as int, column as int)
                },
                None => !valid_pos(self@, line as int, column as int),
            },
    {
        let ghost doc = self@;
        let pair = match self.skip_spans(line) {
            Some(p) => p,
            None => {
                proof {
                    assert(span_valid(self.spans@[0], self.original@, self.append@));
                    self.lemma_doc_index(0, 0);
                    assert(doc.len() > 0);
                    assert(count_nl(doc) < line);
                }
                return None;
            },
        };
        let mut h = pair.0;
        let cum = pair.1;
        let mut j = self.find_line_in_span(h, cum, line);
        let ghost mut k = self.spans.pos(h);
        proof {
            self.spans.lemma_handle_pos(h);
        }
        let mut s = self.spans.get(h);
        let ghost ls: int = self.pre_doc(k).len() + j;
        let ghost mut pd: int = self.pre_doc(k).len() as int;
        let mut rem = column;
        proof {
            assert(s == self.spans@[k]);
            assert(span_valid(s, self.original@, self.append@));
            self.lemma_doc_index(k, 0);
            assert(doc.subrange(ls, ls) =~= Seq::<u8>::empty());
        }
        loop
            invariant
                self.wf(),
                doc == self@,
                0 <= k < self.spans@.len(),
                self.spans.valid(h),
                self.spans.pos(h) == k,
                s == self.spans@[k],
                j <= s.length,
                pd == self.pre_doc(k).len(),
                pd + s.length <= doc.len(),
                rem <= column,
                0 <= ls <= pd + j <= doc.len(),
                pd + j == ls + (column - rem),
                count_nl(doc.subrange(0, ls)) == line,
                ls == 0 || doc[ls - 1] == NL,
                count_nl(doc.subrange(ls, pd + j)) == 0,
                line_start(doc, line as int) == ls,
                line <= count_nl(doc),
            decreases rem, self.spans@.len() - k,
        {
            if j == s.length {
                match self.spans.next(h) {
                    Some(h2) => {
                        proof {
                            self.lemma_pre_doc_step(k);
                            assert(span_valid(self.spans@[k], self.original@, self.append@));
                            pd = pd + s.length;
                            k = k + 1;
                        }
                        h = h2;
                        j = 0;
                        s = self.spans.get(h2);
                        proof {
                            assert(s == self.spans@[k]);
                            assert(span_valid(s, self.original@, self.append@));
                            self.lemma_doc_index(k, 0);
                        }
                    },
                    None => {
                        proof {
                            self.lemma_pre_doc_step(k);
                            self.lemma_doc_prefix(k + 1);
                            assert(pd + j == doc.len());
                        }
                        if rem == 0 {
                            proof {
                                lemma_line_shape(doc, line as int, ls, pd + j);
                                assert(pos_at(doc, line as int, column as int) == pd + j);
                            }
                            return Some((h, j));
                        } else {
                            proof {
                                lemma_line_shape(doc, line as int, ls, pd + j);
                                // the position lies past the end of the document
                                assert(pos_at(doc, line as int, column as int) > doc.len());
                                assert(line_end(doc, line as int) <= doc.len());
                                lemma_line_bounds(doc, line as int);
                                assert(!valid_pos(doc, line as int, column as int));
                            }
                            return None;
                        }
                    },
                }
            } else if rem == 0 {
                proof {
                    lemma_line_shape(doc, line as int, ls, pd + j);
                    assert(pos_at(doc, line as int, column as int) == pd + j);
                    assert(valid_pos(doc, line as int, column as int));
                }
                return Some((h, j));
            } else {
                proof {
                    assert(span_valid(self.spans@[k], self.original@, self.append@));
                }
                let b = self.read_span_byte(s, j);
                proof {
                    self.lemma_doc_index(k, j as int);
                    assert(doc[pd + j] == b);
                }
                if b == NL {
                    proof {
                        lemma_line_shape(doc, line as int, ls, pd + j);
                        // the line ends here, before column `column`
                        assert(line_end(doc, line as int) == pd + j);
                        assert(pos_at(doc, line as int, column as int) > line_end(
                            doc,
                            line as int,
                        ));
                        assert(!valid_pos(doc, line as int, column as int));
                    }
                    return None;
                }
                let ghost oldseg = doc.subrange(ls, pd + j);
                j = j + 1;
                rem = rem - 1;
                proof {
                    assert(doc.subrange(ls, pd + j) =~= oldseg + seq![b]);
                    lemma_count_nl_concat(oldseg, seq![b]);
                    lemma_count_nl_singleton(b);
                }
            }
        }
    }

    /// Append `text` to the append arena. The document, the history and the
    /// original arena are untouched; offsets into the arena stay valid.
    pub fn add_to_append(&mut self, text: &Vec<u8>)
        requires
            old(self).wf(),
        ensures
            final(self).wf(),
            final(self)@ == old(self)@,
            final(self).orig_bytes() == old(self).orig_bytes(),
            final(self).app_bytes() == old(self).app_bytes() + text@,
            final(self).spans_seq() == old(self).spans_seq(),
            final(self).undo_docs() == old(self).undo_docs(),
            final(self).redo_docs() == old(self).redo_docs(),
    {
        self.grow_append(text);
    }

    /// As `add_to_append`, but additionally promises that every field other
    /// than the append arena is untouched, so list handles stay tied to
    /// their nodes.
    fn grow_append(&mut self, text: &Vec<u8>)
        requires
            old(self).wf(),
        ensures
            final(self).wf(),
            final(self)@ == old(self)@,
            final(self).app_bytes() == old(self).app_bytes() + text@,
            final(self).spans == old(self).spans,
            final(self).file == old(self).file,
            final(self).original == old(self).original,
            final(self).undo_stack == old(self).undo_stack,
            final(self).redo_stack == old(self).redo_stack,
            final(self).undo_docs() == old(self).undo_docs(),
            final(self).redo_docs() == old(self).redo_docs(),
    {
        let ghost pre = *self;
        let mut i: usize = 0;
        while i < text.len()
            invariant
                i <= text@.len(),
                self.append@ == pre.append@ + text@.subrange(0, i as int),
                self.file == pre.file,
                self.original == pre.original,
                self.spans == pre.spans,
                self.undo_stack == pre.undo_stack,
                self.redo_stack == pre.redo_stack,
            decreases text@.len() - i,
        {
            self.append.push(text[i]);
            proof {
                assert(self.append@ =~= pre.append@ + text@.subrange(0, i + 1));
            }
            i = i + 1;
        }
        proof {
            assert(text@.subrange(0, text@.len() as int) =~= text@);
            self.lemma_grow(old(self).append@, text@);
            assert(self.undo_docs() =~= old(self).undo_docs());
            assert(self.redo_docs() =~= old(self).redo_docs());
        }
    }

    /// Insert `text` at document position `(line, column)`. On success the
    /// document gains exactly those bytes at that byte position, one edit
    /// record joins the undo stack and the redo stack is cleared; on an
    /// out-of-range position nothing changes.
    #[verifier::rlimit(60)]
    #[verifier::spinoff_prover]
    pub fn insert(&mut self, line: usize, column: usize, text: &Vec<u8>) -> (r: Result<
        (),
        Error,
    >)
        requires
            old(self).wf(),
        ensures
            final(self).wf(),
            match r {
                Ok(u) => valid_pos(old(self)@, line as int, column as int) && {
                    let p = pos_at(old(self)@, line as int, column as int);
                    &&& final(self)@ == splice_in(old(self)@, p, text@)
                    &&& final(self).orig_bytes() == old(self).orig_bytes()
                    &&& final(self).app_bytes() == old(self).app_bytes() + text@
                    &&& final(self).undo_docs() == old(self).undo_docs().push(old(self)@)
                    &&& final(self).redo_docs() == Seq::<Seq<u8>>::empty()
                },
                Err(e) => e == Error::OutOfBounds && !valid_pos(
                    old(self)@,
                    line as int,
                    column as int,
                ) && *final(self) == *old(self),
            },
    {
        let ghost doc0 = self@;
        let is_empty = match self.spans.head() {
            Some(_) => false,
            None => true,
        };
        if is_empty {
            proof {
                assert(doc0.len() == 0);
                assert(count_nl(doc0) == 0);
            }
            if line != 0 || column != 0 {
                proof {
                    assert(!valid_pos(doc0, line as int, column as int));
                }
                return Err(Error::OutOfBounds);
            }
            if text.len() == 0 {
                let ghost sb = self.spans@;
                proof {
                    assert(splice_spans(sb, 0, 0, Seq::<Span>::empty()) =~= sb);
                    assert(sb.subrange(0, 0) =~= Seq::<Span>::empty());
                }
                self.commit_edit(EditKind::Insert, 0, Vec::new(), Vec::new(), Ghost(sb));
                proof {
                    assert(splice_in(doc0, 0, text@) =~= doc0);
                    assert(self.append@ =~= old(self).append@ + text@);
                }
                return Ok(());
            }
            let astart = self.append.len();
            self.grow_append(text);
            let n = Buffer::num_newlines(text);
            let ns = Span {
                source: Source::Append,
                start: astart,
                length: text.len(),
                newlines: n,
            };
            let ghost sb = self.spans@;
            proof {
                assert(span_bytes(ns, self.original@, self.append@) =~= text@);
                assert(span_valid(ns, self.original@, self.append@));
            }
            self.spans.push_back(ns);
            let mut iv: Vec<Span> = Vec::new();
            iv.push(ns);
            proof {
                assert(iv@ =~= seq![ns]);
                assert(self.spans@ =~= splice_spans(sb, 0, 0, iv@));
                assert(sb.subrange(0, 0) =~= Seq::<Span>::empty());
                assert forall|i: int| 0 <= i < self.spans@.len() implies span_valid(
                    #[trigger] self.spans@[i],
                    self.original@,
                    self.append@,
                ) by {
                    assert(self.spans@[i] == ns);
                }
            }
            self.commit_edit(EditKind::Insert, 0, Vec::new(), iv, Ghost(sb));
            proof {
                lemma_doc_of_single(ns, self.original@, self.append@);
                assert(self.spans@ =~= seq![ns]);
                assert(self@ == span_bytes(ns, self.original@, self.append@));
                assert(splice_in(doc0, 0, text@) =~= text@);
                assert(doc_of(sb, self.original@, self.append@) =~= doc0);
            }
            return Ok(());
        }
        let loc = match self.locate(line, column) {
            Some(t) => t,
            None => {
                return Err(Error::OutOfBounds);
            },
        };
        let h = loc.0;
        let off = loc.1;
        let ghost k = self.spans.pos(h);
        let ghost p = pos_at(doc0, line as int, column as int);
        let idx = self.spans.position_of(h);
        let s = self.spans.get(h);
        if text.len() == 0 {
            let ghost sb = self.spans@;
            proof {
                assert(splice_spans(sb, 0, 0, Seq::<Span>::empty()) =~= sb);
                assert(sb.subrange(0, 0) =~= Seq::<Span>::empty());
            }
            self.commit_edit(EditKind::Insert, 0, Vec::new(), Vec::new(), Ghost(sb));
            proof {
                lemma_line_bounds(doc0, line as int);
                assert(0 <= p <= doc0.len());
                assert(splice_in(doc0, p, text@) =~= doc0);
                assert(self.append@ =~= old(self).append@ + text@);
            }
            return Ok(());
        }
        let astart = self.append.len();
        let ghost app0 = self.append@;
        self.grow_append(text);
        let n = Buffer::num_newlines(text);
        let ns = Span { source: Source::Append, start: astart, length: text.len(), newlines: n };
        let ghost sb = self.spans@;
        let ghost app1 = self.append@;
        proof {
            assert(span_bytes(ns, self.original@, app1) =~= text@);
            assert(span_valid(ns, self.original@, app1));
            assert(span_valid(sb[k], self.original@, app1));
        }
        let ghost mut lpos: int = 0;
        let ghost mut nrem: int = 0;
        let ghost mut repl: Seq<Span> = Seq::empty();
        let rpos: usize;
        let mut rv: Vec<Span> = Vec::new();
        let mut iv: Vec<Span> = Vec::new();
        if off == 0 {
            let _nh = self.spans.insert_node_before(h, ns);
            iv.push(ns);
            rpos = idx;
            proof {
                lpos = k;
                repl = seq![ns];
                assert(iv@ =~= repl);
                assert(self.spans@ =~= splice_spans(sb, lpos, nrem, repl));
            }
        } else if off == s.length {
            proof {
                self.spans.lemma_len_bound();
            }
            let _nh = self.spans.insert_node_after(h, ns);
            iv.push(ns);
            rpos = idx + 1;
            proof {
                lpos = k + 1;
                repl = seq![ns];
                assert(iv@ =~= repl);
                assert(self.spans@ =~= splice_spans(sb, lpos, nrem, repl));
            }
        } else {
            proof {
                assert(s == sb[k]);
                assert(span_valid(s, self.original@, self.append@));
            }
            let nl_left = self.count_span_nl_prefix(s, off);
            proof {
                let sbs = span_bytes(s, self.original@, app1);
                assert(sbs.subrange(0, sbs.len() as int) =~= sbs);
                lemma_count_nl_split(sbs, 0, off as int, sbs.len() as int);
                assert(nl_left <= s.newlines);
                assert(span_in_bounds(s, self.original@, self.append@));
                vstd::std_specs::vec::axiom_spec_len(&self.original);
                vstd::std_specs::vec::axiom_spec_len(&self.append);
            }
            let left = Span { source: s.source, start: s.start, length: off, newlines: nl_left };
            let right = Span {
                source: s.source,
                start: s.start + off,
                length: s.length - off,
                newlines: s.newlines - nl_left,
            };
            let hl = self.spans.insert_node_before(h, left);
            let hn = self.spans.insert_node_after(hl, ns);
            let _hr = self.spans.insert_node_after(hn, right);
            let removed_span = self.spans.remove(h);
            rv.push(removed_span);
            iv.push(left);
            iv.push(ns);
            iv.push(right);
            rpos = idx;
            proof {
                lpos = k;
                nrem = 1;
                repl = seq![left, ns, right];
                assert(removed_span == s);
                assert(rv@ =~= seq![s]);
                assert(iv@ =~= repl);
                assert(seq![s] =~= sb.subrange(k, k + 1));
                assert(self.spans@ =~= splice_spans(sb, lpos, nrem, repl));
                let sbs = span_bytes(s, self.original@, app1);
                assert(span_bytes(left, self.original@, app1) =~= sbs.subrange(0, off as int));
                assert(span_bytes(right, self.original@, app1) =~= sbs.subrange(
                    off as int,
                    s.length as int,
                ));
                assert(span_valid(left, self.original@, app1));
                lemma_count_nl_split(sbs, 0, off as int, sbs.len() as int);
                assert(span_valid(right, self.original@, app1));
            }
        }
        proof {
            // every span of the new list is valid
            assert forall|i: int| 0 <= i < self.spans@.len() implies span_valid(
                #[trigger] self.spans@[i],
                self.original@,
                app1,
            ) by {
                let nn = self.spans@.len();
                if i < lpos {
                    assert(self.spans@[i] == sb[i]);
                    assert(span_valid(sb[i], self.original@, app1));
                } else if i < lpos + repl.len() {
                    assert(self.spans@[i] == repl[i - lpos]);
                } else {
                    assert(self.spans@[i] == sb[i - repl.len() + nrem]);
                    assert(span_valid(sb[i - repl.len() + nrem], self.original@, app1));
                }
            }
            assert(rv@ == sb.subrange(lpos, lpos + nrem));
            lemma_insert_splice_doc(
                sb,
                self.original@,
                app0,
                text@,
                k,
                off as int,
                lpos,
                nrem,
                repl,
                ns,
            );
        }
        self.commit_edit(EditKind::Insert, rpos, rv, iv, Ghost(sb));
        proof {
            lemma_spans_valid_subrange(sb, self.original@, app0, 0, k);
            lemma_doc_of_grow(sb.subrange(0, k), self.original@, app0, text@);
            lemma_doc_of_grow(sb, self.original@, app0, text@);
            assert(doc_of(sb, self.original@, app0) == doc0);
            assert(doc_of(sb.subrange(0, k), self.original@, app0).len() + off == p);
            assert(self@ == splice_in(doc0, p, text@));
            assert(doc_of(sb, self.original@, app1) == doc0);
        }
        Ok(())
    }

    /// Remove `count` bytes starting at document position `(line, column)`.
    /// On success the document loses exactly those bytes, one edit record
    /// joins the undo stack and the redo stack is cleared; if the position
    /// is out of range, or the range runs past the end of the document,
    /// nothing changes.
    #[verifier::rlimit(100)]
    #[verifier::spinoff_prover]
    pub fn delete(&mut self, line: usize, column: usize, count: usize) -> (r: Result<(), Error>)
        requires
            old(self).wf(),
        ensures
            final(self).wf(),
            match r {
                Ok(u) => valid_pos(old(self)@, line as int, column as int) && pos_at(
                    old(self)@,
                    line as int,
                    column as int,
                ) + count <= old(self)@.len() && {
                    let p = pos_at(old(self)@, line as int, column as int);
                    &&& final(self)@ == splice_out(old(self)@, p, count as int)
                    &&& final(self).orig_bytes() == old(self).orig_bytes()
                    &&& final(self).app_bytes() == old(self).app_bytes()
                    &&& final(self).undo_docs() == old(self).undo_docs().push(old(self)@)
                    &&& final(self).redo_docs() == Seq::<Seq<u8>>::empty()
                },
                Err(e) => e == Error::OutOfBounds && !(valid_pos(
                    old(self)@,
                    line as int,
                    column as int,
                ) && pos_at(old(self)@, line as int, column as int) + count <= old(self)@.len())
                    && *final(self) == *old(self),
            },
    {
        let ghost doc0 = self@;
        let ghost orig0 = self.original@;
        let ghost app0 = self.append@;
        let is_empty_list = match self.spans.head() {
            Some(_) => false,
            None => true,
        };
        if is_empty_list {
            proof {
                assert(doc0.len() == 0);
                assert(count_nl(doc0) == 0);
            }
            if line != 0 || column != 0 || count > 0 {
                proof {
                    if line == 0 && column == 0 {
                        assert(pos_at(doc0, 0, 0) == 0);
                    } else {
                        assert(!valid_pos(doc0, line as int, column as int));
                    }
                }
                return Err(Error::OutOfBounds);
            }
            let ghost sb = self.spans@;
            proof {
                assert(splice_spans(sb, 0, 0, Seq::<Span>::empty()) =~= sb);
                assert(sb.subrange(0, 0) =~= Seq::<Span>::empty());
            }
            self.commit_edit(EditKind::Delete, 0, Vec::new(), Vec::new(), Ghost(sb));
            proof {
                assert(splice_out(doc0, 0, 0) =~= doc0);
            }
            return Ok(());
        }
        let loc = match self.locate(line, column) {
            Some(t) => t,
            None => {
                return Err(Error::OutOfBounds);
            },
        };
        let h = loc.0;
        let off = loc.1;
        let ghost k = self.spans.pos(h);
        let ghost p = pos_at(doc0, line as int, column as int);
        let idx = self.spans.position_of(h);
        if count == 0 {
            let ghost sb = self.spans@;
            proof {
                assert(splice_spans(sb, 0, 0, Seq::<Span>::empty()) =~= sb);
                assert(sb.subrange(0, 0) =~= Seq::<Span>::empty());
            }
            self.commit_edit(EditKind::Delete, 0, Vec::new(), Vec::new(), Ghost(sb));
            proof {
                lemma_line_bounds(doc0, line as int);
                assert(splice_out(doc0, p, 0) =~= doc0);
            }
            return Ok(());
        }
        let s = self.spans.get(h);
        proof {
            assert(s == self.spans@[k]);
            assert(span_valid(s, orig0, app0));
            self.lemma_pre_doc_step(k);
            self.lemma_doc_prefix(k + 1);
        }
        if off == s.length {
            proof {
                assert(k == self.spans@.len() - 1);
                assert(p == doc0.len());
            }
            return Err(Error::OutOfBounds);
        }
        let ghost sb = self.spans@;
        let mut removed: Vec<Span> = Vec::new();
        removed.push(s);
        let mut nrem: usize = 1;
        let mut cur = h;
        let mut s2 = s;
        let mut e: usize = 0;
        let mut consumed: usize = 0;
        let mut done = false;
        if count <= s.length - off {
            e = off + count;
            done = true;
        } else {
            consumed = s.length - off;
        }
        proof {
            assert(removed@ =~= sb.subrange(k as int, k + 1));
            assert(p == doc_of(sb.subrange(0, k), orig0, app0).len() + off);
        }
        while !done
            invariant
                self.wf(),
                *self == *old(self),
                valid_pos(doc0, line as int, column as int),
                p == pos_at(doc0, line as int, column as int),
                sb == self.spans@,
                orig0 == self.original@,
                app0 == self.append@,
                doc0 == self@,
                0 <= k,
                1 <= nrem,
                k + nrem <= sb.len(),
                self.spans.valid(cur),
                self.spans.pos(cur) == k + nrem - 1,
                s2 == sb[k + nrem - 1],
                s == sb[k],
                0 <= off < s.length,
                count > 0,
                removed@ == sb.subrange(k as int, k + nrem),
                p == doc_of(sb.subrange(0, k), orig0, app0).len() + off,
                !done ==> consumed < count && p + consumed == doc_of(
                    sb.subrange(0, k + nrem),
                    orig0,
                    app0,
                ).len(),
                done ==> 0 < e <= s2.length && p + count == doc_of(
                    sb.subrange(0, k + nrem - 1),
                    orig0,
                    app0,
                ).len() + e,
            decreases (if done {
                0int
            } else {
                1int
            }), self.spans@.len() - (k + nrem),
        {
            match self.spans.next(cur) {
                None => {
                    proof {
                        self.lemma_doc_prefix(k + nrem);
                        assert(sb.subrange(0, k + nrem) =~= sb);
                        assert(p + consumed == doc0.len());
                        assert(p + count > doc0.len());
                    }
                    return Err(Error::OutOfBounds);
                },
                Some(c2) => {
                    proof {
                        self.spans.lemma_len_bound();
                        self.lemma_pre_doc_step(k + nrem);
                        assert(span_valid(self.spans@[k + nrem], orig0, app0));
                    }
                    cur = c2;
                    let snew = self.spans.get(c2);
                    s2 = snew;
                    removed.push(snew);
                    nrem = nrem + 1;
                    proof {
                        assert(removed@ =~= sb.subrange(k as int, k + nrem));
                    }
                    let needed = count - consumed;
                    if needed <= s2.length {
                        e = needed;
                        done = true;
                    } else {
                        consumed = consumed + s2.length;
                    }
                },
            }
        }
        // build the fragments that survive at the two ends
        let mut repl: Vec<Span> = Vec::new();
        let ghost mut left_spans: Seq<Span> = Seq::empty();
        if off > 0 {
            let nl_l = self.count_span_nl_prefix(s, off);
            let left = Span { source: s.source, start: s.start, length: off, newlines: nl_l };
            repl.push(left);
            proof {
                left_spans = seq![left];
                assert(span_bytes(left, orig0, app0) =~= span_bytes(s, orig0, app0).subrange(
                    0,
                    off as int,
                ));
                assert(span_valid(left, orig0, app0));
            }
        }
        let ghost mut right_spans: Seq<Span> = Seq::empty();
        proof {
            assert(s2 == sb[k + nrem - 1]);
            assert(span_valid(s2, orig0, app0));
        }
        if e < s2.length {
            let nl_e = self.count_span_nl_prefix(s2, e);
            proof {
                let sbs2 = span_bytes(s2, orig0, app0);
                assert(sbs2.subrange(0, sbs2.len() as int) =~= sbs2);
                lemma_count_nl_split(sbs2, 0, e as int, sbs2.len() as int);
                assert(nl_e <= s2.newlines);
                vstd::std_specs::vec::axiom_spec_len(&self.original);
                vstd::std_specs::vec::axiom_spec_len(&self.append);
            }
            let right = Span {
                source: s2.source,
                start: s2.start + e,
                length: s2.length - e,
                newlines: s2.newlines - nl_e,
            };
            repl.push(right);
            proof {
                right_spans = seq![right];
                assert(span_bytes(right, orig0, app0) =~= span_bytes(s2, orig0, app0).subrange(
                    e as int,
                    s2.length as int,
                ));
                assert(span_valid(right, orig0, app0));
            }
        }
        proof {
            assert(repl@ =~= left_spans + right_spans);
        }
        self.spans.replace_range(idx, nrem, &repl);
        proof {
            assert(self.spans@ == splice_spans(sb, k as int, nrem as int, repl@));
            assert forall|i: int| 0 <= i < self.spans@.len() implies span_valid(
                #[trigger] self.spans@[i],
                orig0,
                app0,
            ) by {
                let nn = self.spans@.len();
                if i < k {
                    assert(self.spans@[i] == sb[i]);
                    assert(span_valid(sb[i], orig0, app0));
                } else if i < k + repl@.len() {
                    assert(self.spans@[i] == repl@[i - k]);
                } else {
                    assert(self.spans@[i] == sb[i - repl@.len() + nrem]);
                    assert(span_valid(sb[i - repl@.len() + nrem], orig0, app0));
                }
            }
        }
        self.commit_edit(EditKind::Delete, idx, removed, repl, Ghost(sb));
        proof {
            let m = doc_of(sb.subrange(k as int, k + nrem), orig0, app0);
            let mpre = doc_of(sb.subrange(k as int, k + nrem - 1), orig0, app0);
            let sbs = span_bytes(s, orig0, app0);
            let sbs2 = span_bytes(s2, orig0, app0);
            // m starts with the first removed span's bytes
            assert(sb.subrange(k as int, k + nrem) =~= seq![s] + sb.subrange(k + 1, k + nrem));
            lemma_doc_of_concat(seq![s], sb.subrange(k + 1, k + nrem), orig0, app0);
            lemma_doc_of_single(s, orig0, app0);
            // and ends with the last one's
            assert(sb.subrange(k as int, k + nrem) =~= sb.subrange(k as int, k + nrem - 1)
                + seq![s2]);
            lemma_doc_of_concat(sb.subrange(k as int, k + nrem - 1), seq![s2], orig0, app0);
            lemma_doc_of_single(s2, orig0, app0);
            assert(m == mpre + sbs2);
            // the end offset within the removed region
            lemma_doc_of_mid(sb, orig0, app0, k as int, k + nrem - 1);
            let e2 = off + count;
            assert(mpre.len() + e == e2);
            assert(m.subrange(0, off as int) =~= sbs.subrange(0, off as int));
            assert(m.subrange(e2 as int, m.len() as int) =~= sbs2.subrange(
                e as int,
                s2.length as int,
            ));
            // the fragments' bytes are exactly what survives of the region
            if left_spans.len() > 0 {
                lemma_doc_of_single(left_spans[0], orig0, app0);
            }
            if right_spans.len() > 0 {
                lemma_doc_of_single(right_spans[0], orig0, app0);
            }
            lemma_doc_of_concat(left_spans, right_spans, orig0, app0);
            if left_spans.len() == 0 {
                assert(doc_of(left_spans, orig0, app0) =~= m.subrange(0, off as int));
            }
            if right_spans.len() == 0 {
                assert(doc_of(right_spans, orig0, app0) =~= m.subrange(e2 as int, m.len() as int));
            }
            assert(doc_of(repl@, orig0, app0) == m.subrange(0, off as int) + m.subrange(
                e2 as int,
                m.len() as int,
            ));
            lemma_delete_splice_doc(sb, orig0, app0, k as int, nrem as int, off as int, e2, repl@);
            assert(self@ == splice_out(doc0, p, count as int));
            // the deleted range lies inside the document
            assert(sb.subrange(0, sb.len() as int) =~= sb);
            lemma_doc_of_mid(sb, orig0, app0, k + nrem - 1, sb.len() as int);
            assert(sb.subrange(k + nrem - 1, sb.len() as int) =~= seq![s2] + sb.subrange(
                k + nrem,
                sb.len() as int,
            ));
            lemma_doc_of_concat(seq![s2], sb.subrange(k + nrem, sb.len() as int), orig0, app0);
            assert(p + count <= doc0.len());
        }
        Ok(())
    }

    /// Clear the redo stack and push the record of a splice that replaced
    /// the `removed.len()` spans at `pos` of the span sequence `sb` with
    /// `inserted`, yielding the current span sequence.
    fn commit_edit(
        &mut self,
        kind: EditKind,
        pos: usize,
        removed: Vec<Span>,
        inserted: Vec<Span>,
        Ghost(sb): Ghost<Seq<Span>>,
    )
        requires
            old(self).spans.wf(),
            spans_valid(old(self).spans@, old(self).original@, old(self).append@),
            spans_valid(sb, old(self).original@, old(self).append@),
            forall|i: int|
                0 <= i < old(self).undo_stack@.len() ==> rec_wf(
                    #[trigger] old(self).undo_stack@[i],
                    old(self).original@,
                    old(self).append@,
                ),
            forall|i: int|
                0 <= i < old(self).undo_stack@.len() - 1 ==> (#[trigger] old(
                    self,
                ).undo_stack@[i].spans_after@) == old(self).undo_stack@[i + 1].spans_before@,
            old(self).undo_stack@.len() > 0 ==> old(self).undo_stack@[old(self).undo_stack@.len()
                - 1].spans_after@ == sb,
            old(self).undo_stack@.len() > 0 ==> doc_of(
                old(self).undo_stack@[0].spans_before@,
                old(self).original@,
                old(self).append@,
            ) == old(self).original@,
            old(self).undo_stack@.len() == 0 ==> doc_of(
                sb,
                old(self).original@,
                old(self).append@,
            ) == old(self).original@,
            pos + removed@.len() <= sb.len(),
            old(self).spans@ == splice_spans(sb, pos as int, removed@.len() as int, inserted@),
            removed@ == sb.subrange(pos as int, pos + removed@.len()),
        ensures
            final(self).wf(),
            final(self)@ == old(self)@,
            final(self).spans_seq() == old(self).spans_seq(),
            final(self).orig_bytes() == old(self).orig_bytes(),
            final(self).app_bytes() == old(self).app_bytes(),
            final(self).undo_docs() == old(self).undo_docs().push(
                doc_of(sb, old(self).original@, old(self).append@),
            ),
            final(self).redo_docs() == Seq::<Seq<u8>>::empty(),
    {
        self.redo_stack = Vec::new();
        let ghost after = self.spans@;
        let rec = EditRecord {
            kind,
            pos,
            removed,
            inserted,
            spans_before: Ghost(sb),
            spans_after: Ghost(after),
        };
        self.undo_stack.push(rec);
        proof {
            let orig = self.original@;
            let app = self.append@;
            assert(rec_wf(rec, orig, app));
            let u = self.undo_stack@;
            let u0 = old(self).undo_stack@;
            assert forall|i: int| 0 <= i < u.len() implies rec_wf(#[trigger] u[i], orig, app) by {
                if i < u0.len() {
                    assert(u[i] == u0[i]);
                    assert(rec_wf(u0[i], orig, app));
                } else {
                    assert(u[i] == rec);
                }
            }
            assert forall|i: int| 0 <= i < u.len() - 1 implies (#[trigger] u[i].spans_after@) == u[i
                + 1].spans_before@ by {
                assert(u[i] == u0[i]);
                if i < u0.len() - 1 {
                    assert(u[i + 1] == u0[i + 1]);
                    assert(u0[i].spans_after@ == u0[i + 1].spans_before@);
                } else {
                    assert(u[i + 1] == rec);
                }
            }
            assert(self.wf());
            assert(self.undo_docs() =~= old(self).undo_docs().push(doc_of(sb, orig, app)));
            assert(self.redo_docs() =~= Seq::<Seq<u8>>::empty());
        }
    }

    /// Undo the most recent edit: detach the spans it inserted, re-attach
    /// the spans it removed, and move its record to the redo stack. Returns
    /// whether anything was undone.
    #[verifier::rlimit(60)]
    #[verifier::spinoff_prover]
    pub fn undo(&mut self) -> (r: bool)
        requires
            old(self).wf(),
        ensures
            final(self).wf(),
            final(self).orig_bytes() == old(self).orig_bytes(),
            final(self).app_bytes() == old(self).app_bytes(),
            if old(self).undo_docs().len() > 0 {
                &&& r == true
                &&& final(self)@ == old(self).undo_docs().last()
                &&& final(self).undo_docs() == old(self).undo_docs().drop_last()
                &&& final(self).redo_docs() == old(self).redo_docs().push(old(self)@)
            } else {
                &&& r == false
                &&& *final(self) == *old(self)
            },
    {
        if self.undo_stack.len() == 0 {
            proof {
                assert(old(self).undo_docs().len() == 0);
            }
            return false;
        }
        let rec = match self.undo_stack.pop() {
            Some(rec) => rec,
            None => {
                proof {
                    assert(false);
                }
                EditRecord {
                    kind: EditKind::Insert,
                    pos: 0,
                    removed: Vec::new(),
                    inserted: Vec::new(),
                    spans_before: Ghost(Seq::empty()),
                    spans_after: Ghost(Seq::empty()),
                }
            },
        };
        let ghost u0 = old(self).undo_stack@;
        let ghost sbf = rec.spans_before@;
        let ghost saf = rec.spans_after@;
        proof {
            assert(rec == u0[u0.len() - 1]);
            assert(rec_wf(rec, self.original@, self.append@));
            assert(self.spans@ == saf);
            assert(saf == splice_spans(sbf, rec.pos as int, rec.removed@.len() as int, rec.inserted@));
            assert(saf.len() == sbf.len() - rec.removed@.len() + rec.inserted@.len());
        }
        self.spans.replace_range(rec.pos, rec.inserted.len(), &rec.removed);
        proof {
            let pos = rec.pos as int;
            let nrem = rec.removed@.len() as int;
            let nins = rec.inserted@.len() as int;
            assert(saf.subrange(0, pos) =~= sbf.subrange(0, pos));
            assert(saf.subrange(pos + nins, saf.len() as int) =~= sbf.subrange(
                pos + nrem,
                sbf.len() as int,
            ));
            assert(self.spans@ =~= sbf);
        }
        self.redo_stack.push(rec);
        proof {
            let orig = self.original@;
            let app = self.append@;
            let u = self.undo_stack@;
            let rr = self.redo_stack@;
            let r0 = old(self).redo_stack@;
            assert(u =~= u0.drop_last());
            assert forall|i: int| 0 <= i < u.len() implies rec_wf(#[trigger] u[i], orig, app) by {
                assert(u[i] == u0[i]);
                assert(rec_wf(u0[i], orig, app));
            }
            assert forall|i: int| 0 <= i < rr.len() implies rec_wf(#[trigger] rr[i], orig, app) by {
                if i < r0.len() {
                    assert(rr[i] == r0[i]);
                    assert(rec_wf(r0[i], orig, app));
                } else {
                    assert(rr[i] == rec);
                }
            }
            assert forall|i: int| 0 <= i < u.len() - 1 implies (#[trigger] u[i].spans_after@) == u[i
                + 1].spans_before@ by {
                assert(u[i] == u0[i] && u[i + 1] == u0[i + 1]);
                assert(u0[i].spans_after@ == u0[i + 1].spans_before@);
            }
            assert forall|i: int| 1 <= i < rr.len() implies (#[trigger] rr[i].spans_after@) == rr[i
                - 1].spans_before@ by {
                if i < r0.len() {
                    assert(rr[i] == r0[i] && rr[i - 1] == r0[i - 1]);
                    assert(r0[i].spans_after@ == r0[i - 1].spans_before@);
                } else {
                    assert(rr[i] == rec && rr[i - 1] == r0[i - 1]);
                }
            }
            if u.len() > 0 {
                assert(u0[u.len() - 1].spans_after@ == u0[u.len() as int].spans_before@);
            }
            assert(self.wf());
            assert(self.undo_docs() =~= old(self).undo_docs().drop_last());
            assert(self.redo_docs() =~= old(self).redo_docs().push(old(self)@));
            assert(self@ == old(self).undo_docs().last());
        }
        true
    }

    /// Redo the most recently undone edit and move its record back to the
    /// undo stack. Returns whether anything was redone.
    #[verifier::rlimit(60)]
    #[verifier::spinoff_prover]
    pub fn redo(&mut self) -> (r: bool)
        requires
            old(self).wf(),
        ensures
            final(self).wf(),
            final(self).orig_bytes() == old(self).orig_bytes(),
            final(self).app_bytes() == old(self).app_bytes(),
            if old(self).redo_docs().len() > 0 {
                &&& r == true
                &&& final(self)@ == old(self).redo_docs().last()
                &&& final(self).redo_docs() == old(self).redo_docs().drop_last()
                &&& final(self).undo_docs() == old(self).undo_docs().push(old(self)@)
            } else {
                &&& r == false
                &&& *final(self) == *old(self)
            },
    {
        if self.redo_stack.len() == 0 {
            proof {
                assert(old(self).redo_docs().len() == 0);
            }
            return false;
        }
        let rec = match self.redo_stack.pop() {
            Some(rec) => rec,
            None => {
                proof {
                    assert(false);
                }
                EditRecord {
                    kind: EditKind::Insert,
                    pos: 0,
                    removed: Vec::new(),
                    inserted: Vec::new(),
                    spans_before: Ghost(Seq::empty()),
                    spans_after: Ghost(Seq::empty()),
                }
            },
        };
        let ghost r0 = old(self).redo_stack@;
        let ghost sbf = rec.spans_before@;
        let ghost saf = rec.spans_after@;
        proof {
            assert(rec == r0[r0.len() - 1]);
            assert(rec_wf(rec, self.original@, self.append@));
            assert(self.spans@ == sbf);
        }
        self.spans.replace_range(rec.pos, rec.removed.len(), &rec.inserted);
        proof {
            assert(self.spans@ == splice_spans(
                sbf,
                rec.pos as int,
                rec.removed@.len() as int,
                rec.inserted@,
            ));
            assert(self.spans@ == saf);
        }
        self.undo_stack.push(rec);
        proof {
            let orig = self.original@;
            let app = self.append@;
            let u0 = old(self).undo_stack@;
            let u = self.undo_stack@;
            let rr = self.redo_stack@;
            assert(rr =~= r0.drop_last());
            assert forall|i: int| 0 <= i < u.len() implies rec_wf(#[trigger] u[i], orig, app) by {
                if i < u0.len() {
                    assert(u[i] == u0[i]);
                    assert(rec_wf(u0[i], orig, app));
                } else {
                    assert(u[i] == rec);
                }
            }
            assert forall|i: int| 0 <= i < rr.len() implies rec_wf(#[trigger] rr[i], orig, app) by {
                assert(rr[i] == r0[i]);
                assert(rec_wf(r0[i], orig, app));
            }
            assert forall|i: int| 0 <= i < u.len() - 1 implies (#[trigger] u[i].spans_after@) == u[i
                + 1].spans_before@ by {
                if i < u0.len() - 1 {
                    assert(u[i] == u0[i] && u[i + 1] == u0[i + 1]);
                    assert(u0[i].spans_after@ == u0[i + 1].spans_before@);
                } else {
                    assert(u[i] == u0[i] && u[i + 1] == rec);
                }
            }
            assert forall|i: int| 1 <= i < rr.len() implies (#[trigger] rr[i].spans_after@) == rr[i
                - 1].spans_before@ by {
                assert(rr[i] == r0[i] && rr[i - 1] == r0[i - 1]);
                assert(r0[i].spans_after@ == r0[i - 1].spans_before@);
            }
            if rr.len() > 0 {
                assert(r0[rr.len() as int].spans_after@ == r0[rr.len() - 1].spans_before@);
            }
            assert(self.wf());
            assert(self.redo_docs() =~= old(self).redo_docs().drop_last());
            assert(self.undo_docs() =~= old(self).undo_docs().push(old(self)@));
            assert(self@ == old(self).redo_docs().last());
        }
        true
    }

    /// List integrity and newline cache: a well-formed buffer holds no
    /// zero-length span, every span lies inside its arena, and each cached
    /// `newlines` equals the true newline count of the span's bytes.
    /// Concatenation fidelity: the document is exactly the in-order
    /// concatenation of the span views.
    pub proof fn lemma_buffer_invariants(&self)
        requires
            self.wf(),
        ensures
            forall|i: int|
                0 <= i < self.spans_seq().len() ==> (#[trigger] self.spans_seq()[i]).length > 0
                    && span_in_bounds(self.spans_seq()[i], self.orig_bytes(), self.app_bytes())
                    && self.spans_seq()[i].newlines == count_nl(
                    span_bytes(self.spans_seq()[i], self.orig_bytes(), self.app_bytes()),
                ),
            self@ == doc_of(self.spans_seq(), self.orig_bytes(), self.app_bytes()),
    {
        assert forall|i: int| 0 <= i < self.spans_seq().len() implies (
        #[trigger] self.spans_seq()[i]).length > 0 && span_in_bounds(
            self.spans_seq()[i],
            self.orig_bytes(),
            self.app_bytes(),
        ) && self.spans_seq()[i].newlines == count_nl(
            span_bytes(self.spans_seq()[i], self.orig_bytes(), self.app_bytes()),
        ) by {
            assert(span_valid(self.spans@[i], self.original@, self.append@));
        }
    }

    /// Round trip: the undo history reaches back to the document as opened.
    /// The oldest undoable state is byte-equal to the original arena, and a
    /// buffer with nothing left to undo shows the original bytes; with the
    /// contract of `undo`, unwinding every recorded edit therefore restores
    /// the document as it was at `from_bytes`.
    pub proof fn lemma_round_trip(&self)
        requires
            self.wf(),
        ensures
            self.undo_docs().len() > 0 ==> self.undo_docs()[0] == self.orig_bytes(),
            self.undo_docs().len() == 0 ==> self@ == self.orig_bytes(),
    {
    }

    /// After the append arena grows from `app` to `app + t`, every part of
    /// the invariant and every recorded document is unchanged.
    proof fn lemma_grow(&self, app: Seq<u8>, t: Seq<u8>)
        requires
            self.append@ == app + t,
            self.spans.wf(),
            spans_valid(self.spans@, self.original@, app),
            forall|i: int|
                0 <= i < self.undo_stack@.len() ==> rec_wf(
                    #[trigger] self.undo_stack@[i],
                    self.original@,
                    app,
                ),
            forall|i: int|
                0 <= i < self.redo_stack@.len() ==> rec_wf(
                    #[trigger] self.redo_stack@[i],
                    self.original@,
                    app,
                ),
            forall|i: int|
                0 <= i < self.undo_stack@.len() - 1 ==> (#[trigger] self.undo_stack@[i].spans_after@)
                    == self.undo_stack@[i + 1].spans_before@,
            forall|i: int|
                1 <= i < self.redo_stack@.len() ==> (#[trigger] self.redo_stack@[i].spans_after@)
                    == self.redo_stack@[i - 1].spans_before@,
            self.undo_stack@.len() > 0 ==> self.undo_stack@[self.undo_stack@.len()
                - 1].spans_after@ == self.spans@,
            self.redo_stack@.len() > 0 ==> self.redo_stack@[self.redo_stack@.len()
                - 1].spans_before@ == self.spans@,
            self.undo_stack@.len() > 0 ==> doc_of(
                self.undo_stack@[0].spans_before@,
                self.original@,
                app,
            ) == self.original@,
            self.undo_stack@.len() == 0 ==> doc_of(self.spans@, self.original@, app)
                == self.original@,
        ensures
            self.wf(),
            doc_of(self.spans@, self.original@, self.append@) == doc_of(
                self.spans@,
                self.original@,
                app,
            ),
            forall|i: int|
                0 <= i < self.undo_stack@.len() ==> doc_of(
                    (#[trigger] self.undo_stack@[i]).spans_before@,
                    self.original@,
                    self.append@,
                ) == doc_of(self.undo_stack@[i].spans_before@, self.original@, app),
            forall|i: int|
                0 <= i < self.redo_stack@.len() ==> doc_of(
                    (#[trigger] self.redo_stack@[i]).spans_after@,
                    self.original@,
                    self.append@,
                ) == doc_of(self.redo_stack@[i].spans_after@, self.original@, app),
    {
        let orig = self.original@;
        lemma_doc_of_grow(self.spans@, orig, app, t);
        assert forall|i: int| 0 <= i < self.undo_stack@.len() implies rec_wf(
            #[trigger] self.undo_stack@[i],
            orig,
            self.append@,
        ) && doc_of(self.undo_stack@[i].spans_before@, orig, self.append@) == doc_of(
            self.undo_stack@[i].spans_before@,
            orig,
            app,
        ) by {
            assert(rec_wf(self.undo_stack@[i], orig, app));
            lemma_doc_of_grow(self.undo_stack@[i].spans_before@, orig, app, t);
            lemma_doc_of_grow(self.undo_stack@[i].spans_after@, orig, app, t);
        }
        assert forall|i: int| 0 <= i < self.redo_stack@.len() implies rec_wf(
            #[trigger] self.redo_stack@[i],
            orig,
            self.append@,
        ) && doc_of(self.redo_stack@[i].spans_after@, orig, self.append@) == doc_of(
            self.redo_stack@[i].spans_after@,
            orig,
            app,
        ) by {
            assert(rec_wf(self.redo_stack@[i], orig, app));
            lemma_doc_of_grow(self.redo_stack@[i].spans_before@, orig, app, t);
            lemma_doc_of_grow(self.redo_stack@[i].spans_after@, orig, app, t);
        }
    }
}

} // verus!
