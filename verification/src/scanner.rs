use vstd::prelude::*;
use vstd::utf8::encode_utf8;
use crate::config::{Comment, CommentView, Config, ConfigView, config_wf, comment_wf};

verus! {

// ---------------------------------------------------------------------------
// The model: markers, scanner state, one step, a run, a feed.
// ---------------------------------------------------------------------------

/// The comment markers a scanner looks for, as bytes, in the order it tries them,
/// and the length of the longest one.
pub struct Markers {
    pub singles: Seq<Seq<u8>>,
    pub blocks: Seq<(Seq<u8>, Seq<u8>)>,
    pub max_len: nat,
}

/// What a scanner remembers between bytes.
pub struct ScanState {
    /// The closing marker of the block comment the scan is inside, if any.
    pub in_block: Option<Seq<u8>>,
    /// The scan is inside a line comment.
    pub in_line_comment: bool,
    /// The current line has held a byte of code.
    pub line_has_code: bool,
    /// The lines with code counted so far.
    pub count: nat,
}

/// The state of a fresh scanner.
pub open spec fn initial_state() -> ScanState {
    ScanState { in_block: None, in_line_comment: false, line_has_code: false, count: 0 }
}

/// `u8::is_ascii_whitespace`: space, tab, line feed, form feed, carriage return.
pub open spec fn is_ascii_ws(b: u8) -> bool {
    b == 0x20u8 || b == 0x09u8 || b == 0x0Au8 || b == 0x0Cu8 || b == 0x0Du8
}

/// `buf[i..]` starts with `m`.
pub open spec fn matches_at(buf: Seq<u8>, i: int, m: Seq<u8>) -> bool {
    &&& 0 <= i
    &&& i + m.len() <= buf.len()
    &&& buf.subrange(i, i + m.len()) == m
}

/// The first marker of `ms`, from index `k` on, that `buf[i..]` starts with.
pub open spec fn first_marker(ms: Seq<Seq<u8>>, buf: Seq<u8>, i: int, k: int) -> Option<int>
    decreases ms.len() - k,
{
    if k < 0 || k >= ms.len() {
        None
    } else if matches_at(buf, i, ms[k]) {
        Some(k)
    } else {
        first_marker(ms, buf, i, k + 1)
    }
}

/// The opening markers of the block comments, in order.
pub open spec fn opens(mk: Markers) -> Seq<Seq<u8>> {
    mk.blocks.map_values(|b: (Seq<u8>, Seq<u8>)| b.0)
}

/// Every marker fits in `max_len`, and no block comment has both markers empty.
pub open spec fn markers_wf(mk: Markers) -> bool {
    &&& forall|k: int| 0 <= k < mk.singles.len() ==> #[trigger] mk.singles[k].len() <= mk.max_len
    &&& forall|k: int|
        0 <= k < mk.blocks.len() ==> (#[trigger] mk.blocks[k]).0.len() <= mk.max_len
            && mk.blocks[k].1.len() <= mk.max_len
    &&& forall|k: int|
        0 <= k < mk.blocks.len() ==> (#[trigger] mk.blocks[k]).0.len() > 0 || mk.blocks[k].1.len() > 0
}

/// The closing marker that the state waits for is that of one of the block comments.
pub open spec fn state_wf(mk: Markers, st: ScanState) -> bool {
    st.in_block is Some ==> exists|k: int| 0 <= k < mk.blocks.len() && (#[trigger] mk.blocks[k]).1 == st.in_block->0
}

/// No marker is empty.
pub open spec fn markers_nonempty(mk: Markers) -> bool {
    &&& forall|k: int| 0 <= k < mk.singles.len() ==> #[trigger] mk.singles[k].len() > 0
    &&& forall|k: int| 0 <= k < mk.blocks.len() ==> (#[trigger] mk.blocks[k]).0.len() > 0 && mk.blocks[k].1.len() > 0
}

/// What the scanner does with the byte at `i`: the next state and the next position.
pub open spec fn step(mk: Markers, st: ScanState, buf: Seq<u8>, i: int) -> (ScanState, int) {
    let b = buf[i];
    if b == 0x0Au8 {
        (
            ScanState {
                count: if st.line_has_code { st.count + 1 } else { st.count },
                in_line_comment: false,
                line_has_code: false,
                ..st
            },
            i + 1,
        )
    } else if st.in_line_comment {
        (st, i + 1)
    } else if st.in_block is Some {
        let close = st.in_block->0;
        if matches_at(buf, i, close) {
            (ScanState { in_block: None, ..st }, i + close.len())
        } else {
            (st, i + 1)
        }
    } else if first_marker(mk.singles, buf, i, 0) is Some {
        let k = first_marker(mk.singles, buf, i, 0)->0;
        (ScanState { in_line_comment: true, ..st }, i + mk.singles[k].len())
    } else if first_marker(opens(mk), buf, i, 0) is Some {
        let k = first_marker(opens(mk), buf, i, 0)->0;
        (ScanState { in_block: Some(mk.blocks[k].1), ..st }, i + mk.blocks[k].0.len())
    } else {
        (ScanState { line_has_code: st.line_has_code || !is_ascii_ws(b), ..st }, i + 1)
    }
}

/// A weight of the state, so that a step that does not advance still lowers the measure.
pub open spec fn phase(st: ScanState) -> int {
    if st.in_line_comment {
        0
    } else {
        match st.in_block {
            None => 2,
            Some(close) => if close.len() == 0 { 3 } else { 1 },
        }
    }
}

/// The scan stops at `i`: the buffer is done, or `i` has reached `stop` outside a line comment.
pub open spec fn stops(st: ScanState, buf: Seq<u8>, i: int, stop: int) -> bool {
    i >= buf.len() || (i >= stop && !st.in_line_comment)
}

/// The scan from position `i` in state `st` until it stops: the final state and position.
pub open spec fn run(mk: Markers, st: ScanState, buf: Seq<u8>, i: int, stop: int) -> (ScanState, int)
    decreases 4 * (buf.len() - i) + phase(st),
{
    if !(markers_wf(mk) && 0 <= i <= buf.len()) || stops(st, buf, i, stop) {
        (st, i)
    } else {
        proof {
            lemma_step_progress(mk, st, buf, i);
        }
        run(mk, step(mk, st, buf, i).0, buf, step(mk, st, buf, i).1, stop)
    }
}

/// Where a scan of a buffer of `len` bytes must stop unless it is inside a line comment:
/// the whole buffer at the end of input, else short of the last `max_len - 1` bytes,
/// which a marker might still continue past.
pub open spec fn stop_point(mk: Markers, len: int, eof: bool) -> int {
    if eof || mk.max_len == 0 {
        len
    } else if len >= mk.max_len - 1 {
        len - (mk.max_len - 1)
    } else {
        0
    }
}

/// One call of `feed`: the state after it and the number of bytes consumed.
pub open spec fn feed_spec(mk: Markers, st: ScanState, buf: Seq<u8>, eof: bool) -> (ScanState, int) {
    let r = run(mk, st, buf, 0, stop_point(mk, buf.len() as int, eof));
    if eof && r.0.line_has_code {
        (ScanState { count: r.0.count + 1, line_has_code: false, ..r.0 }, r.1)
    } else {
        r
    }
}

/// The state after scanning all of `s`, from `st`, to the end of input.
pub open spec fn scan_all(mk: Markers, st: ScanState, s: Seq<u8>) -> ScanState {
    feed_spec(mk, st, s, true).0
}

/// The number of lines with code in `s`.
pub open spec fn code_lines(mk: Markers, s: Seq<u8>) -> nat {
    scan_all(mk, initial_state(), s).count
}

/// The line-comment markers of `cs` as bytes, in order.
pub open spec fn single_markers(cs: Seq<CommentView>) -> Seq<Seq<u8>>
    decreases cs.len(),
{
    if cs.len() == 0 {
        Seq::empty()
    } else {
        match cs.last() {
            CommentView::Single(m) => single_markers(cs.drop_last()).push(encode_utf8(m)),
            CommentView::Double(_, _) => single_markers(cs.drop_last()),
        }
    }
}

/// The block-comment markers of `cs` as bytes, in order.
pub open spec fn block_markers(cs: Seq<CommentView>) -> Seq<(Seq<u8>, Seq<u8>)>
    decreases cs.len(),
{
    if cs.len() == 0 {
        Seq::empty()
    } else {
        match cs.last() {
            CommentView::Single(_) => block_markers(cs.drop_last()),
            CommentView::Double(open, close) => block_markers(cs.drop_last()).push(
                (encode_utf8(open), encode_utf8(close)),
            ),
        }
    }
}

pub open spec fn max_nat(a: nat, b: nat) -> nat {
    if a >= b { a } else { b }
}

/// The byte length of the longest marker in `cs`, 0 when there is none.
pub open spec fn longest_marker(cs: Seq<CommentView>) -> nat
    decreases cs.len(),
{
    if cs.len() == 0 {
        0
    } else {
        match cs.last() {
            CommentView::Single(m) => max_nat(longest_marker(cs.drop_last()), encode_utf8(m).len()),
            CommentView::Double(open, close) => max_nat(
                max_nat(longest_marker(cs.drop_last()), encode_utf8(open).len()),
                encode_utf8(close).len(),
            ),
        }
    }
}

/// Where `x` goes in `s` (sorted by descending key): after every element, from `j` on,
/// whose key is not below its own.
pub open spec fn insert_pos<T>(s: Seq<T>, x: T, key: spec_fn(T) -> nat, j: int) -> int
    decreases s.len() - j,
{
    if j < 0 || j >= s.len() {
        s.len() as int
    } else if key(s[j]) < key(x) {
        j
    } else {
        insert_pos(s, x, key, j + 1)
    }
}

/// `s` sorted by descending key, stably: elements with equal keys keep their order.
pub open spec fn sort_desc<T>(s: Seq<T>, key: spec_fn(T) -> nat) -> Seq<T>
    decreases s.len(),
{
    if s.len() == 0 {
        s
    } else {
        let r = sort_desc(s.drop_last(), key);
        r.insert(insert_pos(r, s.last(), key, 0), s.last())
    }
}

/// A marker's length.
pub open spec fn marker_len() -> spec_fn(Seq<u8>) -> nat {
    |m: Seq<u8>| m.len()
}

/// A block comment's opening-marker length.
pub open spec fn opener_len() -> spec_fn((Seq<u8>, Seq<u8>)) -> nat {
    |b: (Seq<u8>, Seq<u8>)| b.0.len()
}

/// The markers a scanner for `cfg` looks for: longest first, and in the language's
/// order among markers of equal length.
pub open spec fn markers_of(cfg: ConfigView) -> Markers {
    Markers {
        singles: sort_desc(single_markers(cfg.comments), marker_len()),
        blocks: sort_desc(block_markers(cfg.comments), opener_len()),
        max_len: longest_marker(cfg.comments),
    }
}

// ---------------------------------------------------------------------------
// Lemmas on the model.
// ---------------------------------------------------------------------------

pub proof fn lemma_first_marker(ms: Seq<Seq<u8>>, buf: Seq<u8>, i: int, k: int)
    ensures
        first_marker(ms, buf, i, k) matches Some(j) ==> k <= j < ms.len() && 0 <= j && matches_at(buf, i, ms[j]),
        first_marker(ms, buf, i, k) matches Some(j) ==> forall|t: int| k <= t < j ==> !matches_at(buf, i, #[trigger] ms[t]),
        0 <= k && first_marker(ms, buf, i, k) is None ==> forall|t: int| k <= t < ms.len() ==> !matches_at(buf, i, #[trigger] ms[t]),
    decreases ms.len() - k,
{
    if !(k < 0 || k >= ms.len()) && !matches_at(buf, i, ms[k]) {
        lemma_first_marker(ms, buf, i, k + 1);
    }
}

/// A step moves forward, and lowers the measure.
pub proof fn lemma_step_progress(mk: Markers, st: ScanState, buf: Seq<u8>, i: int)
    requires
        markers_wf(mk),
        0 <= i < buf.len(),
    ensures
        i <= step(mk, st, buf, i).1 <= buf.len(),
        4 * (buf.len() - step(mk, st, buf, i).1) + phase(step(mk, st, buf, i).0) < 4 * (buf.len() - i) + phase(st),
{
    lemma_first_marker(mk.singles, buf, i, 0);
    lemma_first_marker(opens(mk), buf, i, 0);
    if first_marker(opens(mk), buf, i, 0) is Some {
        let k = first_marker(opens(mk), buf, i, 0)->0;
        assert(opens(mk)[k] == mk.blocks[k].0);
    }
}


pub proof fn lemma_insert_pos<T>(s: Seq<T>, x: T, key: spec_fn(T) -> nat, j: int)
    requires
        0 <= j <= s.len(),
    ensures
        j <= insert_pos(s, x, key, j) <= s.len(),
    decreases s.len() - j,
{
    if j < s.len() && key(s[j]) >= key(x) {
        lemma_insert_pos(s, x, key, j + 1);
    }
}

/// Sorting keeps every element and puts longer keys first.
pub proof fn lemma_sort_desc<T>(s: Seq<T>, key: spec_fn(T) -> nat)
    ensures
        sort_desc(s, key).len() == s.len(),
        forall|i: int, j: int|
            0 <= i < j < s.len() ==> key(#[trigger] sort_desc(s, key)[i]) >= key(#[trigger] sort_desc(s, key)[j]),
        forall|x: T| s.contains(x) <==> sort_desc(s, key).contains(x),
    decreases s.len(),
{
    if s.len() > 0 {
        let p = s.drop_last();
        let x = s.last();
        lemma_sort_desc(p, key);
        let r = sort_desc(p, key);
        lemma_insert_pos(r, x, key, 0);
        lemma_insert_pos_bounds(r, x, key, 0);
        let q = insert_pos(r, x, key, 0);
        let n = r.insert(q, x);
        assert forall|i: int, j: int| 0 <= i < j < n.len() implies key(#[trigger] n[i]) >= key(#[trigger] n[j]) by {
            if i < q && j > q {
                assert(n[i] == r[i]);
                assert(n[j] == r[j - 1]);
                assert(key(r[i]) >= key(x));
                assert(key(r[i]) >= key(r[j - 1]));
            } else if i == q && j > q {
                assert(q < r.len());
                assert(n[j] == r[j - 1]);
                assert(key(r[q]) < key(x));
                if q < j - 1 {
                    assert(key(r[q]) >= key(r[j - 1]));
                }
            } else if i < q && j == q {
                assert(n[i] == r[i]);
                assert(key(r[i]) >= key(x));
            } else if i < q && j < q {
                assert(n[i] == r[i] && n[j] == r[j]);
            } else {
                assert(n[i] == r[i - 1] && n[j] == r[j - 1]);
            }
        }
        assert(s =~= p.push(x));
        assert forall|y: T| s.contains(y) <==> n.contains(y) by {
            lemma_push_contains(p, x, y);
            lemma_insert_contains(r, q, x, y);
        }
    }
}

/// An element is in `s` with `x` inserted exactly when it is in `s` or is `x`.
pub proof fn lemma_insert_contains<T>(s: Seq<T>, q: int, x: T, y: T)
    requires
        0 <= q <= s.len(),
    ensures
        s.insert(q, x).contains(y) <==> s.contains(y) || y == x,
{
    let n = s.insert(q, x);
    if s.contains(y) {
        let u = choose|u: int| 0 <= u < s.len() && s[u] == y;
        if u < q {
            assert(n[u] == y);
        } else {
            assert(n[u + 1] == y);
        }
    }
    if y == x {
        assert(n[q] == y);
    }
    if n.contains(y) && y != x {
        let t = choose|t: int| 0 <= t < n.len() && n[t] == y;
        if t < q {
            assert(s[t] == y);
        } else {
            assert(t != q);
            assert(s[t - 1] == y);
        }
    }
}

/// Before the insertion point keys are not below `x`'s; at it, the key is below.
pub proof fn lemma_insert_pos_bounds<T>(s: Seq<T>, x: T, key: spec_fn(T) -> nat, j: int)
    requires
        0 <= j <= s.len(),
    ensures
        forall|t: int| j <= t < insert_pos(s, x, key, j) ==> key(#[trigger] s[t]) >= key(x),
        insert_pos(s, x, key, j) < s.len() ==> key(s[insert_pos(s, x, key, j)]) < key(x),
    decreases s.len() - j,
{
    if j < s.len() && key(s[j]) >= key(x) {
        lemma_insert_pos_bounds(s, x, key, j + 1);
    }
}

/// Of the line-comment markers that `buf[i..]` starts with, the scanner takes a longest
/// one; likewise for the opening markers of block comments.
pub proof fn lemma_longest_match_wins(cfg: ConfigView, buf: Seq<u8>, i: int)
    ensures
        first_marker(markers_of(cfg).singles, buf, i, 0) matches Some(k) ==> forall|t: int|
            0 <= t < markers_of(cfg).singles.len() && matches_at(buf, i, #[trigger] markers_of(cfg).singles[t])
                ==> markers_of(cfg).singles[t].len() <= markers_of(cfg).singles[k].len(),
        first_marker(opens(markers_of(cfg)), buf, i, 0) matches Some(k) ==> forall|t: int|
            0 <= t < markers_of(cfg).blocks.len() && matches_at(buf, i, (#[trigger] markers_of(cfg).blocks[t]).0)
                ==> markers_of(cfg).blocks[t].0.len() <= markers_of(cfg).blocks[k].0.len(),
{
    let mk = markers_of(cfg);
    lemma_sort_desc(single_markers(cfg.comments), marker_len());
    lemma_sort_desc(block_markers(cfg.comments), opener_len());
    lemma_first_marker(mk.singles, buf, i, 0);
    lemma_first_marker(opens(mk), buf, i, 0);
    if first_marker(mk.singles, buf, i, 0) is Some {
        let k = first_marker(mk.singles, buf, i, 0)->0;
        assert forall|t: int| 0 <= t < mk.singles.len() && matches_at(buf, i, #[trigger] mk.singles[t]) implies mk.singles[t].len() <= mk.singles[k].len() by {
            if t > k {
                assert(marker_len()(mk.singles[k]) >= marker_len()(mk.singles[t]));
            }
        }
    }
    if first_marker(opens(mk), buf, i, 0) is Some {
        let k = first_marker(opens(mk), buf, i, 0)->0;
        assert forall|t: int| 0 <= t < mk.blocks.len() && matches_at(buf, i, (#[trigger] mk.blocks[t]).0) implies mk.blocks[t].0.len() <= mk.blocks[k].0.len() by {
            assert(opens(mk)[t] == mk.blocks[t].0);
            if t > k {
                assert(opener_len()(mk.blocks[k]) >= opener_len()(mk.blocks[t]));
            }
        }
    }
}

/// A non-empty text has a non-empty UTF-8 encoding.
pub proof fn lemma_encode_nonempty(c: Seq<char>)
    ensures
        encode_utf8(c).len() == 0 <==> c.len() == 0,
{
}


/// A run moves forward, stays in the buffer, ends where the scan stops, and keeps the
/// state well formed; the count grows by at most one per byte scanned.
pub proof fn lemma_run_bounds(mk: Markers, st: ScanState, buf: Seq<u8>, i: int, stop: int)
    requires
        markers_wf(mk),
        state_wf(mk, st),
        0 <= i <= buf.len(),
    ensures
        i <= run(mk, st, buf, i, stop).1 <= buf.len(),
        stops(run(mk, st, buf, i, stop).0, buf, run(mk, st, buf, i, stop).1, stop),
        state_wf(mk, run(mk, st, buf, i, stop).0),
        run(mk, st, buf, i, stop).0.count <= st.count + (run(mk, st, buf, i, stop).1 - i),
    decreases 4 * (buf.len() - i) + phase(st),
{
    if !stops(st, buf, i, stop) {
        lemma_step_progress(mk, st, buf, i);
        lemma_step_wf(mk, st, buf, i);
        let (st2, j) = step(mk, st, buf, i);
        lemma_run_bounds(mk, st2, buf, j, stop);
    }
}

/// A step keeps the state well formed and adds at most one to the count per byte.
pub proof fn lemma_step_wf(mk: Markers, st: ScanState, buf: Seq<u8>, i: int)
    requires
        markers_wf(mk),
        state_wf(mk, st),
        0 <= i < buf.len(),
    ensures
        state_wf(mk, step(mk, st, buf, i).0),
        step(mk, st, buf, i).0.count <= st.count + (step(mk, st, buf, i).1 - i),
        step(mk, st, buf, i).0.count >= st.count,
{
    lemma_first_marker(mk.singles, buf, i, 0);
    lemma_first_marker(opens(mk), buf, i, 0);
    lemma_step_progress(mk, st, buf, i);
    if st.in_block is None && !st.in_line_comment && buf[i] != 0x0Au8 && first_marker(mk.singles, buf, i, 0) is None
        && first_marker(opens(mk), buf, i, 0) is Some {
        let k = first_marker(opens(mk), buf, i, 0)->0;
        assert(mk.blocks[k].1 == step(mk, st, buf, i).0.in_block->0);
    }
}

/// With no empty marker, a feed of a window that holds at least one byte and at least
/// the longest marker consumes at least one byte.
pub proof fn lemma_feed_progress(mk: Markers, st: ScanState, buf: Seq<u8>)
    requires
        markers_wf(mk),
        markers_nonempty(mk),
        state_wf(mk, st),
        buf.len() >= 1,
        buf.len() >= mk.max_len,
    ensures
        feed_spec(mk, st, buf, false).1 > 0,
{
    let stop = stop_point(mk, buf.len() as int, false);
    lemma_step_progress(mk, st, buf, 0);
    lemma_step_wf(mk, st, buf, 0);
    lemma_first_marker(mk.singles, buf, 0, 0);
    lemma_first_marker(opens(mk), buf, 0, 0);
    if st.in_block is Some {
        let k = choose|k: int| 0 <= k < mk.blocks.len() && (#[trigger] mk.blocks[k]).1 == st.in_block->0;
    }
    if first_marker(opens(mk), buf, 0, 0) is Some {
        let k = first_marker(opens(mk), buf, 0, 0)->0;
        assert(opens(mk)[k] == mk.blocks[k].0);
    }
    let (st2, j) = step(mk, st, buf, 0);
    assert(j >= 1);
    lemma_run_bounds(mk, st2, buf, j, stop);
}

/// Whether `buf[i..]` starts with `m` does not change when bytes are appended,
/// as long as `m` fits before the end of `buf`.
pub proof fn lemma_matches_extend(buf: Seq<u8>, ext: Seq<u8>, i: int, m: Seq<u8>)
    requires
        0 <= i,
        i + m.len() <= buf.len(),
    ensures
        matches_at(buf, i, m) == matches_at(buf + ext, i, m),
{
    assert((buf + ext).subrange(i, i + m.len()) =~= buf.subrange(i, i + m.len()));
}

pub proof fn lemma_first_marker_extend(ms: Seq<Seq<u8>>, buf: Seq<u8>, ext: Seq<u8>, i: int, k: int, bound: nat)
    requires
        0 <= i,
        i + bound <= buf.len(),
        forall|t: int| 0 <= t < ms.len() ==> #[trigger] ms[t].len() <= bound,
    ensures
        first_marker(ms, buf, i, k) == first_marker(ms, buf + ext, i, k),
    decreases ms.len() - k,
{
    if !(k < 0 || k >= ms.len()) {
        lemma_matches_extend(buf, ext, i, ms[k]);
        lemma_first_marker_extend(ms, buf, ext, i, k + 1, bound);
    }
}

/// A step does not change when bytes are appended, if every marker that it may look for
/// fits before the end of `buf`, or inside a line comment, where it looks at one byte.
pub proof fn lemma_step_extend(mk: Markers, st: ScanState, buf: Seq<u8>, ext: Seq<u8>, i: int)
    requires
        markers_wf(mk),
        state_wf(mk, st),
        0 <= i < buf.len(),
        i + mk.max_len <= buf.len() || st.in_line_comment,
    ensures
        step(mk, st, buf, i) == step(mk, st, buf + ext, i),
{
    let full = buf + ext;
    assert(full[i] == buf[i]);
    if buf[i] != 0x0Au8 && !st.in_line_comment {
        if st.in_block is Some {
            let k = choose|k: int| 0 <= k < mk.blocks.len() && (#[trigger] mk.blocks[k]).1 == st.in_block->0;
            lemma_matches_extend(buf, ext, i, st.in_block->0);
        } else {
            lemma_first_marker_extend(mk.singles, buf, ext, i, 0, mk.max_len);
            assert forall|t: int| 0 <= t < opens(mk).len() implies #[trigger] opens(mk)[t].len() <= mk.max_len by {
                assert(opens(mk)[t] == mk.blocks[t].0);
            }
            lemma_first_marker_extend(opens(mk), buf, ext, i, 0, mk.max_len);
        }
    }
}

/// Every position before `stop` leaves room for the longest marker in `buf`.
pub open spec fn stop_leaves_room(mk: Markers, len: int, stop: int) -> bool {
    stop <= len && (stop <= 0 || stop - 1 + mk.max_len <= len)
}

/// A run on `buf` that stops early is the beginning of the run on `buf + ext` to its end:
/// the run on the longer input passes through the state and position where the short run stopped.
pub proof fn lemma_run_extend(mk: Markers, st: ScanState, buf: Seq<u8>, ext: Seq<u8>, i: int, stop: int)
    requires
        markers_wf(mk),
        state_wf(mk, st),
        0 <= i <= buf.len(),
        stop_leaves_room(mk, buf.len() as int, stop),
    ensures
        run(mk, st, buf + ext, i, (buf + ext).len() as int) == run(
            mk,
            run(mk, st, buf, i, stop).0,
            buf + ext,
            run(mk, st, buf, i, stop).1,
            (buf + ext).len() as int,
        ),
    decreases 4 * (buf.len() - i) + phase(st),
{
    if !stops(st, buf, i, stop) {
        lemma_step_extend(mk, st, buf, ext, i);
        lemma_step_progress(mk, st, buf, i);
        lemma_step_wf(mk, st, buf, i);
        let (st2, j) = step(mk, st, buf, i);
        lemma_run_extend(mk, st2, buf, ext, j, stop);
    }
}

pub proof fn lemma_matches_shift(s: Seq<u8>, c: int, i: int, m: Seq<u8>)
    requires
        0 <= c <= i,
        c <= s.len(),
    ensures
        matches_at(s, i, m) == matches_at(s.skip(c), i - c, m),
{
    if i + m.len() <= s.len() {
        assert(s.skip(c).subrange(i - c, i - c + m.len()) =~= s.subrange(i, i + m.len()));
    }
}

pub proof fn lemma_first_marker_shift(ms: Seq<Seq<u8>>, s: Seq<u8>, c: int, i: int, k: int)
    requires
        0 <= c <= i,
        c <= s.len(),
    ensures
        first_marker(ms, s, i, k) == first_marker(ms, s.skip(c), i - c, k),
    decreases ms.len() - k,
{
    if !(k < 0 || k >= ms.len()) {
        lemma_matches_shift(s, c, i, ms[k]);
        lemma_first_marker_shift(ms, s, c, i, k + 1);
    }
}

/// Scanning from position `i` of `s` is scanning from position `i - c` of `s` with its
/// first `c` bytes dropped.
pub proof fn lemma_run_shift(mk: Markers, st: ScanState, s: Seq<u8>, c: int, i: int, stop: int)
    requires
        markers_wf(mk),
        0 <= c <= i <= s.len(),
    ensures
        run(mk, st, s, i, stop) == (
            run(mk, st, s.skip(c), i - c, stop - c).0,
            run(mk, st, s.skip(c), i - c, stop - c).1 + c,
        ),
    decreases 4 * (s.len() - i) + phase(st),
{
    let t = s.skip(c);
    if !stops(st, s, i, stop) {
        assert(t[i - c] == s[i]);
        lemma_first_marker_shift(mk.singles, s, c, i, 0);
        lemma_first_marker_shift(opens(mk), s, c, i, 0);
        if st.in_block is Some {
            lemma_matches_shift(s, c, i, st.in_block->0);
        }
        lemma_step_progress(mk, st, s, i);
        let (st2, j) = step(mk, st, s, i);
        assert(step(mk, st, t, i - c) == (st2, j - c));
        lemma_run_shift(mk, st2, s, c, j, stop);
    }
}

/// Feeding a window without end of input, then scanning what it did not consume
/// followed by any further input, gives the same final state as scanning the window
/// and the further input in one piece. This is what makes a scan in pieces count
/// the same lines as a scan of the whole input.
pub proof fn lemma_feed_then_rest(mk: Markers, st: ScanState, buf: Seq<u8>, rest: Seq<u8>)
    requires
        markers_wf(mk),
        state_wf(mk, st),
    ensures
        0 <= feed_spec(mk, st, buf, false).1 <= buf.len(),
        state_wf(mk, feed_spec(mk, st, buf, false).0),
        scan_all(mk, st, buf + rest) == scan_all(
            mk,
            feed_spec(mk, st, buf, false).0,
            buf.skip(feed_spec(mk, st, buf, false).1) + rest,
        ),
{
    let stop = stop_point(mk, buf.len() as int, false);
    let (st2, c) = run(mk, st, buf, 0, stop);
    lemma_run_bounds(mk, st, buf, 0, stop);
    let full = buf + rest;
    lemma_run_extend(mk, st, buf, rest, 0, stop);
    lemma_run_shift(mk, st2, full, c, c, full.len() as int);
    assert(full.skip(c) =~= buf.skip(c) + rest);
}



/// An input scanned in two pieces, the first fed without end of input and then what it
/// left followed by the second piece to the end of input, has as many lines with code
/// as the whole input scanned at once.
pub proof fn lemma_two_pieces(mk: Markers, a: Seq<u8>, b: Seq<u8>)
    requires
        markers_wf(mk),
    ensures
        feed_spec(
            mk,
            feed_spec(mk, initial_state(), a, false).0,
            a.skip(feed_spec(mk, initial_state(), a, false).1) + b,
            true,
        ).0.count == code_lines(mk, a + b),
{
    lemma_feed_then_rest(mk, initial_state(), a, b);
}

/// How many bytes a reader with a `k`-byte buffer, holding `pending_len` bytes not yet
/// consumed, takes next from the `rest_len` bytes still to come: as many as fit.
pub open spec fn piece_len(pending_len: nat, rest_len: nat, k: nat) -> nat {
    let room: nat = if pending_len >= k { 0 } else { (k - pending_len) as nat };
    if room < rest_len { room } else { rest_len }
}

/// A scan of `rest` by a reader with a `k`-byte buffer that holds `pending` now: each call
/// of `feed` gets the bytes left unconsumed by the last call followed by as many new bytes
/// as fit, and is told the end of input once every byte has been taken. `None` when a call
/// on a full buffer consumes nothing, so that the reader can go no further.
pub open spec fn scan_in_pieces(mk: Markers, st: ScanState, pending: Seq<u8>, rest: Seq<u8>, k: nat) -> Option<ScanState>
    decreases 2 * rest.len() + pending.len(),
{
    let want = piece_len(pending.len(), rest.len(), k);
    let buf = pending + rest.take(want as int);
    if want == rest.len() {
        Some(feed_spec(mk, st, buf, true).0)
    } else {
        let fed = feed_spec(mk, st, buf, false);
        if !(0 <= fed.1 <= buf.len()) || (fed.1 == 0 && buf.len() >= k) {
            None
        } else {
            scan_in_pieces(mk, fed.0, buf.skip(fed.1), rest.skip(want as int), k)
        }
    }
}

/// However the input is cut into pieces by a reader's buffer, the scan ends in the state
/// of a scan of the whole input at once; and a buffer at least as long as the longest
/// marker (and than one byte) never stalls when no marker is empty.
pub proof fn lemma_scan_in_pieces(mk: Markers, st: ScanState, pending: Seq<u8>, rest: Seq<u8>, k: nat)
    requires
        markers_wf(mk),
        state_wf(mk, st),
    ensures
        scan_in_pieces(mk, st, pending, rest, k) matches Some(fin) ==> fin == scan_all(mk, st, pending + rest),
        markers_nonempty(mk) && k >= mk.max_len && k >= 1 ==> scan_in_pieces(mk, st, pending, rest, k) is Some,
    decreases 2 * rest.len() + pending.len(),
{
    let want = piece_len(pending.len(), rest.len(), k);
    let buf = pending + rest.take(want as int);
    if want == rest.len() {
        assert(buf =~= pending + rest);
    } else {
        let later = rest.skip(want as int);
        lemma_feed_then_rest(mk, st, buf, later);
        assert(buf + later =~= pending + rest);
        let fed = feed_spec(mk, st, buf, false);
        if markers_nonempty(mk) && k >= mk.max_len && k >= 1 && buf.len() >= k {
            lemma_feed_progress(mk, st, buf);
        }
        if !(fed.1 == 0 && buf.len() >= k) {
            lemma_scan_in_pieces(mk, fed.0, buf.skip(fed.1), later, k);
        }
    }
}

/// The count of a scan in pieces through a buffer of `k` bytes, from a fresh scanner, is
/// the number of lines with code in the whole input.
pub proof fn lemma_pieces_count_as_whole(mk: Markers, src: Seq<u8>, k: nat)
    requires
        markers_wf(mk),
    ensures
        scan_in_pieces(mk, initial_state(), Seq::empty(), src, k) matches Some(fin) ==> fin.count == code_lines(mk, src),
        markers_nonempty(mk) && k >= mk.max_len && k >= 1 ==> scan_in_pieces(mk, initial_state(), Seq::empty(), src, k) is Some,
{
    lemma_scan_in_pieces(mk, initial_state(), Seq::empty(), src, k);
    assert(Seq::<u8>::empty() + src =~= src);
}

/// The byte is not ASCII whitespace (space, tab, line feed, form feed, carriage return).
pub open spec fn is_code_byte(b: u8) -> bool {
    b != 0x20u8 && b != 0x09u8 && b != 0x0Au8 && b != 0x0Cu8 && b != 0x0Du8
}

/// Some byte of `s[i..j]` is code.
pub open spec fn has_code(s: Seq<u8>, i: int, j: int) -> bool {
    exists|t: int| i <= t < j && is_code_byte(#[trigger] s[t])
}

/// No comment marker begins in `buf` before position `n`.
pub open spec fn no_marker_before(mk: Markers, buf: Seq<u8>, n: int) -> bool {
    &&& forall|t: int, k: int|
        0 <= t < n && 0 <= k < mk.singles.len() && t + mk.singles[k].len() <= buf.len()
            ==> #[trigger] buf.subrange(t, t + mk.singles[k].len()) != #[trigger] mk.singles[k]
    &&& forall|t: int, k: int|
        0 <= t < n && 0 <= k < mk.blocks.len() && t + mk.blocks[k].0.len() <= buf.len()
            ==> #[trigger] buf.subrange(t, t + mk.blocks[k].0.len()) != (#[trigger] mk.blocks[k]).0
}

pub proof fn lemma_no_first_marker(ms: Seq<Seq<u8>>, buf: Seq<u8>, i: int, k: int)
    requires
        0 <= k,
        forall|t: int| k <= t < ms.len() ==> !matches_at(buf, i, #[trigger] ms[t]),
    ensures
        first_marker(ms, buf, i, k) is None,
    decreases ms.len() - k,
{
    if k < ms.len() {
        lemma_no_first_marker(ms, buf, i, k + 1);
    }
}

/// Outside comments, on a stretch with no newline and no comment marker, the scan only
/// notes whether a byte of code has been seen.
pub proof fn lemma_run_plain(mk: Markers, buf: Seq<u8>, n: int, i: int, has: bool, count: nat)
    requires
        markers_wf(mk),
        0 <= i <= n <= buf.len(),
        forall|t: int| 0 <= t < n ==> #[trigger] buf[t] != 0x0Au8,
        no_marker_before(mk, buf, n),
    ensures
        run(mk, ScanState { in_block: None, in_line_comment: false, line_has_code: has, count }, buf, i, buf.len() as int)
            == run(
            mk,
            ScanState { in_block: None, in_line_comment: false, line_has_code: has || has_code(buf, i, n), count },
            buf,
            n,
            buf.len() as int,
        ),
{
    lemma_run_plain_from(mk, buf, n, i, has, count);
}

/// A line with no comment marker in it is counted, with or without its newline, exactly
/// when it holds a byte that is not ASCII whitespace.
pub proof fn lemma_plain_line(mk: Markers, line: Seq<u8>)
    requires
        markers_wf(mk),
        forall|t: int| 0 <= t < line.len() ==> #[trigger] line[t] != 0x0Au8,
        no_marker_before(mk, line.push(0x0Au8), line.len() as int),
    ensures
        code_lines(mk, line) == (if has_code(line, 0, line.len() as int) { 1nat } else { 0nat }),
        code_lines(mk, line.push(0x0Au8)) == (if has_code(line, 0, line.len() as int) { 1nat } else { 0nat }),
{
    let n = line.len() as int;
    let buf = line.push(0x0Au8);
    // The line alone.
    assert(no_marker_before(mk, line, n)) by {
        assert forall|t: int, k: int|
            0 <= t < n && 0 <= k < mk.singles.len() && t + mk.singles[k].len() <= line.len()
                implies #[trigger] line.subrange(t, t + mk.singles[k].len()) != #[trigger] mk.singles[k] by {
            assert(line.subrange(t, t + mk.singles[k].len()) =~= buf.subrange(t, t + mk.singles[k].len()));
        }
        assert forall|t: int, k: int|
            0 <= t < n && 0 <= k < mk.blocks.len() && t + mk.blocks[k].0.len() <= line.len()
                implies #[trigger] line.subrange(t, t + mk.blocks[k].0.len()) != (#[trigger] mk.blocks[k]).0 by {
            assert(line.subrange(t, t + mk.blocks[k].0.len()) =~= buf.subrange(t, t + mk.blocks[k].0.len()));
        }
    }
    lemma_run_plain(mk, line, n, 0, false, 0);
    // The line and its newline.
    assert forall|t: int| 0 <= t < n implies #[trigger] buf[t] != 0x0Au8 by {
        assert(buf[t] == line[t]);
    }
    lemma_run_plain(mk, buf, n, 0, false, 0);
    assert(has_code(buf, 0, n) == has_code(line, 0, n)) by {
        if has_code(buf, 0, n) {
            let t = choose|t: int| 0 <= t < n && is_code_byte(#[trigger] buf[t]);
            assert(line[t] == buf[t]);
        }
        if has_code(line, 0, n) {
            let t = choose|t: int| 0 <= t < n && is_code_byte(#[trigger] line[t]);
            assert(line[t] == buf[t]);
        }
    }
    let h = has_code(line, 0, n);
    let st = ScanState { in_block: None, in_line_comment: false, line_has_code: h, count: 0 };
    assert(buf[n] == 0x0Au8);
    let after = ScanState { in_block: None, in_line_comment: false, line_has_code: false, count: if h { 1nat } else { 0nat } };
    assert(step(mk, st, buf, n) == (after, n + 1));
    assert(!stops(st, buf, n, buf.len() as int));
    assert(run(mk, st, buf, n, buf.len() as int) == run(mk, after, buf, n + 1, buf.len() as int));
    assert(run(mk, after, buf, n + 1, buf.len() as int) == (after, n + 1));
    assert(stop_point(mk, buf.len() as int, true) == buf.len());
}

/// Inside a line comment the scan skips every byte up to the next newline.
pub proof fn lemma_run_in_line(mk: Markers, st: ScanState, buf: Seq<u8>, n: int, i: int)
    requires
        markers_wf(mk),
        st.in_line_comment,
        0 <= i <= n <= buf.len(),
        forall|t: int| i <= t < n ==> #[trigger] buf[t] != 0x0Au8,
    ensures
        run(mk, st, buf, i, buf.len() as int) == run(mk, st, buf, n, buf.len() as int),
    decreases n - i,
{
    if i < n {
        assert(step(mk, st, buf, i) == (st, i + 1));
        lemma_run_in_line(mk, st, buf, n, i + 1);
    }
}

/// A line made of whitespace, then a line-comment marker, then anything without a
/// newline is not counted, with or without its newline.
pub proof fn lemma_commented_line(mk: Markers, pre: Seq<u8>, k: int, post: Seq<u8>)
    requires
        markers_wf(mk),
        0 <= k < mk.singles.len(),
        mk.singles[k].len() > 0,
        forall|t: int| 0 <= t < pre.len() ==> !is_code_byte(#[trigger] pre[t]) && pre[t] != 0x0Au8,
        forall|t: int| 0 <= t < mk.singles[k].len() ==> #[trigger] mk.singles[k][t] != 0x0Au8,
        forall|t: int| 0 <= t < post.len() ==> #[trigger] post[t] != 0x0Au8,
        no_marker_before(mk, (pre + mk.singles[k] + post).push(0x0Au8), pre.len() as int),
    ensures
        code_lines(mk, pre + mk.singles[k] + post) == 0,
        code_lines(mk, (pre + mk.singles[k] + post).push(0x0Au8)) == 0,
{
    let m = mk.singles[k];
    let line = pre + m + post;
    let n0 = pre.len() as int;
    let n = line.len() as int;
    assert forall|t: int| 0 <= t < n implies #[trigger] line[t] != 0x0Au8 by {
        if t < n0 {
            assert(line[t] == pre[t]);
        } else if t < n0 + m.len() {
            assert(line[t] == m[t - n0]);
        } else {
            assert(line[t] == post[t - n0 - m.len()]);
        }
    }
    lemma_commented_line_in(mk, pre, k, post, line);
    lemma_commented_line_in(mk, pre, k, post, line.push(0x0Au8));
}

/// The scan of `buf`, a commented line possibly followed by its newline, counts nothing.
proof fn lemma_commented_line_in(mk: Markers, pre: Seq<u8>, k: int, post: Seq<u8>, buf: Seq<u8>)
    requires
        markers_wf(mk),
        0 <= k < mk.singles.len(),
        mk.singles[k].len() > 0,
        forall|t: int| 0 <= t < pre.len() ==> !is_code_byte(#[trigger] pre[t]) && pre[t] != 0x0Au8,
        forall|t: int| 0 <= t < (pre + mk.singles[k] + post).len() ==> #[trigger] (pre + mk.singles[k] + post)[t] != 0x0Au8,
        no_marker_before(mk, (pre + mk.singles[k] + post).push(0x0Au8), pre.len() as int),
        buf == pre + mk.singles[k] + post || buf == (pre + mk.singles[k] + post).push(0x0Au8),
    ensures
        code_lines(mk, buf) == 0,
{
    let m = mk.singles[k];
    let line = pre + m + post;
    let full = line.push(0x0Au8);
    let n0 = pre.len() as int;
    let n = line.len() as int;
    assert forall|t: int| 0 <= t < n implies #[trigger] buf[t] == line[t] by {}
    // The markers do not begin in the whitespace before the comment, in `buf` either.
    assert(no_marker_before(mk, buf, n0)) by {
        assert forall|t: int, j: int|
            0 <= t < n0 && 0 <= j < mk.singles.len() && t + mk.singles[j].len() <= buf.len()
                implies #[trigger] buf.subrange(t, t + mk.singles[j].len()) != #[trigger] mk.singles[j] by {
            assert(buf.subrange(t, t + mk.singles[j].len()) =~= full.subrange(t, t + mk.singles[j].len()));
        }
        assert forall|t: int, j: int|
            0 <= t < n0 && 0 <= j < mk.blocks.len() && t + mk.blocks[j].0.len() <= buf.len()
                implies #[trigger] buf.subrange(t, t + mk.blocks[j].0.len()) != (#[trigger] mk.blocks[j]).0 by {
            assert(buf.subrange(t, t + mk.blocks[j].0.len()) =~= full.subrange(t, t + mk.blocks[j].0.len()));
        }
    }
    assert forall|t: int| 0 <= t < n0 implies #[trigger] buf[t] != 0x0Au8 by {
        assert(buf[t] == line[t]);
    }
    lemma_run_plain(mk, buf, n0, 0, false, 0);
    assert(!has_code(buf, 0, n0)) by {
        if has_code(buf, 0, n0) {
            let t = choose|t: int| 0 <= t < n0 && is_code_byte(#[trigger] buf[t]);
            assert(buf[t] == pre[t]);
        }
    }
    let st = ScanState { in_block: None, in_line_comment: false, line_has_code: false, count: 0 };
    // At the marker: some line-comment marker matches, and the scan enters a line comment.
    assert(buf.subrange(n0, n0 + m.len()) =~= m);
    assert(matches_at(buf, n0, m));
    lemma_first_marker(mk.singles, buf, n0, 0);
    if first_marker(mk.singles, buf, n0, 0) is None {
        assert(!matches_at(buf, n0, mk.singles[k]));
    }
    let j = first_marker(mk.singles, buf, n0, 0)->0;
    assert(buf[n0] == m[0]);
    let inl = ScanState { in_block: None, in_line_comment: true, line_has_code: false, count: 0 };
    let i1 = n0 + mk.singles[j].len();
    assert(step(mk, st, buf, n0) == (inl, i1));
    assert(run(mk, st, buf, n0, buf.len() as int) == run(mk, inl, buf, i1, buf.len() as int));
    if i1 <= n {
        assert forall|t: int| i1 <= t < n implies #[trigger] buf[t] != 0x0Au8 by {
            assert(buf[t] == line[t]);
        }
        lemma_run_in_line(mk, inl, buf, n, i1);
        if buf.len() > n {
            let after = ScanState { in_block: None, in_line_comment: false, line_has_code: false, count: 0 };
            assert(step(mk, inl, buf, n) == (after, n + 1));
            assert(run(mk, inl, buf, n, buf.len() as int) == run(mk, after, buf, n + 1, buf.len() as int));
        }
    }
    lemma_run_bounds(mk, inl, buf, i1, buf.len() as int);
}

/// Inside a block comment the scan skips every byte up to a newline or its closing marker.
pub proof fn lemma_run_in_block(mk: Markers, st: ScanState, buf: Seq<u8>, n: int, i: int)
    requires
        markers_wf(mk),
        !st.in_line_comment,
        st.in_block is Some,
        0 <= i <= n <= buf.len(),
        forall|t: int| i <= t < n ==> #[trigger] buf[t] != 0x0Au8,
        forall|t: int| i <= t < n ==> !#[trigger] matches_at(buf, t, st.in_block->0),
    ensures
        run(mk, st, buf, i, buf.len() as int) == run(mk, st, buf, n, buf.len() as int),
    decreases n - i,
{
    if i < n {
        assert(!matches_at(buf, i, st.in_block->0));
        assert(step(mk, st, buf, i) == (st, i + 1));
        lemma_run_in_block(mk, st, buf, n, i + 1);
    }
}

/// A line inside a block comment, in which the comment does not close, is not counted,
/// and the scan is still inside the comment after it.
pub proof fn lemma_line_inside_block(mk: Markers, close: Seq<u8>, line: Seq<u8>, count: nat)
    requires
        markers_wf(mk),
        forall|t: int| 0 <= t < line.len() ==> #[trigger] line[t] != 0x0Au8,
        forall|t: int| 0 <= t < line.len() ==> !(t + close.len() <= line.len() + 1
            && #[trigger] line.push(0x0Au8).subrange(t, t + close.len()) == close),
    ensures
        ({
            let st = ScanState { in_block: Some(close), in_line_comment: false, line_has_code: false, count };
            let r = run(mk, st, line.push(0x0Au8), 0, line.len() + 1int);
            &&& r.0 == st
            &&& r.1 == line.len() + 1
            &&& scan_all(mk, st, line.push(0x0Au8)).count == count
        }),
{
    let st = ScanState { in_block: Some(close), in_line_comment: false, line_has_code: false, count };
    let buf = line.push(0x0Au8);
    let n = line.len() as int;
    assert forall|t: int| 0 <= t < n implies #[trigger] buf[t] != 0x0Au8 by {
        assert(buf[t] == line[t]);
    }
    assert forall|t: int| 0 <= t < n implies !#[trigger] matches_at(buf, t, st.in_block->0) by {
        if t + close.len() <= line.len() + 1 {
            assert(buf.subrange(t, t + close.len()) != close);
        }
    }
    lemma_run_in_block(mk, st, buf, n, 0);
    assert(buf[n] == 0x0Au8);
    assert(step(mk, st, buf, n) == (st, n + 1));
    assert(run(mk, st, buf, n, buf.len() as int) == run(mk, st, buf, n + 1, buf.len() as int));
}

/// The count that a scan starts from is carried through it unchanged: the scan adds the
/// same number of lines whatever it starts from.
pub proof fn lemma_run_count_offset(mk: Markers, st: ScanState, buf: Seq<u8>, i: int, stop: int, c: nat)
    requires
        markers_wf(mk),
        0 <= i <= buf.len(),
    ensures
        run(mk, ScanState { count: st.count + c, ..st }, buf, i, stop) == (
            ScanState { count: run(mk, st, buf, i, stop).0.count + c, ..run(mk, st, buf, i, stop).0 },
            run(mk, st, buf, i, stop).1,
        ),
    decreases 4 * (buf.len() - i) + phase(st),
{
    let st2 = ScanState { count: st.count + c, ..st };
    if !stops(st, buf, i, stop) {
        lemma_step_progress(mk, st, buf, i);
        let (s1, j) = step(mk, st, buf, i);
        assert(step(mk, st2, buf, i) == (ScanState { count: s1.count + c, ..s1 }, j));
        lemma_run_count_offset(mk, s1, buf, j, stop, c);
    }
}

/// After a newline outside any comment, with `c` lines counted, the scan of the rest
/// counts what a fresh scan of the rest counts, on top of `c`.
proof fn lemma_fresh_after(mk: Markers, full: Seq<u8>, at: int, c: nat)
    requires
        markers_wf(mk),
        0 <= at <= full.len(),
    ensures
        feed_spec(mk, ScanState { count: c, ..initial_state() }, full.skip(at), true).0.count
            == c + code_lines(mk, full.skip(at)),
        ({
            let r = run(mk, ScanState { count: c, ..initial_state() }, full, at, full.len() as int);
            (if r.0.line_has_code { r.0.count + 1 } else { r.0.count }) == c + code_lines(mk, full.skip(at))
        }),
{
    let rest = full.skip(at);
    let init = initial_state();
    let initc = ScanState { count: c, ..init };
    lemma_run_count_offset(mk, init, rest, 0, rest.len() as int, c);
    lemma_run_count_offset(mk, init, full, at, full.len() as int, c);
    lemma_run_shift(mk, init, full, at, at, full.len() as int);
    assert(init == ScanState { count: init.count, ..init });
    assert(initc == ScanState { count: init.count + c, ..init });
}

/// A line with no comment marker, then its newline, then anything: the line counts as
/// one line with code exactly when it holds a byte that is not ASCII whitespace, and the
/// rest is counted as if on its own.
pub proof fn lemma_plain_line_then(mk: Markers, line: Seq<u8>, rest: Seq<u8>)
    requires
        markers_wf(mk),
        forall|t: int| 0 <= t < line.len() ==> #[trigger] line[t] != 0x0Au8,
        no_marker_before(mk, line.push(0x0Au8) + rest, line.len() as int),
    ensures
        code_lines(mk, line.push(0x0Au8) + rest)
            == (if has_code(line, 0, line.len() as int) { 1nat } else { 0nat }) + code_lines(mk, rest),
{
    let full = line.push(0x0Au8) + rest;
    let n = line.len() as int;
    assert forall|t: int| 0 <= t < n implies #[trigger] full[t] == line[t] by {}
    assert forall|t: int| 0 <= t < n implies #[trigger] full[t] != 0x0Au8 by {
        assert(full[t] == line[t]);
    }
    lemma_run_plain(mk, full, n, 0, false, 0);
    assert(has_code(full, 0, n) == has_code(line, 0, n)) by {
        if has_code(full, 0, n) {
            let t = choose|t: int| 0 <= t < n && is_code_byte(#[trigger] full[t]);
            assert(line[t] == full[t]);
        }
        if has_code(line, 0, n) {
            let t = choose|t: int| 0 <= t < n && is_code_byte(#[trigger] line[t]);
            assert(line[t] == full[t]);
        }
    }
    let h = has_code(line, 0, n);
    let c: nat = if h { 1 } else { 0 };
    let st = ScanState { in_block: None, in_line_comment: false, line_has_code: h, count: 0 };
    let initc = ScanState { count: c, ..initial_state() };
    assert(full[n] == 0x0Au8);
    assert(step(mk, st, full, n) == (initc, n + 1));
    assert(run(mk, st, full, n, full.len() as int) == run(mk, initc, full, n + 1, full.len() as int));
    lemma_fresh_after(mk, full, n + 1, c);
    assert(full.skip(n + 1) =~= rest);
}

/// A line made of whitespace, a line-comment marker and anything without a newline,
/// then its newline, then anything: the line is not counted, and the rest is counted as
/// if on its own (the comment ends at the newline).
pub proof fn lemma_commented_line_then(mk: Markers, pre: Seq<u8>, k: int, post: Seq<u8>, rest: Seq<u8>)
    requires
        markers_wf(mk),
        0 <= k < mk.singles.len(),
        mk.singles[k].len() > 0,
        forall|t: int| 0 <= t < pre.len() ==> !is_code_byte(#[trigger] pre[t]) && pre[t] != 0x0Au8,
        forall|t: int| 0 <= t < mk.singles[k].len() ==> #[trigger] mk.singles[k][t] != 0x0Au8,
        forall|t: int| 0 <= t < post.len() ==> #[trigger] post[t] != 0x0Au8,
        no_marker_before(mk, (pre + mk.singles[k] + post).push(0x0Au8) + rest, pre.len() as int),
        // The first marker found there is no longer than the line: it does not reach past the newline.
        forall|j: int| 0 <= j < mk.singles.len() ==> #[trigger] mk.singles[j].len() <= mk.singles[k].len() + post.len(),
    ensures
        code_lines(mk, (pre + mk.singles[k] + post).push(0x0Au8) + rest) == code_lines(mk, rest),
{
    let m = mk.singles[k];
    let line = pre + m + post;
    let full = line.push(0x0Au8) + rest;
    let n0 = pre.len() as int;
    let n = line.len() as int;
    assert forall|t: int| 0 <= t < n implies #[trigger] full[t] == line[t] by {}
    assert forall|t: int| 0 <= t < n implies #[trigger] full[t] != 0x0Au8 by {
        assert(full[t] == line[t]);
        if t < n0 {
            assert(line[t] == pre[t]);
        } else if t < n0 + m.len() {
            assert(line[t] == m[t - n0]);
        } else {
            assert(line[t] == post[t - n0 - m.len()]);
        }
    }
    lemma_run_plain(mk, full, n0, 0, false, 0);
    assert(!has_code(full, 0, n0)) by {
        if has_code(full, 0, n0) {
            let t = choose|t: int| 0 <= t < n0 && is_code_byte(#[trigger] full[t]);
            assert(full[t] == line[t] && line[t] == pre[t]);
        }
    }
    let st = ScanState { in_block: None, in_line_comment: false, line_has_code: false, count: 0 };
    assert(full.subrange(n0, n0 + m.len()) =~= m);
    assert(matches_at(full, n0, m));
    lemma_first_marker(mk.singles, full, n0, 0);
    if first_marker(mk.singles, full, n0, 0) is None {
        assert(!matches_at(full, n0, mk.singles[k]));
    }
    let j = first_marker(mk.singles, full, n0, 0)->0;
    assert(full[n0] == m[0]);
    let inl = ScanState { in_block: None, in_line_comment: true, line_has_code: false, count: 0 };
    let i1 = n0 + mk.singles[j].len();
    assert(step(mk, st, full, n0) == (inl, i1));
    assert(run(mk, st, full, n0, full.len() as int) == run(mk, inl, full, i1, full.len() as int));
    assert(i1 <= n);
    lemma_run_in_line(mk, inl, full, n, i1);
    let init = initial_state();
    assert(full[n] == 0x0Au8);
    assert(step(mk, inl, full, n) == (ScanState { count: 0, ..init }, n + 1));
    assert(run(mk, inl, full, n, full.len() as int) == run(mk, ScanState { count: 0, ..init }, full, n + 1, full.len() as int));
    lemma_fresh_after(mk, full, n + 1, 0);
    assert(full.skip(n + 1) =~= rest);
}

/// No comment marker begins in `buf` at a position in `[i, n)`.
pub open spec fn no_marker_between(mk: Markers, buf: Seq<u8>, i: int, n: int) -> bool {
    &&& forall|t: int, k: int|
        i <= t < n && 0 <= k < mk.singles.len() && t + mk.singles[k].len() <= buf.len()
            ==> #[trigger] buf.subrange(t, t + mk.singles[k].len()) != #[trigger] mk.singles[k]
    &&& forall|t: int, k: int|
        i <= t < n && 0 <= k < mk.blocks.len() && t + mk.blocks[k].0.len() <= buf.len()
            ==> #[trigger] buf.subrange(t, t + mk.blocks[k].0.len()) != (#[trigger] mk.blocks[k]).0
}

/// Outside comments, on a stretch `[i, n)` with no newline and no comment marker, the
/// scan only notes whether a byte of code has been seen.
pub proof fn lemma_run_plain_from(mk: Markers, buf: Seq<u8>, n: int, i: int, has: bool, count: nat)
    requires
        markers_wf(mk),
        0 <= i <= n <= buf.len(),
        forall|t: int| i <= t < n ==> #[trigger] buf[t] != 0x0Au8,
        no_marker_between(mk, buf, i, n),
    ensures
        run(mk, ScanState { in_block: None, in_line_comment: false, line_has_code: has, count }, buf, i, buf.len() as int)
            == run(
            mk,
            ScanState { in_block: None, in_line_comment: false, line_has_code: has || has_code(buf, i, n), count },
            buf,
            n,
            buf.len() as int,
        ),
    decreases n - i,
{
    let st = ScanState { in_block: None, in_line_comment: false, line_has_code: has, count };
    if i < n {
        assert forall|k: int| 0 <= k < mk.singles.len() implies !matches_at(buf, i, #[trigger] mk.singles[k]) by {
            if i + mk.singles[k].len() <= buf.len() {
                assert(buf.subrange(i, i + mk.singles[k].len()) != mk.singles[k]);
            }
        }
        assert forall|k: int| 0 <= k < opens(mk).len() implies !matches_at(buf, i, #[trigger] opens(mk)[k]) by {
            assert(opens(mk)[k] == mk.blocks[k].0);
            if i + mk.blocks[k].0.len() <= buf.len() {
                assert(buf.subrange(i, i + mk.blocks[k].0.len()) != mk.blocks[k].0);
            }
        }
        lemma_no_first_marker(mk.singles, buf, i, 0);
        lemma_no_first_marker(opens(mk), buf, i, 0);
        let has2 = has || is_code_byte(buf[i]);
        assert(step(mk, st, buf, i) == (
            ScanState { in_block: None, in_line_comment: false, line_has_code: has2, count },
            i + 1,
        ));
        lemma_run_plain_from(mk, buf, n, i + 1, has2, count);
        assert((has2 || has_code(buf, i + 1, n)) == (has || has_code(buf, i, n))) by {
            if has_code(buf, i, n) && !is_code_byte(buf[i]) {
                let t = choose|t: int| i <= t < n && is_code_byte(#[trigger] buf[t]);
                assert(t != i);
            }
            if has_code(buf, i + 1, n) {
                let t = choose|t: int| i + 1 <= t < n && is_code_byte(#[trigger] buf[t]);
                assert(i <= t < n);
            }
        }
    }
}

/// A block comment ends at its closing marker: from inside the comment, a line whose
/// closing marker comes after a stretch without it, followed by text with no marker,
/// counts one line exactly when that text holds a byte that is not ASCII whitespace.
pub proof fn lemma_block_closes(mk: Markers, close: Seq<u8>, body: Seq<u8>, tail: Seq<u8>, count: nat)
    requires
        markers_wf(mk),
        close.len() > 0,
        forall|t: int| 0 <= t < body.len() ==> #[trigger] body[t] != 0x0Au8,
        forall|t: int| 0 <= t < close.len() ==> #[trigger] close[t] != 0x0Au8,
        forall|t: int| 0 <= t < tail.len() ==> #[trigger] tail[t] != 0x0Au8,
        forall|t: int| 0 <= t < body.len() ==> !#[trigger] matches_at((body + close + tail).push(0x0Au8), t, close),
        no_marker_between(mk, (body + close + tail).push(0x0Au8), (body.len() + close.len()) as int, (body + close + tail).len() as int),
    ensures
        scan_all(
            mk,
            ScanState { in_block: Some(close), in_line_comment: false, line_has_code: false, count },
            (body + close + tail).push(0x0Au8),
        ).count == count + (if has_code(tail, 0, tail.len() as int) { 1nat } else { 0nat }),
{
    let line = body + close + tail;
    let buf = line.push(0x0Au8);
    let nb = body.len() as int;
    let nc = nb + close.len() as int;
    let n = line.len() as int;
    let st = ScanState { in_block: Some(close), in_line_comment: false, line_has_code: false, count };
    assert forall|t: int| 0 <= t < n implies #[trigger] buf[t] != 0x0Au8 by {
        assert(buf[t] == line[t]);
        if t < nb {
            assert(line[t] == body[t]);
        } else if t < nc {
            assert(line[t] == close[t - nb]);
        } else {
            assert(line[t] == tail[t - nc]);
        }
    }
    lemma_run_in_block(mk, st, buf, nb, 0);
    assert(buf.subrange(nb, nc) =~= close);
    assert(buf[nb] == close[0]);
    let out = ScanState { in_block: None, in_line_comment: false, line_has_code: false, count };
    assert(step(mk, st, buf, nb) == (out, nc));
    assert(run(mk, st, buf, nb, buf.len() as int) == run(mk, out, buf, nc, buf.len() as int));
    lemma_run_plain_from(mk, buf, n, nc, false, count);
    assert(has_code(buf, nc, n) == has_code(tail, 0, tail.len() as int)) by {
        if has_code(buf, nc, n) {
            let t = choose|t: int| nc <= t < n && is_code_byte(#[trigger] buf[t]);
            assert(buf[t] == tail[t - nc]);
        }
        if has_code(tail, 0, tail.len() as int) {
            let t = choose|t: int| 0 <= t < tail.len() && is_code_byte(#[trigger] tail[t]);
            assert(buf[t + nc] == tail[t]);
        }
    }
    let h = has_code(tail, 0, tail.len() as int);
    let at_nl = ScanState { in_block: None, in_line_comment: false, line_has_code: h, count };
    let after = ScanState { in_block: None, in_line_comment: false, line_has_code: false, count: if h { count + 1 } else { count } };
    assert(buf[n] == 0x0Au8);
    assert(step(mk, at_nl, buf, n) == (after, n + 1));
    assert(run(mk, at_nl, buf, n, buf.len() as int) == run(mk, after, buf, n + 1, buf.len() as int));
}

/// `c` is a line comment whose marker, as bytes, is `x`.
pub open spec fn single_is(c: CommentView, x: Seq<u8>) -> bool {
    match c {
        CommentView::Single(m) => encode_utf8(m) == x,
        _ => false,
    }
}

/// `c` is a block comment whose markers, as bytes, are `x`.
pub open spec fn block_is(c: CommentView, x: (Seq<u8>, Seq<u8>)) -> bool {
    match c {
        CommentView::Double(o, cl) => (encode_utf8(o), encode_utf8(cl)) == x,
        _ => false,
    }
}

pub proof fn lemma_push_contains<T>(s: Seq<T>, e: T, x: T)
    ensures
        s.push(e).contains(x) <==> s.contains(x) || x == e,
{
    if s.contains(x) {
        let t = choose|t: int| 0 <= t < s.len() && s[t] == x;
        assert(s.push(e)[t] == x);
    }
    if x == e {
        assert(s.push(e)[s.len() as int] == x);
    }
    if s.push(e).contains(x) && x != e {
        let t = choose|t: int| 0 <= t < s.push(e).len() && s.push(e)[t] == x;
        assert(s[t] == x);
    }
}

pub proof fn lemma_single_witness_split(cs: Seq<CommentView>, x: Seq<u8>)
    requires
        cs.len() > 0,
    ensures
        (exists|k: int| 0 <= k < cs.len() && single_is(#[trigger] cs[k], x))
            <==> (exists|k: int| 0 <= k < cs.drop_last().len() && single_is(#[trigger] cs.drop_last()[k], x))
                || single_is(cs[cs.len() - 1], x),
{
    let p = cs.drop_last();
    if exists|k: int| 0 <= k < cs.len() && single_is(#[trigger] cs[k], x) {
        let k = choose|k: int| 0 <= k < cs.len() && single_is(#[trigger] cs[k], x);
        if k < cs.len() - 1 {
            assert(p[k] == cs[k]);
        }
    }
    if exists|k: int| 0 <= k < p.len() && single_is(#[trigger] p[k], x) {
        let k = choose|k: int| 0 <= k < p.len() && single_is(#[trigger] p[k], x);
        assert(p[k] == cs[k]);
    }
}

pub proof fn lemma_block_witness_split(cs: Seq<CommentView>, x: (Seq<u8>, Seq<u8>))
    requires
        cs.len() > 0,
    ensures
        (exists|k: int| 0 <= k < cs.len() && block_is(#[trigger] cs[k], x))
            <==> (exists|k: int| 0 <= k < cs.drop_last().len() && block_is(#[trigger] cs.drop_last()[k], x))
                || block_is(cs[cs.len() - 1], x),
{
    let p = cs.drop_last();
    if exists|k: int| 0 <= k < cs.len() && block_is(#[trigger] cs[k], x) {
        let k = choose|k: int| 0 <= k < cs.len() && block_is(#[trigger] cs[k], x);
        if k < cs.len() - 1 {
            assert(p[k] == cs[k]);
        }
    }
    if exists|k: int| 0 <= k < p.len() && block_is(#[trigger] p[k], x) {
        let k = choose|k: int| 0 <= k < p.len() && block_is(#[trigger] p[k], x);
        assert(p[k] == cs[k]);
    }
}

/// The markers of a list of comment syntaxes are exactly those syntaxes' markers, and
/// the longest length is that of one of them.
pub proof fn lemma_comment_markers(cs: Seq<CommentView>)
    ensures
        forall|x: Seq<u8>| single_markers(cs).contains(x) <==> exists|k: int|
            0 <= k < cs.len() && single_is(#[trigger] cs[k], x),
        forall|x: (Seq<u8>, Seq<u8>)| block_markers(cs).contains(x) <==> exists|k: int|
            0 <= k < cs.len() && block_is(#[trigger] cs[k], x),
        forall|x: Seq<u8>| single_markers(cs).contains(x) ==> x.len() <= longest_marker(cs),
        forall|x: (Seq<u8>, Seq<u8>)| block_markers(cs).contains(x) ==> x.0.len() <= longest_marker(cs) && x.1.len() <= longest_marker(cs),
        longest_marker(cs) > 0 ==> (exists|x: Seq<u8>| single_markers(cs).contains(x) && x.len() == longest_marker(cs))
            || (exists|x: (Seq<u8>, Seq<u8>)| block_markers(cs).contains(x)
                && (x.0.len() == longest_marker(cs) || x.1.len() == longest_marker(cs))),
    decreases cs.len(),
{
    if cs.len() > 0 {
        let p = cs.drop_last();
        lemma_comment_markers(p);
        let sp = single_markers(p);
        let bp = block_markers(p);
        let n = cs.len() - 1;
        assert(cs[n] == cs.last());
        assert forall|k: int| 0 <= k < p.len() implies #[trigger] p[k] == cs[k] by {}
        match cs.last() {
            CommentView::Single(m) => {
                let e = encode_utf8(m);
                assert(single_markers(cs) == sp.push(e));
                assert(block_markers(cs) == bp);
                assert forall|x: Seq<u8>| single_markers(cs).contains(x) <==> sp.contains(x) || x == e by {
                    lemma_push_contains(sp, e, x);
                }
                assert forall|x: Seq<u8>| single_markers(cs).contains(x) <==> exists|k: int|
                    0 <= k < cs.len() && single_is(#[trigger] cs[k], x) by {
                    assert(single_is(cs[n], x) <==> x == e);
                    lemma_push_contains(sp, e, x);
                    lemma_single_witness_split(cs, x);
                    assert(sp.contains(x) <==> exists|k: int| 0 <= k < p.len() && single_is(#[trigger] p[k], x));
                }
                assert forall|x: (Seq<u8>, Seq<u8>)| block_markers(cs).contains(x) <==> exists|k: int|
                    0 <= k < cs.len() && block_is(#[trigger] cs[k], x) by {
                    assert(!block_is(cs[n], x));
                    lemma_block_witness_split(cs, x);
                    assert(bp.contains(x) <==> exists|k: int| 0 <= k < p.len() && block_is(#[trigger] p[k], x));
                }
                assert forall|x: Seq<u8>| single_markers(cs).contains(x) implies x.len() <= longest_marker(cs) by {
                    lemma_push_contains(sp, e, x);
                }
                assert forall|x: (Seq<u8>, Seq<u8>)| block_markers(cs).contains(x) implies x.0.len() <= longest_marker(cs)
                    && x.1.len() <= longest_marker(cs) by {
                    assert(bp.contains(x));
                }
                if e.len() == longest_marker(cs) {
                    lemma_push_contains(sp, e, e);
                }
                if longest_marker(cs) > 0 && e.len() < longest_marker(cs) {
                    assert(longest_marker(cs) == longest_marker(p));
                    if exists|x: Seq<u8>| sp.contains(x) && x.len() == longest_marker(p) {
                        let x = choose|x: Seq<u8>| sp.contains(x) && x.len() == longest_marker(p);
                        lemma_push_contains(sp, e, x);
                    }
                }
            },
            CommentView::Double(o, c) => {
                let e = (encode_utf8(o), encode_utf8(c));
                assert(single_markers(cs) == sp);
                assert(block_markers(cs) == bp.push(e));
                assert forall|x: (Seq<u8>, Seq<u8>)| block_markers(cs).contains(x) <==> bp.contains(x) || x == e by {
                    lemma_push_contains(bp, e, x);
                }
                assert forall|x: (Seq<u8>, Seq<u8>)| block_markers(cs).contains(x) <==> exists|k: int|
                    0 <= k < cs.len() && block_is(#[trigger] cs[k], x) by {
                    assert(block_is(cs[n], x) <==> x == e);
                    lemma_push_contains(bp, e, x);
                    lemma_block_witness_split(cs, x);
                    assert(bp.contains(x) <==> exists|k: int| 0 <= k < p.len() && block_is(#[trigger] p[k], x));
                }
                assert forall|x: Seq<u8>| single_markers(cs).contains(x) <==> exists|k: int|
                    0 <= k < cs.len() && single_is(#[trigger] cs[k], x) by {
                    assert(!single_is(cs[n], x));
                    lemma_single_witness_split(cs, x);
                    assert(sp.contains(x) <==> exists|k: int| 0 <= k < p.len() && single_is(#[trigger] p[k], x));
                }
                assert forall|x: (Seq<u8>, Seq<u8>)| block_markers(cs).contains(x) implies x.0.len() <= longest_marker(cs)
                    && x.1.len() <= longest_marker(cs) by {
                    lemma_push_contains(bp, e, x);
                }
                assert forall|x: Seq<u8>| single_markers(cs).contains(x) implies x.len() <= longest_marker(cs) by {
                    assert(sp.contains(x));
                }
                if e.0.len() == longest_marker(cs) || e.1.len() == longest_marker(cs) {
                    lemma_push_contains(bp, e, e);
                }
                if longest_marker(cs) > 0 && e.0.len() < longest_marker(cs) && e.1.len() < longest_marker(cs) {
                    assert(longest_marker(cs) == longest_marker(p));
                    if exists|x: (Seq<u8>, Seq<u8>)| bp.contains(x) && (x.0.len() == longest_marker(p) || x.1.len() == longest_marker(p)) {
                        let x = choose|x: (Seq<u8>, Seq<u8>)| bp.contains(x) && (x.0.len() == longest_marker(p) || x.1.len() == longest_marker(p));
                        lemma_push_contains(bp, e, x);
                    }
                }
            },
        }
    }
}

/// A scanner for `cfg` looks for exactly the language's markers, as bytes, and its
/// longest-marker length is the length of one of them (0 when it has none).
pub proof fn lemma_markers_of_config(cfg: ConfigView)
    ensures
        forall|x: Seq<u8>| markers_of(cfg).singles.contains(x) <==> exists|k: int|
            0 <= k < cfg.comments.len() && single_is(#[trigger] cfg.comments[k], x),
        forall|x: (Seq<u8>, Seq<u8>)| markers_of(cfg).blocks.contains(x) <==> exists|k: int|
            0 <= k < cfg.comments.len() && block_is(#[trigger] cfg.comments[k], x),
        markers_of(cfg).singles.len() + markers_of(cfg).blocks.len() <= cfg.comments.len(),
        markers_of(cfg).max_len > 0 ==> (exists|x: Seq<u8>| markers_of(cfg).singles.contains(x) && x.len() == markers_of(cfg).max_len)
            || (exists|x: (Seq<u8>, Seq<u8>)| markers_of(cfg).blocks.contains(x)
                && (x.0.len() == markers_of(cfg).max_len || x.1.len() == markers_of(cfg).max_len)),
{
    let cs = cfg.comments;
    lemma_comment_markers(cs);
    lemma_sort_desc(single_markers(cs), marker_len());
    lemma_sort_desc(block_markers(cs), opener_len());
    lemma_marker_counts(cs);
    let mk = markers_of(cfg);
    assert forall|x: Seq<u8>| mk.singles.contains(x) <==> single_markers(cs).contains(x) by {}
    assert forall|x: (Seq<u8>, Seq<u8>)| mk.blocks.contains(x) <==> block_markers(cs).contains(x) by {}
    if mk.max_len > 0 {
        if exists|x: Seq<u8>| single_markers(cs).contains(x) && x.len() == mk.max_len {
            let x = choose|x: Seq<u8>| single_markers(cs).contains(x) && x.len() == mk.max_len;
            assert(mk.singles.contains(x));
        } else {
            let x = choose|x: (Seq<u8>, Seq<u8>)| block_markers(cs).contains(x) && (x.0.len() == mk.max_len || x.1.len() == mk.max_len);
            assert(mk.blocks.contains(x));
        }
    }
}

pub proof fn lemma_marker_counts(cs: Seq<CommentView>)
    ensures
        single_markers(cs).len() + block_markers(cs).len() == cs.len(),
    decreases cs.len(),
{
    if cs.len() > 0 {
        lemma_marker_counts(cs.drop_last());
    }
}

// ---------------------------------------------------------------------------
// The scanner.
// ---------------------------------------------------------------------------

/// Counts the lines that hold code in a stream of bytes fed to it in pieces.
pub struct Scanner {
    singles: Vec<&'static [u8]>,
    blocks: Vec<(&'static [u8], &'static [u8])>,
    max_marker_len: usize,
    in_block: Option<&'static [u8]>,
    in_line_comment: bool,
    line_has_code: bool,
    count: usize,
}

impl Scanner {
    /// The markers the scanner looks for.
    pub closed spec fn markers(&self) -> Markers {
        Markers {
            singles: self.singles@.map_values(|m: &'static [u8]| m@),
            blocks: self.blocks@.map_values(|b: (&'static [u8], &'static [u8])| (b.0@, b.1@)),
            max_len: self.max_marker_len as nat,
        }
    }

    /// The scanner's state.
    pub closed spec fn state(&self) -> ScanState {
        ScanState {
            in_block: match self.in_block {
                Some(close) => Some(close@),
                None => None,
            },
            in_line_comment: self.in_line_comment,
            line_has_code: self.line_has_code,
            count: self.count as nat,
        }
    }

    /// The markers can be scanned for and the state belongs to them.
    pub open spec fn wf(&self) -> bool {
        markers_wf(self.markers()) && state_wf(self.markers(), self.state())
    }
}

/// `buf[i..]` starts with `m`.
fn starts_with_at(buf: &[u8], i: usize, m: &[u8]) -> (r: bool)
    requires
        i <= buf@.len(),
    ensures
        r == matches_at(buf@, i as int, m@),
{
    if m.len() > buf.len() - i {
        return false;
    }
    let mut j: usize = 0;
    while j < m.len()
        invariant
            i + m@.len() <= buf@.len(),
            i + m.len() <= buf.len(),
            j <= m@.len(),
            forall|t: int| 0 <= t < j ==> buf@[i + t] == m@[t],
        decreases m@.len() - j,
    {
        if buf[i + j] != m[j] {
            assert(buf@.subrange(i as int, i + m@.len())[j as int] != m@[j as int]);
            return false;
        }
        j = j + 1;
    }
    assert(buf@.subrange(i as int, i + m@.len()) =~= m@);
    true
}

/// The first line-comment marker that `buf[i..]` starts with.
fn first_single(singles: &Vec<&'static [u8]>, buf: &[u8], i: usize) -> (r: Option<usize>)
    requires
        i <= buf@.len(),
    ensures
        r matches Some(k) ==> first_marker(singles@.map_values(|m: &'static [u8]| m@), buf@, i as int, 0) == Some(k as int),
        r is None ==> first_marker(singles@.map_values(|m: &'static [u8]| m@), buf@, i as int, 0) is None,
{
    let ghost ms = singles@.map_values(|m: &'static [u8]| m@);
    let mut k: usize = 0;
    while k < singles.len()
        invariant
            i <= buf@.len(),
            k <= singles@.len(),
            ms == singles@.map_values(|m: &'static [u8]| m@),
            first_marker(ms, buf@, i as int, 0) == first_marker(ms, buf@, i as int, k as int),
        decreases singles@.len() - k,
    {
        if starts_with_at(buf, i, singles[k]) {
            return Some(k);
        }
        k = k + 1;
    }
    None
}

/// The first block comment whose opening marker `buf[i..]` starts with.
fn first_block(blocks: &Vec<(&'static [u8], &'static [u8])>, buf: &[u8], i: usize) -> (r: Option<usize>)
    requires
        i <= buf@.len(),
    ensures
        r matches Some(k) ==> first_marker(blocks@.map_values(|b: (&'static [u8], &'static [u8])| b.0@), buf@, i as int, 0) == Some(k as int),
        r is None ==> first_marker(blocks@.map_values(|b: (&'static [u8], &'static [u8])| b.0@), buf@, i as int, 0) is None,
{
    let ghost ms = blocks@.map_values(|b: (&'static [u8], &'static [u8])| b.0@);
    let mut k: usize = 0;
    while k < blocks.len()
        invariant
            i <= buf@.len(),
            k <= blocks@.len(),
            ms == blocks@.map_values(|b: (&'static [u8], &'static [u8])| b.0@),
            first_marker(ms, buf@, i as int, 0) == first_marker(ms, buf@, i as int, k as int),
        decreases blocks@.len() - k,
    {
        if starts_with_at(buf, i, blocks[k].0) {
            return Some(k);
        }
        k = k + 1;
    }
    None
}


impl Scanner {
    /// Scans `buf`, a window of the input that starts at the first byte not yet consumed.
    /// Unless `eof`, the scan stops short of the last `max_marker_len - 1` bytes (outside a
    /// line comment), since a marker may continue past the window; it returns how many bytes
    /// it consumed, and the caller hands the rest back, with more input, on the next call.
    /// At `eof` it scans the whole window and counts a last line that has code but no newline.
    pub fn feed(&mut self, buf: &[u8], eof: bool) -> (consumed: usize)
        requires
            old(self).wf(),
            old(self).state().count + buf@.len() < usize::MAX,
        ensures
            final(self).wf(),
            final(self).markers() == old(self).markers(),
            (final(self).state(), consumed as int) == feed_spec(old(self).markers(), old(self).state(), buf@, eof),
            consumed <= buf@.len(),
            eof ==> consumed == buf@.len(),
            final(self).state().count <= old(self).state().count + consumed + (if eof { 1int } else { 0int }),
    {
        let reserve = self.max_marker_len.saturating_sub(1);
        let safe_end = if eof { buf.len() } else { buf.len().saturating_sub(reserve) };
        let ghost mk = self.markers();
        let ghost st0 = self.state();
        assert(safe_end == stop_point(mk, buf@.len() as int, eof));
        let mut i: usize = 0;
        while i < buf.len()
            invariant
                mk == self.markers(),
                self.wf(),
                i <= buf@.len(),
                safe_end == stop_point(mk, buf@.len() as int, eof),
                run(mk, self.state(), buf@, i as int, safe_end as int) == run(mk, st0, buf@, 0, safe_end as int),
                self.state().count <= st0.count + i,
                st0.count + buf@.len() < usize::MAX,
            ensures
                i <= buf@.len(),
                stops(self.state(), buf@, i as int, safe_end as int),
            decreases 4 * (buf@.len() - i) + phase(self.state()),
        {
            if i >= safe_end && !self.in_line_comment {
                break;
            }
            proof {
                lemma_step_progress(mk, self.state(), buf@, i as int);
            }
            let ghost expected = step(mk, self.state(), buf@, i as int);
            let b = buf[i];
            if b == 0x0Au8 {
                if self.line_has_code {
                    self.count = self.count + 1;
                }
                self.in_line_comment = false;
                self.line_has_code = false;
                i = i + 1;
            } else if self.in_line_comment {
                i = i + 1;
            } else if let Some(close) = self.in_block {
                if starts_with_at(buf, i, close) {
                    self.in_block = None;
                    i = i + close.len();
                } else {
                    i = i + 1;
                }
            } else if let Some(k) = first_single(&self.singles, buf, i) {
                proof {
                    lemma_first_marker(mk.singles, buf@, i as int, 0);
                }
                self.in_line_comment = true;
                i = i + self.singles[k].len();
            } else if let Some(k) = first_block(&self.blocks, buf, i) {
                proof {
                    lemma_first_marker(opens(mk), buf@, i as int, 0);
                    assert(opens(mk) =~= self.blocks@.map_values(|b: (&'static [u8], &'static [u8])| b.0@));
                }
                self.in_block = Some(self.blocks[k].1);
                i = i + self.blocks[k].0.len();
            } else {
                proof {
                    assert(opens(mk) =~= self.blocks@.map_values(|b: (&'static [u8], &'static [u8])| b.0@));
                }
                if !is_ascii_whitespace(b) {
                    self.line_has_code = true;
                }
                i = i + 1;
            }
            assert(self.state() == expected.0 && i == expected.1);
        }
        proof {
            lemma_run_bounds(mk, st0, buf@, 0, safe_end as int);
        }
        if eof && self.line_has_code {
            self.count = self.count + 1;
            self.line_has_code = false;
        }
        i
    }

    /// The number of lines with code counted so far.
    pub fn counted(&self) -> (n: usize)
        ensures
            n == self.state().count,
    {
        self.count
    }

    /// The number of lines with code counted.
    pub fn finish(self) -> (n: usize)
        ensures
            n == self.state().count,
    {
        self.count
    }
}

/// `u8::is_ascii_whitespace`.
fn is_ascii_whitespace(b: u8) -> (r: bool)
    ensures
        r == is_ascii_ws(b),
{
    b == 0x20u8 || b == 0x09u8 || b == 0x0Au8 || b == 0x0Cu8 || b == 0x0Du8
}


impl Scanner {
    /// A scanner for the comment syntaxes of `cfg`, before any input.
    pub fn new(cfg: &Config) -> (s: Scanner)
        requires
            config_wf(cfg@),
        ensures
            s.wf(),
            s.markers() == markers_of(cfg@),
            s.state() == initial_state(),
            // It looks for exactly the language's markers.
            forall|x: Seq<u8>| s.markers().singles.contains(x) <==> exists|k: int|
                0 <= k < cfg@.comments.len() && single_is(#[trigger] cfg@.comments[k], x),
            forall|x: (Seq<u8>, Seq<u8>)| s.markers().blocks.contains(x) <==> exists|k: int|
                0 <= k < cfg@.comments.len() && block_is(#[trigger] cfg@.comments[k], x),
    {
        proof {
            lemma_markers_of_config(cfg@);
        }
        let ghost cs = cfg@.comments;
        let mut singles: Vec<&'static [u8]> = Vec::new();
        let mut blocks: Vec<(&'static [u8], &'static [u8])> = Vec::new();
        let mut max_marker_len: usize = 0;
        let n = cfg.comment_literal.len();
        let mut k: usize = 0;
        while k < n
            invariant
                n == cfg.comment_literal@.len(),
                cs == cfg@.comments,
                config_wf(cfg@),
                k <= n,
                singles@.map_values(|m: &'static [u8]| m@) == sort_desc(single_markers(cs.take(k as int)), marker_len()),
                blocks@.map_values(|b: (&'static [u8], &'static [u8])| (b.0@, b.1@)) == sort_desc(block_markers(cs.take(k as int)), opener_len()),
                max_marker_len == longest_marker(cs.take(k as int)),
                forall|t: int| 0 <= t < singles@.len() ==> #[trigger] singles@[t]@.len() <= max_marker_len,
                forall|t: int| 0 <= t < blocks@.len() ==>
                    (#[trigger] blocks@[t]).0@.len() <= max_marker_len && blocks@[t].1@.len() <= max_marker_len,
                forall|t: int| 0 <= t < blocks@.len() ==>
                    (#[trigger] blocks@[t]).0@.len() > 0 || blocks@[t].1@.len() > 0,
            decreases n - k,
        {
            let ghost prefix = cs.take(k as int);
            assert(cs.take(k + 1).drop_last() =~= prefix);
            assert(cs[k as int] == cfg.comment_literal@[k as int]@);
            match cfg.comment_literal[k] {
                Comment::Single(text) => {
                    let m = text.as_bytes();
                    proof {
                        let ms = single_markers(cs.take(k + 1));
                        assert(cs.take(k + 1).last() == cs[k as int]);
                        assert(ms == single_markers(prefix).push(m@));
                        assert(ms.drop_last() =~= single_markers(prefix));
                        assert(block_markers(cs.take(k + 1)) == block_markers(prefix));
                    }
                    let ghost before = singles@;
                    insert_single(&mut singles, m);
                    proof {
                        lemma_insert_pos(before.map_values(|x: &'static [u8]| x@), m@, marker_len(), 0);
                    }
                    if m.len() > max_marker_len {
                        max_marker_len = m.len();
                    }
                },
                Comment::Double(d) => {
                    let open = d.open.as_bytes();
                    let close = d.close.as_bytes();
                    proof {
                        assert(comment_wf(cs[k as int]));
                        lemma_encode_nonempty(d.open@);
                        lemma_encode_nonempty(d.close@);
                    }
                    proof {
                        let bs = block_markers(cs.take(k + 1));
                        assert(cs.take(k + 1).last() == cs[k as int]);
                        assert(bs == block_markers(prefix).push((open@, close@)));
                        assert(bs.drop_last() =~= block_markers(prefix));
                        assert(single_markers(cs.take(k + 1)) == single_markers(prefix));
                    }
                    let ghost before = blocks@;
                    insert_block(&mut blocks, open, close);
                    proof {
                        lemma_insert_pos(before.map_values(|b: (&'static [u8], &'static [u8])| (b.0@, b.1@)), (open@, close@), opener_len(), 0);
                    }
                    if open.len() > max_marker_len {
                        max_marker_len = open.len();
                    }
                    if close.len() > max_marker_len {
                        max_marker_len = close.len();
                    }
                },
            }
            k = k + 1;
        }
        assert(cs.take(n as int) =~= cs);
        Scanner {
            singles,
            blocks,
            max_marker_len,
            in_block: None,
            in_line_comment: false,
            line_has_code: false,
            count: 0,
        }
    }
}

/// Inserts `m` into `v`, kept sorted by descending length, after the markers at least as long.
fn insert_single(v: &mut Vec<&'static [u8]>, m: &'static [u8])
    ensures
        final(v)@ == old(v)@.insert(
            insert_pos(old(v)@.map_values(|x: &'static [u8]| x@), m@, marker_len(), 0),
            m,
        ),
        final(v)@.map_values(|x: &'static [u8]| x@) == old(v)@.map_values(|x: &'static [u8]| x@).insert(
            insert_pos(old(v)@.map_values(|x: &'static [u8]| x@), m@, marker_len(), 0),
            m@,
        ),
{
    let ghost s = v@.map_values(|x: &'static [u8]| x@);
    let mut j: usize = 0;
    while j < v.len() && v[j].len() >= m.len()
        invariant
            j <= v@.len(),
            s == v@.map_values(|x: &'static [u8]| x@),
            insert_pos(s, m@, marker_len(), 0) == insert_pos(s, m@, marker_len(), j as int),
        decreases v@.len() - j,
    {
        j = j + 1;
    }
    v.insert(j, m);
    assert(v@.map_values(|x: &'static [u8]| x@) =~= s.insert(j as int, m@));
}

/// Inserts the block comment `(open, close)` into `v`, kept sorted by descending
/// opening-marker length, after the blocks whose opener is at least as long.
fn insert_block(v: &mut Vec<(&'static [u8], &'static [u8])>, open: &'static [u8], close: &'static [u8])
    ensures
        final(v)@ == old(v)@.insert(
            insert_pos(old(v)@.map_values(|b: (&'static [u8], &'static [u8])| (b.0@, b.1@)), (open@, close@), opener_len(), 0),
            (open, close),
        ),
        final(v)@.map_values(|b: (&'static [u8], &'static [u8])| (b.0@, b.1@)) == old(v)@.map_values(
            |b: (&'static [u8], &'static [u8])| (b.0@, b.1@),
        ).insert(
            insert_pos(old(v)@.map_values(|b: (&'static [u8], &'static [u8])| (b.0@, b.1@)), (open@, close@), opener_len(), 0),
            (open@, close@),
        ),
{
    let ghost s = v@.map_values(|b: (&'static [u8], &'static [u8])| (b.0@, b.1@));
    let mut j: usize = 0;
    while j < v.len() && v[j].0.len() >= open.len()
        invariant
            j <= v@.len(),
            s == v@.map_values(|b: (&'static [u8], &'static [u8])| (b.0@, b.1@)),
            insert_pos(s, (open@, close@), opener_len(), 0) == insert_pos(s, (open@, close@), opener_len(), j as int),
        decreases v@.len() - j,
    {
        j = j + 1;
    }
    v.insert(j, (open, close));
    assert(v@.map_values(|b: (&'static [u8], &'static [u8])| (b.0@, b.1@)) =~= s.insert(j as int, (open@, close@)));
}
} // verus!
