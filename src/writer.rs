use vstd::prelude::*;

verus! {

/// ASCII space.
pub const SPACE: u8 = 32;

/// ASCII line feed.
pub const NEWLINE: u8 = 10;

/// The index of the last `b` in `s`, or -1 where there is none.
pub open spec fn rfind(s: Seq<u8>, b: u8) -> int
    decreases s.len(),
{
    if s.len() == 0 {
        -1
    } else if s.last() == b {
        s.len() - 1
    } else {
        rfind(s.drop_last(), b)
    }
}

/// `rfind` finds a `b`, and no `b` stands after it.
pub proof fn lemma_rfind(s: Seq<u8>, b: u8)
    ensures
        -1 <= rfind(s, b) < s.len(),
        rfind(s, b) >= 0 ==> s[rfind(s, b)] == b,
        forall|k: int| rfind(s, b) < k < s.len() ==> s[k] != b,
    decreases s.len(),
{
    if s.len() > 0 && s.last() != b {
        lemma_rfind(s.drop_last(), b);
        assert(forall|k: int| 0 <= k < s.len() - 1 ==> s.drop_last()[k] == s[k]);
    }
}

/// What soft wrapping sends on from a pending line `buf` that holds no
/// newline: while the line is longer than `width` and holds a space, its
/// last space becomes a newline and the line up to there is sent.
pub open spec fn wrap_sent(buf: Seq<u8>, width: nat) -> Seq<u8>
    decreases buf.len(),
{
    let i = rfind(buf, SPACE);
    if buf.len() > width && 0 <= i < buf.len() {
        buf.take(i).push(NEWLINE) + wrap_sent(buf.skip(i + 1), width)
    } else {
        Seq::empty()
    }
}

/// What soft wrapping leaves pending of `buf` (see `wrap_sent`).
pub open spec fn wrap_kept(buf: Seq<u8>, width: nat) -> Seq<u8>
    decreases buf.len(),
{
    let i = rfind(buf, SPACE);
    if buf.len() > width && 0 <= i < buf.len() {
        wrap_kept(buf.skip(i + 1), width)
    } else {
        buf
    }
}

/// A byte occurs in `s` exactly where `rfind` finds one.
pub proof fn lemma_rfind_contains(s: Seq<u8>, b: u8)
    ensures
        s.contains(b) <==> rfind(s, b) >= 0,
{
    lemma_rfind(s, b);
    if s.contains(b) {
        let k = choose|k: int| 0 <= k < s.len() && s[k] == b;
        assert(rfind(s, b) >= k);
    }
}

/// What soft wrapping holds back is a tail of the line it was given, and is
/// no line that it could still break: it fits, or holds no space.
pub proof fn lemma_wrap_kept(buf: Seq<u8>, width: nat)
    ensures
        wrap_kept(buf, width).len() <= width || !wrap_kept(buf, width).contains(SPACE),
        forall|b: u8| #![auto] wrap_kept(buf, width).contains(b) ==> buf.contains(b),
    decreases buf.len(),
{
    let i = rfind(buf, SPACE);
    lemma_rfind(buf, SPACE);
    lemma_rfind_contains(buf, SPACE);
    if buf.len() > width && 0 <= i < buf.len() {
        let rest = buf.skip(i + 1);
        lemma_wrap_kept(rest, width);
        assert forall|b: u8| #![auto] rest.contains(b) implies buf.contains(b) by {
            let k = choose|k: int| 0 <= k < rest.len() && rest[k] == b;
            assert(buf[i + 1 + k] == b);
        }
    }
}

/// The part of `buf` up to and including its last newline.
pub open spec fn through_newline(buf: Seq<u8>) -> Seq<u8> {
    buf.take(rfind(buf, NEWLINE) + 1)
}

/// The part of `buf` after its last newline.
pub open spec fn after_newline(buf: Seq<u8>) -> Seq<u8> {
    buf.skip(rfind(buf, NEWLINE) + 1)
}

/// A writer that keeps lines at most `width` bytes long where it can, by
/// turning spaces into line breaks. Complete lines are sent as they come;
/// the last, unfinished line is held back until it grows past `width`, or
/// until the writer is flushed.
pub struct MaxWidthWriter {
    width: usize,
    line_buffer: Vec<u8>,
    written: Vec<u8>,
}

impl MaxWidthWriter {
    /// The line length that the writer keeps to.
    pub closed spec fn max_width(&self) -> nat {
        self.width as nat
    }

    /// The bytes sent on so far.
    pub closed spec fn sent(&self) -> Seq<u8> {
        self.written@
    }

    /// The unfinished line held back.
    pub closed spec fn pending(&self) -> Seq<u8> {
        self.line_buffer@
    }

    /// A writer that has sent nothing and holds nothing back.
    pub fn new(width: usize) -> (w: Self)
        ensures
            w.max_width() == width,
            w.sent() == Seq::<u8>::empty(),
            w.pending() == Seq::<u8>::empty(),
    {
        MaxWidthWriter { width, line_buffer: Vec::new(), written: Vec::new() }
    }

    /// Sends the pending bytes up to and including index `i`.
    pub fn flush_partial(&mut self, i: usize)
        requires
            i < old(self).pending().len(),
        ensures
            final(self).max_width() == old(self).max_width(),
            final(self).sent() == old(self).sent() + old(self).pending().take(i + 1),
            final(self).pending() == old(self).pending().skip(i + 1),
    {
        let mut rest: Vec<u8> = Vec::new();
        let mut k: usize = 0;
        while k < self.line_buffer.len()
            invariant
                k <= self.line_buffer.len(),
                i < self.line_buffer.len(),
                self.width == old(self).width,
                self.line_buffer@ == old(self).line_buffer@,
                k <= i + 1 ==> self.written@ == old(self).written@ + self.line_buffer@.take(k as int),
                k <= i + 1 ==> rest@ == Seq::<u8>::empty(),
                k > i + 1 ==> self.written@ == old(self).written@ + self.line_buffer@.take(i + 1),
                k > i + 1 ==> rest@ == self.line_buffer@.subrange(i + 1, k as int),
            decreases self.line_buffer.len() - k,
        {
            let b = self.line_buffer[k];
            if k <= i {
                self.written.push(b);
                proof {
                    assert(self.line_buffer@.take(k as int + 1) =~= self.line_buffer@.take(
                        k as int,
                    ).push(b));
                }
            } else {
                rest.push(b);
                proof {
                    assert(self.line_buffer@.subrange(i + 1, k as int + 1) =~= self.line_buffer@.subrange(
                        i + 1,
                        k as int,
                    ).push(b));
                }
            }
            k = k + 1;
        }
        proof {
            if k <= i + 1 {
                assert(k == i + 1);
                assert(self.line_buffer@.subrange(i + 1, k as int) =~= Seq::<u8>::empty());
            }
            assert(self.line_buffer@.subrange(i + 1, k as int) =~= self.line_buffer@.skip(i + 1));
        }
        self.line_buffer = rest;
    }

    /// Turns the last pending space into a line break and sends the line up
    /// to it. Returns whether there was a space to break at; where there was
    /// none, nothing changes.
    pub fn flush_line(&mut self) -> (flushed: bool)
        ensures
            final(self).max_width() == old(self).max_width(),
            flushed <==> rfind(old(self).pending(), SPACE) >= 0,
            flushed ==> final(self).sent() == old(self).sent() + old(self).pending().take(
                rfind(old(self).pending(), SPACE),
            ).push(NEWLINE),
            flushed ==> final(self).pending() == old(self).pending().skip(
                rfind(old(self).pending(), SPACE) + 1,
            ),
            !flushed ==> *final(self) == *old(self),
    {
        match last_index_of(&self.line_buffer, SPACE) {
            None => false,
            Some(i) => {
                let ghost before = self.line_buffer@;
                self.line_buffer.set(i, NEWLINE);
                proof {
                    assert(self.line_buffer@.take(i + 1) =~= before.take(i as int).push(NEWLINE));
                    assert(self.line_buffer@.skip(i + 1) =~= before.skip(i + 1));
                }
                self.flush_partial(i);
                true
            },
        }
    }

    /// Takes `buf` in: every line that it completes is sent, and the
    /// unfinished line left over is soft wrapped (see `wrap_sent`).
    pub fn write(&mut self, buf: &[u8])
        ensures
            final(self).max_width() == old(self).max_width(),
            final(self).sent() == old(self).sent() + through_newline(old(self).pending() + buf@)
                + wrap_sent(after_newline(old(self).pending() + buf@), old(self).max_width()),
            final(self).pending() == wrap_kept(
                after_newline(old(self).pending() + buf@),
                old(self).max_width(),
            ),
            !final(self).pending().contains(NEWLINE),
            final(self).pending().len() <= final(self).max_width()
                || !final(self).pending().contains(SPACE),
    {
        let ghost all = old(self).pending() + buf@;
        let mut k: usize = 0;
        while k < buf.len()
            invariant
                k <= buf@.len(),
                self.width == old(self).width,
                self.written@ == old(self).written@,
                self.line_buffer@ == old(self).line_buffer@ + buf@.take(k as int),
            decreases buf.len() - k,
        {
            self.line_buffer.push(buf[k]);
            proof {
                assert(buf@.take(k as int + 1) =~= buf@.take(k as int).push(buf@[k as int]));
                assert(old(self).line_buffer@ + buf@.take(k as int + 1) =~= old(
                    self,
                ).line_buffer@ + buf@.take(k as int).push(buf@[k as int]));
            }
            k = k + 1;
        }
        proof {
            assert(buf@.take(k as int) =~= buf@);
            assert(self.line_buffer@ == all);
            lemma_rfind(all, NEWLINE);
        }
        match last_index_of(&self.line_buffer, NEWLINE) {
            Some(i) => {
                self.flush_partial(i);
            },
            None => {
                proof {
                    assert(all.take(0) =~= Seq::<u8>::empty());
                    assert(all.skip(0) =~= all);
                    assert(old(self).written@ + Seq::<u8>::empty() =~= old(self).written@);
                }
            },
        }
        assert(self.written@ == old(self).written@ + through_newline(all));
        assert(self.line_buffer@ == after_newline(all));
        let ghost base = self.written@;
        let ghost rest = self.line_buffer@;
        let mut more = true;
        while more && self.line_buffer.len() > self.width
            invariant
                self.width == old(self).width,
                base + wrap_sent(rest, self.width as nat) == self.written@ + wrap_sent(
                    self.line_buffer@,
                    self.width as nat,
                ),
                wrap_kept(rest, self.width as nat) == wrap_kept(
                    self.line_buffer@,
                    self.width as nat,
                ),
                !more ==> rfind(self.line_buffer@, SPACE) < 0,
            decreases self.line_buffer.len() + if more {
                1int
            } else {
                0int
            },
        {
            let ghost p = self.line_buffer@;
            let ghost sent = self.written@;
            proof {
                lemma_rfind(p, SPACE);
            }
            more = self.flush_line();
            proof {
                if more {
                    let i = rfind(p, SPACE);
                    assert(wrap_sent(p, self.width as nat) == p.take(i).push(NEWLINE) + wrap_sent(
                        p.skip(i + 1),
                        self.width as nat,
                    ));
                    assert(sent + (p.take(i).push(NEWLINE) + wrap_sent(
                        p.skip(i + 1),
                        self.width as nat,
                    )) =~= (sent + p.take(i).push(NEWLINE)) + wrap_sent(
                        p.skip(i + 1),
                        self.width as nat,
                    ));
                }
            }
        }
        proof {
            let p = self.line_buffer@;
            assert(wrap_sent(p, self.width as nat) == Seq::<u8>::empty());
            assert(wrap_kept(p, self.width as nat) == p);
            assert(self.written@ + Seq::<u8>::empty() =~= self.written@);
            let after = after_newline(all);
            lemma_wrap_kept(after, self.width as nat);
            lemma_rfind(all, NEWLINE);
            lemma_rfind_contains(after, NEWLINE);
            assert forall|k: int| 0 <= k < after.len() implies after[k] != NEWLINE by {
                assert(after[k] == all[rfind(all, NEWLINE) + 1 + k]);
            }
        }
    }

    /// Sends the unfinished line as it stands.
    pub fn flush(&mut self)
        ensures
            final(self).max_width() == old(self).max_width(),
            final(self).sent() == old(self).sent() + old(self).pending(),
            final(self).pending() == Seq::<u8>::empty(),
    {
        self.written.append(&mut self.line_buffer);
    }

    /// Flushes the writer and hands over everything it sent.
    pub fn finish(self) -> (r: Vec<u8>)
        ensures
            r@ == self.sent() + self.pending(),
    {
        let mut w = self;
        w.flush();
        w.written
    }
}

/// The index of the last `b` in `s`.
fn last_index_of(s: &Vec<u8>, b: u8) -> (r: Option<usize>)
    ensures
        r matches Some(i) ==> i == rfind(s@, b) && i < s@.len(),
        r is None <==> rfind(s@, b) < 0,
{
    let mut k: usize = s.len();
    proof {
        assert(s@.take(k as int) =~= s@);
    }
    while k > 0
        invariant
            k <= s.len(),
            rfind(s@.take(k as int), b) == rfind(s@, b),
        decreases k,
    {
        if s[k - 1] == b {
            proof {
                assert(s@.take(k as int).last() == b);
            }
            return Some(k - 1);
        }
        proof {
            assert(s@.take(k as int).drop_last() =~= s@.take(k - 1));
        }
        k = k - 1;
    }
    None
}


/// The writer's state, sent bytes and pending line, after it has taken in
/// `chunks` one write at a time.
pub open spec fn feed(chunks: Seq<Seq<u8>>, width: nat) -> (Seq<u8>, Seq<u8>)
    decreases chunks.len(),
{
    if chunks.len() == 0 {
        (Seq::empty(), Seq::empty())
    } else {
        let before = feed(chunks.drop_last(), width);
        let all = before.1 + chunks.last();
        (
            before.0 + through_newline(all) + wrap_sent(after_newline(all), width),
            wrap_kept(after_newline(all), width),
        )
    }
}

/// The text that a writer of line length `width` hands over when it has
/// taken in `chunks`, one write at a time, and is then flushed.
pub open spec fn wrapped_text(chunks: Seq<Seq<u8>>, width: nat) -> Seq<u8> {
    feed(chunks, width).0 + feed(chunks, width).1
}

/// A write that ends in a line break leaves nothing pending, and everything
/// sent so far then ends in that line break.
pub proof fn lemma_feed_line_end(chunks: Seq<Seq<u8>>, width: nat)
    requires
        chunks.len() > 0,
        chunks.last().len() > 0,
        chunks.last().last() == NEWLINE,
    ensures
        feed(chunks, width).1 == Seq::<u8>::empty(),
        feed(chunks, width).0.len() > 0,
        feed(chunks, width).0.last() == NEWLINE,
{
    let before = feed(chunks.drop_last(), width);
    let all = before.1 + chunks.last();
    assert(all.last() == NEWLINE);
    assert(rfind(all, NEWLINE) == all.len() - 1);
    assert(after_newline(all) =~= Seq::<u8>::empty());
    assert(through_newline(all) =~= all);
    assert(wrap_sent(Seq::<u8>::empty(), width) == Seq::<u8>::empty());
    assert(wrap_kept(Seq::<u8>::empty(), width) == Seq::<u8>::empty());
    let sent = before.0 + through_newline(all) + wrap_sent(after_newline(all), width);
    assert(sent =~= before.0 + all);
}

/// `out` is `inp` with some of its spaces turned into line breaks, and no
/// other change.
pub open spec fn breaks_only(out: Seq<u8>, inp: Seq<u8>) -> bool {
    &&& out.len() == inp.len()
    &&& forall|i: int|
        0 <= i < inp.len() ==> #[trigger] out[i] == inp[i] || (inp[i] == SPACE && out[i]
            == NEWLINE)
}

/// The chunks one after another.
pub open spec fn joined(chunks: Seq<Seq<u8>>) -> Seq<u8>
    decreases chunks.len(),
{
    if chunks.len() == 0 {
        Seq::empty()
    } else {
        joined(chunks.drop_last()) + chunks.last()
    }
}

proof fn lemma_breaks_concat(a1: Seq<u8>, b1: Seq<u8>, a2: Seq<u8>, b2: Seq<u8>)
    requires
        breaks_only(a1, b1),
        breaks_only(a2, b2),
    ensures
        breaks_only(a1 + a2, b1 + b2),
{
    let a = a1 + a2;
    let b = b1 + b2;
    assert forall|i: int| 0 <= i < b.len() implies #[trigger] a[i] == b[i] || (b[i] == SPACE
        && a[i] == NEWLINE) by {
        if i < a1.len() {
            assert(a[i] == a1[i] && b[i] == b1[i]);
        } else {
            assert(a[i] == a2[i - a1.len()] && b[i] == b2[i - b1.len()]);
        }
    }
}

proof fn lemma_breaks_same(s: Seq<u8>)
    ensures
        breaks_only(s, s),
{
}

/// Soft wrapping only turns spaces into line breaks.
pub proof fn lemma_wrap_breaks_only(buf: Seq<u8>, width: nat)
    ensures
        breaks_only(wrap_sent(buf, width) + wrap_kept(buf, width), buf),
    decreases buf.len(),
{
    let i = rfind(buf, SPACE);
    lemma_rfind(buf, SPACE);
    if buf.len() > width && 0 <= i < buf.len() {
        let rest = buf.skip(i + 1);
        lemma_wrap_breaks_only(rest, width);
        let head = buf.take(i).push(NEWLINE);
        assert(breaks_only(head, buf.take(i + 1))) by {
            assert(buf.take(i + 1) =~= buf.take(i).push(SPACE));
        }
        lemma_breaks_concat(
            head,
            buf.take(i + 1),
            wrap_sent(rest, width) + wrap_kept(rest, width),
            rest,
        );
        assert(buf.take(i + 1) + rest =~= buf);
        assert(wrap_sent(buf, width) + wrap_kept(buf, width) =~= head + (wrap_sent(rest, width)
            + wrap_kept(rest, width)));
    } else {
        assert(wrap_sent(buf, width) + wrap_kept(buf, width) =~= buf);
    }
}

/// What a writer hands over is what it was given, with some spaces turned
/// into line breaks: no byte is lost, added or moved.
pub proof fn lemma_wrapped_text_breaks_only(chunks: Seq<Seq<u8>>, width: nat)
    ensures
        breaks_only(wrapped_text(chunks, width), joined(chunks)),
    decreases chunks.len(),
{
    if chunks.len() == 0 {
        assert(wrapped_text(chunks, width) =~= Seq::<u8>::empty());
    } else {
        let prev = chunks.drop_last();
        lemma_wrapped_text_breaks_only(prev, width);
        let before = feed(prev, width);
        let all = before.1 + chunks.last();
        lemma_rfind(all, NEWLINE);
        let after = after_newline(all);
        lemma_wrap_breaks_only(after, width);
        lemma_breaks_same(through_newline(all));
        lemma_breaks_concat(
            through_newline(all),
            through_newline(all),
            wrap_sent(after, width) + wrap_kept(after, width),
            after,
        );
        assert(through_newline(all) + after =~= all);
        let tail = through_newline(all) + (wrap_sent(after, width) + wrap_kept(after, width));
        let p = before.1;
        let c = chunks.last();
        assert(breaks_only(before.0 + p, joined(prev)));
        let sent_part = before.0;
        let inp_sent = joined(prev).take(sent_part.len() as int);
        let inp_pend = joined(prev).skip(sent_part.len() as int);
        assert(breaks_only(sent_part, inp_sent)) by {
            assert forall|i: int| 0 <= i < inp_sent.len() implies #[trigger] sent_part[i]
                == inp_sent[i] || (inp_sent[i] == SPACE && sent_part[i] == NEWLINE) by {
                assert((before.0 + p)[i] == sent_part[i]);
                assert(joined(prev)[i] == inp_sent[i]);
            }
        }
        assert(breaks_only(p, inp_pend)) by {
            assert forall|i: int| 0 <= i < inp_pend.len() implies #[trigger] p[i] == inp_pend[i]
                || (inp_pend[i] == SPACE && p[i] == NEWLINE) by {
                assert((before.0 + p)[sent_part.len() + i] == p[i]);
                assert(joined(prev)[sent_part.len() + i] == inp_pend[i]);
            }
        }
        assert(breaks_only(tail, p + c));
        lemma_breaks_concat(sent_part, inp_sent, tail, p + c);
        assert(wrapped_text(chunks, width) =~= sent_part + tail);
        assert(breaks_only(wrapped_text(chunks, width), inp_sent + (p + c)));
        assert(breaks_only(sent_part + tail, inp_sent + (inp_pend + c))) by {
            let a = sent_part + tail;
            let x = inp_sent + (p + c);
            let y = inp_sent + (inp_pend + c);
            assert(x.len() == y.len());
            assert forall|i: int| 0 <= i < y.len() implies #[trigger] a[i] == y[i] || (y[i]
                == SPACE && a[i] == NEWLINE) by {
                if inp_sent.len() <= i < inp_sent.len() + p.len() {
                    let k = i - inp_sent.len();
                    assert(x[i] == p[k]);
                    assert(y[i] == inp_pend[k]);
                    assert(a[i] == x[i] || (x[i] == SPACE && a[i] == NEWLINE));
                } else {
                    assert(x[i] == y[i]);
                }
            }
        }
        assert(inp_sent + (inp_pend + c) =~= joined(chunks));
    }
}

/// No stretch of `s` without a line break is longer than `width`.
pub open spec fn lines_fit(s: Seq<u8>, width: nat) -> bool {
    forall|i: int, j: int|
        0 <= i <= j <= s.len() && !(#[trigger] s.subrange(i, j)).contains(NEWLINE) ==> j - i
            <= width
}

/// A writer state in which every line sent fits, the sent text ends at a
/// line break, and the pending line fits and holds no line break.
pub open spec fn settled(state: (Seq<u8>, Seq<u8>), width: nat) -> bool {
    &&& (state.0.len() == 0 || state.0.last() == NEWLINE)
    &&& lines_fit(state.0, width)
    &&& state.1.len() <= width
    &&& !state.1.contains(NEWLINE)
}

pub(crate) proof fn lemma_short_lines_fit(s: Seq<u8>, width: nat)
    requires
        s.len() <= width,
    ensures
        lines_fit(s, width),
{
}

/// A line that fits, with its line break.
pub(crate) proof fn lemma_line_fits(p: Seq<u8>, width: nat)
    requires
        p.len() <= width,
        !p.contains(NEWLINE),
    ensures
        lines_fit(p.push(NEWLINE), width),
{
    let t = p.push(NEWLINE);
    assert forall|i: int, j: int|
        0 <= i <= j <= t.len() && !(#[trigger] t.subrange(i, j)).contains(NEWLINE) implies j - i
        <= width by {
        if j == t.len() && i < j {
            assert(t.subrange(i, j)[j - 1 - i] == NEWLINE);
        }
    }
}

/// Text that ends at a line break, followed by more text.
pub(crate) proof fn lemma_lines_fit_concat(s: Seq<u8>, t: Seq<u8>, width: nat)
    requires
        s.len() == 0 || s.last() == NEWLINE,
        lines_fit(s, width),
        lines_fit(t, width),
    ensures
        lines_fit(s + t, width),
{
    let a = s + t;
    assert forall|i: int, j: int|
        0 <= i <= j <= a.len() && !(#[trigger] a.subrange(i, j)).contains(NEWLINE) implies j - i
        <= width by {
        if j <= s.len() {
            assert(a.subrange(i, j) =~= s.subrange(i, j));
        } else if i >= s.len() {
            assert(a.subrange(i, j) =~= t.subrange(i - s.len(), j - s.len()));
        } else {
            assert(a.subrange(i, j)[s.len() - 1 - i] == NEWLINE);
        }
    }
}

/// The text of a settled writer, once flushed, has every line fit.
pub(crate) proof fn lemma_settled_text(state: (Seq<u8>, Seq<u8>), width: nat)
    requires
        settled(state, width),
    ensures
        lines_fit(state.0 + state.1, width),
{
    lemma_short_lines_fit(state.1, width);
    lemma_lines_fit_concat(state.0, state.1, width);
}

/// Writing a chunk that ends at a line break, where either nothing is
/// pending or the chunk starts with a line break.
pub(crate) proof fn lemma_step_break(chunks: Seq<Seq<u8>>, c: Seq<u8>, width: nat)
    requires
        settled(feed(chunks, width), width),
        0 < c.len() <= width,
        c.last() == NEWLINE,
        feed(chunks, width).1.len() == 0 || c[0] == NEWLINE,
    ensures
        settled(feed(chunks.push(c), width), width),
        feed(chunks.push(c), width).1.len() == 0,
{
    let all_chunks = chunks.push(c);
    assert(all_chunks.drop_last() =~= chunks);
    let (s, p) = feed(chunks, width);
    let all = p + c;
    lemma_feed_line_end(all_chunks, width);
    assert(all.last() == NEWLINE);
    assert(rfind(all, NEWLINE) == all.len() - 1);
    assert(through_newline(all) =~= all);
    assert(after_newline(all) =~= Seq::<u8>::empty());
    assert(lines_fit(all, width)) by {
        assert forall|i: int, j: int|
            0 <= i <= j <= all.len() && !(#[trigger] all.subrange(i, j)).contains(NEWLINE) implies j
            - i <= width by {
            if j <= p.len() {
            } else if i >= p.len() {
                assert(j - i <= c.len());
            } else {
                assert(p.len() > 0);
                assert(all.subrange(i, j)[p.len() - i] == NEWLINE);
            }
        }
    }
    lemma_lines_fit_concat(s, all, width);
    assert(feed(all_chunks, width).0 =~= s + all);
}

/// Writing a single space.
pub(crate) proof fn lemma_step_space(chunks: Seq<Seq<u8>>, width: nat)
    requires
        settled(feed(chunks, width), width),
        width > 0,
    ensures
        settled(feed(chunks.push(seq![SPACE]), width), width),
        feed(chunks.push(seq![SPACE]), width).1.len() > 0 ==> feed(
            chunks.push(seq![SPACE]),
            width,
        ).1.last() == SPACE,
{
    let c = seq![SPACE];
    let all_chunks = chunks.push(c);
    assert(all_chunks.drop_last() =~= chunks);
    let (s, p) = feed(chunks, width);
    let all = p + c;
    lemma_rfind_contains(p, NEWLINE);
    lemma_rfind_contains(all, NEWLINE);
    assert(!all.contains(NEWLINE)) by {
        assert forall|k: int| 0 <= k < all.len() implies all[k] != NEWLINE by {
            if k < p.len() {
                assert(all[k] == p[k]);
            }
        }
    }
    lemma_rfind(all, NEWLINE);
    assert(through_newline(all) =~= Seq::<u8>::empty());
    assert(after_newline(all) =~= all);
    lemma_rfind(all, SPACE);
    assert(rfind(all, SPACE) == p.len());
    if all.len() > width {
        assert(all.skip(p.len() as int + 1) =~= Seq::<u8>::empty());
        assert(wrap_sent(Seq::<u8>::empty(), width) == Seq::<u8>::empty());
        assert(wrap_kept(Seq::<u8>::empty(), width) == Seq::<u8>::empty());
        assert(all.take(p.len() as int) =~= p);
        lemma_line_fits(p, width);
        lemma_lines_fit_concat(s, p.push(NEWLINE), width);
        assert(feed(all_chunks, width).0 =~= s + p.push(NEWLINE));
    } else {
        assert(feed(all_chunks, width).0 =~= s);
        assert(feed(all_chunks, width).1 == all);
    }
}

/// Writing a number: no spaces and no line breaks, onto a pending line that
/// is empty or ends in a space.
pub(crate) proof fn lemma_step_digits(chunks: Seq<Seq<u8>>, d: Seq<u8>, width: nat)
    requires
        settled(feed(chunks, width), width),
        0 < d.len() <= width,
        !d.contains(SPACE),
        !d.contains(NEWLINE),
        feed(chunks, width).1.len() > 0 ==> feed(chunks, width).1.last() == SPACE,
    ensures
        settled(feed(chunks.push(d), width), width),
{
    let all_chunks = chunks.push(d);
    assert(all_chunks.drop_last() =~= chunks);
    let (s, p) = feed(chunks, width);
    let all = p + d;
    lemma_rfind_contains(p, NEWLINE);
    lemma_rfind_contains(all, NEWLINE);
    assert(!all.contains(NEWLINE)) by {
        assert forall|k: int| 0 <= k < all.len() implies all[k] != NEWLINE by {
            if k < p.len() {
                assert(all[k] == p[k]);
            } else {
                assert(all[k] == d[k - p.len()]);
            }
        }
    }
    lemma_rfind(all, NEWLINE);
    assert(through_newline(all) =~= Seq::<u8>::empty());
    assert(after_newline(all) =~= all);
    if all.len() > width {
        let i = p.len() - 1;
        lemma_rfind(all, SPACE);
        assert(all[i] == SPACE);
        let r = rfind(all, SPACE);
        if r > i {
            assert(all[r] == d[r - p.len()]);
        }
        assert(r == i);
        assert(all.skip(i + 1) =~= d);
        lemma_rfind_contains(d, SPACE);
        assert(wrap_sent(d, width) == Seq::<u8>::empty());
        assert(wrap_kept(d, width) == d);
        assert(all.take(i) =~= p.take(i));
        assert(!p.take(i).contains(NEWLINE)) by {
            assert forall|k: int| 0 <= k < i implies p.take(i)[k] != NEWLINE by {
                assert(p.take(i)[k] == p[k]);
            }
        }
        lemma_line_fits(p.take(i), width);
        lemma_lines_fit_concat(s, p.take(i).push(NEWLINE), width);
        assert(feed(all_chunks, width).0 =~= s + p.take(i).push(NEWLINE));
    } else {
        assert(feed(all_chunks, width).0 =~= s);
    }
}

} // verus!
