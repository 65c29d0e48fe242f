use vstd::prelude::*;

use crate::ais_reformatter::{
    complete_lines, current_line, lemma_pieces_have_no_newline, message_of, messages,
    messages_of_lines, no_newline, pieces, strip_cr, NEWLINE,
};

verus! {

/// The size of a connection's receive buffer: the longest unterminated line it holds.
pub const BUFFER_CAPACITY: usize = 4096;

/// Everything of `s` up to and including its last newline (nothing if it holds none).
pub open spec fn completed_part(s: Seq<u8>) -> Seq<u8> {
    s.subrange(0, s.len() - current_line(s).len())
}

/// What one read of a TCP connection leads to.
pub enum ReadOutcome {
    /// The read completed lines: these bytes, up to and including the last newline,
    /// go to the line extractor as one buffer.
    Complete(Vec<u8>),
    /// The read ended inside a line, which waits for more bytes.
    Pending,
    /// The buffer is full and holds no newline: the connection is aborted.
    Overflow,
    /// The peer closed the connection.
    Closed,
}

/// The receive buffer of one TCP connection: the bytes of the unterminated line read
/// so far.
pub struct TcpReassembler {
    pending: Vec<u8>,
}

impl View for TcpReassembler {
    type V = Seq<u8>;

    closed spec fn view(&self) -> Seq<u8> {
        self.pending@
    }
}

/// The current line of `s` starts right after a newline at `j - 1` (or at the start)
/// when no newline follows.
proof fn lemma_current_line_from(s: Seq<u8>, j: int)
    requires
        0 <= j <= s.len(),
        j == 0 || s[j - 1] == NEWLINE,
        forall|k: int| j <= k < s.len() ==> s[k] != NEWLINE,
    ensures
        current_line(s) == s.subrange(j, s.len() as int),
    decreases s.len(),
{
    if s.len() > j {
        lemma_current_line_from(s.drop_last(), j);
        assert(s.subrange(j, s.len() as int) =~= s.drop_last().subrange(
            j,
            s.len() - 1,
        ).push(s.last()));
    } else if j > 0 {
        assert(s.last() == NEWLINE);
    }
    assert(s.subrange(j, s.len() as int).len() == s.len() - j);
    if s.len() == j {
        assert(s.subrange(j, s.len() as int) =~= Seq::<u8>::empty());
    }
}

impl TcpReassembler {
    /// The state of a connection whose buffer holds no unterminated line: it has no
    /// newline and fits in the buffer.
    pub open spec fn wf(&self) -> bool {
        &&& self@.len() <= BUFFER_CAPACITY
        &&& no_newline(self@)
    }

    pub fn new() -> (r: TcpReassembler)
        ensures
            r@ == Seq::<u8>::empty(),
            r.wf(),
    {
        TcpReassembler { pending: Vec::new() }
    }

    /// How many bytes the next read may bring.
    pub fn free_space(&self) -> (r: usize)
        requires
            self.wf(),
        ensures
            r == BUFFER_CAPACITY - self@.len(),
    {
        BUFFER_CAPACITY - self.pending.len()
    }

    /// Takes the bytes of one read. An empty read means the peer closed. Otherwise all
    /// that is buffered up to the last newline is handed out and the rest is kept; with
    /// no newline the bytes are kept, unless the buffer is then full, which aborts.
    pub fn on_read(&mut self, data: &[u8]) -> (r: ReadOutcome)
        requires
            old(self).wf(),
            data@.len() <= BUFFER_CAPACITY - old(self)@.len(),
        ensures
            final(self).wf(),
            ({
                let all = old(self)@ + data@;
                if data@.len() == 0 {
                    r is Closed && final(self)@ == old(self)@
                } else if current_line(all).len() < all.len() {
                    &&& r matches ReadOutcome::Complete(region)
                    &&& region@ == completed_part(all)
                    &&& final(self)@ == current_line(all)
                } else if all.len() == BUFFER_CAPACITY {
                    r is Overflow && final(self)@ == all
                } else {
                    r is Pending && final(self)@ == all
                }
            }),
    {
        if data.len() == 0 {
            return ReadOutcome::Closed;
        }
        let ghost all = self@ + data@;
        let ghost start = self@;
        let mut i: usize = 0;
        while i < data.len()
            invariant
                i <= data@.len(),
                start.len() + data@.len() <= BUFFER_CAPACITY,
                self@ == start + data@.subrange(0, i as int),
            decreases data@.len() - i,
        {
            self.pending.push(data[i]);
            i = i + 1;
            assert(self@ =~= start + data@.subrange(0, i as int));
        }
        assert(data@.subrange(0, data@.len() as int) =~= data@);
        assert(self@ == all);
        let mut k: usize = self.pending.len();
        while k > 0
            invariant
                k <= all.len(),
                self@ == all,
                forall|m: int| k <= m < all.len() ==> all[m] != NEWLINE,
            ensures
                k <= all.len(),
                self@ == all,
                forall|m: int| k <= m < all.len() ==> all[m] != NEWLINE,
                k == 0 || all[k - 1] == NEWLINE,
            decreases k,
        {
            if self.pending[k - 1] == NEWLINE {
                break;
            }
            k = k - 1;
        }
        proof {
            lemma_current_line_from(all, k as int);
        }
        if k == 0 {
            assert(all.subrange(0, all.len() as int) =~= all);
            assert forall|m: int| 0 <= m < self@.len() implies self@[m] != NEWLINE by {}
            if self.pending.len() == BUFFER_CAPACITY {
                ReadOutcome::Overflow
            } else {
                ReadOutcome::Pending
            }
        } else {
            let mut tail = self.pending.split_off(k);
            core::mem::swap(&mut self.pending, &mut tail);
            assert(no_newline(self@));
            ReadOutcome::Complete(tail)
        }
    }
}

/// The messages that a connection hands on, read by read, starting with `pending`
/// buffered: each read's completed part is extracted whole, and its unterminated
/// rest is kept for the next.
pub open spec fn reassembled(pending: Seq<u8>, reads: Seq<Seq<u8>>, prefix: Seq<u8>) -> Seq<
    Seq<u8>,
>
    decreases reads.len(),
{
    if reads.len() == 0 {
        Seq::empty()
    } else {
        let all = pending + reads[0];
        messages(completed_part(all), prefix) + reassembled(
            current_line(all),
            reads.drop_first(),
            prefix,
        )
    }
}

/// `s` is its completed part followed by its current line.
proof fn lemma_split_at_current_line(s: Seq<u8>)
    ensures
        current_line(s).len() <= s.len(),
        s == completed_part(s) + current_line(s),
        current_line(completed_part(s)) == Seq::<u8>::empty(),
    decreases s.len(),
{
    if s.len() > 0 {
        lemma_split_at_current_line(s.drop_last());
        let c = completed_part(s);
        if s.last() == NEWLINE {
            assert(c =~= s);
            assert(s =~= c + current_line(s));
        } else {
            assert(c =~= completed_part(s.drop_last()));
            let d = s.drop_last();
            assert(s =~= d.push(s.last()));
            assert(d == completed_part(d) + current_line(d));
            assert((completed_part(d) + current_line(d)).push(s.last()) =~= completed_part(d)
                + current_line(d).push(s.last()));
        }
    } else {
        assert(s =~= completed_part(s) + current_line(s));
    }
}

/// Lines after a finished part are split as if they stood alone.
proof fn lemma_append_after_finished(r: Seq<u8>, b: Seq<u8>)
    requires
        current_line(r) == Seq::<u8>::empty(),
    ensures
        current_line(r + b) == current_line(b),
        complete_lines(r + b) == complete_lines(r) + complete_lines(b),
        completed_part(r + b) == r + completed_part(b),
    decreases b.len(),
{
    lemma_split_at_current_line(b);
    lemma_split_at_current_line(r + b);
    if b.len() == 0 {
        assert(r + b =~= r);
        assert(complete_lines(r) + complete_lines(b) =~= complete_lines(r));
        assert(completed_part(r) =~= r);
        assert(r + completed_part(b) =~= r);
    } else {
        lemma_append_after_finished(r, b.drop_last());
        assert((r + b).drop_last() =~= r + b.drop_last());
        assert((r + b).last() == b.last());
        if b.last() == NEWLINE {
            assert(complete_lines(r + b) =~= complete_lines(r) + complete_lines(b));
        } else {
            assert(complete_lines(r + b) =~= complete_lines(r) + complete_lines(b));
        }
        assert(completed_part(r + b) =~= r + completed_part(b));
    }
}

proof fn lemma_messages_of_lines_append(x: Seq<Seq<u8>>, y: Seq<Seq<u8>>, prefix: Seq<u8>)
    ensures
        messages_of_lines(x + y, prefix) == messages_of_lines(x, prefix) + messages_of_lines(
            y,
            prefix,
        ),
    decreases y.len(),
{
    if y.len() == 0 {
        assert(x + y =~= x);
        assert(messages_of_lines(x, prefix) + messages_of_lines(y, prefix) =~= messages_of_lines(
            x,
            prefix,
        ));
    } else {
        lemma_messages_of_lines_append(x, y.drop_last(), prefix);
        assert((x + y).drop_last() =~= x + y.drop_last());
        assert((x + y).last() == y.last());
        assert(messages_of_lines(x + y, prefix) =~= messages_of_lines(x, prefix)
            + messages_of_lines(y, prefix));
    }
}

/// The messages of a finished part followed by more bytes are those of each in turn.
proof fn lemma_messages_append(r: Seq<u8>, b: Seq<u8>, prefix: Seq<u8>)
    requires
        current_line(r) == Seq::<u8>::empty(),
    ensures
        messages(r + b, prefix) == messages(r, prefix) + messages(b, prefix),
{
    lemma_append_after_finished(r, b);
    let lr = complete_lines(r);
    assert(pieces(r + b) =~= lr + pieces(b));
    lemma_messages_of_lines_append(lr, pieces(b), prefix);
    assert(pieces(r).drop_last() =~= lr);
    assert(message_of(Seq::<u8>::empty(), prefix) =~= Seq::<Seq<u8>>::empty());
    assert(messages(r, prefix) =~= messages_of_lines(lr, prefix));
}

proof fn lemma_reassembled_from(pending: Seq<u8>, reads: Seq<Seq<u8>>, prefix: Seq<u8>)
    requires
        no_newline(pending),
    ensures
        reassembled(pending, reads, prefix) == messages(
            completed_part(pending + reads.flatten()),
            prefix,
        ),
    decreases reads.len(),
{
    if reads.len() == 0 {
        lemma_current_line_from(pending, 0);
        assert(pending + reads.flatten() =~= pending);
        assert(completed_part(pending) =~= Seq::<u8>::empty());
        assert(pieces(Seq::<u8>::empty()) =~= seq![Seq::<u8>::empty()]);
        let e = seq![Seq::<u8>::empty()];
        assert(e.drop_last() =~= Seq::<Seq<u8>>::empty());
        assert(strip_cr(e.last()) =~= Seq::<u8>::empty());
        assert(message_of(e.last(), prefix) =~= Seq::<Seq<u8>>::empty());
        assert(messages_of_lines(e.drop_last(), prefix) =~= Seq::<Seq<u8>>::empty());
        assert(messages_of_lines(e, prefix) == messages_of_lines(e.drop_last(), prefix)
            + message_of(e.last(), prefix));
        assert(messages_of_lines(e, prefix) =~= Seq::<Seq<u8>>::empty());
    } else {
        let all = pending + reads[0];
        let rest = reads.drop_first().flatten();
        let done = completed_part(all);
        let cur = current_line(all);
        lemma_pieces_have_no_newline(all);
        lemma_reassembled_from(cur, reads.drop_first(), prefix);
        lemma_split_at_current_line(all);
        assert(reads.flatten() == reads[0] + rest);
        assert(pending + reads.flatten() =~= all + rest);
        assert(all + rest =~= done + (cur + rest));
        lemma_append_after_finished(done, cur + rest);
        lemma_split_at_current_line(cur + rest);
        lemma_messages_append(done, completed_part(cur + rest), prefix);
    }
}

/// Reassembly does not depend on where the reads split the stream: the messages handed
/// on over all reads are those of the whole stream's completed part, extracted at
/// once, and those of the whole stream when it ends with a newline.
pub proof fn lemma_reassembly_independent_of_reads(reads: Seq<Seq<u8>>, prefix: Seq<u8>)
    ensures
        reassembled(Seq::empty(), reads, prefix) == messages(
            completed_part(reads.flatten()),
            prefix,
        ),
        reads.flatten().len() > 0 && reads.flatten().last() == NEWLINE ==> reassembled(
            Seq::empty(),
            reads,
            prefix,
        ) == messages(reads.flatten(), prefix),
{
    let f = reads.flatten();
    lemma_reassembled_from(Seq::empty(), reads, prefix);
    assert(Seq::<u8>::empty() + f =~= f);
    if f.len() > 0 && f.last() == NEWLINE {
        assert(completed_part(f) =~= f);
    }
}

} // verus!
