use vstd::prelude::*;

verus! {

pub const NEWLINE: u8 = 10;

pub const CARRIAGE_RETURN: u8 = 13;

pub const COMMA: u8 = 44;

/// The bytes after the last newline of `s` (all of `s` if it holds none).
pub open spec fn current_line(s: Seq<u8>) -> Seq<u8>
    decreases s.len(),
{
    if s.len() == 0 {
        Seq::empty()
    } else if s.last() == NEWLINE {
        Seq::empty()
    } else {
        current_line(s.drop_last()).push(s.last())
    }
}

/// The newline-terminated lines of `s`, in order, each without its newline.
pub open spec fn complete_lines(s: Seq<u8>) -> Seq<Seq<u8>>
    decreases s.len(),
{
    if s.len() == 0 {
        Seq::empty()
    } else if s.last() == NEWLINE {
        complete_lines(s.drop_last()).push(current_line(s.drop_last()))
    } else {
        complete_lines(s.drop_last())
    }
}

/// The pieces of `s` between newlines: every terminated line, then the unterminated rest.
pub open spec fn pieces(s: Seq<u8>) -> Seq<Seq<u8>> {
    complete_lines(s).push(current_line(s))
}

/// A line without one trailing carriage return, if it ends with one.
pub open spec fn strip_cr(line: Seq<u8>) -> Seq<u8> {
    if line.len() > 0 && line.last() == CARRIAGE_RETURN {
        line.drop_last()
    } else {
        line
    }
}

/// The message made of one piece: none for a piece that is empty once one trailing
/// carriage return is stripped, else the prefix, the stripped piece and a newline.
pub open spec fn message_of(line: Seq<u8>, prefix: Seq<u8>) -> Seq<Seq<u8>> {
    let t = strip_cr(line);
    if t.len() == 0 {
        Seq::empty()
    } else {
        seq![prefix + t + seq![NEWLINE]]
    }
}

/// The messages of a list of pieces, in order.
pub open spec fn messages_of_lines(lines: Seq<Seq<u8>>, prefix: Seq<u8>) -> Seq<Seq<u8>>
    decreases lines.len(),
{
    if lines.len() == 0 {
        Seq::empty()
    } else {
        messages_of_lines(lines.drop_last(), prefix) + message_of(lines.last(), prefix)
    }
}

/// The messages that a buffer yields with a given prefix.
pub open spec fn messages(chunk: Seq<u8>, prefix: Seq<u8>) -> Seq<Seq<u8>> {
    messages_of_lines(pieces(chunk), prefix)
}

/// The decimal digits of `n`, most significant first, with no leading zero.
pub open spec fn decimal(n: nat) -> Seq<u8>
    decreases n,
{
    if n < 10 {
        seq![(48 + n) as u8]
    } else {
        decimal(n / 10).push((48 + n % 10) as u8)
    }
}

/// The prefix put before each line: `"<seconds>,"` for a time, nothing without one.
pub open spec fn time_prefix(time: Option<u64>) -> Seq<u8> {
    match time {
        Some(t) => decimal(t as nat).push(COMMA),
        None => Seq::empty(),
    }
}

/// What each buffer of a list holds.
pub open spec fn views(v: Seq<Vec<u8>>) -> Seq<Seq<u8>> {
    v.map_values(|m: Vec<u8>| m@)
}

/// A message built from a non-empty line with no newline in it: the prefix, then the
/// line, then exactly one newline.
pub open spec fn well_formed_message(m: Seq<u8>, prefix: Seq<u8>) -> bool {
    &&& m.len() >= prefix.len() + 2
    &&& m.subrange(0, prefix.len() as int) == prefix
    &&& m.last() == NEWLINE
    &&& forall|k: int| prefix.len() <= k < m.len() - 1 ==> m[k] != NEWLINE
}

/// `s` holds no newline.
pub open spec fn no_newline(s: Seq<u8>) -> bool {
    forall|k: int| 0 <= k < s.len() ==> s[k] != NEWLINE
}

/// No piece between newlines holds a newline.
pub proof fn lemma_pieces_have_no_newline(s: Seq<u8>)
    ensures
        no_newline(current_line(s)),
        forall|j: int| 0 <= j < complete_lines(s).len() ==> no_newline(#[trigger] complete_lines(s)[j]),
    decreases s.len(),
{
    if s.len() > 0 {
        lemma_pieces_have_no_newline(s.drop_last());
        let c = current_line(s.drop_last());
        if s.last() != NEWLINE {
            assert forall|k: int| 0 <= k < c.push(s.last()).len() implies c.push(s.last())[k]
                != NEWLINE by {
                if k < c.len() {
                    assert(c.push(s.last())[k] == c[k]);
                }
            }
        } else {
            let cl = complete_lines(s.drop_last());
            assert forall|j: int| 0 <= j < cl.push(c).len() implies no_newline(
                #[trigger] cl.push(c)[j],
            ) by {
                if j < cl.len() {
                    assert(cl.push(c)[j] == cl[j]);
                }
            }
        }
    }
}

proof fn lemma_messages_of_lines_well_formed(lines: Seq<Seq<u8>>, prefix: Seq<u8>)
    requires
        forall|j: int| 0 <= j < lines.len() ==> no_newline(#[trigger] lines[j]),
    ensures
        forall|i: int|
            0 <= i < messages_of_lines(lines, prefix).len() ==> well_formed_message(
                #[trigger] messages_of_lines(lines, prefix)[i],
                prefix,
            ),
    decreases lines.len(),
{
    if lines.len() > 0 {
        let init = lines.drop_last();
        assert forall|j: int| 0 <= j < init.len() implies no_newline(#[trigger] init[j]) by {
            assert(init[j] == lines[j]);
        }
        lemma_messages_of_lines_well_formed(init, prefix);
        let a = messages_of_lines(init, prefix);
        let b = message_of(lines.last(), prefix);
        let t = strip_cr(lines.last());
        assert(no_newline(lines[lines.len() - 1]));
        if t.len() > 0 {
            let m = prefix + t + seq![NEWLINE];
            assert(m.subrange(0, prefix.len() as int) =~= prefix);
            assert forall|k: int| prefix.len() <= k < m.len() - 1 implies m[k] != NEWLINE by {
                assert(m[k] == t[k - prefix.len()]);
                assert(t[k - prefix.len()] == lines.last()[k - prefix.len()]);
            }
            assert(well_formed_message(b[0], prefix));
        }
        assert forall|i: int| 0 <= i < (a + b).len() implies well_formed_message(
            #[trigger] (a + b)[i],
            prefix,
        ) by {
            if i < a.len() {
                assert((a + b)[i] == a[i]);
            } else {
                assert((a + b)[i] == b[i - a.len()]);
            }
        }
    }
}

/// Every message that a buffer yields comes from a line that is not empty after the
/// carriage return is stripped, and ends in exactly one newline.
pub proof fn lemma_messages_well_formed(chunk: Seq<u8>, prefix: Seq<u8>)
    ensures
        forall|i: int|
            0 <= i < messages(chunk, prefix).len() ==> well_formed_message(
                #[trigger] messages(chunk, prefix)[i],
                prefix,
            ),
{
    lemma_pieces_have_no_newline(chunk);
    let p = pieces(chunk);
    assert forall|j: int| 0 <= j < p.len() implies no_newline(#[trigger] p[j]) by {
        if j < complete_lines(chunk).len() {
            assert(p[j] == complete_lines(chunk)[j]);
        }
    }
    lemma_messages_of_lines_well_formed(p, prefix);
}

/// The decimal digits of `n`.
fn decimal_bytes(n: u64) -> (r: Vec<u8>)
    ensures
        r@ == decimal(n as nat),
    decreases n,
{
    if n < 10 {
        let mut r: Vec<u8> = Vec::new();
        r.push((48 + n) as u8);
        r
    } else {
        let mut r = decimal_bytes(n / 10);
        r.push((48 + n % 10) as u8);
        r
    }
}

/// The prefix put before each line for `time`.
fn prefix_bytes(time: Option<u64>) -> (r: Vec<u8>)
    ensures
        r@ == time_prefix(time),
{
    match time {
        Some(t) => {
            let mut r = decimal_bytes(t);
            r.push(COMMA);
            r
        },
        None => Vec::new(),
    }
}

/// Appends the message that `line` yields, if any, to `out`.
fn emit_line(out: &mut Vec<Vec<u8>>, line: &mut Vec<u8>, prefix: &[u8])
    ensures
        views(final(out)@) == views(old(out)@) + message_of(old(line)@, prefix@),
{
    if line.len() > 0 && line[line.len() - 1] == CARRIAGE_RETURN {
        line.pop();
    }
    proof {
        assert(line@ == strip_cr(old(line)@));
    }
    if line.len() > 0 {
        let mut m: Vec<u8> = Vec::new();
        let mut i: usize = 0;
        while i < prefix.len()
            invariant
                i <= prefix.len(),
                m@ == prefix@.subrange(0, i as int),
            decreases prefix.len() - i,
        {
            m.push(prefix[i]);
            i = i + 1;
            assert(m@ =~= prefix@.subrange(0, i as int));
        }
        let mut j: usize = 0;
        while j < line.len()
            invariant
                j <= line.len(),
                m@ == prefix@ + line@.subrange(0, j as int),
            decreases line.len() - j,
        {
            m.push(line[j]);
            j = j + 1;
            assert(m@ =~= prefix@ + line@.subrange(0, j as int));
        }
        m.push(NEWLINE);
        assert(m@ =~= prefix@ + line@ + seq![NEWLINE]);
        let ghost before = out@;
        out.push(m);
        assert(views(out@) =~= views(before) + message_of(old(line)@, prefix@));
    } else {
        assert(views(out@) =~= views(old(out)@) + message_of(old(line)@, prefix@));
    }
}

/// Splits a buffer into messages, each line prefixed with `"<time>,"` when a time is
/// given: pieces between newlines lose one trailing carriage return, empty ones are
/// dropped, and each message ends in a newline.
pub fn process_chunk_at(chunk: &[u8], time: Option<u64>) -> (r: Vec<Vec<u8>>)
    ensures
        views(r@) == messages(chunk@, time_prefix(time)),
        forall|i: int|
            0 <= i < r@.len() ==> well_formed_message(#[trigger] r@[i]@, time_prefix(time)),
{
    let prefix = prefix_bytes(time);
    let mut out: Vec<Vec<u8>> = Vec::new();
    let mut cur: Vec<u8> = Vec::new();
    let mut i: usize = 0;
    while i < chunk.len()
        invariant
            i <= chunk.len(),
            prefix@ == time_prefix(time),
            views(out@) == messages_of_lines(complete_lines(chunk@.subrange(0, i as int)), prefix@),
            cur@ == current_line(chunk@.subrange(0, i as int)),
        decreases chunk.len() - i,
    {
        let b = chunk[i];
        let ghost s = chunk@.subrange(0, i as int + 1);
        assert(s.drop_last() =~= chunk@.subrange(0, i as int));
        if b == NEWLINE {
            let ghost lines = complete_lines(s);
            assert(lines.drop_last() =~= complete_lines(s.drop_last()));
            assert(messages_of_lines(lines, prefix@) == messages_of_lines(
                complete_lines(s.drop_last()),
                prefix@,
            ) + message_of(current_line(s.drop_last()), prefix@));
            emit_line(&mut out, &mut cur, prefix.as_slice());
            cur = Vec::new();
            assert(cur@ =~= current_line(s));
        } else {
            assert(complete_lines(s) == complete_lines(s.drop_last()));
            cur.push(b);
        }
        i = i + 1;
    }
    assert(chunk@.subrange(0, chunk.len() as int) =~= chunk@);
    emit_line(&mut out, &mut cur, prefix.as_slice());
    proof {
        let p = pieces(chunk@);
        assert(p.drop_last() =~= complete_lines(chunk@));
        assert(messages_of_lines(p, prefix@) == messages_of_lines(p.drop_last(), prefix@)
            + message_of(p.last(), prefix@));
        assert(views(out@) == messages(chunk@, prefix@));
        lemma_messages_well_formed(chunk@, prefix@);
        assert forall|i: int| 0 <= i < out@.len() implies well_formed_message(
            #[trigger] out@[i]@,
            prefix@,
        ) by {
            assert(views(out@)[i] == out@[i]@);
            assert(views(out@)[i] == messages(chunk@, prefix@)[i]);
        }
    }
    out
}

/// Relies on std::time::SystemTime::elapsed, from std::time::UNIX_EPOCH to the clock's
/// current reading: the whole seconds since the Unix epoch, or nothing when the clock
/// reads earlier than the epoch.
#[verifier::external_body]
fn unix_seconds_now() -> (r: Option<u64>) {
    match std::time::UNIX_EPOCH.elapsed() {
        Ok(d) => Some(d.as_secs()),
        Err(_) => None,
    }
}

/// Splits a buffer into messages, prefixing each with the current Unix time in seconds
/// when asked to (one reading of the clock for the whole buffer). Gives nothing only
/// when a prefix is asked for and the clock reads earlier than the Unix epoch.
pub fn process_complete_chunk(chunk: &[u8], add_time_prefix: bool) -> (r: Option<Vec<Vec<u8>>>)
    ensures
        !add_time_prefix ==> r is Some && views(r->Some_0@) == messages(chunk@, Seq::empty()),
        add_time_prefix && r is Some ==> exists|t: u64|
            views(r->Some_0@) == #[trigger] messages(chunk@, time_prefix(Some(t))),
{
    if add_time_prefix {
        match unix_seconds_now() {
            Some(t) => Some(process_chunk_at(chunk, Some(t))),
            None => None,
        }
    } else {
        Some(process_chunk_at(chunk, None))
    }
}

} // verus!
