//! Line-buffered forwarding of a service's output: bytes accumulate per
//! stream; on each flush every complete line leaves the buffer, nonempty
//! lines are emitted with a `[name][status]` prefix and a newline, and the
//! partial tail stays buffered until a later newline arrives.

use crate::services::Service;
use vstd::prelude::*;

verus! {

/// The newline byte.
pub const NL: u8 = 10;

/// The nonempty lines of `s`: maximal newline-free runs, in order.
pub open spec fn byte_lines(s: Seq<u8>) -> Seq<Seq<u8>>
    decreases s.len(),
{
    if s.len() == 0 {
        Seq::empty()
    } else {
        let rest = byte_lines(s.drop_last());
        let c = s.last();
        if c == NL {
            rest
        } else if s.len() >= 2 && s[s.len() - 2] != NL {
            rest.update(rest.len() - 1, rest.last().push(c))
        } else {
            rest.push(seq![c])
        }
    }
}

proof fn lemma_byte_lines_shape(s: Seq<u8>)
    ensures
        forall|k: int| 0 <= k < byte_lines(s).len() ==> (#[trigger] byte_lines(s)[k]).len() >= 1,
        s.len() >= 1 && s.last() != NL ==> byte_lines(s).len() >= 1,
    decreases s.len(),
{
    if s.len() > 0 {
        lemma_byte_lines_shape(s.drop_last());
        let rest = byte_lines(s.drop_last());
        let c = s.last();
        if c == NL {
        } else if s.len() >= 2 && s[s.len() - 2] != NL {
            assert forall|k: int|
                0 <= k < byte_lines(s).len() implies (#[trigger] byte_lines(s)[k]).len() >= 1 by {
                if k < rest.len() - 1 {
                    assert(byte_lines(s)[k] == rest[k]);
                } else {
                    assert(byte_lines(s)[k] == rest.last().push(c));
                }
            }
        } else {
            assert forall|k: int|
                0 <= k < byte_lines(s).len() implies (#[trigger] byte_lines(s)[k]).len() >= 1 by {
                if k < rest.len() {
                    assert(byte_lines(s)[k] == rest[k]);
                } else {
                    assert(byte_lines(s)[k] == seq![c]);
                }
            }
        }
    }
}

proof fn lemma_byte_lines_step_nl(s: Seq<u8>, i: int)
    requires
        0 <= i < s.len(),
        s[i] == NL,
    ensures
        byte_lines(s.take(i + 1)) == byte_lines(s.take(i)),
{
    assert(s.take(i + 1).drop_last() =~= s.take(i));
    assert(s.take(i + 1).last() == s[i]);
}

proof fn lemma_byte_lines_step_new(s: Seq<u8>, i: int)
    requires
        0 <= i < s.len(),
        s[i] != NL,
        i == 0 || s[i - 1] == NL,
    ensures
        byte_lines(s.take(i + 1)) == byte_lines(s.take(i)).push(seq![s[i]]),
{
    assert(s.take(i + 1).drop_last() =~= s.take(i));
    assert(s.take(i + 1).last() == s[i]);
    if i > 0 {
        assert(s.take(i + 1)[i - 1] == s[i - 1]);
    }
}

proof fn lemma_byte_lines_step_extend(s: Seq<u8>, i: int)
    requires
        0 < i < s.len(),
        s[i] != NL,
        s[i - 1] != NL,
    ensures
        byte_lines(s.take(i)).len() >= 1,
        byte_lines(s.take(i + 1)) == byte_lines(s.take(i)).update(
            byte_lines(s.take(i)).len() - 1,
            byte_lines(s.take(i)).last().push(s[i]),
        ),
{
    assert(s.take(i + 1).drop_last() =~= s.take(i));
    assert(s.take(i + 1).last() == s[i]);
    assert(s.take(i + 1)[i - 1] == s[i - 1]);
    assert(s.take(i).last() == s[i - 1]);
    lemma_byte_lines_shape(s.take(i));
}

/// The suffix of `s` after its last newline: the partial line that stays
/// buffered.
pub open spec fn partial_tail(s: Seq<u8>) -> Seq<u8>
    decreases s.len(),
{
    if s.len() == 0 {
        s
    } else if s.last() == NL {
        Seq::empty()
    } else {
        partial_tail(s.drop_last()).push(s.last())
    }
}

proof fn lemma_partial_tail_found(s: Seq<u8>, k: int)
    requires
        0 <= k < s.len(),
        s[k] == NL,
        forall|j: int| k < j < s.len() ==> s[j] != NL,
    ensures
        partial_tail(s) =~= s.subrange(k + 1, s.len() as int),
    decreases s.len(),
{
    if k == s.len() - 1 {
    } else {
        let d = s.drop_last();
        lemma_partial_tail_found(d, k);
        assert(partial_tail(s) =~= d.subrange(k + 1, d.len() as int).push(s.last()));
    }
}

proof fn lemma_partial_tail_none(s: Seq<u8>)
    requires
        forall|j: int| 0 <= j < s.len() ==> s[j] != NL,
    ensures
        partial_tail(s) =~= s,
    decreases s.len(),
{
    if s.len() > 0 {
        lemma_partial_tail_none(s.drop_last());
    }
}

/// The complete part of the buffer: everything up to and including the last
/// newline.
pub open spec fn complete_part(s: Seq<u8>) -> Seq<u8> {
    s.take(s.len() - partial_tail(s).len())
}

/// The bytes a flush writes: each line in order, wrapped as
/// `prefix + line + newline`.
pub open spec fn emitted(prefix: Seq<u8>, lines: Seq<Seq<u8>>) -> Seq<u8>
    decreases lines.len(),
{
    if lines.len() == 0 {
        Seq::empty()
    } else {
        emitted(prefix, lines.drop_last()) + prefix + lines.last() + seq![NL]
    }
}

/// Copy `src[from..to]` onto the end of `dst`.
fn append_bytes(dst: &mut Vec<u8>, src: &Vec<u8>, from: usize, to: usize)
    requires
        from <= to <= src@.len(),
    ensures
        final(dst)@ == old(dst)@ + src@.subrange(from as int, to as int),
{
    let ghost d0 = dst@;
    let mut k: usize = from;
    while k < to
        invariant
            from <= k <= to <= src@.len(),
            dst@ =~= d0 + src@.subrange(from as int, k as int),
        decreases to - k,
    {
        dst.push(src[k]);
        proof {
            assert(dst@ =~= d0 + src@.subrange(from as int, k + 1 as int));
        }
        k += 1;
    }
    proof {
        assert(dst@ =~= d0 + src@.subrange(from as int, to as int));
    }
}

/// Position right after the last newline of the buffer; zero when there is
/// none.
fn find_cut(buf: &Vec<u8>) -> (cut: usize)
    ensures
        cut <= buf@.len(),
        forall|j: int| cut <= j < buf@.len() ==> buf@[j] != NL,
        cut > 0 ==> buf@[cut - 1] == NL,
{
    let mut k: usize = buf.len();
    while k > 0
        invariant
            k <= buf@.len(),
            forall|j: int| k <= j < buf@.len() ==> buf@[j] != NL,
        decreases k,
    {
        if buf[k - 1] == NL {
            return k;
        }
        k -= 1;
    }
    0
}

/// Flush a stream buffer: emit every complete line with the prefix, keep the
/// partial tail.  The returned bytes are exactly the prefixed nonempty lines
/// of the complete part, in order, each ending in a newline.
pub fn flush_lines(buf: &mut Vec<u8>, prefix: &Vec<u8>) -> (out: Vec<u8>)
    ensures
        final(buf)@ == partial_tail(old(buf)@),
        out@ == emitted(prefix@, byte_lines(complete_part(old(buf)@))),
{
    let ghost b0 = buf@;
    let n = buf.len();
    let cut = find_cut(buf);
    proof {
        if cut > 0 {
            lemma_partial_tail_found(b0, cut - 1);
        } else {
            lemma_partial_tail_none(b0);
        }
        assert(partial_tail(b0) =~= b0.subrange(cut as int, n as int));
        assert(complete_part(b0) =~= b0.take(cut as int));
    }
    let mut out: Vec<u8> = Vec::new();
    let mut start: usize = 0;
    let mut in_tok = false;
    let mut i: usize = 0;
    while i < cut
        invariant
            i <= cut <= n,
            n == b0.len(),
            buf@ == b0,
            in_tok ==> start < i,
            in_tok ==> start < cut && b0[start as int] != NL && (start == 0 || b0[start as int
                - 1] == NL) && forall|j: int| start <= j < i ==> b0[j] != NL,
            !in_tok ==> (i == 0 || b0[i - 1] == NL),
            !in_tok ==> out@ == emitted(prefix@, byte_lines(b0.take(i as int))),
            in_tok ==> byte_lines(b0.take(i as int)).len() >= 1 && byte_lines(
                b0.take(i as int),
            ).last() =~= b0.subrange(start as int, i as int) && out@ == emitted(
                prefix@,
                byte_lines(b0.take(i as int)).drop_last(),
            ),
        decreases cut - i,
    {
        let c = buf[i];
        if c == NL {
            if in_tok {
                proof {
                    lemma_byte_lines_step_nl(b0, i as int);
                    assert(byte_lines(b0.take(i as int)).drop_last().push(
                        byte_lines(b0.take(i as int)).last(),
                    ) =~= byte_lines(b0.take(i as int)));
                }
                append_bytes(&mut out, prefix, 0, prefix.len());
                append_bytes(&mut out, buf, start, i);
                out.push(NL);
                proof {
                    let lines = byte_lines(b0.take(i + 1 as int));
                    assert(lines == byte_lines(b0.take(i as int)));
                    assert(prefix@.subrange(0, prefix@.len() as int) =~= prefix@);
                    assert(out@ =~= emitted(prefix@, lines.drop_last()) + prefix@ + lines.last()
                        + seq![NL]);
                    assert(out@ =~= emitted(prefix@, lines));
                }
                in_tok = false;
            } else {
                proof {
                    lemma_byte_lines_step_nl(b0, i as int);
                }
            }
        } else {
            if !in_tok {
                start = i;
                in_tok = true;
                proof {
                    lemma_byte_lines_step_new(b0, i as int);
                    assert(b0.subrange(i as int, i + 1 as int) =~= seq![b0[i as int]]);
                    assert(byte_lines(b0.take(i + 1 as int)).drop_last() =~= byte_lines(
                        b0.take(i as int),
                    ));
                }
            } else {
                proof {
                    lemma_byte_lines_step_extend(b0, i as int);
                    assert(b0.subrange(start as int, i + 1 as int) =~= b0.subrange(
                        start as int,
                        i as int,
                    ).push(b0[i as int]));
                    assert(byte_lines(b0.take(i + 1 as int)).drop_last() =~= byte_lines(
                        b0.take(i as int),
                    ).drop_last());
                }
            }
        }
        i += 1;
    }
    proof {
        if in_tok {
            assert(b0[cut - 1] == NL);
            assert(b0[cut - 1] != NL);
        }
    }
    let mut rest: Vec<u8> = Vec::new();
    append_bytes(&mut rest, buf, cut, n);
    *buf = rest;
    proof {
        assert(buf@ =~= partial_tail(b0));
        assert(out@ == emitted(prefix@, byte_lines(complete_part(b0)))) by {
            assert(b0.take(cut as int) == complete_part(b0));
        }
    }
    out
}

impl Service {
    /// Flush the service's stdout buffer, handing back the prefixed lines to
    /// write to the supervisor's own stdout.
    pub fn log_stdout_lines(&mut self, prefix: &Vec<u8>) -> (out: Vec<u8>)
        ensures
            final(self).stdout_buffer@ == partial_tail(old(self).stdout_buffer@),
            out@ == emitted(prefix@, byte_lines(complete_part(old(self).stdout_buffer@))),
            final(self).stderr_buffer == old(self).stderr_buffer,
            final(self).pid == old(self).pid,
            final(self).process_group == old(self).process_group,
            final(self).status == old(self).status,
            final(self).status_msgs == old(self).status_msgs,
            final(self).signaled_ready == old(self).signaled_ready,
    {
        let out = flush_lines(&mut self.stdout_buffer, prefix);
        out
    }

    /// Flush the service's stderr buffer, handing back the prefixed lines to
    /// write to the supervisor's own stderr.
    pub fn log_stderr_lines(&mut self, prefix: &Vec<u8>) -> (out: Vec<u8>)
        ensures
            final(self).stderr_buffer@ == partial_tail(old(self).stderr_buffer@),
            out@ == emitted(prefix@, byte_lines(complete_part(old(self).stderr_buffer@))),
            final(self).stdout_buffer == old(self).stdout_buffer,
            final(self).pid == old(self).pid,
            final(self).process_group == old(self).process_group,
            final(self).status == old(self).status,
            final(self).status_msgs == old(self).status_msgs,
            final(self).signaled_ready == old(self).signaled_ready,
    {
        let out = flush_lines(&mut self.stderr_buffer, prefix);
        out
    }
}

/// The forwarding prefix: `[<name>][<status>] `, with `[STDERR]` inserted
/// for the error stream.
pub fn log_prefix(name: &Vec<u8>, status_tag: &Vec<u8>, stderr: bool) -> (r: Vec<u8>)
    ensures
        !stderr ==> r@ == seq![91u8] + name@ + seq![93u8, 91u8] + status_tag@ + seq![93u8, 32u8],
        stderr ==> r@ == seq![91u8] + name@ + seq![93u8, 91u8] + status_tag@ + seq![
            93u8,
            91u8,
            83u8,
            84u8,
            68u8,
            69u8,
            82u8,
            82u8,
            93u8,
            32u8,
        ],
{
    let mut r: Vec<u8> = Vec::new();
    r.push(91);
    append_bytes(&mut r, name, 0, name.len());
    r.push(93);
    r.push(91);
    append_bytes(&mut r, status_tag, 0, status_tag.len());
    r.push(93);
    if stderr {
        r.push(91);
        r.push(83);
        r.push(84);
        r.push(68);
        r.push(69);
        r.push(82);
        r.push(82);
        r.push(93);
    }
    r.push(32);
    proof {
        assert(name@.subrange(0, name@.len() as int) =~= name@);
        assert(status_tag@.subrange(0, status_tag@.len() as int) =~= status_tag@);
        if stderr {
            assert(r@ =~= seq![91u8] + name@ + seq![93u8, 91u8] + status_tag@ + seq![
                93u8,
                91u8,
                83u8,
                84u8,
                68u8,
                69u8,
                82u8,
                82u8,
                93u8,
                32u8,
            ]);
        } else {
            assert(r@ =~= seq![91u8] + name@ + seq![93u8, 91u8] + status_tag@ + seq![93u8, 32u8]);
        }
    }
    r
}

} // verus!
