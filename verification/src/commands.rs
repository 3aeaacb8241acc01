//! Command lines: a configured command string splits on spaces into the
//! executable and its arguments; a leading `-` on the command marks it as
//! failure-tolerant (a non-zero exit is ignored).  The same splitting, with
//! newline-or-null separators, cuts a notification datagram into messages.

use vstd::prelude::*;

verus! {

/// Which characters separate tokens: spaces for command lines, newline or
/// null for notification messages.
#[derive(Clone, Copy, PartialEq, Eq, Structural, Debug)]
pub enum SepKind {
    Space,
    MessageEnd,
}

/// `c` separates tokens of the given kind.
pub open spec fn is_sep(k: SepKind, c: char) -> bool {
    match k {
        SepKind::Space => c == ' ',
        SepKind::MessageEnd => c == '\n' || c == '\0',
    }
}

/// Exact separator test.
pub fn sep_char(k: SepKind, c: char) -> (r: bool)
    ensures
        r == is_sep(k, c),
{
    match k {
        SepKind::Space => c == ' ',
        SepKind::MessageEnd => c == '\n' || c == '\0',
    }
}

/// The maximal separator-free runs of `s`, in order.
pub open spec fn tokens(k: SepKind, s: Seq<char>) -> Seq<Seq<char>>
    decreases s.len(),
{
    if s.len() == 0 {
        Seq::empty()
    } else {
        let rest = tokens(k, s.drop_last());
        let c = s.last();
        if is_sep(k, c) {
            rest
        } else if s.len() >= 2 && !is_sep(k, s[s.len() - 2]) {
            rest.update(rest.len() - 1, rest.last().push(c))
        } else {
            rest.push(seq![c])
        }
    }
}

/// Every token is nonempty, and a fresh last token appears while scanning.
pub proof fn lemma_tokens_shape(sk: SepKind, s: Seq<char>)
    ensures
        forall|k: int| 0 <= k < tokens(sk, s).len() ==> (#[trigger] tokens(sk, s)[k]).len() >= 1,
        s.len() >= 1 && !is_sep(sk, s.last()) ==> tokens(sk, s).len() >= 1,
    decreases s.len(),
{
    if s.len() > 0 {
        lemma_tokens_shape(sk, s.drop_last());
        let rest = tokens(sk, s.drop_last());
        let c = s.last();
        if is_sep(sk, c) {
        } else if s.len() >= 2 && !is_sep(sk, s[s.len() - 2]) {
            assert(!is_sep(sk, s.drop_last().last()));
            assert(rest.len() >= 1);
            assert forall|k: int|
                0 <= k < tokens(sk, s).len() implies (#[trigger] tokens(sk, s)[k]).len() >= 1 by {
                if k < rest.len() - 1 {
                    assert(tokens(sk, s)[k] == rest[k]);
                } else {
                    assert(tokens(sk, s)[k] == rest.last().push(c));
                }
            }
        } else {
            assert forall|k: int|
                0 <= k < tokens(sk, s).len() implies (#[trigger] tokens(sk, s)[k]).len() >= 1 by {
                if k < rest.len() {
                    assert(tokens(sk, s)[k] == rest[k]);
                } else {
                    assert(tokens(sk, s)[k] == seq![c]);
                }
            }
        }
    }
}

proof fn lemma_tokens_step_sep(sk: SepKind, s: Seq<char>, i: int)
    requires
        0 <= i < s.len(),
        is_sep(sk, s[i]),
    ensures
        tokens(sk, s.take(i + 1)) == tokens(sk, s.take(i)),
{
    assert(s.take(i + 1).drop_last() =~= s.take(i));
    assert(s.take(i + 1).last() == s[i]);
}

proof fn lemma_tokens_step_new(sk: SepKind, s: Seq<char>, i: int)
    requires
        0 <= i < s.len(),
        !is_sep(sk, s[i]),
        i == 0 || is_sep(sk, s[i - 1]),
    ensures
        tokens(sk, s.take(i + 1)) == tokens(sk, s.take(i)).push(seq![s[i]]),
{
    assert(s.take(i + 1).drop_last() =~= s.take(i));
    assert(s.take(i + 1).last() == s[i]);
    if i > 0 {
        assert(is_sep(sk, s.take(i + 1)[i - 1]));
    }
}

proof fn lemma_tokens_step_extend(sk: SepKind, s: Seq<char>, i: int)
    requires
        0 < i < s.len(),
        !is_sep(sk, s[i]),
        !is_sep(sk, s[i - 1]),
    ensures
        tokens(sk, s.take(i)).len() >= 1,
        tokens(sk, s.take(i + 1)) == tokens(sk, s.take(i)).update(
            tokens(sk, s.take(i)).len() - 1,
            tokens(sk, s.take(i)).last().push(s[i]),
        ),
{
    assert(s.take(i + 1).drop_last() =~= s.take(i));
    assert(s.take(i + 1).last() == s[i]);
    assert(s.take(i + 1)[i - 1] == s[i - 1]);
    assert(s.take(i).last() == s[i - 1]);
    lemma_tokens_shape(sk, s.take(i));
}

/// Split a string at its separators.  The result holds exactly the tokens of
/// the string, in order.
pub fn split_tokens(sk: SepKind, s: &str) -> (r: Vec<String>)
    ensures
        r@.len() == tokens(sk, s@).len(),
        forall|k: int| 0 <= k < r@.len() ==> (#[trigger] r@[k])@ == tokens(sk, s@)[k],
{
    let len = s.unicode_len();
    let mut r: Vec<String> = Vec::new();
    let mut start: usize = 0;
    let mut in_tok = false;
    let mut i: usize = 0;
    while i < len
        invariant
            i <= len,
            len == s@.len(),
            in_tok ==> start < i || (start == i && false),
            in_tok ==> start < len && !is_sep(sk, s@[start as int]) && (start == 0 || is_sep(
                sk,
                s@[start as int - 1],
            )) && forall|j: int| start <= j < i ==> !is_sep(sk, s@[j]),
            !in_tok ==> (i == 0 || is_sep(sk, s@[i - 1])),
            !in_tok ==> r@.len() == tokens(sk, s@.take(i as int)).len() && forall|k: int|
                0 <= k < r@.len() ==> (#[trigger] r@[k])@ == tokens(sk, s@.take(i as int))[k],
            in_tok ==> r@.len() + 1 == tokens(sk, s@.take(i as int)).len() && (forall|k: int|
                0 <= k < r@.len() ==> (#[trigger] r@[k])@ == tokens(sk, s@.take(i as int))[k])
                && tokens(sk, s@.take(i as int)).last() =~= s@.subrange(start as int, i as int),
        decreases len - i,
    {
        let c = s.get_char(i);
        if sep_char(sk, c) {
            if in_tok {
                let tok = s.substring_char(start, i);
                r.push(tok.to_owned());
                in_tok = false;
            }
            proof {
                lemma_tokens_step_sep(sk, s@, i as int);
            }
        } else {
            if !in_tok {
                start = i;
                in_tok = true;
                proof {
                    lemma_tokens_step_new(sk, s@, i as int);
                    assert(s@.subrange(i as int, i + 1 as int) =~= seq![s@[i as int]]);
                }
            } else {
                proof {
                    lemma_tokens_step_extend(sk, s@, i as int);
                    assert(s@.subrange(start as int, i + 1 as int) =~= s@.subrange(
                        start as int,
                        i as int,
                    ).push(s@[i as int]));
                }
            }
        }
        i += 1;
    }
    proof {
        assert(s@.take(len as int) =~= s@);
    }
    if in_tok {
        let tok = s.substring_char(start, len);
        r.push(tok.to_owned());
    }
    r
}

/// A per-command modifier; `Minus` means a non-zero exit is tolerated.
#[derive(Clone, Copy, PartialEq, Eq, Structural, Debug)]
pub enum CommandlinePrefix {
    Minus,
}

/// A split command: the executable, its arguments, and its modifiers.
#[derive(Clone, Debug)]
pub struct Commandline {
    pub cmd: String,
    pub args: Vec<String>,
    pub prefixes: Vec<CommandlinePrefix>,
}

/// The first token carries the failure-tolerance prefix.
pub open spec fn spec_has_minus(ts: Seq<Seq<char>>) -> bool {
    ts.len() >= 1 && ts[0].len() >= 1 && ts[0][0] == '-'
}

/// Split a command string into a command line: the first token is the
/// executable (its leading `-`, if any, is stripped and recorded), the rest
/// are the arguments.  An all-space string is no command.
pub fn parse_commandline(line: &str) -> (r: Option<Commandline>)
    ensures
        match r {
            None => tokens(SepKind::Space, line@).len() == 0,
            Some(c) => {
                let ts = tokens(SepKind::Space, line@);
                &&& ts.len() >= 1
                &&& (if spec_has_minus(ts) {
                    c.cmd@ == ts[0].skip(1) && c.prefixes@ == seq![CommandlinePrefix::Minus]
                } else {
                    c.cmd@ == ts[0] && c.prefixes@.len() == 0
                })
                &&& c.args@.len() == ts.len() - 1
                &&& forall|k: int|
                    0 <= k < c.args@.len() ==> (#[trigger] c.args@[k])@ == ts[k + 1]
            },
        },
{
    let mut toks = split_tokens(SepKind::Space, line);
    if toks.len() == 0 {
        return None;
    }
    proof {
        lemma_tokens_shape(SepKind::Space, line@);
    }
    let first = toks.remove(0);
    proof {
        assert(first@ == tokens(SepKind::Space, line@)[0]);
        assert forall|k: int|
            0 <= k < toks@.len() implies (#[trigger] toks@[k])@ == tokens(SepKind::Space, line@)[k
            + 1] by {
        }
    }
    let flen = first.unicode_len();
    let fs: &str = first.as_str();
    let mut prefixes: Vec<CommandlinePrefix> = Vec::new();
    let cmd: String = if fs.get_char(0) == '-' {
        prefixes.push(CommandlinePrefix::Minus);
        fs.substring_char(1, flen).to_owned()
    } else {
        first
    };
    proof {
        assert(tokens(SepKind::Space, line@)[0].skip(1) =~= fs@.subrange(1, flen as int)
            || !spec_has_minus(tokens(SepKind::Space, line@)));
    }
    Some(Commandline { cmd, args: toks, prefixes })
}

/// The command line written out again: the command, then each argument
/// preceded by one space.
pub open spec fn spec_joined(cmd: Seq<char>, args: Seq<Seq<char>>) -> Seq<char>
    decreases args.len(),
{
    if args.len() == 0 {
        cmd
    } else {
        spec_joined(cmd, args.drop_last()) + seq![' '] + args.last()
    }
}

impl Commandline {
    /// The command's tolerance for failure.
    pub fn ignores_failure(&self) -> (r: bool)
        ensures
            r == self.prefixes@.contains(CommandlinePrefix::Minus),
    {
        let mut k: usize = 0;
        while k < self.prefixes.len()
            invariant
                k <= self.prefixes@.len(),
                forall|j: int| 0 <= j < k ==> self.prefixes@[j] != CommandlinePrefix::Minus,
            decreases self.prefixes@.len() - k,
        {
            match self.prefixes[k] {
                CommandlinePrefix::Minus => {
                    assert(self.prefixes@[k as int] == CommandlinePrefix::Minus);
                    return true;
                },
            }
        }
        false
    }

    /// One line naming the command and its arguments.
    pub fn describe(&self) -> (r: String)
        ensures
            r@ == spec_joined(self.cmd@, self.args@.map_values(|a: String| a@)),
    {
        let mut r = self.cmd.clone();
        let mut k: usize = 0;
        while k < self.args.len()
            invariant
                k <= self.args@.len(),
                r@ == spec_joined(
                    self.cmd@,
                    self.args@.map_values(|a: String| a@).take(k as int),
                ),
            decreases self.args@.len() - k,
        {
            r.append(" ");
            r.append(self.args[k].as_str());
            proof {
                reveal_strlit(" ");
                let m = self.args@.map_values(|a: String| a@);
                assert(m.take(k + 1 as int).drop_last() =~= m.take(k as int));
                assert(m.take(k + 1 as int).last() == m[k as int]);
                assert(r@ =~= spec_joined(self.cmd@, m.take(k + 1 as int)));
            }
            k += 1;
        }
        proof {
            let m = self.args@.map_values(|a: String| a@);
            assert(m.take(m.len() as int) =~= m);
        }
        r
    }
}

} // verus!
