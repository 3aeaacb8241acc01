//! What a service child must see at exec time: its environment variables
//! (`LISTEN_FDS`, `LISTEN_PID`, `NOTIFY_SOCKET`) and its descriptor table,
//! where the i-th inherited listener sits at descriptor `3 + i` with its
//! close-on-exec flag cleared.

use vstd::prelude::*;

verus! {

/// The character of one decimal digit.
pub open spec fn digit_char(d: nat) -> char {
    if d == 0 {
        '0'
    } else if d == 1 {
        '1'
    } else if d == 2 {
        '2'
    } else if d == 3 {
        '3'
    } else if d == 4 {
        '4'
    } else if d == 5 {
        '5'
    } else if d == 6 {
        '6'
    } else if d == 7 {
        '7'
    } else if d == 8 {
        '8'
    } else {
        '9'
    }
}

/// The decimal digits of `n`, most significant first.
pub open spec fn spec_dec(n: nat) -> Seq<char>
    decreases n,
{
    if n < 10 {
        seq![digit_char(n)]
    } else {
        spec_dec(n / 10).push(digit_char(n % 10))
    }
}

fn push_dec(s: &mut String, n: u64)
    ensures
        final(s)@ == old(s)@ + spec_dec(n as nat),
    decreases n,
{
    if n >= 10 {
        push_dec(s, n / 10);
    }
    let ghost mid = s@;
    let d = n % 10;
    if d == 0 {
        s.append("0");
        proof {
            reveal_strlit("0");
        }
    } else if d == 1 {
        s.append("1");
        proof {
            reveal_strlit("1");
        }
    } else if d == 2 {
        s.append("2");
        proof {
            reveal_strlit("2");
        }
    } else if d == 3 {
        s.append("3");
        proof {
            reveal_strlit("3");
        }
    } else if d == 4 {
        s.append("4");
        proof {
            reveal_strlit("4");
        }
    } else if d == 5 {
        s.append("5");
        proof {
            reveal_strlit("5");
        }
    } else if d == 6 {
        s.append("6");
        proof {
            reveal_strlit("6");
        }
    } else if d == 7 {
        s.append("7");
        proof {
            reveal_strlit("7");
        }
    } else if d == 8 {
        s.append("8");
        proof {
            reveal_strlit("8");
        }
    } else {
        s.append("9");
        proof {
            reveal_strlit("9");
        }
    }
    proof {
        assert(s@ =~= mid + seq![digit_char((n % 10) as nat)]);
        if n < 10 {
            assert(spec_dec(n as nat) =~= seq![digit_char(n as nat)]);
            assert(s@ =~= old(s)@ + spec_dec(n as nat));
        } else {
            assert(mid == old(s)@ + spec_dec((n / 10) as nat));
            assert(spec_dec(n as nat) == spec_dec((n / 10) as nat).push(
                digit_char((n % 10) as nat),
            ));
            assert(s@ =~= old(s)@ + spec_dec(n as nat));
        }
    }
}

/// `n` written in decimal.
pub fn u64_to_dec_string(n: u64) -> (r: String)
    ensures
        r@ == spec_dec(n as nat),
{
    let mut s = String::new();
    push_dec(&mut s, n);
    proof {
        assert(s@ =~= spec_dec(n as nat));
    }
    s
}

/// The environment a service child sees: the count of passed listener
/// descriptors, its own PID, and the notification socket path, each in its
/// variable.
pub fn child_environment(fd_count: usize, child_pid: u64, notify_path: &str) -> (r: Vec<
    (String, String),
>)
    ensures
        r@.len() == 3,
        r@[0].0@ == "LISTEN_FDS"@ && r@[0].1@ == spec_dec(fd_count as nat),
        r@[1].0@ == "LISTEN_PID"@ && r@[1].1@ == spec_dec(child_pid as nat),
        r@[2].0@ == "NOTIFY_SOCKET"@ && r@[2].1@ == notify_path@,
{
    let mut r: Vec<(String, String)> = Vec::new();
    r.push(("LISTEN_FDS".to_owned(), u64_to_dec_string(fd_count as u64)));
    r.push(("LISTEN_PID".to_owned(), u64_to_dec_string(child_pid)));
    r.push(("NOTIFY_SOCKET".to_owned(), notify_path.to_owned()));
    r
}

/// One post-fork descriptor operation.
#[derive(Clone, Copy, PartialEq, Eq, Structural, Debug)]
pub enum FdStep {
    CloseTarget(i32),
    Dup(i32, i32),
    CloseOld(i32),
    ClearCloexec(i32),
}

/// The child's descriptor table, as a map from descriptor number to the open
/// file it refers to (files are named by the descriptor they originally
/// arrived on).
pub open spec fn apply_step(m: Map<int, int>, s: FdStep) -> Map<int, int> {
    match s {
        FdStep::CloseTarget(fd) => m.remove(fd as int),
        FdStep::Dup(o, n) => if m.dom().contains(o as int) {
            m.insert(n as int, m[o as int])
        } else {
            m
        },
        FdStep::CloseOld(o) => m.remove(o as int),
        FdStep::ClearCloexec(_) => m,
    }
}

/// The table after a plan ran, step by step.
pub open spec fn apply_plan(m: Map<int, int>, plan: Seq<FdStep>) -> Map<int, int>
    decreases plan.len(),
{
    if plan.len() == 0 {
        m
    } else {
        apply_plan(apply_step(m, plan[0]), plan.skip(1))
    }
}

proof fn lemma_apply_plan_push(m: Map<int, int>, plan: Seq<FdStep>, s: FdStep)
    ensures
        apply_plan(m, plan.push(s)) == apply_step(apply_plan(m, plan), s),
    decreases plan.len(),
{
    reveal_with_fuel(apply_plan, 3);
    if plan.len() == 0 {
        assert(plan.push(s)[0] == s);
        assert(plan.push(s).skip(1) =~= Seq::<FdStep>::empty());
    } else {
        assert(plan.push(s)[0] == plan[0]);
        assert(plan.push(s).skip(1) =~= plan.skip(1).push(s));
        lemma_apply_plan_push(apply_step(m, plan[0]), plan.skip(1), s);
    }
}

/// The plan clears the close-on-exec flag of descriptor `3 + i`.
pub open spec fn plan_clears(plan: Seq<FdStep>, i: int) -> bool {
    exists|k: int|
        0 <= k < plan.len() && #[trigger] plan[k] == FdStep::ClearCloexec((3 + i) as i32)
}

/// The close-on-exec flag is cleared for every target up to `upto`.
pub open spec fn all_cleared(plan: Seq<FdStep>, upto: int) -> bool {
    forall|j: int| 0 <= j < upto ==> #[trigger] plan_clears(plan, j)
}

/// Listeners up to `upto` sit at their target descriptors in table `m`.
pub open spec fn targets_mapped(fds: Seq<i32>, m: Map<int, int>, upto: int) -> bool {
    forall|j: int|
        #![trigger fds[j]]
        #![trigger m.dom().contains(3 + j)]
        0 <= j < upto ==> m.dom().contains(3 + j) && m[3 + j] == fds[j] as int
}

/// Listeners from `from` on still sit at their original descriptors in `m`.
pub open spec fn sources_intact(fds: Seq<i32>, m: Map<int, int>, from: int) -> bool {
    forall|j: int|
        #![trigger fds[j]]
        #![trigger m.dom().contains(fds[j] as int)]
        from <= j < fds.len() ==> m.dom().contains((fds[j]) as int) && m[fds[j] as int]
            == fds[j] as int
}

proof fn lemma_targets_at(fds: Seq<i32>, m: Map<int, int>, upto: int, j: int)
    requires
        targets_mapped(fds, m, upto),
        0 <= j < upto,
    ensures
        m.dom().contains(3 + j),
        m[3 + j] == fds[j] as int,
{
}

proof fn lemma_sources_at(fds: Seq<i32>, m: Map<int, int>, from: int, j: int)
    requires
        sources_intact(fds, m, from),
        from <= j < fds.len(),
    ensures
        m.dom().contains(fds[j] as int),
        m[fds[j] as int] == fds[j] as int,
{
}

proof fn lemma_cleared_at(plan: Seq<FdStep>, upto: int, j: int)
    requires
        all_cleared(plan, upto),
        0 <= j < upto,
    ensures
        plan_clears(plan, j),
{
}

proof fn lemma_targets_intro(fds: Seq<i32>, m: Map<int, int>, upto: int)
    requires
        forall|j: int|
            #![trigger fds[j]]
        #![trigger m.dom().contains(3 + j)]
            0 <= j < upto ==> m.dom().contains(3 + j) && m[3 + j] == fds[j] as int,
    ensures
        targets_mapped(fds, m, upto),
{
}

proof fn lemma_sources_intro(fds: Seq<i32>, m: Map<int, int>, from: int)
    requires
        forall|j: int|
            #![trigger fds[j]]
        #![trigger m.dom().contains(fds[j] as int)]
            from <= j < fds.len() ==> m.dom().contains((fds[j]) as int) && m[fds[j] as int]
                == fds[j] as int,
    ensures
        sources_intact(fds, m, from),
{
}

proof fn lemma_cleared_intro(plan: Seq<FdStep>, upto: int)
    requires
        forall|j: int| 0 <= j < upto ==> #[trigger] plan_clears(plan, j),
    ensures
        all_cleared(plan, upto),
{
}

/// The descriptor table the child starts from: each inherited listener
/// descriptor refers to its own file.
pub open spec fn initial_fd_table(fds: Seq<i32>) -> Map<int, int> {
    Map::new(
        |k: int| exists|i: int| 0 <= i < fds.len() && (#[trigger] fds[i]) as int == k,
        |k: int| k,
    )
}

/// Build the post-fork remap plan: in order, the i-th listener is moved to
/// descriptor `3 + i` (close the target, duplicate, close the source — in
/// that order), and the new descriptor's close-on-exec flag is cleared so
/// the exec inherits exactly these descriptors.  Running the plan on the
/// child's initial table leaves listener `i` at descriptor `3 + i`.
pub fn fd_remap_plan(fds: &Vec<i32>) -> (plan: Vec<FdStep>)
    requires
        fds@.len() + 3 <= i32::MAX,
        forall|i: int, j: int| 0 <= i < j < fds@.len() ==> fds@[i] != fds@[j],
        forall|i: int|
            0 <= i < fds@.len() ==> ((#[trigger] fds@[i]) as int == 3 + i || ((fds@[i] as int)
                < 3) || ((fds@[i] as int) >= 3 + fds@.len())),
    ensures
        targets_mapped(fds@, apply_plan(initial_fd_table(fds@), plan@), fds@.len() as int),
        all_cleared(plan@, fds@.len() as int),
{
    let ghost m0 = initial_fd_table(fds@);
    let mut plan: Vec<FdStep> = Vec::new();
    proof {
        assert forall|j: int|
            0 <= j < fds@.len() implies m0.dom().contains((#[trigger] fds@[j]) as int)
            && m0[fds@[j] as int] == fds@[j] as int by {
            assert(fds@[j] as int == fds@[j] as int);
        }
        assert(sources_intact(fds@, apply_plan(m0, plan@), 0));
        assert(targets_mapped(fds@, apply_plan(m0, plan@), 0));
        assert(all_cleared(plan@, 0));
    }
    let mut i: usize = 0;
    let n = fds.len();
    while i < n
        invariant
            i <= n,
            n == fds@.len(),
            fds@.len() + 3 <= i32::MAX,
            forall|a: int, b: int| 0 <= a < b < fds@.len() ==> fds@[a] != fds@[b],
            forall|a: int|
                0 <= a < fds@.len() ==> ((#[trigger] fds@[a]) as int == 3 + a || ((fds@[a]
                    as int) < 3) || ((fds@[a] as int) >= 3 + fds@.len())),
            targets_mapped(fds@, apply_plan(m0, plan@), i as int),
            sources_intact(fds@, apply_plan(m0, plan@), i as int),
            all_cleared(plan@, i as int),
        decreases n - i,
    {
        let ghost p0 = plan@;
        let ghost mcur = apply_plan(m0, p0);
        proof {
            assert(targets_mapped(fds@, mcur, i as int));
            assert(sources_intact(fds@, mcur, i as int));
        }
        let old_fd = fds[i];
        let new_fd = 3 + (i as i32);
        if old_fd != new_fd {
            plan.push(FdStep::CloseTarget(new_fd));
            plan.push(FdStep::Dup(old_fd, new_fd));
            plan.push(FdStep::CloseOld(old_fd));
            plan.push(FdStep::ClearCloexec(new_fd));
            proof {
                let s1 = FdStep::CloseTarget(new_fd);
                let s2 = FdStep::Dup(old_fd, new_fd);
                let s3 = FdStep::CloseOld(old_fd);
                let s4 = FdStep::ClearCloexec(new_fd);
                lemma_apply_plan_push(m0, p0, s1);
                lemma_apply_plan_push(m0, p0.push(s1), s2);
                lemma_apply_plan_push(m0, p0.push(s1).push(s2), s3);
                lemma_apply_plan_push(m0, p0.push(s1).push(s2).push(s3), s4);
                assert(plan@ =~= p0.push(s1).push(s2).push(s3).push(s4));
                let m1 = apply_step(mcur, s1);
                let m2 = apply_step(m1, s2);
                let m3 = apply_step(m2, s3);
                lemma_sources_at(fds@, mcur, i as int, i as int);
                assert(mcur.dom().contains(fds@[i as int] as int));
                assert(m1.dom().contains(old_fd as int));
                assert(m2 == m1.insert(new_fd as int, m1[old_fd as int]));
                assert(m3[new_fd as int] == fds@[i as int] as int);
                assert(apply_plan(m0, plan@) == m3);
                assert forall|j: int|
                    0 <= j < i + 1 implies m3.dom().contains(3 + j) && m3[3 + j] == (
                #[trigger] fds@[j]) as int by {
                    if j < i {
                        lemma_targets_at(fds@, mcur, i as int, j);
                        assert(3 + j != new_fd as int);
                        assert(fds@[i as int] as int != 3 + j);
                    } else {
                        assert(3 + j == new_fd as int);
                    }
                }
                lemma_targets_intro(fds@, m3, (i + 1) as int);
                assert(targets_mapped(fds@, apply_plan(m0, plan@), (i + 1) as int));
                assert forall|j: int|
                    i + 1 <= j < fds@.len() implies m3.dom().contains((#[trigger] fds@[j]) as int)
                    && m3[fds@[j] as int] == fds@[j] as int by {
                    lemma_sources_at(fds@, mcur, i as int, j);
                    assert(fds@[j] != fds@[i as int]);
                    assert(fds@[j] as int != new_fd as int);
                }
                lemma_sources_intro(fds@, m3, (i + 1) as int);
                assert(sources_intact(fds@, apply_plan(m0, plan@), (i + 1) as int));
                assert forall|j: int| 0 <= j < i + 1 implies #[trigger] plan_clears(
                    plan@,
                    j,
                ) by {
                    if j < i {
                        lemma_cleared_at(p0, i as int, j);
                        let k = choose|k: int|
                            0 <= k < p0.len() && #[trigger] p0[k] == FdStep::ClearCloexec(
                                (3 + j) as i32,
                            );
                        assert(plan@[k] == FdStep::ClearCloexec((3 + j) as i32));
                    } else {
                        assert(plan@[plan@.len() - 1] == FdStep::ClearCloexec((3 + j) as i32));
                    }
                }
                lemma_cleared_intro(plan@, (i + 1) as int);
            }
        } else {
            plan.push(FdStep::ClearCloexec(new_fd));
            proof {
                let s4 = FdStep::ClearCloexec(new_fd);
                lemma_apply_plan_push(m0, p0, s4);
                assert(plan@ =~= p0.push(s4));
                assert(apply_plan(m0, plan@) == mcur);
                assert forall|j: int|
                    0 <= j < i + 1 implies mcur.dom().contains(3 + j) && mcur[3 + j] == (
                #[trigger] fds@[j]) as int by {
                    if j < i {
                        lemma_targets_at(fds@, mcur, i as int, j);
                    } else {
                        assert(fds@[j] as int == 3 + j);
                        lemma_sources_at(fds@, mcur, i as int, j);
                    }
                }
                lemma_targets_intro(fds@, mcur, (i + 1) as int);
                assert(targets_mapped(fds@, apply_plan(m0, plan@), (i + 1) as int));
                assert forall|j: int|
                    i + 1 <= j < fds@.len() implies mcur.dom().contains(
                    (#[trigger] fds@[j]) as int,
                ) && mcur[fds@[j] as int] == fds@[j] as int by {
                    lemma_sources_at(fds@, mcur, i as int, j);
                }
                lemma_sources_intro(fds@, mcur, (i + 1) as int);
                assert(sources_intact(fds@, apply_plan(m0, plan@), (i + 1) as int));
                assert forall|j: int| 0 <= j < i + 1 implies #[trigger] plan_clears(
                    plan@,
                    j,
                ) by {
                    if j < i {
                        lemma_cleared_at(p0, i as int, j);
                        let k = choose|k: int|
                            0 <= k < p0.len() && #[trigger] p0[k] == FdStep::ClearCloexec(
                                (3 + j) as i32,
                            );
                        assert(plan@[k] == FdStep::ClearCloexec((3 + j) as i32));
                    } else {
                        assert(plan@[plan@.len() - 1] == FdStep::ClearCloexec((3 + j) as i32));
                    }
                }
                lemma_cleared_intro(plan@, (i + 1) as int);
            }
        }
        i += 1;
    }
    plan
}

} // verus!
