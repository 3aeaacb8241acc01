//! The readiness-notification protocol: a service writes newline-or-null
//! separated `KEY=VALUE` messages to its notification socket.  `READY=1`
//! marks the service ready; a `STATUS=` message is appended to the status
//! list without its key; any other message is retained as it came.

use crate::commands::{tokens, split_tokens, SepKind};
use crate::services::Service;
use crate::units::str_eq;
use vstd::prelude::*;

verus! {

/// What one message contributes to the status list.
pub open spec fn retained(m: Seq<char>) -> Option<Seq<char>> {
    if m == "READY=1"@ {
        None
    } else if m.len() >= 7 && m.take(7) == "STATUS="@ {
        Some(m.skip(7))
    } else {
        Some(m)
    }
}

/// The status lines a sequence of messages appends, in order.
pub open spec fn retained_all(msgs: Seq<Seq<char>>) -> Seq<Seq<char>>
    decreases msgs.len(),
{
    if msgs.len() == 0 {
        Seq::empty()
    } else {
        let rest = retained_all(msgs.drop_last());
        match retained(msgs.last()) {
            Some(m) => rest.push(m),
            None => rest,
        }
    }
}

/// Some message signals readiness.
pub open spec fn any_ready(msgs: Seq<Seq<char>>) -> bool {
    exists|k: int| 0 <= k < msgs.len() && msgs[k] == "READY=1"@
}

/// Handle one datagram from the notification socket: the readiness flag is
/// raised exactly when some message reads `READY=1`, and the status list
/// grows by exactly the retained messages, in order.  Nothing else changes.
pub fn handle_notification_datagram(srvc: &mut Service, text: &str)
    ensures
        ({
            let msgs = tokens(SepKind::MessageEnd, text@);
            &&& final(srvc).signaled_ready == (old(srvc).signaled_ready || any_ready(msgs))
            &&& final(srvc).status_msgs@.len() == old(srvc).status_msgs@.len() + retained_all(
                msgs,
            ).len()
            &&& forall|k: int|
                0 <= k < old(srvc).status_msgs@.len() ==> final(srvc).status_msgs@[k] == old(
                    srvc,
                ).status_msgs@[k]
            &&& forall|k: int|
                0 <= k < retained_all(msgs).len() ==> (#[trigger] final(srvc).status_msgs@[old(
                    srvc,
                ).status_msgs@.len() + k])@ == retained_all(msgs)[k]
        }),
        final(srvc).pid == old(srvc).pid,
        final(srvc).process_group == old(srvc).process_group,
        final(srvc).status == old(srvc).status,
        final(srvc).service_config == old(srvc).service_config,
        final(srvc).socket_ids == old(srvc).socket_ids,
        final(srvc).file_descriptors == old(srvc).file_descriptors,
        final(srvc).notifications_path == old(srvc).notifications_path,
        final(srvc).stdout == old(srvc).stdout,
        final(srvc).stderr == old(srvc).stderr,
        final(srvc).notifications_buffer == old(srvc).notifications_buffer,
        final(srvc).stdout_buffer == old(srvc).stdout_buffer,
        final(srvc).stderr_buffer == old(srvc).stderr_buffer,
{
    let ghost msgs0 = tokens(SepKind::MessageEnd, text@);
    let ghost ready0 = srvc.signaled_ready;
    let ghost sm0 = srvc.status_msgs@;
    let msgs = split_tokens(SepKind::MessageEnd, text);
    let mut i: usize = 0;
    while i < msgs.len()
        invariant
            i <= msgs@.len(),
            msgs@.len() == msgs0.len(),
            forall|k: int| 0 <= k < msgs@.len() ==> (#[trigger] msgs@[k])@ == msgs0[k],
            srvc.signaled_ready == (ready0 || any_ready(msgs0.take(i as int))),
            srvc.status_msgs@.len() == sm0.len() + retained_all(msgs0.take(i as int)).len(),
            forall|k: int| 0 <= k < sm0.len() ==> srvc.status_msgs@[k] == sm0[k],
            forall|k: int|
                0 <= k < retained_all(msgs0.take(i as int)).len() ==> (
                #[trigger] srvc.status_msgs@[sm0.len() + k])@ == retained_all(
                    msgs0.take(i as int),
                )[k],
            srvc.pid == old(srvc).pid,
            srvc.process_group == old(srvc).process_group,
            srvc.status == old(srvc).status,
            srvc.service_config == old(srvc).service_config,
            srvc.socket_ids == old(srvc).socket_ids,
            srvc.file_descriptors == old(srvc).file_descriptors,
            srvc.notifications_path == old(srvc).notifications_path,
            srvc.stdout == old(srvc).stdout,
            srvc.stderr == old(srvc).stderr,
            srvc.notifications_buffer == old(srvc).notifications_buffer,
            srvc.stdout_buffer == old(srvc).stdout_buffer,
            srvc.stderr_buffer == old(srvc).stderr_buffer,
            ready0 == old(srvc).signaled_ready,
            sm0 == old(srvc).status_msgs@,
        decreases msgs@.len() - i,
    {
        proof {
            assert(msgs0.take(i + 1 as int).drop_last() =~= msgs0.take(i as int));
            assert(msgs0.take(i + 1 as int).last() == msgs0[i as int]);
        }
        let m = &msgs[i];
        let mlen = m.unicode_len();
        if str_eq(m.as_str(), "READY=1") {
            srvc.signaled_ready = true;
            proof {
                assert(msgs0[i as int] == "READY=1"@);
                assert(any_ready(msgs0.take(i + 1 as int))) by {
                    assert(msgs0.take(i + 1 as int)[i as int] == "READY=1"@);
                }
                assert(retained(msgs0[i as int]) is None);
            }
        } else {
            proof {
                assert(msgs0[i as int] != "READY=1"@);
                if any_ready(msgs0.take(i + 1 as int)) {
                    let k = choose|k: int|
                        0 <= k < msgs0.take(i + 1 as int).len() && (#[trigger] msgs0.take(
                            i + 1 as int,
                        )[k]) == "READY=1"@;
                    if k < i {
                        assert(msgs0.take(i as int)[k] == "READY=1"@);
                    }
                }
                if any_ready(msgs0.take(i as int)) {
                    let k = choose|k: int|
                        0 <= k < msgs0.take(i as int).len() && (#[trigger] msgs0.take(i as int)[k])
                            == "READY=1"@;
                    assert(msgs0.take(i + 1 as int)[k] == "READY=1"@);
                }
            }
            let is_status = if mlen >= 7 {
                let key = m.as_str().substring_char(0, 7);
                str_eq(key, "STATUS=")
            } else {
                false
            };
            if is_status {
                proof {
                    assert(msgs0[i as int].take(7) =~= m@.subrange(0, 7));
                }
                let rest = m.as_str().substring_char(7, mlen);
                srvc.status_msgs.push(rest.to_owned());
                proof {
                    assert(msgs0[i as int].skip(7) =~= m@.subrange(7, mlen as int));
                    assert(retained(msgs0[i as int]) == Some(msgs0[i as int].skip(7)));
                }
            } else {
                proof {
                    if msgs0[i as int].len() >= 7 && msgs0[i as int].take(7) == "STATUS="@ {
                        assert(m@.subrange(0, 7) =~= msgs0[i as int].take(7));
                        assert(false);
                    }
                    assert(retained(msgs0[i as int]) == Some(msgs0[i as int]));
                }
                srvc.status_msgs.push(m.clone());
            }
        }
        i += 1;
    }
    proof {
        assert(msgs0.take(msgs0.len() as int) =~= msgs0);
    }
}

} // verus!
