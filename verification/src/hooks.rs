//! The decision taken on each message of a window event listener.
use vstd::prelude::*;

verus! {

/// What a window listener does with a message it received.
#[derive(Clone, Copy, Debug, PartialEq, Eq, Structural)]
pub enum ListenerStep {
    /// The awaited event happened: call the callback.
    Notify,
    /// Some other message: keep listening.
    Ignore,
    /// The channel failed: stop listening.
    Stop,
}

/// The step for `received` when the listener waits for the text `expected`:
/// notify on that text, ignore any other, stop on a failure.
pub open spec fn step_for<E>(received: Result<String, E>, expected: Seq<char>) -> ListenerStep {
    match received {
        Ok(message) => if message@ == expected {
            ListenerStep::Notify
        } else {
            ListenerStep::Ignore
        },
        Err(_) => ListenerStep::Stop,
    }
}

/// The positions in `received` at which a listener that takes the steps of
/// `step_for`, one message after the other, calls its callback.
pub open spec fn notified_at<E>(received: Seq<Result<String, E>>, expected: Seq<char>) -> Seq<int>
    decreases received.len(),
{
    if received.len() == 0 {
        Seq::empty()
    } else {
        let later = notified_at(received.drop_first(), expected).map_values(|i: int| i + 1);
        match step_for(received[0], expected) {
            ListenerStep::Notify => seq![0int] + later,
            ListenerStep::Ignore => later,
            ListenerStep::Stop => Seq::empty(),
        }
    }
}

/// Whether the message at `i` is `expected` and no failure comes before it.
pub open spec fn notifies_at<E>(received: Seq<Result<String, E>>, expected: Seq<char>, i: int) -> bool {
    &&& 0 <= i < received.len()
    &&& forall|j: int| 0 <= j < i ==> (#[trigger] received[j]) is Ok
    &&& received[i] matches Ok(m) && m@ == expected
}

/// The listening law: fed the messages `received`, a listener calls its
/// callback exactly at the messages equal to `expected` that come before the
/// first failure, once each and in order, and never after a failure.
pub proof fn lemma_listener_notifies_until_failure<E>(
    received: Seq<Result<String, E>>,
    expected: Seq<char>,
)
    ensures
        forall|i: int|
            #[trigger] notified_at(received, expected).contains(i) <==> notifies_at(received, expected, i),
        forall|a: int, b: int|
            #![trigger notified_at(received, expected)[a], notified_at(received, expected)[b]]
            0 <= a < b < notified_at(received, expected).len() ==> notified_at(received, expected)[a]
                < notified_at(received, expected)[b],
    decreases received.len(),
{
    if received.len() > 0 {
        let tail = received.drop_first();
        lemma_listener_notifies_until_failure(tail, expected);
        let inner = notified_at(tail, expected);
        let later = inner.map_values(|i: int| i + 1);
        let all = notified_at(received, expected);
        assert forall|k: int| 0 <= k < inner.len() implies 0 <= #[trigger] inner[k] by {
            assert(inner.contains(inner[k]));
        }
        assert forall|i: int| later.contains(i) <==> inner.contains(i - 1) by {
            if later.contains(i) {
                let k = choose|k: int| 0 <= k < later.len() && later[k] == i;
                assert(inner[k] == i - 1);
            }
            if inner.contains(i - 1) {
                let k = choose|k: int| 0 <= k < inner.len() && inner[k] == i - 1;
                assert(later[k] == i);
            }
        }
        if received[0] is Err {
            assert forall|i: int| #[trigger] all.contains(i) <==> notifies_at(received, expected, i) by {
                if notifies_at(received, expected, i) && i > 0 {
                    assert(received[0] is Ok);
                }
            }
        } else {
            let notify_first = step_for(received[0], expected) is Notify;
            assert forall|i: int| #[trigger] all.contains(i) <==> notifies_at(received, expected, i) by {
                if i >= 1 {
                    assert(notifies_at(received, expected, i) <==> notifies_at(tail, expected, i - 1)) by {
                        if i < received.len() {
                            assert(tail[i - 1] == received[i]);
                        }
                        if notifies_at(tail, expected, i - 1) {
                            assert forall|j: int| 0 <= j < i implies (#[trigger] received[j]) is Ok by {
                                if j > 0 {
                                    assert(tail[j - 1] == received[j]);
                                }
                            }
                        }
                        if notifies_at(received, expected, i) {
                            assert forall|j: int| 0 <= j < i - 1 implies (#[trigger] tail[j]) is Ok by {
                                assert(tail[j] == received[j + 1]);
                            }
                        }
                    }
                    if notify_first {
                        if all.contains(i) {
                            let k = choose|k: int| 0 <= k < all.len() && all[k] == i;
                            assert(k > 0);
                            assert(later[k - 1] == i);
                        }
                        if later.contains(i) {
                            let k = choose|k: int| 0 <= k < later.len() && later[k] == i;
                            assert(all[k + 1] == i);
                        }
                    }
                } else if i == 0 {
                    if notify_first {
                        assert(all[0] == 0);
                    } else if all.contains(0) {
                        assert(later.contains(0));
                        assert(inner.contains(-1));
                    }
                } else {
                    if all.contains(i) {
                        let k = choose|k: int| 0 <= k < all.len() && all[k] == i;
                        if notify_first && k == 0 {
                            assert(i == 0);
                        } else if notify_first {
                            assert(later[k - 1] == i);
                        } else {
                            assert(later[k] == i);
                        }
                        assert(later.contains(i));
                        assert(inner.contains(i - 1));
                    }
                }
            }
            assert forall|a: int, b: int|
                #![trigger all[a], all[b]]
                0 <= a < b < all.len() implies all[a] < all[b] by {
                if notify_first {
                    if a > 0 {
                        assert(all[a] == later[a - 1] && all[b] == later[b - 1]);
                        assert(inner[a - 1] < inner[b - 1]);
                    } else {
                        assert(all[b] == later[b - 1]);
                        assert(0 <= inner[b - 1]);
                    }
                } else {
                    assert(inner[a] < inner[b]);
                }
            }
        }
    }
}

/// The step for `received`, when the listener waits for the message `expected`.
pub fn listener_step<E>(received: &Result<String, E>, expected: &str) -> (r: ListenerStep)
    ensures
        r == step_for(*received, expected@),
{
    match received {
        Ok(message) => {
            let wanted = expected.to_owned();
            if *message == wanted {
                ListenerStep::Notify
            } else {
                ListenerStep::Ignore
            }
        },
        Err(_) => ListenerStep::Stop,
    }
}

} // verus!
