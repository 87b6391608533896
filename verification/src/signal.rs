//! POSIX-style signals: the per-process signal state, the sweep over
//! pending signals, and the fixed kernel responses.
//!
//! Signal `s` is carried as bit `s` of a 32-bit mask. Stop, continue,
//! kill and the default signal are handled in the kernel; any other
//! pending, unmasked signal enters its installed user handler — and
//! never while the running handler's own mask covers it.

use vstd::prelude::*;

use crate::task::TrapContext;

verus! {

/// Highest signal number.
pub const MAX_SIG: u32 = 31;

/// Bit of the default signal.
pub const SIGNAL_DEF: u32 = 0;

/// Signal number: interrupt.
pub const SIGINT: u32 = 2;

/// Signal number: illegal instruction.
pub const SIGILL: u32 = 4;

/// Signal number: abort.
pub const SIGABRT: u32 = 6;

/// Signal number: arithmetic error.
pub const SIGFPE: u32 = 8;

/// Signal number: kill.
pub const SIGKILL: u32 = 9;

/// Signal number: first user-defined signal.
pub const SIGUSR1: u32 = 10;

/// Signal number: memory fault.
pub const SIGSEGV: u32 = 11;

/// Signal number: continue.
pub const SIGCONT: u32 = 18;

/// Signal number: stop.
pub const SIGSTOP: u32 = 19;

/// A user-installed response to one signal: the handler's entry point
/// and the signals masked while it runs. Handler 0 means none.
#[derive(Clone, Copy, PartialEq, Eq, Structural, Debug)]
pub struct SignalAction {
    /// Entry point of the handler.
    pub handler: u64,
    /// Signals blocked while the handler runs.
    pub mask: u32,
}

impl SignalAction {
    /// No handler, nothing masked.
    pub fn new_default() -> (r: Self)
        ensures
            r.handler == 0,
            r.mask == 0,
    {
        SignalAction { handler: 0, mask: 0 }
    }
}

/// The signal state of one process.
pub struct SignalState {
    /// Signals the process blocks.
    pub signal_mask: u32,
    /// Signals posted and not yet handled.
    pub signal_recv: u32,
    /// One action per signal number.
    pub signal_actions: Vec<SignalAction>,
    /// Set once a fatal signal was handled in the kernel.
    pub killed: bool,
    /// Set while the process is stopped.
    pub frozen: bool,
    /// Number of the signal whose user handler is running, or -1.
    pub handling_sig: i64,
    /// The trap context saved when the running handler was entered.
    pub trap_ctx_backup: Option<TrapContext>,
}

/// Whether bit `s` of the mask is set.
pub open spec fn sig_bit(x: u32, s: u32) -> bool {
    (x >> s) & 1 == 1
}

/// Whether the signal is handled by the kernel itself.
pub open spec fn is_kernel_sig(s: u32) -> bool {
    s == SIGNAL_DEF || s == SIGKILL || s == SIGCONT || s == SIGSTOP
}

impl SignalState {
    /// One action per signal number, and a sensible handler record.
    pub open spec fn wf(self) -> bool {
        &&& self.signal_actions@.len() == 32
        &&& -1 <= self.handling_sig < 32
    }

    /// A fresh state: nothing pending, nothing masked, no handlers.
    pub fn new() -> (r: Self)
        ensures
            r.wf(),
            r.signal_mask == 0,
            r.signal_recv == 0,
            !r.killed,
            !r.frozen,
            r.handling_sig == -1,
            r.trap_ctx_backup is None,
            forall|s: int| 0 <= s < 32 ==> (#[trigger] r.signal_actions@[s]).handler == 0,
    {
        let mut actions: Vec<SignalAction> = Vec::new();
        let mut k: usize = 0;
        while k < 32
            invariant
                k == actions@.len(),
                k <= 32,
                forall|s: int| 0 <= s < k ==> (#[trigger] actions@[s]).handler == 0,
            decreases 32 - k,
        {
            actions.push(SignalAction::new_default());
            k = k + 1;
        }
        SignalState {
            signal_mask: 0,
            signal_recv: 0,
            signal_actions: actions,
            killed: false,
            frozen: false,
            handling_sig: -1,
            trap_ctx_backup: None,
        }
    }

    /// Whether signal `s` may be acted on now: pending, not blocked by
    /// the process, and not covered by the running handler's mask.
    pub open spec fn eligible(self, s: u32) -> bool {
        &&& s < 32
        &&& sig_bit(self.signal_recv, s)
        &&& !sig_bit(self.signal_mask, s)
        &&& (self.handling_sig == -1 || !sig_bit(
            self.signal_actions@[self.handling_sig as int].mask,
            s,
        ))
    }
}

/// The smallest eligible non-kernel signal at or above `s`, or -1.
pub open spec fn first_user_sig_from(st: SignalState, s: int) -> int
    decreases 32 - s,
{
    if s < 0 || s >= 32 {
        -1
    } else if st.eligible(s as u32) && !is_kernel_sig(s as u32) {
        s
    } else {
        first_user_sig_from(st, s + 1)
    }
}

/// The smallest eligible non-kernel signal, or -1.
pub open spec fn first_user_sig(st: SignalState) -> int {
    first_user_sig_from(st, 0)
}

/// Sweep the pending signals in ascending order, as the kernel does
/// after every trap. Stop, continue, kill and the default signal are
/// folded into `frozen` and `killed` on the way; the first eligible
/// user signal with an installed handler is entered: the trap context
/// is saved whole, the program counter moves to the handler and the
/// signal number goes to argument register x10. A handler is never
/// entered for a signal covered by the running handler's mask — that
/// signal is simply not eligible.
pub fn check_pending_signals(st: &mut SignalState, trap_cx: &mut TrapContext)
    requires
        old(st).wf(),
    ensures
        final(st).wf(),
        final(st).signal_mask == old(st).signal_mask,
        final(st).signal_actions == old(st).signal_actions,
        final(st).killed == (old(st).killed || old(st).eligible(SIGNAL_DEF) || (old(st).eligible(
            SIGKILL,
        ) && (first_user_sig(*old(st)) < 0 || first_user_sig(*old(st)) > SIGKILL))),
        ({
            let fu = first_user_sig(*old(st));
            &&& ((fu < 0 || fu > SIGSTOP) && old(st).eligible(SIGSTOP) ==> final(st).frozen)
            &&& ((fu < 0 || fu > SIGCONT) && old(st).eligible(SIGCONT) && !((fu < 0 || fu
                > SIGSTOP) && old(st).eligible(SIGSTOP)) ==> !final(st).frozen)
            &&& (!((fu < 0 || fu > SIGCONT) && old(st).eligible(SIGCONT)) && !((fu < 0 || fu
                > SIGSTOP) && old(st).eligible(SIGSTOP)) ==> final(st).frozen == old(st).frozen)
        }),
        ({
            let fu = first_user_sig(*old(st));
            if fu >= 0 && old(st).signal_actions@[fu].handler != 0 {
                &&& final(st).handling_sig == fu
                &&& final(st).trap_ctx_backup == Some(*old(trap_cx))
                &&& final(trap_cx).sepc == old(st).signal_actions@[fu].handler
                &&& final(trap_cx).x@ == old(trap_cx).x@.update(10, fu as u64)
                &&& !sig_bit(final(st).signal_recv, fu as u32)
            } else {
                &&& final(st).handling_sig == old(st).handling_sig
                &&& final(st).trap_ctx_backup == old(st).trap_ctx_backup
                &&& *final(trap_cx) == *old(trap_cx)
            }
        }),
        final(st).handling_sig != old(st).handling_sig ==> {
            let fu = first_user_sig(*old(st));
            &&& 0 <= fu < 32
            &&& final(st).handling_sig == fu
            &&& sig_bit(old(st).signal_recv, fu as u32)
            &&& !sig_bit(old(st).signal_mask, fu as u32)
            &&& (old(st).handling_sig == -1 || !sig_bit(
                old(st).signal_actions@[old(st).handling_sig as int].mask,
                fu as u32,
            ))
        },
        // the pending mask afterwards, bit by bit: a processed stop or
        // continue leaves the mask, an entered user signal leaves it,
        // the fatal bits and everything else stay
        forall|b: u32|
            b < 32 && b != SIGSTOP && b != SIGCONT && !(first_user_sig(*old(st)) >= 0 && b
                == first_user_sig(*old(st))) ==> #[trigger] sig_bit(final(st).signal_recv, b)
                == sig_bit(old(st).signal_recv, b),
        sig_bit(final(st).signal_recv, SIGSTOP) == (sig_bit(old(st).signal_recv, SIGSTOP) && !((
        first_user_sig(*old(st)) < 0 || first_user_sig(*old(st)) > SIGSTOP) && old(st).eligible(
            SIGSTOP,
        ))),
        sig_bit(final(st).signal_recv, SIGCONT) == (sig_bit(old(st).signal_recv, SIGCONT) && !((
        first_user_sig(*old(st)) < 0 || first_user_sig(*old(st)) > SIGCONT) && old(st).eligible(
            SIGCONT,
        ))),
        ({
            let fu = first_user_sig(*old(st));
            fu >= 0 ==> sig_bit(final(st).signal_recv, fu as u32) == (old(
                st,
            ).signal_actions@[fu].handler == 0)
        }),
{
    let mut s: u32 = 0;
    while s < 32
        invariant
            old(st).wf(),
            st.wf(),
            s <= 32,
            st.signal_mask == old(st).signal_mask,
            st.signal_actions == old(st).signal_actions,
            st.handling_sig == old(st).handling_sig,
            st.trap_ctx_backup == old(st).trap_ctx_backup,
            *trap_cx == *old(trap_cx),
            first_user_sig(*old(st)) == first_user_sig_from(*old(st), s as int),
            forall|b: u32|
                b < 32 && b != SIGCONT && b != SIGSTOP ==> sig_bit(st.signal_recv, b) == sig_bit(
                    old(st).signal_recv,
                    b,
                ),
            sig_bit(st.signal_recv, SIGSTOP) == (sig_bit(old(st).signal_recv, SIGSTOP) && !(s
                > SIGSTOP && old(st).eligible(SIGSTOP))),
            sig_bit(st.signal_recv, SIGCONT) == (sig_bit(old(st).signal_recv, SIGCONT) && !(s
                > SIGCONT && old(st).eligible(SIGCONT))),
            st.killed == (old(st).killed || (s > SIGNAL_DEF && old(st).eligible(SIGNAL_DEF)) || (
            s > SIGKILL && old(st).eligible(SIGKILL))),
            (s > SIGSTOP && old(st).eligible(SIGSTOP) ==> st.frozen),
            (s > SIGCONT && old(st).eligible(SIGCONT) && !(s > SIGSTOP && old(st).eligible(
                SIGSTOP,
            )) ==> !st.frozen),
            (!(s > SIGCONT && old(st).eligible(SIGCONT)) && !(s > SIGSTOP && old(st).eligible(
                SIGSTOP,
            )) ==> st.frozen == old(st).frozen),
        decreases 32 - s,
    {
        let pending = (st.signal_recv >> s) & 1 == 1;
        let masked_global = (st.signal_mask >> s) & 1 == 1;
        let masked_by_handler = if st.handling_sig == -1 {
            false
        } else {
            let h = st.handling_sig as usize;
            (st.signal_actions[h].mask >> s) & 1 == 1
        };
        proof {
            if s != SIGCONT && s != SIGSTOP {
                assert(sig_bit(st.signal_recv, s) == sig_bit(old(st).signal_recv, s));
            }
            assert(first_user_sig_from(*old(st), s as int) == (if old(st).eligible(s)
                && !is_kernel_sig(s) {
                s as int
            } else {
                first_user_sig_from(*old(st), s as int + 1)
            }));
        }
        if pending && !masked_global && !masked_by_handler {
            if s == SIGKILL || s == SIGSTOP || s == SIGCONT || s == SIGNAL_DEF {
                // handled by the kernel itself
                if s == SIGSTOP {
                    st.frozen = true;
                    let ghost prev = st.signal_recv;
                    st.signal_recv = st.signal_recv ^ (1u32 << s);
                    proof {
                        lemma_clear_bit(prev, st.signal_recv, SIGSTOP);
                    }
                } else if s == SIGCONT {
                    st.frozen = false;
                    let ghost prev = st.signal_recv;
                    st.signal_recv = st.signal_recv ^ (1u32 << s);
                    proof {
                        lemma_clear_bit(prev, st.signal_recv, SIGCONT);
                    }
                } else {
                    st.killed = true;
                }
            } else {
                let h = st.signal_actions[s as usize].handler;
                if h != 0 {
                    st.handling_sig = s as i64;
                    let ghost prev = st.signal_recv;
                    let cleared = st.signal_recv ^ (1u32 << s);
                    proof {
                        lemma_clear_bit(prev, cleared, s);
                        assert(s != SIGCONT && s != SIGSTOP);
                    }
                    st.signal_recv = cleared;
                    st.trap_ctx_backup = Some(*trap_cx);
                    trap_cx.sepc = h;
                    trap_cx.set_reg(10, s as u64);
                }
                return ;
            }
        }
        s = s + 1;
    }
}

/// Flipping a set bit clears it and leaves every other bit alone.
proof fn lemma_clear_bit(before: u32, after: u32, s: u32)
    requires
        s < 32,
        sig_bit(before, s),
        after == before ^ (1u32 << s),
    ensures
        !sig_bit(after, s),
        forall|b: u32| b < 32 && b != s ==> sig_bit(after, b) == sig_bit(before, b),
{
    assert(((before ^ (1u32 << s)) >> s) & 1 == 0) by (bit_vector)
        requires
            s < 32,
            (before >> s) & 1 == 1,
    ;
    assert forall|b: u32| b < 32 && b != s implies sig_bit(after, b) == sig_bit(before, b) by {
        assert(((before ^ (1u32 << s)) >> b) & 1 == (before >> b) & 1) by (bit_vector)
            requires
                s < 32,
                b < 32,
                b != s,
        ;
    }
}

/// The exit code the kernel reports for a fatal pending signal, if one
/// is pending: interrupt, illegal instruction, abort, arithmetic
/// error, kill and memory fault, checked in that order.
pub fn check_signal_error(recv: u32) -> (r: Option<i64>)
    ensures
        r == (if sig_bit(recv, SIGINT) {
            Some(-2i64)
        } else if sig_bit(recv, SIGILL) {
            Some(-4i64)
        } else if sig_bit(recv, SIGABRT) {
            Some(-6i64)
        } else if sig_bit(recv, SIGFPE) {
            Some(-8i64)
        } else if sig_bit(recv, SIGKILL) {
            Some(-9i64)
        } else if sig_bit(recv, SIGSEGV) {
            Some(-11i64)
        } else {
            None
        }),
{
    if (recv >> SIGINT) & 1 == 1 {
        Some(-2)
    } else if (recv >> SIGILL) & 1 == 1 {
        Some(-4)
    } else if (recv >> SIGABRT) & 1 == 1 {
        Some(-6)
    } else if (recv >> SIGFPE) & 1 == 1 {
        Some(-8)
    } else if (recv >> SIGKILL) & 1 == 1 {
        Some(-9)
    } else if (recv >> SIGSEGV) & 1 == 1 {
        Some(-11)
    } else {
        None
    }
}

/// Whether the signal never nests: while a user handler runs, the
/// sweep cannot enter a handler for a signal that the running
/// handler's action masks.
pub proof fn lemma_no_nested_delivery(st: SignalState, s: u32)
    requires
        st.wf(),
        0 <= st.handling_sig < 32,
        s < 32,
        sig_bit(st.signal_actions@[st.handling_sig as int].mask, s),
    ensures
        !st.eligible(s),
{
}

} // verus!
