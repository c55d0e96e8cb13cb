use std::collections::VecDeque;
use vstd::prelude::*;

use crate::gcode::{invalid_message, parse, Gcode, GcodeParser};
use crate::gimbal::{AxisIo, Gimbal, GimbalError};

verus! {

/// An entry of the command queue.
#[derive(Clone, Copy, Debug, PartialEq, Eq, Structural)]
pub enum Cmd {
    /// Drop every command still queued.
    ClearCmdQueue,
    /// Apply a command to the gimbal.
    ProcessGcode(Gcode),
}

/// Commands waiting for the control loop, oldest first.
pub struct CommandQueue {
    cmds: VecDeque<Cmd>,
}

impl View for CommandQueue {
    type V = Seq<Cmd>;

    closed spec fn view(&self) -> Seq<Cmd> {
        self.cmds@
    }
}

/// One tick of the control loop on queue `q`: the command it hands to the
/// gimbal, if any, and the queue it leaves. A clear empties the queue and
/// runs nothing.
pub open spec fn next_step(q: Seq<Cmd>) -> (Option<Gcode>, Seq<Cmd>) {
    if q.len() == 0 {
        (None, q)
    } else {
        match q[0] {
            Cmd::ClearCmdQueue => (None, Seq::empty()),
            Cmd::ProcessGcode(g) => (Some(g), q.drop_first()),
        }
    }
}

impl CommandQueue {
    pub fn new() -> (r: Self)
        ensures
            r@ == Seq::<Cmd>::empty(),
    {
        CommandQueue { cmds: VecDeque::new() }
    }

    pub fn len(&self) -> (r: usize)
        ensures
            r == self@.len(),
    {
        self.cmds.len()
    }

    pub fn push_back(&mut self, cmd: Cmd)
        ensures
            final(self)@ == old(self)@.push(cmd),
    {
        self.cmds.push_back(cmd);
    }

    /// Takes the oldest command.
    pub fn pop_front(&mut self) -> (r: Option<Cmd>)
        ensures
            old(self)@.len() == 0 ==> r is None && final(self)@ == old(self)@,
            old(self)@.len() > 0 ==> r == Some(old(self)@[0]) && final(self)@
                == old(self)@.drop_first(),
    {
        self.cmds.pop_front()
    }

    pub fn clear(&mut self)
        ensures
            final(self)@ == Seq::<Cmd>::empty(),
    {
        self.cmds.clear();
    }

    /// Parses a command line and queues it; a line that does not parse
    /// leaves the queue as it was and gives the parse error.
    pub fn push_gcode(&mut self, line: &str) -> (r: Result<(), String>)
        ensures
            match parse(line@) {
                Some(g) => r is Ok && final(self)@ == old(self)@.push(Cmd::ProcessGcode(g)),
                None => r is Err && r->Err_0@ == invalid_message(line@) && final(self)@ == old(
                    self,
                )@,
            },
    {
        match GcodeParser::of_str(line) {
            Ok(g) => {
                self.push_back(Cmd::ProcessGcode(g));
                Ok(())
            },
            Err(e) => Err(e),
        }
    }

    /// The queue's side of one tick: takes the oldest command; a clear also
    /// drops the rest. Returns the command for the gimbal, if any.
    pub fn take_next(&mut self) -> (r: Option<Gcode>)
        ensures
            (r, final(self)@) == next_step(old(self)@),
    {
        match self.pop_front() {
            None => None,
            Some(Cmd::ClearCmdQueue) => {
                self.clear();
                None
            },
            Some(Cmd::ProcessGcode(g)) => Some(g),
        }
    }
}

/// One tick of the control loop: takes the oldest command and, when it is a
/// gcode, applies it to the gimbal under the fail-stop rule of
/// `Gimbal::run_queued`. The command is fully applied before the next one
/// leaves the queue. `None` when nothing was applied.
pub fn dispatch_next<Io: AxisIo>(queue: &mut CommandQueue, gimbal: &mut Gimbal<Io>) -> (r: Option<
    Result<(), GimbalError>,
>)
    requires
        old(gimbal).wf(),
    ensures
        final(gimbal).wf(),
        final(queue)@ == next_step(old(queue)@).1,
        match next_step(old(queue)@).0 {
            None => r is None && *final(gimbal) == *old(gimbal),
            Some(g) => old(gimbal).ran_queued(*final(gimbal), g, r),
        },
{
    match queue.take_next() {
        None => None,
        Some(g) => gimbal.run_queued(g),
    }
}

/// Commands leave in the order they were queued: with `A` then `B` queued,
/// a tick hands out `A` and leaves `B` first in line, and the next tick
/// hands out `B`.
pub proof fn lemma_queue_order(a: Gcode, b: Gcode, later: Seq<Cmd>)
    ensures
        ({
            let q = seq![Cmd::ProcessGcode(a), Cmd::ProcessGcode(b)] + later;
            &&& next_step(q).0 == Some(a)
            &&& next_step(q).1 == seq![Cmd::ProcessGcode(b)] + later
            &&& next_step(next_step(q).1) == (Some(b), later)
        }),
{
    let q = seq![Cmd::ProcessGcode(a), Cmd::ProcessGcode(b)] + later;
    assert(q.drop_first() =~= seq![Cmd::ProcessGcode(b)] + later);
    assert((seq![Cmd::ProcessGcode(b)] + later).drop_first() =~= later);
}

/// A clear queued ahead of other commands drops them all, and none of them
/// reaches the gimbal.
pub proof fn lemma_clear_drops_pending(pending: Seq<Cmd>)
    ensures
        next_step(seq![Cmd::ClearCmdQueue] + pending) == (None::<Gcode>, Seq::<Cmd>::empty()),
{
}

} // verus!
