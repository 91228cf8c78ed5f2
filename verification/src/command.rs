//! The monitor command, reduced to one tagged union dispatched into the
//! registry; the caller renders the returned line to the operator.

use vstd::prelude::*;

use crate::model::{guild_or_default, toggle_state, GuildView, MessageModel};

verus! {

/// Toggles monitoring for the current channel.
pub struct EnableCommand;

/// Reports whether the current channel is monitored.
pub struct CheckCommand;

/// The monitor command's sub-commands.
pub enum Monitor {
    Enable(EnableCommand),
    Check(CheckCommand),
}

/// The registry after a monitor command: only a toggle with both ids
/// resolved changes anything.
pub open spec fn handle_state(
    cmd: Monitor,
    m: Map<u64, GuildView>,
    guild: Option<u64>,
    channel: Option<u64>,
) -> Map<u64, GuildView> {
    match (cmd, guild, channel) {
        (Monitor::Enable(_), Option::Some(g), Option::Some(c)) => toggle_state(m, g, c),
        _ => m,
    }
}

/// The fixed response line a monitor command earns; none when either id is
/// missing.
pub open spec fn handle_reply(
    cmd: Monitor,
    m: Map<u64, GuildView>,
    guild: Option<u64>,
    channel: Option<u64>,
) -> Option<Seq<char>> {
    match (cmd, guild, channel) {
        (Monitor::Enable(_), Option::Some(g), Option::Some(c)) => Some(
            if guild_or_default(m, g).monitored.contains(c) {
                "Stopping monitoring of this channel"@
            } else {
                "Beginning to monitor this channel"@
            },
        ),
        (Monitor::Check(_), Option::Some(g), Option::Some(c)) => Some(
            if m.dom().contains(g) && m[g].monitored.contains(c) {
                "This channel is being monitored"@
            } else {
                "This channel is not being monitored"@
            },
        ),
        _ => None,
    }
}

impl Monitor {
    /// Applies the command to the registry and returns the response line to
    /// render; a command without both ids resolved does nothing.
    pub fn handle(
        self,
        model: &mut MessageModel,
        guild: Option<u64>,
        channel: Option<u64>,
    ) -> (r: Option<String>)
        requires
            old(model).wf(),
        ensures
            final(model).wf(),
            final(model)@ == handle_state(self, old(model)@, guild, channel),
            (r is Some) == (handle_reply(self, old(model)@, guild, channel) is Some),
            r matches Some(line) ==> handle_reply(self, old(model)@, guild, channel) == Some(
                line@,
            ),
    {
        match self {
            Monitor::Enable(_) => match (guild, channel) {
                (Some(g), Some(c)) => {
                    let was = model.toggle_monitor(g, c);
                    let line = if was {
                        "Stopping monitoring of this channel"
                    } else {
                        "Beginning to monitor this channel"
                    };
                    Some(line.to_owned())
                },
                _ => None,
            },
            Monitor::Check(_) => match (guild, channel) {
                (Some(g), Some(c)) => {
                    let mon = model.is_monitored(g, c);
                    let line = if mon {
                        "This channel is being monitored"
                    } else {
                        "This channel is not being monitored"
                    };
                    Some(line.to_owned())
                },
                _ => None,
            },
        }
    }
}

} // verus!
