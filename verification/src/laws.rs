//! The library's stated laws, proved over the classification and toggle
//! specifications that the executable functions are contracted to follow.

use vstd::prelude::*;

use crate::model::{
    default_guild_view, eval_result, eval_seen, guild_or_default, model_eval_result,
    model_eval_state, toggle_state, GuildView, MessageAccepted, MessageRejected,
};
use crate::text::UnitView;

verus! {

/// A message with no community association is always accepted as
/// `NotInGuild`, and the registry does not change.
pub proof fn lemma_not_in_guild(
    m: Map<u64, GuildView>,
    channel: u64,
    is_bot: bool,
    has_attachment: bool,
    fp: Seq<UnitView>,
    now: int,
)
    ensures
        model_eval_result(m, Option::None, channel, is_bot, has_attachment, fp, now) == Ok::<
            MessageAccepted,
            MessageRejected,
        >(MessageAccepted::NotInGuild),
        model_eval_state(m, Option::None, channel, is_bot, has_attachment, fp, now) == m,
{
}

/// A message with an attachment is always accepted as `HasAttachment`, and
/// the registry does not change.
pub proof fn lemma_has_attachment(
    m: Map<u64, GuildView>,
    guild: u64,
    channel: u64,
    is_bot: bool,
    fp: Seq<UnitView>,
    now: int,
)
    ensures
        model_eval_result(m, Option::Some(guild), channel, is_bot, true, fp, now) == Ok::<
            MessageAccepted,
            MessageRejected,
        >(MessageAccepted::HasAttachment),
        model_eval_state(m, Option::Some(guild), channel, is_bot, true, fp, now) == m,
{
}

/// A message in an unmonitored channel is always accepted as
/// `NotMonitored`; every community's monitoring set and history are
/// unchanged (at most an untouched default entry appears).
pub proof fn lemma_not_monitored(
    m: Map<u64, GuildView>,
    guild: u64,
    channel: u64,
    is_bot: bool,
    fp: Seq<UnitView>,
    now: int,
)
    requires
        !guild_or_default(m, guild).monitored.contains(channel),
    ensures
        model_eval_result(m, Option::Some(guild), channel, is_bot, false, fp, now) == Ok::<
            MessageAccepted,
            MessageRejected,
        >(MessageAccepted::NotMonitored),
        model_eval_state(m, Option::Some(guild), channel, is_bot, false, fp, now) == (if m.dom()
            .contains(guild) {
            m
        } else {
            m.insert(guild, default_guild_view())
        }),
{
    let g0 = guild_or_default(m, guild);
    assert(eval_seen(g0, channel, is_bot, fp, now) == g0.seen);
    if m.dom().contains(guild) {
        assert(m.insert(guild, GuildView { seen: g0.seen, ..g0 }) =~= m);
    } else {
        assert(m.insert(guild, GuildView { seen: g0.seen, ..g0 }) =~= m.insert(
            guild,
            default_guild_view(),
        ));
    }
}

/// A bot's message in a monitored channel is always accepted as `Bot`;
/// every community's monitoring set and history are unchanged.
pub proof fn lemma_bot(
    m: Map<u64, GuildView>,
    guild: u64,
    channel: u64,
    fp: Seq<UnitView>,
    now: int,
)
    requires
        guild_or_default(m, guild).monitored.contains(channel),
    ensures
        model_eval_result(m, Option::Some(guild), channel, true, false, fp, now) == Ok::<
            MessageAccepted,
            MessageRejected,
        >(MessageAccepted::Bot),
        model_eval_state(m, Option::Some(guild), channel, true, false, fp, now) == m,
{
    let g0 = guild_or_default(m, guild);
    assert(eval_seen(g0, channel, true, fp, now) == g0.seen);
    assert(m.insert(guild, GuildView { seen: g0.seen, ..g0 }) =~= m);
}

/// Toggling the same channel twice returns opposite booleans and restores
/// the original monitoring set; history and window are kept throughout.
pub proof fn lemma_toggle_twice(m: Map<u64, GuildView>, guild: u64, channel: u64)
    ensures
        ({
            let g0 = guild_or_default(m, guild);
            let was1 = g0.monitored.contains(channel);
            let m1 = toggle_state(m, guild, channel);
            let g1 = guild_or_default(m1, guild);
            let was2 = g1.monitored.contains(channel);
            let m2 = toggle_state(m1, guild, channel);
            let g2 = guild_or_default(m2, guild);
            &&& was2 == !was1
            &&& g2.monitored == g0.monitored
            &&& g1.seen == g0.seen && g2.seen == g0.seen
            &&& g1.ttl == g0.ttl && g2.ttl == g0.ttl
        }),
{
    let g0 = guild_or_default(m, guild);
    let m1 = toggle_state(m, guild, channel);
    let g1 = guild_or_default(m1, guild);
    let m2 = toggle_state(m1, guild, channel);
    let g2 = guild_or_default(m2, guild);
    if g0.monitored.contains(channel) {
        assert(g1.monitored =~= g0.monitored.remove(channel));
        assert(g2.monitored =~= g0.monitored.remove(channel).insert(channel));
        assert(g2.monitored =~= g0.monitored);
    } else {
        assert(g1.monitored =~= g0.monitored.insert(channel));
        assert(g2.monitored =~= g0.monitored.insert(channel).remove(channel));
        assert(g2.monitored =~= g0.monitored);
    }
}

/// The rolling window: a fingerprint on record blocks its repeat strictly
/// before `timestamp + ttl` without refreshing the record, and is accepted
/// anew and re-stamped from `timestamp + ttl` on.
pub proof fn lemma_window(g: GuildView, channel: u64, fp: Seq<UnitView>, now: int)
    requires
        g.monitored.contains(channel),
        g.seen.dom().contains(fp),
    ensures
        now < g.seen[fp] + g.ttl ==> eval_result(g, channel, false, fp, now) == Err::<
            MessageAccepted,
            MessageRejected,
        >(MessageRejected::Text) && eval_seen(g, channel, false, fp, now) == g.seen,
        now >= g.seen[fp] + g.ttl ==> eval_result(g, channel, false, fp, now) == Ok::<
            MessageAccepted,
            MessageRejected,
        >(MessageAccepted::Nominal) && eval_seen(g, channel, false, fp, now) == g.seen.insert(
            fp,
            now,
        ),
{
}

/// Two evaluations racing on the same fresh fingerprint are serialized by
/// the community's state: the first records it and is accepted `Nominal`,
/// and the second is rejected, unless the window elapsed in between.
pub proof fn lemma_duplicate_race(
    g: GuildView,
    channel: u64,
    fp: Seq<UnitView>,
    t1: int,
    t2: int,
)
    requires
        g.monitored.contains(channel),
        !g.seen.dom().contains(fp),
        t1 <= t2 < t1 + g.ttl,
    ensures
        eval_result(g, channel, false, fp, t1) == Ok::<MessageAccepted, MessageRejected>(
            MessageAccepted::Nominal,
        ),
        eval_result(
            GuildView { seen: eval_seen(g, channel, false, fp, t1), ..g },
            channel,
            false,
            fp,
            t2,
        ) == Err::<MessageAccepted, MessageRejected>(MessageRejected::Text),
{
    let g1 = GuildView { seen: eval_seen(g, channel, false, fp, t1), ..g };
    assert(g1.seen == g.seen.insert(fp, t1));
    assert(g1.seen[fp] == t1);
}

} // verus!
