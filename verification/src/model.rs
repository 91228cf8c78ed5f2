//! Per-community duplicate-detection state and the message classifier.
//!
//! A `GuildMeta` holds one community's monitored channels and its table of
//! recently accepted fingerprints; a `MessageModel` owns one `GuildMeta`
//! per community, created lazily. Classification follows a fixed order:
//! messages outside a community, with attachments, in unmonitored channels
//! or from bots pass untouched; otherwise a fingerprint seen within the
//! rolling `ttl` window is rejected, and only a `Nominal` acceptance writes
//! to the table.

use vstd::prelude::*;

use crate::kv::{
    distinct_keys, kv_map, lemma_kv_absent, lemma_kv_get, lemma_kv_push, lemma_kv_remove,
    lemma_kv_remove_push, lemma_to_set_index, lemma_to_set_push, lemma_to_set_remove,
};
use crate::store::{
    dec_units, decode_units, decoded_pairs, enc_units, encode_units, lemma_units_round_trip,
    load_all_spec, load_meta_spec, loaded_guild, record_ok, records_view, GuildRecord, RecordView,
};
use crate::numeric::{dec_str, lemma_dec_round_trip, parse_u64, render_u64};
use crate::text::{fingerprint, Message, UnitView};

verus! {

/// Why a message was rejected.
#[derive(Debug, PartialEq, Eq, Structural)]
pub enum MessageRejected {
    /// Its normalized text repeats a recently accepted message.
    Text,
}

/// Why a message passed the duplicate filter.
#[derive(Debug, PartialEq, Eq, Structural)]
pub enum MessageAccepted {
    /// The message belongs to no community.
    NotInGuild,
    /// The message carries an attachment, which is not inspected.
    HasAttachment,
    /// The channel is not monitored.
    NotMonitored,
    /// The author is a bot.
    Bot,
    /// The message is new to the window and was recorded.
    Nominal,
}

/// Default rejection window: ten days, in microseconds.
pub const DEFAULT_TTL: i64 = 864_000_000_000;

/// Per-community state: the monitored channels and the fingerprints
/// recently accepted, each with the microsecond timestamp of acceptance.
pub struct GuildMeta {
    monitored_channels: Vec<u64>,
    seen: Vec<(Message, i64)>,
    ttl: i64,
}

/// Mathematical form of one community's state.
#[verifier::ext_equal]
pub struct GuildView {
    pub monitored: Set<u64>,
    pub seen: Map<Seq<UnitView>, int>,
    pub ttl: int,
}

/// The key/value pairs of the seen table, as fingerprints and instants.
pub open spec fn seen_pairs(s: Seq<(Message, i64)>) -> Seq<(Seq<UnitView>, int)> {
    s.map_values(|p: (Message, i64)| (p.0@, p.1 as int))
}

impl View for GuildMeta {
    type V = GuildView;

    closed spec fn view(&self) -> GuildView {
        GuildView {
            monitored: self.monitored_channels@.to_set(),
            seen: kv_map(seen_pairs(self.seen@)),
            ttl: self.ttl as int,
        }
    }
}

/// The state of a community nobody has touched yet.
pub open spec fn default_guild_view() -> GuildView {
    GuildView { monitored: Set::empty(), seen: Map::empty(), ttl: DEFAULT_TTL as int }
}

/// The classification of a message that reached its community's state.
pub open spec fn eval_result(
    g: GuildView,
    channel: u64,
    is_bot: bool,
    fp: Seq<UnitView>,
    now: int,
) -> Result<MessageAccepted, MessageRejected> {
    if !g.monitored.contains(channel) {
        Ok(MessageAccepted::NotMonitored)
    } else if is_bot {
        Ok(MessageAccepted::Bot)
    } else if !g.seen.dom().contains(fp) {
        Ok(MessageAccepted::Nominal)
    } else if now < g.seen[fp] + g.ttl {
        Err(MessageRejected::Text)
    } else {
        Ok(MessageAccepted::Nominal)
    }
}

/// The seen table after classification: exactly a `Nominal` acceptance
/// records the fingerprint at `now`; a rejection does not refresh it.
pub open spec fn eval_seen(
    g: GuildView,
    channel: u64,
    is_bot: bool,
    fp: Seq<UnitView>,
    now: int,
) -> Map<Seq<UnitView>, int> {
    if eval_result(g, channel, is_bot, fp, now) == Ok::<MessageAccepted, MessageRejected>(
        MessageAccepted::Nominal,
    ) {
        g.seen.insert(fp, now)
    } else {
        g.seen
    }
}

impl Default for GuildMeta {
    /// The untouched state: nothing monitored, nothing seen, the default
    /// window.
    fn default() -> (r: GuildMeta)
        ensures
            r.wf(),
            r@ == default_guild_view(),
    {
        let r = GuildMeta::with_ttl(DEFAULT_TTL);
        proof {
            assert(r@ =~= default_guild_view());
        }
        r
    }
}

impl GuildMeta {
    /// Internal consistency: no channel and no fingerprint occurs twice,
    /// and the window is a duration.
    pub closed spec fn wf(&self) -> bool {
        &&& forall|i: int, j: int|
            0 <= i < j < self.monitored_channels@.len() ==> self.monitored_channels@[i]
                != self.monitored_channels@[j]
        &&& distinct_keys(seen_pairs(self.seen@))
        &&& self.ttl >= 0
    }

    /// Fresh state with the given rejection window.
    pub fn with_ttl(ttl: i64) -> (r: GuildMeta)
        requires
            ttl >= 0,
        ensures
            r.wf(),
            r@.monitored == Set::<u64>::empty(),
            r@.seen == Map::<Seq<UnitView>, int>::empty(),
            r@.ttl == ttl as int,
    {
        let r = GuildMeta { monitored_channels: Vec::new(), seen: Vec::new(), ttl };
        proof {
            assert(r@.monitored =~= Set::<u64>::empty());
            assert(seen_pairs(r.seen@) =~= Seq::<(Seq<UnitView>, int)>::empty());
            assert(r@.seen =~= Map::<Seq<UnitView>, int>::empty());
        }
        r
    }

    /// Overrides the rejection window; channels and history are untouched.
    pub fn set_ttl(&mut self, ttl: i64)
        requires
            old(self).wf(),
            ttl >= 0,
        ensures
            final(self).wf(),
            final(self)@.ttl == ttl as int,
            final(self)@.monitored == old(self)@.monitored,
            final(self)@.seen == old(self)@.seen,
    {
        self.ttl = ttl;
    }

    /// Whether the channel is monitored in this community.
    pub fn contains_channel(&self, channel: u64) -> (r: bool)
        ensures
            r == self@.monitored.contains(channel),
    {
        let n = self.monitored_channels.len();
        let mut i: usize = 0;
        while i < n
            invariant
                i <= n,
                n == self.monitored_channels@.len(),
                forall|k: int| 0 <= k < i ==> self.monitored_channels@[k] != channel,
            decreases n - i,
        {
            if self.monitored_channels[i] == channel {
                proof {
                    lemma_to_set_index(self.monitored_channels@, channel);
                }
                return true;
            }
            i = i + 1;
        }
        proof {
            lemma_to_set_index(self.monitored_channels@, channel);
        }
        false
    }

    /// Flips whether the channel is monitored; true exactly when it was
    /// monitored and is now not. The seen table is untouched.
    pub fn toggle(&mut self, channel: u64) -> (was: bool)
        requires
            old(self).wf(),
        ensures
            final(self).wf(),
            was == old(self)@.monitored.contains(channel),
            final(self)@.monitored == (if was {
                old(self)@.monitored.remove(channel)
            } else {
                old(self)@.monitored.insert(channel)
            }),
            final(self)@.seen == old(self)@.seen,
            final(self)@.ttl == old(self)@.ttl,
    {
        let ghost chans = self.monitored_channels@;
        let n = self.monitored_channels.len();
        let mut i: usize = 0;
        while i < n
            invariant
                i <= n,
                old(self).wf(),
                self == old(self),
                self.monitored_channels@ == chans,
                n == chans.len(),
                forall|k: int| 0 <= k < i ==> chans[k] != channel,
            decreases n - i,
        {
            if self.monitored_channels[i] == channel {
                proof {
                    lemma_to_set_index(chans, channel);
                    lemma_to_set_remove(chans, i as int);
                }
                self.monitored_channels.remove(i);
                return true;
            }
            i = i + 1;
        }
        proof {
            lemma_to_set_index(chans, channel);
            lemma_to_set_push(chans, channel);
        }
        self.monitored_channels.push(channel);
        false
    }

    /// Classifies a message that reached this community and applies the
    /// decision to the seen table.
    pub fn evaluate(
        &mut self,
        channel: u64,
        author_is_bot: bool,
        content: &str,
        now: i64,
    ) -> (r: Result<MessageAccepted, MessageRejected>)
        requires
            old(self).wf(),
        ensures
            final(self).wf(),
            r == eval_result(old(self)@, channel, author_is_bot, fingerprint(content@), now as int),
            final(self)@.seen == eval_seen(
                old(self)@,
                channel,
                author_is_bot,
                fingerprint(content@),
                now as int,
            ),
            final(self)@.monitored == old(self)@.monitored,
            final(self)@.ttl == old(self)@.ttl,
    {
        if !self.contains_channel(channel) {
            return Ok(MessageAccepted::NotMonitored);
        }
        if author_is_bot {
            return Ok(MessageAccepted::Bot);
        }
        let fp = Message::from(content);
        let n = self.seen.len();
        let mut i: usize = 0;
        while i < n
            invariant
                i <= n,
                old(self).wf(),
                self == old(self),
                n == self.seen@.len(),
                fp@ == fingerprint(content@),
                old(self)@.monitored.contains(channel),
                !author_is_bot,
                forall|k: int| 0 <= k < i ==> seen_pairs(self.seen@)[k].0 != fp@,
            decreases n - i,
        {
            if self.seen[i].0.eq(&fp) {
                proof {
                    lemma_kv_get(seen_pairs(self.seen@), i as int);
                }
                let ts = self.seen[i].1;
                if (now as i128) < (ts as i128) + (self.ttl as i128) {
                    return Err(MessageRejected::Text);
                }
                let mut entry = self.seen.remove(i);
                entry.1 = now;
                self.seen.push(entry);
                proof {
                    let ghost newpairs = seen_pairs(self.seen@);
                    assert(newpairs =~= seen_pairs(old(self).seen@).remove(i as int).push(
                        (fp@, now as int),
                    ));
                    lemma_kv_remove_push(seen_pairs(old(self).seen@), i as int, now as int);
                }
                return Ok(MessageAccepted::Nominal);
            }
            i = i + 1;
        }
        proof {
            lemma_kv_absent(seen_pairs(self.seen@), fp@);
        }
        self.seen.push((fp, now));
        proof {
            assert(seen_pairs(self.seen@) =~= seen_pairs(old(self).seen@).push((fp@, now as int)));
            lemma_kv_push(seen_pairs(old(self).seen@), fingerprint(content@), now as int);
        }
        Ok(MessageAccepted::Nominal)
    }
}

/// The registry: one `GuildMeta` per community, created lazily.
pub struct MessageModel {
    guilds: Vec<(u64, GuildMeta)>,
}

/// The registry's entries, as community ids and state views.
pub open spec fn guild_pairs(s: Seq<(u64, GuildMeta)>) -> Seq<(u64, GuildView)> {
    s.map_values(|p: (u64, GuildMeta)| (p.0, p.1@))
}

impl View for MessageModel {
    type V = Map<u64, GuildView>;

    closed spec fn view(&self) -> Map<u64, GuildView> {
        kv_map(guild_pairs(self.guilds@))
    }
}

/// A community's state in the registry, or the untouched default where the
/// registry holds none.
pub open spec fn guild_or_default(m: Map<u64, GuildView>, guild: u64) -> GuildView {
    if m.dom().contains(guild) {
        m[guild]
    } else {
        default_guild_view()
    }
}

/// The classification the registry gives a message: no community or an
/// attachment passes it untouched; otherwise its community's state decides.
pub open spec fn model_eval_result(
    m: Map<u64, GuildView>,
    community: Option<u64>,
    channel: u64,
    is_bot: bool,
    has_attachment: bool,
    fp: Seq<UnitView>,
    now: int,
) -> Result<MessageAccepted, MessageRejected> {
    match community {
        Option::None => Ok(MessageAccepted::NotInGuild),
        Option::Some(g) => if has_attachment {
            Ok(MessageAccepted::HasAttachment)
        } else {
            eval_result(guild_or_default(m, g), channel, is_bot, fp, now)
        },
    }
}

/// The registry after classifying a message: untouched for messages without
/// a community or with an attachment; otherwise the community's entry is
/// resolved (created if absent) and its seen table updated by the decision.
pub open spec fn model_eval_state(
    m: Map<u64, GuildView>,
    community: Option<u64>,
    channel: u64,
    is_bot: bool,
    has_attachment: bool,
    fp: Seq<UnitView>,
    now: int,
) -> Map<u64, GuildView> {
    match community {
        Option::None => m,
        Option::Some(g) => if has_attachment {
            m
        } else {
            let g0 = guild_or_default(m, g);
            m.insert(g, GuildView { seen: eval_seen(g0, channel, is_bot, fp, now), ..g0 })
        },
    }
}

/// The registry after a monitor toggle: the community's entry is resolved
/// (created if absent) and the channel's membership flipped.
pub open spec fn toggle_state(m: Map<u64, GuildView>, guild: u64, channel: u64) -> Map<
    u64,
    GuildView,
> {
    let g0 = guild_or_default(m, guild);
    m.insert(
        guild,
        GuildView {
            monitored: if g0.monitored.contains(channel) {
                g0.monitored.remove(channel)
            } else {
                g0.monitored.insert(channel)
            },
            ..g0
        },
    )
}

impl Default for MessageModel {
    /// An empty registry.
    fn default() -> (r: MessageModel)
        ensures
            r.wf(),
            r@ == Map::<u64, GuildView>::empty(),
    {
        let r = MessageModel { guilds: Vec::new() };
        proof {
            assert(guild_pairs(r.guilds@) =~= Seq::<(u64, GuildView)>::empty());
            assert(r@ =~= Map::<u64, GuildView>::empty());
        }
        r
    }
}

impl MessageModel {
    /// Internal consistency: one entry per community, each entry consistent.
    pub closed spec fn wf(&self) -> bool {
        &&& distinct_keys(guild_pairs(self.guilds@))
        &&& forall|i: int| 0 <= i < self.guilds@.len() ==> (#[trigger] self.guilds@[i]).1.wf()
    }

    /// Removes and returns the community's state, or a fresh default if the
    /// registry holds none.
    fn take_guild(&mut self, guild: u64) -> (m: GuildMeta)
        requires
            old(self).wf(),
        ensures
            final(self).wf(),
            m.wf(),
            m@ == guild_or_default(old(self)@, guild),
            final(self)@ == old(self)@.remove(guild),
            forall|i: int|
                0 <= i < final(self).guilds@.len() ==> (#[trigger] final(self).guilds@[i]).0
                    != guild,
    {
        let n = self.guilds.len();
        let mut i: usize = 0;
        while i < n
            invariant
                i <= n,
                old(self).wf(),
                self == old(self),
                n == self.guilds@.len(),
                forall|k: int| 0 <= k < i ==> (#[trigger] self.guilds@[k]).0 != guild,
            decreases n - i,
        {
            if self.guilds[i].0 == guild {
                proof {
                    lemma_kv_get(guild_pairs(self.guilds@), i as int);
                    lemma_kv_remove(guild_pairs(self.guilds@), i as int);
                    assert(guild_pairs(self.guilds@.remove(i as int)) =~= guild_pairs(
                        self.guilds@,
                    ).remove(i as int));
                }
                let entry = self.guilds.remove(i);
                proof {
                    assert(self@ =~= old(self)@.remove(guild));
                    let s0 = old(self).guilds@;
                    let p = guild_pairs(s0);
                    assert forall|x: int| 0 <= x < s0.len() && x != i implies (#[trigger] s0[x]).0
                        != guild by {
                        assert(p[x].0 == s0[x].0);
                        assert(p[i as int].0 == guild);
                        if x < i as int {
                            assert(p[x].0 != p[i as int].0);
                        } else {
                            assert(p[i as int].0 != p[x].0);
                        }
                    }
                    assert(forall|x: int|
                        0 <= x < self.guilds@.len() ==> (#[trigger] self.guilds@[x]).0 != guild)
                        by {
                        assert(forall|x: int|
                            0 <= x < self.guilds@.len() ==> #[trigger] self.guilds@[x] == (if x
                                < i as int {
                                s0[x]
                            } else {
                                s0[x + 1]
                            }));
                    }
                }
                return entry.1;
            }
            i = i + 1;
        }
        proof {
            lemma_kv_absent(guild_pairs(self.guilds@), guild);
            assert(self@.remove(guild) =~= self@);
        }
        GuildMeta::with_ttl(DEFAULT_TTL)
    }

    /// Inserts a community's state; the registry must not hold the id yet.
    fn put_guild(&mut self, guild: u64, m: GuildMeta)
        requires
            old(self).wf(),
            m.wf(),
            forall|i: int|
                0 <= i < old(self).guilds@.len() ==> (#[trigger] old(self).guilds@[i]).0 != guild,
        ensures
            final(self).wf(),
            final(self)@ == old(self)@.insert(guild, m@),
    {
        proof {
            assert(forall|i: int|
                0 <= i < guild_pairs(self.guilds@).len() ==> (#[trigger] guild_pairs(
                    self.guilds@,
                )[i]).0 != guild);
            lemma_kv_push(guild_pairs(self.guilds@), guild, m@);
        }
        self.guilds.push((guild, m));
        proof {
            assert(guild_pairs(self.guilds@) =~= guild_pairs(old(self).guilds@).push((guild, m@)));
            assert(forall|i: int|
                0 <= i < self.guilds@.len() ==> (#[trigger] self.guilds@[i]).1.wf()) by {
                assert(forall|i: int|
                    0 <= i < old(self).guilds@.len() ==> self.guilds@[i] == old(
                        self,
                    ).guilds@[i]);
            }
        }
    }

    /// Ensures the community has an entry, creating the default lazily.
    pub fn init_guild(&mut self, guild: u64)
        requires
            old(self).wf(),
        ensures
            final(self).wf(),
            final(self)@ == (if old(self)@.dom().contains(guild) {
                old(self)@
            } else {
                old(self)@.insert(guild, default_guild_view())
            }),
    {
        let m = self.take_guild(guild);
        self.put_guild(guild, m);
        proof {
            if old(self)@.dom().contains(guild) {
                assert(self@ =~= old(self)@);
            } else {
                assert(self@ =~= old(self)@.insert(guild, default_guild_view()));
            }
        }
    }

    /// Overrides the community's rejection window, creating the entry if it
    /// is absent.
    pub fn set_guild_ttl(&mut self, guild: u64, ttl: i64)
        requires
            old(self).wf(),
            ttl >= 0,
        ensures
            final(self).wf(),
            final(self)@ == old(self)@.insert(
                guild,
                GuildView { ttl: ttl as int, ..guild_or_default(old(self)@, guild) },
            ),
    {
        let mut m = self.take_guild(guild);
        m.set_ttl(ttl);
        self.put_guild(guild, m);
        proof {
            assert(self@ =~= old(self)@.insert(
                guild,
                GuildView { ttl: ttl as int, ..guild_or_default(old(self)@, guild) },
            ));
        }
    }

    /// Attempts to insert the message: classifies it against its community
    /// and records the fingerprint exactly on a `Nominal` acceptance.
    pub fn insert_message(
        &mut self,
        community: Option<u64>,
        channel: u64,
        author_is_bot: bool,
        has_attachment: bool,
        content: &str,
        now: i64,
    ) -> (r: Result<MessageAccepted, MessageRejected>)
        requires
            old(self).wf(),
        ensures
            final(self).wf(),
            r == model_eval_result(
                old(self)@,
                community,
                channel,
                author_is_bot,
                has_attachment,
                fingerprint(content@),
                now as int,
            ),
            final(self)@ == model_eval_state(
                old(self)@,
                community,
                channel,
                author_is_bot,
                has_attachment,
                fingerprint(content@),
                now as int,
            ),
    {
        let guild = match community {
            Option::None => { return Ok(MessageAccepted::NotInGuild); },
            Option::Some(g) => g,
        };
        if has_attachment {
            return Ok(MessageAccepted::HasAttachment);
        }
        let mut meta = self.take_guild(guild);
        let r = meta.evaluate(channel, author_is_bot, content, now);
        self.put_guild(guild, meta);
        proof {
            let g0 = guild_or_default(old(self)@, guild);
            let fp = fingerprint(content@);
            assert(meta@ =~= (GuildView {
                seen: eval_seen(g0, channel, author_is_bot, fp, now as int),
                ..g0
            }));
            assert(self@ =~= model_eval_state(
                old(self)@,
                community,
                channel,
                author_is_bot,
                has_attachment,
                fp,
                now as int,
            ));
        }
        r
    }

    /// Flips whether the channel is monitored in the community; true exactly
    /// when it was monitored and is now not. History is kept either way.
    pub fn toggle_monitor(&mut self, guild: u64, channel: u64) -> (was: bool)
        requires
            old(self).wf(),
        ensures
            final(self).wf(),
            was == guild_or_default(old(self)@, guild).monitored.contains(channel),
            final(self)@ == toggle_state(old(self)@, guild, channel),
    {
        let mut meta = self.take_guild(guild);
        let was = meta.toggle(channel);
        self.put_guild(guild, meta);
        proof {
            assert(self@ =~= toggle_state(old(self)@, guild, channel));
        }
        was
    }

    /// Whether the channel is monitored in the community.
    pub fn is_monitored(&self, guild: u64, channel: u64) -> (r: bool)
        requires
            self.wf(),
        ensures
            r == (self@.dom().contains(guild) && self@[guild].monitored.contains(channel)),
    {
        let n = self.guilds.len();
        let mut i: usize = 0;
        while i < n
            invariant
                i <= n,
                self.wf(),
                n == self.guilds@.len(),
                forall|k: int| 0 <= k < i ==> (#[trigger] self.guilds@[k]).0 != guild,
            decreases n - i,
        {
            if self.guilds[i].0 == guild {
                proof {
                    lemma_kv_get(guild_pairs(self.guilds@), i as int);
                }
                return self.guilds[i].1.contains_channel(channel);
            }
            i = i + 1;
        }
        proof {
            lemma_kv_absent(guild_pairs(self.guilds@), guild);
        }
        false
    }
}

impl GuildMeta {
    /// Writes this state as its durable record: every seen fingerprint in
    /// its persisted string form with its instant, the monitored channels,
    /// and the window.
    pub fn to_record(&self) -> (r: GuildRecord)
        requires
            self.wf(),
        ensures
            load_meta_spec(r@) == Some(self@),
            r@.ttl == self@.ttl,
            r@.monitored.to_set() == self@.monitored,
            forall|i: int|
                0 <= i < r@.messages.len() ==> exists|fp: Seq<UnitView>|
                    {
                        &&& (#[trigger] r@.messages[i]).0 == enc_units(fp)
                        &&& self@.seen.dom().contains(fp)
                        &&& r@.messages[i].1 == self@.seen[fp]
                    },
    {
        let mut messages: Vec<(String, i64)> = Vec::new();
        let n = self.seen.len();
        let mut i: usize = 0;
        while i < n
            invariant
                i <= n,
                n == self.seen@.len(),
                self.wf(),
                messages@.len() == i,
                forall|k: int|
                    0 <= k < i ==> (#[trigger] messages@[k]).0@ == enc_units(
                        seen_pairs(self.seen@)[k].0,
                    ) && messages@[k].1 == self.seen@[k].1,
            decreases n - i,
        {
            let entry = &self.seen[i];
            let key = encode_units(&entry.0);
            messages.push((key, entry.1));
            i = i + 1;
        }
        let mut chans: Vec<u64> = Vec::new();
        let m = self.monitored_channels.len();
        let mut j: usize = 0;
        while j < m
            invariant
                j <= m,
                m == self.monitored_channels@.len(),
                chans@ == self.monitored_channels@.take(j as int),
            decreases m - j,
        {
            proof {
                assert(self.monitored_channels@.take(j as int + 1)
                    =~= self.monitored_channels@.take(j as int).push(
                    self.monitored_channels@[j as int],
                ));
            }
            chans.push(self.monitored_channels[j]);
            j = j + 1;
        }
        let r = GuildRecord { messages, monitored_channels: chans, ttl: self.ttl };
        proof {
            assert(chans@ =~= self.monitored_channels@);
            let pairs = seen_pairs(self.seen@);
            assert forall|k: int| 0 <= k < r@.messages.len() implies dec_units(
                (#[trigger] r@.messages[k]).0,
            ) is Some by {
                lemma_units_round_trip(pairs[k].0);
            }
            assert(decoded_pairs(r@.messages) =~= pairs) by {
                assert forall|k: int| 0 <= k < pairs.len() implies decoded_pairs(r@.messages)[k]
                    == pairs[k] by {
                    lemma_units_round_trip(pairs[k].0);
                }
            }
            assert(record_ok(r@));
            assert(loaded_guild(r@) =~= self@);
            assert forall|k: int| 0 <= k < r@.messages.len() implies exists|fp: Seq<UnitView>|
                {
                    &&& (#[trigger] r@.messages[k]).0 == enc_units(fp)
                    &&& self@.seen.dom().contains(fp)
                    &&& r@.messages[k].1 == self@.seen[fp]
                } by {
                let fp = pairs[k].0;
                lemma_kv_get(pairs, k);
                assert(r@.messages[k].0 == enc_units(fp) && self@.seen.dom()
                    .contains(fp) && r@.messages[k].1 == self@.seen[fp]);
            }
        }
        r
    }

    /// Loads a durable record, rejecting a malformed one: every fingerprint
    /// string must decode, and nothing may occur twice.
    pub fn from_record(rec: &GuildRecord) -> (r: Option<GuildMeta>)
        ensures
            (r is Some) == (load_meta_spec(rec@) is Some),
            r matches Some(g) ==> g.wf() && Some(g@) == load_meta_spec(rec@),
    {
        if rec.ttl < 0 {
            return None;
        }
        let n = rec.messages.len();
        let mut seen: Vec<(Message, i64)> = Vec::new();
        let mut i: usize = 0;
        while i < n
            invariant
                i <= n,
                n == rec.messages@.len(),
                seen@.len() == i,
                forall|k: int|
                    0 <= k < i ==> dec_units((#[trigger] rec@.messages[k]).0) is Some,
                seen_pairs(seen@) =~= decoded_pairs(rec@.messages.take(i as int)),
                distinct_keys(seen_pairs(seen@)),
            decreases n - i,
        {
            let entry = &rec.messages[i];
            let msg = match decode_units(entry.0.as_str()) {
                Some(m) => m,
                None => {
                    proof {
                        assert(rec@.messages[i as int].0 == entry.0@);
                        assert(!record_ok(rec@));
                    }
                    return None;
                },
            };
            let mut k: usize = 0;
            while k < i
                invariant
                    k <= i <= n,
                    i < n,
                    n == rec.messages@.len(),
                    seen@.len() == i,
                    msg@ == (match dec_units(rec@.messages[i as int].0) {
                        Option::Some(us) => us,
                        Option::None => Seq::<UnitView>::empty(),
                    }),
                    dec_units(rec@.messages[i as int].0) is Some,
                    seen_pairs(seen@) =~= decoded_pairs(rec@.messages.take(i as int)),
                    forall|x: int| 0 <= x < k ==> seen_pairs(seen@)[x].0 != msg@,
                decreases i - k,
            {
                if seen[k].0.eq(&msg) {
                    proof {
                        let dp = decoded_pairs(rec@.messages);
                        assert(rec@.messages.take(i as int)[k as int] == rec@.messages[k as int]);
                        assert(decoded_pairs(rec@.messages.take(i as int))[k as int].0 == dp[
                            k as int].0);
                        assert(seen_pairs(seen@)[k as int].0 == seen@[k as int].0@);
                        assert(dp[k as int].0 == msg@);
                        assert(dp[i as int].0 == msg@);
                        assert(!distinct_keys(dp));
                        assert(!record_ok(rec@));
                    }
                    return None;
                }
                k = k + 1;
            }
            proof {
                assert(seen_pairs(seen@.push((msg, entry.1))) =~= seen_pairs(seen@).push(
                    (msg@, entry.1 as int),
                ));
                assert(rec@.messages.take(i as int + 1) =~= rec@.messages.take(i as int).push(
                    rec@.messages[i as int],
                ));
                assert(decoded_pairs(rec@.messages.take(i as int + 1)) =~= decoded_pairs(
                    rec@.messages.take(i as int),
                ).push((msg@, entry.1 as int)));
            }
            let ts = entry.1;
            seen.push((msg, ts));
            i = i + 1;
        }
        let cn = rec.monitored_channels.len();
        let mut chans: Vec<u64> = Vec::new();
        let mut j: usize = 0;
        while j < cn
            invariant
                j <= cn,
                cn == rec.monitored_channels@.len(),
                chans@ == rec.monitored_channels@.take(j as int),
                forall|x: int, y: int|
                    0 <= x < y < j ==> rec.monitored_channels@[x] != rec.monitored_channels@[y],
            decreases cn - j,
        {
            let c = rec.monitored_channels[j];
            let mut k: usize = 0;
            while k < j
                invariant
                    k <= j < cn,
                    cn == rec.monitored_channels@.len(),
                    chans@ == rec.monitored_channels@.take(j as int),
                    c == rec.monitored_channels@[j as int],
                    forall|x: int|
                        0 <= x < k ==> rec.monitored_channels@[x] != rec.monitored_channels@[
                            j as int],
                decreases j - k,
            {
                proof {
                    assert(chans@[k as int] == rec.monitored_channels@[k as int]);
                }
                if chans[k] == c {
                    proof {
                        assert(rec@.monitored[k as int] == rec@.monitored[j as int]);
                        assert(!record_ok(rec@));
                    }
                    return None;
                }
                k = k + 1;
            }
            proof {
                assert(rec.monitored_channels@.take(j as int + 1)
                    =~= rec.monitored_channels@.take(j as int).push(
                    rec.monitored_channels@[j as int],
                ));
            }
            chans.push(c);
            j = j + 1;
        }
        proof {
            assert(rec@.messages.take(n as int) =~= rec@.messages);
            assert(chans@ =~= rec.monitored_channels@);
        }
        let g = GuildMeta { monitored_channels: chans, seen, ttl: rec.ttl };
        proof {
            assert(record_ok(rec@));
            assert(g@ =~= loaded_guild(rec@));
        }
        Some(g)
    }
}

impl MessageModel {
    /// Serializes every community to a durable record keyed by its id's
    /// canonical decimal string; loading the result reproduces the
    /// registry.
    pub fn save_all(&self) -> (r: Vec<(String, GuildRecord)>)
        requires
            self.wf(),
        ensures
            load_all_spec(records_view(r@)) == self@,
            forall|i: int|
                0 <= i < r@.len() ==> exists|g: u64|
                    {
                        &&& self@.dom().contains(g)
                        &&& (#[trigger] r@[i]).0@ == dec_str(g as nat)
                        &&& load_meta_spec(r@[i].1@) == Some(self@[g])
                    },
    {
        let mut out: Vec<(String, GuildRecord)> = Vec::new();
        let n = self.guilds.len();
        let mut i: usize = 0;
        proof {
            assert(records_view(out@) =~= Seq::<(Seq<char>, RecordView)>::empty());
            assert(load_all_spec(records_view(out@)) =~= Map::<u64, GuildView>::empty());
            assert(guild_pairs(self.guilds@.take(0)) =~= Seq::<(u64, GuildView)>::empty());
        }
        while i < n
            invariant
                i <= n,
                n == self.guilds@.len(),
                self.wf(),
                load_all_spec(records_view(out@)) == kv_map(guild_pairs(self.guilds@.take(
                    i as int,
                ))),
                forall|k: int|
                    0 <= k < out@.len() ==> exists|g: u64|
                        {
                            &&& self@.dom().contains(g)
                            &&& (#[trigger] out@[k]).0@ == dec_str(g as nat)
                            &&& load_meta_spec(out@[k].1@) == Some(self@[g])
                        },
            decreases n - i,
        {
            let ghost before = out@;
            let entry = &self.guilds[i];
            let key = render_u64(entry.0);
            let rec = entry.1.to_record();
            out.push((key, rec));
            proof {
                lemma_dec_round_trip(entry.0);
                lemma_kv_get(guild_pairs(self.guilds@), i as int);
                assert(records_view(out@) =~= records_view(before).push((key@, rec@)));
                assert(records_view(out@).drop_last() =~= records_view(before));
                assert(load_all_spec(records_view(out@)) == load_all_spec(records_view(before))
                    .insert(entry.0, entry.1@));
                assert(guild_pairs(self.guilds@.take(i as int + 1)) =~= guild_pairs(
                    self.guilds@.take(i as int),
                ).push((entry.0, entry.1@)));
                assert(guild_pairs(self.guilds@.take(i as int + 1)).drop_last() =~= guild_pairs(
                    self.guilds@.take(i as int),
                ));
                assert(guild_pairs(self.guilds@.take(i as int + 1)).last() == (entry.0, entry.1@));
                assert(kv_map(guild_pairs(self.guilds@.take(i as int + 1))) == kv_map(
                    guild_pairs(self.guilds@.take(i as int)),
                ).insert(entry.0, entry.1@));
                assert forall|k: int| 0 <= k < out@.len() implies exists|g: u64|
                    {
                        &&& self@.dom().contains(g)
                        &&& (#[trigger] out@[k]).0@ == dec_str(g as nat)
                        &&& load_meta_spec(out@[k].1@) == Some(self@[g])
                    } by {
                    if k < before.len() {
                        assert(out@[k] == before[k]);
                    } else {
                        let g = entry.0;
                        assert(out@[k].0@ == dec_str(g as nat) && self@.dom().contains(g)
                            && load_meta_spec(out@[k].1@) == Some(self@[g]));
                    }
                }
            }
            i = i + 1;
        }
        proof {
            assert(self.guilds@.take(n as int) =~= self.guilds@);
        }
        out
    }

    /// Rebuilds a registry from durable records: a record with an
    /// unparsable key or a malformed body is skipped, and never blocks the
    /// others.
    pub fn load_all(records: &Vec<(String, GuildRecord)>) -> (r: MessageModel)
        ensures
            r.wf(),
            r@ == load_all_spec(records_view(records@)),
    {
        let mut model = MessageModel::default();
        let n = records.len();
        let mut i: usize = 0;
        proof {
            assert(records_view(records@.take(0)) =~= Seq::<
                (Seq<char>, RecordView),
            >::empty());
        }
        while i < n
            invariant
                i <= n,
                n == records@.len(),
                model.wf(),
                model@ == load_all_spec(records_view(records@.take(i as int))),
            decreases n - i,
        {
            proof {
                assert(records@.take(i as int + 1) =~= records@.take(i as int).push(
                    records@[i as int],
                ));
                assert(records_view(records@.take(i as int + 1)) =~= records_view(
                    records@.take(i as int),
                ).push((records@[i as int].0@, records@[i as int].1@)));
                assert(records_view(records@.take(i as int + 1)).drop_last() =~= records_view(
                    records@.take(i as int),
                ));
            }
            let entry = &records[i];
            match parse_u64(entry.0.as_str()) {
                Some(id) => {
                    match GuildMeta::from_record(&entry.1) {
                        Some(meta) => {
                            let _ = model.take_guild(id);
                            model.put_guild(id, meta);
                            proof {
                                assert(model@ =~= load_all_spec(records_view(records@.take(
                                    i as int + 1,
                                ))));
                            }
                        },
                        None => {},
                    }
                },
                None => {},
            }
            i = i + 1;
        }
        proof {
            assert(records@.take(n as int) =~= records@);
        }
        model
    }
}

} // verus!
