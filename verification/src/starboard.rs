//! The starboard engine: once a message collects enough star reactions, a
//! mirror of it is posted to a configured channel; the mirror is edited as the
//! count changes and deleted when the count drops below the threshold again.
//!
//! The engine owns two in-memory tables (per-community configuration and
//! per-message tracking rows) and decides, for each reaction event, which
//! gateway action the caller should perform. Gateway calls themselves are
//! performed by the caller, which reports their outcome back through the
//! `record_*` methods; the claim-check `posting` flag keeps concurrent events
//! from producing a second mirror while a send is in flight.

use vstd::prelude::*;

use crate::text::{collapsed, dec_seq, u64_to_string, chars_to_string};

verus! {

/// Starboard configuration for one community: where mirrors go and how many
/// stars a message needs.
#[derive(Clone, Copy, Debug, PartialEq, Eq, Structural)]
pub struct ConfigRow {
    pub guild_id: u64,
    pub channel_id: u64,
    pub threshold: u32,
}

/// Tracking row for a message that reached the star threshold at some point.
/// `starboard_message_id` is `None` while no mirror exists; `posting` is the
/// claim-check flag marking a mirror send in flight.
#[derive(Clone, Copy, Debug, PartialEq, Eq, Structural)]
pub struct StarredRow {
    pub message_id: u64,
    pub guild_id: u64,
    pub channel_id: u64,
    pub starboard_message_id: Option<u64>,
    pub star_count: u64,
    pub posting: bool,
}

/// Gateway action requested after a reaction-added event.
#[derive(Clone, Copy, Debug, PartialEq, Eq, Structural)]
pub enum AddAction {
    /// Do nothing.
    Nothing,
    /// Edit the existing mirror message to show the new count.
    Edit { mirror_id: u64 },
    /// Send a new mirror message; report the outcome with
    /// [`StarboardStore::record_send_outcome`].
    Send,
}

/// Gateway action requested after a reaction-removed event.
#[derive(Clone, Copy, Debug, PartialEq, Eq, Structural)]
pub enum RemoveAction {
    /// Do nothing.
    Nothing,
    /// Edit the existing mirror message to show the new count.
    Edit { mirror_id: u64 },
    /// Delete the mirror message; report the outcome with
    /// [`StarboardStore::record_delete_outcome`].
    DeleteMirror { mirror_id: u64 },
}

/// First configuration row for `guild_id`, if any.
pub open spec fn find_config(cs: Seq<ConfigRow>, guild_id: u64) -> Option<ConfigRow>
    decreases cs.len(),
{
    if cs.len() == 0 {
        None
    } else if cs[0].guild_id == guild_id {
        Some(cs[0])
    } else {
        find_config(cs.drop_first(), guild_id)
    }
}

/// First tracking row for `message_id`, if any.
pub open spec fn find_starred(rows: Seq<StarredRow>, message_id: u64) -> Option<StarredRow>
    decreases rows.len(),
{
    if rows.len() == 0 {
        None
    } else if rows[0].message_id == message_id {
        Some(rows[0])
    } else {
        find_starred(rows.drop_first(), message_id)
    }
}

proof fn lemma_find_config_at(cs: Seq<ConfigRow>, guild_id: u64, i: int)
    requires
        0 <= i < cs.len(),
        cs[i].guild_id == guild_id,
        forall|j: int| 0 <= j < i ==> (#[trigger] cs[j]).guild_id != guild_id,
    ensures
        find_config(cs, guild_id) == Some(cs[i]),
    decreases i,
{
    if i > 0 {
        lemma_find_config_at(cs.drop_first(), guild_id, i - 1);
    }
}

proof fn lemma_find_config_none(cs: Seq<ConfigRow>, guild_id: u64)
    requires
        forall|j: int| 0 <= j < cs.len() ==> (#[trigger] cs[j]).guild_id != guild_id,
    ensures
        find_config(cs, guild_id) is None,
    decreases cs.len(),
{
    if cs.len() > 0 {
        lemma_find_config_none(cs.drop_first(), guild_id);
    }
}

proof fn lemma_find_starred_at(rows: Seq<StarredRow>, message_id: u64, i: int)
    requires
        0 <= i < rows.len(),
        rows[i].message_id == message_id,
        forall|j: int| 0 <= j < i ==> (#[trigger] rows[j]).message_id != message_id,
    ensures
        find_starred(rows, message_id) == Some(rows[i]),
    decreases i,
{
    if i > 0 {
        lemma_find_starred_at(rows.drop_first(), message_id, i - 1);
    }
}

proof fn lemma_find_starred_none(rows: Seq<StarredRow>, message_id: u64)
    requires
        forall|j: int| 0 <= j < rows.len() ==> (#[trigger] rows[j]).message_id != message_id,
    ensures
        find_starred(rows, message_id) is None,
    decreases rows.len(),
{
    if rows.len() > 0 {
        lemma_find_starred_none(rows.drop_first(), message_id);
    }
}

/// At most one configuration row per community, thresholds within `1..=100`.
pub open spec fn configs_wf(cs: Seq<ConfigRow>) -> bool {
    &&& forall|i: int, j: int|
        0 <= i < j < cs.len() ==> (#[trigger] cs[i]).guild_id != (#[trigger] cs[j]).guild_id
    &&& forall|i: int| 0 <= i < cs.len() ==> 1 <= (#[trigger] cs[i]).threshold <= 100
}

/// At most one tracking row per source message.
pub open spec fn starred_wf(rows: Seq<StarredRow>) -> bool {
    forall|i: int, j: int|
        0 <= i < j < rows.len() ==> (#[trigger] rows[i]).message_id != (#[trigger] rows[j]).message_id
}

/// The threshold actually stored for a requested value: absent means 3,
/// anything else is clamped to `1..=100`.
pub open spec fn clamp_threshold(threshold: Option<i32>) -> u32 {
    let t = match threshold {
        Some(t) => t,
        None => 3,
    };
    if t < 1 {
        1
    } else if t > 100 {
        100
    } else {
        t as u32
    }
}

/// `cs` with the row for `guild_id` replaced, or a fresh row appended.
pub open spec fn upsert_config(cs: Seq<ConfigRow>, row: ConfigRow) -> Seq<ConfigRow> {
    if find_config(cs, row.guild_id) is Some {
        cs.map_values(|c: ConfigRow| if c.guild_id == row.guild_id { row } else { c })
    } else {
        cs.push(row)
    }
}

/// `cs` without the first row for `guild_id`; under [`configs_wf`] that is the
/// only one.
pub open spec fn remove_config(cs: Seq<ConfigRow>, guild_id: u64) -> Seq<ConfigRow>
    decreases cs.len(),
{
    if cs.len() == 0 {
        cs
    } else if cs[0].guild_id == guild_id {
        cs.drop_first()
    } else {
        seq![cs[0]] + remove_config(cs.drop_first(), guild_id)
    }
}

proof fn lemma_remove_config_at(cs: Seq<ConfigRow>, guild_id: u64, i: int)
    requires
        0 <= i < cs.len(),
        cs[i].guild_id == guild_id,
        forall|j: int| 0 <= j < i ==> (#[trigger] cs[j]).guild_id != guild_id,
    ensures
        remove_config(cs, guild_id) == cs.remove(i),
    decreases i,
{
    if i == 0 {
        assert(cs.drop_first() =~= cs.remove(0));
    } else {
        lemma_remove_config_at(cs.drop_first(), guild_id, i - 1);
        assert(seq![cs[0]] + cs.drop_first().remove(i - 1) =~= cs.remove(i));
    }
}

proof fn lemma_remove_config_none(cs: Seq<ConfigRow>, guild_id: u64)
    requires
        forall|j: int| 0 <= j < cs.len() ==> (#[trigger] cs[j]).guild_id != guild_id,
    ensures
        remove_config(cs, guild_id) == cs,
    decreases cs.len(),
{
    if cs.len() > 0 {
        lemma_remove_config_none(cs.drop_first(), guild_id);
        assert(seq![cs[0]] + cs.drop_first() =~= cs);
    }
}

/// `rows` with the tracked count for `message_id` set to `star_count`.
pub open spec fn set_count(rows: Seq<StarredRow>, message_id: u64, star_count: u64) -> Seq<
    StarredRow,
> {
    rows.map_values(
        |r: StarredRow|
            if r.message_id == message_id {
                StarredRow { star_count, ..r }
            } else {
                r
            },
    )
}

/// `rows` with the claim-check flag for `message_id` set to `posting`.
pub open spec fn set_posting(rows: Seq<StarredRow>, message_id: u64, posting: bool) -> Seq<
    StarredRow,
> {
    rows.map_values(
        |r: StarredRow|
            if r.message_id == message_id {
                StarredRow { posting, ..r }
            } else {
                r
            },
    )
}

/// `rows` after a successful mirror send for `message_id`: the mirror id is
/// stored, the claim-check flag cleared, and the count refreshed.
pub open spec fn set_mirror(
    rows: Seq<StarredRow>,
    message_id: u64,
    mirror_id: u64,
    star_count: u64,
) -> Seq<StarredRow> {
    rows.map_values(
        |r: StarredRow|
            if r.message_id == message_id {
                StarredRow {
                    starboard_message_id: Some(mirror_id),
                    posting: false,
                    star_count,
                    ..r
                }
            } else {
                r
            },
    )
}

/// `rows` without the first row for `message_id`; under [`starred_wf`] that is
/// the only one.
pub open spec fn remove_starred(rows: Seq<StarredRow>, message_id: u64) -> Seq<StarredRow>
    decreases rows.len(),
{
    if rows.len() == 0 {
        rows
    } else if rows[0].message_id == message_id {
        rows.drop_first()
    } else {
        seq![rows[0]] + remove_starred(rows.drop_first(), message_id)
    }
}

proof fn lemma_remove_starred_at(rows: Seq<StarredRow>, message_id: u64, i: int)
    requires
        0 <= i < rows.len(),
        rows[i].message_id == message_id,
        forall|j: int| 0 <= j < i ==> (#[trigger] rows[j]).message_id != message_id,
    ensures
        remove_starred(rows, message_id) == rows.remove(i),
    decreases i,
{
    if i == 0 {
        assert(rows.drop_first() =~= rows.remove(0));
    } else {
        lemma_remove_starred_at(rows.drop_first(), message_id, i - 1);
        assert(seq![rows[0]] + rows.drop_first().remove(i - 1) =~= rows.remove(i));
    }
}

proof fn lemma_remove_starred_none(rows: Seq<StarredRow>, message_id: u64)
    requires
        forall|j: int| 0 <= j < rows.len() ==> (#[trigger] rows[j]).message_id != message_id,
    ensures
        remove_starred(rows, message_id) == rows,
    decreases rows.len(),
{
    if rows.len() > 0 {
        lemma_remove_starred_none(rows.drop_first(), message_id);
        assert(seq![rows[0]] + rows.drop_first() =~= rows);
    }
}

/// How a reaction-added event changes the tracking rows, and which gateway
/// action it asks for. The count seen by the event is the gateway's live star
/// count, which is the source of truth.
pub open spec fn star_add(
    rows: Seq<StarredRow>,
    guild_id: u64,
    channel_id: u64,
    message_id: u64,
    starboard_channel_id: u64,
    threshold: u32,
    author_is_bot: bool,
    star_count: u64,
) -> (Seq<StarredRow>, AddAction) {
    if author_is_bot && channel_id == starboard_channel_id {
        (rows, AddAction::Nothing)
    } else if star_count < threshold as u64 {
        (rows, AddAction::Nothing)
    } else {
        match find_starred(rows, message_id) {
            Some(row) => {
                let updated = set_count(rows, message_id, star_count);
                match row.starboard_message_id {
                    Some(mirror_id) => (updated, AddAction::Edit { mirror_id }),
                    None => if !row.posting {
                        (set_posting(updated, message_id, true), AddAction::Send)
                    } else {
                        (updated, AddAction::Nothing)
                    },
                }
            },
            None => (
                rows.push(
                    StarredRow {
                        message_id,
                        guild_id,
                        channel_id,
                        starboard_message_id: None,
                        star_count,
                        posting: true,
                    },
                ),
                AddAction::Send,
            ),
        }
    }
}

/// How the outcome of a mirror send changes the tracking rows: on success the
/// mirror id is stored and the claim released; on failure only the claim is
/// released, leaving the row postable again on the next event.
pub open spec fn star_record_send(
    rows: Seq<StarredRow>,
    message_id: u64,
    mirror: Option<u64>,
    star_count: u64,
) -> Seq<StarredRow> {
    match mirror {
        Some(mirror_id) => set_mirror(rows, message_id, mirror_id, star_count),
        None => set_posting(rows, message_id, false),
    }
}

/// How a reaction-removed event changes the tracking rows, and which gateway
/// action it asks for.
pub open spec fn star_remove(
    rows: Seq<StarredRow>,
    message_id: u64,
    threshold: u32,
    star_count: u64,
) -> (Seq<StarredRow>, RemoveAction) {
    match find_starred(rows, message_id) {
        None => (rows, RemoveAction::Nothing),
        Some(row) => if star_count < threshold as u64 {
            match row.starboard_message_id {
                Some(mirror_id) => (rows, RemoveAction::DeleteMirror { mirror_id }),
                None => if !row.posting {
                    (remove_starred(rows, message_id), RemoveAction::Nothing)
                } else {
                    (set_count(rows, message_id, star_count), RemoveAction::Nothing)
                },
            }
        } else {
            (
                set_count(rows, message_id, star_count),
                match row.starboard_message_id {
                    Some(mirror_id) => RemoveAction::Edit { mirror_id },
                    None => RemoveAction::Nothing,
                },
            )
        },
    }
}

/// How the outcome of a mirror delete changes the tracking rows: the row goes
/// away only once the mirror is confirmed gone; otherwise the count is
/// refreshed and the row stays for the next event to reconcile.
pub open spec fn star_record_delete(
    rows: Seq<StarredRow>,
    message_id: u64,
    deleted: bool,
    star_count: u64,
) -> Seq<StarredRow> {
    if deleted {
        remove_starred(rows, message_id)
    } else {
        set_count(rows, message_id, star_count)
    }
}

/// The single star glyph that the starboard reacts to.
pub open spec fn star_glyph() -> Seq<char> {
    seq!['\u{2b50}']
}

/// The two in-memory starboard tables.
pub struct StarboardStore {
    configs: Vec<ConfigRow>,
    starred: Vec<StarredRow>,
}

impl StarboardStore {
    /// The configuration rows, one per community.
    pub closed spec fn config_rows(&self) -> Seq<ConfigRow> {
        self.configs@
    }

    /// The tracking rows, one per starred message.
    pub closed spec fn starred_rows(&self) -> Seq<StarredRow> {
        self.starred@
    }

    pub open spec fn wf(&self) -> bool {
        configs_wf(self.config_rows()) && starred_wf(self.starred_rows())
    }

    /// An empty store: no configuration, nothing tracked.
    pub fn new() -> (s: Self)
        ensures
            s.config_rows() == Seq::<ConfigRow>::empty(),
            s.starred_rows() == Seq::<StarredRow>::empty(),
            s.wf(),
    {
        let s = StarboardStore { configs: Vec::new(), starred: Vec::new() };
        proof {
            assert(s.config_rows() =~= Seq::<ConfigRow>::empty());
            assert(s.starred_rows() =~= Seq::<StarredRow>::empty());
        }
        s
    }

    fn find_config_idx(&self, guild_id: u64) -> (r: Option<usize>)
        ensures
            match r {
                Some(i) => i < self.config_rows().len() && self.config_rows()[i as int].guild_id
                    == guild_id && find_config(self.config_rows(), guild_id) == Some(
                    self.config_rows()[i as int],
                ) && forall|j: int|
                    0 <= j < i ==> (#[trigger] self.config_rows()[j]).guild_id != guild_id,
                None => find_config(self.config_rows(), guild_id) is None,
            },
    {
        let n = self.configs.len();
        let mut i: usize = 0;
        while i < n
            invariant
                n == self.config_rows().len(),
                i <= n,
                forall|j: int| 0 <= j < i ==> (#[trigger] self.config_rows()[j]).guild_id != guild_id,
            decreases n - i,
        {
            if self.configs[i].guild_id == guild_id {
                proof {
                    lemma_find_config_at(self.config_rows(), guild_id, i as int);
                }
                return Some(i);
            }
            i = i + 1;
        }
        proof {
            lemma_find_config_none(self.config_rows(), guild_id);
        }
        None
    }

    fn find_starred_idx(&self, message_id: u64) -> (r: Option<usize>)
        ensures
            match r {
                Some(i) => i < self.starred_rows().len() && self.starred_rows()[i as int].message_id
                    == message_id && find_starred(self.starred_rows(), message_id) == Some(
                    self.starred_rows()[i as int],
                ) && forall|j: int|
                    0 <= j < i ==> (#[trigger] self.starred_rows()[j]).message_id != message_id,
                None => find_starred(self.starred_rows(), message_id) is None,
            },
    {
        let n = self.starred.len();
        let mut i: usize = 0;
        while i < n
            invariant
                n == self.starred_rows().len(),
                i <= n,
                forall|j: int|
                    0 <= j < i ==> (#[trigger] self.starred_rows()[j]).message_id != message_id,
            decreases n - i,
        {
            if self.starred[i].message_id == message_id {
                proof {
                    lemma_find_starred_at(self.starred_rows(), message_id, i as int);
                }
                return Some(i);
            }
            i = i + 1;
        }
        proof {
            lemma_find_starred_none(self.starred_rows(), message_id);
        }
        None
    }

    /// Enable (or reconfigure) the starboard for a community. An absent
    /// threshold means 3; any given value is clamped to `1..=100`.
    pub fn starboard_enable(&mut self, guild_id: u64, channel_id: u64, threshold: Option<i32>)
        requires
            old(self).wf(),
        ensures
            final(self).wf(),
            final(self).config_rows() == upsert_config(
                old(self).config_rows(),
                ConfigRow { guild_id, channel_id, threshold: clamp_threshold(threshold) },
            ),
            final(self).starred_rows() == old(self).starred_rows(),
    {
        let t: i32 = match threshold {
            Some(t) => t,
            None => 3,
        };
        let clamped: u32 = if t < 1 {
            1
        } else if t > 100 {
            100
        } else {
            t as u32
        };
        let row = ConfigRow { guild_id, channel_id, threshold: clamped };
        match self.find_config_idx(guild_id) {
            Some(i) => {
                self.configs[i] = row;
                proof {
                    let cs = old(self).config_rows();
                    assert(self.config_rows() =~= cs.map_values(
                        |c: ConfigRow| if c.guild_id == row.guild_id { row } else { c },
                    ));
                }
            },
            None => {
                proof {
                    lemma_find_config_none_keys(old(self).config_rows(), guild_id);
                }
                self.configs.push(row);
            },
        }
    }

    /// Disable the starboard for a community; its configuration row is gone
    /// afterwards.
    pub fn starboard_disable(&mut self, guild_id: u64)
        requires
            old(self).wf(),
        ensures
            final(self).wf(),
            final(self).config_rows() == remove_config(old(self).config_rows(), guild_id),
            final(self).starred_rows() == old(self).starred_rows(),
    {
        match self.find_config_idx(guild_id) {
            Some(i) => {
                proof {
                    lemma_remove_config_at(self.config_rows(), guild_id, i as int);
                }
                self.configs.remove(i);
                proof {
                    let cs = old(self).config_rows();
                    let fr = self.config_rows();
                    assert forall|k1: int, k2: int| 0 <= k1 < k2 < fr.len() implies (
                    #[trigger] fr[k1]).guild_id != (#[trigger] fr[k2]).guild_id by {
                        let o1: int = if k1 < i { k1 } else { k1 + 1 };
                        let o2: int = if k2 < i { k2 } else { k2 + 1 };
                        assert(fr[k1] == cs[o1]);
                        assert(fr[k2] == cs[o2]);
                    }
                    assert forall|k: int| 0 <= k < fr.len() implies 1 <= (
                    #[trigger] fr[k]).threshold <= 100 by {
                        let o: int = if k < i { k } else { k + 1 };
                        assert(fr[k] == cs[o]);
                    }
                }
            },
            None => {
                proof {
                    lemma_find_config_none_keys(self.config_rows(), guild_id);
                    lemma_remove_config_none(self.config_rows(), guild_id);
                }
            },
        }
    }

    /// Current starboard configuration for a community, as
    /// `(channel, threshold)`.
    pub fn starboard_config(&self, guild_id: u64) -> (r: Option<(u64, u32)>)
        ensures
            r == match find_config(self.config_rows(), guild_id) {
                Some(c) => Some((c.channel_id, c.threshold)),
                None => None::<(u64, u32)>,
            },
    {
        match self.find_config_idx(guild_id) {
            Some(i) => {
                let c = self.configs[i];
                Some((c.channel_id, c.threshold))
            },
            None => None,
        }
    }

    /// First gate for a reaction event: only the star glyph counts, only
    /// inside a community, and only where a starboard is configured. Returns
    /// the configured `(channel, threshold)` when the event should go on.
    pub fn reaction_precheck(&self, emoji: &str, guild_id: Option<u64>) -> (r: Option<(u64, u32)>)
        ensures
            r == if emoji@ == star_glyph() {
                match guild_id {
                    Some(g) => match find_config(self.config_rows(), g) {
                        Some(c) => Some((c.channel_id, c.threshold)),
                        None => None::<(u64, u32)>,
                    },
                    None => None::<(u64, u32)>,
                }
            } else {
                None::<(u64, u32)>
            },
    {
        if !is_star_emoji(emoji) {
            return None;
        }
        match guild_id {
            Some(g) => self.starboard_config(g),
            None => None,
        }
    }

    /// Applies a reaction-added event, once the source message has been
    /// fetched, and says which gateway action to perform. A message the bot
    /// itself posted in the starboard channel never spawns a mirror; below the
    /// threshold nothing happens; otherwise the tracking row is created or
    /// refreshed and a mirror send is claimed at most once.
    pub fn reaction_add_apply(
        &mut self,
        guild_id: u64,
        channel_id: u64,
        message_id: u64,
        starboard_channel_id: u64,
        threshold: u32,
        author_is_bot: bool,
        star_count: u64,
    ) -> (a: AddAction)
        requires
            old(self).wf(),
        ensures
            final(self).wf(),
            final(self).config_rows() == old(self).config_rows(),
            (final(self).starred_rows(), a) == star_add(
                old(self).starred_rows(),
                guild_id,
                channel_id,
                message_id,
                starboard_channel_id,
                threshold,
                author_is_bot,
                star_count,
            ),
    {
        if author_is_bot && channel_id == starboard_channel_id {
            return AddAction::Nothing;
        }
        if star_count < threshold as u64 {
            return AddAction::Nothing;
        }
        let ghost rows0 = self.starred_rows();
        match self.find_starred_idx(message_id) {
            Some(i) => {
                let row = self.starred[i];
                let mut updated = row;
                updated.star_count = star_count;
                self.starred[i] = updated;
                proof {
                    self.lemma_distinct_keys(rows0, i as int, message_id);
                    assert(self.starred_rows() =~= set_count(rows0, message_id, star_count));
                    assert(self.keys_unchanged(rows0));
                }
                match row.starboard_message_id {
                    Some(mirror_id) => AddAction::Edit { mirror_id },
                    None => {
                        if !row.posting {
                            let ghost rows1 = self.starred_rows();
                            let mut claimed = updated;
                            claimed.posting = true;
                            self.starred[i] = claimed;
                            proof {
                                assert(self.starred_rows() =~= set_posting(
                                    rows1,
                                    message_id,
                                    true,
                                ));
                                assert(self.keys_unchanged(rows0));
                            }
                            AddAction::Send
                        } else {
                            AddAction::Nothing
                        }
                    },
                }
            },
            None => {
                proof {
                    lemma_find_starred_none_keys(rows0, message_id);
                }
                self.starred.push(
                    StarredRow {
                        message_id,
                        guild_id,
                        channel_id,
                        starboard_message_id: None,
                        star_count,
                        posting: true,
                    },
                );
                AddAction::Send
            },
        }
    }

    /// Records the outcome of the mirror send that a [`AddAction::Send`]
    /// asked for. On success the mirror id is stored and the claim released;
    /// on failure only the claim is released.
    pub fn record_send_outcome(&mut self, message_id: u64, mirror: Option<u64>, star_count: u64)
        requires
            old(self).wf(),
        ensures
            final(self).wf(),
            final(self).config_rows() == old(self).config_rows(),
            final(self).starred_rows() == star_record_send(
                old(self).starred_rows(),
                message_id,
                mirror,
                star_count,
            ),
    {
        let ghost rows0 = self.starred_rows();
        match self.find_starred_idx(message_id) {
            Some(i) => {
                let row = self.starred[i];
                let mut updated = row;
                match mirror {
                    Some(mirror_id) => {
                        updated.starboard_message_id = Some(mirror_id);
                        updated.posting = false;
                        updated.star_count = star_count;
                        self.starred[i] = updated;
                        proof {
                            self.lemma_distinct_keys(rows0, i as int, message_id);
                            assert(self.starred_rows() =~= set_mirror(
                                rows0,
                                message_id,
                                mirror_id,
                                star_count,
                            ));
                            assert(self.keys_unchanged(rows0));
                        }
                    },
                    None => {
                        updated.posting = false;
                        self.starred[i] = updated;
                        proof {
                            self.lemma_distinct_keys(rows0, i as int, message_id);
                            assert(self.starred_rows() =~= set_posting(rows0, message_id, false));
                            assert(self.keys_unchanged(rows0));
                        }
                    },
                }
            },
            None => {
                proof {
                    lemma_find_starred_none_keys(rows0, message_id);
                    assert(set_mirror(
                        rows0,
                        message_id,
                        mirror.unwrap_or(0),
                        star_count,
                    ) =~= rows0);
                    assert(set_posting(rows0, message_id, false) =~= rows0);
                }
            },
        }
    }

    /// Applies a reaction-removed event, once the live star count has been
    /// fetched, and says which gateway action to perform. The tracking row
    /// disappears only when there is nothing left to display: either the
    /// mirror delete is confirmed afterwards, or no mirror ever existed.
    pub fn reaction_remove_apply(&mut self, message_id: u64, threshold: u32, star_count: u64) -> (a:
        RemoveAction)
        requires
            old(self).wf(),
        ensures
            final(self).wf(),
            final(self).config_rows() == old(self).config_rows(),
            (final(self).starred_rows(), a) == star_remove(
                old(self).starred_rows(),
                message_id,
                threshold,
                star_count,
            ),
    {
        let ghost rows0 = self.starred_rows();
        match self.find_starred_idx(message_id) {
            None => RemoveAction::Nothing,
            Some(i) => {
                let row = self.starred[i];
                if star_count < threshold as u64 {
                    match row.starboard_message_id {
                        Some(mirror_id) => RemoveAction::DeleteMirror { mirror_id },
                        None => {
                            if !row.posting {
                                proof {
                                    lemma_remove_starred_at(rows0, message_id, i as int);
                                }
                                self.starred.remove(i);
                                proof {
                                    self.lemma_remove_keeps_wf(rows0, i as int);
                                }
                                RemoveAction::Nothing
                            } else {
                                let mut updated = row;
                                updated.star_count = star_count;
                                self.starred[i] = updated;
                                proof {
                                    self.lemma_distinct_keys(rows0, i as int, message_id);
                                    assert(self.starred_rows() =~= set_count(
                                        rows0,
                                        message_id,
                                        star_count,
                                    ));
                                    assert(self.keys_unchanged(rows0));
                                }
                                RemoveAction::Nothing
                            }
                        },
                    }
                } else {
                    let mut updated = row;
                    updated.star_count = star_count;
                    self.starred[i] = updated;
                    proof {
                        self.lemma_distinct_keys(rows0, i as int, message_id);
                        assert(self.starred_rows() =~= set_count(rows0, message_id, star_count));
                        assert(self.keys_unchanged(rows0));
                    }
                    match row.starboard_message_id {
                        Some(mirror_id) => RemoveAction::Edit { mirror_id },
                        None => RemoveAction::Nothing,
                    }
                }
            },
        }
    }

    /// Records the outcome of the mirror delete that a
    /// [`RemoveAction::DeleteMirror`] asked for. Only a confirmed delete
    /// removes the tracking row; otherwise the stored count is refreshed.
    pub fn record_delete_outcome(&mut self, message_id: u64, deleted: bool, star_count: u64)
        requires
            old(self).wf(),
        ensures
            final(self).wf(),
            final(self).config_rows() == old(self).config_rows(),
            final(self).starred_rows() == star_record_delete(
                old(self).starred_rows(),
                message_id,
                deleted,
                star_count,
            ),
    {
        let ghost rows0 = self.starred_rows();
        match self.find_starred_idx(message_id) {
            Some(i) => {
                if deleted {
                    proof {
                        lemma_remove_starred_at(rows0, message_id, i as int);
                    }
                    self.starred.remove(i);
                    proof {
                        self.lemma_remove_keeps_wf(rows0, i as int);
                    }
                } else {
                    let row = self.starred[i];
                    let mut updated = row;
                    updated.star_count = star_count;
                    self.starred[i] = updated;
                    proof {
                        self.lemma_distinct_keys(rows0, i as int, message_id);
                        assert(self.starred_rows() =~= set_count(rows0, message_id, star_count));
                        assert(self.keys_unchanged(rows0));
                    }
                }
            },
            None => {
                proof {
                    lemma_find_starred_none_keys(rows0, message_id);
                    lemma_remove_starred_none(rows0, message_id);
                    assert(set_count(rows0, message_id, star_count) =~= rows0);
                }
            },
        }
    }

    /// All row keys (and so uniqueness) are as in `rows0`.
    spec fn keys_unchanged(&self, rows0: Seq<StarredRow>) -> bool {
        &&& self.starred_rows().len() == rows0.len()
        &&& forall|j: int|
            0 <= j < rows0.len() ==> (#[trigger] self.starred_rows()[j]).message_id
                == rows0[j].message_id
    }

    /// Under [`starred_wf`], no row but `rows0[i]` carries `message_id`.
    proof fn lemma_distinct_keys(&self, rows0: Seq<StarredRow>, i: int, message_id: u64)
        requires
            starred_wf(rows0),
            0 <= i < rows0.len(),
            rows0[i].message_id == message_id,
        ensures
            forall|j: int|
                0 <= j < rows0.len() && j != i ==> (#[trigger] rows0[j]).message_id != message_id,
    {
        assert forall|j: int| 0 <= j < rows0.len() && j != i implies (
        #[trigger] rows0[j]).message_id != message_id by {
            if j < i {
                assert(rows0[j].message_id != rows0[i].message_id);
            } else {
                assert(rows0[i].message_id != rows0[j].message_id);
            }
        }
    }

    /// Removing one row of a well-formed table keeps it well-formed.
    proof fn lemma_remove_keeps_wf(&self, rows0: Seq<StarredRow>, i: int)
        requires
            starred_wf(rows0),
            0 <= i < rows0.len(),
            self.starred_rows() == rows0.remove(i),
        ensures
            starred_wf(self.starred_rows()),
    {
        let fr = self.starred_rows();
        assert forall|k1: int, k2: int| 0 <= k1 < k2 < fr.len() implies (
        #[trigger] fr[k1]).message_id != (#[trigger] fr[k2]).message_id by {
            let o1: int = if k1 < i {
                k1
            } else {
                k1 + 1
            };
            let o2: int = if k2 < i {
                k2
            } else {
                k2 + 1
            };
            assert(fr[k1] == rows0[o1]);
            assert(fr[k2] == rows0[o2]);
        }
    }
}

/// Whether `emoji` is exactly the star glyph.
pub fn is_star_emoji(emoji: &str) -> (r: bool)
    ensures
        r == (emoji@ == star_glyph()),
{
    let n = emoji.unicode_len();
    if n != 1 {
        proof {
            assert(star_glyph().len() == 1);
        }
        return false;
    }
    let c = emoji.get_char(0);
    proof {
        assert(star_glyph()[0] == '\u{2b50}');
        if c == '\u{2b50}' {
            assert(emoji@ =~= star_glyph());
        } else {
            assert(emoji@ != star_glyph());
        }
    }
    c == '\u{2b50}'
}

/// The footer of a mirror embed: the star glyph, a space, the current count.
pub open spec fn star_footer_spec(star_count: u64) -> Seq<char> {
    star_glyph() + seq![' '] + dec_seq(star_count as int)
}

/// Renders the mirror embed footer.
pub fn star_footer(star_count: u64) -> (r: String)
    ensures
        r@ == star_footer_spec(star_count),
{
    let num = u64_to_string(star_count);
    let mut out = String::from_str("\u{2b50} ");
    proof {
        reveal_strlit("\u{2b50} ");
        assert(out@ =~= star_glyph() + seq![' ']);
    }
    out.append(num.as_str());
    proof {
        assert(out@ =~= star_footer_spec(star_count));
    }
    out
}

/// The permalink a mirror message carries back to its source.
pub open spec fn message_link_spec(guild_id: u64, channel_id: u64, message_id: u64) -> Seq<char> {
    "https://discord.com/channels/"@ + dec_seq(guild_id as int) + seq!['/'] + dec_seq(
        channel_id as int,
    ) + seq!['/'] + dec_seq(message_id as int)
}

/// Renders the permalink of a message for the mirror's body.
pub fn message_link(guild_id: u64, channel_id: u64, message_id: u64) -> (r: String)
    ensures
        r@ == message_link_spec(guild_id, channel_id, message_id),
{
    let mut out = String::from_str("https://discord.com/channels/");
    let guild = u64_to_string(guild_id);
    let channel = u64_to_string(channel_id);
    let message = u64_to_string(message_id);
    out.append(guild.as_str());
    out.append("/");
    out.append(channel.as_str());
    out.append("/");
    out.append(message.as_str());
    proof {
        reveal_strlit("/");
        assert(out@ =~= message_link_spec(guild_id, channel_id, message_id));
    }
    out
}

/// The preview of a replied-to message shown inside a mirror embed:
/// whitespace runs collapse to single spaces, empty content becomes a
/// placeholder, and anything longer than 300 characters is cut off with an
/// ellipsis.
pub open spec fn summary_spec(content: Seq<char>, has_attachments: bool) -> Seq<char> {
    let c = collapsed(content, ' ');
    if c.len() == 0 {
        if has_attachments {
            "[attachment-only message]"@
        } else {
            "[no text content]"@
        }
    } else if c.len() > 300 {
        c.subrange(0, 300).push('\u{2026}')
    } else {
        c
    }
}

/// Renders the reply preview of a mirror embed.
pub fn summarized_message_content(content: &str, has_attachments: bool) -> (r: String)
    ensures
        r@ == summary_spec(content@, has_attachments),
{
    let mut v = crate::text::collapse_chars(content, ' ', false);
    if v.len() == 0 {
        if has_attachments {
            return String::from_str("[attachment-only message]");
        } else {
            return String::from_str("[no text content]");
        }
    }
    if v.len() > 300 {
        v.truncate(300);
        v.push('\u{2026}');
    }
    chars_to_string(&v)
}

/// Holds of the index carrying the first tracking row for `message_id`.
pub open spec fn first_starred_at(rows: Seq<StarredRow>, message_id: u64, i: int) -> bool {
    &&& 0 <= i < rows.len()
    &&& rows[i].message_id == message_id
    &&& forall|j: int| 0 <= j < i ==> (#[trigger] rows[j]).message_id != message_id
}

proof fn lemma_find_starred_index(rows: Seq<StarredRow>, message_id: u64)
    requires
        find_starred(rows, message_id) is Some,
    ensures
        exists|i: int|
            #[trigger] first_starred_at(rows, message_id, i) && find_starred(rows, message_id)
                == Some(rows[i]),
    decreases rows.len(),
{
    if rows[0].message_id == message_id {
        assert(first_starred_at(rows, message_id, 0));
    } else {
        lemma_find_starred_index(rows.drop_first(), message_id);
        let i0 = choose|i0: int|
            #[trigger] first_starred_at(rows.drop_first(), message_id, i0) && find_starred(
                rows.drop_first(),
                message_id,
            ) == Some(rows.drop_first()[i0]);
        assert forall|j: int| 0 <= j < i0 + 1 implies (#[trigger] rows[j]).message_id
            != message_id by {
            if j >= 1 {
                assert(rows[j] == rows.drop_first()[j - 1]);
            }
        }
        assert(first_starred_at(rows, message_id, i0 + 1));
    }
}

/// Law: repeated reaction-added events for one message never claim a second
/// mirror send while the first is in flight, and never claim one again after
/// the first send succeeded — however often the event repeats, at most one
/// mirror message comes into being.
pub proof fn lemma_starboard_add_idempotent(
    rows: Seq<StarredRow>,
    guild_id: u64,
    channel_id: u64,
    message_id: u64,
    starboard_channel_id: u64,
    threshold: u32,
    author_is_bot: bool,
    star_count: u64,
    mirror_id: u64,
)
    requires
        starred_wf(rows),
        star_add(
            rows,
            guild_id,
            channel_id,
            message_id,
            starboard_channel_id,
            threshold,
            author_is_bot,
            star_count,
        ).1 == AddAction::Send,
    ensures
        ({
            let rows1 = star_add(
                rows,
                guild_id,
                channel_id,
                message_id,
                starboard_channel_id,
                threshold,
                author_is_bot,
                star_count,
            ).0;
            // while the send is still in flight, the event repeats without sending
            &&& star_add(
                rows1,
                guild_id,
                channel_id,
                message_id,
                starboard_channel_id,
                threshold,
                author_is_bot,
                star_count,
            ).1 != AddAction::Send
            // and once the send succeeded, further events only edit the mirror
            &&& star_add(
                star_record_send(rows1, message_id, Some(mirror_id), star_count),
                guild_id,
                channel_id,
                message_id,
                starboard_channel_id,
                threshold,
                author_is_bot,
                star_count,
            ).1 == AddAction::Edit { mirror_id }
        }),
{
    let rows1 = star_add(
        rows,
        guild_id,
        channel_id,
        message_id,
        starboard_channel_id,
        threshold,
        author_is_bot,
        star_count,
    ).0;
    let rows2 = star_record_send(rows1, message_id, Some(mirror_id), star_count);
    match find_starred(rows, message_id) {
        Some(row) => {
            lemma_find_starred_index(rows, message_id);
            let i = choose|i: int|
                #[trigger] first_starred_at(rows, message_id, i) && find_starred(rows, message_id)
                    == Some(rows[i]);
            assert forall|j: int| 0 <= j < i implies (#[trigger] rows1[j]).message_id
                != message_id by {
                assert(rows[j].message_id != message_id);
            }
            lemma_find_starred_at(rows1, message_id, i);
            assert forall|j: int| 0 <= j < i implies (#[trigger] rows2[j]).message_id
                != message_id by {
                assert(rows1[j].message_id != message_id);
            }
            lemma_find_starred_at(rows2, message_id, i);
        },
        None => {
            lemma_find_starred_none_keys(rows, message_id);
            let n = rows.len() as int;
            lemma_find_starred_at(rows1, message_id, n);
            assert forall|j: int| 0 <= j < n implies (#[trigger] rows2[j]).message_id
                != message_id by {
                assert(rows1[j].message_id != message_id);
            }
            lemma_find_starred_at(rows2, message_id, n);
        },
    }
}

/// Law: a star placed on the bot's own mirror message in the starboard
/// channel changes nothing and never spawns another mirror.
pub proof fn lemma_starboard_no_self_loop(
    rows: Seq<StarredRow>,
    guild_id: u64,
    channel_id: u64,
    message_id: u64,
    starboard_channel_id: u64,
    threshold: u32,
    star_count: u64,
)
    requires
        channel_id == starboard_channel_id,
    ensures
        star_add(
            rows,
            guild_id,
            channel_id,
            message_id,
            starboard_channel_id,
            threshold,
            true,
            star_count,
        ) == (rows, AddAction::Nothing),
{
}

/// Law: a message whose count crosses the threshold, drops below it, and
/// rises again goes through exactly the sequence create, delete, create of
/// mirror messages, with its tracking row absent between the delete and the
/// next create.
pub proof fn lemma_starboard_hysteresis(
    rows: Seq<StarredRow>,
    guild_id: u64,
    channel_id: u64,
    message_id: u64,
    starboard_channel_id: u64,
    threshold: u32,
    author_is_bot: bool,
    count_up: u64,
    count_down: u64,
    count_again: u64,
    mirror_id: u64,
)
    requires
        find_starred(rows, message_id) is None,
        !(author_is_bot && channel_id == starboard_channel_id),
        count_up >= threshold as u64,
        count_down < threshold as u64,
        count_again >= threshold as u64,
    ensures
        ({
            let (rows1, first) = star_add(
                rows,
                guild_id,
                channel_id,
                message_id,
                starboard_channel_id,
                threshold,
                author_is_bot,
                count_up,
            );
            let rows2 = star_record_send(rows1, message_id, Some(mirror_id), count_up);
            let (rows3, second) = star_remove(rows2, message_id, threshold, count_down);
            let rows4 = star_record_delete(rows3, message_id, true, count_down);
            let (rows5, third) = star_add(
                rows4,
                guild_id,
                channel_id,
                message_id,
                starboard_channel_id,
                threshold,
                author_is_bot,
                count_again,
            );
            &&& first == AddAction::Send
            &&& second == (RemoveAction::DeleteMirror { mirror_id })
            &&& find_starred(rows4, message_id) is None
            &&& third == AddAction::Send
        }),
{
    lemma_find_starred_none_keys(rows, message_id);
    let (rows1, first) = star_add(
        rows,
        guild_id,
        channel_id,
        message_id,
        starboard_channel_id,
        threshold,
        author_is_bot,
        count_up,
    );
    let n = rows.len() as int;
    let rows2 = star_record_send(rows1, message_id, Some(mirror_id), count_up);
    lemma_find_starred_at(rows1, message_id, n);
    assert forall|j: int| 0 <= j < n implies (#[trigger] rows2[j]).message_id != message_id by {
        assert(rows1[j].message_id != message_id);
    }
    lemma_find_starred_at(rows2, message_id, n);
    let (rows3, second) = star_remove(rows2, message_id, threshold, count_down);
    let rows4 = star_record_delete(rows3, message_id, true, count_down);
    lemma_remove_starred_at(rows3, message_id, n);
    assert forall|j: int| 0 <= j < rows4.len() implies (#[trigger] rows4[j]).message_id
        != message_id by {
        assert(rows4[j] == rows2[j]);
        assert(rows1[j].message_id != message_id);
    }
    lemma_find_starred_none(rows4, message_id);
}

proof fn lemma_find_config_none_keys(cs: Seq<ConfigRow>, guild_id: u64)
    requires
        find_config(cs, guild_id) is None,
    ensures
        forall|j: int| 0 <= j < cs.len() ==> (#[trigger] cs[j]).guild_id != guild_id,
    decreases cs.len(),
{
    if cs.len() > 0 {
        lemma_find_config_none_keys(cs.drop_first(), guild_id);
        assert forall|j: int| 0 <= j < cs.len() implies (#[trigger] cs[j]).guild_id != guild_id by {
            if j >= 1 {
                assert(cs[j] == cs.drop_first()[j - 1]);
            }
        }
    }
}

proof fn lemma_find_starred_none_keys(rows: Seq<StarredRow>, message_id: u64)
    requires
        find_starred(rows, message_id) is None,
    ensures
        forall|j: int| 0 <= j < rows.len() ==> (#[trigger] rows[j]).message_id != message_id,
    decreases rows.len(),
{
    if rows.len() > 0 {
        lemma_find_starred_none_keys(rows.drop_first(), message_id);
        assert forall|j: int| 0 <= j < rows.len() implies (#[trigger] rows[j]).message_id
            != message_id by {
            if j >= 1 {
                assert(rows[j] == rows.drop_first()[j - 1]);
            }
        }
    }
}

} // verus!
