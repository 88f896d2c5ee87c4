//! In-process publish/subscribe and the command registry. Subscribers are
//! identified by fresh opaque ids; delivery order within one event type is
//! subscription order, and no order is promised across types. The bus hands
//! back the subscriber ids to deliver to; invoking the callbacks themselves
//! is the caller's business.

use vstd::prelude::*;
use crate::semver::{all_digits, digits_value};
use crate::strutil::{dec_str, lemma_dec_str_props};
use crate::strutil::{self, seq_views, opt_view};
use crate::plugin::clone_opt_string;

verus! {

/// The kinds of events the host dispatches and extensions may emit.
#[derive(Clone, Copy, PartialEq, Eq, Structural, Debug, Hash)]
pub enum EventType {
    FileOpen,
    FileSave,
    FileCreate,
    FileDelete,
    FileRename,
    VaultSwitch,
    EditorChange,
    ShowNotice,
    PluginMessage,
    CommandExecute,
}

/// A tagged event: its type and a payload document carried as text.
pub struct Event {
    pub event_type: EventType,
    pub data: String,
}

impl View for Event {
    type V = (EventType, Seq<char>);

    open spec fn view(&self) -> (EventType, Seq<char>) {
        (self.event_type, self.data@)
    }
}

impl Clone for Event {
    fn clone(&self) -> (r: Self)
        ensures
            r@ == self@,
    {
        Event { event_type: self.event_type, data: self.data.clone() }
    }
}

/// A command registered by an extension.
pub struct Command {
    pub id: String,
    pub name: String,
    pub description: Option<String>,
    pub hotkey: Option<String>,
}

/// Mathematical image of a command.
pub struct CommandView {
    pub id: Seq<char>,
    pub name: Seq<char>,
    pub description: Option<Seq<char>>,
    pub hotkey: Option<Seq<char>>,
}

impl View for Command {
    type V = CommandView;

    open spec fn view(&self) -> CommandView {
        CommandView {
            id: self.id@,
            name: self.name@,
            description: opt_view(self.description),
            hotkey: opt_view(self.hotkey),
        }
    }
}

impl Clone for Command {
    fn clone(&self) -> (r: Self)
        ensures
            r@ == self@,
    {
        Command {
            id: self.id.clone(),
            name: self.name.clone(),
            description: clone_opt_string(&self.description),
            hotkey: clone_opt_string(&self.hotkey),
        }
    }
}

/// One live subscription: its opaque id and the event type it listens to.
pub struct Subscription {
    pub id: String,
    pub event_type: EventType,
}

/// A command registry entry under its full key.
pub struct CommandEntry {
    pub key: String,
    pub command: Command,
}

/// Views of the subscription list.
pub open spec fn subs_view(s: Seq<Subscription>) -> Seq<(Seq<char>, EventType)> {
    s.map_values(|sub: Subscription| (sub.id@, sub.event_type))
}

/// A well-formed subscription id for a bus whose counter is `n`: the fixed
/// prefix and a decimal suffix below `n`.
pub open spec fn sub_id_wf(s: Seq<char>, n: u64) -> bool {
    s.len() > 4 && s.take(4) == "sub_"@ && all_digits(s.skip(4)) && digits_value(s.skip(4)) < n
}

/// The subscriber ids registered for one event type, in subscription order.
pub open spec fn subs_for(s: Seq<(Seq<char>, EventType)>, t: EventType) -> Seq<Seq<char>>
    decreases s.len(),
{
    if s.len() == 0 {
        Seq::empty()
    } else {
        subs_for(s.drop_last(), t) + if s.last().1 == t {
            seq![s.last().0]
        } else {
            Seq::empty()
        }
    }
}

/// The subscription list without a given id.
pub open spec fn subs_without(s: Seq<(Seq<char>, EventType)>, id: Seq<char>) -> Seq<
    (Seq<char>, EventType),
>
    decreases s.len(),
{
    if s.len() == 0 {
        Seq::empty()
    } else {
        subs_without(s.drop_last(), id) + if s.last().0 == id {
            Seq::empty()
        } else {
            seq![s.last()]
        }
    }
}

/// Removing an id that nothing carries removes nothing.
pub proof fn lemma_subs_without_absent(s: Seq<(Seq<char>, EventType)>, id: Seq<char>)
    requires
        forall|k: int| 0 <= k < s.len() ==> (#[trigger] s[k]).0 != id,
    ensures
        subs_without(s, id) == s,
    decreases s.len(),
{
    if s.len() > 0 {
        lemma_subs_without_absent(s.drop_last(), id);
        assert(s.drop_last().len() == s.len() - 1);
        assert(forall|k: int| 0 <= k < s.len() - 1 ==> (#[trigger] s.drop_last()[k]) == s[k]);
        assert(s.last() == s[s.len() - 1]);
        assert(subs_without(s, id) =~= s);
    }
}

/// The command registry as a map from full key to command.
pub open spec fn cmds_map(s: Seq<CommandEntry>) -> Map<Seq<char>, CommandView>
    decreases s.len(),
{
    if s.len() == 0 {
        Map::empty()
    } else {
        cmds_map(s.drop_last()).insert(s.last().key@, s.last().command@)
    }
}

/// Keys of the command entries are pairwise distinct.
pub open spec fn cmd_keys_distinct(s: Seq<CommandEntry>) -> bool {
    forall|i: int, j: int|
        #![trigger s[i], s[j]]
        0 <= i < j < s.len() ==> s[i].key@ != s[j].key@
}

/// With distinct keys, the map reads back exactly the entries.
pub proof fn lemma_cmds_map_index(s: Seq<CommandEntry>, k: int)
    requires
        cmd_keys_distinct(s),
        0 <= k < s.len(),
    ensures
        cmds_map(s).contains_key(s[k].key@),
        cmds_map(s)[s[k].key@] == s[k].command@,
    decreases s.len(),
{
    if k < s.len() - 1 {
        assert(cmd_keys_distinct(s.drop_last())) by {
            assert(forall|i: int|
                0 <= i < s.len() - 1 ==> (#[trigger] s.drop_last()[i]) == s[i]);
        }
        assert(s.drop_last()[k] == s[k]);
        lemma_cmds_map_index(s.drop_last(), k);
        assert(s[k].key@ != s.last().key@) by {
            assert(s.last() == s[s.len() - 1]);
        }
    }
}

/// A key no entry carries is not in the map.
pub proof fn lemma_cmds_map_absent(s: Seq<CommandEntry>, x: Seq<char>)
    requires
        forall|k: int| 0 <= k < s.len() ==> (#[trigger] s[k]).key@ != x,
    ensures
        !cmds_map(s).contains_key(x),
    decreases s.len(),
{
    if s.len() > 0 {
        assert(forall|k: int| 0 <= k < s.len() - 1 ==> (#[trigger] s.drop_last()[k]) == s[k]);
        lemma_cmds_map_absent(s.drop_last(), x);
        assert(s.last() == s[s.len() - 1]);
    }
}

/// Updating the entry that holds a key updates exactly that key.
pub proof fn lemma_cmds_map_update(s: Seq<CommandEntry>, k: int, e: CommandEntry)
    requires
        cmd_keys_distinct(s),
        0 <= k < s.len(),
        e.key@ == s[k].key@,
    ensures
        cmds_map(s.update(k, e)) == cmds_map(s).insert(e.key@, e.command@),
    decreases s.len(),
{
    let s2 = s.update(k, e);
    if k == s.len() - 1 {
        assert(s2.drop_last() =~= s.drop_last());
        assert(s2.last() == e);
        assert(cmds_map(s2) == cmds_map(s.drop_last()).insert(e.key@, e.command@));
        assert(cmds_map(s) == cmds_map(s.drop_last()).insert(s.last().key@, s.last().command@));
        assert(cmds_map(s).insert(e.key@, e.command@) =~= cmds_map(s.drop_last()).insert(
            e.key@,
            e.command@,
        ));
    } else {
        assert(cmd_keys_distinct(s.drop_last())) by {
            assert(forall|i: int|
                0 <= i < s.len() - 1 ==> (#[trigger] s.drop_last()[i]) == s[i]);
        }
        assert(s2.drop_last() =~= s.drop_last().update(k, e));
        assert(s2.last() == s.last());
        lemma_cmds_map_update(s.drop_last(), k, e);
        assert(s.last().key@ != e.key@) by {
            assert(s.last() == s[s.len() - 1]);
            assert(s[k].key@ != s[s.len() - 1].key@);
        }
        assert(cmds_map(s2) == cmds_map(s.drop_last()).insert(e.key@, e.command@).insert(
            s.last().key@,
            s.last().command@,
        ));
        assert(cmds_map(s.drop_last()).insert(e.key@, e.command@).insert(
            s.last().key@,
            s.last().command@,
        ) =~= cmds_map(s).insert(e.key@, e.command@));
    }
}

/// The event bus: live subscriptions, the command registry, and the counter
/// that mints fresh subscription ids.
pub struct EventBus {
    pub subs: Vec<Subscription>,
    pub commands: Vec<CommandEntry>,
    pub next_id: u64,
}

impl EventBus {
    /// Bus invariant: every subscription id was minted below the current
    /// counter (so fresh ids never collide), and command keys are unique.
    pub open spec fn wf(&self) -> bool {
        &&& (forall|k: int|
            0 <= k < self.subs@.len() ==> sub_id_wf(
                (#[trigger] self.subs@[k]).id@,
                self.next_id,
            ))
        &&& cmd_keys_distinct(self.commands@)
    }

    /// The live subscriptions, in subscription order.
    pub open spec fn subs(&self) -> Seq<(Seq<char>, EventType)> {
        subs_view(self.subs@)
    }

    /// The registered commands by full key.
    pub open spec fn commands(&self) -> Map<Seq<char>, CommandView> {
        cmds_map(self.commands@)
    }

    /// An empty bus.
    pub fn new() -> (r: Self)
        ensures
            r.wf(),
            r.subs() =~= Seq::<(Seq<char>, EventType)>::empty(),
            r.commands() =~= Map::<Seq<char>, CommandView>::empty(),
            r.next_id == 0,
    {
        let r = EventBus { subs: Vec::new(), commands: Vec::new(), next_id: 0 };
        proof {
            assert(subs_view(r.subs@) =~= Seq::<(Seq<char>, EventType)>::empty());
        }
        r
    }

    /// Subscribe to an event type, returning a fresh opaque subscription id
    /// that no live subscription carries.
    pub fn subscribe(&mut self, event_type: EventType) -> (id: String)
        requires
            old(self).wf(),
            old(self).next_id < u64::MAX,
        ensures
            final(self).wf(),
            final(self).subs() == old(self).subs().push((id@, event_type)),
            final(self).commands() == old(self).commands(),
            final(self).next_id == old(self).next_id + 1,
            id@ == "sub_"@ + dec_str(old(self).next_id as nat),
            id@.len() > 4 && id@.take(4) == "sub_"@,
            all_digits(id@.skip(4)) && digits_value(id@.skip(4)) == old(self).next_id,
            forall|k: int| 0 <= k < old(self).subs().len() ==> (#[trigger] old(self).subs()[k]).0
                != id@,
    {
        let suffix = strutil::u64_to_dec(self.next_id);
        let mut id = String::new();
        id.append("sub_");
        id.append(suffix.as_str());
        proof {
            reveal_strlit("sub_");
            lemma_dec_str_props(self.next_id as nat);
            assert(id@ == "sub_"@ + suffix@);
            assert(id@.take(4) =~= "sub_"@);
            assert(id@.skip(4) =~= suffix@);
            assert forall|k: int| 0 <= k < self.subs@.len() implies (#[trigger] subs_view(
                self.subs@,
            )[k]).0 != id@ by {
                let s = self.subs@[k].id@;
                assert(sub_id_wf(s, self.next_id));
                if s == id@ {
                    assert(s.skip(4) == id@.skip(4));
                }
            }
        }
        let ghost pre = subs_view(self.subs@);
        self.subs.push(Subscription { id: id.clone(), event_type });
        self.next_id = self.next_id + 1;
        proof {
            let post = subs_view(self.subs@);
            assert(forall|k: int| 0 <= k < pre.len() ==> #[trigger] post[k] == pre[k]);
            assert(post[post.len() - 1] == (id@, event_type));
            assert(post =~= pre.push((id@, event_type)));
            assert forall|k: int| 0 <= k < self.subs@.len() implies sub_id_wf(
                (#[trigger] self.subs@[k]).id@,
                self.next_id,
            ) by {
                if k < pre.len() {
                    assert(sub_id_wf(self.subs@[k].id@, (self.next_id - 1) as u64));
                }
            }
        }
        id
    }

    /// Drop a subscription by id. Unsubscribing an id that is not registered
    /// is a no-op, never an error.
    pub fn unsubscribe(&mut self, subscription_id: &str)
        requires
            old(self).wf(),
        ensures
            final(self).wf(),
            final(self).subs() == subs_without(old(self).subs(), subscription_id@),
            final(self).commands() == old(self).commands(),
            final(self).next_id == old(self).next_id,
            (forall|k: int|
                0 <= k < old(self).subs().len() ==> (#[trigger] old(self).subs()[k]).0
                    != subscription_id@) ==> final(self).subs() == old(self).subs(),
    {
        let ghost pre = subs_view(self.subs@);
        let mut out: Vec<Subscription> = Vec::new();
        let mut i: usize = 0;
        proof {
            assert(subs_view(out@) =~= Seq::<(Seq<char>, EventType)>::empty());
            assert(subs_without(pre.take(0), subscription_id@) =~= Seq::<
                (Seq<char>, EventType),
            >::empty());
        }
        while i < self.subs.len()
            invariant
                0 <= i <= self.subs@.len(),
                pre == subs_view(self.subs@),
                pre.len() == self.subs@.len(),
                forall|k: int|
                    0 <= k < self.subs@.len() ==> sub_id_wf(
                        (#[trigger] self.subs@[k]).id@,
                        self.next_id,
                    ),
                forall|k: int|
                    0 <= k < out@.len() ==> sub_id_wf((#[trigger] out@[k]).id@, self.next_id),
                subs_view(out@) == subs_without(pre.take(i as int), subscription_id@),
            decreases self.subs@.len() - i,
        {
            proof {
                assert(pre.take(i + 1).drop_last() =~= pre.take(i as int));
                assert(pre.take(i + 1).last() == pre[i as int]);
                assert(pre[i as int] == (self.subs@[i as int].id@, self.subs@[i as int].event_type));
            }
            if !strutil::str_eq(self.subs[i].id.as_str(), subscription_id) {
                let ghost opre = subs_view(out@);
                let sub = Subscription {
                    id: self.subs[i].id.clone(),
                    event_type: self.subs[i].event_type,
                };
                out.push(sub);
                proof {
                    let opost = subs_view(out@);
                    assert(forall|k: int| 0 <= k < opre.len() ==> #[trigger] opost[k] == opre[k]);
                    assert(opost[opost.len() - 1] == pre[i as int]);
                    assert(opost =~= subs_without(pre.take(i + 1), subscription_id@));
                }
            } else {
                proof {
                    assert(subs_without(pre.take(i + 1), subscription_id@) =~= subs_without(
                        pre.take(i as int),
                        subscription_id@,
                    ));
                }
            }
            i = i + 1;
        }
        proof {
            assert(pre.take(pre.len() as int) =~= pre);
        }
        self.subs = out;
        proof {
            if forall|k: int|
                0 <= k < pre.len() ==> (#[trigger] pre[k]).0 != subscription_id@ {
                lemma_subs_without_absent(pre, subscription_id@);
            }
        }
    }

    /// The subscriber ids to deliver an event to, in subscription order
    /// within the event's type.
    pub fn emit(&self, event: &Event) -> (r: Vec<String>)
        ensures
            seq_views(r@) == subs_for(self.subs(), event.event_type),
    {
        let ghost pre = subs_view(self.subs@);
        let mut out: Vec<String> = Vec::new();
        let mut i: usize = 0;
        proof {
            assert(seq_views(out@) =~= Seq::<Seq<char>>::empty());
            assert(subs_for(pre.take(0), event.event_type) =~= Seq::<Seq<char>>::empty());
        }
        while i < self.subs.len()
            invariant
                0 <= i <= self.subs@.len(),
                pre == subs_view(self.subs@),
                pre.len() == self.subs@.len(),
                seq_views(out@) == subs_for(pre.take(i as int), event.event_type),
            decreases self.subs@.len() - i,
        {
            proof {
                assert(pre.take(i + 1).drop_last() =~= pre.take(i as int));
                assert(pre.take(i + 1).last() == pre[i as int]);
                assert(pre[i as int] == (self.subs@[i as int].id@, self.subs@[i as int].event_type));
            }
            if self.subs[i].event_type == event.event_type {
                let ghost opre = seq_views(out@);
                out.push(self.subs[i].id.clone());
                proof {
                    let opost = seq_views(out@);
                    assert(forall|k: int| 0 <= k < opre.len() ==> #[trigger] opost[k] == opre[k]);
                    assert(opost[opost.len() - 1] == pre[i as int].0);
                    assert(opost =~= subs_for(pre.take(i + 1), event.event_type));
                }
            } else {
                proof {
                    assert(subs_for(pre.take(i + 1), event.event_type) =~= subs_for(
                        pre.take(i as int),
                        event.event_type,
                    ));
                }
            }
            i = i + 1;
        }
        proof {
            assert(pre.take(pre.len() as int) =~= pre);
        }
        out
    }

    /// Register (or replace) a command under its full key.
    pub fn register_command(&mut self, command_id: String, command: Command)
        requires
            old(self).wf(),
        ensures
            final(self).wf(),
            final(self).commands() == old(self).commands().insert(command_id@, command@),
            final(self).subs() == old(self).subs(),
            final(self).next_id == old(self).next_id,
    {
        let ghost pre = self.commands@;
        let mut i: usize = 0;
        while i < self.commands.len()
            invariant
                0 <= i <= self.commands@.len(),
                pre == self.commands@,
                pre == old(self).commands@,
                cmd_keys_distinct(pre),
                self.subs@ == old(self).subs@,
                self.next_id == old(self).next_id,
                forall|k: int|
                    0 <= k < self.subs@.len() ==> sub_id_wf(
                        (#[trigger] self.subs@[k]).id@,
                        self.next_id,
                    ),
                forall|k: int| 0 <= k < i ==> (#[trigger] pre[k]).key@ != command_id@,
            decreases self.commands@.len() - i,
        {
            if strutil::str_eq(self.commands[i].key.as_str(), command_id.as_str()) {
                let entry = CommandEntry { key: command_id, command };
                let ghost e = entry;
                let _ = self.commands.remove(i);
                self.commands.insert(i, entry);
                proof {
                    assert(self.commands@ =~= pre.update(i as int, e));
                    lemma_cmds_map_update(pre, i as int, e);
                    assert(cmd_keys_distinct(self.commands@)) by {
                        assert forall|x: int, y: int|
                            #![trigger self.commands@[x], self.commands@[y]]
                            0 <= x < y < self.commands@.len() implies self.commands@[x].key@
                            != self.commands@[y].key@ by {
                            assert(pre[x].key@ != pre[y].key@);
                            assert(self.commands@[x].key@ == pre[x].key@);
                            assert(self.commands@[y].key@ == pre[y].key@);
                        }
                    }
                }
                return;
            }
            i = i + 1;
        }
        let entry = CommandEntry { key: command_id, command };
        let ghost e = entry;
        self.commands.push(entry);
        proof {
            assert(self.commands@ =~= pre.push(e));
            assert(self.commands@.drop_last() =~= pre);
            assert(cmds_map(self.commands@) == cmds_map(pre).insert(e.key@, e.command@));
            assert(cmd_keys_distinct(self.commands@)) by {
                assert forall|x: int, y: int|
                    #![trigger self.commands@[x], self.commands@[y]]
                    0 <= x < y < self.commands@.len() implies self.commands@[x].key@
                    != self.commands@[y].key@ by {
                    if y < pre.len() {
                        assert(self.commands@[x] == pre[x]);
                        assert(self.commands@[y] == pre[y]);
                    } else {
                        assert(self.commands@[x] == pre[x]);
                        assert(self.commands@[y] == e);
                    }
                }
            }
        }
    }

    /// Look up a registered command by its full key.
    pub fn get_command(&self, command_id: &str) -> (r: Option<&Command>)
        requires
            self.wf(),
        ensures
            r is Some <==> self.commands().contains_key(command_id@),
            r is Some ==> (*r->0)@ == self.commands()[command_id@],
    {
        let mut i: usize = 0;
        while i < self.commands.len()
            invariant
                self.wf(),
                0 <= i <= self.commands@.len(),
                forall|k: int| 0 <= k < i ==> (#[trigger] self.commands@[k]).key@ != command_id@,
            decreases self.commands@.len() - i,
        {
            if strutil::str_eq(self.commands[i].key.as_str(), command_id) {
                proof {
                    lemma_cmds_map_index(self.commands@, i as int);
                }
                return Some(&self.commands[i].command);
            }
            i = i + 1;
        }
        proof {
            lemma_cmds_map_absent(self.commands@, command_id@);
        }
        None
    }
}

} // verus!
