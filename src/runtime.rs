//! The host's registry of live plugins, keyed by id, fed one message at a
//! time from all connections.
use vstd::prelude::*;
use vstd::slice::slice_to_vec;
use crate::message::{EventView, PluginEvent, PluginRequest, RequestView};

verus! {

#[verifier::external_type_specification]
#[verifier::external_body]
#[verifier::reject_recursive_types(T)]
pub struct ExUnboundedSender<T>(tokio::sync::mpsc::UnboundedSender<T>);

/// Relies on `tokio::sync::mpsc::UnboundedSender::send`: it queues the event
/// without waiting, or hands it back where the receiving side is gone (that
/// connection is then closing, and its removal is on its way). Nothing is
/// promised of which of the two happens.
#[verifier::external_body]
fn deliver(sender: &tokio::sync::mpsc::UnboundedSender<PluginEvent>, event: PluginEvent) {
    let _ = sender.send(event);
}

/// One connected plugin.
#[derive(Debug)]
pub struct Plugin {
    /// The id that the connection was given when it was accepted.
    pub id: usize,
    /// Where the host queues events for this plugin's connection.
    pub sender: tokio::sync::mpsc::UnboundedSender<PluginEvent>,
    /// The encoded view artifact that the plugin sent last, if any.
    pub view: Option<Vec<u8>>,
}

impl Plugin {
    /// The last view, as bytes.
    pub open spec fn last_view(&self) -> Option<Seq<u8>> {
        match self.view {
            Some(v) => Some(v@),
            None => None,
        }
    }

    /// Stopping a plugin from the host side: there is none in this
    /// protocol, a plugin leaves by closing its connection.
    pub fn shutdown() {
    }

    /// Restarting a plugin from the host side: there is none in this
    /// protocol, a plugin comes back by connecting again.
    pub fn restart() {
    }
}

/// What the registry is told, from all connections through one channel.
#[derive(Debug)]
pub enum RuntimeMessage {
    /// A connection was accepted and given this id.
    New(Plugin, usize),
    /// The plugin with this id sent a request.
    Request(PluginRequest, usize),
    /// The connection of the plugin with this id is gone.
    Shutdown(usize),
}

/// The mathematical content of a `RuntimeMessage`.
pub enum MessageView {
    New(usize),
    Request(RequestView, usize),
    Shutdown(usize),
}

impl View for RuntimeMessage {
    type V = MessageView;

    open spec fn view(&self) -> MessageView {
        match self {
            RuntimeMessage::New(_, id) => MessageView::New(*id),
            RuntimeMessage::Request(r, id) => MessageView::Request(r@, *id),
            RuntimeMessage::Shutdown(id) => MessageView::Shutdown(*id),
        }
    }
}

/// A message that the registry cannot apply.
#[derive(Debug, Clone, Copy, PartialEq, Eq, Structural)]
pub enum RegistryInvariantViolation {
    /// The message names an id that is not registered (never was, or no
    /// longer is). The message is dropped.
    UnknownId(usize),
    /// A second registration of a live id. It is refused.
    AlreadyRegistered(usize),
}

/// Whether a registry's entries hold `id`.
pub open spec fn holds(entries: Seq<(usize, Option<Seq<u8>>)>, id: usize) -> bool {
    exists|i: int| 0 <= i < entries.len() && (#[trigger] entries[i]).0 == id
}

/// Whether no id occurs twice among the entries.
pub open spec fn ids_unique(entries: Seq<(usize, Option<Seq<u8>>)>) -> bool {
    forall|i: int, j: int|
        0 <= i < entries.len() && 0 <= j < entries.len() && i != j ==> (#[trigger] entries[i]).0
            != (#[trigger] entries[j]).0
}

/// The entries with the view of `id` replaced by `v`.
pub open spec fn with_view(entries: Seq<(usize, Option<Seq<u8>>)>, id: usize, v: Seq<u8>) -> Seq<
    (usize, Option<Seq<u8>>),
> {
    entries.map_values(
        |e: (usize, Option<Seq<u8>>)|
            if e.0 == id {
                (e.0, Some(v))
            } else {
                e
            },
    )
}

/// The entries without that of `id`, in the same order.
pub open spec fn without(entries: Seq<(usize, Option<Seq<u8>>)>, id: usize) -> Seq<
    (usize, Option<Seq<u8>>),
>
    decreases entries.len(),
{
    if entries.len() == 0 {
        entries
    } else {
        let rest = without(entries.drop_last(), id);
        if entries.last().0 == id {
            rest
        } else {
            rest.push(entries.last())
        }
    }
}

/// The entries after a message is applied.
pub open spec fn apply_entries(entries: Seq<(usize, Option<Seq<u8>>)>, m: MessageView) -> Seq<
    (usize, Option<Seq<u8>>),
> {
    match m {
        MessageView::New(id) => if holds(entries, id) {
            entries
        } else {
            entries.push((id, None))
        },
        MessageView::Request(RequestView::View(v), id) => with_view(entries, id, v),
        MessageView::Request(RequestView::Message(_), _) => entries,
        MessageView::Shutdown(id) => without(entries, id),
    }
}

/// What applying a message reports: the event to queue and the id of the
/// plugin it goes to, if any, or why the message cannot be applied. A new
/// plugin is sent the current theme; a plugin's input goes back to that
/// plugin.
pub open spec fn apply_outcome(
    entries: Seq<(usize, Option<Seq<u8>>)>,
    m: MessageView,
    theme: Seq<u8>,
) -> Result<Option<(usize, EventView)>, RegistryInvariantViolation> {
    match m {
        MessageView::New(id) => if holds(entries, id) {
            Err(RegistryInvariantViolation::AlreadyRegistered(id))
        } else {
            Ok(Some((id, EventView::Theme(theme))))
        },
        MessageView::Request(r, id) => if !holds(entries, id) {
            Err(RegistryInvariantViolation::UnknownId(id))
        } else {
            match r {
                RequestView::View(_) => Ok(None),
                RequestView::Message(b) => Ok(Some((id, EventView::Message(b)))),
            }
        },
        MessageView::Shutdown(id) => if !holds(entries, id) {
            Err(RegistryInvariantViolation::UnknownId(id))
        } else {
            Ok(None)
        },
    }
}

/// The views of the entries that have one, keyed by id, in entry order.
pub open spec fn views_of(entries: Seq<(usize, Option<Seq<u8>>)>) -> Seq<(usize, Seq<u8>)>
    decreases entries.len(),
{
    if entries.len() == 0 {
        Seq::empty()
    } else {
        let rest = views_of(entries.drop_last());
        match entries.last().1 {
            Some(v) => rest.push((entries.last().0, v)),
            None => rest,
        }
    }
}

proof fn lemma_without_absent(entries: Seq<(usize, Option<Seq<u8>>)>, id: usize)
    requires
        !holds(entries, id),
    ensures
        without(entries, id) == entries,
    decreases entries.len(),
{
    if entries.len() > 0 {
        let pre = entries.drop_last();
        assert(!holds(pre, id)) by {
            if holds(pre, id) {
                let i = choose|i: int| 0 <= i < pre.len() && (#[trigger] pre[i]).0 == id;
                assert(entries[i] == pre[i]);
            }
        }
        lemma_without_absent(pre, id);
        assert(entries[entries.len() - 1].0 != id);
        assert(pre.push(entries.last()) =~= entries);
    }
}

proof fn lemma_without_remove(entries: Seq<(usize, Option<Seq<u8>>)>, id: usize, i: int)
    requires
        ids_unique(entries),
        0 <= i < entries.len(),
        entries[i].0 == id,
    ensures
        without(entries, id) == entries.remove(i),
    decreases entries.len(),
{
    let pre = entries.drop_last();
    let n = entries.len() - 1;
    if i == n {
        assert(!holds(pre, id)) by {
            if holds(pre, id) {
                let j = choose|j: int| 0 <= j < pre.len() && (#[trigger] pre[j]).0 == id;
                assert(entries[j] == pre[j]);
            }
        }
        lemma_without_absent(pre, id);
        assert(entries.remove(i) =~= pre);
    } else {
        assert(ids_unique(pre)) by {
            assert forall|a: int, b: int|
                0 <= a < pre.len() && 0 <= b < pre.len() && a != b implies (#[trigger] pre[a]).0
                != (#[trigger] pre[b]).0 by {
                assert(pre[a] == entries[a] && pre[b] == entries[b]);
            }
        }
        assert(pre[i] == entries[i]);
        lemma_without_remove(pre, id, i);
        assert(entries[n].0 != id);
        assert(pre.remove(i).push(entries.last()) =~= entries.remove(i));
    }
}

proof fn lemma_unique_remove(entries: Seq<(usize, Option<Seq<u8>>)>, i: int)
    requires
        ids_unique(entries),
        0 <= i < entries.len(),
    ensures
        ids_unique(entries.remove(i)),
{
    let r = entries.remove(i);
    assert forall|a: int, b: int|
        0 <= a < r.len() && 0 <= b < r.len() && a != b implies (#[trigger] r[a]).0 != (
        #[trigger] r[b]).0 by {
        let a2 = if a < i { a } else { a + 1 };
        let b2 = if b < i { b } else { b + 1 };
        assert(r[a] == entries[a2] && r[b] == entries[b2]);
    }
}

/// Whether one of the plugins has `id`.
pub open spec fn has_id(ps: Seq<Plugin>, id: usize) -> bool {
    exists|i: int| 0 <= i < ps.len() && (#[trigger] ps[i]).id == id
}

/// Whether a plugin's id differs from `id`.
pub open spec fn not_id(id: usize) -> spec_fn(Plugin) -> bool {
    |q: Plugin| q.id != id
}

/// The plugins with the view of `id` replaced by `v`; ids, senders and the
/// other plugins stay as they were.
pub open spec fn with_plugin_view(ps: Seq<Plugin>, id: usize, v: Vec<u8>) -> Seq<Plugin> {
    ps.map_values(
        |q: Plugin|
            if q.id == id {
                Plugin { id: q.id, sender: q.sender, view: Some(v) }
            } else {
                q
            },
    )
}

/// The plugins after a message is applied: a new plugin is appended with the
/// sender it came with and no view; a view replaces only the view of its
/// plugin; a plugin's input changes nothing; a shutdown takes out the plugin
/// with that id and keeps the others in order. A message that cannot be
/// applied changes nothing.
pub open spec fn apply_plugins(ps: Seq<Plugin>, m: RuntimeMessage) -> Seq<Plugin> {
    match m {
        RuntimeMessage::New(p, id) => if has_id(ps, id) {
            ps
        } else {
            ps.push(Plugin { id, sender: p.sender, view: None })
        },
        RuntimeMessage::Request(PluginRequest::View(v), id) => with_plugin_view(ps, id, v),
        RuntimeMessage::Request(PluginRequest::Message(_), _) => ps,
        RuntimeMessage::Shutdown(id) => ps.filter(not_id(id)),
    }
}

proof fn lemma_filter_absent(ps: Seq<Plugin>, id: usize)
    requires
        !has_id(ps, id),
    ensures
        ps.filter(not_id(id)) == ps,
    decreases ps.len(),
{
    reveal(Seq::filter);
    if ps.len() > 0 {
        let pre = ps.drop_last();
        assert(!has_id(pre, id)) by {
            if has_id(pre, id) {
                let i = choose|i: int| 0 <= i < pre.len() && (#[trigger] pre[i]).id == id;
                assert(ps[i] == pre[i]);
            }
        }
        lemma_filter_absent(pre, id);
        assert(ps[ps.len() - 1].id != id);
        assert(pre.push(ps.last()) =~= ps);
    }
}

proof fn lemma_filter_remove(ps: Seq<Plugin>, id: usize, i: int)
    requires
        forall|a: int, b: int|
            0 <= a < ps.len() && 0 <= b < ps.len() && a != b ==> (#[trigger] ps[a]).id != (
            #[trigger] ps[b]).id,
        0 <= i < ps.len(),
        ps[i].id == id,
    ensures
        ps.filter(not_id(id)) == ps.remove(i),
    decreases ps.len(),
{
    reveal(Seq::filter);
    let pre = ps.drop_last();
    let n = ps.len() - 1;
    if i == n {
        assert(!has_id(pre, id)) by {
            if has_id(pre, id) {
                let j = choose|j: int| 0 <= j < pre.len() && (#[trigger] pre[j]).id == id;
                assert(ps[j] == pre[j]);
            }
        }
        lemma_filter_absent(pre, id);
        assert(ps.remove(i) =~= pre);
    } else {
        assert forall|a: int, b: int|
            0 <= a < pre.len() && 0 <= b < pre.len() && a != b implies (#[trigger] pre[a]).id != (
            #[trigger] pre[b]).id by {
            assert(pre[a] == ps[a] && pre[b] == ps[b]);
        }
        assert(pre[i] == ps[i]);
        lemma_filter_remove(pre, id, i);
        assert(ps[n].id != id);
        assert(pre.remove(i).push(ps.last()) =~= ps.remove(i));
    }
}

/// The table of live plugins.
#[derive(Debug)]
pub struct PluginRuntime {
    pub plugins: Vec<Plugin>,
}

impl PluginRuntime {
    /// The registry's entries: each plugin's id and last view, in order.
    pub open spec fn entries(&self) -> Seq<(usize, Option<Seq<u8>>)> {
        self.plugins@.map_values(|p: Plugin| (p.id, p.last_view()))
    }

    /// No two plugins share an id.
    pub open spec fn wf(&self) -> bool {
        ids_unique(self.entries())
    }

    /// An empty registry.
    pub fn new() -> (r: PluginRuntime)
        ensures
            r.entries() == Seq::<(usize, Option<Seq<u8>>)>::empty(),
            r.wf(),
    {
        let r = PluginRuntime { plugins: Vec::new() };
        assert(r.entries() =~= Seq::<(usize, Option<Seq<u8>>)>::empty());
        r
    }

    /// Whether no two plugins share an id.
    pub fn ids_are_unique(&self) -> (r: bool)
        ensures
            r == self.wf(),
    {
        let n = self.plugins.len();
        let mut i: usize = 0;
        while i < n
            invariant
                n == self.plugins@.len(),
                i <= n,
                forall|a: int, b: int|
                    0 <= a < i && 0 <= b < n && a != b ==> self.plugins@[a].id
                        != self.plugins@[b].id,
            decreases n - i,
        {
            let mut j: usize = 0;
            while j < n
                invariant
                    n == self.plugins@.len(),
                    i < n,
                    j <= n,
                    forall|a: int, b: int|
                        0 <= a < i && 0 <= b < n && a != b ==> self.plugins@[a].id
                            != self.plugins@[b].id,
                    forall|b: int| 0 <= b < j && b != i ==> self.plugins@[i as int].id
                        != self.plugins@[b].id,
                decreases n - j,
            {
                if j != i && self.plugins[i].id == self.plugins[j].id {
                    assert(!self.wf()) by {
                        let e = self.entries();
                        assert(e[i as int].0 == e[j as int].0);
                    }
                    return false;
                }
                j = j + 1;
            }
            i = i + 1;
        }
        assert(self.wf()) by {
            let e = self.entries();
            assert forall|a: int, b: int|
                0 <= a < e.len() && 0 <= b < e.len() && a != b implies (#[trigger] e[a]).0
                != (#[trigger] e[b]).0 by {
                assert(e[a].0 == self.plugins@[a].id && e[b].0 == self.plugins@[b].id);
            }
        }
        true
    }

    /// Where the plugin with `id` stands, if it is registered.
    fn position(&self, id: usize) -> (r: Option<usize>)
        ensures
            match r {
                Some(i) => i < self.plugins@.len() && self.plugins@[i as int].id == id,
                None => !holds(self.entries(), id) && !has_id(self.plugins@, id),
            },
    {
        let mut i: usize = 0;
        while i < self.plugins.len()
            invariant
                i <= self.plugins@.len(),
                forall|k: int| 0 <= k < i ==> self.plugins@[k].id != id,
            decreases self.plugins@.len() - i,
        {
            if self.plugins[i].id == id {
                return Some(i);
            }
            i = i + 1;
        }
        assert forall|k: int| 0 <= k < self.entries().len() implies (
        #[trigger] self.entries()[k]).0 != id by {
            assert(self.entries()[k].0 == self.plugins@[k].id);
        }
        None
    }

    /// Applies one message to the table, and reports the event to queue for
    /// a plugin, if any. The table changes as `apply_entries` says; a message
    /// that cannot be applied leaves it as it was.
    pub fn apply_message(&mut self, message: RuntimeMessage, theme: &[u8]) -> (r: Result<
        Option<(usize, PluginEvent)>,
        RegistryInvariantViolation,
    >)
        requires
            old(self).wf(),
        ensures
            final(self).wf(),
            final(self).entries() == apply_entries(old(self).entries(), message@),
            final(self).plugins@ == apply_plugins(old(self).plugins@, message),
            match r {
                Ok(Some((id, e))) => apply_outcome(old(self).entries(), message@, theme@) == Ok::<
                    Option<(usize, EventView)>,
                    RegistryInvariantViolation,
                >(Some((id, e@))),
                Ok(None) => apply_outcome(old(self).entries(), message@, theme@) == Ok::<
                    Option<(usize, EventView)>,
                    RegistryInvariantViolation,
                >(None),
                Err(x) => apply_outcome(old(self).entries(), message@, theme@) == Err::<
                    Option<(usize, EventView)>,
                    RegistryInvariantViolation,
                >(x),
            },
    {
        let ghost before = self.entries();
        let ghost old_ps = self.plugins@;
        assert forall|a: int, b: int|
            0 <= a < old_ps.len() && 0 <= b < old_ps.len() && a != b implies (
        #[trigger] old_ps[a]).id != (#[trigger] old_ps[b]).id by {
            assert(before[a].0 == old_ps[a].id && before[b].0 == old_ps[b].id);
        }
        match message {
            RuntimeMessage::New(plugin, id) => {
                match self.position(id) {
                    Some(i) => {
                        assert(before[i as int].0 == id);
                        assert(old_ps[i as int].id == id);
                        Err(RegistryInvariantViolation::AlreadyRegistered(id))
                    },
                    None => {
                        let mut plugin = plugin;
                        plugin.id = id;
                        plugin.view = None;
                        self.plugins.push(plugin);
                        assert(self.plugins@ =~= old_ps.push(
                            (Plugin { id, sender: self.plugins@.last().sender, view: None }),
                        ));
                        assert(self.entries() =~= before.push((id, None)));
                        assert(self.wf()) by {
                            let e = self.entries();
                            assert forall|a: int, b: int|
                                0 <= a < e.len() && 0 <= b < e.len() && a != b implies (
                            #[trigger] e[a]).0 != (#[trigger] e[b]).0 by {
                                if a < before.len() && b < before.len() {
                                    assert(e[a] == before[a] && e[b] == before[b]);
                                } else if a < before.len() {
                                    assert(e[a] == before[a]);
                                } else if b < before.len() {
                                    assert(e[b] == before[b]);
                                }
                            }
                        }
                        let snapshot = slice_to_vec(theme);
                        let event = PluginEvent::Theme(snapshot);
                        Ok(Some((id, event)))
                    },
                }
            },
            RuntimeMessage::Request(request, id) => {
                match self.position(id) {
                    None => {
                        match request {
                            PluginRequest::View(v) => {
                                assert(with_view(before, id, v@) =~= before) by {
                                    assert forall|k: int| 0 <= k < before.len() implies (
                                    #[trigger] before[k]).0 != id by {}
                                }
                                assert(with_plugin_view(old_ps, id, v) =~= old_ps) by {
                                    assert forall|k: int| 0 <= k < old_ps.len() implies (
                                    #[trigger] old_ps[k]).id != id by {}
                                }
                            },
                            PluginRequest::Message(_) => {},
                        }
                        Err(RegistryInvariantViolation::UnknownId(id))
                    },
                    Some(i) => {
                        assert(before[i as int].0 == id);
                        match request {
                            PluginRequest::View(v) => {
                                let ghost vv = v@;
                                let ghost gv = v;
                                let mut p = self.plugins.remove(i);
                                p.view = Some(v);
                                self.plugins.insert(i, p);
                                assert(self.entries() =~= with_view(before, id, vv)) by {
                                    let e = self.entries();
                                    assert forall|k: int| 0 <= k < e.len() implies #[trigger] e[k]
                                        == with_view(before, id, vv)[k] by {
                                        if k != i {
                                            assert(before[k].0 != before[i as int].0);
                                        }
                                    }
                                }
                                assert(self.wf()) by {
                                    let e = self.entries();
                                    assert forall|a: int, b: int|
                                        0 <= a < e.len() && 0 <= b < e.len() && a != b implies (
                                    #[trigger] e[a]).0 != (#[trigger] e[b]).0 by {
                                        assert(e[a].0 == before[a].0 && e[b].0 == before[b].0);
                                    }
                                }
                                assert(self.plugins@ =~= with_plugin_view(old_ps, id, gv)) by {
                                    let ps = self.plugins@;
                                    assert forall|k: int| 0 <= k < ps.len() implies #[trigger] ps[k]
                                        == with_plugin_view(old_ps, id, gv)[k] by {
                                        if k != i {
                                            assert(old_ps[k].id != old_ps[i as int].id);
                                        }
                                    }
                                }
                                Ok(None)
                            },
                            PluginRequest::Message(b) => {
                                Ok(Some((id, PluginEvent::Message(b))))
                            },
                        }
                    },
                }
            },
            RuntimeMessage::Shutdown(id) => {
                match self.position(id) {
                    None => {
                        proof {
                            lemma_without_absent(before, id);
                            lemma_filter_absent(old_ps, id);
                        }
                        Err(RegistryInvariantViolation::UnknownId(id))
                    },
                    Some(i) => {
                        assert(before[i as int].0 == id);
                        let _gone = self.plugins.remove(i);
                        proof {
                            lemma_without_remove(before, id, i as int);
                            lemma_unique_remove(before, i as int);
                            lemma_filter_remove(old_ps, id, i as int);
                        }
                        assert(self.entries() =~= before.remove(i as int));
                        Ok(None)
                    },
                }
            },
        }
    }

    /// The outbound channel of the plugin with `id`, if it is registered.
    pub fn sender_of(&self, id: usize) -> (r: Option<&tokio::sync::mpsc::UnboundedSender<PluginEvent>>)
        ensures
            match r {
                Some(s) => exists|i: int|
                    0 <= i < self.plugins@.len() && (#[trigger] self.plugins@[i]).id == id && *s
                        == self.plugins@[i].sender,
                None => !has_id(self.plugins@, id),
            },
    {
        match self.position(id) {
            Some(i) => {
                let s = &self.plugins[i].sender;
                assert(self.plugins@[i as int].id == id);
                Some(s)
            },
            None => None,
        }
    }

    /// Applies one message to the table and queues the event that it calls
    /// for on the outbound channel of the plugin it names (`sender_of`): the
    /// current theme to a new plugin, a plugin's input back to that plugin.
    /// The table changes as `apply_plugins` says: every plugin keeps its own
    /// channel. A message for an id that is not registered is dropped, and a
    /// second registration of a live id refused; both are reported and leave
    /// the table as it was.
    pub fn handle_plugin_message(&mut self, message: RuntimeMessage, theme: &[u8]) -> (r: Result<
        (),
        RegistryInvariantViolation,
    >)
        requires
            old(self).wf(),
        ensures
            final(self).wf(),
            final(self).entries() == apply_entries(old(self).entries(), message@),
            final(self).plugins@ == apply_plugins(old(self).plugins@, message),
            match r {
                Ok(()) => apply_outcome(old(self).entries(), message@, theme@) is Ok,
                Err(x) => apply_outcome(old(self).entries(), message@, theme@) == Err::<
                    Option<(usize, EventView)>,
                    RegistryInvariantViolation,
                >(x),
            },
    {
        match self.apply_message(message, theme) {
            Err(x) => Err(x),
            Ok(None) => Ok(()),
            Ok(Some((id, event))) => {
                if let Some(sender) = self.sender_of(id) {
                    deliver(sender, event);
                }
                Ok(())
            },
        }
    }

    /// The current views, keyed by plugin id: one pair for each plugin that
    /// has sent a view since it was registered, in registration order.
    pub fn views(&self) -> (r: Vec<(usize, Vec<u8>)>)
        ensures
            r@.map_values(|e: (usize, Vec<u8>)| (e.0, e.1@)) == views_of(self.entries()),
    {
        let mut r: Vec<(usize, Vec<u8>)> = Vec::new();
        let mut i: usize = 0;
        while i < self.plugins.len()
            invariant
                i <= self.plugins@.len(),
                r@.map_values(|e: (usize, Vec<u8>)| (e.0, e.1@)) == views_of(
                    self.entries().subrange(0, i as int),
                ),
            decreases self.plugins@.len() - i,
        {
            let ghost pre = r@.map_values(|e: (usize, Vec<u8>)| (e.0, e.1@));
            assert(self.entries().subrange(0, i + 1).drop_last() =~= self.entries().subrange(
                0,
                i as int,
            ));
            match &self.plugins[i].view {
                Some(v) => {
                    let copy = slice_to_vec(v.as_slice());
                    r.push((self.plugins[i].id, copy));
                    assert(r@.map_values(|e: (usize, Vec<u8>)| (e.0, e.1@)) =~= pre.push(
                        (self.plugins@[i as int].id, v@),
                    ));
                },
                None => {},
            }
            i = i + 1;
        }
        assert(self.entries().subrange(0, i as int) =~= self.entries());
        r
    }
}

/// Each view reported comes from an entry with that id, and each entry
/// that has a view is reported.
pub proof fn lemma_views_of(entries: Seq<(usize, Option<Seq<u8>>)>)
    ensures
        forall|k: int|
            0 <= k < views_of(entries).len() ==> exists|i: int|
                0 <= i < entries.len() && (#[trigger] entries[i]).0 == (#[trigger] views_of(
                    entries,
                )[k]).0 && entries[i].1 == Some(views_of(entries)[k].1),
        forall|i: int|
            0 <= i < entries.len() && (#[trigger] entries[i]).1 is Some ==> exists|k: int|
                0 <= k < views_of(entries).len() && #[trigger] views_of(entries)[k] == (
                    entries[i].0,
                    entries[i].1->Some_0,
                ),
    decreases entries.len(),
{
    if entries.len() > 0 {
        let pre = entries.drop_last();
        lemma_views_of(pre);
        let n = entries.len() - 1;
        let v = views_of(entries);
        let vp = views_of(pre);
        assert forall|k: int| 0 <= k < v.len() implies exists|i: int|
            0 <= i < entries.len() && (#[trigger] entries[i]).0 == (#[trigger] v[k]).0
                && entries[i].1 == Some(v[k].1) by {
            if k < vp.len() {
                assert(v[k] == vp[k]);
                let i = choose|i: int|
                    0 <= i < pre.len() && (#[trigger] pre[i]).0 == (#[trigger] vp[k]).0 && pre[i].1
                        == Some(vp[k].1);
                assert(entries[i] == pre[i]);
            } else {
                assert(entries[n].0 == v[k].0);
            }
        }
        assert forall|i: int| 0 <= i < entries.len() && (#[trigger] entries[i]).1 is Some implies exists|
            k: int,
        | 0 <= k < v.len() && #[trigger] v[k] == (entries[i].0, entries[i].1->Some_0) by {
            if i < n {
                assert(entries[i] == pre[i]);
                let k = choose|k: int|
                    0 <= k < vp.len() && #[trigger] vp[k] == (pre[i].0, pre[i].1->Some_0);
                assert(v[k] == vp[k]);
            } else {
                assert(v[vp.len() as int] == (entries[i].0, entries[i].1->Some_0));
            }
        }
    }
}

proof fn lemma_without_drops(entries: Seq<(usize, Option<Seq<u8>>)>, id: usize)
    ensures
        !holds(without(entries, id), id),
    decreases entries.len(),
{
    if entries.len() > 0 {
        let pre = entries.drop_last();
        lemma_without_drops(pre, id);
        let w = without(pre, id);
        if entries.last().0 != id {
            assert(!holds(w.push(entries.last()), id)) by {
                if holds(w.push(entries.last()), id) {
                    let i = choose|i: int|
                        0 <= i < w.len() + 1 && (#[trigger] w.push(entries.last())[i]).0 == id;
                    if i < w.len() {
                        assert(w.push(entries.last())[i] == w[i]);
                    }
                }
            }
        }
    }
}

/// After a plugin sends one view and then another, the views report the
/// second for its id and never the first; where the id is registered, that
/// second view is reported.
pub proof fn lemma_last_view_overwrite(
    entries: Seq<(usize, Option<Seq<u8>>)>,
    id: usize,
    first: Seq<u8>,
    second: Seq<u8>,
)
    requires
        ids_unique(entries),
    ensures
        ({
            let after = apply_entries(
                apply_entries(entries, MessageView::Request(RequestView::View(first), id)),
                MessageView::Request(RequestView::View(second), id),
            );
            &&& forall|k: int|
                0 <= k < views_of(after).len() && (#[trigger] views_of(after)[k]).0 == id
                    ==> views_of(after)[k].1 == second
            &&& holds(entries, id) ==> exists|k: int|
                0 <= k < views_of(after).len() && #[trigger] views_of(after)[k] == (id, second)
        }),
{
    let after = apply_entries(
        apply_entries(entries, MessageView::Request(RequestView::View(first), id)),
        MessageView::Request(RequestView::View(second), id),
    );
    assert(after =~= with_view(entries, id, second));
    lemma_views_of(after);
    if holds(entries, id) {
        let i = choose|i: int| 0 <= i < entries.len() && (#[trigger] entries[i]).0 == id;
        assert(after[i] == (id, Some(second)));
    }
}

/// After a plugin's connection is gone, the views hold nothing for its id,
/// and a request that still arrives for that id changes nothing and is
/// reported as for an unknown id.
pub proof fn lemma_unregister_removes_view(
    entries: Seq<(usize, Option<Seq<u8>>)>,
    id: usize,
    late: RequestView,
    theme: Seq<u8>,
)
    ensures
        ({
            let gone = apply_entries(entries, MessageView::Shutdown(id));
            &&& forall|k: int|
                0 <= k < views_of(gone).len() ==> (#[trigger] views_of(gone)[k]).0 != id
            &&& apply_entries(gone, MessageView::Request(late, id)) == gone
            &&& apply_outcome(gone, MessageView::Request(late, id), theme) == Err::<
                Option<(usize, EventView)>,
                RegistryInvariantViolation,
            >(RegistryInvariantViolation::UnknownId(id))
        }),
{
    let gone = apply_entries(entries, MessageView::Shutdown(id));
    lemma_without_drops(entries, id);
    lemma_views_of(gone);
    assert forall|k: int| 0 <= k < views_of(gone).len() implies (#[trigger] views_of(
        gone,
    )[k]).0 != id by {
        if views_of(gone)[k].0 == id {
            let i = choose|i: int|
                0 <= i < gone.len() && (#[trigger] gone[i]).0 == (#[trigger] views_of(gone)[k]).0
                    && gone[i].1 == Some(views_of(gone)[k].1);
        }
    }
    match late {
        RequestView::View(v) => {
            assert(with_view(gone, id, v) =~= gone) by {
                assert forall|k: int| 0 <= k < gone.len() implies (#[trigger] gone[k]).0 != id by {}
            }
        },
        RequestView::Message(_) => {},
    }
}

/// The entries after each message of `ms` is applied in turn.
pub open spec fn apply_all(entries: Seq<(usize, Option<Seq<u8>>)>, ms: Seq<MessageView>) -> Seq<
    (usize, Option<Seq<u8>>),
>
    decreases ms.len(),
{
    if ms.len() == 0 {
        entries
    } else {
        apply_all(apply_entries(entries, ms[0]), ms.drop_first())
    }
}

/// After a plugin's connection is gone, any number of requests that still
/// arrive for its id change nothing, and the views never again hold an
/// entry for it.
pub proof fn lemma_stale_requests_ignored(
    entries: Seq<(usize, Option<Seq<u8>>)>,
    id: usize,
    late: Seq<RequestView>,
)
    ensures
        ({
            let gone = apply_entries(entries, MessageView::Shutdown(id));
            let after = apply_all(gone, late.map_values(|r: RequestView| MessageView::Request(r, id)));
            &&& after == gone
            &&& forall|k: int|
                0 <= k < views_of(after).len() ==> (#[trigger] views_of(after)[k]).0 != id
        }),
    decreases late.len(),
{
    let gone = apply_entries(entries, MessageView::Shutdown(id));
    let ms = late.map_values(|r: RequestView| MessageView::Request(r, id));
    lemma_unregister_removes_view(entries, id, RequestView::View(Seq::empty()), Seq::empty());
    if late.len() > 0 {
        lemma_unregister_removes_view(entries, id, late[0], Seq::empty());
        assert(apply_entries(gone, ms[0]) == gone);
        let rest = late.drop_first();
        lemma_stale_requests_ignored(entries, id, rest);
        assert(ms.drop_first() =~= rest.map_values(|r: RequestView| MessageView::Request(r, id)));
    }
}

} // verus!
