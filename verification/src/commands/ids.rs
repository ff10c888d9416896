//! Command identity and the registry of what exists.

use vstd::prelude::*;
use vstd::std_specs::iter::IteratorSpec;

use crate::ordered::{TextKey, TextMap};

verus! {

/// A stable command identifier such as `workspace.split.horizontal`.
#[derive(Debug, Clone, PartialEq, Eq, Hash, PartialOrd, Ord)]
pub struct CommandId(String);

impl View for CommandId {
    type V = Seq<char>;

    closed spec fn view(&self) -> Seq<char> {
        self.0@
    }
}

impl CommandId {
    /// Wrap an identifier.
    pub fn new(id: &str) -> (r: Self)
        ensures
            r@ == id@,
    {
        Self(id.to_owned())
    }

    /// Wrap an owned identifier.
    pub fn from_string(id: String) -> (r: Self)
        ensures
            r@ == id@,
    {
        Self(id)
    }

    /// The identifier as text.
    pub fn as_str(&self) -> (r: &str)
        ensures
            r@ == self@,
    {
        self.0.as_str()
    }

    /// A copy with the same text.
    pub fn duplicate(&self) -> (r: Self)
        ensures
            r@ == self@,
    {
        Self(self.0.clone())
    }

    /// Whether two ids are the same text.
    pub fn same_as(&self, other: &Self) -> (r: bool)
        ensures
            r == (self@ == other@),
    {
        self.0 == other.0
    }
}

impl TextKey for CommandId {
    open spec fn key_view(&self) -> Seq<char> {
        self@
    }

    fn key_str(&self) -> (r: &str) {
        self.as_str()
    }
}

impl<'a> From<&'a str> for CommandId {
    fn from(value: &'a str) -> (r: Self)
        ensures
            r@ == value@,
    {
        Self::new(value)
    }
}

impl<'a> vstd::std_specs::convert::FromSpecImpl<&'a str> for CommandId {
    open spec fn obeys_from_spec() -> bool {
        false
    }

    open spec fn from_spec(v: &'a str) -> CommandId {
        arbitrary()
    }
}

/// Where a command belongs in menus and the palette.
#[derive(Debug, Clone, Copy, PartialEq, Eq, Structural, Hash, PartialOrd, Ord)]
pub enum CommandCategory {
    /// Layout: splits, panes, focus.
    Workspace,
    /// Tab management.
    Tabs,
    /// Moving between locations.
    Navigation,
    /// Acting on files.
    File,
    /// Selection and marking.
    SelectionAndMarks,
    /// Preview and viewers.
    View,
    /// Search.
    Search,
    /// AI and external agents.
    Ai,
    /// Jobs.
    Jobs,
    /// Application settings.
    Settings,
}

/// The localisation key of a category's label.
pub open spec fn category_label_key(c: CommandCategory) -> Seq<char> {
    match c {
        CommandCategory::Workspace => "command.category.workspace"@,
        CommandCategory::Tabs => "command.category.tabs"@,
        CommandCategory::Navigation => "command.category.navigation"@,
        CommandCategory::File => "command.category.file"@,
        CommandCategory::SelectionAndMarks => "command.category.selection_marks"@,
        CommandCategory::View => "command.category.view"@,
        CommandCategory::Search => "command.category.search"@,
        CommandCategory::Ai => "command.category.ai"@,
        CommandCategory::Jobs => "command.category.jobs"@,
        CommandCategory::Settings => "command.category.settings"@,
    }
}

impl CommandCategory {
    /// Localisation key for the category label.
    pub fn label_key(self) -> (r: &'static str)
        ensures
            r@ == category_label_key(self),
    {
        match self {
            Self::Workspace => "command.category.workspace",
            Self::Tabs => "command.category.tabs",
            Self::Navigation => "command.category.navigation",
            Self::File => "command.category.file",
            Self::SelectionAndMarks => "command.category.selection_marks",
            Self::View => "command.category.view",
            Self::Search => "command.category.search",
            Self::Ai => "command.category.ai",
            Self::Jobs => "command.category.jobs",
            Self::Settings => "command.category.settings",
        }
    }
}

/// What a command is, independent of how it is invoked.
#[derive(Debug, Clone, PartialEq, Eq)]
pub struct Command {
    id: CommandId,
    category: CommandCategory,
    label_key: &'static str,
    destructive: bool,
}

impl Command {
    /// The id's text, for specifications.
    pub closed spec fn spec_id(&self) -> Seq<char> {
        self.id@
    }

    /// The category, for specifications.
    pub closed spec fn spec_category(&self) -> CommandCategory {
        self.category
    }

    /// The label key, for specifications.
    pub closed spec fn spec_label_key(&self) -> Seq<char> {
        self.label_key@
    }

    /// Whether it is destructive, for specifications.
    pub closed spec fn spec_destructive(&self) -> bool {
        self.destructive
    }

    /// Define a command.
    pub fn new(id: &str, category: CommandCategory, label_key: &'static str) -> (r: Self)
        ensures
            r.spec_id() == id@,
            r.spec_category() == category,
            r.spec_label_key() == label_key@,
            !r.spec_destructive(),
    {
        Self { id: CommandId::new(id), category, label_key, destructive: false }
    }

    /// Mark a command as destructive, so the UI can confirm and the palette
    /// can flag it.
    pub fn destructive(self) -> (r: Self)
        ensures
            r.spec_id() == self.spec_id(),
            r.spec_category() == self.spec_category(),
            r.spec_label_key() == self.spec_label_key(),
            r.spec_destructive(),
    {
        Self { destructive: true, ..self }
    }

    /// Identifier.
    pub fn id(&self) -> (r: &CommandId)
        ensures
            r@ == self.spec_id(),
    {
        &self.id
    }

    /// Category.
    pub fn category(&self) -> (r: CommandCategory)
        ensures
            r == self.spec_category(),
    {
        self.category
    }

    /// Localisation key for the label; never English text.
    pub fn label_key(&self) -> (r: &'static str)
        ensures
            r@ == self.spec_label_key(),
    {
        self.label_key
    }

    /// Whether invoking this can destroy data.
    pub fn is_destructive(&self) -> (r: bool)
        ensures
            r == self.spec_destructive(),
    {
        self.destructive
    }
}

/// Every command the application knows about, in id order.
#[derive(Debug, Clone)]
pub struct CommandRegistry {
    commands: TextMap<CommandId, Command>,
}

impl CommandRegistry {
    /// The entries, in id order.
    pub closed spec fn entries(&self) -> Seq<(CommandId, Command)> {
        self.commands.entries()
    }

    /// Sorted, each id once, each command filed under its own id.
    pub closed spec fn wf(&self) -> bool {
        &&& self.commands.wf()
        &&& forall|i: int|
            0 <= i < self.commands.entries().len() ==> (#[trigger] self.commands.entries()[i]).1.spec_id()
                == self.commands.entries()[i].0@
    }

    /// Whether a command with this id is registered.
    pub closed spec fn has(&self, id: Seq<char>) -> bool {
        self.commands.has(id)
    }

    /// The command registered under an id.
    pub closed spec fn command_of(&self, id: Seq<char>) -> Command {
        self.commands.value_of(id)
    }

    /// What a well-formed registry's entries are: one per registered id,
    /// in strictly increasing id order, each the command filed under its id.
    pub proof fn lemma_entries(&self)
        requires
            self.wf(),
        ensures
            self.size() == self.entries().len(),
            forall|i: int| 0 <= i < self.entries().len() ==> {
                &&& self.has((#[trigger] self.entries()[i]).0@)
                &&& self.command_of(self.entries()[i].0@) == self.entries()[i].1
                &&& self.entries()[i].1.spec_id() == self.entries()[i].0@
            },
            forall|id: Seq<char>| #[trigger] self.has(id) ==> exists|i: int| 0 <= i < self.entries().len() && self.entries()[i].0@ == id,
            forall|i: int, j: int| 0 <= i < j < self.entries().len() ==> crate::ordered::seq_lt(
                (#[trigger] self.entries()[i]).0@,
                (#[trigger] self.entries()[j]).0@,
            ),
    {
        assert forall|i: int| 0 <= i < self.entries().len() implies {
            &&& self.has((#[trigger] self.entries()[i]).0@)
            &&& self.command_of(self.entries()[i].0@) == self.entries()[i].1
            &&& self.entries()[i].1.spec_id() == self.entries()[i].0@
        } by {
            self.commands.lemma_value_at(i);
            assert(self.commands.keys()[i] == self.entries()[i].0@);
        }
        assert forall|id: Seq<char>| #[trigger] self.has(id) implies exists|i: int| 0 <= i < self.entries().len() && self.entries()[i].0@ == id by {
            let i = choose|i: int| 0 <= i < self.commands.keys().len() && self.commands.keys()[i] == id;
            assert(self.entries()[i].0@ == id);
        }
        assert forall|i: int, j: int| 0 <= i < j < self.entries().len() implies crate::ordered::seq_lt(
            (#[trigger] self.entries()[i]).0@,
            (#[trigger] self.entries()[j]).0@,
        ) by {
            assert(self.commands.keys()[i] == self.entries()[i].0@);
            assert(self.commands.keys()[j] == self.entries()[j].0@);
        }
    }

    /// How many are registered.
    pub closed spec fn size(&self) -> nat {
        self.commands.entries().len()
    }

    /// An empty registry.
    pub fn new() -> (r: Self)
        ensures
            r.wf(),
            r.size() == 0,
            forall|id: Seq<char>| !r.has(id),
    {
        Self { commands: TextMap::new() }
    }

    /// Register a command, returning the previous definition under its id.
    pub fn register(&mut self, command: Command) -> (r: Option<Command>)
        requires
            old(self).wf(),
        ensures
            final(self).wf(),
            r is Some <==> old(self).has(command.spec_id()),
            final(self).has(command.spec_id()),
            forall|id: Seq<char>| id != command.spec_id() ==> (final(self).has(id) <==> old(self).has(id)),
            r matches Some(c) ==> c.spec_id() == command.spec_id(),
            final(self).command_of(command.spec_id()) == command,
            forall|id: Seq<char>| id != command.spec_id() && old(self).has(id) ==> #[trigger] final(self).command_of(id) == old(self).command_of(id),
            final(self).size() == old(self).size() + if r is Some { 0int } else { 1int },
    {
        let key = command.id().duplicate();
        let ghost k = command.spec_id();
        let r = self.commands.insert(key, command);
        proof {
            assert forall|i: int| 0 <= i < self.commands.entries().len() implies (
            #[trigger] self.commands.entries()[i]).1.spec_id() == self.commands.entries()[i].0@ by {
                if self.commands.keys()[i] != k {
                    assert(old(self).commands.entries().contains(self.commands.entries()[i]));
                    let j = choose|j: int|
                        0 <= j < old(self).commands.entries().len() && old(
                            self,
                        ).commands.entries()[j] == self.commands.entries()[i];
                    assert(old(self).commands.entries()[j].1.spec_id() == old(
                        self,
                    ).commands.entries()[j].0@);
                } else {
                    let w = choose|w: int|
                        0 <= w < self.commands.entries().len() && self.commands.keys()[w] == k
                            && self.commands.entries()[w].1 == command;
                    crate::ordered::lemma_lt_irreflexive(k);
                    if w != i {
                        if w < i {
                            assert(crate::ordered::seq_lt(
                                self.commands.keys()[w],
                                self.commands.keys()[i],
                            ));
                        } else {
                            assert(crate::ordered::seq_lt(
                                self.commands.keys()[i],
                                self.commands.keys()[w],
                            ));
                        }
                    }
                }
            }
        }
        r
    }

    /// Look up a command.
    pub fn get(&self, id: &CommandId) -> (r: Option<&Command>)
        requires
            self.wf(),
        ensures
            r is Some <==> self.has(id@),
            r matches Some(c) ==> c.spec_id() == id@,
            r matches Some(c) ==> *c == self.command_of(id@),
    {
        self.commands.get(id.as_str())
    }

    /// Whether a command exists.
    pub fn contains(&self, id: &CommandId) -> (r: bool)
        requires
            self.wf(),
        ensures
            r == self.has(id@),
    {
        self.commands.contains(id.as_str())
    }

    /// How many commands are registered.
    pub fn len(&self) -> (r: usize)
        ensures
            r == self.size(),
    {
        self.commands.len()
    }

    /// Whether nothing is registered.
    pub fn is_empty(&self) -> (r: bool)
        ensures
            r == (self.size() == 0),
    {
        self.commands.len() == 0
    }

    /// Every command, in id order.
    pub fn iter(&self) -> (r: std::vec::IntoIter<&Command>)
        requires
            self.wf(),
        ensures
            r.remaining() == self.entries().map_values(|e: (CommandId, Command)| &e.1),
    {
        let v = self.list();
        proof {
            broadcast use vstd::std_specs::vec::axiom_spec_into_iter;
            assert(v@ =~= self.entries().map_values(|e: (CommandId, Command)| &e.1));
        }
        v.into_iter()
    }

    /// Every command, in id order, as a list.
    pub fn list(&self) -> (r: Vec<&Command>)
        ensures
            r@.len() == self.size(),
            r@.len() == self.entries().len(),
            forall|i: int| 0 <= i < r@.len() ==> *r@[i] == self.entries()[i].1,
    {
        let entries = self.commands.as_slice();
        let mut out: Vec<&Command> = Vec::new();
        let mut i: usize = 0;
        while i < entries.len()
            invariant
                i <= entries@.len(),
                entries@ == self.entries(),
                out@.len() == i,
                forall|j: int| 0 <= j < i ==> *out@[j] == self.entries()[j].1,
            decreases entries.len() - i,
        {
            out.push(&entries[i].1);
            i += 1;
        }
        out
    }

    /// Commands in one category, in id order.
    pub fn in_category(&self, category: CommandCategory) -> (r: std::vec::IntoIter<&Command>)
        ensures
            r.remaining() == self.entries().map_values(|e: (CommandId, Command)| e.1).filter(
                |c: Command| c.spec_category() == category,
            ).map_values(|c: Command| &c),
    {
        let v = self.of_category(category);
        proof {
            broadcast use vstd::std_specs::vec::axiom_spec_into_iter;
        }
        v.into_iter()
    }

    /// Commands in one category, in id order, as a list.
    pub fn of_category(&self, category: CommandCategory) -> (r: Vec<&Command>)
        ensures
            r@ == self.entries().map_values(|e: (CommandId, Command)| e.1).filter(
                |c: Command| c.spec_category() == category,
            ).map_values(|c: Command| &c),
    {
        let entries = self.commands.as_slice();
        let mut out: Vec<&Command> = Vec::new();
        let mut i: usize = 0;
        let ghost pred = |c: Command| c.spec_category() == category;
        let ghost all = self.entries().map_values(|e: (CommandId, Command)| e.1);
        while i < entries.len()
            invariant
                i <= entries@.len(),
                entries@ == self.entries(),
                all == self.entries().map_values(|e: (CommandId, Command)| e.1),
                pred == (|c: Command| c.spec_category() == category),
                out@ == all.take(i as int).filter(pred).map_values(|c: Command| &c),
            decreases entries.len() - i,
        {
            proof {
                reveal_with_fuel(Seq::filter, 1);
                assert(all.take(i + 1).drop_last() =~= all.take(i as int));
            }
            if entries[i].1.category() == category {
                out.push(&entries[i].1);
                proof {
                    assert(all.take(i + 1).filter(pred) == all.take(i as int).filter(pred).push(
                        all[i as int],
                    ));
                    assert(out@ =~= all.take(i + 1).filter(pred).map_values(|c: Command| &c));
                }
            } else {
                proof {
                    assert(all.take(i + 1).filter(pred) == all.take(i as int).filter(pred));
                }
            }
            i += 1;
        }
        proof {
            assert(all.take(i as int) =~= all);
        }
        out
    }

    /// The baseline command set.
    pub fn baseline() -> (r: Self)
        ensures
            r.wf(),
            forall|i: int| 0 <= i < baseline_ids().len() ==> r.has(#[trigger] baseline_ids()[i]),
            forall|id: Seq<char>| r.has(id) ==> baseline_ids().contains(id),
            r.size() == baseline_ids().len(),
            forall|i: int| 0 <= i < baseline_ids().len() ==> {
                let c = r.command_of(#[trigger] baseline_ids()[i]);
                &&& c.spec_id() == baseline_ids()[i]
                &&& c.spec_category() == baseline_category(i)
                &&& c.spec_label_key() == "command."@ + baseline_ids()[i]
                &&& c.spec_destructive() == (i >= 38)
            },
    {
        let table = baseline_table();
        let mut registry = Self::new();
        let mut i: usize = 0;
        while i < table.len()
            invariant
                i <= table@.len(),
                table@.len() == baseline_ids().len(),
                forall|j: int| 0 <= j < table@.len() ==> (#[trigger] table@[j]).0@ == baseline_ids()[j],
                registry.wf(),
                forall|j: int| 0 <= j < table@.len() ==> (#[trigger] table@[j]).1 == baseline_category(j)
                    && table@[j].2@ == "command."@ + baseline_ids()[j] && table@[j].3 == (j >= 38),
                forall|j: int| 0 <= j < i ==> registry.has(#[trigger] baseline_ids()[j]),
                forall|id: Seq<char>| registry.has(id) ==> baseline_ids().take(i as int).contains(id),
                registry.size() == i,
                forall|j: int| 0 <= j < i ==> {
                    let c = registry.command_of(#[trigger] baseline_ids()[j]);
                    &&& c.spec_id() == baseline_ids()[j]
                    &&& c.spec_category() == baseline_category(j)
                    &&& c.spec_label_key() == "command."@ + baseline_ids()[j]
                    &&& c.spec_destructive() == (j >= 38)
                },
            decreases table.len() - i,
        {
            let (id, category, key, destructive) = table[i];
            let command = Command::new(id, category, key);
            let command = if destructive { command.destructive() } else { command };
            proof {
                lemma_baseline_distinct(i as int);
            }
            registry.register(command);
            proof {
                assert forall|q: Seq<char>| registry.has(q) implies baseline_ids().take(i + 1).contains(q) by {
                    if q == baseline_ids()[i as int] {
                        assert(baseline_ids().take(i + 1)[i as int] == q);
                    } else {
                        let w = choose|w: int| 0 <= w < i && baseline_ids().take(i as int)[w] == q;
                        assert(baseline_ids().take(i + 1)[w] == q);
                    }
                }
            }
            i += 1;
        }
        proof {
            assert(baseline_ids().take(i as int) =~= baseline_ids());
        }
        registry
    }
}

/// The baseline commands: id, category, label key, and whether destructive.
fn baseline_table() -> (r: Vec<(&'static str, CommandCategory, &'static str, bool)>)
    ensures
        r@.len() == baseline_ids().len(),
        forall|j: int| 0 <= j < r@.len() ==> (#[trigger] r@[j]).0@ == baseline_ids()[j],
        forall|j: int| 0 <= j < r@.len() ==> (#[trigger] r@[j]).1 == baseline_category(j)
            && r@[j].2@ == "command."@ + baseline_ids()[j] && r@[j].3 == (j >= 38),
{
    let r = vec![
        ("workspace.split.horizontal", CommandCategory::Workspace, "command.workspace.split.horizontal", false),
        ("workspace.split.vertical", CommandCategory::Workspace, "command.workspace.split.vertical", false),
        ("workspace.pane.next", CommandCategory::Workspace, "command.workspace.pane.next", false),
        ("workspace.pane.previous", CommandCategory::Workspace, "command.workspace.pane.previous", false),
        ("workspace.pane.close", CommandCategory::Workspace, "command.workspace.pane.close", false),
        ("tab.new", CommandCategory::Tabs, "command.tab.new", false),
        ("tab.close", CommandCategory::Tabs, "command.tab.close", false),
        ("tab.reopen", CommandCategory::Tabs, "command.tab.reopen", false),
        ("tab.duplicate", CommandCategory::Tabs, "command.tab.duplicate", false),
        ("tab.pin", CommandCategory::Tabs, "command.tab.pin", false),
        ("tab.next", CommandCategory::Tabs, "command.tab.next", false),
        ("tab.previous", CommandCategory::Tabs, "command.tab.previous", false),
        ("tab.move_to_pane", CommandCategory::Tabs, "command.tab.move_to_pane", false),
        ("nav.up", CommandCategory::Navigation, "command.nav.up", false),
        ("nav.back", CommandCategory::Navigation, "command.nav.back", false),
        ("nav.forward", CommandCategory::Navigation, "command.nav.forward", false),
        ("nav.home", CommandCategory::Navigation, "command.nav.home", false),
        ("nav.goto", CommandCategory::Navigation, "command.nav.goto", false),
        ("file.open", CommandCategory::File, "command.file.open", false),
        ("file.view", CommandCategory::File, "command.file.view", false),
        ("file.edit", CommandCategory::File, "command.file.edit", false),
        ("file.rename", CommandCategory::File, "command.file.rename", false),
        ("file.new_folder", CommandCategory::File, "command.file.new_folder", false),
        ("file.copy_to_target_pane", CommandCategory::File, "command.file.copy_to_target_pane", false),
        ("file.move_to_target_pane", CommandCategory::File, "command.file.move_to_target_pane", false),
        ("file.mark.toggle", CommandCategory::SelectionAndMarks, "command.file.mark.toggle", false),
        ("file.mark.all", CommandCategory::SelectionAndMarks, "command.file.mark.all", false),
        ("file.mark.none", CommandCategory::SelectionAndMarks, "command.file.mark.none", false),
        ("file.mark.invert", CommandCategory::SelectionAndMarks, "command.file.mark.invert", false),
        ("preview.toggle", CommandCategory::View, "command.preview.toggle", false),
        ("preview.quicklook", CommandCategory::View, "command.preview.quicklook", false),
        ("search.open", CommandCategory::Search, "command.search.open", false),
        ("search.ai", CommandCategory::Search, "command.search.ai", false),
        ("ai.ask", CommandCategory::Ai, "command.ai.ask", false),
        ("jobs.show", CommandCategory::Jobs, "command.jobs.show", false),
        ("jobs.cancel_active", CommandCategory::Jobs, "command.jobs.cancel_active", false),
        ("theme.set", CommandCategory::Settings, "command.theme.set", false),
        ("locale.set", CommandCategory::Settings, "command.locale.set", false),
        ("file.trash", CommandCategory::File, "command.file.trash", true),
        ("file.delete", CommandCategory::File, "command.file.delete", true),
    ];
    proof {
        reveal_strlit("command.");
        reveal_strlit("command.workspace.split.horizontal");
        reveal_strlit("command.workspace.split.vertical");
        reveal_strlit("command.workspace.pane.next");
        reveal_strlit("command.workspace.pane.previous");
        reveal_strlit("command.workspace.pane.close");
        reveal_strlit("command.tab.new");
        reveal_strlit("command.tab.close");
        reveal_strlit("command.tab.reopen");
        reveal_strlit("command.tab.duplicate");
        reveal_strlit("command.tab.pin");
        reveal_strlit("command.tab.next");
        reveal_strlit("command.tab.previous");
        reveal_strlit("command.tab.move_to_pane");
        reveal_strlit("command.nav.up");
        reveal_strlit("command.nav.back");
        reveal_strlit("command.nav.forward");
        reveal_strlit("command.nav.home");
        reveal_strlit("command.nav.goto");
        reveal_strlit("command.file.open");
        reveal_strlit("command.file.view");
        reveal_strlit("command.file.edit");
        reveal_strlit("command.file.rename");
        reveal_strlit("command.file.new_folder");
        reveal_strlit("command.file.copy_to_target_pane");
        reveal_strlit("command.file.move_to_target_pane");
        reveal_strlit("command.file.mark.toggle");
        reveal_strlit("command.file.mark.all");
        reveal_strlit("command.file.mark.none");
        reveal_strlit("command.file.mark.invert");
        reveal_strlit("command.preview.toggle");
        reveal_strlit("command.preview.quicklook");
        reveal_strlit("command.search.open");
        reveal_strlit("command.search.ai");
        reveal_strlit("command.ai.ask");
        reveal_strlit("command.jobs.show");
        reveal_strlit("command.jobs.cancel_active");
        reveal_strlit("command.theme.set");
        reveal_strlit("command.locale.set");
        reveal_strlit("command.file.trash");
        reveal_strlit("command.file.delete");
        reveal_strlit("workspace.split.horizontal");
        reveal_strlit("workspace.split.vertical");
        reveal_strlit("workspace.pane.next");
        reveal_strlit("workspace.pane.previous");
        reveal_strlit("workspace.pane.close");
        reveal_strlit("tab.new");
        reveal_strlit("tab.close");
        reveal_strlit("tab.reopen");
        reveal_strlit("tab.duplicate");
        reveal_strlit("tab.pin");
        reveal_strlit("tab.next");
        reveal_strlit("tab.previous");
        reveal_strlit("tab.move_to_pane");
        reveal_strlit("nav.up");
        reveal_strlit("nav.back");
        reveal_strlit("nav.forward");
        reveal_strlit("nav.home");
        reveal_strlit("nav.goto");
        reveal_strlit("file.open");
        reveal_strlit("file.view");
        reveal_strlit("file.edit");
        reveal_strlit("file.rename");
        reveal_strlit("file.new_folder");
        reveal_strlit("file.copy_to_target_pane");
        reveal_strlit("file.move_to_target_pane");
        reveal_strlit("file.mark.toggle");
        reveal_strlit("file.mark.all");
        reveal_strlit("file.mark.none");
        reveal_strlit("file.mark.invert");
        reveal_strlit("preview.toggle");
        reveal_strlit("preview.quicklook");
        reveal_strlit("search.open");
        reveal_strlit("search.ai");
        reveal_strlit("ai.ask");
        reveal_strlit("jobs.show");
        reveal_strlit("jobs.cancel_active");
        reveal_strlit("theme.set");
        reveal_strlit("locale.set");
        reveal_strlit("file.trash");
        reveal_strlit("file.delete");
        assert(r@[0].2@ =~= "command."@ + baseline_ids()[0]);
        assert(r@[1].2@ =~= "command."@ + baseline_ids()[1]);
        assert(r@[2].2@ =~= "command."@ + baseline_ids()[2]);
        assert(r@[3].2@ =~= "command."@ + baseline_ids()[3]);
        assert(r@[4].2@ =~= "command."@ + baseline_ids()[4]);
        assert(r@[5].2@ =~= "command."@ + baseline_ids()[5]);
        assert(r@[6].2@ =~= "command."@ + baseline_ids()[6]);
        assert(r@[7].2@ =~= "command."@ + baseline_ids()[7]);
        assert(r@[8].2@ =~= "command."@ + baseline_ids()[8]);
        assert(r@[9].2@ =~= "command."@ + baseline_ids()[9]);
        assert(r@[10].2@ =~= "command."@ + baseline_ids()[10]);
        assert(r@[11].2@ =~= "command."@ + baseline_ids()[11]);
        assert(r@[12].2@ =~= "command."@ + baseline_ids()[12]);
        assert(r@[13].2@ =~= "command."@ + baseline_ids()[13]);
        assert(r@[14].2@ =~= "command."@ + baseline_ids()[14]);
        assert(r@[15].2@ =~= "command."@ + baseline_ids()[15]);
        assert(r@[16].2@ =~= "command."@ + baseline_ids()[16]);
        assert(r@[17].2@ =~= "command."@ + baseline_ids()[17]);
        assert(r@[18].2@ =~= "command."@ + baseline_ids()[18]);
        assert(r@[19].2@ =~= "command."@ + baseline_ids()[19]);
        assert(r@[20].2@ =~= "command."@ + baseline_ids()[20]);
        assert(r@[21].2@ =~= "command."@ + baseline_ids()[21]);
        assert(r@[22].2@ =~= "command."@ + baseline_ids()[22]);
        assert(r@[23].2@ =~= "command."@ + baseline_ids()[23]);
        assert(r@[24].2@ =~= "command."@ + baseline_ids()[24]);
        assert(r@[25].2@ =~= "command."@ + baseline_ids()[25]);
        assert(r@[26].2@ =~= "command."@ + baseline_ids()[26]);
        assert(r@[27].2@ =~= "command."@ + baseline_ids()[27]);
        assert(r@[28].2@ =~= "command."@ + baseline_ids()[28]);
        assert(r@[29].2@ =~= "command."@ + baseline_ids()[29]);
        assert(r@[30].2@ =~= "command."@ + baseline_ids()[30]);
        assert(r@[31].2@ =~= "command."@ + baseline_ids()[31]);
        assert(r@[32].2@ =~= "command."@ + baseline_ids()[32]);
        assert(r@[33].2@ =~= "command."@ + baseline_ids()[33]);
        assert(r@[34].2@ =~= "command."@ + baseline_ids()[34]);
        assert(r@[35].2@ =~= "command."@ + baseline_ids()[35]);
        assert(r@[36].2@ =~= "command."@ + baseline_ids()[36]);
        assert(r@[37].2@ =~= "command."@ + baseline_ids()[37]);
        assert(r@[38].2@ =~= "command."@ + baseline_ids()[38]);
        assert(r@[39].2@ =~= "command."@ + baseline_ids()[39]);
    }
    r
}

/// The category of the baseline's command at `i`: the ids are listed
/// category by category, the two destructive file commands last.
pub open spec fn baseline_category(i: int) -> CommandCategory {
    if i < 5 {
        CommandCategory::Workspace
    } else if i < 13 {
        CommandCategory::Tabs
    } else if i < 18 {
        CommandCategory::Navigation
    } else if i < 25 {
        CommandCategory::File
    } else if i < 29 {
        CommandCategory::SelectionAndMarks
    } else if i < 31 {
        CommandCategory::View
    } else if i < 33 {
        CommandCategory::Search
    } else if i < 34 {
        CommandCategory::Ai
    } else if i < 36 {
        CommandCategory::Jobs
    } else if i < 38 {
        CommandCategory::Settings
    } else {
        CommandCategory::File
    }
}

/// The baseline's ids are all different.
#[verifier::rlimit(100)]
proof fn lemma_baseline_distinct(i: int)
    requires
        0 <= i < baseline_ids().len(),
    ensures
        forall|j: int| 0 <= j < baseline_ids().len() && j != i ==> baseline_ids()[j] != baseline_ids()[i],
{
    reveal_strlit("workspace.split.horizontal");
    reveal_strlit("workspace.split.vertical");
    reveal_strlit("workspace.pane.next");
    reveal_strlit("workspace.pane.previous");
    reveal_strlit("workspace.pane.close");
    reveal_strlit("tab.new");
    reveal_strlit("tab.close");
    reveal_strlit("tab.reopen");
    reveal_strlit("tab.duplicate");
    reveal_strlit("tab.pin");
    reveal_strlit("tab.next");
    reveal_strlit("tab.previous");
    reveal_strlit("tab.move_to_pane");
    reveal_strlit("nav.up");
    reveal_strlit("nav.back");
    reveal_strlit("nav.forward");
    reveal_strlit("nav.home");
    reveal_strlit("nav.goto");
    reveal_strlit("file.open");
    reveal_strlit("file.view");
    reveal_strlit("file.edit");
    reveal_strlit("file.rename");
    reveal_strlit("file.new_folder");
    reveal_strlit("file.copy_to_target_pane");
    reveal_strlit("file.move_to_target_pane");
    reveal_strlit("file.mark.toggle");
    reveal_strlit("file.mark.all");
    reveal_strlit("file.mark.none");
    reveal_strlit("file.mark.invert");
    reveal_strlit("preview.toggle");
    reveal_strlit("preview.quicklook");
    reveal_strlit("search.open");
    reveal_strlit("search.ai");
    reveal_strlit("ai.ask");
    reveal_strlit("jobs.show");
    reveal_strlit("jobs.cancel_active");
    reveal_strlit("theme.set");
    reveal_strlit("locale.set");
    reveal_strlit("file.trash");
    reveal_strlit("file.delete");
    let ids = baseline_ids();
    assert forall|j: int| 0 <= j < ids.len() && j != i implies ids[j] != ids[i] by {
        if ids[j] == ids[i] {
            assert(ids[j].len() == ids[i].len());
            assert(ids[j][0] == ids[i][0]);
            assert(ids[j][ids[j].len() - 1] == ids[i][ids[i].len() - 1]);
            assert(ids[j][5] == ids[i][5]);
            assert(ids[j][6] == ids[i][6]);
            assert(ids[j][9] == ids[i][9]);
            assert(ids[j][ids[j].len() - 2] == ids[i][ids[i].len() - 2]);
        }
    }
}

/// The ids the baseline registers.
pub open spec fn baseline_ids() -> Seq<Seq<char>> {
    seq![
        "workspace.split.horizontal"@, "workspace.split.vertical"@, "workspace.pane.next"@,
        "workspace.pane.previous"@, "workspace.pane.close"@, "tab.new"@, "tab.close"@,
        "tab.reopen"@, "tab.duplicate"@, "tab.pin"@, "tab.next"@, "tab.previous"@,
        "tab.move_to_pane"@, "nav.up"@, "nav.back"@, "nav.forward"@, "nav.home"@, "nav.goto"@,
        "file.open"@, "file.view"@, "file.edit"@, "file.rename"@, "file.new_folder"@,
        "file.copy_to_target_pane"@, "file.move_to_target_pane"@, "file.mark.toggle"@,
        "file.mark.all"@, "file.mark.none"@, "file.mark.invert"@, "preview.toggle"@,
        "preview.quicklook"@, "search.open"@, "search.ai"@, "ai.ask"@, "jobs.show"@,
        "jobs.cancel_active"@, "theme.set"@, "locale.set"@, "file.trash"@, "file.delete"@
    ]
}

} // verus!
