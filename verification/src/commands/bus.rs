//! The command bus.
//!
//! Everything that acts goes through here: a chord resolved by the keymap, a
//! menu item, a palette entry, a script, a test. One entry point means one
//! place to check that a command exists and one place to record what ran.

use vstd::prelude::*;

use crate::commands::ids::{Command, CommandId, CommandRegistry};
use crate::error::{Error, ErrorCode};
use crate::ordered::TextMap;
use crate::text::push_str;

verus! {

/// Why a dispatch failed.
#[derive(Debug, Clone, PartialEq, Eq)]
pub enum DispatchError {
    /// The command is not registered.
    Unknown(CommandId),
    /// The command is registered but nothing handles it yet.
    NoHandler(CommandId),
    /// The handler refused.
    Refused {
        /// Which command.
        command: CommandId,
        /// Why, as a core error.
        reason: Error,
    },
}

/// The developer-facing text of a dispatch error.
pub open spec fn dispatch_error_text(e: DispatchError) -> Seq<char> {
    match e {
        DispatchError::Unknown(id) => "unknown command: "@ + id@,
        DispatchError::NoHandler(id) => "no handler for command: "@ + id@,
        DispatchError::Refused { command, reason } => command@ + " refused: "@ + reason.spec_text(),
    }
}

impl DispatchError {
    /// A description for developers.
    pub fn to_string(&self) -> (r: String)
        ensures
            r@ == dispatch_error_text(*self),
    {
        let mut s = String::new();
        match self {
            DispatchError::Unknown(id) => {
                push_str(&mut s, "unknown command: ");
                push_str(&mut s, id.as_str());
            },
            DispatchError::NoHandler(id) => {
                push_str(&mut s, "no handler for command: ");
                push_str(&mut s, id.as_str());
            },
            DispatchError::Refused { command, reason } => {
                push_str(&mut s, command.as_str());
                push_str(&mut s, " refused: ");
                let t = reason.to_string();
                push_str(&mut s, t.as_str());
            },
        }
        s
    }
}

impl From<DispatchError> for Error {
    /// A refusal becomes the handler's own reason; an unknown or unhandled
    /// command becomes "unsupported" with the dispatch error's text.
    fn from(value: DispatchError) -> (r: Error)
        ensures
            value matches DispatchError::Refused { reason, .. } ==> r == reason,
            !(value is Refused) ==> r.spec_code() == ErrorCode::Unsupported && r.spec_context()
                == dispatch_error_text(value),
    {
        match value {
            DispatchError::Refused { reason, .. } => reason,
            other => {
                let text = other.to_string();
                Error::with_context(ErrorCode::Unsupported, text)
            },
        }
    }
}

impl vstd::std_specs::convert::FromSpecImpl<DispatchError> for Error {
    open spec fn obeys_from_spec() -> bool {
        false
    }

    open spec fn from_spec(v: DispatchError) -> Error {
        arbitrary()
    }
}

/// A command handler. It takes no key event and no toolkit type, so it
/// cannot tell whether a keyboard, a menu, a script or a test invoked it.
pub type Handler = Box<dyn Fn() -> Result<(), Error> + Send>;

/// Dispatches command ids to handlers.
pub struct CommandBus<H = Handler> {
    registry: CommandRegistry,
    handlers: TextMap<CommandId, usize>,
    slots: Vec<H>,
    history: Vec<CommandId>,
}

impl<H: Fn() -> Result<(), Error>> CommandBus<H> {
    /// The registry the bus checks against.
    pub closed spec fn spec_registry(&self) -> CommandRegistry {
        self.registry
    }

    /// Whether a command has a handler.
    pub closed spec fn handled(&self, id: Seq<char>) -> bool {
        self.handlers.has(id)
    }

    /// The handler attached to a command.
    pub closed spec fn handler_of(&self, id: Seq<char>) -> H {
        self.slots@[self.handlers.value_of(id) as int]
    }

    /// The commands dispatched so far, oldest first.
    pub closed spec fn spec_history(&self) -> Seq<Seq<char>> {
        self.history@.map_values(|c: CommandId| c@)
    }

    /// The registry is well formed, and every handler entry names a slot.
    pub closed spec fn wf(&self) -> bool {
        &&& self.registry.wf()
        &&& self.handlers.wf()
        &&& forall|i: int|
            0 <= i < self.handlers.entries().len() ==> #[trigger] self.handlers.entries()[i].1
                < self.slots@.len()
        &&& forall|k: Seq<char>| #[trigger] self.handlers.has(k) ==> self.handlers.value_of(k) < self.slots@.len()
        &&& forall|i: int| 0 <= i < self.slots@.len() ==> call_requires(#[trigger] self.slots@[i], ())
        &&& forall|k1: Seq<char>, k2: Seq<char>|
            #[trigger] self.handlers.has(k1) && #[trigger] self.handlers.has(k2) && k1 != k2
                ==> self.handlers.value_of(k1) != self.handlers.value_of(k2)
    }

    /// A bus over a registry, with no handlers and nothing dispatched.
    pub fn new(registry: CommandRegistry) -> (r: Self)
        requires
            registry.wf(),
        ensures
            r.wf(),
            r.spec_registry() == registry,
            forall|id: Seq<char>| !r.handled(id),
            r.spec_history() == Seq::<Seq<char>>::empty(),
    {
        let r = Self {
            registry,
            handlers: TextMap::new(),
            slots: Vec::new(),
            history: Vec::new(),
        };
        proof {
            assert(r.spec_history() =~= Seq::<Seq<char>>::empty());
        }
        r
    }

    /// The command registry.
    pub fn registry(&self) -> (r: &CommandRegistry)
        ensures
            *r == self.spec_registry(),
    {
        &self.registry
    }

    /// Attach a handler. A command that is not registered is refused, so a
    /// typo in a registration fails at startup rather than when the user
    /// presses the key.
    pub fn set_handler(&mut self, command: &str, handler: H) -> (r: Result<(), DispatchError>)
        requires
            old(self).wf(),
            call_requires(handler, ()),
        ensures
            final(self).wf(),
            final(self).spec_registry() == old(self).spec_registry(),
            final(self).spec_history() == old(self).spec_history(),
            old(self).spec_registry().has(command@) ==> {
                &&& r is Ok
                &&& forall|id: Seq<char>|
                    final(self).handled(id) <==> (old(self).handled(id) || id == command@)
                &&& final(self).handler_of(command@) == handler
                &&& forall|id: Seq<char>| #[trigger] old(self).handled(id) && id != command@
                    ==> final(self).handler_of(id) == old(self).handler_of(id)
            },
            !old(self).spec_registry().has(command@) ==> {
                &&& r matches Err(DispatchError::Unknown(id)) && id@ == command@
                &&& forall|id: Seq<char>| final(self).handled(id) == old(self).handled(id)
                &&& forall|id: Seq<char>| #[trigger] old(self).handled(id)
                    ==> final(self).handler_of(id) == old(self).handler_of(id)
            },
    {
        let id = CommandId::new(command);
        if !self.registry.contains(&id) {
            return Err(DispatchError::Unknown(id));
        }
        match self.handlers.get(command) {
            Some(slot) => {
                let at = *slot;
                proof {
                    let i = choose|i: int|
                        0 <= i < self.handlers.entries().len() && self.handlers.keys()[i]
                            == command@ && self.handlers.entries()[i].1 == at;
                    assert(self.handlers.entries()[i].1 < self.slots@.len());
                }
                self.slots.set(at, handler);
            },
            None => {
                let at = self.slots.len();
                self.slots.push(handler);
                let ghost before = self.handlers;
                self.handlers.insert(id, at);
                proof {
                    assert forall|i: int|
                        0 <= i < self.handlers.entries().len() implies #[trigger] self.handlers.entries()[i].1
                        < self.slots@.len() by {
                        if self.handlers.keys()[i] != command@ {
                            assert(before.entries().contains(self.handlers.entries()[i]));
                            let j = choose|j: int|
                                0 <= j < before.entries().len() && before.entries()[j]
                                    == self.handlers.entries()[i];
                            assert(before.entries()[j].1 < self.slots@.len());
                        } else {
                            let w = choose|w: int|
                                0 <= w < self.handlers.entries().len() && self.handlers.keys()[w]
                                    == command@ && self.handlers.entries()[w].1 == at;
                            crate::ordered::lemma_lt_irreflexive(command@);
                            if w < i {
                                assert(crate::ordered::seq_lt(
                                    self.handlers.keys()[w],
                                    self.handlers.keys()[i],
                                ));
                            } else if w > i {
                                assert(crate::ordered::seq_lt(
                                    self.handlers.keys()[i],
                                    self.handlers.keys()[w],
                                ));
                            }
                        }
                    }
                }
            },
        }
        Ok(())
    }

    /// Whether a command has a handler.
    pub fn has_handler(&self, command: &CommandId) -> (r: bool)
        requires
            self.wf(),
        ensures
            r == self.handled(command@),
    {
        self.handlers.contains(command.as_str())
    }

    /// Invoke a command by id.
    ///
    /// An unknown command and one with no handler are errors, and neither is
    /// recorded; otherwise the command is recorded and its handler runs, a
    /// refusal coming back as the handler's reason.
    pub fn dispatch(&mut self, command: &CommandId) -> (r: Result<(), DispatchError>)
        requires
            old(self).wf(),
        ensures
            final(self).wf(),
            final(self).spec_registry() == old(self).spec_registry(),
            forall|id: Seq<char>| #[trigger] final(self).handler_of(id) == old(self).handler_of(id),
            forall|id: Seq<char>| final(self).handled(id) == old(self).handled(id),
            !old(self).spec_registry().has(command@) ==> {
                &&& r matches Err(DispatchError::Unknown(id)) && id@ == command@
                &&& final(self).spec_history() == old(self).spec_history()
            },
            old(self).spec_registry().has(command@) && !old(self).handled(command@) ==> {
                &&& r matches Err(DispatchError::NoHandler(id)) && id@ == command@
                &&& final(self).spec_history() == old(self).spec_history()
            },
            old(self).spec_registry().has(command@) && old(self).handled(command@) ==> {
                &&& final(self).spec_history() == old(self).spec_history().push(command@)
                &&& exists|out: Result<(), Error>| {
                    &&& call_ensures(old(self).handler_of(command@), (), out)
                    &&& (out is Ok ==> r is Ok)
                    &&& (out matches Err(e) ==> (r matches Err(DispatchError::Refused { command: c, reason })
                        && c@ == command@ && reason == e))
                }
            },
    {
        if !self.registry.contains(command) {
            return Err(DispatchError::Unknown(command.duplicate()));
        }
        let at = match self.handlers.get(command.as_str()) {
            None => {
                return Err(DispatchError::NoHandler(command.duplicate()));
            },
            Some(slot) => *slot,
        };
        proof {
            let i = choose|i: int|
                0 <= i < self.handlers.entries().len() && self.handlers.keys()[i] == command@
                    && self.handlers.entries()[i].1 == at;
            assert(self.handlers.entries()[i].1 < self.slots@.len());
        }
        let ghost before = self.history@;
        self.history.push(command.duplicate());
        proof {
            assert(self.spec_history() =~= before.map_values(|c: CommandId| c@).push(command@));
        }
        let ghost h = old(self).handler_of(command@);
        proof {
            assert(at == old(self).handlers.value_of(command@));
            assert(self.slots@[at as int] == h);
        }
        let outcome = self.run_slot(at);
        let r = match outcome {
            Ok(()) => Ok(()),
            Err(reason) => Err(DispatchError::Refused { command: command.duplicate(), reason }),
        };
        proof {
            assert(call_ensures(h, (), outcome));
        }
        r
    }

    /// Run the handler in a slot: what comes back is the handler's own
    /// answer.
    fn run_slot(&self, at: usize) -> (r: Result<(), Error>)
        requires
            self.wf(),
            at < self.slots@.len(),
        ensures
            call_ensures(self.slots@[at as int], (), r),
    {
        let handler = &self.slots[at];
        handler()
    }

    /// Commands dispatched so far, oldest first.
    pub fn history(&self) -> (r: &[CommandId])
        ensures
            r@.map_values(|c: CommandId| c@) == self.spec_history(),
    {
        self.history.as_slice()
    }

    /// Registered commands that still have no handler, in id order: every
    /// command the palette lists must do something.
    pub fn unhandled(&self) -> (r: Vec<&CommandId>)
        requires
            self.wf(),
        ensures
            r@.map_values(|c: &CommandId| c@) == self.spec_registry().entries().map_values(
                |e: (CommandId, Command)| e.1.spec_id(),
            ).filter(|id: Seq<char>| !self.handled(id)),
    {
        let all = self.registry.list();
        let ghost ids = self.registry.entries().map_values(|e: (CommandId, Command)| e.1.spec_id());
        let ghost pred = |id: Seq<char>| !self.handled(id);
        let mut out: Vec<&CommandId> = Vec::new();
        let mut i: usize = 0;
        while i < all.len()
            invariant
                i <= all@.len() == ids.len(),
                self.wf(),
                ids == self.registry.entries().map_values(|e: (CommandId, Command)| e.1.spec_id()),
                forall|j: int| 0 <= j < all@.len() ==> *all@[j] == self.registry.entries()[j].1,
                pred == (|id: Seq<char>| !self.handled(id)),
                out@.map_values(|c: &CommandId| c@) == ids.take(i as int).filter(pred),
            decreases all.len() - i,
        {
            proof {
                reveal_with_fuel(Seq::filter, 1);
                assert(ids.take(i + 1).drop_last() =~= ids.take(i as int));
            }
            let id = all[i].id();
            proof {
                assert(id@ == ids[i as int]);
            }
            let ghost before = out@;
            if !self.handlers.contains(id.as_str()) {
                out.push(id);
                proof {
                    assert(out@.map_values(|c: &CommandId| c@) =~= before.map_values(
                        |c: &CommandId| c@,
                    ).push(ids[i as int]));
                }
            }
            i += 1;
        }
        proof {
            assert(ids.take(i as int) =~= ids);
        }
        out
    }
}

} // verus!
