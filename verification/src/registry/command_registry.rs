//! The central store of command definitions and their handlers, looked up
//! by canonical name or by alias. It is filled once at startup by a
//! sequence of `register` calls and read-only thereafter.
use vstd::prelude::*;

use crate::config::schema::CommandDefinition;
use crate::error::types::DynamicCliError;
use crate::error::types::RegistryError;
use crate::text::str_eq;

verus! {

/// The registry. Canonical names and aliases form one flat namespace: a
/// registration that collides with anything already present is rejected
/// whole. The handler type is chosen by the embedding application and is
/// opaque to the registry.
pub struct CommandRegistry<H> {
    commands: Vec<(CommandDefinition, H)>,
    aliases: Vec<(String, String)>,
}

impl<H> CommandRegistry<H> {
    /// The registered commands with their handlers, in registration order.
    pub closed spec fn spec_entries(&self) -> Seq<(CommandDefinition, H)> {
        self.commands@
    }

    /// The alias table: pairs of alias and canonical name, in registration
    /// order.
    pub closed spec fn spec_aliases(&self) -> Seq<(Seq<char>, Seq<char>)> {
        self.aliases@.map_values(|p: (String, String)| (p.0@, p.1@))
    }

    /// Whether `n` is a registered canonical name.
    pub open spec fn spec_has_command(&self, n: Seq<char>) -> bool {
        exists|i: int|
            0 <= i < self.spec_entries().len() && (#[trigger] self.spec_entries()[i]).0.name@ == n
    }

    /// Whether `n` is a registered alias.
    pub open spec fn spec_has_alias(&self, n: Seq<char>) -> bool {
        exists|i: int|
            0 <= i < self.spec_aliases().len() && (#[trigger] self.spec_aliases()[i]).0 == n
    }

    /// The canonical name an alias maps to.
    pub open spec fn spec_alias_target(&self, n: Seq<char>) -> Seq<char> {
        let i = choose|i: int|
            0 <= i < self.spec_aliases().len() && (#[trigger] self.spec_aliases()[i]).0 == n;
        self.spec_aliases()[i].1
    }

    /// What resolution returns: canonical names win over aliases; anything
    /// else resolves to nothing.
    pub open spec fn spec_resolve(&self, n: Seq<char>) -> Option<Seq<char>> {
        if self.spec_has_command(n) {
            Some(n)
        } else if self.spec_has_alias(n) {
            Some(self.spec_alias_target(n))
        } else {
            None
        }
    }

    /// The definition registered under canonical name `n`.
    pub open spec fn spec_command_def(&self, n: Seq<char>) -> CommandDefinition {
        let i = choose|i: int|
            0 <= i < self.spec_entries().len() && (#[trigger] self.spec_entries()[i]).0.name@
                == n;
        self.spec_entries()[i].0
    }

    /// The handler registered under canonical name `n`.
    pub open spec fn spec_command_handler(&self, n: Seq<char>) -> H {
        let i = choose|i: int|
            0 <= i < self.spec_entries().len() && (#[trigger] self.spec_entries()[i]).0.name@
                == n;
        self.spec_entries()[i].1
    }

    /// Whether `n` collides with the namespace: it is already a canonical
    /// name or an alias.
    pub open spec fn spec_conflicts(&self, n: Seq<char>) -> bool {
        self.spec_has_command(n) || self.spec_has_alias(n)
    }

    /// The position of the first alias that collides with the namespace,
    /// or -1 when none does.
    pub open spec fn spec_first_alias_conflict(&self, aliases: Seq<String>) -> int
        decreases aliases.len(),
    {
        if aliases.len() == 0 {
            -1
        } else if self.spec_conflicts(aliases[0]@) {
            0
        } else {
            let r = self.spec_first_alias_conflict(aliases.drop_first());
            if r == -1 {
                -1
            } else {
                r + 1
            }
        }
    }

    /// Well-formedness: canonical names are unique; two equal alias keys
    /// agree on their target; every alias targets a registered canonical
    /// name; an alias equal to a canonical name is that command's
    /// self-alias.
    pub open spec fn wf(&self) -> bool {
        &&& forall|i: int, j: int|
            0 <= i < j < self.spec_entries().len() ==> (
            #[trigger] self.spec_entries()[i]).0.name@ != (
            #[trigger] self.spec_entries()[j]).0.name@
        &&& forall|i: int, j: int|
            0 <= i < self.spec_aliases().len() && 0 <= j < self.spec_aliases().len() && (
            #[trigger] self.spec_aliases()[i]).0 == (#[trigger] self.spec_aliases()[j]).0
                ==> self.spec_aliases()[i].1 == self.spec_aliases()[j].1
        &&& forall|i: int|
            0 <= i < self.spec_aliases().len() ==> self.spec_has_command(
                (#[trigger] self.spec_aliases()[i]).1,
            )
        &&& forall|i: int|
            0 <= i < self.spec_aliases().len() ==> (self.spec_has_command(
                (#[trigger] self.spec_aliases()[i]).0,
            ) ==> self.spec_aliases()[i].0 == self.spec_aliases()[i].1)
    }

    /// Whether a registration would be accepted: its name and every alias
    /// must be new to the whole namespace.
    pub open spec fn spec_accepts(&self, definition: CommandDefinition) -> bool {
        &&& !self.spec_has_command(definition.name@)
        &&& !self.spec_has_alias(definition.name@)
        &&& forall|j: int|
            0 <= j < definition.aliases@.len() ==> !self.spec_has_command(
                (#[trigger] definition.aliases@[j])@,
            ) && !self.spec_has_alias(definition.aliases@[j]@)
    }

    proof fn lemma_first_alias_conflict(&self, aliases: Seq<String>)
        ensures
            self.spec_first_alias_conflict(aliases) >= -1,
            self.spec_first_alias_conflict(aliases) == -1 ==> forall|j: int|
                0 <= j < aliases.len() ==> !self.spec_conflicts((#[trigger] aliases[j])@),
            self.spec_first_alias_conflict(aliases) >= 0 ==> 0 <= self.spec_first_alias_conflict(
                aliases,
            ) < aliases.len() && self.spec_conflicts(
                aliases[self.spec_first_alias_conflict(aliases)]@,
            ) && forall|j: int|
                0 <= j < self.spec_first_alias_conflict(aliases) ==> !self.spec_conflicts(
                    (#[trigger] aliases[j])@,
                ),
        decreases aliases.len(),
    {
        if aliases.len() == 0 {
        } else if self.spec_conflicts(aliases[0]@) {
        } else {
            self.lemma_first_alias_conflict(aliases.drop_first());
            let r = self.spec_first_alias_conflict(aliases.drop_first());
            if r == -1 {
                assert forall|j: int|
                    0 <= j < aliases.len() implies !self.spec_conflicts(
                    (#[trigger] aliases[j])@,
                ) by {
                    if j > 0 {
                        assert(aliases.drop_first()[j - 1] == aliases[j]);
                    }
                }
            } else {
                assert(aliases.drop_first()[r] == aliases[r + 1]);
                assert forall|j: int|
                    0 <= j < r + 1 implies !self.spec_conflicts((#[trigger] aliases[j])@) by {
                    if j > 0 {
                        assert(aliases.drop_first()[j - 1] == aliases[j]);
                    }
                }
            }
        }
    }

    /// An empty registry.
    pub fn new() -> (r: CommandRegistry<H>)
        ensures
            r.spec_entries().len() == 0,
            r.spec_aliases().len() == 0,
            r.wf(),
    {
        CommandRegistry { commands: Vec::new(), aliases: Vec::new() }
    }

    /// Registers a command with its handler, together with all its aliases.
    /// A registration whose name or aliases collide with anything already
    /// registered is rejected whole: the registry is left unchanged.
    pub fn register(&mut self, definition: CommandDefinition, handler: H) -> (r: Result<
        (),
        DynamicCliError,
    >)
        requires
            old(self).wf(),
        ensures
            final(self).wf(),
            r is Ok <==> old(self).spec_accepts(definition),
            r is Err ==> *final(self) == *old(self),
            r matches Err(e) ==> e is Registry,
            old(self).spec_has_command(definition.name@) ==> (r matches Err(
                DynamicCliError::Registry(RegistryError::DuplicateRegistration { name }),
            ) && name@ == definition.name@),
            !old(self).spec_has_command(definition.name@) && old(self).spec_has_alias(
                definition.name@,
            ) ==> (r matches Err(
                DynamicCliError::Registry(RegistryError::DuplicateAlias { alias, existing_command }),
            ) && alias@ == definition.name@),
            !old(self).spec_conflicts(definition.name@) && old(self).spec_first_alias_conflict(
                definition.aliases@,
            ) >= 0 ==> (r matches Err(
                DynamicCliError::Registry(RegistryError::DuplicateAlias { alias, existing_command }),
            ) && ({
                let j = old(self).spec_first_alias_conflict(definition.aliases@);
                &&& alias@ == definition.aliases@[j]@
                &&& (old(self).spec_has_command(definition.aliases@[j]@) ==> existing_command@
                    == definition.aliases@[j]@)
                &&& (!old(self).spec_has_command(definition.aliases@[j]@) ==> existing_command@
                    == old(self).spec_alias_target(definition.aliases@[j]@))
            })),
            r is Ok ==> final(self).spec_entries() == old(self).spec_entries().push(
                (definition, handler),
            ) && final(self).spec_aliases() == old(self).spec_aliases()
                + definition.aliases@.map_values(|a: String| (a@, definition.name@)),
    {
        let ghost old_self = *self;
        if self.contains_command_name(&definition.name) {
            return Err(
                DynamicCliError::Registry(
                    RegistryError::DuplicateRegistration { name: definition.name.clone() },
                ),
            );
        }
        match self.find_alias_target(definition.name.as_str()) {
            Some(existing) => {
                return Err(
                    DynamicCliError::Registry(
                        RegistryError::DuplicateAlias {
                            alias: definition.name.clone(),
                            existing_command: existing,
                        },
                    ),
                );
            },
            None => {},
        }
        let mut j: usize = 0;
        while j < definition.aliases.len()
            invariant
                0 <= j <= definition.aliases@.len(),
                *self == old_self,
                old_self.wf(),
                forall|k: int|
                    0 <= k < j ==> !old_self.spec_has_command(
                        (#[trigger] definition.aliases@[k])@,
                    ) && !old_self.spec_has_alias(definition.aliases@[k]@),
            decreases definition.aliases@.len() - j,
        {
            let alias = &definition.aliases[j];
            if self.contains_command_name(alias) {
                proof {
                    lemma_conflict_position(old_self, definition.aliases@, j as int);
                }
                return Err(
                    DynamicCliError::Registry(
                        RegistryError::DuplicateAlias {
                            alias: alias.clone(),
                            existing_command: alias.clone(),
                        },
                    ),
                );
            }
            match self.find_alias_target(alias.as_str()) {
                Some(existing) => {
                    proof {
                        lemma_conflict_position(old_self, definition.aliases@, j as int);
                    }
                    return Err(
                        DynamicCliError::Registry(
                            RegistryError::DuplicateAlias {
                                alias: alias.clone(),
                                existing_command: existing,
                            },
                        ),
                    );
                },
                None => {},
            }
            j += 1;
        }
        proof {
            old_self.lemma_first_alias_conflict(definition.aliases@);
            if old_self.spec_first_alias_conflict(definition.aliases@) >= 0 {
                let f = old_self.spec_first_alias_conflict(definition.aliases@);
                assert(!old_self.spec_conflicts((#[trigger] definition.aliases@[f])@));
            }
        }
        let ghost new_pairs = definition.aliases@.map_values(
            |a: String| (a@, definition.name@),
        );
        let ghost raw_pairs = definition.aliases@.map_values(
            |a: String| (a, definition.name),
        );
        let mut k: usize = 0;
        while k < definition.aliases.len()
            invariant
                0 <= k <= definition.aliases@.len(),
                self.spec_entries() == old_self.spec_entries(),
                raw_pairs == definition.aliases@.map_values(
                    |a: String| (a, definition.name),
                ),
                raw_pairs.len() == definition.aliases@.len(),
                self.aliases@ == old_self.aliases@ + raw_pairs.take(k as int),
                old_self.wf(),
                forall|p: int|
                    0 <= p < definition.aliases@.len() ==> !old_self.spec_has_command(
                        (#[trigger] definition.aliases@[p])@,
                    ) && !old_self.spec_has_alias(definition.aliases@[p]@),
                !old_self.spec_has_command(definition.name@),
                !old_self.spec_has_alias(definition.name@),
            decreases definition.aliases@.len() - k,
        {
            let pair = (definition.aliases[k].clone(), definition.name.clone());
            self.aliases.push(pair);
            proof {
                assert(raw_pairs[k as int] == (
                    definition.aliases@[k as int],
                    definition.name,
                ));
                assert(self.aliases@ =~= old_self.aliases@ + raw_pairs.take(k + 1));
            }
            k += 1;
        }
        proof {
            assert(raw_pairs.take(raw_pairs.len() as int) =~= raw_pairs);
            assert(new_pairs.len() == raw_pairs.len());
        }
        assert(new_pairs.take(new_pairs.len() as int) =~= new_pairs);
        self.commands.push((definition, handler));
        proof {
            let news = *self;
            assert(news.spec_entries() =~= old_self.spec_entries().push((definition, handler)));
            let n0 = old_self.spec_aliases().len() as int;
            assert(news.aliases@ == old_self.aliases@ + raw_pairs);
            assert forall|i: int|
                0 <= i < news.spec_aliases().len() implies news.spec_aliases()[i] == (
            old_self.spec_aliases() + new_pairs)[i] by {
                if i < n0 {
                    assert(news.aliases@[i] == old_self.aliases@[i]);
                } else {
                    assert(news.aliases@[i] == raw_pairs[i - n0]);
                    assert(raw_pairs[i - n0] == (
                        definition.aliases@[i - n0],
                        definition.name,
                    ));
                    assert(new_pairs[i - n0] == (
                        definition.aliases@[i - n0]@,
                        definition.name@,
                    ));
                }
            }
            assert(news.spec_aliases() =~~= old_self.spec_aliases() + new_pairs);
            let c0 = old_self.spec_entries().len() as int;
            assert forall|i: int|
                0 <= i < news.spec_aliases().len() implies news.spec_has_command(
                (#[trigger] news.spec_aliases()[i]).1,
            ) by {
                if i < n0 {
                    assert(news.spec_aliases()[i] == old_self.spec_aliases()[i]);
                    let c = choose|c: int|
                        0 <= c < old_self.spec_entries().len() && (
                        #[trigger] old_self.spec_entries()[c]).0.name@ == old_self.spec_aliases()[
                            i
                        ].1;
                    assert((#[trigger] news.spec_entries()[c]).0.name@ == news.spec_aliases()[
                        i
                    ].1);
                } else {
                    assert(news.spec_aliases()[i] == new_pairs[i - n0]);
                    assert(news.spec_aliases()[i].1 == definition.name@);
                    assert((#[trigger] news.spec_entries()[c0]).0.name@ == definition.name@);
                }
            }
            assert forall|i: int|
                0 <= i < news.spec_aliases().len() && news.spec_has_command(
                    (#[trigger] news.spec_aliases()[i]).0,
                ) implies news.spec_aliases()[i].0 == news.spec_aliases()[i].1 by {
                let c = choose|c: int|
                    0 <= c < news.spec_entries().len() && (
                    #[trigger] news.spec_entries()[c]).0.name@ == news.spec_aliases()[i].0;
                if i < n0 {
                    assert(news.spec_aliases()[i] == old_self.spec_aliases()[i]);
                    if c < c0 {
                        assert((#[trigger] old_self.spec_entries()[c]).0.name@
                            == old_self.spec_aliases()[i].0);
                        assert(old_self.spec_has_command(old_self.spec_aliases()[i].0));
                    } else {
                        assert(news.spec_entries()[c].0.name@ == definition.name@);
                        assert((#[trigger] old_self.spec_aliases()[i]).0 == definition.name@);
                        assert(old_self.spec_has_alias(definition.name@));
                        assert(false);
                    }
                } else {
                    let p = i - n0;
                    assert(news.spec_aliases()[i] == new_pairs[p]);
                    assert(news.spec_aliases()[i].0 == definition.aliases@[p]@);
                    if c < c0 {
                        assert((#[trigger] old_self.spec_entries()[c]).0.name@
                            == definition.aliases@[p]@);
                        assert(old_self.spec_has_command(definition.aliases@[p]@));
                        assert(false);
                    } else {
                        assert(news.spec_aliases()[i].0 == definition.name@);
                        assert(news.spec_aliases()[i].1 == definition.name@);
                    }
                }
            }
            assert forall|i: int, j: int|
                0 <= i < news.spec_aliases().len() && 0 <= j < news.spec_aliases().len() && (
                #[trigger] news.spec_aliases()[i]).0 == (
                #[trigger] news.spec_aliases()[j]).0 implies news.spec_aliases()[i].1
                == news.spec_aliases()[j].1 by {
                if i < n0 && j >= n0 {
                    assert(news.spec_aliases()[i] == old_self.spec_aliases()[i]);
                    assert(news.spec_aliases()[j] == new_pairs[j - n0]);
                    assert((#[trigger] old_self.spec_aliases()[i]).0 == definition.aliases@[
                        j - n0
                    ]@);
                    assert(old_self.spec_has_alias(definition.aliases@[j - n0]@));
                    assert(false);
                } else if i >= n0 && j < n0 {
                    assert(news.spec_aliases()[j] == old_self.spec_aliases()[j]);
                    assert(news.spec_aliases()[i] == new_pairs[i - n0]);
                    assert((#[trigger] old_self.spec_aliases()[j]).0 == definition.aliases@[
                        i - n0
                    ]@);
                    assert(old_self.spec_has_alias(definition.aliases@[i - n0]@));
                    assert(false);
                } else if i < n0 && j < n0 {
                    assert(news.spec_aliases()[i] == old_self.spec_aliases()[i]);
                    assert(news.spec_aliases()[j] == old_self.spec_aliases()[j]);
                } else {
                    assert(news.spec_aliases()[i] == new_pairs[i - n0]);
                    assert(news.spec_aliases()[j] == new_pairs[j - n0]);
                }
            }
            assert forall|i: int, j: int|
                0 <= i < j < news.spec_entries().len() implies (
            #[trigger] news.spec_entries()[i]).0.name@ != (
            #[trigger] news.spec_entries()[j]).0.name@ by {
                if j < c0 {
                    assert(news.spec_entries()[i] == old_self.spec_entries()[i]);
                    assert(news.spec_entries()[j] == old_self.spec_entries()[j]);
                } else {
                    assert(news.spec_entries()[i] == old_self.spec_entries()[i]);
                    assert(news.spec_entries()[j].0.name@ == definition.name@);
                    if news.spec_entries()[i].0.name@ == definition.name@ {
                        assert((#[trigger] old_self.spec_entries()[i]).0.name@
                            == definition.name@);
                        assert(old_self.spec_has_command(definition.name@));
                        assert(false);
                    }
                }
            }
        }
        Ok(())
    }

    /// Whether `name` equals a registered canonical name.
    fn contains_command_name(&self, name: &String) -> (r: bool)
        ensures
            r == self.spec_has_command(name@),
    {
        let mut i: usize = 0;
        while i < self.commands.len()
            invariant
                0 <= i <= self.spec_entries().len(),
                forall|k: int|
                    0 <= k < i ==> (#[trigger] self.spec_entries()[k]).0.name@ != name@,
            decreases self.spec_entries().len() - i,
        {
            if str_eq(self.commands[i].0.name.as_str(), name.as_str()) {
                return true;
            }
            i += 1;
        }
        false
    }

    /// The canonical name the alias `name` maps to, if it is an alias.
    fn find_alias_target(&self, name: &str) -> (r: Option<String>)
        requires
            self.wf(),
        ensures
            r is Some <==> self.spec_has_alias(name@),
            r matches Some(t) ==> t@ == self.spec_alias_target(name@),
    {
        let mut i: usize = 0;
        while i < self.aliases.len()
            invariant
                0 <= i <= self.spec_aliases().len(),
                self.wf(),
                forall|k: int| 0 <= k < i ==> (#[trigger] self.spec_aliases()[k]).0 != name@,
            decreases self.spec_aliases().len() - i,
        {
            if str_eq(self.aliases[i].0.as_str(), name) {
                proof {
                    assert((#[trigger] self.spec_aliases()[i as int]).0 == name@);
                }
                return Some(self.aliases[i].1.clone());
            }
            proof {
                assert((#[trigger] self.spec_aliases()[i as int]).0 == self.aliases@[i as int].0@);
            }
            i += 1;
        }
        None
    }

    /// Resolves a typed name to the canonical command name: canonical names
    /// first, then aliases; exact, case-sensitive matching only.
    pub fn resolve_name(&self, name: &str) -> (r: Option<String>)
        requires
            self.wf(),
        ensures
            r is Some <==> self.spec_resolve(name@) is Some,
            r matches Some(s) ==> (self.spec_resolve(name@) matches Some(t) && s@ == t),
    {
        let mut i: usize = 0;
        while i < self.commands.len()
            invariant
                0 <= i <= self.spec_entries().len(),
                self.wf(),
                forall|k: int|
                    0 <= k < i ==> (#[trigger] self.spec_entries()[k]).0.name@ != name@,
            decreases self.spec_entries().len() - i,
        {
            if str_eq(self.commands[i].0.name.as_str(), name) {
                proof {
                    assert((#[trigger] self.spec_entries()[i as int]).0.name@ == name@);
                }
                return Some(self.commands[i].0.name.clone());
            }
            i += 1;
        }
        self.find_alias_target(name)
    }

    /// The definition of the command `name` resolves to.
    pub fn get_definition(&self, name: &str) -> (r: Option<&CommandDefinition>)
        requires
            self.wf(),
        ensures
            r is Some <==> self.spec_resolve(name@) is Some,
            r matches Some(d) ==> (self.spec_resolve(name@) matches Some(t) && d.name@ == t && *d
                == self.spec_command_def(t)),
    {
        let resolved = self.resolve_name(name);
        match resolved {
            None => None,
            Some(canonical) => {
                let ghost t = self.spec_resolve(name@)->Some_0;
                proof {
                    if !self.spec_has_command(t) {
                        let a = choose|a: int|
                            0 <= a < self.spec_aliases().len() && (
                            #[trigger] self.spec_aliases()[a]).0 == name@;
                        assert(self.spec_has_command(self.spec_aliases()[a].1));
                    }
                }
                let mut i: usize = 0;
                while i < self.commands.len()
                    invariant
                        0 <= i <= self.spec_entries().len(),
                        self.wf(),
                        canonical@ == t,
                        self.spec_has_command(t),
                        forall|k: int|
                            0 <= k < i ==> (#[trigger] self.spec_entries()[k]).0.name@
                                != canonical@,
                    decreases self.spec_entries().len() - i,
                {
                    if str_eq(self.commands[i].0.name.as_str(), canonical.as_str()) {
                        proof {
                            assert((#[trigger] self.spec_entries()[i as int]).0.name@ == t);
                            let c = choose|c: int|
                                0 <= c < self.spec_entries().len() && (
                                #[trigger] self.spec_entries()[c]).0.name@ == t;
                            if c != i as int {
                                assert((#[trigger] self.spec_entries()[c]).0.name@ == (
                                #[trigger] self.spec_entries()[i as int]).0.name@);
                            }
                        }
                        return Some(&self.commands[i].0);
                    }
                    i += 1;
                }
                proof {
                    let c = choose|c: int|
                        0 <= c < self.spec_entries().len() && (
                        #[trigger] self.spec_entries()[c]).0.name@ == t;
                    assert(false);
                }
                None
            },
        }
    }

    /// The handler of the command `name` resolves to: the exact handler
    /// value that was registered with that command.
    pub fn get_handler(&self, name: &str) -> (r: Option<&H>)
        requires
            self.wf(),
        ensures
            r is Some <==> self.spec_resolve(name@) is Some,
            r matches Some(h) ==> (self.spec_resolve(name@) matches Some(t) && *h
                == self.spec_command_handler(t)),
    {
        let resolved = self.resolve_name(name);
        match resolved {
            None => None,
            Some(canonical) => {
                let ghost t = self.spec_resolve(name@)->Some_0;
                proof {
                    if !self.spec_has_command(t) {
                        let a = choose|a: int|
                            0 <= a < self.spec_aliases().len() && (
                            #[trigger] self.spec_aliases()[a]).0 == name@;
                        assert(self.spec_has_command(self.spec_aliases()[a].1));
                    }
                }
                let mut i: usize = 0;
                while i < self.commands.len()
                    invariant
                        0 <= i <= self.spec_entries().len(),
                        self.wf(),
                        canonical@ == t,
                        self.spec_has_command(t),
                        forall|k: int|
                            0 <= k < i ==> (#[trigger] self.spec_entries()[k]).0.name@
                                != canonical@,
                    decreases self.spec_entries().len() - i,
                {
                    if str_eq(self.commands[i].0.name.as_str(), canonical.as_str()) {
                        proof {
                            assert((#[trigger] self.spec_entries()[i as int]).0.name@ == t);
                            let c = choose|c: int|
                                0 <= c < self.spec_entries().len() && (
                                #[trigger] self.spec_entries()[c]).0.name@ == t;
                            if c != i as int {
                                assert((#[trigger] self.spec_entries()[c]).0.name@ == (
                                #[trigger] self.spec_entries()[i as int]).0.name@);
                            }
                            assert(self.spec_entries()[i as int].1 == self.spec_command_handler(
                                t,
                            ));
                        }
                        return Some(&self.commands[i].1);
                    }
                    i += 1;
                }
                proof {
                    let c = choose|c: int|
                        0 <= c < self.spec_entries().len() && (
                        #[trigger] self.spec_entries()[c]).0.name@ == t;
                    assert(false);
                }
                None
            },
        }
    }

    /// All registered command definitions, in registration order.
    pub fn list_commands(&self) -> (r: Vec<&CommandDefinition>)
        ensures
            r@.len() == self.spec_entries().len(),
            forall|i: int| 0 <= i < r@.len() ==> *r@[i] == (#[trigger] self.spec_entries()[i]).0,
    {
        let mut r: Vec<&CommandDefinition> = Vec::new();
        let mut i: usize = 0;
        while i < self.commands.len()
            invariant
                0 <= i <= self.spec_entries().len(),
                r@.len() == i,
                forall|k: int| 0 <= k < i ==> *r@[k] == (#[trigger] self.spec_entries()[k]).0,
            decreases self.spec_entries().len() - i,
        {
            r.push(&self.commands[i].0);
            i += 1;
        }
        r
    }

    /// The number of registered commands.
    pub fn len(&self) -> (r: usize)
        ensures
            r == self.spec_entries().len(),
    {
        self.commands.len()
    }

    /// Whether no command is registered.
    pub fn is_empty(&self) -> (r: bool)
        ensures
            r == (self.spec_entries().len() == 0),
    {
        self.commands.len() == 0
    }

    /// Whether `name` resolves, as a canonical name or as an alias.
    pub fn contains(&self, name: &str) -> (r: bool)
        requires
            self.wf(),
        ensures
            r == (self.spec_resolve(name@) is Some),
    {
        self.resolve_name(name).is_some()
    }
}

impl<H> Default for CommandRegistry<H> {
    /// An empty registry.
    fn default() -> (r: CommandRegistry<H>)
        ensures
            r.spec_entries().len() == 0,
            r.spec_aliases().len() == 0,
            r.wf(),
    {
        CommandRegistry::new()
    }
}

/// Law: a registered canonical name resolves to itself; a registered alias
/// resolves to the canonical name it was registered with; a name that is
/// neither resolves to nothing.
pub proof fn lemma_resolution<H>(reg: CommandRegistry<H>, n: Seq<char>)
    requires
        reg.wf(),
    ensures
        reg.spec_has_command(n) ==> reg.spec_resolve(n) == Some(n),
        forall|i: int|
            0 <= i < reg.spec_aliases().len() && (#[trigger] reg.spec_aliases()[i]).0 == n
                ==> reg.spec_resolve(n) == Some(reg.spec_aliases()[i].1),
        !reg.spec_has_command(n) && !reg.spec_has_alias(n) ==> reg.spec_resolve(n) is None,
{
    assert forall|i: int|
        0 <= i < reg.spec_aliases().len() && (#[trigger] reg.spec_aliases()[i]).0 == n implies reg
        .spec_resolve(n) == Some(reg.spec_aliases()[i].1) by {
        if reg.spec_has_command(n) {
            assert(reg.spec_aliases()[i].0 == reg.spec_aliases()[i].1);
        } else {
            assert(reg.spec_has_alias(n));
            let c = choose|c: int|
                0 <= c < reg.spec_aliases().len() && (#[trigger] reg.spec_aliases()[c]).0 == n;
            assert(reg.spec_aliases()[c].1 == reg.spec_aliases()[i].1);
        }
    }
}

/// A conflicting alias, preceded only by non-conflicting ones, is the
/// first conflict.
proof fn lemma_conflict_position<H>(reg: CommandRegistry<H>, aliases: Seq<String>, j: int)
    requires
        0 <= j < aliases.len(),
        reg.spec_conflicts(aliases[j]@),
        forall|k: int| 0 <= k < j ==> !reg.spec_conflicts((#[trigger] aliases[k])@),
    ensures
        reg.spec_first_alias_conflict(aliases) == j,
{
    reg.lemma_first_alias_conflict(aliases);
    let f = reg.spec_first_alias_conflict(aliases);
    if f == -1 {
        assert(!reg.spec_conflicts((#[trigger] aliases[j])@));
    } else if f < j {
        assert(!reg.spec_conflicts((#[trigger] aliases[f])@));
    } else if f > j {
        assert(!reg.spec_conflicts((#[trigger] aliases[j])@));
    }
}

} // verus!
