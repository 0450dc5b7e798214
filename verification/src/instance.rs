//! One worktree's instance: its ports, its rendered config, its running services.
//!
//! The application opens an instance — resolving the worktree with git, reading the
//! config, reserving ports under the registry's lock — and runs its processes. What
//! the instance decides is here.

use vstd::prelude::*;
use std::ops::Range;
use crate::config::{Config, Secrets, Resource};
use crate::exposure::Exposure;
use crate::ports::{PortsError, STRIDE};
use crate::registry::{Entry, EntryView, Registry, recorded, touched, exposed, reserve_outcome};
use crate::render::{
    Context, ContextView, RenderError, RenderErrorView, rendered, pair_map, value, env_text, pairs_rendered,
    all_render, first_failure, render_secrets,
};
use crate::resolve::{Resolved, state_key_of};
use crate::supervise::Handle;
use crate::resource::{EnsurePlan, ResourceError, Observation, ensure, start_argv, init_argv};
use crate::marker::{MarkerRead, MarkerState, SeedMarker, Freshness, marker_state, next_record, current_of, current_table, judge, next_marker};
use crate::table::{sorted, table_map, table_insert, table_remove, table_copy, table_find, lemma_value_at};
use crate::text::{
    owned, push_text, join, join_path, decimal, decimal_text, opt_text, copy_opt, quote, quoted,
    to_upper, uppercase_of, texts, chars_of, string_of, slice_chars, trim, trim_chars, parse_uint,
    parse_uint_chars, lines, split_lines, char_rows, extend_chars,
};

verus! {

#[derive(Debug)]
pub struct Instance {
    pub resolved: Resolved,
    pub config: Config,
    pub entry: Entry,
    /// How this instance is reached.
    pub exposure: Exposure,
    /// Where grove keeps the registry and per-service logs.
    pub state_dir: String,
}

/// Why an instance operation was refused.
#[derive(Debug)]
pub enum InstanceError {
    /// A mutating command in the main checkout.
    MainWorktree { main: String },
    /// A template in the config did not render; `what` says which.
    Render { what: String, error: RenderError },
    /// Two `[[secrets]]` blocks set one variable to different values.
    Conflict { key: String, existing: String, value: String },
    /// `restart <name>` for a service the config does not declare.
    NoService { name: String, known: Vec<String> },
    /// Neither a state directory nor `HOME` is set.
    NoHome,
    /// Not a duration `parse_duration` reads.
    Duration { text: String },
    /// A setup step or a seed exited unsuccessfully: what it was, the command, the log
    /// holding its whole output, and the last lines of that output.
    Failed { what: String, command: String, log: String, output: String },
}

/// The registry file under a state directory.
pub open spec fn registry_path(state_dir: Seq<char>) -> Seq<char> {
    join_path(state_dir, "registry.json"@)
}

/// The registry kept under `state_dir`, before anything is read from it.
pub fn registry(state_dir: &str) -> (r: Registry)
    ensures
        r.path@ == registry_path(state_dir@),
        r@ == Map::<Seq<char>, EntryView>::empty(),
        r.well_formed(),
{
    let path = join(state_dir, "registry.json");
    Registry::at(path.as_str())
}

impl Registry {
    /// Where the registry lives when nothing overrides the state directory:
    /// `registry.json` under `$XDG_STATE_HOME/grove`, or under `~/.local/state/grove`.
    pub fn default_path(xdg_state_home: Option<&str>, home: Option<&str>) -> (r: Result<String, InstanceError>)
        ensures
            match state_dir_of(
                None,
                match xdg_state_home { Some(d) => Some(d@), None => None },
                match home { Some(d) => Some(d@), None => None },
            ) {
                Some(d) => r matches Ok(p) && p@ == registry_path(d),
                None => r matches Err(InstanceError::NoHome),
            },
    {
        match state_dir(None, xdg_state_home, home) {
            Ok(d) => Ok(join(d.as_str(), "registry.json")),
            Err(e) => Err(e),
        }
    }
}

/// Where an instance keeps its logs and markers: `<state>/<repo key>/<slug>`.
pub open spec fn instance_dir_of(state_dir: Seq<char>, resolved: &Resolved) -> Seq<char> {
    join_path(join_path(state_dir, state_key_of(resolved.main_worktree@)), resolved.slug@)
}

/// What templates see for this instance.
pub open spec fn context_of(inst: &Instance) -> ContextView {
    ContextView {
        slug: inst.resolved.slug@,
        ports: table_map(inst.entry.ports@),
        db_name: opt_text(inst.entry.db_name),
        main_worktree: inst.resolved.main_worktree@,
        public_host: inst.exposure.public_host_of(),
        bind_host: inst.exposure.bind_host_of(),
    }
}

/// The message for a refusal in the main checkout.
pub open spec fn main_refusal(main: Seq<char>) -> Seq<char> {
    "this is the main worktree ("@ + main + ")\ngrove reads secrets from here, so it will not write over them. Run it from a linked worktree, or pass --allow-main if you are certain."@
}

impl Instance {
    /// The entry is well formed and every `[secrets.set]` table is in key order.
    pub open spec fn well_formed(&self) -> bool {
        &&& self.entry.well_formed()
        &&& forall|i: int| 0 <= i < self.config.secrets@.len() ==> sorted(#[trigger] self.config.secrets@[i].set@)
    }

    /// Open the instance for a resolved worktree and its config: reserve its ports, and
    /// write down where its logs live the first time that is known.
    pub fn open<F: Fn(u16) -> bool>(
        resolved: Resolved,
        config: Config,
        state_dir: &str,
        registry: &mut Registry,
        range: Range<u16>,
        is_free: F,
    ) -> (r: Result<Instance, PortsError>)
        requires
            old(registry).well_formed(),
            range.start <= range.end,
            config.ports.names@.len() > STRIDE || range.start + config.ports.names@.len() <= 65536,
            forall|p: u16| is_free.requires((p,)),
            forall|i: int| 0 <= i < config.secrets@.len() ==> sorted(#[trigger] config.secrets@[i].set@),
        ensures
            final(registry).well_formed(),
            final(registry).path == old(registry).path,
            match r {
                Ok(inst) => {
                    &&& inst.well_formed()
                    &&& inst.resolved == resolved
                    &&& inst.config == config
                    &&& inst.exposure@ == inst.entry@.exposure
                    &&& inst.state_dir@ == state_dir@
                    &&& inst.entry@.worktree == resolved.worktree@
                    &&& inst.entry@.instance_dir == Some(instance_dir_of(state_dir@, &resolved))
                    &&& final(registry)@ == old(registry)@.insert(resolved.worktree@, inst.entry@)
                    &&& exists|mid: Map<Seq<char>, EntryView>, e: EntryView| {
                        &&& #[trigger] reserve_outcome(old(registry)@, resolved.worktree@, resolved.slug@,
                                resolved.main_worktree@, texts(config.ports.names@), range.start, range.end, is_free,
                                mid, Ok::<EntryView, PortsError>(e))
                        &&& inst.entry@ == (EntryView { instance_dir: inst.entry@.instance_dir, ..e })
                    }
                },
                Err(err) => {
                    &&& final(registry)@ == old(registry)@
                    &&& reserve_outcome(old(registry)@, resolved.worktree@, resolved.slug@, resolved.main_worktree@,
                            texts(config.ports.names@), range.start, range.end, is_free, old(registry)@,
                            Err::<EntryView, PortsError>(err))
                },
            },
    {
        let mut entry = match registry.reserve(&resolved, &config.ports.names, range, is_free) {
            Ok(e) => e,
            Err(e) => { return Err(e); },
        };
        let dir = instance_dir(state_dir, &resolved);
        let same = match &entry.instance_dir {
            Some(d) => crate::table::compare_text(d.as_str(), dir.as_str()) == 0,
            None => false,
        };
        let ghost mid = registry@;
        assert(mid[resolved.worktree@] == entry@);
        if !same {
            entry.instance_dir = Some(dir);
            registry.record(&entry);
            assert(registry@ =~= mid.insert(resolved.worktree@, entry@));
        } else {
            assert(mid =~= mid.insert(resolved.worktree@, entry@));
        }
        let exposure = entry.exposure.copy();
        Ok(Instance { resolved, config, entry, exposure, state_dir: owned(state_dir) })
    }

    /// Keep `exposure` for this instance from now on. Returns whether it differs from
    /// the exposure the instance had: `up` re-renders and restarts an instance whose
    /// exposure changed, and leaves its siblings alone.
    pub fn set_exposure(&mut self, registry: &mut Registry, exposure: Exposure) -> (changed: bool)
        requires
            old(self).well_formed(),
            old(registry).well_formed(),
        ensures
            final(self).well_formed(),
            final(self).resolved == old(self).resolved,
            final(self).config == old(self).config,
            final(self).state_dir == old(self).state_dir,
            changed == (old(self).entry@.exposure != exposure@),
            final(self).exposure@ == exposure@,
            final(self).entry@ == (EntryView { exposure: exposure@, ..old(self).entry@ }),
            final(registry).well_formed(),
            final(registry).path == old(registry).path,
            final(registry)@ == exposed(old(registry)@, old(self).resolved.worktree@, exposure@),
    {
        let changed = !self.entry.exposure.same_as(&exposure);
        registry.set_exposure(self.resolved.worktree.as_str(), &exposure);
        self.entry.exposure = exposure.copy();
        self.exposure = exposure;
        changed
    }
}

impl Instance {
    /// Record that work is happening here, so a later `grove down --idle` can tell this
    /// instance from one nobody has opened since Tuesday.
    pub fn touch(&self, registry: &mut Registry, now: u64)
        requires
            old(registry).well_formed(),
        ensures
            final(registry).well_formed(),
            final(registry).path == old(registry).path,
            final(registry)@ == touched(old(registry)@, self.resolved.worktree@, now),
    {
        registry.touch(self.resolved.worktree.as_str(), now);
    }

    /// Forget this instance and free its ports.
    pub fn release(&self, registry: &mut Registry)
        requires
            old(registry).well_formed(),
        ensures
            final(registry).well_formed(),
            final(registry).path == old(registry).path,
            final(registry)@ == old(registry)@.remove(self.resolved.worktree@),
    {
        registry.release(self.resolved.worktree.as_str());
    }

    /// Mutating commands refuse in the main checkout: rendering there would overwrite the
    /// real `.env.local` that every instance reads from.
    pub fn refuse_in_main(&self) -> (r: Result<(), InstanceError>)
        ensures
            r is Ok <==> self.resolved.worktree@ != self.resolved.main_worktree@,
            r matches Err(InstanceError::MainWorktree { main }) ==> main@ == self.resolved.main_worktree@,
            r is Err ==> r matches Err(InstanceError::MainWorktree { .. }),
    {
        if self.resolved.is_main() {
            return Err(InstanceError::MainWorktree { main: self.resolved.main_worktree.clone() });
        }
        Ok(())
    }

    /// Where this instance keeps its logs and markers.
    pub fn instance_dir(&self) -> (d: String)
        ensures
            d@ == instance_dir_of(self.state_dir@, &self.resolved),
    {
        instance_dir(self.state_dir.as_str(), &self.resolved)
    }

    /// The log a service writes: `<instance dir>/<service>.log`.
    pub fn log_path(&self, service: &str) -> (p: String)
        ensures
            p@ == join_path(instance_dir_of(self.state_dir@, &self.resolved), service@ + ".log"@),
    {
        let dir = self.instance_dir();
        let mut file = owned(service);
        push_text(&mut file, ".log");
        join(dir.as_str(), file.as_str())
    }

    /// This instance's database, once a resource has named it.
    pub fn db_name(&self) -> (d: Option<String>)
        ensures
            opt_text(d) == opt_text(self.entry.db_name),
    {
        copy_opt(&self.entry.db_name)
    }

    /// What templates see for this instance.
    pub fn render_context(&self) -> (c: Context)
        requires
            self.entry.well_formed(),
        ensures
            c@ == context_of(self),
            sorted(c.ports@),
    {
        Context {
            slug: self.resolved.slug.clone(),
            ports: table_copy(&self.entry.ports),
            db_name: copy_opt(&self.entry.db_name),
            main_worktree: self.resolved.main_worktree.clone(),
            public_host: owned(self.exposure.public_host()),
            bind_host: owned(self.exposure.bind_host()),
        }
    }
}

/// Names written as `Debug` writes a list of strings, without the brackets.
pub open spec fn quoted_list(s: Seq<Seq<char>>) -> Seq<char>
    decreases s.len(),
{
    if s.len() == 0 {
        Seq::empty()
    } else if s.len() == 1 {
        quoted(s[0])
    } else {
        quoted_list(s.drop_last()) + ", "@ + quoted(s.last())
    }
}

impl InstanceError {
    pub open spec fn message_of(&self) -> Seq<char> {
        match self {
            InstanceError::MainWorktree { main } => main_refusal(main@),
            InstanceError::Render { what, error } => what@ + ": "@ + error.message_of(),
            InstanceError::Conflict { key, existing, value } => key@
                + " is set to two different values by different [[secrets]] blocks ("@ + quoted(existing@) + " and "@
                + quoted(value@) + "); give them distinct names or the same value"@,
            InstanceError::NoService { name, known } => "this repo declares no service named "@ + quoted(name@)
                + "; it has ["@ + quoted_list(texts(known@)) + "]"@,
            InstanceError::Duration { text } => quoted(text@) + " is not a duration like \"180s\""@,
            InstanceError::NoHome => "HOME is not set"@,
            InstanceError::Failed { what, command, log, output } => what@ + " failed: "@ + command@
                + "\nfull output in "@ + log@ + "\n"@ + output@,
        }
    }

    pub fn message(&self) -> (m: String)
        ensures
            m@ == self.message_of(),
    {
        match self {
            InstanceError::MainWorktree { main } => {
                let mut m = owned("this is the main worktree (");
                push_text(&mut m, main.as_str());
                push_text(&mut m, ")\ngrove reads secrets from here, so it will not write over them. Run it from a linked worktree, or pass --allow-main if you are certain.");
                m
            },
            InstanceError::Render { what, error } => {
                let mut m = owned(what.as_str());
                push_text(&mut m, ": ");
                let cause = error.message();
                push_text(&mut m, cause.as_str());
                m
            },
            InstanceError::Conflict { key, existing, value } => {
                let mut m = owned(key.as_str());
                push_text(&mut m, " is set to two different values by different [[secrets]] blocks (");
                let a = quote(existing.as_str());
                push_text(&mut m, a.as_str());
                push_text(&mut m, " and ");
                let b = quote(value.as_str());
                push_text(&mut m, b.as_str());
                push_text(&mut m, "); give them distinct names or the same value");
                m
            },
            InstanceError::NoService { name, known } => {
                let mut m = owned("this repo declares no service named ");
                let q = quote(name.as_str());
                push_text(&mut m, q.as_str());
                push_text(&mut m, "; it has [");
                let ghost head = m@;
                let ghost names = texts(known@);
                proof { reveal_strlit(", "); }
                let mut i: usize = 0;
                while i < known.len()
                    invariant
                        i <= known.len(),
                        names == texts(known@),
                        m@ == head + quoted_list(names.subrange(0, i as int)),
                    decreases known.len() - i,
                {
                    assert(names.subrange(0, i + 1).drop_last() =~= names.subrange(0, i as int));
                    if i > 0 {
                        push_text(&mut m, ", ");
                    } else {
                        assert(quoted_list(names.subrange(0, 0)) =~= Seq::<char>::empty());
                    }
                    let q = quote(known[i].as_str());
                    push_text(&mut m, q.as_str());
                    i += 1;
                }
                assert(names.subrange(0, names.len() as int) =~= names);
                push_text(&mut m, "]");
                m
            },
            InstanceError::Duration { text } => {
                let mut m = quote(text.as_str());
                push_text(&mut m, " is not a duration like \"180s\"");
                m
            },
            InstanceError::NoHome => owned("HOME is not set"),
            InstanceError::Failed { what, command, log, output } => {
                let mut m = owned(what.as_str());
                push_text(&mut m, " failed: ");
                push_text(&mut m, command.as_str());
                push_text(&mut m, "\nfull output in ");
                push_text(&mut m, log.as_str());
                push_text(&mut m, "\n");
                push_text(&mut m, output.as_str());
                m
            },
        }
    }
}

/// Why the environment could not be assembled.
pub enum EnvErrorView {
    Render(Seq<char>, RenderErrorView),
    Conflict(Seq<char>, Seq<char>, Seq<char>),
}

/// The variable a port is exported as: `GROVE_PORT_<NAME>`.
pub open spec fn port_var(name: Seq<char>) -> Seq<char> {
    "GROVE_PORT_"@ + uppercase_of(name)
}

/// `m` with each port exported, in port-name order.
pub open spec fn port_env(m: Map<Seq<char>, Seq<char>>, ports: Seq<(String, u16)>) -> Map<Seq<char>, Seq<char>>
    decreases ports.len(),
{
    if ports.len() == 0 {
        m
    } else {
        port_env(m, ports.drop_last()).insert(port_var(ports.last().0@), decimal(ports.last().1 as nat))
    }
}

/// grove's own variables: slug, worktree, ports, database, and a browser session of
/// the instance's own unless one is already set.
pub open spec fn base_env(inst: &Instance, session_set: bool) -> Map<Seq<char>, Seq<char>> {
    let m = Map::<Seq<char>, Seq<char>>::empty()
        .insert("GROVE_SLUG"@, inst.resolved.slug@)
        .insert("GROVE_WORKTREE"@, inst.resolved.worktree@);
    let m = port_env(m, inst.entry.ports@);
    let m = match inst.entry.db_name {
        Some(d) => m.insert("GROVE_DB_NAME"@, d@),
        None => m,
    };
    if session_set { m } else { m.insert("AGENT_BROWSER_SESSION"@, inst.resolved.slug@) }
}

/// Every `[secrets.set]` pair, block by block, each block in key order.
pub open spec fn flat_sets(secrets: Seq<Secrets>) -> Seq<(String, String)>
    decreases secrets.len(),
{
    if secrets.len() == 0 {
        Seq::empty()
    } else {
        flat_sets(secrets.drop_last()) + secrets.last().set@
    }
}

/// `m` with each override rendered and set in turn; a key already set to a different
/// value is a conflict.
pub open spec fn overlay(m: Map<Seq<char>, Seq<char>>, pairs: Seq<(String, String)>, ctx: ContextView)
    -> Result<Map<Seq<char>, Seq<char>>, EnvErrorView>
    decreases pairs.len(),
{
    if pairs.len() == 0 {
        Ok(m)
    } else {
        match overlay(m, pairs.drop_last(), ctx) {
            Err(e) => Err(e),
            Ok(env) => {
                let k = pairs.last().0@;
                match rendered(pairs.last().1@, ctx) {
                    Err(e) => Err(EnvErrorView::Render(k, e)),
                    Ok(v) => if env.contains_key(k) && env[k] != v {
                        Err(EnvErrorView::Conflict(k, env[k], v))
                    } else {
                        Ok(env.insert(k, v))
                    },
                }
            },
        }
    }
}

/// The environment a service or `grove run` command receives, or why there is none.
/// `session_set` says whether the caller's environment already names a browser session.
pub open spec fn environment_of(inst: &Instance, session_set: bool) -> Result<Map<Seq<char>, Seq<char>>, EnvErrorView> {
    overlay(base_env(inst, session_set), flat_sets(inst.config.secrets@), context_of(inst))
}

/// A failed overlay stays failed, with the same error, however many pairs follow.
proof fn lemma_overlay_err(m: Map<Seq<char>, Seq<char>>, p: Seq<(String, String)>, q: Seq<(String, String)>, ctx: ContextView)
    requires
        overlay(m, p, ctx) is Err,
    ensures
        overlay(m, p + q, ctx) == overlay(m, p, ctx),
    decreases q.len(),
{
    if q.len() == 0 {
        assert(p + q =~= p);
    } else {
        lemma_overlay_err(m, p, q.drop_last(), ctx);
        assert((p + q).drop_last() =~= p + q.drop_last());
    }
}

/// Setting a key in a table sets it in the table's view.
proof fn lemma_pair_insert(before: Seq<(String, String)>, after: Seq<(String, String)>, k: String, v: String)
    requires
        table_map(after) == table_map(before).insert(k@, v),
    ensures
        pair_map(after) == pair_map(before).insert(k@, v@),
{
    assert(pair_map(after) =~= pair_map(before).insert(k@, v@));
}

/// The instance's view of a table value is the view of the string stored there.
proof fn lemma_pair_at(t: Seq<(String, String)>, i: int)
    requires
        sorted(t),
        0 <= i < t.len(),
    ensures
        pair_map(t).contains_key(t[i].0@),
        pair_map(t)[t[i].0@] == t[i].1@,
{
    lemma_value_at(t, i);
}

fn set_var(env: &mut Vec<(String, String)>, key: String, val: String)
    requires
        sorted(old(env)@),
    ensures
        sorted(final(env)@),
        pair_map(final(env)@) == pair_map(old(env)@).insert(key@, val@),
{
    let ghost before = env@;
    let ghost k = key;
    let ghost v = val;
    table_insert(env, key, val);
    proof { lemma_pair_insert(before, env@, k, v); }
}

impl Instance {
    /// The environment a service or `grove run` command receives: grove's variables
    /// and every `[secrets.set]` override, rendered. Two blocks setting one key to
    /// different values is refused rather than resolved silently.
    pub fn environment(&self, session_set: bool) -> (r: Result<Vec<(String, String)>, EnvError>)
        requires
            self.entry.well_formed(),
        ensures
            match (r, environment_of(self, session_set)) {
                (Ok(t), Ok(m)) => sorted(t@) && pair_map(t@) == m,
                (Err(e), Err(f)) => e@ == f,
                _ => false,
            },
    {
        let mut env: Vec<(String, String)> = Vec::new();
        proof { assert(pair_map(env@) =~= Map::<Seq<char>, Seq<char>>::empty()); }
        set_var(&mut env, owned("GROVE_SLUG"), self.resolved.slug.clone());
        set_var(&mut env, owned("GROVE_WORKTREE"), self.resolved.worktree.clone());
        let ghost m0 = pair_map(env@);
        let mut i: usize = 0;
        while i < self.entry.ports.len()
            invariant
                i <= self.entry.ports.len(),
                sorted(env@),
                pair_map(env@) == port_env(m0, self.entry.ports@.subrange(0, i as int)),
            decreases self.entry.ports.len() - i,
        {
            let mut key = owned("GROVE_PORT_");
            let upper = to_upper(self.entry.ports[i].0.as_str());
            push_text(&mut key, upper.as_str());
            let val = decimal_text(self.entry.ports[i].1 as u64);
            set_var(&mut env, key, val);
            assert(self.entry.ports@.subrange(0, i + 1).drop_last() =~= self.entry.ports@.subrange(0, i as int));
            i += 1;
        }
        assert(self.entry.ports@.subrange(0, self.entry.ports@.len() as int) =~= self.entry.ports@);
        match &self.entry.db_name {
            Some(d) => { set_var(&mut env, owned("GROVE_DB_NAME"), d.clone()); },
            None => {},
        }
        if !session_set {
            set_var(&mut env, owned("AGENT_BROWSER_SESSION"), self.resolved.slug.clone());
        }
        let ghost base = pair_map(env@);
        assert(base == base_env(self, session_set));
        let ctx = self.render_context();
        let ghost secrets = self.config.secrets@;
        let mut b: usize = 0;
        while b < self.config.secrets.len()
            invariant
                b <= secrets.len(),
                secrets == self.config.secrets@,
                sorted(env@),
                sorted(ctx.ports@),
                ctx@ == context_of(self),
                base == base_env(self, session_set),
                overlay(base, flat_sets(secrets.subrange(0, b as int)), ctx@) == Ok::<Map<Seq<char>, Seq<char>>, EnvErrorView>(pair_map(env@)),
            decreases secrets.len() - b,
        {
            let set = &self.config.secrets[b].set;
            let ghost done = flat_sets(secrets.subrange(0, b as int));
            let mut i: usize = 0;
            while i < set.len()
                invariant
                    i <= set.len(),
                    b < secrets.len(),
                    secrets == self.config.secrets@,
                    base == base_env(self, session_set),
                    ctx@ == context_of(self),
                    done == flat_sets(secrets.subrange(0, b as int)),
                    set@ == secrets[b as int].set@,
                    sorted(env@),
                    sorted(ctx.ports@),
                    overlay(base, done + set@.subrange(0, i as int), ctx@) == Ok::<Map<Seq<char>, Seq<char>>, EnvErrorView>(pair_map(env@)),
                decreases set.len() - i,
            {
                let ghost before = done + set@.subrange(0, i as int);
                let ghost now_pairs = done + set@.subrange(0, i + 1);
                assert(now_pairs.drop_last() =~= before);
                assert(now_pairs.last() == set@[i as int]);
                let key = &set[i].0;
                let v = match value(set[i].1.as_str(), &ctx) {
                    Ok(v) => v,
                    Err(e) => {
                        let mut what = owned("rendering ");
                        push_text(&mut what, key.as_str());
                        push_text(&mut what, " for the environment");
                        proof {
                            let rest = set@.subrange(i + 1, set@.len() as int) + flat_sets(secrets.subrange(b + 1, secrets.len() as int));
                            lemma_overlay_err(base, now_pairs, rest, ctx@);
                            lemma_flat_split(secrets, b as int);
                            assert(set@.subrange(0, i + 1) + set@.subrange(i + 1, set@.len() as int) =~= set@);
                            assert(now_pairs + rest =~= flat_sets(secrets));
                        }
                        return Err(EnvError::Render { key: key.clone(), error: e });
                    },
                };
                match table_find(&env, key.as_str()) {
                    Some(j) => {
                        proof { lemma_pair_at(env@, j as int); }
                        if crate::table::compare_text(env[j].1.as_str(), v.as_str()) != 0 {
                            proof {
                                let rest = set@.subrange(i + 1, set@.len() as int) + flat_sets(secrets.subrange(b + 1, secrets.len() as int));
                                lemma_overlay_err(base, now_pairs, rest, ctx@);
                                lemma_flat_split(secrets, b as int);
                                assert(set@.subrange(0, i + 1) + set@.subrange(i + 1, set@.len() as int) =~= set@);
                                assert(now_pairs + rest =~= flat_sets(secrets));
                            }
                            return Err(EnvError::Conflict { key: key.clone(), existing: env[j].1.clone(), value: v });
                        }
                    },
                    None => {},
                }
                set_var(&mut env, key.clone(), v);
                i += 1;
            }
            proof {
                assert(set@.subrange(0, set@.len() as int) =~= set@);
                assert(secrets.subrange(0, b + 1).drop_last() =~= secrets.subrange(0, b as int));
            }
            b += 1;
        }
        assert(secrets.subrange(0, secrets.len() as int) =~= secrets);
        Ok(env)
    }
}

/// The pairs of the blocks before `b`, then block `b`'s, then the rest's, are all the pairs.
proof fn lemma_flat_split(secrets: Seq<Secrets>, b: int)
    requires
        0 <= b < secrets.len(),
    ensures
        flat_sets(secrets) == flat_sets(secrets.subrange(0, b)) + secrets[b].set@ + flat_sets(secrets.subrange(b + 1, secrets.len() as int)),
    decreases secrets.len(),
{
    if b == secrets.len() - 1 {
        assert(secrets.drop_last() =~= secrets.subrange(0, b));
        assert(secrets.subrange(b + 1, secrets.len() as int) =~= Seq::<Secrets>::empty());
        assert(flat_sets(secrets) =~= flat_sets(secrets.subrange(0, b)) + secrets[b].set@ + Seq::<(String, String)>::empty());
    } else {
        lemma_flat_split(secrets.drop_last(), b);
        assert(secrets.drop_last().subrange(0, b) =~= secrets.subrange(0, b));
        let tail = secrets.subrange(b + 1, secrets.len() as int);
        assert(tail.drop_last() =~= secrets.drop_last().subrange(b + 1, secrets.len() - 1));
        assert(tail.last() == secrets.last());
        assert(flat_sets(tail) == flat_sets(tail.drop_last()) + tail.last().set@);
    }
}

/// An overlay that succeeds keeps every variable it started from and sets every
/// override to its rendered value.
proof fn lemma_overlay_ok(m0: Map<Seq<char>, Seq<char>>, pairs: Seq<(String, String)>, ctx: ContextView)
    requires
        overlay(m0, pairs, ctx) is Ok,
    ensures
        forall|k: Seq<char>| #[trigger] m0.contains_key(k) ==> overlay(m0, pairs, ctx)->Ok_0.contains_key(k)
            && overlay(m0, pairs, ctx)->Ok_0[k] == m0[k],
        forall|i: int| 0 <= i < pairs.len() ==> overlay(m0, pairs, ctx)->Ok_0.contains_key(#[trigger] pairs[i].0@)
            && rendered(pairs[i].1@, ctx) == Ok::<Seq<char>, RenderErrorView>(overlay(m0, pairs, ctx)->Ok_0[pairs[i].0@]),
    decreases pairs.len(),
{
    if pairs.len() > 0 {
        let prev = pairs.drop_last();
        lemma_overlay_ok(m0, prev, ctx);
        let env = overlay(m0, prev, ctx)->Ok_0;
        let m = overlay(m0, pairs, ctx)->Ok_0;
        let k = pairs.last().0@;
        let v = rendered(pairs.last().1@, ctx)->Ok_0;
        assert(m == env.insert(k, v));
        assert forall|i: int| 0 <= i < pairs.len() implies m.contains_key(#[trigger] pairs[i].0@)
            && rendered(pairs[i].1@, ctx) == Ok::<Seq<char>, RenderErrorView>(m[pairs[i].0@]) by {
            if i < pairs.len() - 1 {
                assert(prev[i] == pairs[i]);
            }
        }
    }
}

/// Every `[secrets.set]` override is in the environment of every command grove runs,
/// not only in the file: code that reads the environment before its settings library
/// loads the file would otherwise see the wrong value.
pub proof fn law_overrides_reach_the_environment(inst: &Instance, session_set: bool, b: int, i: int)
    requires
        0 <= b < inst.config.secrets@.len(),
        0 <= i < inst.config.secrets@[b].set@.len(),
        environment_of(inst, session_set) is Ok,
    ensures
        ({
            let (k, t) = inst.config.secrets@[b].set@[i];
            let m = environment_of(inst, session_set)->Ok_0;
            m.contains_key(k@) && rendered(t@, context_of(inst)) == Ok::<Seq<char>, RenderErrorView>(m[k@])
        }),
{
    let secrets = inst.config.secrets@;
    lemma_flat_split(secrets, b);
    let pairs = flat_sets(secrets);
    let at = flat_sets(secrets.subrange(0, b)).len() + i;
    assert(pairs[at] == secrets[b].set@[i]);
    lemma_overlay_ok(base_env(inst, session_set), pairs, context_of(inst));
}

/// grove's own variables are in the environment as grove set them — the slug, the
/// worktree, the database, and a browser session of the instance's own unless one is
/// set already — since an override that disagrees is refused.
pub proof fn law_grove_variables_reach_the_environment(inst: &Instance, session_set: bool)
    requires
        environment_of(inst, session_set) is Ok,
    ensures
        ({
            let m = environment_of(inst, session_set)->Ok_0;
            &&& m.contains_key("GROVE_SLUG"@) && m["GROVE_SLUG"@] == inst.resolved.slug@
            &&& m.contains_key("GROVE_WORKTREE"@) && m["GROVE_WORKTREE"@] == inst.resolved.worktree@
            &&& (inst.entry.db_name matches Some(d) ==> m.contains_key("GROVE_DB_NAME"@) && m["GROVE_DB_NAME"@] == d@)
            &&& (!session_set ==> m.contains_key("AGENT_BROWSER_SESSION"@) && m["AGENT_BROWSER_SESSION"@] == inst.resolved.slug@)
            &&& forall|p: int| 0 <= p < inst.entry.ports@.len() ==> m.contains_key(#[trigger] port_var(inst.entry.ports@[p].0@))
        }),
{
    reveal_strlit("GROVE_SLUG");
    reveal_strlit("GROVE_WORKTREE");
    reveal_strlit("GROVE_DB_NAME");
    reveal_strlit("AGENT_BROWSER_SESSION");
    let base = base_env(inst, session_set);
    lemma_overlay_ok(base, flat_sets(inst.config.secrets@), context_of(inst));
    let m0 = Map::<Seq<char>, Seq<char>>::empty()
        .insert("GROVE_SLUG"@, inst.resolved.slug@)
        .insert("GROVE_WORKTREE"@, inst.resolved.worktree@);
    lemma_port_env(m0, inst.entry.ports@);
    assert("GROVE_SLUG"@[6] == 'S');
    assert("GROVE_WORKTREE"@[6] == 'W');
    lemma_port_env_keeps(m0, inst.entry.ports@, "GROVE_SLUG"@);
    lemma_port_env_keeps(m0, inst.entry.ports@, "GROVE_WORKTREE"@);
    assert("GROVE_SLUG"@[6] != "GROVE_DB_NAME"@[6]);
    assert("GROVE_SLUG"@[0] != "AGENT_BROWSER_SESSION"@[0]);
    assert("GROVE_WORKTREE"@[6] != "GROVE_DB_NAME"@[6]);
    assert("GROVE_WORKTREE"@[0] != "AGENT_BROWSER_SESSION"@[0]);
    assert("GROVE_DB_NAME"@[0] != "AGENT_BROWSER_SESSION"@[0]);
    let pm = port_env(m0, inst.entry.ports@);
    let dm = match inst.entry.db_name { Some(d) => pm.insert("GROVE_DB_NAME"@, d@), None => pm };
    assert(base == (if session_set { dm } else { dm.insert("AGENT_BROWSER_SESSION"@, inst.resolved.slug@) }));
    assert(base.contains_key("GROVE_SLUG"@) && base["GROVE_SLUG"@] == inst.resolved.slug@);
    assert(base.contains_key("GROVE_WORKTREE"@) && base["GROVE_WORKTREE"@] == inst.resolved.worktree@);
    let m = environment_of(inst, session_set)->Ok_0;
    assert forall|p: int| 0 <= p < inst.entry.ports@.len() implies m.contains_key(#[trigger] port_var(inst.entry.ports@[p].0@)) by {
        assert(pm.contains_key(port_var(inst.entry.ports@[p].0@)));
        assert(base.contains_key(port_var(inst.entry.ports@[p].0@)));
    }
    assert(m.contains_key("GROVE_SLUG"@) && m["GROVE_SLUG"@] == inst.resolved.slug@);
    assert(m.contains_key("GROVE_WORKTREE"@) && m["GROVE_WORKTREE"@] == inst.resolved.worktree@);
    if let Some(d) = inst.entry.db_name {
        assert(base.contains_key("GROVE_DB_NAME"@));
        assert(m.contains_key("GROVE_DB_NAME"@) && m["GROVE_DB_NAME"@] == d@);
    }
    if !session_set {
        assert(base.contains_key("AGENT_BROWSER_SESSION"@));
        assert(m.contains_key("AGENT_BROWSER_SESSION"@) && m["AGENT_BROWSER_SESSION"@] == inst.resolved.slug@);
    }
}

/// Each port variable carries that port's own number: `GROVE_PORT_<NAME>` is the
/// port reserved for `name`, whenever no two port names uppercase alike (when two do,
/// the later in name order wins).
pub proof fn law_each_port_variable_carries_its_port(inst: &Instance, session_set: bool, p: int)
    requires
        environment_of(inst, session_set) is Ok,
        0 <= p < inst.entry.ports@.len(),
        forall|a: int, b: int| 0 <= a < b < inst.entry.ports@.len()
            ==> uppercase_of(#[trigger] inst.entry.ports@[a].0@) != uppercase_of(#[trigger] inst.entry.ports@[b].0@),
    ensures
        ({
            let m = environment_of(inst, session_set)->Ok_0;
            &&& m.contains_key(port_var(inst.entry.ports@[p].0@))
            &&& m[port_var(inst.entry.ports@[p].0@)] == decimal(inst.entry.ports@[p].1 as nat)
        }),
{
    reveal_strlit("GROVE_SLUG");
    reveal_strlit("GROVE_WORKTREE");
    reveal_strlit("GROVE_DB_NAME");
    reveal_strlit("AGENT_BROWSER_SESSION");
    reveal_strlit("GROVE_PORT_");
    let ports = inst.entry.ports@;
    let base = base_env(inst, session_set);
    lemma_overlay_ok(base, flat_sets(inst.config.secrets@), context_of(inst));
    let m0 = Map::<Seq<char>, Seq<char>>::empty()
        .insert("GROVE_SLUG"@, inst.resolved.slug@)
        .insert("GROVE_WORKTREE"@, inst.resolved.worktree@);
    lemma_port_env_value(m0, ports, p);
    let pm = port_env(m0, ports);
    let k = port_var(ports[p].0@);
    assert(k[6] == 'P' && k[0] == 'G');
    assert("GROVE_DB_NAME"@[6] == 'D');
    assert("AGENT_BROWSER_SESSION"@[0] == 'A');
    let dm = match inst.entry.db_name { Some(d) => pm.insert("GROVE_DB_NAME"@, d@), None => pm };
    assert(base == (if session_set { dm } else { dm.insert("AGENT_BROWSER_SESSION"@, inst.resolved.slug@) }));
    assert(k != "GROVE_DB_NAME"@);
    assert(k != "AGENT_BROWSER_SESSION"@);
    assert(base.contains_key(k) && base[k] == decimal(ports[p].1 as nat));
}

/// Where the `t`-th override comes from: block `b`, pair `j`.
proof fn flat_index(secrets: Seq<Secrets>, t: int) -> (bj: (int, int))
    requires
        0 <= t < flat_sets(secrets).len(),
    ensures
        0 <= bj.0 < secrets.len(),
        0 <= bj.1 < secrets[bj.0].set@.len(),
        flat_sets(secrets)[t] == secrets[bj.0].set@[bj.1],
    decreases secrets.len(),
{
    let prev = secrets.drop_last();
    let n = flat_sets(prev).len();
    if t < n {
        let bj = flat_index(prev, t);
        assert(prev[bj.0] == secrets[bj.0]);
        bj
    } else {
        (secrets.len() - 1, t - n)
    }
}

/// Overrides that all render, agree with one another on every key they share and
/// with the variables already set, overlay without a conflict; every variable then
/// holds either its starting value or an override's rendered value.
proof fn lemma_overlay_agrees(m: Map<Seq<char>, Seq<char>>, pairs: Seq<(String, String)>, ctx: ContextView)
    requires
        forall|i: int| 0 <= i < pairs.len() ==> rendered(#[trigger] pairs[i].1@, ctx) is Ok,
        forall|i: int, j: int| 0 <= i < pairs.len() && 0 <= j < pairs.len() && #[trigger] pairs[i].0@ == #[trigger] pairs[j].0@
            ==> rendered(pairs[i].1@, ctx) == rendered(pairs[j].1@, ctx),
        forall|i: int| 0 <= i < pairs.len() && m.contains_key(#[trigger] pairs[i].0@)
            ==> rendered(pairs[i].1@, ctx) == Ok::<Seq<char>, RenderErrorView>(m[pairs[i].0@]),
    ensures
        overlay(m, pairs, ctx) is Ok,
        forall|k: Seq<char>| #[trigger] overlay(m, pairs, ctx)->Ok_0.contains_key(k) ==>
            (m.contains_key(k) && overlay(m, pairs, ctx)->Ok_0[k] == m[k])
            || exists|i: int| 0 <= i < pairs.len() && #[trigger] pairs[i].0@ == k
                && rendered(pairs[i].1@, ctx) == Ok::<Seq<char>, RenderErrorView>(overlay(m, pairs, ctx)->Ok_0[k]),
    decreases pairs.len(),
{
    if pairs.len() > 0 {
        let prev = pairs.drop_last();
        let n = pairs.len() - 1;
        assert forall|i: int| 0 <= i < prev.len() implies rendered(#[trigger] prev[i].1@, ctx) is Ok by {
            assert(prev[i] == pairs[i]);
        }
        assert forall|i: int, j: int| 0 <= i < prev.len() && 0 <= j < prev.len() && #[trigger] prev[i].0@ == #[trigger] prev[j].0@
            implies rendered(prev[i].1@, ctx) == rendered(prev[j].1@, ctx) by {
            assert(prev[i] == pairs[i] && prev[j] == pairs[j]);
        }
        assert forall|i: int| 0 <= i < prev.len() && m.contains_key(#[trigger] prev[i].0@)
            implies rendered(prev[i].1@, ctx) == Ok::<Seq<char>, RenderErrorView>(m[prev[i].0@]) by {
            assert(prev[i] == pairs[i]);
        }
        lemma_overlay_agrees(m, prev, ctx);
        let env = overlay(m, prev, ctx)->Ok_0;
        let k = pairs[n].0@;
        assert(pairs.last() == pairs[n]);
        assert(rendered(pairs[n].1@, ctx) is Ok);
        let v = rendered(pairs[n].1@, ctx)->Ok_0;
        if env.contains_key(k) {
            if m.contains_key(k) && env[k] == m[k] {
                assert(v == env[k]);
            } else {
                let i = choose|i: int| 0 <= i < prev.len() && #[trigger] prev[i].0@ == k
                    && rendered(prev[i].1@, ctx) == Ok::<Seq<char>, RenderErrorView>(env[k]);
                assert(prev[i] == pairs[i]);
                assert(pairs[i].0@ == pairs[n].0@);
                assert(v == env[k]);
            }
        }
        let r = overlay(m, pairs, ctx)->Ok_0;
        assert(r == env.insert(k, v));
        assert forall|q: Seq<char>| #[trigger] r.contains_key(q) implies
            (m.contains_key(q) && r[q] == m[q])
            || exists|i: int| 0 <= i < pairs.len() && #[trigger] pairs[i].0@ == q
                && rendered(pairs[i].1@, ctx) == Ok::<Seq<char>, RenderErrorView>(r[q]) by {
            if q == k {
                assert(pairs[n].0@ == q);
            } else if !(m.contains_key(q) && env[q] == m[q]) {
                let i = choose|i: int| 0 <= i < prev.len() && #[trigger] prev[i].0@ == q
                    && rendered(prev[i].1@, ctx) == Ok::<Seq<char>, RenderErrorView>(env[q]);
                assert(prev[i] == pairs[i]);
            }
        }
    }
}

/// A configuration whose `[secrets.set]` overrides all render, where any two blocks
/// that set one key set it to the same value and no override disagrees with grove's
/// own variables, gives every command an environment: agreeing overrides are never
/// refused as a conflict.
pub proof fn law_agreeing_overrides_are_accepted(inst: &Instance, session_set: bool)
    requires
        forall|b: int, i: int| 0 <= b < inst.config.secrets@.len() && 0 <= i < inst.config.secrets@[b].set@.len()
            ==> rendered(#[trigger] inst.config.secrets@[b].set@[i].1@, context_of(inst)) is Ok,
        forall|b: int, i: int, c: int, j: int|
            0 <= b < inst.config.secrets@.len() && 0 <= i < inst.config.secrets@[b].set@.len()
            && 0 <= c < inst.config.secrets@.len() && 0 <= j < inst.config.secrets@[c].set@.len()
            && #[trigger] inst.config.secrets@[b].set@[i].0@ == #[trigger] inst.config.secrets@[c].set@[j].0@
            ==> rendered(inst.config.secrets@[b].set@[i].1@, context_of(inst)) == rendered(inst.config.secrets@[c].set@[j].1@, context_of(inst)),
        forall|b: int, i: int| 0 <= b < inst.config.secrets@.len() && 0 <= i < inst.config.secrets@[b].set@.len()
            && base_env(inst, session_set).contains_key(#[trigger] inst.config.secrets@[b].set@[i].0@)
            ==> rendered(inst.config.secrets@[b].set@[i].1@, context_of(inst))
                == Ok::<Seq<char>, RenderErrorView>(base_env(inst, session_set)[inst.config.secrets@[b].set@[i].0@]),
    ensures
        environment_of(inst, session_set) is Ok,
{
    let secrets = inst.config.secrets@;
    let pairs = flat_sets(secrets);
    let ctx = context_of(inst);
    let m = base_env(inst, session_set);
    assert forall|t: int| 0 <= t < pairs.len() implies rendered(#[trigger] pairs[t].1@, ctx) is Ok by {
        let bj = flat_index(secrets, t);
        assert(rendered(secrets[bj.0].set@[bj.1].1@, ctx) is Ok);
    }
    assert forall|t: int, u: int| 0 <= t < pairs.len() && 0 <= u < pairs.len() && #[trigger] pairs[t].0@ == #[trigger] pairs[u].0@
        implies rendered(pairs[t].1@, ctx) == rendered(pairs[u].1@, ctx) by {
        let bi = flat_index(secrets, t);
        let cj = flat_index(secrets, u);
        assert(secrets[bi.0].set@[bi.1].0@ == secrets[cj.0].set@[cj.1].0@);
    }
    assert forall|t: int| 0 <= t < pairs.len() && m.contains_key(#[trigger] pairs[t].0@)
        implies rendered(pairs[t].1@, ctx) == Ok::<Seq<char>, RenderErrorView>(m[pairs[t].0@]) by {
        let bj = flat_index(secrets, t);
        assert(m.contains_key(secrets[bj.0].set@[bj.1].0@));
    }
    lemma_overlay_agrees(m, pairs, ctx);
}

/// Every variable an overlay leaves was there to begin with or is one of the overrides.
proof fn lemma_overlay_keys(m: Map<Seq<char>, Seq<char>>, pairs: Seq<(String, String)>, ctx: ContextView)
    requires
        overlay(m, pairs, ctx) is Ok,
    ensures
        forall|k: Seq<char>| #[trigger] overlay(m, pairs, ctx)->Ok_0.contains_key(k) ==>
            m.contains_key(k) || exists|i: int| 0 <= i < pairs.len() && #[trigger] pairs[i].0@ == k,
    decreases pairs.len(),
{
    if pairs.len() > 0 {
        let prev = pairs.drop_last();
        lemma_overlay_keys(m, prev, ctx);
        let r = overlay(m, pairs, ctx)->Ok_0;
        let n = pairs.len() - 1;
        assert(pairs.last() == pairs[n]);
        assert forall|k: Seq<char>| #[trigger] r.contains_key(k) implies
            m.contains_key(k) || exists|i: int| 0 <= i < pairs.len() && #[trigger] pairs[i].0@ == k by {
            if k != pairs[n].0@ && !m.contains_key(k) {
                let i = choose|i: int| 0 <= i < prev.len() && #[trigger] prev[i].0@ == k;
                assert(prev[i] == pairs[i]);
            }
        }
    }
}

/// The environment holds grove's own variables and the `[secrets.set]` overrides,
/// and nothing else.
pub proof fn law_environment_holds_only_grove_variables_and_overrides(inst: &Instance, session_set: bool, k: Seq<char>)
    requires
        environment_of(inst, session_set) is Ok,
        environment_of(inst, session_set)->Ok_0.contains_key(k),
    ensures
        base_env(inst, session_set).contains_key(k)
            || exists|b: int, i: int| 0 <= b < inst.config.secrets@.len() && 0 <= i < inst.config.secrets@[b].set@.len()
                && #[trigger] inst.config.secrets@[b].set@[i].0@ == k,
{
    let secrets = inst.config.secrets@;
    lemma_overlay_keys(base_env(inst, session_set), flat_sets(secrets), context_of(inst));
    if !base_env(inst, session_set).contains_key(k) {
        let t = choose|t: int| 0 <= t < flat_sets(secrets).len() && #[trigger] flat_sets(secrets)[t].0@ == k;
        let bj = flat_index(secrets, t);
        assert(secrets[bj.0].set@[bj.1].0@ == k);
    }
}

/// A port's variable, once exported, holds its number when no later port's variable
/// is the same.
proof fn lemma_port_env_value(m: Map<Seq<char>, Seq<char>>, ports: Seq<(String, u16)>, p: int)
    requires
        0 <= p < ports.len(),
        forall|a: int, b: int| 0 <= a < b < ports.len() ==> uppercase_of(#[trigger] ports[a].0@) != uppercase_of(#[trigger] ports[b].0@),
    ensures
        port_env(m, ports).contains_key(port_var(ports[p].0@)),
        port_env(m, ports)[port_var(ports[p].0@)] == decimal(ports[p].1 as nat),
    decreases ports.len(),
{
    reveal_strlit("GROVE_PORT_");
    let n = ports.len() - 1;
    if p < n {
        let d = ports.drop_last();
        assert forall|a: int, b: int| 0 <= a < b < d.len() implies uppercase_of(#[trigger] d[a].0@) != uppercase_of(#[trigger] d[b].0@) by {
            assert(d[a] == ports[a] && d[b] == ports[b]);
        }
        assert(d[p] == ports[p]);
        lemma_port_env_value(m, d, p);
        assert(uppercase_of(ports[p].0@) != uppercase_of(ports[n].0@));
        assert(port_var(ports[p].0@) != port_var(ports[n].0@)) by {
            let x = port_var(ports[p].0@);
            let y = port_var(ports[n].0@);
            if x == y {
                assert(x.subrange(11, x.len() as int) =~= uppercase_of(ports[p].0@));
                assert(y.subrange(11, y.len() as int) =~= uppercase_of(ports[n].0@));
            }
        }
    }
}

/// Exporting the ports adds a variable for each of them.
proof fn lemma_port_env(m: Map<Seq<char>, Seq<char>>, ports: Seq<(String, u16)>)
    ensures
        forall|p: int| 0 <= p < ports.len() ==> port_env(m, ports).contains_key(#[trigger] port_var(ports[p].0@)),
        forall|k: Seq<char>| #[trigger] m.contains_key(k) ==> port_env(m, ports).contains_key(k),
    decreases ports.len(),
{
    if ports.len() > 0 {
        lemma_port_env(m, ports.drop_last());
        assert forall|p: int| 0 <= p < ports.len() implies port_env(m, ports).contains_key(#[trigger] port_var(ports[p].0@)) by {
            if p < ports.len() - 1 {
                assert(ports.drop_last()[p] == ports[p]);
            }
        }
    }
}

/// Exporting the ports leaves every variable that is no port variable as it was.
proof fn lemma_port_env_keeps(m: Map<Seq<char>, Seq<char>>, ports: Seq<(String, u16)>, k: Seq<char>)
    requires
        m.contains_key(k),
        k.len() >= 7 && k[6] != 'P',
    ensures
        port_env(m, ports).contains_key(k),
        port_env(m, ports)[k] == m[k],
    decreases ports.len(),
{
    reveal_strlit("GROVE_PORT_");
    if ports.len() > 0 {
        lemma_port_env_keeps(m, ports.drop_last(), k);
        assert(port_var(ports.last().0@)[6] == 'P');
    }
}

/// Why the environment could not be assembled.
#[derive(Debug)]
pub enum EnvError {
    /// An override template did not render.
    Render { key: String, error: RenderError },
    /// Two blocks set one key to different values.
    Conflict { key: String, existing: String, value: String },
}

impl EnvError {
    pub open spec fn message_of(&self) -> Seq<char> {
        match self {
            EnvError::Render { key, error } => "rendering "@ + key@ + " for the environment: "@ + error.message_of(),
            EnvError::Conflict { key, existing, value } => key@
                + " is set to two different values by different [[secrets]] blocks ("@ + quoted(existing@) + " and "@
                + quoted(value@) + "); give them distinct names or the same value"@,
        }
    }

    pub fn message(&self) -> (m: String)
        ensures
            m@ == self.message_of(),
    {
        match self {
            EnvError::Render { key, error } => {
                let mut m = owned("rendering ");
                push_text(&mut m, key.as_str());
                push_text(&mut m, " for the environment: ");
                let cause = error.message();
                push_text(&mut m, cause.as_str());
                m
            },
            EnvError::Conflict { key, existing, value } => {
                let mut m = owned(key.as_str());
                push_text(&mut m, " is set to two different values by different [[secrets]] blocks (");
                let a = quote(existing.as_str());
                push_text(&mut m, a.as_str());
                push_text(&mut m, " and ");
                let b = quote(value.as_str());
                push_text(&mut m, b.as_str());
                push_text(&mut m, "); give them distinct names or the same value");
                m
            },
        }
    }
}

impl View for EnvError {
    type V = EnvErrorView;

    open spec fn view(&self) -> EnvErrorView {
        match self {
            EnvError::Render { key, error } => EnvErrorView::Render(key@, error@),
            EnvError::Conflict { key, existing, value } => EnvErrorView::Conflict(key@, existing@, value@),
        }
    }
}

/// `t` ends with `suffix`.
pub open spec fn ends_with(t: Seq<char>, suffix: Seq<char>) -> bool {
    suffix.len() <= t.len() && t.subrange(t.len() - suffix.len(), t.len() as int) == suffix
}

/// A duration's number text and the milliseconds one unit of it is worth. `ms` is
/// tested before `s`, or every millisecond value would read as seconds; no unit means
/// seconds.
pub open spec fn duration_parts(t: Seq<char>) -> (Seq<char>, nat) {
    if ends_with(t, "ms"@) {
        (t.subrange(0, t.len() - 2), 1)
    } else if ends_with(t, "s"@) {
        (t.subrange(0, t.len() - 1), 1000)
    } else if ends_with(t, "m"@) {
        (t.subrange(0, t.len() - 1), 60_000)
    } else if ends_with(t, "h"@) {
        (t.subrange(0, t.len() - 1), 3_600_000)
    } else if ends_with(t, "d"@) {
        (t.subrange(0, t.len() - 1), 86_400_000)
    } else {
        (t, 1000)
    }
}

/// The number a duration's text counts, if it is one.
pub open spec fn duration_amount(text: Seq<char>) -> Option<nat> {
    parse_uint(trim(duration_parts(trim(text)).0), u64::MAX as nat)
}

/// The milliseconds `text` names: `"180s"`, `"2m"`, `"6h"`, `"2d"`, `"500ms"`, or a bare
/// number of seconds, with whitespace around either part ignored.
pub open spec fn duration_ms(text: Seq<char>) -> Option<nat> {
    match duration_amount(text) {
        Some(a) => Some(a * duration_parts(trim(text)).1),
        None => None,
    }
}

/// The milliseconds fit in a `u64`, or the text is no duration at all.
pub open spec fn duration_fits(text: Seq<char>) -> bool {
    match duration_ms(text) {
        Some(ms) => ms <= u64::MAX,
        None => true,
    }
}

fn ends_with_exec(t: &Vec<char>, suffix: &str) -> (r: bool)
    ensures
        r == ends_with(t@, suffix@),
{
    let x = chars_of(suffix);
    if x.len() > t.len() {
        return false;
    }
    let tail = slice_chars(t, t.len() - x.len(), t.len());
    let mut i: usize = 0;
    while i < x.len()
        invariant
            i <= x.len(),
            tail@.len() == x@.len(),
            x@ == suffix@,
            x.len() <= t.len(),
            tail@ == t@.subrange(t.len() - x.len(), t.len() as int),
            forall|j: int| 0 <= j < i ==> tail@[j] == x@[j],
        decreases x.len() - i,
    {
        if tail[i] != x[i] {
            assert(tail@[i as int] != x@[i as int]);
            assert(tail@ != x@);
            return false;
        }
        i += 1;
    }
    assert(tail@ =~= x@);
    true
}

fn duration_split(t: &Vec<char>) -> (r: (Vec<char>, u64))
    ensures
        r.0@ == duration_parts(t@).0,
        r.1 as nat == duration_parts(t@).1,
{
    proof { reveal_strlit("ms"); reveal_strlit("s"); reveal_strlit("m"); reveal_strlit("h"); reveal_strlit("d"); }
    if ends_with_exec(t, "ms") {
        (slice_chars(t, 0, t.len() - 2), 1)
    } else if ends_with_exec(t, "s") {
        (slice_chars(t, 0, t.len() - 1), 1000)
    } else if ends_with_exec(t, "m") {
        (slice_chars(t, 0, t.len() - 1), 60_000)
    } else if ends_with_exec(t, "h") {
        (slice_chars(t, 0, t.len() - 1), 3_600_000)
    } else if ends_with_exec(t, "d") {
        (slice_chars(t, 0, t.len() - 1), 86_400_000)
    } else {
        (slice_chars(t, 0, t.len()), 1000)
    }
}

/// Whether `parse_duration` may be asked about `text`: its milliseconds fit a `u64`.
pub fn duration_in_range(text: &str) -> (r: bool)
    ensures
        r == duration_fits(text@),
{
    let t = trim_chars(&chars_of(text));
    let (v, mult) = duration_split(&t);
    match parse_uint_chars(&trim_chars(&v), u64::MAX) {
        None => true,
        Some(a) => {
            let fits = a <= u64::MAX / mult;
            proof {
                let m = mult as int;
                let q = a as int;
                assert(m > 0);
                assert(fits == (q * m <= u64::MAX)) by (nonlinear_arith)
                    requires
                        m > 0,
                        q >= 0,
                        fits == (q <= u64::MAX as int / m);
            }
            fits
        },
    }
}

/// `"180s"`, `"2m"`, `"6h"`, `"2d"`, `"500ms"`, or a bare number of seconds, in
/// milliseconds. Readiness timeouts and `--idle` windows are the same kind of value
/// written by the same hands, so they parse the same way.
pub fn parse_duration(text: &str) -> (r: Result<u64, InstanceError>)
    requires
        duration_fits(text@),
    ensures
        match duration_ms(text@) {
            Some(ms) => r == Ok::<u64, InstanceError>(ms as u64),
            None => r matches Err(InstanceError::Duration { text: t }) && t@ == text@,
        },
{
    let t = trim_chars(&chars_of(text));
    let (v, mult) = duration_split(&t);
    match parse_uint_chars(&trim_chars(&v), u64::MAX) {
        None => Err(InstanceError::Duration { text: owned(text) }),
        Some(a) => {
            assert(a * mult <= u64::MAX);
            Ok(a * mult)
        },
    }
}

/// The last `n` lines of `body`, joined by newlines: what an error quotes from a log.
pub open spec fn tail_of(body: Seq<char>, n: nat) -> Seq<char> {
    let ls = lines(body);
    let from = if ls.len() > n { ls.len() - n } else { 0 };
    joined_by_newline(ls.subrange(from as int, ls.len() as int))
}

/// Lines joined with a newline between each two.
pub open spec fn joined_by_newline(ls: Seq<Seq<char>>) -> Seq<char>
    decreases ls.len(),
{
    if ls.len() == 0 {
        Seq::empty()
    } else if ls.len() == 1 {
        ls[0]
    } else {
        joined_by_newline(ls.drop_last()) + seq!['\n'] + ls.last()
    }
}

/// How many lines of a failed step's log its error quotes.
pub const QUOTED_LINES: usize = 30;

/// The error for a service's setup that exited unsuccessfully, quoting the end of `body`,
/// the log it wrote.
pub fn setup_failed(name: &str, setup: &str, log: &str, body: &str) -> (e: InstanceError)
    ensures
        e matches InstanceError::Failed { what, command, log: l, output } && what@ == "setup for "@ + name@
            && command@ == setup@ && l@ == log@ && output@ == tail_of(body@, QUOTED_LINES as nat),
{
    let mut what = owned("setup for ");
    push_text(&mut what, name);
    InstanceError::Failed { what, command: owned(setup), log: owned(log), output: tail(body, QUOTED_LINES) }
}

/// The error for a service's `prepare` that exited unsuccessfully, quoting the end of
/// `body`, the log it wrote.
pub fn prepare_failed(name: &str, prepare: &str, log: &str, body: &str) -> (e: InstanceError)
    ensures
        e matches InstanceError::Failed { what, command, log: l, output } && what@ == "prepare for "@ + name@
            && command@ == prepare@ && l@ == log@ && output@ == tail_of(body@, QUOTED_LINES as nat),
{
    let mut what = owned("prepare for ");
    push_text(&mut what, name);
    InstanceError::Failed { what, command: owned(prepare), log: owned(log), output: tail(body, QUOTED_LINES) }
}

/// The error for a seed that exited unsuccessfully, quoting the end of `body`, the log
/// it wrote.
pub fn seed_failed(name: &str, command: &str, log: &str, body: &str) -> (e: InstanceError)
    ensures
        e matches InstanceError::Failed { what, command: c, log: l, output } && what@ == "seed "@ + name@
            && c@ == command@ && l@ == log@ && output@ == tail_of(body@, QUOTED_LINES as nat),
{
    let mut what = owned("seed ");
    push_text(&mut what, name);
    InstanceError::Failed { what, command: owned(command), log: owned(log), output: tail(body, QUOTED_LINES) }
}

/// When a setup step still running at `elapsed` seconds should say so: at the first
/// tick, ten seconds in, then every fifteen. A silent multi-minute install is
/// indistinguishable from a hang, and the opening silence is what reads as one.
/// Returns the tick after this one when this moment is due, and None when it is not.
pub fn setup_tick(elapsed: u64, next_tick: u64) -> (r: Option<u64>)
    requires
        elapsed <= u64::MAX - TICK_SECONDS,
    ensures
        r == (if elapsed >= next_tick { Some((elapsed + TICK_SECONDS) as u64) } else { None::<u64> }),
{
    if elapsed >= next_tick { Some(elapsed + TICK_SECONDS) } else { None }
}

/// The first tick of a running setup step, in seconds.
pub const FIRST_TICK_SECONDS: u64 = 10;

/// The seconds between later ticks.
pub const TICK_SECONDS: u64 = 15;

/// The last `lines` lines of a log, for pasting into an error. A failure an agent cannot
/// diagnose from the message costs it a round trip and a chunk of context.
pub fn tail(body: &str, lines_wanted: usize) -> (r: String)
    ensures
        r@ == tail_of(body@, lines_wanted as nat),
{
    let text = chars_of(body);
    let ls = split_lines(&text);
    let from: usize = if ls.len() > lines_wanted { ls.len() - lines_wanted } else { 0 };
    let ghost kept = lines(body@).subrange(from as int, lines(body@).len() as int);
    let mut out: Vec<char> = Vec::new();
    let mut i: usize = from;
    while i < ls.len()
        invariant
            from <= i <= ls.len(),
            char_rows(ls@) == lines(body@),
            kept == lines(body@).subrange(from as int, lines(body@).len() as int),
            out@ == joined_by_newline(kept.subrange(0, i - from)),
        decreases ls.len() - i,
    {
        assert(char_rows(ls@)[i as int] == ls@[i as int]@);
        assert(kept.subrange(0, i + 1 - from).drop_last() =~= kept.subrange(0, i - from));
        if i > from {
            out.push('\n');
        } else {
            assert(kept.subrange(0, 1) =~= seq![kept[0]]);
        }
        extend_chars(&mut out, &ls[i]);
        i += 1;
    }
    assert(kept.subrange(0, kept.len() as int) =~= kept);
    string_of(&out)
}

/// `i` is the first resource that names the instance's database.
pub open spec fn first_db(resources: Seq<Resource>, i: int) -> bool {
    &&& 0 <= i < resources.len()
    &&& resources[i].db_name is Some
    &&& forall|j: int| 0 <= j < i ==> (#[trigger] resources[j]).db_name is None
}

/// No resource names a database.
pub open spec fn no_db(resources: Seq<Resource>) -> bool {
    forall|j: int| 0 <= j < resources.len() ==> (#[trigger] resources[j]).db_name is None
}

fn find_db_resource(resources: &Vec<Resource>) -> (r: Option<usize>)
    ensures
        match r {
            Some(i) => first_db(resources@, i as int),
            None => no_db(resources@),
        },
{
    let mut i: usize = 0;
    while i < resources.len()
        invariant
            i <= resources.len(),
            forall|j: int| 0 <= j < i ==> (#[trigger] resources@[j]).db_name is None,
        decreases resources.len() - i,
    {
        if resources[i].db_name.is_some() {
            return Some(i);
        }
        i += 1;
    }
    None
}

/// What the database name's template sees: everything but the database name itself.
pub open spec fn bare_context(inst: &Instance) -> ContextView {
    ContextView { db_name: None, ..context_of(inst) }
}

/// The entry once the database name is settled: the first `db_name` template,
/// rendered without a database, or the entry as it was when no resource names one.
pub open spec fn with_db_name(inst: &Instance) -> Option<EntryView> {
    if no_db(inst.config.resources@) {
        Some(inst.entry@)
    } else {
        let i = choose|i: int| first_db(inst.config.resources@, i);
        match rendered(inst.config.resources@[i].db_name->0@, bare_context(inst)) {
            Ok(n) => Some(EntryView { db_name: Some(n), ..inst.entry@ }),
            Err(_) => None,
        }
    }
}

/// The env files of an instance whose templates all render: for each `[[secrets]]`
/// block, its target in the worktree and the text written there.
pub open spec fn files_rendered(inst: &Instance, sources: Seq<String>, files: Seq<(String, String)>) -> bool {
    &&& files.len() == inst.config.secrets@.len()
    &&& forall|i: int| 0 <= i < files.len() ==> {
        &&& (#[trigger] files[i]).0@ == join_path(inst.resolved.worktree@, inst.config.secrets@[i].into@)
        &&& exists|v: Seq<(String, String)>| pairs_rendered(inst.config.secrets@[i].set@, v, context_of(inst))
            && #[trigger] env_text(sources[i]@, v) == files[i].1@
    }
}

/// Every override of every block renders.
pub open spec fn all_files_render(inst: &Instance) -> bool {
    forall|i: int| 0 <= i < inst.config.secrets@.len() ==> all_render(#[trigger] inst.config.secrets@[i].set@, context_of(inst))
}

impl Instance {
    /// Settle `db_name` from the first resource that declares one, and record it.
    pub fn render_db_name(&mut self, registry: &mut Registry) -> (r: Result<(), InstanceError>)
        requires
            old(self).well_formed(),
            old(registry).well_formed(),
        ensures
            final(self).well_formed(),
            final(self).resolved == old(self).resolved,
            final(self).config == old(self).config,
            final(self).exposure == old(self).exposure,
            final(self).state_dir == old(self).state_dir,
            final(registry).well_formed(),
            final(registry).path == old(registry).path,
            r is Ok <==> with_db_name(old(self)) is Some,
            r is Ok ==> final(self).entry@ == with_db_name(old(self))->0,
            r is Err ==> final(self).entry@ == old(self).entry@,
            r is Ok && !no_db(old(self).config.resources@) ==> final(registry)@ == recorded(old(registry)@, final(self).entry@),
            !(r is Ok && !no_db(old(self).config.resources@)) ==> final(registry)@ == old(registry)@,
            r matches Err(InstanceError::Render { error, .. }) ==> exists|i: int| first_db(old(self).config.resources@, i)
                && rendered(old(self).config.resources@[i].db_name->0@, bare_context(old(self))) == Err::<Seq<char>, RenderErrorView>(error@),
            r is Err ==> r matches Err(InstanceError::Render { .. }),
    {
        match find_db_resource(&self.config.resources) {
            None => Ok(()),
            Some(i) => {
                let template = match &self.config.resources[i].db_name {
                    Some(t) => t,
                    None => { return Ok(()); },
                };
                let ctx = self.render_context();
                let bare = Context { db_name: None, ..ctx };
                assert(bare@ == bare_context(self));
                match value(template.as_str(), &bare) {
                    Ok(name) => {
                        self.entry.db_name = Some(name);
                        registry.record(&self.entry);
                        Ok(())
                    },
                    Err(e) => {
                        let mut what = owned("rendering db_name ");
                        let q = quote(template.as_str());
                        push_text(&mut what, q.as_str());
                        Err(InstanceError::Render { what, error: e })
                    },
                }
            },
        }
    }

    /// Each env file this repo needs, from the text of its source in the main checkout:
    /// where it goes in the worktree and what it holds.
    pub fn render_files(&self, sources: &Vec<String>) -> (r: Result<Vec<(String, String)>, InstanceError>)
        requires
            self.well_formed(),
            sources@.len() == self.config.secrets@.len(),
        ensures
            r is Ok <==> all_files_render(self),
            r matches Ok(files) ==> files_rendered(self, sources@, files@),
            r matches Err(InstanceError::Render { error, .. }) ==> exists|i: int| 0 <= i < self.config.secrets@.len()
                && first_failure(self.config.secrets@[i].set@, context_of(self), error@)
                && forall|j: int| 0 <= j < i ==> all_render(#[trigger] self.config.secrets@[j].set@, context_of(self)),
            r is Err ==> r matches Err(InstanceError::Render { .. }),
    {
        let ctx = self.render_context();
        let mut files: Vec<(String, String)> = Vec::new();
        let mut i: usize = 0;
        while i < self.config.secrets.len()
            invariant
                i <= self.config.secrets.len(),
                self.well_formed(),
                sources@.len() == self.config.secrets@.len(),
                ctx@ == context_of(self),
                sorted(ctx.ports@),
                files@.len() == i,
                forall|j: int| 0 <= j < i ==> all_render(#[trigger] self.config.secrets@[j].set@, context_of(self)),
                forall|j: int| 0 <= j < i ==> {
                    &&& (#[trigger] files@[j]).0@ == join_path(self.resolved.worktree@, self.config.secrets@[j].into@)
                    &&& exists|v: Seq<(String, String)>| pairs_rendered(self.config.secrets@[j].set@, v, context_of(self))
                        && #[trigger] env_text(sources@[j]@, v) == files@[j].1@
                },
            decreases self.config.secrets.len() - i,
        {
            let block = &self.config.secrets[i];
            assert(sorted(block.set@));
            match render_secrets(block, sources[i].as_str(), &ctx) {
                Ok(text) => {
                    let target = crate::render::secrets_target(block, &self.resolved);
                    files.push((target, text));
                },
                Err(e) => {
                    let mut what = owned("rendering ");
                    push_text(&mut what, block.into.as_str());
                    return Err(InstanceError::Render { what, error: e });
                },
            }
            i += 1;
        }
        Ok(files)
    }

    /// Settle `db_name`, then render every env file this repo needs.
    pub fn render(&mut self, registry: &mut Registry, sources: &Vec<String>) -> (r: Result<Vec<(String, String)>, InstanceError>)
        requires
            old(self).well_formed(),
            old(registry).well_formed(),
            sources@.len() == old(self).config.secrets@.len(),
        ensures
            final(self).well_formed(),
            final(self).resolved == old(self).resolved,
            final(self).config == old(self).config,
            final(self).exposure == old(self).exposure,
            final(self).state_dir == old(self).state_dir,
            final(registry).well_formed(),
            final(registry).path == old(registry).path,
            r is Err ==> r matches Err(InstanceError::Render { .. }),
            with_db_name(old(self)) is None ==> {
                &&& r is Err
                &&& final(self).entry@ == old(self).entry@
                &&& final(registry)@ == old(registry)@
                &&& r matches Err(InstanceError::Render { error, .. }) ==> exists|i: int| first_db(old(self).config.resources@, i)
                    && rendered(old(self).config.resources@[i].db_name->0@, bare_context(old(self)))
                        == Err::<Seq<char>, RenderErrorView>(error@)
            },
            with_db_name(old(self)) is Some ==> {
                &&& final(self).entry@ == with_db_name(old(self))->0
                &&& final(registry)@ == (if no_db(old(self).config.resources@) { old(registry)@ } else {
                        recorded(old(registry)@, final(self).entry@) })
                &&& r is Ok <==> all_files_render(final(self))
                &&& r matches Ok(files) ==> files_rendered(final(self), sources@, files@)
                &&& r matches Err(InstanceError::Render { error, .. }) ==> exists|i: int| 0 <= i < old(self).config.secrets@.len()
                    && first_failure(old(self).config.secrets@[i].set@, context_of(final(self)), error@)
                    && forall|j: int| 0 <= j < i ==> all_render(#[trigger] old(self).config.secrets@[j].set@, context_of(final(self)))
            },
    {
        match self.render_db_name(registry) {
            Err(e) => Err(e),
            Ok(()) => self.render_files(sources),
        }
    }
}

/// Some declared service is called `name`.
pub open spec fn declares_service(inst: &Instance, name: Seq<char>) -> bool {
    exists|i: int| 0 <= i < inst.config.services@.len() && #[trigger] inst.config.services@[i].name@ == name
}

/// The names of the declared services, in declaration order.
pub open spec fn service_names(inst: &Instance) -> Seq<Seq<char>> {
    Seq::new(inst.config.services@.len(), |i: int| inst.config.services@[i].name@)
}

/// A recorded service is one `only` asks for: any, or the one named.
pub open spec fn wanted(only: Option<Seq<char>>, name: Seq<char>) -> bool {
    match only {
        Some(n) => n == name,
        None => true,
    }
}

/// The recorded services `only` picks, in name order, with their handles.
pub open spec fn picked(services: Seq<(String, Handle)>, only: Option<Seq<char>>) -> Seq<(Seq<char>, Handle)>
    decreases services.len(),
{
    if services.len() == 0 {
        Seq::empty()
    } else {
        let rest = picked(services.drop_last(), only);
        if wanted(only, services.last().0@) { rest.push((services.last().0@, services.last().1)) } else { rest }
    }
}

/// A list of named handles, seen through the names' views.
pub open spec fn named_views(v: Seq<(String, Handle)>) -> Seq<(Seq<char>, Handle)> {
    Seq::new(v.len(), |i: int| (v[i].0@, v[i].1))
}

/// What `status` says of one declared service.
#[derive(Debug)]
pub struct ServiceStatus {
    pub name: String,
    /// Its recorded process is alive.
    pub running: bool,
    /// The recorded process, running or not.
    pub pid: Option<u32>,
    /// Whether its `ready.http` answered when probed.
    pub ready: Readiness,
    /// Its rendered `ready.http`, when it declares one.
    pub url: Option<String>,
}

/// What a service's readiness probe found.
#[derive(Debug, PartialEq, Eq, Structural, Clone, Copy)]
pub enum Readiness {
    /// Running, and its URL answered.
    Answering,
    /// Running, and its URL did not answer: the process survives and the endpoint is
    /// dead, the case every cheaper signal reports as fine.
    Silent,
    /// Not probed: not running, or no URL to probe.
    Unprobed,
}

impl Readiness {
    pub open spec fn text_of(self) -> Seq<char> {
        match self {
            Readiness::Answering => "answering"@,
            Readiness::Silent => "silent"@,
            Readiness::Unprobed => "unprobed"@,
        }
    }

    /// The word the JSON status carries for it.
    pub fn as_str(&self) -> (s: &'static str)
        ensures
            s@ == self.text_of(),
    {
        match self {
            Readiness::Answering => "answering",
            Readiness::Silent => "silent",
            Readiness::Unprobed => "unprobed",
        }
    }
}

/// The readiness of a service from whether it runs, its probe URL, and the probe's answer.
pub open spec fn readiness_of(running: bool, url: Option<Seq<char>>, answered: bool) -> Readiness {
    if !running || url is None { Readiness::Unprobed } else if answered { Readiness::Answering } else { Readiness::Silent }
}

/// Service `i`'s rendered `ready.http`: none when it declares none or it does not render.
pub open spec fn ready_url_of(inst: &Instance, i: int) -> Option<Seq<char>> {
    match inst.config.services@[i].ready {
        None => None,
        Some(rd) => match rendered(rd.http@, context_of(inst)) {
            Ok(u) => Some(u),
            Err(_) => None,
        },
    }
}

/// Whether the recorded service called `name` is alive, by the flags given per
/// recorded service.
pub open spec fn alive_named(services: Seq<(String, Handle)>, alive: Seq<bool>, name: Seq<char>) -> bool {
    exists|i: int| 0 <= i < services.len() && #[trigger] services[i].0@ == name && alive[i]
}

/// The recorded services started before `changed` that are still alive.
pub open spec fn stale_of(services: Seq<(String, Handle)>, alive: Seq<bool>, changed: u64) -> Seq<Seq<char>>
    decreases services.len(),
{
    if services.len() == 0 {
        Seq::empty()
    } else {
        let rest = stale_of(services.drop_last(), alive.drop_last(), changed);
        let h = services.last().1;
        if alive.last() && h.started_at > 0 && h.started_at < changed { rest.push(services.last().0@) } else { rest }
    }
}

/// The names of the services a stop reached.
pub open spec fn stopped_names(stopped: Seq<(String, Handle)>) -> Set<Seq<char>> {
    Set::new(|k: Seq<char>| exists|i: int| 0 <= i < stopped.len() && #[trigger] stopped[i].0@ == k)
}

proof fn lemma_picked_named(services: Seq<(String, Handle)>, name: Seq<char>)
    ensures
        forall|i: int| 0 <= i < picked(services, Some(name)).len() ==> #[trigger] picked(services, Some(name))[i].0 == name,
    decreases services.len(),
{
    if services.len() > 0 {
        lemma_picked_named(services.drop_last(), name);
        let rest = picked(services.drop_last(), Some(name));
        let all = picked(services, Some(name));
        assert forall|i: int| 0 <= i < all.len() implies #[trigger] all[i].0 == name by {
            if i < rest.len() {
                assert(all[i] == rest[i]);
            }
        }
    }
}

/// `restart <name>` replaces the named service without touching the others: all it
/// stops is called `name`, and forgetting what it stopped keeps every other recorded
/// service as it was.
pub proof fn law_restart_touches_only_the_named_service(
    services: Seq<(String, Handle)>,
    name: Seq<char>,
    stopped: Seq<(String, Handle)>,
    before: Map<Seq<char>, Handle>,
)
    requires
        named_views(stopped) == picked(services, Some(name)),
    ensures
        forall|i: int| 0 <= i < stopped.len() ==> #[trigger] stopped[i].0@ == name,
        before.remove_keys(stopped_names(stopped)).remove(name) == before.remove(name),
{
    lemma_picked_named(services, name);
    assert forall|i: int| 0 <= i < stopped.len() implies #[trigger] stopped[i].0@ == name by {
        assert(named_views(stopped)[i].0 == stopped[i].0@);
    }
    assert(before.remove_keys(stopped_names(stopped)).remove(name) =~= before.remove(name));
}

impl Instance {
    /// The recorded services to stop: the named one, or all of them. A name the config
    /// does not declare is refused, with the names it does declare.
    pub fn stop_services(&self, only: Option<&str>) -> (r: Result<Vec<(String, Handle)>, InstanceError>)
        requires
            self.entry.well_formed(),
        ensures
            match only {
                Some(n) => !declares_service(self, n@) <==> r is Err,
                None => r is Ok,
            },
            r matches Err(InstanceError::NoService { name, known }) ==> only matches Some(n) && name@ == n@
                && texts(known@) == service_names(self),
            r is Err ==> r matches Err(InstanceError::NoService { .. }),
            r matches Ok(v) ==> named_views(v@) == picked(self.entry.services@, match only { Some(n) => Some(n@), None => None }),
    {
        let ghost want: Option<Seq<char>> = match only { Some(n) => Some(n@), None => None };
        match only {
            Some(name) => {
                let mut found = false;
                let mut known: Vec<String> = Vec::new();
                let mut i: usize = 0;
                while i < self.config.services.len()
                    invariant
                        i <= self.config.services.len(),
                        known@.len() == i,
                        forall|j: int| 0 <= j < i ==> (#[trigger] known@[j])@ == self.config.services@[j].name@,
                        found <==> exists|j: int| 0 <= j < i && #[trigger] self.config.services@[j].name@ == name@,
                    decreases self.config.services.len() - i,
                {
                    if crate::table::compare_text(self.config.services[i].name.as_str(), name) == 0 {
                        found = true;
                    }
                    known.push(self.config.services[i].name.clone());
                    i += 1;
                }
                if !found {
                    assert(texts(known@) =~= service_names(self));
                    return Err(InstanceError::NoService { name: owned(name), known });
                }
            },
            None => {},
        }
        let mut out: Vec<(String, Handle)> = Vec::new();
        let mut i: usize = 0;
        while i < self.entry.services.len()
            invariant
                i <= self.entry.services.len(),
                named_views(out@) == picked(self.entry.services@.subrange(0, i as int), want),
                want == (match only { Some(n) => Some(n@), None => None::<Seq<char>> }),
            decreases self.entry.services.len() - i,
        {
            let ghost pre = self.entry.services@.subrange(0, i as int);
            assert(self.entry.services@.subrange(0, i + 1).drop_last() =~= pre);
            let take = match only {
                Some(n) => crate::table::compare_text(self.entry.services[i].0.as_str(), n) == 0,
                None => true,
            };
            if take {
                let ghost before = out@;
                out.push((self.entry.services[i].0.clone(), self.entry.services[i].1));
                assert(named_views(out@) =~= named_views(before).push((self.entry.services@[i as int].0@, self.entry.services@[i as int].1)));
            }
            i += 1;
        }
        assert(self.entry.services@.subrange(0, self.entry.services@.len() as int) =~= self.entry.services@);
        Ok(out)
    }

    /// Forget the services that were stopped, and record the entry.
    pub fn services_stopped(&mut self, registry: &mut Registry, stopped: &Vec<(String, Handle)>)
        requires
            old(self).well_formed(),
            old(registry).well_formed(),
        ensures
            final(self).well_formed(),
            final(self).resolved == old(self).resolved,
            final(self).config == old(self).config,
            final(self).exposure == old(self).exposure,
            final(self).state_dir == old(self).state_dir,
            final(self).entry@ == (EntryView {
                services: old(self).entry@.services.remove_keys(stopped_names(stopped@)),
                ..old(self).entry@
            }),
            final(registry).well_formed(),
            final(registry).path == old(registry).path,
            final(registry)@ == recorded(old(registry)@, final(self).entry@),
    {
        let ghost gone = Set::new(|k: Seq<char>| exists|i: int| 0 <= i < stopped@.len() && #[trigger] stopped@[i].0@ == k);
        let ghost start = table_map(self.entry.services@);
        let mut i: usize = 0;
        while i < stopped.len()
            invariant
                i <= stopped.len(),
                sorted(self.entry.services@),
                sorted(self.entry.ports@),
                self.entry.ports@ == old(self).entry.ports@,
                self.entry.worktree == old(self).entry.worktree,
                self.entry.slug == old(self).entry.slug,
                self.entry.db_name == old(self).entry.db_name,
                self.entry.last_used == old(self).entry.last_used,
                self.entry.exposure == old(self).entry.exposure,
                self.entry.instance_dir == old(self).entry.instance_dir,
                self.resolved == old(self).resolved,
                self.config == old(self).config,
                self.exposure == old(self).exposure,
                self.state_dir == old(self).state_dir,
                table_map(self.entry.services@) == start.remove_keys(Set::new(|k: Seq<char>|
                    exists|j: int| 0 <= j < i && #[trigger] stopped@[j].0@ == k)),
            decreases stopped.len() - i,
        {
            let ghost before = table_map(self.entry.services@);
            let _ = table_remove(&mut self.entry.services, stopped[i].0.as_str());
            assert(start.remove_keys(Set::new(|k: Seq<char>| exists|j: int| 0 <= j < i + 1 && #[trigger] stopped@[j].0@ == k))
                =~= before.remove(stopped@[i as int].0@));
            i += 1;
        }
        assert(Set::new(|k: Seq<char>| exists|j: int| 0 <= j < stopped@.len() && #[trigger] stopped@[j].0@ == k) =~= gone);
        registry.record(&self.entry);
    }

    /// Forget every service, and record the entry. The application stops the recorded
    /// processes first.
    pub fn down(&mut self, registry: &mut Registry)
        requires
            old(self).well_formed(),
            old(registry).well_formed(),
        ensures
            final(self).well_formed(),
            final(self).resolved == old(self).resolved,
            final(self).config == old(self).config,
            final(self).exposure == old(self).exposure,
            final(self).state_dir == old(self).state_dir,
            final(self).entry@ == (EntryView { services: Map::empty(), ..old(self).entry@ }),
            final(registry).well_formed(),
            final(registry).path == old(registry).path,
            final(registry)@ == recorded(old(registry)@, final(self).entry@),
    {
        self.entry.services = Vec::new();
        assert(table_map(self.entry.services@) =~= Map::<Seq<char>, Handle>::empty());
        registry.record(&self.entry);
    }

    /// Remember a service that was just started, and record the entry.
    pub fn started(&mut self, registry: &mut Registry, name: &str, handle: Handle)
        requires
            old(self).well_formed(),
            old(registry).well_formed(),
        ensures
            final(self).well_formed(),
            final(self).resolved == old(self).resolved,
            final(self).config == old(self).config,
            final(self).exposure == old(self).exposure,
            final(self).state_dir == old(self).state_dir,
            final(self).entry@ == (EntryView { services: old(self).entry@.services.insert(name@, handle), ..old(self).entry@ }),
            final(registry).well_formed(),
            final(registry).path == old(registry).path,
            final(registry)@ == recorded(old(registry)@, final(self).entry@),
    {
        table_insert(&mut self.entry.services, owned(name), handle);
        registry.record(&self.entry);
    }

    /// Each declared service, whether its recorded process is alive, and its pid.
    /// `alive` holds one flag per recorded service, in name order.
    pub fn status(&self, alive: &Vec<bool>, answered: &Vec<bool>) -> (out: Vec<ServiceStatus>)
        requires
            self.entry.well_formed(),
            alive@.len() == self.entry.services@.len(),
            answered@.len() == self.config.services@.len(),
        ensures
            out@.len() == self.config.services@.len(),
            forall|i: int| 0 <= i < out@.len() ==> {
                let name = self.config.services@[i].name@;
                &&& (#[trigger] out@[i]).name@ == name
                &&& opt_text(out@[i].url) == ready_url_of(self, i)
                &&& out@[i].ready == readiness_of(out@[i].running, ready_url_of(self, i), answered@[i])
                &&& out@[i].running == alive_named(self.entry.services@, alive@, name)
                &&& out@[i].pid == (if self.entry@.services.contains_key(name) {
                        Some(self.entry@.services[name].pid)
                    } else {
                        None::<u32>
                    })
            },
    {
        let mut out: Vec<ServiceStatus> = Vec::new();
        let mut i: usize = 0;
        while i < self.config.services.len()
            invariant
                i <= self.config.services.len(),
                self.entry.well_formed(),
                alive@.len() == self.entry.services@.len(),
                answered@.len() == self.config.services@.len(),
                out@.len() == i,
                forall|j: int| 0 <= j < i ==> {
                    let name = self.config.services@[j].name@;
                    &&& (#[trigger] out@[j]).name@ == name
                    &&& opt_text(out@[j].url) == ready_url_of(self, j)
                    &&& out@[j].ready == readiness_of(out@[j].running, ready_url_of(self, j), answered@[j])
                    &&& out@[j].running == alive_named(self.entry.services@, alive@, name)
                    &&& out@[j].pid == (if self.entry@.services.contains_key(name) {
                            Some(self.entry@.services[name].pid)
                        } else {
                            None::<u32>
                        })
                },
            decreases self.config.services.len() - i,
        {
            let name = &self.config.services[i].name;
            let (running, pid) = match table_find(&self.entry.services, name.as_str()) {
                Some(k) => {
                    proof {
                        lemma_value_at(self.entry.services@, k as int);
                        assert forall|q: int| 0 <= q < self.entry.services@.len() && self.entry.services@[q].0@ == name@
                            implies q == k as int by {
                            if q != k as int {
                                crate::table::lemma_sorted_distinct(self.entry.services@, q, k as int);
                            }
                        }
                    }
                    (alive[k], Some(self.entry.services[k].1.pid))
                },
                None => {
                    proof {
                        assert forall|q: int| 0 <= q < self.entry.services@.len()
                            implies #[trigger] self.entry.services@[q].0@ != name@ by {
                            lemma_value_at(self.entry.services@, q);
                        }
                    }
                    (false, None)
                },
            };
            let url = self.ready_url(i);
            let ready = if !running || url.is_none() {
                Readiness::Unprobed
            } else if answered[i] {
                Readiness::Answering
            } else {
                Readiness::Silent
            };
            out.push(ServiceStatus { name: name.clone(), running, pid, ready, url });
            i += 1;
        }
        out
    }

    /// Service `i`'s readiness URL, rendered: what `status` probes.
    pub fn ready_url(&self, i: usize) -> (r: Option<String>)
        requires
            self.entry.well_formed(),
            i < self.config.services@.len(),
        ensures
            opt_text(r) == ready_url_of(self, i as int),
    {
        match &self.config.services[i].ready {
            None => None,
            Some(rd) => {
                let ctx = self.render_context();
                match value(rd.http.as_str(), &ctx) {
                    Ok(u) => Some(u),
                    Err(_) => None,
                }
            },
        }
    }

    /// Services running from before `changed`, the newest edit to the worktree's own
    /// source. They keep serving the old code, and a service without hot reload gives no
    /// hint that it is doing so. `alive` holds one flag per recorded service.
    pub fn stale_services(&self, changed: Option<u64>, alive: &Vec<bool>) -> (out: Vec<String>)
        requires
            alive@.len() == self.entry.services@.len(),
        ensures
            match changed {
                None => out@.len() == 0,
                Some(c) => texts(out@) == stale_of(self.entry.services@, alive@, c),
            },
    {
        let mut out: Vec<String> = Vec::new();
        let c = match changed {
            None => { return out; },
            Some(c) => c,
        };
        let mut i: usize = 0;
        while i < self.entry.services.len()
            invariant
                i <= self.entry.services.len(),
                alive@.len() == self.entry.services@.len(),
                texts(out@) == stale_of(self.entry.services@.subrange(0, i as int), alive@.subrange(0, i as int), c),
            decreases self.entry.services.len() - i,
        {
            assert(self.entry.services@.subrange(0, i + 1).drop_last() =~= self.entry.services@.subrange(0, i as int));
            assert(alive@.subrange(0, i + 1).drop_last() =~= alive@.subrange(0, i as int));
            let h = self.entry.services[i].1;
            if alive[i] && h.started_at > 0 && h.started_at < c {
                let ghost before = out@;
                out.push(self.entry.services[i].0.clone());
                assert(texts(out@) =~= texts(before).push(self.entry.services@[i as int].0@));
            }
            i += 1;
        }
        assert(self.entry.services@.subrange(0, self.entry.services@.len() as int) =~= self.entry.services@);
        assert(alive@.subrange(0, alive@.len() as int) =~= alive@);
        out
    }

    /// The database to drop and the resource it lives in, when the instance has one.
    pub fn purge_database(&self) -> (r: Option<(usize, String)>)
        ensures
            match r {
                Some((i, d)) => self.entry.db_name matches Some(n) && d@ == n@
                    && first_db(self.config.resources@, i as int),
                None => self.entry.db_name is None || no_db(self.config.resources@),
            },
    {
        let database = match &self.entry.db_name {
            Some(d) => d,
            None => { return None; },
        };
        match find_db_resource(&self.config.resources) {
            Some(i) => Some((i, database.clone())),
            None => None,
        }
    }
}

/// A working directory relative to the worktree, or the worktree itself.
pub open spec fn cwd_of(worktree: Seq<char>, cwd: Option<String>) -> Seq<char> {
    match cwd {
        Some(d) => join_path(worktree, d@),
        None => worktree,
    }
}

/// What one seed did.
#[derive(Debug)]
pub enum SeedOutcome {
    /// It ran, and why when a marker said it had run before.
    Ran { name: String, reason: Option<String> },
    Skipped { name: String, why: String },
}

impl SeedOutcome {
    /// The line reported for it: `seed <name> ... ok`, with the reason it ran again in
    /// brackets, or `... skipped (<why>)`.
    pub open spec fn line_of(&self) -> Seq<char> {
        match self {
            SeedOutcome::Ran { name, reason } => "seed "@ + name@ + " ... ok"@ + match reason {
                Some(r) => " ("@ + r@ + ")"@,
                None => Seq::empty(),
            },
            SeedOutcome::Skipped { name, why } => "seed "@ + name@ + " ... skipped ("@ + why@ + ")"@,
        }
    }

    pub fn line(&self) -> (s: String)
        ensures
            s@ == self.line_of(),
    {
        match self {
            SeedOutcome::Ran { name, reason } => {
                let mut s = owned("seed ");
                push_text(&mut s, name.as_str());
                push_text(&mut s, " ... ok");
                match reason {
                    Some(r) => {
                        push_text(&mut s, " (");
                        push_text(&mut s, r.as_str());
                        push_text(&mut s, ")");
                    },
                    None => {
                        assert(s@ =~= s@ + Seq::<char>::empty());
                    },
                }
                s
            },
            SeedOutcome::Skipped { name, why } => {
                let mut s = owned("seed ");
                push_text(&mut s, name.as_str());
                push_text(&mut s, " ... skipped (");
                push_text(&mut s, why.as_str());
                push_text(&mut s, ")");
                s
            },
        }
    }
}

/// Where one seed runs and leaves its traces.
#[derive(Debug)]
pub struct SeedPaths {
    pub cwd: String,
    /// The fixture the seed needs, when it declares one.
    pub guard: Option<String>,
    /// Written once the seed succeeds, recording what it ran against.
    pub marker: String,
    pub log: String,
}

/// The services among the first `i` that have a readiness probe, in order.
pub open spec fn probed_before(services: Seq<crate::config::Service>, i: int) -> Seq<usize>
    decreases i,
{
    if i <= 0 {
        Seq::empty()
    } else {
        let rest = probed_before(services, i - 1);
        if services[i - 1].ready is Some { rest.push((i - 1) as usize) } else { rest }
    }
}

/// What to do about one seed.
#[derive(Debug)]
pub enum SeedStep {
    /// Nothing to run.
    Skip(SeedOutcome),
    /// Nothing to run, but the legacy marker at `marker` is rewritten as `record`.
    Migrate { outcome: SeedOutcome, marker: String, record: SeedMarker },
    /// Run `command` in `cwd` with its output in `log`; once it succeeds, write
    /// `record` at `marker`. `reason` says why a marker did not hold.
    Run { name: String, cwd: String, command: String, marker: String, log: String, reason: Option<String>, record: SeedMarker },
}

/// What to do about a declared service on `up`.
#[derive(Debug)]
pub enum UpAction {
    /// Running already; leave it.
    Keep,
    /// Not running: start it.
    Start,
    /// Stop this recorded process, then start it again.
    Replace(Handle),
}

/// How to start one service.
#[derive(Debug)]
pub struct Launch {
    pub cwd: String,
    pub log: String,
    pub command: String,
    /// The URL to poll and how long to wait for it, in milliseconds.
    pub ready: Option<(String, u64)>,
}

/// A file in this instance's directory.
pub open spec fn in_dir(inst: &Instance, file: Seq<char>) -> Seq<char> {
    join_path(instance_dir_of(inst.state_dir@, &inst.resolved), file)
}

impl Instance {
    /// Where seed `i` runs, what it needs, and where it leaves its marker and log.
    pub fn seed_paths(&self, i: usize) -> (p: SeedPaths)
        requires
            i < self.config.seeds@.len(),
        ensures
            p.cwd@ == cwd_of(self.resolved.worktree@, self.config.seeds@[i as int].cwd),
            match self.config.seeds@[i as int].if_exists {
                Some(g) => p.guard matches Some(x) && x@ == join_path(p.cwd@, g@),
                None => p.guard is None,
            },
            p.marker@ == in_dir(self, ".seed-"@ + self.config.seeds@[i as int].name@),
            p.log@ == in_dir(self, "seed-"@ + self.config.seeds@[i as int].name@ + ".log"@),
    {
        let seed = &self.config.seeds[i];
        let cwd = match &seed.cwd {
            Some(d) => join(self.resolved.worktree.as_str(), d.as_str()),
            None => self.resolved.worktree.clone(),
        };
        let guard = match &seed.if_exists {
            Some(g) => Some(join(cwd.as_str(), g.as_str())),
            None => None,
        };
        let dir = self.instance_dir();
        let mut m = owned(".seed-");
        push_text(&mut m, seed.name.as_str());
        let marker = join(dir.as_str(), m.as_str());
        let mut l = owned("seed-");
        push_text(&mut l, seed.name.as_str());
        push_text(&mut l, ".log");
        let log = join(dir.as_str(), l.as_str());
        SeedPaths { cwd, guard, marker, log }
    }

    /// The decision `seed` makes for seed `i`. A seed whose fixture is absent is
    /// skipped. Otherwise its command is rendered and its marker judged against what is
    /// observed now (`observations`, one per declared resource) and the resources this
    /// command started: a marker that holds skips the seed unless `force`, and one that
    /// does not names why the seed runs again. A seed that silently skipped is how you
    /// end up debugging a 403. The application runs the loop over the seeds, reads the
    /// markers and performs each decision.
    pub fn seed(
        &self,
        i: usize,
        guard_present: bool,
        marker: &MarkerRead,
        observations: &Vec<Observation>,
        started: &Vec<String>,
        force: bool,
    ) -> (r: Result<SeedStep, InstanceError>)
        requires
            self.entry.well_formed(),
            i < self.config.seeds@.len(),
            observations@.len() == self.config.resources@.len(),
        ensures
            ({
                let seed = self.config.seeds@[i as int];
                let current = current_of(self.config.resources@, observations@);
                if seed.if_exists is Some && !guard_present {
                    r matches Ok(SeedStep::Skip(SeedOutcome::Skipped { name, why }))
                        && name@ == seed.name@ && why@ == seed.if_exists->0@ + " not present"@
                } else {
                    match rendered(seed.command@, context_of(self)) {
                        Err(e) => r matches Err(InstanceError::Render { error, .. }) && error@ == e,
                        Ok(c) => {
                            let state = marker_state(*marker, c, current, started@);
                            let path = in_dir(self, ".seed-"@ + seed.name@);
                            if !force && state is Valid {
                                r matches Ok(SeedStep::Skip(SeedOutcome::Skipped { name, why }))
                                    && name@ == seed.name@ && why@ == "already seeded"@
                            } else if !force && state is Migrate {
                                r matches Ok(SeedStep::Migrate { outcome: SeedOutcome::Skipped { name, why }, marker: m, record })
                                    && name@ == seed.name@ && why@ == "already seeded"@ && m@ == path
                                    && record.command@ == c && sorted(record.resources@)
                                    && pair_map(record.resources@) == next_record(*marker, current)
                            } else {
                                r matches Ok(SeedStep::Run { name, cwd, command, marker: m, log, reason, record })
                                    && name@ == seed.name@ && command@ == c
                                    && cwd@ == cwd_of(self.resolved.worktree@, seed.cwd)
                                    && m@ == path
                                    && log@ == in_dir(self, "seed-"@ + seed.name@ + ".log"@)
                                    && (if force { reason is None } else {
                                        state matches MarkerState::Stale(why) && opt_text(reason) == why })
                                    && record.command@ == c && sorted(record.resources@)
                                    && pair_map(record.resources@) == next_record(*marker, current)
                            }
                        },
                    }
                }
            }),
    {
        let seed = &self.config.seeds[i];
        match &seed.if_exists {
            Some(g) => {
                if !guard_present {
                    let mut why = owned(g.as_str());
                    push_text(&mut why, " not present");
                    return Ok(SeedStep::Skip(SeedOutcome::Skipped { name: seed.name.clone(), why }));
                }
            },
            None => {},
        }
        let ctx = self.render_context();
        let command = match value(seed.command.as_str(), &ctx) {
            Ok(c) => c,
            Err(e) => {
                let mut what = owned("rendering the command for seed ");
                push_text(&mut what, seed.name.as_str());
                return Err(InstanceError::Render { what, error: e });
            },
        };
        let current = current_table(&self.config.resources, observations);
        let p = self.seed_paths(i);
        let reason = if force {
            None
        } else {
            match judge(marker, command.as_str(), &current, started) {
                Freshness::Valid => {
                    return Ok(SeedStep::Skip(SeedOutcome::Skipped { name: seed.name.clone(), why: owned("already seeded") }));
                },
                Freshness::Migrate => {
                    let record = next_marker(marker, command, &current);
                    return Ok(SeedStep::Migrate {
                        outcome: SeedOutcome::Skipped { name: seed.name.clone(), why: owned("already seeded") },
                        marker: p.marker,
                        record,
                    });
                },
                Freshness::Stale(why) => why,
            }
        };
        let record = next_marker(marker, command.clone(), &current);
        Ok(SeedStep::Run { name: seed.name.clone(), cwd: p.cwd, command, marker: p.marker, log: p.log, reason, record })
    }

    /// The command `up` runs before service `i` on every `up`, rendered, when the
    /// service declares one: generated code has to track what it was generated from,
    /// so it runs even when the service is already up. It runs in the service's working
    /// directory, once the services declared above it are answering.
    pub fn prepare(&self, i: usize) -> (r: Result<Option<String>, InstanceError>)
        requires
            self.entry.well_formed(),
            i < self.config.services@.len(),
        ensures
            match self.config.services@[i as int].prepare {
                None => r matches Ok(None),
                Some(p) => match rendered(p@, context_of(self)) {
                    Ok(c) => r matches Ok(Some(s)) && s@ == c,
                    Err(e) => r matches Err(InstanceError::Render { error, .. }) && error@ == e,
                },
            },
    {
        let service = &self.config.services[i];
        match &service.prepare {
            None => Ok(None),
            Some(p) => {
                let ctx = self.render_context();
                match value(p.as_str(), &ctx) {
                    Ok(c) => Ok(Some(c)),
                    Err(e) => {
                        let mut what = owned("rendering prepare for ");
                        push_text(&mut what, service.name.as_str());
                        Err(InstanceError::Render { what, error: e })
                    },
                }
            },
        }
    }

    /// The services a `prepare` of service `i` waits for: every service declared above
    /// it that has a readiness probe, in declaration order. Its `prepare` runs once
    /// each of them answers.
    pub fn prepare_waits_on(&self, i: usize) -> (r: Vec<usize>)
        requires
            i <= self.config.services@.len(),
        ensures
            r@ == probed_before(self.config.services@, i as int),
    {
        let mut r: Vec<usize> = Vec::new();
        let mut j: usize = 0;
        while j < i
            invariant
                j <= i,
                i <= self.config.services@.len(),
                r@ == probed_before(self.config.services@, j as int),
            decreases i - j,
        {
            if self.config.services[j].ready.is_some() {
                r.push(j);
            }
            j += 1;
        }
        r
    }

    /// The setup `up` runs for service `i`: its declared `setup`, once per worktree,
    /// so none once `marked` (its marker is there) or when it declares none.
    pub fn setup(&self, i: usize, marked: bool) -> (r: Option<String>)
        requires
            i < self.config.services@.len(),
        ensures
            match self.config.services@[i as int].setup {
                Some(c) => if marked { r is None } else { r matches Some(s) && s@ == c@ },
                None => r is None,
            },
    {
        match &self.config.services[i].setup {
            Some(c) => if marked { None } else { Some(c.clone()) },
            None => None,
        }
    }

    /// Where service `i` runs, logs, and marks its one-time setup.
    pub fn service_paths(&self, i: usize) -> (r: (String, String, String))
        requires
            i < self.config.services@.len(),
        ensures
            r.0@ == cwd_of(self.resolved.worktree@, self.config.services@[i as int].cwd),
            r.1@ == in_dir(self, self.config.services@[i as int].name@ + ".log"@),
            r.2@ == in_dir(self, ".setup-"@ + self.config.services@[i as int].name@),
    {
        let service = &self.config.services[i];
        let cwd = match &service.cwd {
            Some(d) => join(self.resolved.worktree.as_str(), d.as_str()),
            None => self.resolved.worktree.clone(),
        };
        let dir = self.instance_dir();
        let mut l = owned(service.name.as_str());
        push_text(&mut l, ".log");
        let log = join(dir.as_str(), l.as_str());
        let mut m = owned(".setup-");
        push_text(&mut m, service.name.as_str());
        let marker = join(dir.as_str(), m.as_str());
        (cwd, log, marker)
    }

    /// The decision `up` makes for service `i`, once dependencies are installed and the
    /// seeds have run: leave a live one alone unless `fresh`, replace a recorded one when
    /// `fresh`, and start anything else. `alive` says whether the recorded process, if
    /// any, is alive. The application runs the loop over the services, performing each
    /// decision and launching with `launch`.
    pub fn up(&self, i: usize, fresh: bool, alive: bool) -> (a: UpAction)
        requires
            self.entry.well_formed(),
            i < self.config.services@.len(),
        ensures
            ({
                let name = self.config.services@[i as int].name@;
                if self.entry@.services.contains_key(name) {
                    if fresh {
                        a == UpAction::Replace(self.entry@.services[name])
                    } else if alive {
                        a is Keep
                    } else {
                        a is Start
                    }
                } else {
                    a is Start
                }
            }),
    {
        match table_find(&self.entry.services, self.config.services[i].name.as_str()) {
            Some(k) => {
                proof { lemma_value_at(self.entry.services@, k as int); }
                if fresh {
                    UpAction::Replace(self.entry.services[k].1)
                } else if alive {
                    UpAction::Keep
                } else {
                    UpAction::Start
                }
            },
            None => UpAction::Start,
        }
    }

    /// How to start service `i`: its directory, log, rendered command, and the readiness
    /// URL with its timeout.
    pub fn launch(&self, i: usize) -> (r: Result<Launch, InstanceError>)
        requires
            self.entry.well_formed(),
            i < self.config.services@.len(),
            self.config.services@[i as int].ready matches Some(rd) ==> duration_fits(rd.timeout@),
        ensures
            ({
                let service = self.config.services@[i as int];
                match r {
                    Ok(l) => {
                        &&& rendered(service.command@, context_of(self)) == Ok::<Seq<char>, RenderErrorView>(l.command@)
                        &&& l.cwd@ == cwd_of(self.resolved.worktree@, service.cwd)
                        &&& l.log@ == in_dir(self, service.name@ + ".log"@)
                        &&& match service.ready {
                            Some(rd) => l.ready matches Some((url, ms))
                                && rendered(rd.http@, context_of(self)) == Ok::<Seq<char>, RenderErrorView>(url@)
                                && duration_ms(rd.timeout@) == Some(ms as nat),
                            None => l.ready is None,
                        }
                    },
                    Err(InstanceError::Render { error, .. }) => rendered(service.command@, context_of(self)) == Err::<Seq<char>, RenderErrorView>(error@)
                        || (service.ready matches Some(rd) && rendered(service.command@, context_of(self)) is Ok
                            && rendered(rd.http@, context_of(self)) == Err::<Seq<char>, RenderErrorView>(error@)),
                    Err(InstanceError::Duration { text }) => service.ready matches Some(rd)
                        && rendered(service.command@, context_of(self)) is Ok
                        && rendered(rd.http@, context_of(self)) is Ok
                        && duration_ms(rd.timeout@) is None && text@ == rd.timeout@,
                    Err(_) => false,
                }
            }),
    {
        let service = &self.config.services[i];
        let ctx = self.render_context();
        let command = match value(service.command.as_str(), &ctx) {
            Ok(c) => c,
            Err(e) => {
                let mut what = owned("rendering the command for ");
                push_text(&mut what, service.name.as_str());
                return Err(InstanceError::Render { what, error: e });
            },
        };
        let ready = match &service.ready {
            None => None,
            Some(rd) => {
                let url = match value(rd.http.as_str(), &ctx) {
                    Ok(u) => u,
                    Err(e) => {
                        let mut what = owned("rendering the readiness URL of ");
                        push_text(&mut what, service.name.as_str());
                        return Err(InstanceError::Render { what, error: e });
                    },
                };
                let ms = match parse_duration(rd.timeout.as_str()) {
                    Ok(ms) => ms,
                    Err(e) => { return Err(e); },
                };
                Some((url, ms))
            },
        };
        let (cwd, log, _) = self.service_paths(i);
        Ok(Launch { cwd, log, command, ready })
    }

    /// Whether each declared resource answers decides what `up` does about it: reuse
    /// what answers, start what does not. `reachable` holds one flag per resource.
    pub fn resources(&self, reachable: &Vec<bool>) -> (r: Result<Vec<EnsurePlan>, ResourceError>)
        requires
            reachable@.len() == self.config.resources@.len(),
        ensures
            r is Ok <==> forall|i: int| 0 <= i < reachable@.len() ==> (#[trigger] reachable@[i]) || self.config.resources@[i].image is Some,
            r matches Ok(plans) ==> plans@.len() == reachable@.len() && forall|i: int| 0 <= i < plans@.len() ==>
                plan_for(&self.config.resources@[i], reachable@[i], #[trigger] plans@[i]),
            r matches Err(ResourceError::NoImage { name, port }) ==> exists|i: int| 0 <= i < reachable@.len()
                && !reachable@[i] && self.config.resources@[i].image is None
                && name@ == self.config.resources@[i].name@ && port == self.config.resources@[i].port
                && forall|j: int| 0 <= j < i ==> (#[trigger] reachable@[j]) || self.config.resources@[j].image is Some,
    {
        let mut plans: Vec<EnsurePlan> = Vec::new();
        let mut i: usize = 0;
        while i < self.config.resources.len()
            invariant
                i <= self.config.resources.len(),
                reachable@.len() == self.config.resources@.len(),
                plans@.len() == i,
                forall|j: int| 0 <= j < i ==> (#[trigger] reachable@[j]) || self.config.resources@[j].image is Some,
                forall|j: int| 0 <= j < i ==> plan_for(&self.config.resources@[j], reachable@[j], #[trigger] plans@[j]),
            decreases self.config.resources.len() - i,
        {
            match ensure(&self.config.resources[i], reachable[i]) {
                Ok(p) => { plans.push(p); },
                Err(e) => { return Err(e); },
            }
            i += 1;
        }
        Ok(plans)
    }
}

/// The plan `resource::ensure` makes for a resource: reuse what answers, or start the
/// declared image with its init.
pub open spec fn plan_for(resource: &Resource, reachable: bool, plan: EnsurePlan) -> bool {
    if reachable {
        plan is Reuse
    } else {
        match plan {
            EnsurePlan::Start { run, init } => texts(run@) == start_argv(resource) && match resource.init {
                Some(i) => init matches Some(a) && texts(a@) == init_argv(resource, i@),
                None => init is None,
            },
            _ => false,
        }
    }
}

/// Where grove keeps the registry and per-service logs: `GROVE_STATE_DIR` when it is
/// set and not empty — which is what lets a test suite run instances without touching
/// real state — else `grove` under `XDG_STATE_HOME`, else under `~/.local/state`.
pub open spec fn state_dir_of(grove: Option<Seq<char>>, xdg: Option<Seq<char>>, home: Option<Seq<char>>) -> Option<Seq<char>> {
    match grove {
        Some(d) if d.len() > 0 => Some(d),
        _ => match xdg {
            Some(x) if x.len() > 0 => Some(join_path(x, "grove"@)),
            _ => match home {
                Some(h) => Some(join_path(join_path(h, ".local/state"@), "grove"@)),
                None => None,
            },
        },
    }
}

/// The state directory from the three environment variables that decide it.
pub fn state_dir(grove_state_dir: Option<&str>, xdg_state_home: Option<&str>, home: Option<&str>) -> (r: Result<String, InstanceError>)
    ensures
        match state_dir_of(
            match grove_state_dir { Some(d) => Some(d@), None => None },
            match xdg_state_home { Some(d) => Some(d@), None => None },
            match home { Some(d) => Some(d@), None => None },
        ) {
            Some(d) => r matches Ok(s) && s@ == d,
            None => r matches Err(InstanceError::NoHome),
        },
{
    match grove_state_dir {
        Some(d) => {
            if chars_of(d).len() > 0 {
                return Ok(owned(d));
            }
        },
        None => {},
    }
    match xdg_state_home {
        Some(x) => {
            if chars_of(x).len() > 0 {
                return Ok(join(x, "grove"));
            }
        },
        None => {},
    }
    match home {
        Some(h) => {
            let base = join(h, ".local/state");
            Ok(join(base.as_str(), "grove"))
        },
        None => Err(InstanceError::NoHome),
    }
}

/// What `up`, `status` and `restart` print about an instance: its URLs, whether it is
/// exposed, its database, and what to run next — the only thing an agent should need
/// to read after `up`.
pub open spec fn summary_of(inst: &Instance) -> Seq<Seq<char>> {
    let head = seq!["instance  "@ + inst.resolved.slug@];
    let urls = Seq::new(inst.entry.ports@.len(), |i: int| crate::machine::padded(inst.entry.ports@[i].0@, 10) + "http://"@
        + inst.exposure.public_host_of() + ":"@ + decimal(inst.entry.ports@[i].1 as nat));
    let exposed: Seq<Seq<char>> = if inst.exposure is Exposed {
        seq!["exposure  network ("@ + inst.exposure.public_host_of() + ")"@]
    } else {
        Seq::empty()
    };
    let db: Seq<Seq<char>> = match inst.entry.db_name {
        Some(d) => seq!["database  "@ + d@],
        None => Seq::empty(),
    };
    let first = if inst.config.services@.len() > 0 { inst.config.services@[0].name@ } else { "<service>"@ };
    head + urls + exposed + db + seq![Seq::empty(), "  grove run -- <your test command>"@, "  grove logs "@ + first + " -f"@]
}

impl Instance {
    pub fn summary(&self) -> (lines: Vec<String>)
        ensures
            texts(lines@) == summary_of(self),
    {
        proof { reveal_strlit(""); }
        let mut lines: Vec<String> = Vec::new();
        let mut l = owned("instance  ");
        push_text(&mut l, self.resolved.slug.as_str());
        lines.push(l);
        let host = self.exposure.public_host();
        let mut i: usize = 0;
        while i < self.entry.ports.len()
            invariant
                i <= self.entry.ports.len(),
                host@ == self.exposure.public_host_of(),
                texts(lines@) == seq!["instance  "@ + self.resolved.slug@] + Seq::new(i as nat, |k: int|
                    crate::machine::padded(self.entry.ports@[k].0@, 10) + "http://"@ + self.exposure.public_host_of() + ":"@
                    + decimal(self.entry.ports@[k].1 as nat)),
            decreases self.entry.ports.len() - i,
        {
            let mut l = crate::machine::pad(self.entry.ports[i].0.as_str(), 10);
            push_text(&mut l, "http://");
            push_text(&mut l, host);
            push_text(&mut l, ":");
            let p = decimal_text(self.entry.ports[i].1 as u64);
            push_text(&mut l, p.as_str());
            let ghost before = lines@;
            lines.push(l);
            assert(texts(lines@) =~= texts(before).push(lines@[lines@.len() - 1]@));
            assert(texts(lines@) =~= seq!["instance  "@ + self.resolved.slug@] + Seq::new((i + 1) as nat, |k: int|
                crate::machine::padded(self.entry.ports@[k].0@, 10) + "http://"@ + self.exposure.public_host_of() + ":"@
                + decimal(self.entry.ports@[k].1 as nat)));
            i += 1;
        }
        let ghost with_urls = texts(lines@);
        if self.exposure.is_exposed() {
            let mut l = owned("exposure  network (");
            push_text(&mut l, host);
            push_text(&mut l, ")");
            lines.push(l);
        }
        let ghost with_exposure = texts(lines@);
        match &self.entry.db_name {
            Some(d) => {
                let mut l = owned("database  ");
                push_text(&mut l, d.as_str());
                lines.push(l);
            },
            None => {},
        }
        let ghost with_db = texts(lines@);
        let e = owned("");
        assert(e@ =~= Seq::<char>::empty());
        lines.push(e);
        lines.push(owned("  grove run -- <your test command>"));
        let first: &str = if self.config.services.len() > 0 { self.config.services[0].name.as_str() } else { "<service>" };
        let mut l = owned("  grove logs ");
        push_text(&mut l, first);
        push_text(&mut l, " -f");
        lines.push(l);
        assert(texts(lines@) =~= summary_of(self));
        lines
    }
}

/// What `status` prints of the services: a header, then each service indented with
/// its state and, when running, its pid.
pub open spec fn service_lines_of(status: Seq<ServiceStatus>) -> Seq<Seq<char>> {
    if status.len() == 0 {
        Seq::empty()
    } else {
        seq![Seq::empty(), "services"@] + service_blocks(status, service_width(status))
    }
}

/// What the block says of one service: its row, with `answering` when its URL
/// answered; and when it runs and does not answer, the URL, loudly, and where to look.
pub open spec fn service_block(s: ServiceStatus, width: nat) -> Seq<Seq<char>> {
    let head = "  "@ + crate::machine::padded(s.name@, width) + "  "@ + service_state(s);
    if s.ready == Readiness::Silent && s.running {
        seq![
            head + "  NOT ANSWERING "@ + (match s.url { Some(u) => u@, None => Seq::empty() }),
            "  "@ + crate::machine::padded(Seq::empty(), width) + "  grove logs "@ + s.name@ + " --since-restart"@,
        ]
    } else if s.ready == Readiness::Answering {
        seq![head + "  answering"@]
    } else {
        seq![head]
    }
}

/// The blocks of each service, in order.
pub open spec fn service_blocks(status: Seq<ServiceStatus>, width: nat) -> Seq<Seq<char>>
    decreases status.len(),
{
    if status.len() == 0 {
        Seq::empty()
    } else {
        service_blocks(status.drop_last(), width) + service_block(status.last(), width)
    }
}

/// The widest service name, and at least eight.
pub open spec fn service_width(status: Seq<ServiceStatus>) -> nat
    decreases status.len(),
{
    if status.len() == 0 {
        8
    } else {
        let w = service_width(status.drop_last());
        let l = status.last().name@.len();
        if l > w { l } else { w }
    }
}

pub open spec fn service_state(s: ServiceStatus) -> Seq<char> {
    if s.running {
        match s.pid {
            Some(p) => "running  pid "@ + decimal(p as nat),
            None => "running"@,
        }
    } else {
        "stopped"@
    }
}

/// The services block of `status`.
pub fn service_lines(status: &Vec<ServiceStatus>) -> (lines: Vec<String>)
    ensures
        texts(lines@) == service_lines_of(status@),
{
    let mut lines: Vec<String> = Vec::new();
    if status.len() == 0 {
        assert(texts(lines@) =~= service_lines_of(status@));
        return lines;
    }
    let mut width: usize = 8;
    let mut i: usize = 0;
    while i < status.len()
        invariant
            i <= status.len(),
            width as nat == service_width(status@.subrange(0, i as int)),
        decreases status.len() - i,
    {
        assert(status@.subrange(0, i + 1).drop_last() =~= status@.subrange(0, i as int));
        let l = chars_of(status[i].name.as_str()).len();
        if l > width {
            width = l;
        }
        i += 1;
    }
    assert(status@.subrange(0, status@.len() as int) =~= status@);
    proof { reveal_strlit(""); }
    let e = owned("");
    assert(e@ =~= Seq::<char>::empty());
    lines.push(e);
    lines.push(owned("services"));
    let mut i: usize = 0;
    while i < status.len()
        invariant
            i <= status.len(),
            width as nat == service_width(status@),
            texts(lines@) == seq![Seq::<char>::empty(), "services"@] + service_blocks(status@.subrange(0, i as int), width as nat),
        decreases status.len() - i,
    {
        let ghost before = texts(lines@);
        let st = &status[i];
        let mut l = owned("  ");
        let n = crate::machine::pad(st.name.as_str(), width);
        push_text(&mut l, n.as_str());
        push_text(&mut l, "  ");
        if st.running {
            match st.pid {
                Some(p) => {
                    push_text(&mut l, "running  pid ");
                    let d = decimal_text(p as u64);
                    push_text(&mut l, d.as_str());
                },
                None => { push_text(&mut l, "running"); },
            }
        } else {
            push_text(&mut l, "stopped");
        }
        let ghost head = l@;
        assert(head =~= "  "@ + crate::machine::padded(status@[i as int].name@, width as nat) + "  "@ + service_state(status@[i as int]));
        let silent = match st.ready { Readiness::Silent => st.running, _ => false };
        let answering = match st.ready { Readiness::Answering => true, _ => false };
        if silent {
            push_text(&mut l, "  NOT ANSWERING ");
            match &st.url {
                Some(u) => { push_text(&mut l, u.as_str()); },
                None => {},
            }
            lines.push(l);
            let mut h = owned("  ");
            let pad = crate::machine::pad("", width);
            proof { reveal_strlit(""); }
            push_text(&mut h, pad.as_str());
            push_text(&mut h, "  grove logs ");
            push_text(&mut h, st.name.as_str());
            push_text(&mut h, " --since-restart");
            lines.push(h);
        } else {
            if answering {
                push_text(&mut l, "  answering");
            }
            lines.push(l);
        }
        let ghost block = service_block(status@[i as int], width as nat);
        assert(texts(lines@) =~= before + block);
        assert(status@.subrange(0, i + 1).drop_last() =~= status@.subrange(0, i as int));
        assert(texts(lines@) =~= seq![Seq::<char>::empty(), "services"@] + service_blocks(status@.subrange(0, i + 1), width as nat));
        i += 1;
    }
    assert(status@.subrange(0, status@.len() as int) =~= status@);
    lines
}

/// What `status` adds about stale services: each by name, and the restart that fixes
/// them — a service older than the newest edit is serving code already changed.
pub open spec fn stale_lines_of(stale: Seq<Seq<char>>) -> Seq<Seq<char>> {
    if stale.len() == 0 {
        Seq::empty()
    } else {
        seq![Seq::empty()] + Seq::new(stale.len(), |i: int| stale[i] + " started before your newest edit and may be serving stale code"@)
            + seq!["  grove restart "@ + crate::machine::space_joined(stale)]
    }
}

pub fn stale_lines(stale: &Vec<String>) -> (lines: Vec<String>)
    ensures
        texts(lines@) == stale_lines_of(texts(stale@)),
{
    let mut lines: Vec<String> = Vec::new();
    if stale.len() == 0 {
        assert(texts(lines@) =~= stale_lines_of(texts(stale@)));
        return lines;
    }
    proof { reveal_strlit(""); }
    let e = owned("");
    assert(e@ =~= Seq::<char>::empty());
    lines.push(e);
    let ghost names = texts(stale@);
    let mut joined = owned("");
    let mut i: usize = 0;
    while i < stale.len()
        invariant
            i <= stale.len(),
            names == texts(stale@),
            joined@ == crate::machine::space_joined(names.subrange(0, i as int)),
            texts(lines@) == seq![Seq::<char>::empty()] + Seq::new(i as nat, |k: int|
                names[k] + " started before your newest edit and may be serving stale code"@),
        decreases stale.len() - i,
    {
        let mut l = owned(stale[i].as_str());
        push_text(&mut l, " started before your newest edit and may be serving stale code");
        let ghost before = lines@;
        lines.push(l);
        assert(texts(lines@) =~= texts(before).push(lines@[lines@.len() - 1]@));
        assert(texts(lines@) =~= seq![Seq::<char>::empty()] + Seq::new((i + 1) as nat, |k: int|
            names[k] + " started before your newest edit and may be serving stale code"@));
        assert(names.subrange(0, i + 1).drop_last() =~= names.subrange(0, i as int));
        if i > 0 {
            push_text(&mut joined, " ");
            proof { reveal_strlit(" "); }
        } else {
            assert(joined@ =~= Seq::<char>::empty());
        }
        push_text(&mut joined, stale[i].as_str());
        i += 1;
    }
    assert(names.subrange(0, names.len() as int) =~= names);
    let mut l = owned("  grove restart ");
    push_text(&mut l, joined.as_str());
    let ghost before = lines@;
    lines.push(l);
    assert(texts(lines@) =~= texts(before).push(lines@[lines@.len() - 1]@));
    assert(texts(lines@) =~= stale_lines_of(texts(stale@)));
    lines
}

/// `<state>/<repo key>/<slug>`.
fn instance_dir(state_dir: &str, resolved: &Resolved) -> (d: String)
    ensures
        d@ == instance_dir_of(state_dir@, resolved),
{
    let key = resolved.state_key();
    let repo = join(state_dir, key.as_str());
    join(repo.as_str(), resolved.slug.as_str())
}

} // verus!
