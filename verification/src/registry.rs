//! Which worktree holds which ports, and what else grove remembers about it.
//!
//! Allocation reads live machine state, so on its own it cannot promise an instance
//! the same ports twice. Writing the decision down is what makes it stable. The
//! application keeps this record in a JSON file behind a lock; the operations on the
//! record — reserve, record, touch, release, reap — are here.

use vstd::prelude::*;
use std::collections::HashSet;
use std::ops::Range;
use crate::ports::{allocate_avoiding, allocated, block_map, allocation_result, STRIDE, PortsError};
use crate::resolve::Resolved;
use crate::exposure::{Exposure, ExposureView};
use crate::supervise::Handle;
use crate::table::{sorted, table_map, table_insert, table_remove, table_find, table_copy, lemma_value_at};
use crate::text::{opt_text, copy_opt, decimal, decimal_chars, string_of, owned, push_text};

verus! {

broadcast use vstd::std_specs::hash::group_hash_axioms;

/// One instance as the registry remembers it.
#[derive(Debug)]
pub struct Entry {
    pub worktree: String,
    pub slug: String,
    /// Port name to port, in name order.
    pub ports: Vec<(String, u16)>,
    /// Live services, by name. Persisted because `down` runs in a different process
    /// than the `up` that started them.
    pub services: Vec<(String, Handle)>,
    pub db_name: Option<String>,
    /// Unix seconds at the last command that meant someone was working here. Absent
    /// for entries written before this existed: guessing would make every instance on
    /// an upgraded machine look abandoned.
    pub last_used: Option<u64>,
    /// Where this instance's service logs live.
    pub instance_dir: Option<String>,
    /// How the instance is reached, kept until `up` is asked for another.
    pub exposure: Exposure,
}

/// What an entry says, with its strings as characters and its tables as maps.
pub struct EntryView {
    pub worktree: Seq<char>,
    pub slug: Seq<char>,
    pub ports: Map<Seq<char>, u16>,
    pub services: Map<Seq<char>, Handle>,
    pub db_name: Option<Seq<char>>,
    pub last_used: Option<u64>,
    pub instance_dir: Option<Seq<char>>,
    pub exposure: ExposureView,
}

impl View for Entry {
    type V = EntryView;

    open spec fn view(&self) -> EntryView {
        EntryView {
            worktree: self.worktree@,
            slug: self.slug@,
            ports: table_map(self.ports@),
            services: table_map(self.services@),
            db_name: opt_text(self.db_name),
            last_used: self.last_used,
            instance_dir: opt_text(self.instance_dir),
            exposure: self.exposure@,
        }
    }
}

/// The later of two optional times; a time beats none.
pub open spec fn later(a: Option<u64>, b: Option<u64>) -> Option<u64> {
    match (a, b) {
        (Some(x), Some(y)) => Some(if x >= y { x } else { y }),
        (Some(x), None) => Some(x),
        (None, y) => y,
    }
}

fn later_exec(a: Option<u64>, b: Option<u64>) -> (r: Option<u64>)
    ensures
        r == later(a, b),
{
    match (a, b) {
        (Some(x), Some(y)) => Some(if x >= y { x } else { y }),
        (Some(x), None) => Some(x),
        (None, y) => y,
    }
}

/// The newest of a list of optional times.
pub open spec fn newest(ts: Seq<Option<u64>>) -> Option<u64>
    decreases ts.len(),
{
    if ts.len() == 0 { None } else { later(newest(ts.drop_last()), ts.last()) }
}

/// Seconds since the freshest evidence of use, or none when there is no evidence.
pub open spec fn idle_of(last_used: Option<u64>, logs: Seq<Option<u64>>, now: u64) -> Option<u64> {
    match later(last_used, newest(logs)) {
        None => None,
        Some(t) => Some(if now >= t { (now - t) as u64 } else { 0 }),
    }
}

impl Entry {
    pub open spec fn well_formed(&self) -> bool {
        sorted(self.ports@) && sorted(self.services@)
    }

    /// A copy of this entry.
    pub fn copy(&self) -> (e: Entry)
        requires
            self.well_formed(),
        ensures
            e@ == self@,
            e.well_formed(),
    {
        Entry {
            worktree: self.worktree.clone(),
            slug: self.slug.clone(),
            ports: table_copy(&self.ports),
            services: table_copy(&self.services),
            db_name: copy_opt(&self.db_name),
            last_used: self.last_used,
            instance_dir: copy_opt(&self.instance_dir),
            exposure: self.exposure.copy(),
        }
    }

    /// The log file of each service, in service order, when the entry knows where its
    /// logs live: `<instance_dir>/<service>.log`.
    pub fn log_files(&self) -> (files: Vec<String>)
        ensures
            self.instance_dir is None ==> files@.len() == 0,
            self.instance_dir is Some ==> files@.len() == self.services@.len(),
            forall|i: int| 0 <= i < files@.len() ==> #[trigger] files@[i]@ == crate::text::join_path(
                self.instance_dir->0@, self.services@[i].0@ + ".log"@),
    {
        let mut files: Vec<String> = Vec::new();
        match &self.instance_dir {
            None => files,
            Some(dir) => {
                let mut i: usize = 0;
                while i < self.services.len()
                    invariant
                        i <= self.services.len(),
                        self.instance_dir == Some(*dir),
                        files@.len() == i,
                        forall|j: int| 0 <= j < i ==> #[trigger] files@[j]@ == crate::text::join_path(
                            dir@, self.services@[j].0@ + ".log"@),
                    decreases self.services.len() - i,
                {
                    let mut name = self.services[i].0.clone();
                    push_text(&mut name, ".log");
                    files.push(crate::text::join(dir.as_str(), name.as_str()));
                    i += 1;
                }
                files
            },
        }
    }

    /// Seconds since the last evidence that anyone was using this instance, or none
    /// when there is no evidence either way. `logs` holds, for each service log, when
    /// it was last written (the application reads those times).
    ///
    /// Two sources, because neither is sufficient alone. `last_used` misses an agent
    /// forty minutes into browser-driven QA, which issues no grove commands while
    /// being maximally busy; the service logs catch exactly that. It errs toward
    /// looking busy, the right direction to be wrong in for a number that decides
    /// what gets stopped.
    pub fn idle_seconds(&self, now: u64, logs: &Vec<Option<u64>>) -> (r: Option<u64>)
        ensures
            r == idle_of(self.last_used, logs@, now),
    {
        let mut freshest: Option<u64> = None;
        let mut i: usize = 0;
        while i < logs.len()
            invariant
                i <= logs.len(),
                freshest == newest(logs@.subrange(0, i as int)),
            decreases logs.len() - i,
        {
            assert(logs@.subrange(0, i + 1).drop_last() =~= logs@.subrange(0, i as int));
            freshest = later_exec(freshest, logs[i]);
            i += 1;
        }
        assert(logs@.subrange(0, logs@.len() as int) =~= logs@);
        match later_exec(self.last_used, freshest) {
            None => None,
            Some(t) => Some(if now >= t { now - t } else { 0 }),
        }
    }

    /// Any service still answering. `alive` says, per service in order, whether its
    /// process group survives: a recorded pid says only that something started once.
    pub fn is_running(&self, alive: &Vec<bool>) -> (r: bool)
        ensures
            r == exists|i: int| 0 <= i < alive@.len() && alive@[i],
    {
        let mut i: usize = 0;
        while i < alive.len()
            invariant
                i <= alive.len(),
                forall|j: int| 0 <= j < i ==> !alive@[j],
            decreases alive.len() - i,
        {
            if alive[i] {
                return true;
            }
            i += 1;
        }
        false
    }
}

/// An age as a person would say it, two units at most: "1h30m" is worth the extra
/// word, "1h30m12s" is not.
pub open spec fn age_text(seconds: nat) -> Seq<char> {
    let days = seconds / 86400;
    let hours = seconds % 86400 / 3600;
    let minutes = seconds % 3600 / 60;
    let secs = seconds % 60;
    if days == 0 && hours == 0 && minutes == 0 {
        decimal(secs) + seq!['s']
    } else if days == 0 && hours == 0 {
        decimal(minutes) + seq!['m']
    } else if days == 0 && minutes == 0 {
        decimal(hours) + seq!['h']
    } else if days == 0 {
        decimal(hours) + seq!['h'] + decimal(minutes) + seq!['m']
    } else if hours == 0 {
        decimal(days) + seq!['d']
    } else {
        decimal(days) + seq!['d'] + decimal(hours) + seq!['h']
    }
}

pub fn human_age(seconds: u64) -> (s: String)
    ensures
        s@ == age_text(seconds as nat),
{
    let days = seconds / 86400;
    let hours = seconds % 86400 / 3600;
    let minutes = seconds % 3600 / 60;
    let secs = seconds % 60;
    let mut v: Vec<char>;
    if days == 0 && hours == 0 && minutes == 0 {
        v = decimal_chars(secs);
        v.push('s');
    } else if days == 0 && hours == 0 {
        v = decimal_chars(minutes);
        v.push('m');
    } else if days == 0 && minutes == 0 {
        v = decimal_chars(hours);
        v.push('h');
    } else if days == 0 {
        v = decimal_chars(hours);
        v.push('h');
        let m = decimal_chars(minutes);
        crate::text::extend_chars(&mut v, &m);
        v.push('m');
    } else if hours == 0 {
        v = decimal_chars(days);
        v.push('d');
    } else {
        v = decimal_chars(days);
        v.push('d');
        let h = decimal_chars(hours);
        crate::text::extend_chars(&mut v, &h);
        v.push('h');
    }
    assert(v@ =~= age_text(seconds as nat));
    string_of(&v)
}

/// Every instance on the machine, keyed by worktree path.
#[derive(Debug)]
pub struct Registry {
    /// The file the application keeps this record in.
    pub path: String,
    /// Worktree path to entry, in path order.
    pub instances: Vec<(String, Entry)>,
}

/// The entries of a registry, seen through their views.
pub open spec fn entries_view(s: Seq<(String, Entry)>) -> Map<Seq<char>, EntryView> {
    Map::new(|k: Seq<char>| table_map(s).contains_key(k), |k: Seq<char>| table_map(s)[k]@)
}

/// A stored entry is already good enough for a reservation: it holds every requested
/// port name.
pub open spec fn reusable(m: Map<Seq<char>, EntryView>, worktree: Seq<char>, names: Seq<Seq<char>>) -> bool {
    m.contains_key(worktree) && forall|i: int| 0 <= i < names.len() ==> #[trigger] m[worktree].ports.contains_key(names[i])
}

/// Some other instance holds `port`.
pub open spec fn held_elsewhere(m: Map<Seq<char>, EntryView>, worktree: Seq<char>, port: u16) -> bool {
    exists|k: Seq<char>| #[trigger] m.contains_key(k) && k != worktree && m[k].ports.values().contains(port)
}

/// What `record` writes: the entry as given, except that the idle clock never moves
/// backwards past what is stored, and a stored exposure stays: a command writing back
/// an entry it read earlier must not undo a touch or a change of exposure made since.
pub open spec fn recorded(m: Map<Seq<char>, EntryView>, e: EntryView) -> Map<Seq<char>, EntryView> {
    let stored = if m.contains_key(e.worktree) { m[e.worktree].last_used } else { None };
    let exposure = if m.contains_key(e.worktree) { m[e.worktree].exposure } else { e.exposure };
    m.insert(e.worktree, EntryView { last_used: later(e.last_used, stored), exposure, ..e })
}

/// What `set_exposure` writes.
pub open spec fn exposed(m: Map<Seq<char>, EntryView>, worktree: Seq<char>, exposure: ExposureView) -> Map<Seq<char>, EntryView> {
    if m.contains_key(worktree) {
        m.insert(worktree, EntryView { exposure, ..m[worktree] })
    } else {
        m
    }
}

/// What `touch` writes.
pub open spec fn touched(m: Map<Seq<char>, EntryView>, worktree: Seq<char>, now: u64) -> Map<Seq<char>, EntryView> {
    if m.contains_key(worktree) {
        m.insert(worktree, EntryView { last_used: Some(now), ..m[worktree] })
    } else {
        m
    }
}

/// What `reserve` does for `worktree` and the port `names`, from the registry
/// `before` to the registry `after` and its answer `r`: hand back the block the
/// worktree already holds when it covers every name, and otherwise write down a new
/// block no other instance holds, found by walking the range from the repo's hashed
/// block.
pub open spec fn reserve_outcome<F: Fn(u16) -> bool>(
    before: Map<Seq<char>, EntryView>,
    worktree: Seq<char>,
    slug: Seq<char>,
    main_worktree: Seq<char>,
    names: Seq<Seq<char>>,
    start: u16,
    end: u16,
    is_free: F,
    after: Map<Seq<char>, EntryView>,
    r: Result<EntryView, PortsError>,
) -> bool {
    if reusable(before, worktree, names) {
        r == Ok::<EntryView, PortsError>(before[worktree]) && after == before
    } else {
        match r {
            Ok(e) => {
                &&& after == before.insert(worktree, e)
                &&& e.worktree == worktree
                &&& e.slug == slug
                &&& e.services.len() == 0
                &&& e.db_name is None
                &&& e.last_used is None
                &&& e.instance_dir is None
                &&& e.exposure is Local
                &&& forall|p: u16| e.ports.values().contains(p) ==> !held_elsewhere(before, worktree, p)
                &&& (names.len() == 0 ==> e.ports.len() == 0)
                &&& (names.len() > 0 ==> allocated(start, end, crate::resolve::state_key_of(main_worktree), slug,
                        names, Set::new(|p: u16| held_elsewhere(before, worktree, p)), is_free, e.ports))
            },
            Err(err) => after == before && (err matches PortsError::TooMany { .. } <==> names.len() > STRIDE),
        }
    }
}

/// The list shows an entry with this view.
pub open spec fn shows(list: Seq<Entry>, v: EntryView) -> bool {
    exists|g: int| 0 <= g < list.len() && #[trigger] list[g]@ == v
}

/// Everything in `gone` is an entry that was there before and is not there now.
pub open spec fn only_dropped(before: Seq<(String, Entry)>, after: Map<Seq<char>, EntryView>, gone: Seq<Entry>) -> bool {
    forall|g: int| 0 <= g < gone.len() ==> #[trigger] came_from(before, after, gone[g]@)
}

/// The entries of `before` whose answer in `answers` is false, in table order.
pub open spec fn dropped_views(before: Seq<(String, Entry)>, answers: Seq<bool>) -> Seq<EntryView>
    decreases before.len(),
{
    if before.len() == 0 || answers.len() != before.len() {
        Seq::empty()
    } else {
        let rest = dropped_views(before.drop_last(), answers.drop_last());
        if answers.last() { rest } else { rest.push(before.last().1@) }
    }
}

/// Entries seen through their views.
pub open spec fn entry_views(s: Seq<Entry>) -> Seq<EntryView> {
    Seq::new(s.len(), |i: int| s[i]@)
}

/// `e` is an entry that was there before and is not there now.
pub open spec fn came_from(before: Seq<(String, Entry)>, after: Map<Seq<char>, EntryView>, e: EntryView) -> bool {
    exists|i: int| 0 <= i < before.len() && !after.contains_key(#[trigger] before[i].0@) && e == before[i].1@
}

/// Some kept entry came from position `j`.
pub open spec fn kept_at(origin: Seq<int>, j: int) -> bool {
    exists|a: int| 0 <= a < origin.len() && origin[a] == j
}

impl View for Registry {
    type V = Map<Seq<char>, EntryView>;

    open spec fn view(&self) -> Map<Seq<char>, EntryView> {
        entries_view(self.instances@)
    }
}

impl Registry {
    /// Keys in order, each entry well formed and filed under its own worktree.
    pub open spec fn well_formed(&self) -> bool {
        &&& sorted(self.instances@)
        &&& forall|i: int| 0 <= i < self.instances@.len() ==> (#[trigger] self.instances@[i]).1.well_formed()
            && self.instances@[i].1.worktree@ == self.instances@[i].0@
    }

    /// The registry kept at `path`, before anything is read from it.
    pub fn at(path: &str) -> (r: Registry)
        ensures
            r.path@ == path@,
            r@ == Map::<Seq<char>, EntryView>::empty(),
            r.well_formed(),
    {
        let r = Registry { path: owned(path), instances: Vec::new() };
        assert(r@ =~= Map::<Seq<char>, EntryView>::empty());
        r
    }

    proof fn lemma_entry_at(&self, i: int)
        requires
            self.well_formed(),
            0 <= i < self.instances@.len(),
        ensures
            self@.contains_key(self.instances@[i].0@),
            self@[self.instances@[i].0@] == self.instances@[i].1@,
    {
        lemma_value_at(self.instances@, i);
    }

    /// Every entry of the registry is filed under its own worktree, so looking an
    /// instance up by its worktree finds that instance and no other.
    pub proof fn law_an_entry_is_filed_under_its_own_worktree(&self, k: Seq<char>)
        requires
            self.well_formed(),
            self@.contains_key(k),
        ensures
            self@[k].worktree == k,
    {
        let i = choose|i: int| 0 <= i < self.instances@.len() && #[trigger] self.instances@[i].0@ == k;
        self.lemma_entry_at(i);
    }

    /// The entry for this worktree, if there is one.
    pub fn get(&self, worktree: &str) -> (r: Option<Entry>)
        requires
            self.well_formed(),
        ensures
            match r {
                Some(e) => self@.contains_key(worktree@) && e@ == self@[worktree@] && e.well_formed(),
                None => !self@.contains_key(worktree@),
            },
    {
        match table_find(&self.instances, worktree) {
            None => None,
            Some(i) => {
                proof { self.lemma_entry_at(i as int); }
                Some(self.instances[i].1.copy())
            },
        }
    }

    /// Every entry, in worktree order.
    pub fn list(&self) -> (r: Vec<Entry>)
        requires
            self.well_formed(),
        ensures
            r@.len() == self.instances@.len(),
            forall|i: int| 0 <= i < r@.len() ==> (#[trigger] r@[i])@ == self@[self.instances@[i].0@]
                && r@[i].well_formed(),
    {
        let mut r: Vec<Entry> = Vec::new();
        let mut i: usize = 0;
        while i < self.instances.len()
            invariant
                self.well_formed(),
                i <= self.instances.len(),
                r@.len() == i,
                forall|j: int| 0 <= j < i ==> (#[trigger] r@[j])@ == self@[self.instances@[j].0@] && r@[j].well_formed(),
            decreases self.instances.len() - i,
        {
            proof { self.lemma_entry_at(i as int); }
            r.push(self.instances[i].1.copy());
            i += 1;
        }
        r
    }

    proof fn lemma_insert_view(old_s: Seq<(String, Entry)>, new_s: Seq<(String, Entry)>, k: Seq<char>, e: Entry)
        requires
            table_map(new_s) == table_map(old_s).insert(k, e),
        ensures
            entries_view(new_s) == entries_view(old_s).insert(k, e@),
    {
        assert(entries_view(new_s) =~= entries_view(old_s).insert(k, e@));
    }

    proof fn lemma_remove_view(old_s: Seq<(String, Entry)>, new_s: Seq<(String, Entry)>, k: Seq<char>)
        requires
            table_map(new_s) == table_map(old_s).remove(k),
        ensures
            entries_view(new_s) == entries_view(old_s).remove(k),
    {
        assert(entries_view(new_s) =~= entries_view(old_s).remove(k));
    }

    proof fn lemma_insert_keeps_wf(old_s: Seq<(String, Entry)>, new_s: Seq<(String, Entry)>, k: Seq<char>, e: Entry)
        requires
            sorted(old_s),
            sorted(new_s),
            forall|i: int| 0 <= i < old_s.len() ==> (#[trigger] old_s[i]).1.well_formed()
                && old_s[i].1.worktree@ == old_s[i].0@,
            e.well_formed(),
            e.worktree@ == k,
            table_map(new_s) == table_map(old_s).insert(k, e),
        ensures
            forall|i: int| 0 <= i < new_s.len() ==> (#[trigger] new_s[i]).1.well_formed()
                && new_s[i].1.worktree@ == new_s[i].0@,
    {
        assert forall|i: int| 0 <= i < new_s.len() implies (#[trigger] new_s[i]).1.well_formed()
            && new_s[i].1.worktree@ == new_s[i].0@ by {
            lemma_value_at(new_s, i);
            let q = new_s[i].0@;
            if q != k {
                let j = choose|j: int| 0 <= j < old_s.len() && #[trigger] old_s[j].0@ == q;
                lemma_value_at(old_s, j);
            }
        }
    }

    /// Persist an entry that changed — new service pids, a resolved database name.
    ///
    /// The idle clock only ever moves forward: callers hold an entry read before they
    /// started working, and writing it back verbatim would roll back the touch that
    /// command just made.
    pub fn record(&mut self, entry: &Entry)
        requires
            old(self).well_formed(),
            entry.well_formed(),
        ensures
            final(self).well_formed(),
            final(self)@ == recorded(old(self)@, entry@),
            final(self).path == old(self).path,
    {
        let mut e = entry.copy();
        let stored: Option<u64> = match table_find(&self.instances, entry.worktree.as_str()) {
            None => None,
            Some(i) => {
                proof { self.lemma_entry_at(i as int); }
                e.exposure = self.instances[i].1.exposure.copy();
                self.instances[i].1.last_used
            },
        };
        e.last_used = later_exec(entry.last_used, stored);
        let ghost before = self.instances@;
        let ghost ev = e@;
        table_insert(&mut self.instances, entry.worktree.clone(), e);
        proof {
            Self::lemma_insert_view(before, self.instances@, entry.worktree@, e);
            Self::lemma_insert_keeps_wf(before, self.instances@, entry.worktree@, e);
            let exposure = if old(self)@.contains_key(entry@.worktree) { old(self)@[entry@.worktree].exposure } else { entry@.exposure };
            assert(ev =~= EntryView { last_used: later(entry@.last_used, stored), exposure, ..entry@ });
        }
    }

    /// Expose the instance at `worktree` as `exposure`, or return it to loopback. Its
    /// own operation, so that no other write can carry a stale exposure back; nothing
    /// happens when no instance is recorded there.
    pub fn set_exposure(&mut self, worktree: &str, exposure: &Exposure)
        requires
            old(self).well_formed(),
        ensures
            final(self).well_formed(),
            final(self)@ == exposed(old(self)@, worktree@, exposure@),
            final(self).path == old(self).path,
    {
        match table_find(&self.instances, worktree) {
            None => {},
            Some(i) => {
                proof { self.lemma_entry_at(i as int); }
                let mut e = self.instances[i].1.copy();
                e.exposure = exposure.copy();
                let ghost before = self.instances@;
                let key = self.instances[i].0.clone();
                table_insert(&mut self.instances, key, e);
                proof {
                    Self::lemma_insert_view(before, self.instances@, worktree@, e);
                    Self::lemma_insert_keeps_wf(before, self.instances@, worktree@, e);
                }
            },
        }
    }

    /// Mark this instance as worked in at `now`. Separate from `record` because it
    /// must not overwrite service pids a concurrent `up` has just written.
    pub fn touch(&mut self, worktree: &str, now: u64)
        requires
            old(self).well_formed(),
        ensures
            final(self).well_formed(),
            final(self)@ == touched(old(self)@, worktree@, now),
            final(self).path == old(self).path,
    {
        match table_find(&self.instances, worktree) {
            None => {},
            Some(i) => {
                proof { self.lemma_entry_at(i as int); }
                let mut e = self.instances[i].1.copy();
                e.last_used = Some(now);
                let ghost before = self.instances@;
                let key = self.instances[i].0.clone();
                table_insert(&mut self.instances, key, e);
                proof {
                    Self::lemma_insert_view(before, self.instances@, worktree@, e);
                    Self::lemma_insert_keeps_wf(before, self.instances@, worktree@, e);
                }
            },
        }
    }

    /// Every port held by an instance other than `worktree`, whether or not it is
    /// listening yet — a reserved-but-not-started block is invisible to a bind test.
    fn taken_by_others(&self, worktree: &str) -> (taken: HashSet<u16>)
        requires
            self.well_formed(),
        ensures
            forall|p: u16| #[trigger] taken@.contains(p) <==> held_elsewhere(self@, worktree@, p),
    {
        let mut taken: HashSet<u16> = HashSet::new();
        let mut i: usize = 0;
        while i < self.instances.len()
            invariant
                self.well_formed(),
                i <= self.instances.len(),
                forall|p: u16| #[trigger] taken@.contains(p) <==> exists|j: int| 0 <= j < i
                    && self.instances@[j].0@ != worktree@
                    && (#[trigger] self.instances@[j].1@).ports.values().contains(p),
            decreases self.instances.len() - i,
        {
            if crate::table::compare_text(self.instances[i].0.as_str(), worktree) != 0 {
                let ports = &self.instances[i].1.ports;
                let ghost before = taken@;
                let mut j: usize = 0;
                while j < ports.len()
                    invariant
                        j <= ports.len(),
                        ports == &self.instances@[i as int].1.ports,
                        sorted(ports@),
                        forall|p: u16| #[trigger] taken@.contains(p) <==> (before.contains(p)
                            || exists|k: int| 0 <= k < j && (#[trigger] ports@[k]).1 == p),
                    decreases ports.len() - j,
                {
                    taken.insert(ports[j].1);
                    j += 1;
                }
                proof {
                    let e = self.instances@[i as int].1;
                    assert forall|p: u16| (exists|k: int| 0 <= k < ports@.len() && (#[trigger] ports@[k]).1 == p)
                        <==> e@.ports.values().contains(p) by {
                        if exists|k: int| 0 <= k < ports@.len() && (#[trigger] ports@[k]).1 == p {
                            let k = choose|k: int| 0 <= k < ports@.len() && (#[trigger] ports@[k]).1 == p;
                            lemma_value_at(ports@, k);
                            assert(e@.ports.contains_key(ports@[k].0@));
                        }
                        if e@.ports.values().contains(p) {
                            let n = choose|n: Seq<char>| #[trigger] e@.ports.contains_key(n) && e@.ports[n] == p;
                            let k = choose|k: int| 0 <= k < ports@.len() && #[trigger] ports@[k].0@ == n;
                            lemma_value_at(ports@, k);
                        }
                    }
                }
            }
            i += 1;
        }
        proof {
            assert forall|p: u16| #[trigger] taken@.contains(p) <==> held_elsewhere(self@, worktree@, p) by {
                if taken@.contains(p) {
                    let j = choose|j: int| 0 <= j < self.instances@.len()
                        && self.instances@[j].0@ != worktree@
                        && (#[trigger] self.instances@[j].1@).ports.values().contains(p);
                    self.lemma_entry_at(j);
                    assert(self@.contains_key(self.instances@[j].0@));
                }
                if held_elsewhere(self@, worktree@, p) {
                    let k = choose|k: Seq<char>| #[trigger] self@.contains_key(k) && k != worktree@
                        && self@[k].ports.values().contains(p);
                    let j = choose|j: int| 0 <= j < self.instances@.len() && #[trigger] self.instances@[j].0@ == k;
                    self.lemma_entry_at(j);
                    assert(self.instances@[j].1@.ports.values().contains(p));
                }
            }
        }
        taken
    }

    /// Ports for this worktree: the block it already holds when that covers every
    /// name asked for, and otherwise a new block that no other instance holds.
    /// `range` is the range in force and `is_free` the bind test.
    pub fn reserve<F: Fn(u16) -> bool>(
        &mut self,
        resolved: &Resolved,
        names: &Vec<String>,
        range: Range<u16>,
        is_free: F,
    ) -> (r: Result<Entry, PortsError>)
        requires
            old(self).well_formed(),
            range.start <= range.end,
            names@.len() > STRIDE || range.start + names@.len() <= 65536,
            forall|p: u16| is_free.requires((p,)),
        ensures
            final(self).well_formed(),
            final(self).path == old(self).path,
            r matches Ok(e) ==> e.well_formed() && e@.worktree == resolved.worktree@,
            reserve_outcome(old(self)@, resolved.worktree@, resolved.slug@, resolved.main_worktree@,
                crate::text::texts(names@), range.start, range.end, is_free, final(self)@,
                match r { Ok(e) => Ok(e@), Err(x) => Err(x) }),
    {
        let ghost ns = crate::text::texts(names@);
        if let Some(i) = table_find(&self.instances, resolved.worktree.as_str()) {
            proof { self.lemma_entry_at(i as int); }
            let existing = &self.instances[i].1;
            let mut covered = true;
            let mut j: usize = 0;
            while j < names.len() && covered
                invariant
                    j <= names.len(),
                    existing.well_formed(),
                    ns == crate::text::texts(names@),
                    covered ==> forall|k: int| 0 <= k < j ==> #[trigger] existing@.ports.contains_key(ns[k]),
                    !covered ==> exists|k: int| 0 <= k < names@.len() && !(#[trigger] existing@.ports.contains_key(ns[k])),
                decreases names.len() - j,
            {
                if table_find(&existing.ports, names[j].as_str()).is_none() {
                    assert(ns[j as int] == names@[j as int]@);
                    assert(!existing@.ports.contains_key(ns[j as int]));
                    covered = false;
                }
                j += 1;
            }
            if covered {
                return Ok(existing.copy());
            }
        }
        let taken = self.taken_by_others(resolved.worktree.as_str());
        let key = resolved.state_key();
        let ports = match allocate_avoiding(range, key.as_str(), resolved.slug.as_str(), names, &taken, is_free) {
            Ok(p) => p,
            Err(e) => { return Err(e); }
        };
        assert(taken@ =~= Set::new(|p: u16| held_elsewhere(self@, resolved.worktree@, p)));
        let entry = Entry {
            worktree: resolved.worktree.clone(),
            slug: resolved.slug.clone(),
            ports,
            services: Vec::new(),
            db_name: None,
            last_used: None,
            instance_dir: None,
            exposure: Exposure::Local,
        };
        proof {
            assert(table_map(entry.services@) =~= Map::<Seq<char>, Handle>::empty());
            if names@.len() == 0 {
                assert(table_map(entry.ports@) =~= Map::<Seq<char>, u16>::empty());
            }
            assert forall|p: u16| entry@.ports.values().contains(p) implies !held_elsewhere(self@, resolved.worktree@, p) by {
                let n = choose|n: Seq<char>| #[trigger] entry@.ports.contains_key(n) && entry@.ports[n] == p;
                let step = choose|step: nat| {
                    &&& #[trigger] crate::ports::base_at(range.start, range.end, key@, resolved.slug@, step) >= 0
                    &&& step < crate::ports::blocks_in(range.start, range.end)
                    &&& entry@.ports == block_map(ns, crate::ports::base_at(range.start, range.end, key@, resolved.slug@, step))
                    &&& crate::ports::accepted(entry@.ports, taken@, is_free)
                    &&& forall|earlier: nat| earlier < step ==> crate::ports::rejected(
                            block_map(ns, #[trigger] crate::ports::base_at(range.start, range.end, key@, resolved.slug@, earlier)), taken@, is_free)
                };
                assert(!taken@.contains(entry@.ports[n]));
            }
        }
        let result = entry.copy();
        let ghost before = self.instances@;
        table_insert(&mut self.instances, resolved.worktree.clone(), entry);
        proof {
            Self::lemma_insert_view(before, self.instances@, resolved.worktree@, entry);
            Self::lemma_insert_keeps_wf(before, self.instances@, resolved.worktree@, entry);
        }
        Ok(result)
    }

    /// Drop entries whose worktree is gone, so a deleted worktree stops holding ports.
    /// `still_there` says whether a worktree path is still there. Returns what was dropped,
    /// in worktree order, so callers can report it rather than reclaim silently.
    pub fn reap<F: Fn(&String) -> bool>(&mut self, still_there: F) -> (gone: Vec<Entry>)
        requires
            old(self).well_formed(),
            forall|w: &String| still_there.requires((w,)),
        ensures
            final(self).well_formed(),
            final(self).path == old(self).path,
            forall|k: Seq<char>| #[trigger] final(self)@.contains_key(k)
                ==> old(self)@.contains_key(k) && final(self)@[k] == old(self)@[k],
            forall|i: int| 0 <= i < old(self).instances@.len() ==> {
                let k = (#[trigger] old(self).instances@[i]).0@;
                ||| final(self)@.contains_key(k) && still_there.ensures((&old(self).instances@[i].0,), true)
                ||| !final(self)@.contains_key(k) && still_there.ensures((&old(self).instances@[i].0,), false)
                        && shows(gone@, old(self)@[k])
            },
            only_dropped(old(self).instances@, final(self)@, gone@),
            exists|answers: Seq<bool>| {
                &&& answers.len() == old(self).instances@.len()
                &&& forall|j: int| 0 <= j < answers.len() ==> still_there.ensures((&old(self).instances@[j].0,), #[trigger] answers[j])
                &&& forall|j: int| 0 <= j < answers.len() ==> final(self)@.contains_key(old(self).instances@[j].0@) == #[trigger] answers[j]
                &&& entry_views(gone@) == dropped_views(old(self).instances@, answers)
            },
    {
        let ghost before = self.instances@;
        let ghost before_map = self@;
        let mut keep: Vec<(String, Entry)> = Vec::new();
        let mut gone: Vec<Entry> = Vec::new();
        let ghost mut origin: Seq<int> = Seq::empty();
        let ghost mut answers: Seq<bool> = Seq::empty();
        let mut i: usize = 0;
        while i < self.instances.len()
            invariant
                self.instances@ == before,
                self@ == before_map,
                self.well_formed(),
                forall|w: &String| still_there.requires((w,)),
                i <= before.len(),
                origin.len() == keep@.len(),
                forall|a: int, b: int| 0 <= a < b < origin.len() ==> origin[a] < origin[b],
                forall|a: int| 0 <= a < origin.len() ==> 0 <= #[trigger] origin[a] < i
                    && keep@[a].0@ == before[origin[a]].0@ && keep@[a].1@ == before[origin[a]].1@
                    && keep@[a].1.well_formed(),
                forall|j: int| 0 <= j < i ==> #[trigger] kept_at(origin, j) ==> still_there.ensures((&before[j].0,), true),
                forall|j: int| 0 <= j < i ==> !#[trigger] kept_at(origin, j) ==> still_there.ensures((&before[j].0,), false)
                    && shows(gone@, before[j].1@),
                forall|g: int| 0 <= g < gone@.len() ==> exists|j: int| 0 <= j < i
                    && !#[trigger] kept_at(origin, j) && (#[trigger] gone@[g])@ == before[j].1@,
                answers.len() == i,
                forall|j: int| 0 <= j < i ==> still_there.ensures((&before[j].0,), #[trigger] answers[j]),
                forall|j: int| 0 <= j < i ==> kept_at(origin, j) == #[trigger] answers[j],
                entry_views(gone@) == dropped_views(before.subrange(0, i as int), answers),
            decreases before.len() - i,
        {
            let here = still_there(&self.instances[i].0);
            proof { self.lemma_entry_at(i as int); }
            let ghost old_origin = origin;
            let ghost old_gone = gone@;
            let ghost old_answers = answers;
            proof { answers = answers.push(here); }
            if here {
                let k = self.instances[i].0.clone();
                let e = self.instances[i].1.copy();
                keep.push((k, e));
                proof { origin = origin.push(i as int); }
            } else {
                let e = self.instances[i].1.copy();
                gone.push(e);
            }
            proof {
                assert forall|j: int| 0 <= j < i + 1 implies (kept_at(origin, j) <==> (if j < i { kept_at(old_origin, j) } else { here })) by {
                    if j < i {
                        if kept_at(origin, j) {
                            let a = choose|a: int| 0 <= a < origin.len() && origin[a] == j;
                            assert(old_origin[a] == j);
                        }
                        if kept_at(old_origin, j) {
                            let a = choose|a: int| 0 <= a < old_origin.len() && old_origin[a] == j;
                            assert(origin[a] == j);
                        }
                    } else {
                        if here { assert(origin[origin.len() - 1] == j); }
                        if kept_at(origin, j) {
                            let a = choose|a: int| 0 <= a < origin.len() && origin[a] == j;
                            if a < old_origin.len() { assert(old_origin[a] < i); }
                        }
                    }
                }
                assert forall|j: int| 0 <= j < i + 1 && !#[trigger] kept_at(origin, j)
                    implies still_there.ensures((&before[j].0,), false) && shows(gone@, before[j].1@) by {
                    if j < i {
                        let g = choose|g: int| 0 <= g < old_gone.len() && #[trigger] old_gone[g]@ == before[j].1@;
                        assert(gone@[g]@ == before[j].1@);
                    } else {
                        assert(gone@[gone@.len() - 1]@ == before[j].1@);
                    }
                }
                assert forall|g: int| 0 <= g < gone@.len() implies exists|j: int| 0 <= j < i + 1
                    && !#[trigger] kept_at(origin, j) && (#[trigger] gone@[g])@ == before[j].1@ by {
                    if g < old_gone.len() {
                        let j = choose|j: int| 0 <= j < i && !#[trigger] kept_at(old_origin, j) && old_gone[g]@ == before[j].1@;
                        assert(!kept_at(origin, j));
                    } else {
                        assert(!kept_at(origin, i as int));
                    }
                }
                assert(before.subrange(0, i + 1).drop_last() =~= before.subrange(0, i as int));
                assert(answers.drop_last() =~= old_answers);
                assert(entry_views(gone@) =~= dropped_views(before.subrange(0, i + 1), answers));
                assert forall|j: int| 0 <= j < i + 1 implies kept_at(origin, j) == #[trigger] answers[j] by {
                    if j < i { assert(answers[j] == old_answers[j]); }
                }
                assert forall|j: int| 0 <= j < i + 1 implies still_there.ensures((&before[j].0,), #[trigger] answers[j]) by {
                    if j < i { assert(answers[j] == old_answers[j]); }
                }
            }
            i += 1;
        }
        assert(before.subrange(0, before.len() as int) =~= before);
        proof {
            assert(sorted(keep@)) by {
                assert forall|a: int, b: int| 0 <= a < b < keep@.len() implies crate::table::lex_lt(
                    #[trigger] keep@[a].0@, #[trigger] keep@[b].0@) by {
                    assert(origin[a] < origin[b]);
                    assert(crate::table::lex_lt(before[origin[a]].0@, before[origin[b]].0@));
                }
            }
        }
        self.instances = keep;
        proof {
            let after = self.instances@;
            assert forall|k: Seq<char>| #[trigger] self@.contains_key(k)
                implies before_map.contains_key(k) && self@[k] == before_map[k] by {
                let a = choose|a: int| 0 <= a < after.len() && #[trigger] after[a].0@ == k;
                lemma_value_at(after, a);
                lemma_value_at(before, origin[a]);
            }
            assert forall|j: int| 0 <= j < before.len() implies (self@.contains_key(#[trigger] before[j].0@) <==> kept_at(origin, j)) by {
                if kept_at(origin, j) {
                    let a = choose|a: int| 0 <= a < origin.len() && origin[a] == j;
                    assert(after[a].0@ == before[j].0@);
                    lemma_value_at(after, a);
                }
                if self@.contains_key(before[j].0@) {
                    let a = choose|a: int| 0 <= a < after.len() && #[trigger] after[a].0@ == before[j].0@;
                    if origin[a] != j {
                        crate::table::lemma_sorted_distinct(before, origin[a], j);
                    }
                }
            }
            assert forall|j: int| 0 <= j < before.len() implies before_map[(#[trigger] before[j]).0@] == before[j].1@ by {
                lemma_value_at(before, j);
            }
            assert forall|a: int| 0 <= a < after.len() implies (#[trigger] after[a]).1.well_formed()
                && after[a].1.worktree@ == after[a].0@ by {
                assert(origin[a] >= 0);
                assert(before[origin[a]].1.worktree@ == before[origin[a]].0@);
            }
            assert forall|g: int| 0 <= g < gone@.len() implies #[trigger] came_from(before, self@, gone@[g]@) by {
                let j = choose|j: int| 0 <= j < before.len() && !#[trigger] kept_at(origin, j) && gone@[g]@ == before[j].1@;
                assert(before == old(self).instances@);
                assert(!self@.contains_key(before[j].0@));
                assert(!self@.contains_key(old(self).instances@[j].0@));
            }
            assert(only_dropped(before, self@, gone@));
            assert(before == old(self).instances@);
            assert forall|j: int| 0 <= j < answers.len() implies self@.contains_key(old(self).instances@[j].0@) == #[trigger] answers[j] by {
                assert(self@.contains_key(before[j].0@) <==> kept_at(origin, j));
            }
        }
        gone
    }

    /// Forget this worktree's instance and free its ports.
    pub fn release(&mut self, worktree: &str)
        requires
            old(self).well_formed(),
        ensures
            final(self).well_formed(),
            final(self)@ == old(self)@.remove(worktree@),
            final(self).path == old(self).path,
    {
        let ghost before = self.instances@;
        let _ = table_remove(&mut self.instances, worktree);
        proof {
            Self::lemma_remove_view(before, self.instances@, worktree@);
            assert forall|i: int| 0 <= i < self.instances@.len() implies (#[trigger] self.instances@[i]).1.well_formed()
                && self.instances@[i].1.worktree@ == self.instances@[i].0@ by {
                lemma_value_at(self.instances@, i);
                let q = self.instances@[i].0@;
                let j = choose|j: int| 0 <= j < before.len() && #[trigger] before[j].0@ == q;
                lemma_value_at(before, j);
            }
        }
    }
}

/// No port is held by two instances.
pub open spec fn blocks_disjoint(m: Map<Seq<char>, EntryView>) -> bool {
    forall|a: Seq<char>, b: Seq<char>, p: u16| #[trigger] m.contains_key(a) && #[trigger] m.contains_key(b) && a != b
        && #[trigger] m[a].ports.values().contains(p) ==> !m[b].ports.values().contains(p)
}

/// A fresh block holds every name asked for.
proof fn lemma_fresh_block_covers<F: Fn(u16) -> bool>(
    before: Map<Seq<char>, EntryView>, worktree: Seq<char>, slug: Seq<char>, main_worktree: Seq<char>,
    names: Seq<Seq<char>>, start: u16, end: u16, is_free: F, after: Map<Seq<char>, EntryView>, e: EntryView,
)
    requires
        reserve_outcome(before, worktree, slug, main_worktree, names, start, end, is_free, after, Ok(e)),
    ensures
        after.contains_key(worktree),
        after[worktree] == e,
        forall|i: int| 0 <= i < names.len() ==> #[trigger] e.ports.contains_key(names[i]),
{
    if !reusable(before, worktree, names) && names.len() > 0 {
        let key = crate::resolve::state_key_of(main_worktree);
        let taken = Set::new(|p: u16| held_elsewhere(before, worktree, p));
        let step = choose|step: nat| {
            &&& #[trigger] crate::ports::base_at(start, end, key, slug, step) >= 0
            &&& step < crate::ports::blocks_in(start, end)
            &&& e.ports == block_map(names, crate::ports::base_at(start, end, key, slug, step))
            &&& crate::ports::accepted(e.ports, taken, is_free)
            &&& forall|earlier: nat| earlier < step ==> crate::ports::rejected(
                    block_map(names, #[trigger] crate::ports::base_at(start, end, key, slug, earlier)), taken, is_free)
        };
        assert forall|i: int| 0 <= i < names.len() implies #[trigger] e.ports.contains_key(names[i]) by {
            assert(names.contains(names[i]));
        }
    }
}

/// An instance keeps its ports across restarts: reserving again for the same worktree
/// and names hands back the same block and leaves the registry as it was.
pub proof fn law_reservation_is_stable<F: Fn(u16) -> bool>(
    m0: Map<Seq<char>, EntryView>, worktree: Seq<char>, slug: Seq<char>, main_worktree: Seq<char>,
    names: Seq<Seq<char>>, start: u16, end: u16, is_free: F,
    m1: Map<Seq<char>, EntryView>, e1: EntryView, m2: Map<Seq<char>, EntryView>, r2: Result<EntryView, PortsError>,
)
    requires
        reserve_outcome(m0, worktree, slug, main_worktree, names, start, end, is_free, m1, Ok(e1)),
        reserve_outcome(m1, worktree, slug, main_worktree, names, start, end, is_free, m2, r2),
    ensures
        r2 == Ok::<EntryView, PortsError>(e1),
        m2 == m1,
{
    lemma_fresh_block_covers(m0, worktree, slug, main_worktree, names, start, end, is_free, m1, e1);
    assert(reusable(m1, worktree, names));
}

/// An instance keeps its ports across whatever happens to other instances: once a
/// reservation is made, and as long as the instance's stored ports are the ones it was
/// given (writes to other worktrees, touches, records and changes of exposure keep
/// them), reserving again hands back the stored entry with those ports and changes
/// nothing.
pub proof fn law_reservation_is_stable_across_other_writes<F: Fn(u16) -> bool, G: Fn(u16) -> bool>(
    m0: Map<Seq<char>, EntryView>, worktree: Seq<char>, slug: Seq<char>, main_worktree: Seq<char>,
    names: Seq<Seq<char>>, start: u16, end: u16, first_test: F,
    m1: Map<Seq<char>, EntryView>, e1: EntryView,
    later: Map<Seq<char>, EntryView>, slug2: Seq<char>, main2: Seq<char>, start2: u16, end2: u16, second_test: G,
    m2: Map<Seq<char>, EntryView>, r2: Result<EntryView, PortsError>,
)
    requires
        reserve_outcome(m0, worktree, slug, main_worktree, names, start, end, first_test, m1, Ok(e1)),
        later.contains_key(worktree),
        later[worktree].ports == e1.ports,
        reserve_outcome(later, worktree, slug2, main2, names, start2, end2, second_test, m2, r2),
    ensures
        r2 == Ok::<EntryView, PortsError>(later[worktree]),
        later[worktree].ports == e1.ports,
        m2 == later,
{
    lemma_fresh_block_covers(m0, worktree, slug, main_worktree, names, start, end, first_test, m1, e1);
    assert(reusable(later, worktree, names));
}

/// Nothing but a reservation or a release moves an instance's ports: a touch and a
/// change of exposure of any instance, and a record of another, leave them as they
/// were, so the stable reservation above still applies after them.
pub proof fn law_other_writes_keep_the_ports(
    m: Map<Seq<char>, EntryView>, worktree: Seq<char>, other: EntryView, any: Seq<char>, now: u64, x: ExposureView,
)
    requires
        m.contains_key(worktree),
        other.worktree != worktree,
    ensures
        touched(m, any, now).contains_key(worktree) && touched(m, any, now)[worktree].ports == m[worktree].ports,
        exposed(m, any, x).contains_key(worktree) && exposed(m, any, x)[worktree].ports == m[worktree].ports,
        recorded(m, other).contains_key(worktree) && recorded(m, other)[worktree].ports == m[worktree].ports,
{
}

/// Releasing and reserving again starts afresh: after `release`, a reservation for
/// the same worktree that succeeds records a new block that covers every name and
/// holds no port of another instance, with no services, database or idle clock
/// carried over. Whether it succeeds depends on which ports are free then.
pub proof fn law_release_then_reserve_starts_afresh<F: Fn(u16) -> bool>(
    m: Map<Seq<char>, EntryView>, worktree: Seq<char>, slug: Seq<char>, main_worktree: Seq<char>,
    names: Seq<Seq<char>>, start: u16, end: u16, is_free: F, m2: Map<Seq<char>, EntryView>, e: EntryView,
)
    requires
        reserve_outcome(m.remove(worktree), worktree, slug, main_worktree, names, start, end, is_free, m2, Ok(e)),
    ensures
        m2 == m.remove(worktree).insert(worktree, e),
        forall|i: int| 0 <= i < names.len() ==> #[trigger] e.ports.contains_key(names[i]),
        forall|p: u16| e.ports.values().contains(p) ==> !held_elsewhere(m, worktree, p),
        e.services.len() == 0 && e.db_name is None && e.last_used is None,
{
    assert(!m.remove(worktree).contains_key(worktree));
    lemma_fresh_block_covers(m.remove(worktree), worktree, slug, main_worktree, names, start, end, is_free, m2, e);
    assert forall|p: u16| e.ports.values().contains(p) implies !held_elsewhere(m, worktree, p) by {
        if held_elsewhere(m, worktree, p) {
            let k = choose|k: Seq<char>| #[trigger] m.contains_key(k) && k != worktree && m[k].ports.values().contains(p);
            assert(m.remove(worktree).contains_key(k));
            assert(m.remove(worktree)[k] == m[k]);
            assert(held_elsewhere(m.remove(worktree), worktree, p));
        }
    }
}

/// Reserving records the instance, so it can be looked up by its worktree.
pub proof fn law_reservation_is_recorded<F: Fn(u16) -> bool>(
    m0: Map<Seq<char>, EntryView>, worktree: Seq<char>, slug: Seq<char>, main_worktree: Seq<char>,
    names: Seq<Seq<char>>, start: u16, end: u16, is_free: F, m1: Map<Seq<char>, EntryView>, e: EntryView,
)
    requires
        reserve_outcome(m0, worktree, slug, main_worktree, names, start, end, is_free, m1, Ok(e)),
    ensures
        m1.contains_key(worktree),
        m1[worktree] == e,
        forall|i: int| 0 <= i < names.len() ==> #[trigger] e.ports.contains_key(names[i]),
{
    lemma_fresh_block_covers(m0, worktree, slug, main_worktree, names, start, end, is_free, m1, e);
}

/// Reservations never overlap: if no port was held twice before a reservation, none
/// is after it.
pub proof fn law_reservations_never_overlap<F: Fn(u16) -> bool>(
    m0: Map<Seq<char>, EntryView>, worktree: Seq<char>, slug: Seq<char>, main_worktree: Seq<char>,
    names: Seq<Seq<char>>, start: u16, end: u16, is_free: F,
    m1: Map<Seq<char>, EntryView>, r: Result<EntryView, PortsError>,
)
    requires
        blocks_disjoint(m0),
        reserve_outcome(m0, worktree, slug, main_worktree, names, start, end, is_free, m1, r),
    ensures
        blocks_disjoint(m1),
{
    if !reusable(m0, worktree, names) {
        if let Ok(e) = r {
            assert forall|a: Seq<char>, b: Seq<char>, p: u16| #[trigger] m1.contains_key(a) && #[trigger] m1.contains_key(b) && a != b
                && #[trigger] m1[a].ports.values().contains(p) implies !m1[b].ports.values().contains(p) by {
                if a == worktree {
                    assert(!held_elsewhere(m0, worktree, p));
                    assert(m0.contains_key(b));
                } else if b == worktree {
                    if e.ports.values().contains(p) {
                        assert(!held_elsewhere(m0, worktree, p));
                        assert(m0.contains_key(a) && m0[a].ports.values().contains(p));
                    }
                } else {
                    assert(m0.contains_key(a) && m0.contains_key(b));
                }
            }
        }
    }
}

/// A second worktree never gets the first worktree's ports: after two reservations
/// on a registry where no port is held twice, their blocks share no port.
pub proof fn law_second_worktree_gets_other_ports<F: Fn(u16) -> bool, G: Fn(u16) -> bool>(
    m0: Map<Seq<char>, EntryView>,
    a: Seq<char>, slug_a: Seq<char>, main_a: Seq<char>, names_a: Seq<Seq<char>>, start_a: u16, end_a: u16, free_a: F,
    m1: Map<Seq<char>, EntryView>, ea: EntryView,
    b: Seq<char>, slug_b: Seq<char>, main_b: Seq<char>, names_b: Seq<Seq<char>>, start_b: u16, end_b: u16, free_b: G,
    m2: Map<Seq<char>, EntryView>, eb: EntryView,
)
    requires
        blocks_disjoint(m0),
        a != b,
        reserve_outcome(m0, a, slug_a, main_a, names_a, start_a, end_a, free_a, m1, Ok(ea)),
        reserve_outcome(m1, b, slug_b, main_b, names_b, start_b, end_b, free_b, m2, Ok(eb)),
    ensures
        forall|p: u16| eb.ports.values().contains(p) ==> !ea.ports.values().contains(p),
{
    law_reservations_never_overlap(m0, a, slug_a, main_a, names_a, start_a, end_a, free_a, m1, Ok(ea));
    law_reservations_never_overlap(m1, b, slug_b, main_b, names_b, start_b, end_b, free_b, m2, Ok(eb));
    lemma_fresh_block_covers(m0, a, slug_a, main_a, names_a, start_a, end_a, free_a, m1, ea);
    lemma_fresh_block_covers(m1, b, slug_b, main_b, names_b, start_b, end_b, free_b, m2, eb);
    assert(m2.contains_key(a) && m2[a] == ea);
    assert forall|p: u16| eb.ports.values().contains(p) implies !ea.ports.values().contains(p) by {
        if ea.ports.values().contains(p) {
            assert(m2.contains_key(a) && m2.contains_key(b) && m2[a].ports.values().contains(p));
        }
    }
}

/// Recording never moves the idle clock back: what is stored afterwards is at least
/// what was stored, and at least what the recorded entry says.
pub proof fn law_record_keeps_the_idle_clock(m: Map<Seq<char>, EntryView>, e: EntryView)
    ensures
        recorded(m, e).contains_key(e.worktree),
        m.contains_key(e.worktree) && m[e.worktree].last_used is Some ==> (recorded(m, e)[e.worktree].last_used matches Some(t)
            && t >= m[e.worktree].last_used->0),
        e.last_used matches Some(u) ==> (recorded(m, e)[e.worktree].last_used matches Some(t) && t >= u),
        recorded(m, e)[e.worktree] == (EntryView {
            last_used: recorded(m, e)[e.worktree].last_used,
            exposure: recorded(m, e)[e.worktree].exposure,
            ..e
        }),
{
}

/// Recording never rolls the exposure back: an instance already recorded keeps the
/// exposure stored for it, whatever the written entry says, so only `set_exposure`
/// changes it; a first record stores the entry's own.
pub proof fn law_record_keeps_the_exposure(m: Map<Seq<char>, EntryView>, e: EntryView)
    ensures
        m.contains_key(e.worktree) ==> recorded(m, e)[e.worktree].exposure == m[e.worktree].exposure,
        !m.contains_key(e.worktree) ==> recorded(m, e)[e.worktree].exposure == e.exposure,
{
}

/// Setting the exposure changes that instance's exposure and nothing else: its other
/// fields and every other instance stay as they were.
pub proof fn law_exposure_changes_one_instance(m: Map<Seq<char>, EntryView>, worktree: Seq<char>, x: ExposureView, other: Seq<char>)
    requires
        m.contains_key(worktree),
        other != worktree,
    ensures
        exposed(m, worktree, x)[worktree] == (EntryView { exposure: x, ..m[worktree] }),
        exposed(m, worktree, x).contains_key(other) == m.contains_key(other),
        m.contains_key(other) ==> exposed(m, worktree, x)[other] == m[other],
{
}

/// Recording one instance leaves its siblings as they were: every other worktree's
/// entry, and whether it has one, is unchanged.
pub proof fn law_recording_leaves_other_instances_alone(m: Map<Seq<char>, EntryView>, e: EntryView, other: Seq<char>)
    requires
        other != e.worktree,
    ensures
        recorded(m, e).contains_key(other) == m.contains_key(other),
        m.contains_key(other) ==> recorded(m, e)[other] == m[other],
{
}

proof fn lemma_fresh_log_counts(logs: Seq<Option<u64>>, i: int, t: u64)
    requires
        0 <= i < logs.len(),
        logs[i] == Some(t),
    ensures
        newest(logs) matches Some(x) && x >= t,
    decreases logs.len(),
{
    if i < logs.len() - 1 {
        assert(logs.drop_last()[i] == Some(t));
        lemma_fresh_log_counts(logs.drop_last(), i, t);
    }
}

proof fn lemma_newest_bounded(logs: Seq<Option<u64>>, t: u64)
    requires
        forall|j: int| 0 <= j < logs.len() ==> (#[trigger] logs[j] matches Some(x) ==> x <= t),
    ensures
        newest(logs) matches Some(x) ==> x <= t,
        (forall|j: int| 0 <= j < logs.len() ==> #[trigger] logs[j] is None) ==> newest(logs) is None,
    decreases logs.len(),
{
    if logs.len() > 0 {
        let d = logs.drop_last();
        assert forall|j: int| 0 <= j < d.len() implies (#[trigger] d[j] matches Some(x) ==> x <= t) by {
            assert(d[j] == logs[j]);
        }
        lemma_newest_bounded(d, t);
        assert(logs.last() == logs[logs.len() - 1]);
        if forall|j: int| 0 <= j < logs.len() ==> #[trigger] logs[j] is None {
            assert forall|j: int| 0 <= j < d.len() implies #[trigger] d[j] is None by {
                assert(d[j] == logs[j]);
            }
        }
    }
}

/// The idle age is the time since the freshest evidence of use: when the latest of
/// the last grove command and every service log is at `t`, the instance has been
/// idle `now - t`; with no evidence at all there is no idle age.
pub proof fn law_idle_age_is_time_since_the_freshest_evidence(last_used: Option<u64>, logs: Seq<Option<u64>>, now: u64, t: u64)
    requires
        forall|j: int| 0 <= j < logs.len() ==> (#[trigger] logs[j] matches Some(x) ==> x <= t),
        last_used matches Some(x) ==> x <= t,
    ensures
        t <= now && (last_used == Some(t) || exists|j: int| 0 <= j < logs.len() && logs[j] == Some(t))
            ==> idle_of(last_used, logs, now) == Some((now - t) as u64),
        last_used is None && (forall|j: int| 0 <= j < logs.len() ==> #[trigger] logs[j] is None)
            ==> idle_of(last_used, logs, now) is None,
{
    lemma_newest_bounded(logs, t);
    if exists|j: int| 0 <= j < logs.len() && logs[j] == Some(t) {
        let j = choose|j: int| 0 <= j < logs.len() && logs[j] == Some(t);
        lemma_fresh_log_counts(logs, j, t);
    }
}

/// An instance is only as idle as its freshest evidence says: any service log written
/// at `t`, and the last grove command at `t`, each keep the idle age at most `now - t`.
/// It errs toward looking busy — a backend serving requests keeps its instance from
/// reading idle, however quiet its other services or grove commands have been.
pub proof fn law_fresh_evidence_keeps_an_instance_busy(last_used: Option<u64>, logs: Seq<Option<u64>>, now: u64, i: int, t: u64)
    requires
        t <= now,
        (0 <= i < logs.len() && logs[i] == Some(t)) || last_used == Some(t),
    ensures
        idle_of(last_used, logs, now) matches Some(a) && a <= now - t,
{
    if 0 <= i < logs.len() && logs[i] == Some(t) {
        lemma_fresh_log_counts(logs, i, t);
    }
}

/// Touching records that someone is working here: the instance reads as idle for no
/// time at all at the moment of the touch, whatever its logs say.
pub proof fn law_a_touched_instance_is_not_idle(m: Map<Seq<char>, EntryView>, worktree: Seq<char>, now: u64, logs: Seq<Option<u64>>)
    requires
        m.contains_key(worktree),
    ensures
        idle_of(touched(m, worktree, now)[worktree].last_used, logs, now) == Some(0u64),
{
}

/// Releasing frees the ports: once the only instance holding a port is released, no
/// other instance is kept from it.
pub proof fn law_release_frees_ports(m: Map<Seq<char>, EntryView>, worktree: Seq<char>, other: Seq<char>, p: u16)
    requires
        forall|k: Seq<char>| #[trigger] m.contains_key(k) && k != worktree ==> !m[k].ports.values().contains(p),
    ensures
        !held_elsewhere(m.remove(worktree), other, p),
{
}

} // verus!
