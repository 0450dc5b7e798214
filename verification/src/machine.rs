//! What this machine looks like right now — how loaded, how crowded, and which
//! instances nobody has touched lately — and what grove says about it.
//!
//! grove starts one dev stack per worktree and nothing creates pressure to stop them,
//! so a machine can quietly end up running a dozen. The cost shows up as tests timing
//! out on a branch that did not break them. The application samples the load and asks
//! the processes; the rules for when that is worth saying, and what to say, are here.

use vstd::prelude::*;
use crate::registry::{Entry, EntryView, Registry, recorded, idle_of, age_text, human_age};
use crate::table::{lex_lt, table_map};
use crate::text::{same_path, same_path_exec, owned, push_text, decimal, decimal_text, texts, chars_of, string_of};

verus! {

/// The window the printed prescription proposes. Generous on purpose: an instance
/// someone stepped away from for lunch has to survive it.
pub const IDLE_WINDOW: &'static str = "2h";

/// `IDLE_WINDOW` in seconds.
pub const IDLE_WINDOW_SECONDS: u64 = 7200;

/// Below this many running instances, a loaded machine is somebody's type-check rather
/// than a pile-up grove can do anything about.
pub const CROWD: usize = 4;

/// How many idle instances a prescription names before it summarises the rest.
pub const SHOWN: usize = 6;

/// The machine's load as the application read it: the one-minute average already
/// written with one decimal, the cores carrying it, and whether the average reaches
/// the core count.
#[derive(Debug)]
pub struct LoadReading {
    pub one: String,
    pub cores: u64,
    pub oversubscribed: bool,
}

/// Whether the machine's state is worth mentioning. Both halves are required — a loaded
/// machine with nothing reclaimable leaves the reader with no move to make, and a crowd
/// on a machine that is coping fine is not a problem yet.
pub open spec fn warn_when(load: Option<LoadReading>, running: nat) -> bool {
    running >= CROWD && (load matches Some(l) && l.oversubscribed)
}

pub fn should_warn(load: Option<&LoadReading>, running: usize) -> (r: bool)
    ensures
        r == (running >= CROWD && (load matches Some(l) && l.oversubscribed)),
{
    running >= CROWD && match load {
        Some(l) => l.oversubscribed,
        None => false,
    }
}

/// What the machine looks like: its load, how many instances run, and the slug and
/// idle age of each running instance past `IDLE_WINDOW`, oldest first.
#[derive(Debug)]
pub struct Machine {
    pub load: Option<LoadReading>,
    pub running: usize,
    pub idle: Vec<(String, u64)>,
}

/// `name (age)`.
pub open spec fn idle_label(slug: Seq<char>, age: u64) -> Seq<char> {
    slug + " ("@ + age_text(age as nat) + ")"@
}

/// Words joined with `, `.
pub open spec fn comma_joined(s: Seq<Seq<char>>) -> Seq<char>
    decreases s.len(),
{
    if s.len() == 0 {
        Seq::empty()
    } else if s.len() == 1 {
        s[0]
    } else {
        comma_joined(s.drop_last()) + ", "@ + s.last()
    }
}

/// The idle instances a prescription names: the first `SHOWN`, then how many more.
pub open spec fn named_idle(idle: Seq<(String, u64)>) -> Seq<Seq<char>> {
    let n = if idle.len() < SHOWN { idle.len() } else { SHOWN as nat };
    let shown = Seq::new(n, |i: int| idle_label(idle[i].0@, idle[i].1));
    if idle.len() > SHOWN { shown.push("and "@ + decimal((idle.len() - SHOWN) as nat) + " more"@) } else { shown }
}

/// The headline: load and cores when the load could be read, and the instance count.
pub open spec fn headline_of(m: &Machine) -> Seq<char> {
    match m.load {
        Some(l) => "load "@ + l.one@ + " on "@ + decimal(l.cores as nat) + " cores, "@ + decimal(m.running as nat)
            + " instances running"@,
        None => decimal(m.running as nat) + " instances running"@,
    }
}

/// The two lines that say what to stop and how, or none when nothing is stale.
pub open spec fn prescription_of(m: &Machine) -> Option<Seq<Seq<char>>> {
    if m.idle@.len() == 0 {
        None
    } else {
        Some(seq![
            "  "@ + decimal(m.idle@.len()) + " idle over "@ + IDLE_WINDOW@ + ": "@ + comma_joined(named_idle(m.idle@)),
            "  grove down --idle "@ + IDLE_WINDOW@ + "   stops those, keeping their ports"@,
        ])
    }
}

impl Machine {
    pub fn crowded(&self) -> (r: bool)
        ensures
            r == warn_when(self.load, self.running as nat),
    {
        should_warn(self.load.as_ref(), self.running)
    }

    pub fn headline(&self) -> (s: String)
        ensures
            s@ == headline_of(self),
    {
        match &self.load {
            Some(l) => {
                let mut s = owned("load ");
                push_text(&mut s, l.one.as_str());
                push_text(&mut s, " on ");
                let c = decimal_text(l.cores);
                push_text(&mut s, c.as_str());
                push_text(&mut s, " cores, ");
                let r = decimal_text(self.running as u64);
                push_text(&mut s, r.as_str());
                push_text(&mut s, " instances running");
                s
            },
            None => {
                let mut s = decimal_text(self.running as u64);
                push_text(&mut s, " instances running");
                s
            },
        }
    }

    /// Names, not a count: "would stop 7" answers *how many* when the question is
    /// *which*, and on a shared machine the names are the blast radius. None when
    /// nothing is stale — a prescription that would stop nothing is noise.
    pub fn prescription(&self) -> (r: Option<Vec<String>>)
        ensures
            match (r, prescription_of(self)) {
                (Some(v), Some(w)) => texts(v@) == w,
                (None, None) => true,
                _ => false,
            },
    {
        if self.idle.len() == 0 {
            return None;
        }
        let n: usize = if self.idle.len() < SHOWN { self.idle.len() } else { SHOWN };
        let ghost names = named_idle(self.idle@);
        let mut joined = owned("");
        proof { reveal_strlit(""); }
        let mut i: usize = 0;
        while i < n
            invariant
                i <= n,
                n == (if self.idle@.len() < SHOWN { self.idle@.len() } else { SHOWN as nat }),
                names == named_idle(self.idle@),
                joined@ == comma_joined(names.subrange(0, i as int)),
            decreases n - i,
        {
            assert(names.subrange(0, i + 1).drop_last() =~= names.subrange(0, i as int));
            if i > 0 {
                push_text(&mut joined, ", ");
            } else {
                assert(joined@ =~= Seq::<char>::empty());
            }
            push_text(&mut joined, self.idle[i].0.as_str());
            push_text(&mut joined, " (");
            let age = human_age(self.idle[i].1);
            push_text(&mut joined, age.as_str());
            push_text(&mut joined, ")");
            i += 1;
        }
        if self.idle.len() > SHOWN {
            let ghost before = joined@;
            proof { reveal_strlit(", and "); reveal_strlit(", "); reveal_strlit("and "); }
            push_text(&mut joined, ", and ");
            let rest = decimal_text((self.idle.len() - SHOWN) as u64);
            push_text(&mut joined, rest.as_str());
            push_text(&mut joined, " more");
            assert(names.subrange(0, SHOWN as int + 1).drop_last() =~= names.subrange(0, SHOWN as int));
            assert(names.subrange(0, names.len() as int) =~= names);
            assert(joined@ =~= comma_joined(names.subrange(0, SHOWN as int)) + ", "@ + names.last());
            assert(joined@ == comma_joined(names));
        } else {
            assert(names.subrange(0, n as int) =~= names);
        }
        let mut first = owned("  ");
        let count = decimal_text(self.idle.len() as u64);
        push_text(&mut first, count.as_str());
        push_text(&mut first, " idle over ");
        push_text(&mut first, IDLE_WINDOW);
        push_text(&mut first, ": ");
        push_text(&mut first, joined.as_str());
        let mut second = owned("  grove down --idle ");
        push_text(&mut second, IDLE_WINDOW);
        push_text(&mut second, "   stops those, keeping their ports");
        let v = vec![first, second];
        assert(texts(v@) =~= prescription_of(self)->0);
        Some(v)
    }
}

/// What orders instances in a list: running ones first, then the longest idle, then
/// by slug.
#[derive(Debug)]
pub struct RankKey {
    pub running: bool,
    pub age: u64,
    pub name: String,
}

/// A rank key with its name as characters.
pub struct RankView {
    pub running: bool,
    pub age: u64,
    pub name: Seq<char>,
}

impl View for RankKey {
    type V = RankView;

    open spec fn view(&self) -> RankView {
        RankView { running: self.running, age: self.age, name: self.name@ }
    }
}

pub open spec fn rank_views(keys: Seq<RankKey>) -> Seq<RankView> {
    Seq::new(keys.len(), |i: int| keys[i]@)
}

/// `a` belongs strictly before `b`.
pub open spec fn ranks_before(a: RankView, b: RankView) -> bool {
    ||| a.running && !b.running
    ||| a.running == b.running && a.age > b.age
    ||| a.running == b.running && a.age == b.age && lex_lt(a.name, b.name)
}

/// `x` placed before the first item of `s` it belongs before.
pub open spec fn place(keys: Seq<RankView>, s: Seq<usize>, x: usize) -> Seq<usize>
    decreases s.len(),
{
    if s.len() == 0 {
        seq![x]
    } else if ranks_before(keys[x as int], keys[s[0] as int]) {
        seq![x] + s
    } else {
        seq![s[0]] + place(keys, s.drop_first(), x)
    }
}

/// The items in rank order; items that rank alike keep the order they came in.
pub open spec fn ranked(keys: Seq<RankView>, s: Seq<usize>) -> Seq<usize>
    decreases s.len(),
{
    if s.len() == 0 {
        Seq::empty()
    } else {
        place(keys, ranked(keys, s.drop_last()), s.last())
    }
}

proof fn lemma_place_at(keys: Seq<RankView>, s: Seq<usize>, x: usize, p: int)
    requires
        0 <= p <= s.len(),
        forall|j: int| 0 <= j < p ==> !ranks_before(keys[x as int], #[trigger] keys[s[j] as int]),
        p < s.len() ==> ranks_before(keys[x as int], keys[s[p] as int]),
    ensures
        place(keys, s, x) == s.insert(p, x),
    decreases s.len(),
{
    if s.len() == 0 {
        assert(s.insert(p, x) =~= seq![x]);
    } else if p == 0 {
        assert(s.insert(0, x) =~= seq![x] + s);
    } else {
        assert(!ranks_before(keys[x as int], keys[s[0] as int]));
        let t = s.drop_first();
        assert forall|j: int| 0 <= j < p - 1 implies !ranks_before(keys[x as int], #[trigger] keys[t[j] as int]) by {
            assert(t[j] == s[j + 1]);
        }
        lemma_place_at(keys, t, x, p - 1);
        assert(s.insert(p, x) =~= seq![s[0]] + t.insert(p - 1, x));
    }
}

fn before_exec(a: &RankKey, b: &RankKey) -> (r: bool)
    ensures
        r == ranks_before(a@, b@),
{
    if a.running != b.running {
        return a.running;
    }
    if a.age != b.age {
        return a.age > b.age;
    }
    crate::table::compare_text(a.name.as_str(), b.name.as_str()) < 0
}

/// `items` in rank order by `keys`, a stable sort.
pub fn rank(keys: &Vec<RankKey>, items: &Vec<usize>) -> (out: Vec<usize>)
    requires
        forall|i: int| 0 <= i < items@.len() ==> #[trigger] items@[i] < keys@.len(),
    ensures
        out@ == ranked(rank_views(keys@), items@),
{
    let ghost kv = rank_views(keys@);
    let mut out: Vec<usize> = Vec::new();
    let mut i: usize = 0;
    while i < items.len()
        invariant
            i <= items.len(),
            forall|k: int| 0 <= k < items@.len() ==> #[trigger] items@[k] < keys@.len(),
            kv == rank_views(keys@),
            out@ == ranked(kv, items@.subrange(0, i as int)),
            forall|k: int| 0 <= k < out@.len() ==> #[trigger] out@[k] < keys@.len(),
        decreases items.len() - i,
    {
        let x = items[i];
        let mut p: usize = 0;
        while p < out.len() && !before_exec(&keys[x], &keys[out[p]])
            invariant
                p <= out.len(),
                x < keys@.len(),
                forall|k: int| 0 <= k < out@.len() ==> #[trigger] out@[k] < keys@.len(),
                kv == rank_views(keys@),
                forall|j: int| 0 <= j < p ==> !ranks_before(kv[x as int], #[trigger] kv[out@[j] as int]),
            decreases out.len() - p,
        {
            p += 1;
        }
        proof {
            lemma_place_at(kv, out@, x, p as int);
            assert(items@.subrange(0, i + 1).drop_last() =~= items@.subrange(0, i as int));
        }
        out.insert(p, x);
        i += 1;
    }
    assert(items@.subrange(0, items@.len() as int) =~= items@);
    out
}

/// What the application found out about one registry entry.
#[derive(Debug)]
pub struct EntryFacts {
    /// Per recorded service, in name order: whether its process group is alive.
    pub alive: Vec<bool>,
    /// Per recorded service: when its log was last written, if that is known.
    pub logs: Vec<Option<u64>>,
    /// The worktree is still there.
    pub present: bool,
}

/// Some recorded service of the entry is alive.
pub open spec fn live(f: EntryFacts) -> bool {
    exists|i: int| 0 <= i < f.alive@.len() && f.alive@[i]
}

/// How many recorded services are alive.
pub open spec fn live_count(alive: Seq<bool>) -> nat
    decreases alive.len(),
{
    if alive.len() == 0 { 0 } else { live_count(alive.drop_last()) + if alive.last() { 1nat } else { 0nat } }
}

/// The entry's idle age, when there is any evidence of use.
pub open spec fn age_of(e: Entry, f: EntryFacts, now: u64) -> Option<u64> {
    idle_of(e.last_used, f.logs@, now)
}

/// How many entries are running.
pub open spec fn running_count(facts: Seq<EntryFacts>) -> nat
    decreases facts.len(),
{
    if facts.len() == 0 { 0 } else { running_count(facts.drop_last()) + if live(facts.last()) { 1nat } else { 0nat } }
}

/// The running instances past the idle window, in registry order, except the one
/// the caller stands in.
pub open spec fn idle_candidates(entries: Seq<Entry>, facts: Seq<EntryFacts>, exclude: Option<Seq<char>>, now: u64) -> Seq<usize>
    decreases entries.len(),
{
    if entries.len() == 0 {
        Seq::empty()
    } else {
        let n = (entries.len() - 1) as int;
        let rest = idle_candidates(entries.drop_last(), facts, exclude, now);
        if live(facts[n]) && !(exclude matches Some(x) && same_path(entries[n].worktree@, x))
            && (age_of(entries[n], facts[n], now) matches Some(a) && a >= IDLE_WINDOW_SECONDS) {
            rest.push(n as usize)
        } else {
            rest
        }
    }
}

/// Rank keys by idle age alone.
pub open spec fn age_ranks(entries: Seq<Entry>, facts: Seq<EntryFacts>, now: u64) -> Seq<RankView> {
    Seq::new(entries.len(), |i: int| RankView {
        running: true,
        age: match age_of(entries[i], facts[i], now) { Some(a) => a, None => 0 },
        name: Seq::empty(),
    })
}

/// A list of slugs and ages, seen through the slugs' views.
pub open spec fn aged_views(v: Seq<(String, u64)>) -> Seq<(Seq<char>, u64)> {
    Seq::new(v.len(), |i: int| (v[i].0@, v[i].1))
}

/// What `survey` reports as idle: the candidates, oldest first.
pub open spec fn idle_of_machine(entries: Seq<Entry>, facts: Seq<EntryFacts>, exclude: Option<Seq<char>>, now: u64) -> Seq<(Seq<char>, u64)> {
    let order = ranked(age_ranks(entries, facts, now), idle_candidates(entries, facts, exclude, now));
    Seq::new(order.len(), |k: int| (entries[order[k] as int].slug@, age_of(entries[order[k] as int], facts[order[k] as int], now)->0))
}

fn age_key(age: u64) -> (k: RankKey)
    ensures
        k@ == (RankView { running: true, age, name: Seq::empty() }),
{
    proof { reveal_strlit(""); }
    let name = owned("");
    assert(name@ =~= Seq::<char>::empty());
    RankKey { running: true, age, name }
}

/// Look at the machine: how many instances run, and which have sat idle past the
/// window, oldest first. `exclude` is the worktree the caller stands in, which `down
/// --idle` will not stop and so must not be offered.
pub fn survey(entries: &Vec<Entry>, facts: &Vec<EntryFacts>, exclude: Option<&str>, now: u64, load: Option<LoadReading>) -> (m: Machine)
    requires
        facts@.len() == entries@.len(),
    ensures
        m.load == load,
        m.running as nat == running_count(facts@),
        aged_views(m.idle@) == idle_of_machine(entries@, facts@, match exclude { Some(w) => Some(w@), None => None }, now),
{
    let ghost ex: Option<Seq<char>> = match exclude { Some(w) => Some(w@), None => None };
    let mut running: usize = 0;
    let mut keys: Vec<RankKey> = Vec::new();
    let mut cands: Vec<usize> = Vec::new();
    let mut i: usize = 0;
    while i < entries.len()
        invariant
            i <= entries.len(),
            facts@.len() == entries@.len(),
            ex == (match exclude { Some(w) => Some(w@), None => None::<Seq<char>> }),
            running as nat == running_count(facts@.subrange(0, i as int)),
            running <= i,
            keys@.len() == i,
            forall|k: int| 0 <= k < i ==> (#[trigger] keys@[k])@ == age_ranks(entries@, facts@, now)[k],
            cands@ == idle_candidates(entries@.subrange(0, i as int), facts@, ex, now),
            forall|k: int| 0 <= k < cands@.len() ==> #[trigger] cands@[k] < i,
            forall|k: int| 0 <= k < cands@.len() ==> age_of(entries@[#[trigger] cands@[k] as int], facts@[cands@[k] as int], now) is Some,
        decreases entries.len() - i,
    {
        assert(facts@.subrange(0, i + 1).drop_last() =~= facts@.subrange(0, i as int));
        assert(entries@.subrange(0, i + 1).drop_last() =~= entries@.subrange(0, i as int));
        let is_live = entries[i].is_running(&facts[i].alive);
        let age = entries[i].idle_seconds(now, &facts[i].logs);
        if is_live {
            running += 1;
        }
        keys.push(age_key(match age { Some(a) => a, None => 0 }));
        let excluded = match exclude {
            Some(w) => same_path_exec(entries[i].worktree.as_str(), w),
            None => false,
        };
        let old_enough = match age { Some(a) => a >= IDLE_WINDOW_SECONDS, None => false };
        if is_live && !excluded && old_enough {
            cands.push(i);
        }
        i += 1;
    }
    assert(entries@.subrange(0, entries@.len() as int) =~= entries@);
    assert(facts@.subrange(0, facts@.len() as int) =~= facts@);
    assert(rank_views(keys@) =~= age_ranks(entries@, facts@, now));
    let order = rank(&keys, &cands);
    proof {
        lemma_ranked_members(rank_views(keys@), cands@, entries@.len());
        assert forall|q: int| 0 <= q < order@.len() implies #[trigger] order@[q] < entries@.len()
            && age_of(entries@[order@[q] as int], facts@[order@[q] as int], now) is Some by {
            let p = choose|p: int| 0 <= p < cands@.len() && cands@[p] == order@[q];
            assert(cands@[p] < entries@.len());
        }
    }
    let mut idle: Vec<(String, u64)> = Vec::new();
    let mut k: usize = 0;
    while k < order.len()
        invariant
            k <= order.len(),
            facts@.len() == entries@.len(),
            forall|q: int| 0 <= q < order@.len() ==> #[trigger] order@[q] < entries@.len(),
            forall|q: int| 0 <= q < order@.len() ==> age_of(entries@[#[trigger] order@[q] as int], facts@[order@[q] as int], now) is Some,
            idle@.len() == k,
            forall|q: int| 0 <= q < k ==> (#[trigger] idle@[q]).0@ == entries@[order@[q] as int].slug@
                && idle@[q].1 == age_of(entries@[order@[q] as int], facts@[order@[q] as int], now)->0,
        decreases order.len() - k,
    {
        let j = order[k];
        let age = match entries[j].idle_seconds(now, &facts[j].logs) { Some(a) => a, None => 0 };
        idle.push((entries[j].slug.clone(), age));
        k += 1;
    }
    let m = Machine { load, running, idle };
    assert(aged_views(m.idle@) =~= idle_of_machine(entries@, facts@, ex, now));
    m
}

/// Every item of a ranked list is an item of the list.
proof fn lemma_ranked_members(keys: Seq<RankView>, s: Seq<usize>, bound: nat)
    ensures
        forall|q: int| 0 <= q < ranked(keys, s).len() ==> exists|p: int| 0 <= p < s.len() && s[p] == #[trigger] ranked(keys, s)[q],
        ranked(keys, s).len() == s.len(),
    decreases s.len(),
{
    if s.len() > 0 {
        lemma_ranked_members(keys, s.drop_last(), bound);
        lemma_place_members(keys, ranked(keys, s.drop_last()), s.last());
        let r = ranked(keys, s);
        assert forall|q: int| 0 <= q < r.len() implies exists|p: int| 0 <= p < s.len() && s[p] == #[trigger] r[q] by {
            if r[q] == s.last() {
                assert(s[s.len() - 1] == r[q]);
            } else {
                let prev = ranked(keys, s.drop_last());
                let q2 = choose|q2: int| 0 <= q2 < prev.len() && prev[q2] == r[q];
                let p = choose|p: int| 0 <= p < s.drop_last().len() && s.drop_last()[p] == #[trigger] prev[q2];
                assert(s[p] == r[q]);
            }
        }
    }
}

/// Placing `x` adds exactly `x`.
proof fn lemma_place_members(keys: Seq<RankView>, s: Seq<usize>, x: usize)
    ensures
        place(keys, s, x).len() == s.len() + 1,
        forall|q: int| 0 <= q < place(keys, s, x).len() ==> #[trigger] place(keys, s, x)[q] == x
            || exists|q2: int| 0 <= q2 < s.len() && s[q2] == place(keys, s, x)[q],
    decreases s.len(),
{
    if s.len() > 0 && !ranks_before(keys[x as int], keys[s[0] as int]) {
        lemma_place_members(keys, s.drop_first(), x);
        let r = place(keys, s, x);
        let t = place(keys, s.drop_first(), x);
        assert forall|q: int| 0 <= q < r.len() implies #[trigger] r[q] == x
            || exists|q2: int| 0 <= q2 < s.len() && s[q2] == r[q] by {
            if q == 0 {
                assert(s[0] == r[q]);
            } else {
                assert(r[q] == t[q - 1]);
                if t[q - 1] != x {
                    let q2 = choose|q2: int| 0 <= q2 < s.drop_first().len() && s.drop_first()[q2] == t[q - 1];
                    assert(s[q2 + 1] == r[q]);
                }
            }
        }
    } else if s.len() > 0 {
        let r = place(keys, s, x);
        assert forall|q: int| 0 <= q < r.len() implies #[trigger] r[q] == x
            || exists|q2: int| 0 <= q2 < s.len() && s[q2] == r[q] by {
            if q > 0 {
                assert(s[q - 1] == r[q]);
            }
        }
    }
}

/// A running instance a sweep stops: never the one the caller stands in, the two
/// compared as paths are, component by component; with a
/// window, only one whose idle age reaches it — no evidence either way is not evidence
/// of neglect; without one, every other running instance.
pub open spec fn doomed(e: Entry, f: EntryFacts, here: Seq<char>, window: Option<u64>, now: u64) -> bool {
    &&& live(f)
    &&& !same_path(e.worktree@, here)
    &&& match window {
        Some(w) => age_of(e, f, now) matches Some(a) && a >= w,
        None => true,
    }
}

/// The instances a sweep stops, in registry order.
pub open spec fn sweep_candidates(entries: Seq<Entry>, facts: Seq<EntryFacts>, here: Seq<char>, window: Option<u64>, now: u64) -> Seq<usize>
    decreases entries.len(),
{
    if entries.len() == 0 {
        Seq::empty()
    } else {
        let n = (entries.len() - 1) as int;
        let rest = sweep_candidates(entries.drop_last(), facts, here, window, now);
        if doomed(entries[n], facts[n], here, window, now) { rest.push(n as usize) } else { rest }
    }
}

/// What a sweep will stop: which entries, with their idle ages, oldest first, and how
/// many instances were running.
#[derive(Debug)]
pub struct SweepPlan {
    pub running: usize,
    pub doomed: Vec<(usize, u64)>,
}

/// The sweep's picks, oldest first, each with its idle age (none counts as zero).
pub open spec fn sweep_order(entries: Seq<Entry>, facts: Seq<EntryFacts>, here: Seq<char>, window: Option<u64>, now: u64) -> Seq<(usize, u64)> {
    let order = ranked(age_ranks(entries, facts, now), sweep_candidates(entries, facts, here, window, now));
    Seq::new(order.len(), |k: int| (order[k], match age_of(entries[order[k] as int], facts[order[k] as int], now) {
        Some(a) => a,
        None => 0,
    }))
}

/// Decide what `down --idle` or `down --all-but-this` stops. `window` is the idle
/// window in seconds, or none for every running instance but this one.
pub fn sweep_plan(entries: &Vec<Entry>, facts: &Vec<EntryFacts>, here: &str, window: Option<u64>, now: u64) -> (p: SweepPlan)
    requires
        facts@.len() == entries@.len(),
    ensures
        p.running as nat == running_count(facts@),
        p.doomed@ == sweep_order(entries@, facts@, here@, window, now),
{
    let mut running: usize = 0;
    let mut keys: Vec<RankKey> = Vec::new();
    let mut cands: Vec<usize> = Vec::new();
    let mut i: usize = 0;
    while i < entries.len()
        invariant
            i <= entries.len(),
            facts@.len() == entries@.len(),
            running as nat == running_count(facts@.subrange(0, i as int)),
            running <= i,
            keys@.len() == i,
            forall|k: int| 0 <= k < i ==> (#[trigger] keys@[k])@ == age_ranks(entries@, facts@, now)[k],
            cands@ == sweep_candidates(entries@.subrange(0, i as int), facts@, here@, window, now),
            forall|k: int| 0 <= k < cands@.len() ==> #[trigger] cands@[k] < i,
        decreases entries.len() - i,
    {
        assert(facts@.subrange(0, i + 1).drop_last() =~= facts@.subrange(0, i as int));
        assert(entries@.subrange(0, i + 1).drop_last() =~= entries@.subrange(0, i as int));
        let is_live = entries[i].is_running(&facts[i].alive);
        let age = entries[i].idle_seconds(now, &facts[i].logs);
        if is_live {
            running += 1;
        }
        keys.push(age_key(match age { Some(a) => a, None => 0 }));
        let elsewhere = !same_path_exec(entries[i].worktree.as_str(), here);
        let old_enough = match window {
            Some(w) => match age { Some(a) => a >= w, None => false },
            None => true,
        };
        if is_live && elsewhere && old_enough {
            cands.push(i);
        }
        i += 1;
    }
    assert(entries@.subrange(0, entries@.len() as int) =~= entries@);
    assert(facts@.subrange(0, facts@.len() as int) =~= facts@);
    assert(rank_views(keys@) =~= age_ranks(entries@, facts@, now));
    let order = rank(&keys, &cands);
    proof {
        lemma_ranked_members(rank_views(keys@), cands@, entries@.len());
        assert forall|q: int| 0 <= q < order@.len() implies #[trigger] order@[q] < entries@.len() by {
            let p = choose|p: int| 0 <= p < cands@.len() && cands@[p] == order@[q];
            assert(cands@[p] < entries@.len());
        }
    }
    let mut doomed: Vec<(usize, u64)> = Vec::new();
    let mut k: usize = 0;
    while k < order.len()
        invariant
            k <= order.len(),
            facts@.len() == entries@.len(),
            forall|q: int| 0 <= q < order@.len() ==> #[trigger] order@[q] < entries@.len(),
            doomed@.len() == k,
            forall|q: int| 0 <= q < k ==> #[trigger] doomed@[q] == (order@[q], match age_of(entries@[order@[q] as int], facts@[order@[q] as int], now) {
                Some(a) => a,
                None => 0u64,
            }),
        decreases order.len() - k,
    {
        let j = order[k];
        let age = match entries[j].idle_seconds(now, &facts[j].logs) { Some(a) => a, None => 0 };
        doomed.push((j, age));
        k += 1;
    }
    assert(doomed@ =~= sweep_order(entries@, facts@, here@, window, now));
    SweepPlan { running, doomed }
}

/// Record a swept instance: its services forgotten, its ports kept. The application
/// stops the recorded processes first.
pub fn swept(registry: &mut Registry, entry: &Entry)
    requires
        old(registry).well_formed(),
        entry.well_formed(),
    ensures
        final(registry).well_formed(),
        final(registry).path == old(registry).path,
        final(registry)@ == recorded(old(registry)@, EntryView { services: Map::empty(), ..entry@ }),
{
    let mut e = entry.copy();
    e.services = Vec::new();
    assert(table_map(e.services@) =~= Map::<Seq<char>, crate::supervise::Handle>::empty());
    registry.record(&e);
}

/// A sweep stops an instance and keeps its reservation: afterwards the instance is
/// recorded with no services and with the ports, database and everything else it had,
/// so the URLs already written down still point at it tomorrow.
pub proof fn law_a_sweep_keeps_the_ports(m: Map<Seq<char>, EntryView>, e: EntryView)
    ensures
        recorded(m, EntryView { services: Map::empty(), ..e }).contains_key(e.worktree),
        recorded(m, EntryView { services: Map::empty(), ..e })[e.worktree].ports == e.ports,
        recorded(m, EntryView { services: Map::empty(), ..e })[e.worktree].db_name == e.db_name,
        recorded(m, EntryView { services: Map::empty(), ..e })[e.worktree].services.is_empty(),
{
}

/// `s` padded with spaces to `width` characters, as `{:<width}` pads it.
pub open spec fn padded(s: Seq<char>, width: nat) -> Seq<char> {
    if s.len() < width { s + Seq::new((width - s.len()) as nat, |i: int| ' ') } else { s }
}

pub(crate) fn pad(s: &str, width: usize) -> (r: String)
    ensures
        r@ == padded(s@, width as nat),
{
    let mut v = chars_of(s);
    let ghost start = v@;
    let n = v.len();
    while v.len() < width
        invariant
            v@.len() >= n,
            n == start.len(),
            v@.subrange(0, n as int) == start,
            forall|i: int| n <= i < v@.len() ==> v@[i] == ' ',
            n < width ==> v@.len() <= width,
            n >= width ==> v@ == start,
        decreases width - v.len(),
    {
        v.push(' ');
    }
    assert(v@ =~= padded(s@, width as nat));
    string_of(&v)
}

/// The lines a sweep prints before it stops anything: one per instance it names, and,
/// for a dry run, the count of what it would have stopped.
pub open spec fn sweep_report_of(entries: Seq<Entry>, plan: Seq<(usize, u64)>, running: nat, dry_run: bool) -> Seq<Seq<char>> {
    if plan.len() == 0 {
        seq!["nothing to stop — "@ + decimal(running) + " running"@]
    } else {
        let width = slug_width(entries, plan);
        let verb = if dry_run { "would stop"@ } else { "stopped"@ };
        let named = Seq::new(plan.len(), |k: int| verb + " "@ + padded(entries[plan[k].0 as int].slug@, width)
            + "  (idle "@ + age_text(plan[k].1 as nat) + ")"@);
        if dry_run {
            named + seq![Seq::empty(), decimal(plan.len()) + " of "@ + decimal(running) + " running. Nothing stopped (--dry-run)."@]
        } else {
            named
        }
    }
}

/// The widest slug among the named entries.
pub open spec fn slug_width(entries: Seq<Entry>, plan: Seq<(usize, u64)>) -> nat
    decreases plan.len(),
{
    if plan.len() == 0 {
        0
    } else {
        let w = slug_width(entries, plan.drop_last());
        let l = entries[plan.last().0 as int].slug@.len();
        if l > w { l } else { w }
    }
}

/// Name what the sweep stops, always: its blast radius reaches other people's work,
/// and a count cannot be checked against what you know about who is doing what.
pub fn sweep_report(entries: &Vec<Entry>, plan: &SweepPlan, dry_run: bool) -> (lines: Vec<String>)
    requires
        forall|k: int| 0 <= k < plan.doomed@.len() ==> (#[trigger] plan.doomed@[k]).0 < entries@.len(),
    ensures
        texts(lines@) == sweep_report_of(entries@, plan.doomed@, plan.running as nat, dry_run),
{
    let mut lines: Vec<String> = Vec::new();
    if plan.doomed.len() == 0 {
        let mut l = owned("nothing to stop — ");
        let r = decimal_text(plan.running as u64);
        push_text(&mut l, r.as_str());
        push_text(&mut l, " running");
        lines.push(l);
        assert(texts(lines@) =~= sweep_report_of(entries@, plan.doomed@, plan.running as nat, dry_run));
        return lines;
    }
    let mut width: usize = 0;
    let mut k: usize = 0;
    while k < plan.doomed.len()
        invariant
            k <= plan.doomed@.len(),
            forall|q: int| 0 <= q < plan.doomed@.len() ==> (#[trigger] plan.doomed@[q]).0 < entries@.len(),
            width as nat == slug_width(entries@, plan.doomed@.subrange(0, k as int)),
        decreases plan.doomed.len() - k,
    {
        assert(plan.doomed@.subrange(0, k + 1).drop_last() =~= plan.doomed@.subrange(0, k as int));
        let l = chars_of(entries[plan.doomed[k].0].slug.as_str()).len();
        if l > width {
            width = l;
        }
        k += 1;
    }
    assert(plan.doomed@.subrange(0, plan.doomed@.len() as int) =~= plan.doomed@);
    let verb = if dry_run { "would stop" } else { "stopped" };
    let mut k: usize = 0;
    while k < plan.doomed.len()
        invariant
            k <= plan.doomed@.len(),
            forall|q: int| 0 <= q < plan.doomed@.len() ==> (#[trigger] plan.doomed@[q]).0 < entries@.len(),
            width as nat == slug_width(entries@, plan.doomed@),
            verb@ == (if dry_run { "would stop"@ } else { "stopped"@ }),
            lines@.len() == k,
            forall|q: int| 0 <= q < k ==> (#[trigger] lines@[q])@ == verb@ + " "@
                + padded(entries@[plan.doomed@[q].0 as int].slug@, width as nat)
                + "  (idle "@ + age_text(plan.doomed@[q].1 as nat) + ")"@,
        decreases plan.doomed.len() - k,
    {
        let mut l = owned(verb);
        push_text(&mut l, " ");
        let p = pad(entries[plan.doomed[k].0].slug.as_str(), width);
        push_text(&mut l, p.as_str());
        push_text(&mut l, "  (idle ");
        let a = human_age(plan.doomed[k].1);
        push_text(&mut l, a.as_str());
        push_text(&mut l, ")");
        lines.push(l);
        k += 1;
    }
    let ghost named = texts(lines@);
    assert(named =~= Seq::new(plan.doomed@.len(), |k: int| verb@ + " "@ + padded(entries@[plan.doomed@[k].0 as int].slug@, slug_width(entries@, plan.doomed@))
        + "  (idle "@ + age_text(plan.doomed@[k].1 as nat) + ")"@));
    if dry_run {
        proof { reveal_strlit(""); }
        lines.push(owned(""));
        assert(lines@[lines@.len() - 1]@ =~= Seq::<char>::empty());
        let mut l = decimal_text(plan.doomed.len() as u64);
        push_text(&mut l, " of ");
        let r = decimal_text(plan.running as u64);
        push_text(&mut l, r.as_str());
        push_text(&mut l, " running. Nothing stopped (--dry-run).");
        lines.push(l);
    }
    assert(texts(lines@) =~= sweep_report_of(entries@, plan.doomed@, plan.running as nat, dry_run));
    lines
}

/// What a sweep says once it has stopped what it named.
pub fn sweep_summary(plan: &SweepPlan) -> (lines: Vec<String>)
    requires
        plan.doomed@.len() <= plan.running,
    ensures
        texts(lines@) == seq![Seq::<char>::empty(), decimal(plan.doomed@.len()) + " stopped, ports kept. "@
            + decimal((plan.running - plan.doomed@.len()) as nat) + " still running."@],
{
    proof { reveal_strlit(""); }
    let mut lines: Vec<String> = Vec::new();
    lines.push(owned(""));
    assert(lines@[0]@ =~= Seq::<char>::empty());
    let mut l = decimal_text(plan.doomed.len() as u64);
    push_text(&mut l, " stopped, ports kept. ");
    let rest = decimal_text((plan.running - plan.doomed.len()) as u64);
    push_text(&mut l, rest.as_str());
    push_text(&mut l, " still running.");
    lines.push(l);
    assert(texts(lines@) =~= seq![Seq::<char>::empty(), decimal(plan.doomed@.len()) + " stopped, ports kept. "@
        + decimal((plan.running - plan.doomed@.len()) as nat) + " still running."@]);
    lines
}

/// Rank keys for `ls`: running instances first, then the longest idle, then by slug.
pub open spec fn ls_ranks(entries: Seq<Entry>, facts: Seq<EntryFacts>, now: u64) -> Seq<RankView> {
    Seq::new(entries.len(), |i: int| RankView {
        running: live(facts[i]),
        age: match age_of(entries[i], facts[i], now) { Some(a) => a, None => 0 },
        name: entries[i].slug@,
    })
}

/// `0, 1, ..., n - 1`.
pub open spec fn positions(n: nat) -> Seq<usize> {
    Seq::new(n, |i: int| i as usize)
}

/// The order `ls` lists entries in: most neglected first. Eighteen rows with the stale
/// ones scattered through them is how a pile-up goes unnoticed; instances still in use
/// sort last, since they are nobody's candidate.
pub fn ls_order(entries: &Vec<Entry>, facts: &Vec<EntryFacts>, now: u64) -> (order: Vec<usize>)
    requires
        facts@.len() == entries@.len(),
    ensures
        order@ == ranked(ls_ranks(entries@, facts@, now), positions(entries@.len())),
{
    let mut keys: Vec<RankKey> = Vec::new();
    let mut items: Vec<usize> = Vec::new();
    let mut i: usize = 0;
    while i < entries.len()
        invariant
            i <= entries.len(),
            facts@.len() == entries@.len(),
            keys@.len() == i,
            items@ == positions(i as nat),
            forall|k: int| 0 <= k < i ==> (#[trigger] keys@[k])@ == ls_ranks(entries@, facts@, now)[k],
        decreases entries.len() - i,
    {
        let running = entries[i].is_running(&facts[i].alive);
        let age = match entries[i].idle_seconds(now, &facts[i].logs) { Some(a) => a, None => 0 };
        keys.push(RankKey { running, age, name: entries[i].slug.clone() });
        items.push(i);
        assert(items@ =~= positions((i + 1) as nat));
        i += 1;
    }
    assert(rank_views(keys@) =~= ls_ranks(entries@, facts@, now));
    rank(&keys, &items)
}

/// What `ls` says of an instance's processes. Ask the processes, not the record: a
/// recorded pid says only that a service was started once.
pub open spec fn ls_state(f: EntryFacts) -> Seq<char> {
    let n = live_count(f.alive@);
    if !f.present {
        "orphaned ("@ + decimal(n) + ")"@
    } else if n > 0 {
        "running ("@ + decimal(n) + ")"@
    } else {
        "stopped"@
    }
}

/// The idle column: only for what is running.
pub open spec fn ls_idle(e: Entry, f: EntryFacts, now: u64) -> Seq<char> {
    if live_count(f.alive@) > 0 && age_of(e, f, now) is Some {
        "idle "@ + age_text(age_of(e, f, now)->0 as nat)
    } else {
        Seq::empty()
    }
}

/// Words joined by single spaces.
pub open spec fn space_joined(s: Seq<Seq<char>>) -> Seq<char>
    decreases s.len(),
{
    if s.len() == 0 {
        Seq::empty()
    } else if s.len() == 1 {
        s[0]
    } else {
        space_joined(s.drop_last()) + " "@ + s.last()
    }
}

/// `name=port`, one per port, joined by spaces.
pub open spec fn port_list(ports: Seq<(String, u16)>) -> Seq<char>
    decreases ports.len(),
{
    if ports.len() == 0 {
        Seq::empty()
    } else {
        let word = ports.last().0@ + "="@ + decimal(ports.last().1 as nat);
        if ports.len() == 1 { word } else { port_list(ports.drop_last()) + " "@ + word }
    }
}

/// One row of `ls`.
pub open spec fn ls_row_of(e: Entry, f: EntryFacts, now: u64) -> Seq<char> {
    padded(e.slug@, 28) + " "@ + padded(ls_state(f), 13) + " "@ + padded(ls_idle(e, f, now), 10) + " "@ + port_list(e.ports@)
        + ls_exposure(e)
}

/// What a row says of an exposed instance: the host it is reached at.
pub open spec fn ls_exposure(e: Entry) -> Seq<char> {
    match e.exposure {
        crate::exposure::Exposure::Exposed { public_host } => " exposed "@ + public_host@,
        crate::exposure::Exposure::Local => Seq::empty(),
    }
}

fn count_alive(alive: &Vec<bool>) -> (n: usize)
    ensures
        n as nat == live_count(alive@),
        (n > 0) == (exists|i: int| 0 <= i < alive@.len() && alive@[i]),
{
    let mut n: usize = 0;
    let mut i: usize = 0;
    while i < alive.len()
        invariant
            i <= alive.len(),
            n <= i,
            n as nat == live_count(alive@.subrange(0, i as int)),
            (n > 0) == (exists|j: int| 0 <= j < i && alive@[j]),
        decreases alive.len() - i,
    {
        assert(alive@.subrange(0, i + 1).drop_last() =~= alive@.subrange(0, i as int));
        if alive[i] {
            n += 1;
        }
        i += 1;
    }
    assert(alive@.subrange(0, alive@.len() as int) =~= alive@);
    n
}

fn port_list_exec(ports: &Vec<(String, u16)>) -> (s: String)
    ensures
        s@ == port_list(ports@),
{
    proof { reveal_strlit(""); }
    let mut s = owned("");
    let mut i: usize = 0;
    while i < ports.len()
        invariant
            i <= ports.len(),
            s@ == port_list(ports@.subrange(0, i as int)),
        decreases ports.len() - i,
    {
        assert(ports@.subrange(0, i + 1).drop_last() =~= ports@.subrange(0, i as int));
        if i > 0 {
            push_text(&mut s, " ");
        } else {
            assert(s@ =~= Seq::<char>::empty());
        }
        push_text(&mut s, ports[i].0.as_str());
        push_text(&mut s, "=");
        let p = decimal_text(ports[i].1 as u64);
        push_text(&mut s, p.as_str());
        i += 1;
    }
    assert(ports@.subrange(0, ports@.len() as int) =~= ports@);
    s
}

/// One row of `ls`: slug, state, idle age, ports.
pub fn ls_row(entry: &Entry, facts: &EntryFacts, now: u64) -> (row: String)
    ensures
        row@ == ls_row_of(*entry, *facts, now),
{
    let live = count_alive(&facts.alive);
    let mut state: String;
    if !facts.present {
        state = owned("orphaned (");
        let n = decimal_text(live as u64);
        push_text(&mut state, n.as_str());
        push_text(&mut state, ")");
    } else if live > 0 {
        state = owned("running (");
        let n = decimal_text(live as u64);
        push_text(&mut state, n.as_str());
        push_text(&mut state, ")");
    } else {
        state = owned("stopped");
    }
    proof { reveal_strlit(""); }
    let idle = match entry.idle_seconds(now, &facts.logs) {
        Some(age) => {
            if live > 0 {
                let mut t = owned("idle ");
                let a = human_age(age);
                push_text(&mut t, a.as_str());
                t
            } else {
                owned("")
            }
        },
        None => owned(""),
    };
    assert(idle@ =~= ls_idle(*entry, *facts, now));
    let mut row = pad(entry.slug.as_str(), 28);
    push_text(&mut row, " ");
    let st = pad(state.as_str(), 13);
    push_text(&mut row, st.as_str());
    push_text(&mut row, " ");
    let id = pad(idle.as_str(), 10);
    push_text(&mut row, id.as_str());
    push_text(&mut row, " ");
    let ports = port_list_exec(&entry.ports);
    push_text(&mut row, ports.as_str());
    match &entry.exposure {
        crate::exposure::Exposure::Exposed { public_host } => {
            push_text(&mut row, " exposed ");
            push_text(&mut row, public_host.as_str());
        },
        crate::exposure::Exposure::Local => {
            assert(row@ =~= row@ + Seq::<char>::empty());
        },
    }
    row
}

/// How many entries' worktrees are gone.
pub open spec fn orphan_count(facts: Seq<EntryFacts>) -> nat
    decreases facts.len(),
{
    if facts.len() == 0 { 0 } else { orphan_count(facts.drop_last()) + if facts.last().present { 0nat } else { 1nat } }
}

/// Everything `ls` prints: the rows in `order`, what is orphaned, and — where someone
/// deciding what to stop is already looking — the machine's state, with the call to
/// action only when there is a pile-up to act on.
pub open spec fn ls_lines_of(entries: Seq<Entry>, facts: Seq<EntryFacts>, order: Seq<usize>, now: u64, m: &Machine) -> Seq<Seq<char>> {
    let head: Seq<Seq<char>> = if entries.len() == 0 { seq!["no instances"@] } else { Seq::empty() };
    let rows = Seq::new(order.len(), |k: int| ls_row_of(entries[order[k] as int], facts[order[k] as int], now));
    let orphans = orphan_count(facts);
    let orphan_note: Seq<Seq<char>> = if orphans > 0 {
        seq![Seq::empty(), decimal(orphans) + " orphaned — their worktree is gone. `grove prune` stops them."@]
    } else {
        Seq::empty()
    };
    let footer: Seq<Seq<char>> = if entries.len() > 0 {
        seq![Seq::empty(), headline_of(m)] + if warn_when(m.load, m.running as nat) {
            match prescription_of(m) { Some(p) => p, None => Seq::empty() }
        } else {
            Seq::empty()
        }
    } else {
        Seq::empty()
    };
    head + rows + orphan_note + footer
}

proof fn lemma_texts_push(s: Seq<String>, x: String)
    ensures
        texts(s.push(x)) == texts(s).push(x@),
{
    assert(texts(s.push(x)) =~= texts(s).push(x@));
}

fn push_all(lines: &mut Vec<String>, more: Vec<String>)
    ensures
        texts(final(lines)@) == texts(old(lines)@) + texts(more@),
{
    let ghost start = texts(lines@);
    let mut i: usize = 0;
    while i < more.len()
        invariant
            i <= more.len(),
            texts(lines@) == start + texts(more@).subrange(0, i as int),
        decreases more.len() - i,
    {
        let ghost before = lines@;
        lines.push(more[i].clone());
        proof { lemma_texts_push(before, more@[i as int]); }
        assert(texts(lines@) =~= start + texts(more@).subrange(0, i + 1));
        i += 1;
    }
    assert(texts(more@).subrange(0, i as int) =~= texts(more@));
}

/// The whole `ls` report.
pub fn ls_lines(entries: &Vec<Entry>, facts: &Vec<EntryFacts>, order: &Vec<usize>, now: u64, machine: &Machine) -> (lines: Vec<String>)
    requires
        facts@.len() == entries@.len(),
        forall|k: int| 0 <= k < order@.len() ==> #[trigger] order@[k] < entries@.len(),
    ensures
        texts(lines@) == ls_lines_of(entries@, facts@, order@, now, machine),
{
    let mut lines: Vec<String> = Vec::new();
    if entries.len() == 0 {
        lines.push(owned("no instances"));
    }
    let mut k: usize = 0;
    let ghost head = texts(lines@);
    while k < order.len()
        invariant
            k <= order.len(),
            facts@.len() == entries@.len(),
            forall|q: int| 0 <= q < order@.len() ==> #[trigger] order@[q] < entries@.len(),
            texts(lines@) == head + Seq::new(k as nat, |q: int| ls_row_of(entries@[order@[q] as int], facts@[order@[q] as int], now)),
        decreases order.len() - k,
    {
        let row = ls_row(&entries[order[k]], &facts[order[k]], now);
        let ghost before = lines@;
        proof { lemma_texts_push(before, row); }
        lines.push(row);
        assert(texts(lines@) =~= head + Seq::new((k + 1) as nat, |q: int| ls_row_of(entries@[order@[q] as int], facts@[order@[q] as int], now)));
        k += 1;
    }
    let mut orphans: usize = 0;
    let mut i: usize = 0;
    while i < facts.len()
        invariant
            i <= facts.len(),
            orphans <= i,
            orphans as nat == orphan_count(facts@.subrange(0, i as int)),
        decreases facts.len() - i,
    {
        assert(facts@.subrange(0, i + 1).drop_last() =~= facts@.subrange(0, i as int));
        if !facts[i].present {
            orphans += 1;
        }
        i += 1;
    }
    assert(facts@.subrange(0, facts@.len() as int) =~= facts@);
    proof { reveal_strlit(""); }
    let ghost rows = texts(lines@);
    if orphans > 0 {
        let e = owned("");
        assert(e@ =~= Seq::<char>::empty());
        proof { lemma_texts_push(lines@, e); }
        lines.push(e);
        let mut l = decimal_text(orphans as u64);
        push_text(&mut l, " orphaned — their worktree is gone. `grove prune` stops them.");
        proof { lemma_texts_push(lines@, l); }
        lines.push(l);
        assert(texts(lines@) =~= rows + seq![Seq::<char>::empty(), decimal(orphans as nat)
            + " orphaned — their worktree is gone. `grove prune` stops them."@]);
    } else {
        assert(texts(lines@) =~= rows + Seq::<Seq<char>>::empty());
    }
    let ghost noted = texts(lines@);
    if entries.len() > 0 {
        let e = owned("");
        assert(e@ =~= Seq::<char>::empty());
        proof { lemma_texts_push(lines@, e); }
        lines.push(e);
        let h = machine.headline();
        proof { lemma_texts_push(lines@, h); }
        lines.push(h);
        assert(texts(lines@) =~= noted + seq![Seq::<char>::empty(), headline_of(machine)]);
        let ghost headed = texts(lines@);
        if machine.crowded() {
            match machine.prescription() {
                Some(p) => { push_all(&mut lines, p); },
                None => {},
            }
        }
        assert(texts(lines@) =~= noted + (seq![Seq::<char>::empty(), headline_of(machine)] + if warn_when(machine.load, machine.running as nat) {
            match prescription_of(machine) { Some(p) => p, None => Seq::<Seq<char>>::empty() }
        } else {
            Seq::<Seq<char>>::empty()
        }));
    } else {
        assert(texts(lines@) =~= noted + Seq::<Seq<char>>::empty());
    }
    assert(texts(lines@) =~= ls_lines_of(entries@, facts@, order@, now, machine));
    lines
}

/// What `up` says before starting, when the machine is worth a word: the headline,
/// and what could be reclaimed. The pile-up forms one agent at a time, and this is the
/// only moment the one adding to it is paying attention.
pub open spec fn up_warning_of(m: &Machine) -> Seq<Seq<char>> {
    if warn_when(m.load, m.running as nat) {
        seq!["warning: "@ + headline_of(m)] + match prescription_of(m) { Some(p) => p, None => Seq::empty() }
    } else {
        Seq::empty()
    }
}

pub fn up_warning(machine: &Machine) -> (lines: Vec<String>)
    ensures
        texts(lines@) == up_warning_of(machine),
{
    let mut lines: Vec<String> = Vec::new();
    if machine.crowded() {
        let mut l = owned("warning: ");
        let h = machine.headline();
        push_text(&mut l, h.as_str());
        lines.push(l);
        match machine.prescription() {
            Some(p) => { push_all(&mut lines, p); },
            None => {},
        }
    }
    assert(texts(lines@) =~= up_warning_of(machine));
    lines
}

/// What `grove run` adds after its command: only on failure, and only on a buried
/// machine — a note after every green run is wallpaper by the second day.
pub open spec fn run_note_of(succeeded: bool, m: &Machine) -> Seq<Seq<char>> {
    if !succeeded && warn_when(m.load, m.running as nat) {
        seq![
            "note: "@ + headline_of(m),
            "  a timeout here may be the machine rather than your branch — `grove ls`"@,
        ]
    } else {
        Seq::empty()
    }
}

pub fn run_note(succeeded: bool, machine: &Machine) -> (lines: Vec<String>)
    ensures
        texts(lines@) == run_note_of(succeeded, machine),
{
    let mut lines: Vec<String> = Vec::new();
    if !succeeded && machine.crowded() {
        let mut l = owned("note: ");
        let h = machine.headline();
        push_text(&mut l, h.as_str());
        lines.push(l);
        lines.push(owned("  a timeout here may be the machine rather than your branch — `grove ls`"));
    }
    assert(texts(lines@) =~= run_note_of(succeeded, machine));
    lines
}

/// Why `down --purge` refuses to sweep: dropping every swept instance's database would
/// mean loading each worktree's config to find its datastore, and refusing is better
/// than a flag that silently does nothing.
pub open spec fn purge_refusal() -> Seq<char> {
    "--purge drops one instance's database, and grove would have to load every worktree's config to find the others'\nrun `grove down --purge` in each worktree whose data you want gone"@
}

pub fn refuse_purging_a_sweep(purge: bool, idle: bool, all_but_this: bool) -> (r: Option<String>)
    ensures
        match r {
            Some(m) => purge && (idle || all_but_this) && m@ == purge_refusal(),
            None => !(purge && (idle || all_but_this)),
        },
{
    if purge && (idle || all_but_this) {
        Some(owned("--purge drops one instance's database, and grove would have to load every worktree's config to find the others'\nrun `grove down --purge` in each worktree whose data you want gone"))
    } else {
        None
    }
}

/// What `prune` says of one orphan: what became of it and its ports, then its
/// database by name, whatever happens to it. It outlives the worktree either way, and
/// a number nobody named is a number nobody audits.
pub open spec fn prune_block(e: Entry, dry_run: bool, purge: bool) -> Seq<Seq<char>> {
    let verb = if dry_run { "would reclaim"@ } else { "reclaimed"@ };
    let head = seq![verb + " "@ + padded(e.slug@, 28) + " "@ + port_list(e.ports@)];
    match e.db_name {
        None => head,
        Some(d) => head.push(if purge {
            "  database "@ + d@ + " left in place \u{2014} this instance predates grove recording its datastore, so grove cannot reach it"@
        } else {
            "  database "@ + d@ + " left in place (--purge drops it)"@
        }),
    }
}

pub open spec fn prune_blocks(orphans: Seq<Entry>, dry_run: bool, purge: bool) -> Seq<Seq<char>>
    decreases orphans.len(),
{
    if orphans.len() == 0 {
        Seq::empty()
    } else {
        prune_blocks(orphans.drop_last(), dry_run, purge) + prune_block(orphans.last(), dry_run, purge)
    }
}

/// The whole `prune` report for the orphans found (a dry run) or reaped.
pub open spec fn prune_report_of(orphans: Seq<Entry>, dry_run: bool, purge: bool) -> Seq<Seq<char>> {
    if orphans.len() == 0 {
        seq!["nothing to reclaim"@]
    } else if dry_run {
        prune_blocks(orphans, dry_run, purge) + seq![Seq::empty(), decimal(orphans.len()) + " orphaned. Nothing reclaimed (--dry-run)."@]
    } else {
        prune_blocks(orphans, dry_run, purge)
    }
}

pub fn prune_report(orphans: &Vec<Entry>, dry_run: bool, purge: bool) -> (lines: Vec<String>)
    ensures
        texts(lines@) == prune_report_of(orphans@, dry_run, purge),
{
    let mut lines: Vec<String> = Vec::new();
    if orphans.len() == 0 {
        lines.push(owned("nothing to reclaim"));
        assert(texts(lines@) =~= prune_report_of(orphans@, dry_run, purge));
        return lines;
    }
    let mut i: usize = 0;
    while i < orphans.len()
        invariant
            i <= orphans.len(),
            texts(lines@) == prune_blocks(orphans@.subrange(0, i as int), dry_run, purge),
        decreases orphans.len() - i,
    {
        let e = &orphans[i];
        let mut l = if dry_run { owned("would reclaim ") } else { owned("reclaimed ") };
        let slug = pad(e.slug.as_str(), 28);
        push_text(&mut l, slug.as_str());
        push_text(&mut l, " ");
        let ports = port_list_exec(&e.ports);
        push_text(&mut l, ports.as_str());
        proof {
            reveal_strlit("would reclaim ");
            reveal_strlit("would reclaim");
            reveal_strlit("reclaimed ");
            reveal_strlit("reclaimed");
            reveal_strlit(" ");
        }
        assert(l@ =~= prune_block(orphans@[i as int], dry_run, purge)[0]);
        let ghost before = lines@;
        lines.push(l);
        proof { lemma_texts_push(before, lines@[lines@.len() - 1]); }
        match &e.db_name {
            None => {},
            Some(d) => {
                let mut m = owned("  database ");
                push_text(&mut m, d.as_str());
                if purge {
                    push_text(&mut m, " left in place \u{2014} this instance predates grove recording its datastore, so grove cannot reach it");
                } else {
                    push_text(&mut m, " left in place (--purge drops it)");
                }
                assert(m@ =~= prune_block(orphans@[i as int], dry_run, purge)[1]);
                let ghost mid = lines@;
                lines.push(m);
                proof { lemma_texts_push(mid, lines@[lines@.len() - 1]); }
            },
        }
        assert(orphans@.subrange(0, i + 1).drop_last() =~= orphans@.subrange(0, i as int));
        assert(texts(lines@) =~= prune_blocks(orphans@.subrange(0, i as int), dry_run, purge)
            + prune_block(orphans@[i as int], dry_run, purge));
        i += 1;
    }
    assert(orphans@.subrange(0, orphans@.len() as int) =~= orphans@);
    if dry_run {
        proof { reveal_strlit(""); }
        let ghost before = lines@;
        lines.push(owned(""));
        proof { lemma_texts_push(before, lines@[lines@.len() - 1]); }
        let mut l = decimal_text(orphans.len() as u64);
        push_text(&mut l, " orphaned. Nothing reclaimed (--dry-run).");
        assert(lines@[lines@.len() - 1]@ =~= Seq::<char>::empty());
        let ghost mid = lines@;
        lines.push(l);
        proof { lemma_texts_push(mid, lines@[lines@.len() - 1]); }
    }
    assert(texts(lines@) =~= prune_report_of(orphans@, dry_run, purge));
    lines
}

proof fn lemma_ranks_asymmetric(a: RankView, b: RankView)
    requires
        ranks_before(a, b),
    ensures
        !ranks_before(b, a),
{
    if a.running == b.running && a.age == b.age {
        crate::table::lemma_lex_asymmetric(a.name, b.name);
    }
}

proof fn lemma_ranks_transitive(a: RankView, b: RankView, c: RankView)
    requires
        ranks_before(a, b),
        ranks_before(b, c),
    ensures
        ranks_before(a, c),
{
    if a.running == b.running && b.running == c.running && a.age == b.age && b.age == c.age {
        crate::table::lemma_lex_transitive(a.name, b.name, c.name);
    }
}

/// No later item belongs before an earlier one.
pub open spec fn in_rank_order(keys: Seq<RankView>, s: Seq<usize>) -> bool {
    forall|a: int, b: int| 0 <= a < b < s.len() ==> !ranks_before(#[trigger] keys[s[b] as int], #[trigger] keys[s[a] as int])
}

proof fn lemma_place_contains(keys: Seq<RankView>, s: Seq<usize>, x: usize)
    ensures
        place(keys, s, x).contains(x),
        forall|q: int| 0 <= q < s.len() ==> place(keys, s, x).contains(#[trigger] s[q]),
    decreases s.len(),
{
    let r = place(keys, s, x);
    if s.len() == 0 {
        assert(r[0] == x);
    } else if ranks_before(keys[x as int], keys[s[0] as int]) {
        assert(r[0] == x);
        assert forall|q: int| 0 <= q < s.len() implies r.contains(#[trigger] s[q]) by {
            assert(r[q + 1] == s[q]);
        }
    } else {
        let t = s.drop_first();
        lemma_place_contains(keys, t, x);
        let pt = place(keys, t, x);
        let wx = choose|w: int| 0 <= w < pt.len() && pt[w] == x;
        assert(r[wx + 1] == x);
        assert forall|q: int| 0 <= q < s.len() implies r.contains(#[trigger] s[q]) by {
            if q == 0 {
                assert(r[0] == s[0]);
            } else {
                assert(t[q - 1] == s[q]);
                let w = choose|w: int| 0 <= w < pt.len() && pt[w] == t[q - 1];
                assert(r[w + 1] == s[q]);
            }
        }
    }
}

proof fn lemma_ranked_contains(keys: Seq<RankView>, s: Seq<usize>)
    ensures
        forall|q: int| 0 <= q < s.len() ==> ranked(keys, s).contains(#[trigger] s[q]),
    decreases s.len(),
{
    if s.len() > 0 {
        let prev = s.drop_last();
        lemma_ranked_contains(keys, prev);
        lemma_place_contains(keys, ranked(keys, prev), s.last());
        let r = ranked(keys, s);
        assert forall|q: int| 0 <= q < s.len() implies r.contains(#[trigger] s[q]) by {
            if q < s.len() - 1 {
                assert(prev[q] == s[q]);
                let rp = ranked(keys, prev);
                let w = choose|w: int| 0 <= w < rp.len() && rp[w] == prev[q];
                assert(rp.contains(rp[w]));
            }
        }
    }
}

proof fn lemma_place_in_order(keys: Seq<RankView>, s: Seq<usize>, x: usize)
    requires
        in_rank_order(keys, s),
    ensures
        in_rank_order(keys, place(keys, s, x)),
    decreases s.len(),
{
    let r = place(keys, s, x);
    if s.len() == 0 {
    } else if ranks_before(keys[x as int], keys[s[0] as int]) {
        assert forall|a: int, b: int| 0 <= a < b < r.len() implies !ranks_before(#[trigger] keys[r[b] as int], #[trigger] keys[r[a] as int]) by {
            if a == 0 {
                if ranks_before(keys[r[b] as int], keys[x as int]) {
                    assert(r[b] == s[b - 1]);
                    lemma_ranks_transitive(keys[s[b - 1] as int], keys[x as int], keys[s[0] as int]);
                    if b - 1 == 0 {
                        lemma_ranks_asymmetric(keys[s[0] as int], keys[s[0] as int]);
                    }
                }
            } else {
                assert(r[a] == s[a - 1] && r[b] == s[b - 1]);
            }
        }
    } else {
        let t = s.drop_first();
        assert(in_rank_order(keys, t)) by {
            assert forall|a: int, b: int| 0 <= a < b < t.len() implies !ranks_before(#[trigger] keys[t[b] as int], #[trigger] keys[t[a] as int]) by {
                assert(t[a] == s[a + 1] && t[b] == s[b + 1]);
            }
        }
        lemma_place_in_order(keys, t, x);
        lemma_place_members(keys, t, x);
        let pt = place(keys, t, x);
        assert forall|a: int, b: int| 0 <= a < b < r.len() implies !ranks_before(#[trigger] keys[r[b] as int], #[trigger] keys[r[a] as int]) by {
            if a == 0 {
                assert(r[a] == s[0]);
                assert(r[b] == pt[b - 1]);
                if pt[b - 1] != x {
                    let q2 = choose|q2: int| 0 <= q2 < t.len() && t[q2] == pt[b - 1];
                    assert(t[q2] == s[q2 + 1]);
                }
            } else {
                assert(r[a] == pt[a - 1] && r[b] == pt[b - 1]);
            }
        }
    }
}

/// A ranked list is in rank order.
proof fn lemma_ranked_in_order(keys: Seq<RankView>, s: Seq<usize>)
    ensures
        in_rank_order(keys, ranked(keys, s)),
    decreases s.len(),
{
    if s.len() > 0 {
        lemma_ranked_in_order(keys, s.drop_last());
        lemma_place_in_order(keys, ranked(keys, s.drop_last()), s.last());
    }
}

/// An index a candidate list holds names a candidate.
proof fn lemma_sweep_candidate(entries: Seq<Entry>, facts: Seq<EntryFacts>, here: Seq<char>, window: Option<u64>, now: u64, q: int)
    requires
        0 <= q < sweep_candidates(entries, facts, here, window, now).len(),
        entries.len() <= usize::MAX,
    ensures
        ({
            let i = sweep_candidates(entries, facts, here, window, now)[q] as int;
            0 <= i < entries.len() && doomed(entries[i], facts[i], here, window, now)
        }),
    decreases entries.len(),
{
    let n = (entries.len() - 1) as int;
    let rest = sweep_candidates(entries.drop_last(), facts, here, window, now);
    let cands = sweep_candidates(entries, facts, here, window, now);
    if q < rest.len() {
        lemma_sweep_candidate(entries.drop_last(), facts, here, window, now, q);
        let i = rest[q] as int;
        assert(entries.drop_last()[i] == entries[i]);
        if doomed(entries[n], facts[n], here, window, now) {
            assert(cands[q] == rest[q]);
        }
    } else {
        if !doomed(entries[n], facts[n], here, window, now) {
            assert(cands == rest);
        }
        assert(cands[q] == n as usize);
    }
}

/// A sweep never stops the instance the caller stands in, stops only running ones,
/// and with a window only those idle at least that long — no evidence either way is
/// not evidence of neglect.
pub proof fn law_sweep_spares_where_you_stand(entries: Seq<Entry>, facts: Seq<EntryFacts>, here: Seq<char>, window: Option<u64>, now: u64, k: int)
    requires
        entries.len() <= usize::MAX,
        0 <= k < sweep_order(entries, facts, here, window, now).len(),
    ensures
        ({
            let (i, age) = sweep_order(entries, facts, here, window, now)[k];
            &&& (i as int) < entries.len()
            &&& !same_path(entries[i as int].worktree@, here)
            &&& live(facts[i as int])
            &&& (window matches Some(w) ==> (age_of(entries[i as int], facts[i as int], now) == Some(age) && age >= w))
        }),
{
    let keys = age_ranks(entries, facts, now);
    let cands = sweep_candidates(entries, facts, here, window, now);
    lemma_ranked_members(keys, cands, entries.len());
    let order = ranked(keys, cands);
    let p = choose|p: int| 0 <= p < cands.len() && cands[p] == #[trigger] order[k];
    lemma_sweep_candidate(entries, facts, here, window, now, p);
}

/// A sweep names the longest idle first.
pub proof fn law_sweep_names_the_longest_idle_first(entries: Seq<Entry>, facts: Seq<EntryFacts>, here: Seq<char>, window: Option<u64>, now: u64, a: int, b: int)
    requires
        entries.len() <= usize::MAX,
        0 <= a < b < sweep_order(entries, facts, here, window, now).len(),
    ensures
        sweep_order(entries, facts, here, window, now)[a].1 >= sweep_order(entries, facts, here, window, now)[b].1,
{
    let keys = age_ranks(entries, facts, now);
    let cands = sweep_candidates(entries, facts, here, window, now);
    lemma_ranked_in_order(keys, cands);
    lemma_ranked_members(keys, cands, entries.len());
    let order = ranked(keys, cands);
    let pa = choose|p: int| 0 <= p < cands.len() && cands[p] == #[trigger] order[a];
    let pb = choose|p: int| 0 <= p < cands.len() && cands[p] == #[trigger] order[b];
    lemma_sweep_candidate(entries, facts, here, window, now, pa);
    lemma_sweep_candidate(entries, facts, here, window, now, pb);
    assert(!ranks_before(keys[order[b] as int], keys[order[a] as int]));
}

/// `ls` lists every instance in the registry.
pub proof fn law_ls_lists_every_instance(entries: Seq<Entry>, facts: Seq<EntryFacts>, now: u64, i: int)
    requires
        entries.len() <= usize::MAX,
        0 <= i < entries.len(),
    ensures
        ranked(ls_ranks(entries, facts, now), positions(entries.len())).contains(i as usize),
{
    lemma_ranked_contains(ls_ranks(entries, facts, now), positions(entries.len()));
    assert(positions(entries.len())[i] == i as usize);
}

/// `ls` puts the most neglected first: a running instance is never listed after a
/// stopped one, and among those alike the longer idle comes first.
pub proof fn law_ls_puts_the_most_neglected_first(entries: Seq<Entry>, facts: Seq<EntryFacts>, now: u64, a: int, b: int)
    requires
        facts.len() == entries.len(),
        entries.len() <= usize::MAX,
        0 <= a < b < entries.len(),
    ensures
        ({
            let order = ranked(ls_ranks(entries, facts, now), positions(entries.len()));
            let (x, y) = (order[a] as int, order[b] as int);
            &&& live(facts[y]) ==> live(facts[x])
            &&& live(facts[x]) == live(facts[y]) ==> (match age_of(entries[x], facts[x], now) { Some(t) => t, None => 0 })
                    >= (match age_of(entries[y], facts[y], now) { Some(t) => t, None => 0 })
        }),
{
    let keys = ls_ranks(entries, facts, now);
    let items = positions(entries.len());
    lemma_ranked_in_order(keys, items);
    lemma_ranked_members(keys, items, entries.len());
    let order = ranked(keys, items);
    let pa = choose|p: int| 0 <= p < items.len() && items[p] == #[trigger] order[a];
    let pb = choose|p: int| 0 <= p < items.len() && items[p] == #[trigger] order[b];
    assert(!ranks_before(keys[order[b] as int], keys[order[a] as int]));
}

proof fn lemma_idle_candidate(entries: Seq<Entry>, facts: Seq<EntryFacts>, exclude: Option<Seq<char>>, now: u64, q: int)
    requires
        0 <= q < idle_candidates(entries, facts, exclude, now).len(),
        entries.len() <= usize::MAX,
    ensures
        ({
            let i = idle_candidates(entries, facts, exclude, now)[q] as int;
            &&& 0 <= i < entries.len()
            &&& live(facts[i])
            &&& exclude != Some(entries[i].worktree@)
            &&& (age_of(entries[i], facts[i], now) matches Some(a) && a >= IDLE_WINDOW_SECONDS)
        }),
    decreases entries.len(),
{
    let n = (entries.len() - 1) as int;
    let rest = idle_candidates(entries.drop_last(), facts, exclude, now);
    let cands = idle_candidates(entries, facts, exclude, now);
    let pick = live(facts[n]) && !(exclude matches Some(x) && same_path(entries[n].worktree@, x))
        && (age_of(entries[n], facts[n], now) matches Some(a) && a >= IDLE_WINDOW_SECONDS);
    if q < rest.len() {
        lemma_idle_candidate(entries.drop_last(), facts, exclude, now, q);
        let i = rest[q] as int;
        assert(entries.drop_last()[i] == entries[i]);
        if pick {
            assert(cands[q] == rest[q]);
        }
    } else {
        if !pick {
            assert(cands == rest);
        }
        assert(cands[q] == n as usize);
    }
}

/// What `survey` offers as idle is running, past the idle window, never the
/// instance the caller stands in, and oldest first.
pub proof fn law_survey_offers_only_the_idle(entries: Seq<Entry>, facts: Seq<EntryFacts>, exclude: Option<Seq<char>>, now: u64, a: int, b: int)
    requires
        entries.len() <= usize::MAX,
        0 <= a < idle_of_machine(entries, facts, exclude, now).len(),
        a <= b < idle_of_machine(entries, facts, exclude, now).len(),
    ensures
        ({
            let idle = idle_of_machine(entries, facts, exclude, now);
            &&& idle[a].1 >= IDLE_WINDOW_SECONDS
            &&& exists|i: int| 0 <= i < entries.len() && idle[a].0 == entries[i].slug@ && live(facts[i])
                && exclude != Some(entries[i].worktree@) && age_of(entries[i], facts[i], now) == Some(idle[a].1)
            &&& idle[a].1 >= idle[b].1
        }),
{
    let keys = age_ranks(entries, facts, now);
    let cands = idle_candidates(entries, facts, exclude, now);
    lemma_ranked_members(keys, cands, entries.len());
    lemma_ranked_in_order(keys, cands);
    let order = ranked(keys, cands);
    let pa = choose|p: int| 0 <= p < cands.len() && cands[p] == #[trigger] order[a];
    let pb = choose|p: int| 0 <= p < cands.len() && cands[p] == #[trigger] order[b];
    lemma_idle_candidate(entries, facts, exclude, now, pa);
    lemma_idle_candidate(entries, facts, exclude, now, pb);
    let i = order[a] as int;
    assert(idle_of_machine(entries, facts, exclude, now)[a].0 == entries[i].slug@);
    if a < b {
        assert(!ranks_before(keys[order[b] as int], keys[order[a] as int]));
    }
}

} // verus!
