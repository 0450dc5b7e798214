//! Seed markers: what a successful seed leaves behind, and when it still holds.
//!
//! A marker records the rendered command and the id of every container grove manages
//! that was observed when the seed ran. It stays valid while the command is the same
//! and every managed container still observed has the id it recorded: a datastore
//! recreated empty, or a seed whose command changed, runs again. A container that
//! cannot be observed is no evidence that its data is gone, so it invalidates nothing.

use vstd::prelude::*;
use crate::config::Resource;
use crate::render::pair_map;
use crate::resource::Observation;
use crate::table::{sorted, table_map, table_insert, table_find, compare_text, lemma_value_at, lex_lt, lemma_lex_asymmetric};
use crate::text::{owned, push_text, chars_of, trim_start, is_space, is_space_exec};

verus! {

/// What a successful seed wrote: its rendered command, and each observed managed
/// resource's container id by resource name, in name order.
#[derive(Debug)]
pub struct SeedMarker {
    pub command: String,
    pub resources: Vec<(String, String)>,
}

/// What the application found where a seed's marker lives.
#[derive(Debug)]
pub enum MarkerRead {
    /// No marker: the seed never succeeded here.
    Absent,
    /// A marker from before markers recorded resources: only the command.
    Legacy(String),
    /// A marker that records resources.
    Structured(SeedMarker),
    /// Something that looks like a structured marker and does not read as one.
    Malformed,
}

/// Text that looks like a structured marker: its first character that is not
/// whitespace is an opening brace.
pub open spec fn looks_structured(t: Seq<char>) -> bool {
    trim_start(t).len() > 0 && trim_start(t)[0] == '{'
}

proof fn lemma_trim_start_from(t: Seq<char>, i: int)
    requires
        0 <= i <= t.len(),
        forall|j: int| 0 <= j < i ==> is_space(#[trigger] t[j]),
    ensures
        trim_start(t) == trim_start(t.subrange(i, t.len() as int)),
    decreases i,
{
    if i > 0 {
        lemma_trim_start_from(t.drop_first(), i - 1);
        assert(t.drop_first().subrange(i - 1, t.drop_first().len() as int) =~= t.subrange(i, t.len() as int));
    } else {
        assert(t.subrange(0, t.len() as int) =~= t);
    }
}

/// What a marker file says. `text` is the file's content, when there is a file, and
/// `parsed` the structured marker read from it, when it reads as one; text that
/// does not read as one is a legacy marker unless it looks like a structured marker.
pub fn read_marker(text: Option<String>, parsed: Option<SeedMarker>) -> (r: MarkerRead)
    ensures
        match text {
            None => r is Absent,
            Some(t) => match parsed {
                Some(m) => r == MarkerRead::Structured(m),
                None => if looks_structured(t@) { r is Malformed } else { r matches MarkerRead::Legacy(c) && c@ == t@ },
            },
        },
{
    match text {
        None => MarkerRead::Absent,
        Some(t) => match parsed {
            Some(m) => MarkerRead::Structured(m),
            None => {
                let cs = chars_of(t.as_str());
                let mut i: usize = 0;
                while i < cs.len() && is_space_exec(cs[i])
                    invariant
                        cs@ == t@,
                        i <= cs.len(),
                        forall|j: int| 0 <= j < i ==> is_space(#[trigger] cs@[j]),
                    decreases cs.len() - i,
                {
                    i += 1;
                }
                proof { lemma_trim_start_from(t@, i as int); }
                let ghost rest = cs@.subrange(i as int, cs@.len() as int);
                assert(rest.len() > 0 ==> !is_space(rest[0]));
                assert(trim_start(rest) == rest);
                if i < cs.len() && cs[i] == '{' {
                    MarkerRead::Malformed
                } else {
                    MarkerRead::Legacy(t)
                }
            },
        },
    }
}

/// Pairs of strings seen through their views.
pub open spec fn pair_views(s: Seq<(String, String)>) -> Seq<(Seq<char>, Seq<char>)> {
    Seq::new(s.len(), |i: int| (s[i].0@, s[i].1@))
}

/// `m` with each pair of `s` inserted in turn, a later pair for the same key winning.
pub open spec fn inserted(m: Map<Seq<char>, Seq<char>>, s: Seq<(Seq<char>, Seq<char>)>) -> Map<Seq<char>, Seq<char>>
    decreases s.len(),
{
    if s.len() == 0 {
        m
    } else {
        inserted(m, s.drop_last()).insert(s.last().0, s.last().1)
    }
}

/// The resources a marker records, by name.
pub open spec fn recorded_of(m: SeedMarker) -> Map<Seq<char>, Seq<char>> {
    inserted(Map::empty(), pair_views(m.resources@))
}

/// Each resource whose container was observed, with the container's id, in config order.
pub open spec fn observed_pairs(resources: Seq<Resource>, observations: Seq<Observation>) -> Seq<(Seq<char>, Seq<char>)>
    decreases resources.len(),
{
    if resources.len() == 0 || observations.len() != resources.len() {
        Seq::empty()
    } else {
        let rest = observed_pairs(resources.drop_last(), observations.drop_last());
        match observations.last().container {
            Some(c) => rest.push((resources.last().name@, c.id@)),
            None => rest,
        }
    }
}

/// What is observed now: each resource whose container was seen, with its id; a
/// resource observed twice under one name keeps its later observation.
pub open spec fn current_of(resources: Seq<Resource>, observations: Seq<Observation>) -> Map<Seq<char>, Seq<char>> {
    inserted(Map::empty(), observed_pairs(resources, observations))
}

/// `n` is observed now with a container other than the one `recorded` names for it.
pub open spec fn recreated_in(current: Map<Seq<char>, Seq<char>>, recorded: Map<Seq<char>, Seq<char>>, n: Seq<char>) -> bool {
    current.contains_key(n) && !(recorded.contains_key(n) && recorded[n] == current[n])
}

/// `n` is recreated, and every other recreated name sorts after it.
pub open spec fn least_recreated(current: Map<Seq<char>, Seq<char>>, recorded: Map<Seq<char>, Seq<char>>, n: Seq<char>) -> bool {
    recreated_in(current, recorded, n)
        && forall|m: Seq<char>| #[trigger] recreated_in(current, recorded, m) && m != n ==> lex_lt(n, m)
}

/// The first observed resource, in name order, whose container is not the one
/// `recorded` names for it.
pub open spec fn first_recreated(current: Map<Seq<char>, Seq<char>>, recorded: Map<Seq<char>, Seq<char>>) -> Option<Seq<char>> {
    if exists|n: Seq<char>| recreated_in(current, recorded, n) {
        Some(choose|n: Seq<char>| least_recreated(current, recorded, n))
    } else {
        None
    }
}

proof fn lemma_least_is_first(current: Map<Seq<char>, Seq<char>>, recorded: Map<Seq<char>, Seq<char>>, n: Seq<char>)
    requires
        least_recreated(current, recorded, n),
    ensures
        first_recreated(current, recorded) == Some(n),
{
    let c = choose|x: Seq<char>| least_recreated(current, recorded, x);
    assert(least_recreated(current, recorded, c));
    if c != n {
        assert(lex_lt(n, c));
        assert(lex_lt(c, n));
        lemma_lex_asymmetric(n, c);
    }
}

/// Whether a marker still holds, as seen now.
pub enum MarkerState {
    /// It holds: the seed need not run.
    Valid,
    /// A legacy marker that holds: the seed need not run, and the marker is rewritten
    /// with what is observed now.
    Migrate,
    /// It does not hold; the reason, when there is one to give.
    Stale(Option<Seq<char>>),
}

/// What becomes of a marker given the command rendered now, the resources observed
/// now, and the resources this command started. A changed command is named first;
/// then a managed container that is new or has another id; a legacy marker, which
/// records no ids, is trusted only when no resource was started in this command, since
/// a started one is known to be empty.
pub open spec fn marker_state(marker: MarkerRead, command: Seq<char>, current: Map<Seq<char>, Seq<char>>, started: Seq<String>) -> MarkerState {
    match marker {
        MarkerRead::Absent => MarkerState::Stale(None),
        MarkerRead::Malformed => MarkerState::Stale(Some("seed marker was invalid"@)),
        MarkerRead::Legacy(c) => if c@ != command {
            MarkerState::Stale(Some("command changed"@))
        } else if started.len() > 0 {
            MarkerState::Stale(Some("resource "@ + started[0]@ + " was recreated"@))
        } else {
            MarkerState::Migrate
        },
        MarkerRead::Structured(m) => if m.command@ != command {
            MarkerState::Stale(Some("command changed"@))
        } else {
            match first_recreated(current, recorded_of(m)) {
                Some(n) => MarkerState::Stale(Some("resource "@ + n + " was recreated"@)),
                None => MarkerState::Valid,
            }
        },
    }
}

/// The resources a new marker records: what the old structured marker recorded, with
/// every container observed now laid over it.
pub open spec fn next_record(marker: MarkerRead, current: Map<Seq<char>, Seq<char>>) -> Map<Seq<char>, Seq<char>> {
    let prior = match marker {
        MarkerRead::Structured(m) => recorded_of(m),
        _ => Map::empty(),
    };
    prior.union_prefer_right(current)
}

/// The exec form of `MarkerState`.
#[derive(Debug)]
pub enum Freshness {
    Valid,
    Migrate,
    Stale(Option<String>),
}

impl Freshness {
    pub open spec fn is_state(&self, s: MarkerState) -> bool {
        match (self, s) {
            (Freshness::Valid, MarkerState::Valid) => true,
            (Freshness::Migrate, MarkerState::Migrate) => true,
            (Freshness::Stale(None), MarkerState::Stale(None)) => true,
            (Freshness::Stale(Some(a)), MarkerState::Stale(Some(b))) => a@ == b,
            _ => false,
        }
    }
}

proof fn lemma_insert_pair(before: Seq<(String, String)>, after: Seq<(String, String)>, k: String, v: String)
    requires
        table_map(after) == table_map(before).insert(k@, v),
    ensures
        pair_map(after) == pair_map(before).insert(k@, v@),
{
    assert(pair_map(after) =~= pair_map(before).insert(k@, v@));
}

/// Insert each pair of `s` into `table`, in turn.
fn insert_pairs(table: &mut Vec<(String, String)>, s: &Vec<(String, String)>)
    requires
        sorted(old(table)@),
    ensures
        sorted(final(table)@),
        pair_map(final(table)@) == inserted(pair_map(old(table)@), pair_views(s@)),
{
    let ghost start = pair_map(table@);
    let mut i: usize = 0;
    while i < s.len()
        invariant
            i <= s.len(),
            sorted(table@),
            pair_map(table@) == inserted(start, pair_views(s@.subrange(0, i as int))),
        decreases s.len() - i,
    {
        let ghost before = table@;
        table_insert(table, s[i].0.clone(), s[i].1.clone());
        proof {
            lemma_insert_pair(before, table@, s@[i as int].0, s@[i as int].1);
            assert(pair_views(s@.subrange(0, i + 1)).drop_last() =~= pair_views(s@.subrange(0, i as int)));
            assert(pair_views(s@.subrange(0, i + 1)).last() == (s@[i as int].0@, s@[i as int].1@));
        }
        i += 1;
    }
    assert(s@.subrange(0, s@.len() as int) =~= s@);
}

impl SeedMarker {
    /// A marker for `command` recording `resources`, a later pair for one name winning.
    pub fn new(command: String, resources: &Vec<(String, String)>) -> (m: SeedMarker)
        ensures
            m.command@ == command@,
            sorted(m.resources@),
            pair_map(m.resources@) == inserted(Map::empty(), pair_views(resources@)),
    {
        let mut table: Vec<(String, String)> = Vec::new();
        assert(pair_map(table@) =~= Map::<Seq<char>, Seq<char>>::empty());
        insert_pairs(&mut table, resources);
        SeedMarker { command, resources: table }
    }
}

/// Each resource whose container was observed, with the container's id, in config order.
pub fn observed(resources: &Vec<Resource>, observations: &Vec<Observation>) -> (r: Vec<(String, String)>)
    requires
        observations@.len() == resources@.len(),
    ensures
        pair_views(r@) == observed_pairs(resources@, observations@),
{
    let mut r: Vec<(String, String)> = Vec::new();
    let mut i: usize = 0;
    while i < resources.len()
        invariant
            i <= resources.len(),
            observations@.len() == resources@.len(),
            pair_views(r@) == observed_pairs(resources@.subrange(0, i as int), observations@.subrange(0, i as int)),
        decreases resources.len() - i,
    {
        assert(resources@.subrange(0, i + 1).drop_last() =~= resources@.subrange(0, i as int));
        assert(observations@.subrange(0, i + 1).drop_last() =~= observations@.subrange(0, i as int));
        match &observations[i].container {
            Some(c) => {
                let ghost before = r@;
                r.push((resources[i].name.clone(), c.id.clone()));
                assert(pair_views(r@) =~= pair_views(before).push((resources@[i as int].name@, c.id@)));
            },
            None => {},
        }
        i += 1;
    }
    assert(resources@.subrange(0, resources@.len() as int) =~= resources@);
    assert(observations@.subrange(0, observations@.len() as int) =~= observations@);
    r
}

/// The first entry of the table `current` whose id `recorded` does not hold for its name.
fn find_recreated(current: &Vec<(String, String)>, recorded: &Vec<(String, String)>) -> (r: Option<String>)
    requires
        sorted(current@),
        sorted(recorded@),
    ensures
        match (r, first_recreated(pair_map(current@), pair_map(recorded@))) {
            (Some(a), Some(b)) => a@ == b,
            (None, None) => true,
            _ => false,
        },
{
    let ghost cm = pair_map(current@);
    let ghost rm = pair_map(recorded@);
    let mut i: usize = 0;
    while i < current.len()
        invariant
            i <= current.len(),
            sorted(current@),
            sorted(recorded@),
            cm == pair_map(current@),
            rm == pair_map(recorded@),
            forall|j: int| 0 <= j < i ==> !recreated_in(cm, rm, #[trigger] current@[j].0@),
        decreases current.len() - i,
    {
        proof { lemma_value_at(current@, i as int); }
        let same = match table_find(recorded, current[i].0.as_str()) {
            Some(k) => {
                proof { lemma_value_at(recorded@, k as int); }
                compare_text(recorded[k].1.as_str(), current[i].1.as_str()) == 0
            },
            None => false,
        };
        if !same {
            let n = current[i].0.clone();
            proof {
                assert(recreated_in(cm, rm, n@));
                assert forall|m: Seq<char>| #[trigger] recreated_in(cm, rm, m) && m != n@ implies lex_lt(n@, m) by {
                    let j = choose|j: int| 0 <= j < current@.len() && #[trigger] current@[j].0@ == m;
                    if j < i {
                    } else if j == i {
                    } else {
                        assert(lex_lt(current@[i as int].0@, current@[j].0@));
                    }
                }
                lemma_least_is_first(cm, rm, n@);
            }
            return Some(n);
        }
        i += 1;
    }
    proof {
        assert forall|m: Seq<char>| !recreated_in(cm, rm, m) by {
            if cm.contains_key(m) {
                let j = choose|j: int| 0 <= j < current@.len() && #[trigger] current@[j].0@ == m;
                assert(!recreated_in(cm, rm, current@[j].0@));
            }
        }
    }
    None
}

proof fn lemma_sorted_union(m: Map<Seq<char>, Seq<char>>, s: Seq<(String, String)>)
    requires
        sorted(s),
    ensures
        inserted(m, pair_views(s)) == m.union_prefer_right(pair_map(s)),
    decreases s.len(),
{
    if s.len() > 0 {
        let d = s.drop_last();
        assert(sorted(d));
        lemma_sorted_union(m, d);
        assert(pair_views(s).drop_last() =~= pair_views(d));
        let n = s.len() - 1;
        lemma_value_at(s, n);
        assert forall|k: Seq<char>| #[trigger] pair_map(s).contains_key(k) <==> pair_map(d).insert(s[n].0@, s[n].1@).contains_key(k) by {
            if k != s[n].0@ && pair_map(s).contains_key(k) {
                let j = choose|j: int| 0 <= j < s.len() && #[trigger] s[j].0@ == k;
                assert(d[j].0@ == k);
            }
            if k != s[n].0@ && pair_map(d).contains_key(k) {
                let j = choose|j: int| 0 <= j < d.len() && #[trigger] d[j].0@ == k;
                assert(s[j].0@ == k);
            }
        }
        assert forall|k: Seq<char>| #[trigger] pair_map(s).contains_key(k) && k != s[n].0@ implies pair_map(s)[k] == pair_map(d)[k] by {
            let j = choose|j: int| 0 <= j < s.len() && #[trigger] s[j].0@ == k;
            lemma_value_at(s, j);
            assert(d[j] == s[j]);
            lemma_value_at(d, j);
        }
        assert(pair_map(s) =~= pair_map(d).insert(s[n].0@, s[n].1@));
        assert(inserted(m, pair_views(s)) =~= m.union_prefer_right(pair_map(s)));
    } else {
        assert(pair_map(s) =~= Map::<Seq<char>, Seq<char>>::empty());
        assert(m.union_prefer_right(pair_map(s)) =~= m);
    }
}

/// What is observed now, as a table by name.
pub fn current_table(resources: &Vec<Resource>, observations: &Vec<Observation>) -> (t: Vec<(String, String)>)
    requires
        observations@.len() == resources@.len(),
    ensures
        sorted(t@),
        pair_map(t@) == current_of(resources@, observations@),
{
    let seen = observed(resources, observations);
    let mut t: Vec<(String, String)> = Vec::new();
    assert(pair_map(t@) =~= Map::<Seq<char>, Seq<char>>::empty());
    insert_pairs(&mut t, &seen);
    t
}

/// What becomes of `marker`, given the command rendered now, the resources observed
/// now, and the resources this command started.
pub fn judge(marker: &MarkerRead, command: &str, current: &Vec<(String, String)>, started: &Vec<String>) -> (f: Freshness)
    requires
        sorted(current@),
    ensures
        f.is_state(marker_state(*marker, command@, pair_map(current@), started@)),
{
    match marker {
        MarkerRead::Absent => Freshness::Stale(None),
        MarkerRead::Malformed => {
            proof { reveal_strlit("seed marker was invalid"); }
            Freshness::Stale(Some(owned("seed marker was invalid")))
        },
        MarkerRead::Legacy(c) => {
            if compare_text(c.as_str(), command) != 0 {
                Freshness::Stale(Some(owned("command changed")))
            } else if started.len() > 0 {
                let mut why = owned("resource ");
                push_text(&mut why, started[0].as_str());
                push_text(&mut why, " was recreated");
                Freshness::Stale(Some(why))
            } else {
                Freshness::Migrate
            }
        },
        MarkerRead::Structured(m) => {
            if compare_text(m.command.as_str(), command) != 0 {
                Freshness::Stale(Some(owned("command changed")))
            } else {
                let mut table: Vec<(String, String)> = Vec::new();
                assert(pair_map(table@) =~= Map::<Seq<char>, Seq<char>>::empty());
                insert_pairs(&mut table, &m.resources);
                proof { lemma_sorted_union(Map::empty(), table@); assert(Map::<Seq<char>, Seq<char>>::empty().union_prefer_right(pair_map(table@)) =~= pair_map(table@)); }
                match find_recreated(current, &table) {
                    Some(n) => {
                        let mut why = owned("resource ");
                        push_text(&mut why, n.as_str());
                        push_text(&mut why, " was recreated");
                        Freshness::Stale(Some(why))
                    },
                    None => Freshness::Valid,
                }
            }
        },
    }
}

/// The marker to write now for `command`: the old structured marker's resources with
/// every container observed now laid over them.
pub fn next_marker(marker: &MarkerRead, command: String, current: &Vec<(String, String)>) -> (m: SeedMarker)
    requires
        sorted(current@),
    ensures
        m.command@ == command@,
        sorted(m.resources@),
        pair_map(m.resources@) == next_record(*marker, pair_map(current@)),
{
    let mut table: Vec<(String, String)> = Vec::new();
    assert(pair_map(table@) =~= Map::<Seq<char>, Seq<char>>::empty());
    match marker {
        MarkerRead::Structured(old) => { insert_pairs(&mut table, &old.resources); },
        _ => {},
    }
    let ghost prior = pair_map(table@);
    insert_pairs(&mut table, current);
    proof { lemma_sorted_union(prior, current@); }
    SeedMarker { command, resources: table }
}

proof fn lemma_recorded_is_written(written: SeedMarker)
    requires
        sorted(written.resources@),
    ensures
        recorded_of(written) == pair_map(written.resources@),
{
    lemma_sorted_union(Map::empty(), written.resources@);
    assert(Map::<Seq<char>, Seq<char>>::empty().union_prefer_right(pair_map(written.resources@)) =~= pair_map(written.resources@));
}

proof fn lemma_least_in_table(t: Seq<(String, String)>, recorded: Map<Seq<char>, Seq<char>>, i: int)
    requires
        sorted(t),
        0 <= i <= t.len(),
        forall|j: int| 0 <= j < i ==> !recreated_in(pair_map(t), recorded, #[trigger] t[j].0@),
        exists|n: Seq<char>| recreated_in(pair_map(t), recorded, n),
    ensures
        exists|n: Seq<char>| least_recreated(pair_map(t), recorded, n),
    decreases t.len() - i,
{
    let cm = pair_map(t);
    if i == t.len() {
        let n = choose|n: Seq<char>| recreated_in(cm, recorded, n);
        let j = choose|j: int| 0 <= j < t.len() && #[trigger] t[j].0@ == n;
        assert(!recreated_in(cm, recorded, t[j].0@));
    } else if recreated_in(cm, recorded, t[i].0@) {
        let n = t[i].0@;
        assert forall|m: Seq<char>| #[trigger] recreated_in(cm, recorded, m) && m != n implies lex_lt(n, m) by {
            let j = choose|j: int| 0 <= j < t.len() && #[trigger] t[j].0@ == m;
            if j > i {
                assert(lex_lt(t[i].0@, t[j].0@));
            }
        }
        assert(least_recreated(cm, recorded, n));
    } else {
        lemma_least_in_table(t, recorded, i + 1);
    }
}

/// A seed runs once per incarnation: the marker a successful run wrote holds the
/// next time, for the same rendered command and the same observed containers,
/// whatever this command started.
pub proof fn law_a_seed_runs_once_per_incarnation(
    before: MarkerRead,
    command: Seq<char>,
    current: Map<Seq<char>, Seq<char>>,
    written: SeedMarker,
    started: Seq<String>,
)
    requires
        written.command@ == command,
        sorted(written.resources@),
        pair_map(written.resources@) == next_record(before, current),
    ensures
        marker_state(MarkerRead::Structured(written), command, current, started) is Valid,
{
    lemma_recorded_is_written(written);
    assert forall|n: Seq<char>| !recreated_in(current, recorded_of(written), n) by {}
}

/// A seed runs again once its marker no longer holds. After a successful run for
/// `first` with `seen` observed, which wrote `written`, a later judgement of that
/// marker: for another rendered command says "command changed"; for the same command
/// with some managed container observed under an id other than the one recorded (a
/// datastore recreated, or newly managed), names the first such resource by name as
/// recreated; and a marker that no longer reads says "seed marker was invalid".
pub proof fn law_a_seed_reruns_when_its_marker_no_longer_holds(
    before: MarkerRead,
    first: Seq<char>,
    seen: Map<Seq<char>, Seq<char>>,
    written: SeedMarker,
    second: Seq<char>,
    now_seen: Seq<(String, String)>,
    started: Seq<String>,
    resource: Seq<char>,
)
    requires
        written.command@ == first,
        sorted(written.resources@),
        pair_map(written.resources@) == next_record(before, seen),
        sorted(now_seen),
    ensures
        second != first ==> marker_state(MarkerRead::Structured(written), second, pair_map(now_seen), started)
            == MarkerState::Stale(Some("command changed"@)),
        second == first && (exists|n: Seq<char>| recreated_in(pair_map(now_seen), next_record(before, seen), n)) ==> exists|r: Seq<char>| {
            &&& least_recreated(pair_map(now_seen), next_record(before, seen), r)
            &&& marker_state(MarkerRead::Structured(written), second, pair_map(now_seen), started)
                == MarkerState::Stale(Some("resource "@ + r + " was recreated"@))
        },
        second == first && seen.contains_key(resource) && pair_map(now_seen).contains_key(resource)
            && pair_map(now_seen)[resource] != seen[resource]
            ==> marker_state(MarkerRead::Structured(written), second, pair_map(now_seen), started) is Stale,
        marker_state(MarkerRead::Malformed, second, pair_map(now_seen), started)
            == MarkerState::Stale(Some("seed marker was invalid"@)),
{
    lemma_recorded_is_written(written);
    let rec = next_record(before, seen);
    if second == first && (exists|n: Seq<char>| recreated_in(pair_map(now_seen), rec, n)) {
        lemma_least_in_table(now_seen, rec, 0);
        let r = choose|r: Seq<char>| least_recreated(pair_map(now_seen), rec, r);
        lemma_least_is_first(pair_map(now_seen), rec, r);
    }
    if second == first && seen.contains_key(resource) && pair_map(now_seen).contains_key(resource)
        && pair_map(now_seen)[resource] != seen[resource] {
        assert(recreated_in(pair_map(now_seen), rec, resource));
        lemma_least_in_table(now_seen, rec, 0);
        let r = choose|r: Seq<char>| least_recreated(pair_map(now_seen), rec, r);
        lemma_least_is_first(pair_map(now_seen), rec, r);
    }
}

} // verus!
